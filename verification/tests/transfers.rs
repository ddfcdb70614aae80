use safe_mmio::chunk::{transfer_aligned, Width};
use safe_mmio::custom_mmio::{
    mmio_read, mmio_write, read_access, read_chunks, write_access, write_chunks, MmioOps,
};
use safe_mmio::device::Mmio;
use safe_mmio::repr::{load_value, push_value, ByteOrder};
use safe_mmio::trace::{Access, AccessKind};
use safe_mmio::volatile_backend::{safe_mmio_read, safe_mmio_write};
use std::sync::{Mutex, MutexGuard};

const BASE: usize = 0x1000;
const SIZE: usize = 64;

/// Registers that behave like memory: a read of `n` bytes returns the value
/// that those bytes hold least significant first, a write stores it so. Every
/// access is recorded.
struct Regs {
    mem: Vec<u8>,
    log: Vec<Access>,
}

static REGS: Mutex<Regs> = Mutex::new(Regs { mem: Vec::new(), log: Vec::new() });
static SERIAL: Mutex<()> = Mutex::new(());

fn regs() -> MutexGuard<'static, Regs> {
    REGS.lock().unwrap_or_else(|e| e.into_inner())
}

fn width_of(n: usize) -> Width {
    match n {
        1 => Width::U8,
        2 => Width::U16,
        4 => Width::U32,
        _ => Width::U64,
    }
}

fn value_at(mem: &[u8], addr: usize, n: usize) -> u64 {
    let mut v: u64 = 0;
    for i in (0..n).rev() {
        v = (v << 8) | mem[addr - BASE + i] as u64;
    }
    v
}

struct FakeRegs;

impl FakeRegs {
    fn read(addr: usize, n: usize) -> u64 {
        let mut r = regs();
        assert!(addr % n == 0, "misaligned read");
        let v = value_at(&r.mem, addr, n);
        r.log.push(Access { kind: AccessKind::Read, addr, width: width_of(n), value: v });
        v
    }

    fn write(addr: usize, n: usize, value: u64) {
        let mut r = regs();
        assert!(addr % n == 0, "misaligned write");
        r.log.push(Access { kind: AccessKind::Write, addr, width: width_of(n), value });
        for i in 0..n {
            r.mem[addr - BASE + i] = (value >> (8 * i)) as u8;
        }
    }
}

impl MmioOps for FakeRegs {
    fn read_u8(src: usize) -> u8 {
        FakeRegs::read(src, 1) as u8
    }
    fn read_u16(src: usize) -> u16 {
        FakeRegs::read(src, 2) as u16
    }
    fn read_u32(src: usize) -> u32 {
        FakeRegs::read(src, 4) as u32
    }
    fn read_u64(src: usize) -> u64 {
        FakeRegs::read(src, 8)
    }
    fn write_u8(dst: usize, value: u8) {
        FakeRegs::write(dst, 1, value as u64)
    }
    fn write_u16(dst: usize, value: u16) {
        FakeRegs::write(dst, 2, value as u64)
    }
    fn write_u32(dst: usize, value: u32) {
        FakeRegs::write(dst, 4, value as u64)
    }
    fn write_u64(dst: usize, value: u64) {
        FakeRegs::write(dst, 8, value)
    }
}

/// A view of the fake registers for one test: it holds the lock that keeps
/// tests apart, and starts with the registers holding 0x10, 0x11, ...
struct Fake {
    _serial: MutexGuard<'static, ()>,
}

impl Fake {
    fn log(&self) -> Vec<Access> {
        regs().log.clone()
    }
    fn clear_log(&self) {
        regs().log.clear();
    }
    fn mem(&self) -> Vec<u8> {
        regs().mem.clone()
    }
    fn set(&self, i: usize, b: u8) {
        regs().mem[i] = b;
    }
}

fn fresh() -> (Fake, Mmio<FakeRegs>) {
    let serial = SERIAL.lock().unwrap_or_else(|e| e.into_inner());
    {
        let mut r = regs();
        r.mem = (0..SIZE).map(|i| 0x10 + i as u8).collect();
        r.log.clear();
    }
    (Fake { _serial: serial }, Mmio::new())
}

fn rd(fake: &Fake, addr: usize, n: usize) -> Access {
    Access { kind: AccessKind::Read, addr, width: width_of(n), value: value_at(&fake.mem(), addr, n) }
}

fn wr(addr: usize, n: usize, value: u64) -> Access {
    Access { kind: AccessKind::Write, addr, width: width_of(n), value }
}

#[test]
fn read_chunks_uses_widest_accesses_first() {
    let (fake, mut dev) = fresh();
    let bytes = read_chunks(&mut dev, BASE, 15, ByteOrder::Little);
    let expected = vec![
        rd(&fake, BASE, 8),
        rd(&fake, BASE + 8, 4),
        rd(&fake, BASE + 12, 2),
        rd(&fake, BASE + 14, 1),
    ];
    assert_eq!(fake.log(), expected);
    assert_eq!(bytes, fake.mem()[..15].to_vec());
}

#[test]
fn read_chunks_of_two_words_and_a_byte() {
    let (fake, mut dev) = fresh();
    let bytes = read_chunks(&mut dev, BASE + 8, 17, ByteOrder::Little);
    let expected =
        vec![rd(&fake, BASE + 8, 8), rd(&fake, BASE + 16, 8), rd(&fake, BASE + 24, 1)];
    assert_eq!(fake.log(), expected);
    assert_eq!(bytes, fake.mem()[8..25].to_vec());
}

#[test]
fn volatile_read_of_twelve_bytes() {
    let (fake, mut dev) = fresh();
    for i in 0..12 {
        fake.set(i, i as u8 + 1);
    }
    let bytes = safe_mmio_read(&mut dev, BASE, 12, ByteOrder::Little);
    assert_eq!(fake.log(), vec![rd(&fake, BASE, 8), rd(&fake, BASE + 8, 4)]);
    assert_eq!(bytes, (1..=12).collect::<Vec<u8>>());
}

#[test]
fn mmio_read_power_of_two_sizes_are_single_accesses() {
    for size in [1usize, 2, 4, 8] {
        let (fake, mut dev) = fresh();
        let bytes = mmio_read(&mut dev, BASE, size, ByteOrder::Little);
        assert_eq!(fake.log(), vec![rd(&fake, BASE, size)]);
        assert_eq!(bytes, fake.mem()[..size].to_vec());
    }
}

#[test]
fn mmio_read_of_three_bytes() {
    let (fake, mut dev) = fresh();
    let bytes = mmio_read(&mut dev, BASE + 2, 3, ByteOrder::Little);
    assert_eq!(fake.log(), vec![rd(&fake, BASE + 2, 2), rd(&fake, BASE + 4, 1)]);
    assert_eq!(bytes, vec![0x12, 0x13, 0x14]);
}

#[test]
fn mmio_read_of_nothing_makes_no_access() {
    let (fake, mut dev) = fresh();
    let bytes = mmio_read(&mut dev, BASE, 0, ByteOrder::Little);
    assert!(fake.log().is_empty());
    assert!(bytes.is_empty());
}

#[test]
fn big_endian_layout_reverses_each_access() {
    let (fake, mut dev) = fresh();
    let bytes = mmio_read(&mut dev, BASE, 6, ByteOrder::Big);
    assert_eq!(fake.log(), vec![rd(&fake, BASE, 4), rd(&fake, BASE + 4, 2)]);
    assert_eq!(bytes, vec![0x13, 0x12, 0x11, 0x10, 0x15, 0x14]);
}

#[test]
fn mmio_write_single_access_value() {
    let (fake, mut dev) = fresh();
    mmio_write(&mut dev, BASE, &[1, 2, 3, 4, 5, 6, 7, 8], ByteOrder::Little);
    assert_eq!(fake.log(), vec![wr(BASE, 8, 0x0807_0605_0403_0201)]);
    fake.clear_log();
    mmio_write(&mut dev, BASE, &[0xab, 0xcd], ByteOrder::Big);
    assert_eq!(fake.log(), vec![wr(BASE, 2, 0xabcd)]);
}

#[test]
fn write_chunks_values_and_order() {
    let (fake, mut dev) = fresh();
    let data: Vec<u8> = (1..=7).collect();
    write_chunks(&mut dev, BASE + 8, &data, ByteOrder::Little);
    assert_eq!(
        fake.log(),
        vec![wr(BASE + 8, 4, 0x0403_0201), wr(BASE + 12, 2, 0x0605), wr(BASE + 14, 1, 0x07)]
    );
    assert_eq!(fake.mem()[8..15].to_vec(), data);
}

#[test]
fn volatile_write_of_seven_bytes() {
    let (fake, mut dev) = fresh();
    safe_mmio_write(&mut dev, BASE + 4, &[1, 2, 3, 4, 5, 6, 7], ByteOrder::Little);
    assert_eq!(
        fake.log(),
        vec![wr(BASE + 4, 4, 0x0403_0201), wr(BASE + 8, 2, 0x0605), wr(BASE + 10, 1, 0x07)]
    );
}

#[test]
fn single_accesses_record_what_they_move() {
    let (fake, mut dev) = fresh();
    let mut buf = Vec::new();
    let v = read_access(&mut dev, BASE + 4, Width::U32, &mut buf, ByteOrder::Big);
    assert_eq!(v, 0x1716_1514);
    assert_eq!(buf, vec![0x17, 0x16, 0x15, 0x14]);
    assert_eq!(fake.log(), vec![rd(&fake, BASE + 4, 4)]);
    write_access(&mut dev, BASE + 2, Width::U16, &[9, 0xaa, 0xbb], 1, ByteOrder::Little);
    assert_eq!(fake.log()[1], wr(BASE + 2, 2, 0xbbaa));
    assert_eq!(fake.mem()[2..4].to_vec(), vec![0xaa, 0xbb]);
}

#[test]
fn write_then_read_gives_back_the_bytes() {
    for order in [ByteOrder::Little, ByteOrder::Big] {
        for len in 0..=SIZE {
            let (_fake, mut dev) = fresh();
            let data: Vec<u8> = (0..len).map(|i| (i * 37 + 5) as u8).collect();
            mmio_write(&mut dev, BASE, &data, order);
            assert_eq!(mmio_read(&mut dev, BASE, len, order), data);
            safe_mmio_write(&mut dev, BASE, &data, order);
            assert_eq!(safe_mmio_read(&mut dev, BASE, len, order), data);
        }
    }
}

#[test]
fn both_backends_make_the_same_accesses() {
    for len in 0..=SIZE {
        let (fake, mut dev) = fresh();
        let a = mmio_read(&mut dev, BASE, len, ByteOrder::Little);
        let custom = fake.log();
        fake.clear_log();
        let b = safe_mmio_read(&mut dev, BASE, len, ByteOrder::Little);
        let volatile = fake.log();
        fake.clear_log();
        assert_eq!(custom, volatile);
        assert_eq!(a, b);
        let data = vec![0x5a; len];
        mmio_write(&mut dev, BASE, &data, ByteOrder::Big);
        let custom = fake.log();
        fake.clear_log();
        safe_mmio_write(&mut dev, BASE, &data, ByteOrder::Big);
        assert_eq!(custom, fake.log());
    }
}

#[test]
fn access_count_follows_length() {
    for len in 0..=SIZE {
        let (fake, mut dev) = fresh();
        let _ = read_chunks(&mut dev, BASE, len, ByteOrder::Little);
        assert_eq!(fake.log().len(), len / 8 + (len % 8) / 4 + (len % 4) / 2 + len % 2);
        let mut next = BASE;
        for a in &fake.log() {
            assert_eq!(a.kind, AccessKind::Read);
            assert_eq!(a.addr, next);
            assert_eq!(a.addr % a.width.size(), 0);
            next += a.width.size();
        }
        assert_eq!(next, BASE + len);
    }
}

#[test]
fn push_and_load_values() {
    let mut buf = vec![0xee];
    push_value(&mut buf, 0x1234, Width::U16, ByteOrder::Little);
    push_value(&mut buf, 0x1234, Width::U16, ByteOrder::Big);
    push_value(&mut buf, 0xa1b2_c3d4, Width::U32, ByteOrder::Big);
    push_value(&mut buf, 0x7f, Width::U8, ByteOrder::Little);
    assert_eq!(buf, vec![0xee, 0x34, 0x12, 0x12, 0x34, 0xa1, 0xb2, 0xc3, 0xd4, 0x7f]);
    assert_eq!(load_value(&buf, 1, Width::U16, ByteOrder::Little), 0x1234);
    assert_eq!(load_value(&buf, 3, Width::U16, ByteOrder::Big), 0x1234);
    assert_eq!(load_value(&buf, 5, Width::U32, ByteOrder::Big), 0xa1b2_c3d4);
    assert_eq!(load_value(&buf, 5, Width::U32, ByteOrder::Little), 0xd4c3_b2a1);
    assert_eq!(load_value(&buf, 0, Width::U8, ByteOrder::Big), 0xee);
    let mut wide = Vec::new();
    push_value(&mut wide, u64::MAX - 1, Width::U64, ByteOrder::Little);
    assert_eq!(wide, vec![0xfe, 0xff, 0xff, 0xff, 0xff, 0xff, 0xff, 0xff]);
    assert_eq!(load_value(&wide, 0, Width::U64, ByteOrder::Little), u64::MAX - 1);
    assert_eq!(load_value(&wide, 0, Width::U64, ByteOrder::Big), 0xfeff_ffff_ffff_ffff);
}

#[test]
fn widths_and_alignment_checks() {
    assert_eq!(Width::U8.size(), 1);
    assert_eq!(Width::U16.size(), 2);
    assert_eq!(Width::U32.size(), 4);
    assert_eq!(Width::U64.size(), 8);
    assert!(transfer_aligned(0x1001, 0));
    assert!(transfer_aligned(0x1001, 1));
    assert!(!transfer_aligned(0x1001, 3));
    assert!(transfer_aligned(0x1002, 3));
    assert!(!transfer_aligned(0x1002, 5));
    assert!(transfer_aligned(0x1004, 7));
    assert!(!transfer_aligned(0x1004, 9));
    assert!(transfer_aligned(0x1008, 100));
}
