//! MMIO transfers through device accesses that the user of the crate provides.
use vstd::arithmetic::power::pow;
use vstd::prelude::*;

use crate::chunk::{aligned, aligned_for, lemma_single_access_sizes, widest, Width};
use crate::device::{all_performed, Mmio};
use crate::repr::{decode, encode, lemma_pow256_values, load_value, push_value, ByteOrder};
use crate::trace::{
    lemma_read_advance, lemma_read_done, lemma_read_start, lemma_write_advance, lemma_write_done,
    lemma_write_start, read_in_progress, read_transfer, write_in_progress, write_transfer, Access,
    AccessKind,
};

verus! {

/// MMIO read and write accesses of each width, provided by the user of the crate.
///
/// Per-width methods are used because MMIO access width matters at the
/// hardware level. Implementations must perform a single MMIO access of the
/// indicated width at the given address. The crate calls these methods only
/// through `Mmio`, and only with addresses aligned to the access width.
pub trait MmioOps {
    /// Performs an 8-bit MMIO read.
    fn read_u8(src: usize) -> u8;

    /// Performs a 16-bit MMIO read.
    fn read_u16(src: usize) -> u16
        requires
            aligned(src as int, Width::U16),
    ;

    /// Performs a 32-bit MMIO read.
    fn read_u32(src: usize) -> u32
        requires
            aligned(src as int, Width::U32),
    ;

    /// Performs a 64-bit MMIO read.
    fn read_u64(src: usize) -> u64
        requires
            aligned(src as int, Width::U64),
    ;

    /// Performs an 8-bit MMIO write.
    fn write_u8(dst: usize, value: u8);

    /// Performs a 16-bit MMIO write.
    fn write_u16(dst: usize, value: u16)
        requires
            aligned(dst as int, Width::U16),
    ;

    /// Performs a 32-bit MMIO write.
    fn write_u32(dst: usize, value: u32)
        requires
            aligned(dst as int, Width::U32),
    ;

    /// Performs a 64-bit MMIO write.
    fn write_u64(dst: usize, value: u64)
        requires
            aligned(dst as int, Width::U64),
    ;
}

/// Performs one read of width `width` at `addr` and appends the bytes that the
/// value read holds in `order` to `dst`.
pub fn read_access<M: MmioOps>(
    dev: &mut Mmio<M>,
    addr: usize,
    width: Width,
    dst: &mut Vec<u8>,
    order: ByteOrder,
) -> (value: u64)
    requires
        aligned(addr as int, width),
    ensures
        final(dev).log() == old(dev).log().push(
            Access { kind: AccessKind::Read, addr, width, value },
        ),
        final(dst)@ == old(dst)@ + encode(value as nat, width.bytes(), order),
        final(dst)@.len() == old(dst)@.len() + width.bytes(),
        forall|i: int|
            0 <= i < width.bytes() ==> (#[trigger] final(dst)@[old(dst)@.len() + i]) as int
                == match order {
                ByteOrder::Little => (value as int / pow(256, i as nat)) % 256,
                ByteOrder::Big => (value as int / pow(256, (width.bytes() - 1 - i) as nat)) % 256,
            },
{
    proof {
        lemma_pow256_values();
    }
    let value = dev.read(addr, width);
    push_value(dst, value, width, order);
    value
}

/// Performs one write of width `width` at `addr`, storing the value that the
/// `width` bytes of `src` from `start` hold in `order`.
pub fn write_access<M: MmioOps>(
    dev: &mut Mmio<M>,
    addr: usize,
    width: Width,
    src: &[u8],
    start: usize,
    order: ByteOrder,
)
    requires
        aligned(addr as int, width),
        start + width.bytes() <= src@.len(),
    ensures
        final(dev).log() == old(dev).log().push(
            Access {
                kind: AccessKind::Write,
                addr,
                width,
                value: decode(src@.subrange(start as int, start + width.bytes()), order) as u64,
            },
        ),
        (final(dev).log().last().value as int) < pow(256, width.bytes()),
        forall|i: int|
            0 <= i < width.bytes() ==> (#[trigger] src@[start + i]) as int == match order {
                ByteOrder::Little => (final(dev).log().last().value as int / pow(256, i as nat))
                    % 256,
                ByteOrder::Big => (final(dev).log().last().value as int / pow(
                    256,
                    (width.bytes() - 1 - i) as nat,
                )) % 256,
            },
{
    proof {
        lemma_pow256_values();
    }
    let value = load_value(src, start, width, order);
    dev.write(addr, width, value);
}

/// The next access of a read in progress: the read of width `width` (the
/// widest that fits in what is left) at `base + offset`. Returns the offset
/// after it.
pub(crate) fn read_next<M: MmioOps>(
    dev: &mut Mmio<M>,
    base: usize,
    offset: usize,
    len: usize,
    width: Width,
    dst: &mut Vec<u8>,
    order: ByteOrder,
    Ghost(before): Ghost<Seq<Access>>,
) -> (next: usize)
    requires
        offset < len,
        width == widest((len - offset) as nat),
        read_in_progress(before, old(dev).log(), base as int, len as nat, offset as nat, order, old(dst)@),
    ensures
        next == offset + width.bytes(),
        read_in_progress(before, final(dev).log(), base as int, len as nat, next as nat, order, final(dst)@),
{
    proof {
        crate::chunk::lemma_plan_step(base + offset, (len - offset) as nat);
    }
    let addr = base + offset;
    let ghost log = dev.log();
    let ghost bytes = dst@;
    let value = read_access(dev, addr, width, dst, order);
    proof {
        let a = Access { kind: AccessKind::Read, addr, width, value };
        lemma_read_advance(before, log, base as int, len as nat, offset as nat, order, bytes, a);
    }
    offset + width.size()
}

/// The next access of a write in progress: the write of width `width` (the
/// widest that fits in what is left) at `base + offset`, carrying the value
/// that the bytes of `src` there hold in `order`. Returns the offset after it.
pub(crate) fn write_next<M: MmioOps>(
    dev: &mut Mmio<M>,
    base: usize,
    offset: usize,
    width: Width,
    src: &[u8],
    order: ByteOrder,
    Ghost(before): Ghost<Seq<Access>>,
) -> (next: usize)
    requires
        offset < src@.len(),
        width == widest((src@.len() - offset) as nat),
        write_in_progress(before, old(dev).log(), base as int, src@, offset as nat, order),
    ensures
        next == offset + width.bytes(),
        write_in_progress(before, final(dev).log(), base as int, src@, next as nat, order),
{
    proof {
        lemma_write_advance(before, dev.log(), base as int, src@, offset as nat, order);
    }
    let addr = base + offset;
    write_access(dev, addr, width, src, offset, order);
    offset + width.size()
}

/// Reads `remaining` bytes from MMIO at `src`, splitting the transfer into the
/// largest possible access widths, and returns them in memory order: each
/// access value laid out in `order`.
#[verifier::rlimit(30)]
pub fn read_chunks<M: MmioOps>(
    dev: &mut Mmio<M>,
    src: usize,
    remaining: usize,
    order: ByteOrder,
) -> (dst: Vec<u8>)
    requires
        src + remaining <= usize::MAX,
        aligned_for(src as int, remaining as nat),
    ensures
        dst@.len() == remaining,
        read_transfer(old(dev).log(), final(dev).log(), src as int, remaining as nat, order, dst@),
        all_performed::<M>(final(dev).log()),
{
    let ghost log0 = dev.log();
    let len = remaining;
    let mut remaining = remaining;
    let mut offset: usize = 0;
    let mut dst: Vec<u8> = Vec::new();
    proof {
        lemma_read_start(log0, src, len, order);
    }
    while remaining >= 8
        invariant
            offset + remaining == len,
            read_in_progress(log0, dev.log(), src as int, len as nat, offset as nat, order, dst@),
        decreases remaining,
    {
        offset = read_next(dev, src, offset, len, Width::U64, &mut dst, order, Ghost(log0));
        remaining = remaining - 8;
    }
    if remaining >= 4 {
        offset = read_next(dev, src, offset, len, Width::U32, &mut dst, order, Ghost(log0));
        remaining = remaining - 4;
    }
    if remaining >= 2 {
        offset = read_next(dev, src, offset, len, Width::U16, &mut dst, order, Ghost(log0));
        remaining = remaining - 2;
    }
    if remaining >= 1 {
        offset = read_next(dev, src, offset, len, Width::U8, &mut dst, order, Ghost(log0));
        remaining = remaining - 1;
    }
    proof {
        lemma_read_done(log0, dev.log(), src as int, len as nat, order, dst@);
        use_type_invariant(&*dev);
        dev.lemma_log_performed();
    }
    dst
}

/// Writes the bytes `src` to MMIO at `dst`, splitting the transfer into the
/// largest possible access widths; each access writes the value that its bytes
/// hold in `order`.
#[verifier::rlimit(30)]
pub fn write_chunks<M: MmioOps>(dev: &mut Mmio<M>, dst: usize, src: &[u8], order: ByteOrder)
    requires
        dst + src@.len() <= usize::MAX,
        aligned_for(dst as int, src@.len()),
    ensures
        write_transfer(old(dev).log(), final(dev).log(), dst as int, src@, order),
        all_performed::<M>(final(dev).log()),
{
    let ghost log0 = dev.log();
    let len = src.len();
    let mut remaining = len;
    let mut offset: usize = 0;
    proof {
        lemma_write_start(log0, dst, src@, order);
    }
    while remaining >= 8
        invariant
            offset + remaining == len,
            len == src@.len(),
            write_in_progress(log0, dev.log(), dst as int, src@, offset as nat, order),
        decreases remaining,
    {
        offset = write_next(dev, dst, offset, Width::U64, src, order, Ghost(log0));
        remaining = remaining - 8;
    }
    if remaining >= 4 {
        offset = write_next(dev, dst, offset, Width::U32, src, order, Ghost(log0));
        remaining = remaining - 4;
    }
    if remaining >= 2 {
        offset = write_next(dev, dst, offset, Width::U16, src, order, Ghost(log0));
        remaining = remaining - 2;
    }
    if remaining >= 1 {
        offset = write_next(dev, dst, offset, Width::U8, src, order, Ghost(log0));
        remaining = remaining - 1;
    }
    proof {
        lemma_write_done(log0, dev.log(), dst as int, src@, order);
        use_type_invariant(&*dev);
        dev.lemma_log_performed();
    }
}

/// The width of the single access that moves 1, 2, 4 or 8 bytes.
pub(crate) fn single_width(size: usize) -> (w: Width)
    requires
        size == 1 || size == 2 || size == 4 || size == 8,
    ensures
        w == widest(size as nat),
        w.bytes() == size,
{
    if size == 1 {
        Width::U8
    } else if size == 2 {
        Width::U16
    } else if size == 4 {
        Width::U32
    } else {
        Width::U64
    }
}

/// Performs an MMIO read of `size` bytes at `src` and returns them in memory
/// order. A size of 1, 2, 4 or 8 bytes is one access of that width; any other
/// size is split as `read_chunks` does.
pub fn mmio_read<M: MmioOps>(dev: &mut Mmio<M>, src: usize, size: usize, order: ByteOrder) -> (value:
    Vec<u8>)
    requires
        src + size <= usize::MAX,
        aligned_for(src as int, size as nat),
    ensures
        value@.len() == size,
        read_transfer(old(dev).log(), final(dev).log(), src as int, size as nat, order, value@),
        all_performed::<M>(final(dev).log()),
{
    match size {
        1 | 2 | 4 | 8 => {
            let ghost log0 = dev.log();
            let mut dst: Vec<u8> = Vec::new();
            proof {
                lemma_single_access_sizes(size);
                lemma_read_start(log0, src, size, order);
            }
            let width = single_width(size);
            read_next(dev, src, 0, size, width, &mut dst, order, Ghost(log0));
            proof {
                lemma_read_done(log0, dev.log(), src as int, size as nat, order, dst@);
                use_type_invariant(&*dev);
                dev.lemma_log_performed();
            }
            dst
        },
        _ => read_chunks(dev, src, size, order),
    }
}

/// Performs an MMIO write of the bytes `value` at `dst`. A value of 1, 2, 4 or
/// 8 bytes is one access of that width, writing what the bytes hold in
/// `order`; any other size is split as `write_chunks` does.
pub fn mmio_write<M: MmioOps>(dev: &mut Mmio<M>, dst: usize, value: &[u8], order: ByteOrder)
    requires
        dst + value@.len() <= usize::MAX,
        aligned_for(dst as int, value@.len()),
    ensures
        write_transfer(old(dev).log(), final(dev).log(), dst as int, value@, order),
        all_performed::<M>(final(dev).log()),
{
    let size = value.len();
    match size {
        1 | 2 | 4 | 8 => {
            let ghost log0 = dev.log();
            proof {
                lemma_single_access_sizes(size);
                lemma_write_start(log0, dst, value@, order);
            }
            let width = single_width(size);
            write_next(dev, dst, 0, width, value, order, Ghost(log0));
            proof {
                lemma_write_done(log0, dev.log(), dst as int, value@, order);
                use_type_invariant(&*dev);
                dev.lemma_log_performed();
            }
        },
        _ => write_chunks(dev, dst, value, order),
    }
}

} // verus!
