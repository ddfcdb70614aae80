//! The accesses a device receives, and what a transfer of a register block
//! adds to them.
use vstd::prelude::*;

use crate::chunk::{
    aligned, aligned_for, chunk_plan, end_of, lemma_plan_accesses_aligned, lemma_plan_chunk_within,
    lemma_plan_covers_transfer,
    lemma_plan_step, plan_from, widest, Chunk, Width,
};
use crate::repr::{
    decode, encode, lemma_decode_bytes_by_significance, lemma_encode_bytes_by_significance,
    lemma_encode_decode, lemma_encode_len, lemma_pow256_is_pow, lemma_pow256_values, pow256,
    ByteOrder,
};
use vstd::arithmetic::power::{lemma_pow_positive, pow};

verus! {

/// Whether an access loads from the device or stores to it.
#[derive(Clone, Copy, Debug, PartialEq, Eq, Structural)]
pub enum AccessKind {
    Read,
    Write,
}

/// One MMIO access: its kind, address and width, and the value it loaded or
/// stored.
#[derive(Clone, Copy, Debug, PartialEq, Eq, Structural)]
pub struct Access {
    pub kind: AccessKind,
    pub addr: usize,
    pub width: Width,
    pub value: u64,
}

/// `t` holds one access of kind `kind` per chunk of `p`, in the same order,
/// each at `base` plus the chunk's offset and of the chunk's width.
pub open spec fn follows(t: Seq<Access>, kind: AccessKind, base: int, p: Seq<Chunk>) -> bool {
    &&& t.len() == p.len()
    &&& forall|i: int|
        0 <= i < t.len() ==> {
            &&& (#[trigger] t[i]).kind == kind
            &&& t[i].addr == base + p[i].offset
            &&& t[i].width == p[i].width
        }
}

/// The bytes that the values of the accesses `t` hold in memory, one access
/// after the other, each laid out in `order`.
pub open spec fn bytes_of(t: Seq<Access>, order: ByteOrder) -> Seq<u8>
    decreases t.len(),
{
    if t.len() == 0 {
        Seq::empty()
    } else {
        encode(t[0].value as nat, t[0].width.bytes(), order) + bytes_of(t.drop_first(), order)
    }
}

/// The writes that store `bytes` at `base` through the chunks `p`: each at
/// `base` plus the chunk's offset, of the chunk's width, carrying the value
/// that the chunk's bytes hold in `order`.
pub open spec fn writes_for(base: int, p: Seq<Chunk>, bytes: Seq<u8>, order: ByteOrder) -> Seq<
    Access,
> {
    Seq::new(
        p.len(),
        |i: int|
            Access {
                kind: AccessKind::Write,
                addr: (base + p[i].offset) as usize,
                width: p[i].width,
                value: decode(bytes.subrange(p[i].offset as int, end_of(p[i])), order) as u64,
            },
    )
}

/// The writes of a transfer that stores `bytes` at `base`.
pub open spec fn write_trace(base: int, bytes: Seq<u8>, order: ByteOrder) -> Seq<Access> {
    writes_for(base, chunk_plan(bytes.len()), bytes, order)
}

/// A read of `len` bytes at `base` took the device's accesses from `before`
/// to `after` and gave `bytes`: it added exactly the reads of the plan, in
/// order, and `bytes` are what the values they loaded hold in `order`.
pub open spec fn read_transfer(
    before: Seq<Access>,
    after: Seq<Access>,
    base: int,
    len: nat,
    order: ByteOrder,
    bytes: Seq<u8>,
) -> bool {
    &&& before.len() <= after.len()
    &&& after.subrange(0, before.len() as int) == before
    &&& follows(after.skip(before.len() as int), AccessKind::Read, base, chunk_plan(len))
    &&& bytes == bytes_of(after.skip(before.len() as int), order)
}

/// A write of `bytes` at `base` took the device's accesses from `before` to
/// `after`: it added exactly the writes of the plan, in order.
pub open spec fn write_transfer(
    before: Seq<Access>,
    after: Seq<Access>,
    base: int,
    bytes: Seq<u8>,
    order: ByteOrder,
) -> bool {
    after == before + write_trace(base, bytes, order)
}

proof fn lemma_bytes_of_push(t: Seq<Access>, a: Access, order: ByteOrder)
    ensures
        bytes_of(t.push(a), order) == bytes_of(t, order) + encode(
            a.value as nat,
            a.width.bytes(),
            order,
        ),
    decreases t.len(),
{
    if t.len() == 0 {
        assert(t.push(a).drop_first() =~= Seq::<Access>::empty());
        assert(t.push(a)[0] == a);
        assert(bytes_of(t.push(a).drop_first(), order) == Seq::<u8>::empty());
        assert(bytes_of(t, order) == Seq::<u8>::empty());
        assert(bytes_of(t.push(a), order) =~= encode(a.value as nat, a.width.bytes(), order));
    } else {
        lemma_bytes_of_push(t.drop_first(), a, order);
        assert(t.push(a).drop_first() =~= t.drop_first().push(a));
        assert(bytes_of(t.push(a), order) =~= bytes_of(t, order) + encode(
            a.value as nat,
            a.width.bytes(),
            order,
        ));
    }
}

/// One more read, of chunk `c`, keeps the reads following the chunks issued so
/// far and appends its value's bytes.
pub proof fn lemma_read_step(
    t: Seq<Access>,
    issued: Seq<Chunk>,
    base: int,
    c: Chunk,
    a: Access,
    order: ByteOrder,
)
    requires
        follows(t, AccessKind::Read, base, issued),
        a.kind == AccessKind::Read,
        a.addr == base + c.offset,
        a.width == c.width,
    ensures
        follows(t.push(a), AccessKind::Read, base, issued.push(c)),
        bytes_of(t.push(a), order) == bytes_of(t, order) + encode(
            a.value as nat,
            a.width.bytes(),
            order,
        ),
{
    lemma_bytes_of_push(t, a, order);
    let t2 = t.push(a);
    let p2 = issued.push(c);
    assert forall|i: int| 0 <= i < t2.len() implies {
        &&& (#[trigger] t2[i]).kind == AccessKind::Read
        &&& t2[i].addr == base + p2[i].offset
        &&& t2[i].width == p2[i].width
    } by {
        if i < t.len() {
            assert(t2[i] == t[i]);
            assert(p2[i] == issued[i]);
        }
    }
}

/// One more write, of chunk `c`, extends the writes of the chunks issued so
/// far by that chunk's write.
pub proof fn lemma_write_step(
    base: int,
    issued: Seq<Chunk>,
    c: Chunk,
    bytes: Seq<u8>,
    order: ByteOrder,
)
    ensures
        writes_for(base, issued.push(c), bytes, order) == writes_for(
            base,
            issued,
            bytes,
            order,
        ).push(
            Access {
                kind: AccessKind::Write,
                addr: (base + c.offset) as usize,
                width: c.width,
                value: decode(bytes.subrange(c.offset as int, end_of(c)), order) as u64,
            },
        ),
{
    assert(writes_for(base, issued.push(c), bytes, order) =~= writes_for(
        base,
        issued,
        bytes,
        order,
    ).push(
        Access {
            kind: AccessKind::Write,
            addr: (base + c.offset) as usize,
            width: c.width,
            value: decode(bytes.subrange(c.offset as int, end_of(c)), order) as u64,
        },
    ));
}

proof fn lemma_reads_of_written_bytes(
    t: Seq<Access>,
    offset: nat,
    remaining: nat,
    bytes: Seq<u8>,
    order: ByteOrder,
)
    requires
        offset + remaining <= bytes.len(),
        offset + remaining <= usize::MAX,
        t.len() == plan_from(offset, remaining).len(),
        forall|i: int|
            0 <= i < t.len() ==> {
                let c = #[trigger] plan_from(offset, remaining)[i];
                &&& t[i].width == c.width
                &&& t[i].value == decode(bytes.subrange(c.offset as int, end_of(c)), order) as u64
            },
    ensures
        bytes_of(t, order) == bytes.subrange(offset as int, (offset + remaining) as int),
    decreases remaining,
{
    if remaining == 0 {
        assert(bytes.subrange(offset as int, offset as int) =~= Seq::<u8>::empty());
    } else {
        let p = plan_from(offset, remaining);
        let w = widest(remaining);
        let next = offset + w.bytes();
        let left = (remaining - w.bytes()) as nat;
        let rest = plan_from(next, left);
        assert(p == seq![Chunk { offset: offset as usize, width: w }] + rest);
        assert forall|i: int| 0 <= i < t.drop_first().len() implies {
            let c = #[trigger] rest[i];
            &&& t.drop_first()[i].width == c.width
            &&& t.drop_first()[i].value == decode(
                bytes.subrange(c.offset as int, end_of(c)),
                order,
            ) as u64
        } by {
            assert(p[i + 1] == rest[i]);
        }
        lemma_reads_of_written_bytes(t.drop_first(), next, left, bytes, order);
        let s = bytes.subrange(offset as int, next as int);
        assert(p[0] == Chunk { offset: offset as usize, width: w });
        lemma_encode_decode(s, order);
        lemma_pow256_values();
        assert(pow256(w.bytes()) <= pow256(8));
        assert(t[0].value as nat == decode(s, order));
        assert(bytes.subrange(offset as int, (offset + remaining) as int) =~= s + bytes.subrange(
            next as int,
            (next + left) as int,
        ));
    }
}

/// Writing bytes and then reading the same block back from registers that
/// answer each read with the value of the matching write gives back the bytes.
pub proof fn lemma_write_then_read(
    base: usize,
    bytes: Seq<u8>,
    order: ByteOrder,
    before_write: Seq<Access>,
    after_write: Seq<Access>,
    before_read: Seq<Access>,
    after_read: Seq<Access>,
    read_back: Seq<u8>,
)
    requires
        bytes.len() <= usize::MAX,
        write_transfer(before_write, after_write, base as int, bytes, order),
        read_transfer(before_read, after_read, base as int, bytes.len(), order, read_back),
        forall|i: int|
            0 <= i < chunk_plan(bytes.len()).len() ==> (#[trigger] after_read.skip(
                before_read.len() as int,
            )[i]).value == write_trace(base as int, bytes, order)[i].value,
    ensures
        read_back == bytes,
{
    let t = after_read.skip(before_read.len() as int);
    let p = chunk_plan(bytes.len());
    assert forall|i: int| 0 <= i < t.len() implies {
        let c = #[trigger] plan_from(0, bytes.len())[i];
        &&& t[i].width == c.width
        &&& t[i].value == decode(bytes.subrange(c.offset as int, end_of(c)), order) as u64
    } by {
        assert(p[i] == plan_from(0, bytes.len())[i]);
        assert(t[i].value == write_trace(base as int, bytes, order)[i].value);
    }
    lemma_reads_of_written_bytes(t, 0, bytes.len(), bytes, order);
    assert(bytes.subrange(0, bytes.len() as int) =~= bytes);
}

/// A read is determined by what the device answers: two reads of the same
/// block whose accesses loaded the same values made the same accesses and gave
/// the same bytes.
pub proof fn lemma_read_determined_by_answers(
    base: usize,
    len: nat,
    order: ByteOrder,
    before1: Seq<Access>,
    after1: Seq<Access>,
    bytes1: Seq<u8>,
    before2: Seq<Access>,
    after2: Seq<Access>,
    bytes2: Seq<u8>,
)
    requires
        read_transfer(before1, after1, base as int, len, order, bytes1),
        read_transfer(before2, after2, base as int, len, order, bytes2),
        forall|i: int|
            0 <= i < chunk_plan(len).len() ==> (#[trigger] after1.skip(before1.len() as int)[i]).value
                == after2.skip(before2.len() as int)[i].value,
    ensures
        after1.skip(before1.len() as int) == after2.skip(before2.len() as int),
        bytes1 == bytes2,
{
    let t1 = after1.skip(before1.len() as int);
    let t2 = after2.skip(before2.len() as int);
    assert forall|i: int| 0 <= i < t1.len() implies t1[i] == t2[i] by {
        assert(t1[i].value == t2[i].value);
    }
    assert(t1 =~= t2);
}

/// Partway through a read of `len` bytes at `base`: the device's accesses went
/// from `before` to `after` by the reads of the plan's chunks up to `offset`,
/// in order, and `bytes` are what the values they loaded hold in `order`.
pub open spec fn read_in_progress(
    before: Seq<Access>,
    after: Seq<Access>,
    base: int,
    len: nat,
    offset: nat,
    order: ByteOrder,
    bytes: Seq<u8>,
) -> bool {
    let t = after.skip(before.len() as int);
    let p = chunk_plan(len);
    &&& 0 <= base
    &&& base + len <= usize::MAX
    &&& offset <= len
    &&& aligned_for(base + offset, (len - offset) as nat)
    &&& before.len() <= after.len()
    &&& after.subrange(0, before.len() as int) == before
    &&& t.len() <= p.len()
    &&& p.skip(t.len() as int) == plan_from(offset, (len - offset) as nat)
    &&& follows(t, AccessKind::Read, base, p.take(t.len() as int))
    &&& bytes == bytes_of(t, order)
    &&& bytes.len() == offset
}

/// Partway through a write of `bytes` at `base`: the device's accesses went
/// from `before` to `after` by the writes of the plan's chunks up to `offset`,
/// in order.
pub open spec fn write_in_progress(
    before: Seq<Access>,
    after: Seq<Access>,
    base: int,
    bytes: Seq<u8>,
    offset: nat,
    order: ByteOrder,
) -> bool {
    let len = bytes.len();
    let p = chunk_plan(len);
    let k = after.len() - before.len();
    &&& 0 <= base
    &&& base + len <= usize::MAX
    &&& offset <= len
    &&& aligned_for(base + offset, (len - offset) as nat)
    &&& before.len() <= after.len()
    &&& k <= p.len()
    &&& p.skip(k) == plan_from(offset, (len - offset) as nat)
    &&& after == before + writes_for(base, p.take(k), bytes, order)
}

/// A read that has made no access yet is at its start.
pub proof fn lemma_read_start(log: Seq<Access>, base: usize, len: usize, order: ByteOrder)
    requires
        base + len <= usize::MAX,
        aligned_for(base as int, len as nat),
    ensures
        read_in_progress(log, log, base as int, len as nat, 0, order, Seq::empty()),
{
    let p = chunk_plan(len as nat);
    assert(log.skip(log.len() as int) =~= Seq::<Access>::empty());
    assert(log.subrange(0, log.len() as int) =~= log);
    assert(p.skip(0) =~= p);
    assert(p.take(0) =~= Seq::<Chunk>::empty());
}

/// A write that has made no access yet is at its start.
pub proof fn lemma_write_start(log: Seq<Access>, base: usize, bytes: Seq<u8>, order: ByteOrder)
    requires
        base + bytes.len() <= usize::MAX,
        aligned_for(base as int, bytes.len()),
    ensures
        write_in_progress(log, log, base as int, bytes, 0, order),
{
    let p = chunk_plan(bytes.len());
    assert(p.skip(0) =~= p);
    assert(p.take(0) =~= Seq::<Chunk>::empty());
    assert(log + writes_for(base as int, p.take(0), bytes, order) =~= log);
}

proof fn lemma_plan_next(p: Seq<Chunk>, k: int, offset: nat, remaining: nat)
    requires
        0 <= k <= p.len(),
        remaining > 0,
        p.skip(k) == plan_from(offset, remaining),
    ensures
        k < p.len(),
        p[k] == (Chunk { offset: offset as usize, width: widest(remaining) }),
        p.skip(k + 1) == plan_from(
            offset + widest(remaining).bytes(),
            (remaining - widest(remaining).bytes()) as nat,
        ),
        p.take(k + 1) == p.take(k).push(p[k]),
{
    let w = widest(remaining);
    let c = Chunk { offset: offset as usize, width: w };
    let rest = plan_from(offset + w.bytes(), (remaining - w.bytes()) as nat);
    assert(plan_from(offset, remaining) == seq![c] + rest);
    assert(p.skip(k).len() > 0);
    assert(p.skip(k)[0] == p[k]);
    assert(p.skip(k).len() == rest.len() + 1);
    assert forall|i: int| 0 <= i < rest.len() implies #[trigger] p.skip(k + 1)[i] == rest[i] by {
        assert(p.skip(k)[i + 1] == rest[i]);
        assert(p.skip(k)[i + 1] == p[k + 1 + i]);
    }
    assert(p.skip(k + 1) =~= rest);
    assert(p.take(k + 1) =~= p.take(k).push(p[k]));
}

/// The next read of a read in progress: the read of the widest access that
/// fits, at `base + offset`, moves the read on by that width.
pub proof fn lemma_read_advance(
    before: Seq<Access>,
    after: Seq<Access>,
    base: int,
    len: nat,
    offset: nat,
    order: ByteOrder,
    bytes: Seq<u8>,
    a: Access,
)
    requires
        read_in_progress(before, after, base, len, offset, order, bytes),
        offset < len,
        a.kind == AccessKind::Read,
        a.addr == base + offset,
        a.width == widest((len - offset) as nat),
    ensures
        read_in_progress(
            before,
            after.push(a),
            base,
            len,
            offset + a.width.bytes(),
            order,
            bytes + encode(a.value as nat, a.width.bytes(), order),
        ),
{
    let t = after.skip(before.len() as int);
    let k = t.len() as int;
    let p = chunk_plan(len);
    let remaining = (len - offset) as nat;
    lemma_plan_next(p, k, offset, remaining);
    lemma_plan_step(base + offset, remaining);
    lemma_read_step(t, p.take(k), base, p[k], a, order);
    assert(after.push(a).skip(before.len() as int) =~= t.push(a));
    assert(after.push(a).subrange(0, before.len() as int) =~= after.subrange(
        0,
        before.len() as int,
    ));
    lemma_encode_len(a.value as nat, a.width.bytes(), order);
}

/// The next write of a write in progress: the write of the widest access that
/// fits, at `base + offset`, carrying the value its bytes hold, moves the
/// write on by that width.
pub proof fn lemma_write_advance(
    before: Seq<Access>,
    after: Seq<Access>,
    base: int,
    bytes: Seq<u8>,
    offset: nat,
    order: ByteOrder,
)
    requires
        write_in_progress(before, after, base, bytes, offset, order),
        offset < bytes.len(),
    ensures
        ({
            let w = widest((bytes.len() - offset) as nat);
            let a = Access {
                kind: AccessKind::Write,
                addr: (base + offset) as usize,
                width: w,
                value: decode(bytes.subrange(offset as int, (offset + w.bytes()) as int), order) as u64,
            };
            &&& aligned((base + offset), w)
            &&& offset + w.bytes() <= bytes.len()
            &&& write_in_progress(before, after.push(a), base, bytes, offset + w.bytes(), order)
        }),
{
    let k = after.len() - before.len();
    let p = chunk_plan(bytes.len());
    let remaining = (bytes.len() - offset) as nat;
    lemma_plan_next(p, k, offset, remaining);
    lemma_plan_step(base + offset, remaining);
    lemma_write_step(base, p.take(k), p[k], bytes, order);
    let w = widest(remaining);
    let a = Access {
        kind: AccessKind::Write,
        addr: (base + offset) as usize,
        width: w,
        value: decode(bytes.subrange(offset as int, (offset + w.bytes()) as int), order) as u64,
    };
    assert(before + writes_for(base, p.take(k + 1), bytes, order) =~= (before + writes_for(
        base,
        p.take(k),
        bytes,
        order,
    )).push(a));
}

/// A read in progress that has reached the end of the block is a whole read
/// transfer.
pub proof fn lemma_read_done(
    before: Seq<Access>,
    after: Seq<Access>,
    base: int,
    len: nat,
    order: ByteOrder,
    bytes: Seq<u8>,
)
    requires
        read_in_progress(before, after, base, len, len, order, bytes),
    ensures
        read_transfer(before, after, base, len, order, bytes),
        bytes.len() == len,
{
    let t = after.skip(before.len() as int);
    let p = chunk_plan(len);
    assert(plan_from(len, 0) == Seq::<Chunk>::empty());
    assert(p.skip(t.len() as int).len() == 0);
    assert(p.take(t.len() as int) =~= p);
}

/// A write in progress that has reached the end of the block is a whole
/// write transfer.
pub proof fn lemma_write_done(
    before: Seq<Access>,
    after: Seq<Access>,
    base: int,
    bytes: Seq<u8>,
    order: ByteOrder,
)
    requires
        write_in_progress(before, after, base, bytes, bytes.len(), order),
    ensures
        write_transfer(before, after, base, bytes, order),
{
    let k = after.len() - before.len();
    let p = chunk_plan(bytes.len());
    assert(plan_from(bytes.len(), 0) == Seq::<Chunk>::empty());
    assert(p.skip(k).len() == 0);
    assert(p.take(k) =~= p);
}

proof fn lemma_bytes_of_at(
    t: Seq<Access>,
    offset: nat,
    remaining: nat,
    order: ByteOrder,
    k: int,
    i: int,
)
    requires
        offset + remaining <= usize::MAX,
        t.len() == plan_from(offset, remaining).len(),
        forall|j: int|
            0 <= j < t.len() ==> (#[trigger] t[j]).width == plan_from(offset, remaining)[j].width,
        0 <= k < t.len(),
        0 <= i < t[k].width.bytes(),
    ensures
        offset <= plan_from(offset, remaining)[k].offset,
        plan_from(offset, remaining)[k].offset - offset + i < bytes_of(t, order).len(),
        bytes_of(t, order)[plan_from(offset, remaining)[k].offset - offset + i] == encode(
            t[k].value as nat,
            t[k].width.bytes(),
            order,
        )[i],
    decreases remaining,
{
    let p = plan_from(offset, remaining);
    let w = widest(remaining);
    let next = offset + w.bytes();
    let left = (remaining - w.bytes()) as nat;
    let rest = plan_from(next, left);
    assert(p == seq![Chunk { offset: offset as usize, width: w }] + rest);
    let head = encode(t[0].value as nat, t[0].width.bytes(), order);
    lemma_encode_len(t[0].value as nat, t[0].width.bytes(), order);
    assert(t[0].width == w);
    assert(bytes_of(t, order) == head + bytes_of(t.drop_first(), order));
    let b = bytes_of(t.drop_first(), order);
    if k == 0 {
        assert(p[0].offset == offset);
        assert((head + b)[i] == head[i]);
    } else {
        assert forall|j: int| 0 <= j < t.drop_first().len() implies (
        #[trigger] t.drop_first()[j]).width == rest[j].width by {
            assert(t.drop_first()[j] == t[j + 1]);
            assert(p[j + 1] == rest[j]);
        }
        assert(t.drop_first()[k - 1] == t[k]);
        assert(p[k] == rest[k - 1]);
        lemma_bytes_of_at(t.drop_first(), next, left, order, k - 1, i);
        let x = rest[k - 1].offset - next + i;
        assert(p[k].offset - offset + i == w.bytes() + x);
        assert((head + b)[w.bytes() + x] == b[x]);
    }
}

/// What a read gives back is, access by access, the base-256 digits of the
/// values the device answered: byte `i` of the `k`-th access of the plan is
/// digit `i` of that access's value in little-endian order, digit
/// `width - 1 - i` in big-endian order.
pub proof fn lemma_read_bytes_by_significance(
    before: Seq<Access>,
    after: Seq<Access>,
    base: usize,
    len: usize,
    order: ByteOrder,
    bytes: Seq<u8>,
    k: int,
    i: int,
)
    requires
        base + len <= usize::MAX,
        read_transfer(before, after, base as int, len as nat, order, bytes),
        0 <= k < chunk_plan(len as nat).len(),
        0 <= i < chunk_plan(len as nat)[k].width.bytes(),
    ensures
        chunk_plan(len as nat)[k].offset + i < bytes.len(),
        bytes[chunk_plan(len as nat)[k].offset + i] as int == match order {
            ByteOrder::Little => (after.skip(before.len() as int)[k].value as int / pow(
                256,
                i as nat,
            )) % 256,
            ByteOrder::Big => (after.skip(before.len() as int)[k].value as int / pow(
                256,
                (chunk_plan(len as nat)[k].width.bytes() - 1 - i) as nat,
            )) % 256,
        },
{
    let t = after.skip(before.len() as int);
    let p = chunk_plan(len as nat);
    assert forall|j: int| 0 <= j < t.len() implies (#[trigger] t[j]).width == p[j].width by {}
    lemma_bytes_of_at(t, 0, len as nat, order, k, i);
    lemma_encode_bytes_by_significance(t[k].value as nat, t[k].width.bytes(), order);
}

/// What a write stores is, access by access, the number whose base-256 digits
/// are the bytes it covers: the `k`-th write of the plan carries a value below
/// `256` to the power of its width whose digit `i` (little-endian order) or
/// digit `width - 1 - i` (big-endian order) is byte `i` of its chunk.
pub proof fn lemma_write_values_by_significance(
    base: usize,
    bytes: Seq<u8>,
    order: ByteOrder,
    k: int,
    i: int,
)
    requires
        base + bytes.len() <= usize::MAX,
        0 <= k < chunk_plan(bytes.len()).len(),
        0 <= i < chunk_plan(bytes.len())[k].width.bytes(),
    ensures
        (write_trace(base as int, bytes, order)[k].value as int) < pow(
            256,
            chunk_plan(bytes.len())[k].width.bytes(),
        ),
        chunk_plan(bytes.len())[k].offset + i < bytes.len(),
        bytes[chunk_plan(bytes.len())[k].offset + i] as int == match order {
            ByteOrder::Little => (write_trace(base as int, bytes, order)[k].value as int / pow(
                256,
                i as nat,
            )) % 256,
            ByteOrder::Big => (write_trace(base as int, bytes, order)[k].value as int / pow(
                256,
                (chunk_plan(bytes.len())[k].width.bytes() - 1 - i) as nat,
            )) % 256,
        },
{
    let p = chunk_plan(bytes.len());
    let len = bytes.len();
    let c = p[k];
    lemma_plan_chunk_within(len as usize, k);
    let s = bytes.subrange(c.offset as int, end_of(c));
    assert(end_of(c) <= len);
    lemma_decode_bytes_by_significance(s, order);
    lemma_pow_positive(256, c.width.bytes());
    lemma_pow256_values();
    lemma_pow256_is_pow(c.width.bytes());
    assert(pow256(c.width.bytes()) <= pow256(8));
    assert(s[i] == bytes[c.offset + i]);
}

/// The accesses of a transfer from an address aligned for it cover the block
/// once, end to end: the first is at `base`, each next one where the one before
/// ends, the last ends at `base + len`, and each is aligned to its width.
pub proof fn lemma_transfer_covers_block(t: Seq<Access>, kind: AccessKind, base: usize, len: usize)
    requires
        base + len <= usize::MAX,
        aligned_for(base as int, len as nat),
        follows(t, kind, base as int, chunk_plan(len as nat)),
    ensures
        t.len() > 0 ==> t[0].addr == base,
        forall|i: int|
            0 < i < t.len() ==> #[trigger] t[i].addr == t[i - 1].addr + t[i - 1].width.bytes(),
        t.len() > 0 ==> t.last().addr + t.last().width.bytes() == base + len,
        t.len() == 0 <==> len == 0,
        forall|i: int| 0 <= i < t.len() ==> aligned(#[trigger] t[i].addr as int, t[i].width),
{
    let p = chunk_plan(len as nat);
    lemma_plan_covers_transfer(len);
    lemma_plan_accesses_aligned(base, len);
    assert forall|i: int| 0 < i < t.len() implies #[trigger] t[i].addr == t[i - 1].addr
        + t[i - 1].width.bytes() by {
        assert(p[i].offset == end_of(p[i - 1]));
    }
    assert forall|i: int| 0 <= i < t.len() implies aligned(#[trigger] t[i].addr as int, t[i].width) by {
        assert(aligned(base + p[i].offset, p[i].width));
    }
    if t.len() > 0 {
        assert(t.last() == t[t.len() - 1]);
        assert(p.last() == p[p.len() - 1]);
    }
}

} // verus!
