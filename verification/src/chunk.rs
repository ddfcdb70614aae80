use vstd::arithmetic::div_mod::{
    lemma_add_mod_noop, lemma_fundamental_div_mod, lemma_mod_multiples_basic,
};
use vstd::prelude::*;

verus! {

/// The width of one MMIO access.
#[derive(Clone, Copy, Debug, PartialEq, Eq, Structural)]
pub enum Width {
    U8,
    U16,
    U32,
    U64,
}

impl Width {
    /// The number of bytes one access of this width moves.
    pub open spec fn bytes(self) -> nat {
        match self {
            Width::U8 => 1,
            Width::U16 => 2,
            Width::U32 => 4,
            Width::U64 => 8,
        }
    }

    /// The number of bytes one access of this width moves.
    pub fn size(&self) -> (n: usize)
        ensures
            n == self.bytes(),
    {
        match self {
            Width::U8 => 1,
            Width::U16 => 2,
            Width::U32 => 4,
            Width::U64 => 8,
        }
    }
}

/// One access of a transfer: `width` bytes at `offset` from its start.
#[derive(Clone, Copy, Debug, PartialEq, Eq, Structural)]
pub struct Chunk {
    pub offset: usize,
    pub width: Width,
}

/// `addr` is a multiple of the width `w`.
pub open spec fn aligned(addr: int, w: Width) -> bool {
    addr % (w.bytes() as int) == 0
}

/// The first byte after a chunk.
pub open spec fn end_of(c: Chunk) -> int {
    c.offset + c.width.bytes()
}

/// The widest access that fits in `remaining` bytes (one byte when nothing is left).
pub open spec fn widest(remaining: nat) -> Width {
    if remaining >= 8 {
        Width::U64
    } else if remaining >= 4 {
        Width::U32
    } else if remaining >= 2 {
        Width::U16
    } else {
        Width::U8
    }
}

/// The accesses that move `remaining` bytes starting at `offset`: each one is
/// as wide as the bytes still to move allow.
pub open spec fn plan_from(offset: nat, remaining: nat) -> Seq<Chunk>
    decreases remaining,
{
    if remaining == 0 {
        Seq::empty()
    } else {
        let w = widest(remaining);
        seq![Chunk { offset: offset as usize, width: w }] + plan_from(
            offset + w.bytes(),
            (remaining - w.bytes()) as nat,
        )
    }
}

/// The accesses that move a transfer of `len` bytes.
pub open spec fn chunk_plan(len: nat) -> Seq<Chunk> {
    plan_from(0, len)
}

/// The chunks of `p` lie end to end, from `start` to `end`.
pub open spec fn tiles(p: Seq<Chunk>, start: int, end: int) -> bool {
    &&& (p.len() == 0 <==> start == end)
    &&& p.len() > 0 ==> p[0].offset == start
    &&& forall|i: int| 0 < i < p.len() ==> #[trigger] p[i].offset == end_of(p[i - 1])
    &&& p.len() > 0 ==> end_of(p.last()) == end
}

/// Each chunk of `p` starts at a multiple of its own width, and no chunk is
/// wider than one before it.
pub open spec fn naturally_aligned(p: Seq<Chunk>) -> bool {
    &&& forall|i: int| 0 <= i < p.len() ==> aligned(#[trigger] p[i].offset as int, p[i].width)
    &&& forall|i: int, j: int|
        0 <= i < j < p.len() ==> #[trigger] p[j].width.bytes() <= #[trigger] p[i].width.bytes()
}

/// An address from which a transfer of `len` bytes may start: aligned to the
/// first (and widest) access of its plan.
pub open spec fn aligned_for(addr: int, len: nat) -> bool {
    len == 0 || aligned(addr, widest(len))
}

proof fn lemma_plan_from_tiles(offset: nat, remaining: nat)
    requires
        offset + remaining <= usize::MAX,
    ensures
        tiles(plan_from(offset, remaining), offset as int, (offset + remaining) as int),
    decreases remaining,
{
    if remaining > 0 {
        let w = widest(remaining);
        let c = Chunk { offset: offset as usize, width: w };
        let rest = plan_from(offset + w.bytes(), (remaining - w.bytes()) as nat);
        lemma_plan_from_tiles(offset + w.bytes(), (remaining - w.bytes()) as nat);
        let p = plan_from(offset, remaining);
        assert(p == seq![c] + rest);
        assert forall|i: int| 0 < i < p.len() implies #[trigger] p[i].offset == end_of(p[i - 1]) by {
            assert(p[i] == rest[i - 1]);
            if i > 1 {
                assert(p[i - 1] == rest[i - 2]);
            }
        }
        if rest.len() > 0 {
            assert(p.last() == rest.last());
        }
    }
}

proof fn lemma_mod_of_factor(a: int, d: int, k: int)
    requires
        0 < d,
        0 < k,
        a % (d * k) == 0,
    ensures
        a % d == 0,
{
    let q = a / (d * k);
    assert(0 < d * k) by (nonlinear_arith)
        requires
            0 < d,
            0 < k,
    ;
    lemma_fundamental_div_mod(a, d * k);
    assert(a == (k * q) * d) by (nonlinear_arith)
        requires
            a == (d * k) * q + a % (d * k),
            a % (d * k) == 0,
    ;
    lemma_mod_multiples_basic(k * q, d);
}

proof fn lemma_widest_divides(a: int, r1: nat, r2: nat)
    requires
        r2 <= r1,
        aligned(a, widest(r1)),
    ensures
        aligned(a, widest(r2)),
{
    let big = widest(r1).bytes() as int;
    let small = widest(r2).bytes() as int;
    if big != small {
        lemma_mod_of_factor(a, small, big / small);
    }
}

proof fn lemma_aligned_add(a: int, b: int, w: Width)
    requires
        aligned(a, w),
        aligned(b, w),
    ensures
        aligned(a + b, w),
{
    lemma_add_mod_noop(a, b, w.bytes() as int);
}

proof fn lemma_plan_from_aligned(offset: nat, remaining: nat)
    requires
        offset + remaining <= usize::MAX,
        aligned(offset as int, widest(remaining)),
    ensures
        naturally_aligned(plan_from(offset, remaining)),
        forall|i: int|
            0 <= i < plan_from(offset, remaining).len() ==> #[trigger] plan_from(
                offset,
                remaining,
            )[i].width.bytes() <= widest(remaining).bytes(),
    decreases remaining,
{
    if remaining > 0 {
        let w = widest(remaining);
        let c = Chunk { offset: offset as usize, width: w };
        let next = offset + w.bytes();
        let left = (remaining - w.bytes()) as nat;
        let rest = plan_from(next, left);
        lemma_widest_divides(offset as int, remaining, left);
        assert(aligned(next as int, widest(left))) by {
            assert(aligned(w.bytes() as int, w)) by {
                match w {
                    Width::U8 => assert(1int % 1 == 0),
                    Width::U16 => assert(2int % 2 == 0),
                    Width::U32 => assert(4int % 4 == 0),
                    Width::U64 => assert(8int % 8 == 0),
                }
            }
            lemma_widest_divides(w.bytes() as int, remaining, left);
            lemma_widest_divides(offset as int, remaining, left);
            lemma_aligned_add(offset as int, w.bytes() as int, widest(left));
        }
        lemma_plan_from_aligned(next, left);
        let p = plan_from(offset, remaining);
        assert(p == seq![c] + rest);
        assert forall|i: int| 0 <= i < p.len() implies #[trigger] p[i].width.bytes()
            <= widest(remaining).bytes() by {
            if i > 0 {
                assert(p[i] == rest[i - 1]);
            }
        }
        assert forall|i: int| 0 <= i < p.len() implies aligned(
            #[trigger] p[i].offset as int,
            p[i].width,
        ) by {
            if i > 0 {
                assert(p[i] == rest[i - 1]);
            }
        }
        assert forall|i: int, j: int| 0 <= i < j < p.len() implies #[trigger] p[j].width.bytes()
            <= #[trigger] p[i].width.bytes() by {
            assert(p[j] == rest[j - 1]);
            if i > 0 {
                assert(p[i] == rest[i - 1]);
            }
        }
    }
}

proof fn lemma_plan_from_within(offset: nat, remaining: nat, k: int)
    requires
        offset + remaining <= usize::MAX,
        0 <= k < plan_from(offset, remaining).len(),
    ensures
        offset <= plan_from(offset, remaining)[k].offset,
        end_of(plan_from(offset, remaining)[k]) <= offset + remaining,
    decreases remaining,
{
    let w = widest(remaining);
    let rest = plan_from(offset + w.bytes(), (remaining - w.bytes()) as nat);
    assert(plan_from(offset, remaining) == seq![Chunk { offset: offset as usize, width: w }]
        + rest);
    if k > 0 {
        assert(plan_from(offset, remaining)[k] == rest[k - 1]);
        lemma_plan_from_within(offset + w.bytes(), (remaining - w.bytes()) as nat, k - 1);
    }
}

/// Every access of a transfer lies inside the transfer's block.
pub proof fn lemma_plan_chunk_within(len: usize, k: int)
    requires
        0 <= k < chunk_plan(len as nat).len(),
    ensures
        end_of(chunk_plan(len as nat)[k]) <= len,
{
    lemma_plan_from_within(0, len as nat, k);
}

/// The accesses of a transfer lie end to end and cover it exactly: the first
/// starts at 0, each next one where the one before ends, the last ends at `len`.
pub proof fn lemma_plan_covers_transfer(len: usize)
    ensures
        tiles(chunk_plan(len as nat), 0, len as int),
{
    lemma_plan_from_tiles(0, len as nat);
}

/// Each access of a transfer is naturally aligned relative to its start, and
/// the accesses never grow wider; so when the start address is aligned to the
/// first access, every access address is aligned to its own width.
pub proof fn lemma_plan_accesses_aligned(addr: usize, len: usize)
    requires
        aligned_for(addr as int, len as nat),
    ensures
        naturally_aligned(chunk_plan(len as nat)),
        forall|i: int|
            0 <= i < chunk_plan(len as nat).len() ==> aligned(
                addr + (#[trigger] chunk_plan(len as nat)[i]).offset,
                chunk_plan(len as nat)[i].width,
            ),
{
    lemma_plan_from_aligned(0, len as nat);
    let p = chunk_plan(len as nat);
    assert forall|i: int| 0 <= i < p.len() implies aligned(
        addr + (#[trigger] p[i]).offset,
        p[i].width,
    ) by {
        lemma_widest_divides(addr as int, len as nat, p[i].width.bytes());
        assert(widest(p[i].width.bytes()) == p[i].width);
        lemma_aligned_add(addr as int, p[i].offset as int, p[i].width);
    }
}

/// A transfer of 1, 2, 4 or 8 bytes is a single access of exactly that width.
pub proof fn lemma_single_access_sizes(len: usize)
    requires
        len == 1 || len == 2 || len == 4 || len == 8,
    ensures
        widest(len as nat).bytes() == len,
        chunk_plan(len as nat) == seq![Chunk { offset: 0, width: widest(len as nat) }],
{
    assert(plan_from(len as nat, 0) == Seq::<Chunk>::empty());
    assert(chunk_plan(len as nat) =~= seq![Chunk { offset: 0, width: widest(len as nat) }]);
}

proof fn lemma_plan_from_count(offset: nat, remaining: nat)
    ensures
        plan_from(offset, remaining).len() == remaining / 8 + (remaining % 8) / 4 + (remaining
            % 4) / 2 + remaining % 2,
    decreases remaining,
{
    if remaining > 0 {
        let w = widest(remaining);
        lemma_plan_from_count(offset + w.bytes(), (remaining - w.bytes()) as nat);
    }
}

/// A transfer of `len` bytes takes `len / 8` accesses of 64 bits, then at most
/// one each of 32, 16 and 8 bits: one for each bit set in `len % 8`.
pub proof fn lemma_plan_access_count(len: usize)
    ensures
        chunk_plan(len as nat).len() == len / 8 + (len % 8) / 4 + (len % 4) / 2 + len % 2,
{
    lemma_plan_from_count(0, len as nat);
}

/// One step of a transfer: the next access is aligned, fits in what is left,
/// and leaves the rest of the transfer aligned for its own plan.
pub proof fn lemma_plan_step(addr: int, remaining: nat)
    requires
        remaining > 0,
        aligned_for(addr, remaining),
    ensures
        aligned(addr, widest(remaining)),
        widest(remaining).bytes() <= remaining,
        aligned_for(
            addr + widest(remaining).bytes(),
            (remaining - widest(remaining).bytes()) as nat,
        ),
{
    let w = widest(remaining);
    let left = (remaining - w.bytes()) as nat;
    if left > 0 {
        assert(aligned(w.bytes() as int, w)) by {
            match w {
                Width::U8 => assert(1int % 1 == 0),
                Width::U16 => assert(2int % 2 == 0),
                Width::U32 => assert(4int % 4 == 0),
                Width::U64 => assert(8int % 8 == 0),
            }
        }
        lemma_aligned_add(addr, w.bytes() as int, w);
        lemma_widest_divides(addr + w.bytes(), remaining, left);
    }
}

/// Whether a transfer of `len` bytes may start at `addr`: that is, whether
/// `addr` is aligned to the widest access of the transfer's plan.
pub fn transfer_aligned(addr: usize, len: usize) -> (ok: bool)
    ensures
        ok == aligned_for(addr as int, len as nat),
{
    if len == 0 {
        true
    } else if len >= 8 {
        addr % 8 == 0
    } else if len >= 4 {
        addr % 4 == 0
    } else if len >= 2 {
        addr % 2 == 0
    } else {
        true
    }
}

} // verus!
