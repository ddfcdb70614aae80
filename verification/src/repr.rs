use vstd::arithmetic::div_mod::{
    lemma_div_denominator, lemma_fundamental_div_mod, lemma_fundamental_div_mod_converse,
};
use vstd::arithmetic::power::{lemma_pow_positive, pow};
use vstd::prelude::*;

use crate::chunk::Width;

verus! {

/// The order in which the bytes of an access value lie in memory.
#[derive(Clone, Copy, Debug, PartialEq, Eq, Structural)]
pub enum ByteOrder {
    Little,
    Big,
}

/// `256` to the power `n`: one more than the largest value of `n` bytes.
pub open spec fn pow256(n: nat) -> nat
    decreases n,
{
    if n == 0 {
        1
    } else {
        256 * pow256((n - 1) as nat)
    }
}

/// The `n` lowest bytes of `v`, least significant first.
pub open spec fn le_bytes(v: nat, n: nat) -> Seq<u8>
    decreases n,
{
    if n == 0 {
        Seq::empty()
    } else {
        seq![(v % 256) as u8] + le_bytes(v / 256, (n - 1) as nat)
    }
}

/// The number whose bytes, least significant first, are `s`.
pub open spec fn le_value(s: Seq<u8>) -> nat
    decreases s.len(),
{
    if s.len() == 0 {
        0
    } else {
        s[0] as nat + 256 * le_value(s.drop_first())
    }
}

/// The `n` bytes that hold `v` in memory in the given order.
pub open spec fn encode(v: nat, n: nat, order: ByteOrder) -> Seq<u8> {
    match order {
        ByteOrder::Little => le_bytes(v, n),
        ByteOrder::Big => le_bytes(v, n).reverse(),
    }
}

/// The value that the bytes `s` hold in memory in the given order.
pub open spec fn decode(s: Seq<u8>, order: ByteOrder) -> nat {
    match order {
        ByteOrder::Little => le_value(s),
        ByteOrder::Big => le_value(s.reverse()),
    }
}

/// `v` fits in one access of width `w`.
pub open spec fn fits(v: nat, w: Width) -> bool {
    v < pow256(w.bytes())
}

pub proof fn lemma_pow256_values()
    ensures
        pow256(1) == 0x100,
        pow256(2) == 0x1_0000,
        pow256(4) == 0x1_0000_0000,
        pow256(7) == 0x100_0000_0000_0000,
        pow256(8) == 0x1_0000_0000_0000_0000,
{
    reveal_with_fuel(pow256, 9);
}

proof fn lemma_pow256_monotone(a: nat, b: nat)
    requires
        a <= b,
    ensures
        pow256(a) <= pow256(b),
    decreases b,
{
    if a < b {
        lemma_pow256_monotone(a, (b - 1) as nat);
    }
}

proof fn lemma_le_bytes_len(v: nat, n: nat)
    ensures
        le_bytes(v, n).len() == n,
    decreases n,
{
    if n > 0 {
        lemma_le_bytes_len(v / 256, (n - 1) as nat);
    }
}

proof fn lemma_le_value_bound(s: Seq<u8>)
    ensures
        le_value(s) < pow256(s.len()),
    decreases s.len(),
{
    if s.len() > 0 {
        lemma_le_value_bound(s.drop_first());
    }
}

proof fn lemma_le_value_of_bytes(v: nat, n: nat)
    requires
        v < pow256(n),
    ensures
        le_value(le_bytes(v, n)) == v,
    decreases n,
{
    if n > 0 {
        let s = le_bytes(v, n);
        lemma_fundamental_div_mod(v as int, 256);
        lemma_le_value_of_bytes(v / 256, (n - 1) as nat);
        assert(s.drop_first() =~= le_bytes(v / 256, (n - 1) as nat));
    }
}

proof fn lemma_le_bytes_of_value(s: Seq<u8>)
    ensures
        le_bytes(le_value(s), s.len()) == s,
    decreases s.len(),
{
    if s.len() > 0 {
        let v = le_value(s);
        let r = le_value(s.drop_first());
        lemma_fundamental_div_mod_converse(v as int, 256, r as int, s[0] as int);
        lemma_le_bytes_of_value(s.drop_first());
        assert(le_bytes(v, s.len()) =~= s);
    }
}

/// A value laid out in `n` bytes takes `n` bytes.
pub proof fn lemma_encode_len(v: nat, n: nat, order: ByteOrder)
    ensures
        encode(v, n, order).len() == n,
{
    lemma_le_bytes_len(v, n);
}

/// Reading back the bytes of a value that fits gives the value.
pub proof fn lemma_decode_encode(v: nat, n: nat, order: ByteOrder)
    requires
        v < pow256(n),
    ensures
        encode(v, n, order).len() == n,
        decode(encode(v, n, order), order) == v,
{
    lemma_le_bytes_len(v, n);
    lemma_le_value_of_bytes(v, n);
    assert(le_bytes(v, n).reverse().reverse() =~= le_bytes(v, n));
}

/// Any bytes are the bytes of the value they hold, and that value fits in
/// that many bytes.
pub proof fn lemma_encode_decode(s: Seq<u8>, order: ByteOrder)
    ensures
        decode(s, order) < pow256(s.len()),
        encode(decode(s, order), s.len(), order) == s,
{
    lemma_le_value_bound(s);
    lemma_le_value_bound(s.reverse());
    lemma_le_bytes_of_value(s);
    lemma_le_bytes_of_value(s.reverse());
    assert(s.reverse().reverse() =~= s);
}

/// `pow256` is `256` to the power `n`.
pub proof fn lemma_pow256_is_pow(n: nat)
    ensures
        pow256(n) == pow(256, n),
    decreases n,
{
    reveal(pow);
    if n > 0 {
        lemma_pow256_is_pow((n - 1) as nat);
    }
}

proof fn lemma_le_bytes_digit(v: nat, n: nat, i: nat)
    requires
        i < n,
    ensures
        le_bytes(v, n)[i as int] as int == (v as int / pow(256, i)) % 256,
    decreases n,
{
    reveal(pow);
    lemma_le_bytes_len(v, n);
    if i == 0 {
        assert(pow(256, 0) == 1);
    } else {
        lemma_le_bytes_digit(v / 256, (n - 1) as nat, (i - 1) as nat);
        lemma_pow_positive(256, (i - 1) as nat);
        lemma_div_denominator(v as int, 256, pow(256, (i - 1) as nat));
        assert(pow(256, i) == 256 * pow(256, (i - 1) as nat));
        assert(le_bytes(v, n)[i as int] == le_bytes(v / 256, (n - 1) as nat)[i - 1]);
    }
}

/// The bytes that a value occupies in memory are its base-256 digits, by
/// significance: in little-endian order byte `i` is digit `i`, in big-endian
/// order it is digit `n - 1 - i`.
pub proof fn lemma_encode_bytes_by_significance(v: nat, n: nat, order: ByteOrder)
    ensures
        encode(v, n, order).len() == n,
        forall|i: int|
            0 <= i < n ==> (#[trigger] encode(v, n, order)[i]) as int == match order {
                ByteOrder::Little => (v as int / pow(256, i as nat)) % 256,
                ByteOrder::Big => (v as int / pow(256, (n - 1 - i) as nat)) % 256,
            },
{
    lemma_le_bytes_len(v, n);
    assert forall|i: int| 0 <= i < n implies (#[trigger] encode(v, n, order)[i]) as int
        == match order {
        ByteOrder::Little => (v as int / pow(256, i as nat)) % 256,
        ByteOrder::Big => (v as int / pow(256, (n - 1 - i) as nat)) % 256,
    } by {
        match order {
            ByteOrder::Little => {
                lemma_le_bytes_digit(v, n, i as nat);
            },
            ByteOrder::Big => {
                lemma_le_bytes_digit(v, n, (n - 1 - i) as nat);
                assert(le_bytes(v, n).reverse()[i] == le_bytes(v, n)[n - 1 - i]);
            },
        }
    }
}

/// The value that bytes hold is the number whose base-256 digits, by
/// significance, they are: it is below `256` to the power of their count, and
/// in little-endian order byte `i` is its digit `i`, in big-endian order its
/// digit `n - 1 - i`.
pub proof fn lemma_decode_bytes_by_significance(s: Seq<u8>, order: ByteOrder)
    ensures
        decode(s, order) < pow(256, s.len()),
        forall|i: int|
            0 <= i < s.len() ==> (#[trigger] s[i]) as int == match order {
                ByteOrder::Little => (decode(s, order) as int / pow(256, i as nat)) % 256,
                ByteOrder::Big => (decode(s, order) as int / pow(256, (s.len() - 1 - i) as nat))
                    % 256,
            },
{
    lemma_encode_decode(s, order);
    lemma_pow256_is_pow(s.len());
    lemma_encode_bytes_by_significance(decode(s, order), s.len(), order);
    assert forall|i: int| 0 <= i < s.len() implies (#[trigger] s[i]) as int == match order {
        ByteOrder::Little => (decode(s, order) as int / pow(256, i as nat)) % 256,
        ByteOrder::Big => (decode(s, order) as int / pow(256, (s.len() - 1 - i) as nat)) % 256,
    } by {
        assert(encode(decode(s, order), s.len(), order)[i] == s[i]);
    }
}

/// Appends to `buf` the bytes that hold `value` in memory as one access of
/// width `width`, in the given order.
pub fn push_value(buf: &mut Vec<u8>, value: u64, width: Width, order: ByteOrder)
    requires
        fits(value as nat, width),
    ensures
        final(buf)@ == old(buf)@ + encode(value as nat, width.bytes(), order),
        final(buf)@.len() == old(buf)@.len() + width.bytes(),
        forall|i: int|
            0 <= i < width.bytes() ==> (#[trigger] final(buf)@[old(buf)@.len() + i]) as int
                == match order {
                ByteOrder::Little => (value as int / pow(256, i as nat)) % 256,
                ByteOrder::Big => (value as int / pow(256, (width.bytes() - 1 - i) as nat)) % 256,
            },
{
    let n = width.size();
    let mut low_first: Vec<u8> = Vec::new();
    let mut x: u64 = value;
    let mut k: usize = 0;
    while k < n
        invariant
            k <= n,
            n == width.bytes(),
            low_first@ + le_bytes(x as nat, (n - k) as nat) == le_bytes(value as nat, n as nat),
        decreases n - k,
    {
        let ghost before = low_first@;
        let ghost rest = le_bytes(x as nat / 256, (n - k - 1) as nat);
        low_first.push((x % 256) as u8);
        assert(low_first@ + rest =~= before + le_bytes(x as nat, (n - k) as nat));
        x = x / 256;
        k = k + 1;
    }
    assert(low_first@ =~= le_bytes(value as nat, n as nat));
    proof {
        lemma_le_bytes_len(value as nat, n as nat);
    }
    let ghost start = buf@;
    let mut i: usize = 0;
    match order {
        ByteOrder::Little => {
            while i < n
                invariant
                    i <= n,
                    n == low_first@.len(),
                    buf@ == start + low_first@.take(i as int),
                decreases n - i,
            {
                buf.push(low_first[i]);
                assert(low_first@.take(i + 1) =~= low_first@.take(i as int).push(low_first@[i as int]));
                i = i + 1;
            }
            assert(low_first@.take(n as int) =~= low_first@);
        },
        ByteOrder::Big => {
            while i < n
                invariant
                    i <= n,
                    n == low_first@.len(),
                    buf@ == start + low_first@.reverse().take(i as int),
                decreases n - i,
            {
                buf.push(low_first[n - 1 - i]);
                assert(low_first@.reverse().take(i + 1) =~= low_first@.reverse().take(i as int).push(
                    low_first@[n - 1 - i],
                ));
                i = i + 1;
            }
            assert(low_first@.reverse().take(n as int) =~= low_first@.reverse());
        },
    }
    proof {
        lemma_encode_bytes_by_significance(value as nat, n as nat, order);
        assert forall|i: int| 0 <= i < n implies #[trigger] buf@[start.len() + i] == encode(
            value as nat,
            n as nat,
            order,
        )[i] by {}
    }
}

/// The value held, in the given order, by the `width` bytes of `bytes` that
/// start at `start`.
pub fn load_value(bytes: &[u8], start: usize, width: Width, order: ByteOrder) -> (v: u64)
    requires
        start + width.bytes() <= bytes@.len(),
    ensures
        v == decode(bytes@.subrange(start as int, start + width.bytes()), order),
        fits(v as nat, width),
        (v as int) < pow(256, width.bytes()),
        forall|i: int|
            0 <= i < width.bytes() ==> (#[trigger] bytes@[start + i]) as int == match order {
                ByteOrder::Little => (v as int / pow(256, i as nat)) % 256,
                ByteOrder::Big => (v as int / pow(256, (width.bytes() - 1 - i) as nat)) % 256,
            },
{
    let n = width.size();
    let total = bytes.len();
    assert(start + n <= total);
    let end = start + n;
    let mut acc: u64 = 0;
    proof {
        lemma_pow256_values();
        lemma_pow256_monotone(n as nat, 8);
    }
    match order {
        ByteOrder::Little => {
            let mut j: usize = end;
            while j > start
                invariant
                    start <= j <= end,
                    end == start + n,
                    n <= 8,
                    end <= bytes@.len(),
                    acc as nat == le_value(bytes@.subrange(j as int, end as int)),
                    acc < pow256((end - j) as nat),
                    pow256(7) == 0x100_0000_0000_0000,
                decreases j - start,
            {
                j = j - 1;
                proof {
                    lemma_pow256_monotone((end - j - 1) as nat, 7);
                    let s = bytes@.subrange(j as int, end as int);
                    assert(s.drop_first() =~= bytes@.subrange(j + 1, end as int));
                }
                acc = acc * 256 + bytes[j] as u64;
            }
        },
        ByteOrder::Big => {
            let mut j: usize = start;
            while j < end
                invariant
                    start <= j <= end,
                    end == start + n,
                    n <= 8,
                    end <= bytes@.len(),
                    acc as nat == le_value(bytes@.subrange(start as int, j as int).reverse()),
                    acc < pow256((j - start) as nat),
                    pow256(7) == 0x100_0000_0000_0000,
                decreases end - j,
            {
                proof {
                    lemma_pow256_monotone((j - start) as nat, 7);
                    let s = bytes@.subrange(start as int, j + 1).reverse();
                    assert(s =~= seq![bytes@[j as int]] + bytes@.subrange(
                        start as int,
                        j as int,
                    ).reverse());
                    assert(s.drop_first() =~= bytes@.subrange(start as int, j as int).reverse());
                }
                acc = acc * 256 + bytes[j] as u64;
                j = j + 1;
            }
        },
    }
    proof {
        let sub = bytes@.subrange(start as int, end as int);
        lemma_decode_bytes_by_significance(sub, order);
        assert forall|i: int| 0 <= i < n implies #[trigger] bytes@[start + i] == sub[i] by {}
    }
    acc
}

} // verus!
