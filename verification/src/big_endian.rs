//! Fixed-width big-endian numbers: the bytes of a number, most significant
//! first, and the number that a byte string stands for.
use crate::order::{lemma_lex_lt_iff_parts, lex_lt, parts_at};
use vstd::arithmetic::div_mod::lemma_mod_breakdown;
use vstd::prelude::*;

verus! {

/// 256 to the power `n`: one more than the largest number that `n` bytes hold.
pub open spec fn pow256(n: nat) -> nat
    decreases n,
{
    if n == 0 {
        1
    } else {
        256 * pow256((n - 1) as nat)
    }
}

/// The number that `b` stands for when its first byte is the most significant.
pub open spec fn be_value(b: Seq<u8>) -> nat
    decreases b.len(),
{
    if b.len() == 0 {
        0
    } else {
        be_value(b.drop_last()) * 256 + b.last() as nat
    }
}

/// The lowest `width` bytes of `x`, most significant first.
pub open spec fn be_bytes(x: nat, width: nat) -> Seq<u8>
    decreases width,
{
    if width == 0 {
        Seq::empty()
    } else {
        be_bytes(x / 256, (width - 1) as nat).push((x % 256) as u8)
    }
}

pub proof fn lemma_pow256_positive(n: nat)
    ensures
        pow256(n) > 0,
    decreases n,
{
    if n > 0 {
        lemma_pow256_positive((n - 1) as nat);
    }
}

/// More bytes hold larger numbers.
pub proof fn lemma_pow256_monotonic(a: nat, b: nat)
    requires
        a <= b,
    ensures
        pow256(a) <= pow256(b),
    decreases b,
{
    if a < b {
        lemma_pow256_monotonic(a, (b - 1) as nat);
        lemma_pow256_positive((b - 1) as nat);
    }
}

/// The powers of 256 at the widths of the machine integers.
pub proof fn lemma_pow256_values()
    ensures
        pow256(0) == 1,
        pow256(1) == 0x100,
        pow256(2) == 0x1_0000,
        pow256(4) == 0x1_0000_0000,
        pow256(8) == 0x1_0000_0000_0000_0000,
        pow256(16) == 0x1_0000_0000_0000_0000_0000_0000_0000_0000,
{
    assert(pow256(1) == 0x100) by {
        reveal_with_fuel(pow256, 2);
    }
    assert(pow256(2) == 0x1_0000) by {
        reveal_with_fuel(pow256, 3);
    }
    lemma_pow256_add(2, 2);
    assert(pow256(4) == 0x1_0000_0000) by {
        assert(0x1_0000 * 0x1_0000 == 0x1_0000_0000) by (nonlinear_arith);
    }
    lemma_pow256_add(4, 4);
    assert(pow256(8) == 0x1_0000_0000_0000_0000) by {
        assert(0x1_0000_0000 * 0x1_0000_0000 == 0x1_0000_0000_0000_0000) by (nonlinear_arith);
    }
    lemma_pow256_add(8, 8);
    assert(pow256(16) == 0x1_0000_0000_0000_0000_0000_0000_0000_0000) by {
        assert(0x1_0000_0000_0000_0000 * 0x1_0000_0000_0000_0000
            == 0x1_0000_0000_0000_0000_0000_0000_0000_0000) by (nonlinear_arith);
    }
}

/// Widths add where powers multiply.
pub proof fn lemma_pow256_add(a: nat, b: nat)
    ensures
        pow256(a + b) == pow256(a) * pow256(b),
    decreases a,
{
    if a == 0 {
        assert(pow256(0) == 1);
        assert(pow256(b) == 1 * pow256(b));
    } else {
        lemma_pow256_add((a - 1) as nat, b);
        assert(pow256(a + b) == 256 * pow256((a - 1 + b) as nat));
        assert(256 * (pow256((a - 1) as nat) * pow256(b)) == (256 * pow256((a - 1) as nat))
            * pow256(b)) by (nonlinear_arith);
    }
}

pub proof fn lemma_be_bytes_len(x: nat, width: nat)
    ensures
        be_bytes(x, width).len() == width,
    decreases width,
{
    if width > 0 {
        lemma_be_bytes_len(x / 256, (width - 1) as nat);
    }
}

/// What `n` bytes stand for is below `256^n`.
pub proof fn lemma_be_value_bound(b: Seq<u8>)
    ensures
        be_value(b) < pow256(b.len()),
    decreases b.len(),
{
    if b.len() > 0 {
        lemma_be_value_bound(b.drop_last());
    }
}

/// The bytes of `x` stand for `x`, as far as `width` bytes can hold it.
pub proof fn lemma_be_value_of_bytes(x: nat, width: nat)
    ensures
        be_value(be_bytes(x, width)) == x % pow256(width),
    decreases width,
{
    if width == 0 {
        assert(be_bytes(x, 0).len() == 0);
    } else {
        let w = (width - 1) as nat;
        let rest = be_bytes(x / 256, w);
        let all = be_bytes(x, width);
        lemma_be_value_of_bytes(x / 256, w);
        lemma_be_bytes_len(x / 256, w);
        lemma_pow256_positive(w);
        assert(all.drop_last() =~= rest);
        assert(all.last() == (x % 256) as u8);
        lemma_mod_breakdown(x as int, 256, pow256(w) as int);
        assert(be_value(all) == ((x / 256) % pow256(w)) * 256 + x % 256);
    }
}

/// The bytes of a number that fits in `width` bytes stand for that number.
pub proof fn lemma_be_round_trip(x: nat, width: nat)
    requires
        x < pow256(width),
    ensures
        be_value(be_bytes(x, width)) == x,
        be_bytes(x, width).len() == width,
{
    lemma_be_value_of_bytes(x, width);
    lemma_be_bytes_len(x, width);
    vstd::arithmetic::div_mod::lemma_small_mod(x, pow256(width));
}

/// A byte string is the bytes of the number it stands for.
pub proof fn lemma_be_bytes_of_value(b: Seq<u8>)
    ensures
        be_bytes(be_value(b), b.len()) == b,
    decreases b.len(),
{
    if b.len() == 0 {
        assert(be_bytes(be_value(b), 0) =~= b);
    } else {
        lemma_be_bytes_of_value(b.drop_last());
        let v = be_value(b);
        let head = be_value(b.drop_last());
        assert(v / 256 == head);
        assert(v % 256 == b.last() as nat);
        assert(be_bytes(v, b.len()) == be_bytes(head, (b.len() - 1) as nat).push(b.last()));
        assert(b.drop_last().push(b.last()) =~= b);
    }
}

/// Byte strings of one length that stand for the same number are equal.
pub proof fn lemma_be_value_injective(a: Seq<u8>, b: Seq<u8>)
    requires
        a.len() == b.len(),
        be_value(a) == be_value(b),
    ensures
        a == b,
{
    lemma_be_bytes_of_value(a);
    lemma_be_bytes_of_value(b);
}

/// Among byte strings of one length, the lexicographic order is the order of
/// the numbers they stand for.
pub proof fn lemma_be_order(a: Seq<u8>, b: Seq<u8>)
    requires
        a.len() == b.len(),
    ensures
        lex_lt(a, b) <==> be_value(a) < be_value(b),
    decreases a.len(),
{
    lemma_lex_lt_iff_parts(a, b);
    if a.len() == 0 {
        assert forall|k: int| !parts_at(a, b, k) by {}
    } else {
        let n = a.len() as int;
        let a0 = a.drop_last();
        let b0 = b.drop_last();
        lemma_be_order(a0, b0);
        lemma_lex_lt_iff_parts(a0, b0);
        if lex_lt(a, b) {
            let k = choose|k: int| parts_at(a, b, k);
            if k < n - 1 {
                assert(parts_at(a0, b0, k));
            } else {
                assert(a0 =~= b0);
            }
        }
        if lex_lt(a0, b0) {
            let k = choose|k: int| parts_at(a0, b0, k);
            assert(parts_at(a, b, k)) by {
                assert forall|j: int| 0 <= j < k implies a[j] == b[j] by {
                    assert(a0[j] == b0[j]);
                }
                assert(a0[k] < b0[k]);
            }
        }
        if a0 == b0 && a.last() < b.last() {
            assert(parts_at(a, b, n - 1)) by {
                assert forall|j: int| 0 <= j < n - 1 implies a[j] == b[j] by {
                    assert(a0[j] == b0[j]);
                }
            }
        }
        if be_value(a0) == be_value(b0) {
            lemma_be_value_injective(a0, b0);
        }
    }
}

/// The lowest `width` bytes of `x`, most significant first.
pub fn encode_uint(x: u128, width: usize) -> (bytes: Vec<u8>)
    ensures
        bytes@ == be_bytes(x as nat, width as nat),
    decreases width,
{
    if width == 0 {
        Vec::new()
    } else {
        let mut bytes = encode_uint(x / 256, width - 1);
        bytes.push((x % 256) as u8);
        bytes
    }
}

/// The number that the first `width` bytes of `bytes` stand for.
pub(crate) fn decode_uint(bytes: &[u8], width: usize) -> (x: u128)
    requires
        width <= bytes.len(),
        width <= 16,
    ensures
        x == be_value(bytes@.take(width as int)),
        x < pow256(width as nat),
{
    let mut x: u128 = 0;
    let mut i: usize = 0;
    while i < width
        invariant
            0 <= i <= width,
            width <= bytes.len(),
            width <= 16,
            x == be_value(bytes@.take(i as int)),
        decreases width - i,
    {
        proof {
            let head = bytes@.take(i as int);
            let next = bytes@.take(i + 1);
            assert(next.drop_last() =~= head);
            assert(next.last() == bytes@[i as int]);
            lemma_be_value_bound(next);
            lemma_pow256_monotonic((i + 1) as nat, 16);
            lemma_pow256_values();
        }
        x = x * 256 + bytes[i] as u128;
        i = i + 1;
    }
    proof {
        lemma_be_value_bound(bytes@.take(width as int));
    }
    x
}

} // verus!
