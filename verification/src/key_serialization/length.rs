//! The compact code for the length of a byte string: one byte for lengths up
//! to 15, else a header byte that says how many bytes follow.
use vstd::prelude::*;
use vstd::arithmetic::div_mod::{lemma_div_denominator, lemma_fundamental_div_mod};
use crate::big_endian::{
    be_bytes, be_value, decode_uint, encode_uint, lemma_be_bytes_len, lemma_be_order,
    lemma_be_value_of_bytes, lemma_pow256_monotonic, lemma_pow256_positive, lemma_pow256_values,
    pow256,
};
use crate::error::{KeyDeserializeError, KeySerializeError};
use crate::order::{lemma_lex_lt_common_prefix, lemma_lex_lt_iff_parts, lex_lt, parts_at};
use crate::serialization::bytes_view;

verus! {

/// The number of bytes that a `usize` takes.
pub open spec fn usize_width() -> nat {
    (usize::BITS / 8) as nat
}

/// A `usize` is 4 or 8 bytes wide and holds what that many bytes hold.
pub proof fn lemma_usize_width()
    ensures
        usize_width() == 4 || usize_width() == 8,
        pow256(usize_width()) == usize::MAX + 1,
{
    lemma_pow256_values();
}

/// The number of bytes that a `usize` takes.
pub fn usize_bytes() -> (width: usize)
    ensures
        width == usize_width(),
{
    (usize::BITS / 8) as usize
}

/// The number of bytes that follow the header byte in the code of `n`: the
/// least number of bytes that hold `n` without its top four bits.
pub open spec fn length_width(n: nat) -> nat
    decreases n,
{
    if n < 16 {
        0
    } else {
        1 + length_width(n / 256)
    }
}

/// The code of the length `n`: a header byte with the number of bytes that
/// follow in its high half and the top four bits of `n` in its low half, then
/// the rest of `n`, most significant byte first.
pub open spec fn length_code(n: nat) -> Seq<u8> {
    let width = length_width(n);
    seq![(width * 16 + n / pow256(width)) as u8] + be_bytes(n, width)
}

/// The largest number of bytes that a header byte can announce.
pub open spec fn max_length_width() -> nat {
    15
}

/// What a length code at the front of `bytes` says, and the bytes it takes.
pub open spec fn length_decoding(bytes: Seq<u8>) -> Result<(usize, int), KeyDeserializeError> {
    if bytes.len() == 0 {
        Err(KeyDeserializeError::NotEnoughBytes(1, 0))
    } else {
        let width = (bytes[0] / 16) as nat;
        let high = (bytes[0] % 16) as nat;
        let significant = if high != 0 {
            width + 1
        } else {
            width
        };
        if significant > usize_width() {
            Err(KeyDeserializeError::InvalidLength(usize_width() as usize, significant as usize))
        } else if bytes.len() < 1 + width {
            Err(KeyDeserializeError::NotEnoughBytes((1 + width) as usize, bytes.len() as usize))
        } else {
            Ok(
                (
                    (high * pow256(width) + be_value(bytes.subrange(1, 1 + width as int))) as usize,
                    1 + width as int,
                ),
            )
        }
    }
}

/// The top bits of `n` that its header byte carries are below 16.
pub proof fn lemma_length_high(n: nat)
    ensures
        n / pow256(length_width(n)) < 16,
    decreases n,
{
    if n >= 16 {
        let w = length_width(n / 256);
        lemma_length_high(n / 256);
        lemma_pow256_positive(w);
        lemma_div_denominator(n as int, 256, pow256(w) as int);
    }
}

/// A number below `16 * 256^k` has a code of at most `k` bytes after the header.
pub proof fn lemma_length_width_bound(n: nat, k: nat)
    requires
        n < 16 * pow256(k),
    ensures
        length_width(n) <= k,
    decreases n,
{
    if n >= 16 {
        assert(k > 0);
        lemma_length_width_bound(n / 256, (k - 1) as nat);
    }
}

/// A number from `16 * 256^k` on has a code of more than `k` bytes after the header.
pub proof fn lemma_length_width_least(n: nat, k: nat)
    requires
        n >= 16 * pow256(k),
    ensures
        length_width(n) > k,
    decreases k,
{
    lemma_pow256_positive(k);
    if k > 0 {
        lemma_pow256_positive((k - 1) as nat);
        lemma_length_width_least(n / 256, (k - 1) as nat);
    }
}

/// Larger lengths have codes that are at least as long.
pub proof fn lemma_length_width_monotonic(n: nat, m: nat)
    requires
        n <= m,
    ensures
        length_width(n) <= length_width(m),
    decreases n,
{
    if n >= 16 {
        lemma_length_width_monotonic(n / 256, m / 256);
    }
}

/// The code of `n` is its header byte and `length_width(n)` bytes.
pub proof fn lemma_length_code_len(n: nat)
    ensures
        length_code(n).len() == 1 + length_width(n),
{
    lemma_be_bytes_len(n, length_width(n));
}

/// A length that a `usize` holds has a code whose announced width fits a `usize`.
pub proof fn lemma_length_width_of_usize(n: usize)
    ensures
        length_width(n as nat) <= usize_width(),
        length_width(n as nat) <= 8,
        length_width(n as nat) == usize_width() ==> n as nat / pow256(usize_width()) == 0,
{
    lemma_usize_width();
    lemma_pow256_values();
    lemma_pow256_positive(usize_width());
    lemma_length_width_bound(n as nat, usize_width());
    vstd::arithmetic::div_mod::lemma_basic_div(n as int, pow256(usize_width()) as int);
}

/// Decoding the code of a length gives the length back, whatever follows the code.
pub proof fn lemma_length_round_trip(n: usize, rest: Seq<u8>)
    ensures
        length_decoding(length_code(n as nat) + rest) == Ok::<(usize, int), KeyDeserializeError>(
            (n, 1 + length_width(n as nat) as int),
        ),
{
    let width = length_width(n as nat);
    let high = n as nat / pow256(width);
    let code = length_code(n as nat);
    let bytes = code + rest;
    lemma_length_high(n as nat);
    lemma_length_width_of_usize(n);
    lemma_length_code_len(n as nat);
    lemma_pow256_positive(width);
    assert(bytes[0] == code[0]);
    assert(code[0] == (width * 16 + high) as u8);
    assert(bytes[0] / 16 == width);
    assert(bytes[0] % 16 == high);
    assert(bytes.subrange(1, 1 + width as int) =~= be_bytes(n as nat, width));
    lemma_be_value_of_bytes(n as nat, width);
    lemma_fundamental_div_mod(n as int, pow256(width) as int);
    assert(high * pow256(width) == pow256(width) * high) by (nonlinear_arith);
}

/// The codes of two lengths compare as the lengths do.
pub proof fn lemma_length_order(n: nat, m: nat)
    requires
        length_width(n) <= max_length_width(),
        length_width(m) <= max_length_width(),
    ensures
        n < m <==> lex_lt(length_code(n), length_code(m)),
{
    if n < m {
        lemma_length_order_below(n, m);
    } else if m < n {
        lemma_length_order_below(m, n);
        crate::order::lemma_lex_lt_asymmetric(length_code(n), length_code(m));
    } else {
        crate::order::lemma_lex_lt_irreflexive(length_code(n));
    }
}

proof fn lemma_length_order_below(n: nat, m: nat)
    requires
        n < m,
        length_width(m) <= max_length_width(),
    ensures
        lex_lt(length_code(n), length_code(m)),
{
    let wn = length_width(n);
    let wm = length_width(m);
    let cn = length_code(n);
    let cm = length_code(m);
    lemma_length_width_monotonic(n, m);
    lemma_length_high(n);
    lemma_length_high(m);
    lemma_length_code_len(n);
    lemma_length_code_len(m);
    lemma_lex_lt_iff_parts(cn, cm);
    lemma_pow256_positive(wn);
    let hn = n / pow256(wn);
    let hm = m / pow256(wm);
    assert(wn <= wm <= 15);
    assert(hn < 16 && hm < 16);
    lemma_pow256_positive(wm);
    let head_n = seq![(wn * 16 + hn) as u8];
    let head_m = seq![(wm * 16 + hm) as u8];
    assert(cn == head_n + be_bytes(n, wn));
    assert(cm == head_m + be_bytes(m, wm));
    assert(cn[0] == head_n[0] && head_n[0] == wn * 16 + hn);
    assert(cm[0] == head_m[0] && head_m[0] == wm * 16 + hm);
    if wn < wm {
        assert(parts_at(cn, cm, 0));
    } else {
        vstd::arithmetic::div_mod::lemma_div_is_ordered(n as int, m as int, pow256(wn) as int);
        if hn < hm {
            assert(parts_at(cn, cm, 0));
        } else {
            let pn = be_bytes(n, wn);
            let pm = be_bytes(m, wn);
            lemma_be_bytes_len(n, wn);
            lemma_be_bytes_len(m, wn);
            lemma_be_value_of_bytes(n, wn);
            lemma_be_value_of_bytes(m, wn);
            lemma_fundamental_div_mod(n as int, pow256(wn) as int);
            lemma_fundamental_div_mod(m as int, pow256(wn) as int);
            assert(n % pow256(wn) < m % pow256(wn));
            lemma_be_order(pn, pm);
            lemma_lex_lt_common_prefix(seq![cn[0]], pn, pm);
            assert(cn =~= seq![cn[0]] + pn);
            assert(cm =~= seq![cn[0]] + pm);
        }
    }
}

/// Encodes a length. Every length that a `usize` holds has a code.
pub fn encode_length(len: usize) -> (r: Result<Vec<u8>, KeySerializeError>)
    ensures
        bytes_view(r) == Ok::<Seq<u8>, KeySerializeError>(length_code(len as nat)),
{
    let mut width: usize = 0;
    let mut high: usize = len;
    proof {
        lemma_pow256_values();
    }
    while high >= 16
        invariant
            high == len as nat / pow256(width as nat),
            length_width(len as nat) == width + length_width(high as nat),
            width <= 8,
            width > 0 ==> 16 * pow256((width - 1) as nat) <= len,
        decreases high,
    {
        proof {
            lemma_pow256_positive(width as nat);
            lemma_div_denominator(len as int, pow256(width as nat) as int, 256);
            lemma_fundamental_div_mod(len as int, pow256(width as nat) as int);
            assert(pow256(width as nat) * high >= pow256(width as nat) * 16) by (nonlinear_arith)
                requires
                    high >= 16,
                    pow256(width as nat) > 0,
            ;
            lemma_pow256_values();
            if width >= 8 {
                lemma_pow256_monotonic(8, width as nat);
            }
        }
        high = high / 256;
        width = width + 1;
    }
    let mut bytes: Vec<u8> = Vec::new();
    bytes.push((width * 16 + high) as u8);
    let mut payload = encode_uint(len as u128, width);
    bytes.append(&mut payload);
    proof {
        assert(bytes@ =~= length_code(len as nat));
    }
    Ok(bytes)
}

/// Decodes a length from the front of `bytes` and moves `bytes` past its code.
/// Where it fails, `bytes` is left as it was.
pub fn decode_length(bytes: &mut &[u8]) -> (r: Result<usize, KeyDeserializeError>)
    ensures
        match r {
            Ok(n) => length_decoding(old(bytes)@) == Ok::<(usize, int), KeyDeserializeError>(
                (n, old(bytes)@.len() - final(bytes)@.len()),
            ) && old(bytes)@.len() >= final(bytes)@.len() && final(bytes)@ == old(bytes)@.skip(
                old(bytes)@.len() - final(bytes)@.len(),
            ),
            Err(e) => length_decoding(old(bytes)@) == Err::<(usize, int), KeyDeserializeError>(e)
                && final(bytes)@ == old(bytes)@,
        },
{
    if bytes.len() == 0 {
        return Err(KeyDeserializeError::NotEnoughBytes(1, 0));
    }
    let first = bytes[0];
    let width = (first / 16) as usize;
    let high = (first % 16) as usize;
    let significant = if high != 0 {
        width + 1
    } else {
        width
    };
    let limit = usize_bytes();
    if significant > limit {
        return Err(KeyDeserializeError::InvalidLength(limit, significant));
    }
    if bytes.len() < 1 + width {
        return Err(KeyDeserializeError::NotEnoughBytes(1 + width, bytes.len()));
    }
    let (code, rest) = bytes.split_at(1 + width);
    let (_, payload) = code.split_at(1);
    let low = decode_uint(payload, width);
    proof {
        lemma_usize_width();
        lemma_pow256_values();
        lemma_pow256_positive(width as nat);
        assert(payload@.take(width as int) =~= old(bytes)@.subrange(1, 1 + width));
        if width < usize_width() {
            lemma_pow256_monotonic((width + 1) as nat, usize_width());
            assert(pow256((width + 1) as nat) == 256 * pow256(width as nat));
            assert(high * pow256(width as nat) <= 15 * pow256(width as nat)) by (nonlinear_arith)
                requires
                    high <= 15,
            ;
        } else {
            assert(high * pow256(width as nat) == 0) by (nonlinear_arith)
                requires
                    high == 0,
            ;
        }
    }
    let scale = scale_of(width);
    let n = high * scale + low as usize;
    *bytes = rest;
    Ok(n)
}

/// `256^width` as a machine number; 0 for the full width of a `usize`, where
/// no bits are left above the payload.
fn scale_of(width: usize) -> (scale: usize)
    requires
        width <= usize_width(),
    ensures
        width < usize_width() ==> scale == pow256(width as nat),
        width == usize_width() ==> scale == 0,
{
    let mut scale: usize = 1;
    let mut i: usize = 0;
    if width == usize_bytes() {
        return 0;
    }
    proof {
        lemma_usize_width();
    }
    while i < width
        invariant
            0 <= i <= width,
            scale == pow256(i as nat),
            width < usize_width(),
            pow256(usize_width()) == usize::MAX + 1,
        decreases width - i,
    {
        proof {
            lemma_pow256_monotonic((i + 1) as nat, width as nat);
            lemma_pow256_monotonic((width + 1) as nat, usize_width());
            assert(pow256((width + 1) as nat) == 256 * pow256(width as nat));
        }
        scale = scale * 256;
        i = i + 1;
    }
    scale
}

} // verus!
