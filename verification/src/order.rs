//! Lexicographic order on byte strings: the order in which a flat store keeps
//! its keys, and the order that key encodings have to preserve.
use vstd::prelude::*;

verus! {

/// `a` comes before `b` when the two are compared byte by byte from index `i` on.
pub open spec fn lex_lt_from(a: Seq<u8>, b: Seq<u8>, i: int) -> bool
    decreases a.len() - i,
{
    if i >= b.len() {
        false
    } else if i >= a.len() {
        true
    } else if a[i] != b[i] {
        a[i] < b[i]
    } else {
        lex_lt_from(a, b, i + 1)
    }
}

/// Strict lexicographic order: at the first index where the two differ `a` has
/// the smaller byte, or `a` is a proper prefix of `b`.
pub open spec fn lex_lt(a: Seq<u8>, b: Seq<u8>) -> bool {
    lex_lt_from(a, b, 0)
}

/// Non-strict lexicographic order.
pub open spec fn lex_le(a: Seq<u8>, b: Seq<u8>) -> bool {
    a == b || lex_lt(a, b)
}

/// `p` is a prefix of `s`.
pub open spec fn is_prefix(p: Seq<u8>, s: Seq<u8>) -> bool {
    p.len() <= s.len() && s.subrange(0, p.len() as int) == p
}

/// From index `i` on, `k` is the first index at which `a` and `b` part, and
/// `a` is the smaller there.
pub open spec fn parts_from(a: Seq<u8>, b: Seq<u8>, i: int, k: int) -> bool {
    &&& i <= k <= a.len()
    &&& k < b.len()
    &&& forall|j: int| i <= j < k ==> a[j] == b[j]
    &&& (k < a.len() ==> a[k] < b[k])
}

/// `k` is the first index at which `a` and `b` part, and `a` is the smaller there.
pub open spec fn parts_at(a: Seq<u8>, b: Seq<u8>, k: int) -> bool {
    parts_from(a, b, 0, k)
}

/// From index `i` on, `a` is below `b` exactly if the two part at some index
/// from `i` on with `a` the smaller.
proof fn lemma_lex_lt_from_witness(a: Seq<u8>, b: Seq<u8>, i: int)
    requires
        0 <= i <= a.len(),
    ensures
        lex_lt_from(a, b, i) <==> exists|k: int| parts_from(a, b, i, k),
    decreases a.len() - i,
{
    if i >= b.len() {
        assert forall|k: int| !parts_from(a, b, i, k) by {}
    } else if i >= a.len() {
        assert(parts_from(a, b, i, i));
    } else if a[i] != b[i] {
        if a[i] < b[i] {
            assert(parts_from(a, b, i, i));
        } else {
            assert forall|k: int| !parts_from(a, b, i, k) by {
                if parts_from(a, b, i, k) {
                    if k > i {
                        assert(a[i] == b[i]);
                    }
                }
            }
        }
    } else {
        let next = i + 1;
        lemma_lex_lt_from_witness(a, b, next);
        if lex_lt_from(a, b, next) {
            let k = choose|k: int| parts_from(a, b, next, k);
            assert(parts_from(a, b, i, k));
        } else {
            assert forall|k: int| !parts_from(a, b, i, k) by {
                if parts_from(a, b, i, k) {
                    assert(k != i);
                    assert(parts_from(a, b, next, k));
                }
            }
        }
    }
}

/// `a` is below `b` exactly if the two part somewhere with `a` the smaller.
pub proof fn lemma_lex_lt_iff_parts(a: Seq<u8>, b: Seq<u8>)
    ensures
        lex_lt(a, b) <==> exists|k: int| parts_at(a, b, k),
{
    lemma_lex_lt_from_witness(a, b, 0);
    if lex_lt(a, b) {
        let k = choose|k: int| parts_from(a, b, 0, k);
        assert(parts_at(a, b, k));
    }
    if exists|k: int| parts_at(a, b, k) {
        let k = choose|k: int| parts_at(a, b, k);
        assert(parts_from(a, b, 0, k));
    }
}

/// No byte string is below itself.
pub proof fn lemma_lex_lt_irreflexive(a: Seq<u8>)
    ensures
        !lex_lt(a, a),
{
    lemma_lex_lt_iff_parts(a, a);
    assert forall|k: int| !parts_at(a, a, k) by {}
}

/// Of two byte strings at most one is below the other.
pub proof fn lemma_lex_lt_asymmetric(a: Seq<u8>, b: Seq<u8>)
    ensures
        !(lex_lt(a, b) && lex_lt(b, a)),
{
    lemma_lex_lt_iff_parts(a, b);
    lemma_lex_lt_iff_parts(b, a);
    if lex_lt(a, b) && lex_lt(b, a) {
        let k1 = choose|k: int| parts_at(a, b, k);
        let k2 = choose|k: int| parts_at(b, a, k);
        if k1 < k2 {
            assert(b[k1] == a[k1]);
        } else if k2 < k1 {
            assert(a[k2] == b[k2]);
        }
    }
}

/// The order is transitive.
pub proof fn lemma_lex_lt_transitive(a: Seq<u8>, b: Seq<u8>, c: Seq<u8>)
    requires
        lex_lt(a, b),
        lex_lt(b, c),
    ensures
        lex_lt(a, c),
{
    lemma_lex_lt_iff_parts(a, b);
    lemma_lex_lt_iff_parts(b, c);
    lemma_lex_lt_iff_parts(a, c);
    let k1 = choose|k: int| parts_at(a, b, k);
    let k2 = choose|k: int| parts_at(b, c, k);
    let k = if k1 <= k2 {
        k1
    } else {
        k2
    };
    assert(parts_at(a, c, k)) by {
        assert forall|j: int| 0 <= j < k implies a[j] == c[j] by {
            assert(a[j] == b[j]);
            assert(b[j] == c[j]);
        }
        if k1 < k2 {
            assert(b[k1] == c[k1]);
        } else if k2 < k1 {
            assert(a[k2] == b[k2]);
        }
    }
}

/// Two different byte strings are ordered one way or the other.
pub proof fn lemma_lex_lt_total(a: Seq<u8>, b: Seq<u8>)
    ensures
        a == b || lex_lt(a, b) || lex_lt(b, a),
{
    lemma_lex_lt_total_from(a, b, 0);
}

proof fn lemma_lex_lt_total_from(a: Seq<u8>, b: Seq<u8>, i: int)
    requires
        0 <= i <= a.len(),
        i <= b.len(),
        forall|j: int| 0 <= j < i ==> a[j] == b[j],
    ensures
        a == b || lex_lt_from(a, b, i) || lex_lt_from(b, a, i),
    decreases a.len() - i,
{
    if i == a.len() && i == b.len() {
        assert(a =~= b);
    } else if i == a.len() || i == b.len() {
    } else if a[i] != b[i] {
    } else {
        lemma_lex_lt_total_from(a, b, i + 1);
    }
}

/// A common front does not change which of two byte strings is the lower.
pub proof fn lemma_lex_lt_common_prefix(p: Seq<u8>, a: Seq<u8>, b: Seq<u8>)
    ensures
        lex_lt(p + a, p + b) <==> lex_lt(a, b),
{
    lemma_lex_lt_iff_parts(p + a, p + b);
    lemma_lex_lt_iff_parts(a, b);
    let n = p.len() as int;
    if lex_lt(a, b) {
        let k = choose|k: int| parts_at(a, b, k);
        assert(parts_at(p + a, p + b, n + k)) by {
            assert forall|j: int| 0 <= j < n + k implies (p + a)[j] == (p + b)[j] by {
                if j >= n {
                    assert(a[j - n] == b[j - n]);
                }
            }
        }
    }
    if lex_lt(p + a, p + b) {
        let k = choose|k: int| parts_at(p + a, p + b, k);
        if k < n {
            assert((p + a)[k] == p[k]);
            assert((p + b)[k] == p[k]);
        }
        assert(parts_at(a, b, k - n)) by {
            assert forall|j: int| 0 <= j < k - n implies a[j] == b[j] by {
                assert((p + a)[j + n] == (p + b)[j + n]);
            }
            if k - n < a.len() {
                assert((p + a)[k] == a[k - n]);
                assert((p + b)[k] == b[k - n]);
            }
        }
    }
}

/// A proper prefix is below the string it is a prefix of.
pub proof fn lemma_proper_prefix_is_below(p: Seq<u8>, s: Seq<u8>)
    requires
        is_prefix(p, s),
        p.len() < s.len(),
    ensures
        lex_lt(p, s),
{
    lemma_lex_lt_iff_parts(p, s);
    assert(parts_at(p, s, p.len() as int)) by {
        assert forall|j: int| 0 <= j < p.len() implies p[j] == s[j] by {
            assert(s.subrange(0, p.len() as int)[j] == s[j]);
        }
    }
}

/// Where neither of `a` and `b` is a prefix of the other, what follows them
/// does not change which is the lower.
pub proof fn lemma_lex_lt_decided_by_heads(a: Seq<u8>, x: Seq<u8>, b: Seq<u8>, y: Seq<u8>)
    requires
        !is_prefix(a, b),
        !is_prefix(b, a),
    ensures
        lex_lt(a + x, b + y) <==> lex_lt(a, b),
{
    lemma_lex_lt_iff_parts(a + x, b + y);
    lemma_lex_lt_iff_parts(a, b);
    lemma_first_difference(a, b, 0);
    let d = choose|d: int|
        0 <= d < a.len() && d < b.len() && a[d] != b[d] && forall|j: int|
            0 <= j < d ==> a[j] == b[j];
    if lex_lt(a, b) {
        let k = choose|k: int| parts_at(a, b, k);
        if k < d {
            assert(a[k] == b[k]);
        } else if d < k {
            assert(a[d] == b[d]);
        }
        assert(parts_at(a + x, b + y, d));
    }
    if lex_lt(a + x, b + y) {
        let k = choose|k: int| parts_at(a + x, b + y, k);
        if k < d {
            assert((a + x)[k] == a[k]);
            assert((b + y)[k] == b[k]);
        } else if d < k {
            assert((a + x)[d] == a[d]);
            assert((b + y)[d] == b[d]);
        }
        assert((a + x)[d] == a[d]);
        assert((b + y)[d] == b[d]);
        assert(parts_at(a, b, d)) by {
            assert forall|j: int| 0 <= j < d implies a[j] == b[j] by {}
        }
    }
}

/// Two byte strings that agree up to `i` and of which neither is a prefix of
/// the other differ at some index that both have.
proof fn lemma_first_difference(a: Seq<u8>, b: Seq<u8>, i: int)
    requires
        0 <= i <= a.len(),
        i <= b.len(),
        forall|j: int| 0 <= j < i ==> a[j] == b[j],
        !is_prefix(a, b),
        !is_prefix(b, a),
    ensures
        exists|d: int|
            0 <= d < a.len() && d < b.len() && a[d] != b[d] && forall|j: int|
                0 <= j < d ==> a[j] == b[j],
    decreases a.len() - i,
{
    if i == a.len() {
        assert(b.subrange(0, a.len() as int) =~= a);
    } else if i == b.len() {
        assert(a.subrange(0, b.len() as int) =~= b);
    } else if a[i] != b[i] {
    } else {
        lemma_first_difference(a, b, i + 1);
    }
}

/// Whether `a` is strictly below `b` in lexicographic order.
pub fn lex_less(a: &[u8], b: &[u8]) -> (r: bool)
    ensures
        r == lex_lt(a@, b@),
{
    let mut i: usize = 0;
    while i < a.len() && i < b.len()
        invariant
            0 <= i <= a.len(),
            i <= b.len(),
            lex_lt(a@, b@) == lex_lt_from(a@, b@, i as int),
        decreases a.len() - i,
    {
        if a[i] != b[i] {
            return a[i] < b[i];
        }
        i = i + 1;
    }
    i < b.len()
}

/// Whether two byte strings hold the same bytes.
pub fn bytes_equal(a: &[u8], b: &[u8]) -> (r: bool)
    ensures
        r == (a@ == b@),
{
    if a.len() != b.len() {
        return false;
    }
    let mut i: usize = 0;
    while i < a.len()
        invariant
            0 <= i <= a.len(),
            a.len() == b.len(),
            forall|j: int| 0 <= j < i ==> a@[j] == b@[j],
        decreases a.len() - i,
    {
        if a[i] != b[i] {
            return false;
        }
        i = i + 1;
    }
    assert(a@ =~= b@);
    true
}

/// Whether `key` begins with `prefix`.
pub fn starts_with(key: &[u8], prefix: &[u8]) -> (r: bool)
    ensures
        r == is_prefix(prefix@, key@),
{
    if prefix.len() > key.len() {
        return false;
    }
    let mut i: usize = 0;
    while i < prefix.len()
        invariant
            0 <= i <= prefix.len(),
            prefix.len() <= key.len(),
            forall|j: int| 0 <= j < i ==> key@[j] == prefix@[j],
        decreases prefix.len() - i,
    {
        if key[i] != prefix[i] {
            assert(key@.subrange(0, prefix.len() as int)[i as int] == key@[i as int]);
            return false;
        }
        i = i + 1;
    }
    assert(key@.subrange(0, prefix.len() as int) =~= prefix@);
    true
}

} // verus!
