//! Byte strings as keys: equality, the lexicographic order in which an ordered
//! store keeps them, and prefixes.

use vstd::prelude::*;

verus! {

/// `n` shows that `a` comes strictly before `b`: the two agree on their first
/// `n` bytes, and there `a` ends while `b` goes on, or `a` has the smaller byte.
pub open spec fn lt_at(a: Seq<u8>, b: Seq<u8>, n: int) -> bool {
    &&& 0 <= n <= a.len()
    &&& n < b.len()
    &&& forall|i: int| 0 <= i < n ==> a[i] == b[i]
    &&& (n == a.len() || a[n] < b[n])
}

/// Strict lexicographic order on byte strings.
pub open spec fn lex_lt(a: Seq<u8>, b: Seq<u8>) -> bool {
    exists|n: int| lt_at(a, b, n)
}

/// Lexicographic order on byte strings.
pub open spec fn lex_le(a: Seq<u8>, b: Seq<u8>) -> bool {
    a == b || lex_lt(a, b)
}

/// Whether `p` is a prefix of `a`.
pub open spec fn is_prefix(p: Seq<u8>, a: Seq<u8>) -> bool {
    p.len() <= a.len() && a.subrange(0, p.len() as int) == p
}

/// No byte string comes before itself.
pub proof fn lemma_lex_irreflexive(a: Seq<u8>)
    ensures
        !lex_lt(a, a),
{
}

/// The strict order is transitive.
pub proof fn lemma_lex_transitive(a: Seq<u8>, b: Seq<u8>, c: Seq<u8>)
    requires
        lex_lt(a, b),
        lex_lt(b, c),
    ensures
        lex_lt(a, c),
{
    let n = choose|n: int| lt_at(a, b, n);
    let m = choose|m: int| lt_at(b, c, m);
    if n <= m {
        assert(lt_at(a, c, n));
    } else {
        assert(lt_at(a, c, m));
    }
}

/// Of two byte strings one comes first, or they are equal.
pub proof fn lemma_lex_total(a: Seq<u8>, b: Seq<u8>)
    ensures
        lex_lt(a, b) || a == b || lex_lt(b, a),
{
    lemma_lex_total_from(a, b, 0);
}

proof fn lemma_lex_total_from(a: Seq<u8>, b: Seq<u8>, n: int)
    requires
        0 <= n <= a.len(),
        n <= b.len(),
        forall|i: int| 0 <= i < n ==> a[i] == b[i],
    ensures
        lex_lt(a, b) || a == b || lex_lt(b, a),
    decreases a.len() - n,
{
    if n == a.len() {
        if n == b.len() {
            assert(a =~= b);
        } else {
            assert(lt_at(a, b, n));
        }
    } else if n == b.len() {
        assert(lt_at(b, a, n));
    } else if a[n] < b[n] {
        assert(lt_at(a, b, n));
    } else if b[n] < a[n] {
        assert(lt_at(b, a, n));
    } else {
        lemma_lex_total_from(a, b, n + 1);
    }
}

/// Two byte strings cannot each come before the other.
pub proof fn lemma_lex_asymmetric(a: Seq<u8>, b: Seq<u8>)
    requires
        lex_lt(a, b),
    ensures
        !lex_lt(b, a),
        a != b,
{
    if lex_lt(b, a) {
        lemma_lex_transitive(a, b, a);
    }
}

/// The order `lex_le` is transitive.
pub proof fn lemma_lex_le_transitive(a: Seq<u8>, b: Seq<u8>, c: Seq<u8>)
    requires
        lex_le(a, b),
        lex_le(b, c),
    ensures
        lex_le(a, c),
{
    if a != b && b != c {
        lemma_lex_transitive(a, b, c);
    }
}

/// Whatever lies between two byte strings that share a prefix shares it too.
pub proof fn lemma_between_keeps_prefix(p: Seq<u8>, lo: Seq<u8>, x: Seq<u8>, hi: Seq<u8>)
    requires
        is_prefix(p, lo),
        is_prefix(p, hi),
        lex_le(lo, x),
        lex_le(x, hi),
    ensures
        is_prefix(p, x),
{
    assert(forall|i: int| 0 <= i < p.len() ==> lo[i] == lo.subrange(0, p.len() as int)[i]);
    assert(forall|i: int| 0 <= i < p.len() ==> hi[i] == hi.subrange(0, p.len() as int)[i]);
    if lo != x && x != hi {
        let n = choose|n: int| lt_at(lo, x, n);
        let m = choose|m: int| lt_at(x, hi, m);
        if n < p.len() {
            // `x` exceeds `lo` at `n`, inside the prefix, where `hi` equals `lo`
            if m <= n {
                if m == n {
                    assert(lo[n] < x[n]);
                } else {
                    assert(lo[m] == x[m]);
                }
                assert(false);
            }
            assert(x[n] == hi[n]);
            assert(false);
        }
        if m < p.len() {
            assert(x[m] == lo[m]);
            assert(false);
        }
        assert(x.subrange(0, p.len() as int) =~= p);
    }
}

/// Whether two byte strings are equal.
pub fn bytes_eq(a: &Vec<u8>, b: &Vec<u8>) -> (equal: bool)
    ensures
        equal == (a@ == b@),
{
    if a.len() != b.len() {
        return false;
    }
    let mut i: usize = 0;
    while i < a.len()
        invariant
            a@.len() == b@.len(),
            i <= a@.len(),
            forall|j: int| 0 <= j < i ==> a@[j] == b@[j],
        decreases a@.len() - i,
    {
        if a[i] != b[i] {
            return false;
        }
        i += 1;
    }
    assert(a@ =~= b@);
    true
}

/// Whether `a` comes strictly before `b` in lexicographic order.
pub fn bytes_lt(a: &Vec<u8>, b: &Vec<u8>) -> (before: bool)
    ensures
        before == lex_lt(a@, b@),
{
    let mut i: usize = 0;
    while i < a.len() && i < b.len()
        invariant
            i <= a@.len(),
            i <= b@.len(),
            forall|j: int| 0 <= j < i ==> a@[j] == b@[j],
        decreases a@.len() - i,
    {
        if a[i] < b[i] {
            assert(lt_at(a@, b@, i as int));
            return true;
        }
        if a[i] > b[i] {
            proof {
                assert(lt_at(b@, a@, i as int));
                lemma_lex_asymmetric(b@, a@);
            }
            return false;
        }
        i += 1;
    }
    if i < b.len() {
        assert(lt_at(a@, b@, i as int));
        true
    } else {
        proof {
            if i < a.len() {
                assert(lt_at(b@, a@, i as int));
                lemma_lex_asymmetric(b@, a@);
            } else {
                assert(a@ =~= b@);
            }
        }
        false
    }
}

/// Whether `a` comes before `b` in lexicographic order, or equals it.
pub fn bytes_le(a: &Vec<u8>, b: &Vec<u8>) -> (before: bool)
    ensures
        before == lex_le(a@, b@),
{
    proof {
        lemma_lex_total(a@, b@);
        if lex_lt(b@, a@) {
            lemma_lex_asymmetric(b@, a@);
        }
    }
    !bytes_lt(b, a)
}

} // verus!
