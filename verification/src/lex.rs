//! Lexicographic order on byte strings.
use vstd::prelude::*;

verus! {

/// `a` and `b` agree on their first `i` bytes, and there `a` ends or holds the
/// smaller byte.
pub open spec fn splits_at(a: Seq<u8>, b: Seq<u8>, i: int) -> bool {
    &&& 0 <= i <= a.len()
    &&& i < b.len()
    &&& forall|j: int| 0 <= j < i ==> a[j] == b[j]
    &&& i < a.len() ==> a[i] < b[i]
}

/// `a` comes strictly before `b` in lexicographic order.
pub open spec fn lex_before(a: Seq<u8>, b: Seq<u8>) -> bool {
    exists|i: int| splits_at(a, b, i)
}

pub proof fn lemma_lex_irreflexive(a: Seq<u8>)
    ensures
        !lex_before(a, a),
{
}

pub proof fn lemma_lex_transitive(a: Seq<u8>, b: Seq<u8>, c: Seq<u8>)
    requires
        lex_before(a, b),
        lex_before(b, c),
    ensures
        lex_before(a, c),
{
    let i = choose|i: int| splits_at(a, b, i);
    let j = choose|j: int| splits_at(b, c, j);
    let m = if i <= j { i } else { j };
    assert(splits_at(a, c, m));
}

proof fn lemma_lex_total_from(a: Seq<u8>, b: Seq<u8>, i: int)
    requires
        0 <= i <= a.len(),
        i <= b.len(),
        forall|j: int| 0 <= j < i ==> a[j] == b[j],
    ensures
        lex_before(a, b) || a == b || lex_before(b, a),
    decreases a.len() - i,
{
    if i == a.len() {
        if i == b.len() {
            assert(a =~= b);
        } else {
            assert(splits_at(a, b, i));
        }
    } else if i == b.len() {
        assert(splits_at(b, a, i));
    } else if a[i] < b[i] {
        assert(splits_at(a, b, i));
    } else if b[i] < a[i] {
        assert(splits_at(b, a, i));
    } else {
        lemma_lex_total_from(a, b, i + 1);
    }
}

pub proof fn lemma_lex_total(a: Seq<u8>, b: Seq<u8>)
    ensures
        lex_before(a, b) || a == b || lex_before(b, a),
{
    lemma_lex_total_from(a, b, 0);
}

/// Compares two byte strings lexicographically.
pub fn bytes_before(a: &[u8], b: &[u8]) -> (r: bool)
    ensures
        r == lex_before(a@, b@),
{
    let mut i: usize = 0;
    while i < a.len() && i < b.len()
        invariant
            0 <= i <= a@.len(),
            i <= b@.len(),
            forall|j: int| 0 <= j < i ==> a@[j] == b@[j],
        decreases a@.len() - i,
    {
        if a[i] != b[i] {
            proof {
                if a@[i as int] < b@[i as int] {
                    assert(splits_at(a@, b@, i as int));
                } else {
                    assert(splits_at(b@, a@, i as int));
                    if lex_before(a@, b@) {
                        lemma_lex_transitive(a@, b@, a@);
                    }
                }
            }
            return a[i] < b[i];
        }
        i += 1;
    }
    proof {
        if a@.len() < b@.len() {
            assert(splits_at(a@, b@, i as int));
        } else if b@.len() < a@.len() {
            assert(splits_at(b@, a@, i as int));
            if lex_before(a@, b@) {
                lemma_lex_transitive(a@, b@, a@);
            }
        } else {
            assert(a@ =~= b@);
        }
    }
    a.len() < b.len()
}

} // verus!
