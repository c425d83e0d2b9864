//! Sequences of entries kept in strictly ascending key order, which stand for
//! ordered maps: where a key belongs, what a key maps to, and how an entry is
//! put in.
use crate::fixed::Key;
use vstd::prelude::*;

verus! {

/// The keys of a vector of entries, each by its view.
pub open spec fn keys_of<K: View, T>(s: Seq<(K, T)>) -> Seq<K::V> {
    Seq::new(s.len(), |i: int| s[i].0@)
}

/// The first components of a sequence of pairs.
pub open spec fn firsts<A, B>(s: Seq<(A, B)>) -> Seq<A> {
    Seq::new(s.len(), |i: int| s[i].0)
}

/// The keys are in strictly ascending order.
pub open spec fn ascending<K: Key>(keys: Seq<K::V>) -> bool {
    forall|i: int, j: int|
        0 <= i < j < keys.len() ==> K::before(#[trigger] keys[i], #[trigger] keys[j])
}

/// The number of leading keys that sort before `k`: in ascending keys, the
/// place where `k` is or belongs.
pub open spec fn rank<K: Key>(keys: Seq<K::V>, k: K::V) -> int
    decreases keys.len(),
{
    if keys.len() == 0 || !K::before(keys[0], k) {
        0
    } else {
        1 + rank::<K>(keys.skip(1), k)
    }
}

/// What `k` maps to.
pub open spec fn lookup<K: Key, T>(s: Seq<(K::V, T)>, k: K::V) -> Option<T> {
    let r = rank::<K>(firsts(s), k);
    if r < s.len() && s[r].0 == k {
        Some(s[r].1)
    } else {
        None
    }
}

/// The entries with `k` mapped to `v`: replaced where `k` is present, put in
/// at its place where it is not.
pub open spec fn upsert<K: Key, T>(s: Seq<(K::V, T)>, k: K::V, v: T) -> Seq<(K::V, T)> {
    let r = rank::<K>(firsts(s), k);
    if r < s.len() && s[r].0 == k {
        s.update(r, (k, v))
    } else {
        s.insert(r, (k, v))
    }
}

/// What the greatest key that does not sort after `k` maps to.
pub open spec fn floor<K: Key, T>(s: Seq<(K::V, T)>, k: K::V) -> Option<T> {
    let r = rank::<K>(firsts(s), k);
    if r < s.len() && s[r].0 == k {
        Some(s[r].1)
    } else if r > 0 {
        Some(s[r - 1].1)
    } else {
        None
    }
}

pub proof fn lemma_rank<K: Key>(keys: Seq<K::V>, k: K::V)
    ensures
        0 <= rank::<K>(keys, k) <= keys.len(),
        forall|i: int| 0 <= i < rank::<K>(keys, k) ==> K::before(#[trigger] keys[i], k),
        rank::<K>(keys, k) < keys.len() ==> !K::before(keys[rank::<K>(keys, k)], k),
    decreases keys.len(),
{
    if keys.len() == 0 || !K::before(keys[0], k) {
    } else {
        let rest = keys.skip(1);
        lemma_rank::<K>(rest, k);
        assert forall|i: int| 0 <= i < rank::<K>(keys, k) implies K::before(
            #[trigger] keys[i],
            k,
        ) by {
            if i > 0 {
                assert(keys[i] == rest[i - 1]);
            }
        }
    }
}

pub proof fn lemma_rank_is<K: Key>(keys: Seq<K::V>, k: K::V, p: int)
    requires
        0 <= p <= keys.len(),
        forall|i: int| 0 <= i < p ==> K::before(#[trigger] keys[i], k),
        p < keys.len() ==> !K::before(keys[p], k),
    ensures
        rank::<K>(keys, k) == p,
    decreases keys.len(),
{
    if p > 0 {
        let rest = keys.skip(1);
        assert(K::before(keys[0], k));
        assert forall|i: int| 0 <= i < p - 1 implies K::before(#[trigger] rest[i], k) by {
            assert(rest[i] == keys[i + 1]);
        }
        lemma_rank_is::<K>(rest, k, p - 1);
    }
}

/// In ascending keys, no key from the rank on sorts before `k`, and `k` can
/// only stand at its rank.
pub proof fn lemma_rank_ascending<K: Key>(keys: Seq<K::V>, k: K::V)
    requires
        ascending::<K>(keys),
    ensures
        forall|i: int| rank::<K>(keys, k) <= i < keys.len() ==> !K::before(#[trigger] keys[i], k),
        forall|i: int| 0 <= i < keys.len() && #[trigger] keys[i] == k ==> i == rank::<K>(keys, k),
{
    let r = rank::<K>(keys, k);
    lemma_rank::<K>(keys, k);
    assert forall|i: int| r <= i < keys.len() implies !K::before(#[trigger] keys[i], k) by {
        if i > r && K::before(keys[i], k) {
            K::lemma_transitive(keys[r], keys[i], k);
        }
    }
    assert forall|i: int| 0 <= i < keys.len() && #[trigger] keys[i] == k implies i == r by {
        K::lemma_irreflexive(k);
        if i > r {
            K::lemma_transitive(keys[r], keys[i], keys[r]);
            K::lemma_irreflexive(keys[r]);
            K::lemma_total(keys[r], k);
            if K::before(k, keys[r]) {
                K::lemma_transitive(k, keys[r], k);
            }
        }
    }
}

/// In ascending entries, every entry is found under its own key.
pub proof fn lemma_lookup_at<K: Key, T>(s: Seq<(K::V, T)>, i: int)
    requires
        ascending::<K>(firsts(s)),
        0 <= i < s.len(),
    ensures
        rank::<K>(firsts(s), s[i].0) == i,
        lookup::<K, T>(s, s[i].0) == Some(s[i].1),
{
    lemma_rank_ascending::<K>(firsts(s), s[i].0);
    assert(firsts(s)[i] == s[i].0);
}

/// Putting an entry in keeps the order, maps its key to its value, and leaves
/// every other key as it was.
pub proof fn lemma_upsert<K: Key, T>(s: Seq<(K::V, T)>, k: K::V, v: T)
    requires
        ascending::<K>(firsts(s)),
    ensures
        ascending::<K>(firsts(upsert::<K, T>(s, k, v))),
        lookup::<K, T>(upsert::<K, T>(s, k, v), k) == Some(v),
        forall|q: K::V|
            q != k ==> #[trigger] lookup::<K, T>(upsert::<K, T>(s, k, v), q) == lookup::<K, T>(
                s,
                q,
            ),
{
    let keys = firsts(s);
    let r = rank::<K>(keys, k);
    let t = upsert::<K, T>(s, k, v);
    let tk = firsts(t);
    lemma_rank::<K>(keys, k);
    let held = r < s.len() && s[r].0 == k;
    lemma_rank_ascending::<K>(keys, k);
    K::lemma_irreflexive(k);
    assert forall|i: int| r < i < tk.len() implies K::before(k, #[trigger] tk[i]) by {
        let j = if held { i } else { i - 1 };
        assert(tk[i] == keys[j]);
        if held {
            assert(K::before(keys[r], keys[j]));
        } else {
            K::lemma_total(keys[j], k);
            if j < s.len() && keys[j] == k {
                assert(j == r);
            }
        }
    }
    assert forall|i: int, j: int| 0 <= i < j < tk.len() implies K::before(
        #[trigger] tk[i],
        #[trigger] tk[j],
    ) by {
        if j < r {
            assert(tk[i] == keys[i] && tk[j] == keys[j]);
        } else if j == r {
            assert(tk[i] == keys[i]);
        } else if i < r {
            assert(tk[i] == keys[i]);
            K::lemma_transitive(tk[i], k, tk[j]);
        } else if i == r {
        } else {
            let a = if held { i } else { i - 1 };
            let b = if held { j } else { j - 1 };
            assert(tk[i] == keys[a] && tk[j] == keys[b]);
        }
    }
    assert forall|i: int| 0 <= i < r implies K::before(#[trigger] tk[i], k) by {
        assert(tk[i] == keys[i]);
    }
    lemma_rank_is::<K>(tk, k, r);
    assert forall|q: K::V| q != k implies #[trigger] lookup::<K, T>(t, q) == lookup::<K, T>(
        s,
        q,
    ) by {
        let p = rank::<K>(keys, q);
        lemma_rank::<K>(keys, q);
        lemma_rank_ascending::<K>(keys, q);
        K::lemma_total(q, k);
        K::lemma_irreflexive(q);
        if K::before(q, k) {
            if p > r {
                K::lemma_transitive(keys[r], q, k);
            }
            assert forall|i: int| 0 <= i < p implies K::before(#[trigger] tk[i], q) by {
                assert(tk[i] == keys[i]);
            }
            if p == r {
                if K::before(k, q) {
                    K::lemma_transitive(k, q, k);
                }
            } else {
                assert(tk[p] == keys[p]);
            }
            lemma_rank_is::<K>(tk, q, p);
            if p < r {
                assert(t[p] == s[p]);
            } else if p < s.len() && keys[p] == q {
            }
        } else {
            let shift: int = if held { 0 } else { 1 };
            if p < r {
                assert(K::before(keys[p], k));
                K::lemma_total(keys[p], q);
                if K::before(q, keys[p]) {
                    K::lemma_transitive(q, keys[p], k);
                }
                assert(false);
            }
            if held && p == r {
                assert(!K::before(keys[r], q));
            }
            assert forall|i: int| 0 <= i < p + shift implies K::before(#[trigger] tk[i], q) by {
                if i < r {
                    assert(tk[i] == keys[i]);
                } else if i == r {
                } else {
                    assert(tk[i] == keys[i - shift]);
                }
            }
            if p + shift < tk.len() {
                if p + shift == r {
                } else {
                    assert(tk[p + shift] == keys[p]);
                }
            }
            lemma_rank_is::<K>(tk, q, p + shift);
            if p < s.len() {
                if p + shift != r {
                    assert(t[p + shift] == s[p]);
                }
            }
        }
    }
}

/// Ascending keys stay ascending when a key that sorts after the last is put
/// behind them.
pub proof fn lemma_ascending_push<K: Key>(keys: Seq<K::V>, k: K::V)
    requires
        ascending::<K>(keys),
        keys.len() > 0 ==> K::before(keys.last(), k),
    ensures
        ascending::<K>(keys.push(k)),
{
    let after = keys.push(k);
    assert forall|x: int, y: int| 0 <= x < y < after.len() implies K::before(
        #[trigger] after[x],
        #[trigger] after[y],
    ) by {
        if y < keys.len() {
            assert(after[x] == keys[x] && after[y] == keys[y]);
        } else if x < keys.len() - 1 {
            assert(after[x] == keys[x]);
            K::lemma_transitive(keys[x], keys.last(), k);
        }
    }
}

/// Finds where `k` is or belongs among ascending entries.
pub fn search<K: Key, T>(v: &Vec<(K, T)>, k: &K) -> (r: usize)
    requires
        ascending::<K>(keys_of(v@)),
    ensures
        r == rank::<K>(keys_of(v@), k@),
        r <= v@.len(),
{
    let ghost keys = keys_of(v@);
    let mut lo: usize = 0;
    let mut hi: usize = v.len();
    while lo < hi
        invariant
            keys == keys_of(v@),
            ascending::<K>(keys),
            0 <= lo <= hi <= v@.len(),
            forall|i: int| 0 <= i < lo ==> K::before(#[trigger] keys[i], k@),
            forall|i: int| hi <= i < keys.len() ==> !K::before(#[trigger] keys[i], k@),
        decreases hi - lo,
    {
        let mid = lo + (hi - lo) / 2;
        assert(keys[mid as int] == v@[mid as int].0@);
        if v[mid].0.precedes(k) {
            proof {
                assert forall|i: int| 0 <= i < mid + 1 implies K::before(
                    #[trigger] keys[i],
                    k@,
                ) by {
                    if i < mid {
                        K::lemma_transitive(keys[i], keys[mid as int], k@);
                    }
                }
            }
            lo = mid + 1;
        } else {
            proof {
                assert forall|i: int| mid <= i < keys.len() implies !K::before(
                    #[trigger] keys[i],
                    k@,
                ) by {
                    if i > mid && K::before(keys[i], k@) {
                        K::lemma_transitive(keys[mid as int], keys[i], k@);
                    }
                }
            }
            hi = mid;
        }
    }
    proof {
        lemma_rank_is::<K>(keys, k@, lo as int);
    }
    lo
}

/// Whether the entry at the rank of `k` holds `k`.
pub fn holds<K: Key, T>(v: &Vec<(K, T)>, r: usize, k: &K) -> (b: bool)
    requires
        r == rank::<K>(keys_of(v@), k@),
    ensures
        b == (r < v@.len() && v@[r as int].0@ == k@),
{
    if r >= v.len() {
        return false;
    }
    proof {
        let keys = keys_of(v@);
        lemma_rank::<K>(keys, k@);
        assert(keys[r as int] == v@[r as int].0@);
        K::lemma_total(keys[r as int], k@);
        K::lemma_irreflexive(k@);
    }
    !k.precedes(&v[r].0)
}

} // verus!
