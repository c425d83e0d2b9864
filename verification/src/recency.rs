//! The order in which the pool keeps its blocks: by their last use, newest
//! first, cut to the capacity of the pool.
use crate::buffer_manager::{aligned, lemma_promote, BlockView, PoolView};
use crate::BLOCK_SIZE;
use vstd::prelude::*;

verus! {

/// The identities of blocks: file and offset.
pub open spec fn ids(blocks: Seq<BlockView>) -> Seq<(Seq<char>, int)> {
    Seq::new(blocks.len(), |i: int| (blocks[i].file, blocks[i].offset))
}

/// No identity occurs twice.
pub open spec fn distinct(s: Seq<(Seq<char>, int)>) -> bool {
    forall|i: int, j: int| 0 <= i < j < s.len() ==> #[trigger] s[i] != #[trigger] s[j]
}

/// The identities of `s` but `x`, in their order.
pub open spec fn without(s: Seq<(Seq<char>, int)>, x: (Seq<char>, int)) -> Seq<(Seq<char>, int)>
    decreases s.len(),
{
    if s.len() == 0 {
        Seq::empty()
    } else if s.last() == x {
        without(s.drop_last(), x)
    } else {
        without(s.drop_last(), x).push(s.last())
    }
}

/// The identities in the order of their last use, newest first: those that
/// were used, each at the place of its last use, and behind them those of
/// `before` that were not used, in their order.
pub open spec fn by_last_use(before: Seq<(Seq<char>, int)>, used: Seq<(Seq<char>, int)>) -> Seq<
    (Seq<char>, int),
>
    decreases used.len(),
{
    if used.len() == 0 {
        before
    } else {
        seq![used.last()] + without(by_last_use(before, used.drop_last()), used.last())
    }
}

/// The pool after blocks were requested one after another.
pub open spec fn fetched(p: PoolView, used: Seq<(Seq<char>, int)>) -> PoolView
    decreases used.len(),
{
    if used.len() == 0 {
        p
    } else {
        fetched(p, used.drop_last()).fetch(used.last().0, used.last().1).0
    }
}

/// Every one of the requests found its block.
pub open spec fn all_found(p: PoolView, used: Seq<(Seq<char>, int)>) -> bool
    decreases used.len(),
{
    used.len() == 0 || (all_found(p, used.drop_last()) && fetched(p, used.drop_last()).fetch(
        used.last().0,
        used.last().1,
    ).1 is Some)
}

/// What is left of distinct identities without one of them.
pub proof fn lemma_without(s: Seq<(Seq<char>, int)>, x: (Seq<char>, int))
    requires
        distinct(s),
    ensures
        distinct(without(s, x)),
        forall|i: int| 0 <= i < s.len() && #[trigger] s[i] == x ==> without(s, x) == s.remove(i),
        (forall|i: int| 0 <= i < s.len() ==> #[trigger] s[i] != x) ==> without(s, x) == s,
        forall|y: int|
            0 <= y < without(s, x).len() ==> #[trigger] without(s, x)[y] != x && exists|i: int|
                0 <= i < s.len() && #[trigger] s[i] == without(s, x)[y],
    decreases s.len(),
{
    if s.len() > 0 {
        let front = s.drop_last();
        let w = without(front, x);
        let r = without(s, x);
        assert forall|i: int, j: int| 0 <= i < j < front.len() implies #[trigger] front[i]
            != #[trigger] front[j] by {
            assert(front[i] == s[i] && front[j] == s[j]);
        }
        lemma_without(front, x);
        assert forall|y: int| 0 <= y < r.len() implies #[trigger] r[y] != x && exists|i: int|
            0 <= i < s.len() && #[trigger] s[i] == r[y] by {
            if y < w.len() {
                assert(r[y] == w[y]);
                let i = choose|i: int| 0 <= i < front.len() && #[trigger] front[i] == w[y];
                assert(s[i] == front[i]);
            } else {
                assert(s[s.len() - 1] == r[y]);
            }
        }
        assert forall|a: int, b: int| 0 <= a < b < r.len() implies #[trigger] r[a]
            != #[trigger] r[b] by {
            if b < w.len() {
                assert(r[a] == w[a] && r[b] == w[b]);
            } else {
                assert(r[a] == w[a]);
                let i = choose|i: int| 0 <= i < front.len() && #[trigger] front[i] == w[a];
                assert(s[i] == front[i]);
                assert(r[b] == s[s.len() - 1]);
            }
        }
        assert forall|i: int| 0 <= i < s.len() && #[trigger] s[i] == x implies r == s.remove(
            i,
        ) by {
            if i == s.len() - 1 {
                assert forall|j: int| 0 <= j < front.len() implies #[trigger] front[j] != x by {
                    assert(front[j] == s[j]);
                }
                assert(s.remove(i) =~= front);
            } else {
                assert(front[i] == x);
                assert(s.last() != x);
                assert(s.remove(i) =~= front.remove(i).push(s.last()));
            }
        }
        if forall|i: int| 0 <= i < s.len() ==> #[trigger] s[i] != x {
            assert forall|j: int| 0 <= j < front.len() implies #[trigger] front[j] != x by {
                assert(front[j] == s[j]);
            }
            assert(r =~= s);
        }
    }
}

/// The order of last use holds no identity twice.
pub proof fn lemma_by_last_use_distinct(before: Seq<(Seq<char>, int)>, used: Seq<(Seq<char>, int)>)
    requires
        distinct(before),
    ensures
        distinct(by_last_use(before, used)),
    decreases used.len(),
{
    if used.len() > 0 {
        let prior = by_last_use(before, used.drop_last());
        let x = used.last();
        lemma_by_last_use_distinct(before, used.drop_last());
        lemma_without(prior, x);
        let w = without(prior, x);
        let r = by_last_use(before, used);
        assert forall|i: int, j: int| 0 <= i < j < r.len() implies #[trigger] r[i]
            != #[trigger] r[j] by {
            assert(r[j] == w[j - 1]);
            if i > 0 {
                assert(r[i] == w[i - 1]);
            }
        }
    }
}

/// The identities of a pool after one of them is used: it stands first; the
/// others follow in their order, but for the last if the pool was full and
/// did not hold the one that is used.
pub open spec fn touched(s: Seq<(Seq<char>, int)>, x: (Seq<char>, int), capacity: int) -> Seq<
    (Seq<char>, int),
> {
    if exists|i: int| 0 <= i < s.len() && #[trigger] s[i] == x {
        seq![x] + s.remove(choose|i: int| 0 <= i < s.len() && #[trigger] s[i] == x)
    } else if s.len() >= capacity {
        seq![x] + s.drop_last()
    } else {
        seq![x] + s
    }
}

/// Using an identity in a pool that holds the newest of a list of distinct
/// identities leaves the newest of the list with the used one put first.
pub proof fn lemma_touched(r: Seq<(Seq<char>, int)>, x: (Seq<char>, int), capacity: int)
    requires
        distinct(r),
        1 <= capacity,
    ensures
        touched(r.take(if r.len() < capacity { r.len() as int } else { capacity }), x, capacity) == (
        seq![x] + without(r, x)).take(
            if 1 + without(r, x).len() < capacity {
                1 + without(r, x).len() as int
            } else {
                capacity
            },
        ),
{
    let m = if r.len() < capacity {
        r.len() as int
    } else {
        capacity
    };
    let s = r.take(m);
    let w = without(r, x);
    lemma_without(r, x);
    if exists|i: int| 0 <= i < s.len() && #[trigger] s[i] == x {
        let i = choose|i: int| 0 <= i < s.len() && #[trigger] s[i] == x;
        assert(r[i] == x);
        assert(w == r.remove(i));
        let n = if 1 + w.len() < capacity {
            1 + w.len() as int
        } else {
            capacity
        };
        assert(seq![x] + s.remove(i) =~= (seq![x] + w).take(n));
    } else {
        if exists|i: int| 0 <= i < r.len() && #[trigger] r[i] == x {
            let i = choose|i: int| 0 <= i < r.len() && #[trigger] r[i] == x;
            assert(i >= m) by {
                if i < m {
                    assert(s[i] == x);
                }
            }
            assert(w == r.remove(i));
            assert(s.len() >= capacity);
            assert(seq![x] + s.drop_last() =~= (seq![x] + w).take(capacity));
        } else {
            assert(w == r);
            if s.len() >= capacity {
                assert(seq![x] + s.drop_last() =~= (seq![x] + w).take(capacity));
            } else {
                assert(s =~= r);
                assert(seq![x] + s =~= (seq![x] + w).take(1 + w.len() as int));
            }
        }
    }
}

/// A request that finds its block leaves the identities of the pool with
/// the one of the block put first.
pub proof fn lemma_fetch_ids(p: PoolView, file: Seq<char>, offset: int)
    requires
        p.wf(),
        p.fetch(file, offset).1 is Some,
    ensures
        ids(p.fetch(file, offset).0.blocks) == touched(
            ids(p.blocks),
            (file, aligned(offset)),
            p.capacity,
        ),
{
    let at = aligned(offset);
    let s = ids(p.blocks);
    let x = (file, at);
    let q = p.fetch(file, offset).0;
    if p.resident(file, at) {
        let i = p.place(file, at);
        assert(s[i] == x);
        let c = choose|c: int| 0 <= c < s.len() && #[trigger] s[c] == x;
        assert(p.blocks[c].file == file && p.blocks[c].offset == at);
        assert(c == i);
        assert(ids(q.blocks) =~= seq![x] + s.remove(i));
    } else {
        if exists|c: int| 0 <= c < s.len() && #[trigger] s[c] == x {
            let c = choose|c: int| 0 <= c < s.len() && #[trigger] s[c] == x;
            assert(p.blocks[c].file == file && p.blocks[c].offset == at);
        }
        if p.blocks.len() >= p.capacity {
            assert(ids(q.blocks) =~= seq![x] + s.drop_last());
        } else {
            assert(ids(q.blocks) =~= seq![x] + s);
        }
    }
}

/// The identities of a well-formed pool are distinct.
pub proof fn lemma_ids_distinct(p: PoolView)
    requires
        p.wf(),
    ensures
        distinct(ids(p.blocks)),
        ids(p.blocks).len() <= p.capacity,
{
    let s = ids(p.blocks);
    assert forall|i: int, j: int| 0 <= i < j < s.len() implies #[trigger] s[i] != #[trigger] s[j] by {
        assert(!(p.blocks[i].file == p.blocks[j].file && p.blocks[i].offset == p.blocks[j].offset));
    }
}

/// After requests that all found their blocks, the pool holds the blocks
/// that were used last: its identities are the identities in the order of
/// their last use, newest first, cut to the capacity of the pool.
pub proof fn law_lru(p: PoolView, used: Seq<(Seq<char>, int)>)
    requires
        p.wf(),
        all_found(p, used),
        forall|i: int|
            0 <= i < used.len() ==> 0 <= (#[trigger] used[i]).1 && aligned(used[i].1) == used[i].1,
    ensures
        fetched(p, used).wf(),
        ids(fetched(p, used).blocks) == by_last_use(ids(p.blocks), used).take(
            if by_last_use(ids(p.blocks), used).len() < p.capacity {
                by_last_use(ids(p.blocks), used).len() as int
            } else {
                p.capacity
            },
        ),
        fetched(p, used).capacity == p.capacity,
    decreases used.len(),
{
    lemma_ids_distinct(p);
    if used.len() == 0 {
        assert(ids(p.blocks).take(ids(p.blocks).len() as int) =~= ids(p.blocks));
    } else {
        let front = used.drop_last();
        let x = used.last();
        assert forall|i: int| 0 <= i < front.len() implies 0 <= (#[trigger] front[i]).1 && aligned(
            front[i].1,
        ) == front[i].1 by {
            assert(front[i] == used[i]);
        }
        law_lru(p, front);
        let prior = fetched(p, front);
        let r = by_last_use(ids(p.blocks), front);
        lemma_by_last_use_distinct(ids(p.blocks), front);
        lemma_fetch_ids(prior, x.0, x.1);
        lemma_touched(r, x, p.capacity);
        lemma_fetch_wf(prior, x.0, x.1);
    }
}

/// A request keeps the pool well formed and its capacity.
pub proof fn lemma_fetch_wf(p: PoolView, file: Seq<char>, offset: int)
    requires
        p.wf(),
        0 <= aligned(offset),
    ensures
        p.fetch(file, offset).0.wf(),
        p.fetch(file, offset).0.capacity == p.capacity,
{
    let at = aligned(offset);
    assert(at % (BLOCK_SIZE as int) == 0);
    if p.resident(file, at) {
        lemma_promote(p, p.place(file, at));
    } else {
        let opened = p.opened(file);
        let disk = opened.disk;
        if at + BLOCK_SIZE <= disk[file].len() {
            let b = BlockView {
                file,
                offset: at,
                bytes: disk[file].subrange(at, at + BLOCK_SIZE),
                dirty: false,
            };
            assert(!opened.resident(file, at)) by {
                if opened.resident(file, at) {
                    let i = opened.place(file, at);
                    assert(p.blocks[i].file == file && p.blocks[i].offset == at);
                }
            }
            crate::buffer_manager::lemma_take_in(opened, b);
        }
    }
}

} // verus!
