//! Tables over time: what holds after any number of puts and merges, and
//! what a table reads as after puts that started no merge.
use crate::buffer_manager::PoolView;
use crate::fixed::{Key, Stored};
use crate::laws::{
    law_flush, law_fresh_pool, law_merge_then_index, law_merged_run, law_open, lemma_upsert_fit,
    run_after_put, run_held, table_holds,
};
use crate::lsm_tree::{
    clamped, flat, get_spec, indexed, merge_name, merge_seq, merged_pool, paged, put_spec,
    run_name, scan, size_after_put, TreeView,
};
use crate::ordered::{ascending, firsts, lemma_upsert, lookup, upsert};
use crate::run::holds_run;
use crate::slotted_page::{cell_cost, decode_spec};
use crate::BLOCK_SIZE;
use vstd::prelude::*;

verus! {

/// What is done to a table: an entry is put, or the memtable is merged into
/// the run.
pub enum Step<KV, VV> {
    Put(KV, Option<VV>),
    Merge,
}

/// The table and the pool after a merge.
pub open spec fn merge_spec<K: Key, V: Stored>(tree: TreeView<K::V, V::V>, pool: PoolView) -> (
    TreeView<K::V, V::V>,
    PoolView,
) {
    (
        TreeView { merge_count: clamped(tree.merge_count + 1), ..tree.cleared() },
        merged_pool::<K, V>(tree, pool),
    )
}

/// The table and the pool after a step.
pub open spec fn step_spec<K: Key, V: Stored>(
    tree: TreeView<K::V, V::V>,
    pool: PoolView,
    s: Step<K::V, V::V>,
) -> (TreeView<K::V, V::V>, PoolView) {
    match s {
        Step::Put(k, v) => put_spec::<K, V>(tree, pool, k, v),
        Step::Merge => merge_spec::<K, V>(tree, pool),
    }
}

/// The run of a table after a step.
pub open spec fn run_after_step<K: Key, V: Stored>(
    tree: TreeView<K::V, V::V>,
    pool: PoolView,
    pages: Seq<Seq<(K::V, Option<V::V>)>>,
    s: Step<K::V, V::V>,
) -> Seq<Seq<(K::V, Option<V::V>)>> {
    match s {
        Step::Put(k, v) => run_after_put::<K, V>(tree, pool, pages, k, v),
        Step::Merge => paged::<K, V>(
            merge_seq::<K, Option<V::V>>(tree.memtable, flat(pages)),
            Seq::empty(),
        ),
    }
}

/// The table and the pool after the steps, one after another.
pub open spec fn after<K: Key, V: Stored>(
    tree: TreeView<K::V, V::V>,
    pool: PoolView,
    steps: Seq<Step<K::V, V::V>>,
) -> (TreeView<K::V, V::V>, PoolView)
    decreases steps.len(),
{
    if steps.len() == 0 {
        (tree, pool)
    } else {
        let (t, p) = after::<K, V>(tree, pool, steps.drop_last());
        step_spec::<K, V>(t, p, steps.last())
    }
}

/// The run of a table after the steps.
pub open spec fn run_after<K: Key, V: Stored>(
    tree: TreeView<K::V, V::V>,
    pool: PoolView,
    pages: Seq<Seq<(K::V, Option<V::V>)>>,
    steps: Seq<Step<K::V, V::V>>,
) -> Seq<Seq<(K::V, Option<V::V>)>>
    decreases steps.len(),
{
    if steps.len() == 0 {
        pages
    } else {
        let (t, p) = after::<K, V>(tree, pool, steps.drop_last());
        run_after_step::<K, V>(
            t,
            p,
            run_after::<K, V>(tree, pool, pages, steps.drop_last()),
            steps.last(),
        )
    }
}

/// Every entry that the steps put fits into an empty page.
pub open spec fn steps_fit<K: Key, V: Stored>(steps: Seq<Step<K::V, V::V>>) -> bool {
    forall|i: int|
        0 <= i < steps.len() ==> match #[trigger] steps[i] {
            Step::Put(k, v) => cell_cost::<K, V>((k, v)) <= BLOCK_SIZE,
            Step::Merge => true,
        }
}

/// The table that is opened under `name` over a pool, and the pool after it.
pub open spec fn opened<K: Key, V: Stored>(pool: PoolView, name: Seq<char>) -> (
    TreeView<K::V, V::V>,
    PoolView,
) {
    (
        TreeView {
            memtable: Seq::empty(),
            memtable_size: 0,
            disktable: run_name(name),
            index: indexed::<K, V>(Seq::empty(), scan::<K, V>(pool, run_name(name), 0).1, 0),
            merge_count: 0,
        },
        scan::<K, V>(pool, run_name(name), 0).0,
    )
}

/// A pool without blocks over no files.
pub open spec fn fresh(capacity: int) -> PoolView {
    PoolView { capacity, blocks: Seq::empty(), disk: Map::empty(), log: Seq::empty() }
}

/// One step keeps the run held, and adds at most one entry to those of the
/// memtable and the run together.
pub proof fn law_step<K: Key, V: Stored>(
    tree: TreeView<K::V, V::V>,
    p: PoolView,
    pages: Seq<Seq<(K::V, Option<V::V>)>>,
    s: Step<K::V, V::V>,
)
    requires
        run_held::<K, V>(tree, p, pages),
        s matches Step::Put(k, v) ==> cell_cost::<K, V>((k, v)) <= BLOCK_SIZE,
        (tree.memtable.len() + flat(pages).len() + 2) * BLOCK_SIZE + BLOCK_SIZE <= usize::MAX,
    ensures
        ({
            let (t, q) = step_spec::<K, V>(tree, p, s);
            let out = run_after_step::<K, V>(tree, p, pages, s);
            &&& run_held::<K, V>(t, q, out)
            &&& t.memtable.len() + flat(out).len() <= tree.memtable.len() + flat(pages).len() + 1
            &&& t.disktable == tree.disktable
        }),
{
    match s {
        Step::Put(k, v) => {
            let written = TreeView {
                memtable: upsert::<K, Option<V::V>>(tree.memtable, k, v),
                memtable_size: size_after_put::<K, V>(tree.memtable, tree.memtable_size, k, v),
                ..tree
            };
            lemma_upsert::<K, Option<V::V>>(tree.memtable, k, v);
            lemma_upsert_fit::<K, V>(tree.memtable, k, v);
            assert(run_held::<K, V>(written, p, pages));
            if written.memtable_size > p.capacity * 2048 {
                law_merged_run::<K, V>(written, p, pages, k);
                law_merge_then_index::<K, V>(written, p, pages, k);
            }
        },
        Step::Merge => {
            let k = arbitrary::<K::V>();
            law_merged_run::<K, V>(tree, p, pages, k);
        },
    }
}

/// After any number of puts and merges the pool holds the run of the table:
/// every page of it has a cell and fits a block, and its cells, page after
/// page, ascend strictly by key. The entries that are put must fit into an
/// empty page, and the entries must be few enough for their pages to lie
/// within the range of offsets.
pub proof fn law_history<K: Key, V: Stored>(
    tree: TreeView<K::V, V::V>,
    p: PoolView,
    pages: Seq<Seq<(K::V, Option<V::V>)>>,
    steps: Seq<Step<K::V, V::V>>,
)
    requires
        run_held::<K, V>(tree, p, pages),
        steps_fit::<K, V>(steps),
        (tree.memtable.len() + flat(pages).len() + steps.len() + 1) * BLOCK_SIZE + BLOCK_SIZE
            <= usize::MAX,
    ensures
        ({
            let (t, q) = after::<K, V>(tree, p, steps);
            let out = run_after::<K, V>(tree, p, pages, steps);
            &&& run_held::<K, V>(t, q, out)
            &&& ascending::<K>(firsts(flat(out)))
            &&& t.memtable.len() + flat(out).len() <= tree.memtable.len() + flat(pages).len()
                + steps.len()
            &&& t.disktable == tree.disktable
        }),
    decreases steps.len(),
{
    if steps.len() > 0 {
        let front = steps.drop_last();
        assert forall|i: int| 0 <= i < front.len() implies match #[trigger] front[i] {
            Step::Put(k, v) => cell_cost::<K, V>((k, v)) <= BLOCK_SIZE,
            Step::Merge => true,
        } by {
            assert(front[i] == steps[i]);
        }
        law_history::<K, V>(tree, p, pages, front);
        let (t, q) = after::<K, V>(tree, p, front);
        let out = run_after::<K, V>(tree, p, pages, front);
        assert(steps[steps.len() - 1] == steps.last());
        law_step::<K, V>(t, q, out, steps.last());
    }
}

/// After any number of puts and merges and a flush, the stored file of the
/// run is a whole number of blocks long, and every block of it decodes to a
/// page with at least one cell: the page of the run that stands there.
pub proof fn law_history_flushed<K: Key, V: Stored>(
    tree: TreeView<K::V, V::V>,
    p: PoolView,
    pages: Seq<Seq<(K::V, Option<V::V>)>>,
    steps: Seq<Step<K::V, V::V>>,
)
    requires
        run_held::<K, V>(tree, p, pages),
        steps_fit::<K, V>(steps),
        (tree.memtable.len() + flat(pages).len() + steps.len() + 1) * BLOCK_SIZE + BLOCK_SIZE
            <= usize::MAX,
    ensures
        ({
            let q = after::<K, V>(tree, p, steps).1.flushed();
            let out = run_after::<K, V>(tree, p, pages, steps);
            let f = tree.disktable;
            q.disk.dom().contains(f) ==> {
                &&& q.disk[f].len() == out.len() * BLOCK_SIZE
                &&& q.disk[f].len() % (BLOCK_SIZE as nat) == 0
                &&& forall|o: int|
                    0 <= o < q.disk[f].len() && o % (BLOCK_SIZE as int) == 0 ==> {
                        &&& 0 <= o / (BLOCK_SIZE as int) < out.len()
                        &&& #[trigger] decode_spec::<K, V>(q.disk[f].subrange(o, o + BLOCK_SIZE))
                            == Some(out[o / (BLOCK_SIZE as int)])
                        &&& out[o / (BLOCK_SIZE as int)].len() > 0
                    }
            }
        }),
{
    law_history::<K, V>(tree, p, pages, steps);
    let r = after::<K, V>(tree, p, steps).1;
    let out = run_after::<K, V>(tree, p, pages, steps);
    let f = tree.disktable;
    law_flush::<K, V>(r, f, out);
    let q = r.flushed();
    if q.disk.dom().contains(f) {
        assert forall|o: int|
            0 <= o < q.disk[f].len() && o % (BLOCK_SIZE as int) == 0 implies {
            &&& 0 <= o / (BLOCK_SIZE as int) < out.len()
            &&& #[trigger] decode_spec::<K, V>(q.disk[f].subrange(o, o + BLOCK_SIZE)) == Some(
                out[o / (BLOCK_SIZE as int)],
            )
            &&& out[o / (BLOCK_SIZE as int)].len() > 0
        } by {
            let j = o / (BLOCK_SIZE as int);
            assert(o == j * BLOCK_SIZE);
            assert(0 <= j < out.len());
            assert(decode_spec::<K, V>(
                q.disk[f].subrange(j * BLOCK_SIZE, j * BLOCK_SIZE + BLOCK_SIZE),
            ) == Some(out[j]));
            assert(out[j].len() > 0);
        }
    }
}

/// A table that is opened over a pool without blocks and files holds the
/// empty run.
pub proof fn law_fresh_table<K: Key, V: Stored>(capacity: int, name: Seq<char>)
    requires
        1 <= capacity,
    ensures
        table_holds::<K, V>(
            opened::<K, V>(fresh(capacity), name).0,
            opened::<K, V>(fresh(capacity), name).1,
            Seq::empty(),
        ),
{
    let none = Seq::<Seq<(K::V, Option<V::V>)>>::empty();
    law_fresh_pool::<K, V>(capacity, run_name(name));
    law_fresh_pool::<K, V>(capacity, merge_name(run_name(name)));
    assert(flat(none) =~= Seq::empty());
    assert(firsts(flat(none)) =~= Seq::<K::V>::empty());
    law_open::<K, V>(fresh(capacity), name, none, arbitrary::<K::V>());
}

/// A table that starts over a pool without blocks and files keeps a sound
/// run through any number of puts and merges: the cells of the run ascend
/// strictly by key, and after a flush the stored file of the run is a whole
/// number of blocks long and every block of it decodes to a page with at
/// least one cell.
pub proof fn law_from_fresh<K: Key, V: Stored>(
    capacity: int,
    name: Seq<char>,
    steps: Seq<Step<K::V, V::V>>,
)
    requires
        1 <= capacity,
        steps_fit::<K, V>(steps),
        (steps.len() + 1) * BLOCK_SIZE + BLOCK_SIZE <= usize::MAX,
    ensures
        ({
            let (tree, p) = opened::<K, V>(fresh(capacity), name);
            let (t, r) = after::<K, V>(tree, p, steps);
            let out = run_after::<K, V>(tree, p, Seq::empty(), steps);
            let q = r.flushed();
            let f = run_name(name);
            &&& run_held::<K, V>(t, r, out)
            &&& ascending::<K>(firsts(flat(out)))
            &&& q.disk.dom().contains(f) ==> {
                &&& q.disk[f].len() % (BLOCK_SIZE as nat) == 0
                &&& forall|o: int|
                    0 <= o < q.disk[f].len() && o % (BLOCK_SIZE as int) == 0 ==> {
                        &&& 0 <= o / (BLOCK_SIZE as int) < out.len()
                        &&& #[trigger] decode_spec::<K, V>(q.disk[f].subrange(o, o + BLOCK_SIZE))
                            == Some(out[o / (BLOCK_SIZE as int)])
                        &&& out[o / (BLOCK_SIZE as int)].len() > 0
                    }
            }
        }),
{
    let none = Seq::<Seq<(K::V, Option<V::V>)>>::empty();
    let (tree, p) = opened::<K, V>(fresh(capacity), name);
    law_fresh_table::<K, V>(capacity, name);
    assert(flat(none) =~= Seq::empty());
    law_history::<K, V>(tree, p, none, steps);
    law_history_flushed::<K, V>(tree, p, none, steps);
}

/// A merge of a table that started over a pool without blocks and files,
/// after any number of puts and merges: the pool then holds as the run the
/// pages of the sorted union of the memtable and the run of before, whose
/// cells ascend strictly by key, and every key reads in it as in the
/// memtable where that held it, deletions included, and as in the run of
/// before where it did not.
pub proof fn law_merge_from_fresh<K: Key, V: Stored>(
    capacity: int,
    name: Seq<char>,
    steps: Seq<Step<K::V, V::V>>,
)
    requires
        1 <= capacity,
        steps_fit::<K, V>(steps),
        (steps.len() + 1) * BLOCK_SIZE + BLOCK_SIZE <= usize::MAX,
    ensures
        ({
            let (tree, p) = opened::<K, V>(fresh(capacity), name);
            let (t, r) = after::<K, V>(tree, p, steps);
            let pages = run_after::<K, V>(tree, p, Seq::empty(), steps);
            let union = merge_seq::<K, Option<V::V>>(t.memtable, flat(pages));
            let out = paged::<K, V>(union, Seq::empty());
            &&& holds_run::<K, V>(merged_pool::<K, V>(t, r), run_name(name), out)
            &&& flat(out) == union
            &&& ascending::<K>(firsts(union))
            &&& forall|k: K::V| #[trigger]
                lookup::<K, Option<V::V>>(union, k) == match lookup::<K, Option<V::V>>(
                    t.memtable,
                    k,
                ) {
                    Some(v) => Some(v),
                    None => lookup::<K, Option<V::V>>(flat(pages), k),
                }
        }),
{
    let none = Seq::<Seq<(K::V, Option<V::V>)>>::empty();
    let (tree, p) = opened::<K, V>(fresh(capacity), name);
    law_fresh_table::<K, V>(capacity, name);
    assert(flat(none) =~= Seq::empty());
    law_history::<K, V>(tree, p, none, steps);
    let (t, r) = after::<K, V>(tree, p, steps);
    let pages = run_after::<K, V>(tree, p, none, steps);
    let union = merge_seq::<K, Option<V::V>>(t.memtable, flat(pages));
    law_merged_run::<K, V>(t, r, pages, arbitrary::<K::V>());
    assert forall|k: K::V| #[trigger]
        lookup::<K, Option<V::V>>(union, k) == match lookup::<K, Option<V::V>>(t.memtable, k) {
            Some(v) => Some(v),
            None => lookup::<K, Option<V::V>>(flat(pages), k),
        } by {
        law_merged_run::<K, V>(t, r, pages, k);
    }
}

/// The table after entries are put one after another.
pub open spec fn puts<K: Key, V: Stored>(
    tree: TreeView<K::V, V::V>,
    pool: PoolView,
    entries: Seq<(K::V, Option<V::V>)>,
) -> (TreeView<K::V, V::V>, PoolView)
    decreases entries.len(),
{
    if entries.len() == 0 {
        (tree, pool)
    } else {
        let (t, p) = puts::<K, V>(tree, pool, entries.drop_last());
        put_spec::<K, V>(t, p, entries.last().0, entries.last().1)
    }
}

/// None of the puts starts a merge: the size of the memtable stays within
/// 2048 bytes for each block of the pool.
pub open spec fn no_merge<K: Key, V: Stored>(
    tree: TreeView<K::V, V::V>,
    pool: PoolView,
    entries: Seq<(K::V, Option<V::V>)>,
) -> bool
    decreases entries.len(),
{
    entries.len() == 0 || {
        let (t, p) = puts::<K, V>(tree, pool, entries.drop_last());
        &&& no_merge::<K, V>(tree, pool, entries.drop_last())
        &&& size_after_put::<K, V>(t.memtable, t.memtable_size, entries.last().0, entries.last().1)
            <= p.capacity * 2048
    }
}

/// The value of the last entry that was put for `k`, if one was.
pub open spec fn last_put<KV, VV>(entries: Seq<(KV, Option<VV>)>, k: KV) -> Option<Option<VV>>
    decreases entries.len(),
{
    if entries.len() == 0 {
        None
    } else if entries.last().0 == k {
        Some(entries.last().1)
    } else {
        last_put(entries.drop_last(), k)
    }
}

/// After puts that started no merge, a lookup of a key that was put gives
/// the value that was put for it last, and nothing where that was a
/// deletion; the pool is not touched. The memtable holds for every key what
/// was put for it last, and for the other keys what it held before.
pub proof fn law_puts<K: Key, V: Stored>(
    tree: TreeView<K::V, V::V>,
    pool: PoolView,
    entries: Seq<(K::V, Option<V::V>)>,
    k: K::V,
)
    requires
        ascending::<K>(firsts(tree.memtable)),
        no_merge::<K, V>(tree, pool, entries),
    ensures
        puts::<K, V>(tree, pool, entries).1 == pool,
        ascending::<K>(firsts(puts::<K, V>(tree, pool, entries).0.memtable)),
        lookup::<K, Option<V::V>>(puts::<K, V>(tree, pool, entries).0.memtable, k) == match last_put(
            entries,
            k,
        ) {
            Some(v) => Some(v),
            None => lookup::<K, Option<V::V>>(tree.memtable, k),
        },
        last_put(entries, k) matches Some(v) ==> get_spec::<K, V>(
            puts::<K, V>(tree, pool, entries).0,
            pool,
            k,
        ) == (pool, v),
    decreases entries.len(),
{
    if entries.len() > 0 {
        let front = entries.drop_last();
        law_puts::<K, V>(tree, pool, front, k);
        let t = puts::<K, V>(tree, pool, front).0;
        lemma_upsert::<K, Option<V::V>>(t.memtable, entries.last().0, entries.last().1);
    }
}

} // verus!
