//! What holds of the pages, of merging and of the table, proved from the
//! definitions that the contracts of the library use.
use crate::buffer_manager::{
    aligned, all_written_back, blank, lemma_renamed, lemma_renamed_keeps, relabelled,
    renamed_blocks, written_back, BlockView, PoolView,
};
use crate::disk::{files_fit, spliced};
use crate::layout::lemma_pack_header;
use crate::lsm_tree::{
    lemma_flat_first, lemma_merge_seq_fit, merge_name, merged_pool, page_of, replaced, scan, stored,
};
use crate::run::{
    held, holds_run, lemma_aligned, lemma_block_start, lemma_fetch_run, lemma_held_at,
    lemma_take_in_run, lemma_touch_run, lemma_write_elsewhere, lemma_write_here, on_disk,
};
use crate::slotted_page::{header, lemma_fits, wires};
use crate::fixed::{Key, Stored};
use crate::lsm_tree::{
    all_fit, clamped, flat, get_spec, indexed, merge_seq, paged, put_spec, run_name,
    size_after_put, tree_ok, TreeView,
};
use crate::ordered::{
    ascending, firsts, floor, lemma_lookup_at, lemma_rank, lemma_rank_ascending, lemma_rank_is,
    lemma_upsert, lookup, rank, upsert,
};
use crate::slotted_page::{
    accepts, cell_cost, decode_spec, encode_spec, lemma_decode_encode, lemma_total_cost_bounds,
    lemma_total_cost_insert, lemma_total_cost_update, total_cost, SlottedPage,
};
use crate::BLOCK_SIZE;
use vstd::prelude::*;

verus! {

/// Decoding the encoding of a well-formed page gives a page with the same
/// cells; and a well-formed page with these cells has the same number of
/// cells, the same layout and the same space left.
pub proof fn law_decode_encode<K: Key, V: Stored>(p: SlottedPage<K, V>, q: SlottedPage<K, V>)
    requires
        p.wf(),
        q.wf(),
        decode_spec::<K, V>(encode_spec::<K, V>(p@)) == Some(q@),
    ensures
        decode_spec::<K, V>(encode_spec::<K, V>(p@)) == Some(p@),
        q@ == p@,
        q.num_cells == p.num_cells,
        q.page_type == p.page_type,
        q.space_left == p.space_left,
{
    assert(firsts(p@) =~= crate::ordered::keys_of(p.cells@));
    lemma_decode_encode::<K, V>(p@);
    assert(p.cells@.len() == p@.len());
    assert(q.cells@.len() == q@.len());
}

/// A block that is the encoding of a well-formed page decodes to a page that
/// encodes to the same block.
pub proof fn law_encode_decode<K: Key, V: Stored>(b: Seq<u8>, p: SlottedPage<K, V>)
    requires
        p.wf(),
        b == encode_spec::<K, V>(p@),
    ensures
        decode_spec::<K, V>(b) matches Some(cells) && encode_spec::<K, V>(cells) == b,
{
    assert(firsts(p@) =~= crate::ordered::keys_of(p.cells@));
    lemma_decode_encode::<K, V>(p@);
}

/// Merging ascending entries gives ascending entries, and every key reads in
/// the result as in the first sequence where that holds it, deletions
/// included, and as in the second where it does not.
pub proof fn law_merge<K: Key, T>(a: Seq<(K::V, T)>, b: Seq<(K::V, T)>, k: K::V)
    requires
        ascending::<K>(firsts(a)),
        ascending::<K>(firsts(b)),
    ensures
        ascending::<K>(firsts(merge_seq::<K, T>(a, b))),
        lookup::<K, T>(merge_seq::<K, T>(a, b), k) == match lookup::<K, T>(a, k) {
            Some(v) => Some(v),
            None => lookup::<K, T>(b, k),
        },
    decreases a.len() + b.len(),
{
    let m = merge_seq::<K, T>(a, b);
    if a.len() == 0 {
        lemma_rank::<K>(firsts(a), k);
    } else if b.len() == 0 {
        lemma_rank::<K>(firsts(b), k);
    } else {
        let a1 = a.skip(1);
        let b1 = b.skip(1);
        lemma_skip_ascending::<K, T>(a);
        lemma_skip_ascending::<K, T>(b);
        let (head, x, y) = if a[0].0 == b[0].0 {
            (a[0], a1, b1)
        } else if K::before(a[0].0, b[0].0) {
            (a[0], a1, b)
        } else {
            (b[0], a, b1)
        };
        let rest = merge_seq::<K, T>(x, y);
        law_merge::<K, T>(x, y, k);
        assert(m == seq![head] + rest);
        K::lemma_total(a[0].0, b[0].0);
        // the head sorts before every entry of the rest
        assert forall|i: int| 0 <= i < rest.len() implies K::before(head.0, #[trigger] rest[i].0) by {
            lemma_merge_member::<K, T>(x, y, i);
            lemma_head_first::<K, T>(a, b, head, x, y, rest[i].0);
        }
        lemma_cons::<K, T>(head, rest, k);
        // what the key reads as in the inputs
        assert(a =~= seq![a[0]] + a1);
        assert(b =~= seq![b[0]] + b1);
        assert forall|i: int| 0 <= i < a1.len() implies K::before(a[0].0, #[trigger] a1[i].0) by {
            assert(firsts(a)[0] == a[0].0 && firsts(a)[i + 1] == a1[i].0);
        }
        assert forall|i: int| 0 <= i < b1.len() implies K::before(b[0].0, #[trigger] b1[i].0) by {
            assert(firsts(b)[0] == b[0].0 && firsts(b)[i + 1] == b1[i].0);
        }
        lemma_cons::<K, T>(a[0], a1, k);
        lemma_cons::<K, T>(b[0], b1, k);
        K::lemma_irreflexive(k);
        if k != head.0 && K::before(k, head.0) {
            if a[0].0 != b[0].0 {
                if K::before(a[0].0, b[0].0) {
                    K::lemma_transitive(k, a[0].0, b[0].0);
                } else {
                    K::lemma_transitive(k, b[0].0, a[0].0);
                }
            }
        }
    }
}

/// Ascending entries without their first are ascending.
pub proof fn lemma_skip_ascending<K: Key, T>(a: Seq<(K::V, T)>)
    requires
        ascending::<K>(firsts(a)),
        a.len() > 0,
    ensures
        ascending::<K>(firsts(a.skip(1))),
{
    let f = firsts(a);
    let g = firsts(a.skip(1));
    assert forall|i: int, j: int| 0 <= i < j < g.len() implies K::before(
        #[trigger] g[i],
        #[trigger] g[j],
    ) by {
        assert(g[i] == f[i + 1] && g[j] == f[j + 1]);
    }
}

/// Every entry of a merge is an entry of one of the two sequences.
pub proof fn lemma_merge_member<K: Key, T>(a: Seq<(K::V, T)>, b: Seq<(K::V, T)>, i: int)
    requires
        0 <= i < merge_seq::<K, T>(a, b).len(),
    ensures
        (exists|j: int| 0 <= j < a.len() && merge_seq::<K, T>(a, b)[i] == #[trigger] a[j]) || (
        exists|j: int| 0 <= j < b.len() && merge_seq::<K, T>(a, b)[i] == #[trigger] b[j]),
    decreases a.len() + b.len(),
{
    let m = merge_seq::<K, T>(a, b);
    if a.len() == 0 {
        assert(m[i] == b[i]);
    } else if b.len() == 0 {
        assert(m[i] == a[i]);
    } else {
        let (x, y) = if a[0].0 == b[0].0 {
            (a.skip(1), b.skip(1))
        } else if K::before(a[0].0, b[0].0) {
            (a.skip(1), b)
        } else {
            (a, b.skip(1))
        };
        if i == 0 {
            assert(m[0] == a[0] || m[0] == b[0]);
        } else {
            let rest = merge_seq::<K, T>(x, y);
            assert(m[i] == rest[i - 1]);
            lemma_merge_member::<K, T>(x, y, i - 1);
            if exists|j: int| 0 <= j < x.len() && rest[i - 1] == #[trigger] x[j] {
                let j = choose|j: int| 0 <= j < x.len() && rest[i - 1] == #[trigger] x[j];
                if x.len() == a.len() {
                    assert(a[j] == x[j]);
                } else {
                    assert(a[j + 1] == x[j]);
                }
            } else {
                let j = choose|j: int| 0 <= j < y.len() && rest[i - 1] == #[trigger] y[j];
                if y.len() == b.len() {
                    assert(b[j] == y[j]);
                } else {
                    assert(b[j + 1] == y[j]);
                }
            }
        }
    }
}

/// The head that a merge step takes sorts before every key that is left.
pub proof fn lemma_head_first<K: Key, T>(
    a: Seq<(K::V, T)>,
    b: Seq<(K::V, T)>,
    head: (K::V, T),
    x: Seq<(K::V, T)>,
    y: Seq<(K::V, T)>,
    key: K::V,
)
    requires
        ascending::<K>(firsts(a)),
        ascending::<K>(firsts(b)),
        a.len() > 0,
        b.len() > 0,
        (head, x, y) == (if a[0].0 == b[0].0 {
            (a[0], a.skip(1), b.skip(1))
        } else if K::before(a[0].0, b[0].0) {
            (a[0], a.skip(1), b)
        } else {
            (b[0], a, b.skip(1))
        }),
        (exists|j: int| 0 <= j < x.len() && key == (#[trigger] x[j]).0) || (exists|j: int|
            0 <= j < y.len() && key == (#[trigger] y[j]).0),
    ensures
        K::before(head.0, key),
{
    K::lemma_total(a[0].0, b[0].0);
    let fa = firsts(a);
    let fb = firsts(b);
    assert(fa[0] == a[0].0 && fb[0] == b[0].0);
    if exists|j: int| 0 <= j < x.len() && key == (#[trigger] x[j]).0 {
        let j = choose|j: int| 0 <= j < x.len() && key == (#[trigger] x[j]).0;
        if x.len() == a.len() {
            // head is b[0], which sorts before a[0]
            assert(x == a);
            assert(fa[j] == key);
            if j > 0 {
                K::lemma_transitive(b[0].0, a[0].0, key);
            }
        } else {
            assert(x[j] == a[j + 1]);
            assert(fa[j + 1] == key);
            if head.0 != a[0].0 {
                K::lemma_transitive(head.0, a[0].0, key);
            }
        }
    } else {
        let j = choose|j: int| 0 <= j < y.len() && key == (#[trigger] y[j]).0;
        if y.len() == b.len() {
            assert(y == b);
            assert(fb[j] == key);
            if j > 0 {
                K::lemma_transitive(a[0].0, b[0].0, key);
            }
        } else {
            assert(y[j] == b[j + 1]);
            assert(fb[j + 1] == key);
            if head.0 != b[0].0 {
                K::lemma_transitive(head.0, b[0].0, key);
            }
        }
    }
}

/// An entry put before ascending entries whose keys all sort after its key:
/// the whole ascends, its key reads as its value, a key that sorts before it
/// reads as nothing, and every other key reads as in the rest.
pub proof fn lemma_cons<K: Key, T>(head: (K::V, T), rest: Seq<(K::V, T)>, k: K::V)
    requires
        ascending::<K>(firsts(rest)),
        forall|i: int| 0 <= i < rest.len() ==> K::before(head.0, #[trigger] rest[i].0),
    ensures
        ascending::<K>(firsts(seq![head] + rest)),
        lookup::<K, T>(seq![head] + rest, k) == if k == head.0 {
            Some(head.1)
        } else if K::before(k, head.0) {
            None
        } else {
            lookup::<K, T>(rest, k)
        },
{
    let s = seq![head] + rest;
    let f = firsts(s);
    let g = firsts(rest);
    assert forall|i: int, j: int| 0 <= i < j < f.len() implies K::before(
        #[trigger] f[i],
        #[trigger] f[j],
    ) by {
        assert(f[j] == rest[j - 1].0);
        if i > 0 {
            assert(f[i] == g[i - 1] && f[j] == g[j - 1]);
        }
    }
    K::lemma_irreflexive(k);
    K::lemma_total(k, head.0);
    lemma_rank::<K>(f, k);
    lemma_rank::<K>(g, k);
    lemma_rank_ascending::<K>(f, k);
    assert(f[0] == head.0);
    if k == head.0 {
        lemma_rank_is::<K>(f, k, 0);
    } else if K::before(k, head.0) {
        if K::before(head.0, k) {
            K::lemma_transitive(k, head.0, k);
        }
        lemma_rank_is::<K>(f, k, 0);
    } else {
        let r = rank::<K>(g, k);
        assert forall|i: int| 0 <= i < r + 1 implies K::before(#[trigger] f[i], k) by {
            if i > 0 {
                assert(f[i] == g[i - 1]);
            }
        }
        if r + 1 < f.len() {
            assert(f[r + 1] == g[r]);
        }
        lemma_rank_is::<K>(f, k, r + 1);
        if r < rest.len() {
            assert(s[r + 1] == rest[r]);
        }
    }
}

/// The cells of a page of a run: at least one, in ascending key order, at a
/// cost within one block.
pub open spec fn page_ok<K: Key, V: Stored>(cells: Seq<(K::V, Option<V::V>)>) -> bool {
    &&& cells.len() > 0
    &&& ascending::<K>(firsts(cells))
    &&& total_cost::<K, V>(cells) <= BLOCK_SIZE
}

/// Every page is a page of a run.
pub open spec fn pages_ok<K: Key, V: Stored>(pages: Seq<Seq<(K::V, Option<V::V>)>>) -> bool {
    forall|i: int| 0 <= i < pages.len() ==> page_ok::<K, V>(#[trigger] pages[i])
}

/// The encoding of a page is one block long.
pub proof fn lemma_encode_len<K: Key, V: Stored>(cells: Seq<(K::V, Option<V::V>)>)
    requires
        total_cost::<K, V>(cells) <= BLOCK_SIZE,
    ensures
        encode_spec::<K, V>(cells).len() == BLOCK_SIZE,
{
    lemma_fits::<K, V>(cells);
    lemma_pack_header(header::<K, V>(cells.len() as int), wires::<K, V>(cells));
}

/// Nothing of a run's file is held behind the last page of the run.
pub proof fn lemma_held_end<K: Key, V: Stored>(
    p: PoolView,
    f: Seq<char>,
    pages: Seq<Seq<(K::V, Option<V::V>)>>,
    x: int,
)
    requires
        holds_run::<K, V>(p, f, pages),
        pages.len() * BLOCK_SIZE <= x,
    ensures
        held(p, f, x) is None,
        !p.resident(f, x),
{
    if p.resident(f, x) {
        let i = p.place(f, x);
        assert(p.blocks[i].file == f);
    }
}

/// Reading a run that the pool holds gives its pages, from any page on, and
/// the pool holds the run afterwards.
#[verifier::rlimit(50)]
#[verifier::spinoff_prover]
pub proof fn lemma_scan_run<K: Key, V: Stored>(
    p: PoolView,
    f: Seq<char>,
    pages: Seq<Seq<(K::V, Option<V::V>)>>,
    j: int,
)
    requires
        holds_run::<K, V>(p, f, pages),
        pages_ok::<K, V>(pages),
        0 <= j <= pages.len(),
    ensures
        scan::<K, V>(p, f, j * BLOCK_SIZE).1 == pages.skip(j),
        holds_run::<K, V>(scan::<K, V>(p, f, j * BLOCK_SIZE).0, f, pages),
    decreases pages.len() - j,
{
    let o = j * BLOCK_SIZE;
    lemma_block_start(j);
    assert(aligned(o) == o);
    lemma_fetch_run::<K, V>(p, f, o, f, pages);
    let next = p.fetch(f, o).0;
    if j < pages.len() {
        assert(held(p, f, j * BLOCK_SIZE) == Some(encode_spec::<K, V>(pages[j])));
        assert(page_ok::<K, V>(pages[j]));
        lemma_decode_encode::<K, V>(pages[j]);
        assert(page_of::<K, V>(p, f, o) == Some(pages[j]));
        lemma_scan_run::<K, V>(next, f, pages, j + 1);
        assert((j + 1) * BLOCK_SIZE == o + BLOCK_SIZE);
        assert(seq![pages[j]] + pages.skip(j + 1) =~= pages.skip(j));
    } else {
        lemma_held_end::<K, V>(p, f, pages, o);
        assert(page_of::<K, V>(p, f, o) is None);
        assert(pages.skip(j) =~= Seq::empty());
    }
}

/// Reading a file leaves every run that the pool holds as it is.
pub proof fn lemma_scan_keeps<K: Key, V: Stored, K2: Key, V2: Stored>(
    p: PoolView,
    g: Seq<char>,
    o: int,
    f: Seq<char>,
    pages: Seq<Seq<(K2::V, Option<V2::V>)>>,
)
    requires
        holds_run::<K2, V2>(p, f, pages),
    ensures
        holds_run::<K2, V2>(scan::<K, V>(p, g, o).0, f, pages),
    decreases usize::MAX - o,
{
    if o < 0 || o + BLOCK_SIZE > usize::MAX {
    } else {
        lemma_fetch_run::<K2, V2>(p, g, o, f, pages);
        let next = p.fetch(g, o).0;
        let page = page_of::<K, V>(p, g, o);
        if page is Some && page->0.len() > 0 {
            lemma_scan_keeps::<K, V, K2, V2>(next, g, o + BLOCK_SIZE, f, pages);
        }
    }
}

/// Writing pages behind a run that the pool holds extends the run by them.
pub proof fn lemma_stored_run<K: Key, V: Stored>(
    p: PoolView,
    f: Seq<char>,
    done: Seq<Seq<(K::V, Option<V::V>)>>,
    rest: Seq<Seq<(K::V, Option<V::V>)>>,
)
    requires
        holds_run::<K, V>(p, f, done),
        pages_ok::<K, V>(rest),
        (done.len() + rest.len()) * BLOCK_SIZE + BLOCK_SIZE <= usize::MAX,
    ensures
        holds_run::<K, V>(stored::<K, V>(p, f, rest, done.len() * BLOCK_SIZE), f, done + rest),
    decreases rest.len(),
{
    let n = done.len() as int;
    let o = n * BLOCK_SIZE;
    if rest.len() == 0 {
        assert(done + rest =~= done);
    } else {
        lemma_block_start(n);
        assert(aligned(o) == o);
        let page = rest[0];
        assert(page_ok::<K, V>(page));
        let bytes = encode_spec::<K, V>(page);
        lemma_encode_len::<K, V>(page);
        lemma_fetch_run::<K, V>(p, f, o, f, done);
        lemma_held_end::<K, V>(p, f, done, o);
        let opened = p.fetch(f, o).0;
        assert(p.fetch(f, o).1 is None);
        lemma_held_end::<K, V>(opened, f, done, o);
        let b = BlockView { file: f, offset: o, bytes: spliced(blank(), o - o, bytes), dirty: true };
        assert(b.bytes =~= bytes);
        let longer = done.push(page);
        assert(longer.drop_last() =~= done);
        assert(longer[o / (BLOCK_SIZE as int)] == page);
        lemma_take_in_run::<K, V>(opened, b, f, done, longer);
        let after = p.store(f, o, bytes);
        assert(after == opened.take_in(b));
        assert forall|i: int| 0 <= i < rest.skip(1).len() implies page_ok::<K, V>(
            #[trigger] rest.skip(1)[i],
        ) by {
            assert(rest.skip(1)[i] == rest[i + 1]);
        }
        lemma_stored_run::<K, V>(after, f, longer, rest.skip(1));
        assert((n + 1) * BLOCK_SIZE == o + BLOCK_SIZE);
        assert(longer + rest.skip(1) =~= done + rest);
    }
}


/// After the merge file took the name of the run, the pool holds under the
/// name of the run what it held under the name of the merge file, and
/// nothing under the name of the merge file.
pub proof fn lemma_rename_run<K: Key, V: Stored>(
    p: PoolView,
    tmp: Seq<char>,
    r: Seq<char>,
    pages: Seq<Seq<(K::V, Option<V::V>)>>,
)
    requires
        holds_run::<K, V>(p, tmp, pages),
        tmp != r,
        p.disk.dom().contains(tmp),
    ensures
        holds_run::<K, V>(
            p.removed(r).moved(tmp, r).renamed(tmp, r),
            r,
            pages,
        ),
        holds_run::<K, V>(
            p.removed(r).moved(tmp, r).renamed(tmp, r),
            tmp,
            Seq::empty(),
        ),
{
    let s = p.blocks;
    let t = renamed_blocks(s, tmp, r);
    let q = p.removed(r).moved(tmp, r).renamed(tmp, r);
    lemma_renamed(s, tmp, r);
    assert(q.blocks == t);
    assert(q.disk.dom().contains(r) && q.disk[r] == p.disk[tmp]);
    assert(!q.disk.dom().contains(tmp));
    assert(q.wf());
    assert forall|y: int| 0 <= y < t.len() && (#[trigger] t[y]).file == r implies t[y].offset
        < pages.len() * BLOCK_SIZE && (!t[y].dirty ==> on_disk(q.disk, t[y])) && p.resident(
        tmp,
        t[y].offset,
    ) by {
        assert(crate::buffer_manager::block_ok(t[y]));
        let j = choose|j: int|
            0 <= j < s.len() && (#[trigger] s[j]).file != r && t[y] == relabelled(s[j], tmp, r);
        assert(s[j].file == tmp);
        if !s[j].dirty {
            assert(on_disk(p.disk, s[j]));
        }
    }
    assert forall|y: int| 0 <= y < t.len() implies (#[trigger] t[y]).file != tmp by {
        assert(crate::buffer_manager::block_ok(t[y]));
        let j = choose|j: int|
            0 <= j < s.len() && (#[trigger] s[j]).file != r && t[y] == relabelled(s[j], tmp, r);
    }
    assert forall|j: int| 0 <= j < pages.len() implies held(q, r, #[trigger] (j * BLOCK_SIZE))
        == Some(encode_spec::<K, V>(pages[j])) by {
        let x = j * BLOCK_SIZE;
        assert(held(p, tmp, j * BLOCK_SIZE) == Some(encode_spec::<K, V>(pages[j])));
        if p.resident(tmp, x) {
            let i = p.place(tmp, x);
            lemma_held_at(p, i);
            lemma_renamed_keeps(s, tmp, r, i);
            let y = choose|y: int| 0 <= y < t.len() && #[trigger] t[y] == relabelled(s[i], tmp, r);
            lemma_held_at(q, y);
        } else {
            if q.resident(r, x) {
                let y = q.place(r, x);
                assert(t[y].file == r && t[y].offset == x);
            }
        }
    }
}

/// The pages that entries which fit are packed into are pages of a run.
pub proof fn lemma_paged_ok<K: Key, V: Stored>(
    entries: Seq<(K::V, Option<V::V>)>,
    current: Seq<(K::V, Option<V::V>)>,
)
    requires
        all_fit::<K, V>(entries),
        ascending::<K>(firsts(current)),
        total_cost::<K, V>(current) <= BLOCK_SIZE,
    ensures
        pages_ok::<K, V>(paged::<K, V>(entries, current)),
        paged::<K, V>(entries, current).len() <= entries.len() + 1,
    decreases entries.len(),
{
    if entries.len() > 0 {
        let e = entries[0];
        let rest = entries.skip(1);
        assert forall|i: int| 0 <= i < rest.len() implies cell_cost::<K, V>(#[trigger] rest[i])
            <= BLOCK_SIZE by {
            assert(rest[i] == entries[i + 1]);
        }
        assert(cell_cost::<K, V>(e) <= BLOCK_SIZE);
        let took = accepts::<K, V>(BLOCK_SIZE - total_cost::<K, V>(current), e.0, e.1);
        let base = if took {
            current
        } else {
            Seq::empty()
        };
        let next = upsert::<K, Option<V::V>>(base, e.0, e.1);
        assert(firsts(Seq::<(K::V, Option<V::V>)>::empty()) =~= Seq::<K::V>::empty());
        lemma_upsert::<K, Option<V::V>>(base, e.0, e.1);
        lemma_rank::<K>(firsts(base), e.0);
        let r = rank::<K>(firsts(base), e.0);
        if r < base.len() && base[r].0 == e.0 {
            lemma_total_cost_update::<K, V>(base, r, e);
            lemma_lookup_at::<K, Option<V::V>>(base, r);
        } else {
            lemma_total_cost_insert::<K, V>(base, r, e);
        }
        assert(total_cost::<K, V>(next) <= BLOCK_SIZE);
        lemma_paged_ok::<K, V>(rest, next);
        if !took {
            let tail = paged::<K, V>(rest, next);
            let all = paged::<K, V>(entries, current);
            assert(current.len() > 0);
            assert forall|i: int| 0 <= i < all.len() implies page_ok::<K, V>(#[trigger] all[i]) by {
                if i > 0 {
                    assert(all[i] == tail[i - 1]);
                }
            }
        }
    }
}

/// Ascending entries are packed into pages in their order: the cells of the
/// pages, page after page, are the entries.
pub proof fn lemma_paged_flat<K: Key, V: Stored>(
    entries: Seq<(K::V, Option<V::V>)>,
    current: Seq<(K::V, Option<V::V>)>,
)
    requires
        ascending::<K>(firsts(current + entries)),
    ensures
        flat(paged::<K, V>(entries, current)) == current + entries,
    decreases entries.len(),
{
    let whole = current + entries;
    if entries.len() == 0 {
        assert(whole =~= current);
        if current.len() > 0 {
            lemma_flat_first(current, Seq::empty());
            assert(seq![current] + Seq::<Seq<(K::V, Option<V::V>)>>::empty() =~= seq![current]);
            assert(current + flat(Seq::<Seq<(K::V, Option<V::V>)>>::empty()) =~= current);
        }
    } else {
        let e = entries[0];
        let rest = entries.skip(1);
        let took = accepts::<K, V>(BLOCK_SIZE - total_cost::<K, V>(current), e.0, e.1);
        let base = if took {
            current
        } else {
            Seq::empty()
        };
        // the entry sorts behind all of the page that is being filled
        let keys = firsts(base);
        assert forall|i: int| 0 <= i < keys.len() implies K::before(#[trigger] keys[i], e.0) by {
            assert(firsts(whole)[i] == current[i].0);
            assert(firsts(whole)[current.len() as int] == e.0);
        }
        lemma_rank_is::<K>(keys, e.0, base.len() as int);
        let next = upsert::<K, Option<V::V>>(base, e.0, e.1);
        assert(next =~= base.push(e));
        assert(next + rest =~= base + entries);
        assert(ascending::<K>(firsts(next + rest))) by {
            let f = firsts(next + rest);
            let g = firsts(whole);
            let d = current.len() - base.len();
            assert forall|x: int, y: int| 0 <= x < y < f.len() implies K::before(
                #[trigger] f[x],
                #[trigger] f[y],
            ) by {
                assert(f[x] == g[x + d] && f[y] == g[y + d]);
            }
        }
        lemma_paged_flat::<K, V>(rest, next);
        if !took {
            lemma_flat_first(current, paged::<K, V>(rest, next));
            assert(current + (next + rest) =~= whole);
        }
    }
}


/// Writing pages to a file through the pool removes no file.
pub proof fn lemma_stored_keeps_files<K: Key, V: Stored>(
    p: PoolView,
    f: Seq<char>,
    pages: Seq<Seq<(K::V, Option<V::V>)>>,
    o: int,
    name: Seq<char>,
)
    requires
        p.disk.dom().contains(name),
    ensures
        stored::<K, V>(p, f, pages, o).disk.dom().contains(name),
    decreases pages.len(),
{
    if pages.len() == 0 || o + BLOCK_SIZE > usize::MAX {
    } else {
        let after = p.store(f, o, encode_spec::<K, V>(pages[0]));
        lemma_stored_keeps_files::<K, V>(after, f, pages.skip(1), o + BLOCK_SIZE, name);
    }
}

/// The name of the merge file is not the name of the run.
pub proof fn lemma_merge_name(run: Seq<char>)
    ensures
        merge_name(run) != run,
{
    reveal_strlit("_merge");
    assert(merge_name(run).len() == run.len() + 6);
}

/// After entries replaced a run, the pool holds the pages that the entries
/// were packed into as the run, and holds nothing of the merge file. The
/// pool must hold nothing of the merge file before, and the entries must fit
/// and be few enough for their pages to lie within the range of offsets.
pub proof fn law_replaced<K: Key, V: Stored>(
    p: PoolView,
    run: Seq<char>,
    entries: Seq<(K::V, Option<V::V>)>,
)
    requires
        holds_run::<K, V>(p, merge_name(run), Seq::empty()),
        all_fit::<K, V>(entries),
        (entries.len() + 1) * BLOCK_SIZE + BLOCK_SIZE <= usize::MAX,
    ensures
        pages_ok::<K, V>(paged::<K, V>(entries, Seq::empty())),
        holds_run::<K, V>(replaced::<K, V>(p, run, entries), run, paged::<K, V>(entries, Seq::empty())),
        holds_run::<K, V>(replaced::<K, V>(p, run, entries), merge_name(run), Seq::empty()),
{
    let tmp = merge_name(run);
    let none = Seq::<Seq<(K::V, Option<V::V>)>>::empty();
    let pages = paged::<K, V>(entries, Seq::empty());
    lemma_merge_name(run);
    assert(firsts(Seq::<(K::V, Option<V::V>)>::empty()) =~= Seq::<K::V>::empty());
    lemma_paged_ok::<K, V>(entries, Seq::empty());
    lemma_touch_run::<K, V>(p, tmp, tmp, none);
    let opened = p.opened(tmp);
    lemma_stored_run::<K, V>(opened, tmp, none, pages);
    assert(none + pages =~= pages);
    let written = stored::<K, V>(opened, tmp, pages, 0);
    lemma_stored_keeps_files::<K, V>(opened, tmp, pages, 0, tmp);
    lemma_rename_run::<K, V>(written, tmp, run, pages);
}

/// Every cell of the pages of a run fits into an empty page.
pub proof fn lemma_flat_fit<K: Key, V: Stored>(pages: Seq<Seq<(K::V, Option<V::V>)>>)
    requires
        pages_ok::<K, V>(pages),
    ensures
        all_fit::<K, V>(flat(pages)),
    decreases pages.len(),
{
    if pages.len() > 0 {
        let rest = pages.skip(1);
        assert forall|i: int| 0 <= i < rest.len() implies page_ok::<K, V>(#[trigger] rest[i]) by {
            assert(rest[i] == pages[i + 1]);
        }
        lemma_flat_fit::<K, V>(rest);
        assert(page_ok::<K, V>(pages[0]));
        let all = flat(pages);
        assert forall|i: int| 0 <= i < all.len() implies cell_cost::<K, V>(#[trigger] all[i])
            <= BLOCK_SIZE by {
            if i < pages[0].len() {
                lemma_total_cost_bounds::<K, V>(pages[0], i);
            } else {
                assert(all[i] == flat(rest)[i - pages[0].len()]);
            }
        }
    }
}

/// A merge holds no more entries than the two sequences together.
pub proof fn lemma_merge_len<K: Key, T>(a: Seq<(K::V, T)>, b: Seq<(K::V, T)>)
    ensures
        merge_seq::<K, T>(a, b).len() <= a.len() + b.len(),
    decreases a.len() + b.len(),
{
    if a.len() > 0 && b.len() > 0 {
        if a[0].0 == b[0].0 {
            lemma_merge_len::<K, T>(a.skip(1), b.skip(1));
        } else if K::before(a[0].0, b[0].0) {
            lemma_merge_len::<K, T>(a.skip(1), b);
        } else {
            lemma_merge_len::<K, T>(a, b.skip(1));
        }
    }
}

/// The pool holds the run `pages` of the table: the table is sound, the pool
/// holds the pages as the run of the table and nothing of its merge file,
/// every page has a cell and fits a block, and the cells of the run ascend.
pub open spec fn run_held<K: Key, V: Stored>(
    tree: TreeView<K::V, V::V>,
    p: PoolView,
    pages: Seq<Seq<(K::V, Option<V::V>)>>,
) -> bool {
    &&& tree_ok::<K, V>(tree)
    &&& holds_run::<K, V>(p, tree.disktable, pages)
    &&& pages_ok::<K, V>(pages)
    &&& ascending::<K>(firsts(flat(pages)))
    &&& holds_run::<K, V>(p, merge_name(tree.disktable), Seq::empty())
}

/// After a merge the pool holds as the run the pages of the sorted union of
/// the memtable and the run of before: the cells of the run, page after
/// page, are that union and ascend by key, and every key reads in it as in
/// the memtable where that held it, deletions included, and as in the run of
/// before where it did not.
pub proof fn law_merged_run<K: Key, V: Stored>(
    tree: TreeView<K::V, V::V>,
    p: PoolView,
    pages: Seq<Seq<(K::V, Option<V::V>)>>,
    k: K::V,
)
    requires
        run_held::<K, V>(tree, p, pages),
        (tree.memtable.len() + flat(pages).len() + 1) * BLOCK_SIZE + BLOCK_SIZE <= usize::MAX,
    ensures
        ({
            let union = merge_seq::<K, Option<V::V>>(tree.memtable, flat(pages));
            let out = paged::<K, V>(union, Seq::empty());
            let q = merged_pool::<K, V>(tree, p);
            &&& holds_run::<K, V>(q, tree.disktable, out)
            &&& holds_run::<K, V>(q, merge_name(tree.disktable), Seq::empty())
            &&& pages_ok::<K, V>(out)
            &&& flat(out) == union
            &&& union.len() <= tree.memtable.len() + flat(pages).len()
            &&& ascending::<K>(firsts(union))
            &&& lookup::<K, Option<V::V>>(union, k) == match lookup::<K, Option<V::V>>(
                tree.memtable,
                k,
            ) {
                Some(v) => Some(v),
                None => lookup::<K, Option<V::V>>(flat(pages), k),
            }
        }),
{
    let run = tree.disktable;
    let none = Seq::<Seq<(K::V, Option<V::V>)>>::empty();
    let union = merge_seq::<K, Option<V::V>>(tree.memtable, flat(pages));
    lemma_scan_run::<K, V>(p, run, pages, 0);
    assert(pages.skip(0) =~= pages);
    assert(0 * BLOCK_SIZE == 0);
    lemma_scan_keeps::<K, V, K, V>(p, run, 0, merge_name(run), none);
    let read = scan::<K, V>(p, run, 0).0;
    lemma_flat_fit::<K, V>(pages);
    assert(all_fit::<K, V>(tree.memtable));
    lemma_merge_seq_fit::<K, V>(tree.memtable, flat(pages));
    lemma_merge_len::<K, Option<V::V>>(tree.memtable, flat(pages));
    law_replaced::<K, V>(read, run, union);
    law_merge::<K, Option<V::V>>(tree.memtable, flat(pages), k);
    assert(Seq::<(K::V, Option<V::V>)>::empty() + union =~= union);
    lemma_paged_flat::<K, V>(union, Seq::empty());
}


/// Where the cells of page `j` start among the cells of all pages.
pub open spec fn start<C>(pages: Seq<Seq<C>>, j: int) -> int
    decreases j,
{
    if j <= 0 {
        0
    } else {
        pages[0].len() + start(pages.skip(1), j - 1)
    }
}

/// Cell `y` of page `j` stands among the cells of all pages at the start of
/// the page plus `y`; and the pages follow each other.
pub proof fn lemma_flat_at<C>(pages: Seq<Seq<C>>, j: int, y: int)
    requires
        0 <= j < pages.len(),
        0 <= y < pages[j].len(),
    ensures
        0 <= start(pages, j),
        start(pages, j) + y < flat(pages).len(),
        flat(pages)[start(pages, j) + y] == pages[j][y],
        j + 1 < pages.len() ==> start(pages, j + 1) == start(pages, j) + pages[j].len(),
    decreases j,
{
    let rest = pages.skip(1);
    if j == 0 {
        if 1 < pages.len() {
            assert(start(rest, 0) == 0);
        }
    } else {
        assert(rest[j - 1] == pages[j]);
        lemma_flat_at(rest, j - 1, y);
        if j + 1 < pages.len() {
            assert(rest[j] == pages[j + 1]);
        }
    }
}

/// The starts of the pages ascend.
pub proof fn lemma_start_mono<C>(pages: Seq<Seq<C>>, i: int, j: int)
    requires
        0 <= i < j < pages.len(),
        forall|x: int| 0 <= x < pages.len() ==> (#[trigger] pages[x]).len() > 0,
    ensures
        start(pages, i) + pages[i].len() <= start(pages, j),
    decreases j - i,
{
    lemma_flat_at(pages, i, 0);
    if i + 1 < j {
        lemma_start_mono(pages, i + 1, j);
    }
}

/// Every cell among the cells of all pages is a cell of some page.
pub proof fn lemma_flat_split<C>(pages: Seq<Seq<C>>, idx: int)
    requires
        0 <= idx < flat(pages).len(),
    ensures
        exists|j: int, y: int|
            0 <= j < pages.len() && 0 <= y < pages[j].len() && idx == start(pages, j) + y
                && #[trigger] pages[j][y] == flat(pages)[idx],
    decreases pages.len(),
{
    if idx < pages[0].len() {
        assert(pages[0][idx] == flat(pages)[idx]);
        assert(start(pages, 0) == 0);
    } else {
        let rest = pages.skip(1);
        lemma_flat_split(rest, idx - pages[0].len());
        let (j, y) = choose|j: int, y: int|
            0 <= j < rest.len() && 0 <= y < rest[j].len() && idx - pages[0].len() == start(rest, j)
                + y && #[trigger] rest[j][y] == flat(rest)[idx - pages[0].len()];
        assert(rest[j] == pages[j + 1]);
        assert(pages[j + 1][y] == flat(pages)[idx]);
    }
}

/// In a run whose cells ascend, every key of a page sorts before every key
/// of a later page.
pub proof fn lemma_cross_order<K: Key, V: Stored>(
    pages: Seq<Seq<(K::V, Option<V::V>)>>,
    i: int,
    x: int,
    j: int,
    y: int,
)
    requires
        pages_ok::<K, V>(pages),
        ascending::<K>(firsts(flat(pages))),
        0 <= i < j < pages.len(),
        0 <= x < pages[i].len(),
        0 <= y < pages[j].len(),
    ensures
        K::before(pages[i][x].0, pages[j][y].0),
{
    assert forall|z: int| 0 <= z < pages.len() implies (#[trigger] pages[z]).len() > 0 by {
        assert(page_ok::<K, V>(pages[z]));
    }
    lemma_flat_at(pages, i, x);
    lemma_flat_at(pages, j, y);
    lemma_start_mono(pages, i, j);
    let f = firsts(flat(pages));
    assert(f[start(pages, i) + x] == pages[i][x].0);
    assert(f[start(pages, j) + y] == pages[j][y].0);
}

/// The index of a run: for each page, its first key and its offset.
pub open spec fn index_of<K: Key, V: Stored>(pages: Seq<Seq<(K::V, Option<V::V>)>>) -> Seq<
    (K::V, int),
> {
    Seq::new(pages.len(), |i: int| (pages[i][0].0, i * BLOCK_SIZE))
}

proof fn lemma_indexed_from<K: Key, V: Stored>(pages: Seq<Seq<(K::V, Option<V::V>)>>, j: int)
    requires
        pages_ok::<K, V>(pages),
        ascending::<K>(firsts(flat(pages))),
        0 <= j <= pages.len(),
    ensures
        indexed::<K, V>(index_of::<K, V>(pages).take(j), pages.skip(j), j * BLOCK_SIZE)
            == index_of::<K, V>(pages),
        ascending::<K>(firsts(index_of::<K, V>(pages))),
    decreases pages.len() - j,
{
    let whole = index_of::<K, V>(pages);
    let keys = firsts(whole);
    assert forall|a: int, b: int| 0 <= a < b < keys.len() implies K::before(
        #[trigger] keys[a],
        #[trigger] keys[b],
    ) by {
        assert(page_ok::<K, V>(pages[a]) && page_ok::<K, V>(pages[b]));
        lemma_cross_order::<K, V>(pages, a, 0, b, 0);
    }
    if j == pages.len() {
        assert(whole.take(j) =~= whole);
    } else {
        let acc = whole.take(j);
        let rest = pages.skip(j);
        let k = pages[j][0].0;
        assert(rest[0] == pages[j]);
        assert forall|i: int| 0 <= i < j implies K::before(#[trigger] firsts(acc)[i], k) by {
            assert(firsts(acc)[i] == keys[i]);
            assert(keys[j] == k);
        }
        lemma_rank_is::<K>(firsts(acc), k, j);
        assert(upsert::<K, int>(acc, k, j * BLOCK_SIZE) =~= whole.take(j + 1));
        assert(rest.skip(1) =~= pages.skip(j + 1));
        assert((j + 1) * BLOCK_SIZE == j * BLOCK_SIZE + BLOCK_SIZE);
        lemma_indexed_from::<K, V>(pages, j + 1);
    }
}

/// The index that is built from a run whose cells ascend has one entry for
/// each page, from the first key of the page to its offset, and the first
/// keys of the pages ascend.
pub proof fn law_index<K: Key, V: Stored>(pages: Seq<Seq<(K::V, Option<V::V>)>>)
    requires
        pages_ok::<K, V>(pages),
        ascending::<K>(firsts(flat(pages))),
    ensures
        indexed::<K, V>(Seq::empty(), pages, 0) == index_of::<K, V>(pages),
        indexed::<K, V>(Seq::empty(), pages, 0).len() == pages.len(),
        ascending::<K>(firsts(index_of::<K, V>(pages))),
{
    lemma_indexed_from::<K, V>(pages, 0);
    assert(index_of::<K, V>(pages).take(0) =~= Seq::empty());
    assert(pages.skip(0) =~= pages);
}

/// A key reads in a run whose cells ascend as it reads in the page whose
/// first key is the greatest that does not sort after it, and as nothing
/// where the key sorts before the first key of the run.
pub proof fn lemma_page_lookup<K: Key, V: Stored>(
    pages: Seq<Seq<(K::V, Option<V::V>)>>,
    k: K::V,
)
    requires
        pages_ok::<K, V>(pages),
        ascending::<K>(firsts(flat(pages))),
    ensures
        lookup::<K, Option<V::V>>(flat(pages), k) == match floor::<K, int>(
            index_of::<K, V>(pages),
            k,
        ) {
            Some(o) => lookup::<K, Option<V::V>>(pages[o / (BLOCK_SIZE as int)], k),
            None => None,
        },
        floor::<K, int>(index_of::<K, V>(pages), k) matches Some(o) ==> 0 <= o / (
        BLOCK_SIZE as int) < pages.len() && o == (o / (BLOCK_SIZE as int)) * BLOCK_SIZE,
{
    let index = index_of::<K, V>(pages);
    let keys = firsts(index);
    let all = flat(pages);
    law_index::<K, V>(pages);
    lemma_rank::<K>(keys, k);
    lemma_rank_ascending::<K>(keys, k);
    K::lemma_irreflexive(k);
    let r = rank::<K>(keys, k);
    let hit = r < index.len() && index[r].0 == k;
    // the page that the index names, if any
    let j = if hit {
        r
    } else {
        r - 1
    };
    if 0 <= j {
        lemma_block_start(j);
        assert(index[j].1 == j * BLOCK_SIZE);
        assert(page_ok::<K, V>(pages[j]));
    }
    // a cell with the key can only stand in that page
    assert forall|idx: int| 0 <= idx < all.len() && (#[trigger] all[idx]).0 == k implies 0 <= j
        && exists|y: int| 0 <= y < pages[j].len() && #[trigger] pages[j][y] == all[idx] by {
        lemma_flat_split(pages, idx);
        let (i, y) = choose|i: int, y: int|
            0 <= i < pages.len() && 0 <= y < pages[i].len() && idx == start(pages, i) + y
                && #[trigger] pages[i][y] == all[idx];
        assert(page_ok::<K, V>(pages[i]));
        assert(keys[i] == pages[i][0].0);
        // the first key of page i does not sort after k
        if y > 0 {
            assert(firsts(pages[i])[0] == pages[i][0].0 && firsts(pages[i])[y] == k);
        }
        if i > j {
            // then the rank of k would be greater
            if i >= r {
                assert(!K::before(keys[i], k));
                if hit {
                    assert(K::before(keys[r], keys[i]));
                    if y > 0 {
                        K::lemma_transitive(k, keys[i], k);
                    }
                }
            }
            assert(false);
        }
        if i < j {
            assert(page_ok::<K, V>(pages[j]));
            lemma_cross_order::<K, V>(pages, i, y, j, 0);
            assert(keys[j] == pages[j][0].0);
            // k sorts before the first key of page j, which does not sort after k
            if hit {
            } else {
                assert(K::before(keys[j], k));
                K::lemma_transitive(k, keys[j], k);
            }
            assert(false);
        }
    }
    let in_run = lookup::<K, Option<V::V>>(all, k);
    lemma_rank::<K>(firsts(all), k);
    if 0 <= j {
        let page = pages[j];
        let in_page = lookup::<K, Option<V::V>>(page, k);
        lemma_rank::<K>(firsts(page), k);
        if in_page is Some {
            let y = rank::<K>(firsts(page), k);
            lemma_flat_at(pages, j, y);
            lemma_lookup_at::<K, Option<V::V>>(all, start(pages, j) + y);
        } else if in_run is Some {
            let idx = rank::<K>(firsts(all), k);
            assert(all[idx].0 == k);
            let y = choose|y: int| 0 <= y < page.len() && #[trigger] page[y] == all[idx];
            lemma_lookup_at::<K, Option<V::V>>(page, y);
        }
    } else {
        if in_run is Some {
            let idx = rank::<K>(firsts(all), k);
            assert(all[idx].0 == k);
        }
    }
}


/// The table and the pool together hold the run `pages`: the pool holds the
/// run of the table, and the index of the table is that of the run.
pub open spec fn table_holds<K: Key, V: Stored>(
    tree: TreeView<K::V, V::V>,
    p: PoolView,
    pages: Seq<Seq<(K::V, Option<V::V>)>>,
) -> bool {
    &&& run_held::<K, V>(tree, p, pages)
    &&& tree.index == index_of::<K, V>(pages)
}

/// What a key reads as in a table over the run `pages`: what the memtable
/// holds for it, a deletion reading as nothing, and what the run holds for
/// it where the memtable does not hold it.
pub open spec fn reads<K: Key, V: Stored>(
    tree: TreeView<K::V, V::V>,
    pages: Seq<Seq<(K::V, Option<V::V>)>>,
    k: K::V,
) -> Option<V::V> {
    match lookup::<K, Option<V::V>>(tree.memtable, k) {
        Some(v) => v,
        None => match lookup::<K, Option<V::V>>(flat(pages), k) {
            Some(v) => v,
            None => None,
        },
    }
}

/// A lookup gives what the key reads as, and the table and the pool hold the
/// run afterwards as before.
pub proof fn law_get<K: Key, V: Stored>(
    tree: TreeView<K::V, V::V>,
    p: PoolView,
    pages: Seq<Seq<(K::V, Option<V::V>)>>,
    k: K::V,
)
    requires
        table_holds::<K, V>(tree, p, pages),
    ensures
        get_spec::<K, V>(tree, p, k).1 == reads::<K, V>(tree, pages, k),
        table_holds::<K, V>(tree, get_spec::<K, V>(tree, p, k).0, pages),
{
    let run = tree.disktable;
    if lookup::<K, Option<V::V>>(tree.memtable, k) is None {
        lemma_page_lookup::<K, V>(pages, k);
        match floor::<K, int>(tree.index, k) {
            None => {},
            Some(o) => {
                let j = o / (BLOCK_SIZE as int);
                lemma_block_start(j);
                assert(aligned(o) == o);
                lemma_fetch_run::<K, V>(p, run, o, run, pages);
                lemma_fetch_run::<K, V>(p, run, o, merge_name(run), Seq::empty());
                assert(held(p, run, j * BLOCK_SIZE) == Some(encode_spec::<K, V>(pages[j])));
                assert(page_ok::<K, V>(pages[j]));
                lemma_decode_encode::<K, V>(pages[j]);
                assert(page_of::<K, V>(p, run, o) == Some(pages[j]));
            },
        }
    }
}

/// A pool without blocks over no files holds the empty run under every name.
pub proof fn law_fresh_pool<K: Key, V: Stored>(capacity: int, name: Seq<char>)
    requires
        1 <= capacity,
    ensures
        holds_run::<K, V>(
            PoolView { capacity, blocks: Seq::empty(), disk: Map::empty(), log: Seq::empty() },
            name,
            Seq::empty(),
        ),
{
}

/// A table that is opened over a run which the pool holds, with ascending
/// cells, holds that run, and every key reads in it as in the run.
pub proof fn law_open<K: Key, V: Stored>(
    p: PoolView,
    name: Seq<char>,
    pages: Seq<Seq<(K::V, Option<V::V>)>>,
    k: K::V,
)
    requires
        holds_run::<K, V>(p, run_name(name), pages),
        pages_ok::<K, V>(pages),
        ascending::<K>(firsts(flat(pages))),
        holds_run::<K, V>(p, merge_name(run_name(name)), Seq::empty()),
    ensures
        ({
            let tree = TreeView::<K::V, V::V> {
                memtable: Seq::empty(),
                memtable_size: 0,
                disktable: run_name(name),
                index: indexed::<K, V>(Seq::empty(), scan::<K, V>(p, run_name(name), 0).1, 0),
                merge_count: 0,
            };
            &&& table_holds::<K, V>(tree, scan::<K, V>(p, run_name(name), 0).0, pages)
            &&& reads::<K, V>(tree, pages, k) == match lookup::<K, Option<V::V>>(flat(pages), k) {
                Some(v) => v,
                None => None,
            }
        }),
{
    let run = run_name(name);
    lemma_scan_run::<K, V>(p, run, pages, 0);
    assert(pages.skip(0) =~= pages);
    assert(0 * BLOCK_SIZE == 0);
    lemma_scan_keeps::<K, V, K, V>(p, run, 0, merge_name(run), Seq::empty());
    law_index::<K, V>(pages);
    assert(firsts(Seq::<(K::V, Option<V::V>)>::empty()) =~= Seq::<K::V>::empty());
    lemma_rank::<K>(Seq::<K::V>::empty(), k);
}

/// Merging and rebuilding the index leaves a table that holds the pages of
/// the sorted union of the memtable and the run of before, in which every
/// key reads as before. The index of before does not matter.
pub proof fn law_merge_then_index<K: Key, V: Stored>(
    tree: TreeView<K::V, V::V>,
    p: PoolView,
    pages: Seq<Seq<(K::V, Option<V::V>)>>,
    k: K::V,
)
    requires
        run_held::<K, V>(tree, p, pages),
        (tree.memtable.len() + flat(pages).len() + 1) * BLOCK_SIZE + BLOCK_SIZE <= usize::MAX,
    ensures
        ({
            let out = paged::<K, V>(
                merge_seq::<K, Option<V::V>>(tree.memtable, flat(pages)),
                Seq::empty(),
            );
            let merged = merged_pool::<K, V>(tree, p);
            let after = TreeView {
                index: indexed::<K, V>(Seq::empty(), scan::<K, V>(merged, tree.disktable, 0).1, 0),
                merge_count: clamped(tree.merge_count + 1),
                ..tree.cleared()
            };
            &&& table_holds::<K, V>(after, scan::<K, V>(merged, tree.disktable, 0).0, out)
            &&& reads::<K, V>(after, out, k) == reads::<K, V>(tree, pages, k)
        }),
{
    let run = tree.disktable;
    let union = merge_seq::<K, Option<V::V>>(tree.memtable, flat(pages));
    let out = paged::<K, V>(union, Seq::empty());
    let merged = merged_pool::<K, V>(tree, p);
    law_merged_run::<K, V>(tree, p, pages, k);
    lemma_scan_run::<K, V>(merged, run, out, 0);
    assert(out.skip(0) =~= out);
    assert(0 * BLOCK_SIZE == 0);
    lemma_scan_keeps::<K, V, K, V>(merged, run, 0, merge_name(run), Seq::empty());
    law_index::<K, V>(out);
    assert(firsts(Seq::<(K::V, Option<V::V>)>::empty()) =~= Seq::<K::V>::empty());
    lemma_rank::<K>(Seq::<K::V>::empty(), k);
}


/// The run of a table after a put: the pages of the sorted union of the new
/// memtable and the run of before if the put started a merge, and the run of
/// before if it did not.
pub open spec fn run_after_put<K: Key, V: Stored>(
    tree: TreeView<K::V, V::V>,
    p: PoolView,
    pages: Seq<Seq<(K::V, Option<V::V>)>>,
    k: K::V,
    v: Option<V::V>,
) -> Seq<Seq<(K::V, Option<V::V>)>> {
    if size_after_put::<K, V>(tree.memtable, tree.memtable_size, k, v) > p.capacity * 2048 {
        paged::<K, V>(
            merge_seq::<K, Option<V::V>>(
                upsert::<K, Option<V::V>>(tree.memtable, k, v),
                flat(pages),
            ),
            Seq::empty(),
        )
    } else {
        pages
    }
}

/// Entries that fit still fit after one that fits is put in, and there is at
/// most one more of them.
pub proof fn lemma_upsert_fit<K: Key, V: Stored>(
    s: Seq<(K::V, Option<V::V>)>,
    k: K::V,
    v: Option<V::V>,
)
    requires
        all_fit::<K, V>(s),
        cell_cost::<K, V>((k, v)) <= BLOCK_SIZE,
    ensures
        all_fit::<K, V>(upsert::<K, Option<V::V>>(s, k, v)),
        upsert::<K, Option<V::V>>(s, k, v).len() <= s.len() + 1,
{
    let t = upsert::<K, Option<V::V>>(s, k, v);
    let r = rank::<K>(firsts(s), k);
    lemma_rank::<K>(firsts(s), k);
    assert forall|i: int| 0 <= i < t.len() implies cell_cost::<K, V>(#[trigger] t[i])
        <= BLOCK_SIZE by {
        if r < s.len() && s[r].0 == k {
            if i != r {
                assert(t[i] == s[i]);
            }
        } else {
            if i < r {
                assert(t[i] == s[i]);
            } else if i > r {
                assert(t[i] == s[i - 1]);
            }
        }
    }
}

/// After a put, whether it started a merge or not, the table and the pool
/// hold a run, the key that was put reads as the value that was put, a
/// deletion as nothing, and every other key reads as before. The entry must
/// fit into an empty page, and the entries of the table must be few enough
/// for their pages to lie within the range of offsets.
pub proof fn law_put<K: Key, V: Stored>(
    tree: TreeView<K::V, V::V>,
    p: PoolView,
    pages: Seq<Seq<(K::V, Option<V::V>)>>,
    k: K::V,
    v: Option<V::V>,
    q: K::V,
)
    requires
        table_holds::<K, V>(tree, p, pages),
        cell_cost::<K, V>((k, v)) <= BLOCK_SIZE,
        (tree.memtable.len() + flat(pages).len() + 2) * BLOCK_SIZE + BLOCK_SIZE <= usize::MAX,
    ensures
        table_holds::<K, V>(
            put_spec::<K, V>(tree, p, k, v).0,
            put_spec::<K, V>(tree, p, k, v).1,
            run_after_put::<K, V>(tree, p, pages, k, v),
        ),
        reads::<K, V>(
            put_spec::<K, V>(tree, p, k, v).0,
            run_after_put::<K, V>(tree, p, pages, k, v),
            q,
        ) == if q == k {
            v
        } else {
            reads::<K, V>(tree, pages, q)
        },
{
    let written = TreeView {
        memtable: upsert::<K, Option<V::V>>(tree.memtable, k, v),
        memtable_size: size_after_put::<K, V>(tree.memtable, tree.memtable_size, k, v),
        ..tree
    };
    lemma_upsert::<K, Option<V::V>>(tree.memtable, k, v);
    lemma_upsert_fit::<K, V>(tree.memtable, k, v);
    assert(table_holds::<K, V>(written, p, pages));
    assert(reads::<K, V>(written, pages, q) == if q == k {
        v
    } else {
        reads::<K, V>(tree, pages, q)
    });
    if written.memtable_size > p.capacity * 2048 {
        law_merge_then_index::<K, V>(written, p, pages, q);
    }
}


/// The state of the stored files while a flush has written the first `i`
/// blocks of the pool back: the run's file does not reach behind the run;
/// every page of the run is in the stored file or in a dirty block that is
/// still to be written; and every block of the run's file that is clean or
/// written is in the stored file.
pub open spec fn flushing<K: Key, V: Stored>(
    p: PoolView,
    f: Seq<char>,
    pages: Seq<Seq<(K::V, Option<V::V>)>>,
    i: int,
) -> bool {
    let d = all_written_back(p.disk, p.blocks.take(i));
    &&& files_fit(d)
    &&& d.dom().contains(f) ==> d[f].len() <= pages.len() * BLOCK_SIZE
    &&& forall|j: int|
        0 <= j < pages.len() ==> (exists|x: int|
            i <= x < p.blocks.len() && (#[trigger] p.blocks[x]).file == f && p.blocks[x].offset == j
                * BLOCK_SIZE && p.blocks[x].dirty) || on_disk(
            d,
            BlockView {
                file: f,
                offset: #[trigger] (j * BLOCK_SIZE),
                bytes: encode_spec::<K, V>(pages[j]),
                dirty: false,
            },
        )
    &&& forall|x: int|
        0 <= x < p.blocks.len() && (#[trigger] p.blocks[x]).file == f && (!p.blocks[x].dirty || x
            < i) ==> on_disk(d, p.blocks[x])
}

proof fn lemma_flushing<K: Key, V: Stored>(
    p: PoolView,
    f: Seq<char>,
    pages: Seq<Seq<(K::V, Option<V::V>)>>,
    i: int,
)
    requires
        holds_run::<K, V>(p, f, pages),
        0 <= i <= p.blocks.len(),
    ensures
        flushing::<K, V>(p, f, pages, i),
    decreases i,
{
    let n = pages.len() as int;
    if i == 0 {
        assert(p.blocks.take(0) =~= Seq::empty());
        assert forall|j: int| 0 <= j < n implies (exists|x: int|
            0 <= x < p.blocks.len() && (#[trigger] p.blocks[x]).file == f && p.blocks[x].offset == j
                * BLOCK_SIZE && p.blocks[x].dirty) || on_disk(
            p.disk,
            BlockView {
                file: f,
                offset: #[trigger] (j * BLOCK_SIZE),
                bytes: encode_spec::<K, V>(pages[j]),
                dirty: false,
            },
        ) by {
            let o = j * BLOCK_SIZE;
            assert(held(p, f, j * BLOCK_SIZE) == Some(encode_spec::<K, V>(pages[j])));
            if p.resident(f, o) {
                let x = p.place(f, o);
                assert(p.blocks[x].file == f);
            }
        }
    } else {
        lemma_flushing::<K, V>(p, f, pages, i - 1);
        let b = p.blocks[i - 1];
        let before = all_written_back(p.disk, p.blocks.take(i - 1));
        let d = all_written_back(p.disk, p.blocks.take(i));
        assert(p.blocks.take(i).drop_last() =~= p.blocks.take(i - 1));
        assert(p.blocks.take(i).last() == b);
        assert(d == written_back(before, b));
        lemma_held_at(p, i - 1);
        if b.dirty {
            lemma_write_here(before, b.file, b.offset, b.bytes);
            if b.file == f {
                lemma_aligned(b.offset, n);
            } else {
                lemma_write_elsewhere(before, b.file, b.offset, b.bytes, f, 0);
            }
            assert forall|name: Seq<char>| d.dom().contains(name) implies (#[trigger] d[name]).len()
                <= usize::MAX by {
                if name != b.file {
                    lemma_write_elsewhere(before, b.file, b.offset, b.bytes, name, 0);
                }
            }
        }
        assert forall|j: int| 0 <= j < n implies (exists|x: int|
            i <= x < p.blocks.len() && (#[trigger] p.blocks[x]).file == f && p.blocks[x].offset == j
                * BLOCK_SIZE && p.blocks[x].dirty) || on_disk(
            d,
            BlockView {
                file: f,
                offset: #[trigger] (j * BLOCK_SIZE),
                bytes: encode_spec::<K, V>(pages[j]),
                dirty: false,
            },
        ) by {
            let o = j * BLOCK_SIZE;
            lemma_block_start(j);
            let c = BlockView {
                file: f,
                offset: o,
                bytes: encode_spec::<K, V>(pages[j]),
                dirty: false,
            };
            assert(held(p, f, j * BLOCK_SIZE) == Some(encode_spec::<K, V>(pages[j])));
            if b.file == f && b.offset == o {
                if b.dirty {
                } else {
                    assert(on_disk(before, b));
                }
            } else {
                if on_disk(before, c) {
                    if b.dirty {
                        lemma_write_elsewhere(before, b.file, b.offset, b.bytes, f, o);
                    }
                } else {
                    let x = choose|x: int|
                        i - 1 <= x < p.blocks.len() && (#[trigger] p.blocks[x]).file == f
                            && p.blocks[x].offset == j * BLOCK_SIZE && p.blocks[x].dirty;
                    assert(x != i - 1);
                }
            }
        }
        assert forall|x: int|
            0 <= x < p.blocks.len() && (#[trigger] p.blocks[x]).file == f && (!p.blocks[x].dirty
                || x < i) implies on_disk(d, p.blocks[x]) by {
            let c = p.blocks[x];
            if x != i - 1 {
                assert(on_disk(before, c));
                if b.dirty {
                    lemma_write_elsewhere(before, b.file, b.offset, b.bytes, f, c.offset);
                }
            } else if !b.dirty {
                assert(on_disk(before, c));
            }
        }
    }
}

/// After a flush the stored file of a run that the pool holds is the run:
/// its size is the number of pages times the size of a block, every block
/// of it is the encoding of its page and decodes to that page, and the pool
/// holds the run as before. The file of a run without pages is empty or
/// missing.
pub proof fn law_flush<K: Key, V: Stored>(
    p: PoolView,
    f: Seq<char>,
    pages: Seq<Seq<(K::V, Option<V::V>)>>,
)
    requires
        holds_run::<K, V>(p, f, pages),
        pages_ok::<K, V>(pages),
    ensures
        holds_run::<K, V>(p.flushed(), f, pages),
        pages.len() > 0 ==> p.flushed().disk.dom().contains(f),
        p.flushed().disk.dom().contains(f) ==> p.flushed().disk[f].len() == pages.len()
            * BLOCK_SIZE,
        forall|j: int|
            0 <= j < pages.len() ==> {
                &&& p.flushed().disk[f].subrange(j * BLOCK_SIZE, j * BLOCK_SIZE + BLOCK_SIZE)
                    == encode_spec::<K, V>(#[trigger] pages[j])
                &&& decode_spec::<K, V>(
                    p.flushed().disk[f].subrange(j * BLOCK_SIZE, j * BLOCK_SIZE + BLOCK_SIZE),
                ) == Some(pages[j])
            },
{
    let q = p.flushed();
    let n = pages.len() as int;
    lemma_flushing::<K, V>(p, f, pages, p.blocks.len() as int);
    assert(p.blocks.take(p.blocks.len() as int) =~= p.blocks);
    let d = q.disk;
    // every page is in the stored file
    assert forall|y: int| 0 <= y < n implies on_disk(
        d,
        BlockView {
            file: f,
            offset: #[trigger] (y * BLOCK_SIZE),
            bytes: encode_spec::<K, V>(pages[y]),
            dirty: false,
        },
    ) by {}
    if n > 0 {
        assert(on_disk(
            d,
            BlockView {
                file: f,
                offset: (n - 1) * BLOCK_SIZE,
                bytes: encode_spec::<K, V>(pages[n - 1]),
                dirty: false,
            },
        ));
    }
    assert forall|j: int| 0 <= j < n implies d[f].subrange(
        j * BLOCK_SIZE,
        j * BLOCK_SIZE + BLOCK_SIZE,
    ) == encode_spec::<K, V>(#[trigger] pages[j]) && decode_spec::<K, V>(
        d[f].subrange(j * BLOCK_SIZE, j * BLOCK_SIZE + BLOCK_SIZE),
    ) == Some(pages[j]) by {
        assert(page_ok::<K, V>(pages[j]));
        lemma_decode_encode::<K, V>(pages[j]);
        assert(on_disk(
            d,
            BlockView {
                file: f,
                offset: j * BLOCK_SIZE,
                bytes: encode_spec::<K, V>(pages[j]),
                dirty: false,
            },
        ));
    }
    assert(q.wf()) by {
        assert forall|x: int| 0 <= x < q.blocks.len() implies (#[trigger] q.blocks[x]).file
            == p.blocks[x].file && q.blocks[x].offset == p.blocks[x].offset && q.blocks[x].bytes
            == p.blocks[x].bytes by {}
    }
    assert forall|y: int| 0 <= y < n implies held(q, f, #[trigger] (y * BLOCK_SIZE)) == Some(
        encode_spec::<K, V>(pages[y]),
    ) by {
        let o = y * BLOCK_SIZE;
        assert(held(p, f, y * BLOCK_SIZE) == Some(encode_spec::<K, V>(pages[y])));
        if p.resident(f, o) {
            let x = p.place(f, o);
            assert(q.blocks[x].file == f && q.blocks[x].offset == o);
            lemma_held_at(q, x);
            lemma_held_at(p, x);
        } else {
            if q.resident(f, o) {
                let x = q.place(f, o);
                assert(p.blocks[x].file == f && p.blocks[x].offset == o);
            }
            assert(on_disk(
                d,
                BlockView {
                    file: f,
                    offset: y * BLOCK_SIZE,
                    bytes: encode_spec::<K, V>(pages[y]),
                    dirty: false,
                },
            ));
        }
    }
    assert forall|x: int|
        0 <= x < q.blocks.len() && (#[trigger] q.blocks[x]).file == f implies q.blocks[x].offset < n
            * BLOCK_SIZE && (!q.blocks[x].dirty ==> on_disk(q.disk, q.blocks[x])) by {
        assert(p.blocks[x].file == f);
        assert(on_disk(d, p.blocks[x]));
    }
}


} // verus!
