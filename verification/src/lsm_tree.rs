//! The table: an in-memory sorted map of recent writes over one sorted run of
//! pages on disk, with a sparse index of the first key of each page.
use crate::buffer_manager::{BufferManager, PoolView};
use crate::fixed::{duplicate_opt, opt_view, Key, Stored};
use crate::ordered::{
    ascending, firsts, floor, holds, keys_of, lemma_rank, lemma_upsert, lookup, search, upsert,
};
use crate::slotted_page::{
    accepts, cell_cost, cells_view, decode, decode_spec, encode, encode_spec, total_cost,
    value_wire, SlottedPage,
};
use crate::BLOCK_SIZE;
use vstd::prelude::*;
use vstd::string::*;

verus! {

/// A table over keys `K` and values `V`.
pub struct LSMTree<K, V> {
    memtable: Vec<(K, Option<V>)>,
    memtable_size: usize,
    disktable: String,
    disktable_index: Vec<(K, usize)>,
    merge_count: usize,
}

/// A table as a value.
pub struct TreeView<KV, VV> {
    /// The recent writes in key order; `None` marks a deletion.
    pub memtable: Seq<(KV, Option<VV>)>,
    /// The running count of bytes written to the memtable.
    pub memtable_size: int,
    /// The name of the run file.
    pub disktable: Seq<char>,
    /// For each page of the run, its first key and its offset.
    pub index: Seq<(KV, int)>,
    /// How many merges were made.
    pub merge_count: int,
}

/// The entries of an index by their views.
pub open spec fn index_view<K: View>(s: Seq<(K, usize)>) -> Seq<(K::V, int)> {
    Seq::new(s.len(), |i: int| (s[i].0@, s[i].1 as int))
}

/// A number held to the range of `usize`.
pub open spec fn clamped(x: int) -> int {
    if x < 0 {
        0
    } else if x > usize::MAX {
        usize::MAX as int
    } else {
        x
    }
}

/// The bytes that an entry adds to the size of the memtable: the lengths of
/// its serialized key and of its serialized optional value.
pub open spec fn entry_bytes<K: Key, V: Stored>(k: K::V, v: Option<V::V>) -> int {
    (K::wire(k).len() + value_wire::<V>(v).len()) as int
}

/// The size of the memtable after a put: the serialized length of the value
/// that the key had is taken off, and the lengths of the new key and value
/// are added.
pub open spec fn size_after_put<K: Key, V: Stored>(
    memtable: Seq<(K::V, Option<V::V>)>,
    size: int,
    k: K::V,
    v: Option<V::V>,
) -> int {
    let freed = match lookup::<K, Option<V::V>>(memtable, k) {
        Some(old) => value_wire::<V>(old).len() as int,
        None => 0,
    };
    clamped(clamped(size - freed) + entry_bytes::<K, V>(k, v))
}

/// The cells of the page that a fetched block holds, if it holds one.
pub open spec fn page_of<K: Key, V: Stored>(pool: PoolView, file: Seq<char>, offset: int) -> Option<
    Seq<(K::V, Option<V::V>)>,
> {
    match pool.fetch(file, offset).1 {
        Some(b) => decode_spec::<K, V>(b.bytes),
        None => None,
    }
}

/// What a lookup gives and what it does to the pool. The memtable answers
/// for the keys it holds. Otherwise the index names the page whose first key
/// is the greatest that does not sort after `k`; that page is fetched and
/// searched. A deletion, a missing page and a missing key all give `None`.
pub open spec fn get_spec<K: Key, V: Stored>(
    tree: TreeView<K::V, V::V>,
    pool: PoolView,
    k: K::V,
) -> (PoolView, Option<V::V>) {
    match lookup::<K, Option<V::V>>(tree.memtable, k) {
        Some(v) => (pool, v),
        None => match floor::<K, int>(tree.index, k) {
            None => (pool, None),
            Some(offset) => (
                pool.fetch(tree.disktable, offset).0,
                match page_of::<K, V>(pool, tree.disktable, offset) {
                    Some(cells) => match lookup::<K, Option<V::V>>(cells, k) {
                        Some(v) => v,
                        None => None,
                    },
                    None => None,
                },
            ),
        },
    }
}

impl<K: Key, V: Stored> View for LSMTree<K, V> {
    type V = TreeView<K::V, V::V>;

    closed spec fn view(&self) -> TreeView<K::V, V::V> {
        TreeView {
            memtable: cells_view(self.memtable@),
            memtable_size: self.memtable_size as int,
            disktable: self.disktable@,
            index: index_view(self.disktable_index@),
            merge_count: self.merge_count as int,
        }
    }
}

impl<KV, VV> TreeView<KV, VV> {
    /// The table with an empty memtable.
    pub open spec fn cleared(self) -> Self {
        TreeView { memtable: Seq::empty(), memtable_size: 0, ..self }
    }
}

/// The table as a value is sound: the keys of the memtable and of the index
/// ascend, every entry of the memtable fits into an empty page, and every
/// offset of the index is within the range of `usize`.
pub open spec fn tree_ok<K: Key, V: Stored>(t: TreeView<K::V, V::V>) -> bool {
    &&& ascending::<K>(firsts(t.memtable))
    &&& ascending::<K>(firsts(t.index))
    &&& forall|i: int|
        0 <= i < t.memtable.len() ==> cell_cost::<K, V>(#[trigger] t.memtable[i]) <= BLOCK_SIZE
    &&& forall|i: int| 0 <= i < t.index.len() ==> 0 <= (#[trigger] t.index[i]).1 <= usize::MAX
    &&& 0 <= t.memtable_size <= usize::MAX
    &&& 0 <= t.merge_count <= usize::MAX
}

impl<K: Key, V: Stored> LSMTree<K, V> {
    /// The table is well formed.
    pub closed spec fn wf(&self) -> bool {
        tree_ok::<K, V>(self@)
    }

    /// A well-formed table is sound as a value.
    pub proof fn lemma_wf(&self)
        requires
            self.wf(),
        ensures
            tree_ok::<K, V>(self@),
    {
    }

    /// How many merges were made.
    pub fn merge_count(&self) -> (n: usize)
        ensures
            n == self@.merge_count,
    {
        self.merge_count
    }

    /// The running count of bytes written to the memtable.
    pub fn memtable_size(&self) -> (n: usize)
        ensures
            n == self@.memtable_size,
    {
        self.memtable_size
    }

    /// How many entries the memtable holds.
    pub fn memtable_len(&self) -> (n: usize)
        ensures
            n == self@.memtable.len(),
    {
        self.memtable.len()
    }

    /// How many pages the index knows.
    pub fn index_len(&self) -> (n: usize)
        ensures
            n == self@.index.len(),
    {
        self.disktable_index.len()
    }

    /// The offset of the page that the index holds at place `i`.
    pub fn index_offset(&self, i: usize) -> (offset: usize)
        requires
            i < self@.index.len(),
        ensures
            offset == self@.index[i as int].1,
    {
        self.disktable_index[i].1
    }

    /// A copy of the first key of the page that the index holds at place `i`.
    pub fn index_key(&self, i: usize) -> (k: K)
        requires
            i < self@.index.len(),
        ensures
            k@ == self@.index[i as int].0,
    {
        self.disktable_index[i].0.duplicate()
    }

    /// The page of `file` at `offset`, fetched through the pool: `None`
    /// where the file has no block there or the block holds no page.
    pub fn get_page(&self, file: &String, manager: &mut BufferManager, offset: usize) -> (r: Option<
        SlottedPage<K, V>,
    >)
        requires
            old(manager).wf(),
        ensures
            final(manager).wf(),
            final(manager)@ == old(manager)@.fetch(file@, offset as int).0,
            match r {
                Some(page) => page.wf() && page_of::<K, V>(old(manager)@, file@, offset as int)
                    == Some(page@),
                None => page_of::<K, V>(old(manager)@, file@, offset as int) is None,
            },
    {
        let block_option = manager.get(file.clone(), offset);
        match block_option {
            None => None,
            Some(block) => decode(&block.bytes),
        }
    }

    /// Looks a key up: in the memtable first, then in the page of the run
    /// that the index names.
    pub fn get(&self, manager: &mut BufferManager, k: K) -> (r: Option<V>)
        requires
            self.wf(),
            old(manager).wf(),
        ensures
            final(manager).wf(),
            final(manager)@ == get_spec::<K, V>(self@, old(manager)@, k@).0,
            opt_view(r) == get_spec::<K, V>(self@, old(manager)@, k@).1,
    {
        proof {
            assert(firsts(self@.memtable) =~= keys_of(self.memtable@));
            assert(firsts(self@.index) =~= keys_of(self.disktable_index@));
            lemma_rank::<K>(firsts(self@.index), k@);
        }
        let at = search(&self.memtable, &k);
        if holds(&self.memtable, at, &k) {
            assert(self@.memtable[at as int] == (
                self.memtable@[at as int].0@,
                opt_view(self.memtable@[at as int].1),
            ));
            return duplicate_opt(&self.memtable[at].1);
        }
        let r = search(&self.disktable_index, &k);
        let offset = if holds(&self.disktable_index, r, &k) {
            assert(self@.index[r as int] == (
                self.disktable_index@[r as int].0@,
                self.disktable_index@[r as int].1 as int,
            ));
            self.disktable_index[r].1
        } else if r > 0 {
            assert(self@.index[r - 1] == (
                self.disktable_index@[r - 1].0@,
                self.disktable_index@[r - 1].1 as int,
            ));
            self.disktable_index[r - 1].1
        } else {
            return None;
        };
        let page = match self.get_page(&self.disktable, manager, offset) {
            None => { return None; },
            Some(p) => p,
        };
        proof {
            assert(firsts(page@) =~= keys_of(page.cells@));
        }
        let c = search(&page.cells, &k);
        if holds(&page.cells, c, &k) {
            assert(page@[c as int] == (page.cells@[c as int].0@, opt_view(page.cells@[c as int].1)));
            duplicate_opt(&page.cells[c].1)
        } else {
            None
        }
    }
}

/// The pages of the run from `offset` on, each by its cells, and the pool
/// after they were read. Reading stops at the first block that the file does
/// not hold, that holds no page or whose page is empty, and where offsets end.
pub open spec fn scan<K: Key, V: Stored>(pool: PoolView, file: Seq<char>, offset: int) -> (
    PoolView,
    Seq<Seq<(K::V, Option<V::V>)>>,
)
    decreases usize::MAX - offset,
{
    if offset < 0 || offset + BLOCK_SIZE > usize::MAX {
        (pool, Seq::empty())
    } else {
        let next = pool.fetch(file, offset).0;
        let page = page_of::<K, V>(pool, file, offset);
        if page is Some && page->0.len() > 0 {
            let (end, rest) = scan::<K, V>(next, file, offset + BLOCK_SIZE);
            (end, seq![page->0] + rest)
        } else {
            (next, Seq::empty())
        }
    }
}

/// The index after the first key of each page is put in with the offset of
/// the page, the first page standing at `offset`.
pub open spec fn indexed<K: Key, V: Stored>(
    index: Seq<(K::V, int)>,
    pages: Seq<Seq<(K::V, Option<V::V>)>>,
    offset: int,
) -> Seq<(K::V, int)>
    decreases pages.len(),
{
    if pages.len() == 0 {
        index
    } else {
        indexed::<K, V>(
            upsert::<K, int>(index, pages[0][0].0, offset),
            pages.skip(1),
            offset + BLOCK_SIZE,
        )
    }
}

/// Puts an entry into an index.
pub fn index_put<K: Key>(index: &mut Vec<(K, usize)>, k: K, offset: usize)
    requires
        ascending::<K>(firsts(index_view(old(index)@))),
    ensures
        ascending::<K>(firsts(index_view(final(index)@))),
        index_view(final(index)@) == upsert::<K, int>(index_view(old(index)@), k@, offset as int),
{
    let ghost before = index_view(index@);
    proof {
        assert(firsts(before) =~= keys_of(index@));
        lemma_rank::<K>(firsts(before), k@);
        lemma_upsert::<K, int>(before, k@, offset as int);
    }
    let r = search(index, &k);
    if holds(index, r, &k) {
        index.set(r, (k, offset));
        assert(index_view(index@) =~= before.update(r as int, (k@, offset as int)));
    } else {
        index.insert(r, (k, offset));
        assert(index_view(index@) =~= before.insert(r as int, (k@, offset as int)));
    }
}

impl<K: Key, V: Stored> LSMTree<K, V> {
    /// Rebuilds the index from the run: one entry for each page, from its
    /// first key to its offset.
    pub fn build_index(&mut self, manager: &mut BufferManager)
        requires
            old(self).wf(),
            old(manager).wf(),
        ensures
            final(self).wf(),
            final(manager).wf(),
            final(manager)@ == scan::<K, V>(old(manager)@, old(self)@.disktable, 0).0,
            final(self)@ == (TreeView {
                index: indexed::<K, V>(
                    Seq::empty(),
                    scan::<K, V>(old(manager)@, old(self)@.disktable, 0).1,
                    0,
                ),
                ..old(self)@
            }),
    {
        let ghost file = self@.disktable;
        let ghost start = manager@;
        let ghost goal = scan::<K, V>(start, file, 0);
        let mut index: Vec<(K, usize)> = Vec::new();
        let mut offset: usize = 0;
        let mut done = false;
        assert(index_view(index@) =~= Seq::empty());
        while !done
            invariant
                manager.wf(),
                file == self.disktable@,
                ascending::<K>(firsts(index_view(index@))),
                !done ==> scan::<K, V>(manager@, file, offset as int).0 == goal.0,
                !done ==> indexed::<K, V>(
                    index_view(index@),
                    scan::<K, V>(manager@, file, offset as int).1,
                    offset as int,
                ) == indexed::<K, V>(Seq::empty(), goal.1, 0),
                done ==> manager@ == goal.0,
                done ==> index_view(index@) == indexed::<K, V>(Seq::empty(), goal.1, 0),
            decreases usize::MAX - offset + (if done { 0int } else { 1int }),
        {
            if offset > usize::MAX - BLOCK_SIZE {
                done = true;
            } else {
                let ghost now = manager@;
                match self.get_page(&self.disktable, manager, offset) {
                    None => {
                        done = true;
                    },
                    Some(page) => {
                        if page.cells.len() == 0 {
                            done = true;
                        } else {
                            let k = page.cells[0].0.duplicate();
                            proof {
                                let pages = scan::<K, V>(now, file, offset as int).1;
                                assert(page@[0].0 == page.cells@[0].0@);
                                assert(pages.skip(1) =~= scan::<K, V>(
                                    manager@,
                                    file,
                                    offset + BLOCK_SIZE,
                                ).1);
                            }
                            index_put(&mut index, k, offset);
                            offset = offset + BLOCK_SIZE;
                        }
                    },
                }
            }
        }
        self.disktable_index = index;
    }
}


/// A place in the run: the cells of the page being read and how many of them
/// were handed out.
pub struct RunCursor<K, V> {
    pub cells: Vec<(K, Option<V>)>,
    pub next: usize,
}

impl<K: Key, V: Stored> View for RunCursor<K, V> {
    type V = (Seq<(K::V, Option<V::V>)>, int);

    open spec fn view(&self) -> (Seq<(K::V, Option<V::V>)>, int) {
        (cells_view(self.cells@), self.next as int)
    }
}

/// The cells of all pages, page after page.
pub open spec fn flat<C>(pages: Seq<Seq<C>>) -> Seq<C>
    decreases pages.len(),
{
    if pages.len() == 0 {
        Seq::empty()
    } else {
        pages[0] + flat(pages.skip(1))
    }
}

/// What is left of the run behind a cursor whose page stands at `offset`,
/// and the pool after it was read. Without a cursor the whole run is left.
pub open spec fn remaining<K: Key, V: Stored>(
    pool: PoolView,
    file: Seq<char>,
    cursor: Option<(Seq<(K::V, Option<V::V>)>, int)>,
    offset: int,
) -> (PoolView, Seq<(K::V, Option<V::V>)>) {
    match cursor {
        None => (scan::<K, V>(pool, file, 0).0, flat(scan::<K, V>(pool, file, 0).1)),
        Some((cells, next)) => (
            scan::<K, V>(pool, file, offset + BLOCK_SIZE).0,
            cells.skip(next) + flat(scan::<K, V>(pool, file, offset + BLOCK_SIZE).1),
        ),
    }
}

/// The sorted union of two sorted sequences of entries; where both hold a
/// key, the entry of `a` stands.
pub open spec fn merge_seq<K: Key, T>(a: Seq<(K::V, T)>, b: Seq<(K::V, T)>) -> Seq<(K::V, T)>
    decreases a.len() + b.len(),
{
    if a.len() == 0 {
        b
    } else if b.len() == 0 {
        a
    } else if a[0].0 == b[0].0 {
        seq![a[0]] + merge_seq::<K, T>(a.skip(1), b.skip(1))
    } else if K::before(a[0].0, b[0].0) {
        seq![a[0]] + merge_seq::<K, T>(a.skip(1), b)
    } else {
        seq![b[0]] + merge_seq::<K, T>(a, b.skip(1))
    }
}

/// The pages that entries are packed into, `current` being the cells of the
/// page that is being filled: an entry goes into the current page if that
/// takes it; if not, the page is closed and the entry starts the next one.
pub open spec fn paged<K: Key, V: Stored>(
    entries: Seq<(K::V, Option<V::V>)>,
    current: Seq<(K::V, Option<V::V>)>,
) -> Seq<Seq<(K::V, Option<V::V>)>>
    decreases entries.len(),
{
    if entries.len() == 0 {
        if current.len() > 0 {
            seq![current]
        } else {
            Seq::empty()
        }
    } else {
        let e = entries[0];
        if accepts::<K, V>(BLOCK_SIZE - total_cost::<K, V>(current), e.0, e.1) {
            paged::<K, V>(entries.skip(1), upsert::<K, Option<V::V>>(current, e.0, e.1))
        } else {
            seq![current] + paged::<K, V>(
                entries.skip(1),
                upsert::<K, Option<V::V>>(Seq::empty(), e.0, e.1),
            )
        }
    }
}

/// The pool after the pages are written to `file` one block after another,
/// the first at `offset`. Writing stops where offsets end.
pub open spec fn stored<K: Key, V: Stored>(
    pool: PoolView,
    file: Seq<char>,
    pages: Seq<Seq<(K::V, Option<V::V>)>>,
    offset: int,
) -> PoolView
    decreases pages.len(),
{
    if pages.len() == 0 || offset + BLOCK_SIZE > usize::MAX {
        pool
    } else {
        stored::<K, V>(
            pool.store(file, offset, encode_spec::<K, V>(pages[0])),
            file,
            pages.skip(1),
            offset + BLOCK_SIZE,
        )
    }
}

/// The name of the file that a merge writes before it replaces the run.
pub open spec fn merge_name(run: Seq<char>) -> Seq<char> {
    run + "_merge"@
}

/// The pool after entries replace the run `run`: they are packed into pages
/// and written to the merge file, the run is removed, the merge file takes
/// its name, and the pool is told of the rename.
pub open spec fn replaced<K: Key, V: Stored>(
    pool: PoolView,
    run: Seq<char>,
    entries: Seq<(K::V, Option<V::V>)>,
) -> PoolView {
    let tmp = merge_name(run);
    let opened = pool.opened(tmp);
    let written = stored::<K, V>(opened, tmp, paged::<K, V>(entries, Seq::empty()), 0);
    written.removed(run).moved(tmp, run).renamed(tmp, run)
}

/// The pool after a merge: the run is read, merged with the memtable, and
/// replaced by the result.
pub open spec fn merged_pool<K: Key, V: Stored>(tree: TreeView<K::V, V::V>, pool: PoolView) -> PoolView {
    let (read, pages) = scan::<K, V>(pool, tree.disktable, 0);
    replaced::<K, V>(
        read,
        tree.disktable,
        merge_seq::<K, Option<V::V>>(tree.memtable, flat(pages)),
    )
}

/// Every entry fits into an empty page.
pub open spec fn all_fit<K: Key, V: Stored>(entries: Seq<(K::V, Option<V::V>)>) -> bool {
    forall|i: int| 0 <= i < entries.len() ==> cell_cost::<K, V>(#[trigger] entries[i]) <= BLOCK_SIZE
}

pub proof fn lemma_flat_first<C>(page: Seq<C>, rest: Seq<Seq<C>>)
    ensures
        flat(seq![page] + rest) == page + flat(rest),
{
    assert((seq![page] + rest).skip(1) =~= rest);
}

/// A copy of an entry.
pub fn duplicate_entry<K: Key, V: Stored>(e: &(K, Option<V>)) -> (r: (K, Option<V>))
    ensures
        r.0@ == e.0@,
        opt_view(r.1) == opt_view(e.1),
{
    (e.0.duplicate(), duplicate_opt(&e.1))
}

impl<K: Key, V: Stored> LSMTree<K, V> {
    /// The next entry of the run behind a cursor, with the cursor and the
    /// offset of its page moved on; without a cursor, the first entry of the
    /// run. `None` where the run has no further entry.
    ///
    /// A cursor that has cells left hands out the next of them: the offset
    /// stays and the pool is not touched. A cursor without cells left moves to
    /// the page one block further, and a start without a cursor to the page
    /// at offset 0: that page is fetched, its first cell is handed out, and
    /// the new cursor holds its cells.
    pub fn get_next_disk(
        &self,
        manager: &mut BufferManager,
        cursor: Option<RunCursor<K, V>>,
        offset: usize,
    ) -> (r: Option<((K, Option<V>), RunCursor<K, V>, usize)>)
        requires
            old(manager).wf(),
            cursor matches Some(c) ==> c.next <= c.cells@.len() && offset + BLOCK_SIZE
                <= usize::MAX && all_fit::<K, V>(c@.0),
        ensures
            final(manager).wf(),
            ({
                let left = remaining::<K, V>(
                    old(manager)@,
                    self@.disktable,
                    match cursor {
                        Some(c) => Some(c@),
                        None => None,
                    },
                    offset as int,
                );
                match r {
                    None => left.1.len() == 0 && final(manager)@ == left.0,
                    Some((e, c, at)) => {
                        &&& left.1.len() > 0
                        &&& (e.0@, opt_view(e.1)) == left.1[0]
                        &&& cell_cost::<K, V>(left.1[0]) <= BLOCK_SIZE
                        &&& c.next <= c.cells@.len()
                        &&& at + BLOCK_SIZE <= usize::MAX
                        &&& all_fit::<K, V>(c@.0)
                        &&& remaining::<K, V>(final(manager)@, self@.disktable, Some(c@), at as int)
                            == (left.0, left.1.skip(1))
                        &&& if cursor is Some && cursor->0.next < cursor->0.cells@.len() {
                            &&& at == offset
                            &&& final(manager)@ == old(manager)@
                            &&& c@ == (cursor->0@.0, cursor->0.next + 1)
                        } else {
                            &&& at == if cursor is Some {
                                offset + BLOCK_SIZE
                            } else {
                                0
                            }
                            &&& final(manager)@ == old(manager)@.fetch(
                                self@.disktable,
                                at as int,
                            ).0
                            &&& Some(c@.0) == page_of::<K, V>(
                                old(manager)@,
                                self@.disktable,
                                at as int,
                            )
                            &&& c.next == 1
                        }
                    },
                }
            }),
    {
        let ghost file = self@.disktable;
        let ghost start = manager@;
        let at: usize;
        match cursor {
            Some(c) => {
                if c.next < c.cells.len() {
                    let e = duplicate_entry(&c.cells[c.next]);
                    let moved = RunCursor { cells: c.cells, next: c.next + 1 };
                    proof {
                        let cells = c@.0;
                        let tail = flat(scan::<K, V>(start, file, offset + BLOCK_SIZE).1);
                        assert(cells[c.next as int] == (e.0@, opt_view(e.1)));
                        assert((cells.skip(c.next as int) + tail).skip(1) =~= cells.skip(
                            c.next + 1,
                        ) + tail);
                    }
                    return Some((e, moved, offset));
                }
                assert(c@.0.skip(c.next as int) =~= Seq::empty());
                at = offset + BLOCK_SIZE;
            },
            None => {
                at = 0;
            },
        }
        assert(remaining::<K, V>(
            start,
            file,
            match cursor {
                Some(c) => Some(c@),
                None => None,
            },
            offset as int,
        ).1 =~= flat(scan::<K, V>(start, file, at as int).1));
        if at > usize::MAX - BLOCK_SIZE {
            return None;
        }
        let page = match self.get_page(&self.disktable, manager, at) {
            None => { return None; },
            Some(p) => p,
        };
        if page.cells.len() == 0 {
            return None;
        }
        let e = duplicate_entry(&page.cells[0]);
        proof {
            let rest = scan::<K, V>(manager@, file, at + BLOCK_SIZE).1;
            lemma_flat_first(page@, rest);
            assert(page@[0] == (e.0@, opt_view(e.1)));
            assert((page@ + flat(rest)).skip(1) =~= page@.skip(1) + flat(rest));
            assert forall|i: int| 0 <= i < page@.len() implies cell_cost::<K, V>(
                #[trigger] page@[i],
            ) <= BLOCK_SIZE by {
                crate::slotted_page::lemma_total_cost_bounds::<K, V>(page@, i);
            }
        }
        Some((e, RunCursor { cells: page.cells, next: 1 }, at))
    }
}


pub proof fn lemma_merge_seq_fit<K: Key, V: Stored>(
    a: Seq<(K::V, Option<V::V>)>,
    b: Seq<(K::V, Option<V::V>)>,
)
    requires
        all_fit::<K, V>(a),
        all_fit::<K, V>(b),
    ensures
        all_fit::<K, V>(merge_seq::<K, Option<V::V>>(a, b)),
    decreases a.len() + b.len(),
{
    if a.len() > 0 && b.len() > 0 {
        let m = merge_seq::<K, Option<V::V>>(a, b);
        assert forall|i: int| 0 <= i < a.skip(1).len() implies cell_cost::<K, V>(
            #[trigger] a.skip(1)[i],
        ) <= BLOCK_SIZE by {
            assert(a.skip(1)[i] == a[i + 1]);
        }
        assert forall|i: int| 0 <= i < b.skip(1).len() implies cell_cost::<K, V>(
            #[trigger] b.skip(1)[i],
        ) <= BLOCK_SIZE by {
            assert(b.skip(1)[i] == b[i + 1]);
        }
        if a[0].0 == b[0].0 {
            lemma_merge_seq_fit::<K, V>(a.skip(1), b.skip(1));
        } else if K::before(a[0].0, b[0].0) {
            lemma_merge_seq_fit::<K, V>(a.skip(1), b);
        } else {
            lemma_merge_seq_fit::<K, V>(a, b.skip(1));
        }
        assert forall|i: int| 0 <= i < m.len() implies cell_cost::<K, V>(#[trigger] m[i])
            <= BLOCK_SIZE by {
            if i > 0 {
                let rest = m.skip(1);
                assert(m[i] == rest[i - 1]);
            }
        }
    }
}

impl<K: Key, V: Stored> LSMTree<K, V> {
    /// Reads the run and merges it with `mem`: the sorted union, in which an
    /// entry of `mem` stands for every key that both hold.
    pub fn merge_run(&self, manager: &mut BufferManager, mem: &Vec<(K, Option<V>)>) -> (out: Vec<
        (K, Option<V>),
    >)
        requires
            old(manager).wf(),
            all_fit::<K, V>(cells_view(mem@)),
        ensures
            final(manager).wf(),
            final(manager)@ == scan::<K, V>(old(manager)@, self@.disktable, 0).0,
            cells_view(out@) == merge_seq::<K, Option<V::V>>(
                cells_view(mem@),
                flat(scan::<K, V>(old(manager)@, self@.disktable, 0).1),
            ),
            all_fit::<K, V>(cells_view(out@)),
    {
        let ghost file = self@.disktable;
        let ghost memv = cells_view(mem@);
        let ghost goal = remaining::<K, V>(manager@, file, None, 0);
        let ghost whole = merge_seq::<K, Option<V::V>>(memv, goal.1);
        let mut out: Vec<(K, Option<V>)> = Vec::new();
        let mut i: usize = 0;
        let mut cur = self.get_next_disk(manager, None, 0);
        let ghost run = goal.1;
        assert(cells_view(out@) =~= Seq::empty());
        assert(memv.skip(0) =~= memv);
        while i < mem.len() || cur.is_some()
            invariant
                manager.wf(),
                file == self@.disktable,
                memv == cells_view(mem@),
                all_fit::<K, V>(memv),
                all_fit::<K, V>(cells_view(out@)),
                0 <= i <= mem@.len(),
                cells_view(out@) + merge_seq::<K, Option<V::V>>(memv.skip(i as int), run) == whole,
                match cur {
                    None => run.len() == 0 && manager@ == goal.0,
                    Some((e, c, at)) => {
                        &&& run.len() > 0
                        &&& (e.0@, opt_view(e.1)) == run[0]
                        &&& cell_cost::<K, V>(run[0]) <= BLOCK_SIZE
                        &&& c.next <= c.cells@.len()
                        &&& at + BLOCK_SIZE <= usize::MAX
                        &&& all_fit::<K, V>(c@.0)
                        &&& remaining::<K, V>(manager@, file, Some(c@), at as int) == (
                            goal.0,
                            run.skip(1),
                        )
                    },
                },
            decreases mem@.len() - i + run.len(),
        {
            let ghost outv = cells_view(out@);
            let ghost a = memv.skip(i as int);
            proof {
                if i < mem@.len() {
                    assert(a[0] == memv[i as int]);
                    assert(a.skip(1) =~= memv.skip(i + 1));
                    assert(memv[i as int] == (mem@[i as int].0@, opt_view(mem@[i as int].1)));
                }
            }
            match cur {
                None => {
                    let e = duplicate_entry(&mem[i]);
                    out.push(e);
                    i += 1;
                    cur = None;
                    proof {
                        assert(cells_view(out@) =~= outv.push(a[0]));
                        assert(merge_seq::<K, Option<V::V>>(a, run) =~= seq![a[0]] + merge_seq::<
                            K,
                            Option<V::V>,
                        >(a.skip(1), run));
                    }
                },
                Some((d, c, at)) => {
                    let take_mem: bool;
                    let take_run: bool;
                    if i == mem.len() {
                        take_mem = false;
                        take_run = true;
                    } else if mem[i].0.precedes(&d.0) {
                        take_mem = true;
                        take_run = false;
                    } else if d.0.precedes(&mem[i].0) {
                        take_mem = false;
                        take_run = true;
                    } else {
                        proof {
                            K::lemma_total(a[0].0, run[0].0);
                        }
                        take_mem = true;
                        take_run = true;
                    }
                    proof {
                        if i < mem@.len() {
                            K::lemma_irreflexive(a[0].0);
                            if K::before(a[0].0, run[0].0) && K::before(run[0].0, a[0].0) {
                                K::lemma_transitive(a[0].0, run[0].0, a[0].0);
                            }
                        }
                    }
                    if take_mem {
                        let e = duplicate_entry(&mem[i]);
                        out.push(e);
                        i += 1;
                        assert(cells_view(out@) =~= outv.push(a[0]));
                    } else {
                        let e = duplicate_entry(&d);
                        out.push(e);
                        assert(cells_view(out@) =~= outv.push(run[0]));
                    }
                    if take_run {
                        cur = self.get_next_disk(manager, Some(c), at);
                        proof {
                            run = run.skip(1);
                        }
                    } else {
                        cur = Some((d, c, at));
                    }
                },
            }
        }
        proof {
            assert(memv.skip(i as int) =~= Seq::empty());
            assert(cells_view(out@) =~= whole);
        }
        out
    }
}


/// The sum of two sizes, held to the range of `usize`.
pub fn add_clamped(a: usize, b: usize) -> (r: usize)
    ensures
        r == clamped(a + b),
{
    if a > usize::MAX - b {
        usize::MAX
    } else {
        a + b
    }
}

impl<K: Key, V: Stored> LSMTree<K, V> {
    /// Replaces the run by the given entries: packs them into pages, writes
    /// the pages to the merge file through the pool, removes the run, gives
    /// the merge file its name and tells the pool.
    pub fn write_btreemap_to_disk(&self, manager: &mut BufferManager, entries: Vec<(K, Option<V>)>)
        requires
            old(manager).wf(),
            all_fit::<K, V>(cells_view(entries@)),
        ensures
            final(manager).wf(),
            final(manager)@ == replaced::<K, V>(
                old(manager)@,
                self@.disktable,
                cells_view(entries@),
            ),
    {
        let ghost run = self@.disktable;
        let ghost all = cells_view(entries@);
        let mut tmp = self.disktable.clone();
        tmp.append("_merge");
        manager.create_file(&tmp);
        let ghost opened = manager@;
        let ghost goal = stored::<K, V>(opened, tmp@, paged::<K, V>(all, Seq::empty()), 0);
        let mut page: SlottedPage<K, V> = SlottedPage::new();
        let mut offset: usize = 0;
        let mut halted = false;
        let mut i: usize = 0;
        assert(all.skip(0) =~= all);
        while i < entries.len() && !halted
            invariant
                manager.wf(),
                page.wf(),
                all == cells_view(entries@),
                all_fit::<K, V>(all),
                0 <= i <= entries@.len(),
                offset % BLOCK_SIZE == 0,
                halted ==> manager@ == goal,
                !halted ==> stored::<K, V>(
                    manager@,
                    tmp@,
                    paged::<K, V>(all.skip(i as int), page@),
                    offset as int,
                ) == goal,
            decreases entries@.len() - i,
        {
            let ghost rest = all.skip(i as int);
            let ghost current = page@;
            proof {
                assert(rest[0] == all[i as int]);
                assert(rest.skip(1) =~= all.skip(i + 1));
                assert(all[i as int] == (entries@[i as int].0@, opt_view(entries@[i as int].1)));
            }
            let (k, v) = duplicate_entry(&entries[i]);
            match page.add_cell(k, v) {
                Ok(()) => {},
                Err((k, v)) => {
                    if offset > usize::MAX - BLOCK_SIZE {
                        halted = true;
                    } else {
                        let encoded = encode(&page);
                        manager.write(&tmp, offset, &encoded, 4096);
                        offset = offset + BLOCK_SIZE;
                        page = SlottedPage::new();
                        proof {
                            lemma_rank::<K>(firsts(page@), k@);
                            assert(paged::<K, V>(rest, current).skip(1) =~= paged::<K, V>(
                                rest.skip(1),
                                upsert::<K, Option<V::V>>(Seq::empty(), rest[0].0, rest[0].1),
                            ));
                        }
                        match page.add_cell(k, v) {
                            Ok(()) => {},
                            Err(_) => {
                                assert(false);
                            },
                        }
                    }
                },
            }
            i += 1;
        }
        let ghost before_last = manager@;
        let ghost last_pages = paged::<K, V>(all.skip(i as int), page@);
        proof {
            if !halted {
                assert(all.skip(i as int) =~= Seq::empty());
                assert(page@.len() == page.num_cells);
                assert(stored::<K, V>(before_last, tmp@, last_pages, offset as int) == goal);
                if page@.len() > 0 {
                    assert(last_pages =~= seq![page@]);
                    assert(last_pages.skip(1) =~= Seq::empty());
                    assert(last_pages[0] == page@);
                    if offset + BLOCK_SIZE <= usize::MAX {
                        let after = before_last.store(
                            tmp@,
                            offset as int,
                            encode_spec::<K, V>(page@),
                        );
                        assert(stored::<K, V>(after, tmp@, last_pages.skip(1), offset + BLOCK_SIZE)
                            == after);
                        assert(goal == after);
                    }
                } else {
                    assert(last_pages =~= Seq::empty());
                }
            }
        }
        if !halted && page.num_cells > 0 && offset <= usize::MAX - BLOCK_SIZE {
            let encoded = encode(&page);
            manager.write(&tmp, offset, &encoded, 4096);
        }
        assert(manager@ == goal);
        assert(tmp@ == merge_name(run));
        manager.remove_file(&self.disktable);
        manager.rename_file(&tmp, &self.disktable);
        manager.rename(&tmp, &self.disktable);
    }

    /// Folds the memtable into the run: the run is replaced by the sorted
    /// union of both, in which the memtable stands for every key that both
    /// hold, deletions included. The memtable is empty afterwards. The index
    /// is left as it was and describes the run no longer.
    pub fn merge(&mut self, manager: &mut BufferManager)
        requires
            old(self).wf(),
            old(manager).wf(),
        ensures
            final(self).wf(),
            final(manager).wf(),
            final(manager)@ == merged_pool::<K, V>(old(self)@, old(manager)@),
            final(self)@ == (TreeView {
                merge_count: clamped(old(self)@.merge_count + 1),
                ..old(self)@.cleared()
            }),
    {
        self.merge_count = add_clamped(self.merge_count, 1);
        let mut old_memtable: Vec<(K, Option<V>)> = Vec::new();
        std::mem::swap(&mut self.memtable, &mut old_memtable);
        self.memtable_size = 0;
        assert(cells_view(self.memtable@) =~= Seq::empty());
        let merged = self.merge_run(manager, &old_memtable);
        self.write_btreemap_to_disk(manager, merged);
    }

    /// Writes an entry: a value for the key, or `None` to delete it. The
    /// entry goes into the memtable; when the size of the memtable exceeds
    /// 2048 bytes for each block of the pool, the memtable is merged into the
    /// run and the index is rebuilt.
    pub fn put(&mut self, manager: &mut BufferManager, k: K, v: Option<V>)
        requires
            old(self).wf(),
            old(manager).wf(),
            cell_cost::<K, V>((k@, opt_view(v))) <= BLOCK_SIZE,
        ensures
            final(self).wf(),
            final(manager).wf(),
            (final(self)@, final(manager)@) == put_spec::<K, V>(
                old(self)@,
                old(manager)@,
                k@,
                opt_view(v),
            ),
    {
        let ghost before = self@.memtable;
        let ghost cell = (k@, opt_view(v));
        proof {
            assert(firsts(before) =~= keys_of(self.memtable@));
            lemma_rank::<K>(firsts(before), k@);
            lemma_upsert::<K, Option<V::V>>(before, k@, opt_view(v));
        }
        let key_size = k.serialize().len();
        let val_size = match &v {
            None => 1,
            Some(x) => add_clamped(x.serialize().len(), 1),
        };
        let r = search(&self.memtable, &k);
        let mut size = self.memtable_size;
        if holds(&self.memtable, r, &k) {
            assert(before[r as int] == (
                self.memtable@[r as int].0@,
                opt_view(self.memtable@[r as int].1),
            ));
            let freed = match &self.memtable[r].1 {
                None => 1,
                Some(x) => add_clamped(x.serialize().len(), 1),
            };
            size = if size >= freed {
                size - freed
            } else {
                0
            };
            self.memtable.set(r, (k, v));
            assert(cells_view(self.memtable@) =~= before.update(r as int, cell));
        } else {
            self.memtable.insert(r, (k, v));
            assert(cells_view(self.memtable@) =~= before.insert(r as int, cell));
        }
        size = add_clamped(size, add_clamped(key_size, val_size));
        self.memtable_size = size;
        proof {
            let after = cells_view(self.memtable@);
            assert forall|i: int| 0 <= i < after.len() implies cell_cost::<K, V>(
                #[trigger] after[i],
            ) <= BLOCK_SIZE by {
                if holds_at(before, r as int, k@) {
                    if i != r {
                        assert(after[i] == before[i]);
                    }
                } else {
                    if i < r {
                        assert(after[i] == before[i]);
                    } else if i > r {
                        assert(after[i] == before[i - 1]);
                    }
                }
            }
        }
        let limit = manager.num_blocks() as u128 * 2048;
        if size as u128 > limit {
            self.merge(manager);
            self.build_index(manager);
        }
    }

    /// A table over the run `disktables/<name>`, with its index built.
    pub fn new(name: String, manager: &mut BufferManager) -> (tree: Self)
        requires
            old(manager).wf(),
        ensures
            tree.wf(),
            final(manager).wf(),
            final(manager)@ == scan::<K, V>(old(manager)@, run_name(name@), 0).0,
            tree@ == (TreeView::<K::V, V::V> {
                memtable: Seq::empty(),
                memtable_size: 0,
                disktable: run_name(name@),
                index: indexed::<K, V>(
                    Seq::empty(),
                    scan::<K, V>(old(manager)@, run_name(name@), 0).1,
                    0,
                ),
                merge_count: 0,
            }),
    {
        let mut filepath = String::from_str("disktables/");
        filepath.append(name.as_str());
        let mut s = LSMTree {
            memtable: Vec::new(),
            memtable_size: 0,
            disktable: filepath,
            disktable_index: Vec::new(),
            merge_count: 0,
        };
        assert(cells_view(s.memtable@) =~= Seq::empty());
        assert(index_view(s.disktable_index@) =~= Seq::empty());
        s.build_index(manager);
        s
    }
}

/// The name of the run file of the table `name`.
pub open spec fn run_name(name: Seq<char>) -> Seq<char> {
    "disktables/"@ + name
}

/// The entry at `r` holds the key `k`.
pub open spec fn holds_at<KV, T>(s: Seq<(KV, T)>, r: int, k: KV) -> bool {
    r < s.len() && s[r].0 == k
}

/// The table and the pool after a put.
pub open spec fn put_spec<K: Key, V: Stored>(
    tree: TreeView<K::V, V::V>,
    pool: PoolView,
    k: K::V,
    v: Option<V::V>,
) -> (TreeView<K::V, V::V>, PoolView) {
    let written = TreeView {
        memtable: upsert::<K, Option<V::V>>(tree.memtable, k, v),
        memtable_size: size_after_put::<K, V>(tree.memtable, tree.memtable_size, k, v),
        ..tree
    };
    if written.memtable_size > pool.capacity * 2048 {
        let merged = merged_pool::<K, V>(written, pool);
        (
            TreeView {
                index: indexed::<K, V>(
                    Seq::empty(),
                    scan::<K, V>(merged, tree.disktable, 0).1,
                    0,
                ),
                merge_count: clamped(tree.merge_count + 1),
                ..written.cleared()
            },
            scan::<K, V>(merged, tree.disktable, 0).0,
        )
    } else {
        (written, pool)
    }
}


} // verus!
