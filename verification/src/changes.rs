//! The changes that the pool notes for the caller: carried out in their
//! order on the files as they were when the caller last took the changes,
//! they give the files as the pool holds them.
use crate::buffer_manager::{
    aligned, all_logged_back, all_written_back, blank, ActionView, BlockView, PoolView,
};
use crate::disk::{disk_rename, disk_touch, disk_write, spliced};
use crate::fixed::{Key, Stored};
use crate::history::{after, step_spec, Step};
use crate::lsm_tree::{
    flat, get_spec, merge_name, merge_seq, merged_pool, paged, put_spec, replaced, scan,
    size_after_put, stored, TreeView,
};
use crate::ordered::{floor, upsert};
use crate::slotted_page::encode_spec;
use crate::BLOCK_SIZE;
use vstd::prelude::*;

verus! {

/// The files after one change.
pub open spec fn applied(disk: Map<Seq<char>, Seq<u8>>, a: ActionView) -> Map<Seq<char>, Seq<u8>> {
    match a {
        ActionView::Create { name } => disk_touch(disk, name),
        ActionView::Write { name, offset, bytes } => disk_write(disk, name, offset, bytes),
        ActionView::Remove { name } => disk.remove(name),
        ActionView::Rename { from, to } => disk_rename(disk, from, to),
    }
}

/// The files after the changes, oldest first.
pub open spec fn replayed(disk: Map<Seq<char>, Seq<u8>>, log: Seq<ActionView>) -> Map<
    Seq<char>,
    Seq<u8>,
>
    decreases log.len(),
{
    if log.len() == 0 {
        disk
    } else {
        applied(replayed(disk, log.drop_last()), log.last())
    }
}

/// The files of the pool are what its changes make of the files `base`.
pub open spec fn follows(p: PoolView, base: Map<Seq<char>, Seq<u8>>) -> bool {
    replayed(base, p.log) == p.disk
}

pub proof fn lemma_replayed_push(base: Map<Seq<char>, Seq<u8>>, log: Seq<ActionView>, a: ActionView)
    ensures
        replayed(base, log.push(a)) == applied(replayed(base, log), a),
{
    assert(log.push(a).drop_last() =~= log);
}

/// Once the caller took the changes, the files of the pool are the base of
/// the changes to come.
pub proof fn law_taken(p: PoolView)
    ensures
        follows(p.taken(), p.disk),
{
}

/// Opening a file keeps the files what the changes make of the base.
pub proof fn law_opened(p: PoolView, base: Map<Seq<char>, Seq<u8>>, name: Seq<char>)
    requires
        follows(p, base),
    ensures
        follows(p.opened(name), base),
{
    lemma_replayed_push(base, p.log, ActionView::Create { name });
}

/// Removing a file keeps the files what the changes make of the base.
pub proof fn law_removed(p: PoolView, base: Map<Seq<char>, Seq<u8>>, name: Seq<char>)
    requires
        follows(p, base),
    ensures
        follows(p.removed(name), base),
{
    lemma_replayed_push(base, p.log, ActionView::Remove { name });
    if !p.disk.dom().contains(name) {
        assert(p.disk.remove(name) =~= p.disk);
    }
}

/// Renaming a file keeps the files what the changes make of the base.
pub proof fn law_moved(p: PoolView, base: Map<Seq<char>, Seq<u8>>, from: Seq<char>, to: Seq<char>)
    requires
        follows(p, base),
    ensures
        follows(p.moved(from, to), base),
{
    lemma_replayed_push(base, p.log, ActionView::Rename { from, to });
}

/// Telling the pool of a rename changes neither the files nor the changes.
pub proof fn law_renamed(p: PoolView, base: Map<Seq<char>, Seq<u8>>, from: Seq<char>, to: Seq<char>)
    requires
        follows(p, base),
    ensures
        follows(p.renamed(from, to), base),
{
}

/// Putting a block in keeps the files what the changes make of the base.
pub proof fn lemma_take_in_follows(p: PoolView, base: Map<Seq<char>, Seq<u8>>, b: BlockView)
    requires
        follows(p, base),
    ensures
        follows(p.take_in(b), base),
{
    if p.blocks.len() >= p.capacity && p.blocks.len() > 0 {
        let last = p.blocks.last();
        lemma_replayed_push(
            base,
            p.log,
            ActionView::Write { name: last.file, offset: last.offset, bytes: last.bytes },
        );
    }
}

/// A request for a block keeps the files what the changes make of the base.
pub proof fn law_fetch(p: PoolView, base: Map<Seq<char>, Seq<u8>>, file: Seq<char>, offset: int)
    requires
        follows(p, base),
    ensures
        follows(p.fetch(file, offset).0, base),
{
    law_opened(p, base, file);
    match p.fetch(file, offset).1 {
        Some(b) => {
            lemma_take_in_follows(p.opened(file), base, b);
        },
        None => {},
    }
}

/// A write keeps the files what the changes make of the base.
pub proof fn law_store(
    p: PoolView,
    base: Map<Seq<char>, Seq<u8>>,
    file: Seq<char>,
    offset: int,
    buf: Seq<u8>,
)
    requires
        follows(p, base),
    ensures
        follows(p.store(file, offset, buf), base),
{
    let at = aligned(offset);
    law_fetch(p, base, file, at);
    let (pool, found) = p.fetch(file, at);
    if found is None {
        lemma_take_in_follows(
            pool,
            base,
            BlockView {
                file,
                offset: at,
                bytes: spliced(blank(), offset - at, buf),
                dirty: true,
            },
        );
    }
}

pub proof fn lemma_written_back_follows(
    disk: Map<Seq<char>, Seq<u8>>,
    log: Seq<ActionView>,
    base: Map<Seq<char>, Seq<u8>>,
    blocks: Seq<BlockView>,
)
    requires
        replayed(base, log) == disk,
    ensures
        replayed(base, all_logged_back(log, blocks)) == all_written_back(disk, blocks),
    decreases blocks.len(),
{
    if blocks.len() > 0 {
        let b = blocks.last();
        lemma_written_back_follows(disk, log, base, blocks.drop_last());
        lemma_replayed_push(
            base,
            all_logged_back(log, blocks.drop_last()),
            ActionView::Write { name: b.file, offset: b.offset, bytes: b.bytes },
        );
    }
}

/// A flush keeps the files what the changes make of the base.
pub proof fn law_flushed(p: PoolView, base: Map<Seq<char>, Seq<u8>>)
    requires
        follows(p, base),
    ensures
        follows(p.flushed(), base),
{
    lemma_written_back_follows(p.disk, p.log, base, p.blocks);
}

/// Reading a run keeps the files what the changes make of the base.
pub proof fn lemma_scan_follows<K: Key, V: Stored>(
    p: PoolView,
    base: Map<Seq<char>, Seq<u8>>,
    file: Seq<char>,
    offset: int,
)
    requires
        follows(p, base),
    ensures
        follows(scan::<K, V>(p, file, offset).0, base),
    decreases usize::MAX - offset,
{
    if !(offset < 0 || offset + BLOCK_SIZE > usize::MAX) {
        law_fetch(p, base, file, offset);
        lemma_scan_follows::<K, V>(p.fetch(file, offset).0, base, file, offset + BLOCK_SIZE);
    }
}

/// Writing pages keeps the files what the changes make of the base.
pub proof fn lemma_stored_follows<K: Key, V: Stored>(
    p: PoolView,
    base: Map<Seq<char>, Seq<u8>>,
    file: Seq<char>,
    pages: Seq<Seq<(K::V, Option<V::V>)>>,
    offset: int,
)
    requires
        follows(p, base),
    ensures
        follows(stored::<K, V>(p, file, pages, offset), base),
    decreases pages.len(),
{
    if !(pages.len() == 0 || offset + BLOCK_SIZE > usize::MAX) {
        let block = encode_spec::<K, V>(pages[0]);
        law_store(p, base, file, offset, block);
        lemma_stored_follows::<K, V>(
            p.store(file, offset, block),
            base,
            file,
            pages.skip(1),
            offset + BLOCK_SIZE,
        );
    }
}

/// Replacing a run keeps the files what the changes make of the base.
pub proof fn lemma_replaced_follows<K: Key, V: Stored>(
    p: PoolView,
    base: Map<Seq<char>, Seq<u8>>,
    run: Seq<char>,
    entries: Seq<(K::V, Option<V::V>)>,
)
    requires
        follows(p, base),
    ensures
        follows(replaced::<K, V>(p, run, entries), base),
{
    let tmp = merge_name(run);
    let pages = paged::<K, V>(entries, Seq::empty());
    law_opened(p, base, tmp);
    lemma_stored_follows::<K, V>(p.opened(tmp), base, tmp, pages, 0);
    let written = stored::<K, V>(p.opened(tmp), tmp, pages, 0);
    law_removed(written, base, run);
    law_moved(written.removed(run), base, tmp, run);
}

/// A lookup, a put and a merge keep the files what the changes make of the
/// base: whatever a table does to the pool, the caller brings storage up to
/// the files of the pool by carrying out the changes in their order.
pub proof fn law_table_follows<K: Key, V: Stored>(
    tree: TreeView<K::V, V::V>,
    p: PoolView,
    base: Map<Seq<char>, Seq<u8>>,
    k: K::V,
    v: Option<V::V>,
)
    requires
        follows(p, base),
    ensures
        follows(get_spec::<K, V>(tree, p, k).0, base),
        follows(merged_pool::<K, V>(tree, p), base),
        follows(put_spec::<K, V>(tree, p, k, v).1, base),
{
    match floor::<K, int>(tree.index, k) {
        Some(offset) => {
            law_fetch(p, base, tree.disktable, offset);
        },
        None => {},
    }
    lemma_merged_follows::<K, V>(tree, p, base);
    let written = TreeView {
        memtable: upsert::<K, Option<V::V>>(tree.memtable, k, v),
        memtable_size: size_after_put::<K, V>(tree.memtable, tree.memtable_size, k, v),
        ..tree
    };
    lemma_merged_follows::<K, V>(written, p, base);
    lemma_scan_follows::<K, V>(merged_pool::<K, V>(written, p), base, tree.disktable, 0);
}

/// A merge keeps the files what the changes make of the base.
pub proof fn lemma_merged_follows<K: Key, V: Stored>(
    tree: TreeView<K::V, V::V>,
    p: PoolView,
    base: Map<Seq<char>, Seq<u8>>,
)
    requires
        follows(p, base),
    ensures
        follows(merged_pool::<K, V>(tree, p), base),
{
    lemma_scan_follows::<K, V>(p, base, tree.disktable, 0);
    let (read, pages) = scan::<K, V>(p, tree.disktable, 0);
    lemma_replaced_follows::<K, V>(
        read,
        base,
        tree.disktable,
        merge_seq::<K, Option<V::V>>(tree.memtable, flat(pages)),
    );
}

/// Any number of puts and merges keep the files what the changes make of
/// the base.
pub proof fn law_history_follows<K: Key, V: Stored>(
    tree: TreeView<K::V, V::V>,
    p: PoolView,
    base: Map<Seq<char>, Seq<u8>>,
    steps: Seq<Step<K::V, V::V>>,
)
    requires
        follows(p, base),
    ensures
        follows(after::<K, V>(tree, p, steps).1, base),
    decreases steps.len(),
{
    if steps.len() > 0 {
        law_history_follows::<K, V>(tree, p, base, steps.drop_last());
        let (t, q) = after::<K, V>(tree, p, steps.drop_last());
        match steps.last() {
            Step::Put(k, v) => {
                law_table_follows::<K, V>(t, q, base, k, v);
            },
            Step::Merge => {
                lemma_merged_follows::<K, V>(t, q, base);
            },
        }
        assert(after::<K, V>(tree, p, steps).1 == step_spec::<K, V>(t, q, steps.last()).1);
    }
}

} // verus!
