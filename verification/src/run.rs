//! What a file holds as it is seen through the pool, and the state in which
//! the pool and the files together hold a run of pages.
use crate::buffer_manager::{block_ok, lemma_promote, lemma_take_in, written_back, BlockView, PoolView};
use crate::disk::disk_write;
use crate::fixed::{Key, Stored};
use crate::slotted_page::encode_spec;
use crate::BLOCK_SIZE;
use vstd::prelude::*;

verus! {

/// The block of `file` at `offset` as the pool would hand it out: the cached
/// block if there is one, else the block of the stored file, if the file
/// reaches that far.
pub open spec fn held(p: PoolView, file: Seq<char>, offset: int) -> Option<Seq<u8>> {
    if p.resident(file, offset) {
        Some(p.blocks[p.place(file, offset)].bytes)
    } else if p.disk.dom().contains(file) && offset + BLOCK_SIZE <= p.disk[file].len() {
        Some(p.disk[file].subrange(offset, offset + BLOCK_SIZE))
    } else {
        None
    }
}

/// The stored file holds the bytes of the block.
pub open spec fn on_disk(disk: Map<Seq<char>, Seq<u8>>, b: BlockView) -> bool {
    &&& disk.dom().contains(b.file)
    &&& b.offset + BLOCK_SIZE <= disk[b.file].len()
    &&& disk[b.file].subrange(b.offset, b.offset + BLOCK_SIZE) == b.bytes
}

/// The pool and the files hold the run `pages` in `file`: block `j` of the
/// file, as the pool hands it out, is the encoding of page `j`; nothing of
/// the file lies behind the last page; and every clean block of the file in
/// the pool is what the stored file holds.
pub open spec fn holds_run<K: Key, V: Stored>(
    p: PoolView,
    file: Seq<char>,
    pages: Seq<Seq<(K::V, Option<V::V>)>>,
) -> bool {
    &&& p.wf()
    &&& pages.len() * BLOCK_SIZE + BLOCK_SIZE <= usize::MAX
    &&& forall|j: int|
        0 <= j < pages.len() ==> held(p, file, #[trigger] (j * BLOCK_SIZE)) == Some(
            encode_spec::<K, V>(pages[j]),
        )
    &&& p.disk.dom().contains(file) ==> p.disk[file].len() <= pages.len() * BLOCK_SIZE
    &&& forall|i: int|
        0 <= i < p.blocks.len() && (#[trigger] p.blocks[i]).file == file ==> p.blocks[i].offset
            < pages.len() * BLOCK_SIZE && (!p.blocks[i].dirty ==> on_disk(p.disk, p.blocks[i]))
}

/// In a well-formed pool, the block that stands at `i` is the block that is
/// held under its identity.
pub proof fn lemma_held_at(p: PoolView, i: int)
    requires
        p.wf(),
        0 <= i < p.blocks.len(),
    ensures
        p.resident(p.blocks[i].file, p.blocks[i].offset),
        p.place(p.blocks[i].file, p.blocks[i].offset) == i,
        held(p, p.blocks[i].file, p.blocks[i].offset) == Some(p.blocks[i].bytes),
{
    let f = p.blocks[i].file;
    let o = p.blocks[i].offset;
    let j = p.place(f, o);
    assert(p.blocks[j].file == f && p.blocks[j].offset == o);
}

/// What a write to a stored file leaves of another block of the files.
pub proof fn lemma_write_elsewhere(
    disk: Map<Seq<char>, Seq<u8>>,
    g: Seq<char>,
    o: int,
    bytes: Seq<u8>,
    f: Seq<char>,
    x: int,
)
    requires
        o % (BLOCK_SIZE as int) == 0,
        x % (BLOCK_SIZE as int) == 0,
        0 <= o,
        0 <= x,
        bytes.len() == BLOCK_SIZE,
        !(g == f && o == x),
    ensures
        disk.dom().contains(f) ==> disk_write(disk, g, o, bytes).dom().contains(f),
        disk.dom().contains(f) && x + BLOCK_SIZE <= disk[f].len() ==> x + BLOCK_SIZE
            <= disk_write(disk, g, o, bytes)[f].len() && disk_write(disk, g, o, bytes)[f].subrange(
            x,
            x + BLOCK_SIZE,
        ) == disk[f].subrange(x, x + BLOCK_SIZE),
        g != f ==> (disk_write(disk, g, o, bytes).dom().contains(f) <==> disk.dom().contains(f)),
        g != f && disk.dom().contains(f) ==> disk_write(disk, g, o, bytes)[f] == disk[f],
{
    let after = disk_write(disk, g, o, bytes);
    if disk.dom().contains(f) && x + BLOCK_SIZE <= disk[f].len() && g == f {
        assert(x + BLOCK_SIZE <= o || o + BLOCK_SIZE <= x);
        assert(after[f].subrange(x, x + BLOCK_SIZE) =~= disk[f].subrange(x, x + BLOCK_SIZE));
    }
}

/// What a write to a stored file leaves at the place of the write.
pub proof fn lemma_write_here(disk: Map<Seq<char>, Seq<u8>>, g: Seq<char>, o: int, bytes: Seq<u8>)
    requires
        0 <= o,
        bytes.len() == BLOCK_SIZE,
    ensures
        disk_write(disk, g, o, bytes).dom().contains(g),
        o + BLOCK_SIZE <= disk_write(disk, g, o, bytes)[g].len(),
        disk_write(disk, g, o, bytes)[g].subrange(o, o + BLOCK_SIZE) == bytes,
        disk_write(disk, g, o, bytes)[g].len() == (if disk.dom().contains(g) && disk[g].len() >= o
            + BLOCK_SIZE {
            disk[g].len() as int
        } else {
            o + BLOCK_SIZE
        }),
{
    let after = disk_write(disk, g, o, bytes);
    assert(after[g].subrange(o, o + BLOCK_SIZE) =~= bytes);
}

/// A block-aligned offset below `n` blocks ends within `n` blocks, and is the
/// start of the block of its number.
pub proof fn lemma_aligned(o: int, n: int)
    requires
        o % (BLOCK_SIZE as int) == 0,
        0 <= o,
    ensures
        o < n * BLOCK_SIZE ==> o + BLOCK_SIZE <= n * BLOCK_SIZE,
        (o / (BLOCK_SIZE as int)) * BLOCK_SIZE == o,
        0 <= o / (BLOCK_SIZE as int),
{
}

/// The block of a given number starts at a block-aligned offset.
pub proof fn lemma_block_start(j: int)
    requires
        0 <= j,
    ensures
        (j * BLOCK_SIZE) % (BLOCK_SIZE as int) == 0,
        (j * BLOCK_SIZE) / (BLOCK_SIZE as int) == j,
        0 <= j * BLOCK_SIZE,
{
}

/// The blocks of a pool after one is put in: the new block stands first, the
/// blocks of before follow it, but for the last if the pool was full.
pub proof fn lemma_take_in_blocks(p: PoolView, b: BlockView)
    requires
        p.wf(),
    ensures
        p.take_in(b).blocks[0] == b,
        p.take_in(b).blocks.len() == (if p.blocks.len() >= p.capacity {
            p.blocks.len()
        } else {
            p.blocks.len() + 1
        }),
        forall|i: int|
            0 <= i < p.take_in(b).blocks.len() - 1 ==> #[trigger] p.take_in(b).blocks[i + 1]
                == p.blocks[i],
        p.take_in(b).disk == (if p.blocks.len() >= p.capacity {
            written_back(p.disk, p.blocks.last())
        } else {
            p.disk
        }),
{
    let q = p.take_in(b).blocks;
    assert forall|i: int| 0 <= i < q.len() - 1 implies #[trigger] q[i + 1] == p.blocks[i] by {}
}

/// Putting a block into the pool keeps the run that the pool holds, or
/// extends it by a page if the block is the encoding of that page and stands
/// behind the last page. A block of the run's file must be the encoding of
/// the page of its number, and what the stored file holds if it is clean.
pub proof fn lemma_take_in_run<K: Key, V: Stored>(
    p: PoolView,
    b: BlockView,
    f: Seq<char>,
    pages: Seq<Seq<(K::V, Option<V::V>)>>,
    pages2: Seq<Seq<(K::V, Option<V::V>)>>,
)
    requires
        holds_run::<K, V>(p, f, pages),
        block_ok(b),
        !p.resident(b.file, b.offset),
        pages2.len() * BLOCK_SIZE + BLOCK_SIZE <= usize::MAX,
        pages2 == pages || (pages2.len() == pages.len() + 1 && pages2.drop_last() == pages
            && b.file == f && b.offset == pages.len() * BLOCK_SIZE),
        b.file == f ==> b.offset < pages2.len() * BLOCK_SIZE && b.bytes == encode_spec::<K, V>(
            pages2[b.offset / (BLOCK_SIZE as int)],
        ) && (!b.dirty ==> on_disk(p.disk, b)),
    ensures
        holds_run::<K, V>(p.take_in(b), f, pages2),
{
    let q = p.take_in(b);
    let n = pages.len() as int;
    let m = pages2.len() as int;
    let full = p.blocks.len() >= p.capacity;
    let last = p.blocks.len() - 1;
    lemma_take_in(p, b);
    lemma_take_in_blocks(p, b);
    lemma_aligned(b.offset, m);
    if full {
        let e = p.blocks[last];
        lemma_held_at(p, last);
        lemma_aligned(e.offset, n);
        if e.dirty {
            lemma_write_here(p.disk, e.file, e.offset, e.bytes);
        }
    }
    // every block of the pool is the new block or a block of before
    assert forall|x: int| 0 <= x < q.blocks.len() implies #[trigger] q.blocks[x] == b || exists|
        i: int,
    |
        0 <= i < p.blocks.len() && (full ==> i != last) && q.blocks[x] == #[trigger] p.blocks[i] by {
        if x > 0 {
            assert(q.blocks[(x - 1) + 1] == p.blocks[x - 1]);
        }
    }
    // a write-back leaves every other block of the stored files as it was
    assert forall|c: BlockView|
        block_ok(c) && on_disk(p.disk, c) && !(full && c.file == p.blocks[last].file && c.offset
            == p.blocks[last].offset) implies #[trigger] on_disk(q.disk, c) by {
        if full && p.blocks[last].dirty {
            let e = p.blocks[last];
            lemma_write_elsewhere(p.disk, e.file, e.offset, e.bytes, c.file, c.offset);
        }
    }
    assert forall|j: int| 0 <= j < m implies held(q, f, #[trigger] (j * BLOCK_SIZE)) == Some(
        encode_spec::<K, V>(pages2[j]),
    ) by {
        let x = j * BLOCK_SIZE;
        lemma_block_start(j);
        if b.file == f && b.offset == x {
            lemma_held_at(q, 0);
        } else {
            assert(j < n);
            assert(pages2[j] == pages[j]) by {
                if pages2 != pages {
                    assert(pages2.drop_last()[j] == pages2[j]);
                }
            }
            assert(held(p, f, j * BLOCK_SIZE) == Some(encode_spec::<K, V>(pages[j])));
            if p.resident(f, x) {
                let i = p.place(f, x);
                if full && i == last {
                    if q.resident(f, x) {
                        let y = q.place(f, x);
                        assert(q.blocks[y].file == f && q.blocks[y].offset == x);
                    }
                    assert(!q.resident(f, x));
                } else {
                    assert(q.blocks[i + 1] == p.blocks[i]);
                    lemma_held_at(q, i + 1);
                }
            } else {
                if q.resident(f, x) {
                    let y = q.place(f, x);
                    assert(q.blocks[y].file == f && q.blocks[y].offset == x);
                }
                assert(!q.resident(f, x));
                let c = BlockView {
                    file: f,
                    offset: x,
                    bytes: p.disk[f].subrange(x, x + BLOCK_SIZE),
                    dirty: false,
                };
                assert(on_disk(p.disk, c));
                if full {
                    let e = p.blocks[last];
                    assert(!(e.file == f && e.offset == x));
                }
                assert(on_disk(q.disk, c));
            }
        }
    }
    assert(q.disk.dom().contains(f) ==> q.disk[f].len() <= m * BLOCK_SIZE) by {
        if full && p.blocks[last].dirty {
            let e = p.blocks[last];
            if e.file != f {
                lemma_write_elsewhere(p.disk, e.file, e.offset, e.bytes, f, 0);
            }
        }
    }
    assert forall|i: int|
        0 <= i < q.blocks.len() && (#[trigger] q.blocks[i]).file == f implies q.blocks[i].offset < m
            * BLOCK_SIZE && (!q.blocks[i].dirty ==> on_disk(q.disk, q.blocks[i])) by {
        let c = q.blocks[i];
        if i > 0 {
            assert(q.blocks[(i - 1) + 1] == p.blocks[i - 1]);
            assert(c == p.blocks[i - 1]);
            if full {
                assert(i - 1 != last);
            }
        }
    }
}


/// A pool with the same files and the same blocks in another order holds the
/// same run.
pub proof fn lemma_reordered_run<K: Key, V: Stored>(
    p: PoolView,
    q: PoolView,
    f: Seq<char>,
    pages: Seq<Seq<(K::V, Option<V::V>)>>,
)
    requires
        holds_run::<K, V>(p, f, pages),
        q.wf(),
        q.disk == p.disk,
        forall|i: int|
            0 <= i < q.blocks.len() ==> exists|j: int|
                0 <= j < p.blocks.len() && #[trigger] q.blocks[i] == #[trigger] p.blocks[j],
        forall|j: int|
            0 <= j < p.blocks.len() ==> exists|i: int|
                0 <= i < q.blocks.len() && #[trigger] q.blocks[i] == #[trigger] p.blocks[j],
    ensures
        holds_run::<K, V>(q, f, pages),
        forall|g: Seq<char>, x: int| #[trigger] held(q, g, x) == held(p, g, x),
{
    assert forall|g: Seq<char>, x: int| #[trigger] held(q, g, x) == held(p, g, x) by {
        if p.resident(g, x) {
            let j = p.place(g, x);
            let i = choose|i: int| 0 <= i < q.blocks.len() && #[trigger] q.blocks[i] == p.blocks[j];
            lemma_held_at(q, i);
        } else if q.resident(g, x) {
            let i = q.place(g, x);
            let j = choose|j: int| 0 <= j < p.blocks.len() && q.blocks[i] == #[trigger] p.blocks[j];
            lemma_held_at(p, j);
        }
    }
    assert forall|j: int| 0 <= j < pages.len() implies held(q, f, #[trigger] (j * BLOCK_SIZE))
        == Some(encode_spec::<K, V>(pages[j])) by {
        assert(held(q, f, j * BLOCK_SIZE) == held(p, f, j * BLOCK_SIZE));
    }
    assert forall|i: int|
        0 <= i < q.blocks.len() && (#[trigger] q.blocks[i]).file == f implies q.blocks[i].offset
            < pages.len() * BLOCK_SIZE && (!q.blocks[i].dirty ==> on_disk(q.disk, q.blocks[i])) by {
        let j = choose|j: int| 0 <= j < p.blocks.len() && q.blocks[i] == #[trigger] p.blocks[j];
        assert(p.blocks[j].file == f);
    }
}

/// Opening a file keeps the run that the pool holds.
pub proof fn lemma_touch_run<K: Key, V: Stored>(
    p: PoolView,
    g: Seq<char>,
    f: Seq<char>,
    pages: Seq<Seq<(K::V, Option<V::V>)>>,
)
    requires
        holds_run::<K, V>(p, f, pages),
    ensures
        holds_run::<K, V>(p.opened(g), f, pages),
        forall|x: int|
            0 <= x ==> #[trigger] held(p.opened(g), f, x) == held(
                p,
                f,
                x,
            ),
{
    let q = p.opened(g);
    assert(q.blocks == p.blocks);
    assert(q.wf());
    assert forall|x: int| 0 <= x implies #[trigger] held(q, f, x) == held(p, f, x) by {
        if p.resident(f, x) {
            let i = p.place(f, x);
            assert(q.blocks[i].file == f && q.blocks[i].offset == x);
            lemma_held_at(q, i);
            lemma_held_at(p, i);
        } else if q.resident(f, x) {
            let i = q.place(f, x);
            assert(p.blocks[i].file == f && p.blocks[i].offset == x);
        }
    }
    assert forall|j: int| 0 <= j < pages.len() implies held(q, f, #[trigger] (j * BLOCK_SIZE))
        == Some(encode_spec::<K, V>(pages[j])) by {
        lemma_block_start(j);
        assert(held(q, f, j * BLOCK_SIZE) == held(p, f, j * BLOCK_SIZE));
    }
}

/// A request for a block keeps the run that the pool holds, and a block of
/// the run's file is handed out as it is held.
pub proof fn lemma_fetch_run<K: Key, V: Stored>(
    p: PoolView,
    g: Seq<char>,
    o: int,
    f: Seq<char>,
    pages: Seq<Seq<(K::V, Option<V::V>)>>,
)
    requires
        holds_run::<K, V>(p, f, pages),
        0 <= o,
    ensures
        holds_run::<K, V>(p.fetch(g, o).0, f, pages),
        g == f ==> held(p, f, crate::buffer_manager::aligned(o)) == (match p.fetch(g, o).1 {
            Some(b) => Some(b.bytes),
            None => None,
        }),
{
    let at = crate::buffer_manager::aligned(o);
    assert(at % (BLOCK_SIZE as int) == 0 && 0 <= at);
    if p.resident(g, at) {
        let i = p.place(g, at);
        let q = p.promote(i);
        lemma_promote(p, i);
        assert forall|x: int| 0 <= x < q.blocks.len() implies exists|j: int|
            0 <= j < p.blocks.len() && #[trigger] q.blocks[x] == #[trigger] p.blocks[j] by {
            let j = if x == 0 {
                i
            } else if x <= i {
                x - 1
            } else {
                x
            };
            assert(q.blocks[x] == p.blocks[j]);
        }
        assert forall|j: int| 0 <= j < p.blocks.len() implies exists|x: int|
            0 <= x < q.blocks.len() && #[trigger] q.blocks[x] == #[trigger] p.blocks[j] by {
            let x = if j == i {
                0
            } else if j < i {
                j + 1
            } else {
                j
            };
            assert(q.blocks[x] == p.blocks[j]);
        }
        lemma_reordered_run::<K, V>(p, q, f, pages);
    } else {
        let opened = p.opened(g);
        let disk = opened.disk;
        lemma_touch_run::<K, V>(p, g, f, pages);
        assert(held(opened, f, at) == held(p, f, at));
        assert(!opened.resident(g, at));
        if at + BLOCK_SIZE > disk[g].len() {
        } else {
            let b = BlockView {
                file: g,
                offset: at,
                bytes: disk[g].subrange(at, at + BLOCK_SIZE),
                dirty: false,
            };
            if g == f {
                lemma_aligned(at, pages.len() as int);
                let j = at / (BLOCK_SIZE as int);
                assert(j * BLOCK_SIZE == at);
                assert(held(opened, f, j * BLOCK_SIZE) == Some(encode_spec::<K, V>(pages[j])));
            }
            lemma_take_in_run::<K, V>(opened, b, f, pages, pages);
        }
    }
}


} // verus!
