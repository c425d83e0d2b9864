//! The buffer pool: a bounded cache of file blocks, most recently used
//! first, that writes dirty blocks back when they are evicted or flushed.
use crate::disk::{disk_rename, disk_touch, disk_write, files_fit, spliced, Disk};
use crate::layout::copy_bytes;
use crate::BLOCK_SIZE;
use std::collections::VecDeque;
use vstd::prelude::*;

verus! {

/// One cached block of a file.
pub struct Block {
    pub bytes: Vec<u8>,
    pub key: (String, usize),
    pub dirty_bit: bool,
}

/// A block as a value: the file and offset that identify it, its bytes, and
/// whether it differs from what the file holds.
pub struct BlockView {
    pub file: Seq<char>,
    pub offset: int,
    pub bytes: Seq<u8>,
    pub dirty: bool,
}

impl View for Block {
    type V = BlockView;

    open spec fn view(&self) -> BlockView {
        BlockView {
            file: self.key.0@,
            offset: self.key.1 as int,
            bytes: self.bytes@,
            dirty: self.dirty_bit,
        }
    }
}

/// A change that the pool made to its files, for the caller to carry out on
/// storage: a file is created empty, a block is written at its offset, a
/// file is removed, or a file takes another name.
pub enum FileAction {
    Create { name: String },
    Write { name: String, offset: usize, bytes: Vec<u8> },
    Remove { name: String },
    Rename { from: String, to: String },
}

/// A change to the files as a value.
pub enum ActionView {
    Create { name: Seq<char> },
    Write { name: Seq<char>, offset: int, bytes: Seq<u8> },
    Remove { name: Seq<char> },
    Rename { from: Seq<char>, to: Seq<char> },
}

impl View for FileAction {
    type V = ActionView;

    open spec fn view(&self) -> ActionView {
        match *self {
            FileAction::Create { name } => ActionView::Create { name: name@ },
            FileAction::Write { name, offset, bytes } => ActionView::Write {
                name: name@,
                offset: offset as int,
                bytes: bytes@,
            },
            FileAction::Remove { name } => ActionView::Remove { name: name@ },
            FileAction::Rename { from, to } => ActionView::Rename { from: from@, to: to@ },
        }
    }
}

/// The pool as a value: its capacity, its blocks from the most to the least
/// recently used, the files behind it, and the changes that it made to the
/// files since the caller last took them, oldest first.
pub struct PoolView {
    pub capacity: int,
    pub blocks: Seq<BlockView>,
    pub disk: Map<Seq<char>, Seq<u8>>,
    pub log: Seq<ActionView>,
}

/// `offset` rounded down to a block boundary.
pub open spec fn aligned(offset: int) -> int {
    offset - offset % (BLOCK_SIZE as int)
}

/// A block of zeros.
pub open spec fn blank() -> Seq<u8> {
    Seq::new(BLOCK_SIZE as nat, |i: int| 0u8)
}

/// The files after a block leaves the pool: written back if it was dirty.
pub open spec fn written_back(disk: Map<Seq<char>, Seq<u8>>, b: BlockView) -> Map<
    Seq<char>,
    Seq<u8>,
> {
    if b.dirty {
        disk_write(disk, b.file, b.offset, b.bytes)
    } else {
        disk
    }
}

/// The changes after a block leaves the pool: its write, if it was dirty.
pub open spec fn logged_back(log: Seq<ActionView>, b: BlockView) -> Seq<ActionView> {
    if b.dirty {
        log.push(ActionView::Write { name: b.file, offset: b.offset, bytes: b.bytes })
    } else {
        log
    }
}

/// The changes after every block of `blocks` is written back, in order.
pub open spec fn all_logged_back(log: Seq<ActionView>, blocks: Seq<BlockView>) -> Seq<ActionView>
    decreases blocks.len(),
{
    if blocks.len() == 0 {
        log
    } else {
        logged_back(all_logged_back(log, blocks.drop_last()), blocks.last())
    }
}

/// The files after every block of `blocks` is written back, in order.
pub open spec fn all_written_back(disk: Map<Seq<char>, Seq<u8>>, blocks: Seq<BlockView>) -> Map<
    Seq<char>,
    Seq<u8>,
>
    decreases blocks.len(),
{
    if blocks.len() == 0 {
        disk
    } else {
        written_back(all_written_back(disk, blocks.drop_last()), blocks.last())
    }
}

/// The blocks after a rename: those of `to` are dropped, those of `from` now
/// belong to `to`.
pub open spec fn renamed_blocks(blocks: Seq<BlockView>, from: Seq<char>, to: Seq<char>) -> Seq<
    BlockView,
>
    decreases blocks.len(),
{
    if blocks.len() == 0 {
        Seq::empty()
    } else {
        let front = renamed_blocks(blocks.drop_last(), from, to);
        let b = blocks.last();
        if b.file == to {
            front
        } else if b.file == from {
            front.push(BlockView { file: to, ..b })
        } else {
            front.push(b)
        }
    }
}

impl PoolView {
    /// Some block of the pool has this identity.
    pub open spec fn resident(self, file: Seq<char>, offset: int) -> bool {
        exists|i: int|
            0 <= i < self.blocks.len() && (#[trigger] self.blocks[i]).file == file
                && self.blocks[i].offset == offset
    }

    /// The place of the block with this identity.
    pub open spec fn place(self, file: Seq<char>, offset: int) -> int {
        choose|i: int|
            0 <= i < self.blocks.len() && (#[trigger] self.blocks[i]).file == file
                && self.blocks[i].offset == offset
    }

    /// The pool holds at most as many blocks as its capacity, which is at
    /// least one; every block is one block long and block-aligned; no two
    /// blocks share an identity; every file is within the range of offsets.
    pub open spec fn wf(self) -> bool {
        &&& files_fit(self.disk)
        &&& 1 <= self.capacity
        &&& self.blocks.len() <= self.capacity
        &&& forall|i: int|
            0 <= i < self.blocks.len() ==> {
                &&& (#[trigger] self.blocks[i]).bytes.len() == BLOCK_SIZE
                &&& self.blocks[i].offset % (BLOCK_SIZE as int) == 0
                &&& 0 <= self.blocks[i].offset
                &&& self.blocks[i].offset + BLOCK_SIZE <= usize::MAX
            }
        &&& forall|i: int, j: int|
            0 <= i < j < self.blocks.len() ==> !((#[trigger] self.blocks[i]).file == (
            #[trigger] self.blocks[j]).file && self.blocks[i].offset == self.blocks[j].offset)
    }

    /// The pool after a block is put in at the front. A full pool first drops
    /// its last block, writing it back if it is dirty.
    pub open spec fn take_in(self, b: BlockView) -> PoolView {
        if self.blocks.len() >= self.capacity && self.blocks.len() > 0 {
            PoolView {
                blocks: seq![b] + self.blocks.drop_last(),
                disk: written_back(self.disk, self.blocks.last()),
                log: logged_back(self.log, self.blocks.last()),
                ..self
            }
        } else {
            PoolView { blocks: seq![b] + self.blocks, ..self }
        }
    }

    /// The pool after the file `name` is opened: it is created empty where it
    /// is missing.
    pub open spec fn opened(self, name: Seq<char>) -> PoolView {
        PoolView {
            disk: disk_touch(self.disk, name),
            log: if self.disk.dom().contains(name) {
                self.log
            } else {
                self.log.push(ActionView::Create { name })
            },
            ..self
        }
    }

    /// The pool after the file `name` is removed, if there is one.
    pub open spec fn removed(self, name: Seq<char>) -> PoolView {
        PoolView {
            disk: self.disk.remove(name),
            log: if self.disk.dom().contains(name) {
                self.log.push(ActionView::Remove { name })
            } else {
                self.log
            },
            ..self
        }
    }

    /// The pool after the file `from` is renamed to `to`, replacing what `to`
    /// held, if there is a file `from`. The blocks are not touched.
    pub open spec fn moved(self, from: Seq<char>, to: Seq<char>) -> PoolView {
        PoolView {
            disk: disk_rename(self.disk, from, to),
            log: if self.disk.dom().contains(from) {
                self.log.push(ActionView::Rename { from, to })
            } else {
                self.log
            },
            ..self
        }
    }

    /// The pool after the block at `i` moves to the front.
    pub open spec fn promote(self, i: int) -> PoolView {
        PoolView { blocks: seq![self.blocks[i]] + self.blocks.remove(i), ..self }
    }

    /// What a request for a block does to the pool and what it gives. A
    /// resident block moves to the front. Otherwise the file is opened, which
    /// creates it where it is missing; a block that lies within the file is
    /// read and put in at the front; one that ends behind the end of the file
    /// gives nothing.
    pub open spec fn fetch(self, file: Seq<char>, offset: int) -> (PoolView, Option<BlockView>) {
        let at = aligned(offset);
        if self.resident(file, at) {
            let i = self.place(file, at);
            (self.promote(i), Some(self.blocks[i]))
        } else {
            let opened = self.opened(file);
            if at + BLOCK_SIZE > opened.disk[file].len() {
                (opened, None)
            } else {
                let b = BlockView {
                    file,
                    offset: at,
                    bytes: opened.disk[file].subrange(at, at + BLOCK_SIZE),
                    dirty: false,
                };
                (opened.take_in(b), Some(b))
            }
        }
    }

    /// The pool after `buf` is written at `offset` of `file`: the block is
    /// fetched, or made of zeros where the file does not hold it, `buf`
    /// replaces its bytes from `offset` on, and it is dirty and at the front.
    pub open spec fn store(self, file: Seq<char>, offset: int, buf: Seq<u8>) -> PoolView {
        let at = aligned(offset);
        let (pool, found) = self.fetch(file, at);
        match found {
            Some(b) => PoolView {
                blocks: pool.blocks.update(
                    0,
                    BlockView { bytes: spliced(b.bytes, offset - at, buf), dirty: true, ..b },
                ),
                ..pool
            },
            None => pool.take_in(
                BlockView {
                    file,
                    offset: at,
                    bytes: spliced(blank(), offset - at, buf),
                    dirty: true,
                },
            ),
        }
    }

    /// The pool after the caller took the changes.
    pub open spec fn taken(self) -> PoolView {
        PoolView { log: Seq::empty(), ..self }
    }

    /// The pool after a flush: every dirty block is written to its file, from
    /// the front of the pool to its end, and no block is dirty.
    pub open spec fn flushed(self) -> PoolView {
        PoolView {
            blocks: Seq::new(
                self.blocks.len(),
                |i: int| BlockView { dirty: false, ..self.blocks[i] },
            ),
            disk: all_written_back(self.disk, self.blocks),
            log: all_logged_back(self.log, self.blocks),
            ..self
        }
    }

    /// The pool after it is told of a rename. The files are not touched.
    pub open spec fn renamed(self, from: Seq<char>, to: Seq<char>) -> PoolView {
        PoolView { blocks: renamed_blocks(self.blocks, from, to), ..self }
    }
}

/// The blocks of a queue as values.
pub open spec fn block_views(blocks: Seq<Block>) -> Seq<BlockView> {
    Seq::new(blocks.len(), |i: int| blocks[i]@)
}

/// The changes of a list as values.
pub open spec fn action_views(actions: Seq<FileAction>) -> Seq<ActionView> {
    Seq::new(actions.len(), |i: int| actions[i]@)
}

/// LRU buffer manager.
pub struct BufferManager {
    num_blocks: usize,
    blocks: VecDeque<Block>,
    disk: Disk,
    log: Vec<FileAction>,
}

impl View for BufferManager {
    type V = PoolView;

    closed spec fn view(&self) -> PoolView {
        PoolView {
            capacity: self.num_blocks as int,
            blocks: block_views(self.blocks@),
            disk: self.disk@,
            log: action_views(self.log@),
        }
    }
}

impl BufferManager {
    /// The pool is well formed.
    pub closed spec fn wf(&self) -> bool {
        self@.wf() && self.disk.wf()
    }

    /// A well-formed pool is well formed as a value.
    pub proof fn lemma_wf(&self)
        requires
            self.wf(),
        ensures
            self@.wf(),
    {
    }

    /// The capacity of the pool in blocks.
    pub fn num_blocks(&self) -> (n: usize)
        ensures
            n == self@.capacity,
    {
        self.num_blocks
    }

    /// An empty pool of `num_blocks` blocks over no files.
    pub fn new(num_blocks: usize) -> (pool: Self)
        requires
            num_blocks >= 1,
        ensures
            pool.wf(),
            pool@ == (PoolView {
                capacity: num_blocks as int,
                blocks: Seq::empty(),
                disk: Map::empty(),
                log: Seq::empty(),
            }),
    {
        let pool = BufferManager {
            num_blocks,
            blocks: VecDeque::with_capacity(num_blocks),
            disk: Disk::new(),
            log: Vec::new(),
        };
        assert(pool@.blocks =~= Seq::empty());
        assert(pool@.log =~= Seq::empty());
        pool
    }
}

/// A block that a well-formed pool can hold.
pub open spec fn block_ok(b: BlockView) -> bool {
    &&& b.bytes.len() == BLOCK_SIZE
    &&& b.offset % (BLOCK_SIZE as int) == 0
    &&& 0 <= b.offset
    &&& b.offset + BLOCK_SIZE <= usize::MAX
}

/// Moving a block to the front keeps a pool well formed.
pub proof fn lemma_promote(p: PoolView, i: int)
    requires
        p.wf(),
        0 <= i < p.blocks.len(),
    ensures
        p.promote(i).wf(),
{
    let q = p.promote(i).blocks;
    assert forall|x: int| 0 <= x < q.len() implies #[trigger] q[x] == p.blocks[if x == 0 {
        i
    } else if x <= i {
        x - 1
    } else {
        x
    }] by {}
}

/// Putting in a block that is not resident keeps a pool well formed.
pub proof fn lemma_take_in(p: PoolView, b: BlockView)
    requires
        p.wf(),
        block_ok(b),
        !p.resident(b.file, b.offset),
    ensures
        p.take_in(b).wf(),
{
    let q = p.take_in(b).blocks;
    assert forall|x: int| 1 <= x < q.len() implies #[trigger] q[x] == p.blocks[x - 1] by {}
    assert forall|x: int| 1 <= x < q.len() implies !((#[trigger] q[x]).file == b.file && q[x].offset
        == b.offset) by {
        assert(p.blocks[x - 1].file == q[x].file);
    }
}

impl BufferManager {
    /// Where the block with this identity stands in the pool.
    fn find(&self, file: &String, offset: usize) -> (r: Option<usize>)
        requires
            self.wf(),
        ensures
            match r {
                Some(i) => self@.resident(file@, offset as int) && self@.place(
                    file@,
                    offset as int,
                ) == i && i < self@.blocks.len(),
                None => !self@.resident(file@, offset as int),
            },
    {
        let mut i: usize = 0;
        while i < self.blocks.len()
            invariant
                self.wf(),
                0 <= i <= self.blocks@.len(),
                forall|j: int|
                    0 <= j < i ==> !((#[trigger] self@.blocks[j]).file == file@
                        && self@.blocks[j].offset == offset),
            decreases self.blocks@.len() - i,
        {
            let hit = self.blocks[i].key.1 == offset && self.blocks[i].key.0 == *file;
            if hit {
                proof {
                    assert(self@.blocks[i as int] == self.blocks@[i as int]@);
                    let p = self@.place(file@, offset as int);
                    assert(self@.blocks[p].file == file@);
                }
                return Some(i);
            }
            assert(self@.blocks[i as int] == self.blocks@[i as int]@);
            i += 1;
        }
        None
    }

    /// Moves the block at `index` to the front.
    fn renew(&mut self, index: usize)
        requires
            old(self).wf(),
            index < old(self)@.blocks.len(),
        ensures
            final(self).wf(),
            final(self)@ == old(self)@.promote(index as int),
    {
        let b = self.blocks.remove(index);
        match b {
            Some(x) => {
                self.blocks.push_front(x);
            },
            None => {},
        }
        proof {
            lemma_promote(old(self)@, index as int);
            assert(self@.blocks =~= old(self)@.promote(index as int).blocks);
        }
    }

    /// Notes a change to the files for the caller.
    fn record(&mut self, a: FileAction)
        ensures
            final(self)@ == (PoolView { log: old(self)@.log.push(a@), ..old(self)@ }),
            final(self).disk == old(self).disk,
            final(self).blocks == old(self).blocks,
            final(self).num_blocks == old(self).num_blocks,
    {
        self.log.push(a);
        assert(action_views(self.log@) =~= action_views(old(self).log@).push(a@));
    }

    /// Puts a block in at the front. A full pool first drops its last block,
    /// writing it back if it is dirty.
    fn add(&mut self, b: Block)
        requires
            old(self).wf(),
            block_ok(b@),
            !old(self)@.resident(b@.file, b@.offset),
        ensures
            final(self).wf(),
            final(self)@ == old(self)@.take_in(b@),
    {
        proof {
            lemma_take_in(self@, b@);
        }
        if self.blocks.len() >= self.num_blocks {
            match self.blocks.pop_back() {
                Some(last) => {
                    assert(last@ == old(self)@.blocks.last());
                    if last.dirty_bit {
                        self.disk.write_at(&last.key.0, last.key.1, &last.bytes);
                        self.record(
                            FileAction::Write {
                                name: last.key.0,
                                offset: last.key.1,
                                bytes: last.bytes,
                            },
                        );
                    }
                },
                None => {},
            }
        }
        self.blocks.push_front(b);
        assert(self@.blocks =~= old(self)@.take_in(b@).blocks);
    }

    /// The block of `file` that holds `offset`: the cached block, moved to
    /// the front, or the block read from the file and put in at the front;
    /// `None` where the block ends behind the end of the file. Opening the
    /// file creates it where it is missing.
    pub fn get(&mut self, file: String, offset: usize) -> (r: Option<&Block>)
        requires
            old(self).wf(),
        ensures
            final(self).wf(),
            final(self)@ == old(self)@.fetch(file@, offset as int).0,
            match r {
                Some(b) => Some(b@),
                None => None,
            } == old(self)@.fetch(file@, offset as int).1,
    {
        let at = offset - offset % BLOCK_SIZE;
        match self.find(&file, at) {
            Some(i) => {
                self.renew(i);
                assert(self.blocks@[0]@ == self@.blocks[0]);
                assert(self@.blocks[0] == old(self)@.blocks[i as int]);
                Some(&self.blocks[0])
            },
            None => {
                if !self.disk.contains(&file) {
                    self.disk.touch(&file);
                    self.record(FileAction::Create { name: file.clone() });
                }
                let len = match self.disk.len(&file) {
                    Some(n) => n,
                    None => 0,
                };
                if at > len || BLOCK_SIZE > len - at {
                    return None;
                }
                let bytes = match self.disk.read_at(&file, at, BLOCK_SIZE) {
                    Some(b) => b,
                    None => { return None; },
                };
                let block = Block { bytes, key: (file, at), dirty_bit: false };
                let ghost added = block@;
                self.add(block);
                assert(self.blocks@[0]@ == self@.blocks[0]);
                assert(self@.blocks[0] == added);
                Some(&self.blocks[0])
            },
        }
    }
}


/// A block as a rename leaves it.
pub open spec fn relabelled(b: BlockView, from: Seq<char>, to: Seq<char>) -> BlockView {
    if b.file == from {
        BlockView { file: to, ..b }
    } else {
        b
    }
}

/// What a rename leaves of well-formed blocks: each is a block of before
/// whose file was not `to`, relabelled, and no two share an identity.
pub proof fn lemma_renamed(s: Seq<BlockView>, from: Seq<char>, to: Seq<char>)
    requires
        forall|i: int| 0 <= i < s.len() ==> block_ok(#[trigger] s[i]),
        forall|i: int, j: int|
            0 <= i < j < s.len() ==> !((#[trigger] s[i]).file == (#[trigger] s[j]).file
                && s[i].offset == s[j].offset),
    ensures
        renamed_blocks(s, from, to).len() <= s.len(),
        forall|x: int|
            0 <= x < renamed_blocks(s, from, to).len() ==> block_ok(
                #[trigger] renamed_blocks(s, from, to)[x],
            ) && exists|j: int|
                0 <= j < s.len() && (#[trigger] s[j]).file != to && renamed_blocks(s, from, to)[x]
                    == relabelled(s[j], from, to),
        forall|x: int, y: int|
            0 <= x < y < renamed_blocks(s, from, to).len() ==> !((#[trigger] renamed_blocks(
                s,
                from,
                to,
            )[x]).file == (#[trigger] renamed_blocks(s, from, to)[y]).file && renamed_blocks(
                s,
                from,
                to,
            )[x].offset == renamed_blocks(s, from, to)[y].offset),
    decreases s.len(),
{
    if s.len() > 0 {
        let front_src = s.drop_last();
        let front = renamed_blocks(front_src, from, to);
        let r = renamed_blocks(s, from, to);
        let b = s.last();
        assert forall|i: int| 0 <= i < front_src.len() implies block_ok(#[trigger] front_src[i]) by {
            assert(front_src[i] == s[i]);
        }
        assert forall|i: int, j: int| 0 <= i < j < front_src.len() implies !((
        #[trigger] front_src[i]).file == (#[trigger] front_src[j]).file && front_src[i].offset
            == front_src[j].offset) by {
            assert(front_src[i] == s[i] && front_src[j] == s[j]);
        }
        lemma_renamed(front_src, from, to);
        assert forall|x: int| 0 <= x < r.len() implies block_ok(#[trigger] r[x]) && exists|j: int|
            0 <= j < s.len() && (#[trigger] s[j]).file != to && r[x] == relabelled(
                s[j],
                from,
                to,
            ) by {
            if x < front.len() {
                assert(r[x] == front[x]);
                let j = choose|j: int|
                    0 <= j < front_src.len() && (#[trigger] front_src[j]).file != to && front[x]
                        == relabelled(front_src[j], from, to);
                assert(front_src[j] == s[j]);
            } else {
                assert(r[x] == relabelled(b, from, to));
                assert(s[s.len() - 1] == b);
            }
        }
        assert forall|x: int, y: int| 0 <= x < y < r.len() implies !((#[trigger] r[x]).file == (
        #[trigger] r[y]).file && r[x].offset == r[y].offset) by {
            if y < front.len() {
                assert(r[x] == front[x] && r[y] == front[y]);
            } else {
                assert(r[x] == front[x]);
                let j = choose|j: int|
                    0 <= j < front_src.len() && (#[trigger] front_src[j]).file != to && front[x]
                        == relabelled(front_src[j], from, to);
                assert(front_src[j] == s[j]);
                assert(s[s.len() - 1] == b);
            }
        }
    }
}

/// A rename leaves every block whose file was not `to`, relabelled.
pub proof fn lemma_renamed_keeps(s: Seq<BlockView>, from: Seq<char>, to: Seq<char>, j: int)
    requires
        0 <= j < s.len(),
        s[j].file != to,
    ensures
        exists|x: int|
            0 <= x < renamed_blocks(s, from, to).len() && #[trigger] renamed_blocks(s, from, to)[x]
                == relabelled(s[j], from, to),
    decreases s.len(),
{
    let r = renamed_blocks(s, from, to);
    let front = renamed_blocks(s.drop_last(), from, to);
    if j == s.len() - 1 {
        assert(r[r.len() - 1] == relabelled(s[j], from, to));
    } else {
        lemma_renamed_keeps(s.drop_last(), from, to, j);
        let x = choose|x: int|
            0 <= x < front.len() && #[trigger] front[x] == relabelled(s.drop_last()[j], from, to);
        assert(r[x] == front[x]);
    }
}

/// Overwrites the bytes of `dst` from `at` on with `src`.
pub fn overlay(dst: &mut Vec<u8>, at: usize, src: &Vec<u8>)
    requires
        at + src@.len() <= old(dst)@.len(),
    ensures
        final(dst)@ == spliced(old(dst)@, at as int, src@),
{
    let total = dst.len();
    let mut k: usize = 0;
    while k < src.len()
        invariant
            0 <= k <= src@.len(),
            dst@.len() == total,
            dst@.len() == old(dst)@.len(),
            at + src@.len() <= dst@.len(),
            forall|j: int|
                0 <= j < dst@.len() ==> dst@[j] == if at <= j < at + k {
                    src@[j - at]
                } else {
                    old(dst)@[j]
                },
        decreases src@.len() - k,
    {
        dst.set(at + k, src[k]);
        k += 1;
    }
    assert(dst@ =~= spliced(old(dst)@, at as int, src@));
}

/// A block of zeros.
pub fn blank_block() -> (r: Vec<u8>)
    ensures
        r@ == blank(),
{
    let mut r: Vec<u8> = Vec::with_capacity(BLOCK_SIZE);
    while r.len() < BLOCK_SIZE
        invariant
            r@.len() <= BLOCK_SIZE,
            forall|j: int| 0 <= j < r@.len() ==> r@[j] == 0u8,
        decreases BLOCK_SIZE - r@.len(),
    {
        r.push(0u8);
    }
    assert(r@ =~= blank());
    r
}

impl BufferManager {
    /// Writes `buf` at `offset` of `file` into the pool: the block that holds
    /// `offset` is fetched, or made of zeros where the file does not hold it,
    /// takes `buf` from `offset` on, and is dirty and at the front.
    pub fn write(&mut self, file: &String, offset: usize, buf: &Vec<u8>, buf_size: u32)
        requires
            old(self).wf(),
            buf@.len() == buf_size,
            offset % BLOCK_SIZE + buf_size <= BLOCK_SIZE,
            aligned(offset as int) + BLOCK_SIZE <= usize::MAX,
        ensures
            final(self).wf(),
            final(self)@ == old(self)@.store(file@, offset as int, buf@),
    {
        let inner = offset % BLOCK_SIZE;
        let at = offset - inner;
        assert(aligned(at as int) == at);
        let found = self.get(file.clone(), at).is_some();
        let ghost mid = self@;
        if found {
            match self.blocks.pop_front() {
                Some(mut block) => {
                    assert(block@ == mid.blocks[0]);
                    overlay(&mut block.bytes, inner, buf);
                    block.dirty_bit = true;
                    self.blocks.push_front(block);
                    proof {
                        self.disk.lemma_files_fit();
                        let q = self@.blocks;
                        assert(q =~= mid.blocks.update(0, q[0]));
                        assert forall|x: int| 1 <= x < q.len() implies #[trigger] q[x]
                            == mid.blocks[x] by {}
                    }
                },
                None => {},
            }
        } else {
            let mut bytes = blank_block();
            overlay(&mut bytes, inner, buf);
            let block = Block { bytes, key: (file.clone(), at), dirty_bit: true };
            proof {
                assert(mid.blocks == old(self)@.blocks);
            }
            self.add(block);
        }
    }

    /// Writes every dirty block to its file and marks it clean. No block
    /// leaves the pool or changes its place.
    pub fn flush(&mut self)
        requires
            old(self).wf(),
        ensures
            final(self).wf(),
            final(self)@ == old(self)@.flushed(),
    {
        let n = self.blocks.len();
        let ghost before = self@.blocks;
        let ghost disk0 = self@.disk;
        let ghost log0 = self@.log;
        let mut i: usize = 0;
        while i < n
            invariant
                0 <= i <= n,
                n == before.len(),
                old(self)@.wf(),
                before == old(self)@.blocks,
                disk0 == old(self)@.disk,
                log0 == old(self)@.log,
                self@.log == all_logged_back(log0, before.take(i as int)),
                self.disk.wf(),
                self.num_blocks == old(self).num_blocks,
                self.blocks@.len() == n,
                forall|j: int| 0 <= j < n - i ==> (#[trigger] self.blocks@[j])@ == before[i + j],
                forall|j: int|
                    n - i <= j < n ==> (#[trigger] self.blocks@[j])@ == (BlockView {
                        dirty: false,
                        ..before[j - (n - i)]
                    }),
                self.disk@ == all_written_back(disk0, before.take(i as int)),
            decreases n - i,
        {
            match self.blocks.pop_front() {
                Some(mut b) => {
                    assert(b@ == before[i as int]);
                    if b.dirty_bit {
                        self.disk.write_at(&b.key.0, b.key.1, &b.bytes);
                        let name = b.key.0.clone();
                        let bytes = copy_bytes(&b.bytes);
                        self.record(FileAction::Write { name, offset: b.key.1, bytes });
                    }
                    b.dirty_bit = false;
                    self.blocks.push_back(b);
                    proof {
                        assert(before.take(i + 1).drop_last() =~= before.take(i as int));
                        assert(before.take(i + 1).last() == before[i as int]);
                    }
                },
                None => {},
            }
            i += 1;
        }
        proof {
            self.disk.lemma_files_fit();
            assert(before.take(n as int) =~= before);
            assert(self@.blocks =~= old(self)@.flushed().blocks);
        }
    }

    /// Tells the pool that the file `from` is now named `to`: the blocks of
    /// `to` are dropped unwritten, the blocks of `from` now belong to `to`.
    /// The files themselves are not touched.
    pub fn rename(&mut self, from: &String, to: &String)
        requires
            old(self).wf(),
        ensures
            final(self).wf(),
            final(self)@ == old(self)@.renamed(from@, to@),
    {
        let n = self.blocks.len();
        let ghost before = self@.blocks;
        let mut kept: VecDeque<Block> = VecDeque::new();
        let mut i: usize = 0;
        while i < n
            invariant
                0 <= i <= n,
                n == before.len(),
                self.num_blocks == old(self).num_blocks,
                self.disk == old(self).disk,
                self.log == old(self).log,
                self.blocks@.len() == n - i,
                forall|j: int| 0 <= j < n - i ==> (#[trigger] self.blocks@[j])@ == before[i + j],
                block_views(kept@) == renamed_blocks(before.take(i as int), from@, to@),
            decreases n - i,
        {
            match self.blocks.pop_front() {
                Some(mut b) => {
                    assert(b@ == before[i as int]);
                    proof {
                        assert(before.take(i + 1).drop_last() =~= before.take(i as int));
                        assert(before.take(i + 1).last() == before[i as int]);
                    }
                    if b.key.0 == *to {
                    } else if b.key.0 == *from {
                        b.key.0 = to.clone();
                        kept.push_back(b);
                        assert(block_views(kept@) =~= renamed_blocks(
                            before.take(i + 1),
                            from@,
                            to@,
                        ));
                    } else {
                        kept.push_back(b);
                        assert(block_views(kept@) =~= renamed_blocks(
                            before.take(i + 1),
                            from@,
                            to@,
                        ));
                    }
                },
                None => {},
            }
            i += 1;
        }
        proof {
            assert(before.take(n as int) =~= before);
            lemma_renamed(before, from@, to@);
        }
        self.blocks = kept;
    }

    /// Whether a file of that name exists.
    pub fn file_exists(&self, name: &String) -> (r: bool)
        requires
            self.wf(),
        ensures
            r == self@.disk.dom().contains(name@),
    {
        self.disk.contains(name)
    }

    /// A copy of the whole file as it is stored, without what the pool has
    /// not written back yet.
    pub fn file_contents(&self, name: &String) -> (r: Option<Vec<u8>>)
        requires
            self.wf(),
        ensures
            match r {
                Some(b) => self@.disk.dom().contains(name@) && b@ == self@.disk[name@],
                None => !self@.disk.dom().contains(name@),
            },
    {
        self.disk.contents(name)
    }

    /// Stores a file under that name, replacing what the name held. The pool
    /// is not told.
    pub fn load_file(&mut self, name: &String, bytes: &Vec<u8>)
        requires
            old(self).wf(),
        ensures
            final(self).wf(),
            final(self)@ == (PoolView { disk: old(self)@.disk.insert(name@, bytes@), ..old(self)@ }),
    {
        assert(bytes@.len() == bytes.len());
        self.disk.remove(name);
        self.disk.write_at(name, 0, bytes);
        proof {
            assert(spliced(Seq::empty(), 0, bytes@) =~= bytes@);
            assert(self@.disk =~= old(self)@.disk.insert(name@, bytes@));
        }
    }

    /// Opens a file: creates it empty where it is missing.
    pub fn create_file(&mut self, name: &String)
        requires
            old(self).wf(),
        ensures
            final(self).wf(),
            final(self)@ == old(self)@.opened(name@),
    {
        if !self.disk.contains(name) {
            self.disk.touch(name);
            self.record(FileAction::Create { name: name.clone() });
        }
    }

    /// Removes a file. The pool is not told. Says whether there was one.
    pub fn remove_file(&mut self, name: &String) -> (r: bool)
        requires
            old(self).wf(),
        ensures
            final(self).wf(),
            r == old(self)@.disk.dom().contains(name@),
            final(self)@ == old(self)@.removed(name@),
    {
        let r = self.disk.remove(name);
        if r {
            self.record(FileAction::Remove { name: name.clone() });
        }
        r
    }

    /// Renames a file, replacing what the new name held. The pool is not
    /// told. Says whether there was a file to rename.
    pub fn rename_file(&mut self, from: &String, to: &String) -> (r: bool)
        requires
            old(self).wf(),
        ensures
            final(self).wf(),
            r == old(self)@.disk.dom().contains(from@),
            final(self)@ == old(self)@.moved(from@, to@),
    {
        let r = self.disk.rename(from, to);
        if r {
            self.record(FileAction::Rename { from: from.clone(), to: to.clone() });
        }
        r
    }

    /// Hands the changes that the pool made to its files to the caller,
    /// oldest first, and forgets them.
    pub fn take_actions(&mut self) -> (actions: Vec<FileAction>)
        requires
            old(self).wf(),
        ensures
            final(self).wf(),
            action_views(actions@) == old(self)@.log,
            final(self)@ == old(self)@.taken(),
    {
        let mut actions: Vec<FileAction> = Vec::new();
        std::mem::swap(&mut self.log, &mut actions);
        assert(action_views(self.log@) =~= Seq::empty());
        actions
    }
}


} // verus!
