//! The byte layout of a block that holds cells: a header, a table of 2-byte
//! offsets that grows forward, and the cells themselves packed from the end of
//! the block backward. Offset `i` is the distance from the end of the block to
//! the first byte of cell `i`.
use crate::wire::{deserialize_u16, serialize_u16};
use crate::BLOCK_SIZE;
use vstd::bytes::*;
use vstd::prelude::*;
use vstd::slice::slice_subrange;

verus! {

/// The byte strings that a vector of buffers holds.
pub open spec fn views(ws: Seq<Vec<u8>>) -> Seq<Seq<u8>> {
    ws.map_values(|w: Vec<u8>| w@)
}

/// The summed length of all cells.
pub open spec fn total_len(w: Seq<Seq<u8>>) -> nat
    decreases w.len(),
{
    if w.len() == 0 {
        0
    } else {
        total_len(w.drop_last()) + w.last().len()
    }
}

/// The summed length of the first `i` cells.
pub open spec fn reach(w: Seq<Seq<u8>>, i: int) -> nat {
    total_len(w.take(i))
}

/// The offset table: for each cell, where it starts, counted from the end of
/// the block, as two little-endian bytes.
pub open spec fn table(w: Seq<Seq<u8>>) -> Seq<u8>
    decreases w.len(),
{
    if w.len() == 0 {
        Seq::empty()
    } else {
        table(w.drop_last()) + spec_u16_to_le_bytes(total_len(w) as u16)
    }
}

/// The cell region: the last cell first, the first cell at the very end.
pub open spec fn body(w: Seq<Seq<u8>>) -> Seq<u8>
    decreases w.len(),
{
    if w.len() == 0 {
        Seq::empty()
    } else {
        body(w.skip(1)) + w[0]
    }
}

/// A header of `header_len` bytes, the offset table and the cells fit in one block.
pub open spec fn fits(header_len: int, w: Seq<Seq<u8>>) -> bool {
    header_len + 2 * w.len() + total_len(w) <= BLOCK_SIZE
}

/// The block that holds `header` and the cells `w`: header, offset table,
/// zeros, cells.
pub open spec fn pack(header: Seq<u8>, w: Seq<Seq<u8>>) -> Seq<u8> {
    header + table(w) + Seq::new(
        (BLOCK_SIZE - header.len() - 2 * w.len() - total_len(w)) as nat,
        |i: int| 0u8,
    ) + body(w)
}

/// The two bytes at `pos`, read as a little-endian number.
pub open spec fn word_at(b: Seq<u8>, pos: int) -> int {
    spec_u16_from_le_bytes(b.subrange(pos, pos + 2)) as int
}

/// The `i`-th entry of the offset table of a block whose header has `header_len` bytes.
pub open spec fn slot(b: Seq<u8>, header_len: int, i: int) -> int {
    word_at(b, header_len + 2 * i)
}

/// Where cell `i` ends, counted from the end of the block: at the start of the
/// cell before it.
pub open spec fn edge(b: Seq<u8>, header_len: int, i: int) -> int {
    if i == 0 {
        0
    } else {
        slot(b, header_len, i - 1)
    }
}

/// The offset table of `b` describes `n` non-empty cells that lie behind the table.
pub open spec fn table_ok(b: Seq<u8>, header_len: int, n: int) -> bool {
    &&& b.len() == BLOCK_SIZE
    &&& 0 <= n
    &&& header_len + 2 * n <= BLOCK_SIZE
    &&& forall|i: int|
        0 <= i < n ==> edge(b, header_len, i) < #[trigger] slot(b, header_len, i) <= BLOCK_SIZE
            - header_len - 2 * n
}

/// The bytes of cell `i`.
pub open spec fn cell_at(b: Seq<u8>, header_len: int, i: int) -> Seq<u8> {
    b.subrange(BLOCK_SIZE - slot(b, header_len, i), BLOCK_SIZE - edge(b, header_len, i))
}

/// The `n` cells of a block.
pub open spec fn unpack(b: Seq<u8>, header_len: int, n: int) -> Seq<Seq<u8>> {
    Seq::new(n as nat, |i: int| cell_at(b, header_len, i))
}

pub proof fn lemma_reach(w: Seq<Seq<u8>>, i: int)
    requires
        0 <= i <= w.len(),
    ensures
        reach(w, 0) == 0,
        reach(w, w.len() as int) == total_len(w),
        i < w.len() ==> reach(w, i + 1) == reach(w, i) + w[i].len(),
        reach(w, i) <= total_len(w),
    decreases w.len() - i,
{
    assert(w.take(0).len() == 0);
    assert(w.take(w.len() as int) =~= w);
    if i < w.len() {
        assert(w.take(i + 1).drop_last() =~= w.take(i));
        lemma_reach(w, i + 1);
    }
}

pub proof fn lemma_total_len_skip(w: Seq<Seq<u8>>)
    requires
        w.len() > 0,
    ensures
        total_len(w) == w[0].len() + total_len(w.skip(1)),
    decreases w.len(),
{
    let tail = w.skip(1);
    if w.len() == 1 {
        assert(total_len(w.drop_last()) == 0);
        assert(total_len(tail) == 0);
    } else {
        lemma_total_len_skip(w.drop_last());
        assert(w.drop_last().skip(1) =~= tail.drop_last());
        assert(tail.last() == w.last());
        assert(total_len(tail) == total_len(tail.drop_last()) + tail.last().len());
    }
}

pub proof fn lemma_table(w: Seq<Seq<u8>>, i: int)
    requires
        0 <= i < w.len(),
    ensures
        table(w).len() == 2 * w.len(),
        table(w).subrange(2 * i, 2 * i + 2) == spec_u16_to_le_bytes(reach(w, i + 1) as u16),
    decreases w.len(),
{
    lemma_auto_spec_u16_to_from_le_bytes();
    lemma_table_len(w);
    let front = w.drop_last();
    let last = spec_u16_to_le_bytes(total_len(w) as u16);
    assert(last.len() == 2);
    lemma_table_len(front);
    if i == w.len() - 1 {
        assert(w.take(i + 1) =~= w);
        assert(table(w).subrange(2 * i, 2 * i + 2) =~= last);
    } else {
        lemma_table(front, i);
        assert(front.take(i + 1) =~= w.take(i + 1));
        assert(table(w).subrange(2 * i, 2 * i + 2) =~= table(front).subrange(2 * i, 2 * i + 2));
    }
}

pub proof fn lemma_table_len(w: Seq<Seq<u8>>)
    ensures
        table(w).len() == 2 * w.len(),
    decreases w.len(),
{
    lemma_auto_spec_u16_to_from_le_bytes();
    if w.len() > 0 {
        lemma_table_len(w.drop_last());
        assert(spec_u16_to_le_bytes(total_len(w) as u16).len() == 2);
    }
}

pub proof fn lemma_body_len(w: Seq<Seq<u8>>)
    ensures
        body(w).len() == total_len(w),
    decreases w.len(),
{
    if w.len() > 0 {
        lemma_body_len(w.skip(1));
        lemma_total_len_skip(w);
    }
}

pub proof fn lemma_body_cell(w: Seq<Seq<u8>>, i: int)
    requires
        0 <= i < w.len(),
    ensures
        reach(w, i + 1) == reach(w, i) + w[i].len(),
        reach(w, i + 1) <= total_len(w),
        body(w).subrange(total_len(w) - reach(w, i + 1), total_len(w) - reach(w, i)) == w[i],
    decreases w.len(),
{
    lemma_reach(w, i);
    lemma_reach(w, i + 1);
    lemma_body_len(w);
    lemma_body_len(w.skip(1));
    lemma_total_len_skip(w);
    let rest = w.skip(1);
    if i == 0 {
        assert(w.take(0).len() == 0);
        assert(body(w).subrange(total_len(w) - reach(w, 1), total_len(w) as int) =~= w[0]);
    } else {
        lemma_body_cell(rest, i - 1);
        lemma_total_len_skip(w.take(i + 1));
        lemma_total_len_skip(w.take(i));
        assert(w.take(i + 1).skip(1) =~= rest.take(i));
        assert(w.take(i).skip(1) =~= rest.take(i - 1));
        assert(body(w).subrange(total_len(w) - reach(w, i + 1), total_len(w) - reach(w, i))
            =~= body(rest).subrange(
            total_len(rest) - reach(rest, i),
            total_len(rest) - reach(rest, i - 1),
        ));
    }
}

/// What a packed block holds at each place: its header, the table entries and
/// the cells.
pub proof fn lemma_pack_layout(header: Seq<u8>, w: Seq<Seq<u8>>, i: int)
    requires
        fits(header.len() as int, w),
        0 <= i < w.len(),
    ensures
        pack(header, w).len() == BLOCK_SIZE,
        pack(header, w).subrange(0, header.len() as int) == header,
        reach(w, i + 1) == reach(w, i) + w[i].len(),
        reach(w, i + 1) <= total_len(w),
        pack(header, w).subrange(header.len() + 2 * i, header.len() + 2 * i + 2)
            == spec_u16_to_le_bytes(reach(w, i + 1) as u16),
        pack(header, w).subrange(BLOCK_SIZE - reach(w, i + 1), BLOCK_SIZE - reach(w, i)) == w[i],
{
    lemma_pack_header(header, w);
    lemma_table(w, i);
    lemma_body_len(w);
    lemma_body_cell(w, i);
    let p = pack(header, w);
    let hl = header.len() as int;
    assert(p.subrange(hl + 2 * i, hl + 2 * i + 2) =~= table(w).subrange(2 * i, 2 * i + 2));
    assert(p.subrange(BLOCK_SIZE - reach(w, i + 1), BLOCK_SIZE - reach(w, i)) =~= body(w).subrange(
        total_len(w) - reach(w, i + 1),
        total_len(w) - reach(w, i),
    ));
}

/// A packed block is one block long and starts with its header.
pub proof fn lemma_pack_header(header: Seq<u8>, w: Seq<Seq<u8>>)
    requires
        fits(header.len() as int, w),
    ensures
        pack(header, w).len() == BLOCK_SIZE,
        pack(header, w).subrange(0, header.len() as int) == header,
{
    lemma_table_len(w);
    lemma_body_len(w);
    assert(pack(header, w).subrange(0, header.len() as int) =~= header);
}

/// Unpacking a packed block gives back the cells, provided none is empty.
pub proof fn lemma_unpack_pack(header: Seq<u8>, w: Seq<Seq<u8>>)
    requires
        fits(header.len() as int, w),
        forall|i: int| 0 <= i < w.len() ==> (#[trigger] w[i]).len() > 0,
    ensures
        table_ok(pack(header, w), header.len() as int, w.len() as int),
        unpack(pack(header, w), header.len() as int, w.len() as int) == w,
        forall|i: int|
            0 <= i < w.len() ==> #[trigger] slot(pack(header, w), header.len() as int, i) == reach(
                w,
                i + 1,
            ),
{
    let p = pack(header, w);
    let hl = header.len() as int;
    let n = w.len() as int;
    lemma_pack_header(header, w);
    lemma_auto_spec_u16_to_from_le_bytes();
    assert forall|i: int| 0 <= i < n implies #[trigger] slot(p, hl, i) == reach(w, i + 1) by {
        lemma_pack_layout(header, w, i);
        let r = reach(w, i + 1) as u16;
        assert(spec_u16_to_le_bytes(r).len() == 2);
        assert(spec_u16_from_le_bytes(spec_u16_to_le_bytes(r)) == r);
    }
    assert forall|i: int| 0 <= i < n implies edge(p, hl, i) == reach(w, i) by {
        if i > 0 {
            assert(slot(p, hl, i - 1) == reach(w, i));
        } else {
            lemma_reach(w, 0);
        }
    }
    assert forall|i: int| 0 <= i < n implies edge(p, hl, i) < #[trigger] slot(p, hl, i)
        <= BLOCK_SIZE - hl - 2 * n by {
        lemma_pack_layout(header, w, i);
        assert(w[i].len() > 0);
    }
    assert forall|i: int| 0 <= i < n implies #[trigger] cell_at(p, hl, i) == w[i] by {
        lemma_pack_layout(header, w, i);
        assert(slot(p, hl, i) == reach(w, i + 1));
        assert(edge(p, hl, i) == reach(w, i));
    }
    assert(unpack(p, hl, n) =~= w);
}

/// Reads the two bytes at `pos` as a little-endian number.
pub fn read_word(buf: &[u8], pos: usize) -> (r: u16)
    requires
        pos + 2 <= buf@.len(),
    ensures
        r == word_at(buf@, pos as int),
{
    assert(buf@.len() == buf.len());
    let two = slice_subrange(buf, pos, pos + 2);
    assert(two@.subrange(0, 2) == two@);
    match deserialize_u16(two) {
        Some(x) => x,
        None => 0,
    }
}

/// Builds a block from a header and the cells.
pub fn pack_block(header: Vec<u8>, cells: &Vec<Vec<u8>>) -> (block: Vec<u8>)
    requires
        fits(header@.len() as int, views(cells@)),
    ensures
        block@ == pack(header@, views(cells@)),
{
    let ghost w = views(cells@);
    let ghost h = header@;
    let n = cells.len();
    let mut block = header;
    let mut sum: usize = 0;
    let mut i: usize = 0;
    while i < n
        invariant
            n == cells@.len(),
            w == views(cells@),
            fits(h.len() as int, w),
            0 <= i <= n,
            sum == reach(w, i as int),
            block@ == h + table(w.take(i as int)),
        decreases n - i,
    {
        proof {
            lemma_reach(w, i as int);
            lemma_reach(w, i as int + 1);
            assert(w.take(i + 1).drop_last() =~= w.take(i as int));
            assert(w[i as int] == cells@[i as int]@);
        }
        sum = sum + cells[i].len();
        let mut entry = serialize_u16(sum as u16);
        block.append(&mut entry);
        i += 1;
        assert(block@ =~= h + table(w.take(i as int)));
    }
    proof {
        assert(w.take(n as int) =~= w);
        lemma_table_len(w);
        lemma_reach(w, n as int);
    }
    let gap = BLOCK_SIZE - block.len() - sum;
    let mut j: usize = 0;
    while j < gap
        invariant
            0 <= j <= gap,
            block@ == h + table(w) + Seq::new(j as nat, |i: int| 0u8),
        decreases gap - j,
    {
        block.push(0u8);
        j += 1;
        assert(block@ =~= h + table(w) + Seq::new(j as nat, |i: int| 0u8));
    }
    let ghost front = block@;
    let mut k: usize = n;
    while k > 0
        invariant
            n == cells@.len(),
            w == views(cells@),
            0 <= k <= n,
            block@ == front + body(w.skip(k as int)),
        decreases k,
    {
        k -= 1;
        let mut cell = copy_bytes(&cells[k]);
        block.append(&mut cell);
        proof {
            assert(w.skip(k as int)[0] == cells@[k as int]@);
            assert(w.skip(k as int).skip(1) =~= w.skip(k as int + 1));
            assert(block@ =~= front + body(w.skip(k as int)));
        }
    }
    assert(w.skip(0) =~= w);
    block
}

/// A copy of a byte buffer.
pub fn copy_bytes(src: &Vec<u8>) -> (r: Vec<u8>)
    ensures
        r@ == src@,
{
    let mut r: Vec<u8> = Vec::with_capacity(src.len());
    let mut i: usize = 0;
    while i < src.len()
        invariant
            0 <= i <= src@.len(),
            r@ == src@.take(i as int),
        decreases src@.len() - i,
    {
        r.push(src[i]);
        i += 1;
        assert(r@ =~= src@.take(i as int));
    }
    assert(src@.take(src@.len() as int) =~= src@);
    r
}

} // verus!
