//! The slotted page: the entries of one block, sorted by key, and their
//! encoding into exactly one block.
use crate::fixed::{opt_view, Key, Stored};
use crate::layout::{
    cell_at, edge, fits, lemma_pack_header, lemma_unpack_pack, pack, pack_block, read_word, slot,
    table_ok, total_len, unpack, views, word_at,
};
use crate::ordered::{
    ascending, firsts, holds, keys_of, lemma_ascending_push, lemma_rank, lemma_upsert, lookup,
    search, upsert,
};
use crate::wire::serialize_u16;
use crate::BLOCK_SIZE;
use vstd::bytes::*;
use vstd::prelude::*;
use vstd::slice::slice_subrange;

verus! {

/// The layout of a page: fixed where keys and values all have one width.
pub enum PageType {
    Variable,
    Fixed,
}

/// The entries of one block.
pub struct SlottedPage<K, V> {
    pub page_type: PageType,
    pub num_cells: u16,
    pub cells: Vec<(K, Option<V>)>,
    pub space_left: u32,
}

/// Both the key type and the value type have a fixed width.
pub open spec fn is_fixed<K: Key, V: Stored>() -> bool {
    K::width() > 0 && V::width() > 0
}

/// The entries of a page by their views.
pub open spec fn cells_view<K: View, V: View>(s: Seq<(K, Option<V>)>) -> Seq<(K::V, Option<V::V>)> {
    Seq::new(s.len(), |i: int| (s[i].0@, opt_view(s[i].1)))
}

/// `n` zero bytes.
pub open spec fn zeros(n: int) -> Seq<u8> {
    Seq::new(n as nat, |i: int| 0u8)
}

/// An optional value in a variable page: a tag byte, then the value if there is one.
pub open spec fn value_wire<V: Stored>(v: Option<V::V>) -> Seq<u8> {
    match v {
        None => seq![0u8],
        Some(x) => seq![1u8] + V::wire(x),
    }
}

/// An optional value in a fixed page: a tag byte, then the value, or zeros of
/// the value's width for a tombstone.
pub open spec fn padded_value_wire<V: Stored>(v: Option<V::V>) -> Seq<u8> {
    match v {
        None => seq![0u8] + zeros(V::width()),
        Some(x) => seq![1u8] + V::wire(x),
    }
}

/// The bytes of one cell. Fixed: key, then padded value. Variable: key length,
/// key, value length, value, each length as two little-endian bytes.
pub open spec fn cell_wire<K: Key, V: Stored>(cell: (K::V, Option<V::V>)) -> Seq<u8> {
    if is_fixed::<K, V>() {
        K::wire(cell.0) + padded_value_wire::<V>(cell.1)
    } else {
        spec_u16_to_le_bytes(K::wire(cell.0).len() as u16) + K::wire(cell.0)
            + spec_u16_to_le_bytes(value_wire::<V>(cell.1).len() as u16) + value_wire::<V>(cell.1)
    }
}

/// The space that a cell is charged: sixteen bytes and the lengths of its key
/// and of its tagged value.
pub open spec fn cell_cost<K: Key, V: Stored>(cell: (K::V, Option<V::V>)) -> nat {
    if is_fixed::<K, V>() {
        (16 + K::width() + V::width() + 1) as nat
    } else {
        16 + K::wire(cell.0).len() + value_wire::<V>(cell.1).len()
    }
}

/// The space that all cells are charged.
pub open spec fn total_cost<K: Key, V: Stored>(cells: Seq<(K::V, Option<V::V>)>) -> nat
    decreases cells.len(),
{
    if cells.len() == 0 {
        0
    } else {
        total_cost::<K, V>(cells.drop_last()) + cell_cost::<K, V>(cells.last())
    }
}

/// The cells of a page as bytes.
pub open spec fn wires<K: Key, V: Stored>(cells: Seq<(K::V, Option<V::V>)>) -> Seq<Seq<u8>> {
    Seq::new(cells.len(), |i: int| cell_wire::<K, V>(cells[i]))
}

/// The length of the header: the count word, and in a fixed page the two widths.
pub open spec fn header_len<K: Key, V: Stored>() -> int {
    if is_fixed::<K, V>() {
        6
    } else {
        2
    }
}

/// The header of a page of `n` cells. The top bit of the count word marks a
/// variable page.
pub open spec fn header<K: Key, V: Stored>(n: int) -> Seq<u8> {
    if is_fixed::<K, V>() {
        spec_u16_to_le_bytes(n as u16) + spec_u16_to_le_bytes(K::width() as u16)
            + spec_u16_to_le_bytes((V::width() + 1) as u16)
    } else {
        spec_u16_to_le_bytes((n + 0x8000) as u16)
    }
}

/// The block that holds the given cells.
pub open spec fn encode_spec<K: Key, V: Stored>(cells: Seq<(K::V, Option<V::V>)>) -> Seq<u8> {
    pack(header::<K, V>(cells.len() as int), wires::<K, V>(cells))
}

/// The header of `b` is that of a page of this key and value type.
pub open spec fn header_ok<K: Key, V: Stored>(b: Seq<u8>) -> bool {
    &&& b.len() == BLOCK_SIZE
    &&& if is_fixed::<K, V>() {
        word_at(b, 0) < 0x8000 && word_at(b, 2) == K::width() && word_at(b, 4) == V::width() + 1
    } else {
        word_at(b, 0) >= 0x8000
    }
}

/// The number of cells that the header of `b` announces.
pub open spec fn cell_count<K: Key, V: Stored>(b: Seq<u8>) -> int {
    if is_fixed::<K, V>() {
        word_at(b, 0)
    } else {
        word_at(b, 0) - 0x8000
    }
}

/// `w` is the bytes of some cell.
pub open spec fn readable<K: Key, V: Stored>(w: Seq<u8>) -> bool {
    exists|c: (K::V, Option<V::V>)| cell_wire::<K, V>(c) == w
}

/// The cell whose bytes are `w`.
pub open spec fn cell_of<K: Key, V: Stored>(w: Seq<u8>) -> (K::V, Option<V::V>) {
    choose|c: (K::V, Option<V::V>)| cell_wire::<K, V>(c) == w
}

/// The cells that `b` holds.
pub open spec fn page_cells<K: Key, V: Stored>(b: Seq<u8>) -> Seq<(K::V, Option<V::V>)> {
    Seq::new(
        cell_count::<K, V>(b) as nat,
        |i: int| cell_of::<K, V>(cell_at(b, header_len::<K, V>(), i)),
    )
}

/// `b` is a page of this key and value type: its header and offset table are
/// sound, every cell can be read, the keys ascend and the cells' cost is
/// within one block.
pub open spec fn decodes<K: Key, V: Stored>(b: Seq<u8>) -> bool {
    &&& header_ok::<K, V>(b)
    &&& table_ok(b, header_len::<K, V>(), cell_count::<K, V>(b))
    &&& forall|i: int|
        0 <= i < cell_count::<K, V>(b) ==> readable::<K, V>(
            #[trigger] cell_at(b, header_len::<K, V>(), i),
        )
    &&& ascending::<K>(firsts(page_cells::<K, V>(b)))
    &&& total_cost::<K, V>(page_cells::<K, V>(b)) <= BLOCK_SIZE
}

/// The cells of the page that `b` holds, if it holds one.
pub open spec fn decode_spec<K: Key, V: Stored>(b: Seq<u8>) -> Option<Seq<(K::V, Option<V::V>)>> {
    if decodes::<K, V>(b) {
        Some(page_cells::<K, V>(b))
    } else {
        None
    }
}

/// Whether a page with this much space left takes the entry: its cost must
/// not exceed the space left, whether the page holds its key or not.
pub open spec fn accepts<K: Key, V: Stored>(space_left: int, k: K::V, v: Option<V::V>) -> bool {
    cell_cost::<K, V>((k, v)) <= space_left
}

/// The space that is left after an entry is put into a page with these
/// cells: its cost is taken off, and the cost of the cell that it replaces,
/// if the page holds its key, is given back.
pub open spec fn space_after<K: Key, V: Stored>(
    cells: Seq<(K::V, Option<V::V>)>,
    space_left: int,
    k: K::V,
    v: Option<V::V>,
) -> int {
    space_left - cell_cost::<K, V>((k, v)) + match lookup::<K, Option<V::V>>(cells, k) {
        Some(old) => cell_cost::<K, V>((k, old)),
        None => 0,
    }
}

impl<K: Key, V: Stored> View for SlottedPage<K, V> {
    type V = Seq<(K::V, Option<V::V>)>;

    open spec fn view(&self) -> Seq<(K::V, Option<V::V>)> {
        cells_view(self.cells@)
    }
}

pub proof fn lemma_total_cost_bounds<K: Key, V: Stored>(cells: Seq<(K::V, Option<V::V>)>, i: int)
    requires
        0 <= i <= cells.len(),
    ensures
        16 * cells.len() <= total_cost::<K, V>(cells),
        total_cost::<K, V>(cells.take(i)) <= total_cost::<K, V>(cells),
        i < cells.len() ==> total_cost::<K, V>(cells.take(i + 1)) == total_cost::<K, V>(
            cells.take(i),
        ) + cell_cost::<K, V>(cells[i]),
        i < cells.len() ==> cell_cost::<K, V>(cells[i]) <= total_cost::<K, V>(cells),
    decreases cells.len(),
{
    if cells.len() > 0 {
        let front = cells.drop_last();
        if is_fixed::<K, V>() {
            K::lemma_width(cells.last().0);
        }
        if i == cells.len() {
            assert(cells.take(i) =~= cells);
            lemma_total_cost_bounds::<K, V>(front, i - 1);
        } else {
            lemma_total_cost_bounds::<K, V>(front, i);
            assert(front.take(i) =~= cells.take(i));
            if i + 1 == cells.len() {
                assert(cells.take(i + 1) =~= cells);
                assert(front.take(i) =~= front);
            } else {
                assert(front.take(i + 1) =~= cells.take(i + 1));
            }
        }
    } else {
        assert(cells.take(i) =~= cells);
    }
}

pub proof fn lemma_total_cost_insert<K: Key, V: Stored>(
    cells: Seq<(K::V, Option<V::V>)>,
    r: int,
    c: (K::V, Option<V::V>),
)
    requires
        0 <= r <= cells.len(),
    ensures
        total_cost::<K, V>(cells.insert(r, c)) == total_cost::<K, V>(cells) + cell_cost::<K, V>(c),
    decreases cells.len(),
{
    let t = cells.insert(r, c);
    if r == cells.len() {
        assert(t.drop_last() =~= cells);
    } else {
        assert(t.drop_last() =~= cells.drop_last().insert(r, c));
        assert(t.last() == cells.last());
        lemma_total_cost_insert::<K, V>(cells.drop_last(), r, c);
    }
}

pub proof fn lemma_total_cost_update<K: Key, V: Stored>(
    cells: Seq<(K::V, Option<V::V>)>,
    r: int,
    c: (K::V, Option<V::V>),
)
    requires
        0 <= r < cells.len(),
    ensures
        total_cost::<K, V>(cells.update(r, c)) + cell_cost::<K, V>(cells[r]) == total_cost::<K, V>(
            cells,
        ) + cell_cost::<K, V>(c),
    decreases cells.len(),
{
    let t = cells.update(r, c);
    if r == cells.len() - 1 {
        assert(t.drop_last() =~= cells.drop_last());
    } else {
        assert(t.drop_last() =~= cells.drop_last().update(r, c));
        assert(t.last() == cells.last());
        lemma_total_cost_update::<K, V>(cells.drop_last(), r, c);
    }
}

impl<K: Key, V: Stored> SlottedPage<K, V> {
    /// The page is what `add_cell` builds: its layout is that of its key and
    /// value types, its keys ascend, and its counters agree with its cells.
    pub open spec fn wf(&self) -> bool {
        &&& (self.page_type is Fixed) == is_fixed::<K, V>()
        &&& self.num_cells == self.cells@.len()
        &&& ascending::<K>(keys_of(self.cells@))
        &&& self.space_left + total_cost::<K, V>(self@) == BLOCK_SIZE
    }

    /// An empty page with a whole block free.
    pub fn new() -> (page: Self)
        ensures
            page.wf(),
            page@ == Seq::<(K::V, Option<V::V>)>::empty(),
            page.num_cells == 0,
            page.space_left == BLOCK_SIZE,
    {
        let key_width = K::bit_width();
        let val_width = V::bit_width();
        let page_type = if key_width > 0 && val_width > 0 {
            PageType::Fixed
        } else {
            PageType::Variable
        };
        let page = SlottedPage { page_type, num_cells: 0, cells: Vec::new(), space_left: 4096 };
        assert(page@ =~= Seq::<(K::V, Option<V::V>)>::empty());
        page
    }
}

/// The length of a cell's bytes against its cost: the cost charges twelve
/// bytes on top of a variable cell, sixteen on top of a fixed one.
pub proof fn lemma_cell_len<K: Key, V: Stored>(cell: (K::V, Option<V::V>))
    ensures
        cell_wire::<K, V>(cell).len() > 0,
        cell_wire::<K, V>(cell).len() + (if is_fixed::<K, V>() {
            16int
        } else {
            12int
        }) == cell_cost::<K, V>(cell),
{
    lemma_auto_spec_u16_to_from_le_bytes();
    K::lemma_width(cell.0);
    if is_fixed::<K, V>() {
        if let Some(x) = cell.1 {
            V::lemma_width(x);
        }
    } else {
        let kl = K::wire(cell.0).len() as u16;
        let vl = value_wire::<V>(cell.1).len() as u16;
        assert(spec_u16_to_le_bytes(kl).len() == 2);
        assert(spec_u16_to_le_bytes(vl).len() == 2);
    }
}

/// Different cells within a block never share their bytes.
pub proof fn lemma_cell_wire_injective<K: Key, V: Stored>(
    a: (K::V, Option<V::V>),
    b: (K::V, Option<V::V>),
)
    requires
        cell_wire::<K, V>(a) == cell_wire::<K, V>(b),
        cell_wire::<K, V>(a).len() <= BLOCK_SIZE,
    ensures
        a == b,
{
    lemma_auto_spec_u16_to_from_le_bytes();
    lemma_cell_len::<K, V>(a);
    lemma_cell_len::<K, V>(b);
    K::lemma_width(a.0);
    K::lemma_width(b.0);
    let w = cell_wire::<K, V>(a);
    let ka = K::wire(a.0);
    let kb = K::wire(b.0);
    if is_fixed::<K, V>() {
        let kw = K::width();
        assert(w.subrange(0, kw) =~= ka);
        assert(w.subrange(0, kw) =~= kb);
        K::lemma_wire_injective(a.0, b.0);
        let pa = padded_value_wire::<V>(a.1);
        let pb = padded_value_wire::<V>(b.1);
        assert(w.subrange(kw, w.len() as int) =~= pa);
        assert(w.subrange(kw, w.len() as int) =~= pb);
        assert(pa[0] == pb[0]);
        match (a.1, b.1) {
            (Some(x), Some(y)) => {
                assert(pa.subrange(1, pa.len() as int) =~= V::wire(x));
                assert(pb.subrange(1, pb.len() as int) =~= V::wire(y));
                V::lemma_wire_injective(x, y);
            },
            _ => {},
        }
    } else {
        let va = value_wire::<V>(a.1);
        let vb = value_wire::<V>(b.1);
        let la = spec_u16_to_le_bytes(ka.len() as u16);
        let lb = spec_u16_to_le_bytes(kb.len() as u16);
        assert(la.len() == 2 && lb.len() == 2);
        assert(w.subrange(0, 2) =~= la);
        assert(w.subrange(0, 2) =~= lb);
        assert(spec_u16_from_le_bytes(la) == ka.len() as u16);
        assert(spec_u16_from_le_bytes(lb) == kb.len() as u16);
        assert(ka.len() == kb.len());
        let n = ka.len() as int;
        assert(w.subrange(2, 2 + n) =~= ka);
        assert(w.subrange(2, 2 + n) =~= kb);
        K::lemma_wire_injective(a.0, b.0);
        assert(spec_u16_to_le_bytes(va.len() as u16).len() == 2);
        assert(spec_u16_to_le_bytes(vb.len() as u16).len() == 2);
        assert(w.subrange(4 + n, w.len() as int) =~= va);
        assert(w.subrange(4 + n, w.len() as int) =~= vb);
        assert(va[0] == vb[0]);
        match (a.1, b.1) {
            (Some(x), Some(y)) => {
                assert(va.subrange(1, va.len() as int) =~= V::wire(x));
                assert(vb.subrange(1, vb.len() as int) =~= V::wire(y));
                V::lemma_wire_injective(x, y);
            },
            _ => {},
        }
    }
}

/// The cells of a page whose cost is within a block fit into the block, and
/// there are at most 256 of them.
pub proof fn lemma_fits<K: Key, V: Stored>(cells: Seq<(K::V, Option<V::V>)>)
    requires
        total_cost::<K, V>(cells) <= BLOCK_SIZE,
    ensures
        cells.len() <= 256,
        header::<K, V>(cells.len() as int).len() == header_len::<K, V>(),
        total_len(wires::<K, V>(cells)) + 12 * cells.len() <= total_cost::<K, V>(cells),
        fits(header_len::<K, V>(), wires::<K, V>(cells)),
    decreases cells.len(),
{
    lemma_auto_spec_u16_to_from_le_bytes();
    let n = cells.len() as int;
    assert(spec_u16_to_le_bytes(n as u16).len() == 2);
    assert(spec_u16_to_le_bytes((n + 0x8000) as u16).len() == 2);
    assert(spec_u16_to_le_bytes(K::width() as u16).len() == 2);
    assert(spec_u16_to_le_bytes((V::width() + 1) as u16).len() == 2);
    lemma_total_cost_bounds::<K, V>(cells, 0);
    if cells.len() > 0 {
        let front = cells.drop_last();
        lemma_fits::<K, V>(front);
        lemma_cell_len::<K, V>(cells.last());
        assert(wires::<K, V>(cells).drop_last() =~= wires::<K, V>(front));
    }
}

/// A block that starts with the header of a page of `n` cells has a sound
/// header that announces `n` cells.
pub proof fn lemma_header_read<K: Key, V: Stored>(b: Seq<u8>, n: int)
    requires
        0 <= n <= 256,
        b.len() == BLOCK_SIZE,
        b.subrange(0, header_len::<K, V>()) == header::<K, V>(n),
    ensures
        header_ok::<K, V>(b),
        cell_count::<K, V>(b) == n,
{
    lemma_auto_spec_u16_to_from_le_bytes();
    let h = header::<K, V>(n);
    let front = b.subrange(0, header_len::<K, V>());
    if is_fixed::<K, V>() {
        K::lemma_width(arbitrary());
        V::lemma_width(arbitrary());
        let a = spec_u16_to_le_bytes(n as u16);
        let kwb = spec_u16_to_le_bytes(K::width() as u16);
        let vwb = spec_u16_to_le_bytes((V::width() + 1) as u16);
        assert(a.len() == 2 && kwb.len() == 2 && vwb.len() == 2);
        assert(b.subrange(0, 2) =~= front.subrange(0, 2));
        assert(b.subrange(2, 4) =~= front.subrange(2, 4));
        assert(b.subrange(4, 6) =~= front.subrange(4, 6));
        assert(h.subrange(0, 2) =~= a);
        assert(h.subrange(2, 4) =~= kwb);
        assert(h.subrange(4, 6) =~= vwb);
        assert(spec_u16_from_le_bytes(a) == n as u16);
        assert(spec_u16_from_le_bytes(kwb) == K::width() as u16);
        assert(spec_u16_from_le_bytes(vwb) == (V::width() + 1) as u16);
    } else {
        let a = spec_u16_to_le_bytes((n + 0x8000) as u16);
        assert(a.len() == 2);
        assert(b.subrange(0, 2) =~= front);
        assert(spec_u16_from_le_bytes(a) == (n + 0x8000) as u16);
    }
}

/// Decoding the encoding of a page gives back its cells.
pub proof fn lemma_decode_encode<K: Key, V: Stored>(cells: Seq<(K::V, Option<V::V>)>)
    requires
        ascending::<K>(firsts(cells)),
        total_cost::<K, V>(cells) <= BLOCK_SIZE,
    ensures
        decode_spec::<K, V>(encode_spec::<K, V>(cells)) == Some(cells),
{
    lemma_fits::<K, V>(cells);
    let n = cells.len() as int;
    let h = header::<K, V>(n);
    let hl = header_len::<K, V>();
    let w = wires::<K, V>(cells);
    let b = encode_spec::<K, V>(cells);
    assert forall|i: int| 0 <= i < w.len() implies (#[trigger] w[i]).len() > 0 by {
        lemma_cell_len::<K, V>(cells[i]);
    }
    lemma_unpack_pack(h, w);
    lemma_pack_header(h, w);
    lemma_header_read::<K, V>(b, n);
    assert forall|i: int| 0 <= i < n implies readable::<K, V>(#[trigger] cell_at(b, hl, i))
        && cell_of::<K, V>(cell_at(b, hl, i)) == cells[i] by {
        assert(unpack(b, hl, n)[i] == w[i]);
        assert(cell_wire::<K, V>(cells[i]) == w[i]);
        lemma_cell_len::<K, V>(cells[i]);
        lemma_total_cost_bounds::<K, V>(cells, i);
        lemma_cell_wire_injective::<K, V>(cell_of::<K, V>(w[i]), cells[i]);
    }
    assert(page_cells::<K, V>(b) =~= cells);
}

/// The cost of a cell, or `usize::MAX` where the cost exceeds two blocks.
pub fn measure<K: Key, V: Stored>(k: &K, v: &Option<V>) -> (c: usize)
    ensures
        cell_cost::<K, V>((k@, opt_view(*v))) <= 2 * BLOCK_SIZE ==> c == cell_cost::<K, V>(
            (k@, opt_view(*v)),
        ),
        cell_cost::<K, V>((k@, opt_view(*v))) > 2 * BLOCK_SIZE ==> c == usize::MAX,
{
    let key_width = K::bit_width();
    let val_width = V::bit_width();
    if key_width > 0 && val_width > 0 {
        let c: usize = 17 + key_width as usize + val_width as usize;
        if c > 2 * BLOCK_SIZE {
            usize::MAX
        } else {
            c
        }
    } else {
        let key_len = k.serialize().len();
        let val_len = match v {
            None => 0,
            Some(x) => x.serialize().len(),
        };
        assert(value_wire::<V>(opt_view(*v)).len() == val_len + 1);
        if key_len > 2 * BLOCK_SIZE || val_len > 2 * BLOCK_SIZE {
            return usize::MAX;
        }
        let c: usize = 17 + key_len + val_len;
        if c > 2 * BLOCK_SIZE {
            usize::MAX
        } else {
            c
        }
    }
}

impl<K: Key, V: Stored> SlottedPage<K, V> {
    /// Puts an entry into the page if its cost does not exceed the space
    /// left, and hands it back if it does, leaving the page as it was. An
    /// entry whose key the page holds replaces the old entry: the number of
    /// cells stays, and the cost of the old entry is given back.
    pub fn add_cell(&mut self, k: K, v: Option<V>) -> (r: Result<(), (K, Option<V>)>)
        requires
            old(self).wf(),
        ensures
            final(self).wf(),
            match r {
                Ok(()) => {
                    &&& accepts::<K, V>(old(self).space_left as int, k@, opt_view(v))
                    &&& final(self)@ == upsert::<K, Option<V::V>>(old(self)@, k@, opt_view(v))
                    &&& final(self).space_left == space_after::<K, V>(
                        old(self)@,
                        old(self).space_left as int,
                        k@,
                        opt_view(v),
                    )
                    &&& final(self).num_cells == if lookup::<K, Option<V::V>>(
                        old(self)@,
                        k@,
                    ) is Some {
                        old(self).num_cells as int
                    } else {
                        old(self).num_cells + 1
                    }
                },
                Err(back) => {
                    &&& !accepts::<K, V>(old(self).space_left as int, k@, opt_view(v))
                    &&& back == (k, v)
                    &&& *final(self) == *old(self)
                },
            },
    {
        let ghost before = self@;
        let ghost cell = (k@, opt_view(v));
        proof {
            assert(firsts(before) =~= keys_of(self.cells@));
            lemma_rank::<K>(firsts(before), k@);
            lemma_upsert::<K, Option<V::V>>(before, k@, opt_view(v));
            lemma_total_cost_bounds::<K, V>(before, 0);
        }
        let r = search(&self.cells, &k);
        let held = holds(&self.cells, r, &k);
        let cost = measure(&k, &v);
        let credit = if held {
            proof {
                lemma_total_cost_bounds::<K, V>(before, r as int);
                assert(before[r as int] == (self.cells@[r as int].0@, opt_view(self.cells@[r as int].1)));
            }
            measure(&self.cells[r].0, &self.cells[r].1)
        } else {
            0
        };
        if cost > self.space_left as usize {
            return Err((k, v));
        }
        self.space_left = (self.space_left as usize - cost + credit) as u32;
        if held {
            proof {
                lemma_total_cost_update::<K, V>(before, r as int, cell);
            }
            self.cells.set(r, (k, v));
            assert(self@ =~= before.update(r as int, cell));
        } else {
            proof {
                lemma_total_cost_insert::<K, V>(before, r as int, cell);
                lemma_total_cost_bounds::<K, V>(before.insert(r as int, cell), 0);
            }
            self.cells.insert(r, (k, v));
            self.num_cells = self.num_cells + 1;
            assert(self@ =~= before.insert(r as int, cell));
        }
        assert(firsts(self@) =~= keys_of(self.cells@));
        Ok(())
    }
}


/// The bytes of an optional value in a variable page.
pub fn write_value<V: Stored>(v: &Option<V>) -> (bytes: Vec<u8>)
    ensures
        bytes@ == value_wire::<V>(opt_view(*v)),
{
    let mut bytes: Vec<u8> = Vec::new();
    match v {
        None => {
            bytes.push(0u8);
            assert(bytes@ =~= value_wire::<V>(opt_view(*v)));
        },
        Some(x) => {
            bytes.push(1u8);
            let mut payload = x.serialize();
            bytes.append(&mut payload);
            assert(bytes@ =~= value_wire::<V>(opt_view(*v)));
        },
    }
    bytes
}

/// The bytes of an optional value in a fixed page.
pub fn write_padded_value<V: Stored>(v: &Option<V>) -> (bytes: Vec<u8>)
    requires
        V::width() > 0,
    ensures
        bytes@ == padded_value_wire::<V>(opt_view(*v)),
{
    let mut bytes: Vec<u8> = Vec::new();
    match v {
        None => {
            bytes.push(0u8);
            let width = V::bit_width();
            let mut i: i16 = 0;
            while i < width
                invariant
                    0 <= i <= width,
                    width == V::width(),
                    bytes@ == seq![0u8] + zeros(i as int),
                decreases width - i,
            {
                bytes.push(0u8);
                i = i + 1;
                assert(bytes@ =~= seq![0u8] + zeros(i as int));
            }
        },
        Some(x) => {
            bytes.push(1u8);
            let mut payload = x.serialize();
            bytes.append(&mut payload);
            assert(bytes@ =~= padded_value_wire::<V>(opt_view(*v)));
        },
    }
    bytes
}

/// The bytes of one cell.
pub fn write_cell<K: Key, V: Stored>(k: &K, v: &Option<V>) -> (bytes: Vec<u8>)
    requires
        cell_cost::<K, V>((k@, opt_view(*v))) <= BLOCK_SIZE,
    ensures
        bytes@ == cell_wire::<K, V>((k@, opt_view(*v))),
{
    let key_width = K::bit_width();
    let val_width = V::bit_width();
    let mut key = k.serialize();
    if key_width > 0 && val_width > 0 {
        let mut value = write_padded_value(v);
        key.append(&mut value);
        key
    } else {
        let mut value = write_value(v);
        let mut bytes = serialize_u16(key.len() as u16);
        let mut value_len = serialize_u16(value.len() as u16);
        bytes.append(&mut key);
        bytes.append(&mut value_len);
        bytes.append(&mut value);
        bytes
    }
}

/// Encodes a page into one block: the header, the offset table, zeros, and
/// the cells in key order from the end of the block backward.
pub fn encode<K: Key, V: Stored>(page: &SlottedPage<K, V>) -> (block: Vec<u8>)
    requires
        page.wf(),
    ensures
        block@ == encode_spec::<K, V>(page@),
        block@.len() == BLOCK_SIZE,
{
    let ghost cells = page@;
    proof {
        lemma_fits::<K, V>(cells);
        lemma_pack_header(header::<K, V>(cells.len() as int), wires::<K, V>(cells));
    }
    let key_width = K::bit_width();
    let val_width = V::bit_width();
    let header = if key_width > 0 && val_width > 0 {
        let mut h = serialize_u16(page.num_cells);
        let mut kw = serialize_u16(key_width as u16);
        let mut vw = serialize_u16(val_width as u16 + 1);
        h.append(&mut kw);
        h.append(&mut vw);
        h
    } else {
        serialize_u16(page.num_cells + 0x8000)
    };
    let mut cell_bytes: Vec<Vec<u8>> = Vec::new();
    let mut i: usize = 0;
    while i < page.cells.len()
        invariant
            0 <= i <= page.cells@.len(),
            cells == page@,
            total_cost::<K, V>(cells) <= BLOCK_SIZE,
            cell_bytes@.len() == i,
            forall|j: int| 0 <= j < i ==> (#[trigger] cell_bytes@[j])@ == cell_wire::<K, V>(cells[j]),
        decreases page.cells@.len() - i,
    {
        proof {
            lemma_total_cost_bounds::<K, V>(cells, i as int);
            assert(cells[i as int] == (page.cells@[i as int].0@, opt_view(page.cells@[i as int].1)));
        }
        let bytes = write_cell(&page.cells[i].0, &page.cells[i].1);
        cell_bytes.push(bytes);
        i += 1;
    }
    assert(views(cell_bytes@) =~= wires::<K, V>(cells));
    pack_block(header, &cell_bytes)
}


/// Reads an optional value of a variable page from exactly its bytes.
pub fn read_value<V: Stored>(bytes: &[u8]) -> (r: Option<Option<V>>)
    ensures
        match r {
            Some(v) => value_wire::<V>(opt_view(v)) == bytes@,
            None => forall|v: Option<V::V>| value_wire::<V>(v) != bytes@,
        },
{
    let len = bytes.len();
    if len == 0 {
        assert forall|v: Option<V::V>| value_wire::<V>(v) != bytes@ by {
            assert(value_wire::<V>(v).len() > 0);
        }
        return None;
    }
    let tag = bytes[0];
    let rest = slice_subrange(bytes, 1, len);
    proof {
        assert forall|v: Option<V::V>| value_wire::<V>(v) == bytes@ implies (match v {
            None => tag == 0 && len == 1,
            Some(x) => tag == 1 && V::wire(x) == rest@,
        }) by {
            let w = value_wire::<V>(v);
            assert(w[0] == bytes@[0]);
            if let Some(x) = v {
                assert(w.subrange(1, w.len() as int) =~= V::wire(x));
            }
        }
    }
    if tag == 0 {
        if len != 1 {
            return None;
        }
        assert(bytes@ =~= seq![0u8]);
        Some(None)
    } else if tag == 1 {
        match V::deserialize(rest) {
            None => None,
            Some(x) => {
                assert(bytes@ =~= seq![1u8] + rest@);
                Some(Some(x))
            },
        }
    } else {
        None
    }
}

/// Whether every byte is zero.
pub fn all_zero(bytes: &[u8]) -> (r: bool)
    ensures
        r == (bytes@ == zeros(bytes@.len() as int)),
{
    let mut i: usize = 0;
    while i < bytes.len()
        invariant
            0 <= i <= bytes@.len(),
            forall|j: int| 0 <= j < i ==> bytes@[j] == 0u8,
        decreases bytes@.len() - i,
    {
        if bytes[i] != 0 {
            assert(zeros(bytes@.len() as int)[i as int] == 0u8);
            return false;
        }
        i += 1;
    }
    assert(bytes@ =~= zeros(bytes@.len() as int));
    true
}

/// Reads an optional value of a fixed page from exactly its bytes.
pub fn read_padded_value<V: Stored>(bytes: &[u8]) -> (r: Option<Option<V>>)
    requires
        V::width() > 0,
    ensures
        match r {
            Some(v) => padded_value_wire::<V>(opt_view(v)) == bytes@,
            None => forall|v: Option<V::V>| padded_value_wire::<V>(v) != bytes@,
        },
{
    let len = bytes.len();
    let width = V::bit_width() as usize;
    proof {
        assert forall|v: Option<V::V>| (#[trigger] padded_value_wire::<V>(v)).len() == width
            + 1 by {
            if let Some(x) = v {
                V::lemma_width(x);
            }
        }
    }
    if len != width + 1 {
        return None;
    }
    let tag = bytes[0];
    let rest = slice_subrange(bytes, 1, len);
    proof {
        assert forall|v: Option<V::V>| padded_value_wire::<V>(v) == bytes@ implies (match v {
            None => tag == 0 && rest@ == zeros(width as int),
            Some(x) => tag == 1 && V::wire(x) == rest@,
        }) by {
            let w = padded_value_wire::<V>(v);
            assert(w[0] == bytes@[0]);
            match v {
                Some(x) => {
                    assert(w.subrange(1, w.len() as int) =~= V::wire(x));
                },
                None => {
                    assert(w.subrange(1, w.len() as int) =~= zeros(width as int));
                },
            }
        }
    }
    if tag == 0 {
        if !all_zero(rest) {
            return None;
        }
        assert(bytes@ =~= seq![0u8] + rest@);
        Some(None)
    } else if tag == 1 {
        match V::deserialize(rest) {
            None => None,
            Some(x) => {
                assert(bytes@ =~= seq![1u8] + rest@);
                Some(Some(x))
            },
        }
    } else {
        None
    }
}


/// Reads one cell from exactly its bytes.
pub fn read_cell<K: Key, V: Stored>(bytes: &[u8]) -> (r: Option<(K, Option<V>)>)
    requires
        bytes@.len() <= BLOCK_SIZE,
    ensures
        match r {
            Some(c) => cell_wire::<K, V>((c.0@, opt_view(c.1))) == bytes@,
            None => !readable::<K, V>(bytes@),
        },
{
    let len = bytes.len();
    let key_width = K::bit_width();
    let val_width = V::bit_width();
    if key_width > 0 && val_width > 0 {
        let kw = key_width as usize;
        proof {
            assert forall|c: (K::V, Option<V::V>)| cell_wire::<K, V>(c) == bytes@ implies len
                >= kw && K::wire(c.0) == bytes@.subrange(0, kw as int) && padded_value_wire::<V>(
                c.1,
            ) == bytes@.subrange(kw as int, len as int) by {
                K::lemma_width(c.0);
                let w = cell_wire::<K, V>(c);
                assert(w.subrange(0, kw as int) =~= K::wire(c.0));
                assert(w.subrange(kw as int, w.len() as int) =~= padded_value_wire::<V>(c.1));
            }
        }
        if len < kw {
            return None;
        }
        let key = match K::deserialize(slice_subrange(bytes, 0, kw)) {
            None => { return None; },
            Some(k) => k,
        };
        let value = match read_padded_value::<V>(slice_subrange(bytes, kw, len)) {
            None => { return None; },
            Some(v) => v,
        };
        assert(bytes@ =~= bytes@.subrange(0, kw as int) + bytes@.subrange(kw as int, len as int));
        Some((key, value))
    } else {
        proof {
            lemma_auto_spec_u16_to_from_le_bytes();
            assert forall|c: (K::V, Option<V::V>)| cell_wire::<K, V>(c) == bytes@ implies {
                let kl = K::wire(c.0).len() as int;
                let vl = value_wire::<V>(c.1).len() as int;
                &&& len == 4 + kl + vl
                &&& word_at(bytes@, 0) == kl
                &&& K::wire(c.0) == bytes@.subrange(2, 2 + kl)
                &&& word_at(bytes@, 2 + kl) == vl
                &&& value_wire::<V>(c.1) == bytes@.subrange(4 + kl, len as int)
            } by {
                let w = cell_wire::<K, V>(c);
                let kb = K::wire(c.0);
                let vb = value_wire::<V>(c.1);
                let kl = kb.len() as int;
                let a = spec_u16_to_le_bytes(kb.len() as u16);
                let b = spec_u16_to_le_bytes(vb.len() as u16);
                assert(a.len() == 2 && b.len() == 2);
                assert(w.subrange(0, 2) =~= a);
                assert(w.subrange(2, 2 + kl) =~= kb);
                assert(w.subrange(2 + kl, 4 + kl) =~= b);
                assert(w.subrange(4 + kl, w.len() as int) =~= vb);
                assert(spec_u16_from_le_bytes(a) == kb.len() as u16);
                assert(spec_u16_from_le_bytes(b) == vb.len() as u16);
            }
        }
        if len < 4 {
            return None;
        }
        let kl = read_word(bytes, 0) as usize;
        if kl > len - 4 {
            return None;
        }
        let vl = read_word(bytes, 2 + kl) as usize;
        if vl != len - 4 - kl {
            return None;
        }
        let key = match K::deserialize(slice_subrange(bytes, 2, 2 + kl)) {
            None => { return None; },
            Some(k) => k,
        };
        let value = match read_value::<V>(slice_subrange(bytes, 4 + kl, len)) {
            None => { return None; },
            Some(v) => v,
        };
        proof {
            let a = bytes@.subrange(0, 2);
            let b = bytes@.subrange(2 + kl, 4 + kl);
            assert(spec_u16_to_le_bytes(spec_u16_from_le_bytes(a)) == a);
            assert(spec_u16_to_le_bytes(spec_u16_from_le_bytes(b)) == b);
            assert(bytes@ =~= a + bytes@.subrange(2, 2 + kl) + b + bytes@.subrange(
                4 + kl,
                len as int,
            ));
        }
        Some((key, value))
    }
}


/// Reads cell `i` of a block, given where the cell before it starts: the
/// cell and where it starts, or `None` where its table entry is unsound or
/// its bytes are those of no cell.
pub fn next_cell<K: Key, V: Stored>(
    bytes: &[u8],
    header: usize,
    count: usize,
    i: usize,
    edge_now: usize,
) -> (r: Option<(K, Option<V>, usize)>)
    requires
        bytes@.len() == BLOCK_SIZE,
        header + 2 * count <= BLOCK_SIZE,
        i < count,
        edge_now == edge(bytes@, header as int, i as int),
        edge_now <= BLOCK_SIZE - header - 2 * count,
    ensures
        match r {
            Some((k, v, start)) => {
                &&& start == slot(bytes@, header as int, i as int)
                &&& edge_now < start <= BLOCK_SIZE - header - 2 * count
                &&& readable::<K, V>(cell_at(bytes@, header as int, i as int))
                &&& cell_of::<K, V>(cell_at(bytes@, header as int, i as int)) == (k@, opt_view(v))
            },
            None => !(edge_now < slot(bytes@, header as int, i as int) <= BLOCK_SIZE - header - 2
                * count && readable::<K, V>(cell_at(bytes@, header as int, i as int))),
        },
{
    let start = read_word(bytes, header + 2 * i) as usize;
    if start <= edge_now || start > BLOCK_SIZE - header - 2 * count {
        return None;
    }
    let piece = slice_subrange(bytes, BLOCK_SIZE - start, BLOCK_SIZE - edge_now);
    match read_cell::<K, V>(piece) {
        None => None,
        Some((key, value)) => {
            proof {
                assert(readable::<K, V>(piece@));
                lemma_cell_wire_injective::<K, V>((key@, opt_view(value)), cell_of::<K, V>(piece@));
            }
            Some((key, value, start))
        },
    }
}

/// Decodes one block into the page that it holds: `None` where the block is
/// not a page of this key and value type.
#[verifier::rlimit(60)]
#[verifier::spinoff_prover]
pub fn decode<K: Key, V: Stored>(buf: &Vec<u8>) -> (r: Option<SlottedPage<K, V>>)
    ensures
        match r {
            Some(page) => page.wf() && decode_spec::<K, V>(buf@) == Some(page@),
            None => decode_spec::<K, V>(buf@) is None,
        },
{
    if buf.len() != BLOCK_SIZE {
        return None;
    }
    let bytes = buf.as_slice();
    let ghost b = buf@;
    let key_width = K::bit_width();
    let val_width = V::bit_width();
    let fixed = key_width > 0 && val_width > 0;
    let word = read_word(bytes, 0);
    let count: usize;
    let header: usize;
    let page_type: PageType;
    if fixed {
        if word >= 0x8000 || read_word(bytes, 2) != key_width as u16 || read_word(bytes, 4)
            != val_width as u16 + 1 {
            return None;
        }
        count = word as usize;
        header = 6;
        page_type = PageType::Fixed;
    } else {
        if word < 0x8000 {
            return None;
        }
        count = (word - 0x8000) as usize;
        header = 2;
        page_type = PageType::Variable;
    }
    assert(header_ok::<K, V>(b));
    assert(count == cell_count::<K, V>(b) && header == header_len::<K, V>());
    if header + 2 * count > BLOCK_SIZE {
        return None;
    }
    let ghost all = page_cells::<K, V>(b);
    let mut cells: Vec<(K, Option<V>)> = Vec::new();
    let mut cost: usize = 0;
    let mut edge_now: usize = 0;
    let mut i: usize = 0;
    while i < count
        invariant
            bytes@ == b,
            b == buf@,
            b.len() == BLOCK_SIZE,
            all == page_cells::<K, V>(b),
            all.len() == count,
            header == header_len::<K, V>(),
            header + 2 * count <= BLOCK_SIZE,
            0 <= i <= count,
            cells@.len() == i,
            edge_now == edge(b, header as int, i as int),
            edge_now <= BLOCK_SIZE - header - 2 * count,
            forall|j: int|
                0 <= j < i ==> edge(b, header as int, j) < #[trigger] slot(b, header as int, j)
                    <= BLOCK_SIZE - header - 2 * count,
            forall|j: int| 0 <= j < i ==> readable::<K, V>(#[trigger] cell_at(b, header as int, j)),
            cells_view(cells@) == all.take(i as int),
            ascending::<K>(keys_of(cells@)),
            cost == total_cost::<K, V>(all.take(i as int)),
            cost <= BLOCK_SIZE,
        decreases count - i,
    {
        let (key, value, start) = match next_cell::<K, V>(bytes, header, count, i, edge_now) {
            None => {
                assert(!decodes::<K, V>(b));
                return None;
            },
            Some(c) => c,
        };
        let ghost cell = (key@, opt_view(value));
        let ghost keys = keys_of(cells@);
        proof {
            assert(all[i as int] == cell);
            lemma_total_cost_bounds::<K, V>(all, i as int);
            lemma_total_cost_bounds::<K, V>(all, i as int + 1);
            assert(firsts(all)[i as int] == key@);
            if i > 0 {
                assert(all.take(i as int)[i - 1] == all[i - 1]);
                assert(firsts(all)[i - 1] == cells@[i - 1].0@);
                assert(keys.last() == cells@[i - 1].0@);
            }
        }
        if i > 0 {
            let ordered = cells[i - 1].0.precedes(&key);
            if !ordered {
                assert(!ascending::<K>(firsts(all)));
                return None;
            }
        }
        let charge = measure(&key, &value);
        if charge > BLOCK_SIZE - cost {
            assert(total_cost::<K, V>(all) > BLOCK_SIZE);
            return None;
        }
        proof {
            lemma_ascending_push::<K>(keys, key@);
            assert(keys_of(cells@.push((key, value))) =~= keys.push(key@));
            assert(cells_view(cells@.push((key, value))) =~= all.take(i as int + 1));
        }
        cells.push((key, value));
        cost = cost + charge;
        edge_now = start;
        i += 1;
    }
    proof {
        assert(all.take(count as int) =~= all);
        assert(firsts(all) =~= keys_of(cells@));
        assert(table_ok(b, header as int, count as int));
    }
    Some(
        SlottedPage {
            page_type,
            num_cells: count as u16,
            cells,
            space_left: (BLOCK_SIZE - cost) as u32,
        },
    )
}

} // verus!
