//! The block codec: fixed 8,192-byte blocks holding fixed-width rows of
//! 8-byte little-endian cells, decoded with tombstone elision and optional
//! filtering.

use vstd::prelude::*;

use crate::common::{ColumnType, RawRow, TableInfoMap, BLOCK_SIZE, COLUMN_WIDTH};
use crate::predicate::{apply_filters, spec_apply_filters, FilterType};

verus! {

use vstd::bytes::{spec_u64_from_le_bytes, spec_u64_to_le_bytes};
use vstd::slice::slice_subrange;

/// One fixed-size storage block.
#[derive(Debug)]
pub struct Block {
    bytes: Vec<u8>,
}

impl View for Block {
    type V = Seq<u8>;

    closed spec fn view(&self) -> Seq<u8> {
        self.bytes@
    }
}

impl Block {
    /// Every block holds exactly `BLOCK_SIZE` bytes.
    pub open spec fn wf(&self) -> bool {
        self@.len() == BLOCK_SIZE
    }

    /// A zeroed block.
    pub fn new() -> (r: Block)
        ensures
            r.wf(),
            forall|i: int| 0 <= i < r@.len() ==> r@[i] == 0u8,
    {
        let mut bytes: Vec<u8> = Vec::new();
        let mut i: usize = 0;
        while i < BLOCK_SIZE
            invariant
                i <= BLOCK_SIZE,
                bytes@.len() == i,
                forall|t: int| 0 <= t < i ==> bytes@[t] == 0u8,
            decreases BLOCK_SIZE - i,
        {
            bytes.push(0u8);
            i = i + 1;
        }
        Block { bytes }
    }

    /// Wraps a byte string that already has block size.
    pub fn from_bytes(bytes: Vec<u8>) -> (r: Block)
        requires
            bytes@.len() == BLOCK_SIZE,
        ensures
            r@ == bytes@,
            r.wf(),
    {
        Block { bytes }
    }

    /// An identical copy of the block.
    pub fn duplicate(&self) -> (r: Block)
        ensures
            r@ == self@,
    {
        let mut bytes: Vec<u8> = Vec::new();
        let n = self.bytes.len();
        let mut i: usize = 0;
        while i < n
            invariant
                i <= n,
                n == self@.len(),
                bytes@.len() == i,
                forall|t: int| 0 <= t < i ==> bytes@[t] == self@[t],
            decreases n - i,
        {
            bytes.push(self.bytes[i]);
            i = i + 1;
        }
        proof {
            assert(bytes@ =~= self@);
        }
        Block { bytes }
    }

    /// The block's bytes.
    pub fn bytes(&self) -> (r: &Vec<u8>)
        ensures
            r@ == self@,
    {
        &self.bytes
    }
}

/// Relies on byteorder's `LittleEndian::read_u64`: the first eight bytes of
/// the slice read as a little-endian unsigned 64-bit integer.  It panics on
/// a shorter slice, so one is excluded here.
#[verifier::external_body]
fn read_u64_le(bytes: &[u8]) -> (r: u64)
    requires
        bytes@.len() >= 8,
    ensures
        r == spec_u64_from_le_bytes(bytes@.subrange(0, 8)),
{
    <byteorder::LittleEndian as byteorder::ByteOrder>::read_u64(bytes)
}

/// How many whole rows of `columns` cells fit in `len` bytes.
pub open spec fn spec_slot_count(len: nat, columns: nat) -> nat {
    len / (columns * 8)
}

/// The cells of row slot `s` of a byte string.
pub open spec fn spec_slot(bytes: Seq<u8>, columns: nat, s: int) -> Seq<u64> {
    Seq::new(
        columns,
        |c: int|
            spec_u64_from_le_bytes(
                bytes.subrange(
                    s * (columns * 8) + c * 8,
                    s * (columns * 8) + c * 8 + 8,
                ),
            ),
    )
}

/// Every row slot of a byte string, tombstones included.
pub open spec fn spec_block_slots(bytes: Seq<u8>, columns: nat) -> Seq<Seq<u64>> {
    Seq::new(spec_slot_count(bytes.len(), columns) as nat, |s: int| spec_slot(bytes, columns, s))
}

/// Whether a row is live: its identifier cell exists and is non-zero.
pub open spec fn spec_live(row: Seq<u64>) -> bool {
    row.len() > 0 && row[0] != 0
}

/// The rows of a slot sequence that are live and match every filter, kept
/// in order.
pub open spec fn spec_selected_rows(
    rows: Seq<Seq<u64>>,
    filters: Seq<FilterType>,
    schema: Map<Seq<char>, (ColumnType, u64)>,
) -> Seq<Seq<u64>>
    decreases rows.len(),
{
    if rows.len() == 0 {
        Seq::empty()
    } else {
        let rest = spec_selected_rows(rows.drop_last(), filters, schema);
        if spec_live(rows.last()) && spec_apply_filters(rows.last(), filters, schema) {
            rest.push(rows.last())
        } else {
            rest
        }
    }
}

/// Block-by-block decode, concatenated in block order.
pub open spec fn spec_blocks_selected(
    blocks: Seq<Seq<u8>>,
    columns: nat,
    filters: Seq<FilterType>,
    schema: Map<Seq<char>, (ColumnType, u64)>,
) -> Seq<Seq<u64>>
    decreases blocks.len(),
{
    if blocks.len() == 0 {
        Seq::empty()
    } else {
        spec_blocks_selected(blocks.drop_last(), columns, filters, schema) + spec_selected_rows(
            spec_block_slots(blocks.last(), columns),
            filters,
            schema,
        )
    }
}

/// The mathematical rows of a row list.
pub open spec fn spec_rows_view(rows: Seq<RawRow>) -> Seq<Seq<u64>> {
    rows.map_values(|r: RawRow| r@)
}

/// No row of a selection is a tombstone: every decoded row is live,
/// whatever the filters.
pub proof fn lemma_selected_rows_live(
    rows: Seq<Seq<u64>>,
    filters: Seq<FilterType>,
    schema: Map<Seq<char>, (ColumnType, u64)>,
)
    ensures
        forall|i: int|
            0 <= i < spec_selected_rows(rows, filters, schema).len() ==> spec_live(
                #[trigger] spec_selected_rows(rows, filters, schema)[i],
            ),
    decreases rows.len(),
{
    if rows.len() > 0 {
        lemma_selected_rows_live(rows.drop_last(), filters, schema);
        let sel = spec_selected_rows(rows, filters, schema);
        let rest = spec_selected_rows(rows.drop_last(), filters, schema);
        assert forall|i: int| 0 <= i < sel.len() implies spec_live(sel[i]) by {
            if i < rest.len() {
                assert(sel[i] == rest[i]);
            }
        }
    }
}

/// The same, concatenated over every block of a sequence: no decode path
/// returns a tombstone.
pub proof fn lemma_blocks_selected_live(
    blocks: Seq<Seq<u8>>,
    columns: nat,
    filters: Seq<FilterType>,
    schema: Map<Seq<char>, (ColumnType, u64)>,
)
    ensures
        forall|i: int|
            0 <= i < spec_blocks_selected(blocks, columns, filters, schema).len() ==> spec_live(
                #[trigger] spec_blocks_selected(blocks, columns, filters, schema)[i],
            ),
    decreases blocks.len(),
{
    if blocks.len() > 0 {
        lemma_blocks_selected_live(blocks.drop_last(), columns, filters, schema);
        lemma_selected_rows_live(spec_block_slots(blocks.last(), columns), filters, schema);
        let sel = spec_blocks_selected(blocks, columns, filters, schema);
        let front = spec_blocks_selected(blocks.drop_last(), columns, filters, schema);
        let back = spec_selected_rows(spec_block_slots(blocks.last(), columns), filters, schema);
        assert forall|i: int| 0 <= i < sel.len() implies spec_live(sel[i]) by {
            if i < front.len() {
                assert(sel[i] == front[i]);
            } else {
                assert(sel[i] == back[i - front.len()]);
            }
        }
    }
}

/// A one-block sequence decodes to that block's selection.
proof fn lemma_blocks_selected_single(
    bytes: Seq<u8>,
    columns: nat,
    filters: Seq<FilterType>,
    schema: Map<Seq<char>, (ColumnType, u64)>,
)
    ensures
        spec_blocks_selected(seq![bytes], columns, filters, schema) == spec_selected_rows(
            spec_block_slots(bytes, columns),
            filters,
            schema,
        ),
{
    let single = seq![bytes];
    assert(single.drop_last() =~= Seq::<Seq<u8>>::empty());
    assert(single.last() == bytes);
    assert(spec_blocks_selected(Seq::<Seq<u8>>::empty(), columns, filters, schema) =~= Seq::<
        Seq<u64>,
    >::empty());
    assert(spec_blocks_selected(single, columns, filters, schema) =~= spec_selected_rows(
        spec_block_slots(bytes, columns),
        filters,
        schema,
    ));
}

proof fn lemma_slot_base_bounds(len: int, width: int, n_slots: int, s: int)
    requires
        width >= 1,
        len >= 0,
        n_slots == len / width,
        0 <= s < n_slots,
    ensures
        0 <= s * width,
        s * width + width <= len,
{
    assert(len == width * (len / width) + len % width && 0 <= len % width < width) by (
    nonlinear_arith)
        requires
            width >= 1,
            len >= 0,
    ;
    assert(s * width + width <= n_slots * width) by (nonlinear_arith)
        requires
            s < n_slots,
            width >= 1,
    ;
    assert(n_slots * width <= len) by (nonlinear_arith)
        requires
            len == width * n_slots + len % width,
            0 <= len % width,
    ;
    assert(0 <= s * width) by (nonlinear_arith)
        requires
            s >= 0,
            width >= 1,
    ;
}

/// The little-endian bytes of one row, cell after cell.
pub open spec fn spec_row_bytes(row: Seq<u64>) -> Seq<u8>
    decreases row.len(),
{
    if row.len() == 0 {
        Seq::empty()
    } else {
        spec_row_bytes(row.drop_last()) + spec_u64_to_le_bytes(row.last())
    }
}

/// The bytes of a row list, row after row.
pub open spec fn spec_rows_bytes(rows: Seq<Seq<u64>>) -> Seq<u8>
    decreases rows.len(),
{
    if rows.len() == 0 {
        Seq::empty()
    } else {
        spec_rows_bytes(rows.drop_last()) + spec_row_bytes(rows.last())
    }
}

/// One block: the rows' bytes, zero-padded to block size.
pub open spec fn spec_block_bytes(rows: Seq<Seq<u64>>) -> Seq<u8>
    recommends
        spec_rows_bytes(rows).len() <= BLOCK_SIZE,
{
    spec_rows_bytes(rows) + Seq::new(
        (BLOCK_SIZE - spec_rows_bytes(rows).len()) as nat,
        |i: int| 0u8,
    )
}

/// The encoded blocks of a row list: whole blocks from the front, the last
/// block zero-padded.
pub open spec fn spec_encoded_blocks(rows: Seq<Seq<u64>>, columns: nat) -> Seq<Seq<u8>>
    decreases rows.len(),
{
    let per = spec_slot_count(BLOCK_SIZE as nat, columns);
    if rows.len() == 0 || per == 0 {
        Seq::empty()
    } else if rows.len() <= per {
        seq![spec_block_bytes(rows)]
    } else {
        seq![spec_block_bytes(rows.take(per as int))] + spec_encoded_blocks(
            rows.skip(per as int),
            columns,
        )
    }
}

pub proof fn lemma_row_bytes_len(row: Seq<u64>)
    ensures
        spec_row_bytes(row).len() == row.len() * 8,
    decreases row.len(),
{
    vstd::bytes::lemma_auto_spec_u64_to_from_le_bytes();
    if row.len() > 0 {
        lemma_row_bytes_len(row.drop_last());
    }
}

pub proof fn lemma_rows_bytes_len(rows: Seq<Seq<u64>>, columns: nat)
    requires
        forall|i: int| 0 <= i < rows.len() ==> (#[trigger] rows[i]).len() == columns,
    ensures
        spec_rows_bytes(rows).len() == rows.len() * (columns * 8),
    decreases rows.len(),
{
    if rows.len() > 0 {
        lemma_rows_bytes_len(rows.drop_last(), columns);
        lemma_row_bytes_len(rows.last());
        assert((rows.len() - 1) * (columns * 8) + columns * 8 == rows.len() * (columns * 8)) by (
        nonlinear_arith);
    }
}

/// Encodes `count` rows of `rows` starting at `start` into one zero-padded
/// block.
#[verifier::rlimit(30)]
fn encode_block(rows: &Vec<RawRow>, start: usize, count: usize, columns: usize) -> (r: Block)
    requires
        1 <= columns,
        columns * 8 <= BLOCK_SIZE,
        start + count <= rows@.len(),
        count * (columns * 8) <= BLOCK_SIZE,
        forall|i: int| 0 <= i < rows@.len() ==> (#[trigger] rows@[i])@.len() == columns,
    ensures
        r@ == spec_block_bytes(
            spec_rows_view(rows@).subrange(start as int, start as int + count as int),
        ),
        r.wf(),
{
    let total = rows.len();
    let ghost chunk = spec_rows_view(rows@).subrange(start as int, start as int + count as int);
    proof {
        assert(start + count <= total);
        assert(forall|t: int| 0 <= t < chunk.len() ==> (#[trigger] chunk[t]).len() == columns);
        lemma_rows_bytes_len(chunk, columns as nat);
    }
    let mut bytes: Vec<u8> = Vec::new();
    let mut j: usize = 0;
    proof {
        assert(chunk.take(0) =~= Seq::<Seq<u64>>::empty());
        assert(bytes@ =~= spec_rows_bytes(chunk.take(0)));
    }
    while j < count
        invariant
            j <= count,
            start + count <= rows@.len(),
            rows@.len() <= usize::MAX,
            1 <= columns,
            forall|t: int| 0 <= t < rows@.len() ==> (#[trigger] rows@[t])@.len() == columns,
            chunk == spec_rows_view(rows@).subrange(start as int, start as int + count as int),
            bytes@ == spec_rows_bytes(chunk.take(j as int)),
        decreases count - j,
    {
        let row = &rows[start + j];
        let mut c: usize = 0;
        proof {
            assert(row@.take(0) =~= Seq::<u64>::empty());
            assert(bytes@ + spec_row_bytes(row@.take(0)) =~= bytes@);
        }
        let ghost row_start = bytes@;
        while c < columns
            invariant
                c <= columns,
                row@.len() == columns,
                bytes@ == row_start + spec_row_bytes(row@.take(c as int)),
            decreases columns - c,
        {
            let mut cell = vstd::bytes::u64_to_le_bytes(row[c]);
            bytes.append(&mut cell);
            proof {
                assert(row@.take(c as int + 1).drop_last() =~= row@.take(c as int));
                assert(row@.take(c as int + 1).last() == row@[c as int]);
                assert(bytes@ =~= row_start + spec_row_bytes(row@.take(c as int + 1)));
            }
            c = c + 1;
        }
        proof {
            assert(row@.take(columns as int) =~= row@);
            assert(chunk.take(j as int + 1).drop_last() =~= chunk.take(j as int));
            assert(chunk.take(j as int + 1).last() == chunk[j as int]);
            assert(chunk[j as int] == row@);
            assert(bytes@ =~= spec_rows_bytes(chunk.take(j as int + 1)));
        }
        j = j + 1;
    }
    proof {
        assert(chunk.take(count as int) =~= chunk);
    }
    let ghost row_bytes_len = bytes@.len();
    while bytes.len() < BLOCK_SIZE
        invariant
            row_bytes_len <= bytes@.len(),
            bytes@.len() <= BLOCK_SIZE || bytes@.len() == row_bytes_len,
            bytes@.subrange(0, row_bytes_len as int) == spec_rows_bytes(chunk),
            row_bytes_len == spec_rows_bytes(chunk).len(),
            row_bytes_len <= BLOCK_SIZE,
            forall|t: int| row_bytes_len <= t < bytes@.len() ==> bytes@[t] == 0u8,
        decreases BLOCK_SIZE - bytes@.len(),
    {
        let ghost before = bytes@;
        bytes.push(0u8);
        proof {
            assert(bytes@.subrange(0, row_bytes_len as int) =~= before.subrange(
                0,
                row_bytes_len as int,
            ));
        }
    }
    proof {
        assert(bytes@ =~= spec_block_bytes(chunk));
    }
    Block::from_bytes(bytes)
}

/// Lays a row list out as blocks: row after row, eight bytes per cell, the
/// last block zero-padded to block size.
#[verifier::rlimit(30)]
pub fn encode_rows(rows: &Vec<RawRow>, columns: usize) -> (r: Vec<Block>)
    requires
        1 <= columns,
        columns * 8 <= BLOCK_SIZE,
        forall|i: int| 0 <= i < rows@.len() ==> (#[trigger] rows@[i])@.len() == columns,
    ensures
        r.blocks_view() == spec_encoded_blocks(spec_rows_view(rows@), columns as nat),
        forall|bi: int| 0 <= bi < r@.len() ==> (#[trigger] r@[bi]).wf(),
{
    let ghost rv = spec_rows_view(rows@);
    let width = columns * COLUMN_WIDTH;
    let per = BLOCK_SIZE / width;
    proof {
        assert(per >= 1) by (nonlinear_arith)
            requires
                per == 8192int / (width as int),
                1 <= width <= 8192,
        ;
        assert(per * width <= BLOCK_SIZE) by (nonlinear_arith)
            requires
                per == BLOCK_SIZE as int / width as int,
                width >= 1,
        ;
    }
    let mut blocks: Vec<Block> = Vec::new();
    let mut i: usize = 0;
    proof {
        assert(rv.skip(0) =~= rv);
        assert(blocks.blocks_view() + spec_encoded_blocks(rv, columns as nat)
            =~= spec_encoded_blocks(rv, columns as nat));
    }
    while i < rows.len()
        invariant
            i <= rows@.len(),
            1 <= columns,
            columns * 8 <= BLOCK_SIZE,
            width == columns * 8,
            per == BLOCK_SIZE as int / width as int,
            per >= 1,
            per * width <= BLOCK_SIZE,
            rv == spec_rows_view(rows@),
            forall|t: int| 0 <= t < rows@.len() ==> (#[trigger] rows@[t])@.len() == columns,
            spec_encoded_blocks(rv, columns as nat) == blocks.blocks_view()
                + spec_encoded_blocks(rv.skip(i as int), columns as nat),
            forall|bi: int| 0 <= bi < blocks@.len() ==> (#[trigger] blocks@[bi]).wf(),
        decreases rows@.len() - i,
    {
        let remaining = rows.len() - i;
        let k = if per <= remaining {
            per
        } else {
            remaining
        };
        let ghost chunk = rv.subrange(i as int, i as int + k as int);
        proof {
            assert(k * (columns * 8) <= per * (columns * 8)) by (nonlinear_arith)
                requires
                    0 <= k <= per,
                    columns >= 1,
            ;
        }
        let nb = encode_block(rows, i, k, columns);
        let ghost old_blocks_view = blocks.blocks_view();
        blocks.push(nb);
        proof {
            assert(blocks.blocks_view() =~= old_blocks_view.push(spec_block_bytes(chunk)));
            let rest = rv.skip(i as int);
            assert(rest.len() == rows@.len() - i);
            if k == remaining {
                assert(rest =~= chunk);
                assert(rv.skip(i as int + k as int) =~= Seq::<Seq<u64>>::empty());
                assert(spec_encoded_blocks(rest, columns as nat) =~= seq![spec_block_bytes(chunk)]
                    + spec_encoded_blocks(rv.skip(i as int + k as int), columns as nat));
            } else {
                assert(k == per);
                assert(rest.take(per as int) =~= chunk);
                assert(rest.skip(per as int) =~= rv.skip(i as int + k as int));
            }
            assert(old_blocks_view + spec_encoded_blocks(rest, columns as nat) =~= blocks
                .blocks_view() + spec_encoded_blocks(rv.skip(i as int + k as int), columns as nat));
        }
        i = i + k;
    }
    proof {
        assert(rv.skip(rows@.len() as int) =~= Seq::<Seq<u64>>::empty());
        assert(blocks.blocks_view() + spec_encoded_blocks(
            rv.skip(rows@.len() as int),
            columns as nat,
        ) =~= blocks.blocks_view());
    }
    blocks
}

proof fn lemma_zero_cell(s: Seq<u8>)
    requires
        s.len() == 8,
        forall|i: int| 0 <= i < 8 ==> s[i] == 0u8,
    ensures
        spec_u64_from_le_bytes(s) == 0u64,
{
    vstd::bytes::lemma_auto_spec_u64_to_from_le_bytes();
    vstd::bytes::spec_u64_to_le_bytes_to_open(0u64);
    assert((0u64 & 0xff) == 0 && ((0u64 >> 8) & 0xff) == 0 && ((0u64 >> 16) & 0xff) == 0 && ((0u64
        >> 24) & 0xff) == 0 && ((0u64 >> 32) & 0xff) == 0 && ((0u64 >> 40) & 0xff) == 0 && ((0u64
        >> 48) & 0xff) == 0 && ((0u64 >> 56) & 0xff) == 0) by (bit_vector);
    assert(spec_u64_to_le_bytes(0u64) =~= s);
}

proof fn lemma_row_bytes_cell(row: Seq<u64>, c: int)
    requires
        0 <= c < row.len(),
    ensures
        spec_row_bytes(row).subrange(8 * c, 8 * c + 8) == spec_u64_to_le_bytes(row[c]),
    decreases row.len(),
{
    vstd::bytes::lemma_auto_spec_u64_to_from_le_bytes();
    lemma_row_bytes_len(row);
    lemma_row_bytes_len(row.drop_last());
    if c == row.len() - 1 {
        assert(spec_row_bytes(row).subrange(8 * c, 8 * c + 8) =~= spec_u64_to_le_bytes(row.last()));
    } else {
        lemma_row_bytes_cell(row.drop_last(), c);
        assert(spec_row_bytes(row).subrange(8 * c, 8 * c + 8) =~= spec_row_bytes(
            row.drop_last(),
        ).subrange(8 * c, 8 * c + 8));
    }
}

proof fn lemma_rows_bytes_cell(rows: Seq<Seq<u64>>, columns: nat, s: int, c: int)
    requires
        1 <= columns,
        forall|i: int| 0 <= i < rows.len() ==> (#[trigger] rows[i]).len() == columns,
        0 <= s < rows.len(),
        0 <= c < columns,
    ensures
        spec_rows_bytes(rows).subrange(
            s * (columns * 8) + 8 * c,
            s * (columns * 8) + 8 * c + 8,
        ) == spec_u64_to_le_bytes(rows[s][c]),
    decreases rows.len(),
{
    lemma_rows_bytes_len(rows, columns);
    lemma_rows_bytes_len(rows.drop_last(), columns);
    lemma_row_bytes_len(rows.last());
    let cw = (columns * 8) as int;
    if s == rows.len() - 1 {
        lemma_row_bytes_cell(rows.last(), c);
        assert(8 * c + 8 <= cw);
        assert(spec_rows_bytes(rows).subrange(s * cw + 8 * c, s * cw + 8 * c + 8)
            =~= spec_row_bytes(rows.last()).subrange(8 * c, 8 * c + 8));
    } else {
        lemma_rows_bytes_cell(rows.drop_last(), columns, s, c);
        assert(s * cw + cw <= (rows.len() - 1) * cw) by (nonlinear_arith)
            requires
                s <= rows.len() - 2,
                cw >= 1,
        ;
        assert(8 * c + 8 <= cw);
        assert(spec_rows_bytes(rows).subrange(s * cw + 8 * c, s * cw + 8 * c + 8)
            =~= spec_rows_bytes(rows.drop_last()).subrange(s * cw + 8 * c, s * cw + 8 * c + 8));
    }
}

/// The slots of an encoded block: the encoded rows first, tombstone slots
/// of padding after them.
proof fn lemma_slots_of_encoded(rows: Seq<Seq<u64>>, columns: nat)
    requires
        1 <= columns,
        columns * 8 <= BLOCK_SIZE,
        rows.len() <= spec_slot_count(BLOCK_SIZE as nat, columns),
        forall|i: int| 0 <= i < rows.len() ==> (#[trigger] rows[i]).len() == columns,
    ensures
        spec_block_slots(spec_block_bytes(rows), columns).len() == spec_slot_count(
            BLOCK_SIZE as nat,
            columns,
        ),
        forall|s: int|
            0 <= s < rows.len() ==> #[trigger] spec_block_slots(spec_block_bytes(rows), columns)[s]
                == rows[s],
        forall|s: int|
            rows.len() <= s < spec_block_slots(spec_block_bytes(rows), columns).len()
                ==> !spec_live(#[trigger] spec_block_slots(spec_block_bytes(rows), columns)[s]),
{
    vstd::bytes::lemma_auto_spec_u64_to_from_le_bytes();
    let cw = (columns * 8) as int;
    let per = spec_slot_count(BLOCK_SIZE as nat, columns) as int;
    lemma_rows_bytes_len(rows, columns);
    assert(rows.len() * cw <= per * cw) by (nonlinear_arith)
        requires
            rows.len() <= per,
            cw >= 1,
    ;
    assert(per * cw <= BLOCK_SIZE) by (nonlinear_arith)
        requires
            per == BLOCK_SIZE as int / cw,
            cw >= 1,
    ;
    let bytes = spec_block_bytes(rows);
    assert(bytes.len() == BLOCK_SIZE);
    let slots = spec_block_slots(bytes, columns);
    assert(slots.len() == per);
    assert forall|s: int| 0 <= s < rows.len() implies #[trigger] slots[s] == rows[s] by {
        assert(s * cw + cw <= rows.len() * cw) by (nonlinear_arith)
            requires
                s < rows.len(),
                cw >= 1,
        ;
        assert forall|c: int| 0 <= c < columns implies spec_slot(bytes, columns, s)[c]
            == rows[s][c] by {
            lemma_rows_bytes_cell(rows, columns, s, c);
            assert(bytes.subrange(s * cw + c * 8, s * cw + c * 8 + 8) =~= spec_rows_bytes(
                rows,
            ).subrange(s * cw + 8 * c, s * cw + 8 * c + 8));
        }
        assert(slots[s] =~= rows[s]);
    }
    assert forall|s: int| rows.len() <= s < per implies !spec_live(#[trigger] slots[s]) by {
        assert(rows.len() * cw <= s * cw && s * cw + cw <= per * cw) by (nonlinear_arith)
            requires
                rows.len() <= s < per,
                cw >= 1,
        ;
        let cellbytes = bytes.subrange(s * cw, s * cw + 8);
        assert(forall|i: int| 0 <= i < 8 ==> cellbytes[i] == 0u8);
        lemma_zero_cell(cellbytes);
        assert(slots[s][0] == 0u64);
    }
}

/// Selecting with no filters keeps exactly the live prefix.
proof fn lemma_selected_live_prefix(
    slots: Seq<Seq<u64>>,
    n: int,
    schema: Map<Seq<char>, (ColumnType, u64)>,
)
    requires
        0 <= n <= slots.len(),
        forall|i: int| 0 <= i < n ==> spec_live(#[trigger] slots[i]),
        forall|i: int| n <= i < slots.len() ==> !spec_live(#[trigger] slots[i]),
    ensures
        spec_selected_rows(slots, Seq::<FilterType>::empty(), schema) == slots.take(n),
    decreases slots.len(),
{
    if slots.len() == 0 {
        assert(slots.take(0) =~= Seq::<Seq<u64>>::empty());
    } else if n == slots.len() {
        lemma_selected_live_prefix(slots.drop_last(), n - 1, schema);
        assert(slots.drop_last().take(n - 1) =~= slots.take(n - 1));
        assert(spec_apply_filters(slots.last(), Seq::<FilterType>::empty(), schema));
        assert(spec_selected_rows(slots, Seq::<FilterType>::empty(), schema) =~= slots.take(n));
    } else {
        lemma_selected_live_prefix(slots.drop_last(), n, schema);
        assert(slots.drop_last().take(n) =~= slots.take(n));
    }
}

/// Decoding a concatenation decodes each part in order.
proof fn lemma_blocks_selected_concat(
    a: Seq<Seq<u8>>,
    b: Seq<Seq<u8>>,
    columns: nat,
    filters: Seq<FilterType>,
    schema: Map<Seq<char>, (ColumnType, u64)>,
)
    ensures
        spec_blocks_selected(a + b, columns, filters, schema) == spec_blocks_selected(
            a,
            columns,
            filters,
            schema,
        ) + spec_blocks_selected(b, columns, filters, schema),
    decreases b.len(),
{
    if b.len() == 0 {
        assert(a + b =~= a);
        assert(spec_blocks_selected(a, columns, filters, schema) + spec_blocks_selected(
            b,
            columns,
            filters,
            schema,
        ) =~= spec_blocks_selected(a, columns, filters, schema));
    } else {
        assert((a + b).drop_last() =~= a + b.drop_last());
        assert((a + b).last() == b.last());
        lemma_blocks_selected_concat(a, b.drop_last(), columns, filters, schema);
        assert(spec_blocks_selected(a + b, columns, filters, schema) =~= spec_blocks_selected(
            a,
            columns,
            filters,
            schema,
        ) + spec_blocks_selected(b, columns, filters, schema));
    }
}

/// The codec round trip: encoding a row set whose identifier cells are all
/// non-zero and decoding the blocks, tombstones dropped, returns the rows
/// unchanged.
pub proof fn lemma_encode_decode_round_trip(rows: Seq<Seq<u64>>, columns: nat)
    requires
        1 <= columns,
        columns * 8 <= BLOCK_SIZE,
        forall|i: int| 0 <= i < rows.len() ==> (#[trigger] rows[i]).len() == columns,
        forall|i: int| 0 <= i < rows.len() ==> (#[trigger] rows[i])[0] != 0u64,
    ensures
        spec_blocks_selected(
            spec_encoded_blocks(rows, columns),
            columns,
            Seq::<FilterType>::empty(),
            Map::<Seq<char>, (ColumnType, u64)>::empty(),
        ) == rows,
    decreases rows.len(),
{
    let nofilters = Seq::<FilterType>::empty();
    let noschema = Map::<Seq<char>, (ColumnType, u64)>::empty();
    let per = spec_slot_count(BLOCK_SIZE as nat, columns) as int;
    assert(per >= 1) by (nonlinear_arith)
        requires
            per == 8192int / ((columns * 8) as int),
            1 <= columns * 8 <= 8192,
    ;
    if rows.len() == 0 {
    } else if rows.len() <= per {
        lemma_slots_of_encoded(rows, columns);
        lemma_blocks_selected_single(spec_block_bytes(rows), columns, nofilters, noschema);
        let slots = spec_block_slots(spec_block_bytes(rows), columns);
        lemma_selected_live_prefix(slots, rows.len() as int, noschema);
        assert(slots.take(rows.len() as int) =~= rows);
    } else {
        let front = rows.take(per);
        let back = rows.skip(per);
        assert(forall|i: int|
            0 <= i < back.len() ==> (#[trigger] back[i]) == rows[i + per]);
        lemma_encode_decode_round_trip(back, columns);
        lemma_slots_of_encoded(front, columns);
        lemma_blocks_selected_single(spec_block_bytes(front), columns, nofilters, noschema);
        lemma_blocks_selected_concat(
            seq![spec_block_bytes(front)],
            spec_encoded_blocks(back, columns),
            columns,
            nofilters,
            noschema,
        );
        let slots = spec_block_slots(spec_block_bytes(front), columns);
        lemma_selected_live_prefix(slots, front.len() as int, noschema);
        assert(slots.take(front.len() as int) =~= front);
        assert(spec_blocks_selected(
            seq![spec_block_bytes(front)],
            columns,
            nofilters,
            noschema,
        ) == front);
        assert(front + back =~= rows);
    }
}

/// Decoding a value into raw rows: live rows in block order then in-block
/// order, with any trailing partial row ignored.
pub trait AsRawRows {
    /// The block byte strings this value holds, in order.
    spec fn blocks_view(&self) -> Seq<Seq<u8>>;

    /// Decodes into the live rows, tombstones dropped.
    fn as_rows(&self, columns: usize) -> (r: Vec<RawRow>)
        requires
            1 <= columns,
        ensures
            spec_rows_view(r@) == spec_blocks_selected(
                self.blocks_view(),
                columns as nat,
                Seq::<FilterType>::empty(),
                Map::<Seq<char>, (ColumnType, u64)>::empty(),
            ),
    ;

    /// Decodes into the live rows that also match every filter.
    fn as_filtered_rows(
        &self,
        columns: usize,
        filters: &Vec<FilterType>,
        schema: &TableInfoMap,
    ) -> (r: Vec<RawRow>)
        requires
            1 <= columns,
        ensures
            spec_rows_view(r@) == spec_blocks_selected(
                self.blocks_view(),
                columns as nat,
                filters@,
                schema@,
            ),
    ;
}

impl AsRawRows for Block {
    open spec fn blocks_view(&self) -> Seq<Seq<u8>> {
        seq![self@]
    }

    fn as_rows(&self, columns: usize) -> (r: Vec<RawRow>) {
        let filters: Vec<FilterType> = Vec::new();
        let schema = TableInfoMap::empty();
        self.as_filtered_rows(columns, &filters, &schema)
    }

    fn as_filtered_rows(
        &self,
        columns: usize,
        filters: &Vec<FilterType>,
        schema: &TableInfoMap,
    ) -> (r: Vec<RawRow>) {
        if columns > self.bytes.len() / COLUMN_WIDTH {
            // a single row is wider than the block: no whole row fits
            proof {
                assert(self@.len() < columns * 8) by (nonlinear_arith)
                    requires
                        columns > self@.len() as int / 8,
                        columns >= 1,
                ;
                assert(spec_slot_count(self@.len(), columns as nat) == 0) by (nonlinear_arith)
                    requires
                        self@.len() < columns * 8,
                ;
                assert(spec_block_slots(self@, columns as nat) =~= Seq::<Seq<u64>>::empty());
                lemma_blocks_selected_single(self@, columns as nat, filters@, schema@);
                assert(self.blocks_view() =~= seq![self@]);
                assert(spec_rows_view(Seq::<RawRow>::empty()) =~= Seq::<Seq<u64>>::empty());
            }
            let out: Vec<RawRow> = Vec::new();
            return out;
        }
        let width = columns * COLUMN_WIDTH;
        let n_slots = self.bytes.len() / width;
        let ghost slots = spec_block_slots(self@, columns as nat);
        proof {
            assert(slots.len() == n_slots);
            assert(spec_selected_rows(slots.take(0), filters@, schema@) =~= Seq::<
                Seq<u64>,
            >::empty());
            assert(spec_rows_view(Seq::<RawRow>::empty()) =~= Seq::<Seq<u64>>::empty());
        }
        let mut out: Vec<RawRow> = Vec::new();
        let mut s: usize = 0;
        while s < n_slots
            invariant
                s <= n_slots,
                1 <= columns,
                width == columns * 8,
                n_slots == slots.len(),
                n_slots == self@.len() as int / width as int,
                slots == spec_block_slots(self@, columns as nat),
                spec_rows_view(out@) == spec_selected_rows(
                    slots.take(s as int),
                    filters@,
                    schema@,
                ),
            decreases n_slots - s,
        {
            proof {
                lemma_slot_base_bounds(self@.len() as int, width as int, n_slots as int, s as int);
            }
            let base = s * width;
            let mut row: RawRow = Vec::new();
            let mut c: usize = 0;
            while c < columns
                invariant
                    c <= columns,
                    row@.len() == c,
                    base == s * width,
                    width == columns * 8,
                    base + width <= self@.len(),
                    forall|t: int| 0 <= t < c ==> row@[t] == spec_slot(
                        self@,
                        columns as nat,
                        s as int,
                    )[t],
                decreases columns - c,
            {
                proof {
                    assert(c * 8 + 8 <= width) by (nonlinear_arith)
                        requires
                            c < columns,
                            width == columns * 8,
                    ;
                }
                let off = base + c * COLUMN_WIDTH;
                let cell_bytes = slice_subrange(self.bytes.as_slice(), off, off + COLUMN_WIDTH);
                let cell = read_u64_le(cell_bytes);
                proof {
                    assert(cell_bytes@.subrange(0, 8) =~= cell_bytes@);
                    assert(base as int + c * 8 == (s as int) * ((columns * 8) as int) + (c as int)
                        * 8) by (nonlinear_arith)
                        requires
                            base == s * width,
                            width == columns * 8,
                    ;
                }
                row.push(cell);
                c = c + 1;
            }
            proof {
                assert(row@ =~= slots[s as int]);
            }
            let ghost old_out = out@;
            if row[0] != 0 {
                if apply_filters(&row, filters, schema) {
                    out.push(row);
                }
            }
            proof {
                assert(slots.take(s as int + 1).drop_last() =~= slots.take(s as int));
                assert(slots.take(s as int + 1).last() == slots[s as int]);
                if spec_live(slots[s as int]) && spec_apply_filters(
                    slots[s as int],
                    filters@,
                    schema@,
                ) {
                    assert(spec_rows_view(out@) =~= spec_rows_view(old_out).push(
                        slots[s as int],
                    ));
                } else {
                    assert(out@ == old_out);
                }
            }
            s = s + 1;
        }
        proof {
            assert(slots.take(n_slots as int) =~= slots);
            lemma_blocks_selected_single(self@, columns as nat, filters@, schema@);
            assert(self.blocks_view() =~= seq![self@]);
        }
        out
    }
}

impl AsRawRows for Vec<Block> {
    open spec fn blocks_view(&self) -> Seq<Seq<u8>> {
        self@.map_values(|b: Block| b@)
    }

    fn as_rows(&self, columns: usize) -> (r: Vec<RawRow>) {
        let filters: Vec<FilterType> = Vec::new();
        let schema = TableInfoMap::empty();
        self.as_filtered_rows(columns, &filters, &schema)
    }

    fn as_filtered_rows(
        &self,
        columns: usize,
        filters: &Vec<FilterType>,
        schema: &TableInfoMap,
    ) -> (r: Vec<RawRow>) {
        let ghost bv = self.blocks_view();
        let mut out: Vec<RawRow> = Vec::new();
        let mut bi: usize = 0;
        proof {
            assert(spec_blocks_selected(bv.take(0), columns as nat, filters@, schema@) =~= Seq::<
                Seq<u64>,
            >::empty());
            assert(spec_rows_view(out@) =~= Seq::<Seq<u64>>::empty());
        }
        while bi < self.len()
            invariant
                bi <= self@.len(),
                1 <= columns,
                bv == self.blocks_view(),
                spec_rows_view(out@) == spec_blocks_selected(
                    bv.take(bi as int),
                    columns as nat,
                    filters@,
                    schema@,
                ),
            decreases self@.len() - bi,
        {
            let mut block_rows = self[bi].as_filtered_rows(columns, filters, schema);
            proof {
                lemma_blocks_selected_single(self@[bi as int]@, columns as nat, filters@, schema@);
                assert(self@[bi as int].blocks_view() =~= seq![self@[bi as int]@]);
                assert(spec_rows_view(block_rows@) == spec_selected_rows(
                    spec_block_slots(self@[bi as int]@, columns as nat),
                    filters@,
                    schema@,
                ));
            }
            let ghost old_out = out@;
            out.append(&mut block_rows);
            proof {
                assert(bv.take(bi as int + 1).drop_last() =~= bv.take(bi as int));
                assert(bv.take(bi as int + 1).last() == bv[bi as int]);
                assert(bv[bi as int] == self@[bi as int]@);
                assert(spec_rows_view(out@) =~= spec_blocks_selected(
                    bv.take(bi as int + 1),
                    columns as nat,
                    filters@,
                    schema@,
                ));
            }
            bi = bi + 1;
        }
        proof {
            assert(bv.take(self@.len() as int) =~= bv);
        }
        out
    }
}

} // verus!
