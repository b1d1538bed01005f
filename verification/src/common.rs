//! Core data model: column types, typed field values, and the conversions
//! between raw 8-byte cells and their typed interpretations.

use vstd::prelude::*;

pub mod codec;
pub mod error;
pub mod network;

verus! {

use vstd::bytes::spec_u64_to_le_bytes;
use core::cmp::Ordering;

/// Size in bytes of one storage block.
pub const BLOCK_SIZE: usize = 8192;

/// Size in bytes of one cell (one column of one row).
pub const COLUMN_WIDTH: usize = 8;

/// The tag describing how the 8 bytes of a cell are interpreted.
#[derive(Debug, Clone, Copy, PartialEq, Eq, Structural)]
pub enum ColumnType {
    Integer,
    Boolean,
    Text,
    Clob,
    Blob,
}

/// A typed field value, the projection of one raw cell through a `ColumnType`.
#[derive(Debug, Clone, Copy)]
pub enum DataType {
    Integer(i64),
    Boolean(bool),
    Text([char; 8]),
    ClobRef(u64),
    BlobRef(u64),
}

/// The mathematical value of a `DataType`: the same five cases with the
/// fixed-width text widened to a character sequence.
pub enum FieldValue {
    Int(i64),
    Bool(bool),
    Text(Seq<char>),
    Clob(u64),
    Blob(u64),
}

impl View for DataType {
    type V = FieldValue;

    open spec fn view(&self) -> FieldValue {
        match self {
            DataType::Integer(i) => FieldValue::Int(*i),
            DataType::Boolean(b) => FieldValue::Bool(*b),
            DataType::Text(a) => FieldValue::Text(a@),
            DataType::ClobRef(r) => FieldValue::Clob(*r),
            DataType::BlobRef(r) => FieldValue::Blob(*r),
        }
    }
}

/// The eight characters of a `Text` cell: the little-endian bytes of the
/// cell, each widened to a code point.
pub open spec fn spec_text_chars(field: u64) -> Seq<char> {
    spec_u64_to_le_bytes(field).map_values(|b: u8| b as char)
}

/// The typed interpretation of one raw cell under a column type.
pub open spec fn spec_convert_field(field: u64, to_type: ColumnType) -> FieldValue {
    match to_type {
        ColumnType::Integer => FieldValue::Int(field as i64),
        ColumnType::Boolean => FieldValue::Bool(field != 0),
        ColumnType::Text => FieldValue::Text(spec_text_chars(field)),
        ColumnType::Clob => FieldValue::Clob(field),
        ColumnType::Blob => FieldValue::Blob(field),
    }
}

/// Interprets one raw cell as a typed value.
pub fn convert_field(field: u64, to_type: &ColumnType) -> (r: DataType)
    ensures
        r@ == spec_convert_field(field, *to_type),
{
    match to_type {
        ColumnType::Integer => DataType::Integer(field as i64),
        ColumnType::Boolean => DataType::Boolean(field != 0),
        ColumnType::Text => {
            let bytes = vstd::bytes::u64_to_le_bytes(field);
            let chars: [char; 8] = [
                bytes[0] as char,
                bytes[1] as char,
                bytes[2] as char,
                bytes[3] as char,
                bytes[4] as char,
                bytes[5] as char,
                bytes[6] as char,
                bytes[7] as char,
            ];
            proof {
                assert(chars@ =~= spec_text_chars(field));
            }
            DataType::Text(chars)
        },
        ColumnType::Clob => DataType::ClobRef(field),
        ColumnType::Blob => DataType::BlobRef(field),
    }
}

/// A row as stored: one unsigned 64-bit cell per column, in column order.
pub type RawRow = Vec<u64>;

/// A row projected through its table's column types.
pub type Row = Vec<DataType>;

/// A column: its name paired with its type.
pub type ColumnHeader = (String, ColumnType);

/// The ordered column list of one table; a column's position is its field
/// offset within every row.
pub type TableInfo = Vec<ColumnHeader>;

/// Three-way integer comparison.
pub open spec fn spec_int_cmp(x: int, y: int) -> Ordering {
    if x < y {
        Ordering::Less
    } else if x > y {
        Ordering::Greater
    } else {
        Ordering::Equal
    }
}

/// Three-way boolean comparison, with `false < true`.
pub open spec fn spec_bool_cmp(x: bool, y: bool) -> Ordering {
    if x == y {
        Ordering::Equal
    } else if !x {
        Ordering::Less
    } else {
        Ordering::Greater
    }
}

/// Lexicographic comparison of character sequences by code point.
pub open spec fn spec_chars_cmp(a: Seq<char>, b: Seq<char>) -> Ordering
    decreases a.len(),
{
    if a.len() == 0 && b.len() == 0 {
        Ordering::Equal
    } else if a.len() == 0 {
        Ordering::Less
    } else if b.len() == 0 {
        Ordering::Greater
    } else if (a[0] as u32) < (b[0] as u32) {
        Ordering::Less
    } else if (a[0] as u32) > (b[0] as u32) {
        Ordering::Greater
    } else {
        spec_chars_cmp(a.skip(1), b.skip(1))
    }
}

/// The partial order on typed values: natural within one type, undefined
/// across types.
pub open spec fn spec_value_cmp(a: FieldValue, b: FieldValue) -> Option<Ordering> {
    match (a, b) {
        (FieldValue::Int(x), FieldValue::Int(y)) => Some(spec_int_cmp(x as int, y as int)),
        (FieldValue::Bool(x), FieldValue::Bool(y)) => Some(spec_bool_cmp(x, y)),
        (FieldValue::Text(x), FieldValue::Text(y)) => Some(spec_chars_cmp(x, y)),
        (FieldValue::Clob(x), FieldValue::Clob(y)) => Some(spec_int_cmp(x as int, y as int)),
        (FieldValue::Blob(x), FieldValue::Blob(y)) => Some(spec_int_cmp(x as int, y as int)),
        _ => None,
    }
}

/// Whether two typed values carry the same type tag.
pub open spec fn spec_same_kind(a: FieldValue, b: FieldValue) -> bool {
    match (a, b) {
        (FieldValue::Int(_), FieldValue::Int(_)) => true,
        (FieldValue::Bool(_), FieldValue::Bool(_)) => true,
        (FieldValue::Text(_), FieldValue::Text(_)) => true,
        (FieldValue::Clob(_), FieldValue::Clob(_)) => true,
        (FieldValue::Blob(_), FieldValue::Blob(_)) => true,
        _ => false,
    }
}

fn chars8_cmp(a: &[char; 8], b: &[char; 8]) -> (r: Ordering)
    ensures
        r == spec_chars_cmp(a@, b@),
{
    proof {
        assert(a@.skip(0) =~= a@);
        assert(b@.skip(0) =~= b@);
    }
    let mut i: usize = 0;
    while i < 8
        invariant
            i <= 8,
            spec_chars_cmp(a@, b@) == spec_chars_cmp(a@.skip(i as int), b@.skip(i as int)),
        decreases 8 - i,
    {
        let x = #[verifier::truncate] (a[i] as u32);
        let y = #[verifier::truncate] (b[i] as u32);
        proof {
            assert(a@.skip(i as int)[0] == a@[i as int]);
            assert(b@.skip(i as int)[0] == b@[i as int]);
        }
        if x < y {
            return Ordering::Less;
        }
        if x > y {
            return Ordering::Greater;
        }
        proof {
            assert(a@.skip(i as int).skip(1) =~= a@.skip(i + 1));
            assert(b@.skip(i as int).skip(1) =~= b@.skip(i + 1));
        }
        i += 1;
    }
    proof {
        assert(a@.skip(8).len() == 0);
        assert(b@.skip(8).len() == 0);
    }
    Ordering::Equal
}

impl PartialEq for DataType {
    fn eq(&self, other: &Self) -> (r: bool) {
        match (self, other) {
            (DataType::Integer(l), DataType::Integer(r2)) => *l == *r2,
            (DataType::Boolean(l), DataType::Boolean(r2)) => *l == *r2,
            (DataType::Text(l), DataType::Text(r2)) => {
                let mut i: usize = 0;
                while i < 8
                    invariant
                        i <= 8,
                        forall|j: int| 0 <= j < i ==> l@[j] == r2@[j],
                    decreases 8 - i,
                {
                    if l[i] != r2[i] {
                        proof {
                            assert(l@[i as int] != r2@[i as int]);
                        }
                        return false;
                    }
                    i += 1;
                }
                proof {
                    assert(l@ =~= r2@);
                }
                true
            },
            (DataType::ClobRef(l), DataType::ClobRef(r2)) => *l == *r2,
            (DataType::BlobRef(l), DataType::BlobRef(r2)) => *l == *r2,
            _ => false,
        }
    }
}

impl vstd::std_specs::cmp::PartialEqSpecImpl for DataType {
    open spec fn obeys_eq_spec() -> bool {
        true
    }

    open spec fn eq_spec(&self, other: &Self) -> bool {
        self@ == other@
    }
}

impl PartialOrd for DataType {
    fn partial_cmp(&self, other: &Self) -> (r: Option<Ordering>) {
        match (self, other) {
            (DataType::Integer(l), DataType::Integer(r2)) => {
                if *l < *r2 {
                    Some(Ordering::Less)
                } else if *l > *r2 {
                    Some(Ordering::Greater)
                } else {
                    Some(Ordering::Equal)
                }
            },
            (DataType::Boolean(l), DataType::Boolean(r2)) => {
                if *l == *r2 {
                    Some(Ordering::Equal)
                } else if !*l {
                    Some(Ordering::Less)
                } else {
                    Some(Ordering::Greater)
                }
            },
            (DataType::Text(l), DataType::Text(r2)) => Some(chars8_cmp(l, r2)),
            (DataType::ClobRef(l), DataType::ClobRef(r2)) => {
                if *l < *r2 {
                    Some(Ordering::Less)
                } else if *l > *r2 {
                    Some(Ordering::Greater)
                } else {
                    Some(Ordering::Equal)
                }
            },
            (DataType::BlobRef(l), DataType::BlobRef(r2)) => {
                if *l < *r2 {
                    Some(Ordering::Less)
                } else if *l > *r2 {
                    Some(Ordering::Greater)
                } else {
                    Some(Ordering::Equal)
                }
            },
            _ => None,
        }
    }
}

impl vstd::std_specs::cmp::PartialOrdSpecImpl for DataType {
    open spec fn obeys_partial_cmp_spec() -> bool {
        true
    }

    open spec fn partial_cmp_spec(&self, other: &Self) -> Option<Ordering> {
        spec_value_cmp(self@, other@)
    }
}

/// Index of the last pair whose name reads `name`, or `-1` when absent.
pub open spec fn spec_name_index<T>(s: Seq<(String, T)>, name: Seq<char>) -> int
    decreases s.len(),
{
    if s.len() == 0 {
        -1
    } else if s.last().0@ == name {
        s.len() - 1
    } else {
        spec_name_index(s.drop_last(), name)
    }
}

pub proof fn lemma_name_index<T>(s: Seq<(String, T)>, name: Seq<char>)
    ensures
        -1 <= spec_name_index(s, name) < s.len(),
        spec_name_index(s, name) >= 0 ==> s[spec_name_index(s, name)].0@ == name,
        forall|j: int| spec_name_index(s, name) < j < s.len() ==> s[j].0@ != name,
    decreases s.len(),
{
    if s.len() > 0 && s.last().0@ != name {
        lemma_name_index(s.drop_last(), name);
        assert(forall|j: int| 0 <= j < s.len() - 1 ==> s[j] == s.drop_last()[j]);
    }
}

pub proof fn lemma_name_index_update<T>(s: Seq<(String, T)>, k: int, e: (String, T), name: Seq<char>)
    requires
        0 <= k < s.len(),
        e.0@ == s[k].0@,
    ensures
        spec_name_index(s.update(k, e), name) == spec_name_index(s, name),
    decreases s.len(),
{
    let s2 = s.update(k, e);
    if k == s.len() - 1 {
        assert(s2.drop_last() =~= s.drop_last());
    } else {
        assert(s2.last() == s.last());
        assert(s2.drop_last() =~= s.drop_last().update(k, e));
        if s.last().0@ != name {
            lemma_name_index_update(s.drop_last(), k, e, name);
        }
    }
}

pub proof fn lemma_name_index_push<T>(s: Seq<(String, T)>, e: (String, T), name: Seq<char>)
    ensures
        e.0@ == name ==> spec_name_index(s.push(e), name) == s.len(),
        e.0@ != name ==> spec_name_index(s.push(e), name) == spec_name_index(s, name),
{
    assert(s.push(e).drop_last() =~= s);
}

/// The keyed view of a column list: each name maps to the type and field
/// offset of its last occurrence.
pub open spec fn spec_table_info_map(info: Seq<ColumnHeader>) -> Map<Seq<char>, (ColumnType, u64)> {
    Map::new(
        |name: Seq<char>| spec_name_index(info, name) >= 0,
        |name: Seq<char>| (info[spec_name_index(info, name)].1, spec_name_index(info, name) as u64),
    )
}

/// The map held by a `TableInfoMap` with the given entry list.
pub open spec fn spec_entries_map(s: Seq<(String, (ColumnType, u64))>) -> Map<
    Seq<char>,
    (ColumnType, u64),
> {
    Map::new(
        |name: Seq<char>| spec_name_index(s, name) >= 0,
        |name: Seq<char>| s[spec_name_index(s, name)].1,
    )
}

/// The keyed form of a `TableInfo`: column name to `(type, field offset)`.
pub struct TableInfoMap {
    entries: Vec<(String, (ColumnType, u64))>,
}

impl View for TableInfoMap {
    type V = Map<Seq<char>, (ColumnType, u64)>;

    closed spec fn view(&self) -> Map<Seq<char>, (ColumnType, u64)> {
        spec_entries_map(self.entries@)
    }
}

impl TableInfoMap {
    /// Each column name is held at most once.
    pub closed spec fn wf(&self) -> bool {
        forall|a: int, b: int|
            0 <= a < b < self.entries@.len() ==> self.entries@[a].0@ != self.entries@[b].0@
    }

    /// An empty keyed view.
    pub fn empty() -> (r: Self)
        ensures
            r@ == Map::<Seq<char>, (ColumnType, u64)>::empty(),
            r.wf(),
    {
        let r = TableInfoMap { entries: Vec::new() };
        proof {
            assert(r@ =~= Map::<Seq<char>, (ColumnType, u64)>::empty());
        }
        r
    }

    /// Looks a column up by name.
    pub fn get(&self, name: &String) -> (r: Option<(ColumnType, u64)>)
        ensures
            match r {
                Some(v) => self@.contains_key(name@) && self@[name@] == v,
                None => !self@.contains_key(name@),
            },
    {
        let mut i: usize = self.entries.len();
        while i > 0
            invariant
                i <= self.entries@.len(),
                forall|j: int| i <= j < self.entries@.len() ==> self.entries@[j].0@ != name@,
            decreases i,
        {
            i = i - 1;
            let e = &self.entries[i];
            if e.0 == *name {
                proof {
                    lemma_name_index(self.entries@, name@);
                }
                return Some(e.1);
            }
        }
        proof {
            lemma_name_index(self.entries@, name@);
        }
        None
    }

    /// The held columns as name and `(type, offset)` pairs, each name once.
    pub fn pairs(&self) -> (r: Vec<(String, (ColumnType, u64))>)
        requires
            self.wf(),
        ensures
            forall|i: int|
                0 <= i < r@.len() ==> self@.contains_key((#[trigger] r@[i]).0@) && self@[r@[i].0@]
                    == r@[i].1,
            forall|a: int, b: int| 0 <= a < b < r@.len() ==> r@[a].0@ != r@[b].0@,
            r@.len() == self@.dom().len(),
    {
        let mut out: Vec<(String, (ColumnType, u64))> = Vec::new();
        let mut i: usize = 0;
        while i < self.entries.len()
            invariant
                i <= self.entries@.len(),
                out@.len() == i,
                forall|j: int| 0 <= j < i ==> (#[trigger] out@[j]).0@ == self.entries@[j].0@
                    && out@[j].1 == self.entries@[j].1,
        decreases self.entries@.len() - i,
        {
            let e = &self.entries[i];
            out.push((e.0.clone(), e.1));
            i = i + 1;
        }
        proof {
            lemma_distinct_entries_dom(self.entries@);
            assert forall|j: int|
                0 <= j < out@.len() implies self@.contains_key((#[trigger] out@[j]).0@)
                && self@[out@[j].0@] == out@[j].1 by {
                lemma_name_index(self.entries@, out@[j].0@);
                let idx = spec_name_index(self.entries@, out@[j].0@);
                // a later entry with the same name would break well-formedness,
                // so the recorded index is the one scanned
                assert(self.entries@[j].0@ == out@[j].0@);
                assert(idx >= 0);
            }
        }
        out
    }

    /// The number of columns held.
    pub fn len(&self) -> (r: usize)
        requires
            self.wf(),
        ensures
            r == self@.dom().len(),
    {
        proof {
            lemma_distinct_entries_dom(self.entries@);
        }
        self.entries.len()
    }
}

proof fn lemma_distinct_entries_dom(s: Seq<(String, (ColumnType, u64))>)
    requires
        forall|a: int, b: int| 0 <= a < b < s.len() ==> s[a].0@ != s[b].0@,
    ensures
        spec_entries_map(s).dom().finite(),
        spec_entries_map(s).dom().len() == s.len(),
    decreases s.len(),
{
    if s.len() == 0 {
        assert(spec_entries_map(s).dom() =~= Set::<Seq<char>>::empty());
    } else {
        let prefix = s.drop_last();
        assert(forall|j: int| 0 <= j < prefix.len() ==> s[j] == prefix[j]);
        lemma_distinct_entries_dom(prefix);
        assert forall|name: Seq<char>|
            spec_entries_map(s).dom().contains(name) <==> (spec_entries_map(
                prefix,
            ).dom().contains(name) || name == s.last().0@) by {
            lemma_name_index(s, name);
            lemma_name_index(prefix, name);
            if spec_name_index(prefix, name) >= 0 {
                assert(s[spec_name_index(prefix, name)].0@ == name);
                lemma_name_index(s, name);
            }
        }
        assert(spec_entries_map(s).dom() =~= spec_entries_map(prefix).dom().insert(s.last().0@));
        lemma_name_index(prefix, s.last().0@);
        assert(!spec_entries_map(prefix).dom().contains(s.last().0@));
    }
}

/// True when some entry carries the given name.
fn entries_contain(entries: &Vec<(String, (ColumnType, u64))>, name: &String) -> (r: bool)
    ensures
        r == (spec_name_index(entries@, name@) >= 0),
{
    let mut k: usize = 0;
    while k < entries.len()
        invariant
            k <= entries@.len(),
            forall|t: int| 0 <= t < k ==> entries@[t].0@ != name@,
        decreases entries@.len() - k,
    {
        if entries[k].0 == *name {
            proof {
                lemma_name_index(entries@, name@);
            }
            return true;
        }
        k = k + 1;
    }
    proof {
        lemma_name_index(entries@, name@);
    }
    false
}

/// Derives the keyed view of a column list; a name that occurs twice keeps
/// its later occurrence.
pub fn map_table_info(table_info: &TableInfo) -> (r: TableInfoMap)
    ensures
        r@ == spec_table_info_map(table_info@),
        r.wf(),
{
    let ghost info = table_info@;
    let mut entries: Vec<(String, (ColumnType, u64))> = Vec::new();
    let mut i: usize = table_info.len();
    proof {
        assert forall|name: Seq<char>| !(spec_name_index(info, name) >= i as int) by {
            lemma_name_index(info, name);
        }
    }
    while i > 0
        invariant
            i <= info.len(),
            info == table_info@,
            forall|a: int, b: int|
                0 <= a < b < entries@.len() ==> entries@[a].0@ != entries@[b].0@,
            forall|name: Seq<char>| #[trigger] spec_name_index(entries@, name) >= 0
                <==> spec_name_index(info, name) >= i,
            forall|name: Seq<char>| spec_name_index(entries@, name) >= 0
                ==> (#[trigger] entries@[spec_name_index(entries@, name)]).1 == (
                info[spec_name_index(info, name)].1,
                spec_name_index(info, name) as u64,
            ),
        decreases i,
    {
        i = i - 1;
        let header = &table_info[i];
        let ghost old_entries = entries@;
        proof {
            lemma_name_index(info, header.0@);
        }
        if !entries_contain(&entries, &header.0) {
            entries.push((header.0.clone(), (header.1, i as u64)));
            proof {
                lemma_name_index(old_entries, header.0@);
                assert(forall|a: int| 0 <= a < old_entries.len() ==> old_entries[a].0@ != header.0@);
                assert(entries@.last().0@ == header.0@);
                // the cell just written is the last occurrence of this name
                assert(spec_name_index(info, header.0@) >= i as int);
                assert(spec_name_index(info, header.0@) == i as int);
                assert forall|name: Seq<char>| #[trigger] spec_name_index(entries@, name) >= 0
                    <==> spec_name_index(info, name) >= i as int by {
                    lemma_name_index_push(old_entries, entries@.last(), name);
                    lemma_name_index(info, name);
                    lemma_name_index(old_entries, name);
                    if name != header.0@ && spec_name_index(info, name) >= i as int {
                        assert(spec_name_index(info, name) != i as int);
                    }
                }
                assert forall|name: Seq<char>| spec_name_index(entries@, name) >= 0 implies (
                    #[trigger] entries@[spec_name_index(entries@, name)]).1 == (
                    info[spec_name_index(info, name)].1,
                    spec_name_index(info, name) as u64,
                ) by {
                    lemma_name_index_push(old_entries, entries@.last(), name);
                    lemma_name_index(info, name);
                    lemma_name_index(old_entries, name);
                    lemma_name_index(entries@, name);
                    if name != header.0@ {
                        if spec_name_index(old_entries, name) >= 0 {
                            assert(entries@[spec_name_index(entries@, name)]
                                == old_entries[spec_name_index(old_entries, name)]);
                        }
                    } else {
                        assert(spec_name_index(info, name) == i as int);
                    }
                }
            }
        } else {
            proof {
                // a later occurrence of this name is already recorded
                assert(spec_name_index(info, header.0@) >= i as int + 1);
                assert forall|name: Seq<char>| #[trigger] spec_name_index(entries@, name) >= 0
                    <==> spec_name_index(info, name) >= i as int by {
                    lemma_name_index(info, name);
                    if name != header.0@ && spec_name_index(info, name) >= i as int {
                        assert(spec_name_index(info, name) != i as int);
                    }
                }
            }
        }
    }
    proof {
        assert forall|name: Seq<char>| #[trigger] spec_name_index(entries@, name) >= 0
            <==> spec_name_index(info, name) >= 0 by {
        }
        assert(spec_entries_map(entries@) =~= spec_table_info_map(info));
    }
    TableInfoMap { entries }
}

/// With distinct column names, reading any column back from the derived map
/// yields its type paired with its position in the list.
pub proof fn lemma_table_info_map_reads_back(info: Seq<ColumnHeader>)
    requires
        forall|a: int, b: int| 0 <= a < b < info.len() ==> info[a].0@ != info[b].0@,
    ensures
        forall|i: int|
            0 <= i < info.len() ==> spec_table_info_map(info).contains_key(#[trigger] info[i].0@)
                && spec_table_info_map(info)[info[i].0@] == (info[i].1, i as u64),
{
    assert forall|i: int| 0 <= i < info.len() implies spec_table_info_map(info).contains_key(
        #[trigger] info[i].0@,
    ) && spec_table_info_map(info)[info[i].0@] == (info[i].1, i as u64) by {
        lemma_name_index(info, info[i].0@);
        let idx = spec_name_index(info, info[i].0@);
        assert(idx >= i);
        assert(idx == i);
    }
}

/// Interprets a whole raw row, pairing each cell with its column by position;
/// a width mismatch truncates to the shorter of the two.
pub fn convert_row(raw_row: RawRow, table_info: &TableInfo) -> (r: Row)
    ensures
        r@.len() == (if raw_row@.len() <= table_info@.len() {
            raw_row@.len()
        } else {
            table_info@.len()
        }),
        forall|i: int| 0 <= i < r@.len() ==> (#[trigger] r@[i])@ == spec_convert_field(
            raw_row@[i],
            table_info@[i].1,
        ),
{
    let n = if raw_row.len() <= table_info.len() {
        raw_row.len()
    } else {
        table_info.len()
    };
    let mut out: Row = Vec::new();
    let mut i: usize = 0;
    while i < n
        invariant
            i <= n,
            out@.len() == i,
            forall|k: int| 0 <= k < i ==> (#[trigger] out@[k])@ == spec_convert_field(
                raw_row@[k],
                table_info@[k].1,
            ),
        decreases n - i,
    {
        out.push(convert_field(raw_row[i], &table_info[i].1));
        i = i + 1;
    }
    out
}

/// Interprets the cell at `offset` of a raw row, or `None` when the row is
/// too narrow.
pub fn convert_row_field(raw_row: &RawRow, to_type: &ColumnType, offset: u64) -> (r: Option<
    DataType,
>)
    ensures
        match r {
            Some(d) => offset < raw_row@.len() && d@ == spec_convert_field(
                raw_row@[offset as int],
                *to_type,
            ),
            None => offset >= raw_row@.len(),
        },
{
    if offset < raw_row.len() as u64 {
        Some(convert_field(raw_row[offset as usize], to_type))
    } else {
        None
    }
}

/// The set of names carried by a pair list.
pub open spec fn spec_name_set<T>(s: Seq<(String, T)>) -> Set<Seq<char>> {
    Set::new(|n: Seq<char>| spec_name_index(s, n) >= 0)
}

pub proof fn lemma_distinct_name_count<T>(s: Seq<(String, T)>)
    requires
        forall|a: int, b: int| 0 <= a < b < s.len() ==> s[a].0@ != s[b].0@,
    ensures
        spec_name_set(s).finite(),
        spec_name_set(s).len() == s.len(),
    decreases s.len(),
{
    if s.len() == 0 {
        assert(spec_name_set(s) =~= Set::<Seq<char>>::empty());
    } else {
        let prefix = s.drop_last();
        assert(forall|j: int| 0 <= j < prefix.len() ==> s[j] == prefix[j]);
        lemma_distinct_name_count(prefix);
        assert forall|name: Seq<char>|
            spec_name_set(s).contains(name) <==> (spec_name_set(prefix).contains(name) || name
                == s.last().0@) by {
            lemma_name_index(s, name);
            lemma_name_index(prefix, name);
            if spec_name_index(prefix, name) >= 0 {
                assert(s[spec_name_index(prefix, name)].0@ == name);
                lemma_name_index(s, name);
            }
        }
        assert(spec_name_set(s) =~= spec_name_set(prefix).insert(s.last().0@));
        lemma_name_index(prefix, s.last().0@);
        assert(!spec_name_set(prefix).contains(s.last().0@));
    }
}

pub proof fn lemma_name_set_card<T>(s: Seq<(String, T)>)
    ensures
        spec_name_set(s).finite(),
        spec_name_set(s).len() <= s.len(),
        s.len() > 0 ==> spec_name_set(s).len() >= 1,
    decreases s.len(),
{
    if s.len() == 0 {
        assert(spec_name_set(s) =~= Set::<Seq<char>>::empty());
    } else {
        let prefix = s.drop_last();
        assert(forall|j: int| 0 <= j < prefix.len() ==> s[j] == prefix[j]);
        lemma_name_set_card(prefix);
        assert forall|name: Seq<char>|
            spec_name_set(s).contains(name) <==> (spec_name_set(prefix).contains(name) || name
                == s.last().0@) by {
            lemma_name_index(s, name);
            lemma_name_index(prefix, name);
            if spec_name_index(prefix, name) >= 0 {
                assert(s[spec_name_index(prefix, name)].0@ == name);
                lemma_name_index(s, name);
            }
        }
        assert(spec_name_set(s) =~= spec_name_set(prefix).insert(s.last().0@));
    }
}

/// The persisted catalog: each table's name with its ordered column list.
/// Each column list is non-empty and narrow enough that its row width fits
/// the machine.
pub struct DBSchema {
    tables: Vec<(String, TableInfo)>,
}

impl View for DBSchema {
    type V = Map<Seq<char>, Seq<ColumnHeader>>;

    closed spec fn view(&self) -> Map<Seq<char>, Seq<ColumnHeader>> {
        Map::new(
            |n: Seq<char>| spec_name_index(self.tables@, n) >= 0,
            |n: Seq<char>| self.tables@[spec_name_index(self.tables@, n)].1@,
        )
    }
}

impl DBSchema {
    /// The tables in insertion order.
    pub closed spec fn spec_tables(&self) -> Seq<(String, TableInfo)> {
        self.tables@
    }

    /// Table names are distinct, and every column list is non-empty with a
    /// machine-representable row width.
    pub open spec fn wf(&self) -> bool {
        &&& forall|a: int, b: int|
            0 <= a < b < self.spec_tables().len() ==> (#[trigger] self.spec_tables()[a]).0@ != (
            #[trigger] self.spec_tables()[b]).0@
        &&& forall|i: int|
            0 <= i < self.spec_tables().len() ==> 1 <= (#[trigger] self.spec_tables()[i]).1@.len()
                && self.spec_tables()[i].1@.len() * 8 <= usize::MAX
    }

    /// How the keyed view reads off the ordered table list.
    pub proof fn lemma_view(&self)
        ensures
            forall|n: Seq<char>| #[trigger]
                self@.contains_key(n) <==> spec_name_index(self.spec_tables(), n) >= 0,
            forall|n: Seq<char>| #[trigger]
                self@.contains_key(n) ==> self@[n] == self.spec_tables()[spec_name_index(
                    self.spec_tables(),
                    n,
                )].1@,
    {
    }

    /// An empty catalog.
    pub fn new() -> (r: Self)
        ensures
            r@ == Map::<Seq<char>, Seq<ColumnHeader>>::empty(),
            r.spec_tables() == Seq::<(String, TableInfo)>::empty(),
            r.wf(),
    {
        let r = DBSchema { tables: Vec::new() };
        proof {
            assert(r@ =~= Map::<Seq<char>, Seq<ColumnHeader>>::empty());
        }
        r
    }

    /// Adds a table, replacing a table of the same name.
    pub fn insert(&mut self, name: String, info: TableInfo)
        requires
            old(self).wf(),
            1 <= info@.len(),
            info@.len() * 8 <= usize::MAX,
        ensures
            final(self).wf(),
            final(self)@ == old(self)@.insert(name@, info@),
            spec_name_index(old(self).spec_tables(), name@) < 0 ==> final(self).spec_tables()
                == old(self).spec_tables().push((name, info)),
            spec_name_index(old(self).spec_tables(), name@) >= 0 ==> final(self).spec_tables()
                == old(self).spec_tables().update(
                spec_name_index(old(self).spec_tables(), name@),
                (name, info),
            ),
    {
        let ghost old_tables = self.tables@;
        proof {
            assert forall|a: int, b: int|
                0 <= a < b < old_tables.len() implies old_tables[a].0@ != old_tables[b].0@ by {
                assert(old(self).spec_tables()[a] == old_tables[a]);
                assert(old(self).spec_tables()[b] == old_tables[b]);
            }
            assert forall|a: int|
                0 <= a < old_tables.len() implies 1 <= old_tables[a].1@.len() && old_tables[a].1@.len()
                * 8 <= usize::MAX by {
                assert(old(self).spec_tables()[a] == old_tables[a]);
            }
        }
        let mut j: usize = 0;
        let n = self.tables.len();
        while j < n
            invariant
                j <= n,
                n == self.tables@.len(),
                self.tables@ == old_tables,
                forall|k: int| 0 <= k < j ==> old_tables[k].0@ != name@,
            decreases n - j,
        {
            if self.tables[j].0 == name {
                proof {
                    lemma_name_index(old_tables, name@);
                    assert(spec_name_index(old_tables, name@) == j as int);
                }
                self.tables.set(j, (name, info));
                proof {
                    let new_tables = self.tables@;
                    let e = new_tables[j as int];
                    assert(new_tables =~= old_tables.update(j as int, e));
                    assert forall|nm: Seq<char>|
                        spec_name_index(new_tables, nm) == spec_name_index(old_tables, nm) by {
                        lemma_name_index_update(old_tables, j as int, e, nm);
                    }
                    assert forall|a: int|
                        0 <= a < new_tables.len() implies new_tables[a].0@ == old_tables[a].0@ by {}
                    assert(self@ =~= old(self)@.insert(name@, info@)) by {
                        assert forall|nm: Seq<char>|
                            spec_name_index(new_tables, nm) >= 0 implies new_tables[spec_name_index(
                            new_tables,
                            nm,
                        )].1@ == old(self)@.insert(name@, info@)[nm] by {
                            lemma_name_index(new_tables, nm);
                            lemma_name_index(old_tables, nm);
                            if nm == name@ {
                                assert(spec_name_index(new_tables, nm) == j as int);
                            } else {
                                assert(old_tables[spec_name_index(old_tables, nm)].0@ == nm);
                                assert(spec_name_index(new_tables, nm) != j as int);
                            }
                        }
                    }
                }
                return ;
            }
            j = j + 1;
        }
        proof {
            lemma_name_index(old_tables, name@);
            assert(spec_name_index(old_tables, name@) < 0);
        }
        self.tables.push((name, info));
        proof {
            let new_tables = self.tables@;
            let e = new_tables.last();
            assert(e.0@ == name@);
            assert forall|nm: Seq<char>| #[trigger]
                spec_name_index(new_tables, nm) == (if nm == name@ {
                    old_tables.len() as int
                } else {
                    spec_name_index(old_tables, nm)
                }) by {
                lemma_name_index_push(old_tables, e, nm);
                assert(new_tables =~= old_tables.push(e));
            }
            assert forall|a: int, b: int|
                0 <= a < b < new_tables.len() implies new_tables[a].0@ != new_tables[b].0@ by {
                if b == new_tables.len() - 1 {
                    assert(new_tables[b].0@ == name@);
                    assert(old_tables[a].0@ != name@);
                }
            }
            assert(self@ =~= old(self)@.insert(name@, info@)) by {
                assert forall|nm: Seq<char>|
                    spec_name_index(new_tables, nm) >= 0 implies new_tables[spec_name_index(
                    new_tables,
                    nm,
                )].1@ == old(self)@.insert(name@, info@)[nm] by {
                    lemma_name_index(new_tables, nm);
                    lemma_name_index(old_tables, nm);
                }
            }
        }
    }

    /// Looks a table's column list up by name.
    pub fn get(&self, name: &String) -> (r: Option<&TableInfo>)
        ensures
            match r {
                Some(info) => self@.contains_key(name@) && self@[name@] == info@,
                None => !self@.contains_key(name@),
            },
    {
        let mut i: usize = self.tables.len();
        while i > 0
            invariant
                i <= self.tables@.len(),
                forall|j: int| i <= j < self.tables@.len() ==> self.tables@[j].0@ != name@,
            decreases i,
        {
            i = i - 1;
            if self.tables[i].0 == *name {
                proof {
                    lemma_name_index(self.tables@, name@);
                }
                return Some(&self.tables[i].1);
            }
        }
        proof {
            lemma_name_index(self.tables@, name@);
        }
        None
    }

    /// The number of tables.
    pub fn len(&self) -> (r: usize)
        requires
            self.wf(),
        ensures
            r == self@.dom().len(),
            r == self.spec_tables().len(),
    {
        proof {
            assert forall|a: int, b: int|
                0 <= a < b < self.tables@.len() implies self.tables@[a].0@
                != self.tables@[b].0@ by {
                assert(self.spec_tables()[a] == self.tables@[a]);
                assert(self.spec_tables()[b] == self.tables@[b]);
            }
            lemma_distinct_name_count(self.tables@);
            assert(self@.dom() =~= spec_name_set(self.tables@));
        }
        self.tables.len()
    }

    /// The table at a position of the insertion order.
    pub fn table_at(&self, i: usize) -> (r: &(String, TableInfo))
        requires
            i < self.spec_tables().len(),
        ensures
            *r == self.spec_tables()[i as int],
    {
        &self.tables[i]
    }

    /// How many tables the ordered list holds.
    pub fn table_count(&self) -> (r: usize)
        ensures
            r == self.spec_tables().len(),
    {
        self.tables.len()
    }
}

/// A signed integer cell survives the trip through its raw form exactly.
pub proof fn lemma_integer_field_round_trip(v: i64)
    ensures
        spec_convert_field(v as u64, ColumnType::Integer) == FieldValue::Int(v),
{
    assert(v as u64 as i64 == v) by (bit_vector);
}

} // verus!
