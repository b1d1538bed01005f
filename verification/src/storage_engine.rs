//! The storage engine: database paths, the in-memory table store, and the
//! query facade with its cursor registry.

use vstd::prelude::*;

use crate::common::codec::{
    spec_blocks_selected, spec_rows_view, AsRawRows, Block,
};
use crate::common::error::Error;
use crate::common::{
    map_table_info, spec_table_info_map, ColumnHeader, DBSchema, RawRow, TableInfoMap,
};

pub mod schema_json;

pub use crate::predicate::{
    apply_filter, apply_filters, field_from_row, has_ordering, FilterType,
};

verus! {

use vstd::string::{StrSliceExecFns, StringExecFns};

/// Index of the last occurrence of `c` in `s`, or `-1`.
pub open spec fn spec_last_index_of(s: Seq<char>, c: char) -> int
    decreases s.len(),
{
    if s.len() == 0 {
        -1
    } else if s.last() == c {
        s.len() - 1
    } else {
        spec_last_index_of(s.drop_last(), c)
    }
}

proof fn lemma_last_index_of(s: Seq<char>, c: char)
    ensures
        -1 <= spec_last_index_of(s, c) < s.len(),
        spec_last_index_of(s, c) >= 0 ==> s[spec_last_index_of(s, c)] == c,
        forall|j: int| spec_last_index_of(s, c) < j < s.len() ==> s[j] != c,
    decreases s.len(),
{
    if s.len() > 0 && s.last() != c {
        lemma_last_index_of(s.drop_last(), c);
        assert(forall|j: int| 0 <= j < s.len() - 1 ==> s[j] == s.drop_last()[j]);
    }
}

fn find_last_char(s: &str, c: char) -> (r: Option<usize>)
    ensures
        match r {
            Some(i) => spec_last_index_of(s@, c) == i && i < s@.len(),
            None => spec_last_index_of(s@, c) == -1,
        },
{
    let n = s.unicode_len();
    let mut i: usize = n;
    while i > 0
        invariant
            i <= n,
            n == s@.len(),
            forall|j: int| i <= j < s@.len() ==> s@[j] != c,
        decreases i,
    {
        i = i - 1;
        if s.get_char(i) == c {
            proof {
                lemma_last_index_of(s@, c);
            }
            return Some(i);
        }
    }
    proof {
        lemma_last_index_of(s@, c);
    }
    None
}

/// The `(dir, stem, ext)` of a database path `<dir>/<stem>.<ext>`; `None`
/// unless all three parts are non-empty.
pub open spec fn spec_path_parts(path: Seq<char>) -> Option<(Seq<char>, Seq<char>, Seq<char>)> {
    let slash = spec_last_index_of(path, '/');
    if slash < 1 {
        None
    } else {
        let file = path.skip(slash + 1);
        let dot = spec_last_index_of(file, '.');
        if dot < 1 || dot + 1 >= file.len() {
            None
        } else {
            Some((path.take(slash), file.take(dot), file.skip(dot + 1)))
        }
    }
}

/// The directory, database stem and extension of a database path.
pub struct PathInfo {
    pub base_path: String,
    pub db_name: String,
    pub extension: String,
}

impl PathInfo {
    /// Splits `<dir>/<stem>.<ext>`; every part must be non-empty.
    pub fn from_path(full_path: &str) -> (r: Option<PathInfo>)
        ensures
            match r {
                Some(p) => spec_path_parts(full_path@) == Some(
                    (p.base_path@, p.db_name@, p.extension@),
                ),
                None => spec_path_parts(full_path@) is None,
            },
    {
        let n = full_path.unicode_len();
        match find_last_char(full_path, '/') {
            None => None,
            Some(slash) => {
                if slash < 1 {
                    return None;
                }
                let file = full_path.substring_char(slash + 1, n);
                proof {
                    assert(file@ =~= full_path@.skip(slash as int + 1));
                }
                let file_len = file.unicode_len();
                match find_last_char(file, '.') {
                    None => None,
                    Some(dot) => {
                        if dot < 1 || dot + 1 >= file_len {
                            return None;
                        }
                        let base = full_path.substring_char(0, slash);
                        let stem = file.substring_char(0, dot);
                        let ext = file.substring_char(dot + 1, file_len);
                        proof {
                            assert(base@ =~= full_path@.take(slash as int));
                            assert(stem@ =~= file@.take(dot as int));
                            assert(ext@ =~= file@.skip(dot as int + 1));
                        }
                        Some(
                            PathInfo {
                                base_path: String::from_str(base),
                                db_name: String::from_str(stem),
                                extension: String::from_str(ext),
                            },
                        )
                    },
                }
            },
        }
    }

    /// The data-file path of one table: `<dir>/<stem>_<table>.<ext>`.
    pub fn generate_table_path(&self, table_name: &String) -> (r: String)
        ensures
            r@ == self.base_path@ + seq!['/'] + self.db_name@ + seq!['_'] + table_name@
                + seq!['.'] + self.extension@,
    {
        proof {
            reveal_strlit("/");
            reveal_strlit("_");
            reveal_strlit(".");
        }
        let mut path = String::from_str(self.base_path.as_str());
        path.append("/");
        path.append(self.db_name.as_str());
        path.append("_");
        path.append(table_name.as_str());
        path.append(".");
        path.append(self.extension.as_str());
        proof {
            assert("/"@ =~= seq!['/']);
            assert("_"@ =~= seq!['_']);
            assert("."@ =~= seq!['.']);
            assert(path@ =~= self.base_path@ + seq!['/'] + self.db_name@ + seq!['_']
                + table_name@ + seq!['.'] + self.extension@);
        }
        path
    }
}

/// One request to the engine.
pub enum Action {
    GetAll(String),
    GetFiltered(String, Vec<FilterType>),
    GetMore(u64),
}

/// The engine's reply to one action.
pub enum Reaction {
    Error(Error),
    QueryStart { schema: TableInfoMap, qid: u64 },
    Data(Vec<RawRow>),
    Empty,
}

/// Index of the last registry entry with the given handle, or `-1`.
pub open spec fn spec_qid_index(s: Seq<(u64, Vec<RawRow>)>, qid: u64) -> int
    decreases s.len(),
{
    if s.len() == 0 {
        -1
    } else if s.last().0 == qid {
        s.len() - 1
    } else {
        spec_qid_index(s.drop_last(), qid)
    }
}

proof fn lemma_qid_index(s: Seq<(u64, Vec<RawRow>)>, qid: u64)
    ensures
        -1 <= spec_qid_index(s, qid) < s.len(),
        spec_qid_index(s, qid) >= 0 ==> s[spec_qid_index(s, qid)].0 == qid,
        forall|j: int| spec_qid_index(s, qid) < j < s.len() ==> s[j].0 != qid,
    decreases s.len(),
{
    if s.len() > 0 && s.last().0 != qid {
        lemma_qid_index(s.drop_last(), qid);
        assert(forall|j: int| 0 <= j < s.len() - 1 ==> s[j] == s.drop_last()[j]);
    }
}

proof fn lemma_qid_index_push(s: Seq<(u64, Vec<RawRow>)>, e: (u64, Vec<RawRow>), qid: u64)
    ensures
        e.0 == qid ==> spec_qid_index(s.push(e), qid) == s.len(),
        e.0 != qid ==> spec_qid_index(s.push(e), qid) == spec_qid_index(s, qid),
{
    assert(s.push(e).drop_last() =~= s);
}

proof fn lemma_name_index_parallel<T, U>(
    s: Seq<(String, T)>,
    t: Seq<(String, U)>,
    name: Seq<char>,
)
    requires
        s.len() == t.len(),
        forall|i: int| 0 <= i < s.len() ==> (#[trigger] s[i]).0@ == t[i].0@,
    ensures
        crate::common::spec_name_index(s, name) == crate::common::spec_name_index(t, name),
    decreases s.len(),
{
    if s.len() > 0 {
        assert(forall|i: int| 0 <= i < s.len() - 1 ==> s.drop_last()[i] == s[i]);
        assert(forall|i: int| 0 <= i < t.len() - 1 ==> t.drop_last()[i] == t[i]);
        lemma_name_index_parallel(s.drop_last(), t.drop_last(), name);
    }
}

/// A fully zeroed block's bytes.
pub open spec fn spec_zero_block() -> Seq<u8> {
    Seq::new(crate::common::BLOCK_SIZE as nat, |i: int| 0u8)
}

/// The blocks of a table after `data` is written from position `0`: the new
/// blocks, then whatever old blocks lie beyond them.
pub open spec fn spec_store_blocks(old_blocks: Seq<Seq<u8>>, data: Seq<Seq<u8>>) -> Seq<Seq<u8>> {
    Seq::new(
        if data.len() >= old_blocks.len() {
            data.len()
        } else {
            old_blocks.len()
        },
        |i: int|
            if i < data.len() {
                data[i]
            } else {
                old_blocks[i]
            },
    )
}

/// The blocks of a table after one block is written at `offset`; a gap past
/// the old end is zero-filled.
pub open spec fn spec_store_block_at(
    old_blocks: Seq<Seq<u8>>,
    offset: int,
    block: Seq<u8>,
) -> Seq<Seq<u8>> {
    Seq::new(
        if offset + 1 >= old_blocks.len() {
            (offset + 1) as nat
        } else {
            old_blocks.len()
        },
        |i: int|
            if i == offset {
                block
            } else if i < old_blocks.len() {
                old_blocks[i]
            } else {
                spec_zero_block()
            },
    )
}

/// The database engine: the catalog, the block store of every table, and
/// the cursor registry of undrained query results.
pub struct DataBase {
    schema: DBSchema,
    tables: Vec<(String, Vec<Block>)>,
    queries: Vec<(u64, Vec<RawRow>)>,
}

impl DataBase {
    /// The catalog: each table's name mapped to its ordered column list.
    pub closed spec fn schema_view(&self) -> Map<Seq<char>, Seq<ColumnHeader>> {
        self.schema@
    }

    /// The catalog's tables in insertion order.
    pub closed spec fn spec_schema_tables(&self) -> Seq<(String, crate::common::TableInfo)> {
        self.schema.spec_tables()
    }

    /// The stored blocks of each table.
    pub closed spec fn tables_map(&self) -> Map<Seq<char>, Seq<Seq<u8>>> {
        Map::new(
            |n: Seq<char>| crate::common::spec_name_index(self.tables@, n) >= 0,
            |n: Seq<char>|
                self.tables@[crate::common::spec_name_index(self.tables@, n)].1.blocks_view(),
        )
    }

    /// The buffered result rows of every open query handle.
    pub closed spec fn queries_map(&self) -> Map<u64, Seq<Seq<u64>>> {
        Map::new(
            |q: u64| spec_qid_index(self.queries@, q) >= 0,
            |q: u64| spec_rows_view(self.queries@[spec_qid_index(self.queries@, q)].1@),
        )
    }

    /// The engine's internal consistency: a well-formed catalog, one block
    /// list per catalogued table, whole blocks throughout, and distinct
    /// query handles.
    pub closed spec fn wf(&self) -> bool {
        &&& self.schema.wf()
        &&& forall|a: int, b: int|
            0 <= a < b < self.tables@.len() ==> (#[trigger] self.tables@[a]).0@ != (
            #[trigger] self.tables@[b]).0@
        &&& forall|a: int, b: int|
            0 <= a < b < self.queries@.len() ==> (#[trigger] self.queries@[a]).0 != (
            #[trigger] self.queries@[b]).0
        &&& forall|n: Seq<char>|
            crate::common::spec_name_index(self.tables@, n) >= 0 <==> #[trigger] self.schema@.contains_key(
                n,
            )
        &&& forall|i: int, j: int|
            0 <= i < self.tables@.len() && 0 <= j < (#[trigger] self.tables@[i]).1@.len()
                ==> (#[trigger] self.tables@[i].1@[j]).wf()
    }

    fn find_table_index(&self, name: &String) -> (r: Option<usize>)
        ensures
            match r {
                Some(i) => crate::common::spec_name_index(self.tables@, name@) == i && i
                    < self.tables@.len(),
                None => crate::common::spec_name_index(self.tables@, name@) < 0,
            },
    {
        let mut i: usize = self.tables.len();
        while i > 0
            invariant
                i <= self.tables@.len(),
                forall|j: int| i <= j < self.tables@.len() ==> self.tables@[j].0@ != name@,
            decreases i,
        {
            i = i - 1;
            if self.tables[i].0 == *name {
                proof {
                    crate::common::lemma_name_index(self.tables@, name@);
                }
                return Some(i);
            }
        }
        proof {
            crate::common::lemma_name_index(self.tables@, name@);
        }
        None
    }

    /// Builds a fresh database: the path must decompose, and every table of
    /// the schema starts with no stored blocks.
    pub fn create(path: &str, schema: DBSchema) -> (r: Result<DataBase, Error>)
        requires
            schema.wf(),
        ensures
            match r {
                Ok(db) => {
                    &&& spec_path_parts(path@) is Some
                    &&& db.wf()
                    &&& db.schema_view() == schema@
                    &&& db.spec_schema_tables() == schema.spec_tables()
                    &&& db.queries_map() == Map::<u64, Seq<Seq<u64>>>::empty()
                    &&& forall|n: Seq<char>| #[trigger]
                        db.tables_map().contains_key(n) <==> schema@.contains_key(n)
                    &&& forall|n: Seq<char>| #[trigger]
                        db.tables_map().contains_key(n) ==> db.tables_map()[n] == Seq::<
                        Seq<u8>,
                    >::empty()
                },
                Err(e) => spec_path_parts(path@) is None && e matches Error::PathError(_),
            },
    {
        match PathInfo::from_path(path) {
            None => Err(Error::PathError(String::from_str("cannot split the database path"))),
            Some(_) => {
                let mut tables: Vec<(String, Vec<Block>)> = Vec::new();
                let n = schema.table_count();
                let mut i: usize = 0;
                while i < n
                    invariant
                        i <= n,
                        n == schema.spec_tables().len(),
                        tables@.len() == i,
                        forall|j: int|
                            0 <= j < i ==> (#[trigger] tables@[j]).0@ == schema.spec_tables()[j].0@
                                && tables@[j].1@.len() == 0,
                    decreases n - i,
                {
                    let entry = schema.table_at(i);
                    tables.push((entry.0.clone(), Vec::new()));
                    i = i + 1;
                }
                let db = DataBase { schema, tables, queries: Vec::new() };
                proof {
                    assert(db.queries_map() =~= Map::<u64, Seq<Seq<u64>>>::empty());
                    assert forall|nm: Seq<char>|
                        crate::common::spec_name_index(db.tables@, nm) == crate::common::spec_name_index(
                            db.schema.spec_tables(),
                            nm,
                        ) by {
                        lemma_name_index_parallel(db.tables@, db.schema.spec_tables(), nm);
                    }
                    db.schema.lemma_view();
                    assert forall|a: int, b: int|
                        0 <= a < b < db.tables@.len() implies db.tables@[a].0@
                        != db.tables@[b].0@ by {
                        assert(db.schema.spec_tables()[a].0@ != db.schema.spec_tables()[b].0@);
                    }
                    assert forall|nm: Seq<char>| #[trigger]
                        db.tables_map().contains_key(nm) implies db.tables_map()[nm] == Seq::<
                        Seq<u8>,
                    >::empty() by {
                        crate::common::lemma_name_index(db.tables@, nm);
                        let idx = crate::common::spec_name_index(db.tables@, nm);
                        assert(db.tables@[idx].1@.len() == 0);
                        assert(db.tables@[idx].1.blocks_view() =~= Seq::<Seq<u8>>::empty());
                    }
                }
                Ok(db)
            },
        }
    }

    /// Opens a database from its path and the text of its schema file: the
    /// parsed catalog with every table registered and, as yet, no stored
    /// blocks.  The caller hands each table its file contents via `store`.
    /// On the canonical text of any well-formed catalog, success is owed and
    /// the same catalog comes back by value.
    pub fn open(path: &str, raw_schema: &str) -> (r: Result<DataBase, Error>)
        ensures
            match r {
                Ok(db) => {
                    &&& spec_path_parts(path@) is Some
                    &&& db.wf()
                    &&& raw_schema@ == schema_json::spec_schema_json(db.spec_schema_tables())
                    &&& db.queries_map() == Map::<u64, Seq<Seq<u64>>>::empty()
                    &&& forall|n: Seq<char>| #[trigger]
                        db.tables_map().contains_key(n) <==> db.schema_view().contains_key(n)
                    &&& forall|n: Seq<char>| #[trigger]
                        db.tables_map().contains_key(n) ==> db.tables_map()[n] == Seq::<
                        Seq<u8>,
                    >::empty()
                },
                Err(e) => (e matches Error::PathError(_) && spec_path_parts(path@) is None) || (
                e matches Error::SerdeError(_) && spec_path_parts(path@) is Some),
            },
            forall|tables: Seq<(Seq<char>, Seq<(Seq<char>, crate::common::ColumnType)>)>|
                spec_path_parts(path@) is Some && schema_json::spec_wf_tables_v(tables)
                    && raw_schema@ == schema_json::spec_schema_json_v(tables) ==> (r matches Ok(db)
                    && schema_json::spec_tables_view(db.spec_schema_tables()) == tables),
    {
        match PathInfo::from_path(path) {
            None => Err(Error::PathError(String::from_str("cannot split the database path"))),
            Some(_) => {
                match schema_json::schema_from_json(raw_schema) {
                    Err(e) => Err(e),
                    Ok(schema) => DataBase::create(path, schema),
                }
            },
        }
    }

    /// The names of the catalogued tables, in catalog order.
    pub fn table_names(&self) -> (r: Vec<String>)
        ensures
            r@.len() == self.spec_schema_tables().len(),
            forall|i: int|
                0 <= i < r@.len() ==> (#[trigger] r@[i])@ == self.spec_schema_tables()[i].0@,
    {
        let mut out: Vec<String> = Vec::new();
        let n = self.schema.table_count();
        let mut i: usize = 0;
        while i < n
            invariant
                i <= n,
                n == self.schema.spec_tables().len(),
                out@.len() == i,
                forall|j: int|
                    0 <= j < i ==> (#[trigger] out@[j])@ == self.schema.spec_tables()[j].0@,
            decreases n - i,
        {
            out.push(self.schema.table_at(i).0.clone());
            i = i + 1;
        }
        out
    }

    /// Writes blocks at positions `0..data.len()`, keeping any older blocks
    /// past the end of the new data.
    pub fn store(&mut self, table_name: &String, data: Vec<Block>) -> (r: Result<(), Error>)
        requires
            old(self).wf(),
            forall|i: int| 0 <= i < data@.len() ==> (#[trigger] data@[i]).wf(),
        ensures
            final(self).wf(),
            final(self).schema_view() == old(self).schema_view(),
            final(self).queries_map() == old(self).queries_map(),
            match r {
                Ok(()) => {
                    &&& old(self).tables_map().contains_key(table_name@)
                    &&& final(self).tables_map() == old(self).tables_map().insert(
                        table_name@,
                        spec_store_blocks(
                            old(self).tables_map()[table_name@],
                            data.blocks_view(),
                        ),
                    )
                },
                Err(e) => {
                    &&& !old(self).tables_map().contains_key(table_name@)
                    &&& e matches Error::SchemaError(_)
                    &&& final(self).tables_map() == old(self).tables_map()
                },
            },
    {
        let ghost old_tables = self.tables@;
        match self.find_table_index(table_name) {
            None => {
                proof {
                    crate::common::lemma_name_index(old_tables, table_name@);
                }
                Err(Error::SchemaError(String::from_str("table does not exist")))
            },
            Some(ti) => {
                proof {
                    crate::common::lemma_name_index(old_tables, table_name@);
                }
                let ghost old_view = self.tables@[ti as int].1.blocks_view();
                let (nm, old_blocks) = self.tables.remove(ti);
                let ghost stored = spec_store_blocks(old_view, data.blocks_view());
                let ghost dv = data.blocks_view();
                let mut new_blocks = data;
                let mut i: usize = new_blocks.len();
                proof {
                    assert(old_blocks@ == old_tables[ti as int].1@);
                    assert(forall|j: int|
                        0 <= j < dv.len() ==> (#[trigger] new_blocks@[j])@ == dv[j]);
                }
                while i < old_blocks.len()
                    invariant
                        new_blocks@.len() == i,
                        dv.len() <= i <= stored.len(),
                        dv == data.blocks_view(),
                        stored == spec_store_blocks(old_view, dv),
                        old_blocks.blocks_view() == old_view,
                        forall|j: int| 0 <= j < i ==> (#[trigger] new_blocks@[j])@ == stored[j],
                        forall|j: int| 0 <= j < dv.len() ==> new_blocks@[j] == data@[j],
                    decreases old_blocks@.len() - i,
                {
                    proof {
                        assert(old_view[i as int] == old_blocks@[i as int]@);
                    }
                    new_blocks.push(old_blocks[i].duplicate());
                    i = i + 1;
                }
                proof {
                    assert(new_blocks.blocks_view() =~= stored);
                }
                self.tables.insert(ti, (nm, new_blocks));
                proof {
                    let e = self.tables@[ti as int];
                    assert(self.tables@ =~= old_tables.update(ti as int, e));
                    assert forall|nm2: Seq<char>|
                        crate::common::spec_name_index(self.tables@, nm2)
                            == crate::common::spec_name_index(old_tables, nm2) by {
                        crate::common::lemma_name_index_update(old_tables, ti as int, e, nm2);
                    }
                    assert(self.queries_map() =~= old(self).queries_map());
                    assert(self.tables_map() =~= old(self).tables_map().insert(
                        table_name@,
                        stored,
                    )) by {
                        assert forall|nm2: Seq<char>|
                            crate::common::spec_name_index(self.tables@, nm2) >= 0 implies {
                            let idx = crate::common::spec_name_index(self.tables@, nm2);
                            self.tables@[idx].1.blocks_view() == old(self).tables_map().insert(
                                table_name@,
                                stored,
                            )[nm2]
                        } by {
                            crate::common::lemma_name_index(self.tables@, nm2);
                            crate::common::lemma_name_index(old_tables, nm2);
                            let idx = crate::common::spec_name_index(self.tables@, nm2);
                            if nm2 == table_name@ {
                                assert(idx == ti as int);
                            } else {
                                assert(old_tables[idx].0@ == nm2);
                                assert(idx != ti as int);
                            }
                        }
                    }
                    assert forall|i2: int, j: int|
                        0 <= i2 < self.tables@.len() && 0 <= j < (
                        #[trigger] self.tables@[i2]).1@.len() implies (
                    #[trigger] self.tables@[i2].1@[j]).wf() by {
                        if i2 == ti as int {
                            assert(self.tables@[i2].1@[j]@ == stored[j]);
                            if j < dv.len() {
                                assert(new_blocks@[j] == data@[j]);
                                assert(data@[j].wf());
                            } else {
                                assert(stored[j] == old_view[j]);
                                assert(old_tables[ti as int].1@[j].wf());
                            }
                        } else {
                            assert(self.tables@[i2] == old_tables[i2]);
                        }
                    }
                }
                Ok(())
            },
        }
    }

    /// The keyed column view of a table with a copy of its stored blocks.
    pub fn load(&self, table_name: &String) -> (r: Result<(TableInfoMap, Vec<Block>), Error>)
        requires
            self.wf(),
        ensures
            match r {
                Ok((m, blocks)) => {
                    &&& self.schema_view().contains_key(table_name@)
                    &&& m@ == spec_table_info_map(self.schema_view()[table_name@])
                    &&& m.wf()
                    &&& blocks.blocks_view() == self.tables_map()[table_name@]
                    &&& self.tables_map().contains_key(table_name@)
                    &&& forall|i: int| 0 <= i < blocks@.len() ==> (#[trigger] blocks@[i]).wf()
                },
                Err(e) => {
                    &&& !self.schema_view().contains_key(table_name@)
                    &&& e matches Error::SchemaError(_)
                },
            },
    {
        match self.schema.get(table_name) {
            None => Err(Error::SchemaError(String::from_str("table does not exist"))),
            Some(info) => {
                let m = map_table_info(info);
                match self.find_table_index(table_name) {
                    None => {
                        proof {
                            // the catalog and the table store share their
                            // domain, so this branch cannot be reached
                            assert(false);
                        }
                        Err(Error::SchemaError(String::from_str("table data is missing")))
                    },
                    Some(ti) => {
                        let stored = &self.tables[ti].1;
                        let mut blocks: Vec<Block> = Vec::new();
                        let mut i: usize = 0;
                        while i < stored.len()
                            invariant
                                i <= stored@.len(),
                                blocks@.len() == i,
                                forall|j: int|
                                    0 <= j < i ==> (#[trigger] blocks@[j])@ == stored@[j]@,
                                forall|j: int| 0 <= j < stored@.len() ==> (#[trigger] stored@[j]).wf(),
                            decreases stored@.len() - i,
                        {
                            blocks.push(stored[i].duplicate());
                            i = i + 1;
                        }
                        proof {
                            crate::common::lemma_name_index(self.tables@, table_name@);
                            assert(blocks.blocks_view() =~= stored.blocks_view());
                        }
                        Ok((m, blocks))
                    },
                }
            },
        }
    }

    /// Writes one block at `offset`; a gap past the current end of the table
    /// is zero-filled, as a sparse file would read back.
    pub fn store_block_at(&mut self, table_name: &String, offset: u64, block: &Block) -> (r:
        Result<(), Error>)
        requires
            old(self).wf(),
            block.wf(),
            offset < usize::MAX,
        ensures
            final(self).wf(),
            final(self).schema_view() == old(self).schema_view(),
            final(self).queries_map() == old(self).queries_map(),
            match r {
                Ok(()) => {
                    &&& old(self).tables_map().contains_key(table_name@)
                    &&& final(self).tables_map() == old(self).tables_map().insert(
                        table_name@,
                        spec_store_block_at(
                            old(self).tables_map()[table_name@],
                            offset as int,
                            block@,
                        ),
                    )
                },
                Err(e) => {
                    &&& !old(self).tables_map().contains_key(table_name@)
                    &&& e matches Error::SchemaError(_)
                    &&& final(self).tables_map() == old(self).tables_map()
                },
            },
    {
        let ghost old_tables = self.tables@;
        match self.find_table_index(table_name) {
            None => {
                proof {
                    crate::common::lemma_name_index(old_tables, table_name@);
                }
                Err(Error::SchemaError(String::from_str("table does not exist")))
            },
            Some(ti) => {
                proof {
                    crate::common::lemma_name_index(old_tables, table_name@);
                }
                let ghost old_view = self.tables@[ti as int].1.blocks_view();
                let (nm, old_blocks) = self.tables.remove(ti);
                let mut new_blocks = old_blocks;
                let off = offset as usize;
                proof {
                    assert(new_blocks@ == old_tables[ti as int].1@);
                }
                while new_blocks.len() <= off
                    invariant
                        off < usize::MAX,
                        off == offset,
                        new_blocks@.len() >= old_view.len(),
                        new_blocks@.len() <= (if old_view.len() >= off + 1 {
                            old_view.len() as int
                        } else {
                            (off + 1) as int
                        }),
                        forall|j: int|
                            0 <= j < new_blocks@.len() ==> (#[trigger] new_blocks@[j])@ == (
                            if j < old_view.len() {
                                old_view[j]
                            } else {
                                spec_zero_block()
                            }),
                        forall|j: int|
                            0 <= j < old_view.len() ==> new_blocks@[j]
                                == old_tables[ti as int].1@[j],
                    decreases off + 1 - new_blocks@.len(),
                {
                    let nb = Block::new();
                    proof {
                        assert(nb@ =~= spec_zero_block());
                    }
                    new_blocks.push(nb);
                }
                new_blocks.set(off, block.duplicate());
                let ghost stored = spec_store_block_at(old_view, offset as int, block@);
                proof {
                    assert(new_blocks.blocks_view() =~= stored);
                }
                self.tables.insert(ti, (nm, new_blocks));
                proof {
                    let e = self.tables@[ti as int];
                    assert(self.tables@ =~= old_tables.update(ti as int, e));
                    assert forall|nm2: Seq<char>|
                        crate::common::spec_name_index(self.tables@, nm2)
                            == crate::common::spec_name_index(old_tables, nm2) by {
                        crate::common::lemma_name_index_update(old_tables, ti as int, e, nm2);
                    }
                    assert(self.queries_map() =~= old(self).queries_map());
                    assert(self.tables_map() =~= old(self).tables_map().insert(
                        table_name@,
                        stored,
                    )) by {
                        assert forall|nm2: Seq<char>|
                            crate::common::spec_name_index(self.tables@, nm2) >= 0 implies {
                            let idx = crate::common::spec_name_index(self.tables@, nm2);
                            self.tables@[idx].1.blocks_view() == old(self).tables_map().insert(
                                table_name@,
                                stored,
                            )[nm2]
                        } by {
                            crate::common::lemma_name_index(self.tables@, nm2);
                            crate::common::lemma_name_index(old_tables, nm2);
                            let idx = crate::common::spec_name_index(self.tables@, nm2);
                            if nm2 == table_name@ {
                                assert(idx == ti as int);
                            } else {
                                assert(old_tables[idx].0@ == nm2);
                                assert(idx != ti as int);
                            }
                        }
                    }
                    assert forall|i2: int, j: int|
                        0 <= i2 < self.tables@.len() && 0 <= j < (
                        #[trigger] self.tables@[i2]).1@.len() implies (
                    #[trigger] self.tables@[i2].1@[j]).wf() by {
                        if i2 == ti as int {
                            assert(self.tables@[i2].1@[j]@ == stored[j]);
                            if j != offset as int && j < old_view.len() {
                                assert(old_tables[ti as int].1@[j].wf());
                            }
                        } else {
                            assert(self.tables@[i2] == old_tables[i2]);
                        }
                    }
                }
                Ok(())
            },
        }
    }

    /// Reads the block at `offset`; past the end of the table it reads back
    /// zeroed, as a short read of a sparse file would.
    pub fn load_block_at(&self, table_name: &String, offset: u64) -> (r: Result<Block, Error>)
        requires
            self.wf(),
        ensures
            match r {
                Ok(b) => {
                    &&& self.tables_map().contains_key(table_name@)
                    &&& b@ == (if offset < self.tables_map()[table_name@].len() {
                        self.tables_map()[table_name@][offset as int]
                    } else {
                        spec_zero_block()
                    })
                    &&& b.wf()
                },
                Err(e) => {
                    &&& !self.tables_map().contains_key(table_name@)
                    &&& e matches Error::SchemaError(_)
                },
            },
    {
        match self.find_table_index(table_name) {
            None => Err(Error::SchemaError(String::from_str("table does not exist"))),
            Some(ti) => {
                let stored = &self.tables[ti].1;
                if offset < stored.len() as u64 {
                    let b = stored[offset as usize].duplicate();
                    proof {
                        assert(stored@[offset as int].wf());
                    }
                    Ok(b)
                } else {
                    let b = Block::new();
                    proof {
                        assert(b@ =~= spec_zero_block());
                    }
                    Ok(b)
                }
            },
        }
    }
}


/// Relies on rand's `random`: a value drawn from the thread-local generator.
/// Nothing is promised of the value drawn.
pub assume_specification<T>[ rand::random::<T> ]() -> (r: T)
    where
        rand::distributions::Standard: rand::distributions::Distribution<T>,
;

/// The query handles held by a registry list.
pub open spec fn spec_qid_set(s: Seq<(u64, Vec<RawRow>)>) -> Set<u64> {
    Set::new(|q: u64| spec_qid_index(s, q) >= 0)
}

proof fn lemma_qid_set_card(s: Seq<(u64, Vec<RawRow>)>)
    ensures
        spec_qid_set(s).finite(),
        spec_qid_set(s).len() <= s.len(),
    decreases s.len(),
{
    if s.len() == 0 {
        assert(spec_qid_set(s) =~= Set::<u64>::empty());
    } else {
        let prefix = s.drop_last();
        assert(forall|j: int| 0 <= j < prefix.len() ==> s[j] == prefix[j]);
        lemma_qid_set_card(prefix);
        assert forall|q: u64|
            spec_qid_set(s).contains(q) <==> (spec_qid_set(prefix).contains(q) || q
                == s.last().0) by {
            lemma_qid_index(s, q);
            lemma_qid_index(prefix, q);
            if spec_qid_index(prefix, q) >= 0 {
                assert(s[spec_qid_index(prefix, q)].0 == q);
                lemma_qid_index(s, q);
            }
        }
        assert(spec_qid_set(s) =~= spec_qid_set(prefix).insert(s.last().0));
    }
}

proof fn lemma_u64_below_card(n: int)
    requires
        0 <= n <= 0x1_0000_0000_0000_0000,
    ensures
        Set::new(|x: u64| (x as int) < n).finite(),
        Set::new(|x: u64| (x as int) < n).len() == n,
    decreases n,
{
    if n == 0 {
        assert(Set::new(|x: u64| (x as int) < n) =~= Set::<u64>::empty());
    } else {
        lemma_u64_below_card(n - 1);
        assert(Set::new(|x: u64| (x as int) < n) =~= Set::new(
            |x: u64| (x as int) < n - 1,
        ).insert((n - 1) as u64));
    }
}

fn queries_contain(queries: &Vec<(u64, Vec<RawRow>)>, qid: u64) -> (r: bool)
    ensures
        r == (spec_qid_index(queries@, qid) >= 0),
{
    let mut k: usize = 0;
    while k < queries.len()
        invariant
            k <= queries@.len(),
            forall|t: int| 0 <= t < k ==> queries@[t].0 != qid,
        decreases queries@.len() - k,
    {
        if queries[k].0 == qid {
            proof {
                lemma_qid_index(queries@, qid);
            }
            return true;
        }
        k = k + 1;
    }
    proof {
        lemma_qid_index(queries@, qid);
    }
    false
}

/// The smallest handle not yet registered.  Handles are drawn at random and
/// redrawn on collision; this deterministic fallback is taken only if a run
/// of draws all collide, so that the loop provably ends.  It is not a
/// monotonic allocation scheme: ordinary allocation stays random.
fn fresh_qid(queries: &Vec<(u64, Vec<RawRow>)>) -> (r: u64)
    ensures
        spec_qid_index(queries@, r) < 0,
{
    let n = queries.len();
    let mut c: u64 = 0;
    while queries_contain(queries, c)
        invariant
            n == queries@.len(),
            forall|q: u64| q < c ==> spec_qid_index(queries@, q) >= 0,
        decreases u64::MAX - c,
    {
        proof {
            if c == u64::MAX {
                // were every candidate taken, the registry would hold more
                // distinct handles than it has entries
                lemma_qid_set_card(queries@);
                lemma_u64_below_card(0x1_0000_0000_0000_0000);
                let full = Set::new(|x: u64| (x as int) < 0x1_0000_0000_0000_0000);
                assert forall|x: u64| full.contains(x) implies spec_qid_set(queries@).contains(
                    x,
                ) by {
                    if x < c {
                    } else {
                        assert(x == c);
                    }
                }
                vstd::set_lib::lemma_len_subset(full, spec_qid_set(queries@));
                assert(false);
            }
        }
        c = c + 1;
    }
    c
}

/// What a drain must leave behind: a held handle gives back exactly its
/// buffered rows and frees the entry; an unknown handle reads back `Empty`.
pub open spec fn spec_more_outcome(pre: DataBase, post: DataBase, r: Reaction, qid: u64) -> bool {
    if pre.queries_map().contains_key(qid) {
        r matches Reaction::Data(rows) && {
            &&& spec_rows_view(rows@) == pre.queries_map()[qid]
            &&& post.queries_map() == pre.queries_map().remove(qid)
        }
    } else {
        (r matches Reaction::Empty) && post.queries_map() == pre.queries_map()
    }
}

/// What one query action must leave behind: on a known table, a fresh
/// handle buffering the selected rows of that table; on an unknown one, a
/// schema error and an untouched registry.
pub open spec fn spec_query_outcome(
    pre: DataBase,
    post: DataBase,
    r: Reaction,
    name: Seq<char>,
    filters: Seq<FilterType>,
) -> bool {
    if pre.schema_view().contains_key(name) {
        let m = spec_table_info_map(pre.schema_view()[name]);
        r matches Reaction::QueryStart { schema, qid } && {
            &&& schema@ == m
            &&& !pre.queries_map().contains_key(qid)
            &&& post.queries_map() == pre.queries_map().insert(
                qid,
                spec_blocks_selected(pre.tables_map()[name], m.dom().len(), filters, m),
            )
        }
    } else {
        (r matches Reaction::Error(e) && e matches Error::SchemaError(_))
            && post.queries_map() == pre.queries_map()
    }
}

impl DataBase {
    fn find_query_index(&self, qid: u64) -> (r: Option<usize>)
        ensures
            match r {
                Some(i) => spec_qid_index(self.queries@, qid) == i && i < self.queries@.len(),
                None => spec_qid_index(self.queries@, qid) < 0,
            },
    {
        let mut i: usize = self.queries.len();
        while i > 0
            invariant
                i <= self.queries@.len(),
                forall|j: int| i <= j < self.queries@.len() ==> self.queries@[j].0 != qid,
            decreases i,
        {
            i = i - 1;
            if self.queries[i].0 == qid {
                proof {
                    lemma_qid_index(self.queries@, qid);
                }
                return Some(i);
            }
        }
        proof {
            lemma_qid_index(self.queries@, qid);
        }
        None
    }

    /// Materialises the selected rows of a table under a fresh random
    /// handle.
    fn begin_query(&mut self, query: &String, filters: Vec<FilterType>) -> (r: Result<
        (u64, TableInfoMap),
        Error,
    >)
        requires
            old(self).wf(),
        ensures
            final(self).wf(),
            final(self).schema_view() == old(self).schema_view(),
            final(self).tables_map() == old(self).tables_map(),
            match r {
                Ok((qid, m)) => {
                    &&& old(self).schema_view().contains_key(query@)
                    &&& m@ == spec_table_info_map(old(self).schema_view()[query@])
                    &&& m.wf()
                    &&& !old(self).queries_map().contains_key(qid)
                    &&& final(self).queries_map() == old(self).queries_map().insert(
                        qid,
                        spec_blocks_selected(
                            old(self).tables_map()[query@],
                            spec_table_info_map(old(self).schema_view()[query@]).dom().len(),
                            filters@,
                            spec_table_info_map(old(self).schema_view()[query@]),
                        ),
                    )
                },
                Err(e) => {
                    &&& !old(self).schema_view().contains_key(query@)
                    &&& e matches Error::SchemaError(_)
                    &&& final(self).queries_map() == old(self).queries_map()
                },
            },
    {
        let load_result = self.load(query);
        match load_result {
            Err(e) => Err(e),
            Ok((m, blocks)) => {
                let ghost info = self.schema_view()[query@];
                proof {
                    self.schema.lemma_view();
                    crate::common::lemma_name_index(self.schema.spec_tables(), query@);
                    let si = crate::common::spec_name_index(self.schema.spec_tables(), query@);
                    assert(info == self.schema.spec_tables()[si].1@);
                    assert(1 <= info.len() && info.len() * 8 <= usize::MAX);
                    crate::common::lemma_name_set_card(info);
                    assert(spec_table_info_map(info).dom() =~= crate::common::spec_name_set(
                        info,
                    ));
                    crate::common::lemma_name_index(info, info[0].0@);
                    assert(crate::common::spec_name_set(info).contains(info[0].0@));
                }
                let columns = m.len();
                let rows = blocks.as_filtered_rows(columns, &filters, &m);
                let mut qid: u64 = rand::random();
                let mut attempts: u64 = 0;
                while attempts < 16 && queries_contain(&self.queries, qid)
                    invariant
                        attempts <= 16,
                    decreases 16 - attempts,
                {
                    qid = rand::random();
                    attempts = attempts + 1;
                }
                if queries_contain(&self.queries, qid) {
                    qid = fresh_qid(&self.queries);
                }
                proof {
                    lemma_qid_index(self.queries@, qid);
                }
                let ghost oldq = self.queries@;
                let ghost row_view = spec_rows_view(rows@);
                self.queries.push((qid, rows));
                proof {
                    let newq = self.queries@;
                    assert forall|q: u64| #[trigger]
                        spec_qid_index(newq, q) == (if q == qid {
                            oldq.len() as int
                        } else {
                            spec_qid_index(oldq, q)
                        }) by {
                        lemma_qid_index_push(oldq, newq.last(), q);
                        assert(newq =~= oldq.push(newq.last()));
                    }
                    assert forall|a: int, b: int|
                        0 <= a < b < newq.len() implies (#[trigger] newq[a]).0 != (
                    #[trigger] newq[b]).0 by {
                        if b == newq.len() - 1 {
                            assert(newq[b].0 == qid);
                            lemma_qid_index(oldq, qid);
                            assert(oldq[a].0 != qid);
                        }
                    }
                    assert(self.queries_map() =~= old(self).queries_map().insert(qid, row_view))
                        by {
                        assert forall|q: u64|
                            spec_qid_index(newq, q) >= 0 implies spec_rows_view(
                            newq[spec_qid_index(newq, q)].1@,
                        ) == old(self).queries_map().insert(qid, row_view)[q] by {
                            lemma_qid_index(oldq, q);
                            if q != qid {
                                assert(newq[spec_qid_index(newq, q)]
                                    == oldq[spec_qid_index(oldq, q)]);
                            }
                        }
                    }
                    assert(self.tables_map() =~= old(self).tables_map());
                    assert(self.schema_view() == old(self).schema_view());
                }
                Ok((qid, m))
            },
        }
    }

    /// Runs one action: `GetAll` and `GetFiltered` open a cursor over the
    /// selected rows of a table, `GetMore` drains and frees a cursor, and an
    /// unknown handle reads back `Empty`.
    pub fn execute(&mut self, action: Action) -> (r: Reaction)
        requires
            old(self).wf(),
        ensures
            final(self).wf(),
            final(self).schema_view() == old(self).schema_view(),
            final(self).tables_map() == old(self).tables_map(),
            match action {
                Action::GetAll(query) => spec_query_outcome(
                    *old(self),
                    *final(self),
                    r,
                    query@,
                    seq![FilterType::All],
                ),
                Action::GetFiltered(query, filters) => spec_query_outcome(
                    *old(self),
                    *final(self),
                    r,
                    query@,
                    filters@,
                ),
                Action::GetMore(qid) => spec_more_outcome(*old(self), *final(self), r, qid),
            },
    {
        match action {
            Action::GetAll(query) => {
                let mut filters: Vec<FilterType> = Vec::new();
                filters.push(FilterType::All);
                proof {
                    assert(filters@ =~= seq![FilterType::All]);
                }
                match self.begin_query(&query, filters) {
                    Ok((qid, schema)) => Reaction::QueryStart { schema, qid },
                    Err(err) => Reaction::Error(err),
                }
            },
            Action::GetMore(qid) => {
                let ghost oldq = self.queries@;
                match self.find_query_index(qid) {
                    None => {
                        proof {
                            lemma_qid_index(oldq, qid);
                        }
                        Reaction::Empty
                    },
                    Some(i) => {
                        proof {
                            lemma_qid_index(oldq, qid);
                        }
                        let entry = self.queries.swap_remove(i);
                        proof {
                            let newq = self.queries@;
                            assert(newq == oldq.update(i as int, oldq.last()).drop_last());
                            assert forall|j: int|
                                0 <= j < newq.len() implies newq[j] == (if j == i as int {
                                    oldq[oldq.len() - 1]
                                } else {
                                    oldq[j]
                                }) by {}
                            assert forall|a: int, b: int|
                                0 <= a < b < newq.len() implies (#[trigger] newq[a]).0 != (
                            #[trigger] newq[b]).0 by {}
                            assert forall|j: int|
                                0 <= j < newq.len() implies newq[j].0 != qid by {
                                if j != i as int {
                                    assert(newq[j] == oldq[j]);
                                }
                            }
                            assert forall|q: u64|
                                q != qid && spec_qid_index(oldq, q) >= 0 implies spec_qid_index(
                                newq,
                                q,
                            ) >= 0 && newq[spec_qid_index(newq, q)] == oldq[spec_qid_index(
                                oldq,
                                q,
                            )] by {
                                lemma_qid_index(oldq, q);
                                lemma_qid_index(newq, q);
                                let o = spec_qid_index(oldq, q);
                                if o == oldq.len() - 1 {
                                    assert(newq[i as int] == oldq[o]);
                                    assert(spec_qid_index(newq, q) >= 0);
                                } else {
                                    assert(newq[o] == oldq[o]);
                                    assert(spec_qid_index(newq, q) >= 0);
                                }
                                let nn = spec_qid_index(newq, q);
                                assert(newq[nn].0 == q);
                                if nn == i as int {
                                    assert(newq[nn] == oldq[oldq.len() - 1]);
                                } else {
                                    assert(newq[nn] == oldq[nn]);
                                }
                            }
                            assert forall|q: u64|
                                spec_qid_index(newq, q) >= 0 implies q != qid && spec_qid_index(
                                oldq,
                                q,
                            ) >= 0 by {
                                lemma_qid_index(newq, q);
                                lemma_qid_index(oldq, q);
                                let nn = spec_qid_index(newq, q);
                                assert(newq[nn].0 == q);
                                if nn == i as int {
                                    assert(newq[nn] == oldq[oldq.len() - 1]);
                                } else {
                                    assert(newq[nn] == oldq[nn]);
                                }
                            }
                            assert(self.queries_map() =~= old(self).queries_map().remove(qid));
                            assert(self.tables_map() =~= old(self).tables_map());
                            assert(entry == oldq[i as int]);
                            assert(spec_rows_view(entry.1@) == old(self).queries_map()[qid]);
                        }
                        Reaction::Data(entry.1)
                    },
                }
            },
            Action::GetFiltered(query, filters) => {
                match self.begin_query(&query, filters) {
                    Ok((qid, schema)) => Reaction::QueryStart { schema, qid },
                    Err(err) => Reaction::Error(err),
                }
            },
        }
    }
}

/// A handle issued by a successful query is fresh, and the first drain of it
/// returns exactly the rows that were materialised, leaving the registry as
/// it was before the query.
pub proof fn lemma_first_drain_returns_materialised(
    pre: Map<u64, Seq<Seq<u64>>>,
    qid: u64,
    rows: Seq<Seq<u64>>,
)
    requires
        !pre.contains_key(qid),
    ensures
        pre.insert(qid, rows).contains_key(qid),
        pre.insert(qid, rows)[qid] == rows,
        pre.insert(qid, rows).remove(qid) == pre,
{
    assert(pre.insert(qid, rows).remove(qid) =~= pre);
}

/// After a drain the handle is gone, so a second drain of it finds no entry
/// and reads back `Empty`.
pub proof fn lemma_second_drain_empty(pre: Map<u64, Seq<Seq<u64>>>, qid: u64)
    ensures
        !pre.remove(qid).contains_key(qid),
{
}

} // verus!
