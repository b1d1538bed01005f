//! The schema file codec: a catalog serialised as one compact JSON object,
//! each table name mapped to its list of `[name, type]` column pairs.

use vstd::prelude::*;

use crate::common::error::Error;
use crate::common::{ColumnHeader, ColumnType, DBSchema, TableInfo};

verus! {

use vstd::string::{StrSliceExecFns, StringExecFns};

/// Relies on std's `String::push`: appends one character to the string.
pub assume_specification[ std::string::String::push ](s: &mut String, c: char)
    ensures
        final(s)@ == old(s)@.push(c),
;

/// The hexadecimal digit of a value below sixteen, lower case.
pub open spec fn spec_hex_digit(n: int) -> char {
    if n == 0 { '0' }
    else if n == 1 { '1' }
    else if n == 2 { '2' }
    else if n == 3 { '3' }
    else if n == 4 { '4' }
    else if n == 5 { '5' }
    else if n == 6 { '6' }
    else if n == 7 { '7' }
    else if n == 8 { '8' }
    else if n == 9 { '9' }
    else if n == 10 { 'a' }
    else if n == 11 { 'b' }
    else if n == 12 { 'c' }
    else if n == 13 { 'd' }
    else if n == 14 { 'e' }
    else { 'f' }
}

/// The JSON escape of one character of a string body: quote and backslash
/// escaped, control characters in their short or `\u00..` forms, everything
/// else written as itself.
pub open spec fn spec_escaped_char(c: char) -> Seq<char> {
    if c == '"' {
        seq!['\\', '"']
    } else if c == '\\' {
        seq!['\\', '\\']
    } else if c == '\u{8}' {
        seq!['\\', 'b']
    } else if c == '\t' {
        seq!['\\', 't']
    } else if c == '\n' {
        seq!['\\', 'n']
    } else if c == '\u{c}' {
        seq!['\\', 'f']
    } else if c == '\r' {
        seq!['\\', 'r']
    } else if (c as u32) < 0x20 {
        seq!['\\', 'u', '0', '0', spec_hex_digit((c as u32) as int / 16), spec_hex_digit((c as u32) as int % 16)]
    } else {
        seq![c]
    }
}

/// The body of a JSON string: each character escaped.
pub open spec fn spec_json_string(s: Seq<char>) -> Seq<char>
    decreases s.len(),
{
    if s.len() == 0 {
        Seq::empty()
    } else {
        spec_json_string(s.drop_last()) + spec_escaped_char(s.last())
    }
}

/// A quoted JSON string token.
pub open spec fn spec_json_quoted(s: Seq<char>) -> Seq<char> {
    seq!['"'] + spec_json_string(s) + seq!['"']
}

/// The tag a column type serialises to.
pub open spec fn spec_type_name(t: ColumnType) -> Seq<char> {
    match t {
        ColumnType::Integer => "Integer"@,
        ColumnType::Boolean => "Boolean"@,
        ColumnType::Text => "Text"@,
        ColumnType::Clob => "Clob"@,
        ColumnType::Blob => "Blob"@,
    }
}

/// One column header: `["name","Type"]`.
pub open spec fn spec_header_json(h: ColumnHeader) -> Seq<char> {
    seq!['['] + spec_json_quoted(h.0@) + seq![','] + spec_json_quoted(spec_type_name(h.1))
        + seq![']']
}

/// The comma-joined headers of one table.
pub open spec fn spec_headers_json(info: Seq<ColumnHeader>) -> Seq<char>
    decreases info.len(),
{
    if info.len() == 0 {
        Seq::empty()
    } else if info.len() == 1 {
        spec_header_json(info[0])
    } else {
        spec_headers_json(info.drop_last()) + seq![','] + spec_header_json(info.last())
    }
}

/// One table's column list: `[...headers...]`.
pub open spec fn spec_info_json(info: Seq<ColumnHeader>) -> Seq<char> {
    seq!['['] + spec_headers_json(info) + seq![']']
}

/// The comma-joined `"table":[...]` members of the catalog object.
pub open spec fn spec_entries_json(tables: Seq<(String, TableInfo)>) -> Seq<char>
    decreases tables.len(),
{
    if tables.len() == 0 {
        Seq::empty()
    } else if tables.len() == 1 {
        spec_json_quoted(tables[0].0@) + seq![':'] + spec_info_json(tables[0].1@)
    } else {
        spec_entries_json(tables.drop_last()) + seq![','] + spec_json_quoted(tables.last().0@)
            + seq![':'] + spec_info_json(tables.last().1@)
    }
}

/// The whole catalog as one compact JSON object, tables in order.
pub open spec fn spec_schema_json(tables: Seq<(String, TableInfo)>) -> Seq<char> {
    seq!['{'] + spec_entries_json(tables) + seq!['}']
}

/// A table's columns as name and type values alone.
pub open spec fn spec_cols_view(info: Seq<ColumnHeader>) -> Seq<(Seq<char>, ColumnType)> {
    info.map_values(|h: ColumnHeader| (h.0@, h.1))
}

/// The catalog as table-name and column values alone.
pub open spec fn spec_tables_view(tables: Seq<(String, TableInfo)>) -> Seq<
    (Seq<char>, Seq<(Seq<char>, ColumnType)>),
> {
    tables.map_values(|t: (String, TableInfo)| (t.0@, spec_cols_view(t.1@)))
}

/// Whether a value-level catalog can be serialised at all: distinct table
/// names, and each table non-empty with a machine-representable row width.
pub open spec fn spec_wf_tables_v(tables: Seq<(Seq<char>, Seq<(Seq<char>, ColumnType)>)>) -> bool {
    &&& forall|a: int, b: int|
        0 <= a < b < tables.len() ==> (#[trigger] tables[a]).0 != (#[trigger] tables[b]).0
    &&& forall|i: int|
        0 <= i < tables.len() ==> 1 <= (#[trigger] tables[i]).1.len() && tables[i].1.len() * 8
            <= usize::MAX
}

/// One column header over values: `["name","Type"]`.
pub open spec fn spec_header_json_v(name: Seq<char>, ty: ColumnType) -> Seq<char> {
    seq!['['] + spec_json_quoted(name) + seq![','] + spec_json_quoted(spec_type_name(ty))
        + seq![']']
}

/// The comma-joined headers of one table, over values.
pub open spec fn spec_headers_json_v(cols: Seq<(Seq<char>, ColumnType)>) -> Seq<char>
    decreases cols.len(),
{
    if cols.len() == 0 {
        Seq::empty()
    } else if cols.len() == 1 {
        spec_header_json_v(cols[0].0, cols[0].1)
    } else {
        spec_headers_json_v(cols.drop_last()) + seq![','] + spec_header_json_v(
            cols.last().0,
            cols.last().1,
        )
    }
}

/// One table's column list over values.
pub open spec fn spec_info_json_v(cols: Seq<(Seq<char>, ColumnType)>) -> Seq<char> {
    seq!['['] + spec_headers_json_v(cols) + seq![']']
}

/// The comma-joined catalog members, over values.
pub open spec fn spec_entries_json_v(tables: Seq<(Seq<char>, Seq<(Seq<char>, ColumnType)>)>) -> Seq<
    char,
>
    decreases tables.len(),
{
    if tables.len() == 0 {
        Seq::empty()
    } else if tables.len() == 1 {
        spec_json_quoted(tables[0].0) + seq![':'] + spec_info_json_v(tables[0].1)
    } else {
        spec_entries_json_v(tables.drop_last()) + seq![','] + spec_json_quoted(tables.last().0)
            + seq![':'] + spec_info_json_v(tables.last().1)
    }
}

/// The whole catalog over values.
pub open spec fn spec_schema_json_v(tables: Seq<(Seq<char>, Seq<(Seq<char>, ColumnType)>)>) -> Seq<
    char,
> {
    seq!['{'] + spec_entries_json_v(tables) + seq!['}']
}

proof fn lemma_headers_json_view(info: Seq<ColumnHeader>)
    ensures
        spec_headers_json(info) == spec_headers_json_v(spec_cols_view(info)),
    decreases info.len(),
{
    if info.len() > 0 {
        lemma_headers_json_view(info.drop_last());
        assert(spec_cols_view(info.drop_last()) =~= spec_cols_view(info).drop_last());
        assert(spec_headers_json(info) =~= spec_headers_json_v(spec_cols_view(info)));
    }
}

proof fn lemma_entries_json_view(tables: Seq<(String, TableInfo)>)
    ensures
        spec_entries_json(tables) == spec_entries_json_v(spec_tables_view(tables)),
    decreases tables.len(),
{
    if tables.len() > 0 {
        lemma_entries_json_view(tables.drop_last());
        assert(spec_tables_view(tables.drop_last()) =~= spec_tables_view(tables).drop_last());
        lemma_headers_json_view(tables[0].1@);
        lemma_headers_json_view(tables.last().1@);
        assert(spec_entries_json(tables) =~= spec_entries_json_v(spec_tables_view(tables)));
    }
}

/// The exec-level and value-level canonical forms agree.
pub proof fn lemma_schema_json_view(tables: Seq<(String, TableInfo)>)
    ensures
        spec_schema_json(tables) == spec_schema_json_v(spec_tables_view(tables)),
{
    lemma_entries_json_view(tables);
    assert(spec_schema_json(tables) =~= spec_schema_json_v(spec_tables_view(tables)));
}

/// A well-formed catalog's value view is serialisable.
pub proof fn lemma_wf_tables_view(schema: &DBSchema)
    requires
        schema.wf(),
    ensures
        spec_wf_tables_v(spec_tables_view(schema.spec_tables())),
{
    let tv = spec_tables_view(schema.spec_tables());
    assert forall|a: int, b: int| 0 <= a < b < tv.len() implies (#[trigger] tv[a]).0 != (
    #[trigger] tv[b]).0 by {
        assert(schema.spec_tables()[a].0@ != schema.spec_tables()[b].0@);
    }
    assert forall|i: int|
        0 <= i < tv.len() implies 1 <= (#[trigger] tv[i]).1.len() && tv[i].1.len() * 8
        <= usize::MAX by {
        assert(1 <= schema.spec_tables()[i].1@.len() && schema.spec_tables()[i].1@.len() * 8
            <= usize::MAX);
        assert(tv[i].1.len() == schema.spec_tables()[i].1@.len());
    }
}

/// Serialising a well-formed catalog meets the canonical-text premise of
/// the success clauses of `schema_from_json` and `DataBase::open`: reopening
/// from `schema_to_json`'s text is owed to succeed and return the same
/// catalog by value.
pub proof fn lemma_reopen_premise(schema: &DBSchema)
    requires
        schema.wf(),
    ensures
        spec_wf_tables_v(spec_tables_view(schema.spec_tables())),
        spec_schema_json(schema.spec_tables()) == spec_schema_json_v(
            spec_tables_view(schema.spec_tables()),
        ),
{
    lemma_wf_tables_view(schema);
    lemma_schema_json_view(schema.spec_tables());
}

proof fn lemma_json_string_concat(a: Seq<char>, b: Seq<char>)
    ensures
        spec_json_string(a + b) == spec_json_string(a) + spec_json_string(b),
    decreases b.len(),
{
    if b.len() == 0 {
        assert(a + b =~= a);
        assert(spec_json_string(a) + spec_json_string(b) =~= spec_json_string(a));
    } else {
        assert((a + b).drop_last() =~= a + b.drop_last());
        assert((a + b).last() == b.last());
        lemma_json_string_concat(a, b.drop_last());
        assert(spec_json_string(a + b) =~= spec_json_string(a) + spec_json_string(b));
    }
}

proof fn lemma_json_string_front(s: Seq<char>)
    requires
        s.len() > 0,
    ensures
        spec_json_string(s) == spec_escaped_char(s[0]) + spec_json_string(s.skip(1)),
{
    assert(s =~= seq![s[0]] + s.skip(1));
    lemma_json_string_concat(seq![s[0]], s.skip(1));
    assert(seq![s[0]].drop_last() =~= Seq::<char>::empty());
    assert(seq![s[0]].last() == s[0]);
    assert(spec_json_string(Seq::<char>::empty()) =~= Seq::<char>::empty());
    assert(spec_json_string(seq![s[0]]) =~= spec_escaped_char(s[0]));
}

proof fn lemma_hex_digit_injective(x: int, y: int)
    requires
        0 <= x < 16,
        0 <= y < 16,
        spec_hex_digit(x) == spec_hex_digit(y),
    ensures
        x == y,
{
}

proof fn lemma_escaped_char_shape(c: char)
    ensures
        1 <= spec_escaped_char(c).len() <= 6,
        spec_escaped_char(c).len() != 1 ==> spec_escaped_char(c)[0] == '\\',
        spec_escaped_char(c).len() == 1 ==> spec_escaped_char(c)[0] == c && c != '"' && c != '\\'
            && (c as u32) >= 0x20,
        spec_escaped_char(c)[0] != '"',
{
}

/// Escape sequences are prefix-free: a text cannot start with the escapes
/// of two different characters.
proof fn lemma_escape_prefix_free(c1: char, c2: char, a: Seq<char>, b: Seq<char>)
    requires
        spec_escaped_char(c1) + a == spec_escaped_char(c2) + b,
    ensures
        c1 == c2,
        a == b,
{
    let e1 = spec_escaped_char(c1);
    let e2 = spec_escaped_char(c2);
    lemma_escaped_char_shape(c1);
    lemma_escaped_char_shape(c2);
    assert((e1 + a)[0] == e1[0]);
    assert((e2 + b)[0] == e2[0]);
    if e1.len() == 1 && e2.len() == 1 {
        assert(c1 == c2);
    } else if e1.len() == 1 {
        assert(e1[0] == c1 && c1 != '\\' && e2[0] == '\\');
        assert(false);
    } else if e2.len() == 1 {
        assert(e2[0] == c2 && c2 != '\\' && e1[0] == '\\');
        assert(false);
    } else {
        assert((e1 + a)[1] == e1[1]);
        assert((e2 + b)[1] == e2[1]);
        assert(e1[1] == e2[1]);
        if e1.len() == 6 && e2.len() == 6 {
            let x1 = (c1 as u32) as int;
            let x2 = (c2 as u32) as int;
            assert((e1 + a)[4] == e1[4] && (e1 + a)[5] == e1[5]);
            assert((e2 + b)[4] == e2[4] && (e2 + b)[5] == e2[5]);
            lemma_hex_digit_injective(x1 / 16, x2 / 16);
            lemma_hex_digit_injective(x1 % 16, x2 % 16);
            assert(x1 == x2) by (nonlinear_arith)
                requires
                    0 <= x1 < 32,
                    0 <= x2 < 32,
                    x1 / 16 == x2 / 16,
                    x1 % 16 == x2 % 16,
            ;
            assert(c1 == c2);
        } else if e1.len() == 6 {
            assert(e1[1] == 'u');
            assert(false);
        } else if e2.len() == 6 {
            assert(e2[1] == 'u');
            assert(false);
        } else {
            assert(c1 == c2);
        }
    }
    assert((e1 + a).skip(e1.len() as int) =~= a);
    assert((e2 + b).skip(e2.len() as int) =~= b);
    assert(a =~= b);
}

/// String bodies followed by their closing quotes decode uniquely.
proof fn lemma_json_body_unique(v1: Seq<char>, v2: Seq<char>, r1: Seq<char>, r2: Seq<char>)
    requires
        spec_json_string(v1) + seq!['"'] + r1 == spec_json_string(v2) + seq!['"'] + r2,
    ensures
        v1 == v2,
        r1 == r2,
    decreases v1.len(),
{
    let lhs = spec_json_string(v1) + seq!['"'] + r1;
    if v1.len() == 0 {
        if v2.len() > 0 {
            lemma_json_string_front(v2);
            lemma_escaped_char_shape(v2[0]);
            assert(lhs[0] == '"');
            assert(spec_json_string(v2).len() >= 1);
            assert(spec_json_string(v2)[0] == spec_escaped_char(v2[0])[0]);
            assert((spec_json_string(v2) + seq!['"'] + r2)[0] == spec_json_string(v2)[0]);
            assert(false);
        }
        assert(lhs.skip(1) =~= r1);
        assert((spec_json_string(v2) + seq!['"'] + r2).skip(1) =~= r2);
        assert(v1 =~= v2);
    } else if v2.len() == 0 {
        lemma_json_string_front(v1);
        lemma_escaped_char_shape(v1[0]);
        assert((spec_json_string(v2) + seq!['"'] + r2)[0] == '"');
        assert(spec_json_string(v1).len() >= 1);
        assert(spec_json_string(v1)[0] == spec_escaped_char(v1[0])[0]);
        assert(lhs[0] == spec_json_string(v1)[0]);
        assert(false);
    } else {
        lemma_json_string_front(v1);
        lemma_json_string_front(v2);
        let t1 = spec_json_string(v1.skip(1)) + seq!['"'] + r1;
        let t2 = spec_json_string(v2.skip(1)) + seq!['"'] + r2;
        assert(spec_escaped_char(v1[0]) + t1 =~= lhs);
        assert(spec_escaped_char(v2[0]) + t2 =~= spec_json_string(v2) + seq!['"'] + r2);
        lemma_escape_prefix_free(v1[0], v2[0], t1, t2);
        lemma_json_body_unique(v1.skip(1), v2.skip(1), r1, r2);
        assert(v1 =~= seq![v1[0]] + v1.skip(1));
        assert(v2 =~= seq![v2[0]] + v2.skip(1));
        assert(v1 =~= v2);
    }
}

/// Quoted string tokens decode uniquely from the front of a text.
proof fn lemma_quoted_unique(v1: Seq<char>, v2: Seq<char>, r1: Seq<char>, r2: Seq<char>)
    requires
        spec_json_quoted(v1) + r1 == spec_json_quoted(v2) + r2,
    ensures
        v1 == v2,
        r1 == r2,
{
    assert((spec_json_quoted(v1) + r1).skip(1) =~= spec_json_string(v1) + seq!['"'] + r1);
    assert((spec_json_quoted(v2) + r2).skip(1) =~= spec_json_string(v2) + seq!['"'] + r2);
    lemma_json_body_unique(v1, v2, r1, r2);
}

fn hex_digit(n: u32) -> (r: char)
    requires
        n < 16,
    ensures
        r == spec_hex_digit(n as int),
{
    if n == 0 { '0' }
    else if n == 1 { '1' }
    else if n == 2 { '2' }
    else if n == 3 { '3' }
    else if n == 4 { '4' }
    else if n == 5 { '5' }
    else if n == 6 { '6' }
    else if n == 7 { '7' }
    else if n == 8 { '8' }
    else if n == 9 { '9' }
    else if n == 10 { 'a' }
    else if n == 11 { 'b' }
    else if n == 12 { 'c' }
    else if n == 13 { 'd' }
    else if n == 14 { 'e' }
    else { 'f' }
}

/// Appends the escaped form of one string-body character.
fn push_escaped(out: &mut String, c: char)
    ensures
        final(out)@ == old(out)@ + spec_escaped_char(c),
{
    let code = #[verifier::truncate] (c as u32);
    if c == '"' {
        out.push('\\');
        out.push('"');
    } else if c == '\\' {
        out.push('\\');
        out.push('\\');
    } else if c == '\u{8}' {
        out.push('\\');
        out.push('b');
    } else if c == '\t' {
        out.push('\\');
        out.push('t');
    } else if c == '\n' {
        out.push('\\');
        out.push('n');
    } else if c == '\u{c}' {
        out.push('\\');
        out.push('f');
    } else if c == '\r' {
        out.push('\\');
        out.push('r');
    } else if code < 0x20 {
        out.push('\\');
        out.push('u');
        out.push('0');
        out.push('0');
        out.push(hex_digit(code / 16));
        out.push(hex_digit(code % 16));
    } else {
        out.push(c);
    }
    proof {
        assert(final(out)@ =~= old(out)@ + spec_escaped_char(c));
    }
}

/// Appends a quoted, escaped JSON string token.
fn push_quoted(out: &mut String, s: &String)
    ensures
        final(out)@ == old(out)@ + spec_json_quoted(s@),
{
    out.push('"');
    let ghost start = out@;
    let n = s.as_str().unicode_len();
    let mut i: usize = 0;
    proof {
        assert(s@.take(0) =~= Seq::<char>::empty());
        assert(out@ =~= start + spec_json_string(s@.take(0)));
    }
    while i < n
        invariant
            i <= n,
            n == s@.len(),
            out@ == start + spec_json_string(s@.take(i as int)),
        decreases n - i,
    {
        let c = s.as_str().get_char(i);
        push_escaped(out, c);
        proof {
            assert(s@.take(i as int + 1).drop_last() =~= s@.take(i as int));
            assert(s@.take(i as int + 1).last() == s@[i as int]);
            assert(out@ =~= start + spec_json_string(s@.take(i as int + 1)));
        }
        i = i + 1;
    }
    proof {
        assert(s@.take(n as int) =~= s@);
    }
    out.push('"');
    proof {
        assert(final(out)@ =~= old(out)@ + spec_json_quoted(s@));
    }
}

/// Appends the tag of a column type, quoted.
fn push_type_name(out: &mut String, t: &ColumnType)
    ensures
        final(out)@ == old(out)@ + spec_json_quoted(spec_type_name(*t)),
{
    proof {
        reveal_strlit("Integer");
        reveal_strlit("Boolean");
        reveal_strlit("Text");
        reveal_strlit("Clob");
        reveal_strlit("Blob");
    }
    let name = match t {
        ColumnType::Integer => String::from_str("Integer"),
        ColumnType::Boolean => String::from_str("Boolean"),
        ColumnType::Text => String::from_str("Text"),
        ColumnType::Clob => String::from_str("Clob"),
        ColumnType::Blob => String::from_str("Blob"),
    };
    proof {
        lemma_json_string_plain(spec_type_name(*t));
    }
    push_quoted(out, &name);
}

/// Escaping changes nothing in a string free of quotes, backslashes and
/// control characters.
pub proof fn lemma_json_string_plain(s: Seq<char>)
    requires
        forall|i: int|
            0 <= i < s.len() ==> (#[trigger] s[i]) != '"' && s[i] != '\\' && (s[i] as u32) >= 0x20,
    ensures
        spec_json_string(s) == s,
    decreases s.len(),
{
    if s.len() > 0 {
        assert(forall|i: int| 0 <= i < s.len() - 1 ==> s.drop_last()[i] == s[i]);
        lemma_json_string_plain(s.drop_last());
        assert(spec_json_string(s) =~= s);
    } else {
        assert(spec_json_string(s) =~= s);
    }
}

/// Serialises a catalog to its compact JSON text.
#[verifier::rlimit(60)]
pub fn schema_to_json(schema: &DBSchema) -> (r: String)
    ensures
        r@ == spec_schema_json(schema.spec_tables()),
{
    let ghost tables = schema.spec_tables();
    let mut out = String::new();
    out.push('{');
    let n = schema.table_count();
    let mut i: usize = 0;
    proof {
        assert(tables.take(0) =~= Seq::<(String, TableInfo)>::empty());
        assert(out@ =~= seq!['{'] + spec_entries_json(tables.take(0)));
    }
    while i < n
        invariant
            i <= n,
            n == tables.len(),
            tables == schema.spec_tables(),
            out@ == seq!['{'] + spec_entries_json(tables.take(i as int)),
        decreases n - i,
    {
        if i > 0 {
            out.push(',');
        }
        let entry = schema.table_at(i);
        push_quoted(&mut out, &entry.0);
        out.push(':');
        out.push('[');
        let ghost info = entry.1@;
        let m = entry.1.len();
        let mut j: usize = 0;
        let ghost info_start = out@;
        proof {
            assert(info.take(0) =~= Seq::<ColumnHeader>::empty());
            assert(out@ =~= info_start + spec_headers_json(info.take(0)));
        }
        while j < m
            invariant
                j <= m,
                m == info.len(),
                info == entry.1@,
                out@ == info_start + spec_headers_json(info.take(j as int)),
            decreases m - j,
        {
            if j > 0 {
                out.push(',');
            }
            let header = &entry.1[j];
            out.push('[');
            push_quoted(&mut out, &header.0);
            out.push(',');
            push_type_name(&mut out, &header.1);
            out.push(']');
            proof {
                assert(info.take(j as int + 1).drop_last() =~= info.take(j as int));
                assert(info.take(j as int + 1).last() == info[j as int]);
                if j == 0 {
                    assert(out@ =~= info_start + spec_headers_json(info.take(1)));
                } else {
                    assert(out@ =~= info_start + spec_headers_json(info.take(j as int + 1)));
                }
            }
            j = j + 1;
        }
        out.push(']');
        proof {
            assert(info.take(m as int) =~= info);
            assert(tables.take(i as int + 1).drop_last() =~= tables.take(i as int));
            assert(tables.take(i as int + 1).last() == tables[i as int]);
            if i == 0 {
                assert(out@ =~= seq!['{'] + spec_entries_json(tables.take(1)));
            } else {
                assert(out@ =~= seq!['{'] + spec_entries_json(tables.take(i as int + 1)));
            }
        }
        i = i + 1;
    }
    out.push('}');
    proof {
        assert(tables.take(n as int) =~= tables);
        assert(out@ =~= spec_schema_json(tables));
    }
    out
}

/// From a canonical decomposition and a matched body prefix, the text past
/// the prefix is the rest of the body, the closing quote, then the rest.
proof fn lemma_parse_string_tail(
    s: Seq<char>,
    pos: int,
    i: int,
    out: Seq<char>,
    v2: Seq<char>,
    rest: Seq<char>,
)
    requires
        0 <= pos,
        pos + 1 <= i <= s.len(),
        s.skip(pos) == spec_json_quoted(v2) + rest,
        out.len() <= v2.len(),
        out == v2.take(out.len() as int),
        s.subrange(pos + 1, i) == spec_json_string(out),
    ensures
        s.skip(i) == spec_json_string(v2.skip(out.len() as int)) + seq!['"'] + rest,
        i == pos + 1 + spec_json_string(out).len(),
{
    let m = out.len() as int;
    assert(v2.take(m) + v2.skip(m) =~= v2);
    lemma_json_string_concat(v2.take(m), v2.skip(m));
    let head = seq!['"'] + spec_json_string(out);
    let tail = spec_json_string(v2.skip(m)) + seq!['"'] + rest;
    assert(spec_json_quoted(v2) + rest =~= head + tail);
    assert(i - pos == head.len());
    assert((head + tail).skip(head.len() as int) =~= tail);
    assert(s.skip(pos).skip(i - pos) =~= s.skip(i));
    assert(s.skip(i) =~= tail);
}

/// The first character past a matched body prefix: the next escape of the
/// decomposed body, or the closing quote when the body is spent.
proof fn lemma_parse_string_front(
    s: Seq<char>,
    pos: int,
    i: int,
    out: Seq<char>,
    v2: Seq<char>,
    rest: Seq<char>,
)
    requires
        0 <= pos,
        pos + 1 <= i <= s.len(),
        s.skip(pos) == spec_json_quoted(v2) + rest,
        out.len() <= v2.len(),
        out == v2.take(out.len() as int),
        s.subrange(pos + 1, i) == spec_json_string(out),
    ensures
        i < s.len(),
        out.len() < v2.len() ==> s.skip(i) == spec_escaped_char(v2[out.len() as int]) + (
        spec_json_string(v2.skip(out.len() as int + 1)) + seq!['"'] + rest),
        out.len() < v2.len() ==> s[i] == spec_escaped_char(v2[out.len() as int])[0],
        out.len() == v2.len() ==> s[i] == '"',
{
    lemma_parse_string_tail(s, pos, i, out, v2, rest);
    let m = out.len() as int;
    if m < v2.len() {
        lemma_json_string_front(v2.skip(m));
        lemma_escaped_char_shape(v2[m]);
        assert(v2.skip(m)[0] == v2[m]);
        assert(v2.skip(m).skip(1) =~= v2.skip(m + 1));
        assert(s.skip(i) =~= spec_escaped_char(v2[m]) + (spec_json_string(v2.skip(m + 1))
            + seq!['"'] + rest));
        assert(s.skip(i).len() >= 1);
        assert(i < s.len());
        assert(s.skip(i)[0] == s[0 + i]);
    } else {
        assert(v2.skip(m).len() == 0);
        assert(spec_json_string(v2.skip(m)) =~= Seq::<char>::empty());
        assert(s.skip(i) =~= seq!['"'] + rest);
        assert(s.skip(i).len() >= 1);
        assert(i < s.len());
        assert(s.skip(i)[0] == s[0 + i]);
    }
}

fn hex_val(c: char) -> (r: Option<u32>)
    ensures
        match r {
            Some(v) => v < 16 && spec_hex_digit(v as int) == c,
            None => forall|v: int| 0 <= v < 16 ==> c != spec_hex_digit(v),
        },
{
    if c == '0' { Some(0) }
    else if c == '1' { Some(1) }
    else if c == '2' { Some(2) }
    else if c == '3' { Some(3) }
    else if c == '4' { Some(4) }
    else if c == '5' { Some(5) }
    else if c == '6' { Some(6) }
    else if c == '7' { Some(7) }
    else if c == '8' { Some(8) }
    else if c == '9' { Some(9) }
    else if c == 'a' { Some(10) }
    else if c == 'b' { Some(11) }
    else if c == 'c' { Some(12) }
    else if c == 'd' { Some(13) }
    else if c == 'e' { Some(14) }
    else if c == 'f' { Some(15) }
    else { None }
}

/// Reads one quoted string token; accepts exactly the canonical escaping
/// that `schema_to_json` writes, and is owed success on it: whenever the
/// text at `pos` starts with a canonical token, that token is returned.
#[verifier::rlimit(100)]
fn parse_string(s: &str, pos: usize) -> (r: Option<(String, usize)>)
    requires
        pos <= s@.len(),
    ensures
        match r {
            Some((v, end)) => {
                &&& pos < end <= s@.len()
                &&& s@.subrange(pos as int, end as int) == spec_json_quoted(v@)
                &&& forall|v2: Seq<char>, rest: Seq<char>|
                    s@.skip(pos as int) == spec_json_quoted(v2) + rest ==> v2 == v@ && end as int
                        == pos + spec_json_quoted(v2).len()
            },
            None => forall|v2: Seq<char>, rest: Seq<char>|
                s@.skip(pos as int) != spec_json_quoted(v2) + rest,
        },
{
    let n = s.unicode_len();
    if pos >= n {
        proof {
            assert forall|v2: Seq<char>, rest: Seq<char>|
                s@.skip(pos as int) != spec_json_quoted(v2) + rest by {
                assert(s@.skip(pos as int).len() == 0);
                assert((spec_json_quoted(v2) + rest).len() >= 2);
            }
        }
        return None;
    }
    if s.get_char(pos) != '"' {
        proof {
            assert forall|v2: Seq<char>, rest: Seq<char>|
                s@.skip(pos as int) != spec_json_quoted(v2) + rest by {
                if s@.skip(pos as int) == spec_json_quoted(v2) + rest {
                    assert((spec_json_quoted(v2) + rest)[0] == '"');
                    assert(s@.skip(pos as int)[0] == s@[pos as int]);
                }
            }
        }
        return None;
    }
    let mut out = String::new();
    let mut i: usize = pos + 1;
    proof {
        assert(s@.subrange(pos as int + 1, pos as int + 1) =~= spec_json_string(out@));
        assert forall|v2: Seq<char>, rest: Seq<char>|
            s@.skip(pos as int) == spec_json_quoted(v2) + rest implies out@.len() <= v2.len()
            && out@ == v2.take(out@.len() as int) by {
            assert(v2.take(0) =~= Seq::<char>::empty());
        }
    }
    while i < n
        invariant
            pos + 1 <= i <= n,
            n == s@.len(),
            s@[pos as int] == '"',
            s@.subrange(pos as int + 1, i as int) == spec_json_string(out@),
            forall|v2: Seq<char>, rest: Seq<char>|
                s@.skip(pos as int) == spec_json_quoted(v2) + rest ==> out@.len() <= v2.len()
                    && out@ == v2.take(out@.len() as int),
        decreases n - i,
    {
        let c = s.get_char(i);
        if c == '"' {
            proof {
                assert(s@.subrange(pos as int, i as int + 1) =~= seq!['"'] + spec_json_string(out@)
                    + seq!['"']);
                assert forall|v2: Seq<char>, rest: Seq<char>|
                    s@.skip(pos as int) == spec_json_quoted(v2) + rest implies v2 == out@ && i + 1
                    == pos + spec_json_quoted(v2).len() by {
                    assert(s@.skip(pos as int) =~= s@.subrange(pos as int, i as int + 1) + s@.skip(
                        i as int + 1,
                    ));
                    lemma_quoted_unique(out@, v2, s@.skip(i as int + 1), rest);
                }
            }
            return Some((out, i + 1));
        }
        let ghost out0 = out@;
        let ghost m0 = out0.len() as int;
        proof {
            // under any canonical decomposition the body is not yet spent,
            // for its next character would otherwise be the closing quote
            assert forall|v2: Seq<char>, rest: Seq<char>|
                s@.skip(pos as int) == spec_json_quoted(v2) + rest implies m0 < v2.len() && s@[
                i as int] == spec_escaped_char(v2[m0])[0] by {
                lemma_parse_string_front(s@, pos as int, i as int, out0, v2, rest);
            }
        }
        let mut step: usize = 1;
        if c == '\\' {
            if i + 1 >= n {
                proof {
                    assert forall|v2: Seq<char>, rest: Seq<char>|
                        s@.skip(pos as int) != spec_json_quoted(v2) + rest by {
                        if s@.skip(pos as int) == spec_json_quoted(v2) + rest {
                            lemma_parse_string_front(s@, pos as int, i as int, out0, v2, rest);
                            lemma_escaped_char_shape(v2[m0]);
                            // an escape is at least two characters, and the
                            // closing quote follows it
                            assert(s@.skip(i as int).len() >= spec_escaped_char(v2[m0]).len() + 1);
                        }
                    }
                }
                return None;
            }
            let e = s.get_char(i + 1);
            proof {
                assert forall|v2: Seq<char>, rest: Seq<char>|
                    s@.skip(pos as int) == spec_json_quoted(v2) + rest implies spec_escaped_char(
                    v2[m0],
                ).len() >= 2 && s@[i as int + 1] == spec_escaped_char(v2[m0])[1] by {
                    lemma_parse_string_front(s@, pos as int, i as int, out0, v2, rest);
                    lemma_escaped_char_shape(v2[m0]);
                    assert(s@.skip(i as int)[1] == s@[i as int + 1]);
                }
            }
            step = 2;
            if e == '"' {
                out.push('"');
            } else if e == '\\' {
                out.push('\\');
            } else if e == 'b' {
                out.push('\u{8}');
            } else if e == 't' {
                out.push('\t');
            } else if e == 'n' {
                out.push('\n');
            } else if e == 'f' {
                out.push('\u{c}');
            } else if e == 'r' {
                out.push('\r');
            } else if e == 'u' {
                if n - i < 6 {
                    proof {
                        assert forall|v2: Seq<char>, rest: Seq<char>|
                            s@.skip(pos as int) != spec_json_quoted(v2) + rest by {
                            if s@.skip(pos as int) == spec_json_quoted(v2) + rest {
                                lemma_parse_string_front(s@, pos as int, i as int, out0, v2, rest);
                                assert(spec_escaped_char(v2[m0]).len() == 6);
                                assert(s@.skip(i as int).len() >= 7);
                            }
                        }
                    }
                    return None;
                }
                proof {
                    assert forall|v2: Seq<char>, rest: Seq<char>|
                        s@.skip(pos as int) == spec_json_quoted(v2) + rest implies {
                        let x = (v2[m0] as u32) as int;
                        &&& spec_escaped_char(v2[m0]) == seq![
                            '\\',
                            'u',
                            '0',
                            '0',
                            spec_hex_digit(x / 16),
                            spec_hex_digit(x % 16),
                        ]
                        &&& 0 <= x < 0x20
                        &&& x != 8 && x != 9 && x != 10 && x != 12 && x != 13
                        &&& s@[i as int + 2] == '0' && s@[i as int + 3] == '0'
                        &&& s@[i as int + 4] == spec_hex_digit(x / 16)
                        &&& s@[i as int + 5] == spec_hex_digit(x % 16)
                    } by {
                        lemma_parse_string_front(s@, pos as int, i as int, out0, v2, rest);
                        lemma_escaped_char_shape(v2[m0]);
                        let x = (v2[m0] as u32) as int;
                        assert(spec_escaped_char(v2[m0])[0] == '\\');
                        assert(spec_escaped_char(v2[m0]).len() >= 2);
                        assert(s@.skip(i as int)[1] == s@[i as int + 1]);
                        assert(spec_escaped_char(v2[m0])[1] == 'u');
                        assert(spec_escaped_char(v2[m0]) == seq![
                            '\\',
                            'u',
                            '0',
                            '0',
                            spec_hex_digit(x / 16),
                            spec_hex_digit(x % 16),
                        ]);
                        assert(0 <= x < 0x20);
                        vstd::utf8::char_u32_cast(v2[m0], v2[m0] as u32);
                        assert('\u{8}' as u32 == 8 && '\t' as u32 == 9 && '\n' as u32 == 10
                            && '\u{c}' as u32 == 12 && '\r' as u32 == 13);
                        if x == 8 {
                            vstd::utf8::char_u32_cast('\u{8}', 8);
                            assert(false);
                        }
                        if x == 9 {
                            vstd::utf8::char_u32_cast('\t', 9);
                            assert(false);
                        }
                        if x == 10 {
                            vstd::utf8::char_u32_cast('\n', 10);
                            assert(false);
                        }
                        if x == 12 {
                            vstd::utf8::char_u32_cast('\u{c}', 12);
                            assert(false);
                        }
                        if x == 13 {
                            vstd::utf8::char_u32_cast('\r', 13);
                            assert(false);
                        }
                        assert(x != 8 && x != 9 && x != 10 && x != 12 && x != 13);
                        assert(s@.skip(i as int)[2] == s@[i as int + 2]);
                        assert(s@.skip(i as int)[3] == s@[i as int + 3]);
                        assert(s@.skip(i as int)[4] == s@[i as int + 4]);
                        assert(s@.skip(i as int)[5] == s@[i as int + 5]);
                        assert(s@[i as int + 2] == '0' && s@[i as int + 3] == '0');
                        assert(s@[i as int + 4] == spec_hex_digit(x / 16));
                        assert(s@[i as int + 5] == spec_hex_digit(x % 16));
                    }
                }
                if s.get_char(i + 2) != '0' || s.get_char(i + 3) != '0' {
                    return None;
                }
                let h1 = match hex_val(s.get_char(i + 4)) {
                    Some(v) => v,
                    None => {
                        proof {
                            assert forall|v2: Seq<char>, rest: Seq<char>|
                                s@.skip(pos as int) != spec_json_quoted(v2) + rest by {
                                if s@.skip(pos as int) == spec_json_quoted(v2) + rest {
                                    let x = (v2[m0] as u32) as int;
                                    assert(0 <= x / 16 < 16);
                                }
                            }
                        }
                        return None;
                    },
                };
                let h2 = match hex_val(s.get_char(i + 5)) {
                    Some(v) => v,
                    None => {
                        proof {
                            assert forall|v2: Seq<char>, rest: Seq<char>|
                                s@.skip(pos as int) != spec_json_quoted(v2) + rest by {
                                if s@.skip(pos as int) == spec_json_quoted(v2) + rest {
                                    let x = (v2[m0] as u32) as int;
                                    assert(0 <= x % 16 < 16);
                                }
                            }
                        }
                        return None;
                    },
                };
                let code = h1 * 16 + h2;
                proof {
                    assert forall|v2: Seq<char>, rest: Seq<char>|
                        s@.skip(pos as int) == spec_json_quoted(v2) + rest implies code as int == (
                        v2[m0] as u32) as int by {
                        let x = (v2[m0] as u32) as int;
                        lemma_hex_digit_injective(h1 as int, x / 16);
                        lemma_hex_digit_injective(h2 as int, x % 16);
                        assert(x == 16 * (x / 16) + x % 16) by (nonlinear_arith)
                            requires
                                0 <= x < 32,
                        ;
                    }
                }
                if code >= 0x20 {
                    return None;
                }
                if code == 8 || code == 9 || code == 10 || code == 12 || code == 13 {
                    return None;
                }
                let c2 = (code as u8) as char;
                out.push(c2);
                step = 6;
                proof {
                    assert((c2 as u32) == code);
                    assert(spec_escaped_char(c2) =~= seq![
                        '\\',
                        'u',
                        '0',
                        '0',
                        spec_hex_digit(code as int / 16),
                        spec_hex_digit(code as int % 16),
                    ]);
                    assert(code as int / 16 == h1 as int && code as int % 16 == h2 as int) by (
                    nonlinear_arith)
                        requires
                            code == h1 * 16 + h2,
                            h1 < 16,
                            h2 < 16,
                    ;
                }
            } else {
                proof {
                    assert forall|v2: Seq<char>, rest: Seq<char>|
                        s@.skip(pos as int) != spec_json_quoted(v2) + rest by {
                        if s@.skip(pos as int) == spec_json_quoted(v2) + rest {
                            // the second character of every escape is one of
                            // the eight the branches above accept
                            assert(spec_escaped_char(v2[m0]).len() >= 2);
                        }
                    }
                }
                return None;
            }
        } else {
            let code = #[verifier::truncate] (c as u32);
            if code < 0x20 {
                proof {
                    assert forall|v2: Seq<char>, rest: Seq<char>|
                        s@.skip(pos as int) != spec_json_quoted(v2) + rest by {
                        if s@.skip(pos as int) == spec_json_quoted(v2) + rest {
                            lemma_escaped_char_shape(v2[m0]);
                            // a bare character below 0x20 is never canonical
                            assert(spec_escaped_char(v2[m0])[0] != c || spec_escaped_char(
                                v2[m0],
                            ).len() == 1);
                        }
                    }
                }
                return None;
            }
            out.push(c);
        }
        proof {
            assert(out@ == out0.push(out@.last()));
            assert(out@.drop_last() =~= out0);
            assert(s@.subrange(i as int, i as int + step as int) =~= spec_escaped_char(
                out@.last(),
            ));
            assert(s@.subrange(pos as int + 1, i as int + step as int) =~= s@.subrange(
                pos as int + 1,
                i as int,
            ) + s@.subrange(i as int, i as int + step as int));
            assert forall|v2: Seq<char>, rest: Seq<char>|
                s@.skip(pos as int) == spec_json_quoted(v2) + rest implies out@.len() <= v2.len()
                && out@ == v2.take(out@.len() as int) by {
                lemma_parse_string_front(s@, pos as int, i as int, out0, v2, rest);
                assert(s@.skip(i as int) =~= s@.subrange(i as int, i as int + step as int)
                    + s@.skip(i as int + step as int));
                lemma_escape_prefix_free(
                    out@.last(),
                    v2[m0],
                    s@.skip(i as int + step as int),
                    spec_json_string(v2.skip(m0 + 1)) + seq!['"'] + rest,
                );
                assert(out@ =~= v2.take(m0 + 1));
            }
        }
        i = i + step;
    }
    proof {
        assert forall|v2: Seq<char>, rest: Seq<char>|
            s@.skip(pos as int) != spec_json_quoted(v2) + rest by {
            if s@.skip(pos as int) == spec_json_quoted(v2) + rest {
                lemma_parse_string_front(s@, pos as int, i as int, out@, v2, rest);
            }
        }
    }
    None
}

proof fn lemma_type_names_plain()
    ensures
        spec_json_string("Integer"@) == "Integer"@,
        spec_json_string("Boolean"@) == "Boolean"@,
        spec_json_string("Text"@) == "Text"@,
        spec_json_string("Clob"@) == "Clob"@,
        spec_json_string("Blob"@) == "Blob"@,
{
    reveal_strlit("Integer");
    reveal_strlit("Boolean");
    reveal_strlit("Text");
    reveal_strlit("Clob");
    reveal_strlit("Blob");
    assert("Integer"@ =~= seq!['I', 'n', 't', 'e', 'g', 'e', 'r']);
    assert("Boolean"@ =~= seq!['B', 'o', 'o', 'l', 'e', 'a', 'n']);
    assert("Text"@ =~= seq!['T', 'e', 'x', 't']);
    assert("Clob"@ =~= seq!['C', 'l', 'o', 'b']);
    assert("Blob"@ =~= seq!['B', 'l', 'o', 'b']);
    lemma_json_string_plain("Integer"@);
    lemma_json_string_plain("Boolean"@);
    lemma_json_string_plain("Text"@);
    lemma_json_string_plain("Clob"@);
    lemma_json_string_plain("Blob"@);
}

proof fn lemma_type_name_injective(t1: ColumnType, t2: ColumnType)
    requires
        spec_type_name(t1) == spec_type_name(t2),
    ensures
        t1 == t2,
{
    reveal_strlit("Integer");
    reveal_strlit("Boolean");
    reveal_strlit("Text");
    reveal_strlit("Clob");
    reveal_strlit("Blob");
    assert("Integer"@[0] == 'I' && "Integer"@.len() == 7);
    assert("Boolean"@[0] == 'B' && "Boolean"@.len() == 7);
    assert("Text"@[0] == 'T' && "Text"@.len() == 4);
    assert("Clob"@[0] == 'C' && "Clob"@.len() == 4);
    assert("Blob"@[0] == 'B' && "Blob"@.len() == 4);
}

/// Peels a known prefix off a decomposed suffix of the text.
proof fn lemma_skip_concat(s: Seq<char>, pos: int, a: Seq<char>, b: Seq<char>)
    requires
        0 <= pos <= s.len(),
        s.skip(pos) == a + b,
    ensures
        pos + a.len() + b.len() == s.len(),
        pos + a.len() <= s.len(),
        s.skip(pos + a.len()) == b,
        a.len() > 0 ==> s[pos] == a[0],
{
    assert((a + b).skip(a.len() as int) =~= b);
    assert(s.skip(pos).skip(a.len() as int) =~= s.skip(pos + a.len()));
    if a.len() > 0 {
        assert(s.skip(pos)[0] == s[0 + pos]);
        assert((a + b)[0] == a[0]);
    }
}

/// The positions of every token of a decomposed canonical header.
proof fn lemma_header_decomposition(
    s: Seq<char>,
    pos: int,
    name: Seq<char>,
    ty: ColumnType,
    rest: Seq<char>,
)
    requires
        0 <= pos <= s.len(),
        s.skip(pos) == spec_header_json_v(name, ty) + rest,
    ensures
        ({
            let p1 = pos + 1 + spec_json_quoted(name).len();
            let p2 = p1 + 1 + spec_json_quoted(spec_type_name(ty)).len();
            &&& s[pos] == '['
            &&& s.skip(pos + 1) == spec_json_quoted(name) + (seq![','] + spec_json_quoted(
                spec_type_name(ty),
            ) + seq![']'] + rest)
            &&& s[p1] == ','
            &&& s.skip(p1 + 1) == spec_json_quoted(spec_type_name(ty)) + (seq![']'] + rest)
            &&& s[p2] == ']'
            &&& s.skip(p2 + 1) == rest
            &&& pos + spec_header_json_v(name, ty).len() == p2 + 1
            &&& p2 + 1 <= s.len()
        }),
{
    let q1 = spec_json_quoted(name);
    let q2 = spec_json_quoted(spec_type_name(ty));
    let p1 = pos + 1 + q1.len();
    let p2 = p1 + 1 + q2.len();
    assert(spec_header_json_v(name, ty) + rest =~= seq!['['] + (q1 + (seq![','] + (q2 + (
    seq![']'] + rest)))));
    lemma_skip_concat(s, pos, seq!['['], q1 + (seq![','] + (q2 + (seq![']'] + rest))));
    lemma_skip_concat(s, pos + 1, q1, seq![','] + (q2 + (seq![']'] + rest)));
    lemma_skip_concat(s, p1, seq![','], q2 + (seq![']'] + rest));
    lemma_skip_concat(s, p1 + 1, q2, seq![']'] + rest);
    lemma_skip_concat(s, p2, seq![']'], rest);
    assert(s.skip(pos + 1) =~= q1 + (seq![','] + q2 + seq![']'] + rest));
}

/// Reads one quoted column-type tag; owed success on a canonical tag.
fn parse_type_token(s: &str, pos: usize) -> (r: Option<(ColumnType, usize)>)
    requires
        pos <= s@.len(),
    ensures
        match r {
            Some((t, end)) => {
                &&& pos < end <= s@.len()
                &&& s@.subrange(pos as int, end as int) == spec_json_quoted(spec_type_name(t))
                &&& forall|t2: ColumnType, rest: Seq<char>|
                    s@.skip(pos as int) == spec_json_quoted(spec_type_name(t2)) + rest ==> t2 == t
                        && end as int == pos + spec_json_quoted(spec_type_name(t2)).len()
            },
            None => forall|t2: ColumnType, rest: Seq<char>|
                s@.skip(pos as int) != spec_json_quoted(spec_type_name(t2)) + rest,
        },
{
    match parse_string(s, pos) {
        None => {
            proof {
                assert forall|t2: ColumnType, rest: Seq<char>|
                    s@.skip(pos as int) != spec_json_quoted(spec_type_name(t2)) + rest by {}
            }
            None
        },
        Some((v, end)) => {
            proof {
                reveal_strlit("Integer");
                reveal_strlit("Boolean");
                reveal_strlit("Text");
                reveal_strlit("Clob");
                reveal_strlit("Blob");
                lemma_type_names_plain();
            }
            let r = if v == String::from_str("Integer") {
                Some((ColumnType::Integer, end))
            } else if v == String::from_str("Boolean") {
                Some((ColumnType::Boolean, end))
            } else if v == String::from_str("Text") {
                Some((ColumnType::Text, end))
            } else if v == String::from_str("Clob") {
                Some((ColumnType::Clob, end))
            } else if v == String::from_str("Blob") {
                Some((ColumnType::Blob, end))
            } else {
                None
            };
            proof {
                match r {
                    Some((t, _)) => {
                        assert(v@ == spec_type_name(t));
                        assert forall|t2: ColumnType, rest: Seq<char>|
                            s@.skip(pos as int) == spec_json_quoted(spec_type_name(t2)) + rest
                            implies t2 == t && end as int == pos + spec_json_quoted(
                            spec_type_name(t2),
                        ).len() by {
                            assert(v@ == spec_type_name(t2));
                            lemma_type_name_injective(t, t2);
                        }
                    },
                    None => {
                        assert forall|t2: ColumnType, rest: Seq<char>|
                            s@.skip(pos as int) != spec_json_quoted(spec_type_name(t2)) + rest by {
                            if s@.skip(pos as int) == spec_json_quoted(spec_type_name(t2)) + rest {
                                assert(v@ == spec_type_name(t2));
                                match t2 {
                                    ColumnType::Integer => assert(v@ == "Integer"@),
                                    ColumnType::Boolean => assert(v@ == "Boolean"@),
                                    ColumnType::Text => assert(v@ == "Text"@),
                                    ColumnType::Clob => assert(v@ == "Clob"@),
                                    ColumnType::Blob => assert(v@ == "Blob"@),
                                }
                            }
                        }
                    },
                }
            }
            r
        },
    }
}

/// Reads one `["name","Type"]` column header; owed success on a canonical
/// one.
#[verifier::rlimit(60)]
fn parse_header(s: &str, pos: usize) -> (r: Option<((String, ColumnType), usize)>)
    requires
        pos <= s@.len(),
    ensures
        match r {
            Some((h, end)) => {
                &&& pos < end <= s@.len()
                &&& s@.subrange(pos as int, end as int) == spec_header_json(h)
                &&& forall|name: Seq<char>, ty: ColumnType, rest: Seq<char>|
                    s@.skip(pos as int) == spec_header_json_v(name, ty) + rest ==> h.0@ == name
                        && h.1 == ty && end as int == pos + spec_header_json_v(name, ty).len()
            },
            None => forall|name: Seq<char>, ty: ColumnType, rest: Seq<char>|
                s@.skip(pos as int) != spec_header_json_v(name, ty) + rest,
        },
{
    let n = s.unicode_len();
    if pos >= n || s.get_char(pos) != '[' {
        proof {
            assert forall|name: Seq<char>, ty: ColumnType, rest: Seq<char>|
                s@.skip(pos as int) != spec_header_json_v(name, ty) + rest by {
                if s@.skip(pos as int) == spec_header_json_v(name, ty) + rest {
                    lemma_header_decomposition(s@, pos as int, name, ty, rest);
                }
            }
        }
        return None;
    }
    match parse_string(s, pos + 1) {
        None => {
            proof {
                assert forall|name: Seq<char>, ty: ColumnType, rest: Seq<char>|
                    s@.skip(pos as int) != spec_header_json_v(name, ty) + rest by {
                    if s@.skip(pos as int) == spec_header_json_v(name, ty) + rest {
                        lemma_header_decomposition(s@, pos as int, name, ty, rest);
                    }
                }
            }
            None
        },
        Some((name, p1)) => {
            if p1 >= n || s.get_char(p1) != ',' {
                proof {
                    assert forall|name2: Seq<char>, ty: ColumnType, rest: Seq<char>|
                        s@.skip(pos as int) != spec_header_json_v(name2, ty) + rest by {
                        if s@.skip(pos as int) == spec_header_json_v(name2, ty) + rest {
                            lemma_header_decomposition(s@, pos as int, name2, ty, rest);
                        }
                    }
                }
                return None;
            }
            match parse_type_token(s, p1 + 1) {
                None => {
                    proof {
                        assert forall|name2: Seq<char>, ty: ColumnType, rest: Seq<char>|
                            s@.skip(pos as int) != spec_header_json_v(name2, ty) + rest by {
                            if s@.skip(pos as int) == spec_header_json_v(name2, ty) + rest {
                                lemma_header_decomposition(s@, pos as int, name2, ty, rest);
                            }
                        }
                    }
                    None
                },
                Some((t, p2)) => {
                    if p2 >= n || s.get_char(p2) != ']' {
                        proof {
                            assert forall|name2: Seq<char>, ty: ColumnType, rest: Seq<char>|
                                s@.skip(pos as int) != spec_header_json_v(name2, ty) + rest by {
                                if s@.skip(pos as int) == spec_header_json_v(name2, ty) + rest {
                                    lemma_header_decomposition(s@, pos as int, name2, ty, rest);
                                }
                            }
                        }
                        return None;
                    }
                    proof {
                        assert(s@.subrange(pos as int, p2 as int + 1) =~= seq!['['] + s@.subrange(
                            pos as int + 1,
                            p1 as int,
                        ) + seq![','] + s@.subrange(p1 as int + 1, p2 as int) + seq![']']);
                        assert forall|name2: Seq<char>, ty: ColumnType, rest: Seq<char>|
                            s@.skip(pos as int) == spec_header_json_v(name2, ty) + rest implies
                            name@ == name2 && t == ty && p2 + 1 == pos + spec_header_json_v(
                            name2,
                            ty,
                        ).len() by {
                            lemma_header_decomposition(s@, pos as int, name2, ty, rest);
                        }
                    }
                    Some(((name, t), p2 + 1))
                },
            }
        },
    }
}

/// Splitting a joined header list after `k` headers.
proof fn lemma_headers_v_split(cols: Seq<(Seq<char>, ColumnType)>, k: int)
    requires
        1 <= k <= cols.len(),
    ensures
        spec_headers_json_v(cols) == spec_headers_json_v(cols.take(k)) + (if k == cols.len() {
            Seq::<char>::empty()
        } else {
            seq![','] + spec_headers_json_v(cols.skip(k))
        }),
    decreases cols.len(),
{
    if k == cols.len() {
        assert(cols.take(k) =~= cols);
        assert(spec_headers_json_v(cols) + Seq::<char>::empty() =~= spec_headers_json_v(cols));
    } else {
        let prev = cols.drop_last();
        assert(prev.take(k) =~= cols.take(k));
        lemma_headers_v_split(prev, k);
        if k == cols.len() - 1 {
            assert(cols.skip(k) =~= seq![cols.last()]);
            assert(seq![cols.last()][0] == cols.last());
            assert(spec_headers_json_v(cols.skip(k)) == spec_header_json_v(
                cols.last().0,
                cols.last().1,
            ));
            assert(spec_headers_json_v(cols) =~= spec_headers_json_v(cols.take(k)) + (seq![',']
                + spec_headers_json_v(cols.skip(k))));
        } else {
            assert(cols.skip(k).drop_last() =~= prev.skip(k));
            assert(cols.skip(k).last() == cols.last());
            assert(cols.skip(k).len() >= 2);
            assert(spec_headers_json_v(cols.skip(k)) == spec_headers_json_v(prev.skip(k))
                + seq![','] + spec_header_json_v(cols.last().0, cols.last().1));
            assert(spec_headers_json_v(cols) =~= spec_headers_json_v(cols.take(k)) + (seq![',']
                + spec_headers_json_v(cols.skip(k))));
        }
    }
}

/// The first header of a joined header list.
proof fn lemma_headers_v_front(cols: Seq<(Seq<char>, ColumnType)>)
    requires
        cols.len() >= 1,
    ensures
        spec_headers_json_v(cols) == spec_header_json_v(cols[0].0, cols[0].1) + (if cols.len()
            == 1 {
            Seq::<char>::empty()
        } else {
            seq![','] + spec_headers_json_v(cols.skip(1))
        }),
{
    lemma_headers_v_split(cols, 1);
    assert(cols.take(1)[0] == cols[0]);
    assert(spec_headers_json_v(cols.take(1)) == spec_header_json_v(cols[0].0, cols[0].1));
}

/// The text facts a decomposed canonical column list gives at state `k`:
/// where the consumed part ends and what follows it.
proof fn lemma_info_state(
    s: Seq<char>,
    pos: int,
    cur: int,
    parsed: Seq<(Seq<char>, ColumnType)>,
    cols: Seq<(Seq<char>, ColumnType)>,
    rest: Seq<char>,
)
    requires
        0 <= pos <= s.len(),
        cols.len() >= 1,
        s.skip(pos) == spec_info_json_v(cols) + rest,
        1 <= parsed.len() <= cols.len(),
        parsed == cols.take(parsed.len() as int),
        pos + 1 <= cur <= s.len(),
        s.subrange(pos + 1, cur) == spec_headers_json_v(parsed),
    ensures
        parsed.len() < cols.len() ==> {
            &&& cur < s.len()
            &&& s[cur] == ','
            &&& s.skip(cur + 1) == spec_header_json_v(
                cols[parsed.len() as int].0,
                cols[parsed.len() as int].1,
            ) + ((if parsed.len() + 1 == cols.len() {
                Seq::<char>::empty()
            } else {
                seq![','] + spec_headers_json_v(cols.skip(parsed.len() as int + 1))
            }) + (seq![']'] + rest))
        },
        parsed.len() == cols.len() ==> {
            &&& cur < s.len()
            &&& s[cur] == ']'
            &&& s.skip(cur + 1) == rest
            &&& cur + 1 == pos + spec_info_json_v(cols).len()
        },
{
    let k = parsed.len() as int;
    assert(spec_info_json_v(cols) + rest =~= seq!['['] + (spec_headers_json_v(cols) + (seq![']']
        + rest)));
    lemma_skip_concat(s, pos, seq!['['], spec_headers_json_v(cols) + (seq![']'] + rest));
    lemma_headers_v_split(cols, k);
    if k == cols.len() {
        assert(s.skip(pos + 1) == spec_headers_json_v(parsed) + (seq![']'] + rest));
        assert(cur == pos + 1 + spec_headers_json_v(parsed).len());
        lemma_skip_concat(s, pos + 1, spec_headers_json_v(parsed), seq![']'] + rest);
        lemma_skip_concat(s, cur, seq![']'], rest);
    } else {
        let tail = seq![','] + spec_headers_json_v(cols.skip(k));
        assert(spec_headers_json_v(cols) == spec_headers_json_v(parsed) + tail);
        assert(s.skip(pos + 1) =~= spec_headers_json_v(parsed) + (tail + (seq![']'] + rest)));
        assert(cur == pos + 1 + spec_headers_json_v(parsed).len());
        lemma_skip_concat(s, pos + 1, spec_headers_json_v(parsed), tail + (seq![']'] + rest));
        assert(s.skip(cur) == tail + (seq![']'] + rest));
        assert(s.skip(cur) =~= seq![','] + (spec_headers_json_v(cols.skip(k)) + (seq![']']
            + rest)));
        lemma_skip_concat(s, cur, seq![','], spec_headers_json_v(cols.skip(k)) + (seq![']']
            + rest));
        lemma_headers_v_front(cols.skip(k));
        assert(cols.skip(k)[0] == cols[k]);
        assert(cols.skip(k).len() == 1 <==> k + 1 == cols.len());
        if cols.skip(k).len() == 1 {
            assert(s.skip(cur + 1) =~= spec_header_json_v(cols[k].0, cols[k].1) + (Seq::<
                char,
            >::empty() + (seq![']'] + rest)));
        } else {
            assert(cols.skip(k).skip(1) =~= cols.skip(k + 1));
            assert(s.skip(cur + 1) =~= spec_header_json_v(cols[k].0, cols[k].1) + ((seq![',']
                + spec_headers_json_v(cols.skip(k + 1))) + (seq![']'] + rest)));
        }
    }
}

/// Reads one `[...headers...]` column list; it must hold at least one
/// column, and is owed success on a canonical one.
#[verifier::rlimit(100)]
fn parse_info(s: &str, pos: usize) -> (r: Option<(TableInfo, usize)>)
    requires
        pos <= s@.len(),
    ensures
        match r {
            Some((info, end)) => {
                &&& pos < end <= s@.len()
                &&& s@.subrange(pos as int, end as int) == spec_info_json(info@)
                &&& info@.len() >= 1
                &&& forall|cols: Seq<(Seq<char>, ColumnType)>, rest: Seq<char>|
                    cols.len() >= 1 && s@.skip(pos as int) == spec_info_json_v(cols) + rest
                        ==> spec_cols_view(info@) == cols && end as int == pos + spec_info_json_v(
                        cols,
                    ).len()
            },
            None => forall|cols: Seq<(Seq<char>, ColumnType)>, rest: Seq<char>|
                !(cols.len() >= 1 && s@.skip(pos as int) == spec_info_json_v(cols) + rest),
        },
{
    let n = s.unicode_len();
    if pos >= n || s.get_char(pos) != '[' {
        proof {
            assert forall|cols: Seq<(Seq<char>, ColumnType)>, rest: Seq<char>|
                !(cols.len() >= 1 && s@.skip(pos as int) == spec_info_json_v(cols) + rest) by {
                if cols.len() >= 1 && s@.skip(pos as int) == spec_info_json_v(cols) + rest {
                    assert(spec_info_json_v(cols) + rest =~= seq!['['] + (spec_headers_json_v(cols)
                        + (seq![']'] + rest)));
                    lemma_skip_concat(
                        s@,
                        pos as int,
                        seq!['['],
                        spec_headers_json_v(cols) + (seq![']'] + rest),
                    );
                }
            }
        }
        return None;
    }
    let mut info: TableInfo = Vec::new();
    let first = match parse_header(s, pos + 1) {
        None => {
            proof {
                assert forall|cols: Seq<(Seq<char>, ColumnType)>, rest: Seq<char>|
                    !(cols.len() >= 1 && s@.skip(pos as int) == spec_info_json_v(cols) + rest) by {
                    if cols.len() >= 1 && s@.skip(pos as int) == spec_info_json_v(cols) + rest {
                        assert(spec_info_json_v(cols) + rest =~= seq!['['] + (spec_headers_json_v(
                            cols,
                        ) + (seq![']'] + rest)));
                        lemma_skip_concat(
                            s@,
                            pos as int,
                            seq!['['],
                            spec_headers_json_v(cols) + (seq![']'] + rest),
                        );
                        lemma_headers_v_front(cols);
                        if cols.len() == 1 {
                            assert(s@.skip(pos as int + 1) =~= spec_header_json_v(
                                cols[0].0,
                                cols[0].1,
                            ) + (Seq::<char>::empty() + (seq![']'] + rest)));
                        } else {
                            assert(s@.skip(pos as int + 1) =~= spec_header_json_v(
                                cols[0].0,
                                cols[0].1,
                            ) + ((seq![','] + spec_headers_json_v(cols.skip(1))) + (seq![']']
                                + rest)));
                        }
                    }
                }
            }
            return None;
        },
        Some(h) => h,
    };
    info.push(first.0);
    let mut cur = first.1;
    proof {
        assert(info@.drop_last() =~= Seq::<ColumnHeader>::empty());
        assert(s@.subrange(pos as int + 1, cur as int) =~= spec_headers_json(info@));
        lemma_headers_json_view(info@);
        assert forall|cols: Seq<(Seq<char>, ColumnType)>, rest: Seq<char>|
            cols.len() >= 1 && s@.skip(pos as int) == spec_info_json_v(cols) + rest
            implies info@.len() <= cols.len() && spec_cols_view(info@) == cols.take(
            info@.len() as int,
        ) by {
            assert(spec_info_json_v(cols) + rest =~= seq!['['] + (spec_headers_json_v(cols) + (
            seq![']'] + rest)));
            lemma_skip_concat(
                s@,
                pos as int,
                seq!['['],
                spec_headers_json_v(cols) + (seq![']'] + rest),
            );
            lemma_headers_v_front(cols);
            if cols.len() == 1 {
                assert(s@.skip(pos as int + 1) =~= spec_header_json_v(cols[0].0, cols[0].1) + (
                Seq::<char>::empty() + (seq![']'] + rest)));
            } else {
                assert(s@.skip(pos as int + 1) =~= spec_header_json_v(cols[0].0, cols[0].1) + ((
                seq![','] + spec_headers_json_v(cols.skip(1))) + (seq![']'] + rest)));
            }
            assert(spec_cols_view(info@) =~= cols.take(1));
        }
    }
    while cur < n && s.get_char(cur) == ','
        invariant
            pos + 1 <= cur <= n,
            n == s@.len(),
            s@[pos as int] == '[',
            info@.len() >= 1,
            s@.subrange(pos as int + 1, cur as int) == spec_headers_json(info@),
            forall|cols: Seq<(Seq<char>, ColumnType)>, rest: Seq<char>|
                cols.len() >= 1 && s@.skip(pos as int) == spec_info_json_v(cols) + rest
                    ==> info@.len() <= cols.len() && spec_cols_view(info@) == cols.take(
                    info@.len() as int,
                ),
        decreases n - cur,
    {
        let ghost info0 = info@;
        let ghost cur0 = cur as int;
        proof {
            lemma_headers_json_view(info0);
            assert forall|cols: Seq<(Seq<char>, ColumnType)>, rest: Seq<char>|
                cols.len() >= 1 && s@.skip(pos as int) == spec_info_json_v(cols) + rest
                implies info0.len() < cols.len() by {
                lemma_info_state(
                    s@,
                    pos as int,
                    cur0,
                    spec_cols_view(info0),
                    cols,
                    rest,
                );
            }
        }
        let h = match parse_header(s, cur + 1) {
            None => {
                proof {
                    assert forall|cols: Seq<(Seq<char>, ColumnType)>, rest: Seq<char>|
                        !(cols.len() >= 1 && s@.skip(pos as int) == spec_info_json_v(cols) + rest)
                        by {
                        if cols.len() >= 1 && s@.skip(pos as int) == spec_info_json_v(cols)
                            + rest {
                            lemma_headers_json_view(info0);
                            lemma_info_state(
                                s@,
                                pos as int,
                                cur0,
                                spec_cols_view(info0),
                                cols,
                                rest,
                            );
                        }
                    }
                }
                return None;
            },
            Some(h) => h,
        };
        info.push(h.0);
        proof {
            assert(info@.drop_last() =~= info0);
            assert(s@.subrange(pos as int + 1, h.1 as int) =~= s@.subrange(pos as int + 1, cur0)
                + seq![','] + s@.subrange(cur0 + 1, h.1 as int));
            assert forall|cols: Seq<(Seq<char>, ColumnType)>, rest: Seq<char>|
                cols.len() >= 1 && s@.skip(pos as int) == spec_info_json_v(cols) + rest
                implies info@.len() <= cols.len() && spec_cols_view(info@) == cols.take(
                info@.len() as int,
            ) by {
                lemma_headers_json_view(info0);
                lemma_info_state(s@, pos as int, cur0, spec_cols_view(info0), cols, rest);
                let k = info0.len() as int;
                assert(h.0.0@ == cols[k].0 && h.0.1 == cols[k].1);
                assert(spec_cols_view(info@) =~= cols.take(k + 1));
            }
        }
        cur = h.1;
    }
    if cur >= n || s.get_char(cur) != ']' {
        proof {
            assert forall|cols: Seq<(Seq<char>, ColumnType)>, rest: Seq<char>|
                !(cols.len() >= 1 && s@.skip(pos as int) == spec_info_json_v(cols) + rest) by {
                if cols.len() >= 1 && s@.skip(pos as int) == spec_info_json_v(cols) + rest {
                    lemma_headers_json_view(info@);
                    lemma_info_state(
                        s@,
                        pos as int,
                        cur as int,
                        spec_cols_view(info@),
                        cols,
                        rest,
                    );
                }
            }
        }
        return None;
    }
    proof {
        assert(s@.subrange(pos as int, cur as int + 1) =~= seq!['['] + s@.subrange(
            pos as int + 1,
            cur as int,
        ) + seq![']']);
        assert forall|cols: Seq<(Seq<char>, ColumnType)>, rest: Seq<char>|
            cols.len() >= 1 && s@.skip(pos as int) == spec_info_json_v(cols) + rest
            implies spec_cols_view(info@) == cols && cur + 1 == pos + spec_info_json_v(
            cols,
        ).len() by {
            lemma_headers_json_view(info@);
            lemma_info_state(s@, pos as int, cur as int, spec_cols_view(info@), cols, rest);
            if info@.len() < cols.len() {
                assert(s@[cur as int] == ',');
                assert(false);
            }
            assert(cols.take(cols.len() as int) =~= cols);
        }
    }
    Some((info, cur + 1))
}

/// Splitting the joined catalog members after `k` tables.
proof fn lemma_entries_v_split(tables: Seq<(Seq<char>, Seq<(Seq<char>, ColumnType)>)>, k: int)
    requires
        1 <= k <= tables.len(),
    ensures
        spec_entries_json_v(tables) == spec_entries_json_v(tables.take(k)) + (if k
            == tables.len() {
            Seq::<char>::empty()
        } else {
            seq![','] + spec_entries_json_v(tables.skip(k))
        }),
    decreases tables.len(),
{
    if k == tables.len() {
        assert(tables.take(k) =~= tables);
        assert(spec_entries_json_v(tables) + Seq::<char>::empty() =~= spec_entries_json_v(tables));
    } else {
        let prev = tables.drop_last();
        assert(prev.take(k) =~= tables.take(k));
        lemma_entries_v_split(prev, k);
        if k == tables.len() - 1 {
            assert(tables.skip(k) =~= seq![tables.last()]);
            assert(seq![tables.last()][0] == tables.last());
            assert(spec_entries_json_v(tables.skip(k)) == spec_json_quoted(tables.last().0)
                + seq![':'] + spec_info_json_v(tables.last().1));
            assert(spec_entries_json_v(tables) =~= spec_entries_json_v(tables.take(k)) + (
            seq![','] + spec_entries_json_v(tables.skip(k))));
        } else {
            assert(tables.skip(k).drop_last() =~= prev.skip(k));
            assert(tables.skip(k).last() == tables.last());
            assert(tables.skip(k).len() >= 2);
            assert(spec_entries_json_v(tables.skip(k)) == spec_entries_json_v(prev.skip(k))
                + seq![','] + spec_json_quoted(tables.last().0) + seq![':'] + spec_info_json_v(
                tables.last().1,
            ));
            assert(spec_entries_json_v(tables) =~= spec_entries_json_v(tables.take(k)) + (
            seq![','] + spec_entries_json_v(tables.skip(k))));
        }
    }
}

/// The first member of the joined catalog.
proof fn lemma_entries_v_front(tables: Seq<(Seq<char>, Seq<(Seq<char>, ColumnType)>)>)
    requires
        tables.len() >= 1,
    ensures
        spec_entries_json_v(tables) == (spec_json_quoted(tables[0].0) + seq![':']
            + spec_info_json_v(tables[0].1)) + (if tables.len() == 1 {
            Seq::<char>::empty()
        } else {
            seq![','] + spec_entries_json_v(tables.skip(1))
        }),
{
    lemma_entries_v_split(tables, 1);
    assert(tables.take(1)[0] == tables[0]);
    assert(spec_entries_json_v(tables.take(1)) == spec_json_quoted(tables[0].0) + seq![':']
        + spec_info_json_v(tables[0].1));
}

/// The text facts a decomposed canonical catalog gives after `k` members:
/// where the consumed part ends and what follows it.
#[verifier::rlimit(100)]
#[verifier::spinoff_prover]
proof fn lemma_schema_state(
    s: Seq<char>,
    cur: int,
    k: int,
    tables: Seq<(Seq<char>, Seq<(Seq<char>, ColumnType)>)>,
)
    requires
        s == spec_schema_json_v(tables),
        0 <= k <= tables.len(),
        1 <= cur <= s.len(),
        s.subrange(1, cur) == spec_entries_json_v(tables.take(k)),
    ensures
        s[0] == '{',
        k == tables.len() ==> cur < s.len() && s[cur] == '}' && cur + 1 == s.len(),
        k < tables.len() ==> ({
            let start = if k == 0 {
                1int
            } else {
                cur + 1
            };
            let after = if k + 1 == tables.len() {
                seq!['}']
            } else {
                seq![','] + spec_entries_json_v(tables.skip(k + 1)) + seq!['}']
            };
            &&& (k > 0 ==> cur < s.len() && s[cur] == ',')
            &&& (k == 0 ==> cur == 1)
            &&& 0 <= start <= s.len()
            &&& s.skip(start) == spec_json_quoted(tables[k].0) + (seq![':'] + (spec_info_json_v(
                tables[k].1,
            ) + after))
        }),
{
    assert(s =~= seq!['{'] + (spec_entries_json_v(tables) + seq!['}']));
    assert(s.skip(0) =~= s);
    lemma_skip_concat(s, 0, seq!['{'], spec_entries_json_v(tables) + seq!['}']);
    let parsed = tables.take(k);
    assert(cur == 1 + spec_entries_json_v(parsed).len());
    if k == tables.len() {
        assert(parsed =~= tables);
        lemma_skip_concat(s, 1, spec_entries_json_v(tables), seq!['}']);
        lemma_skip_concat(s, cur, seq!['}'], Seq::<char>::empty());
    } else {
        let after = if k + 1 == tables.len() {
            seq!['}']
        } else {
            seq![','] + spec_entries_json_v(tables.skip(k + 1)) + seq!['}']
        };
        if k == 0 {
            assert(spec_entries_json_v(parsed).len() == 0);
            lemma_entries_v_front(tables);
            if tables.len() == 1 {
                assert(s.skip(1) =~= spec_json_quoted(tables[0].0) + (seq![':'] + (
                spec_info_json_v(tables[0].1) + after)));
            } else {
                assert(tables.skip(0int + 1) =~= tables.skip(1));
                assert(s.skip(1) =~= spec_json_quoted(tables[0].0) + (seq![':'] + (
                spec_info_json_v(tables[0].1) + after)));
            }
        } else {
            lemma_entries_v_split(tables, k);
            assert(s.skip(1) =~= spec_entries_json_v(parsed) + ((seq![','] + spec_entries_json_v(
                tables.skip(k),
            )) + seq!['}']));
            lemma_skip_concat(
                s,
                1,
                spec_entries_json_v(parsed),
                (seq![','] + spec_entries_json_v(tables.skip(k))) + seq!['}'],
            );
            assert(s.skip(cur) =~= seq![','] + (spec_entries_json_v(tables.skip(k))
                + seq!['}']));
            lemma_skip_concat(s, cur, seq![','], spec_entries_json_v(tables.skip(k)) + seq!['}']);
            lemma_entries_v_front(tables.skip(k));
            assert(tables.skip(k)[0] == tables[k]);
            if tables.skip(k).len() == 1 {
                assert(s.skip(cur + 1) =~= spec_json_quoted(tables[k].0) + (seq![':'] + (
                spec_info_json_v(tables[k].1) + after)));
            } else {
                assert(tables.skip(k).skip(1) =~= tables.skip(k + 1));
                assert(s.skip(cur + 1) =~= spec_json_quoted(tables[k].0) + (seq![':'] + (
                spec_info_json_v(tables[k].1) + after)));
            }
        }
    }
}

/// Parses a catalog from its compact JSON text.  Exactly the canonical form
/// that `schema_to_json` writes is accepted: on success the input is the
/// serialisation of the returned catalog.
#[verifier::rlimit(100)]
pub fn schema_from_json(text: &str) -> (r: Result<DBSchema, Error>)
    ensures
        match r {
            Ok(schema) => schema.wf() && text@ == spec_schema_json(schema.spec_tables()),
            Err(e) => e matches Error::SerdeError(_),
        },
        forall|tables: Seq<(Seq<char>, Seq<(Seq<char>, ColumnType)>)>|
            spec_wf_tables_v(tables) && text@ == spec_schema_json_v(tables) ==> (r matches Ok(
                schema,
            ) && spec_tables_view(schema.spec_tables()) == tables),
{
    let n = text.unicode_len();
    if n < 2 || text.get_char(0) != '{' {
        proof {
            assert forall|tables: Seq<(Seq<char>, Seq<(Seq<char>, ColumnType)>)>|
                !(spec_wf_tables_v(tables) && text@ == spec_schema_json_v(tables)) by {
                if spec_wf_tables_v(tables) && text@ == spec_schema_json_v(tables) {
                    assert(text@ =~= seq!['{'] + (spec_entries_json_v(tables) + seq!['}']));
                    assert(text@[0] == '{');
                    assert(text@.len() >= 2);
                }
            }
        }
        return Err(Error::SerdeError(String::from_str("malformed schema text")));
    }
    let mut schema = DBSchema::new();
    if text.get_char(1) == '}' {
        proof {
            assert forall|tables: Seq<(Seq<char>, Seq<(Seq<char>, ColumnType)>)>|
                spec_wf_tables_v(tables) && text@ == spec_schema_json_v(tables)
                implies tables.len() == 0 && text@.len() == 2 by {
                if tables.len() >= 1 {
                    assert(text@.subrange(1, 1) =~= spec_entries_json_v(tables.take(0)));
                    lemma_schema_state(text@, 1, 0, tables);
                    assert(text@.skip(1)[0] == text@[1]);
                    assert((spec_json_quoted(tables[0].0) + (seq![':'] + (spec_info_json_v(
                        tables[0].1,
                    ) + (if 1 == tables.len() {
                        seq!['}']
                    } else {
                        seq![','] + spec_entries_json_v(tables.skip(1)) + seq!['}']
                    }))))[0] == '"');
                    assert(false);
                }
                assert(text@ =~= seq!['{'] + (spec_entries_json_v(tables) + seq!['}']));
            }
        }
        if n == 2 {
            proof {
                assert(text@ =~= seq!['{'] + spec_entries_json(schema.spec_tables()) + seq!['}']);
                assert forall|tables: Seq<(Seq<char>, Seq<(Seq<char>, ColumnType)>)>|
                    spec_wf_tables_v(tables) && text@ == spec_schema_json_v(tables)
                    implies spec_tables_view(schema.spec_tables()) == tables by {
                    assert(spec_tables_view(schema.spec_tables()) =~= tables);
                }
            }
            return Ok(schema);
        }
        return Err(Error::SerdeError(String::from_str("malformed schema text")));
    }
    let mut cur: usize = 1;
    let mut first: bool = true;
    proof {
        assert forall|tables: Seq<(Seq<char>, Seq<(Seq<char>, ColumnType)>)>|
            spec_wf_tables_v(tables) && text@ == spec_schema_json_v(tables)
            implies schema.spec_tables().len() < tables.len() && spec_tables_view(
            schema.spec_tables(),
        ) == tables.take(0) by {
            assert(spec_tables_view(schema.spec_tables()) =~= tables.take(0));
            if tables.len() == 0 {
                assert(text@ =~= seq!['{'] + (spec_entries_json_v(tables) + seq!['}']));
                assert(spec_entries_json_v(tables).len() == 0);
                assert(text@[1] == '}');
                assert(false);
            }
        }
    }
    loop
        invariant
            1 <= cur <= n,
            n == text@.len(),
            text@[0] == '{',
            schema.wf(),
            !first ==> schema.spec_tables().len() >= 1,
            first ==> schema.spec_tables().len() == 0 && cur == 1,
            text@.subrange(1, cur as int) == spec_entries_json(schema.spec_tables()),
            forall|tables: Seq<(Seq<char>, Seq<(Seq<char>, ColumnType)>)>|
                spec_wf_tables_v(tables) && text@ == spec_schema_json_v(tables) ==> (
                schema.spec_tables().len() < tables.len() && spec_tables_view(
                    schema.spec_tables(),
                ) == tables.take(schema.spec_tables().len() as int)),
        decreases n - cur,
    {
        let ghost k = schema.spec_tables().len() as int;
        let ghost tables0 = schema.spec_tables();
        proof {
            lemma_entries_json_view(tables0);
            assert forall|tables: Seq<(Seq<char>, Seq<(Seq<char>, ColumnType)>)>|
                spec_wf_tables_v(tables) && text@ == spec_schema_json_v(tables) implies {
                let start0 = if k == 0 {
                    1int
                } else {
                    cur + 1
                };
                let after0 = if k + 1 == tables.len() {
                    seq!['}']
                } else {
                    seq![','] + spec_entries_json_v(tables.skip(k + 1)) + seq!['}']
                };
                &&& (k > 0 ==> cur < n && text@[cur as int] == ',')
                &&& text@.skip(start0) == spec_json_quoted(tables[k].0) + (seq![':'] + (
                spec_info_json_v(tables[k].1) + after0))
            } by {
                assert(spec_entries_json(tables0) == spec_entries_json_v(tables.take(k)));
                lemma_schema_state(text@, cur as int, k, tables);
            }
        }
        let start = if first {
            cur
        } else {
            if cur >= n || text.get_char(cur) != ',' {
                return Err(Error::SerdeError(String::from_str("malformed schema text")));
            }
            cur + 1
        };
        let (name, p1) = match parse_string(text, start) {
            None => {
                return Err(Error::SerdeError(String::from_str("malformed schema text")));
            },
            Some(v) => v,
        };
        proof {
            assert forall|tables: Seq<(Seq<char>, Seq<(Seq<char>, ColumnType)>)>|
                spec_wf_tables_v(tables) && text@ == spec_schema_json_v(tables) implies {
                let after0 = if k + 1 == tables.len() {
                    seq!['}']
                } else {
                    seq![','] + spec_entries_json_v(tables.skip(k + 1)) + seq!['}']
                };
                &&& name@ == tables[k].0
                &&& p1 < n
                &&& text@[p1 as int] == ':'
                &&& text@.skip(p1 as int + 1) == spec_info_json_v(tables[k].1) + after0
            } by {
                let after0 = if k + 1 == tables.len() {
                    seq!['}']
                } else {
                    seq![','] + spec_entries_json_v(tables.skip(k + 1)) + seq!['}']
                };
                let start0 = if k == 0 {
                    1int
                } else {
                    cur + 1
                };
                assert(start == start0);
                lemma_skip_concat(
                    text@,
                    start0,
                    spec_json_quoted(tables[k].0),
                    seq![':'] + (spec_info_json_v(tables[k].1) + after0),
                );
                lemma_skip_concat(
                    text@,
                    start0 + spec_json_quoted(tables[k].0).len(),
                    seq![':'],
                    spec_info_json_v(tables[k].1) + after0,
                );
            }
        }
        if p1 >= n || text.get_char(p1) != ':' {
            return Err(Error::SerdeError(String::from_str("malformed schema text")));
        }
        let (info, p2) = match parse_info(text, p1 + 1) {
            None => {
                return Err(Error::SerdeError(String::from_str("malformed schema text")));
            },
            Some(v) => v,
        };
        proof {
            assert forall|tables: Seq<(Seq<char>, Seq<(Seq<char>, ColumnType)>)>|
                spec_wf_tables_v(tables) && text@ == spec_schema_json_v(tables)
                implies spec_cols_view(info@) == tables[k].1 && info@.len() == tables[k].1.len()
                && info@.len() <= usize::MAX / 8 by {
                assert(tables[k].1.len() >= 1);
                assert(spec_cols_view(info@).len() == info@.len());
                assert(info@.len() * 8 <= usize::MAX);
                assert(info@.len() <= usize::MAX / 8) by (nonlinear_arith)
                    requires
                        info@.len() * 8 <= usize::MAX,
                ;
            }
        }
        if info.len() > usize::MAX / 8 {
            return Err(Error::SerdeError(String::from_str("column list too wide")));
        }
        match schema.get(&name) {
            Some(_) => {
                proof {
                    schema.lemma_view();
                    crate::common::lemma_name_index(tables0, name@);
                    assert forall|tables: Seq<(Seq<char>, Seq<(Seq<char>, ColumnType)>)>|
                        !(spec_wf_tables_v(tables) && text@ == spec_schema_json_v(tables)) by {
                        if spec_wf_tables_v(tables) && text@ == spec_schema_json_v(tables) {
                            let j = crate::common::spec_name_index(tables0, name@);
                            assert(tables0[j].0@ == name@);
                            assert(spec_tables_view(tables0)[j].0 == tables0[j].0@);
                            assert(tables.take(k)[j] == tables[j]);
                            assert(tables[j].0 == tables[k].0);
                            assert(false);
                        }
                    }
                }
                return Err(Error::SerdeError(String::from_str("duplicate table name")));
            },
            None => {},
        }
        proof {
            schema.lemma_view();
            crate::common::lemma_name_index(schema.spec_tables(), name@);
        }
        let ghost cur0 = cur as int;
        let ghost was_first = first;
        schema.insert(name, info);
        proof {
            assert(schema.spec_tables().drop_last() =~= tables0);
            let entry = schema.spec_tables().last();
            if was_first {
                assert(text@.subrange(1, p2 as int) =~= spec_json_quoted(entry.0@) + seq![':']
                    + spec_info_json(entry.1@));
            } else {
                assert(text@.subrange(1, p2 as int) =~= text@.subrange(1, cur0) + seq![',']
                    + spec_json_quoted(entry.0@) + seq![':'] + spec_info_json(entry.1@));
            }
            assert(text@.subrange(1, p2 as int) =~= spec_entries_json(schema.spec_tables()));
            assert forall|tables: Seq<(Seq<char>, Seq<(Seq<char>, ColumnType)>)>|
                spec_wf_tables_v(tables) && text@ == spec_schema_json_v(tables)
                implies schema.spec_tables().len() <= tables.len() && spec_tables_view(
                schema.spec_tables(),
            ) == tables.take(k + 1) by {
                assert(spec_tables_view(schema.spec_tables()).drop_last() =~= spec_tables_view(
                    tables0,
                ));
                assert(spec_tables_view(schema.spec_tables()) =~= tables.take(k + 1));
            }
        }
        cur = p2;
        first = false;
        if cur < n && text.get_char(cur) == '}' {
            proof {
                lemma_entries_json_view(schema.spec_tables());
                assert forall|tables: Seq<(Seq<char>, Seq<(Seq<char>, ColumnType)>)>|
                    spec_wf_tables_v(tables) && text@ == spec_schema_json_v(tables)
                    implies k + 1 == tables.len() && cur + 1 == n && spec_tables_view(
                    schema.spec_tables(),
                ) == tables by {
                    assert(spec_entries_json(schema.spec_tables()) == spec_entries_json_v(
                        tables.take(k + 1),
                    ));
                    lemma_schema_state(text@, cur as int, k + 1, tables);
                    if k + 1 < tables.len() {
                        assert(text@[cur as int] == ',');
                        assert(false);
                    }
                    assert(tables.take(k + 1) =~= tables);
                }
            }
            if cur + 1 == n {
                proof {
                    assert(text@ =~= seq!['{'] + spec_entries_json(schema.spec_tables())
                        + seq!['}']);
                }
                return Ok(schema);
            }
            return Err(Error::SerdeError(String::from_str("malformed schema text")));
        }
        proof {
            lemma_entries_json_view(schema.spec_tables());
            assert forall|tables: Seq<(Seq<char>, Seq<(Seq<char>, ColumnType)>)>|
                spec_wf_tables_v(tables) && text@ == spec_schema_json_v(tables) implies k + 1
                < tables.len() && cur < n by {
                assert(spec_entries_json(schema.spec_tables()) == spec_entries_json_v(
                    tables.take(k + 1),
                ));
                lemma_schema_state(text@, cur as int, k + 1, tables);
                if k + 1 == tables.len() {
                    assert(text@[cur as int] == '}' && cur < n);
                    assert(false);
                }
            }
        }
        if cur >= n {
            return Err(Error::SerdeError(String::from_str("malformed schema text")));
        }
    }
}

} // verus!
