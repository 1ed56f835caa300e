//! Decoding of the payloads of an index: the shard count and the three
//! comma-separated shard formats.
use vstd::prelude::*;
use json_dotpath::DotPaths;
use crate::error::IndexError;
use crate::text::{digits_value, is_decimal, parse_decimal, pieces, split_on};

verus! {

#[verifier::external_type_specification]
#[verifier::external_body]
pub struct ExCsvError(csv::Error);

#[verifier::external_type_specification]
#[verifier::external_body]
pub struct ExJsonValue(serde_json::Value);

#[verifier::external_type_specification]
#[verifier::external_body]
pub struct ExDotPathError(json_dotpath::Error);

/// Relies on the derived `Clone` of `serde_json::Value`: the copy equals the value it was made from.
pub assume_specification[ <serde_json::Value as Clone>::clone ](v: &serde_json::Value) -> (r:
    serde_json::Value)
    ensures
        r == *v,
;

/// The rows, each a sequence of fields, that the csv crate reads from `text`, or
/// `None` where it refuses the text.
pub uninterp spec fn csv_rows(text: Seq<char>) -> Option<Seq<Seq<Seq<char>>>>;

/// Relies on `csv::ReaderBuilder` with headers off and its other settings at their
/// defaults (comma-separated, quoted fields, every row as long as the first): the
/// rows of `text`, or the reader's error. The outcome depends on the text alone.
#[verifier::external_body]
fn read_rows(text: &str) -> (r: Result<Vec<Vec<String>>, csv::Error>)
    ensures
        r is Ok <==> csv_rows(text@) is Some,
        r is Ok ==> csv_rows(text@) == Some(r->Ok_0.deep_view()),
{
    let mut reader = csv::ReaderBuilder::new().has_headers(false).from_reader(text.as_bytes());
    reader.records().map(|row| row.map(|row| row.iter().map(String::from).collect())).collect()
}

/// The string members of a JSON value, each under the sequence of keys that leads to it.
pub uninterp spec fn dotted_leaves(v: serde_json::Value) -> Map<Seq<Seq<char>>, Seq<char>>;

/// The value is an object whose members, at every depth, are strings or objects.
pub uninterp spec fn is_string_tree(v: serde_json::Value) -> bool;

/// A character of a field key: an ASCII letter, digit or underscore.
pub open spec fn is_key_char(c: char) -> bool {
    ('a' <= c && c <= 'z') || ('A' <= c && c <= 'Z') || ('0' <= c && c <= '9') || c == '_'
}

pub open spec fn is_field_key(k: Seq<char>) -> bool {
    k.len() > 0 && forall|i: int| 0 <= i < k.len() ==> is_key_char(#[trigger] k[i])
}

/// A dotted field path: non-empty keys of key characters separated by dots, where no
/// key after the first is `0` (which would make an array).
pub open spec fn is_field_path(h: Seq<char>) -> bool {
    let ks = pieces(h, '.');
    forall|i: int|
        0 <= i < ks.len() ==> is_field_key(#[trigger] ks[i]) && (i > 0 ==> ks[i] != seq!['0'])
}

/// `p` is a proper prefix of `q`.
pub open spec fn is_strict_prefix(p: Seq<Seq<char>>, q: Seq<Seq<char>>) -> bool {
    p.len() < q.len() && q.take(p.len() as int) == p
}

/// The leaves after storing `cell` at `path`: `None` where a leaf lies on the way to
/// `path`; otherwise the leaves below `path` go and `path` holds `cell`.
pub open spec fn with_leaf(
    m: Map<Seq<Seq<char>>, Seq<char>>,
    path: Seq<Seq<char>>,
    cell: Seq<char>,
) -> Option<Map<Seq<Seq<char>>, Seq<char>>> {
    if exists|q: Seq<Seq<char>>| #[trigger] m.dom().contains(q) && is_strict_prefix(q, path) {
        None
    } else {
        Some(m.remove_keys(Set::new(|q: Seq<Seq<char>>| is_strict_prefix(path, q))).insert(path, cell))
    }
}

/// Relies on `serde_json::Value::Object` and `serde_json::Map::new`: an empty object.
#[verifier::external_body]
fn empty_object() -> (r: serde_json::Value)
    ensures
        is_string_tree(r),
        dotted_leaves(r).dom().is_empty(),
{
    serde_json::Value::Object(serde_json::Map::new())
}

/// Relies on json_dotpath's `DotPaths::dot_set` on `serde_json::Value`, with a path of
/// plain keys (no escapes, no array symbols, no `0` below the top): into an object of
/// strings and objects it stores `cell` as a string at the path, creating objects on the
/// way and replacing what was there; it fails where a string lies on the way.
#[verifier::external_body]
fn set_dotted(doc: &mut serde_json::Value, path: &str, cell: &str) -> (r: Result<
    (),
    json_dotpath::Error,
>)
    requires
        is_field_path(path@),
    ensures
        is_string_tree(*old(doc)) ==> match with_leaf(
            dotted_leaves(*old(doc)),
            pieces(path@, '.'),
            cell@,
        ) {
            Some(m) => r is Ok && is_string_tree(*final(doc)) && dotted_leaves(*final(doc)) == m,
            None => r is Err,
        },
{
    doc.dot_set(path, cell)
}

/// The decimal text of a shard count, without one line ending after it.
pub open spec fn without_line_end(s: Seq<char>) -> Seq<char> {
    if s.len() >= 2 && s[s.len() - 2] == '\r' && s[s.len() - 1] == '\n' {
        s.take(s.len() - 2)
    } else if s.len() >= 1 && s[s.len() - 1] == '\n' {
        s.take(s.len() - 1)
    } else {
        s
    }
}

/// The shard count that `text` states, if it is a decimal number that fits in a `u32`.
pub open spec fn shard_count_of(text: Seq<char>) -> Option<u32> {
    let digits = without_line_end(text);
    if is_decimal(digits) && digits_value(digits) <= u32::MAX {
        Some(digits_value(digits) as u32)
    } else {
        None
    }
}

/// Reads the shard count from the text of its artifact.
pub fn parse_shard_count(text: &str) -> (r: Option<u32>)
    ensures
        r == shard_count_of(text@),
{
    let n = text.unicode_len();
    let mut end = n;
    if n >= 2 && text.get_char(n - 2) == '\r' && text.get_char(n - 1) == '\n' {
        end = n - 2;
    } else if n >= 1 && text.get_char(n - 1) == '\n' {
        end = n - 1;
    }
    let digits = text.substring_char(0, end);
    proof {
        assert(digits@ =~= without_line_end(text@));
    }
    match parse_decimal(digits) {
        Some(v) => {
            if v <= u32::MAX as u64 {
                Some(v as u32)
            } else {
                None
            }
        },
        None => None,
    }
}

/// Every row has at least `n` fields.
pub open spec fn rows_have_fields(rows: Seq<Seq<Seq<char>>>, n: int) -> bool {
    forall|i: int| 0 <= i < rows.len() ==> #[trigger] rows[i].len() >= n
}

/// The term-stat records of the rows of a `.tst` payload: each row is a token and
/// its space-separated posting list.
pub open spec fn postings_of(rows: Seq<Seq<Seq<char>>>) -> Seq<(Seq<char>, Seq<Seq<char>>)> {
    rows.map_values(|row: Seq<Seq<char>>| (row[0], pieces(row[1], ' ')))
}

pub open spec fn postings_view(v: Seq<(String, Vec<String>)>) -> Seq<(Seq<char>, Seq<Seq<char>>)> {
    v.map_values(|p: (String, Vec<String>)| (p.0@, p.1.deep_view()))
}

/// Decodes the rows of a term-stats payload.
pub fn decode_term_stats(rows: &Vec<Vec<String>>) -> (r: Result<
    Vec<(String, Vec<String>)>,
    IndexError,
>)
    ensures
        rows_have_fields(rows.deep_view(), 2) ==> r is Ok && postings_view(r->Ok_0@)
            == postings_of(rows.deep_view()),
        !rows_have_fields(rows.deep_view(), 2) ==> r == Err::<Vec<(String, Vec<String>)>, _>(
            IndexError::ShardDecodeFailed,
        ),
{
    let mut out: Vec<(String, Vec<String>)> = Vec::new();
    let mut i: usize = 0;
    while i < rows.len()
        invariant
            i <= rows.len(),
            rows_have_fields(rows.deep_view().take(i as int), 2),
            postings_view(out@) == postings_of(rows.deep_view().take(i as int)),
        decreases rows.len() - i,
    {
        let ghost rv = rows.deep_view();
        assert(rv[i as int] == rows[i as int].deep_view());
        if rows[i].len() < 2 {
            assert(rv[i as int].len() < 2);
            return Err(IndexError::ShardDecodeFailed);
        }
        let ids = split_on(rows[i][1].as_str(), ' ');
        let ghost before = out@;
        out.push((rows[i][0].clone(), ids));
        proof {
            assert(postings_view(out@) =~= postings_view(before).push(
                (rv[i as int][0], pieces(rv[i as int][1], ' ')),
            ));
            assert(rv.take(i + 1) =~= rv.take(i as int).push(rv[i as int]));
            assert(postings_of(rv.take(i + 1)) =~= postings_of(rv.take(i as int)).push(
                (rv[i as int][0], pieces(rv[i as int][1], ' ')),
            ));
        }
        i = i + 1;
    }
    proof {
        assert(rows.deep_view().take(i as int) =~= rows.deep_view());
    }
    Ok(out)
}

/// A `token:count` entry of a document-stats row.
pub open spec fn term_count_of(piece: Seq<char>) -> Option<(Seq<char>, u64)> {
    let parts = pieces(piece, ':');
    if parts.len() >= 2 && is_decimal(parts[1]) && digits_value(parts[1]) <= u64::MAX {
        Some((parts[0], digits_value(parts[1]) as u64))
    } else {
        None
    }
}

/// The entries of a space-separated list of `token:count` pieces, if all are well formed.
pub open spec fn counts_of(ps: Seq<Seq<char>>) -> Option<Seq<(Seq<char>, u64)>>
    decreases ps.len(),
{
    if ps.len() == 0 {
        Some(Seq::empty())
    } else {
        match (counts_of(ps.drop_last()), term_count_of(ps.last())) {
            (Some(a), Some(b)) => Some(a.push(b)),
            _ => None,
        }
    }
}

/// The record of one row of a `.dst` payload: a document id and its term counts.
pub open spec fn stat_row_of(row: Seq<Seq<char>>) -> Option<(Seq<char>, Seq<(Seq<char>, u64)>)> {
    if row.len() >= 2 {
        match counts_of(pieces(row[1], ' ')) {
            Some(c) => Some((row[0], c)),
            None => None,
        }
    } else {
        None
    }
}

/// The records of the rows of a `.dst` payload, if every row is well formed.
pub open spec fn stat_rows_of(rows: Seq<Seq<Seq<char>>>) -> Option<
    Seq<(Seq<char>, Seq<(Seq<char>, u64)>)>,
>
    decreases rows.len(),
{
    if rows.len() == 0 {
        Some(Seq::empty())
    } else {
        match (stat_rows_of(rows.drop_last()), stat_row_of(rows.last())) {
            (Some(a), Some(b)) => Some(a.push(b)),
            _ => None,
        }
    }
}

pub open spec fn counts_view(v: Seq<(String, u64)>) -> Seq<(Seq<char>, u64)> {
    v.map_values(|p: (String, u64)| (p.0@, p.1))
}

pub open spec fn stat_rows_view(v: Seq<(String, Vec<(String, u64)>)>) -> Seq<
    (Seq<char>, Seq<(Seq<char>, u64)>),
> {
    v.map_values(|p: (String, Vec<(String, u64)>)| (p.0@, counts_view(p.1@)))
}

fn decode_term_count(piece: &str) -> (r: Option<(String, u64)>)
    ensures
        match r {
            Some(p) => term_count_of(piece@) == Some((p.0@, p.1)),
            None => term_count_of(piece@) is None,
        },
{
    let parts = split_on(piece, ':');
    if parts.len() < 2 {
        return None;
    }
    assert(parts.deep_view()[1] == parts[1]@);
    assert(parts.deep_view()[0] == parts[0]@);
    match parse_decimal(parts[1].as_str()) {
        Some(n) => Some((parts[0].clone(), n)),
        None => None,
    }
}

fn decode_counts(list: &str) -> (r: Option<Vec<(String, u64)>>)
    ensures
        match r {
            Some(v) => counts_of(pieces(list@, ' ')) == Some(counts_view(v@)),
            None => counts_of(pieces(list@, ' ')) is None,
        },
{
    let ps = split_on(list, ' ');
    let ghost pv = ps.deep_view();
    let mut out: Vec<(String, u64)> = Vec::new();
    let mut i: usize = 0;
    while i < ps.len()
        invariant
            i <= ps.len(),
            pv == ps.deep_view(),
            pv == pieces(list@, ' '),
            counts_of(pv.take(i as int)) == Some(counts_view(out@)),
        decreases ps.len() - i,
    {
        assert(pv.take(i + 1).drop_last() =~= pv.take(i as int));
        assert(pv[i as int] == ps[i as int]@);
        match decode_term_count(ps[i].as_str()) {
            Some(p) => {
                let ghost before = out@;
                out.push(p);
                assert(counts_view(out@) =~= counts_view(before).push((p.0@, p.1)));
            },
            None => {
                proof {
                    lemma_counts_none_extends(pv, i as int + 1);
                }
                return None;
            },
        }
        i = i + 1;
    }
    assert(pv.take(i as int) =~= pv);
    Some(out)
}

proof fn lemma_counts_none_extends(ps: Seq<Seq<char>>, i: int)
    requires
        0 <= i <= ps.len(),
        counts_of(ps.take(i)) is None,
    ensures
        counts_of(ps) is None,
    decreases ps.len() - i,
{
    if i < ps.len() {
        assert(ps.take(i + 1).drop_last() =~= ps.take(i));
        lemma_counts_none_extends(ps, i + 1);
    } else {
        assert(ps.take(i) =~= ps);
    }
}

proof fn lemma_stat_rows_none_extends(rows: Seq<Seq<Seq<char>>>, i: int)
    requires
        0 <= i <= rows.len(),
        stat_rows_of(rows.take(i)) is None,
    ensures
        stat_rows_of(rows) is None,
    decreases rows.len() - i,
{
    if i < rows.len() {
        assert(rows.take(i + 1).drop_last() =~= rows.take(i));
        lemma_stat_rows_none_extends(rows, i + 1);
    } else {
        assert(rows.take(i) =~= rows);
    }
}

/// Decodes the rows of a document-stats payload.
pub fn decode_document_stats(rows: &Vec<Vec<String>>) -> (r: Result<
    Vec<(String, Vec<(String, u64)>)>,
    IndexError,
>)
    ensures
        match r {
            Ok(v) => stat_rows_of(rows.deep_view()) == Some(stat_rows_view(v@)),
            Err(e) => stat_rows_of(rows.deep_view()) is None && e == IndexError::ShardDecodeFailed,
        },
{
    let ghost rv = rows.deep_view();
    let mut out: Vec<(String, Vec<(String, u64)>)> = Vec::new();
    let mut i: usize = 0;
    while i < rows.len()
        invariant
            i <= rows.len(),
            rv == rows.deep_view(),
            stat_rows_of(rv.take(i as int)) == Some(stat_rows_view(out@)),
        decreases rows.len() - i,
    {
        assert(rv[i as int] == rows[i as int].deep_view());
        assert(rv.take(i + 1).drop_last() =~= rv.take(i as int));
        assert(rv.take(i + 1).last() == rv[i as int]);
        if rows[i].len() < 2 {
            proof {
                lemma_stat_rows_none_extends(rv, i as int + 1);
            }
            return Err(IndexError::ShardDecodeFailed);
        }
        match decode_counts(rows[i][1].as_str()) {
            Some(counts) => {
                let ghost before = out@;
                out.push((rows[i][0].clone(), counts));
                assert(stat_rows_view(out@) =~= stat_rows_view(before).push(
                    (rv[i as int][0], counts_view(counts@)),
                ));
            },
            None => {
                proof {
                    lemma_stat_rows_none_extends(rv, i as int + 1);
                }
                return Err(IndexError::ShardDecodeFailed);
            },
        }
        i = i + 1;
    }
    assert(rv.take(i as int) =~= rv);
    Ok(out)
}

/// The rows of a `.dcs` payload can be read: every row after the header has an id
/// and a cell under each header.
pub open spec fn document_rows_fit(rows: Seq<Seq<Seq<char>>>) -> bool {
    forall|i: int|
        1 <= i < rows.len() ==> #[trigger] rows[i].len() >= 1 && rows[i].len() >= rows[0].len()
}

/// Every header after the first is a dotted field path.
pub open spec fn header_paths_ok(header: Seq<Seq<char>>) -> bool {
    forall|j: int| 1 <= j < header.len() ==> is_field_path(#[trigger] header[j])
}

/// The leaves of the document that the first `n` columns give a row: each header after
/// the first stores its cell at its dotted path, in column order. `None` where a path
/// runs through a field stored before it.
pub open spec fn fields_of(header: Seq<Seq<char>>, row: Seq<Seq<char>>, n: int) -> Option<
    Map<Seq<Seq<char>>, Seq<char>>,
>
    decreases n,
{
    if n <= 1 {
        Some(Map::empty())
    } else {
        match fields_of(header, row, n - 1) {
            Some(m) => with_leaf(m, pieces(header[n - 1], '.'), row[n - 1]),
            None => None,
        }
    }
}

/// The document fields of a data row under `header`.
pub open spec fn document_fields(header: Seq<Seq<char>>, row: Seq<Seq<char>>) -> Option<
    Map<Seq<Seq<char>>, Seq<char>>,
> {
    fields_of(header, row, header.len() as int)
}

/// A documents payload decodes: its rows fit, its headers are field paths, and no path
/// runs through another.
pub open spec fn documents_decodable(rows: Seq<Seq<Seq<char>>>) -> bool {
    &&& document_rows_fit(rows)
    &&& rows.len() > 0 ==> header_paths_ok(rows[0]) && document_fields(rows[0], rows[0]) is Some
}

/// Whether a document can be built does not depend on the cells, and neither do the
/// paths it holds.
pub proof fn lemma_fields_shape(header: Seq<Seq<char>>, a: Seq<Seq<char>>, b: Seq<Seq<char>>, n: int)
    ensures
        fields_of(header, a, n) is Some == fields_of(header, b, n) is Some,
        fields_of(header, a, n) is Some ==> fields_of(header, a, n)->0.dom() == fields_of(
            header,
            b,
            n,
        )->0.dom(),
    decreases n,
{
    if n > 1 {
        lemma_fields_shape(header, a, b, n - 1);
        if fields_of(header, a, n - 1) is Some {
            let ma = fields_of(header, a, n - 1)->0;
            let mb = fields_of(header, b, n - 1)->0;
            let path = pieces(header[n - 1], '.');
            assert(forall|q: Seq<Seq<char>>| #[trigger] ma.dom().contains(q) == mb.dom().contains(q));
            if fields_of(header, a, n) is Some {
                assert(ma.remove_keys(Set::new(|q: Seq<Seq<char>>| is_strict_prefix(path, q))).insert(path, a[n - 1]).dom() =~= mb.remove_keys(Set::new(|q: Seq<Seq<char>>| is_strict_prefix(path, q))).insert(path, b[n - 1]).dom());
            }
        }
    }
}

fn is_field_key_text(k: &str) -> (r: bool)
    ensures
        r == is_field_key(k@),
{
    let mut any = false;
    for c in it: k.chars()
        invariant
            it.seq() == k@,
            any == (it.index() > 0),
            forall|i: int| 0 <= i < it.index() ==> is_key_char(#[trigger] k@[i]),
    {
        if !(('a' <= c && c <= 'z') || ('A' <= c && c <= 'Z') || ('0' <= c && c <= '9') || c == '_') {
            return false;
        }
        any = true;
    }
    any
}

/// Whether `h` is a dotted field path.
pub fn is_field_path_text(h: &str) -> (r: bool)
    ensures
        r == is_field_path(h@),
{
    let keys = split_on(h, '.');
    let ghost kv = keys.deep_view();
    let mut i: usize = 0;
    while i < keys.len()
        invariant
            i <= keys.len(),
            kv == keys.deep_view(),
            kv == pieces(h@, '.'),
            forall|j: int| 0 <= j < i ==> is_field_key(#[trigger] kv[j]) && (j > 0 ==> kv[j] != seq!['0']),
        decreases keys.len() - i,
    {
        assert(kv[i as int] == keys[i as int]@);
        if !is_field_key_text(keys[i].as_str()) {
            return false;
        }
        if i > 0 && keys[i].as_str().unicode_len() == 1 && keys[i].as_str().get_char(0) == '0' {
            assert(kv[i as int] =~= seq!['0']);
            return false;
        }
        proof {
            if i > 0 && kv[i as int] == seq!['0'] {
                assert(kv[i as int][0] == '0');
            }
        }
        i = i + 1;
    }
    true
}

/// Builds the document that `row` gives under `header`.
fn build_document(header: &Vec<String>, row: &Vec<String>) -> (r: Option<serde_json::Value>)
    requires
        header.len() <= row.len(),
        header_paths_ok(header.deep_view()),
    ensures
        match document_fields(header.deep_view(), row.deep_view()) {
            Some(m) => r is Some && is_string_tree(r->0) && dotted_leaves(r->0) == m,
            None => r is None,
        },
{
    let ghost hv = header.deep_view();
    let ghost rv = row.deep_view();
    let mut doc = empty_object();
    let mut j: usize = 1;
    if header.len() <= 1 {
        return Some(doc);
    }
    while j < header.len()
        invariant
            1 <= j <= header.len(),
            header.len() <= row.len(),
            hv == header.deep_view(),
            rv == row.deep_view(),
            header_paths_ok(hv),
            fields_of(hv, rv, j as int) == Some(dotted_leaves(doc)),
            is_string_tree(doc),
        decreases header.len() - j,
    {
        assert(hv[j as int] == header[j as int]@);
        assert(rv[j as int] == row[j as int]@);
        match set_dotted(&mut doc, header[j].as_str(), row[j].as_str()) {
            Ok(()) => {},
            Err(_) => {
                proof {
                    lemma_fields_none_extends(hv, rv, j as int + 1, hv.len() as int);
                }
                return None;
            },
        }
        j = j + 1;
    }
    Some(doc)
}

proof fn lemma_fields_none_extends(header: Seq<Seq<char>>, row: Seq<Seq<char>>, i: int, n: int)
    requires
        1 <= i <= n,
        fields_of(header, row, i) is None,
    ensures
        fields_of(header, row, n) is None,
    decreases n - i,
{
    if i < n {
        lemma_fields_none_extends(header, row, i, n - 1);
    }
}

/// Decodes the rows of a documents payload: the first row is the header, each other
/// row a document whose id is its first cell. Each further column stores its cell,
/// as a string, at the dotted path of its header; an empty cell gives `""`.
pub fn decode_documents(rows: &Vec<Vec<String>>) -> (r: Result<
    Vec<(String, serde_json::Value)>,
    IndexError,
>)
    ensures
        r is Ok <==> documents_decodable(rows.deep_view()),
        r is Err ==> r->Err_0 == IndexError::ShardDecodeFailed,
        r is Ok ==> {
            let v = r->Ok_0@;
            let rv = rows.deep_view();
            &&& v.len() == if rows.len() == 0 { 0 } else { rows.len() - 1 }
            &&& forall|i: int| 0 <= i < v.len() ==> #[trigger] v[i].0@ == rv[i + 1][0]
            &&& forall|i: int| 0 <= i < v.len() ==> is_string_tree(#[trigger] v[i].1)
            &&& forall|i: int|
                0 <= i < v.len() ==> document_fields(rv[0], rv[i + 1]) == Some(
                    dotted_leaves(#[trigger] v[i].1),
                )
        },
{
    let mut out: Vec<(String, serde_json::Value)> = Vec::new();
    if rows.len() == 0 {
        return Ok(out);
    }
    let ghost rv = rows.deep_view();
    let header = &rows[0];
    let width = header.len();
    assert(rv[0] == header.deep_view());
    let mut j: usize = 1;
    while j < width
        invariant
            1 <= j,
            rows.len() > 0,
            rv == rows.deep_view(),
            width == header.len(),
            rv[0] == header.deep_view(),
            forall|k: int| 1 <= k < j && k < width ==> is_field_path(#[trigger] rv[0][k]),
        decreases width - j,
    {
        assert(rv[0][j as int] == header[j as int]@);
        if !is_field_path_text(header[j].as_str()) {
            assert(!is_field_path(rv[0][j as int]));
            return Err(IndexError::ShardDecodeFailed);
        }
        j = j + 1;
    }
    assert(header_paths_ok(rv[0]));
    if build_document(header, header).is_none() {
        return Err(IndexError::ShardDecodeFailed);
    }
    let mut i: usize = 1;
    while i < rows.len()
        invariant
            1 <= i <= rows.len(),
            rv == rows.deep_view(),
            width == rv[0].len(),
            header == &rows[0],
            header_paths_ok(rv[0]),
            document_fields(rv[0], rv[0]) is Some,
            forall|k: int| 1 <= k < i ==> #[trigger] rv[k].len() >= 1 && rv[k].len() >= width,
            out@.len() == i - 1,
            forall|k: int| 0 <= k < out@.len() ==> #[trigger] out@[k].0@ == rv[k + 1][0],
            forall|k: int| 0 <= k < out@.len() ==> is_string_tree(#[trigger] out@[k].1),
            forall|k: int|
                0 <= k < out@.len() ==> document_fields(rv[0], rv[k + 1]) == Some(
                    dotted_leaves(#[trigger] out@[k].1),
                ),
        decreases rows.len() - i,
    {
        let row = &rows[i];
        assert(rv[i as int] == row.deep_view());
        if row.len() < 1 || row.len() < width {
            return Err(IndexError::ShardDecodeFailed);
        }
        proof {
            lemma_fields_shape(rv[0], rv[0], rv[i as int], width as int);
        }
        match build_document(header, row) {
            Some(doc) => {
                out.push((row[0].clone(), doc));
            },
            None => {
                return Err(IndexError::ShardDecodeFailed);
            },
        }
        i = i + 1;
    }
    Ok(out)
}

/// The rows of a payload, or the decoding error where the csv reader refuses it.
pub fn payload_rows(text: &str) -> (r: Result<Vec<Vec<String>>, IndexError>)
    ensures
        match r {
            Ok(rows) => csv_rows(text@) == Some(rows.deep_view()),
            Err(e) => csv_rows(text@) is None && e == IndexError::ShardDecodeFailed,
        },
{
    match read_rows(text) {
        Ok(rows) => Ok(rows),
        Err(_) => Err(IndexError::ShardDecodeFailed),
    }
}

} // verus!
