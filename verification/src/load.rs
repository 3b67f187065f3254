use vstd::prelude::*;

use crate::entry::{contains_whitespace, has_ws, EntryView, TaigiEntry};
use crate::bag::views_of;

verus! {

#[verifier::external_type_specification]
#[verifier::external_body]
pub struct ExCsvError(csv::Error);

/// Whether the parser accepts the input: a header row and data rows,
/// every row decodable UTF-8 and of the header's width.
pub uninterp spec fn csv_ok(data: Seq<u8>) -> bool;

/// The header row's fields, when the parser accepts the input.
pub uninterp spec fn csv_header_of(data: Seq<u8>) -> Seq<Seq<char>>;

/// The data rows' fields, in row order, when the parser accepts the
/// input.
pub uninterp spec fn csv_rows_of(data: Seq<u8>) -> Seq<Seq<Seq<char>>>;

/// Relies on csv::Reader (from_reader, headers, records): parses the
/// whole input into its header row and data rows, or fails with the
/// parser's error. What comes back is a function of the bytes alone,
/// named by `csv_ok`, `csv_header_of` and `csv_rows_of`.
#[verifier::external_body]
fn csv_parse(data: &[u8]) -> (r: Result<(Vec<String>, Vec<Vec<String>>), csv::Error>)
    ensures
        csv_ok(data@) <==> r is Ok,
        r matches Ok(t) ==> t.0.deep_view() == csv_header_of(data@) && t.1.deep_view()
            == csv_rows_of(data@),
{
    let mut rd = csv::Reader::from_reader(data);
    let header = match rd.headers() {
        Ok(h) => h.iter().map(|f| f.to_string()).collect(),
        Err(e) => return Err(e),
    };
    let mut rows = Vec::new();
    for rec in rd.records() {
        rows.push(rec?.iter().map(|f| f.to_string()).collect());
    }
    Ok((header, rows))
}

/// Relies on csv::Error's Display implementation for a readable
/// message.
#[verifier::external_body]
fn csv_error_message(e: &csv::Error) -> String {
    format!("{}", e)
}

/// Why a load failed.
#[derive(Debug)]
pub enum LoadError {
    /// The tabular source could not be parsed or decoded; carries the
    /// parser's message.
    Csv { message: String },
    /// The header row lacks a required column; carries its name.
    MissingColumn { name: String },
    /// A data row is too short to hold a required column; carries the
    /// offending row's position.
    ShortRow { row: usize },
}

/// Decides whether two strings hold the same characters.
pub fn str_eq(a: &str, b: &str) -> (r: bool)
    ensures
        r == (a@ == b@),
{
    let la = a.unicode_len();
    let lb = b.unicode_len();
    if la != lb {
        return false;
    }
    let mut i: usize = 0;
    while i < la
        invariant
            la == a@.len(),
            la == b@.len(),
            0 <= i <= la,
            forall|j: int| 0 <= j < i ==> a@[j] == b@[j],
        decreases la - i,
    {
        if a.get_char(i) != b.get_char(i) {
            return false;
        }
        i = i + 1;
    }
    proof {
        assert(a@ =~= b@);
    }
    true
}

/// The position of the first header field equal to `name`, if any.
pub fn find_column(header: &Vec<String>, name: &str) -> (r: Option<usize>)
    ensures
        match r {
            Option::Some(i) => i < header@.len() && header@[i as int]@ == name@ && forall|j: int|
                0 <= j < i ==> header@[j]@ != name@,
            Option::None => forall|j: int| 0 <= j < header@.len() ==> header@[j]@ != name@,
        },
{
    let mut i: usize = 0;
    while i < header.len()
        invariant
            0 <= i <= header@.len(),
            forall|j: int| 0 <= j < i ==> header@[j]@ != name@,
        decreases header@.len() - i,
    {
        if str_eq(header[i].as_str(), name) {
            return Some(i);
        }
        i = i + 1;
    }
    None
}

/// The position of the first header field equal to `name`, or
/// `header.len()` if there is none.
pub open spec fn first_col(header: Seq<Seq<char>>, name: Seq<char>) -> int
    decreases header.len(),
{
    if header.len() == 0 {
        0
    } else if header[0] == name {
        0
    } else {
        1 + first_col(header.skip(1), name)
    }
}

/// Whether some header field equals `name`.
pub open spec fn header_has(header: Seq<Seq<char>>, name: Seq<char>) -> bool {
    exists|j: int| 0 <= j < header.len() && header[j] == name
}

/// A position with no match before it, and a match (or the end) at it,
/// is the first match position.
pub proof fn lemma_first_col_at(header: Seq<Seq<char>>, name: Seq<char>, n: int)
    requires
        0 <= n <= header.len(),
        forall|k: int| 0 <= k < n ==> header[k] != name,
        n == header.len() || header[n] == name,
    ensures
        first_col(header, name) == n,
    decreases n,
{
    if n == 0 {
    } else {
        assert(header[0] != name);
        assert forall|k: int| 0 <= k < n - 1 implies header.skip(1)[k] != name by {
            assert(header.skip(1)[k] == header[k + 1]);
        }
        lemma_first_col_at(header.skip(1), name, n - 1);
    }
}

/// Whether a row is too short to hold both required columns.
pub open spec fn row_short(row: Seq<Seq<char>>, p: int, g: int) -> bool {
    row.len() <= p || row.len() <= g
}

/// Whether a row survives the load filter: its romanized field holds no
/// whitespace, so it is a single lexical unit.
pub open spec fn row_kept(row: Seq<Seq<char>>, p: int) -> bool {
    !has_ws(row[p])
}

/// The entries a run of rows decodes to: each kept row's romanized and
/// gloss fields, in row order, rows with whitespace in the romanized
/// field silently excluded.
pub open spec fn decoded(rs: Seq<Seq<Seq<char>>>, p: int, g: int) -> Seq<EntryView>
    decreases rs.len(),
{
    if rs.len() == 0 {
        Seq::empty()
    } else {
        let rest = decoded(rs.skip(1), p, g);
        if row_kept(rs[0], p) {
            seq![(EntryView { poj: rs[0][p], english: rs[0][g] })] + rest
        } else {
            rest
        }
    }
}

/// Decoding one more row appends its entry exactly when the row is
/// kept.
pub proof fn lemma_decoded_snoc(rs: Seq<Seq<Seq<char>>>, row: Seq<Seq<char>>, p: int, g: int)
    ensures
        decoded(rs.push(row), p, g) == (if row_kept(row, p) {
            decoded(rs, p, g).push((EntryView { poj: row[p], english: row[g] }))
        } else {
            decoded(rs, p, g)
        }),
    decreases rs.len(),
{
    let pu = rs.push(row);
    let e = EntryView { poj: row[p], english: row[g] };
    if rs.len() == 0 {
        assert(pu.len() == 1);
        assert(pu[0] == row);
        assert(pu.skip(1) =~= Seq::<Seq<Seq<char>>>::empty());
        assert(decoded(pu.skip(1), p, g) == Seq::<EntryView>::empty());
        assert(decoded(rs, p, g) == Seq::<EntryView>::empty());
        if row_kept(row, p) {
            assert(decoded(pu, p, g) == seq![e] + Seq::<EntryView>::empty());
            assert(seq![e] + Seq::<EntryView>::empty() =~= Seq::<EntryView>::empty().push(e));
        } else {
            assert(decoded(pu, p, g) == decoded(rs, p, g));
        }
    } else {
        assert(pu[0] == rs[0]);
        assert(pu.skip(1) =~= rs.skip(1).push(row));
        lemma_decoded_snoc(rs.skip(1), row, p, g);
        let rest = decoded(rs.skip(1), p, g);
        if row_kept(rs[0], p) {
            let e0 = EntryView { poj: rs[0][p], english: rs[0][g] };
            assert(decoded(rs, p, g) == seq![e0] + rest);
            assert(decoded(pu, p, g) == seq![e0] + decoded(pu.skip(1), p, g));
            if row_kept(row, p) {
                assert(decoded(pu.skip(1), p, g) == rest.push(e));
                assert(seq![e0] + rest.push(e) =~= (seq![e0] + rest).push(e));
            } else {
                assert(decoded(pu.skip(1), p, g) == rest);
            }
        } else {
            assert(decoded(rs, p, g) == rest);
            assert(decoded(pu, p, g) == decoded(pu.skip(1), p, g));
        }
    }
}

/// Every decoded entry's romanized form is whitespace-free.
pub proof fn lemma_decoded_no_ws(rs: Seq<Seq<Seq<char>>>, p: int, g: int)
    ensures
        forall|t: int| 0 <= t < decoded(rs, p, g).len() ==> !has_ws(
            #[trigger] decoded(rs, p, g)[t].poj,
        ),
    decreases rs.len(),
{
    if rs.len() == 0 {
    } else {
        lemma_decoded_no_ws(rs.skip(1), p, g);
        let d = decoded(rs, p, g);
        let rest = decoded(rs.skip(1), p, g);
        assert forall|t: int| 0 <= t < d.len() implies !has_ws(d[t].poj) by {
            if row_kept(rs[0], p) {
                assert(d == seq![(EntryView { poj: rs[0][p], english: rs[0][g] })] + rest);
                if t == 0 {
                    assert(d[t].poj == rs[0][p]);
                    assert(!has_ws(rs[0][p]));
                } else {
                    assert(d[t] == rest[t - 1]);
                }
            } else {
                assert(d == rest);
            }
        }
    }
}

/// Decodes already-parsed rows into entries, given the two column
/// positions: every row must be long enough (the first short row fails
/// the whole decode), and rows whose romanized field holds whitespace
/// are silently excluded, the rest kept in row order.
pub fn decode_rows(rows: &Vec<Vec<String>>, poj_idx: usize, eng_idx: usize) -> (r: Result<
    Vec<TaigiEntry>,
    LoadError,
>)
    ensures
        ({
            let rs = rows.deep_view();
            match r {
                Result::Ok(v) => (forall|t: int|
                    0 <= t < rs.len() ==> !row_short(#[trigger] rs[t], poj_idx as int, eng_idx as int))
                    && views_of(v@) == decoded(rs, poj_idx as int, eng_idx as int) && (forall|t: int|
                    0 <= t < v@.len() ==> !has_ws(#[trigger] v@[t]@.poj)),
                Result::Err(e) => e matches LoadError::ShortRow { row } && (row as int) < rs.len()
                    && row_short(rs[row as int], poj_idx as int, eng_idx as int) && (forall|q: int|
                    0 <= q < row ==> !row_short(#[trigger] rs[q], poj_idx as int, eng_idx as int)),
            }
        }),
{
    let ghost rs = rows.deep_view();
    let ghost p = poj_idx as int;
    let ghost g = eng_idx as int;
    let mut out: Vec<TaigiEntry> = Vec::new();
    let mut t: usize = 0;
    proof {
        assert(rs.take(0) =~= Seq::<Seq<Seq<char>>>::empty());
        assert(views_of(out@) =~= Seq::<EntryView>::empty());
    }
    while t < rows.len()
        invariant
            rs == rows.deep_view(),
            p == poj_idx as int,
            g == eng_idx as int,
            rs.len() == rows@.len(),
            0 <= t <= rows@.len(),
            forall|q: int| 0 <= q < t ==> !row_short(#[trigger] rs[q], p, g),
            views_of(out@) == decoded(rs.take(t as int), p, g),
        decreases rows@.len() - t,
    {
        let row = &rows[t];
        proof {
            assert(rs[t as int] == rows@[t as int].deep_view());
            assert(rs[t as int].len() == row@.len());
        }
        if poj_idx >= row.len() || eng_idx >= row.len() {
            return Err(LoadError::ShortRow { row: t });
        }
        let ghost done = views_of(out@);
        let poj = &row[poj_idx];
        proof {
            assert(rs[t as int][p] == row@[p]@);
            assert(rs[t as int][g] == row@[g]@);
        }
        if !contains_whitespace(poj.as_str()) {
            let picked = TaigiEntry { poj_unicode: poj.clone(), english: row[eng_idx].clone() };
            out.push(picked);
            proof {
                assert(picked@ == (EntryView { poj: rs[t as int][p], english: rs[t as int][g] }));
                assert(views_of(out@) =~= done.push(picked@));
            }
        }
        proof {
            lemma_decoded_snoc(rs.take(t as int), rs[t as int], p, g);
            assert(rs.take(t + 1) =~= rs.take(t as int).push(rs[t as int]));
        }
        t = t + 1;
    }
    proof {
        assert(rs.take(rows@.len() as int) =~= rs);
        lemma_decoded_no_ws(rs, p, g);
        assert forall|q: int| 0 <= q < out@.len() implies !has_ws(out@[q]@.poj) by {
            assert(views_of(out@)[q] == out@[q]@);
            assert(views_of(out@)[q] == decoded(rs, p, g)[q]);
        }
    }
    Ok(out)
}

/// Loads the dictionary from the raw bytes of a delimited tabular file
/// with a header row naming a romanized-form column and a gloss column.
/// Input the parser rejects fails the whole load with the parser's
/// message; a header lacking a required column fails it naming that
/// column (the romanized-form column is looked up first); the first
/// short row fails it naming the row. Otherwise the load succeeds with
/// exactly the decoded rows, in row order, those whose romanized form
/// holds whitespace silently excluded — so no loaded romanized form
/// holds whitespace.
pub fn load_entries(data: &[u8]) -> (r: Result<Vec<TaigiEntry>, LoadError>)
    ensures
        ({
            let header = csv_header_of(data@);
            let rows = csv_rows_of(data@);
            let p = first_col(header, "poj_unicode"@);
            let g = first_col(header, "english"@);
            match r {
                Result::Ok(v) => csv_ok(data@) && header_has(header, "poj_unicode"@)
                    && header_has(header, "english"@) && (forall|t: int|
                    0 <= t < rows.len() ==> !row_short(#[trigger] rows[t], p, g)) && views_of(v@)
                    == decoded(rows, p, g) && (forall|t: int|
                    0 <= t < v@.len() ==> !has_ws(#[trigger] v@[t]@.poj)),
                Result::Err(e) => match e {
                    LoadError::Csv { .. } => !csv_ok(data@),
                    LoadError::MissingColumn { name } => csv_ok(data@) && !header_has(
                        header,
                        name@,
                    ) && (name@ == "poj_unicode"@ || (name@ == "english"@ && header_has(
                        header,
                        "poj_unicode"@,
                    ))),
                    LoadError::ShortRow { row } => csv_ok(data@) && header_has(
                        header,
                        "poj_unicode"@,
                    ) && header_has(header, "english"@) && (row as int) < rows.len() && row_short(
                        rows[row as int],
                        p,
                        g,
                    ) && (forall|q: int|
                        0 <= q < row ==> !row_short(#[trigger] rows[q], p, g)),
                },
            }
        }),
{
    let ghost hdr = csv_header_of(data@);
    let (header, rows) = match csv_parse(data) {
        Ok(t) => t,
        Err(e) => {
            return Err(LoadError::Csv { message: csv_error_message(&e) });
        },
    };
    proof {
        assert(hdr.len() == header@.len());
        assert forall|j: int| 0 <= j < header@.len() implies hdr[j] == header@[j]@ by {
            assert(header.deep_view()[j] == header@[j].deep_view());
        }
    }
    let poj_idx = match find_column(&header, "poj_unicode") {
        Some(i) => i,
        None => {
            proof {
                assert(forall|j: int| 0 <= j < hdr.len() ==> hdr[j] != "poj_unicode"@);
            }
            return Err(LoadError::MissingColumn { name: String::from_str("poj_unicode") });
        },
    };
    proof {
        assert(hdr[poj_idx as int] == "poj_unicode"@);
        lemma_first_col_at(hdr, "poj_unicode"@, poj_idx as int);
    }
    let eng_idx = match find_column(&header, "english") {
        Some(i) => i,
        None => {
            proof {
                assert(forall|j: int| 0 <= j < hdr.len() ==> hdr[j] != "english"@);
            }
            return Err(LoadError::MissingColumn { name: String::from_str("english") });
        },
    };
    proof {
        assert(hdr[eng_idx as int] == "english"@);
        lemma_first_col_at(hdr, "english"@, eng_idx as int);
    }
    decode_rows(&rows, poj_idx, eng_idx)
}

} // verus!
