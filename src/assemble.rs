use vstd::prelude::*;

use crate::node::{find_key, keys_of, position_of, Doc, Node};
use crate::path::{
    insert_in_root, lemma_write_keeps_plain, plain, split_dots, write_doc, BuildError, Fault,
};

verus! {

/// The text of a list of strings.
pub open spec fn texts(v: Seq<String>) -> Seq<Seq<char>> {
    v.map_values(|s: String| s@)
}

/// The text of a table's rows.
pub open spec fn table(rows: Seq<Vec<String>>) -> Seq<Seq<Seq<char>>> {
    rows.map_values(|r: Vec<String>| texts(r@))
}

/// The text of a mapping from column names to dotted paths.
pub open spec fn pairs(m: Seq<(String, String)>) -> Seq<(Seq<char>, Seq<char>)> {
    m.map_values(|e: (String, String)| (e.0@, e.1@))
}

/// Writes the field `value` of the column `column` through the mapping.
pub open spec fn apply_cell(
    d: Doc,
    mapping: Seq<(Seq<char>, Seq<char>)>,
    column: Seq<char>,
    value: Seq<char>,
) -> Result<Doc, Fault> {
    let i = position_of(keys_of(mapping), column);
    if i < 0 {
        Err(Fault::Configuration(column))
    } else {
        match write_doc(d, split_dots(mapping[i].1), value) {
            Some(d2) => Ok(d2),
            None => Err(Fault::StructuralConflict(mapping[i].1)),
        }
    }
}

/// The number of fields of `row` that have a column.
pub open spec fn width(headers: Seq<Seq<char>>, row: Seq<Seq<char>>) -> nat {
    if row.len() < headers.len() {
        row.len()
    } else {
        headers.len()
    }
}

/// Writes the first `n` fields of `row`, left to right.
pub open spec fn apply_row(
    d: Doc,
    headers: Seq<Seq<char>>,
    row: Seq<Seq<char>>,
    mapping: Seq<(Seq<char>, Seq<char>)>,
    n: nat,
) -> Result<Doc, Fault>
    decreases n,
{
    if n == 0 {
        Ok(d)
    } else {
        match apply_row(d, headers, row, mapping, (n - 1) as nat) {
            Ok(d1) => apply_cell(d1, mapping, headers[n - 1], row[n - 1]),
            Err(e) => Err(e),
        }
    }
}

/// Writes the first `n` rows of the table, top to bottom, into `d`.
pub open spec fn apply_rows(
    d: Doc,
    headers: Seq<Seq<char>>,
    rows: Seq<Seq<Seq<char>>>,
    mapping: Seq<(Seq<char>, Seq<char>)>,
    n: nat,
) -> Result<Doc, Fault>
    decreases n,
{
    if n == 0 {
        Ok(d)
    } else {
        match apply_rows(d, headers, rows, mapping, (n - 1) as nat) {
            Ok(d1) => apply_row(
                d1,
                headers,
                rows[n - 1],
                mapping,
                width(headers, rows[n - 1]),
            ),
            Err(e) => Err(e),
        }
    }
}

/// The document that all rows of a table build together, starting from an
/// empty object.
pub open spec fn assemble_doc(
    headers: Seq<Seq<char>>,
    rows: Seq<Seq<Seq<char>>>,
    mapping: Seq<(Seq<char>, Seq<char>)>,
) -> Result<Doc, Fault> {
    apply_rows(Doc::Object(Seq::empty()), headers, rows, mapping, rows.len())
}

proof fn lemma_row_failure_sticks(
    d: Doc,
    headers: Seq<Seq<char>>,
    row: Seq<Seq<char>>,
    mapping: Seq<(Seq<char>, Seq<char>)>,
    j: nat,
    n: nat,
    f: Fault,
)
    requires
        j <= n,
        apply_row(d, headers, row, mapping, j) == Err::<Doc, Fault>(f),
    ensures
        apply_row(d, headers, row, mapping, n) == Err::<Doc, Fault>(f),
    decreases n - j,
{
    if j < n {
        lemma_row_failure_sticks(d, headers, row, mapping, j, (n - 1) as nat, f);
    }
}

proof fn lemma_rows_failure_sticks(
    d: Doc,
    headers: Seq<Seq<char>>,
    rows: Seq<Seq<Seq<char>>>,
    mapping: Seq<(Seq<char>, Seq<char>)>,
    r: nat,
    n: nat,
    f: Fault,
)
    requires
        r <= n,
        apply_rows(d, headers, rows, mapping, r) == Err::<Doc, Fault>(f),
    ensures
        apply_rows(d, headers, rows, mapping, n) == Err::<Doc, Fault>(f),
    decreases n - r,
{
    if r < n {
        lemma_rows_failure_sticks(d, headers, rows, mapping, r, (n - 1) as nat, f);
    }
}

/// A failure in one row is the failure of the whole table.
proof fn lemma_failure_sticks(
    before: Doc,
    headers: Seq<Seq<char>>,
    rows: Seq<Seq<Seq<char>>>,
    mapping: Seq<(Seq<char>, Seq<char>)>,
    r: nat,
    j: nat,
    f: Fault,
)
    requires
        r < rows.len(),
        j <= width(headers, rows[r as int]),
        apply_rows(Doc::Object(Seq::empty()), headers, rows, mapping, r) == Ok::<Doc, Fault>(before),
        apply_row(before, headers, rows[r as int], mapping, j) == Err::<Doc, Fault>(f),
    ensures
        apply_rows(Doc::Object(Seq::empty()), headers, rows, mapping, rows.len()) == Err::<Doc, Fault>(f),
{
    let e = Doc::Object(Seq::empty());
    lemma_row_failure_sticks(before, headers, rows[r as int], mapping, j, width(headers, rows[r as int]), f);
    assert(apply_rows(e, headers, rows, mapping, r + 1) == Err::<Doc, Fault>(f));
    lemma_rows_failure_sticks(e, headers, rows, mapping, r + 1, rows.len(), f);
}

/// Folds every field of every row into one shared document: each field is
/// written at the dotted path that the mapping gives for its column. Fields
/// beyond the header are ignored; later rows overwrite earlier values.
pub fn assemble(
    headers: &Vec<String>,
    rows: &Vec<Vec<String>>,
    mapping: &Vec<(String, String)>,
) -> (r: Result<Node, BuildError>)
    ensures
        match assemble_doc(texts(headers@), table(rows@), pairs(mapping@)) {
            Ok(d) => r is Ok && r->Ok_0@ == d,
            Err(f) => r is Err && r->Err_0@ == f,
        },
{
    let ghost hs = texts(headers@);
    let ghost ts = table(rows@);
    let ghost ms = pairs(mapping@);
    assert(keys_of(ms) =~= mapping@.map_values(|e: (String, String)| e.0@));
    let mut root = Node::Object(Vec::new());
    assert(root@->Object_0 =~= Seq::<(Seq<char>, Doc)>::empty());
    let mut r: usize = 0;
    while r < rows.len()
        invariant
            r <= rows@.len(),
            hs == texts(headers@),
            ts == table(rows@),
            ms == pairs(mapping@),
            keys_of(ms) == mapping@.map_values(|e: (String, String)| e.0@),
            apply_rows(Doc::Object(Seq::empty()), hs, ts, ms, r as nat) == Ok::<Doc, Fault>(root@),
        decreases rows@.len() - r,
    {
        let row = &rows[r];
        let n = if row.len() < headers.len() {
            row.len()
        } else {
            headers.len()
        };
        assert(ts[r as int] == texts(row@));
        assert(n == width(hs, ts[r as int]));
        let ghost before = root@;
        let mut j: usize = 0;
        while j < n
            invariant
                r < rows@.len(),
                row == rows@[r as int],
                n <= row@.len(),
                n <= headers@.len(),
                j <= n,
                hs == texts(headers@),
                ts == table(rows@),
                ms == pairs(mapping@),
                ts[r as int] == texts(row@),
                keys_of(ms) == mapping@.map_values(|e: (String, String)| e.0@),
                apply_row(before, hs, ts[r as int], ms, j as nat) == Ok::<Doc, Fault>(root@),
                apply_rows(Doc::Object(Seq::empty()), hs, ts, ms, r as nat) == Ok::<Doc, Fault>(
                    before,
                ),
                n == width(hs, ts[r as int]),
            decreases n - j,
        {
            match find_key(mapping, &headers[j]) {
                None => {
                    let e = BuildError::Configuration(headers[j].clone());
                    proof {
                        lemma_failure_sticks(before, hs, ts, ms, r as nat, j as nat + 1, e@);
                    }
                    return Err(e);
                },
                Some(i) => {
                    match insert_in_root(&mut root, mapping[i].1.as_str(), row[j].as_str()) {
                        Ok(()) => {},
                        Err(e) => {
                            proof {
                                lemma_failure_sticks(before, hs, ts, ms, r as nat, j as nat + 1, e@);
                            }
                            return Err(e);
                        },
                    }
                },
            }
            j = j + 1;
        }
        assert(apply_rows(Doc::Object(Seq::empty()), hs, ts, ms, r as nat + 1) == apply_row(before, hs, ts[r as int], ms, n as nat));
        r = r + 1;
    }
    assert(ts.len() == rows@.len());
    Ok(root)
}

proof fn lemma_row_keeps_plain(
    d: Doc,
    headers: Seq<Seq<char>>,
    row: Seq<Seq<char>>,
    mapping: Seq<(Seq<char>, Seq<char>)>,
    n: nat,
)
    requires
        plain(d),
    ensures
        apply_row(d, headers, row, mapping, n) is Ok ==> plain(
            apply_row(d, headers, row, mapping, n)->Ok_0,
        ),
    decreases n,
{
    if n > 0 {
        lemma_row_keeps_plain(d, headers, row, mapping, (n - 1) as nat);
        let prev = apply_row(d, headers, row, mapping, (n - 1) as nat);
        if prev is Ok {
            let d1 = prev->Ok_0;
            let i = position_of(keys_of(mapping), headers[n - 1]);
            if i >= 0 && write_doc(d1, split_dots(mapping[i].1), row[n - 1]) is Some {
                lemma_write_keeps_plain(d1, split_dots(mapping[i].1), row[n - 1]);
            }
        }
    }
}

proof fn lemma_rows_keep_plain(
    headers: Seq<Seq<char>>,
    rows: Seq<Seq<Seq<char>>>,
    mapping: Seq<(Seq<char>, Seq<char>)>,
    n: nat,
)
    ensures
        apply_rows(Doc::Object(Seq::empty()), headers, rows, mapping, n) is Ok ==> plain(
            apply_rows(Doc::Object(Seq::empty()), headers, rows, mapping, n)->Ok_0,
        ),
    decreases n,
{
    let e = Doc::Object(Seq::empty());
    if n == 0 {
        assert(plain(e));
    } else {
        lemma_rows_keep_plain(headers, rows, mapping, (n - 1) as nat);
        let prev = apply_rows(e, headers, rows, mapping, (n - 1) as nat);
        if prev is Ok {
            let row = rows[n - 1];
            lemma_row_keeps_plain(prev->Ok_0, headers, row, mapping, width(headers, row));
        }
    }
}

/// Every document that a table assembles into is a tree of objects with
/// pairwise distinct keys whose leaves are all text, so a generic encoding of
/// it loses nothing.
pub proof fn lemma_assembled_is_plain(
    headers: Seq<Seq<char>>,
    rows: Seq<Seq<Seq<char>>>,
    mapping: Seq<(Seq<char>, Seq<char>)>,
)
    ensures
        assemble_doc(headers, rows, mapping) is Ok ==> plain(
            assemble_doc(headers, rows, mapping)->Ok_0,
        ),
{
    lemma_rows_keep_plain(headers, rows, mapping, rows.len());
}

} // verus!
