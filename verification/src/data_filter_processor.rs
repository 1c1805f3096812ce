use vstd::prelude::*;

use crate::errors::Error;
use crate::numtext::{
    bytes_eq, compare_bytes, copy_bytes, i64_text, int_text, lex_cmp, parse_i64, parse_i64_bytes,
    push_bytes, KeyOrdering,
};
use crate::page::{
    cell_matches, cells_match, i64_of_u64bits, page_matches, record_matches, rendered_row, Cell,
    CellModel, Page, PageModel, Record, RecordModel, SearchResult, TableLeafCell,
};
use crate::page_reader::{spec_read_page, PageReaderBuilder};
use crate::page_type::PageType;

verus! {

/// An equality filter: the schema position of the filtered column, or -1
/// for no filter, and the literal to compare against.
#[derive(Debug, Clone, PartialEq, Eq, Hash)]
pub struct Filter {
    pub filter_col_pos: isize,
    pub filter_value: FilterValue,
}

/// The filter literal: text bytes, or a signed integer for row-id lookups.
#[derive(Debug, Clone, PartialEq, Eq, Hash)]
pub enum FilterValue {
    String(Vec<u8>),
    Int(i64),
}

// ---------------------------------------------------------------------------
// Comparing a filter literal against a stored value
// ---------------------------------------------------------------------------

/// How the filter literal compares against a stored value: text compares
/// by byte order, an integer literal compares numerically against the
/// decimal text of the stored value.
pub open spec fn spec_filter_cmp(fv: FilterValue, payload: Seq<u8>) -> Result<KeyOrdering, Error> {
    match fv {
        FilterValue::String(fs) => Ok(lex_cmp(fs@, payload)),
        FilterValue::Int(fi) => match parse_i64(payload) {
            Some(v) => Ok(
                if fi < v {
                    KeyOrdering::Less
                } else if fi == v {
                    KeyOrdering::Equal
                } else {
                    KeyOrdering::Greater
                },
            ),
            None => Err(Error::CorruptRecord),
        },
    }
}

/// Compares the filter literal against a stored value.
pub fn filter_cmp(filter_value: &FilterValue, payload: &Vec<u8>) -> (r: Result<KeyOrdering, Error>)
    ensures
        r == spec_filter_cmp(*filter_value, payload@),
{
    match filter_value {
        FilterValue::String(filter_bytes) => Ok(
            compare_bytes(filter_bytes.as_slice(), payload.as_slice()),
        ),
        FilterValue::Int(filter_int) => match parse_i64_bytes(payload.as_slice()) {
            Some(v) => Ok(
                if *filter_int < v {
                    KeyOrdering::Less
                } else if *filter_int == v {
                    KeyOrdering::Equal
                } else {
                    KeyOrdering::Greater
                },
            ),
            None => Err(Error::CorruptRecord),
        },
    }
}

// ---------------------------------------------------------------------------
// Keys of cells, and binary search over a page
// ---------------------------------------------------------------------------

/// The search key a cell carries: the decimal text of the row id on table
/// cells, the first record field on index cells.
pub open spec fn cell_key(c: Cell) -> Result<Seq<u8>, Error> {
    match c {
        Cell::TableLeaf(x) => Ok(int_text(x.row_id as int)),
        Cell::TableInt(x) => Ok(int_text(x.row_id as int)),
        Cell::IdxLeaf(x) => if x.record.rows@.len() == 0 {
            Err(Error::CorruptRecord)
        } else {
            Ok(x.record.rows@[0]@)
        },
        Cell::IdxInt(x) => if x.record.rows@.len() == 0 {
            Err(Error::CorruptRecord)
        } else {
            Ok(x.record.rows@[0]@)
        },
    }
}

/// Extracts a cell's search key.
pub fn cell_payload(cell: &Cell) -> (r: Result<Vec<u8>, Error>)
    ensures
        match cell_key(*cell) {
            Ok(k) => r matches Ok(v) && v@ == k,
            Err(e) => r == Err::<Vec<u8>, Error>(e),
        },
{
    match cell {
        Cell::TableLeaf(x) => Ok(i64_text(x.row_id)),
        Cell::TableInt(x) => Ok(i64_text(x.row_id)),
        Cell::IdxLeaf(x) => if x.record.rows.len() == 0 {
            Err(Error::CorruptRecord)
        } else {
            Ok(copy_bytes(&x.record.rows[0]))
        },
        Cell::IdxInt(x) => if x.record.rows.len() == 0 {
            Err(Error::CorruptRecord)
        } else {
            Ok(copy_bytes(&x.record.rows[0]))
        },
    }
}

/// The keys of a page's cells, in order.
pub open spec fn keys_of(cells: Seq<Cell>) -> Seq<Result<Seq<u8>, Error>> {
    Seq::new(cells.len(), |i: int| cell_key(cells[i]))
}

/// Every key exists and compares cleanly against the filter literal.
pub open spec fn keys_ok(keys: Seq<Result<Seq<u8>, Error>>, fv: FilterValue) -> bool {
    forall|i: int|
        0 <= i < keys.len() ==> (#[trigger] keys[i]) is Ok && spec_filter_cmp(
            fv,
            keys[i]->Ok_0,
        ) is Ok
}

/// How the filter literal compares at index `i`.
pub open spec fn cmp_at(keys: Seq<Result<Seq<u8>, Error>>, fv: FilterValue, i: int) -> KeyOrdering {
    spec_filter_cmp(fv, keys[i]->Ok_0)->Ok_0
}

pub open spec fn rank(o: KeyOrdering) -> int {
    match o {
        KeyOrdering::Less => 0,
        KeyOrdering::Equal => 1,
        KeyOrdering::Greater => 2,
    }
}

/// The keys ascend with respect to the filter literal: once the literal
/// compares at or below a key, it stays at or below all later keys.
pub open spec fn search_ordered(keys: Seq<Result<Seq<u8>, Error>>, fv: FilterValue) -> bool {
    forall|i: int, j: int|
        #![trigger cmp_at(keys, fv, i), cmp_at(keys, fv, j)]
        0 <= i < j < keys.len() ==> rank(cmp_at(keys, fv, j)) <= rank(cmp_at(keys, fv, i))
}

/// The first index at or after `i` whose key is not below the literal.
pub open spec fn first_le(keys: Seq<Result<Seq<u8>, Error>>, fv: FilterValue, i: int) -> int
    decreases keys.len() - i,
{
    if i < 0 || i >= keys.len() {
        keys.len() as int
    } else if rank(cmp_at(keys, fv, i)) < 2 {
        i
    } else {
        first_le(keys, fv, i + 1)
    }
}

/// Where a search for the filter literal lands: the first equal cell, the
/// first greater cell, or past every cell.
pub open spec fn spec_search(keys: Seq<Result<Seq<u8>, Error>>, fv: FilterValue) -> SearchResult {
    let p = first_le(keys, fv, 0);
    if p >= keys.len() {
        SearchResult::RightPage
    } else if cmp_at(keys, fv, p) == KeyOrdering::Equal {
        SearchResult::ThisPage(p as usize)
    } else {
        SearchResult::LeftPage(p as usize)
    }
}

proof fn lemma_first_le_char_from(
    keys: Seq<Result<Seq<u8>, Error>>,
    fv: FilterValue,
    j: int,
    h: int,
)
    requires
        0 <= j <= h <= keys.len(),
        forall|i: int| j <= i < h ==> rank(#[trigger] cmp_at(keys, fv, i)) == 2,
        h < keys.len() ==> rank(cmp_at(keys, fv, h)) < 2,
    ensures
        first_le(keys, fv, j) == h,
    decreases h - j,
{
    if j < h {
        lemma_first_le_char_from(keys, fv, j + 1, h);
    }
}

/// Binary search over the ordered cells of one page. When every key is
/// readable and the page is ordered against the literal, the result is
/// exactly `spec_search`; an equal or greater hit always points at a cell
/// with that comparison.
#[verifier::loop_isolation(false)]
pub fn bin_search_payload(cells: &Vec<Cell>, filter_value: &FilterValue) -> (r: Result<
    SearchResult,
    Error,
>)
    ensures
        keys_ok(keys_of(cells@), *filter_value) && search_ordered(keys_of(cells@), *filter_value)
            ==> r == Ok::<SearchResult, Error>(spec_search(keys_of(cells@), *filter_value)),
        r matches Ok(sr) ==> (sr matches SearchResult::ThisPage(i) ==> i < cells@.len()
            && cell_key(cells@[i as int]) is Ok && spec_filter_cmp(
            *filter_value,
            cell_key(cells@[i as int])->Ok_0,
        ) == Ok::<KeyOrdering, Error>(KeyOrdering::Equal)),
        r matches Ok(sr) ==> (sr matches SearchResult::LeftPage(i) ==> i < cells@.len()
            && cell_key(cells@[i as int]) is Ok && spec_filter_cmp(
            *filter_value,
            cell_key(cells@[i as int])->Ok_0,
        ) == Ok::<KeyOrdering, Error>(KeyOrdering::Less)),
{
    let ghost keys = keys_of(cells@);
    let ghost fv = *filter_value;
    let ghost wf = keys_ok(keys, fv) && search_ordered(keys, fv);
    let len = cells.len();
    let mut l: usize = 0;
    let mut h: usize = len;
    let mut ret: SearchResult = SearchResult::RightPage;
    while l < h
        invariant
            l <= h <= len,
            len == cells@.len(),
            keys == keys_of(cells@),
            fv == *filter_value,
            wf == (keys_ok(keys, fv) && search_ordered(keys, fv)),
            match ret {
                SearchResult::ThisPage(i) => i < len && cell_key(cells@[i as int]) is Ok
                    && spec_filter_cmp(fv, cell_key(cells@[i as int])->Ok_0) == Ok::<
                    KeyOrdering,
                    Error,
                >(KeyOrdering::Equal),
                SearchResult::LeftPage(i) => i < len && cell_key(cells@[i as int]) is Ok
                    && spec_filter_cmp(fv, cell_key(cells@[i as int])->Ok_0) == Ok::<
                    KeyOrdering,
                    Error,
                >(KeyOrdering::Less),
                SearchResult::RightPage => true,
            },
            wf ==> forall|i: int| 0 <= i < l ==> rank(#[trigger] cmp_at(keys, fv, i)) == 2,
            wf && h < len ==> rank(cmp_at(keys, fv, h as int)) < 2,
            wf && h == len ==> ret == SearchResult::RightPage,
            wf && h < len ==> ret == (if cmp_at(keys, fv, h as int) == KeyOrdering::Equal {
                SearchResult::ThisPage(h)
            } else {
                SearchResult::LeftPage(h)
            }),
        decreases h - l,
    {
        let m = l + (h - l) / 2;
        let payload = match cell_payload(&cells[m]) {
            Ok(p) => p,
            Err(e) => {
                proof {
                    if wf {
                        assert(keys[m as int] is Ok);
                    }
                }
                return Err(e);
            },
        };
        let ordering = match filter_cmp(filter_value, &payload) {
            Ok(o) => o,
            Err(e) => {
                proof {
                    if wf {
                        assert(keys[m as int] is Ok);
                        assert(spec_filter_cmp(fv, keys[m as int]->Ok_0) is Ok);
                    }
                }
                return Err(e);
            },
        };
        proof {
            if wf {
                assert(keys[m as int] == cell_key(cells@[m as int]));
                assert(ordering == cmp_at(keys, fv, m as int));
            }
        }
        if ordering == KeyOrdering::Greater {
            proof {
                if wf {
                    assert forall|i: int| 0 <= i < m + 1 implies rank(
                        #[trigger] cmp_at(keys, fv, i),
                    ) == 2 by {
                        if l <= i && i < m {
                            assert(rank(cmp_at(keys, fv, m as int)) <= rank(cmp_at(keys, fv, i)));
                        }
                    }
                }
            }
            l = m + 1;
        } else if ordering == KeyOrdering::Equal {
            ret = SearchResult::ThisPage(m);
            h = m;
        } else {
            ret = SearchResult::LeftPage(m);
            h = m;
        }
    }
    proof {
        if wf {
            lemma_first_le_char_from(keys, fv, 0, h as int);
        }
    }
    Ok(ret)
}

// ---------------------------------------------------------------------------
// Matching and projecting rows
// ---------------------------------------------------------------------------

/// The decoded texts of a record's fields, as plain byte strings.
pub open spec fn vec_rows_view(rows: Seq<Vec<u8>>) -> Seq<Seq<u8>> {
    Seq::new(rows.len(), |i: int| rows[i]@)
}

pub open spec fn rows_view(r: Record) -> Seq<Seq<u8>> {
    vec_rows_view(r.rows@)
}

/// Whether a record's fields satisfy the filter: false when the filtered
/// column lies outside the record (trailing NULL columns are simply
/// absent), else an equality comparison.
pub open spec fn spec_decode_match(f: Filter, rows: Seq<Seq<u8>>) -> Result<bool, Error> {
    if f.filter_col_pos < 0 || f.filter_col_pos >= rows.len() {
        Ok(false)
    } else {
        match spec_filter_cmp(f.filter_value, rows[f.filter_col_pos as int]) {
            Ok(o) => Ok(o == KeyOrdering::Equal),
            Err(e) => Err(e),
        }
    }
}

pub fn decode_match(filter: &Filter, rows: &Vec<Vec<u8>>) -> (r: Result<bool, Error>)
    ensures
        r == spec_decode_match(*filter, vec_rows_view(rows@)),
{
    if filter.filter_col_pos < 0 {
        return Ok(false);
    }
    let pos = filter.filter_col_pos as usize;
    if pos >= rows.len() {
        return Ok(false);
    }
    match filter_cmp(&filter.filter_value, &rows[pos]) {
        Ok(o) => Ok(o == KeyOrdering::Equal),
        Err(e) => Err(e),
    }
}

/// The text a projected column emits: position 0 is the row id, any other
/// position reads the record, and a position past the record's end emits
/// nothing (the column is NULL there).
pub open spec fn project_field(row_id: int, rows: Seq<Seq<u8>>, pos: int) -> Seq<u8> {
    if pos == 0 {
        int_text(row_id)
    } else if pos < rows.len() {
        rows[pos]
    } else {
        Seq::empty()
    }
}

/// The projected columns of one row, joined by a single `|`.
pub open spec fn joined_row(row_id: int, rows: Seq<Seq<u8>>, positions: Seq<usize>) -> Seq<u8>
    decreases positions.len(),
{
    if positions.len() == 0 {
        Seq::empty()
    } else if positions.len() == 1 {
        project_field(row_id, rows, positions[0] as int)
    } else {
        project_field(row_id, rows, positions[0] as int).add(seq![124u8]).add(
            joined_row(row_id, rows, positions.skip(1)),
        )
    }
}

proof fn lemma_joined_row_push(row_id: int, rows: Seq<Seq<u8>>, positions: Seq<usize>, x: usize)
    ensures
        joined_row(row_id, rows, positions.push(x)) == if positions.len() == 0 {
            project_field(row_id, rows, x as int)
        } else {
            joined_row(row_id, rows, positions).add(seq![124u8]).add(
                project_field(row_id, rows, x as int),
            )
        },
    decreases positions.len(),
{
    if positions.len() == 0 {
        assert(positions.push(x)[0] == x);
    } else {
        assert(positions.push(x)[0] == positions[0]);
        assert(positions.push(x).skip(1) =~= positions.skip(1).push(x));
        lemma_joined_row_push(row_id, rows, positions.skip(1), x);
        let head = project_field(row_id, rows, positions[0] as int);
        let bar = seq![124u8];
        let tail = joined_row(row_id, rows, positions.skip(1));
        let last = project_field(row_id, rows, x as int);
        if positions.len() == 1 {
            assert(joined_row(row_id, rows, positions.push(x)) == head.add(bar).add(last));
            assert(joined_row(row_id, rows, positions) == head);
        } else {
            assert(joined_row(row_id, rows, positions.push(x)) == head.add(bar).add(
                tail.add(bar).add(last),
            ));
            assert(head.add(bar).add(tail.add(bar).add(last)) =~= head.add(bar).add(tail).add(
                bar,
            ).add(last));
        }
    }
}

/// The row a table leaf cell contributes: the projected columns when the
/// filter is absent or satisfied, nothing when it is not.
pub open spec fn row_of(
    f: Filter,
    row_id: int,
    rows: Seq<Seq<u8>>,
    positions: Seq<usize>,
) -> Result<Option<Seq<u8>>, Error> {
    if f.filter_col_pos == -1 {
        Ok(Some(joined_row(row_id, rows, positions)))
    } else {
        match spec_decode_match(f, rows) {
            Ok(b) => if b {
                Ok(Some(joined_row(row_id, rows, positions)))
            } else {
                Ok(None)
            },
            Err(e) => Err(e),
        }
    }
}

/// Projects one table leaf cell through the filter: column 0 emits the
/// row id, column i of the record emits its decoded text, and the fields
/// are joined by `|`.
#[verifier::loop_isolation(false)]
pub fn filter_rows(filter: &Filter, cell: &TableLeafCell, col_positions: &Vec<usize>) -> (r: Result<
    Option<Vec<u8>>,
    Error,
>)
    ensures
        match row_of(*filter, cell.row_id as int, rows_view(cell.record), col_positions@) {
            Ok(o) => r matches Ok(x) && (match o {
                Some(s) => x matches Some(v) && v@ == s,
                None => x is None,
            }),
            Err(e) => r == Err::<Option<Vec<u8>>, Error>(e),
        },
{
    let emit = if filter.filter_col_pos == -1 {
        true
    } else {
        match decode_match(filter, &cell.record.rows) {
            Ok(b) => b,
            Err(e) => {
                return Err(e);
            },
        }
    };
    if !emit {
        return Ok(None);
    }
    let mut row_str: Vec<u8> = Vec::new();
    let mut k: usize = 0;
    let len = col_positions.len();
    proof {
        assert(col_positions@.take(0) =~= Seq::<usize>::empty());
    }
    while k < len
        invariant
            k <= len,
            len == col_positions@.len(),
            row_str@ == joined_row(
                cell.row_id as int,
                rows_view(cell.record),
                col_positions@.take(k as int),
            ),
        decreases len - k,
    {
        if k > 0 {
            row_str.push(124);
        }
        let pos = col_positions[k];
        if pos == 0 {
            let mut t = i64_text(cell.row_id);
            row_str.append(&mut t);
        } else if pos < cell.record.rows.len() {
            push_bytes(&mut row_str, &cell.record.rows[pos]);
        }
        proof {
            lemma_joined_row_push(
                cell.row_id as int,
                rows_view(cell.record),
                col_positions@.take(k as int),
                col_positions@[k as int],
            );
            assert(col_positions@.take(k + 1) =~= col_positions@.take(k as int).push(
                col_positions@[k as int],
            ));
            assert(row_str@ =~= joined_row(
                cell.row_id as int,
                rows_view(cell.record),
                col_positions@.take(k + 1),
            ));
        }
        k = k + 1;
    }
    proof {
        assert(col_positions@.take(len as int) =~= col_positions@);
    }
    Ok(Some(row_str))
}

/// The first record field and the following one: on index cells these are
/// the indexed key and the referenced row id.
pub open spec fn payload_id_of(c: Cell) -> Result<(Seq<u8>, Seq<u8>), Error> {
    match c {
        Cell::TableInt(_) => Err(Error::CorruptRecord),
        Cell::TableLeaf(x) => first_two_rows(x.record),
        Cell::IdxLeaf(x) => first_two_rows(x.record),
        Cell::IdxInt(x) => first_two_rows(x.record),
    }
}

pub open spec fn first_two_rows(r: Record) -> Result<(Seq<u8>, Seq<u8>), Error> {
    if r.rows@.len() < 2 {
        Err(Error::CorruptRecord)
    } else {
        Ok((r.rows@[0]@, r.rows@[1]@))
    }
}

/// Extracts an index entry's key and referenced row id.
pub fn get_payload_id(cell: &Cell) -> (r: Result<(Vec<u8>, Vec<u8>), Error>)
    ensures
        match payload_id_of(*cell) {
            Ok(p) => r matches Ok(q) && q.0@ == p.0 && q.1@ == p.1,
            Err(e) => r == Err::<(Vec<u8>, Vec<u8>), Error>(e),
        },
{
    match cell.record() {
        None => Err(Error::CorruptRecord),
        Some(rec) => if rec.rows.len() < 2 {
            Err(Error::CorruptRecord)
        } else {
            Ok((copy_bytes(&rec.rows[0]), copy_bytes(&rec.rows[1])))
        },
    }
}

// ---------------------------------------------------------------------------
// Resolving projected columns
// ---------------------------------------------------------------------------

/// The first index at or after `i` whose column name equals `name`.
pub open spec fn name_index(cols: Seq<Vec<u8>>, name: Seq<u8>, i: int) -> Option<int>
    decreases cols.len() - i,
{
    if i < 0 || i >= cols.len() {
        None
    } else if cols[i]@ == name {
        Some(i)
    } else {
        name_index(cols, name, i + 1)
    }
}

pub proof fn lemma_name_index_char(cols: Seq<Vec<u8>>, name: Seq<u8>, i: int, j: int)
    requires
        0 <= i <= j <= cols.len(),
        forall|t: int| i <= t < j ==> (#[trigger] cols[t])@ != name,
        j < cols.len() ==> cols[j]@ == name,
    ensures
        j < cols.len() ==> name_index(cols, name, i) == Some(j),
        j == cols.len() ==> name_index(cols, name, i) is None,
    decreases j - i,
{
    if i < j {
        lemma_name_index_char(cols, name, i + 1, j);
    }
}

/// The schema positions of the selected columns: `*` selects every column
/// in schema order; a name not present in the schema is `UnknownColumn`.
pub open spec fn positions_for(sel: Seq<Vec<u8>>, cols: Seq<Vec<u8>>, k: int) -> Result<
    Seq<usize>,
    Error,
>
    decreases sel.len() - k,
{
    if k < 0 || k >= sel.len() {
        Ok(Seq::empty())
    } else {
        match name_index(cols, sel[k]@, 0) {
            None => Err(Error::UnknownColumn),
            Some(j) => match positions_for(sel, cols, k + 1) {
                Err(e) => Err(e),
                Ok(rest) => Ok(seq![j as usize].add(rest)),
            },
        }
    }
}

pub open spec fn spec_column_positions(sel: Seq<Vec<u8>>, cols: Seq<Vec<u8>>) -> Result<
    Seq<usize>,
    Error,
> {
    if sel.len() == 0 {
        Err(Error::UnsupportedQuery)
    } else if sel[0]@ == seq![42u8] {
        Ok(Seq::new(cols.len(), |i: int| i as usize))
    } else {
        positions_for(sel, cols, 0)
    }
}

/// Resolves the selected column names against the schema's column list.
#[verifier::loop_isolation(false)]
pub fn get_column_position(select_col_names: &Vec<Vec<u8>>, table_columns: &Vec<Vec<u8>>) -> (r:
    Result<Vec<usize>, Error>)
    ensures
        match spec_column_positions(select_col_names@, table_columns@) {
            Ok(ps) => r matches Ok(v) && v@ == ps,
            Err(e) => r == Err::<Vec<usize>, Error>(e),
        },
{
    if select_col_names.len() == 0 {
        return Err(Error::UnsupportedQuery);
    }
    let first = &select_col_names[0];
    let is_star = first.len() == 1 && first[0] == 42;
    proof {
        if is_star {
            assert(select_col_names@[0]@ =~= seq![42u8]);
        } else {
            assert(seq![42u8].len() == 1);
            if select_col_names@[0]@ == seq![42u8] {
                assert(select_col_names@[0]@.len() == 1);
                assert(select_col_names@[0]@[0] == 42);
            }
        }
    }
    let mut col_positions: Vec<usize> = Vec::new();
    if is_star {
        let n = table_columns.len();
        let mut pos: usize = 0;
        while pos < n
            invariant
                pos <= n,
                n == table_columns@.len(),
                col_positions@.len() == pos,
                forall|t: int| 0 <= t < pos ==> col_positions@[t] == t,
            decreases n - pos,
        {
            col_positions.push(pos);
            pos = pos + 1;
        }
        proof {
            assert(col_positions@ =~= Seq::new(table_columns@.len(), |i: int| i as usize));
        }
        return Ok(col_positions);
    }
    let sel_len = select_col_names.len();
    let cols_len = table_columns.len();
    let ghost sel = select_col_names@;
    let ghost cols = table_columns@;
    let mut k: usize = 0;
    let ghost mut acc: Seq<usize> = Seq::empty();
    proof {
        if positions_for(sel, cols, 0) is Ok {
            assert(acc.add(positions_for(sel, cols, 0)->Ok_0) =~= positions_for(
                sel,
                cols,
                0,
            )->Ok_0);
        }
    }
    while k < sel_len
        invariant
            k <= sel_len,
            sel_len == sel.len(),
            cols_len == cols.len(),
            sel == select_col_names@,
            cols == table_columns@,
            col_positions@ == acc,
            match positions_for(sel, cols, k as int) {
                Ok(rest) => positions_for(sel, cols, 0) == Ok::<Seq<usize>, Error>(acc.add(rest)),
                Err(e) => positions_for(sel, cols, 0) == Err::<Seq<usize>, Error>(e),
            },
        decreases sel_len - k,
    {
        let name = &select_col_names[k];
        let mut j: usize = 0;
        let mut found: bool = false;
        while j < cols_len && !found
            invariant
                j <= cols_len,
                cols_len == cols.len(),
                cols == table_columns@,
                sel == select_col_names@,
                k < sel.len(),
                name@ == sel[k as int]@,
                forall|t: int| 0 <= t < j ==> (#[trigger] cols[t])@ != name@,
                found ==> false,
            decreases cols_len - j,
        {
            if bytes_eq(name, &table_columns[j]) {
                found = true;
                proof {
                    assert(cols[j as int]@ == name@);
                }
                break ;
            }
            j = j + 1;
        }
        proof {
            lemma_name_index_char(cols, sel[k as int]@, 0, j as int);
        }
        if j >= cols_len {
            return Err(Error::UnknownColumn);
        }
        col_positions.push(j);
        proof {
            let acc_old = acc;
            acc = acc.push(j as usize);
            assert(col_positions@ =~= acc);
            if positions_for(sel, cols, k + 1) is Ok {
                let rest = positions_for(sel, cols, k + 1)->Ok_0;
                assert(positions_for(sel, cols, k as int) == Ok::<Seq<usize>, Error>(
                    seq![j as usize].add(rest),
                ));
                assert(acc_old.add(seq![j as usize].add(rest)) =~= acc.add(rest));
            }
        }
        k = k + 1;
    }
    proof {
        assert(positions_for(sel, cols, k as int) == Ok::<Seq<usize>, Error>(Seq::empty()));
        assert(acc.add(Seq::<usize>::empty()) =~= acc);
    }
    Ok(col_positions)
}

// ---------------------------------------------------------------------------
// Rows of one leaf page
// ---------------------------------------------------------------------------

/// The rows a run of table leaf cells contributes, in cell order.
pub open spec fn rows_of_cells(cells: Seq<Cell>, f: Filter, positions: Seq<usize>) -> Result<
    Seq<Seq<u8>>,
    Error,
>
    decreases cells.len(),
{
    if cells.len() == 0 {
        Ok(Seq::empty())
    } else {
        match cells[0] {
            Cell::TableLeaf(x) => match row_of(f, x.row_id as int, rows_view(x.record), positions) {
                Err(e) => Err(e),
                Ok(opt) => match rows_of_cells(cells.skip(1), f, positions) {
                    Err(e) => Err(e),
                    Ok(rest) => match opt {
                        Some(row) => Ok(seq![row].add(rest)),
                        None => Ok(rest),
                    },
                },
            },
            _ => Err(Error::CorruptPage),
        }
    }
}

/// The rows one page contributes to a scan: only table leaf pages carry
/// rows.
pub open spec fn spec_table_data(positions: Seq<usize>, page: Page, f: Filter) -> Result<
    Seq<Seq<u8>>,
    Error,
> {
    if page.page_header.page_type != PageType::TblLeaf {
        Err(Error::Unsupported)
    } else {
        rows_of_cells(page.cells@, f, positions)
    }
}

/// Projects and filters every row of one table leaf page.
#[verifier::loop_isolation(false)]
pub fn fetch_table_data(
    col_positions: &Vec<usize>,
    page_num_and_page: &(u32, Page),
    filter: &Filter,
) -> (r: Result<Vec<Vec<u8>>, Error>)
    ensures
        match spec_table_data(col_positions@, page_num_and_page.1, *filter) {
            Ok(rs) => r matches Ok(v) && v@.len() == rs.len() && (forall|i: int|
                0 <= i < rs.len() ==> (#[trigger] v@[i])@ == rs[i]),
            Err(e) => r == Err::<Vec<Vec<u8>>, Error>(e),
        },
{
    let page = &page_num_and_page.1;
    if !(page.page_header.page_type == PageType::TblLeaf) {
        return Err(Error::Unsupported);
    }
    let ghost cells = page.cells@;
    let ghost f = *filter;
    let ghost positions = col_positions@;
    let mut rows: Vec<Vec<u8>> = Vec::new();
    let ghost mut acc: Seq<Seq<u8>> = Seq::empty();
    let len = page.cells.len();
    let mut i: usize = 0;
    proof {
        assert(cells.skip(0) =~= cells);
        if rows_of_cells(cells, f, positions) is Ok {
            assert(acc.add(rows_of_cells(cells, f, positions)->Ok_0) =~= rows_of_cells(
                cells,
                f,
                positions,
            )->Ok_0);
        }
    }
    while i < len
        invariant
            i <= len,
            len == cells.len(),
            cells == page_num_and_page.1.cells@,
            f == *filter,
            positions == col_positions@,
            rows@.len() == acc.len(),
            forall|t: int| 0 <= t < acc.len() ==> (#[trigger] rows@[t])@ == acc[t],
            match rows_of_cells(cells.skip(i as int), f, positions) {
                Ok(rest) => rows_of_cells(cells, f, positions) == Ok::<Seq<Seq<u8>>, Error>(
                    acc.add(rest),
                ),
                Err(e) => rows_of_cells(cells, f, positions) == Err::<Seq<Seq<u8>>, Error>(e),
            },
        decreases len - i,
    {
        proof {
            assert(cells.skip(i as int)[0] == cells[i as int]);
            assert(cells.skip(i as int).skip(1) =~= cells.skip(i as int + 1));
        }
        let cell = &page.cells[i];
        let leaf = match cell {
            Cell::TableLeaf(x) => x,
            _ => {
                return Err(Error::CorruptPage);
            },
        };
        match filter_rows(filter, leaf, col_positions) {
            Ok(Some(row)) => {
                rows.push(row);
                proof {
                    let opt = row_of(f, leaf.row_id as int, rows_view(leaf.record), positions);
                    let acc_old = acc;
                    acc = acc.push(opt->Ok_0->Some_0);
                    if rows_of_cells(cells.skip(i as int + 1), f, positions) is Ok {
                        let rest = rows_of_cells(cells.skip(i as int + 1), f, positions)->Ok_0;
                        assert(acc_old.add(seq![opt->Ok_0->Some_0].add(rest)) =~= acc.add(rest));
                    }
                }
            },
            Ok(None) => {},
            Err(e) => {
                return Err(e);
            },
        }
        i = i + 1;
    }
    proof {
        assert(cells.skip(len as int) =~= Seq::<Cell>::empty());
        assert(acc.add(Seq::<Seq<u8>>::empty()) =~= acc);
    }
    Ok(rows)
}

// ---------------------------------------------------------------------------
// Rows of leaf pages, model side
// ---------------------------------------------------------------------------

/// The rendered texts of a raw record's fields.
pub open spec fn model_rows(m: RecordModel) -> Seq<Seq<u8>> {
    Seq::new(m.type_codes.len(), |i: int| rendered_row(m.type_codes[i], m.fields[i]))
}

/// `rows_of_cells`, over raw cells.
pub open spec fn model_rows_of_cells(ms: Seq<CellModel>, f: Filter, positions: Seq<usize>) -> Result<
    Seq<Seq<u8>>,
    Error,
>
    decreases ms.len(),
{
    if ms.len() == 0 {
        Ok(Seq::empty())
    } else {
        match ms[0] {
            CellModel::TableLeaf { record_size, row_id, record } => match row_of(
                f,
                i64_of_u64bits(row_id),
                model_rows(record),
                positions,
            ) {
                Err(e) => Err(e),
                Ok(opt) => match model_rows_of_cells(ms.skip(1), f, positions) {
                    Err(e) => Err(e),
                    Ok(rest) => match opt {
                        Some(row) => Ok(seq![row].add(rest)),
                        None => Ok(rest),
                    },
                },
            },
            _ => Err(Error::CorruptPage),
        }
    }
}

/// `spec_table_data`, over a raw page.
pub open spec fn model_table_data(pm: PageModel, f: Filter, positions: Seq<usize>) -> Result<
    Seq<Seq<u8>>,
    Error,
> {
    if pm.header.page_type != PageType::TblLeaf {
        Err(Error::Unsupported)
    } else {
        model_rows_of_cells(pm.cells, f, positions)
    }
}

/// A decoded record carries exactly the rendered texts of its raw record.
pub proof fn lemma_rows_view_matches(r: Record, m: RecordModel)
    requires
        record_matches(r, m),
    ensures
        rows_view(r) == model_rows(m),
{
    assert(rows_view(r) =~= model_rows(m));
}

/// A decoded leaf page yields the same scan rows as its raw page.
pub proof fn lemma_rows_of_cells_matches(cs: Seq<Cell>, ms: Seq<CellModel>, f: Filter, positions: Seq<usize>)
    requires
        cells_match(cs, ms),
    ensures
        rows_of_cells(cs, f, positions) == model_rows_of_cells(ms, f, positions),
    decreases ms.len(),
{
    if ms.len() > 0 {
        assert(cell_matches(cs[0], ms[0]));
        assert(cs.skip(1).len() == ms.skip(1).len());
        assert(cells_match(cs.skip(1), ms.skip(1)));
        lemma_rows_of_cells_matches(cs.skip(1), ms.skip(1), f, positions);
        match ms[0] {
            CellModel::TableLeaf { record_size, row_id, record } => {
                let x = cs[0]->TableLeaf_0;
                lemma_rows_view_matches(x.record, record);
            },
            _ => {},
        }
    }
}

pub proof fn lemma_table_data_matches(p: Page, pm: PageModel, f: Filter, positions: Seq<usize>)
    requires
        page_matches(p, pm),
    ensures
        spec_table_data(positions, p, f) == model_table_data(pm, f, positions),
{
    lemma_rows_of_cells_matches(p.cells@, pm.cells, f, positions);
}

// ---------------------------------------------------------------------------
// Walking a table B-tree to its leaves
// ---------------------------------------------------------------------------

/// The left child pointers of an interior page's cells, in order. Any
/// other cell kind means the tree is malformed.
pub open spec fn left_children(cells: Seq<CellModel>) -> Result<Seq<int>, Error>
    decreases cells.len(),
{
    if cells.len() == 0 {
        Ok(Seq::empty())
    } else {
        match cells[0] {
            CellModel::TableInt { row_id, left_child } => match left_children(cells.skip(1)) {
                Err(e) => Err(e),
                Ok(rest) => Ok(seq![left_child].add(rest)),
            },
            _ => Err(Error::CorruptBtree),
        }
    }
}

/// The children of an interior table page: the right-most child first,
/// then the left children in cell order.
pub open spec fn children_of(pm: PageModel) -> Result<Seq<int>, Error> {
    if pm.header.page_type != PageType::TblInt {
        Err(Error::CorruptBtree)
    } else {
        match left_children(pm.cells) {
            Err(e) => Err(e),
            Ok(ls) => Ok(
                (match pm.header.right_pointer {
                    Some(rp) => seq![rp as int],
                    None => Seq::empty(),
                }).add(ls),
            ),
        }
    }
}

/// Breadth-first traversal of a table B-tree, collecting its leaf pages
/// in discovery order. `pending` holds children of the page most recently
/// expanded; `queue` holds interior pages awaiting expansion; `visited`
/// (indexed by page number minus one) tolerates malformed back-references;
/// `fuel` bounds the distinct pages a walk may touch, so a malformed tree
/// ends in `CorruptBtree`.
pub open spec fn spec_bfs(
    db: Seq<u8>,
    ps: int,
    pending: Seq<int>,
    queue: Seq<(int, PageModel)>,
    visited: Seq<bool>,
    fuel: nat,
) -> Result<Seq<(int, PageModel)>, Error>
    decreases fuel, queue.len(), pending.len(),
{
    if pending.len() > 0 {
        let c = pending[0];
        if 1 <= c && c - 1 < visited.len() && visited[c - 1] {
            spec_bfs(db, ps, pending.skip(1), queue, visited, fuel)
        } else {
            match spec_read_page(db, ps, c) {
                Err(e) => Err(e),
                Ok(pm) => if fuel == 0 {
                    Err(Error::CorruptBtree)
                } else if !(1 <= c && c - 1 < visited.len()) {
                    Err(Error::CorruptBtree)
                } else {
                    let visited2 = visited.update(c - 1, true);
                    if pm.header.page_type == PageType::TblLeaf {
                        match spec_bfs(
                            db,
                            ps,
                            pending.skip(1),
                            queue,
                            visited2,
                            (fuel - 1) as nat,
                        ) {
                            Err(e) => Err(e),
                            Ok(rest) => Ok(seq![(c, pm)].add(rest)),
                        }
                    } else {
                        spec_bfs(
                            db,
                            ps,
                            pending.skip(1),
                            queue.push((c, pm)),
                            visited2,
                            (fuel - 1) as nat,
                        )
                    }
                },
            }
        }
    } else if queue.len() > 0 {
        match children_of(queue[0].1) {
            Err(e) => Err(e),
            Ok(cs) => spec_bfs(db, ps, cs, queue.skip(1), visited, fuel),
        }
    } else {
        Ok(Seq::empty())
    }
}

/// The leaves reachable from an interior root page.
pub open spec fn spec_fetch_all_leaves(db: Seq<u8>, ps: int, no: int, pm: PageModel) -> Result<
    Seq<(int, PageModel)>,
    Error,
> {
    if ps <= 0 {
        Err(Error::CorruptPage)
    } else {
        spec_bfs(
            db,
            ps,
            Seq::empty(),
            seq![(no, pm)],
            Seq::new((db.len() as int / ps) as nat, |i: int| false),
            (db.len() as int / ps) as nat,
        )
    }
}

/// The leaf pages a table occupies: a leaf root stands alone; an interior
/// root is walked.
pub open spec fn spec_leaves_for_table(db: Seq<u8>, ps: int, no: int, pm: PageModel) -> Result<
    Seq<(int, PageModel)>,
    Error,
> {
    if pm.header.page_type == PageType::TblLeaf || pm.header.page_type == PageType::IdxLeaf {
        Ok(seq![(no, pm)])
    } else if pm.header.page_type == PageType::TblInt {
        spec_fetch_all_leaves(db, ps, no, pm)
    } else {
        Err(Error::CorruptBtree)
    }
}

/// Decoded leaves and raw leaves correspond pairwise.
pub open spec fn leaves_match(v: Seq<(u32, Page)>, lvs: Seq<(int, PageModel)>) -> bool {
    &&& v.len() == lvs.len()
    &&& forall|i: int|
        0 <= i < lvs.len() ==> (#[trigger] v[i]).0 == lvs[i].0 && page_matches(v[i].1, lvs[i].1)
}

/// Collects an interior table page's children: the right-most child
/// first, then the left child of each cell in order.
#[verifier::loop_isolation(false)]
fn collect_children(page: &Page, Ghost(pm): Ghost<PageModel>) -> (r: Result<Vec<u32>, Error>)
    requires
        page_matches(*page, pm),
    ensures
        match children_of(pm) {
            Ok(cs) => r matches Ok(v) && v@.len() == cs.len() && (forall|t: int|
                0 <= t < cs.len() ==> (#[trigger] v@[t]) as int == cs[t]),
            Err(e) => r == Err::<Vec<u32>, Error>(e),
        },
{
    if !(page.page_header.page_type == PageType::TblInt) {
        return Err(Error::CorruptBtree);
    }
    let mut out: Vec<u32> = Vec::new();
    let ghost mut g_right: Seq<int> = Seq::empty();
    match page.page_header.right_pointer {
        Some(rp) => {
            out.push(rp);
            proof {
                g_right = seq![rp as int];
            }
        },
        None => {},
    }
    let ghost lefts_full = left_children(pm.cells);
    let cell_len = page.cells.len();
    let mut ci: usize = 0;
    let ghost mut g_lefts: Seq<int> = Seq::empty();
    proof {
        assert(pm.cells.skip(0) =~= pm.cells);
        if lefts_full is Ok {
            assert(g_lefts.add(lefts_full->Ok_0) =~= lefts_full->Ok_0);
        }
    }
    while ci < cell_len
        invariant
            ci <= cell_len,
            out@.len() == g_right.len() + g_lefts.len(),
            forall|t: int| 0 <= t < g_right.len() ==> (#[trigger] out@[t]) as int == g_right[t],
            forall|t: int|
                0 <= t < g_lefts.len() ==> (#[trigger] out@[g_right.len() + t]) as int
                    == g_lefts[t],
            match left_children(pm.cells.skip(ci as int)) {
                Ok(rest) => lefts_full == Ok::<Seq<int>, Error>(g_lefts.add(rest)),
                Err(e) => lefts_full == Err::<Seq<int>, Error>(e),
            },
        decreases cell_len - ci,
    {
        proof {
            assert(pm.cells.skip(ci as int)[0] == pm.cells[ci as int]);
            assert(pm.cells.skip(ci as int).skip(1) =~= pm.cells.skip(ci as int + 1));
            assert(cell_matches(page.cells@[ci as int], pm.cells[ci as int]));
        }
        let child = match &page.cells[ci] {
            Cell::TableInt(x) => x.left_child_page_no,
            _ => {
                return Err(Error::CorruptBtree);
            },
        };
        out.push(child);
        proof {
            let lefts_old = g_lefts;
            g_lefts = g_lefts.push(child as int);
            if left_children(pm.cells.skip(ci as int + 1)) is Ok {
                let rest = left_children(pm.cells.skip(ci as int + 1))->Ok_0;
                assert(lefts_old.add(seq![child as int].add(rest)) =~= g_lefts.add(rest));
            }
        }
        ci = ci + 1;
    }
    proof {
        assert(pm.cells.skip(cell_len as int) =~= Seq::<CellModel>::empty());
        assert(left_children(pm.cells.skip(cell_len as int)) == Ok::<Seq<int>, Error>(
            Seq::empty(),
        ));
        assert(g_lefts.add(Seq::<int>::empty()) =~= g_lefts);
        let cs = children_of(pm)->Ok_0;
        assert(cs == g_right.add(g_lefts));
        assert forall|t: int| 0 <= t < cs.len() implies (out@[t]) as int == cs[t] by {
            if t < g_right.len() {
                assert((out@[t]) as int == g_right[t]);
                assert(cs[t] == g_right[t]);
            } else {
                let t2 = t - g_right.len();
                assert((out@[g_right.len() + t2]) as int == g_lefts[t2]);
                assert(cs[t] == g_lefts[t2]);
            }
        }
    }
    Ok(out)
}

/// Walks an interior table page's subtree, collecting every leaf page
/// once, tolerant of malformed back-references through a visited set.
#[verifier::rlimit(100)]
fn fetch_all_leaves(first_page: Page, builder: &PageReaderBuilder, first_page_no: u32) -> (r:
    Result<Vec<(u32, Page)>, Error>)
    requires
        spec_read_page(
            builder.db@,
            builder.page_size as int,
            first_page_no as int,
        ) matches Ok(pm) && page_matches(first_page, pm),
    ensures
        match spec_fetch_all_leaves(
            builder.db@,
            builder.page_size as int,
            first_page_no as int,
            spec_read_page(builder.db@, builder.page_size as int, first_page_no as int)->Ok_0,
        ) {
            Ok(lvs) => r matches Ok(v) && leaves_match(v@, lvs),
            Err(e) => r == Err::<Vec<(u32, Page)>, Error>(e),
        },
{
    let ghost db = builder.db@;
    let ghost psi = builder.page_size as int;
    let ghost pm0 = spec_read_page(db, psi, first_page_no as int)->Ok_0;
    if builder.page_size == 0 {
        return Err(Error::CorruptPage);
    }
    proof {
        assert(db.len() as int / psi <= db.len() as int) by (nonlinear_arith)
            requires
                psi >= 1,
                db.len() >= 0,
        ;
    }
    let n_pages_u64: u64 = (builder.db.len() as u64) / (builder.page_size as u64);
    let n_pages: usize = n_pages_u64 as usize;
    let mut visited: Vec<bool> = Vec::new();
    let mut vi: usize = 0;
    while vi < n_pages
        invariant
            vi <= n_pages,
            visited@.len() == vi,
            forall|t: int| 0 <= t < vi ==> !(#[trigger] visited@[t]),
        decreases n_pages - vi,
    {
        visited.push(false);
        vi = vi + 1;
    }
    proof {
        assert(visited@ =~= Seq::new((db.len() as int / psi) as nat, |i: int| false));
    }
    let mut budget: u64 = n_pages_u64;
    let mut pending: Vec<u32> = Vec::new();
    let mut ph: usize = 0;
    let mut queue: Vec<(u32, Page)> = Vec::new();
    let mut qh: usize = 0;
    queue.push((first_page_no, first_page));
    let mut pages: Vec<(u32, Page)> = Vec::new();
    let ghost mut g_pending: Seq<int> = Seq::empty();
    let ghost mut g_queue: Seq<(int, PageModel)> = seq![(first_page_no as int, pm0)];
    let ghost mut acc: Seq<(int, PageModel)> = Seq::empty();
    let ghost full = spec_bfs(db, psi, g_pending, g_queue, visited@, budget as nat);
    proof {
        if full is Ok {
            assert(acc.add(full->Ok_0) =~= full->Ok_0);
        }
        assert(full == spec_fetch_all_leaves(db, psi, first_page_no as int, pm0));
    }
    loop
        invariant
            builder.page_size as int == psi,
            builder.db@ == db,
            psi >= 1,
            ph <= pending@.len(),
            qh <= queue@.len(),
            g_pending.len() == pending@.len() - ph,
            forall|t: int|
                0 <= t < g_pending.len() ==> #[trigger] g_pending[t] == pending@[ph + t] as int,
            g_queue.len() == queue@.len() - qh,
            forall|t: int|
                0 <= t < g_queue.len() ==> (#[trigger] g_queue[t]).0 == queue@[qh + t].0 as int
                    && page_matches(queue@[qh + t].1, g_queue[t].1),
            leaves_match(pages@, acc),
            full == spec_fetch_all_leaves(
                db,
                psi,
                first_page_no as int,
                spec_read_page(db, psi, first_page_no as int)->Ok_0,
            ),
            match spec_bfs(db, psi, g_pending, g_queue, visited@, budget as nat) {
                Ok(rest) => full == Ok::<Seq<(int, PageModel)>, Error>(acc.add(rest)),
                Err(e) => full == Err::<Seq<(int, PageModel)>, Error>(e),
            },
        ensures
            full matches Ok(lvs) && leaves_match(pages@, lvs),
        decreases budget, queue@.len() - qh, pending@.len() - ph,
    {
        if ph < pending.len() {
            let c = pending[ph];
            proof {
                assert(g_pending[0] == c as int);
            }
            let cu = c as usize;
            if cu >= 1 && cu - 1 < visited.len() && visited[cu - 1] {
                ph = ph + 1;
                proof {
                    g_pending = g_pending.skip(1);
                }
            } else {
                let mut reader = match builder.new_reader(c) {
                    Ok(rd) => rd,
                    Err(e) => {
                        proof {
                            assert(spec_read_page(db, psi, c as int) == Err::<PageModel, Error>(
                                e,
                            ));
                        }
                        return Err(e);
                    },
                };
                let ghost b = reader.bytes_iterator.bytes@;
                let page = match reader.read_page() {
                    Ok(p) => p,
                    Err(e) => {
                        proof {
                            assert(spec_read_page(db, psi, c as int) == Err::<PageModel, Error>(
                                e,
                            ));
                        }
                        return Err(e);
                    },
                };
                let ghost pm = spec_read_page(db, psi, c as int)->Ok_0;
                proof {
                    assert(spec_read_page(db, psi, c as int) is Ok);
                    assert(page_matches(page, pm));
                }
                if budget == 0 {
                    return Err(Error::CorruptBtree);
                }
                if !(cu >= 1 && cu - 1 < visited.len()) {
                    return Err(Error::CorruptBtree);
                }
                visited.set(cu - 1, true);
                budget = budget - 1;
                if page.page_header.page_type == PageType::TblLeaf {
                    pages.push((c, page));
                    proof {
                        let acc_old = acc;
                        acc = acc.push((c as int, pm));
                        g_pending = g_pending.skip(1);
                        let now = spec_bfs(db, psi, g_pending, g_queue, visited@, budget as nat);
                        if now is Ok {
                            assert(acc_old.add(seq![(c as int, pm)].add(now->Ok_0)) =~= acc.add(
                                now->Ok_0,
                            ));
                        }
                    }
                } else {
                    queue.push((c, page));
                    proof {
                        g_pending = g_pending.skip(1);
                        g_queue = g_queue.push((c as int, pm));
                    }
                }
                ph = ph + 1;
            }
        } else if qh < queue.len() {
            proof {
                assert(g_queue[0].0 == queue@[qh as int].0 as int);
                assert(page_matches(queue@[qh as int].1, g_queue[0].1));
            }
            let new_pending = match collect_children(&queue[qh].1, Ghost(g_queue[0].1)) {
                Ok(v) => v,
                Err(e) => {
                    return Err(e);
                },
            };
            proof {
                g_pending = children_of(g_queue[0].1)->Ok_0;
                g_queue = g_queue.skip(1);
            }
            pending = new_pending;
            ph = 0;
            qh = qh + 1;
        } else {
            proof {
                assert(g_pending.len() == 0);
                assert(g_queue.len() == 0);
                assert(spec_bfs(db, psi, g_pending, g_queue, visited@, budget as nat) == Ok::<
                    Seq<(int, PageModel)>,
                    Error,
                >(Seq::empty()));
                assert(acc.add(Seq::<(int, PageModel)>::empty()) =~= acc);
            }
            break ;
        }
    }
    Ok(pages)
}

/// The leaf pages that hold a table's rows: a leaf root stands alone; an
/// interior root is walked to its leaves.
pub fn fetch_all_leaves_for_table(first_page: Page, builder: &PageReaderBuilder, page_no: u32) -> (r:
    Result<Vec<(u32, Page)>, Error>)
    requires
        spec_read_page(builder.db@, builder.page_size as int, page_no as int) matches Ok(pm)
            && page_matches(first_page, pm),
    ensures
        match spec_leaves_for_table(
            builder.db@,
            builder.page_size as int,
            page_no as int,
            spec_read_page(builder.db@, builder.page_size as int, page_no as int)->Ok_0,
        ) {
            Ok(lvs) => r matches Ok(v) && leaves_match(v@, lvs),
            Err(e) => r == Err::<Vec<(u32, Page)>, Error>(e),
        },
{
    let page_type = first_page.page_header.page_type;
    if page_type == PageType::TblLeaf || page_type == PageType::IdxLeaf {
        let mut v: Vec<(u32, Page)> = Vec::new();
        v.push((page_no, first_page));
        Ok(v)
    } else if page_type == PageType::TblInt {
        fetch_all_leaves(first_page, builder, page_no)
    } else {
        Err(Error::CorruptBtree)
    }
}

// ---------------------------------------------------------------------------
// Locating a table's root page from its schema cell
// ---------------------------------------------------------------------------

/// The record a cell carries, if any.
pub open spec fn spec_record_of(c: Cell) -> Option<Record> {
    match c {
        Cell::TableLeaf(x) => Some(x.record),
        Cell::TableInt(_) => None,
        Cell::IdxLeaf(x) => Some(x.record),
        Cell::IdxInt(x) => Some(x.record),
    }
}

/// The root page a schema cell names in its fourth field, read and
/// decoded.
pub open spec fn spec_first_page(db: Seq<u8>, ps: int, c: Cell) -> Result<(int, PageModel), Error> {
    match spec_record_of(c) {
        None => Err(Error::CorruptRecord),
        Some(rec) => if rec.rows@.len() < 4 {
            Err(Error::CorruptRecord)
        } else {
            match crate::numtext::parse_u32(rec.rows@[3]@) {
                None => Err(Error::CorruptRecord),
                Some(no) => match spec_read_page(db, ps, no) {
                    Err(e) => Err(e),
                    Ok(pm) => Ok((no, pm)),
                },
            }
        },
    }
}

/// Reads the root page of the object a schema cell describes.
fn fetch_table_first_page(cell: &Cell, builder: &PageReaderBuilder) -> (r: Result<
    (u32, Page),
    Error,
>)
    ensures
        match spec_first_page(builder.db@, builder.page_size as int, *cell) {
            Ok(p) => r matches Ok(q) && q.0 == p.0 && page_matches(q.1, p.1),
            Err(e) => r == Err::<(u32, Page), Error>(e),
        },
{
    let rec = match cell.record() {
        Some(rec) => rec,
        None => {
            return Err(Error::CorruptRecord);
        },
    };
    if rec.rows.len() < 4 {
        return Err(Error::CorruptRecord);
    }
    let page_no = match crate::numtext::parse_u32_bytes(rec.rows[3].as_slice()) {
        Some(no) => no,
        None => {
            return Err(Error::CorruptRecord);
        },
    };
    let mut reader = match builder.new_reader(page_no) {
        Ok(rd) => rd,
        Err(e) => {
            return Err(e);
        },
    };
    let page = match reader.read_page() {
        Ok(p) => p,
        Err(e) => {
            return Err(e);
        },
    };
    Ok((page_no, page))
}

// ---------------------------------------------------------------------------
// Counting rows
// ---------------------------------------------------------------------------

/// The sum of `cell_count` over a list of leaf pages.
pub open spec fn sum_cell_counts(lvs: Seq<(int, PageModel)>) -> int
    decreases lvs.len(),
{
    if lvs.len() == 0 {
        0
    } else {
        sum_cell_counts(lvs.drop_last()) + lvs.last().1.header.cell_count
    }
}

pub proof fn lemma_sum_cell_counts_nonneg(lvs: Seq<(int, PageModel)>)
    ensures
        sum_cell_counts(lvs) >= 0,
    decreases lvs.len(),
{
    if lvs.len() > 0 {
        lemma_sum_cell_counts_nonneg(lvs.drop_last());
    }
}

pub proof fn lemma_sum_cell_counts_take_step(lvs: Seq<(int, PageModel)>, i: int)
    requires
        0 <= i < lvs.len(),
    ensures
        sum_cell_counts(lvs.take(i + 1)) == sum_cell_counts(lvs.take(i))
            + lvs[i].1.header.cell_count,
{
    assert(lvs.take(i + 1).drop_last() =~= lvs.take(i));
    assert(lvs.take(i + 1).last() == lvs[i]);
}

pub proof fn lemma_sum_cell_counts_mono(lvs: Seq<(int, PageModel)>, i: int)
    requires
        0 <= i <= lvs.len(),
    ensures
        sum_cell_counts(lvs.take(i)) <= sum_cell_counts(lvs),
    decreases lvs.len() - i,
{
    if i == lvs.len() {
        assert(lvs.take(i) =~= lvs);
    } else {
        lemma_sum_cell_counts_take_step(lvs, i);
        lemma_sum_cell_counts_mono(lvs, i + 1);
    }
}

/// The row count of the table a schema cell describes: the sum of
/// `cell_count` over every leaf reachable from its root page.
pub open spec fn spec_count_all_rows(db: Seq<u8>, ps: int, c: Cell) -> Result<int, Error> {
    match spec_first_page(db, ps, c) {
        Err(e) => Err(e),
        Ok(p) => match spec_leaves_for_table(db, ps, p.0, p.1) {
            Err(e) => Err(e),
            Ok(lvs) => Ok(sum_cell_counts(lvs)),
        },
    }
}

/// Counts the rows of the table whose schema cell is given: every leaf
/// reachable from the table's root contributes its cell count.
#[verifier::loop_isolation(false)]
pub fn count_all_rows(root_leaf_page_cell: &Cell, builder: &PageReaderBuilder) -> (r: Result<
    u64,
    Error,
>)
    ensures
        match spec_count_all_rows(builder.db@, builder.page_size as int, *root_leaf_page_cell) {
            Ok(n) => if n <= u64::MAX {
                r matches Ok(c) && c == n
            } else {
                r == Err::<u64, Error>(Error::Unsupported)
            },
            Err(e) => r == Err::<u64, Error>(e),
        },
{
    let ghost db = builder.db@;
    let ghost psi = builder.page_size as int;
    let (page_no, page) = match fetch_table_first_page(root_leaf_page_cell, builder) {
        Ok(p) => p,
        Err(e) => {
            return Err(e);
        },
    };
    let page_num_and_page = match fetch_all_leaves_for_table(page, builder, page_no) {
        Ok(v) => v,
        Err(e) => {
            return Err(e);
        },
    };
    let ghost lvs = spec_leaves_for_table(
        db,
        psi,
        spec_first_page(db, psi, *root_leaf_page_cell)->Ok_0.0,
        spec_first_page(db, psi, *root_leaf_page_cell)->Ok_0.1,
    )->Ok_0;
    let mut sum: u64 = 0;
    let mut i: usize = 0;
    let len = page_num_and_page.len();
    proof {
        assert(lvs.take(0) =~= Seq::<(int, PageModel)>::empty());
    }
    while i < len
        invariant
            i <= len,
            len == page_num_and_page@.len(),
            leaves_match(page_num_and_page@, lvs),
            sum == sum_cell_counts(lvs.take(i as int)),
            sum <= u64::MAX,
        decreases len - i,
    {
        let cc = page_num_and_page[i].1.page_header.cell_count;
        proof {
            lemma_sum_cell_counts_take_step(lvs, i as int);
            assert(page_num_and_page@[i as int].1.page_header == lvs[i as int].1.header);
        }
        if (cc as u64) > u64::MAX - sum {
            proof {
                lemma_sum_cell_counts_mono(lvs, i + 1);
            }
            return Err(Error::Unsupported);
        }
        sum = sum + (cc as u64);
        i = i + 1;
    }
    proof {
        assert(lvs.take(len as int) =~= lvs);
    }
    Ok(sum)
}

// ---------------------------------------------------------------------------
// Full table scan
// ---------------------------------------------------------------------------

/// The rows every leaf contributes, concatenated in leaf order.
pub open spec fn concat_leaf_rows(
    lvs: Seq<(int, PageModel)>,
    f: Filter,
    positions: Seq<usize>,
) -> Result<Seq<Seq<u8>>, Error>
    decreases lvs.len(),
{
    if lvs.len() == 0 {
        Ok(Seq::empty())
    } else {
        match model_table_data(lvs[0].1, f, positions) {
            Err(e) => Err(e),
            Ok(rs) => match concat_leaf_rows(lvs.skip(1), f, positions) {
                Err(e) => Err(e),
                Ok(rest) => Ok(rs.add(rest)),
            },
        }
    }
}

/// The full scan of the table a schema cell describes: its leaves in
/// discovery order, each leaf's rows in cell order, filtered and
/// projected.
pub open spec fn spec_full_table_scan(
    db: Seq<u8>,
    ps: int,
    c: Cell,
    sel: Seq<Vec<u8>>,
    cols: Seq<Vec<u8>>,
    f: Filter,
) -> Result<Seq<Seq<u8>>, Error> {
    match spec_first_page(db, ps, c) {
        Err(e) => Err(e),
        Ok(p) => match spec_leaves_for_table(db, ps, p.0, p.1) {
            Err(e) => Err(e),
            Ok(lvs) => match spec_column_positions(sel, cols) {
                Err(e) => Err(e),
                Ok(positions) => concat_leaf_rows(lvs, f, positions),
            },
        },
    }
}

/// Scans the whole table: emits one projected row per cell that passes
/// the filter, in leaf-discovery order.
#[verifier::loop_isolation(false)]
pub fn perform_full_table_scan(
    root_page_cell: &Cell,
    builder: &PageReaderBuilder,
    select_col_names: &Vec<Vec<u8>>,
    table_query_details: &crate::parser::QueryDetails,
    filter: &Filter,
) -> (r: Result<Vec<Vec<u8>>, Error>)
    ensures
        match spec_full_table_scan(
            builder.db@,
            builder.page_size as int,
            *root_page_cell,
            select_col_names@,
            table_query_details.stmt.columns@,
            *filter,
        ) {
            Ok(rs) => r matches Ok(v) && v@.len() == rs.len() && (forall|i: int|
                0 <= i < rs.len() ==> (#[trigger] v@[i])@ == rs[i]),
            Err(e) => r == Err::<Vec<Vec<u8>>, Error>(e),
        },
{
    let ghost db = builder.db@;
    let ghost psi = builder.page_size as int;
    let ghost f = *filter;
    let (page_no, page) = match fetch_table_first_page(root_page_cell, builder) {
        Ok(p) => p,
        Err(e) => {
            return Err(e);
        },
    };
    let page_num_and_page = match fetch_all_leaves_for_table(page, builder, page_no) {
        Ok(v) => v,
        Err(e) => {
            return Err(e);
        },
    };
    let col_positions = match get_column_position(select_col_names, &table_query_details.stmt.columns) {
        Ok(v) => v,
        Err(e) => {
            return Err(e);
        },
    };
    let ghost lvs = spec_leaves_for_table(
        db,
        psi,
        spec_first_page(db, psi, *root_page_cell)->Ok_0.0,
        spec_first_page(db, psi, *root_page_cell)->Ok_0.1,
    )->Ok_0;
    let ghost positions = col_positions@;
    let mut out: Vec<Vec<u8>> = Vec::new();
    let ghost mut acc: Seq<Seq<u8>> = Seq::empty();
    let mut i: usize = 0;
    let len = page_num_and_page.len();
    proof {
        assert(lvs.skip(0) =~= lvs);
        if concat_leaf_rows(lvs, f, positions) is Ok {
            assert(acc.add(concat_leaf_rows(lvs, f, positions)->Ok_0) =~= concat_leaf_rows(
                lvs,
                f,
                positions,
            )->Ok_0);
        }
    }
    while i < len
        invariant
            i <= len,
            len == page_num_and_page@.len(),
            leaves_match(page_num_and_page@, lvs),
            f == *filter,
            positions == col_positions@,
            out@.len() == acc.len(),
            forall|t: int| 0 <= t < acc.len() ==> (#[trigger] out@[t])@ == acc[t],
            match concat_leaf_rows(lvs.skip(i as int), f, positions) {
                Ok(rest) => concat_leaf_rows(lvs, f, positions) == Ok::<Seq<Seq<u8>>, Error>(
                    acc.add(rest),
                ),
                Err(e) => concat_leaf_rows(lvs, f, positions) == Err::<Seq<Seq<u8>>, Error>(e),
            },
        decreases len - i,
    {
        proof {
            assert(lvs.skip(i as int)[0] == lvs[i as int]);
            assert(lvs.skip(i as int).skip(1) =~= lvs.skip(i as int + 1));
            lemma_table_data_matches(page_num_and_page@[i as int].1, lvs[i as int].1, f, positions);
        }
        let mut unique_rows_sub = match fetch_table_data(
            &col_positions,
            &page_num_and_page[i],
            filter,
        ) {
            Ok(v) => v,
            Err(e) => {
                return Err(e);
            },
        };
        let ghost rs = model_table_data(lvs[i as int].1, f, positions)->Ok_0;
        let ghost out_old = out@;
        let ghost sub = unique_rows_sub@;
        out.append(&mut unique_rows_sub);
        proof {
            let acc_old = acc;
            acc = acc.add(rs);
            assert(out@.len() == acc.len());
            assert forall|t: int| 0 <= t < acc.len() implies (#[trigger] out@[t])@ == acc[t] by {
                if t < acc_old.len() {
                    assert(out@[t] == out_old[t]);
                } else {
                    assert(out@[t] == sub[t - acc_old.len()]);
                    assert(acc[t] == rs[t - acc_old.len()]);
                }
            }
            if concat_leaf_rows(lvs.skip(i as int + 1), f, positions) is Ok {
                let rest = concat_leaf_rows(lvs.skip(i as int + 1), f, positions)->Ok_0;
                assert(acc_old.add(rs.add(rest)) =~= acc.add(rest));
            }
        }
        i = i + 1;
    }
    proof {
        assert(lvs.skip(len as int) =~= Seq::<(int, PageModel)>::empty());
        assert(acc.add(Seq::<Seq<u8>>::empty()) =~= acc);
    }
    Ok(out)
}

// ---------------------------------------------------------------------------
// Scan completeness
// ---------------------------------------------------------------------------

/// A table-leaf page's cell list is exactly as long as its pointer array.
proof fn lemma_parse_cells_tblleaf_len(s: Seq<u8>, ptrs: Seq<int>)
    requires
        crate::page_reader::parse_cells(s, PageType::TblLeaf, ptrs) is Ok,
    ensures
        crate::page_reader::parse_cells(s, PageType::TblLeaf, ptrs)->Ok_0.len() == ptrs.len(),
    decreases ptrs.len(),
{
    if ptrs.len() > 0 {
        lemma_parse_cells_tblleaf_len(s, ptrs.skip(1));
    }
}

/// A decoded table-leaf page holds exactly `cell_count` cells.
proof fn lemma_page_cellcount(s: Seq<u8>, page1: bool)
    requires
        crate::page_reader::spec_page(s, page1) matches Ok(pm) && pm.header.page_type
            == PageType::TblLeaf,
    ensures
        crate::page_reader::spec_page(s, page1)->Ok_0.cells.len() == crate::page_reader::spec_page(
            s,
            page1,
        )->Ok_0.header.cell_count,
{
    let base: int = if page1 {
        100
    } else {
        0
    };
    let meta = crate::page::spec_page_meta(s[base]);
    let header = crate::page_reader::spec_page_header(s, base);
    let ptrs = crate::page_reader::cell_ptrs(s, base + meta.page_header_size, header.cell_count as int)->Ok_0;
    lemma_parse_cells_tblleaf_len(s, ptrs);
}

/// With no filter, every cell of a leaf run contributes one row.
proof fn lemma_rows_len_nofilter(ms: Seq<CellModel>, f: Filter, positions: Seq<usize>)
    requires
        f.filter_col_pos == -1,
        model_rows_of_cells(ms, f, positions) is Ok,
    ensures
        model_rows_of_cells(ms, f, positions)->Ok_0.len() == ms.len(),
    decreases ms.len(),
{
    if ms.len() > 0 {
        lemma_rows_len_nofilter(ms.skip(1), f, positions);
    }
}

/// Every leaf the walk collects was read from its page number and is a
/// table leaf.
proof fn lemma_bfs_pages_read(
    db: Seq<u8>,
    ps: int,
    pending: Seq<int>,
    queue: Seq<(int, PageModel)>,
    visited: Seq<bool>,
    fuel: nat,
)
    requires
        spec_bfs(db, ps, pending, queue, visited, fuel) is Ok,
    ensures
        forall|i: int|
            0 <= i < spec_bfs(db, ps, pending, queue, visited, fuel)->Ok_0.len() ==> {
                let lv = #[trigger] spec_bfs(db, ps, pending, queue, visited, fuel)->Ok_0[i];
                spec_read_page(db, ps, lv.0) == Ok::<PageModel, Error>(lv.1)
                    && lv.1.header.page_type == PageType::TblLeaf
            },
    decreases fuel, queue.len(), pending.len(),
{
    if pending.len() > 0 {
        let c = pending[0];
        if 1 <= c && c - 1 < visited.len() && visited[c - 1] {
            lemma_bfs_pages_read(db, ps, pending.skip(1), queue, visited, fuel);
        } else {
            let pm = spec_read_page(db, ps, c)->Ok_0;
            let visited2 = visited.update(c - 1, true);
            if pm.header.page_type == PageType::TblLeaf {
                lemma_bfs_pages_read(db, ps, pending.skip(1), queue, visited2, (fuel - 1) as nat);
            } else {
                lemma_bfs_pages_read(
                    db,
                    ps,
                    pending.skip(1),
                    queue.push((c, pm)),
                    visited2,
                    (fuel - 1) as nat,
                );
            }
        }
    } else if queue.len() > 0 {
        let cs = children_of(queue[0].1)->Ok_0;
        lemma_bfs_pages_read(db, ps, cs, queue.skip(1), visited, fuel);
    }
}

/// The sum over a leaf list decomposes at its head.
proof fn lemma_sum_cell_counts_front(lvs: Seq<(int, PageModel)>)
    requires
        lvs.len() > 0,
    ensures
        sum_cell_counts(lvs) == lvs[0].1.header.cell_count + sum_cell_counts(lvs.skip(1)),
    decreases lvs.len(),
{
    if lvs.len() == 1 {
        assert(lvs.drop_last().len() == 0);
        assert(lvs.skip(1).len() == 0);
        assert(sum_cell_counts(lvs.drop_last()) == 0);
        assert(sum_cell_counts(lvs.skip(1)) == 0);
        assert(lvs.last() == lvs[0]);
    } else {
        lemma_sum_cell_counts_front(lvs.drop_last());
        assert(lvs.drop_last().skip(1) =~= lvs.skip(1).drop_last());
        assert(lvs.skip(1).last() == lvs.last());
        assert(lvs.drop_last()[0] == lvs[0]);
    }
}

/// With no filter, the concatenated rows of a leaf list are exactly as
/// many as the sum of the leaves' cell counts.
proof fn lemma_concat_len(
    db: Seq<u8>,
    ps: int,
    lvs: Seq<(int, PageModel)>,
    f: Filter,
    positions: Seq<usize>,
)
    requires
        f.filter_col_pos == -1,
        concat_leaf_rows(lvs, f, positions) is Ok,
        forall|i: int|
            0 <= i < lvs.len() ==> spec_read_page(db, ps, (#[trigger] lvs[i]).0) == Ok::<
                PageModel,
                Error,
            >(lvs[i].1),
    ensures
        concat_leaf_rows(lvs, f, positions)->Ok_0.len() == sum_cell_counts(lvs),
    decreases lvs.len(),
{
    if lvs.len() > 0 {
        let pm = lvs[0].1;
        assert(spec_read_page(db, ps, lvs[0].0) == Ok::<PageModel, Error>(pm));
        assert(model_table_data(pm, f, positions) is Ok);
        assert(pm.header.page_type == PageType::TblLeaf);
        let b = crate::page_reader::spec_page_bytes(db, ps, lvs[0].0)->Ok_0;
        lemma_page_cellcount(b, lvs[0].0 == 1);
        lemma_rows_len_nofilter(pm.cells, f, positions);
        lemma_sum_cell_counts_front(lvs);
        assert(forall|i: int|
            0 <= i < lvs.skip(1).len() ==> spec_read_page(db, ps, (#[trigger] lvs.skip(1)[i]).0)
                == Ok::<PageModel, Error>(lvs.skip(1)[i].1));
        lemma_concat_len(db, ps, lvs.skip(1), f, positions);
    }
}

/// Scan completeness: with no filter, a full scan of a table emits
/// exactly as many rows as the count query returns.
pub proof fn lemma_scan_completeness(
    db: Seq<u8>,
    ps: int,
    c: Cell,
    sel: Seq<Vec<u8>>,
    cols: Seq<Vec<u8>>,
    f: Filter,
)
    requires
        f.filter_col_pos == -1,
        spec_full_table_scan(db, ps, c, sel, cols, f) is Ok,
        spec_count_all_rows(db, ps, c) is Ok,
    ensures
        spec_full_table_scan(db, ps, c, sel, cols, f)->Ok_0.len() == spec_count_all_rows(
            db,
            ps,
            c,
        )->Ok_0,
{
    let p = spec_first_page(db, ps, c)->Ok_0;
    let lvs = spec_leaves_for_table(db, ps, p.0, p.1)->Ok_0;
    let positions = spec_column_positions(sel, cols)->Ok_0;
    assert forall|i: int| 0 <= i < lvs.len() implies spec_read_page(db, ps, (#[trigger] lvs[i]).0)
        == Ok::<PageModel, Error>(lvs[i].1) by {
        if p.1.header.page_type == PageType::TblLeaf || p.1.header.page_type
            == PageType::IdxLeaf {
            assert(lvs == seq![(p.0, p.1)]);
        } else {
            lemma_bfs_pages_read(
                db,
                ps,
                Seq::empty(),
                seq![(p.0, p.1)],
                Seq::new((db.len() as int / ps) as nat, |t: int| false),
                (db.len() as int / ps) as nat,
            );
        }
    }
    lemma_concat_len(db, ps, lvs, f, positions);
}

// ---------------------------------------------------------------------------
// Index-assisted lookups
// ---------------------------------------------------------------------------

/// `cell_key`, over a raw cell.
pub open spec fn model_key(m: CellModel) -> Result<Seq<u8>, Error> {
    match m {
        CellModel::TableLeaf { row_id, .. } => Ok(int_text(i64_of_u64bits(row_id))),
        CellModel::TableInt { row_id, .. } => Ok(int_text(i64_of_u64bits(row_id))),
        CellModel::IdxLeaf { record, .. } => if model_rows(record).len() == 0 {
            Err(Error::CorruptRecord)
        } else {
            Ok(model_rows(record)[0])
        },
        CellModel::IdxInt { record, .. } => if model_rows(record).len() == 0 {
            Err(Error::CorruptRecord)
        } else {
            Ok(model_rows(record)[0])
        },
    }
}

pub open spec fn model_keys(ms: Seq<CellModel>) -> Seq<Result<Seq<u8>, Error>> {
    Seq::new(ms.len(), |i: int| model_key(ms[i]))
}

pub proof fn lemma_cell_key_matches(c: Cell, m: CellModel)
    requires
        cell_matches(c, m),
    ensures
        cell_key(c) == model_key(m),
{
    match m {
        CellModel::IdxLeaf { record, .. } => {
            let x = c->IdxLeaf_0;
            lemma_rows_view_matches(x.record, record);
            assert(rows_view(x.record).len() == x.record.rows@.len());
            if x.record.rows@.len() > 0 {
                assert(rows_view(x.record)[0] == x.record.rows@[0]@);
            }
        },
        CellModel::IdxInt { record, .. } => {
            let x = c->IdxInt_0;
            lemma_rows_view_matches(x.record, record);
            assert(rows_view(x.record).len() == x.record.rows@.len());
            if x.record.rows@.len() > 0 {
                assert(rows_view(x.record)[0] == x.record.rows@[0]@);
            }
        },
        _ => {},
    }
}

pub proof fn lemma_keys_match(cs: Seq<Cell>, ms: Seq<CellModel>)
    requires
        cells_match(cs, ms),
    ensures
        keys_of(cs) == model_keys(ms),
{
    assert forall|i: int| 0 <= i < ms.len() implies keys_of(cs)[i] == model_keys(ms)[i] by {
        lemma_cell_key_matches(cs[i], ms[i]);
    }
    assert(keys_of(cs) =~= model_keys(ms));
}

/// `payload_id_of`, over a raw cell.
pub open spec fn model_payload_id(m: CellModel) -> Result<(Seq<u8>, Seq<u8>), Error> {
    match m {
        CellModel::TableInt { .. } => Err(Error::CorruptRecord),
        CellModel::TableLeaf { record, .. } => model_first_two(record),
        CellModel::IdxLeaf { record, .. } => model_first_two(record),
        CellModel::IdxInt { record, .. } => model_first_two(record),
    }
}

pub open spec fn model_first_two(m: RecordModel) -> Result<(Seq<u8>, Seq<u8>), Error> {
    if model_rows(m).len() < 2 {
        Err(Error::CorruptRecord)
    } else {
        Ok((model_rows(m)[0], model_rows(m)[1]))
    }
}

pub proof fn lemma_payload_id_matches(c: Cell, m: CellModel)
    requires
        cell_matches(c, m),
    ensures
        payload_id_of(c) == model_payload_id(m),
{
    match m {
        CellModel::TableLeaf { record, .. } => {
            lemma_rows_view_matches(c->TableLeaf_0.record, record);
            lemma_first_two_eq(c->TableLeaf_0.record, record);
        },
        CellModel::IdxLeaf { record, .. } => {
            lemma_rows_view_matches(c->IdxLeaf_0.record, record);
            lemma_first_two_eq(c->IdxLeaf_0.record, record);
        },
        CellModel::IdxInt { record, .. } => {
            lemma_rows_view_matches(c->IdxInt_0.record, record);
            lemma_first_two_eq(c->IdxInt_0.record, record);
        },
        _ => {},
    }
}

proof fn lemma_first_two_eq(r: Record, m: RecordModel)
    requires
        rows_view(r) == model_rows(m),
    ensures
        first_two_rows(r) == model_first_two(m),
{
    assert(rows_view(r).len() == r.rows@.len());
    if r.rows@.len() >= 2 {
        assert(rows_view(r)[0] == r.rows@[0]@);
        assert(rows_view(r)[1] == r.rows@[1]@);
    }
}

/// Every key of the page reads cleanly and the page is ordered against
/// the literal: the precondition for a meaningful search.
pub open spec fn page_search_wf(ms: Seq<CellModel>, fv: FilterValue) -> bool {
    keys_ok(model_keys(ms), fv) && search_ordered(model_keys(ms), fv)
}

/// The left child of a raw interior cell.
pub open spec fn model_left_child(m: CellModel) -> Option<int> {
    match m {
        CellModel::TableInt { left_child, .. } => Some(left_child),
        CellModel::IdxInt { left_child, .. } => Some(left_child),
        _ => None,
    }
}

/// Checks that binary search over these cells is meaningful against the
/// literal: every key reads cleanly, every comparison is defined, and the
/// comparisons never rise again once they have fallen.
#[verifier::loop_isolation(false)]
fn check_search_wf(cells: &Vec<Cell>, filter_value: &FilterValue) -> (r: bool)
    ensures
        r == (keys_ok(keys_of(cells@), *filter_value) && search_ordered(
            keys_of(cells@),
            *filter_value,
        )),
{
    let ghost keys = keys_of(cells@);
    let ghost fv = *filter_value;
    let len = cells.len();
    let mut i: usize = 0;
    let mut prev_rank: u8 = 2;
    while i < len
        invariant
            i <= len,
            len == cells@.len(),
            keys == keys_of(cells@),
            fv == *filter_value,
            forall|t: int|
                0 <= t < i ==> (#[trigger] keys[t]) is Ok && spec_filter_cmp(
                    fv,
                    keys[t]->Ok_0,
                ) is Ok,
            forall|t1: int, t2: int|
                #![trigger cmp_at(keys, fv, t1), cmp_at(keys, fv, t2)]
                0 <= t1 < t2 < i ==> rank(cmp_at(keys, fv, t2)) <= rank(cmp_at(keys, fv, t1)),
            i > 0 ==> prev_rank == rank(cmp_at(keys, fv, i - 1)),
            i > 0 ==> forall|t: int|
                0 <= t < i ==> prev_rank <= rank(#[trigger] cmp_at(keys, fv, t)),
        decreases len - i,
    {
        let payload = match cell_payload(&cells[i]) {
            Ok(p) => p,
            Err(_) => {
                proof {
                    if keys_ok(keys, fv) {
                        assert(keys[i as int] is Ok);
                        assert(false);
                    }
                }
                return false;
            },
        };
        let o = match filter_cmp(filter_value, &payload) {
            Ok(o) => o,
            Err(_) => {
                proof {
                    if keys_ok(keys, fv) {
                        assert(keys[i as int] is Ok);
                        assert(spec_filter_cmp(fv, keys[i as int]->Ok_0) is Ok);
                        assert(false);
                    }
                }
                return false;
            },
        };
        let rk: u8 = match o {
            KeyOrdering::Less => 0,
            KeyOrdering::Equal => 1,
            KeyOrdering::Greater => 2,
        };
        proof {
            assert(keys[i as int] == cell_key(cells@[i as int]));
            assert(o == cmp_at(keys, fv, i as int));
            assert(rk == rank(cmp_at(keys, fv, i as int)));
        }
        if i > 0 && rk > prev_rank {
            proof {
                if search_ordered(keys, fv) {
                    assert(rank(cmp_at(keys, fv, i as int)) <= rank(
                        cmp_at(keys, fv, i - 1 as int),
                    ));
                    assert(false);
                }
            }
            return false;
        }
        proof {
            assert forall|t1: int, t2: int|
                #![trigger cmp_at(keys, fv, t1), cmp_at(keys, fv, t2)]
                0 <= t1 < t2 < i + 1 implies rank(cmp_at(keys, fv, t2)) <= rank(
                cmp_at(keys, fv, t1),
            ) by {
                if t2 == i {
                    if i > 0 {
                        assert(prev_rank <= rank(cmp_at(keys, fv, t1)));
                    }
                }
            }
        }
        prev_rank = rk;
        i = i + 1;
    }
    true
}

// ---------------------------------------------------------------------------
// Merging row-id runs
// ---------------------------------------------------------------------------

/// The numeric merge of two row-id lists: the smaller row id goes first,
/// the left list winning ties. An id that is not decimal text cannot be
/// placed and is an error.
pub open spec fn merge_ids(a: Seq<Seq<u8>>, b: Seq<Seq<u8>>) -> Result<Seq<Seq<u8>>, Error>
    decreases a.len() + b.len(),
{
    if a.len() == 0 {
        Ok(b)
    } else if b.len() == 0 {
        Ok(a)
    } else {
        match (parse_i64(a[0]), parse_i64(b[0])) {
            (Some(x), Some(y)) => if x <= y {
                match merge_ids(a.skip(1), b) {
                    Err(e) => Err(e),
                    Ok(rest) => Ok(seq![a[0]].add(rest)),
                }
            } else {
                match merge_ids(a, b.skip(1)) {
                    Err(e) => Err(e),
                    Ok(rest) => Ok(seq![b[0]].add(rest)),
                }
            },
            _ => Err(Error::CorruptRecord),
        }
    }
}

/// Every id parses, and the parsed values never decrease.
pub open spec fn ids_ascending(ids: Seq<Seq<u8>>) -> bool {
    &&& forall|t: int| 0 <= t < ids.len() ==> (#[trigger] parse_i64(ids[t])) is Some
    &&& forall|t1: int, t2: int|
        #![trigger parse_i64(ids[t1]), parse_i64(ids[t2])]
        0 <= t1 < t2 < ids.len() ==> parse_i64(ids[t1])->Some_0 <= parse_i64(ids[t2])->Some_0
}

proof fn lemma_ascending_skip(ids: Seq<Seq<u8>>)
    requires
        ids_ascending(ids),
        ids.len() > 0,
    ensures
        ids_ascending(ids.skip(1)),
{
    let tail = ids.skip(1);
    assert forall|t: int| 0 <= t < tail.len() implies (#[trigger] parse_i64(tail[t])) is Some by {
        assert(tail[t] == ids[t + 1]);
        assert(parse_i64(ids[t + 1]) is Some);
    }
    assert forall|t1: int, t2: int|
        #![trigger parse_i64(tail[t1]), parse_i64(tail[t2])]
        0 <= t1 < t2 < tail.len() implies parse_i64(tail[t1])->Some_0 <= parse_i64(
        tail[t2],
    )->Some_0 by {
        assert(tail[t1] == ids[t1 + 1]);
        assert(tail[t2] == ids[t2 + 1]);
        assert(parse_i64(ids[t1 + 1])->Some_0 <= parse_i64(ids[t2 + 1])->Some_0);
    }
}

/// Merging keeps order: two ascending row-id runs merge into one
/// ascending run holding all their entries. This is the emission order an
/// indexed scan owes: ascending key, ties by ascending row id.
pub proof fn lemma_merge_keeps_order(a: Seq<Seq<u8>>, b: Seq<Seq<u8>>)
    requires
        ids_ascending(a),
        ids_ascending(b),
    ensures
        merge_ids(a, b) matches Ok(m) && {
            &&& m.len() == a.len() + b.len()
            &&& ids_ascending(m)
            &&& m.len() > 0 ==> ((a.len() > 0 && m[0] == a[0]) || (b.len() > 0 && m[0] == b[0]))
        },
    decreases a.len() + b.len(),
{
    if a.len() == 0 || b.len() == 0 {
    } else {
        let x = parse_i64(a[0])->Some_0;
        let y = parse_i64(b[0])->Some_0;
        if x <= y {
            lemma_ascending_skip(a);
            lemma_merge_keeps_order(a.skip(1), b);
            let rest = merge_ids(a.skip(1), b)->Ok_0;
            let m = seq![a[0]].add(rest);
            assert(merge_ids(a, b) == Ok::<Seq<Seq<u8>>, Error>(m));
            assert forall|t: int| 0 <= t < m.len() implies (#[trigger] parse_i64(m[t])) is Some by {
                if t > 0 {
                    assert(m[t] == rest[t - 1]);
                    assert(parse_i64(rest[t - 1]) is Some);
                }
            }
            assert forall|t1: int, t2: int|
                #![trigger parse_i64(m[t1]), parse_i64(m[t2])]
                0 <= t1 < t2 < m.len() implies parse_i64(m[t1])->Some_0 <= parse_i64(
                m[t2],
            )->Some_0 by {
                if t1 == 0 {
                    assert(m[t2] == rest[t2 - 1]);
                    if rest.len() > 0 {
                        assert(parse_i64(rest[0])->Some_0 <= parse_i64(rest[t2 - 1])->Some_0 || t2
                            - 1 == 0);
                        if a.skip(1).len() > 0 && rest[0] == a.skip(1)[0] {
                            assert(a.skip(1)[0] == a[1]);
                            assert(x <= parse_i64(a[1])->Some_0);
                        } else {
                            assert(rest[0] == b[0]);
                        }
                    }
                } else {
                    assert(m[t1] == rest[t1 - 1]);
                    assert(m[t2] == rest[t2 - 1]);
                    assert(parse_i64(rest[t1 - 1])->Some_0 <= parse_i64(rest[t2 - 1])->Some_0);
                }
            }
        } else {
            lemma_ascending_skip(b);
            lemma_merge_keeps_order(a, b.skip(1));
            let rest = merge_ids(a, b.skip(1))->Ok_0;
            let m = seq![b[0]].add(rest);
            assert(merge_ids(a, b) == Ok::<Seq<Seq<u8>>, Error>(m));
            assert forall|t: int| 0 <= t < m.len() implies (#[trigger] parse_i64(m[t])) is Some by {
                if t > 0 {
                    assert(m[t] == rest[t - 1]);
                    assert(parse_i64(rest[t - 1]) is Some);
                }
            }
            assert forall|t1: int, t2: int|
                #![trigger parse_i64(m[t1]), parse_i64(m[t2])]
                0 <= t1 < t2 < m.len() implies parse_i64(m[t1])->Some_0 <= parse_i64(
                m[t2],
            )->Some_0 by {
                if t1 == 0 {
                    assert(m[t2] == rest[t2 - 1]);
                    if rest.len() > 0 {
                        assert(parse_i64(rest[0])->Some_0 <= parse_i64(rest[t2 - 1])->Some_0 || t2
                            - 1 == 0);
                        if a.len() > 0 && rest[0] == a[0] {
                            assert(y < x);
                        } else {
                            assert(rest[0] == b.skip(1)[0]);
                            assert(b.skip(1)[0] == b[1]);
                            assert(y <= parse_i64(b[1])->Some_0);
                        }
                    }
                } else {
                    assert(m[t1] == rest[t1 - 1]);
                    assert(m[t2] == rest[t2 - 1]);
                    assert(parse_i64(rest[t1 - 1])->Some_0 <= parse_i64(rest[t2 - 1])->Some_0);
                }
            }
        }
    }
}

/// Merges two row-id lists numerically, the left list winning ties.
#[verifier::loop_isolation(false)]
fn merge_record_ids(a: &Vec<Vec<u8>>, b: &Vec<Vec<u8>>) -> (r: Result<Vec<Vec<u8>>, Error>)
    ensures
        match merge_ids(vec_rows_view(a@), vec_rows_view(b@)) {
            Ok(m) => r matches Ok(v) && v@.len() == m.len() && (forall|t: int|
                0 <= t < m.len() ==> (#[trigger] v@[t])@ == m[t]),
            Err(e) => r == Err::<Vec<Vec<u8>>, Error>(e),
        },
{
    let ghost va = vec_rows_view(a@);
    let ghost vb = vec_rows_view(b@);
    let ghost full = merge_ids(va, vb);
    let alen = a.len();
    let blen = b.len();
    let mut i: usize = 0;
    let mut j: usize = 0;
    let mut out: Vec<Vec<u8>> = Vec::new();
    let ghost mut acc: Seq<Seq<u8>> = Seq::empty();
    proof {
        assert(va.skip(0) =~= va);
        assert(vb.skip(0) =~= vb);
        if full is Ok {
            assert(acc.add(full->Ok_0) =~= full->Ok_0);
        }
    }
    while i < alen && j < blen
        invariant
            i <= alen,
            j <= blen,
            alen == va.len(),
            blen == vb.len(),
            va == vec_rows_view(a@),
            vb == vec_rows_view(b@),
            full == merge_ids(va, vb),
            out@.len() == acc.len(),
            forall|t: int| 0 <= t < acc.len() ==> (#[trigger] out@[t])@ == acc[t],
            match merge_ids(va.skip(i as int), vb.skip(j as int)) {
                Ok(rest) => full == Ok::<Seq<Seq<u8>>, Error>(acc.add(rest)),
                Err(e) => full == Err::<Seq<Seq<u8>>, Error>(e),
            },
        decreases alen + blen - i - j,
    {
        proof {
            assert(va.skip(i as int)[0] == va[i as int]);
            assert(vb.skip(j as int)[0] == vb[j as int]);
            assert(va.skip(i as int).skip(1) =~= va.skip(i as int + 1));
            assert(vb.skip(j as int).skip(1) =~= vb.skip(j as int + 1));
            assert(va[i as int] == a@[i as int]@);
            assert(vb[j as int] == b@[j as int]@);
        }
        let x = match parse_i64_bytes(a[i].as_slice()) {
            Some(x) => x,
            None => {
                return Err(Error::CorruptRecord);
            },
        };
        let y = match parse_i64_bytes(b[j].as_slice()) {
            Some(y) => y,
            None => {
                return Err(Error::CorruptRecord);
            },
        };
        if x <= y {
            out.push(copy_bytes(&a[i]));
            proof {
                let acc_old = acc;
                acc = acc.push(va[i as int]);
                if merge_ids(va.skip(i as int + 1), vb.skip(j as int)) is Ok {
                    let rest = merge_ids(va.skip(i as int + 1), vb.skip(j as int))->Ok_0;
                    assert(acc_old.add(seq![va[i as int]].add(rest)) =~= acc.add(rest));
                }
            }
            i = i + 1;
        } else {
            out.push(copy_bytes(&b[j]));
            proof {
                let acc_old = acc;
                acc = acc.push(vb[j as int]);
                if merge_ids(va.skip(i as int), vb.skip(j as int + 1)) is Ok {
                    let rest = merge_ids(va.skip(i as int), vb.skip(j as int + 1))->Ok_0;
                    assert(acc_old.add(seq![vb[j as int]].add(rest)) =~= acc.add(rest));
                }
            }
            j = j + 1;
        }
    }
    while i < alen
        invariant
            i <= alen,
            j == blen || i == alen,
            j <= blen,
            alen == va.len(),
            blen == vb.len(),
            va == vec_rows_view(a@),
            vb == vec_rows_view(b@),
            full == merge_ids(va, vb),
            out@.len() == acc.len(),
            forall|t: int| 0 <= t < acc.len() ==> (#[trigger] out@[t])@ == acc[t],
            match merge_ids(va.skip(i as int), vb.skip(j as int)) {
                Ok(rest) => full == Ok::<Seq<Seq<u8>>, Error>(acc.add(rest)),
                Err(e) => full == Err::<Seq<Seq<u8>>, Error>(e),
            },
        decreases alen - i,
    {
        proof {
            assert(vb.skip(j as int).len() == 0);
            assert(merge_ids(va.skip(i as int), vb.skip(j as int)) == Ok::<Seq<Seq<u8>>, Error>(
                va.skip(i as int),
            ));
            assert(va.skip(i as int)[0] == va[i as int]);
            assert(va[i as int] == a@[i as int]@);
        }
        out.push(copy_bytes(&a[i]));
        proof {
            let acc_old = acc;
            acc = acc.push(va[i as int]);
            assert(acc_old.add(va.skip(i as int)) =~= acc.add(va.skip(i as int + 1)));
            if va.skip(i as int + 1).len() == 0 {
                assert(merge_ids(va.skip(i as int + 1), vb.skip(j as int)) == Ok::<
                    Seq<Seq<u8>>,
                    Error,
                >(vb.skip(j as int)));
                assert(acc.add(vb.skip(j as int)) =~= acc.add(va.skip(i as int + 1)));
            } else {
                assert(merge_ids(va.skip(i as int + 1), vb.skip(j as int)) == Ok::<
                    Seq<Seq<u8>>,
                    Error,
                >(va.skip(i as int + 1)));
            }
        }
        i = i + 1;
    }
    while j < blen
        invariant
            i == alen,
            j <= blen,
            alen == va.len(),
            blen == vb.len(),
            va == vec_rows_view(a@),
            vb == vec_rows_view(b@),
            full == merge_ids(va, vb),
            out@.len() == acc.len(),
            forall|t: int| 0 <= t < acc.len() ==> (#[trigger] out@[t])@ == acc[t],
            match merge_ids(va.skip(i as int), vb.skip(j as int)) {
                Ok(rest) => full == Ok::<Seq<Seq<u8>>, Error>(acc.add(rest)),
                Err(e) => full == Err::<Seq<Seq<u8>>, Error>(e),
            },
        decreases blen - j,
    {
        proof {
            assert(va.skip(i as int).len() == 0);
            assert(merge_ids(va.skip(i as int), vb.skip(j as int)) == Ok::<Seq<Seq<u8>>, Error>(
                vb.skip(j as int),
            ));
            assert(vb.skip(j as int)[0] == vb[j as int]);
            assert(vb[j as int] == b@[j as int]@);
        }
        out.push(copy_bytes(&b[j]));
        proof {
            let acc_old = acc;
            acc = acc.push(vb[j as int]);
            assert(acc_old.add(vb.skip(j as int)) =~= acc.add(vb.skip(j as int + 1)));
            assert(merge_ids(va.skip(i as int), vb.skip(j as int + 1)) == Ok::<
                Seq<Seq<u8>>,
                Error,
            >(vb.skip(j as int + 1)));
        }
        j = j + 1;
    }
    proof {
        assert(va.skip(i as int).len() == 0);
        assert(vb.skip(j as int).len() == 0);
        assert(merge_ids(va.skip(i as int), vb.skip(j as int)) == Ok::<Seq<Seq<u8>>, Error>(
            vb.skip(j as int),
        ));
        assert(acc.add(vb.skip(j as int)) =~= acc);
    }
    Ok(out)
}

/// One descent decision on an interior index page: which child to enter,
/// and, when the separator key itself matches, its referenced row id.
pub open spec fn spec_descend_step(pm: PageModel, fv: FilterValue) -> Result<
    (Option<Seq<u8>>, int),
    Error,
> {
    if !page_search_wf(pm.cells, fv) {
        Err(Error::CorruptRecord)
    } else {
        match spec_search(model_keys(pm.cells), fv) {
            SearchResult::ThisPage(i) => match model_payload_id(pm.cells[i as int]) {
                Err(e) => Err(e),
                Ok(pid) => match model_left_child(pm.cells[i as int]) {
                    None => Err(Error::CorruptBtree),
                    Some(child) => Ok((Some(pid.1), child)),
                },
            },
            SearchResult::LeftPage(i) => match model_left_child(pm.cells[i as int]) {
                None => Err(Error::CorruptBtree),
                Some(child) => Ok((None, child)),
            },
            SearchResult::RightPage => match pm.header.right_pointer {
                None => Err(Error::CorruptBtree),
                Some(rp) => Ok((None, rp as int)),
            },
        }
    }
}

/// Descends an index B-tree from an interior page to the leaf level. The
/// row id of every separator whose key equals the literal is kept aside,
/// deepest first: it is slotted into the emitted run afterwards, never
/// ahead of its left subtree's entries.
pub open spec fn spec_idx_descend(
    db: Seq<u8>,
    ps: int,
    no: int,
    pm: PageModel,
    fv: FilterValue,
    seps: Seq<Seq<u8>>,
    fuel: nat,
) -> Result<(Seq<Seq<u8>>, int, PageModel), Error>
    decreases fuel,
{
    if pm.header.page_type != PageType::IdxInt {
        Ok((seps, no, pm))
    } else if fuel == 0 {
        Err(Error::CorruptBtree)
    } else {
        match spec_descend_step(pm, fv) {
            Err(e) => Err(e),
            Ok(st) => match spec_read_page(db, ps, st.1) {
                Err(e) => Err(e),
                Ok(pm2) => spec_idx_descend(
                    db,
                    ps,
                    st.1,
                    pm2,
                    fv,
                    match st.0 {
                        Some(sp) => seq![sp].add(seps),
                        None => seps,
                    },
                    (fuel - 1) as nat,
                ),
            },
        }
    }
}

/// Performs one descent decision on a decoded interior index page,
/// keeping a matching separator's row id at the front of `sep_ids` and
/// returning the child page number to enter.
fn idx_step(
    page: &Page,
    filter_value: &FilterValue,
    sep_ids: &mut Vec<Vec<u8>>,
    Ghost(pm): Ghost<PageModel>,
) -> (r: Result<u32, Error>)
    requires
        page_matches(*page, pm),
    ensures
        match spec_descend_step(pm, *filter_value) {
            Ok(st) => {
                &&& r matches Ok(ch) && ch as int == st.1
                &&& vec_rows_view(final(sep_ids)@) == (match st.0 {
                    Some(sp) => seq![sp].add(vec_rows_view(old(sep_ids)@)),
                    None => vec_rows_view(old(sep_ids)@),
                })
            },
            Err(e) => r == Err::<u32, Error>(e) && final(sep_ids)@ == old(sep_ids)@,
        },
{
    let ghost fv = *filter_value;
    proof {
        lemma_keys_match(page.cells@, pm.cells);
    }
    if !check_search_wf(&page.cells, filter_value) {
        return Err(Error::CorruptRecord);
    }
    let res = match bin_search_payload(&page.cells, filter_value) {
        Ok(sr) => sr,
        Err(e) => {
            proof {
                assert(false);
            }
            return Err(e);
        },
    };
    match res {
        SearchResult::ThisPage(i) => {
            proof {
                assert(cell_matches(page.cells@[i as int], pm.cells[i as int]));
                lemma_payload_id_matches(page.cells@[i as int], pm.cells[i as int]);
            }
            let (_, row_id) = match get_payload_id(&page.cells[i]) {
                Ok(p) => p,
                Err(e) => {
                    return Err(e);
                },
            };
            match page.cells[i].left_child_page_no() {
                Some(ch) => {
                    let ghost old_view = vec_rows_view(sep_ids@);
                    sep_ids.insert(0, row_id);
                    proof {
                        assert(vec_rows_view(sep_ids@) =~= seq![
                            model_payload_id(pm.cells[i as int])->Ok_0.1,
                        ].add(old_view));
                    }
                    Ok(ch)
                },
                None => Err(Error::CorruptBtree),
            }
        },
        SearchResult::LeftPage(i) => match page.cells[i].left_child_page_no() {
            Some(ch) => Ok(ch),
            None => Err(Error::CorruptBtree),
        },
        SearchResult::RightPage => match page.page_header.right_pointer {
            Some(rp) => Ok(rp),
            None => Err(Error::CorruptBtree),
        },
    }
}

/// Scans one leaf page's cells from `i` on, collecting referenced row
/// ids while the keys equal the literal; stops at the first greater key.
pub open spec fn spec_scan_cells(
    ms: Seq<CellModel>,
    fv: FilterValue,
    i: int,
    ids: Seq<Seq<u8>>,
) -> Result<(Seq<Seq<u8>>, bool), Error>
    decreases ms.len() - i,
{
    if i < 0 || i >= ms.len() {
        Ok((ids, false))
    } else {
        match model_payload_id(ms[i]) {
            Err(e) => Err(e),
            Ok(pid) => match spec_filter_cmp(fv, pid.0) {
                Err(e) => Err(e),
                Ok(o) => if o == KeyOrdering::Less {
                    Ok((ids, true))
                } else {
                    spec_scan_cells(ms, fv, i + 1, ids.push(pid.1))
                },
            },
        }
    }
}

/// Scans forward across leaf pages by ascending page number until a key
/// greater than the literal stops the scan.
pub open spec fn spec_scan_pages(
    db: Seq<u8>,
    ps: int,
    no: int,
    pm: PageModel,
    fv: FilterValue,
    start: int,
    ids: Seq<Seq<u8>>,
    fuel: nat,
) -> Result<Seq<Seq<u8>>, Error>
    decreases fuel,
{
    match spec_scan_cells(pm.cells, fv, start, ids) {
        Err(e) => Err(e),
        Ok(res) => if res.1 {
            Ok(res.0)
        } else if fuel == 0 {
            Err(Error::CorruptBtree)
        } else if no + 1 > 0xFFFFFFFF {
            Err(Error::OutOfRange)
        } else {
            match spec_read_page(db, ps, no + 1) {
                Err(e) => Err(e),
                Ok(pm2) => spec_scan_pages(db, ps, no + 1, pm2, fv, 0, res.0, (fuel - 1) as nat),
            }
        },
    }
}

/// The row ids an indexed lookup collects: descend to the first leaf
/// entry at or past the literal, range-scan forward while keys stay
/// equal, then slot the matching separators in by row id. When no leaf
/// entry matches, the matching separators alone remain.
pub open spec fn spec_indexed_rows_from(
    db: Seq<u8>,
    ps: int,
    no: int,
    pm: PageModel,
    fv: FilterValue,
    seps: Seq<Seq<u8>>,
    fuel: nat,
    fuel0: nat,
) -> Result<Seq<Seq<u8>>, Error> {
    match spec_idx_descend(db, ps, no, pm, fv, seps, fuel) {
        Err(e) => Err(e),
        Ok(res) => if !page_search_wf(res.2.cells, fv) {
            Err(Error::CorruptRecord)
        } else {
            match spec_search(model_keys(res.2.cells), fv) {
                SearchResult::ThisPage(i) => match spec_scan_pages(
                    db,
                    ps,
                    res.1,
                    res.2,
                    fv,
                    i as int,
                    Seq::empty(),
                    fuel0,
                ) {
                    Err(e) => Err(e),
                    Ok(leaf_ids) => merge_ids(leaf_ids, res.0),
                },
                _ => Ok(res.0),
            }
        },
    }
}

/// One descent step leaves the collected result unchanged.
proof fn lemma_rows_from_step(
    db: Seq<u8>,
    ps: int,
    no: int,
    pm: PageModel,
    fv: FilterValue,
    seps: Seq<Seq<u8>>,
    fuel: nat,
    fuel0: nat,
    st: (Option<Seq<u8>>, int),
    pm2: PageModel,
)
    requires
        pm.header.page_type == PageType::IdxInt,
        fuel > 0,
        spec_descend_step(pm, fv) == Ok::<(Option<Seq<u8>>, int), Error>(st),
        spec_read_page(db, ps, st.1) == Ok::<PageModel, Error>(pm2),
    ensures
        spec_indexed_rows_from(db, ps, no, pm, fv, seps, fuel, fuel0) == spec_indexed_rows_from(
            db,
            ps,
            st.1,
            pm2,
            fv,
            match st.0 {
                Some(sp) => seq![sp].add(seps),
                None => seps,
            },
            (fuel - 1) as nat,
            fuel0,
        ),
{
    assert(spec_idx_descend(db, ps, no, pm, fv, seps, fuel) == spec_idx_descend(
        db,
        ps,
        st.1,
        pm2,
        fv,
        match st.0 {
            Some(sp) => seq![sp].add(seps),
            None => seps,
        },
        (fuel - 1) as nat,
    ));
}

/// Taking one equal cell extends the ids and moves the scan forward.
proof fn lemma_scan_pages_push(
    db: Seq<u8>,
    ps: int,
    no: int,
    pm: PageModel,
    fv: FilterValue,
    i: int,
    ids: Seq<Seq<u8>>,
    fuel: nat,
)
    requires
        0 <= i < pm.cells.len(),
        model_payload_id(pm.cells[i]) is Ok,
        spec_filter_cmp(fv, model_payload_id(pm.cells[i])->Ok_0.0) matches Ok(o) && o
            != KeyOrdering::Less,
    ensures
        spec_scan_pages(db, ps, no, pm, fv, i, ids, fuel) == spec_scan_pages(
            db,
            ps,
            no,
            pm,
            fv,
            i + 1,
            ids.push(model_payload_id(pm.cells[i])->Ok_0.1),
            fuel,
        ),
{
    assert(spec_scan_cells(pm.cells, fv, i, ids) == spec_scan_cells(
        pm.cells,
        fv,
        i + 1,
        ids.push(model_payload_id(pm.cells[i])->Ok_0.1),
    ));
}

/// A greater key ends the scan with the ids collected so far.
proof fn lemma_scan_pages_stop(
    db: Seq<u8>,
    ps: int,
    no: int,
    pm: PageModel,
    fv: FilterValue,
    i: int,
    ids: Seq<Seq<u8>>,
    fuel: nat,
)
    requires
        0 <= i < pm.cells.len(),
        model_payload_id(pm.cells[i]) is Ok,
        spec_filter_cmp(fv, model_payload_id(pm.cells[i])->Ok_0.0) == Ok::<KeyOrdering, Error>(
            KeyOrdering::Less,
        ),
    ensures
        spec_scan_pages(db, ps, no, pm, fv, i, ids, fuel) == Ok::<Seq<Seq<u8>>, Error>(ids),
{
    assert(spec_scan_cells(pm.cells, fv, i, ids) == Ok::<(Seq<Seq<u8>>, bool), Error>(
        (ids, true),
    ));
}

/// A scan that exhausts a page moves to the next page number.
proof fn lemma_scan_pages_advance(
    db: Seq<u8>,
    ps: int,
    no: int,
    pm: PageModel,
    fv: FilterValue,
    i: int,
    ids: Seq<Seq<u8>>,
    fuel: nat,
    pm2: PageModel,
)
    requires
        i >= pm.cells.len(),
        i >= 0,
        fuel > 0,
        no + 1 <= 0xFFFFFFFF,
        spec_read_page(db, ps, no + 1) == Ok::<PageModel, Error>(pm2),
    ensures
        spec_scan_pages(db, ps, no, pm, fv, i, ids, fuel) == spec_scan_pages(
            db,
            ps,
            no + 1,
            pm2,
            fv,
            0,
            ids,
            (fuel - 1) as nat,
        ),
{
    assert(spec_scan_cells(pm.cells, fv, i, ids) == Ok::<(Seq<Seq<u8>>, bool), Error>(
        (ids, false),
    ));
}

pub open spec fn spec_fetch_indexed_rows(
    db: Seq<u8>,
    ps: int,
    no: int,
    pm: PageModel,
    fv: FilterValue,
) -> Result<Seq<Seq<u8>>, Error> {
    if ps <= 0 {
        Err(Error::CorruptPage)
    } else {
        spec_indexed_rows_from(
            db,
            ps,
            no,
            pm,
            fv,
            Seq::empty(),
            (db.len() as int / ps) as nat,
            (db.len() as int / ps) as nat,
        )
    }
}

/// Reads and decodes one page of the database image.
fn read_page_at(builder: &PageReaderBuilder, no: u32) -> (r: Result<Page, Error>)
    ensures
        match spec_read_page(builder.db@, builder.page_size as int, no as int) {
            Ok(pm) => r matches Ok(p) && page_matches(p, pm),
            Err(e) => r == Err::<Page, Error>(e),
        },
{
    let mut reader = match builder.new_reader(no) {
        Ok(rd) => rd,
        Err(e) => {
            return Err(e);
        },
    };
    match reader.read_page() {
        Ok(p) => Ok(p),
        Err(e) => Err(e),
    }
}

/// Examines one leaf cell during a range scan: stops on a greater key,
/// otherwise collects the referenced row id.
fn scan_cell_step(
    page: &Page,
    cell_idx: usize,
    filter_value: &FilterValue,
    record_ids: &mut Vec<Vec<u8>>,
    Ghost(pm): Ghost<PageModel>,
) -> (r: Result<bool, Error>)
    requires
        page_matches(*page, pm),
        cell_idx < page.cells@.len(),
    ensures
        old(record_ids)@.len() <= final(record_ids)@.len(),
        forall|t: int|
            0 <= t < old(record_ids)@.len() ==> final(record_ids)@[t] == old(record_ids)@[t],
        ({
            let pid = model_payload_id(pm.cells[cell_idx as int]);
            match pid {
                Err(e) => r == Err::<bool, Error>(e) && final(record_ids)@ == old(record_ids)@,
                Ok(p) => match spec_filter_cmp(*filter_value, p.0) {
                    Err(e) => r == Err::<bool, Error>(e) && final(record_ids)@ == old(
                        record_ids,
                    )@,
                    Ok(o) => if o == KeyOrdering::Less {
                        r == Ok::<bool, Error>(true) && final(record_ids)@ == old(record_ids)@
                    } else {
                        r == Ok::<bool, Error>(false) && vec_rows_view(final(record_ids)@)
                            == vec_rows_view(old(record_ids)@).push(p.1)
                    },
                },
            }
        }),
{
    proof {
        assert(cell_matches(page.cells@[cell_idx as int], pm.cells[cell_idx as int]));
        lemma_payload_id_matches(page.cells@[cell_idx as int], pm.cells[cell_idx as int]);
    }
    let (payload, row_id) = match get_payload_id(&page.cells[cell_idx]) {
        Ok(p) => p,
        Err(e) => {
            return Err(e);
        },
    };
    let o = match filter_cmp(filter_value, &payload) {
        Ok(o) => o,
        Err(e) => {
            return Err(e);
        },
    };
    if o == KeyOrdering::Less {
        return Ok(true);
    }
    let ghost ids_old = vec_rows_view(record_ids@);
    record_ids.push(row_id);
    proof {
        assert(vec_rows_view(record_ids@) =~= ids_old.push(
            model_payload_id(pm.cells[cell_idx as int])->Ok_0.1,
        ));
    }
    Ok(false)
}

/// Walks the index B-tree for the filter literal and collects the row
/// ids of every matching index entry: the leaf run in stored order, with
/// matching interior separators slotted in by row id, so a separator
/// never precedes its own left subtree's entries. The result is exactly
/// what the walk's specification yields, error for error.
#[verifier::rlimit(100)]
pub fn fetch_indexed_rows(
    root_index_page_no: u32,
    root_index_page: Page,
    builder: &PageReaderBuilder,
    filter_value: &FilterValue,
) -> (r: Result<Vec<Vec<u8>>, Error>)
    requires
        spec_read_page(
            builder.db@,
            builder.page_size as int,
            root_index_page_no as int,
        ) matches Ok(pm) && page_matches(root_index_page, pm),
    ensures
        match spec_fetch_indexed_rows(
            builder.db@,
            builder.page_size as int,
            root_index_page_no as int,
            spec_read_page(
                builder.db@,
                builder.page_size as int,
                root_index_page_no as int,
            )->Ok_0,
            *filter_value,
        ) {
            Ok(ids) => r matches Ok(v) && v@.len() == ids.len() && (forall|i: int|
                0 <= i < ids.len() ==> (#[trigger] v@[i])@ == ids[i]),
            Err(e) => r == Err::<Vec<Vec<u8>>, Error>(e),
        },
{
    let ghost db = builder.db@;
    let ghost psi = builder.page_size as int;
    let ghost fv = *filter_value;
    let ghost pm0 = spec_read_page(db, psi, root_index_page_no as int)->Ok_0;
    let ghost full = spec_fetch_indexed_rows(db, psi, root_index_page_no as int, pm0, fv);
    if builder.page_size == 0 {
        return Err(Error::CorruptPage);
    }
    let fuel0: u64 = (builder.db.len() as u64) / (builder.page_size as u64);
    let mut budget: u64 = fuel0;
    let mut page = root_index_page;
    let mut page_to_read: u32 = root_index_page_no;
    let mut sep_ids: Vec<Vec<u8>> = Vec::new();
    let ghost mut g_pm = pm0;
    proof {
        assert(vec_rows_view(sep_ids@) =~= Seq::<Seq<u8>>::empty());
    }
    while page.page_header.page_type == PageType::IdxInt
        invariant
            builder.db@ == db,
            builder.page_size as int == psi,
            psi >= 1,
            fuel0 == db.len() as int / psi,
            fv == *filter_value,
            page_matches(page, g_pm),
            full == spec_fetch_indexed_rows(
                db,
                psi,
                root_index_page_no as int,
                spec_read_page(db, psi, root_index_page_no as int)->Ok_0,
                fv,
            ),
            full == spec_indexed_rows_from(
                db,
                psi,
                page_to_read as int,
                g_pm,
                fv,
                vec_rows_view(sep_ids@),
                budget as nat,
                fuel0 as nat,
            ),
        decreases budget,
    {
        let ghost seps_cur = vec_rows_view(sep_ids@);
        if budget == 0 {
            proof {
                assert(spec_idx_descend(db, psi, page_to_read as int, g_pm, fv, seps_cur, 0)
                    == Err::<(Seq<Seq<u8>>, int, PageModel), Error>(Error::CorruptBtree));
            }
            return Err(Error::CorruptBtree);
        }
        let next = match idx_step(&page, filter_value, &mut sep_ids, Ghost(g_pm)) {
            Ok(ch) => ch,
            Err(e) => {
                proof {
                    assert(spec_descend_step(g_pm, fv) == Err::<(Option<Seq<u8>>, int), Error>(
                        e,
                    ));
                }
                return Err(e);
            },
        };
        let ghost st = spec_descend_step(g_pm, fv)->Ok_0;
        let mut reader = match builder.new_reader(next) {
            Ok(rd) => rd,
            Err(e) => {
                proof {
                    assert(spec_read_page(db, psi, next as int) == Err::<PageModel, Error>(e));
                }
                return Err(e);
            },
        };
        page = match reader.read_page() {
            Ok(p) => p,
            Err(e) => {
                proof {
                    assert(spec_read_page(db, psi, next as int) == Err::<PageModel, Error>(e));
                }
                return Err(e);
            },
        };
        proof {
            assert(spec_read_page(db, psi, next as int) is Ok);
            let g_old = g_pm;
            g_pm = spec_read_page(db, psi, next as int)->Ok_0;
            assert(page_matches(page, g_pm));
            lemma_rows_from_step(
                db,
                psi,
                page_to_read as int,
                g_old,
                fv,
                seps_cur,
                budget as nat,
                fuel0 as nat,
                st,
                g_pm,
            );
        }
        page_to_read = next;
        budget = budget - 1;
    }
    // the leaf level: search for the first equal entry, then range-scan,
    // then slot the separators in
    proof {
        lemma_keys_match(page.cells@, g_pm.cells);
        assert(spec_idx_descend(
            db,
            psi,
            page_to_read as int,
            g_pm,
            fv,
            vec_rows_view(sep_ids@),
            budget as nat,
        ) == Ok::<(Seq<Seq<u8>>, int, PageModel), Error>(
            (vec_rows_view(sep_ids@), page_to_read as int, g_pm),
        ));
    }
    if !check_search_wf(&page.cells, filter_value) {
        proof {
            assert(full == Err::<Seq<Seq<u8>>, Error>(Error::CorruptRecord));
        }
        return Err(Error::CorruptRecord);
    }
    let leaf_sr = match bin_search_payload(&page.cells, filter_value) {
        Ok(sr) => sr,
        Err(e) => {
            proof {
                assert(false);
            }
            return Err(e);
        },
    };
    let start = match leaf_sr {
        SearchResult::ThisPage(i) => i,
        _ => {
            proof {
                assert(full == Ok::<Seq<Seq<u8>>, Error>(vec_rows_view(sep_ids@)));
            }
            return Ok(sep_ids);
        },
    };
    let ghost goal_scan = spec_scan_pages(
        db,
        psi,
        page_to_read as int,
        g_pm,
        fv,
        start as int,
        Seq::empty(),
        fuel0 as nat,
    );
    proof {
        assert(full == (match goal_scan {
            Err(e) => Err::<Seq<Seq<u8>>, Error>(e),
            Ok(leaf_ids) => merge_ids(leaf_ids, vec_rows_view(sep_ids@)),
        }));
    }
    let leaf_ids = match scan_leaf_range(
        builder,
        page,
        page_to_read,
        start,
        Vec::new(),
        filter_value,
        fuel0,
        Ghost(g_pm),
    ) {
        Ok(v) => v,
        Err(e) => {
            proof {
                assert(vec_rows_view(Seq::<Vec<u8>>::empty()) =~= Seq::<Seq<u8>>::empty());
                assert(goal_scan == Err::<Seq<Seq<u8>>, Error>(e));
            }
            return Err(e);
        },
    };
    proof {
        assert(vec_rows_view(Seq::<Vec<u8>>::empty()) =~= Seq::<Seq<u8>>::empty());
        assert(goal_scan is Ok);
        assert(vec_rows_view(leaf_ids@) =~= goal_scan->Ok_0);
    }
    match merge_record_ids(&leaf_ids, &sep_ids) {
        Ok(v) => Ok(v),
        Err(e) => Err(e),
    }
}

/// Scans forward from one leaf cell across successive page numbers,
/// collecting referenced row ids while keys equal the literal. The
/// result is exactly what the scan's specification yields, error for
/// error.
#[verifier::rlimit(100)]
fn scan_leaf_range(
    builder: &PageReaderBuilder,
    page0: Page,
    page_no0: u32,
    start: usize,
    record_ids0: Vec<Vec<u8>>,
    filter_value: &FilterValue,
    budget0: u64,
    Ghost(pm_in): Ghost<PageModel>,
) -> (r: Result<Vec<Vec<u8>>, Error>)
    requires
        page_matches(page0, pm_in),
    ensures
        match spec_scan_pages(
            builder.db@,
            builder.page_size as int,
            page_no0 as int,
            pm_in,
            *filter_value,
            start as int,
            vec_rows_view(record_ids0@),
            budget0 as nat,
        ) {
            Ok(ids) => r matches Ok(v) && v@.len() == ids.len() && (forall|i: int|
                0 <= i < ids.len() ==> (#[trigger] v@[i])@ == ids[i]),
            Err(e) => r == Err::<Vec<Vec<u8>>, Error>(e),
        },
{
    let ghost db = builder.db@;
    let ghost psi = builder.page_size as int;
    let ghost fv = *filter_value;
    let ghost full = spec_scan_pages(
        db,
        psi,
        page_no0 as int,
        pm_in,
        fv,
        start as int,
        vec_rows_view(record_ids0@),
        budget0 as nat,
    );
    let mut page = page0;
    let mut page_to_read = page_no0;
    let mut record_ids = record_ids0;
    let ghost mut g_pm = pm_in;
    let mut cell_idx: usize = start;
    let mut budget2: u64 = budget0;
    loop
        invariant
            builder.db@ == db,
            builder.page_size as int == psi,
            fv == *filter_value,
            page_matches(page, g_pm),
            full == spec_scan_pages(
                db,
                psi,
                page_no0 as int,
                pm_in,
                fv,
                start as int,
                vec_rows_view(record_ids0@),
                budget0 as nat,
            ),
            full == spec_scan_pages(
                db,
                psi,
                page_to_read as int,
                g_pm,
                fv,
                cell_idx as int,
                vec_rows_view(record_ids@),
                budget2 as nat,
            ),
        ensures
            full == Ok::<Seq<Seq<u8>>, Error>(vec_rows_view(record_ids@)),
        decreases budget2, page.cells@.len() - cell_idx,
    {
        if cell_idx < page.cells.len() {
            let ghost ids_old = vec_rows_view(record_ids@);
            let ghost pid = model_payload_id(g_pm.cells[cell_idx as int]);
            let stop = match scan_cell_step(
                &page,
                cell_idx,
                filter_value,
                &mut record_ids,
                Ghost(g_pm),
            ) {
                Ok(bv) => bv,
                Err(e) => {
                    proof {
                        assert(spec_scan_cells(g_pm.cells, fv, cell_idx as int, ids_old)
                            == Err::<(Seq<Seq<u8>>, bool), Error>(e));
                    }
                    return Err(e);
                },
            };
            if stop {
                proof {
                    lemma_scan_pages_stop(
                        db,
                        psi,
                        page_to_read as int,
                        g_pm,
                        fv,
                        cell_idx as int,
                        ids_old,
                        budget2 as nat,
                    );
                }
                break ;
            }
            proof {
                lemma_scan_pages_push(
                    db,
                    psi,
                    page_to_read as int,
                    g_pm,
                    fv,
                    cell_idx as int,
                    ids_old,
                    budget2 as nat,
                );
            }
            cell_idx = cell_idx + 1;
        } else {
            proof {
                assert(spec_scan_cells(
                    g_pm.cells,
                    fv,
                    cell_idx as int,
                    vec_rows_view(record_ids@),
                ) == Ok::<(Seq<Seq<u8>>, bool), Error>((vec_rows_view(record_ids@), false)));
            }
            if budget2 == 0 {
                return Err(Error::CorruptBtree);
            }
            if page_to_read >= 0xFFFFFFFFu32 {
                return Err(Error::OutOfRange);
            }
            let next = page_to_read + 1;
            page = match read_page_at(builder, next) {
                Ok(p) => p,
                Err(e) => {
                    return Err(e);
                },
            };
            proof {
                let g_old = g_pm;
                g_pm = spec_read_page(db, psi, next as int)->Ok_0;
                lemma_scan_pages_advance(
                    db,
                    psi,
                    page_to_read as int,
                    g_old,
                    fv,
                    cell_idx as int,
                    vec_rows_view(record_ids@),
                    budget2 as nat,
                    g_pm,
                );
            }
            page_to_read = next;
            cell_idx = 0;
            budget2 = budget2 - 1;
        }
    }
    Ok(record_ids)
}

// ---------------------------------------------------------------------------
// Fetching table rows by row id
// ---------------------------------------------------------------------------

/// One descent decision on an interior table page: which child holds the
/// target row id.
pub open spec fn spec_tbl_step(pm: PageModel, fv: FilterValue) -> Result<int, Error> {
    if !page_search_wf(pm.cells, fv) {
        Err(Error::CorruptRecord)
    } else {
        match spec_search(model_keys(pm.cells), fv) {
            SearchResult::ThisPage(i) => match model_left_child(pm.cells[i as int]) {
                None => Err(Error::CorruptBtree),
                Some(child) => Ok(child),
            },
            SearchResult::LeftPage(i) => match model_left_child(pm.cells[i as int]) {
                None => Err(Error::CorruptBtree),
                Some(child) => Ok(child),
            },
            SearchResult::RightPage => match pm.header.right_pointer {
                None => Err(Error::CorruptBtree),
                Some(rp) => Ok(rp as int),
            },
        }
    }
}

/// Descends a table B-tree by row id down to the leaf level.
pub open spec fn spec_tbl_descend(
    db: Seq<u8>,
    ps: int,
    pm: PageModel,
    fv: FilterValue,
    fuel: nat,
) -> Result<PageModel, Error>
    decreases fuel,
{
    if pm.header.page_type != PageType::TblInt {
        Ok(pm)
    } else if fuel == 0 {
        Err(Error::CorruptBtree)
    } else {
        match spec_tbl_step(pm, fv) {
            Err(e) => Err(e),
            Ok(ch) => match spec_read_page(db, ps, ch) {
                Err(e) => Err(e),
                Ok(pm2) => spec_tbl_descend(db, ps, pm2, fv, (fuel - 1) as nat),
            },
        }
    }
}

proof fn lemma_tbl_descend_step(
    db: Seq<u8>,
    ps: int,
    pm: PageModel,
    fv: FilterValue,
    fuel: nat,
    pm2: PageModel,
)
    requires
        pm.header.page_type == PageType::TblInt,
        fuel > 0,
        spec_tbl_step(pm, fv) is Ok,
        spec_read_page(db, ps, spec_tbl_step(pm, fv)->Ok_0) == Ok::<PageModel, Error>(pm2),
    ensures
        spec_tbl_descend(db, ps, pm, fv, fuel) == spec_tbl_descend(
            db,
            ps,
            pm2,
            fv,
            (fuel - 1) as nat,
        ),
{
}

/// The projected row the located leaf yields for the target: an
/// interior page announced the entry, so a missing leaf hit is
/// `InconsistentBtree`.
pub open spec fn spec_leaf_row(
    pm: PageModel,
    fv: FilterValue,
    f: Filter,
    positions: Seq<usize>,
) -> Result<Option<Seq<u8>>, Error> {
    if !page_search_wf(pm.cells, fv) {
        Err(Error::CorruptRecord)
    } else {
        match spec_search(model_keys(pm.cells), fv) {
            SearchResult::ThisPage(i) => match pm.cells[i as int] {
                CellModel::TableLeaf { record_size, row_id, record } => row_of(
                    f,
                    i64_of_u64bits(row_id),
                    model_rows(record),
                    positions,
                ),
                _ => Err(Error::CorruptBtree),
            },
            _ => Err(Error::InconsistentBtree),
        }
    }
}

/// The row fetched for one collected row id: parse the id, descend the
/// table tree, and re-check the filter on the leaf record found.
pub open spec fn spec_row_for_id(
    db: Seq<u8>,
    ps: int,
    root_pm: PageModel,
    id: Seq<u8>,
    f: Filter,
    positions: Seq<usize>,
    fuel: nat,
) -> Result<Option<Seq<u8>>, Error> {
    match crate::numtext::parse_i64(id) {
        None => Err(Error::CorruptRecord),
        Some(v) => match spec_tbl_descend(db, ps, root_pm, FilterValue::Int(v as i64), fuel) {
            Err(e) => Err(e),
            Ok(leaf) => spec_leaf_row(leaf, FilterValue::Int(v as i64), f, positions),
        },
    }
}

pub open spec fn spec_rows_with_id(
    db: Seq<u8>,
    ps: int,
    root_pm: PageModel,
    ids: Seq<Seq<u8>>,
    f: Filter,
    positions: Seq<usize>,
    fuel: nat,
) -> Result<Seq<Seq<u8>>, Error>
    decreases ids.len(),
{
    if ids.len() == 0 {
        Ok(Seq::empty())
    } else {
        match spec_row_for_id(db, ps, root_pm, ids[0], f, positions, fuel) {
            Err(e) => Err(e),
            Ok(opt) => match spec_rows_with_id(db, ps, root_pm, ids.skip(1), f, positions, fuel) {
                Err(e) => Err(e),
                Ok(rest) => match opt {
                    Some(row) => Ok(seq![row].add(rest)),
                    None => Ok(rest),
                },
            },
        }
    }
}

/// The rows fetched for a list of collected row ids.
pub open spec fn spec_fetch_rows_with_id(
    db: Seq<u8>,
    ps: int,
    root_pm: PageModel,
    ids: Seq<Seq<u8>>,
    sel: Seq<Vec<u8>>,
    cols: Seq<Vec<u8>>,
    f: Filter,
) -> Result<Seq<Seq<u8>>, Error> {
    match spec_column_positions(sel, cols) {
        Err(e) => Err(e),
        Ok(positions) => if ps <= 0 {
            Err(Error::CorruptPage)
        } else {
            spec_rows_with_id(db, ps, root_pm, ids, f, positions, (db.len() as int / ps) as nat)
        },
    }
}

/// A row satisfies the filter and has the projected shape: what every
/// emitted row of an indexed scan is guaranteed to be.
pub open spec fn row_is_sound(row: Seq<u8>, f: Filter, positions: Seq<usize>) -> bool {
    exists|rid: int, rows: Seq<Seq<u8>>|
        row == joined_row(rid, rows, positions) && (f.filter_col_pos == -1
            || spec_decode_match(f, rows) == Ok::<bool, Error>(true))
}

/// Performs one descent decision on a decoded interior table page.
fn tbl_step(page: &Page, fv: &FilterValue, Ghost(pm): Ghost<PageModel>) -> (r: Result<u32, Error>)
    requires
        page_matches(*page, pm),
    ensures
        match spec_tbl_step(pm, *fv) {
            Ok(ch) => r matches Ok(c) && c as int == ch,
            Err(e) => r == Err::<u32, Error>(e),
        },
{
    proof {
        lemma_keys_match(page.cells@, pm.cells);
    }
    if !check_search_wf(&page.cells, fv) {
        return Err(Error::CorruptRecord);
    }
    let res = match bin_search_payload(&page.cells, fv) {
        Ok(sr) => sr,
        Err(e) => {
            proof {
                assert(false);
            }
            return Err(e);
        },
    };
    let child = match res {
        SearchResult::ThisPage(i) => page.cells[i].left_child_page_no(),
        SearchResult::LeftPage(i) => page.cells[i].left_child_page_no(),
        SearchResult::RightPage => page.page_header.right_pointer,
    };
    match child {
        Some(ch) => Ok(ch),
        None => Err(Error::CorruptBtree),
    }
}

/// Searches the located leaf for the target row and projects it through
/// the filter.
fn leaf_row(
    page: &Page,
    fv: &FilterValue,
    filter: &Filter,
    col_positions: &Vec<usize>,
    Ghost(pm): Ghost<PageModel>,
) -> (r: Result<Option<Vec<u8>>, Error>)
    requires
        page_matches(*page, pm),
    ensures
        match spec_leaf_row(pm, *fv, *filter, col_positions@) {
            Ok(o) => r matches Ok(x) && (match o {
                Some(srow) => x matches Some(v) && v@ == srow,
                None => x is None,
            }),
            Err(e) => r == Err::<Option<Vec<u8>>, Error>(e),
        },
        r matches Ok(x) ==> (x matches Some(v) ==> row_is_sound(v@, *filter, col_positions@)),
{
    proof {
        lemma_keys_match(page.cells@, pm.cells);
    }
    if !check_search_wf(&page.cells, fv) {
        return Err(Error::CorruptRecord);
    }
    let res = match bin_search_payload(&page.cells, fv) {
        Ok(sr) => sr,
        Err(e) => {
            proof {
                assert(false);
            }
            return Err(e);
        },
    };
    let i = match res {
        SearchResult::ThisPage(i) => i,
        _ => {
            return Err(Error::InconsistentBtree);
        },
    };
    proof {
        assert(cell_matches(page.cells@[i as int], pm.cells[i as int]));
    }
    let leaf = match &page.cells[i] {
        Cell::TableLeaf(x) => x,
        _ => {
            return Err(Error::CorruptBtree);
        },
    };
    proof {
        lemma_rows_view_matches(leaf.record, pm.cells[i as int]->TableLeaf_record);
    }
    match filter_rows(filter, leaf, col_positions) {
        Ok(Some(v)) => {
            proof {
                let rid = leaf.row_id as int;
                let rows = rows_view(leaf.record);
                assert(v@ == joined_row(rid, rows, col_positions@));
                if filter.filter_col_pos != -1 {
                    assert(spec_decode_match(*filter, rows) == Ok::<bool, Error>(true));
                }
                assert(row_is_sound(v@, *filter, col_positions@));
            }
            Ok(Some(v))
        },
        Ok(None) => Ok(None),
        Err(e) => Err(e),
    }
}

/// Fetches the row for one collected row id: descend from the table
/// root by row id, then search the leaf. The result is exactly what the
/// walk's specification yields, error for error.
#[verifier::rlimit(100)]
fn fetch_row_for_id(
    builder: &PageReaderBuilder,
    root: &Page,
    id: &Vec<u8>,
    filter: &Filter,
    col_positions: &Vec<usize>,
    fuel0: u64,
    Ghost(root_pm): Ghost<PageModel>,
) -> (r: Result<Option<Vec<u8>>, Error>)
    requires
        page_matches(*root, root_pm),
    ensures
        match spec_row_for_id(
            builder.db@,
            builder.page_size as int,
            root_pm,
            id@,
            *filter,
            col_positions@,
            fuel0 as nat,
        ) {
            Ok(o) => r matches Ok(x) && (match o {
                Some(srow) => x matches Some(v) && v@ == srow,
                None => x is None,
            }),
            Err(e) => r == Err::<Option<Vec<u8>>, Error>(e),
        },
        r matches Ok(x) ==> (x matches Some(v) ==> row_is_sound(v@, *filter, col_positions@)),
{
    let ghost db = builder.db@;
    let ghost psi = builder.page_size as int;
    let ghost goal = spec_row_for_id(
        db,
        psi,
        root_pm,
        id@,
        *filter,
        col_positions@,
        fuel0 as nat,
    );
    let v = match crate::numtext::parse_i64_bytes(id.as_slice()) {
        Some(v) => v,
        None => {
            return Err(Error::CorruptRecord);
        },
    };
    let filter_row_id = FilterValue::Int(v);
    let ghost fv = FilterValue::Int(v);
    if !(root.page_header.page_type == PageType::TblInt) {
        proof {
            assert(spec_tbl_descend(db, psi, root_pm, fv, fuel0 as nat) == Ok::<
                PageModel,
                Error,
            >(root_pm));
        }
        return leaf_row(root, &filter_row_id, filter, col_positions, Ghost(root_pm));
    }
    if fuel0 == 0 {
        proof {
            assert(spec_tbl_descend(db, psi, root_pm, fv, 0) == Err::<PageModel, Error>(
                Error::CorruptBtree,
            ));
        }
        return Err(Error::CorruptBtree);
    }
    let first_child = match tbl_step(root, &filter_row_id, Ghost(root_pm)) {
        Ok(c) => c,
        Err(e) => {
            return Err(e);
        },
    };
    let mut page = match read_page_at(builder, first_child) {
        Ok(p) => p,
        Err(e) => {
            return Err(e);
        },
    };
    let mut budget: u64 = fuel0 - 1;
    let ghost mut g_pm = spec_read_page(db, psi, first_child as int)->Ok_0;
    proof {
        lemma_tbl_descend_step(db, psi, root_pm, fv, fuel0 as nat, g_pm);
    }
    while page.page_header.page_type == PageType::TblInt
        invariant
            builder.db@ == db,
            builder.page_size as int == psi,
            fv == filter_row_id,
            page_matches(page, g_pm),
            goal == spec_row_for_id(
                db,
                psi,
                root_pm,
                id@,
                *filter,
                col_positions@,
                fuel0 as nat,
            ),
            goal == (match spec_tbl_descend(db, psi, g_pm, fv, budget as nat) {
                Err(e) => Err::<Option<Seq<u8>>, Error>(e),
                Ok(leaf) => spec_leaf_row(leaf, fv, *filter, col_positions@),
            }),
        decreases budget,
    {
        if budget == 0 {
            proof {
                assert(spec_tbl_descend(db, psi, g_pm, fv, 0) == Err::<PageModel, Error>(
                    Error::CorruptBtree,
                ));
            }
            return Err(Error::CorruptBtree);
        }
        let child = match tbl_step(&page, &filter_row_id, Ghost(g_pm)) {
            Ok(c) => c,
            Err(e) => {
                return Err(e);
            },
        };
        page = match read_page_at(builder, child) {
            Ok(p) => p,
            Err(e) => {
                return Err(e);
            },
        };
        proof {
            let g_old = g_pm;
            g_pm = spec_read_page(db, psi, child as int)->Ok_0;
            lemma_tbl_descend_step(db, psi, g_old, fv, budget as nat, g_pm);
        }
        budget = budget - 1;
    }
    proof {
        assert(spec_tbl_descend(db, psi, g_pm, fv, budget as nat) == Ok::<PageModel, Error>(
            g_pm,
        ));
    }
    leaf_row(&page, &filter_row_id, filter, col_positions, Ghost(g_pm))
}

/// Fetches the table rows referenced by the collected row ids, in id
/// order, re-checking the filter on every row found. The result is
/// exactly what the specification yields, error for error: an id whose
/// leaf holds no matching cell fails the whole fetch with
/// `InconsistentBtree`. Every emitted row satisfies the filter.
#[verifier::rlimit(100)]
pub fn fetch_rows_with_id(
    root_table_page: &Page,
    record_ids: &Vec<Vec<u8>>,
    builder: &PageReaderBuilder,
    select_col_names: &Vec<Vec<u8>>,
    table_query_details: &crate::parser::QueryDetails,
    filter: &Filter,
    Ghost(root_pm): Ghost<PageModel>,
) -> (r: Result<Vec<Vec<u8>>, Error>)
    requires
        page_matches(*root_table_page, root_pm),
    ensures
        match spec_fetch_rows_with_id(
            builder.db@,
            builder.page_size as int,
            root_pm,
            vec_rows_view(record_ids@),
            select_col_names@,
            table_query_details.stmt.columns@,
            *filter,
        ) {
            Ok(rs) => r matches Ok(v) && v@.len() == rs.len() && (forall|i: int|
                0 <= i < rs.len() ==> (#[trigger] v@[i])@ == rs[i]),
            Err(e) => r == Err::<Vec<Vec<u8>>, Error>(e),
        },
        spec_column_positions(select_col_names@, table_query_details.stmt.columns@) matches Ok(
            positions,
        ) ==> (r matches Ok(v) ==> forall|i: int|
            0 <= i < v@.len() ==> row_is_sound((#[trigger] v@[i])@, *filter, positions)),
{
    let ghost db = builder.db@;
    let ghost psi = builder.page_size as int;
    let ghost f = *filter;
    let ghost ids = vec_rows_view(record_ids@);
    let col_positions = match get_column_position(
        select_col_names,
        &table_query_details.stmt.columns,
    ) {
        Ok(v) => v,
        Err(e) => {
            return Err(e);
        },
    };
    let ghost positions = col_positions@;
    if builder.page_size == 0 {
        return Err(Error::CorruptPage);
    }
    let fuel0: u64 = (builder.db.len() as u64) / (builder.page_size as u64);
    let mut out: Vec<Vec<u8>> = Vec::new();
    let ghost mut acc: Seq<Seq<u8>> = Seq::empty();
    let ghost gfull = spec_rows_with_id(db, psi, root_pm, ids, f, positions, fuel0 as nat);
    let len = record_ids.len();
    let mut k: usize = 0;
    proof {
        assert(ids.skip(0) =~= ids);
        if gfull is Ok {
            assert(acc.add(gfull->Ok_0) =~= gfull->Ok_0);
        }
    }
    while k < len
        invariant
            builder.db@ == db,
            builder.page_size as int == psi,
            psi >= 1,
            f == *filter,
            positions == col_positions@,
            ids == vec_rows_view(record_ids@),
            len == record_ids@.len(),
            k <= len,
            page_matches(*root_table_page, root_pm),
            fuel0 == db.len() as int / psi,
            gfull == spec_rows_with_id(db, psi, root_pm, ids, f, positions, fuel0 as nat),
            spec_column_positions(select_col_names@, table_query_details.stmt.columns@) == Ok::<
                Seq<usize>,
                Error,
            >(col_positions@),
            out@.len() == acc.len(),
            forall|t: int| 0 <= t < acc.len() ==> (#[trigger] out@[t])@ == acc[t],
            forall|t: int| 0 <= t < out@.len() ==> row_is_sound((#[trigger] out@[t])@, f, positions),
            match spec_rows_with_id(db, psi, root_pm, ids.skip(k as int), f, positions, fuel0 as nat) {
                Ok(rest) => gfull == Ok::<Seq<Seq<u8>>, Error>(acc.add(rest)),
                Err(e) => gfull == Err::<Seq<Seq<u8>>, Error>(e),
            },
        decreases len - k,
    {
        proof {
            assert(ids.skip(k as int)[0] == ids[k as int]);
            assert(ids.skip(k as int).skip(1) =~= ids.skip(k as int + 1));
            assert(ids[k as int] == record_ids@[k as int]@);
        }
        let ghost opt = spec_row_for_id(db, psi, root_pm, ids[k as int], f, positions, fuel0 as nat);
        let row_opt = match fetch_row_for_id(
            builder,
            root_table_page,
            &record_ids[k],
            filter,
            &col_positions,
            fuel0,
            Ghost(root_pm),
        ) {
            Ok(o) => o,
            Err(e) => {
                proof {
                    assert(opt == Err::<Option<Seq<u8>>, Error>(e));
                    assert(spec_rows_with_id(
                        db,
                        psi,
                        root_pm,
                        ids.skip(k as int),
                        f,
                        positions,
                        fuel0 as nat,
                    ) == Err::<Seq<Seq<u8>>, Error>(e));
                }
                return Err(e);
            },
        };
        proof {
            assert(opt is Ok);
        }
        match row_opt {
            Some(row) => {
                out.push(row);
                proof {
                    let acc_old = acc;
                    acc = acc.push(out@.last()@);
                    assert(out@.last()@ == opt->Ok_0->Some_0);
                    if spec_rows_with_id(
                        db,
                        psi,
                        root_pm,
                        ids.skip(k as int + 1),
                        f,
                        positions,
                        fuel0 as nat,
                    ) is Ok {
                        let rest = spec_rows_with_id(
                            db,
                            psi,
                            root_pm,
                            ids.skip(k as int + 1),
                            f,
                            positions,
                            fuel0 as nat,
                        )->Ok_0;
                        assert(acc_old.add(seq![opt->Ok_0->Some_0].add(rest)) =~= acc.add(rest));
                    }
                }
            },
            None => {},
        }
        k = k + 1;
    }
    proof {
        assert(ids.skip(len as int) =~= Seq::<Seq<u8>>::empty());
        if gfull is Ok {
            assert(acc.add(Seq::<Seq<u8>>::empty()) =~= acc);
        }
    }
    Ok(out)
}

/// The indexed scan of a table: collect matching row ids from the index
/// tree, then fetch each referenced row from the table tree.
pub open spec fn spec_index_scan(
    db: Seq<u8>,
    ps: int,
    idx_cell: Cell,
    tbl_cell: Cell,
    sel: Seq<Vec<u8>>,
    cols: Seq<Vec<u8>>,
    f: Filter,
) -> Result<Seq<Seq<u8>>, Error> {
    match spec_first_page(db, ps, idx_cell) {
        Err(e) => Err(e),
        Ok(ip) => match spec_first_page(db, ps, tbl_cell) {
            Err(e) => Err(e),
            Ok(tp) => match spec_fetch_indexed_rows(db, ps, ip.0, ip.1, f.filter_value) {
                Err(e) => Err(e),
                Ok(ids) => spec_fetch_rows_with_id(db, ps, tp.1, ids, sel, cols, f),
            },
        },
    }
}

/// Runs an index-assisted scan: descend the index for the filter value,
/// collect the matching row ids in ascending key-then-row-id order, then
/// fetch and re-check each row. The result is exactly what the
/// specification yields, error for error, and every emitted row
/// satisfies the filter.
pub fn perform_index_scan(
    root_index_page_cell: &Cell,
    root_leaf_page_cell: &Cell,
    builder: &PageReaderBuilder,
    select_col_names: &Vec<Vec<u8>>,
    table_query_details: &crate::parser::QueryDetails,
    filter: &Filter,
) -> (r: Result<Vec<Vec<u8>>, Error>)
    ensures
        match spec_index_scan(
            builder.db@,
            builder.page_size as int,
            *root_index_page_cell,
            *root_leaf_page_cell,
            select_col_names@,
            table_query_details.stmt.columns@,
            *filter,
        ) {
            Ok(rs) => r matches Ok(v) && v@.len() == rs.len() && (forall|i: int|
                0 <= i < rs.len() ==> (#[trigger] v@[i])@ == rs[i]),
            Err(e) => r == Err::<Vec<Vec<u8>>, Error>(e),
        },
        spec_column_positions(select_col_names@, table_query_details.stmt.columns@) matches Ok(
            positions,
        ) ==> (r matches Ok(v) ==> forall|i: int|
            0 <= i < v@.len() ==> row_is_sound((#[trigger] v@[i])@, *filter, positions)),
{
    let ghost db = builder.db@;
    let ghost psi = builder.page_size as int;
    let (ino, ipage) = match fetch_table_first_page(root_index_page_cell, builder) {
        Ok(p) => p,
        Err(e) => {
            return Err(e);
        },
    };
    let (_tno, tpage) = match fetch_table_first_page(root_leaf_page_cell, builder) {
        Ok(p) => p,
        Err(e) => {
            return Err(e);
        },
    };
    let record_ids = match fetch_indexed_rows(ino, ipage, builder, &filter.filter_value) {
        Ok(v) => v,
        Err(e) => {
            return Err(e);
        },
    };
    let ghost tp = spec_first_page(db, psi, *root_leaf_page_cell)->Ok_0;
    proof {
        let spec_ids = spec_fetch_indexed_rows(
            db,
            psi,
            spec_first_page(db, psi, *root_index_page_cell)->Ok_0.0,
            spec_first_page(db, psi, *root_index_page_cell)->Ok_0.1,
            filter.filter_value,
        );
        assert(spec_ids is Ok);
        assert(vec_rows_view(record_ids@) =~= spec_ids->Ok_0);
    }
    fetch_rows_with_id(
        &tpage,
        &record_ids,
        builder,
        select_col_names,
        table_query_details,
        filter,
        Ghost(tp.1),
    )
}

/// Searching an ordered page finds a present key: if some cell's key
/// equals the literal, the search result is `ThisPage` at the first such
/// cell.
pub proof fn lemma_search_finds_present_key(
    cells: Seq<Cell>,
    fv: FilterValue,
    witness: int,
)
    requires
        keys_ok(keys_of(cells), fv),
        search_ordered(keys_of(cells), fv),
        cells.len() <= usize::MAX,
        0 <= witness < cells.len(),
        cmp_at(keys_of(cells), fv, witness) == KeyOrdering::Equal,
    ensures
        spec_search(keys_of(cells), fv) matches SearchResult::ThisPage(p) && {
            &&& cmp_at(keys_of(cells), fv, p as int) == KeyOrdering::Equal
            &&& p <= witness
            &&& forall|i: int| 0 <= i < p ==> cmp_at(keys_of(cells), fv, i) != KeyOrdering::Equal
        },
{
    let keys = keys_of(cells);
    let p = first_le(keys, fv, 0);
    lemma_first_le_stops(keys, fv, 0);
    lemma_first_le_in_range(keys, fv, 0, witness);
    assert(0 <= p <= witness);
    lemma_first_le_all_greater(keys, fv, 0, p);
    assert(p < keys.len());
    assert(rank(cmp_at(keys, fv, p)) < 2);
    // everything before p compares Greater, so p itself cannot compare Less:
    // ordered pages place the equal witness at or after p
    if cmp_at(keys, fv, p) == KeyOrdering::Less {
        if p < witness {
            assert(rank(cmp_at(keys, fv, witness)) <= rank(cmp_at(keys, fv, p)));
        }
        assert(false);
    }
    assert(cmp_at(keys, fv, p) == KeyOrdering::Equal);
    assert forall|i: int| 0 <= i < p implies cmp_at(keys, fv, i) != KeyOrdering::Equal by {
        assert(rank(cmp_at(keys, fv, i)) == 2);
    }
}

/// Everything before the first-le index compares Greater.
proof fn lemma_first_le_all_greater(
    keys: Seq<Result<Seq<u8>, Error>>,
    fv: FilterValue,
    j: int,
    p: int,
)
    requires
        0 <= j <= keys.len(),
        p == first_le(keys, fv, j),
    ensures
        forall|i: int| j <= i < p ==> rank(#[trigger] cmp_at(keys, fv, i)) == 2,
    decreases keys.len() - j,
{
    if j < keys.len() && rank(cmp_at(keys, fv, j)) == 2 {
        lemma_first_le_all_greater(keys, fv, j + 1, p);
    }
}

/// The first-le index never passes an index that already compares at or
/// below the literal.
proof fn lemma_first_le_in_range(
    keys: Seq<Result<Seq<u8>, Error>>,
    fv: FilterValue,
    j: int,
    witness: int,
)
    requires
        0 <= j <= witness < keys.len(),
        rank(cmp_at(keys, fv, witness)) < 2,
    ensures
        first_le(keys, fv, j) <= witness,
    decreases witness - j,
{
    if j < witness && rank(cmp_at(keys, fv, j)) == 2 {
        lemma_first_le_in_range(keys, fv, j + 1, witness);
    }
}

/// When the first-le index lies inside the page, its comparison is at or
/// below the literal.
proof fn lemma_first_le_stops(keys: Seq<Result<Seq<u8>, Error>>, fv: FilterValue, j: int)
    requires
        0 <= j <= keys.len(),
    ensures
        first_le(keys, fv, j) < keys.len() ==> rank(
            cmp_at(keys, fv, first_le(keys, fv, j)),
        ) < 2,
        j <= first_le(keys, fv, j) <= keys.len(),
    decreases keys.len() - j,
{
    if j < keys.len() && rank(cmp_at(keys, fv, j)) == 2 {
        lemma_first_le_stops(keys, fv, j + 1);
    }
}

} // verus!
