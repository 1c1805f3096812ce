use vstd::prelude::*;

use crate::data_filter_processor::{name_index, spec_record_of, Filter, FilterValue};
use crate::errors::Error;
use crate::numtext::{bytes_eq, copy_bytes, push_bytes};
use crate::page::{Cell, Page};
use crate::parser::QueryDetails;

verus! {

// ---------------------------------------------------------------------------
// Locating schema objects on the root page
// ---------------------------------------------------------------------------

/// Whether a schema cell describes an object of the given kind attached
/// to the given table: field 0 holds the kind, field 2 the table name.
pub open spec fn schema_cell_matches(c: Cell, table_name: Seq<u8>, schema_type: Seq<u8>) -> bool {
    match spec_record_of(c) {
        None => false,
        Some(rec) => rec.rows@.len() >= 3 && rec.rows@[2]@ == table_name && rec.rows@[0]@
            == schema_type,
    }
}

/// The first index at or after `i` whose cell matches.
pub open spec fn first_schema_match(
    cells: Seq<Cell>,
    table_name: Seq<u8>,
    schema_type: Seq<u8>,
    i: int,
) -> Option<int>
    decreases cells.len() - i,
{
    if i < 0 || i >= cells.len() {
        None
    } else if schema_cell_matches(cells[i], table_name, schema_type) {
        Some(i)
    } else {
        first_schema_match(cells, table_name, schema_type, i + 1)
    }
}

proof fn lemma_first_schema_match_char(
    cells: Seq<Cell>,
    table_name: Seq<u8>,
    schema_type: Seq<u8>,
    i: int,
    j: int,
)
    requires
        0 <= i <= j <= cells.len(),
        forall|t: int| i <= t < j ==> !schema_cell_matches(#[trigger] cells[t], table_name, schema_type),
        j < cells.len() ==> schema_cell_matches(cells[j], table_name, schema_type),
    ensures
        j < cells.len() ==> first_schema_match(cells, table_name, schema_type, i) == Some(j),
        j == cells.len() ==> first_schema_match(cells, table_name, schema_type, i) is None,
    decreases j - i,
{
    if i < j {
        lemma_first_schema_match_char(cells, table_name, schema_type, i + 1, j);
    }
}

/// Finds the first schema cell describing an object of the given kind on
/// the given table, and returns its index on the page.
#[verifier::loop_isolation(false)]
pub fn fetch_cell(table_name: &Vec<u8>, schema_type: &Vec<u8>, page: &Page) -> (r: Option<usize>)
    ensures
        match first_schema_match(page.cells@, table_name@, schema_type@, 0) {
            Some(i) => r matches Some(j) && j == i,
            None => r is None,
        },
{
    let len = page.cells.len();
    let mut j: usize = 0;
    while j < len
        invariant
            j <= len,
            forall|t: int|
                0 <= t < j ==> !schema_cell_matches(
                    #[trigger] page.cells@[t],
                    table_name@,
                    schema_type@,
                ),
        decreases len - j,
    {
        let cell = &page.cells[j];
        let hit = match cell.record() {
            Some(rec) => rec.rows.len() >= 3 && bytes_eq(&rec.rows[2], table_name) && bytes_eq(
                &rec.rows[0],
                schema_type,
            ),
            None => false,
        };
        if hit {
            proof {
                assert(schema_cell_matches(page.cells@[j as int], table_name@, schema_type@));
                lemma_first_schema_match_char(
                    page.cells@,
                    table_name@,
                    schema_type@,
                    0,
                    j as int,
                );
            }
            return Some(j);
        }
        proof {
            assert(!schema_cell_matches(page.cells@[j as int], table_name@, schema_type@));
        }
        j = j + 1;
    }
    proof {
        lemma_first_schema_match_char(page.cells@, table_name@, schema_type@, 0, len as int);
    }
    None
}

// ---------------------------------------------------------------------------
// Resolving the filter column
// ---------------------------------------------------------------------------

/// Resolves the parsed filter against the table's column list: the
/// filter's schema position, or -1 when the query has no filter.
#[verifier::loop_isolation(false)]
pub fn get_filter_col_pos(
    filter: &Option<(Vec<u8>, Vec<u8>)>,
    create_query_details: &QueryDetails,
) -> (r: Result<Filter, Error>)
    ensures
        match *filter {
            Some(fc) => match name_index(create_query_details.stmt.columns@, fc.0@, 0) {
                None => r == Err::<Filter, Error>(Error::UnknownColumn),
                Some(j) => if j > isize::MAX {
                    r == Err::<Filter, Error>(Error::UnsupportedQuery)
                } else {
                    r matches Ok(f) && (f.filter_col_pos == j && (f.filter_value matches
                        FilterValue::String(v) && v@ == fc.1@))
                },
            },
            None => r matches Ok(f) && (f.filter_col_pos == -1 && (f.filter_value matches
                FilterValue::String(v) && v@ == Seq::<u8>::empty())),
        },
{
    match filter {
        Some(fc) => {
            let cols = &create_query_details.stmt.columns;
            let len = cols.len();
            let mut j: usize = 0;
            while j < len
                invariant
                    j <= len,
                    len == cols@.len(),
                    forall|t: int| 0 <= t < j ==> (#[trigger] cols@[t])@ != fc.0@,
                decreases len - j,
            {
                if bytes_eq(&cols[j], &fc.0) {
                    proof {
                        crate::data_filter_processor::lemma_name_index_char(
                            cols@,
                            fc.0@,
                            0,
                            j as int,
                        );
                    }
                    if j > (isize::MAX as usize) {
                        return Err(Error::UnsupportedQuery);
                    }
                    return Ok(
                        Filter {
                            filter_col_pos: j as isize,
                            filter_value: FilterValue::String(copy_bytes(&fc.1)),
                        },
                    );
                }
                j = j + 1;
            }
            proof {
                crate::data_filter_processor::lemma_name_index_char(cols@, fc.0@, 0, len as int);
            }
            Err(Error::UnknownColumn)
        },
        None => Ok(
            Filter { filter_col_pos: -1, filter_value: FilterValue::String(Vec::new()) },
        ),
    }
}

// ---------------------------------------------------------------------------
// Listing table names
// ---------------------------------------------------------------------------

/// The table-name field of every schema cell, in cell order.
pub open spec fn spec_table_names(cells: Seq<Cell>) -> Result<Seq<Seq<u8>>, Error>
    decreases cells.len(),
{
    if cells.len() == 0 {
        Ok(Seq::empty())
    } else {
        match cells[0] {
            Cell::TableLeaf(x) => if x.record.rows@.len() < 3 {
                Err(Error::CorruptRecord)
            } else {
                match spec_table_names(cells.skip(1)) {
                    Err(e) => Err(e),
                    Ok(rest) => Ok(seq![x.record.rows@[2]@].add(rest)),
                }
            },
            _ => Err(Error::CorruptPage),
        }
    }
}

/// The names joined by single spaces.
pub open spec fn join_space(names: Seq<Seq<u8>>) -> Seq<u8>
    decreases names.len(),
{
    if names.len() == 0 {
        Seq::empty()
    } else if names.len() == 1 {
        names[0]
    } else {
        names[0].add(seq![32u8]).add(join_space(names.skip(1)))
    }
}

proof fn lemma_join_space_push(names: Seq<Seq<u8>>, x: Seq<u8>)
    ensures
        join_space(names.push(x)) == if names.len() == 0 {
            x
        } else {
            join_space(names).add(seq![32u8]).add(x)
        },
    decreases names.len(),
{
    if names.len() == 0 {
        assert(names.push(x)[0] == x);
    } else {
        assert(names.push(x)[0] == names[0]);
        assert(names.push(x).skip(1) =~= names.skip(1).push(x));
        lemma_join_space_push(names.skip(1), x);
        let head = names[0];
        let bar = seq![32u8];
        if names.len() == 1 {
            assert(join_space(names.push(x)) == head.add(bar).add(x));
            assert(join_space(names) == head);
        } else {
            assert(join_space(names.push(x)) == head.add(bar).add(
                join_space(names.skip(1)).add(bar).add(x),
            ));
            assert(head.add(bar).add(join_space(names.skip(1)).add(bar).add(x)) =~= head.add(
                bar,
            ).add(join_space(names.skip(1))).add(bar).add(x));
        }
    }
}

/// Lists the table names the root schema page stores, separated by
/// single spaces. An empty schema gives the empty string.
#[verifier::loop_isolation(false)]
pub fn list_tables(page: &Page) -> (r: Result<Vec<u8>, Error>)
    ensures
        match spec_table_names(page.cells@) {
            Ok(names) => r matches Ok(v) && v@ == join_space(names),
            Err(e) => r == Err::<Vec<u8>, Error>(e),
        },
{
    let ghost cells = page.cells@;
    let mut out: Vec<u8> = Vec::new();
    let ghost mut names: Seq<Seq<u8>> = Seq::empty();
    let len = page.cells.len();
    let mut i: usize = 0;
    proof {
        assert(cells.skip(0) =~= cells);
        if spec_table_names(cells) is Ok {
            assert(names.add(spec_table_names(cells)->Ok_0) =~= spec_table_names(cells)->Ok_0);
        }
    }
    while i < len
        invariant
            i <= len,
            len == cells.len(),
            cells == page.cells@,
            out@ == join_space(names),
            names.len() == i,
            match spec_table_names(cells.skip(i as int)) {
                Ok(rest) => spec_table_names(cells) == Ok::<Seq<Seq<u8>>, Error>(
                    names.add(rest),
                ),
                Err(e) => spec_table_names(cells) == Err::<Seq<Seq<u8>>, Error>(e),
            },
        decreases len - i,
    {
        proof {
            assert(cells.skip(i as int)[0] == cells[i as int]);
            assert(cells.skip(i as int).skip(1) =~= cells.skip(i as int + 1));
        }
        let x = match &page.cells[i] {
            Cell::TableLeaf(x) => x,
            _ => {
                return Err(Error::CorruptPage);
            },
        };
        if x.record.rows.len() < 3 {
            return Err(Error::CorruptRecord);
        }
        if i > 0 {
            out.push(32);
        }
        push_bytes(&mut out, &x.record.rows[2]);
        proof {
            let names_old = names;
            names = names.push(x.record.rows@[2]@);
            lemma_join_space_push(names_old, x.record.rows@[2]@);
            assert(out@ =~= join_space(names));
            if spec_table_names(cells.skip(i as int + 1)) is Ok {
                let rest = spec_table_names(cells.skip(i as int + 1))->Ok_0;
                assert(names_old.add(seq![x.record.rows@[2]@].add(rest)) =~= names.add(rest));
            }
        }
        i = i + 1;
    }
    proof {
        assert(cells.skip(len as int) =~= Seq::<Cell>::empty());
        assert(names.add(Seq::<Seq<u8>>::empty()) =~= names);
    }
    Ok(out)
}

} // verus!
