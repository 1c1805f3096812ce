use sqlite_reader::data_filter_processor::{
    bin_search_payload, count_all_rows, get_column_position, perform_full_table_scan,
    perform_index_scan, Filter, FilterValue,
};
use sqlite_reader::errors::Error;
use sqlite_reader::numtext::{compare_bytes, i64_text, parse_i64_bytes, KeyOrdering};
use sqlite_reader::page::{Cell, SearchResult, TableIntCell};
use sqlite_reader::page_reader::{PageReader, PageReaderBuilder};
use sqlite_reader::parser::{QueryDetails, QueryType, Statement};
use sqlite_reader::schema::{fetch_cell, get_filter_col_pos, list_tables};
use sqlite_reader::varint;

// ---------------------------------------------------------------------------
// Builders for handcrafted database images
// ---------------------------------------------------------------------------

#[derive(Clone)]
enum F {
    Null,
    Int(i64),
    Text(&'static str),
    Blob(Vec<u8>),
    Reserved,
    Oversized,
}

fn build_record(fields: &[F]) -> Vec<u8> {
    let mut codes: Vec<u8> = Vec::new();
    let mut body: Vec<u8> = Vec::new();
    for f in fields {
        match f {
            F::Null => codes.extend_from_slice(&varint::encode(0)),
            F::Int(v) => {
                codes.extend_from_slice(&varint::encode(6));
                body.extend_from_slice(&v.to_be_bytes());
            }
            F::Text(s) => {
                codes.extend_from_slice(&varint::encode(13 + 2 * s.len() as u64));
                body.extend_from_slice(s.as_bytes());
            }
            F::Blob(b) => {
                codes.extend_from_slice(&varint::encode(12 + 2 * b.len() as u64));
                body.extend_from_slice(b);
            }
            F::Reserved => codes.extend_from_slice(&varint::encode(10)),
            F::Oversized => codes.extend_from_slice(&varint::encode(13 + 2 * 10000)),
        }
    }
    assert!(codes.len() + 1 < 128);
    let mut out = vec![(codes.len() + 1) as u8];
    out.extend_from_slice(&codes);
    out.extend_from_slice(&body);
    out
}

fn table_leaf_cell(row_id: u64, rec: &[u8]) -> Vec<u8> {
    let mut out = varint::encode(rec.len() as u64);
    out.extend_from_slice(&varint::encode(row_id));
    out.extend_from_slice(rec);
    out
}

fn table_int_cell(left: u32, row_id: u64) -> Vec<u8> {
    let mut out = left.to_be_bytes().to_vec();
    out.extend_from_slice(&varint::encode(row_id));
    out
}

fn idx_leaf_cell(rec: &[u8]) -> Vec<u8> {
    let mut out = varint::encode(rec.len() as u64);
    out.extend_from_slice(rec);
    out
}

fn build_page(
    page_size: usize,
    kind: u8,
    right_ptr: Option<u32>,
    cells: &[Vec<u8>],
    first_page: bool,
) -> Vec<u8> {
    let base = if first_page { 100 } else { 0 };
    let hdr_size = if kind == 2 || kind == 5 { 12 } else { 8 };
    let mut page = vec![0u8; page_size];
    let mut off = page_size;
    let mut ptrs: Vec<u16> = Vec::new();
    for c in cells {
        off -= c.len();
        page[off..off + c.len()].copy_from_slice(c);
        ptrs.push(off as u16);
    }
    page[base] = kind;
    page[base + 1..base + 3].copy_from_slice(&0u16.to_be_bytes());
    page[base + 3..base + 5].copy_from_slice(&(cells.len() as u16).to_be_bytes());
    page[base + 5..base + 7].copy_from_slice(&(off as u16).to_be_bytes());
    page[base + 7] = 0;
    if hdr_size == 12 {
        page[base + 8..base + 12].copy_from_slice(&right_ptr.unwrap_or(0).to_be_bytes());
    }
    let mut p = base + hdr_size;
    for ptr in &ptrs {
        page[p..p + 2].copy_from_slice(&ptr.to_be_bytes());
        p += 2;
    }
    page
}

fn build_db(page_size: usize, pages: Vec<Vec<u8>>) -> Vec<u8> {
    let mut db: Vec<u8> = Vec::new();
    for p in pages {
        assert_eq!(p.len(), page_size);
        db.extend_from_slice(&p);
    }
    db[16..18].copy_from_slice(&(page_size as u16).to_be_bytes());
    db
}

fn schema_record(kind: &'static str, name: &'static str, tbl: &'static str, root: i64, sql: &'static str) -> Vec<u8> {
    build_record(&[F::Text(kind), F::Text(name), F::Text(tbl), F::Int(root), F::Text(sql)])
}

fn b(s: &str) -> Vec<u8> {
    s.as_bytes().to_vec()
}

fn no_filter() -> Filter {
    Filter { filter_col_pos: -1, filter_value: FilterValue::String(Vec::new()) }
}

/// A database with one table `apples(id, name, color)` holding four rows
/// on a single leaf page.
fn sample_db() -> Vec<u8> {
    let page_size = 512;
    let schema = schema_record(
        "table",
        "apples",
        "apples",
        2,
        "CREATE TABLE apples (id integer primary key, name text, color text)",
    );
    let page1 = build_page(page_size, 13, None, &[table_leaf_cell(1, &schema)], true);
    let rows = [
        table_leaf_cell(1, &build_record(&[F::Null, F::Text("Granny Smith"), F::Text("Light Green")])),
        table_leaf_cell(2, &build_record(&[F::Null, F::Text("Fuji"), F::Text("Red")])),
        table_leaf_cell(3, &build_record(&[F::Null, F::Text("Honeycrisp"), F::Text("Blush Red")])),
        table_leaf_cell(4, &build_record(&[F::Null, F::Text("Golden Delicious"), F::Text("Yellow")])),
    ];
    let page2 = build_page(page_size, 13, None, &rows, false);
    build_db(page_size, vec![page1, page2])
}

fn apples_query_details() -> QueryDetails {
    QueryDetails {
        qtype: QueryType::CREATE,
        stmt: Statement {
            table_name: b("apples"),
            columns: vec![b("id"), b("name"), b("color")],
            filter: None,
            is_star: None,
        },
    }
}

/// A database with `superheroes(id, name)` and an index on `name` whose
/// leaves are shared with the table pages.
fn superheroes_db() -> Vec<u8> {
    let page_size = 512;
    let schema_tbl = schema_record(
        "table",
        "superheroes",
        "superheroes",
        2,
        "CREATE TABLE superheroes (id integer primary key, name text)",
    );
    let schema_idx = schema_record(
        "index",
        "idx_superheroes_name",
        "superheroes",
        3,
        "CREATE INDEX idx_superheroes_name on superheroes (name)",
    );
    let page1 = build_page(
        page_size,
        13,
        None,
        &[table_leaf_cell(1, &schema_tbl), table_leaf_cell(2, &schema_idx)],
        true,
    );
    let rows = [
        table_leaf_cell(1, &build_record(&[F::Null, F::Text("Batman")])),
        table_leaf_cell(2, &build_record(&[F::Null, F::Text("Spider-Man")])),
        table_leaf_cell(3, &build_record(&[F::Null, F::Text("Spider-Man")])),
        table_leaf_cell(4, &build_record(&[F::Null, F::Text("Superman")])),
    ];
    let page2 = build_page(page_size, 13, None, &rows, false);
    let idx_rows = [
        idx_leaf_cell(&build_record(&[F::Text("Batman"), F::Int(1)])),
        idx_leaf_cell(&build_record(&[F::Text("Spider-Man"), F::Int(2)])),
        idx_leaf_cell(&build_record(&[F::Text("Spider-Man"), F::Int(3)])),
        idx_leaf_cell(&build_record(&[F::Text("Superman"), F::Int(4)])),
    ];
    let page3 = build_page(page_size, 10, None, &idx_rows, false);
    build_db(page_size, vec![page1, page2, page3])
}

fn superheroes_query_details() -> QueryDetails {
    QueryDetails {
        qtype: QueryType::CREATE,
        stmt: Statement {
            table_name: b("superheroes"),
            columns: vec![b("id"), b("name")],
            filter: None,
            is_star: None,
        },
    }
}

fn read_root(db: Vec<u8>, page_size: u16) -> (PageReaderBuilder, sqlite_reader::page::Page) {
    let builder = PageReaderBuilder::new(db, page_size);
    let mut reader = builder.new_reader(1).unwrap();
    let root = reader.read_page().unwrap();
    (builder, root)
}

// ---------------------------------------------------------------------------
// Varint and number text
// ---------------------------------------------------------------------------

#[test]
fn varint_round_trips() {
    for v in [0u64, 1, 127, 128, 255, 300, 16383, 16384, u32::MAX as u64, u64::MAX / 7, u64::MAX] {
        let enc = varint::encode(v);
        assert!(1 <= enc.len() && enc.len() <= 9);
        let mut cur = sqlite_reader::byte_cursor::BytesIterator::new(enc.clone());
        let (val, n) = varint::decode(&mut cur).unwrap();
        assert_eq!(val, v);
        assert_eq!(n as usize, enc.len());
    }
}

#[test]
fn varint_truncated() {
    let mut cur = sqlite_reader::byte_cursor::BytesIterator::new(vec![0x80]);
    assert_eq!(varint::decode(&mut cur), Err(Error::Truncated));
}

#[test]
fn varint_nine_bytes() {
    let enc = varint::encode(u64::MAX);
    assert_eq!(enc.len(), 9);
}

#[test]
fn number_text_round_trips() {
    for v in [0i64, 1, -1, 42, -42, i64::MAX, i64::MIN] {
        let t = i64_text(v);
        assert_eq!(t, v.to_string().into_bytes());
        assert_eq!(parse_i64_bytes(&t), Some(v));
    }
    assert_eq!(parse_i64_bytes(b"12x"), None);
    assert_eq!(parse_i64_bytes(b""), None);
    assert_eq!(parse_i64_bytes(b"-"), None);
    assert_eq!(parse_i64_bytes(b"9223372036854775808"), None);
}

#[test]
fn byte_order_is_lexicographic() {
    assert_eq!(compare_bytes(b"Spider-Man", b"Superman"), KeyOrdering::Less);
    assert_eq!(compare_bytes(b"a", b"a"), KeyOrdering::Equal);
    assert_eq!(compare_bytes(b"b", b"ab"), KeyOrdering::Greater);
    assert_eq!(compare_bytes(b"ab", b"a"), KeyOrdering::Greater);
}

// ---------------------------------------------------------------------------
// Scenarios on the apples database
// ---------------------------------------------------------------------------

#[test]
fn apples_count() {
    let (builder, root) = read_root(sample_db(), 512);
    let idx = fetch_cell(&b("apples"), &b("table"), &root).unwrap();
    let cell = &root.cells[idx];
    assert_eq!(count_all_rows(cell, &builder), Ok(4));
}

#[test]
fn apples_select_names() {
    let (builder, root) = read_root(sample_db(), 512);
    let idx = fetch_cell(&b("apples"), &b("table"), &root).unwrap();
    let cell = &root.cells[idx];
    let rows = perform_full_table_scan(
        cell,
        &builder,
        &vec![b("name")],
        &apples_query_details(),
        &no_filter(),
    )
    .unwrap();
    assert_eq!(
        rows,
        vec![b("Granny Smith"), b("Fuji"), b("Honeycrisp"), b("Golden Delicious")]
    );
}

#[test]
fn apples_filter_yellow() {
    let (builder, root) = read_root(sample_db(), 512);
    let idx = fetch_cell(&b("apples"), &b("table"), &root).unwrap();
    let cell = &root.cells[idx];
    let filter = get_filter_col_pos(
        &Some((b("color"), b("Yellow"))),
        &apples_query_details(),
    )
    .unwrap();
    assert_eq!(filter.filter_col_pos, 2);
    let rows = perform_full_table_scan(
        cell,
        &builder,
        &vec![b("name"), b("color")],
        &apples_query_details(),
        &filter,
    )
    .unwrap();
    assert_eq!(rows, vec![b("Golden Delicious|Yellow")]);
}

#[test]
fn apples_select_star() {
    let (builder, root) = read_root(sample_db(), 512);
    let idx = fetch_cell(&b("apples"), &b("table"), &root).unwrap();
    let cell = &root.cells[idx];
    let rows = perform_full_table_scan(
        cell,
        &builder,
        &vec![b("*")],
        &apples_query_details(),
        &no_filter(),
    )
    .unwrap();
    assert_eq!(rows[0], b("1|Granny Smith|Light Green"));
    assert_eq!(rows.len(), 4);
}

#[test]
fn apples_no_index_in_schema() {
    let (_builder, root) = read_root(sample_db(), 512);
    assert_eq!(fetch_cell(&b("apples"), &b("index"), &root), None);
    assert_eq!(fetch_cell(&b("oranges"), &b("table"), &root), None);
}

// ---------------------------------------------------------------------------
// Scenarios on the superheroes database with an index
// ---------------------------------------------------------------------------

#[test]
fn superheroes_index_scan_matches_full_scan() {
    let (builder, root) = read_root(superheroes_db(), 512);
    let tbl_idx = fetch_cell(&b("superheroes"), &b("table"), &root).unwrap();
    let idx_idx = fetch_cell(&b("superheroes"), &b("index"), &root).unwrap();
    let qd = superheroes_query_details();
    let filter = get_filter_col_pos(&Some((b("name"), b("Spider-Man"))), &qd).unwrap();
    let via_index = perform_index_scan(
        &root.cells[idx_idx],
        &root.cells[tbl_idx],
        &builder,
        &vec![b("id"), b("name")],
        &qd,
        &filter,
    )
    .unwrap();
    assert_eq!(via_index, vec![b("2|Spider-Man"), b("3|Spider-Man")]);
    let via_scan = perform_full_table_scan(
        &root.cells[tbl_idx],
        &builder,
        &vec![b("id"), b("name")],
        &qd,
        &filter,
    )
    .unwrap();
    assert_eq!(via_index, via_scan);
}

#[test]
fn superheroes_index_scan_no_match() {
    let (builder, root) = read_root(superheroes_db(), 512);
    let tbl_idx = fetch_cell(&b("superheroes"), &b("table"), &root).unwrap();
    let idx_idx = fetch_cell(&b("superheroes"), &b("index"), &root).unwrap();
    let qd = superheroes_query_details();
    let filter = get_filter_col_pos(&Some((b("name"), b("Wolverine"))), &qd).unwrap();
    let rows = perform_index_scan(
        &root.cells[idx_idx],
        &root.cells[tbl_idx],
        &builder,
        &vec![b("id"), b("name")],
        &qd,
        &filter,
    )
    .unwrap();
    assert_eq!(rows, Vec::<Vec<u8>>::new());
}

#[test]
fn index_entry_without_table_row_is_inconsistent() {
    // an index leaf announcing row id 99 that no table leaf holds
    let page_size = 512;
    let schema_tbl = schema_record("table", "heroes", "heroes", 2, "CREATE TABLE heroes (id integer primary key, name text)");
    let schema_idx = schema_record("index", "idx_h", "heroes", 3, "CREATE INDEX idx_h on heroes (name)");
    let page1 = build_page(page_size, 13, None, &[table_leaf_cell(1, &schema_tbl), table_leaf_cell(2, &schema_idx)], true);
    let rows = [table_leaf_cell(1, &build_record(&[F::Null, F::Text("Batman")]))];
    let page2 = build_page(page_size, 13, None, &rows, false);
    let idx_rows = [
        idx_leaf_cell(&build_record(&[F::Text("Ghost"), F::Int(99)])),
        idx_leaf_cell(&build_record(&[F::Text("Zebra"), F::Int(1)])),
    ];
    let page3 = build_page(page_size, 10, None, &idx_rows, false);
    let db = build_db(page_size, vec![page1, page2, page3]);
    let (builder, root) = read_root(db, 512);
    let qd = QueryDetails {
        qtype: QueryType::CREATE,
        stmt: Statement {
            table_name: b("heroes"),
            columns: vec![b("id"), b("name")],
            filter: None,
            is_star: None,
        },
    };
    let filter = get_filter_col_pos(&Some((b("name"), b("Ghost"))), &qd).unwrap();
    let tbl_idx = fetch_cell(&b("heroes"), &b("table"), &root).unwrap();
    let idx_idx = fetch_cell(&b("heroes"), &b("index"), &root).unwrap();
    let r = perform_index_scan(
        &root.cells[idx_idx],
        &root.cells[tbl_idx],
        &builder,
        &vec![b("id")],
        &qd,
        &filter,
    );
    assert_eq!(r, Err(Error::InconsistentBtree));
}

// ---------------------------------------------------------------------------
// A multi-page table walked through its interior root
// ---------------------------------------------------------------------------

fn multipage_db() -> Vec<u8> {
    let page_size = 512;
    let schema = schema_record("table", "nums", "nums", 2, "CREATE TABLE nums (id integer primary key, v text)");
    let page1 = build_page(page_size, 13, None, &[table_leaf_cell(1, &schema)], true);
    // page 2: interior root; rows with id <= 2 under page 3, the rest under page 4
    let page2 = build_page(page_size, 5, Some(4), &[table_int_cell(3, 2)], false);
    let p3_rows = [
        table_leaf_cell(1, &build_record(&[F::Null, F::Text("one")])),
        table_leaf_cell(2, &build_record(&[F::Null, F::Text("two")])),
    ];
    let page3 = build_page(page_size, 13, None, &p3_rows, false);
    let p4_rows = [
        table_leaf_cell(3, &build_record(&[F::Null, F::Text("three")])),
        table_leaf_cell(4, &build_record(&[F::Null, F::Text("four")])),
        table_leaf_cell(5, &build_record(&[F::Null, F::Text("five")])),
    ];
    let page4 = build_page(page_size, 13, None, &p4_rows, false);
    build_db(page_size, vec![page1, page2, page3, page4])
}

#[test]
fn multipage_count_sums_all_leaves() {
    let (builder, root) = read_root(multipage_db(), 512);
    let idx = fetch_cell(&b("nums"), &b("table"), &root).unwrap();
    assert_eq!(count_all_rows(&root.cells[idx], &builder), Ok(5));
}

#[test]
fn multipage_scan_emits_count_many_rows() {
    let (builder, root) = read_root(multipage_db(), 512);
    let idx = fetch_cell(&b("nums"), &b("table"), &root).unwrap();
    let qd = QueryDetails {
        qtype: QueryType::CREATE,
        stmt: Statement {
            table_name: b("nums"),
            columns: vec![b("id"), b("v")],
            filter: None,
            is_star: None,
        },
    };
    let rows = perform_full_table_scan(&root.cells[idx], &builder, &vec![b("v")], &qd, &no_filter())
        .unwrap();
    // the walk pushes the right-most child first, so its leaf comes first
    assert_eq!(rows, vec![b("three"), b("four"), b("five"), b("one"), b("two")]);
    assert_eq!(rows.len() as u64, count_all_rows(&root.cells[idx], &builder).unwrap());
}

// ---------------------------------------------------------------------------
// Schema listing
// ---------------------------------------------------------------------------

#[test]
fn tables_lists_names_space_separated() {
    let (_builder, root) = read_root(superheroes_db(), 512);
    // every schema cell contributes its table-name field
    assert_eq!(list_tables(&root), Ok(b("superheroes superheroes")));
    let (_builder2, root2) = read_root(sample_db(), 512);
    assert_eq!(list_tables(&root2), Ok(b("apples")));
}

#[test]
fn empty_schema_page() {
    let page_size = 512;
    let page1 = build_page(page_size, 13, None, &[], true);
    let (_builder, root) = read_root(build_db(page_size, vec![page1]), 512);
    assert_eq!(root.page_header.cell_count, 0);
    assert_eq!(list_tables(&root), Ok(Vec::new()));
}

// ---------------------------------------------------------------------------
// Error cases
// ---------------------------------------------------------------------------

#[test]
fn page_out_of_range() {
    let builder = PageReaderBuilder::new(sample_db(), 512);
    assert!(matches!(builder.new_reader(99), Err(Error::OutOfRange)));
    assert!(matches!(builder.new_reader(0), Err(Error::OutOfRange)));
}

#[test]
fn unknown_page_kind_is_unsupported() {
    let page_size = 512;
    let page1 = build_page(page_size, 7, None, &[], true);
    let builder = PageReaderBuilder::new(build_db(page_size, vec![page1]), 512);
    let mut reader = builder.new_reader(1).unwrap();
    assert_eq!(reader.read_page().err(), Some(Error::Unsupported));
}

#[test]
fn reserved_serial_type_is_corrupt() {
    let page_size = 512;
    let rec = build_record(&[F::Reserved]);
    let page1 = build_page(page_size, 13, None, &[table_leaf_cell(1, &rec)], true);
    let builder = PageReaderBuilder::new(build_db(page_size, vec![page1]), 512);
    let mut reader = builder.new_reader(1).unwrap();
    assert_eq!(reader.read_page().err(), Some(Error::CorruptRecord));
}

#[test]
fn oversized_payload_is_unsupported() {
    let page_size = 512;
    let rec = build_record(&[F::Oversized]);
    let page1 = build_page(page_size, 13, None, &[table_leaf_cell(1, &rec)], true);
    let builder = PageReaderBuilder::new(build_db(page_size, vec![page1]), 512);
    let mut reader = builder.new_reader(1).unwrap();
    assert_eq!(reader.read_page().err(), Some(Error::Unsupported));
}

#[test]
fn short_page_bytes_are_corrupt() {
    assert!(matches!(PageReader::new(Vec::new(), 1), Err(Error::CorruptPage)));
    assert!(matches!(PageReader::new(vec![0u8; 50], 1), Err(Error::CorruptPage)));
}

#[test]
fn unknown_column_is_reported() {
    let qd = apples_query_details();
    assert_eq!(
        get_filter_col_pos(&Some((b("taste"), b("sweet"))), &qd),
        Err(Error::UnknownColumn)
    );
    assert_eq!(
        get_column_position(&vec![b("taste")], &qd.stmt.columns),
        Err(Error::UnknownColumn)
    );
    assert_eq!(
        get_column_position(&Vec::new(), &qd.stmt.columns),
        Err(Error::UnsupportedQuery)
    );
    assert_eq!(
        get_column_position(&vec![b("color"), b("id")], &qd.stmt.columns),
        Ok(vec![2, 0])
    );
    assert_eq!(
        get_column_position(&vec![b("*")], &qd.stmt.columns),
        Ok(vec![0, 1, 2])
    );
}

#[test]
fn interior_pointing_at_index_page_is_corrupt() {
    let page_size = 512;
    let schema = schema_record("table", "broken", "broken", 2, "CREATE TABLE broken (id integer primary key)");
    let page1 = build_page(page_size, 13, None, &[table_leaf_cell(1, &schema)], true);
    let page2 = build_page(page_size, 5, Some(3), &[], false);
    let page3 = build_page(page_size, 10, None, &[], false);
    let db = build_db(page_size, vec![page1, page2, page3]);
    let (builder, root) = read_root(db, 512);
    let idx = fetch_cell(&b("broken"), &b("table"), &root).unwrap();
    assert_eq!(count_all_rows(&root.cells[idx], &builder), Err(Error::CorruptBtree));
}

#[test]
fn binary_search_finds_first_equal_key() {
    let cells: Vec<Cell> = [1i64, 3, 5, 5, 7]
        .iter()
        .map(|&row_id| Cell::TableInt(TableIntCell { row_id, left_child_page_no: 0 }))
        .collect();
    let five = FilterValue::Int(5);
    assert_eq!(bin_search_payload(&cells, &five), Ok(SearchResult::ThisPage(2)));
    let four = FilterValue::Int(4);
    assert_eq!(bin_search_payload(&cells, &four), Ok(SearchResult::LeftPage(2)));
    let nine = FilterValue::Int(9);
    assert_eq!(bin_search_payload(&cells, &nine), Ok(SearchResult::RightPage));
    let one = FilterValue::Int(1);
    assert_eq!(bin_search_payload(&cells, &one), Ok(SearchResult::ThisPage(0)));
}

#[test]
fn listing_an_interior_page_is_corrupt() {
    let builder = PageReaderBuilder::new(multipage_db(), 512);
    let mut reader = builder.new_reader(2).unwrap();
    let interior = reader.read_page().unwrap();
    assert_eq!(list_tables(&interior), Err(Error::CorruptPage));
}

#[test]
fn matching_separator_row_is_slotted_in_by_row_id() {
    // an interior index page whose separator key equals the filter value:
    // its row must come after its left subtree's rows, by ascending row id
    let page_size = 512;
    let schema_tbl = schema_record("table", "heroes", "heroes", 2, "CREATE TABLE heroes (id integer primary key, name text)");
    let schema_idx = schema_record("index", "idx_h", "heroes", 3, "CREATE INDEX idx_h on heroes (name)");
    let page1 = build_page(page_size, 13, None, &[table_leaf_cell(1, &schema_tbl), table_leaf_cell(2, &schema_idx)], true);
    let rows = [
        table_leaf_cell(1, &build_record(&[F::Null, F::Text("Batman")])),
        table_leaf_cell(2, &build_record(&[F::Null, F::Text("Spider-Man")])),
        table_leaf_cell(3, &build_record(&[F::Null, F::Text("Spider-Man")])),
        table_leaf_cell(4, &build_record(&[F::Null, F::Text("Spider-Man")])),
        table_leaf_cell(5, &build_record(&[F::Null, F::Text("Superman")])),
    ];
    let page2 = build_page(page_size, 13, None, &rows, false);
    // index root (page 3): separator Spider-Man -> row 3, left child page 4,
    // right child page 5; the leaf run spans pages 4 and 5
    let idx_int = {
        let rec = build_record(&[F::Text("Spider-Man"), F::Int(3)]);
        let mut out = 4u32.to_be_bytes().to_vec();
        out.extend_from_slice(&varint::encode(rec.len() as u64));
        out.extend_from_slice(&rec);
        out
    };
    let page3 = build_page(page_size, 2, Some(5), &[idx_int], false);
    let left_rows = [
        idx_leaf_cell(&build_record(&[F::Text("Batman"), F::Int(1)])),
        idx_leaf_cell(&build_record(&[F::Text("Spider-Man"), F::Int(2)])),
    ];
    let page4 = build_page(page_size, 10, None, &left_rows, false);
    let right_rows = [
        idx_leaf_cell(&build_record(&[F::Text("Spider-Man"), F::Int(4)])),
        idx_leaf_cell(&build_record(&[F::Text("Superman"), F::Int(5)])),
    ];
    let page5 = build_page(page_size, 10, None, &right_rows, false);
    let db = build_db(page_size, vec![page1, page2, page3, page4, page5]);
    let (builder, root) = read_root(db, 512);
    let qd = QueryDetails {
        qtype: QueryType::CREATE,
        stmt: Statement {
            table_name: b("heroes"),
            columns: vec![b("id"), b("name")],
            filter: None,
            is_star: None,
        },
    };
    let filter = get_filter_col_pos(&Some((b("name"), b("Spider-Man"))), &qd).unwrap();
    let tbl_idx = fetch_cell(&b("heroes"), &b("table"), &root).unwrap();
    let idx_idx = fetch_cell(&b("heroes"), &b("index"), &root).unwrap();
    let via_index = perform_index_scan(
        &root.cells[idx_idx],
        &root.cells[tbl_idx],
        &builder,
        &vec![b("id"), b("name")],
        &qd,
        &filter,
    )
    .unwrap();
    assert_eq!(
        via_index,
        vec![b("2|Spider-Man"), b("3|Spider-Man"), b("4|Spider-Man")]
    );
    let via_scan = perform_full_table_scan(
        &root.cells[tbl_idx],
        &builder,
        &vec![b("id"), b("name")],
        &qd,
        &filter,
    )
    .unwrap();
    assert_eq!(via_index, via_scan);
}

#[test]
fn separator_only_match_still_emits_its_row() {
    // the only equal index entry is an interior separator: its row is
    // still found and emitted
    let page_size = 512;
    let schema_tbl = schema_record("table", "heroes", "heroes", 2, "CREATE TABLE heroes (id integer primary key, name text)");
    let schema_idx = schema_record("index", "idx_h", "heroes", 3, "CREATE INDEX idx_h on heroes (name)");
    let page1 = build_page(page_size, 13, None, &[table_leaf_cell(1, &schema_tbl), table_leaf_cell(2, &schema_idx)], true);
    let rows = [
        table_leaf_cell(1, &build_record(&[F::Null, F::Text("Batman")])),
        table_leaf_cell(3, &build_record(&[F::Null, F::Text("Spider-Man")])),
        table_leaf_cell(5, &build_record(&[F::Null, F::Text("Superman")])),
    ];
    let page2 = build_page(page_size, 13, None, &rows, false);
    let idx_int = {
        let rec = build_record(&[F::Text("Spider-Man"), F::Int(3)]);
        let mut out = 4u32.to_be_bytes().to_vec();
        out.extend_from_slice(&varint::encode(rec.len() as u64));
        out.extend_from_slice(&rec);
        out
    };
    let page3 = build_page(page_size, 2, Some(5), &[idx_int], false);
    let left_rows = [idx_leaf_cell(&build_record(&[F::Text("Batman"), F::Int(1)]))];
    let page4 = build_page(page_size, 10, None, &left_rows, false);
    let right_rows = [idx_leaf_cell(&build_record(&[F::Text("Superman"), F::Int(5)]))];
    let page5 = build_page(page_size, 10, None, &right_rows, false);
    let db = build_db(page_size, vec![page1, page2, page3, page4, page5]);
    let (builder, root) = read_root(db, 512);
    let qd = QueryDetails {
        qtype: QueryType::CREATE,
        stmt: Statement {
            table_name: b("heroes"),
            columns: vec![b("id"), b("name")],
            filter: None,
            is_star: None,
        },
    };
    let filter = get_filter_col_pos(&Some((b("name"), b("Spider-Man"))), &qd).unwrap();
    let tbl_idx = fetch_cell(&b("heroes"), &b("table"), &root).unwrap();
    let idx_idx = fetch_cell(&b("heroes"), &b("index"), &root).unwrap();
    let via_index = perform_index_scan(
        &root.cells[idx_idx],
        &root.cells[tbl_idx],
        &builder,
        &vec![b("id"), b("name")],
        &qd,
        &filter,
    )
    .unwrap();
    assert_eq!(via_index, vec![b("3|Spider-Man")]);
}

#[test]
fn filter_beyond_short_record_matches_nothing() {
    // records may be short when trailing columns are NULL: the predicate
    // is then false, not an error
    let page_size = 512;
    let schema = schema_record("table", "t", "t", 2, "CREATE TABLE t (id integer primary key, a text, c text)");
    let page1 = build_page(page_size, 13, None, &[table_leaf_cell(1, &schema)], true);
    let rows = [table_leaf_cell(1, &build_record(&[F::Null, F::Text("x")]))];
    let page2 = build_page(page_size, 13, None, &rows, false);
    let (builder, root) = read_root(build_db(page_size, vec![page1, page2]), 512);
    let idx = fetch_cell(&b("t"), &b("table"), &root).unwrap();
    let qd = QueryDetails {
        qtype: QueryType::CREATE,
        stmt: Statement {
            table_name: b("t"),
            columns: vec![b("id"), b("a"), b("c")],
            filter: None,
            is_star: None,
        },
    };
    let filter = get_filter_col_pos(&Some((b("c"), b("y"))), &qd).unwrap();
    assert_eq!(filter.filter_col_pos, 2);
    let out = perform_full_table_scan(&root.cells[idx], &builder, &vec![b("a")], &qd, &filter);
    assert_eq!(out, Ok(Vec::new()));
}

#[test]
fn blob_and_literal_fields_decode() {
    let page_size = 512;
    let rec = build_record(&[F::Blob(vec![1, 2, 3]), F::Int(-7), F::Null]);
    let page1 = build_page(page_size, 13, None, &[table_leaf_cell(1, &rec)], true);
    let builder = PageReaderBuilder::new(build_db(page_size, vec![page1]), 512);
    let mut reader = builder.new_reader(1).unwrap();
    let page = reader.read_page().unwrap();
    match &page.cells[0] {
        Cell::TableLeaf(x) => {
            assert_eq!(x.row_id, 1);
            assert_eq!(x.record.rows, vec![vec![1u8, 2, 3], b("-7"), Vec::new()]);
        }
        _ => panic!("expected a table leaf cell"),
    }
}
