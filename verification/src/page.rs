use vstd::prelude::*;

use crate::byte_cursor::BytesIterator;
use crate::errors::Error;
use crate::numtext::{be_sint, int_text};
use crate::page_type::{get_page_type, spec_page_type, PageType};

verus! {

// ---------------------------------------------------------------------------
// Serial types
// ---------------------------------------------------------------------------

/// The kind and width of one record field, as encoded by its serial type.
/// The payload of `INTEGER` and `FLOAT64` is the byte width; the payload of
/// `BLOB` and `TEXT` is the byte length.
///
/// A `FLOAT64` field is carried, not interpreted: this library holds no
/// floating-point code, so such a field decodes to its eight raw
/// big-endian bytes and a front-end that needs the numeric text must
/// reinterpret them itself.
#[derive(Debug, Clone, Copy, PartialEq, Eq, Structural)]
pub enum SerialType {
    NULL,
    INTEGER0,
    INTEGER1,
    INTEGER(u64),
    FLOAT64(u64),
    BLOB(u64),
    TEXT(u64),
    RESERVED,
}

/// The serial type denoted by a code: 0 is NULL; 1 to 6 are integers of
/// widths 1, 2, 3, 4, 6 and 8; 7 is an eight-byte float; 8 and 9 are the
/// integer literals 0 and 1; 10 and 11 are reserved; an even code of 12 or
/// more is a blob of (code-12)/2 bytes; an odd code of 13 or more is text
/// of (code-13)/2 bytes.
pub open spec fn spec_serial_type(code: int) -> SerialType {
    if code == 0 {
        SerialType::NULL
    } else if code == 1 {
        SerialType::INTEGER(1)
    } else if code == 2 {
        SerialType::INTEGER(2)
    } else if code == 3 {
        SerialType::INTEGER(3)
    } else if code == 4 {
        SerialType::INTEGER(4)
    } else if code == 5 {
        SerialType::INTEGER(6)
    } else if code == 6 {
        SerialType::INTEGER(8)
    } else if code == 7 {
        SerialType::FLOAT64(8)
    } else if code == 8 {
        SerialType::INTEGER0
    } else if code == 9 {
        SerialType::INTEGER1
    } else if code == 10 || code == 11 {
        SerialType::RESERVED
    } else if code % 2 == 0 {
        SerialType::BLOB(((code - 12) / 2) as u64)
    } else {
        SerialType::TEXT(((code - 13) / 2) as u64)
    }
}

/// The number of payload bytes a field of this serial type occupies.
pub open spec fn spec_read_size(st: SerialType) -> int {
    match st {
        SerialType::NULL => 0,
        SerialType::INTEGER0 => 0,
        SerialType::INTEGER1 => 0,
        SerialType::INTEGER(size) => size as int,
        SerialType::FLOAT64(size) => size as int,
        SerialType::BLOB(size) => size as int,
        SerialType::TEXT(size) => size as int,
        SerialType::RESERVED => 0,
    }
}

pub fn get_read_size(serial_type: &SerialType) -> (r: u64)
    ensures
        r as int == spec_read_size(*serial_type),
{
    match serial_type {
        SerialType::INTEGER0 => 0,
        SerialType::INTEGER1 => 0,
        SerialType::NULL => 0,
        SerialType::INTEGER(size) => *size,
        SerialType::FLOAT64(size) => *size,
        SerialType::BLOB(size) => *size,
        SerialType::TEXT(size) => *size,
        SerialType::RESERVED => 0,
    }
}

/// The text a decoded field carries. Integers render as decimal text;
/// the literals 0 and 1 render as "0" and "1"; NULL renders empty; text
/// and blob bytes pass through unchanged. A float field passes its eight
/// raw big-endian bytes through, deliberately unformatted: floating
/// point stays outside this library, and a consumer that must show such
/// a field as a number reinterprets the bytes itself.
pub open spec fn field_text(st: SerialType, data: Seq<u8>) -> Seq<u8> {
    match st {
        SerialType::NULL => Seq::empty(),
        SerialType::INTEGER0 => seq![48u8],
        SerialType::INTEGER1 => seq![49u8],
        SerialType::INTEGER(size) => int_text(be_sint(data)),
        SerialType::FLOAT64(size) => data,
        SerialType::BLOB(size) => data,
        SerialType::TEXT(size) => data,
        SerialType::RESERVED => Seq::empty(),
    }
}

// ---------------------------------------------------------------------------
// Records and cells
// ---------------------------------------------------------------------------

/// The self-describing header of a record: its declared size (which counts
/// its own leading varint) and the serial types of its fields.
#[derive(Debug, Clone, PartialEq, Eq)]
pub struct RecordHeader {
    pub header_size: u64,
    pub serial_types: Vec<SerialType>,
}

/// A decoded record: its header and one decoded text value per field.
#[derive(Debug, Clone, PartialEq, Eq)]
pub struct Record {
    pub record_header: RecordHeader,
    pub rows: Vec<Vec<u8>>,
}

#[derive(Debug, Clone, PartialEq, Eq)]
pub struct TableLeafCell {
    pub record_size: u64,
    pub row_id: i64,
    pub record: Record,
}

#[derive(Debug, Clone, PartialEq, Eq)]
pub struct TableIntCell {
    pub row_id: i64,
    pub left_child_page_no: u32,
}

#[derive(Debug, Clone, PartialEq, Eq)]
pub struct IdxLeafCell {
    pub record_size: u64,
    pub record: Record,
}

#[derive(Debug, Clone, PartialEq, Eq)]
pub struct IdxIntCell {
    pub left_child_page_no: u32,
    pub record_size: u64,
    pub record: Record,
}

/// One decoded cell, tagged by its page kind.
#[derive(Debug, Clone, PartialEq, Eq)]
pub enum Cell {
    TableLeaf(TableLeafCell),
    TableInt(TableIntCell),
    IdxLeaf(IdxLeafCell),
    IdxInt(IdxIntCell),
}

impl Cell {
    /// The record this cell carries, if its kind has one.
    pub fn record(&self) -> (r: Option<&Record>)
        ensures
            match self {
                Cell::TableLeaf(c) => r matches Some(rec) && *rec == c.record,
                Cell::TableInt(c) => r is None,
                Cell::IdxLeaf(c) => r matches Some(rec) && *rec == c.record,
                Cell::IdxInt(c) => r matches Some(rec) && *rec == c.record,
            },
    {
        match self {
            Cell::TableLeaf(c) => Some(&c.record),
            Cell::TableInt(_) => None,
            Cell::IdxLeaf(c) => Some(&c.record),
            Cell::IdxInt(c) => Some(&c.record),
        }
    }

    /// The left child pointer, on interior cells.
    pub fn left_child_page_no(&self) -> (r: Option<u32>)
        ensures
            match self {
                Cell::TableLeaf(c) => r is None,
                Cell::TableInt(c) => r == Some(c.left_child_page_no),
                Cell::IdxLeaf(c) => r is None,
                Cell::IdxInt(c) => r == Some(c.left_child_page_no),
            },
    {
        match self {
            Cell::TableLeaf(_) => None,
            Cell::TableInt(c) => Some(c.left_child_page_no),
            Cell::IdxLeaf(_) => None,
            Cell::IdxInt(c) => Some(c.left_child_page_no),
        }
    }

    /// The row id, on table cells.
    pub fn row_id(&self) -> (r: Option<i64>)
        ensures
            match self {
                Cell::TableLeaf(c) => r == Some(c.row_id),
                Cell::TableInt(c) => r == Some(c.row_id),
                Cell::IdxLeaf(c) => r is None,
                Cell::IdxInt(c) => r is None,
            },
    {
        match self {
            Cell::TableLeaf(c) => Some(c.row_id),
            Cell::TableInt(c) => Some(c.row_id),
            Cell::IdxLeaf(_) => None,
            Cell::IdxInt(_) => None,
        }
    }
}

// ---------------------------------------------------------------------------
// Pages
// ---------------------------------------------------------------------------

/// The decoded fields of a page header.
#[derive(Debug, Clone, Copy, PartialEq, Eq)]
pub struct PageHeader {
    pub page_type: PageType,
    pub first_free_block: u16,
    pub cell_count: u16,
    pub cell_content_offset: u16,
    pub fragmented_bytes: u8,
    pub right_pointer: Option<u32>,
}

/// A fully decoded page: its header and its cells, in cell pointer order.
#[derive(Debug, Clone, PartialEq, Eq)]
pub struct Page {
    pub page_header: PageHeader,
    pub cells: Vec<Cell>,
}

impl Page {
    pub fn new(page_header: PageHeader, cells: Vec<Cell>) -> (r: Self)
        ensures
            r.page_header == page_header,
            r.cells@ == cells@,
    {
        Self { page_header, cells }
    }
}

/// The page kind together with the size of its on-page header.
#[derive(Debug, Clone, Copy, PartialEq, Eq, Structural)]
pub struct PageMetaData {
    pub page_type: PageType,
    pub page_header_size: usize,
}

/// The metadata encoded by a kind byte: interior pages carry a twelve-byte
/// header, leaf pages an eight-byte one.
pub open spec fn spec_page_meta(b: u8) -> PageMetaData {
    let t = spec_page_type(b);
    PageMetaData {
        page_type: t,
        page_header_size: if t == PageType::IdxInt || t == PageType::TblInt {
            12
        } else {
            8
        },
    }
}

/// Reads the kind byte under the cursor and derives the page metadata.
pub fn get_page_metadata(bytes_iterator: &mut BytesIterator) -> (r: Result<PageMetaData, Error>)
    ensures
        final(bytes_iterator).bytes@ == old(bytes_iterator).bytes@,
        old(bytes_iterator).offset < old(bytes_iterator).bytes@.len() ==> {
            &&& r == Ok::<PageMetaData, Error>(
                spec_page_meta(old(bytes_iterator).bytes@[old(bytes_iterator).offset as int]),
            )
            &&& final(bytes_iterator).offset == old(bytes_iterator).offset + 1
        },
        old(bytes_iterator).offset >= old(bytes_iterator).bytes@.len() ==> {
            &&& r == Err::<PageMetaData, Error>(Error::CorruptPage)
            &&& *final(bytes_iterator) == *old(bytes_iterator)
        },
{
    let byte = match bytes_iterator.next() {
        Some(b) => b,
        None => {
            return Err(Error::CorruptPage);
        },
    };
    let page_type = get_page_type(&byte);
    if page_type == PageType::IdxInt || page_type == PageType::TblInt {
        Ok(PageMetaData { page_type, page_header_size: 12 })
    } else {
        Ok(PageMetaData { page_type, page_header_size: 8 })
    }
}

/// The outcome of a binary search over a page's cells: the index of the
/// first cell whose key equals the target, the index of the first cell
/// whose key exceeds it, or the direction of the right-most child when
/// every key falls short.
#[derive(Debug, Clone, Copy, PartialEq, Eq, Structural)]
pub enum SearchResult {
    ThisPage(usize),
    LeftPage(usize),
    RightPage,
}

// ---------------------------------------------------------------------------
// Models: the mathematical shape of decoded records, cells and pages
// ---------------------------------------------------------------------------

/// The raw decomposition of a record: its declared header size, the serial
/// type code of each field, the raw payload bytes of each field, and the
/// total byte count of the record.
pub struct RecordModel {
    pub header_size: int,
    pub type_codes: Seq<int>,
    pub fields: Seq<Seq<u8>>,
    pub used: int,
}

/// The raw decomposition of a cell.
pub enum CellModel {
    TableLeaf { record_size: int, row_id: int, record: RecordModel },
    TableInt { row_id: int, left_child: int },
    IdxLeaf { record_size: int, record: RecordModel },
    IdxInt { left_child: int, record_size: int, record: RecordModel },
}

/// The raw decomposition of a page.
pub struct PageModel {
    pub header: PageHeader,
    pub cells: Seq<CellModel>,
}

/// The signed 64-bit value whose two's-complement bits encode `v`.
pub open spec fn i64_of_u64bits(v: int) -> int {
    if v < 0x8000000000000000 {
        v
    } else {
        v - 0x10000000000000000
    }
}

/// The rendered text of field `i` of a raw record.
pub open spec fn rendered_row(code: int, data: Seq<u8>) -> Seq<u8> {
    field_text(spec_serial_type(code), data)
}

/// The decoded `Record` that the raw record `m` gives rise to.
pub open spec fn record_matches(r: Record, m: RecordModel) -> bool {
    &&& r.record_header.header_size == m.header_size
    &&& r.record_header.serial_types@ == m.type_codes.map_values(|c: int| spec_serial_type(c))
    &&& r.rows@.len() == m.type_codes.len()
    &&& forall|i: int|
        0 <= i < m.type_codes.len() ==> (#[trigger] r.rows@[i])@ == rendered_row(
            m.type_codes[i],
            m.fields[i],
        )
}

/// The decoded `Cell` that the raw cell `m` gives rise to.
pub open spec fn cell_matches(c: Cell, m: CellModel) -> bool {
    match m {
        CellModel::TableLeaf { record_size, row_id, record } => {
            &&& c matches Cell::TableLeaf(x)
            &&& x.record_size == record_size
            &&& x.row_id == i64_of_u64bits(row_id)
            &&& record_matches(x.record, record)
        },
        CellModel::TableInt { row_id, left_child } => {
            &&& c matches Cell::TableInt(x)
            &&& x.row_id == i64_of_u64bits(row_id)
            &&& x.left_child_page_no == left_child
        },
        CellModel::IdxLeaf { record_size, record } => {
            &&& c matches Cell::IdxLeaf(x)
            &&& x.record_size == record_size
            &&& record_matches(x.record, record)
        },
        CellModel::IdxInt { left_child, record_size, record } => {
            &&& c matches Cell::IdxInt(x)
            &&& x.left_child_page_no == left_child
            &&& x.record_size == record_size
            &&& record_matches(x.record, record)
        },
    }
}

/// The decoded cells that the raw cells `ms` give rise to.
pub open spec fn cells_match(cs: Seq<Cell>, ms: Seq<CellModel>) -> bool {
    &&& cs.len() == ms.len()
    &&& forall|i: int| 0 <= i < ms.len() ==> cell_matches(#[trigger] cs[i], ms[i])
}

/// The decoded `Page` that the raw page `m` gives rise to.
pub open spec fn page_matches(p: Page, m: PageModel) -> bool {
    &&& p.page_header == m.header
    &&& cells_match(p.cells@, m.cells)
}

} // verus!
