use vstd::prelude::*;

verus! {

/// The four page kinds of the file format, plus a marker for any other
/// kind byte.
#[derive(Debug, PartialEq, Eq, Clone, Copy, Structural)]
pub enum PageType {
    IdxInt,
    IdxLeaf,
    TblInt,
    TblLeaf,
    Invalid,
}

/// The page kind encoded by a kind byte: 2 and 5 are interior index and
/// table pages, 10 and 13 their leaf counterparts.
pub open spec fn spec_page_type(b: u8) -> PageType {
    if b == 2 {
        PageType::IdxInt
    } else if b == 5 {
        PageType::TblInt
    } else if b == 10 {
        PageType::IdxLeaf
    } else if b == 13 {
        PageType::TblLeaf
    } else {
        PageType::Invalid
    }
}

pub fn get_page_type(page_type: &u8) -> (r: PageType)
    ensures
        r == spec_page_type(*page_type),
{
    match page_type {
        2 => PageType::IdxInt,
        5 => PageType::TblInt,
        10 => PageType::IdxLeaf,
        13 => PageType::TblLeaf,
        _ => PageType::Invalid,
    }
}

} // verus!
