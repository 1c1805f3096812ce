use vstd::prelude::*;

use crate::byte_cursor::BytesIterator;
use crate::errors::Error;
use crate::numtext::int_field_value;
use crate::page::{
    cell_matches, field_text, get_read_size, page_matches, record_matches, spec_page_meta,
    spec_read_size, spec_serial_type, Cell, CellModel, IdxIntCell, IdxLeafCell, Page, PageHeader,
    PageMetaData, PageModel, Record, RecordHeader, RecordModel, SerialType, TableIntCell,
    TableLeafCell,
};
use crate::page_type::PageType;
use crate::varint;
use crate::varint::dec_varint;

verus! {

// ---------------------------------------------------------------------------
// The record grammar, as spec functions over the page bytes
// ---------------------------------------------------------------------------

/// True when some field of the record is NULL.
pub open spec fn has_null(codes: Seq<int>) -> bool {
    exists|i: int| 0 <= i < codes.len() && codes[i] == 0
}

/// The payload size of the field a serial type code describes.
pub open spec fn type_size(code: int) -> int {
    spec_read_size(spec_serial_type(code))
}

/// The total payload size of a record's fields.
pub open spec fn total_size(codes: Seq<int>) -> int
    decreases codes.len(),
{
    if codes.len() == 0 {
        0
    } else {
        total_size(codes.drop_last()) + type_size(codes.last())
    }
}

pub proof fn lemma_total_size_nonneg(codes: Seq<int>)
    ensures
        total_size(codes) >= 0,
    decreases codes.len(),
{
    if codes.len() > 0 {
        lemma_total_size_nonneg(codes.drop_last());
    }
}

pub proof fn lemma_total_size_take_step(codes: Seq<int>, i: int)
    requires
        0 <= i < codes.len(),
    ensures
        total_size(codes.take(i + 1)) == total_size(codes.take(i)) + type_size(codes[i]),
{
    assert(codes.take(i + 1).drop_last() =~= codes.take(i));
    assert(codes.take(i + 1).last() == codes[i]);
}

pub proof fn lemma_total_size_mono(codes: Seq<int>, i: int)
    requires
        0 <= i <= codes.len(),
    ensures
        total_size(codes.take(i)) <= total_size(codes),
    decreases codes.len() - i,
{
    if i == codes.len() {
        assert(codes.take(i) =~= codes);
    } else {
        lemma_total_size_take_step(codes, i);
        lemma_total_size_mono(codes, i + 1);
    }
}

/// The serial type codes stored between `pos` and `end` of the record
/// header. Rejects reserved codes (10 and 11) and a varint that runs past
/// `end`.
pub open spec fn parse_type_codes(s: Seq<u8>, pos: int, end: int) -> Result<Seq<int>, Error>
    decreases end - pos,
    via parse_type_codes_dec
{
    if pos == end {
        Ok(Seq::empty())
    } else if pos > end {
        Err(Error::CorruptRecord)
    } else {
        match dec_varint(s, pos) {
            Err(e) => Err(e),
            Ok(p) => if pos + p.1 > end {
                Err(Error::CorruptRecord)
            } else if p.0 == 10 || p.0 == 11 {
                Err(Error::CorruptRecord)
            } else {
                match parse_type_codes(s, pos + p.1, end) {
                    Err(e) => Err(e),
                    Ok(rest) => Ok(seq![p.0].add(rest)),
                }
            },
        }
    }
}

#[via_fn]
proof fn parse_type_codes_dec(s: Seq<u8>, pos: int, end: int) {
    if pos < end {
        if dec_varint(s, pos) is Ok {
            varint::lemma_dec_rec_len(s.subrange(pos, s.len() as int), 0, 0);
        }
    }
}

/// The raw field bytes of a record whose body starts at `body`.
pub open spec fn record_fields(s: Seq<u8>, body: int, codes: Seq<int>) -> Seq<Seq<u8>> {
    Seq::new(
        codes.len(),
        |i: int|
            s.subrange(
                body + total_size(codes.take(i)),
                body + total_size(codes.take(i)) + type_size(codes[i]),
            ),
    )
}

/// The record stored at `pos`: a header-size varint that counts itself,
/// the serial type varints filling the rest of the header, and the field
/// payloads. A body that would run past the page is `Unsupported` (it
/// would continue on an overflow page).
pub open spec fn parse_record(s: Seq<u8>, pos: int) -> Result<RecordModel, Error> {
    match dec_varint(s, pos) {
        Err(e) => Err(e),
        Ok(h) => if h.0 < h.1 {
            Err(Error::CorruptRecord)
        } else {
            match parse_type_codes(s, pos + h.1, pos + h.0) {
                Err(e) => Err(e),
                Ok(codes) => if pos + h.0 + total_size(codes) > s.len() {
                    Err(Error::Unsupported)
                } else {
                    Ok(
                        RecordModel {
                            header_size: h.0,
                            type_codes: codes,
                            fields: record_fields(s, pos + h.0, codes),
                            used: h.0 + total_size(codes),
                        },
                    )
                },
            }
        },
    }
}

// ---------------------------------------------------------------------------
// The record grammar is invertible: encoding a field list and re-parsing
// it yields the identical field list
// ---------------------------------------------------------------------------

/// The encoded serial type codes of a record header.
pub open spec fn enc_type_codes(codes: Seq<int>) -> Seq<u8>
    decreases codes.len(),
{
    if codes.len() == 0 {
        Seq::empty()
    } else {
        crate::varint::enc_varint(codes[0]).add(enc_type_codes(codes.skip(1)))
    }
}

/// The concatenated field payloads of a record body.
pub open spec fn concat_fields(fields: Seq<Seq<u8>>) -> Seq<u8>
    decreases fields.len(),
{
    if fields.len() == 0 {
        Seq::empty()
    } else {
        fields[0].add(concat_fields(fields.skip(1)))
    }
}

/// The byte encoding of a record: its header-size varint, the serial
/// type varints, and the field payloads.
pub open spec fn enc_record(hsize: int, codes: Seq<int>, fields: Seq<Seq<u8>>) -> Seq<u8> {
    crate::varint::enc_varint(hsize).add(enc_type_codes(codes)).add(concat_fields(fields))
}

/// A varint sitting at `pos` of `s` decodes to its value and length.
proof fn lemma_dec_at(s: Seq<u8>, pos: int, v: u64)
    requires
        0 <= pos,
        pos + crate::varint::enc_varint(v as int).len() <= s.len(),
        s.subrange(pos, pos + crate::varint::enc_varint(v as int).len() as int)
            == crate::varint::enc_varint(v as int),
    ensures
        dec_varint(s, pos) == Ok::<(int, int), Error>(
            (v as int, crate::varint::enc_varint(v as int).len() as int),
        ),
{
    let enc = crate::varint::enc_varint(v as int);
    let ln = enc.len() as int;
    crate::varint::lemma_varint_round_trip(v);
    let s2 = s.subrange(pos, s.len() as int);
    assert(enc.subrange(0, ln) =~= enc);
    assert(s2.subrange(0, ln) =~= s.subrange(pos, pos + ln));
    assert(dec_varint(enc, 0) == crate::varint::dec_rec(enc, 0, 0));
    crate::varint::lemma_dec_rec_agree(enc, s2, 0, 0);
}

/// The serial type region between `pos` and `pos + |enc_type_codes|`
/// parses back to the codes it encodes.
proof fn lemma_parse_codes_at(s: Seq<u8>, pos: int, codes: Seq<int>)
    requires
        forall|i: int|
            0 <= i < codes.len() ==> 0 <= #[trigger] codes[i] < 0x10000000000000000 && codes[i]
                != 10 && codes[i] != 11,
        0 <= pos,
        pos + enc_type_codes(codes).len() <= s.len(),
        s.subrange(pos, pos + enc_type_codes(codes).len() as int) == enc_type_codes(codes),
    ensures
        parse_type_codes(s, pos, pos + enc_type_codes(codes).len() as int) == Ok::<
            Seq<int>,
            Error,
        >(codes),
    decreases codes.len(),
{
    if codes.len() == 0 {
        assert(codes =~= Seq::<int>::empty());
        assert(parse_type_codes(s, pos, pos) == Ok::<Seq<int>, Error>(Seq::empty()));
    } else {
        let v = codes[0] as u64;
        let enc0 = crate::varint::enc_varint(codes[0]);
        let rest = enc_type_codes(codes.skip(1));
        let l0 = enc0.len() as int;
        let lr = rest.len() as int;
        assert(enc_type_codes(codes) == enc0.add(rest));
        assert(s.subrange(pos, pos + l0) =~= enc0) by {
            assert(s.subrange(pos, pos + l0 + lr) == enc0.add(rest));
            assert forall|t: int| 0 <= t < l0 implies s.subrange(pos, pos + l0)[t] == enc0[t] by {
                assert(s.subrange(pos, pos + l0 + lr)[t] == enc0.add(rest)[t]);
            }
        }
        assert(v as int == codes[0]);
        lemma_dec_at(s, pos, v);
        assert(s.subrange(pos + l0, pos + l0 + lr) =~= rest) by {
            assert(s.subrange(pos, pos + l0 + lr) == enc0.add(rest));
            assert forall|t: int| 0 <= t < lr implies s.subrange(pos + l0, pos + l0 + lr)[t]
                == rest[t] by {
                assert(s.subrange(pos, pos + l0 + lr)[l0 + t] == enc0.add(rest)[l0 + t]);
            }
        }
        lemma_parse_codes_at(s, pos + l0, codes.skip(1));
        crate::varint::lemma_varint_round_trip(v);
        assert(parse_type_codes(s, pos, pos + l0 + lr) == Ok::<Seq<int>, Error>(
            seq![codes[0]].add(codes.skip(1)),
        ));
        assert(seq![codes[0]].add(codes.skip(1)) =~= codes);
    }
}

/// The concatenated body is exactly as long as the sizes the codes call
/// for.
proof fn lemma_concat_len_eq(codes: Seq<int>, fields: Seq<Seq<u8>>)
    requires
        fields.len() == codes.len(),
        forall|i: int|
            0 <= i < codes.len() ==> (#[trigger] fields[i]).len() == type_size(codes[i]),
    ensures
        concat_fields(fields).len() == total_size(codes),
    decreases codes.len(),
{
    if codes.len() > 0 {
        assert(fields.skip(1).len() == codes.skip(1).len());
        lemma_concat_len_eq(codes.skip(1), fields.skip(1));
        lemma_total_front(codes);
    }
}

/// The total size decomposes at the front.
proof fn lemma_total_front(codes: Seq<int>)
    requires
        codes.len() > 0,
    ensures
        total_size(codes) == type_size(codes[0]) + total_size(codes.skip(1)),
    decreases codes.len(),
{
    if codes.len() == 1 {
        assert(codes.drop_last().len() == 0);
        assert(codes.skip(1).len() == 0);
        assert(total_size(codes.drop_last()) == 0);
        assert(total_size(codes.skip(1)) == 0);
        assert(codes.last() == codes[0]);
    } else {
        lemma_total_front(codes.drop_last());
        assert(codes.drop_last().skip(1) =~= codes.skip(1).drop_last());
        assert(codes.skip(1).last() == codes.last());
        assert(codes.drop_last()[0] == codes[0]);
    }
}

/// Each field is recovered from the concatenated body at its offset.
proof fn lemma_fields_at(s: Seq<u8>, body: int, codes: Seq<int>, fields: Seq<Seq<u8>>, i: int)
    requires
        fields.len() == codes.len(),
        forall|t: int|
            0 <= t < codes.len() ==> (#[trigger] fields[t]).len() == type_size(codes[t]),
        0 <= body,
        body + total_size(codes) <= s.len(),
        s.subrange(body, body + total_size(codes)) == concat_fields(fields),
        0 <= i < codes.len(),
    ensures
        s.subrange(
            body + total_size(codes.take(i)),
            body + total_size(codes.take(i)) + type_size(codes[i]),
        ) == fields[i],
    decreases i,
{
    lemma_concat_len_eq(codes, fields);
    lemma_total_front(codes);
    lemma_total_size_nonneg(codes.skip(1));
    let l0 = type_size(codes[0]);
    if i == 0 {
        assert(codes.take(0) =~= Seq::<int>::empty());
        assert(total_size(codes.take(0)) == 0);
        assert(s.subrange(body, body + l0) =~= fields[0]) by {
            assert(s.subrange(body, body + total_size(codes)) == fields[0].add(
                concat_fields(fields.skip(1)),
            ));
            assert forall|t: int| 0 <= t < l0 implies s.subrange(body, body + l0)[t]
                == fields[0][t] by {
                assert(s.subrange(body, body + total_size(codes))[t] == fields[0].add(
                    concat_fields(fields.skip(1)),
                )[t]);
            }
        }
    } else {
        let rest_total = total_size(codes.skip(1));
        assert(fields.skip(1).len() == codes.skip(1).len());
        lemma_concat_len_eq(codes.skip(1), fields.skip(1));
        assert(s.subrange(body + l0, body + l0 + rest_total) =~= concat_fields(fields.skip(1)))
            by {
            assert(s.subrange(body, body + total_size(codes)) == fields[0].add(
                concat_fields(fields.skip(1)),
            ));
            assert forall|t: int| 0 <= t < rest_total implies s.subrange(
                body + l0,
                body + l0 + rest_total,
            )[t] == concat_fields(fields.skip(1))[t] by {
                assert(s.subrange(body, body + total_size(codes))[l0 + t] == fields[0].add(
                    concat_fields(fields.skip(1)),
                )[l0 + t]);
            }
        }
        lemma_fields_at(s, body + l0, codes.skip(1), fields.skip(1), i - 1);
        lemma_total_take_front(codes, i);
        assert(codes.skip(1)[i - 1] == codes[i]);
        assert(fields.skip(1)[i - 1] == fields[i]);
    }
}

/// The offset of field `i` decomposes at the front.
proof fn lemma_total_take_front(codes: Seq<int>, i: int)
    requires
        1 <= i <= codes.len(),
    ensures
        total_size(codes.take(i)) == type_size(codes[0]) + total_size(codes.skip(1).take(i - 1)),
    decreases i,
{
    if i == 1 {
        assert(codes.take(1).drop_last() =~= Seq::<int>::empty());
        assert(total_size(codes.take(1).drop_last()) == 0);
        assert(codes.take(1).last() == codes[0]);
        assert(codes.skip(1).take(0) =~= Seq::<int>::empty());
        assert(total_size(codes.skip(1).take(0)) == 0);
    } else {
        lemma_total_take_front(codes, i - 1);
        lemma_total_size_take_step(codes, i - 1);
        lemma_total_size_take_step(codes.skip(1), i - 2);
        assert(codes.skip(1)[i - 2] == codes[i - 1]);
    }
}

/// Record round trip: encoding any well-formed field list and re-parsing
/// the produced bytes yields the identical field list. The header size
/// must count its own varint, as the format prescribes.
pub proof fn lemma_record_round_trip(hsize: int, codes: Seq<int>, fields: Seq<Seq<u8>>)
    requires
        forall|i: int|
            0 <= i < codes.len() ==> 0 <= #[trigger] codes[i] < 0x10000000000000000 && codes[i]
                != 10 && codes[i] != 11,
        fields.len() == codes.len(),
        forall|i: int|
            0 <= i < codes.len() ==> (#[trigger] fields[i]).len() == type_size(codes[i]),
        hsize == crate::varint::enc_varint(hsize).len() + enc_type_codes(codes).len(),
        0 <= hsize < 0x10000000000000000,
    ensures
        parse_record(enc_record(hsize, codes, fields), 0) == Ok::<RecordModel, Error>(
            RecordModel {
                header_size: hsize,
                type_codes: codes,
                fields,
                used: hsize + total_size(codes),
            },
        ),
{
    let s = enc_record(hsize, codes, fields);
    let ench = crate::varint::enc_varint(hsize);
    let encc = enc_type_codes(codes);
    let body = concat_fields(fields);
    let lh = ench.len() as int;
    let lc = encc.len() as int;
    let lb = body.len() as int;
    assert(s == ench.add(encc).add(body));
    assert(s.len() == lh + lc + lb);
    assert(s.subrange(0, lh) =~= ench) by {
        assert forall|t: int| 0 <= t < lh implies s.subrange(0, lh)[t] == ench[t] by {
            assert(s[t] == ench.add(encc).add(body)[t]);
        }
    }
    lemma_dec_at(s, 0, hsize as u64);
    assert(s.subrange(lh, lh + lc) =~= encc) by {
        assert forall|t: int| 0 <= t < lc implies s.subrange(lh, lh + lc)[t] == encc[t] by {
            assert(s[lh + t] == ench.add(encc).add(body)[lh + t]);
        }
    }
    lemma_parse_codes_at(s, lh, codes);
    assert(lh + lc == hsize);
    lemma_concat_len_eq(codes, fields);
    lemma_total_size_nonneg(codes);
    assert(s.subrange(hsize, hsize + total_size(codes)) =~= body) by {
        assert forall|t: int| 0 <= t < lb implies s.subrange(hsize, hsize + lb)[t] == body[t] by {
            assert(s[hsize + t] == ench.add(encc).add(body)[hsize + t]);
        }
    }
    assert(record_fields(s, hsize, codes) =~= fields) by {
        assert forall|i: int| 0 <= i < codes.len() implies record_fields(s, hsize, codes)[i]
            == fields[i] by {
            lemma_fields_at(s, hsize, codes, fields, i);
        }
    }
    assert(parse_record(s, 0) == Ok::<RecordModel, Error>(
        RecordModel {
            header_size: hsize,
            type_codes: codes,
            fields: record_fields(s, hsize, codes),
            used: hsize + total_size(codes),
        },
    ));
}

// ---------------------------------------------------------------------------
// The page reader
// ---------------------------------------------------------------------------

/// Decodes one page from its bytes. Created positioned just past the kind
/// byte; `read_page` then decodes the remainder.
pub struct PageReader {
    pub bytes_iterator: BytesIterator,
    pub page_meta_data: PageMetaData,
    pub base: usize,
}

impl PageReader {
    /// The reader is freshly positioned on its page: the cursor sits just
    /// past the kind byte, and the metadata reflects that byte.
    pub open spec fn wf(self) -> bool {
        &&& self.base + 1 <= self.bytes_iterator.bytes@.len()
        &&& self.bytes_iterator.offset == self.base + 1
        &&& self.page_meta_data == spec_page_meta(self.bytes_iterator.bytes@[self.base as int])
        &&& (self.base == 0 || self.base == 100)
    }

    /// Positions a reader over one page's bytes. Page 1 carries the
    /// 100-byte file header, which is skipped.
    pub fn new(bytes: Vec<u8>, page_number: u32) -> (r: Result<Self, Error>)
        ensures
            match r {
                Ok(reader) => {
                    &&& reader.wf()
                    &&& reader.bytes_iterator.bytes@ == bytes@
                    &&& reader.base == (if page_number == 1 {
                        100int
                    } else {
                        0int
                    })
                },
                Err(e) => {
                    &&& e == Error::CorruptPage
                    &&& bytes@.len() < (if page_number == 1 {
                        101int
                    } else {
                        1int
                    })
                },
            },
    {
        let base: usize = if page_number == 1 {
            100
        } else {
            0
        };
        let mut bytes_iterator = BytesIterator::new(bytes);
        bytes_iterator.jump_to(base);
        let page_meta_data = match crate::page::get_page_metadata(&mut bytes_iterator) {
            Ok(m) => m,
            Err(e) => {
                return Err(e);
            },
        };
        Ok(PageReader { bytes_iterator, page_meta_data, base })
    }

    /// Maps a serial type code to its serial type.
    pub fn get_column_serial_type_info(&self, val: u64) -> (r: SerialType)
        ensures
            r == spec_serial_type(val as int),
    {
        if val == 0 {
            SerialType::NULL
        } else if val < 12 {
            if val == 1 {
                SerialType::INTEGER(1)
            } else if val == 2 {
                SerialType::INTEGER(2)
            } else if val == 3 {
                SerialType::INTEGER(3)
            } else if val == 4 {
                SerialType::INTEGER(4)
            } else if val == 5 {
                SerialType::INTEGER(6)
            } else if val == 6 {
                SerialType::INTEGER(8)
            } else if val == 7 {
                SerialType::FLOAT64(8)
            } else if val == 8 {
                SerialType::INTEGER0
            } else if val == 9 {
                SerialType::INTEGER1
            } else {
                SerialType::RESERVED
            }
        } else if val % 2 == 0 {
            SerialType::BLOB((val - 12) / 2)
        } else {
            SerialType::TEXT((val - 13) / 2)
        }
    }

    /// Reads the record under the cursor. With `null_allowed` false, a
    /// record containing a NULL field is skipped: the result is
    /// `Ok(None)` and the cursor rests at the end of the record header.
    #[verifier::loop_isolation(false)]
    fn read_record(&mut self, null_allowed: bool) -> (r: Result<Option<Record>, Error>)
        ensures
            final(self).bytes_iterator.bytes@ == old(self).bytes_iterator.bytes@,
            final(self).page_meta_data == old(self).page_meta_data,
            final(self).base == old(self).base,
            match parse_record(
                old(self).bytes_iterator.bytes@,
                old(self).bytes_iterator.offset as int,
            ) {
                Ok(m) => if null_allowed || !has_null(m.type_codes) {
                    &&& r matches Ok(o) && o matches Some(rec) && record_matches(rec, m)
                    &&& final(self).bytes_iterator.offset == old(self).bytes_iterator.offset
                        + m.used
                } else {
                    &&& r == Ok::<Option<Record>, Error>(None)
                    &&& final(self).bytes_iterator.offset == old(self).bytes_iterator.offset
                        + m.header_size
                },
                Err(e) => r == Err::<Option<Record>, Error>(e),
            },
    {
        let ghost s = self.bytes_iterator.bytes@;
        let ghost pos = self.bytes_iterator.offset as int;
        let (header_size, bytes_read) = match varint::decode(&mut self.bytes_iterator) {
            Ok(p) => p,
            Err(e) => {
                return Err(e);
            },
        };
        if header_size < bytes_read {
            return Err(Error::CorruptRecord);
        }
        let ghost end = pos + header_size;
        let mut remaining: u64 = header_size - bytes_read;
        let mut serial_types: Vec<SerialType> = Vec::new();
        let ghost mut codes: Seq<int> = Seq::empty();
        proof {
            varint::lemma_dec_rec_len(s.subrange(pos, s.len() as int), 0, 0);
            assert(codes.map_values(|c: int| spec_serial_type(c)) =~= serial_types@);
            if parse_type_codes(s, pos + bytes_read, end) is Ok {
                let rest0 = parse_type_codes(s, pos + bytes_read, end)->Ok_0;
                assert(codes.add(rest0) =~= rest0);
            }
        }
        while remaining > 0
            invariant
                self.bytes_iterator.bytes@ == s,
                self.page_meta_data == old(self).page_meta_data,
                self.base == old(self).base,
                self.bytes_iterator.offset + remaining == end,
                self.bytes_iterator.offset <= s.len(),
                serial_types@ == codes.map_values(|c: int| spec_serial_type(c)),
                forall|j: int| 0 <= j < codes.len() ==> 0 <= #[trigger] codes[j] < 0x10000000000000000,
                match parse_type_codes(s, self.bytes_iterator.offset as int, end) {
                    Ok(rest) => parse_type_codes(s, pos + bytes_read, end) == Ok::<
                        Seq<int>,
                        Error,
                    >(codes.add(rest)),
                    Err(e) => parse_type_codes(s, pos + bytes_read, end) == Err::<
                        Seq<int>,
                        Error,
                    >(e),
                },
            decreases remaining,
        {
            let ghost cur = self.bytes_iterator.offset as int;
            let (val, n) = match varint::decode(&mut self.bytes_iterator) {
                Ok(p) => p,
                Err(e) => {
                    return Err(e);
                },
            };
            proof {
                varint::lemma_dec_rec_len(s.subrange(cur, s.len() as int), 0, 0);
            }
            if n > remaining {
                return Err(Error::CorruptRecord);
            }
            if val == 10 || val == 11 {
                return Err(Error::CorruptRecord);
            }
            let st = self.get_column_serial_type_info(val);
            serial_types.push(st);
            proof {
                let rest_result = parse_type_codes(s, cur + n, end);
                let codes_old = codes;
                codes = codes.push(val as int);
                assert(serial_types@ =~= codes.map_values(|c: int| spec_serial_type(c)));
                if rest_result is Ok {
                    let rest = rest_result->Ok_0;
                    assert(parse_type_codes(s, cur, end) == Ok::<Seq<int>, Error>(
                        seq![val as int].add(rest),
                    ));
                    assert(codes_old.add(seq![val as int].add(rest)) =~= codes.add(rest));
                } else {
                    assert(parse_type_codes(s, cur, end) == rest_result);
                }
            }
            remaining = remaining - n;
        }
        proof {
            assert(parse_type_codes(s, self.bytes_iterator.offset as int, end) == Ok::<
                Seq<int>,
                Error,
            >(Seq::empty()));
            assert(codes.add(Seq::empty()) =~= codes);
        }
        // the header is fully read; check that the announced body fits the page
        let ghost body0 = self.bytes_iterator.offset as int;
        let cap: u64 = (self.bytes_iterator.bytes.len() - self.bytes_iterator.offset) as u64;
        let mut total: u64 = 0;
        let mut i: usize = 0;
        proof {
            assert(codes.take(0) =~= Seq::<int>::empty());
        }
        while i < serial_types.len()
            invariant
                i <= serial_types.len(),
                total == total_size(codes.take(i as int)),
                total <= cap,
            decreases serial_types.len() - i,
        {
            let size = get_read_size(&serial_types[i]);
            proof {
                lemma_total_size_take_step(codes, i as int);
                lemma_total_size_mono(codes, i + 1);
                lemma_total_size_nonneg(codes);
            }
            if size > cap - total {
                return Err(Error::Unsupported);
            }
            total = total + size;
            i = i + 1;
        }
        proof {
            assert(codes.take(serial_types@.len() as int) =~= codes);
            lemma_total_size_nonneg(codes);
        }
        let ghost m = parse_record(s, pos)->Ok_0;
        proof {
            assert(m.type_codes == codes);
            assert(m.header_size == header_size);
            assert(m.used == header_size + total);
        }
        // a record with a NULL field is skipped when NULLs are not allowed
        if !null_allowed {
            let mut j: usize = 0;
            while j < serial_types.len()
                invariant
                    j <= serial_types.len(),
                    forall|t: int| 0 <= t < j ==> codes[t] != 0,
                decreases serial_types.len() - j,
            {
                if serial_types[j] == SerialType::NULL {
                    proof {
                        assert(spec_serial_type(codes[j as int]) == SerialType::NULL);
                        assert(codes[j as int] == 0);
                    }
                    return Ok(None);
                }
                proof {
                    assert(spec_serial_type(codes[j as int]) != SerialType::NULL);
                    if codes[j as int] == 0 {
                        assert(spec_serial_type(codes[j as int]) == SerialType::NULL);
                    }
                }
                j = j + 1;
            }
        }
        // read and render the fields
        let mut rows: Vec<Vec<u8>> = Vec::new();
        let mut i: usize = 0;
        while i < serial_types.len()
            invariant
                i <= serial_types.len(),
                self.bytes_iterator.bytes@ == s,
                self.page_meta_data == old(self).page_meta_data,
                self.base == old(self).base,
                self.bytes_iterator.offset == body0 + total_size(codes.take(i as int)),
                rows@.len() == i,
                forall|t: int|
                    0 <= t < i ==> (#[trigger] rows@[t])@ == crate::page::rendered_row(
                        codes[t],
                        m.fields[t],
                    ),
            decreases serial_types.len() - i,
        {
            let size = get_read_size(&serial_types[i]);
            proof {
                lemma_total_size_take_step(codes, i as int);
                lemma_total_size_mono(codes, i + 1);
                lemma_total_size_nonneg(codes);
                assert(total_size(codes.take(i as int)) + size <= total_size(codes));
            }
            let field_bytes = match self.bytes_iterator.next_n(size as usize) {
                Some(b) => b,
                None => {
                    proof {
                        assert(false);
                    }
                    return Err(Error::Unsupported);
                },
            };
            proof {
                assert(field_bytes@ == m.fields[i as int]);
                let st = serial_types@[i as int];
                let c = codes[i as int];
                assert(st == spec_serial_type(c));
                if st is INTEGER {
                    assert(c == 1 || c == 2 || c == 3 || c == 4 || c == 5 || c == 6);
                    assert(st->INTEGER_0 <= 8);
                }
            }
            let row = decode(&serial_types[i], field_bytes);
            rows.push(row);
            i = i + 1;
        }
        let record = Record {
            record_header: RecordHeader { header_size, serial_types },
            rows,
        };
        proof {
            assert(record_matches(record, m));
            assert(self.bytes_iterator.offset == pos + m.used);
        }
        Ok(Some(record))
    }
}

// ---------------------------------------------------------------------------
// The page grammar, as spec functions over the page bytes
// ---------------------------------------------------------------------------

/// The big-endian sixteen-bit value at offset `i`.
pub open spec fn be16(s: Seq<u8>, i: int) -> int {
    s[i] * 256 + s[i + 1]
}

/// The big-endian thirty-two-bit value at offset `i`.
pub open spec fn be32(s: Seq<u8>, i: int) -> int {
    s[i] * 0x1000000 + s[i + 1] * 0x10000 + s[i + 2] * 0x100 + s[i + 3]
}

/// The page header stored at `base`: the kind byte, three sixteen-bit
/// fields, the fragmented-bytes count, and, on interior pages, the
/// right-most child pointer.
pub open spec fn spec_page_header(s: Seq<u8>, base: int) -> PageHeader {
    let t = crate::page_type::spec_page_type(s[base]);
    PageHeader {
        page_type: t,
        first_free_block: be16(s, base + 1) as u16,
        cell_count: be16(s, base + 3) as u16,
        cell_content_offset: be16(s, base + 5) as u16,
        fragmented_bytes: s[base + 7],
        right_pointer: if t == PageType::TblInt || t == PageType::IdxInt {
            Some(be32(s, base + 8) as u32)
        } else {
            None
        },
    }
}

/// The cell pointer array: `count` big-endian offsets starting at `start`.
pub open spec fn cell_ptrs(s: Seq<u8>, start: int, count: int) -> Result<Seq<int>, Error> {
    if start + 2 * count > s.len() {
        Err(Error::CorruptPage)
    } else {
        Ok(Seq::new(count as nat, |i: int| be16(s, start + 2 * i)))
    }
}

/// The cell stored at offset `off` of a page of the given kind. An
/// interior index cell whose record holds a NULL is skipped (`None`).
pub open spec fn parse_cell(s: Seq<u8>, off: int, kind: PageType) -> Result<
    Option<CellModel>,
    Error,
> {
    match kind {
        PageType::TblLeaf => match dec_varint(s, off) {
            Err(e) => Err(e),
            Ok(p1) => match dec_varint(s, off + p1.1) {
                Err(e) => Err(e),
                Ok(p2) => match parse_record(s, off + p1.1 + p2.1) {
                    Err(e) => Err(e),
                    Ok(m) => Ok(
                        Some(
                            CellModel::TableLeaf {
                                record_size: p1.0,
                                row_id: p2.0,
                                record: m,
                            },
                        ),
                    ),
                },
            },
        },
        PageType::TblInt => if off < 0 || off + 4 > s.len() {
            Err(Error::CorruptPage)
        } else {
            match dec_varint(s, off + 4) {
                Err(e) => Err(e),
                Ok(p) => Ok(Some(CellModel::TableInt { row_id: p.0, left_child: be32(s, off) })),
            }
        },
        PageType::IdxLeaf => match dec_varint(s, off) {
            Err(e) => Err(e),
            Ok(p1) => match parse_record(s, off + p1.1) {
                Err(e) => Err(e),
                Ok(m) => Ok(Some(CellModel::IdxLeaf { record_size: p1.0, record: m })),
            },
        },
        PageType::IdxInt => if off < 0 || off + 4 > s.len() {
            Err(Error::CorruptPage)
        } else {
            match dec_varint(s, off + 4) {
                Err(e) => Err(e),
                Ok(p1) => match parse_record(s, off + 4 + p1.1) {
                    Err(e) => Err(e),
                    Ok(m) => if has_null(m.type_codes) {
                        Ok(None)
                    } else {
                        Ok(
                            Some(
                                CellModel::IdxInt {
                                    left_child: be32(s, off),
                                    record_size: p1.0,
                                    record: m,
                                },
                            ),
                        )
                    },
                },
            }
        },
        PageType::Invalid => Err(Error::Unsupported),
    }
}

/// The cells a pointer array denotes, in listed order, skipped entries
/// left out.
pub open spec fn parse_cells(s: Seq<u8>, kind: PageType, ptrs: Seq<int>) -> Result<
    Seq<CellModel>,
    Error,
>
    decreases ptrs.len(),
{
    if ptrs.len() == 0 {
        Ok(Seq::empty())
    } else {
        match parse_cell(s, ptrs[0], kind) {
            Err(e) => Err(e),
            Ok(opt) => match parse_cells(s, kind, ptrs.skip(1)) {
                Err(e) => Err(e),
                Ok(rest) => match opt {
                    Some(m) => Ok(seq![m].add(rest)),
                    None => Ok(rest),
                },
            },
        }
    }
}

/// One whole page: the header at `base` (100 on page 1, 0 elsewhere),
/// then the pointer array, then the cells.
pub open spec fn spec_page(s: Seq<u8>, page1: bool) -> Result<PageModel, Error> {
    let base: int = if page1 {
        100
    } else {
        0
    };
    if s.len() < base + 1 {
        Err(Error::CorruptPage)
    } else {
        let meta = spec_page_meta(s[base]);
        if s.len() < base + meta.page_header_size {
            Err(Error::CorruptPage)
        } else {
            let header = spec_page_header(s, base);
            if meta.page_type == PageType::Invalid {
                Err(Error::Unsupported)
            } else {
                match cell_ptrs(s, base + meta.page_header_size, header.cell_count as int) {
                    Err(e) => Err(e),
                    Ok(ptrs) => match parse_cells(s, meta.page_type, ptrs) {
                        Err(e) => Err(e),
                        Ok(cells) => Ok(PageModel { header, cells }),
                    },
                }
            }
        }
    }
}

/// The signed row id whose two's-complement bits are the varint value `v`.
fn row_id_from_u64(v: u64) -> (r: i64)
    ensures
        r as int == crate::page::i64_of_u64bits(v as int),
{
    if v >= 0x8000000000000000 {
        -((u64::MAX - v) as i64) - 1
    } else {
        v as i64
    }
}

impl PageReader {
    /// Reads the rest of the page header (the kind byte was consumed when
    /// the reader was made) and decodes its fields.
    pub fn get_page_header(&mut self, page_header_size: usize, page_type: &PageType) -> (r: Result<
        PageHeader,
        Error,
    >)
        requires
            old(self).wf(),
            page_header_size == old(self).page_meta_data.page_header_size,
            *page_type == old(self).page_meta_data.page_type,
        ensures
            final(self).bytes_iterator.bytes@ == old(self).bytes_iterator.bytes@,
            final(self).page_meta_data == old(self).page_meta_data,
            final(self).base == old(self).base,
            ({
                let s = old(self).bytes_iterator.bytes@;
                let base = old(self).base as int;
                if s.len() >= base + page_header_size {
                    &&& r == Ok::<PageHeader, Error>(spec_page_header(s, base))
                    &&& final(self).bytes_iterator.offset == base + page_header_size
                } else {
                    r == Err::<PageHeader, Error>(Error::CorruptPage)
                }
            }),
    {
        let page_header = match self.bytes_iterator.next_n(page_header_size - 1) {
            Some(b) => b,
            None => {
                return Err(Error::CorruptPage);
            },
        };
        let right_pointer = if *page_type == PageType::TblInt || *page_type == PageType::IdxInt {
            let v: u32 = (page_header[7] as u32) * 0x1000000 + (page_header[8] as u32) * 0x10000
                + (page_header[9] as u32) * 0x100 + (page_header[10] as u32);
            Some(v)
        } else {
            None
        };
        let first_free_block: u16 = (page_header[0] as u16) * 256 + (page_header[1] as u16);
        let cell_count: u16 = (page_header[2] as u16) * 256 + (page_header[3] as u16);
        let cell_content_offset: u16 = (page_header[4] as u16) * 256 + (page_header[5] as u16);
        let fragmented_bytes: u8 = page_header[6];
        let pt = self.page_meta_data.page_type;
        Ok(
            PageHeader {
                page_type: pt,
                first_free_block,
                cell_count,
                cell_content_offset,
                fragmented_bytes,
                right_pointer,
            },
        )
    }

    /// Decodes the cell stored at `cell_offset`, of the given page kind.
    fn read_cell_at(&mut self, cell_offset: usize, kind: PageType) -> (r: Result<
        Option<Cell>,
        Error,
    >)
        requires
            kind != PageType::Invalid,
        ensures
            final(self).bytes_iterator.bytes@ == old(self).bytes_iterator.bytes@,
            final(self).page_meta_data == old(self).page_meta_data,
            final(self).base == old(self).base,
            match parse_cell(old(self).bytes_iterator.bytes@, cell_offset as int, kind) {
                Ok(o) => match o {
                    Some(m) => r matches Ok(x) && x matches Some(c) && cell_matches(c, m),
                    None => r == Ok::<Option<Cell>, Error>(None),
                },
                Err(e) => r == Err::<Option<Cell>, Error>(e),
            },
    {
        self.bytes_iterator.jump_to(cell_offset);
        match kind {
            PageType::TblLeaf => {
                let (record_size, _n1) = match varint::decode(&mut self.bytes_iterator) {
                    Ok(p) => p,
                    Err(e) => {
                        return Err(e);
                    },
                };
                let (row_id_u, _n2) = match varint::decode(&mut self.bytes_iterator) {
                    Ok(p) => p,
                    Err(e) => {
                        return Err(e);
                    },
                };
                let record = match self.read_record(true) {
                    Ok(Some(rec)) => rec,
                    Ok(None) => {
                        proof {
                            assert(false);
                        }
                        return Err(Error::CorruptRecord);
                    },
                    Err(e) => {
                        return Err(e);
                    },
                };
                Ok(
                    Some(
                        Cell::TableLeaf(
                            TableLeafCell {
                                record_size,
                                row_id: row_id_from_u64(row_id_u),
                                record,
                            },
                        ),
                    ),
                )
            },
            PageType::TblInt => {
                let four = match self.bytes_iterator.next_n(4) {
                    Some(b) => b,
                    None => {
                        return Err(Error::CorruptPage);
                    },
                };
                let left_child_page_no: u32 = (four[0] as u32) * 0x1000000 + (four[1] as u32)
                    * 0x10000 + (four[2] as u32) * 0x100 + (four[3] as u32);
                let (row_id_u, _n) = match varint::decode(&mut self.bytes_iterator) {
                    Ok(p) => p,
                    Err(e) => {
                        return Err(e);
                    },
                };
                Ok(
                    Some(
                        Cell::TableInt(
                            TableIntCell { row_id: row_id_from_u64(row_id_u), left_child_page_no },
                        ),
                    ),
                )
            },
            PageType::IdxLeaf => {
                let (record_size, _n1) = match varint::decode(&mut self.bytes_iterator) {
                    Ok(p) => p,
                    Err(e) => {
                        return Err(e);
                    },
                };
                let record = match self.read_record(true) {
                    Ok(Some(rec)) => rec,
                    Ok(None) => {
                        proof {
                            assert(false);
                        }
                        return Err(Error::CorruptRecord);
                    },
                    Err(e) => {
                        return Err(e);
                    },
                };
                Ok(Some(Cell::IdxLeaf(IdxLeafCell { record_size, record })))
            },
            PageType::IdxInt => {
                let four = match self.bytes_iterator.next_n(4) {
                    Some(b) => b,
                    None => {
                        return Err(Error::CorruptPage);
                    },
                };
                let left_child_page_no: u32 = (four[0] as u32) * 0x1000000 + (four[1] as u32)
                    * 0x10000 + (four[2] as u32) * 0x100 + (four[3] as u32);
                let (record_size, _n) = match varint::decode(&mut self.bytes_iterator) {
                    Ok(p) => p,
                    Err(e) => {
                        return Err(e);
                    },
                };
                match self.read_record(false) {
                    Ok(Some(record)) => Ok(
                        Some(
                            Cell::IdxInt(IdxIntCell { left_child_page_no, record_size, record }),
                        ),
                    ),
                    Ok(None) => Ok(None),
                    Err(e) => Err(e),
                }
            },
            PageType::Invalid => {
                proof {
                    assert(false);
                }
                Err(Error::Unsupported)
            },
        }
    }

    /// Reads the cell pointer array under the cursor and decodes each
    /// listed cell of the given kind, in order.
    #[verifier::loop_isolation(false)]
    #[verifier::rlimit(100)]
    fn read_cells_of_kind(&mut self, cell_count: u16, kind: PageType) -> (r: Result<
        Vec<Cell>,
        Error,
    >)
        requires
            kind != PageType::Invalid,
        ensures
            final(self).bytes_iterator.bytes@ == old(self).bytes_iterator.bytes@,
            final(self).page_meta_data == old(self).page_meta_data,
            final(self).base == old(self).base,
            ({
                let s = old(self).bytes_iterator.bytes@;
                let p0 = old(self).bytes_iterator.offset as int;
                match cell_ptrs(s, p0, cell_count as int) {
                    Err(e) => r == Err::<Vec<Cell>, Error>(e),
                    Ok(ptrs) => match parse_cells(s, kind, ptrs) {
                        Err(e) => r == Err::<Vec<Cell>, Error>(e),
                        Ok(ms) => r matches Ok(cs) && crate::page::cells_match(cs@, ms),
                    },
                }
            }),
    {
        let ghost s = self.bytes_iterator.bytes@;
        let ghost p0 = self.bytes_iterator.offset as int;
        let mut cell_offsets_iterator = match self.bytes_iterator.next_n_as_iter(
            (cell_count as usize) * 2,
        ) {
            Some(it) => it,
            None => {
                return Err(Error::CorruptPage);
            },
        };
        let ghost ptrs = cell_ptrs(s, p0, cell_count as int)->Ok_0;
        let mut cells: Vec<Cell> = Vec::new();
        let ghost mut models: Seq<CellModel> = Seq::empty();
        let mut i: usize = 0;
        proof {
            assert(ptrs.skip(0) =~= ptrs);
            if parse_cells(s, kind, ptrs) is Ok {
                assert(models.add(parse_cells(s, kind, ptrs)->Ok_0) =~= parse_cells(
                    s,
                    kind,
                    ptrs,
                )->Ok_0);
            }
        }
        while i < cell_count as usize
            invariant
                i <= cell_count,
                self.bytes_iterator.bytes@ == s,
                self.page_meta_data == old(self).page_meta_data,
                self.base == old(self).base,
                cell_offsets_iterator.bytes@ == s.subrange(p0, p0 + 2 * (cell_count as int)),
                cell_offsets_iterator.offset == 2 * i,
                ptrs == cell_ptrs(s, p0, cell_count as int)->Ok_0,
                ptrs.len() == cell_count,
                crate::page::cells_match(cells@, models),
                match parse_cells(s, kind, ptrs.skip(i as int)) {
                    Ok(rest) => parse_cells(s, kind, ptrs) == Ok::<Seq<CellModel>, Error>(
                        models.add(rest),
                    ),
                    Err(e) => parse_cells(s, kind, ptrs) == Err::<Seq<CellModel>, Error>(e),
                },
            decreases cell_count - i,
        {
            let off_bytes = match cell_offsets_iterator.next_n(2) {
                Some(b) => b,
                None => {
                    proof {
                        assert(false);
                    }
                    return Err(Error::CorruptPage);
                },
            };
            let cell_offset: usize = (off_bytes[0] as usize) * 256 + (off_bytes[1] as usize);
            proof {
                assert(off_bytes@[0] == s[p0 + 2 * (i as int)]);
                assert(off_bytes@[1] == s[p0 + 2 * (i as int) + 1]);
                assert(ptrs[i as int] == be16(s, p0 + 2 * (i as int)));
                assert(cell_offset as int == ptrs[i as int]);
                assert(ptrs.skip(i as int)[0] == ptrs[i as int]);
                assert(ptrs.skip(i as int).skip(1) =~= ptrs.skip(i as int + 1));
            }
            let cell_opt = match self.read_cell_at(cell_offset, kind) {
                Ok(o) => o,
                Err(e) => {
                    return Err(e);
                },
            };
            match cell_opt {
                Some(c) => {
                    cells.push(c);
                    proof {
                        let m = parse_cell(s, ptrs[i as int], kind)->Ok_0->Some_0;
                        let models_old = models;
                        models = models.push(m);
                        if parse_cells(s, kind, ptrs.skip(i as int + 1)) is Ok {
                            let rest = parse_cells(s, kind, ptrs.skip(i as int + 1))->Ok_0;
                            assert(models_old.add(seq![m].add(rest)) =~= models.add(rest));
                        }
                    }
                },
                None => {},
            }
            i = i + 1;
        }
        proof {
            assert(ptrs.skip(i as int) =~= Seq::<int>::empty());
            assert(parse_cells(s, kind, ptrs.skip(i as int)) == Ok::<Seq<CellModel>, Error>(
                Seq::empty(),
            ));
            assert(models.add(Seq::empty()) =~= models);
        }
        Ok(cells)
    }

    fn read_table_leaf_cells(&mut self, cell_count: u16) -> (r: Result<Vec<Cell>, Error>)
        ensures
            final(self).bytes_iterator.bytes@ == old(self).bytes_iterator.bytes@,
            final(self).page_meta_data == old(self).page_meta_data,
            final(self).base == old(self).base,
            read_cells_post(
                old(self).bytes_iterator.bytes@,
                old(self).bytes_iterator.offset as int,
                cell_count as int,
                PageType::TblLeaf,
                r,
            ),
    {
        self.read_cells_of_kind(cell_count, PageType::TblLeaf)
    }

    fn read_table_int_cell(&mut self, cell_count: u16) -> (r: Result<Vec<Cell>, Error>)
        ensures
            final(self).bytes_iterator.bytes@ == old(self).bytes_iterator.bytes@,
            final(self).page_meta_data == old(self).page_meta_data,
            final(self).base == old(self).base,
            read_cells_post(
                old(self).bytes_iterator.bytes@,
                old(self).bytes_iterator.offset as int,
                cell_count as int,
                PageType::TblInt,
                r,
            ),
    {
        self.read_cells_of_kind(cell_count, PageType::TblInt)
    }

    fn read_index_leaf_cells(&mut self, cell_count: u16) -> (r: Result<Vec<Cell>, Error>)
        ensures
            final(self).bytes_iterator.bytes@ == old(self).bytes_iterator.bytes@,
            final(self).page_meta_data == old(self).page_meta_data,
            final(self).base == old(self).base,
            read_cells_post(
                old(self).bytes_iterator.bytes@,
                old(self).bytes_iterator.offset as int,
                cell_count as int,
                PageType::IdxLeaf,
                r,
            ),
    {
        self.read_cells_of_kind(cell_count, PageType::IdxLeaf)
    }

    fn read_index_int_cell(&mut self, cell_count: u16) -> (r: Result<Vec<Cell>, Error>)
        ensures
            final(self).bytes_iterator.bytes@ == old(self).bytes_iterator.bytes@,
            final(self).page_meta_data == old(self).page_meta_data,
            final(self).base == old(self).base,
            read_cells_post(
                old(self).bytes_iterator.bytes@,
                old(self).bytes_iterator.offset as int,
                cell_count as int,
                PageType::IdxInt,
                r,
            ),
    {
        self.read_cells_of_kind(cell_count, PageType::IdxInt)
    }

    /// Decodes the whole page under this reader.
    pub fn read_page(&mut self) -> (r: Result<Page, Error>)
        requires
            old(self).wf(),
        ensures
            match spec_page(old(self).bytes_iterator.bytes@, old(self).base == 100) {
                Ok(m) => r matches Ok(p) && page_matches(p, m),
                Err(e) => r == Err::<Page, Error>(e),
            },
    {
        let page_header_size = self.page_meta_data.page_header_size;
        let page_type = self.page_meta_data.page_type;
        let page_header = match self.get_page_header(page_header_size, &page_type) {
            Ok(h) => h,
            Err(e) => {
                return Err(e);
            },
        };
        let cells = match page_type {
            PageType::TblLeaf => self.read_table_leaf_cells(page_header.cell_count),
            PageType::TblInt => self.read_table_int_cell(page_header.cell_count),
            PageType::IdxLeaf => self.read_index_leaf_cells(page_header.cell_count),
            PageType::IdxInt => self.read_index_int_cell(page_header.cell_count),
            PageType::Invalid => {
                return Err(Error::Unsupported);
            },
        };
        let cells = match cells {
            Ok(c) => c,
            Err(e) => {
                return Err(e);
            },
        };
        Ok(Page { page_header, cells })
    }
}

/// What reading a cell array from `p0` of `s` returns, for each outcome of
/// the pointer array and the cells it lists.
pub open spec fn read_cells_post(
    s: Seq<u8>,
    p0: int,
    count: int,
    kind: PageType,
    r: Result<Vec<Cell>, Error>,
) -> bool {
    match cell_ptrs(s, p0, count) {
        Err(e) => r == Err::<Vec<Cell>, Error>(e),
        Ok(ptrs) => match parse_cells(s, kind, ptrs) {
            Err(e) => r == Err::<Vec<Cell>, Error>(e),
            Ok(ms) => r matches Ok(cs) && crate::page::cells_match(cs@, ms),
        },
    }
}

// ---------------------------------------------------------------------------
// The pager
// ---------------------------------------------------------------------------

/// The bytes of page `no`: the `page_size` bytes at offset
/// `(no - 1) * page_size`.
pub open spec fn spec_page_bytes(db: Seq<u8>, page_size: int, no: int) -> Result<Seq<u8>, Error> {
    if no < 1 || no * page_size > db.len() {
        Err(Error::OutOfRange)
    } else {
        Ok(db.subrange((no - 1) * page_size, no * page_size))
    }
}

/// The page `no` decodes to: its bytes, then the page grammar.
pub open spec fn spec_read_page(db: Seq<u8>, page_size: int, no: int) -> Result<PageModel, Error> {
    match spec_page_bytes(db, page_size, no) {
        Err(e) => Err(e),
        Ok(b) => spec_page(b, no == 1),
    }
}

/// Hands out page readers over an in-memory database image. The pager
/// keeps no state beyond the image and the page size; each reader gets
/// its own copy of its page's bytes.
pub struct PageReaderBuilder {
    pub db: Vec<u8>,
    pub page_size: u16,
}

impl PageReaderBuilder {
    pub fn new(db: Vec<u8>, page_size: u16) -> (r: Self)
        ensures
            r.db@ == db@,
            r.page_size == page_size,
    {
        Self { db, page_size }
    }

    /// A reader over page `page_number`, or `OutOfRange` when the page
    /// lies past the end of the image.
    #[verifier::loop_isolation(false)]
    pub fn new_reader(&self, page_number: u32) -> (r: Result<PageReader, Error>)
        ensures
            match spec_page_bytes(self.db@, self.page_size as int, page_number as int) {
                Err(e) => r == Err::<PageReader, Error>(e),
                Ok(b) => match r {
                    Ok(reader) => {
                        &&& reader.wf()
                        &&& reader.bytes_iterator.bytes@ == b
                        &&& reader.base == (if page_number == 1 {
                            100int
                        } else {
                            0int
                        })
                    },
                    Err(e) => {
                        &&& e == Error::CorruptPage
                        &&& b.len() < (if page_number == 1 {
                            101int
                        } else {
                            1int
                        })
                    },
                },
            },
    {
        if page_number == 0 {
            return Err(Error::OutOfRange);
        }
        let ps = self.page_size as u64;
        proof {
            assert((page_number as int) * (ps as int) <= 0x100000000 * 0x10000) by (nonlinear_arith)
                requires
                    page_number as int <= 0x100000000,
                    ps as int <= 0x10000,
                    page_number as int >= 0,
                    ps as int >= 0,
            ;
            assert((page_number as int - 1) * (ps as int) + ps as int == (page_number as int) * (
            ps as int)) by (nonlinear_arith);
        }
        let start: u64 = (page_number as u64 - 1) * ps;
        let end: u64 = start + ps;
        if end > self.db.len() as u64 {
            return Err(Error::OutOfRange);
        }
        let start_us = start as usize;
        let len_us = self.page_size as usize;
        let mut bytes: Vec<u8> = Vec::new();
        let mut i: usize = 0;
        while i < len_us
            invariant
                i <= len_us,
                start_us + len_us <= self.db@.len(),
                bytes@ == self.db@.subrange(start_us as int, start_us + i),
            decreases len_us - i,
        {
            bytes.push(self.db[start_us + i]);
            i = i + 1;
            proof {
                assert(bytes@ =~= self.db@.subrange(start_us as int, start_us + i));
            }
        }
        proof {
            assert(bytes@ == spec_page_bytes(
                self.db@,
                self.page_size as int,
                page_number as int,
            )->Ok_0);
        }
        PageReader::new(bytes, page_number)
    }
}

/// Renders one field's payload bytes as text, per its serial type.
pub fn decode(serial_type: &SerialType, row: Vec<u8>) -> (r: Vec<u8>)
    requires
        *serial_type matches SerialType::INTEGER(w) ==> row@.len() <= 8,
    ensures
        r@ == field_text(*serial_type, row@),
{
    match serial_type {
        SerialType::INTEGER(_size) => {
            let v = int_field_value(row.as_slice());
            crate::numtext::i64_text(v)
        },
        SerialType::TEXT(_size) => row,
        SerialType::BLOB(_size) => row,
        SerialType::FLOAT64(_size) => row,
        SerialType::INTEGER0 => {
            let mut r: Vec<u8> = Vec::new();
            r.push(48);
            r
        },
        SerialType::INTEGER1 => {
            let mut r: Vec<u8> = Vec::new();
            r.push(49);
            r
        },
        SerialType::NULL => Vec::new(),
        SerialType::RESERVED => Vec::new(),
    }
}

} // verus!
