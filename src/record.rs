use vstd::prelude::*;

use crate::text::{
    all_digits, decimal, digits_value, fields, parse_u64, push_decimal, split_fields, views,
};

verus! {

/// One occurrence record: a vertex-pair id, its multiplicity and an orbit-pair
/// label.
#[derive(Debug, Clone, PartialEq, Eq)]
pub struct Record {
    pub uv: Vec<u8>,
    pub c: u64,
    pub op: Vec<u8>,
}

/// Why a stream line is not a record.
#[derive(Debug, Clone, Copy, PartialEq, Eq, Structural)]
pub enum ParseError {
    /// The line does not hold exactly three fields.
    FieldCount,
    /// The middle field is not a decimal `u64`.
    Count,
}

/// The count field is a decimal number that fits in a `u64`.
pub open spec fn is_count(f: Seq<u8>) -> bool {
    f.len() > 0 && all_digits(f) && digits_value(f) <= u64::MAX
}

/// The record that a stream line holds: `uv c op`, separated by whitespace.
pub open spec fn record_of(line: Seq<u8>) -> Option<(Seq<u8>, nat, Seq<u8>)> {
    let f = fields(line);
    if f.len() == 3 && is_count(f[1]) {
        Some((f[0], digits_value(f[1]), f[2]))
    } else {
        None
    }
}

/// The key that the sketch counts a record under: `uv:op`.
pub open spec fn key_of(uv: Seq<u8>, op: Seq<u8>) -> Seq<u8> {
    uv + seq![0x3Au8] + op
}

/// The line that a record leaves in the buffer: `uv c op` and a newline.
pub open spec fn buffer_line_of(uv: Seq<u8>, c: nat, op: Seq<u8>) -> Seq<u8> {
    uv + seq![0x20u8] + decimal(c) + seq![0x20u8] + op + seq![0x0Au8]
}

/// Reads one stream line as a record.
pub fn parse_record(line: &[u8]) -> (r: Result<Record, ParseError>)
    ensures
        r matches Err(ParseError::FieldCount) <==> fields(line@).len() != 3,
        r matches Err(ParseError::Count) <==> fields(line@).len() == 3 && !is_count(
            fields(line@)[1],
        ),
        r matches Ok(rec) ==> record_of(line@) == Some((rec.uv@, rec.c as nat, rec.op@)),
        r is Ok <==> record_of(line@) is Some,
{
    let mut f = split_fields(line);
    if f.len() != 3 {
        return Err(ParseError::FieldCount);
    }
    assert(views(f@)[1] == f@[1]@);
    let c = match parse_u64(f[1].as_slice()) {
        Some(c) => c,
        None => {
            return Err(ParseError::Count);
        },
    };
    let op = f.pop().unwrap();
    let _ = f.pop();
    let uv = f.pop().unwrap();
    proof {
        assert(views(f@.push(uv)) =~= views(f@).push(uv@));
    }
    assert(uv@ == fields(line@)[0]);
    Ok(Record { uv, c, op })
}

/// The sketch key `uv:op`.
pub fn sketch_key(uv: &[u8], op: &[u8]) -> (r: Vec<u8>)
    ensures
        r@ == key_of(uv@, op@),
{
    let mut r: Vec<u8> = Vec::new();
    r.extend_from_slice(uv);
    r.push(0x3Au8);
    r.extend_from_slice(op);
    assert(r@ =~= key_of(uv@, op@));
    r
}

/// The buffer line of `rec`.
pub fn buffer_line(rec: &Record) -> (r: Vec<u8>)
    ensures
        r@ == buffer_line_of(rec.uv@, rec.c as nat, rec.op@),
{
    let mut r: Vec<u8> = Vec::new();
    r.extend_from_slice(rec.uv.as_slice());
    r.push(0x20u8);
    push_decimal(&mut r, rec.c);
    r.push(0x20u8);
    r.extend_from_slice(rec.op.as_slice());
    r.push(0x0Au8);
    assert(r@ =~= buffer_line_of(rec.uv@, rec.c as nat, rec.op@));
    r
}

} // verus!
