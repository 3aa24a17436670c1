use vstd::prelude::*;
use vstd::string::StringSliceAdditionalSpecFns;

use crate::record::{
    buffer_line, buffer_line_of, is_count, key_of, parse_record, record_of, sketch_key, ParseError,
};
use crate::sketch::{pow, pow10, Sketch, SketchView, MAX_EXPONENT};
use crate::text::{decimal, fields, push_decimal};

verus! {

/// The first pass over the stream: each record goes into the sketch and out to
/// the buffer, and the records are counted.
pub struct StreamIngest {
    sketch: Sketch,
    count: u64,
}

impl StreamIngest {
    pub closed spec fn sketch_view(&self) -> SketchView {
        self.sketch@
    }

    pub closed spec fn count_view(&self) -> nat {
        self.count as nat
    }

    pub fn new(sketch: Sketch) -> (r: StreamIngest)
        ensures
            r.sketch_view() == sketch@,
            r.count_view() == 0,
    {
        StreamIngest { sketch, count: 0 }
    }

    /// Takes one stream line: on a record, puts `uv:op` into the sketch, counts
    /// it and returns its buffer line; on anything else, changes nothing.
    pub fn ingest_line(&mut self, line: &[u8]) -> (r: Result<Vec<u8>, ParseError>)
        requires
            old(self).sketch_view().wf(),
            old(self).count_view() < u64::MAX,
        ensures
            final(self).sketch_view().wf(),
            r is Ok <==> record_of(line@) is Some,
            r matches Err(ParseError::FieldCount) <==> fields(line@).len() != 3,
            r matches Err(ParseError::Count) <==> fields(line@).len() == 3 && !is_count(
                fields(line@)[1],
            ),
            r matches Err(e) ==> *final(self) == *old(self),
            r matches Ok(b) ==> {
                let (uv, c, op) = record_of(line@)->0;
                &&& b@ == buffer_line_of(uv, c, op)
                &&& final(self).count_view() == old(self).count_view() + 1
                &&& final(self).sketch_view().puts == old(self).sketch_view().puts.insert(
                    key_of(uv, op),
                )
                &&& final(self).sketch_view().width == old(self).sketch_view().width
                &&& final(self).sketch_view().depth == old(self).sketch_view().depth
            },
    {
        let rec = match parse_record(line) {
            Ok(rec) => rec,
            Err(e) => {
                return Err(e);
            },
        };
        let key = sketch_key(rec.uv.as_slice(), rec.op.as_slice());
        self.sketch.put(key.as_slice());
        self.count = self.count + 1;
        Ok(buffer_line(&rec))
    }

    pub fn count(&self) -> (r: u64)
        ensures
            r == self.count_view(),
    {
        self.count
    }

    pub fn sketch(&self) -> (r: &Sketch)
        ensures
            r@ == self.sketch_view(),
    {
        &self.sketch
    }

    pub fn into_sketch(self) -> (r: Sketch)
        ensures
            r@ == self.sketch_view(),
    {
        self.sketch
    }
}

/// `floor(epsilon * n)` for `epsilon = 10^-exponent`.
pub open spec fn range_of(n: nat, exponent: nat) -> nat {
    n / pow(10, exponent)
}

/// `10^-exponent` in decimal: `1`, `0.1`, `0.01`, ...
pub open spec fn epsilon_text(exponent: nat) -> Seq<u8> {
    if exponent == 0 {
        seq![0x31u8]
    } else {
        seq![0x30u8, 0x2Eu8] + Seq::new((exponent - 1) as nat, |i: int| 0x30u8) + seq![0x31u8]
    }
}

/// The run summary: `Covered {n} lines of input with k={k}, e={epsilon} and a
/// range of {range}`.
pub open spec fn summary_of(n: nat, k: nat, exponent: nat) -> Seq<u8> {
    "Covered ".spec_bytes() + decimal(n) + " lines of input with k=".spec_bytes() + decimal(k)
        + ", e=".spec_bytes() + epsilon_text(exponent) + " and a range of ".spec_bytes()
        + decimal(range_of(n, exponent))
}

/// The run summary of `n` records, with the label `k` and `epsilon = 10^-exponent`.
pub fn summary_line(n: u64, k: u64, exponent: u32) -> (r: Vec<u8>)
    requires
        exponent <= MAX_EXPONENT,
    ensures
        r@ == summary_of(n as nat, k as nat, exponent as nat),
{
    let mut r: Vec<u8> = Vec::new();
    r.extend_from_slice("Covered ".as_bytes());
    push_decimal(&mut r, n);
    r.extend_from_slice(" lines of input with k=".as_bytes());
    push_decimal(&mut r, k);
    r.extend_from_slice(", e=".as_bytes());
    let ghost before = r@;
    if exponent == 0 {
        r.push(0x31u8);
    } else {
        r.push(0x30u8);
        r.push(0x2Eu8);
        let mut i: u32 = 1;
        while i < exponent
            invariant
                1 <= i <= exponent,
                r@ == before + seq![0x30u8, 0x2Eu8] + Seq::new((i - 1) as nat, |j: int| 0x30u8),
            decreases exponent - i,
        {
            r.push(0x30u8);
            i = i + 1;
            assert(r@ =~= before + seq![0x30u8, 0x2Eu8] + Seq::new((i - 1) as nat, |j: int| 0x30u8));
        }
        r.push(0x31u8);
    }
    assert(r@ =~= before + epsilon_text(exponent as nat));
    r.extend_from_slice(" and a range of ".as_bytes());
    push_decimal(&mut r, range(n, exponent));
    assert(r@ =~= summary_of(n as nat, k as nat, exponent as nat));
    r
}

/// The error range `floor(epsilon * n)` for `epsilon = 10^-exponent`.
pub fn range(n: u64, exponent: u32) -> (r: u64)
    requires
        exponent <= MAX_EXPONENT,
    ensures
        r == range_of(n as nat, exponent as nat),
{
    let p = pow10(exponent);
    n / p
}

} // verus!
