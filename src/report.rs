use itertools::Itertools;
use vstd::prelude::*;

use crate::record::{key_of, sketch_key};
use crate::sketch::{Sketch, SketchView};
use crate::text::{bytes_eq, decimal, fields, push_decimal, split_fields, views};

verus! {

/// A line of the sorted, deduplicated record file that does not hold exactly
/// three fields.
#[derive(Debug, Clone, Copy, PartialEq, Eq, Structural)]
pub enum ReportError {
    MalformedRecord,
}

/// The fields `(uv, c, op)` of a line, when it holds exactly three.
pub open spec fn triple_of(line: Seq<u8>) -> Option<(Seq<u8>, Seq<u8>, Seq<u8>)> {
    let f = fields(line);
    if f.len() == 3 {
        Some((f[0], f[1], f[2]))
    } else {
        None
    }
}

/// The first field of a line.
pub open spec fn uv_of(line: Seq<u8>) -> Seq<u8> {
    fields(line)[0]
}

pub open spec fn all_triples(lines: Seq<Seq<u8>>) -> bool {
    forall|i: int| 0 <= i < lines.len() ==> (#[trigger] triple_of(lines[i])) is Some
}

pub open spec fn triples_of(lines: Seq<Seq<u8>>) -> Seq<(Seq<u8>, Seq<u8>, Seq<u8>)> {
    lines.map_values(|l: Seq<u8>| triple_of(l)->0)
}

/// What a record adds to its group's line: `\t{k}:{op} {estimate}` when the
/// sketch holds an estimate for `uv:op`, nothing otherwise.
pub open spec fn annotation(sk: SketchView, k: nat, t: (Seq<u8>, Seq<u8>, Seq<u8>)) -> Seq<u8> {
    match sk.estimate(key_of(t.0, t.2)) {
        Some(v) => seq![0x09u8] + decimal(k) + seq![0x3Au8] + t.2 + seq![0x20u8] + decimal(
            v as nat,
        ),
        None => seq![],
    }
}

/// The groups, each `(uv, line)`, after one more record: it joins the last
/// group when its `uv` is that group's, and opens a group `uv c` otherwise.
pub open spec fn step(
    groups: Seq<(Seq<u8>, Seq<u8>)>,
    t: (Seq<u8>, Seq<u8>, Seq<u8>),
    sk: SketchView,
    k: nat,
) -> Seq<(Seq<u8>, Seq<u8>)> {
    if groups.len() > 0 && groups.last().0 == t.0 {
        groups.update(groups.len() - 1, (t.0, groups.last().1 + annotation(sk, k, t)))
    } else {
        groups.push((t.0, t.0 + seq![0x20u8] + t.1 + annotation(sk, k, t)))
    }
}

/// The groups of a run of records, in the order in which they open.
pub open spec fn groups_of(ts: Seq<(Seq<u8>, Seq<u8>, Seq<u8>)>, sk: SketchView, k: nat) -> Seq<
    (Seq<u8>, Seq<u8>),
>
    decreases ts.len(),
{
    if ts.len() == 0 {
        seq![]
    } else {
        step(groups_of(ts.drop_last(), sk, k), ts.last(), sk, k)
    }
}

/// The report's lines: one per group.
pub open spec fn report_of(lines: Seq<Seq<u8>>, sk: SketchView, k: nat) -> Seq<Seq<u8>> {
    groups_of(triples_of(lines), sk, k).map_values(|g: (Seq<u8>, Seq<u8>)| g.1)
}

/// Byte-wise lexicographic order.
pub open spec fn lex_le(a: Seq<u8>, b: Seq<u8>) -> bool
    decreases a.len(),
{
    if a.len() == 0 {
        true
    } else if b.len() == 0 {
        false
    } else if a[0] != b[0] {
        a[0] < b[0]
    } else {
        lex_le(a.drop_first(), b.drop_first())
    }
}

/// Relies on itertools' `Itertools::collect_tuple`: `Some` exactly when the
/// iterator yields three items, which the tuple then holds in order.
#[verifier::external_body]
fn collect_triple(fields: Vec<Vec<u8>>) -> (r: Option<(Vec<u8>, Vec<u8>, Vec<u8>)>)
    ensures
        r is Some <==> fields@.len() == 3,
        r matches Some(t) ==> t.0@ == fields@[0]@ && t.1@ == fields@[1]@ && t.2@ == fields@[2]@,
{
    fields.into_iter().collect_tuple()
}

/// Splits a line into `(uv, c, op)`.
fn split_triple(line: &[u8]) -> (r: Result<(Vec<u8>, Vec<u8>, Vec<u8>), ReportError>)
    ensures
        r is Ok <==> triple_of(line@) is Some,
        r matches Ok(t) ==> triple_of(line@) == Some((t.0@, t.1@, t.2@)),
{
    let f = split_fields(line);
    proof {
        if f@.len() == 3 {
            assert(views(f@)[0] == f@[0]@);
            assert(views(f@)[1] == f@[1]@);
            assert(views(f@)[2] == f@[2]@);
        }
    }
    match collect_triple(f) {
        Some(t) => Ok(t),
        None => Err(ReportError::MalformedRecord),
    }
}

/// Appends `uv:op`'s annotation to `out`.
fn push_annotation(out: &mut Vec<u8>, sketch: &Sketch, k: u64, uv: &[u8], op: &[u8])
    requires
        sketch@.wf(),
    ensures
        final(out)@ == old(out)@ + annotation(sketch@, k as nat, (uv@, seq![], op@)),
{
    let key = sketch_key(uv, op);
    match sketch.get(key.as_slice()) {
        Some(v) => {
            out.push(0x09u8);
            push_decimal(out, k);
            out.push(0x3Au8);
            out.extend_from_slice(op);
            out.push(0x20u8);
            push_decimal(out, v);
        },
        None => {},
    }
    assert(final(out)@ =~= old(out)@ + annotation(sketch@, k as nat, (uv@, seq![], op@)));
}

/// The third pass: reads the sorted, deduplicated records one line at a time
/// and hands out one line per `uv` once its group is complete.
pub struct ReportEmit {
    k: u64,
    open: bool,
    uv: Vec<u8>,
    line: Vec<u8>,
}

impl ReportEmit {
    pub closed spec fn label(&self) -> nat {
        self.k as nat
    }

    /// The group still being built, if any, as `(uv, line)`.
    pub closed spec fn current(&self) -> Seq<(Seq<u8>, Seq<u8>)> {
        if self.open {
            seq![(self.uv@, self.line@)]
        } else {
            seq![]
        }
    }

    /// A report labelled `k`, with no group yet.
    pub fn new(k: u64) -> (r: ReportEmit)
        ensures
            r.label() == k,
            r.current() == Seq::<(Seq<u8>, Seq<u8>)>::empty(),
    {
        ReportEmit { k, open: false, uv: Vec::new(), line: Vec::new() }
    }

    /// Takes the next line. Returns the previous group's line when this one
    /// opens a new group. A line without exactly three fields is refused and
    /// changes nothing.
    pub fn push_line(&mut self, sketch: &Sketch, line: &[u8]) -> (r: Result<
        Option<Vec<u8>>,
        ReportError,
    >)
        requires
            sketch@.wf(),
        ensures
            r is Err <==> triple_of(line@) is None,
            r is Err ==> *final(self) == *old(self),
            r matches Ok(out) ==> {
                let s = step(old(self).current(), triple_of(line@)->0, sketch@, old(self).label());
                &&& final(self).label() == old(self).label()
                &&& final(self).current() == seq![s.last()]
                &&& (out is Some <==> s.len() == 2)
                &&& (out matches Some(l) ==> l@ == s[0].1)
            },
    {
        let (uv, c, op) = match split_triple(line) {
            Ok(t) => t,
            Err(e) => {
                return Err(e);
            },
        };
        let ghost t = (uv@, c@, op@);
        let ghost ann = annotation(sketch@, self.k as nat, t);
        let ghost s = step(old(self).current(), t, sketch@, self.k as nat);
        assert(annotation(sketch@, self.k as nat, (uv@, seq![], op@)) == ann);
        if self.open && bytes_eq(self.uv.as_slice(), uv.as_slice()) {
            push_annotation(&mut self.line, sketch, self.k, uv.as_slice(), op.as_slice());
            assert(self.current() =~= seq![s.last()]);
            Ok(None)
        } else {
            let mut fresh: Vec<u8> = Vec::new();
            fresh.extend_from_slice(uv.as_slice());
            fresh.push(0x20u8);
            fresh.extend_from_slice(c.as_slice());
            push_annotation(&mut fresh, sketch, self.k, uv.as_slice(), op.as_slice());
            assert(fresh@ =~= uv@ + seq![0x20u8] + c@ + ann);
            let was_open = self.open;
            let mut prev = fresh;
            core::mem::swap(&mut self.line, &mut prev);
            self.uv = uv;
            self.open = true;
            assert(self.current() =~= seq![s.last()]);
            if was_open {
                Ok(Some(prev))
            } else {
                Ok(None)
            }
        }
    }

    /// Ends the report: the last group's line, if any group was opened.
    pub fn finish(self) -> (r: Option<Vec<u8>>)
        ensures
            r is Some <==> self.current().len() == 1,
            r matches Some(l) ==> l@ == self.current()[0].1,
    {
        if self.open {
            Some(self.line)
        } else {
            None
        }
    }
}

proof fn lemma_step_suffix(
    a: Seq<(Seq<u8>, Seq<u8>)>,
    c: Seq<(Seq<u8>, Seq<u8>)>,
    t: (Seq<u8>, Seq<u8>, Seq<u8>),
    sk: SketchView,
    k: nat,
)
    requires
        c.len() > 0 || a.len() == 0,
    ensures
        step(a + c, t, sk, k) == a + step(c, t, sk, k),
{
    if c.len() > 0 {
        assert((a + c).last() == c.last());
    }
    assert(step(a + c, t, sk, k) =~= a + step(c, t, sk, k));
}

/// Reports a whole sorted, deduplicated record file: the line of each group,
/// in order, or `MalformedRecord` when any line lacks exactly three fields.
pub fn emit_report(sketch: &Sketch, k: u64, lines: &Vec<Vec<u8>>) -> (r: Result<
    Vec<Vec<u8>>,
    ReportError,
>)
    requires
        sketch@.wf(),
    ensures
        r is Ok <==> all_triples(views(lines@)),
        r matches Ok(out) ==> views(out@) == report_of(views(lines@), sketch@, k as nat),
{
    let ghost ls = views(lines@);
    let ghost ts = triples_of(ls);
    let ghost kk = k as nat;
    let mut em = ReportEmit::new(k);
    let mut out: Vec<Vec<u8>> = Vec::new();
    let ghost mut done: Seq<(Seq<u8>, Seq<u8>)> = seq![];
    let mut i: usize = 0;
    while i < lines.len()
        invariant
            sketch@.wf(),
            ls == views(lines@),
            ts == triples_of(ls),
            kk == k as nat,
            i <= lines.len(),
            em.label() == k,
            all_triples(ls.take(i as int)),
            (em.current().len() > 0) == (i > 0),
            groups_of(ts.take(i as int), sketch@, kk) == done + em.current(),
            views(out@) == done.map_values(|g: (Seq<u8>, Seq<u8>)| g.1),
        decreases lines.len() - i,
    {
        assert(ls[i as int] == lines@[i as int]@);
        let ghost cur = em.current();
        let r = em.push_line(sketch, lines[i].as_slice());
        let o = match r {
            Ok(o) => o,
            Err(e) => {
                assert(!(triple_of(ls[i as int]) is Some));
                return Err(e);
            },
        };
        proof {
            let t = ts[i as int];
            assert(t == triple_of(ls[i as int])->0);
            assert(ts.take(i + 1).drop_last() =~= ts.take(i as int));
            assert(ts.take(i + 1).last() == t);
            lemma_step_suffix(done, cur, t, sketch@, kk);
            assert(all_triples(ls.take(i + 1))) by {
                assert forall|j: int| 0 <= j < ls.take(i + 1).len() implies (#[trigger] triple_of(
                    ls.take(i + 1)[j],
                )) is Some by {
                    if j < i {
                        assert(ls.take(i + 1)[j] == ls.take(i as int)[j]);
                    }
                }
            }
        }
        let ghost s = step(cur, ts[i as int], sketch@, kk);
        match o {
            Some(l) => {
                let ghost done0 = done;
                proof {
                    done = done.push(s[0]);
                }
                let ghost out0 = out@;
                out.push(l);
                assert(views(out@) =~= views(out0).push(s[0].1));
                assert(done.map_values(|g: (Seq<u8>, Seq<u8>)| g.1) =~= done0.map_values(
                    |g: (Seq<u8>, Seq<u8>)| g.1,
                ).push(s[0].1));
                assert(done0 + s =~= done + em.current());
            },
            None => {
                assert(done + s =~= done + em.current());
            },
        }
        i = i + 1;
    }
    assert(ls.take(i as int) =~= ls);
    assert(ts.take(i as int) =~= ts);
    let ghost cur = em.current();
    match em.finish() {
        Some(l) => {
            let ghost out0 = out@;
            out.push(l);
            assert(views(out@) =~= views(out0).push(cur[0].1));
            assert(groups_of(ts, sketch@, kk).map_values(|g: (Seq<u8>, Seq<u8>)| g.1) =~= done.map_values(
                |g: (Seq<u8>, Seq<u8>)| g.1,
            ).push(cur[0].1));
        },
        None => {
            assert(groups_of(ts, sketch@, kk) =~= done);
        },
    }
    Ok(out)
}

proof fn lemma_groups_below(
    ts: Seq<(Seq<u8>, Seq<u8>, Seq<u8>)>,
    sk: SketchView,
    k: nat,
    bound: Seq<u8>,
)
    requires
        forall|j: int| 0 <= j < ts.len() ==> lex_le(#[trigger] ts[j].0, bound),
    ensures
        forall|a: int|
            0 <= a < groups_of(ts, sk, k).len() ==> lex_le(
                #[trigger] groups_of(ts, sk, k)[a].0,
                bound,
            ),
    decreases ts.len(),
{
    if ts.len() > 0 {
        let prev = ts.drop_last();
        assert forall|j: int| 0 <= j < prev.len() implies lex_le(#[trigger] prev[j].0, bound) by {
            assert(prev[j] == ts[j]);
        }
        lemma_groups_below(prev, sk, k, bound);
        let g0 = groups_of(prev, sk, k);
        let g = groups_of(ts, sk, k);
        assert forall|a: int| 0 <= a < g.len() implies lex_le(#[trigger] g[a].0, bound) by {
            if a < g0.len() {
                assert(g[a].0 == g0[a].0);
            } else {
                assert(g[a].0 == ts.last().0);
            }
        }
    }
}

/// The groups of a report follow the order of its records: when the records'
/// `uv`s come in non-decreasing order, so do the groups', two neighbouring
/// groups never share a `uv`, and each group's line starts with its `uv` and a
/// space.
pub proof fn lemma_groups_sorted(lines: Seq<Seq<u8>>, sk: SketchView, k: nat)
    requires
        all_triples(lines),
        forall|i: int, j: int|
            0 <= i < j < lines.len() ==> lex_le(
                #[trigger] uv_of(lines[i]),
                #[trigger] uv_of(lines[j]),
            ),
    ensures
        ({
            let g = groups_of(triples_of(lines), sk, k);
            &&& report_of(lines, sk, k).len() == g.len()
            &&& forall|a: int, b: int| 0 <= a < b < g.len() ==> lex_le(#[trigger] g[a].0, #[trigger] g[b].0)
            &&& forall|a: int| 0 <= a < g.len() - 1 ==> #[trigger] g[a].0 != g[a + 1].0
            &&& forall|a: int| 0 <= a < g.len() ==> (#[trigger] g[a].0).push(0x20u8).is_prefix_of(g[a].1)
            &&& forall|a: int| 0 <= a < g.len() ==> #[trigger] report_of(lines, sk, k)[a] == g[a].1
        }),
    decreases lines.len(),
{
    let ts = triples_of(lines);
    if lines.len() > 0 {
        let prev = lines.drop_last();
        assert forall|i: int| 0 <= i < prev.len() implies (#[trigger] triple_of(prev[i])) is Some by {
            assert(prev[i] == lines[i]);
        }
        assert forall|i: int, j: int| 0 <= i < j < prev.len() implies lex_le(
            #[trigger] uv_of(prev[i]),
            #[trigger] uv_of(prev[j]),
        ) by {
            assert(prev[i] == lines[i]);
            assert(prev[j] == lines[j]);
        }
        lemma_groups_sorted(prev, sk, k);
        assert(triples_of(prev) =~= ts.drop_last());
        let t = ts.last();
        assert(t == triple_of(lines.last())->0);
        let g0 = groups_of(triples_of(prev), sk, k);
        let g = groups_of(ts, sk, k);
        assert(g == step(g0, t, sk, k));
        let ann = annotation(sk, k, t);
        if !(g0.len() > 0 && g0.last().0 == t.0) {
            assert forall|j: int| 0 <= j < ts.drop_last().len() implies lex_le(
                #[trigger] ts.drop_last()[j].0,
                t.0,
            ) by {
                assert(ts.drop_last()[j] == triple_of(lines[j])->0);
                assert(lex_le(uv_of(lines[j]), uv_of(lines[lines.len() - 1])));
            }
            lemma_groups_below(ts.drop_last(), sk, k, t.0);
        }
        assert forall|a: int| 0 <= a < g.len() implies (#[trigger] g[a].0).push(0x20u8).is_prefix_of(
            g[a].1,
        ) by {
            if a < g.len() - 1 || (g0.len() > 0 && g0.last().0 == t.0) {
                assert(g0[a].0.push(0x20u8).is_prefix_of(g0[a].1));
                if a == g.len() - 1 {
                    assert(g[a].1 == g0[a].1 + ann);
                    assert(g0[a].0.push(0x20u8) =~= g[a].1.subrange(0, g[a].0.len() + 1int));
                }
            } else {
                assert(g[a].1 == t.0 + seq![0x20u8] + t.1 + ann);
                assert(g[a].0.push(0x20u8) =~= g[a].1.subrange(0, g[a].0.len() + 1int));
            }
        }
    }
}

/// Reporting is repeatable: the same record file over the same sketch gives
/// the same lines, byte for byte.
pub proof fn lemma_report_repeatable(lines: Seq<Seq<u8>>, a: SketchView, b: SketchView, k: nat)
    requires
        a == b,
    ensures
        report_of(lines, a, k) == report_of(lines, b, k),
{
}

} // verus!
