use vstd::prelude::*;
use vstd::slice::slice_subrange;
use crate::coord::{
    Coord, coord_of, format_coord, format_coord_spec, is_number, lemma_coord_roundtrip, push_all,
};
use crate::errors::Error;

verus! {

/// A parsed 2-D point.
#[derive(Clone, Copy, PartialEq, Eq, Structural, Debug)]
pub struct Point {
    /// Horizontal coordinate.
    pub x: Coord,
    /// Vertical coordinate.
    pub y: Coord,
}

impl Point {
    /// Both coordinates are well-formed.
    pub open spec fn wf(self) -> bool {
        self.x.wf() && self.y.wf()
    }
}

/// Index of the first `sep` byte in `s` (`s.len()` if there is none).
pub open spec fn find_byte(s: Seq<u8>, sep: u8) -> nat
    decreases s.len(),
{
    if s.len() == 0 {
        0
    } else if s[0] == sep {
        0
    } else {
        1 + find_byte(s.skip(1), sep)
    }
}

/// A position whose prefix is free of `sep`, and that holds `sep` (or is the
/// end), is exactly where `find_byte` points.
pub proof fn lemma_find_byte_at(s: Seq<u8>, sep: u8, i: int)
    requires
        0 <= i <= s.len(),
        i < s.len() ==> s[i] == sep,
        forall|j: int| 0 <= j < i ==> s[j] != sep,
    ensures
        find_byte(s, sep) == i,
    decreases s.len(),
{
    if s.len() == 0 {
    } else if s[0] == sep {
        assert(i == 0);
    } else {
        assert(i > 0);
        assert forall|j: int| 0 <= j < i - 1 implies s.skip(1)[j] != sep by {
            assert(s.skip(1)[j] == s[j + 1]);
        }
        if i < s.len() {
            assert(s.skip(1)[i - 1] == s[i]);
        }
        lemma_find_byte_at(s.skip(1), sep, i - 1);
    }
}

/// Splits `s` into the runs separated by `sep` (a trailing separator yields
/// a final empty run, and the empty text is one empty run).
pub open spec fn split_byte(s: Seq<u8>, sep: u8) -> Seq<Seq<u8>>
    decreases s.len(),
{
    let i = find_byte(s, sep);
    if i >= s.len() {
        seq![s]
    } else {
        seq![s.take(i as int)] + split_byte(s.skip(i as int + 1), sep)
    }
}

/// The point a record denotes, or the error that rejects it: no comma at
/// all is a malformed record; a side that is not a decimal numeric literal
/// is an invalid number.
pub open spec fn record_spec(rec: Seq<u8>) -> Result<Point, Error> {
    let c = find_byte(rec, 44);
    if c >= rec.len() {
        Err(Error::MalformedRecord)
    } else if !is_number(rec.take(c as int)) || !is_number(rec.skip(c as int + 1)) {
        Err(Error::InvalidNumber)
    } else {
        Ok(Point { x: coord_of(rec.take(c as int)), y: coord_of(rec.skip(c as int + 1)) })
    }
}

/// The points of a record list in order, or the first error.
pub open spec fn records_spec(rs: Seq<Seq<u8>>) -> Result<Seq<Point>, Error>
    decreases rs.len(),
{
    if rs.len() == 0 {
        Ok(Seq::empty())
    } else {
        match record_spec(rs[0]) {
            Err(e) => Err(e),
            Ok(p) => match records_spec(rs.skip(1)) {
                Err(e) => Err(e),
                Ok(ps) => Ok(seq![p] + ps),
            },
        }
    }
}

/// What parsing the full input text yields: empty input is rejected
/// outright; otherwise the semicolon-separated records in order.
pub open spec fn parse_points_spec(s: Seq<u8>) -> Result<Seq<Point>, Error> {
    if s.len() == 0 {
        Err(Error::EmptyInput)
    } else {
        records_spec(split_byte(s, 59))
    }
}

/// Parses one record (the bytes of `s` from `start` to `end`): the part
/// before the first comma is the x coordinate, the part after it the y.
fn parse_record(s: &[u8], start: usize, end: usize) -> (r: Result<Point, Error>)
    requires
        start <= end <= s@.len(),
    ensures
        r == record_spec(s@.subrange(start as int, end as int)),
        r is Ok ==> r->Ok_0.wf(),
{
    let rec = slice_subrange(s, start, end);
    let n: usize = rec.len();
    let mut c: usize = 0;
    while c < n && rec[c] != 44
        invariant
            c <= n == rec@.len(),
            forall|j: int| 0 <= j < c ==> rec@[j] != 44,
        decreases n - c,
    {
        c = c + 1;
    }
    proof {
        lemma_find_byte_at(rec@, 44, c as int);
    }
    if c == n {
        return Err(Error::MalformedRecord);
    }
    let xs = slice_subrange(rec, 0, c);
    let ys = slice_subrange(rec, c + 1, n);
    proof {
        assert(xs@ =~= rec@.take(c as int));
        assert(ys@ =~= rec@.skip(c as int + 1));
    }
    let xo = parse_coord_slice(xs);
    let yo = parse_coord_slice(ys);
    match (xo, yo) {
        (Some(x), Some(y)) => Ok(Point { x, y }),
        _ => Err(Error::InvalidNumber),
    }
}

/// Parses one coordinate literal from a slice.
fn parse_coord_slice(s: &[u8]) -> (r: Option<Coord>)
    ensures
        r is Some <==> is_number(s@),
        is_number(s@) ==> r == Some(coord_of(s@)) && coord_of(s@).wf(),
{
    crate::coord::parse_coord(s)
}

/// Splitting at a separator-free prefix: the first run is that prefix.
proof fn lemma_tail_split(s: Seq<u8>, start: int, j: int, sep: u8)
    requires
        0 <= start <= j <= s.len(),
        forall|x: int| start <= x < j ==> s[x] != sep,
        j < s.len() ==> s[j] == sep,
    ensures
        j == s.len() ==> split_byte(s.skip(start), sep) == seq![s.subrange(start, s.len() as int)],
        j < s.len() ==> split_byte(s.skip(start), sep) == seq![s.subrange(start, j)]
            + split_byte(s.skip(j + 1), sep),
{
    let tail = s.skip(start);
    assert forall|x: int| 0 <= x < j - start implies tail[x] != sep by {
        assert(tail[x] == s[start + x]);
    }
    if j < s.len() {
        assert(tail[j - start] == s[j]);
    }
    lemma_find_byte_at(tail, sep, j - start);
    if j == s.len() {
        assert(tail =~= s.subrange(start, s.len() as int));
    } else {
        assert(tail.take(j - start) =~= s.subrange(start, j));
        assert(tail.skip(j - start + 1) =~= s.skip(j + 1));
    }
}

/// Parsing a single-record list.
proof fn lemma_records_single(h: Seq<u8>)
    ensures
        records_spec(seq![h]) == (match record_spec(h) {
            Err(e) => Err::<Seq<Point>, Error>(e),
            Ok(p) => Ok::<Seq<Point>, Error>(seq![p]),
        }),
{
    let rs = seq![h];
    assert(rs[0] == h);
    assert(rs.skip(1) =~= Seq::<Seq<u8>>::empty());
    assert(records_spec(Seq::<Seq<u8>>::empty()) == Ok::<Seq<Point>, Error>(Seq::empty()));
    if record_spec(h) is Ok {
        let p = record_spec(h)->Ok_0;
        assert(seq![p] + Seq::<Point>::empty() =~= seq![p]);
    }
}

/// Parsing a record list one head at a time.
proof fn lemma_records_cons(h: Seq<u8>, rest: Seq<Seq<u8>>)
    ensures
        records_spec(seq![h] + rest) == (match record_spec(h) {
            Err(e) => Err::<Seq<Point>, Error>(e),
            Ok(p) => match records_spec(rest) {
                Err(e) => Err::<Seq<Point>, Error>(e),
                Ok(ps) => Ok::<Seq<Point>, Error>(seq![p] + ps),
            },
        }),
{
    let rs = seq![h] + rest;
    assert(rs.len() == 1 + rest.len());
    assert(rs[0] == h);
    assert(rs.skip(1) =~= rest);
}

/// Scans forward from `start` to the next `sep` byte (or the end).
fn scan_to(s: &[u8], start: usize, sep: u8) -> (j: usize)
    requires
        start <= s@.len(),
    ensures
        start <= j <= s@.len(),
        forall|x: int| start <= x < j ==> s@[x] != sep,
        j < s@.len() ==> s@[j as int] == sep,
{
    let n: usize = s.len();
    let mut j: usize = start;
    while j < n && s[j] != sep
        invariant
            start <= j <= n == s@.len(),
            forall|x: int| start <= x < j ==> s@[x] != sep,
        decreases n - j,
    {
        j = j + 1;
    }
    j
}

/// Parses the whole input into its points: the semicolon-separated records
/// in order, each a comma-separated pair of decimal numeric literals.
/// Returns the first error in record order; empty input is `EmptyInput`.
#[verifier::rlimit(100)]
pub fn parse_points(s: &[u8]) -> (r: Result<Vec<Point>, Error>)
    ensures
        r is Ok <==> parse_points_spec(s@) is Ok,
        r is Ok ==> parse_points_spec(s@) == Ok::<Seq<Point>, Error>(r->Ok_0@),
        r is Err ==> parse_points_spec(s@) == Err::<Seq<Point>, Error>(r->Err_0),
        r is Ok ==> r->Ok_0@.len() >= 1,
        r is Ok ==> forall|i: int| 0 <= i < r->Ok_0@.len() ==> (#[trigger] r->Ok_0@[i]).wf(),
{
    let n: usize = s.len();
    if n == 0 {
        return Err(Error::EmptyInput);
    }
    let mut pts: Vec<Point> = Vec::new();
    let mut start: usize = 0;
    let mut done = false;
    proof {
        assert(s@.skip(0) =~= s@);
        match records_spec(split_byte(s@, 59)) {
            Ok(ps) => {
                assert(pts@ + ps =~= ps);
            },
            Err(e) => {},
        }
    }
    while !done
        invariant
            n == s@.len(),
            1 <= n,
            start <= n,
            done ==> parse_points_spec(s@) == Ok::<Seq<Point>, Error>(pts@) && pts@.len() >= 1,
            !done ==> (match records_spec(split_byte(s@.skip(start as int), 59)) {
                Ok(ps) => parse_points_spec(s@) == Ok::<Seq<Point>, Error>(pts@ + ps),
                Err(e) => parse_points_spec(s@) == Err::<Seq<Point>, Error>(e),
            }),
            forall|i: int| 0 <= i < pts@.len() ==> (#[trigger] pts@[i]).wf(),
        decreases 2 * (n - start) + (if done {
            0int
        } else {
            1int
        }),
    {
        let j = scan_to(s, start, 59);
        proof {
            lemma_tail_split(s@, start as int, j as int, 59);
        }
        let rec = parse_record(s, start, if j < n {
            j
        } else {
            n
        });
        match rec {
            Err(e) => {
                proof {
                    if j == n {
                        lemma_records_single(s@.subrange(start as int, n as int));
                    } else {
                        lemma_records_cons(
                            s@.subrange(start as int, j as int),
                            split_byte(s@.skip(j as int + 1), 59),
                        );
                    }
                }
                return Err(e);
            },
            Ok(p) => {
                let ghost pts0 = pts@;
                pts.push(p);
                proof {
                    assert(pts@ == pts0.push(p));
                    if j == n {
                        lemma_records_single(s@.subrange(start as int, n as int));
                        assert(pts0 + seq![p] =~= pts@);
                    } else {
                        lemma_records_cons(
                            s@.subrange(start as int, j as int),
                            split_byte(s@.skip(j as int + 1), 59),
                        );
                        match records_spec(split_byte(s@.skip(j as int + 1), 59)) {
                            Ok(ps) => {
                                assert(pts0 + (seq![p] + ps) =~= pts@ + ps);
                            },
                            Err(e) => {},
                        }
                    }
                }
                if j == n {
                    done = true;
                } else {
                    start = j + 1;
                }
            },
        }
    }
    Ok(pts)
}


/// How one point is written out: its two coordinates with a comma between.
pub open spec fn format_record_spec(p: Point) -> Seq<u8> {
    format_coord_spec(p.x) + seq![44u8] + format_coord_spec(p.y)
}

/// How a point sequence is written out: its records with semicolons
/// between them.
pub open spec fn format_points_spec(ps: Seq<Point>) -> Seq<u8>
    decreases ps.len(),
{
    if ps.len() == 0 {
        Seq::empty()
    } else if ps.len() == 1 {
        format_record_spec(ps[0])
    } else {
        format_record_spec(ps[0]) + seq![59u8] + format_points_spec(ps.skip(1))
    }
}

/// Writing one more point appends a semicolon and its record.
proof fn lemma_format_points_snoc(ps: Seq<Point>)
    requires
        ps.len() >= 2,
    ensures
        format_points_spec(ps) == format_points_spec(ps.drop_last()) + seq![59u8]
            + format_record_spec(ps.last()),
    decreases ps.len(),
{
    if ps.len() == 2 {
        assert(ps.skip(1).len() == 1);
        assert(ps.skip(1)[0] == ps[1]);
        assert(ps.drop_last().len() == 1);
        assert(ps.drop_last()[0] == ps[0]);
        assert(format_points_spec(ps.skip(1)) == format_record_spec(ps[1]));
        assert(format_points_spec(ps.drop_last()) == format_record_spec(ps[0]));
        assert(ps.last() == ps[1]);
    } else {
        lemma_format_points_snoc(ps.skip(1));
        assert(ps.skip(1).drop_last() =~= ps.drop_last().skip(1));
        assert(ps.skip(1).last() == ps.last());
        assert(ps.skip(1)[0] == ps[1]);
        assert(ps.drop_last()[0] == ps[0]);
        assert(ps.drop_last().len() >= 2);
        let r0 = format_record_spec(ps[0]);
        let mid = format_points_spec(ps.drop_last().skip(1));
        let last = format_record_spec(ps.last());
        assert(format_points_spec(ps) == r0 + seq![59u8] + (mid + seq![59u8] + last));
        assert(format_points_spec(ps.drop_last()) == r0 + seq![59u8] + mid);
        assert(r0 + seq![59u8] + (mid + seq![59u8] + last) =~= (r0 + seq![59u8] + mid)
            + seq![59u8] + last);
    }
}

/// Writes one point's record.
fn format_record(p: &Point) -> (r: Vec<u8>)
    requires
        p.wf(),
    ensures
        r@ == format_record_spec(*p),
{
    let mut out = format_coord(&p.x);
    out.push(44);
    let fy = format_coord(&p.y);
    push_all(&mut out, &fy);
    proof {
        assert(out@ =~= format_record_spec(*p));
    }
    out
}

/// Writes a point sequence out as delimited coordinate text.
#[verifier::loop_isolation(false)]
pub fn format_points(ps: &Vec<Point>) -> (r: Vec<u8>)
    requires
        forall|i: int| 0 <= i < ps@.len() ==> (#[trigger] ps@[i]).wf(),
    ensures
        r@ == format_points_spec(ps@),
{
    let mut out: Vec<u8> = Vec::new();
    let mut i: usize = 0;
    while i < ps.len()
        invariant
            i <= ps@.len(),
            out@ == format_points_spec(ps@.take(i as int)),
        decreases ps@.len() - i,
    {
        if i > 0 {
            out.push(59);
        }
        let rec = format_record(&ps[i]);
        push_all(&mut out, &rec);
        proof {
            assert(ps@.take(i as int + 1).drop_last() =~= ps@.take(i as int));
            assert(ps@.take(i as int + 1).last() == ps@[i as int]);
            if i == 0 {
                assert(ps@.take(1).len() == 1);
                assert(ps@.take(1)[0] == ps@[0]);
                assert(out@ =~= format_record_spec(ps@[0]));
            } else {
                lemma_format_points_snoc(ps@.take(i as int + 1));
                assert(out@ =~= format_points_spec(ps@.take(i as int)) + seq![59u8]
                    + format_record_spec(ps@[i as int]));
            }
        }
        i = i + 1;
    }
    proof {
        assert(ps@.take(ps@.len() as int) =~= ps@);
    }
    out
}

/// Round trip for one record: the written record parses back to its point,
/// and contains no record separator.
proof fn lemma_record_roundtrip(p: Point)
    requires
        p.wf(),
    ensures
        record_spec(format_record_spec(p)) == Ok::<Point, Error>(p),
        forall|i: int|
            0 <= i < format_record_spec(p).len() ==> (#[trigger] format_record_spec(p)[i]) != 59,
        format_record_spec(p).len() >= 1,
{
    lemma_coord_roundtrip(p.x);
    lemma_coord_roundtrip(p.y);
    let fx = format_coord_spec(p.x);
    let fy = format_coord_spec(p.y);
    let rec = format_record_spec(p);
    assert forall|j: int| 0 <= j < fx.len() implies rec[j] != 44 by {
        assert(rec[j] == fx[j]);
    }
    assert(rec[fx.len() as int] == 44);
    lemma_find_byte_at(rec, 44, fx.len() as int);
    assert(rec.take(fx.len() as int) =~= fx);
    assert(rec.skip(fx.len() as int + 1) =~= fy);
    assert(record_spec(rec) == Ok::<Point, Error>(Point { x: coord_of(fx), y: coord_of(fy) }));
    assert forall|i: int| 0 <= i < rec.len() implies (#[trigger] rec[i]) != 59 by {
        if i < fx.len() {
            assert(rec[i] == fx[i]);
        } else if i == fx.len() {
            assert(rec[i] == 44);
        } else {
            assert(rec[i] == fy[i - fx.len() - 1]);
        }
    }
}

/// Round trip: writing any non-empty sequence of well-formed points out as
/// coordinate text and parsing that text back recovers exactly the
/// original points, in the same order.
pub proof fn lemma_points_roundtrip(ps: Seq<Point>)
    requires
        ps.len() >= 1,
        forall|i: int| 0 <= i < ps.len() ==> (#[trigger] ps[i]).wf(),
    ensures
        parse_points_spec(format_points_spec(ps)) == Ok::<Seq<Point>, Error>(ps),
    decreases ps.len(),
{
    let f = format_points_spec(ps);
    let rec0 = format_record_spec(ps[0]);
    lemma_record_roundtrip(ps[0]);
    if ps.len() == 1 {
        assert(f == rec0);
        lemma_find_byte_at(f, 59, f.len() as int);
        assert(split_byte(f, 59) == seq![f]);
        lemma_records_single(f);
        assert(record_spec(f) == Ok::<Point, Error>(ps[0]));
        assert(seq![ps[0]] =~= ps);
    } else {
        let rest = format_points_spec(ps.skip(1));
        assert forall|i: int| 0 <= i < ps.skip(1).len() implies (#[trigger] ps.skip(1)[i]).wf() by {
            assert(ps.skip(1)[i] == ps[i + 1]);
        }
        lemma_points_roundtrip(ps.skip(1));
        assert(rest.len() >= 1) by {
            if rest.len() == 0 {
                assert(parse_points_spec(rest) == Err::<Seq<Point>, Error>(Error::EmptyInput));
            }
        }
        assert(f == rec0 + seq![59u8] + rest);
        assert forall|j: int| 0 <= j < rec0.len() implies f[j] != 59 by {
            assert(f[j] == rec0[j]);
        }
        assert(f[rec0.len() as int] == 59);
        lemma_find_byte_at(f, 59, rec0.len() as int);
        assert(f.take(rec0.len() as int) =~= rec0);
        assert(f.skip(rec0.len() as int + 1) =~= rest);
        assert(split_byte(f, 59) == seq![rec0] + split_byte(rest, 59));
        lemma_records_cons(rec0, split_byte(rest, 59));
        assert(records_spec(split_byte(rest, 59)) == Ok::<Seq<Point>, Error>(ps.skip(1)));
        assert(record_spec(rec0) == Ok::<Point, Error>(ps[0]));
        assert(seq![ps[0]] + ps.skip(1) =~= ps);
    }
}

} // verus!
