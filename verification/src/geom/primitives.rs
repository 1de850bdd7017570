//! The binary geometry format of the database: points, lines, polygons and bundles of lines, each
//! marked with the identifier of the Web Mercator projection.
//!
//! A coordinate is the bit pattern of a double, as in [`crate::number`].
use vstd::prelude::*;

use crate::geom::bytes::{lemma_le_len, lemma_number_inside, lemma_spans, put, take};
use crate::number::eq;

verus! {

/// A pair of coordinates.
pub type Pt = (u64, u64);

/// A point with its position on the globe and its image in the projection.
#[derive(Debug, Clone, Copy)]
pub struct Vertex {
    /// Longitude and latitude.
    pub place: Pt,
    /// The projected coordinates.
    pub point: Pt,
}

/// A polygon: its outline, then the outlines of its holes.
#[derive(Debug)]
pub struct Polygon {
    pub rings: Vec<Vec<Pt>>,
}

/// Why bytes do not decode.
#[derive(Debug)]
pub enum EwkbError {
    /// Shorter than the header.
    TooShort,
    /// Not in little-endian order.
    NotLittleEndian,
    /// The header announces another shape.
    WrongType { found: u32 },
    /// Fewer points than announced.
    Truncated,
    /// A member's header is cut off.
    MemberHeaderTruncated,
    /// A member announces another shape than a plain line.
    WrongMemberType { found: u32 },
    /// A member has fewer points than announced.
    MemberPointsTruncated,
}

/// The identifier of the Web Mercator projection.
pub const SRID: u32 = 3857;

/// A point with a projection identifier.
pub const POINT_TYPE: u32 = 0x2000_0001;

/// A line with a projection identifier.
pub const LINE_TYPE: u32 = 0x2000_0002;

/// A polygon with a projection identifier.
pub const POLYGON_TYPE: u32 = 0x2000_0003;

/// A bundle of lines with a projection identifier.
pub const MULTI_LINE_TYPE: u32 = 0x2000_0005;

/// A line inside a bundle, without a projection identifier.
pub const PLAIN_LINE_TYPE: u32 = 2;

/// Whether two points have equal coordinates.
pub open spec fn same(a: Pt, b: Pt) -> bool {
    crate::number::num_eq(a.0, b.0) && crate::number::num_eq(a.1, b.1)
}

/// The byte order, the shape and the projection that every geometry starts with.
pub open spec fn header(shape: u32) -> Seq<u8> {
    seq![1u8] + crate::geom::bytes::le(shape as nat, 4) + crate::geom::bytes::le(SRID as nat, 4)
}

/// The sixteen bytes of a point.
pub open spec fn point_bytes(p: Pt) -> Seq<u8> {
    crate::geom::bytes::le(p.0 as nat, 8) + crate::geom::bytes::le(p.1 as nat, 8)
}

/// The bytes of points, one after the other.
pub open spec fn points_bytes(ps: Seq<Pt>) -> Seq<u8>
    decreases ps.len(),
{
    if ps.len() == 0 {
        Seq::empty()
    } else {
        points_bytes(ps.drop_last()) + point_bytes(ps.last())
    }
}

/// The number of points and the points.
pub open spec fn counted(ps: Seq<Pt>) -> Seq<u8> {
    crate::geom::bytes::le(ps.len(), 4) + points_bytes(ps)
}

/// A line as bytes.
pub open spec fn line_bytes(ps: Seq<Pt>) -> Seq<u8> {
    header(LINE_TYPE) + counted(ps)
}

/// Rings as bytes, one after the other.
pub open spec fn rings_bytes(rings: Seq<Seq<Pt>>) -> Seq<u8>
    decreases rings.len(),
{
    if rings.len() == 0 {
        Seq::empty()
    } else {
        rings_bytes(rings.drop_last()) + counted(rings.last())
    }
}

/// The bytes of a polygon with these rings, the outline first.
pub open spec fn polygon_bytes(rings: Seq<Seq<Pt>>) -> Seq<u8> {
    header(POLYGON_TYPE) + crate::geom::bytes::le(rings.len(), 4) + rings_bytes(rings)
}

/// A line inside a bundle.
pub open spec fn member_bytes(ps: Seq<Pt>) -> Seq<u8> {
    seq![1u8] + crate::geom::bytes::le(PLAIN_LINE_TYPE as nat, 4) + counted(ps)
}

/// The lines of a bundle, one after the other.
pub open spec fn members_bytes(lines: Seq<Seq<Pt>>) -> Seq<u8>
    decreases lines.len(),
{
    if lines.len() == 0 {
        Seq::empty()
    } else {
        member_bytes(lines[0]) + members_bytes(lines.skip(1))
    }
}

/// A bundle of lines as bytes.
pub open spec fn multi_bytes(lines: Seq<Seq<Pt>>) -> Seq<u8> {
    header(MULTI_LINE_TYPE) + crate::geom::bytes::le(lines.len(), 4) + members_bytes(lines)
}

/// The points of a list of lines.
pub open spec fn runs(lines: Seq<Vec<Pt>>) -> Seq<Seq<Pt>> {
    lines.map_values(|l: Vec<Pt>| l@)
}

/// Every list is short enough for a thirty-two bit count.
pub open spec fn countable(lines: Seq<Seq<Pt>>) -> bool {
    &&& lines.len() <= u32::MAX
    &&& forall|i: int| 0 <= i < lines.len() ==> (#[trigger] lines[i]).len() <= u32::MAX
}

/// The point that sixteen bytes from `at` on spell.
pub open spec fn point_at(bytes: Seq<u8>, at: int) -> Pt {
    (
        crate::geom::bytes::number_at(bytes, at, 8) as u64,
        crate::geom::bytes::number_at(bytes, at + 8, 8) as u64,
    )
}

/// The `n` points that bytes from `at` on spell.
pub open spec fn points_at(bytes: Seq<u8>, at: int, n: nat) -> Seq<Pt> {
    Seq::new(n, |i: int| point_at(bytes, at + 16 * i))
}

/// What a header of `least` bytes is refused for, in the order the parts are looked at.
pub open spec fn header_error(bytes: Seq<u8>, least: int, shape: u32) -> Option<EwkbError> {
    if bytes.len() < least {
        Some(EwkbError::TooShort)
    } else if bytes[0] != 1 {
        Some(EwkbError::NotLittleEndian)
    } else {
        let found = crate::geom::bytes::number_at(bytes, 1, 4);
        if found != shape {
            Some(EwkbError::WrongType { found: found as u32 })
        } else {
            None
        }
    }
}

/// The line that bytes spell.
pub open spec fn decoded_line(bytes: Seq<u8>) -> Result<Seq<Pt>, EwkbError> {
    match header_error(bytes, 13, LINE_TYPE) {
        Some(e) => Err(e),
        None => {
            let n = crate::geom::bytes::number_at(bytes, 9, 4);
            if bytes.len() < 13 + n * 16 {
                Err(EwkbError::Truncated)
            } else {
                Ok(points_at(bytes, 13, n))
            }
        },
    }
}

/// The point that bytes spell.
pub open spec fn decoded_point(bytes: Seq<u8>) -> Result<Pt, EwkbError> {
    match header_error(bytes, 21, POINT_TYPE) {
        Some(e) => Err(e),
        None => Ok(point_at(bytes, 9)),
    }
}

/// The `n` lines that the members of a bundle from `at` on spell.
pub open spec fn members_at(bytes: Seq<u8>, at: int, n: nat) -> Result<Seq<Seq<Pt>>, EwkbError>
    decreases n,
{
    if n == 0 {
        Ok(Seq::empty())
    } else if bytes.len() < at + 9 {
        Err(EwkbError::MemberHeaderTruncated)
    } else if bytes[at] != 1 {
        Err(EwkbError::NotLittleEndian)
    } else {
        let found = crate::geom::bytes::number_at(bytes, at + 1, 4);
        let points = crate::geom::bytes::number_at(bytes, at + 5, 4);
        if found != PLAIN_LINE_TYPE {
            Err(EwkbError::WrongMemberType { found: found as u32 })
        } else if bytes.len() < at + 9 + points * 16 {
            Err(EwkbError::MemberPointsTruncated)
        } else {
            match members_at(bytes, at + 9 + points * 16, (n - 1) as nat) {
                Ok(rest) => Ok(seq![points_at(bytes, at + 9, points)] + rest),
                Err(e) => Err(e),
            }
        }
    }
}

/// The lines that the bytes of a bundle spell.
pub open spec fn decoded_multi(bytes: Seq<u8>) -> Result<Seq<Seq<Pt>>, EwkbError> {
    match header_error(bytes, 9, MULTI_LINE_TYPE) {
        Some(e) => Err(e),
        None => members_at(bytes, 13, crate::geom::bytes::number_at(bytes, 9, 4)),
    }
}

pub proof fn lemma_header_len(shape: u32)
    ensures
        header(shape).len() == 9,
{
    lemma_le_len(shape as nat, 4);
    lemma_le_len(SRID as nat, 4);
}

pub proof fn lemma_points_len(ps: Seq<Pt>)
    ensures
        points_bytes(ps).len() == 16 * ps.len(),
    decreases ps.len(),
{
    if ps.len() > 0 {
        lemma_points_len(ps.drop_last());
        lemma_le_len(ps.last().0 as nat, 8);
        lemma_le_len(ps.last().1 as nat, 8);
    }
}

/// The points written between other bytes are read from there.
pub proof fn lemma_points_inside(before: Seq<u8>, ps: Seq<Pt>, after: Seq<u8>)
    ensures
        points_at(before + points_bytes(ps) + after, before.len() as int, ps.len()) == ps,
    decreases ps.len(),
{
    let all = before + points_bytes(ps) + after;
    let at = before.len() as int;
    assert forall|i: int| 0 <= i < ps.len() implies point_at(all, at + 16 * i) == ps[i] by {
        lemma_point_inside(before, ps, after, i);
    }
    assert(points_at(all, at, ps.len()) =~= ps);
}

proof fn lemma_point_inside(before: Seq<u8>, ps: Seq<Pt>, after: Seq<u8>, i: int)
    requires
        0 <= i < ps.len(),
    ensures
        point_at(before + points_bytes(ps) + after, before.len() + 16 * i) == ps[i],
    decreases ps.len(),
{
    let all = before + points_bytes(ps) + after;
    let first = ps.drop_last();
    lemma_points_len(first);
    lemma_spans();
    let x = ps.last().0 as nat;
    let y = ps.last().1 as nat;
    lemma_le_len(x, 8);
    lemma_le_len(y, 8);
    let bx = crate::geom::bytes::le(x, 8);
    let by = crate::geom::bytes::le(y, 8);
    if i < first.len() {
        lemma_point_inside(before, first, point_bytes(ps.last()) + after, i);
        assert(before + points_bytes(first) + (point_bytes(ps.last()) + after) =~= all);
    } else {
        let start = before + points_bytes(first);
        assert(start + bx + (by + after) =~= all);
        assert((start + bx) + by + after =~= all);
        lemma_number_inside(start, x, 8, by + after);
        lemma_number_inside(start + bx, y, 8, after);
    }
}

/// The header written first is read back without an error.
proof fn lemma_header_read(shape: u32, after: Seq<u8>, least: int)
    requires
        least <= 9 + after.len(),
        least >= 9,
    ensures
        header_error(header(shape) + after, least, shape) is None,
{
    lemma_header_len(shape);
    lemma_spans();
    lemma_le_len(shape as nat, 4);
    let srid = crate::geom::bytes::le(SRID as nat, 4);
    lemma_number_inside(seq![1u8], shape as nat, 4, srid + after);
    assert(seq![1u8] + crate::geom::bytes::le(shape as nat, 4) + (srid + after) =~= header(shape)
        + after);
}

/// A line reads back as it was written.
pub proof fn written_line_is_read(ps: Seq<Pt>)
    requires
        ps.len() <= u32::MAX,
    ensures
        decoded_line(line_bytes(ps)) == Ok::<Seq<Pt>, EwkbError>(ps),
{
    let bytes = line_bytes(ps);
    let count = crate::geom::bytes::le(ps.len(), 4);
    lemma_header_len(LINE_TYPE);
    lemma_le_len(ps.len(), 4);
    lemma_points_len(ps);
    lemma_spans();
    lemma_header_read(LINE_TYPE, counted(ps), 13);
    assert(header(LINE_TYPE) + count + points_bytes(ps) =~= bytes);
    lemma_number_inside(header(LINE_TYPE), ps.len(), 4, points_bytes(ps));
    assert((header(LINE_TYPE) + count) + points_bytes(ps) + Seq::<u8>::empty() =~= bytes);
    lemma_points_inside(header(LINE_TYPE) + count, ps, Seq::empty());
}

/// A point reads back as it was written.
pub proof fn written_point_is_read(p: Pt)
    ensures
        decoded_point(header(POINT_TYPE) + point_bytes(p)) == Ok::<Pt, EwkbError>(p),
{
    let bytes = header(POINT_TYPE) + point_bytes(p);
    lemma_header_len(POINT_TYPE);
    lemma_header_read(POINT_TYPE, point_bytes(p), 9);
    lemma_le_len(p.0 as nat, 8);
    lemma_le_len(p.1 as nat, 8);
    let one = seq![p];
    assert(one.drop_last() =~= Seq::<Pt>::empty());
    reveal_with_fuel(points_bytes, 2);
    assert(points_bytes(one) =~= point_bytes(p));
    assert(header(POINT_TYPE) + points_bytes(one) + Seq::<u8>::empty() =~= bytes);
    lemma_point_inside(header(POINT_TYPE), one, Seq::empty(), 0);
}

/// A member written between other bytes is read from there.
proof fn lemma_member_inside(before: Seq<u8>, ps: Seq<Pt>, after: Seq<u8>)
    requires
        ps.len() <= u32::MAX,
    ensures
        ({
            let all = before + member_bytes(ps) + after;
            let at = before.len() as int;
            &&& member_bytes(ps).len() == 9 + 16 * ps.len()
            &&& all[at] == 1
            &&& crate::geom::bytes::number_at(all, at + 1, 4) == PLAIN_LINE_TYPE
            &&& crate::geom::bytes::number_at(all, at + 5, 4) == ps.len()
            &&& points_at(all, at + 9, ps.len()) == ps
        }),
{
    let all = before + member_bytes(ps) + after;
    let kind = crate::geom::bytes::le(PLAIN_LINE_TYPE as nat, 4);
    let count = crate::geom::bytes::le(ps.len(), 4);
    let points = points_bytes(ps);
    lemma_spans();
    lemma_le_len(PLAIN_LINE_TYPE as nat, 4);
    lemma_le_len(ps.len(), 4);
    lemma_points_len(ps);
    let b1 = before + seq![1u8];
    let b2 = b1 + kind;
    let b3 = b2 + count;
    assert(b1 + kind + (count + points + after) =~= all);
    assert(b2 + count + (points + after) =~= all);
    assert(b3 + points + after =~= all);
    lemma_number_inside(b1, PLAIN_LINE_TYPE as nat, 4, count + points + after);
    lemma_number_inside(b2, ps.len(), 4, points + after);
    lemma_points_inside(b3, ps, after);
}

/// The members written between other bytes are read from there.
proof fn lemma_members_inside(before: Seq<u8>, lines: Seq<Seq<Pt>>, after: Seq<u8>)
    requires
        countable(lines),
    ensures
        members_at(before + members_bytes(lines) + after, before.len() as int, lines.len()) == Ok::<
            Seq<Seq<Pt>>,
            EwkbError,
        >(lines),
    decreases lines.len(),
{
    let all = before + members_bytes(lines) + after;
    if lines.len() == 0 {
        assert(lines =~= Seq::empty());
    } else {
        let ps = lines[0];
        let rest = members_bytes(lines.skip(1));
        assert(before + member_bytes(ps) + (rest + after) =~= all);
        lemma_member_inside(before, ps, rest + after);
        assert(countable(lines.skip(1)));
        assert((before + member_bytes(ps)) + rest + after =~= all);
        lemma_members_inside(before + member_bytes(ps), lines.skip(1), after);
        assert(seq![ps] + lines.skip(1) =~= lines);
    }
}

/// A bundle of lines reads back as it was written.
pub proof fn written_bundle_is_read(lines: Seq<Seq<Pt>>)
    requires
        countable(lines),
    ensures
        decoded_multi(multi_bytes(lines)) == Ok::<Seq<Seq<Pt>>, EwkbError>(lines),
{
    let bytes = multi_bytes(lines);
    let count = crate::geom::bytes::le(lines.len(), 4);
    lemma_header_len(MULTI_LINE_TYPE);
    lemma_le_len(lines.len(), 4);
    lemma_spans();
    assert(header(MULTI_LINE_TYPE) + (count + members_bytes(lines)) =~= bytes);
    lemma_header_read(MULTI_LINE_TYPE, count + members_bytes(lines), 9);
    lemma_number_inside(header(MULTI_LINE_TYPE), lines.len(), 4, members_bytes(lines));
    assert((header(MULTI_LINE_TYPE) + count) + members_bytes(lines) + Seq::<u8>::empty() =~= bytes);
    lemma_members_inside(header(MULTI_LINE_TYPE) + count, lines, Seq::empty());
}

/// A decoder refuses every other shape than its own.
pub proof fn other_shapes_are_refused(ps: Seq<Pt>)
    requires
        ps.len() <= u32::MAX,
    ensures
        decoded_multi(line_bytes(ps)) == Err::<Seq<Seq<Pt>>, EwkbError>(
            EwkbError::WrongType { found: LINE_TYPE },
        ),
        decoded_point(line_bytes(ps)) == Err::<Pt, EwkbError>(
            if ps.len() == 0 {
                EwkbError::TooShort
            } else {
                EwkbError::WrongType { found: LINE_TYPE }
            },
        ),
{
    let after = counted(ps);
    lemma_header_len(LINE_TYPE);
    lemma_spans();
    lemma_le_len(LINE_TYPE as nat, 4);
    lemma_le_len(ps.len(), 4);
    lemma_points_len(ps);
    let srid = crate::geom::bytes::le(SRID as nat, 4);
    lemma_number_inside(seq![1u8], LINE_TYPE as nat, 4, srid + after);
    assert(seq![1u8] + crate::geom::bytes::le(LINE_TYPE as nat, 4) + (srid + after) =~= line_bytes(
        ps,
    ));
}

/// Whether two points have equal coordinates.
pub fn same_point(a: Pt, b: Pt) -> (r: bool)
    ensures
        r == same(a, b),
{
    eq(a.0, b.0) && eq(a.1, b.1)
}

fn start(shape: u32) -> (r: Vec<u8>)
    ensures
        r@ == header(shape),
{
    let mut buf: Vec<u8> = Vec::new();
    buf.push(1);
    assert(buf@ =~= seq![1u8]);
    put(&mut buf, shape as u64, 4);
    put(&mut buf, SRID as u64, 4);
    buf
}

fn put_point(buf: &mut Vec<u8>, p: Pt)
    ensures
        final(buf)@ == old(buf)@ + point_bytes(p),
{
    let ghost before = buf@;
    put(buf, p.0, 8);
    put(buf, p.1, 8);
    assert(buf@ =~= before + point_bytes(p));
}

fn put_counted(buf: &mut Vec<u8>, ps: &Vec<Pt>)
    ensures
        final(buf)@ == old(buf)@ + counted(ps@),
{
    let ghost before = buf@;
    put(buf, ps.len() as u64, 4);
    let ghost count = crate::geom::bytes::le(ps@.len(), 4);
    let mut i: usize = 0;
    assert(points_bytes(ps@.take(0)) =~= Seq::<u8>::empty());
    while i < ps.len()
        invariant
            i <= ps@.len(),
            buf@ =~= before + count + points_bytes(ps@.take(i as int)),
        decreases ps.len() - i,
    {
        put_point(buf, ps[i]);
        proof {
            assert(ps@.take(i + 1).drop_last() =~= ps@.take(i as int));
            assert(ps@.take(i + 1).last() == ps@[i as int]);
        }
        i = i + 1;
    }
    assert(ps@.take(i as int) =~= ps@);
}

/// Encodes a projected line.
pub fn to_ewkb(line: &Vec<Pt>) -> (r: Vec<u8>)
    ensures
        r@ == line_bytes(line@),
{
    let mut buf: Vec<u8> = start(LINE_TYPE);
    put_counted(&mut buf, line);
    buf
}

/// Encodes a projected point.
pub fn point_to_ewkb(x: u64, y: u64) -> (r: Vec<u8>)
    ensures
        r@ == header(POINT_TYPE) + point_bytes((x, y)),
{
    let mut buf: Vec<u8> = start(POINT_TYPE);
    put_point(&mut buf, (x, y));
    buf
}

/// Encodes a projected polygon, the outline first.
pub fn polygon_to_ewkb(polygon: &Polygon) -> (r: Vec<u8>)
    ensures
        r@ == polygon_bytes(runs(polygon.rings@)),
{
    let ghost rings = runs(polygon.rings@);
    let mut buf: Vec<u8> = start(POLYGON_TYPE);
    put(&mut buf, polygon.rings.len() as u64, 4);
    let ghost before = buf@;
    let mut i: usize = 0;
    assert(rings_bytes(rings.take(0)) =~= Seq::<u8>::empty());
    while i < polygon.rings.len()
        invariant
            i <= polygon.rings@.len(),
            rings == runs(polygon.rings@),
            buf@ =~= before + rings_bytes(rings.take(i as int)),
        decreases polygon.rings.len() - i,
    {
        assert(rings[i as int] == polygon.rings@[i as int]@);
        put_counted(&mut buf, &polygon.rings[i]);
        proof {
            assert(rings.take(i + 1).drop_last() =~= rings.take(i as int));
            assert(rings.take(i + 1).last() == rings[i as int]);
        }
        i = i + 1;
    }
    assert(rings.take(i as int) =~= rings);
    buf
}

proof fn lemma_members_push(lines: Seq<Seq<Pt>>, last: Seq<Pt>)
    ensures
        members_bytes(lines.push(last)) == members_bytes(lines) + member_bytes(last),
    decreases lines.len(),
{
    if lines.len() == 0 {
        reveal_with_fuel(members_bytes, 2);
        assert(lines.push(last).skip(1) =~= Seq::<Seq<Pt>>::empty());
        assert(members_bytes(lines.push(last)) =~= members_bytes(lines) + member_bytes(last));
    } else {
        lemma_members_push(lines.skip(1), last);
        assert(lines.push(last).skip(1) =~= lines.skip(1).push(last));
        assert(members_bytes(lines.push(last)) =~= members_bytes(lines) + member_bytes(last));
    }
}

/// Encodes projected lines as one bundle.
pub fn to_multi_ewkb(lines: &Vec<Vec<Pt>>) -> (r: Vec<u8>)
    ensures
        r@ == multi_bytes(runs(lines@)),
{
    let ghost all = runs(lines@);
    let mut buf: Vec<u8> = start(MULTI_LINE_TYPE);
    put(&mut buf, lines.len() as u64, 4);
    let ghost before = buf@;
    let mut i: usize = 0;
    assert(members_bytes(all.take(0)) =~= Seq::<u8>::empty());
    while i < lines.len()
        invariant
            i <= lines@.len(),
            all == runs(lines@),
            buf@ =~= before + members_bytes(all.take(i as int)),
        decreases lines.len() - i,
    {
        assert(all[i as int] == lines@[i as int]@);
        let ghost start = buf@;
        buf.push(1);
        put(&mut buf, PLAIN_LINE_TYPE as u64, 4);
        put_counted(&mut buf, &lines[i]);
        proof {
            assert(buf@ =~= start + member_bytes(lines@[i as int]@));
            lemma_members_push(all.take(i as int), lines@[i as int]@);
            assert(all.take(i as int).push(lines@[i as int]@) =~= all.take(i + 1));
        }
        i = i + 1;
    }
    assert(all.take(i as int) =~= all);
    buf
}

fn check_header(bytes: &Vec<u8>, least: usize, shape: u32) -> (r: Option<EwkbError>)
    requires
        least >= 5,
    ensures
        r == header_error(bytes@, least as int, shape),
{
    if bytes.len() < least {
        return Some(EwkbError::TooShort);
    }
    if bytes[0] != 1 {
        return Some(EwkbError::NotLittleEndian);
    }
    proof {
        lemma_spans();
    }
    let found: u64 = take(bytes, 1, 4);
    if found != shape as u64 {
        Some(EwkbError::WrongType { found: found as u32 })
    } else {
        None
    }
}

fn take_point(bytes: &Vec<u8>, at: usize) -> (r: Pt)
    requires
        at + 16 <= bytes@.len(),
    ensures
        r == point_at(bytes@, at as int),
{
    let size: usize = bytes.len();
    assert(at + 16 <= size);
    (take(bytes, at, 8), take(bytes, at + 8, 8))
}

fn take_points(bytes: &Vec<u8>, at: usize, n: usize) -> (r: Vec<Pt>)
    requires
        at + n * 16 <= bytes@.len(),
    ensures
        r@ == points_at(bytes@, at as int, n as nat),
{
    let size: usize = bytes.len();
    let mut out: Vec<Pt> = Vec::new();
    let mut i: usize = 0;
    while i < n
        invariant
            i <= n,
            size == bytes@.len(),
            at + n * 16 <= size,
            out@ == points_at(bytes@, at as int, i as nat),
        decreases n - i,
    {
        out.push(take_point(bytes, at + i * 16));
        i = i + 1;
        assert(out@ =~= points_at(bytes@, at as int, i as nat));
    }
    out
}

/// Decodes a line into its projected points.
pub fn linestring_from_ewkb(bytes: &Vec<u8>) -> (r: Result<Vec<Pt>, EwkbError>)
    ensures
        match decoded_line(bytes@) {
            Ok(ps) => r is Ok && r->Ok_0@ == ps,
            Err(e) => r == Err::<Vec<Pt>, EwkbError>(e),
        },
{
    if let Some(e) = check_header(bytes, 13, LINE_TYPE) {
        return Err(e);
    }
    proof {
        lemma_spans();
    }
    let n: u64 = take(bytes, 9, 4);
    let room: usize = (bytes.len() - 13) / 16;
    if (room as u64) < n {
        return Err(EwkbError::Truncated);
    }
    Ok(take_points(bytes, 13, n as usize))
}

/// Decodes a point. The bytes of a point that stop short inside its coordinates are not accepted
/// here.
pub fn point_from_ewkb(bytes: &Vec<u8>) -> (r: Result<Pt, EwkbError>)
    requires
        header_error(bytes@, 21, POINT_TYPE) is None ==> bytes@.len() >= 25,
    ensures
        r == decoded_point(bytes@),
{
    if let Some(e) = check_header(bytes, 21, POINT_TYPE) {
        return Err(e);
    }
    Ok(take_point(bytes, 9))
}

/// Decodes a bundle of lines into the projected points of each. The bytes of a bundle that stop
/// short inside the number of its lines are not accepted here.
pub fn multilinestring_from_ewkb(bytes: &Vec<u8>) -> (r: Result<Vec<Vec<Pt>>, EwkbError>)
    requires
        header_error(bytes@, 9, MULTI_LINE_TYPE) is None ==> bytes@.len() >= 13,
    ensures
        match decoded_multi(bytes@) {
            Ok(lines) => r is Ok && runs(r->Ok_0@) == lines,
            Err(e) => r == Err::<Vec<Vec<Pt>>, EwkbError>(e),
        },
{
    if let Some(e) = check_header(bytes, 9, MULTI_LINE_TYPE) {
        return Err(e);
    }
    proof {
        lemma_spans();
    }
    let n: u64 = take(bytes, 9, 4);
    let size: usize = bytes.len();
    let mut at: usize = 13;
    let mut out: Vec<Vec<Pt>> = Vec::new();
    let mut i: u64 = 0;
    let ghost whole = decoded_multi(bytes@);
    proof {
        assert(match members_at(bytes@, 13, n as nat) {
            Ok(rest) => whole == Ok::<Seq<Seq<Pt>>, EwkbError>(runs(out@) + rest),
            Err(e) => whole == Err::<Seq<Seq<Pt>>, EwkbError>(e),
        }) by {
            if let Ok(rest) = members_at(bytes@, 13, n as nat) {
                assert(runs(out@) + rest =~= rest);
            }
        }
    }
    while i < n
        invariant
            i <= n,
            at <= size,
            size == bytes@.len(),
            whole == decoded_multi(bytes@),
            match members_at(bytes@, at as int, (n - i) as nat) {
                Ok(rest) => whole == Ok::<Seq<Seq<Pt>>, EwkbError>(runs(out@) + rest),
                Err(e) => whole == Err::<Seq<Seq<Pt>>, EwkbError>(e),
            },
        decreases n - i,
    {
        proof {
            lemma_spans();
        }
        if size - at < 9 {
            return Err(EwkbError::MemberHeaderTruncated);
        }
        if bytes[at] != 1 {
            return Err(EwkbError::NotLittleEndian);
        }
        let found: u64 = take(bytes, at + 1, 4);
        if found != PLAIN_LINE_TYPE as u64 {
            return Err(EwkbError::WrongMemberType { found: found as u32 });
        }
        let points: u64 = take(bytes, at + 5, 4);
        let start: usize = at + 9;
        let room: usize = (size - start) / 16;
        if (room as u64) < points {
            return Err(EwkbError::MemberPointsTruncated);
        }
        let line: Vec<Pt> = take_points(bytes, start, points as usize);
        let ghost before = runs(out@);
        let ghost ps = line@;
        let ghost rest = members_at(bytes@, start + points * 16, (n - i - 1) as nat);
        out.push(line);
        proof {
            assert(runs(out@) =~= before.push(ps));
            if let Ok(tail) = rest {
                assert(before + (seq![ps] + tail) =~= before.push(ps) + tail);
            }
        }
        at = start + points as usize * 16;
        i = i + 1;
    }
    proof {
        assert(runs(out@) + Seq::<Seq<Pt>>::empty() =~= runs(out@));
    }
    Ok(out)
}

} // verus!
