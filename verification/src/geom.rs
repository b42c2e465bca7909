//! Plain integer geometry. Every coordinate of the model is a whole number
//! of grid units; scaling to database microns happens only when text is
//! emitted.

use vstd::prelude::*;
use crate::error::BookshelfError;
use crate::reader::{TokenReader, has_token, token_chars, after_token};
use crate::util::{is_coord_token, is_fractional_coord, coord_val, parse_coord};

verus! {

/// A point or extent, in grid units.
#[derive(Clone, Copy, Debug, PartialEq, Eq, Structural)]
pub struct Point {
    pub x: i64,
    pub y: i64,
}

/// The mathematical value of a point.
pub struct PointV {
    pub x: int,
    pub y: int,
}

impl View for Point {
    type V = PointV;

    open spec fn view(&self) -> PointV {
        PointV { x: self.x as int, y: self.y as int }
    }
}

/// An axis-aligned rectangle between a lower-left and an upper-right corner.
#[derive(Clone, Copy, Debug, PartialEq, Eq, Structural)]
pub struct Rect {
    pub ll: Point,
    pub ur: Point,
}

/// The mathematical value of a rectangle.
pub struct RectV {
    pub ll: PointV,
    pub ur: PointV,
}

impl View for Rect {
    type V = RectV;

    open spec fn view(&self) -> RectV {
        RectV { ll: self.ll@, ur: self.ur@ }
    }
}

/// The error a coordinate token that does not denote an integer deserves:
/// a well-formed decimal with a non-zero fraction is non-integer geometry,
/// anything else a grammar fault.
pub open spec fn coord_err(t: Seq<char>) -> BookshelfError {
    if is_fractional_coord(t) {
        BookshelfError::NonIntegerGeometry
    } else {
        BookshelfError::Grammar
    }
}

/// What reading one coordinate token at `pos` yields: the value and the new
/// position, or the fatal condition.
pub open spec fn parse_coord_at(s: Seq<u8>, pos: int) -> Result<(int, int), BookshelfError> {
    if !has_token(s, pos) {
        Err(BookshelfError::TruncatedInput)
    } else {
        let t = token_chars(s, pos);
        if is_coord_token(t) {
            Ok((coord_val(t), after_token(s, pos)))
        } else {
            Err(coord_err(t))
        }
    }
}

/// What reading a point (two coordinate tokens) at `pos` yields.
pub open spec fn parse_point_at(s: Seq<u8>, pos: int) -> Result<(PointV, int), BookshelfError> {
    match parse_coord_at(s, pos) {
        Err(e) => Err(e),
        Ok((x, p1)) => match parse_coord_at(s, p1) {
            Err(e) => Err(e),
            Ok((y, p2)) => Ok((PointV { x, y }, p2)),
        },
    }
}

/// Whether a value fits a 64-bit signed machine integer.
pub open spec fn in_i64(v: int) -> bool {
    i64::MIN <= v <= i64::MAX
}

/// What reading a rectangle given as lower-left corner and extent yields:
/// the corner, then the width and height added onto it. A sum outside the
/// machine integer range cannot be represented.
pub open spec fn parse_rect_lwh_at(s: Seq<u8>, pos: int) -> Result<(RectV, int), BookshelfError> {
    match parse_point_at(s, pos) {
        Err(e) => Err(e),
        Ok((ll, p1)) => match parse_point_at(s, p1) {
            Err(e) => Err(e),
            Ok((wh, p2)) => if in_i64(ll.x + wh.x) && in_i64(ll.y + wh.y) {
                Ok((RectV { ll, ur: PointV { x: ll.x + wh.x, y: ll.y + wh.y } }, p2))
            } else {
                Err(BookshelfError::Overflow)
            },
        },
    }
}

/// Reading a point that succeeds consumes at least one token, so parsing
/// loops over records make progress.
pub proof fn lemma_parse_point_progress(s: Seq<u8>, pos: int)
    requires
        0 <= pos <= s.len(),
    ensures
        parse_point_at(s, pos) is Ok ==> pos < parse_point_at(s, pos)->Ok_0.1 <= s.len(),
{
    if has_token(s, pos) {
        crate::reader::lemma_token_progress(s, pos);
        let p1 = after_token(s, pos);
        if has_token(s, p1) {
            crate::reader::lemma_token_progress(s, p1);
        }
    }
}

/// Reads one coordinate token.
pub fn read_coord(reader: &mut TokenReader) -> (r: Result<i64, BookshelfError>)
    requires
        old(reader).wf(),
    ensures
        final(reader).wf(),
        final(reader).text() == old(reader).text(),
        match r {
            Ok(v) => parse_coord_at(old(reader).text(), old(reader).position()) == Ok::<
                (int, int),
                BookshelfError,
            >((v as int, final(reader).position())),
            Err(e) => parse_coord_at(old(reader).text(), old(reader).position()) == Err::<
                (int, int),
                _,
            >(e),
        },
{
    match reader.next_token() {
        None => Err(BookshelfError::TruncatedInput),
        Some(t) => parse_coord(t.as_str()),
    }
}

impl Point {
    /// Reads a point as two coordinate tokens.
    pub fn read(reader: &mut TokenReader) -> (r: Result<Point, BookshelfError>)
        requires
            old(reader).wf(),
        ensures
            final(reader).wf(),
            final(reader).text() == old(reader).text(),
            match r {
                Ok(p) => parse_point_at(old(reader).text(), old(reader).position()) == Ok::<
                    (PointV, int),
                    BookshelfError,
                >((p@, final(reader).position())),
                Err(e) => parse_point_at(old(reader).text(), old(reader).position()) == Err::<
                    (PointV, int),
                    _,
                >(e),
            },
    {
        let x = read_coord(reader)?;
        let y = read_coord(reader)?;
        Ok(Point { x, y })
    }
}

/// A rectangle that reads successfully consumes at least one token.
pub proof fn lemma_parse_rect_progress(s: Seq<u8>, pos: int)
    requires
        0 <= pos <= s.len(),
    ensures
        parse_rect_lwh_at(s, pos) is Ok ==> pos < parse_rect_lwh_at(s, pos)->Ok_0.1 <= s.len(),
{
    lemma_parse_point_progress(s, pos);
    if parse_point_at(s, pos) is Ok {
        lemma_parse_point_progress(s, parse_point_at(s, pos)->Ok_0.1);
    }
}

impl Rect {
    /// Reads a rectangle given as its lower-left corner followed by its
    /// width and height.
    pub fn read_by_lowerleft_width_height(reader: &mut TokenReader) -> (r: Result<
        Rect,
        BookshelfError,
    >)
        requires
            old(reader).wf(),
        ensures
            final(reader).wf(),
            final(reader).text() == old(reader).text(),
            match r {
                Ok(rc) => parse_rect_lwh_at(old(reader).text(), old(reader).position()) == Ok::<
                    (RectV, int),
                    BookshelfError,
                >((rc@, final(reader).position())),
                Err(e) => parse_rect_lwh_at(old(reader).text(), old(reader).position()) == Err::<
                    (RectV, int),
                    BookshelfError,
                >(e),
            },
    {
        let ll = Point::read(reader)?;
        let wh = Point::read(reader)?;
        let urx = match ll.x.checked_add(wh.x) {
            Some(v) => v,
            None => {
                return Err(BookshelfError::Overflow);
            },
        };
        let ury = match ll.y.checked_add(wh.y) {
            Some(v) => v,
            None => {
                return Err(BookshelfError::Overflow);
            },
        };
        Ok(Rect { ll, ur: Point { x: urx, y: ury } })
    }
}

} // verus!
