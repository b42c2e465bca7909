//! The shapes file: per node, a count of rectangles followed by that many
//! named rectangles, each given as lower-left corner, width and height.
//! `parse_shapes` is the grammar; `Shapes::read_from_file` is proved to
//! compute it.

use vstd::prelude::*;
use crate::error::BookshelfError;
use crate::geom::{Rect, RectV, parse_rect_lwh_at, lemma_parse_rect_progress};
use crate::reader::{
    TokenReader, all_ascii, has_token, token_chars, after_token, line_start_after,
    lemma_token_progress, lemma_line_start_bounds,
};
use crate::strutil::{str_eq_ignore_case, upper_seq};
use crate::util::{is_i64_token, int_token_val, parse};

verus! {

/// One named rectangle of a node's outline.
pub struct Shape {
    pub shape_name: String,
    pub rect: Rect,
}

/// The mathematical value of a shape record.
pub struct ShapeV {
    pub shape_name: Seq<char>,
    pub rect: RectV,
}

impl View for Shape {
    type V = ShapeV;

    open spec fn view(&self) -> ShapeV {
        ShapeV { shape_name: self.shape_name@, rect: self.rect@ }
    }
}

/// The non-rectangular outline of one node.
pub struct NodeShape {
    pub node_name: String,
    pub shape: Vec<Shape>,
}

/// The mathematical value of a node-shape record.
pub struct NodeShapeV {
    pub node_name: Seq<char>,
    pub shape: Seq<ShapeV>,
}

impl View for NodeShape {
    type V = NodeShapeV;

    open spec fn view(&self) -> NodeShapeV {
        NodeShapeV { node_name: self.node_name@, shape: self.shape@.map_values(|x: Shape| x@) }
    }
}

/// What reading one shape record at `pos` yields.
pub open spec fn parse_shape_at(s: Seq<u8>, pos: int) -> Result<(ShapeV, int), BookshelfError> {
    if !has_token(s, pos) {
        Err(BookshelfError::TruncatedInput)
    } else {
        let name = token_chars(s, pos);
        match parse_rect_lwh_at(s, after_token(s, pos)) {
            Err(e) => Err(e),
            Ok((rc, p1)) => Ok((ShapeV { shape_name: name, rect: rc }, p1)),
        }
    }
}

/// A shape record that reads successfully consumes at least one token.
pub proof fn lemma_parse_shape_progress(s: Seq<u8>, pos: int)
    requires
        0 <= pos <= s.len(),
    ensures
        parse_shape_at(s, pos) is Ok ==> pos < parse_shape_at(s, pos)->Ok_0.1 <= s.len(),
{
    if has_token(s, pos) {
        lemma_token_progress(s, pos);
        lemma_parse_rect_progress(s, after_token(s, pos));
    }
}

/// What reading `k` shape records onto `acc` yields.
pub open spec fn parse_shape_list_at(s: Seq<u8>, pos: int, k: int, acc: Seq<ShapeV>) -> Result<
    (Seq<ShapeV>, int),
    BookshelfError,
>
    decreases k,
{
    if k <= 0 {
        Ok((acc, pos))
    } else {
        match parse_shape_at(s, pos) {
            Err(e) => Err(e),
            Ok((sh, p1)) => parse_shape_list_at(s, p1, k - 1, acc.push(sh)),
        }
    }
}

/// Reading a shape list never moves the position backwards.
pub proof fn lemma_parse_shape_list_progress(s: Seq<u8>, pos: int, k: int, acc: Seq<ShapeV>)
    requires
        0 <= pos <= s.len(),
    ensures
        parse_shape_list_at(s, pos, k, acc) is Ok ==> pos <= parse_shape_list_at(
            s,
            pos,
            k,
            acc,
        )->Ok_0.1 <= s.len(),
    decreases k,
{
    if k > 0 {
        lemma_parse_shape_progress(s, pos);
        if parse_shape_at(s, pos) is Ok {
            let (sh, p1) = parse_shape_at(s, pos)->Ok_0;
            lemma_parse_shape_list_progress(s, p1, k - 1, acc.push(sh));
        }
    }
}

/// What reading one node-shape record at `pos` yields.
pub open spec fn parse_node_shape_at(s: Seq<u8>, pos: int) -> Result<
    (NodeShapeV, int),
    BookshelfError,
> {
    if !has_token(s, pos) {
        Err(BookshelfError::TruncatedInput)
    } else {
        let name = token_chars(s, pos);
        let p1 = after_token(s, pos);
        if !has_token(s, p1) {
            Err(BookshelfError::TruncatedInput)
        } else if token_chars(s, p1) != ":"@ {
            Err(BookshelfError::Grammar)
        } else {
            let p2 = after_token(s, p1);
            if !has_token(s, p2) {
                Err(BookshelfError::TruncatedInput)
            } else if !is_i64_token(token_chars(s, p2)) {
                Err(BookshelfError::Grammar)
            } else {
                let n = int_token_val(token_chars(s, p2));
                match parse_shape_list_at(s, after_token(s, p2), n, Seq::empty()) {
                    Err(e) => Err(e),
                    Ok((shapes, p3)) => Ok((NodeShapeV { node_name: name, shape: shapes }, p3)),
                }
            }
        }
    }
}

/// A node-shape record that reads successfully consumes at least one token.
pub proof fn lemma_parse_node_shape_progress(s: Seq<u8>, pos: int)
    requires
        0 <= pos <= s.len(),
    ensures
        parse_node_shape_at(s, pos) is Ok ==> pos < parse_node_shape_at(s, pos)->Ok_0.1 <= s.len(),
{
    if has_token(s, pos) {
        lemma_token_progress(s, pos);
        let p1 = after_token(s, pos);
        if has_token(s, p1) {
            lemma_token_progress(s, p1);
            let p2 = after_token(s, p1);
            if has_token(s, p2) {
                lemma_token_progress(s, p2);
                lemma_parse_shape_list_progress(
                    s,
                    after_token(s, p2),
                    int_token_val(token_chars(s, p2)),
                    Seq::empty(),
                );
            }
        }
    }
}

/// The whole grammar of a shapes file starting at `pos`.
pub open spec fn parse_shapes_at(s: Seq<u8>, pos: int, acc: Seq<NodeShapeV>) -> Result<
    Seq<NodeShapeV>,
    BookshelfError,
>
    decreases s.len() - pos,
    when 0 <= pos <= s.len()
    via parse_shapes_at_dec
{
    if !has_token(s, pos) {
        Ok(acc)
    } else {
        let t = upper_seq(token_chars(s, pos));
        let p1 = after_token(s, pos);
        if t == upper_seq("shapes"@) || t == upper_seq("#"@) || t == upper_seq(
            "NumNonRectangularNodes"@,
        ) {
            parse_shapes_at(s, line_start_after(s, p1), acc)
        } else {
            match parse_node_shape_at(s, pos) {
                Err(e) => Err(e),
                Ok((ns, p2)) => parse_shapes_at(s, p2, acc.push(ns)),
            }
        }
    }
}

#[via_fn]
proof fn parse_shapes_at_dec(s: Seq<u8>, pos: int, acc: Seq<NodeShapeV>) {
    if 0 <= pos <= s.len() && has_token(s, pos) {
        lemma_token_progress(s, pos);
        lemma_line_start_bounds(s, after_token(s, pos));
        lemma_parse_node_shape_progress(s, pos);
    }
}

/// What a whole shapes file denotes.
pub open spec fn parse_shapes(s: Seq<u8>) -> Result<Seq<NodeShapeV>, BookshelfError> {
    parse_shapes_at(s, 0, Seq::empty())
}

impl Shape {
    /// Reads one shape record.
    pub fn read(reader: &mut TokenReader) -> (r: Result<Shape, BookshelfError>)
        requires
            old(reader).wf(),
        ensures
            final(reader).wf(),
            final(reader).text() == old(reader).text(),
            match r {
                Ok(sh) => parse_shape_at(old(reader).text(), old(reader).position()) == Ok::<
                    (ShapeV, int),
                    BookshelfError,
                >((sh@, final(reader).position())),
                Err(e) => parse_shape_at(old(reader).text(), old(reader).position()) == Err::<
                    (ShapeV, int),
                    BookshelfError,
                >(e),
            },
    {
        let shape_name = match reader.next_token() {
            None => {
                return Err(BookshelfError::TruncatedInput);
            },
            Some(t) => t,
        };
        let rect = Rect::read_by_lowerleft_width_height(reader)?;
        Ok(Shape { shape_name, rect })
    }
}

impl NodeShape {
    /// Reads one node-shape record: the node's name, the count of its
    /// rectangles, then the rectangles.
    pub fn read(reader: &mut TokenReader) -> (r: Result<NodeShape, BookshelfError>)
        requires
            old(reader).wf(),
        ensures
            final(reader).wf(),
            final(reader).text() == old(reader).text(),
            match r {
                Ok(ns) => parse_node_shape_at(old(reader).text(), old(reader).position()) == Ok::<
                    (NodeShapeV, int),
                    BookshelfError,
                >((ns@, final(reader).position())),
                Err(e) => parse_node_shape_at(old(reader).text(), old(reader).position()) == Err::<
                    (NodeShapeV, int),
                    BookshelfError,
                >(e),
            },
    {
        let ghost s = old(reader).text();
        let node_name = match reader.next_token() {
            None => {
                return Err(BookshelfError::TruncatedInput);
            },
            Some(t) => t,
        };
        match reader.expect(":") {
            Ok(()) => {},
            Err(e) => {
                return Err(e);
            },
        }
        let nt = match reader.next_token() {
            None => {
                return Err(BookshelfError::TruncatedInput);
            },
            Some(t) => t,
        };
        let n = match parse(nt.as_str()) {
            Some(v) => v,
            None => {
                return Err(BookshelfError::Grammar);
            },
        };
        let ghost pstart = reader.position();
        let ghost namev = node_name@;
        let mut shape: Vec<Shape> = Vec::new();
        proof {
            assert(shape@.map_values(|x: Shape| x@) =~= Seq::<ShapeV>::empty());
        }
        let mut i: i64 = 0;
        while i < n
            invariant
                reader.wf(),
                reader.text() == s,
                s == old(reader).text(),
                0 <= i <= n || (n < 0 && i == 0),
                0 <= pstart <= s.len(),
                namev == node_name@,
                parse_shape_list_at(
                    s,
                    reader.position(),
                    n - i,
                    shape@.map_values(|x: Shape| x@),
                ) == parse_shape_list_at(s, pstart, n as int, Seq::empty()),
                parse_node_shape_at(s, old(reader).position()) == (match parse_shape_list_at(
                    s,
                    pstart,
                    n as int,
                    Seq::empty(),
                ) {
                    Err(e) => Err::<(NodeShapeV, int), BookshelfError>(e),
                    Ok((shapes, p3)) => Ok::<(NodeShapeV, int), BookshelfError>(
                        (NodeShapeV { node_name: namev, shape: shapes }, p3),
                    ),
                }),
            decreases n - i,
        {
            let ghost posl = reader.position();
            proof {
                lemma_parse_shape_progress(s, posl);
            }
            let sh = match Shape::read(reader) {
                Ok(sh) => sh,
                Err(e) => {
                    return Err(e);
                },
            };
            let ghost before = shape@.map_values(|x: Shape| x@);
            shape.push(sh);
            proof {
                assert(shape@.map_values(|x: Shape| x@) =~= before.push(sh@));
            }
            i = i + 1;
        }
        Ok(NodeShape { node_name, shape })
    }
}

/// The shape collection, in file order.
pub struct Shapes {
    pub shapes: Vec<NodeShape>,
}

impl View for Shapes {
    type V = Seq<NodeShapeV>;

    open spec fn view(&self) -> Seq<NodeShapeV> {
        self.shapes@.map_values(|x: NodeShape| x@)
    }
}

impl Shapes {
    /// How many nodes declare shapes.
    pub fn len(&self) -> (r: usize)
        ensures
            r == self@.len(),
    {
        self.shapes.len()
    }

    /// Reads a whole shapes file, returning exactly what the grammar says
    /// the bytes denote.
    pub fn read_from_file(bytes: Vec<u8>) -> (r: Result<Shapes, BookshelfError>)
        ensures
            match r {
                Ok(sh) => {
                    &&& all_ascii(bytes@)
                    &&& parse_shapes(bytes@) == Ok::<Seq<NodeShapeV>, BookshelfError>(sh@)
                },
                Err(e) => {
                    &&& !all_ascii(bytes@) ==> e == BookshelfError::Encoding
                    &&& all_ascii(bytes@) ==> parse_shapes(bytes@) == Err::<
                        Seq<NodeShapeV>,
                        BookshelfError,
                    >(e)
                },
            },
    {
        let ghost s = bytes@;
        let mut reader = match TokenReader::new(bytes) {
            Ok(r) => r,
            Err(e) => {
                return Err(e);
            },
        };
        let mut res = Shapes { shapes: Vec::new() };
        proof {
            assert(res@ =~= Seq::<NodeShapeV>::empty());
        }
        loop
            invariant
                s == bytes@,
                reader.wf(),
                reader.text() == s,
                parse_shapes_at(s, reader.position(), res@) == parse_shapes(s),
            decreases s.len() - reader.position(),
        {
            let ghost pos0 = reader.position();
            proof {
                if has_token(s, pos0) {
                    lemma_token_progress(s, pos0);
                    lemma_line_start_bounds(s, after_token(s, pos0));
                    lemma_parse_node_shape_progress(s, pos0);
                }
            }
            let t = match reader.peek_token() {
                None => {
                    return Ok(res);
                },
                Some(t) => t,
            };
            if str_eq_ignore_case(t.as_str(), "shapes") || str_eq_ignore_case(t.as_str(), "#")
                || str_eq_ignore_case(t.as_str(), "NumNonRectangularNodes") {
                let _ = reader.next_token();
                let _ = reader.swallow_line();
            } else {
                let ns = match NodeShape::read(&mut reader) {
                    Ok(ns) => ns,
                    Err(e) => {
                        return Err(e);
                    },
                };
                let ghost before = res@;
                res.shapes.push(ns);
                proof {
                    assert(res@ =~= before.push(ns@));
                }
            }
        }
    }
}

} // verus!
