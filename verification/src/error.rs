//! The reasons a conversion can fail. Every fatal condition travels up the
//! call chain as one of these variants, so a host application can report the
//! specific violated invariant instead of aborting uncontrolled.

use vstd::prelude::*;

verus! {

/// One fatal condition of the conversion pipeline.
#[derive(Clone, Copy, Debug, PartialEq, Eq, Structural)]
pub enum BookshelfError {
    /// A byte outside the printable ASCII/whitespace range was found in the input.
    Encoding,
    /// The input ended in the middle of a record.
    TruncatedInput,
    /// A required token or field was missing or of the wrong shape.
    Grammar,
    /// A value that must be an integer carried a fractional part.
    NonIntegerGeometry,
    /// A fixed not-in-image terminal is referenced as an endpoint of more
    /// than one net, which a top-level pin with a single port cannot express.
    PinCardinality,
    /// The terminal names recorded by the routing grid, the placement file
    /// and the nodes file do not agree.
    PinSetMismatch,
    /// A net endpoint on a terminal carries a pin name other than `I` or `O`.
    BadPinDirection,
    /// A routing layer declares both vertical and horizontal capacity.
    BidirectionalLayer,
    /// A component has no entry in the placement file.
    MissingPlacement,
    /// The per-layer parameter lists of the routing grid have unequal lengths.
    LayerCount,
    /// A layer's track pitch is zero, so no track geometry can be derived.
    ZeroPitch,
    /// A derived coordinate does not fit the machine integer range.
    Overflow,
    /// The rows file declared no rows, so no core area exists.
    NoRows,
    /// A net endpoint names an instance that no node declares.
    UnknownInstance,
}

impl BookshelfError {
    /// A short diagnostic naming the violated invariant.
    pub fn describe(&self) -> (r: &'static str)
        ensures
            r@.len() > 0,
    {
        proof {
            reveal_strlit("byte outside the supported character range");
            reveal_strlit("input ended in the middle of a record");
            reveal_strlit("required token missing or of the wrong shape");
            reveal_strlit("geometry value is not an integer");
            reveal_strlit("a top-level pin is an endpoint of more than one net");
            reveal_strlit("terminal names disagree between route, placement and nodes");
            reveal_strlit("terminal net endpoint is neither an input nor an output");
            reveal_strlit("routing layer is bidirectional");
            reveal_strlit("component has no placement");
            reveal_strlit("per-layer parameter lists have unequal lengths");
            reveal_strlit("routing layer has zero track pitch");
            reveal_strlit("derived coordinate out of range");
            reveal_strlit("no placement rows were declared");
            reveal_strlit("net endpoint names an undeclared instance");
        }
        match self {
            BookshelfError::Encoding => "byte outside the supported character range",
            BookshelfError::TruncatedInput => "input ended in the middle of a record",
            BookshelfError::Grammar => "required token missing or of the wrong shape",
            BookshelfError::NonIntegerGeometry => "geometry value is not an integer",
            BookshelfError::PinCardinality => "a top-level pin is an endpoint of more than one net",
            BookshelfError::PinSetMismatch => "terminal names disagree between route, placement and nodes",
            BookshelfError::BadPinDirection => "terminal net endpoint is neither an input nor an output",
            BookshelfError::BidirectionalLayer => "routing layer is bidirectional",
            BookshelfError::MissingPlacement => "component has no placement",
            BookshelfError::LayerCount => "per-layer parameter lists have unequal lengths",
            BookshelfError::ZeroPitch => "routing layer has zero track pitch",
            BookshelfError::Overflow => "derived coordinate out of range",
            BookshelfError::NoRows => "no placement rows were declared",
            BookshelfError::UnknownInstance => "net endpoint names an undeclared instance",
        }
    }
}

} // verus!
