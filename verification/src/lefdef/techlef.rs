//! The technology LEF: units and manufacturing grid, the overlap layer,
//! the routing layers with a default cut layer between each pair, and one
//! default via for each adjacent layer pair.

use vstd::prelude::*;
use vstd::string::StringExecFns;
use crate::error::BookshelfError;
use crate::lefdef::writer::{
    RoutingLayer, RoutingLayerV, layers_view, layers_ok, routing_layer_matches,
    routing_layer_text, cut_layer_text, overlap_layer_text, CutLayer, OverlapLayer,
};
use crate::numfmt::push_dec_u64;
use crate::parser::Bookshelf;

verus! {

/// The technology library: the derived routing layers.
pub struct TechLef {
    pub layer: Vec<RoutingLayer>,
}

impl TechLef {
    /// Derives the technology layers from the routing grid.
    pub fn build(bookshelf: &Bookshelf) -> (r: Result<TechLef, BookshelfError>)
        ensures
            match r {
                Ok(t) => {
                    &&& layers_ok(bookshelf.route@)
                    &&& layers_view(t.layer@).len() == bookshelf.route@.vertical_capacity.len()
                    &&& forall|l: int|
                        0 <= l < layers_view(t.layer@).len() ==> routing_layer_matches(
                            bookshelf.route@,
                            l,
                            #[trigger] layers_view(t.layer@)[l],
                        )
                },
                Err(e) => {
                    &&& !layers_ok(bookshelf.route@)
                    &&& (e == BookshelfError::LayerCount || e == BookshelfError::BidirectionalLayer
                        || e == BookshelfError::Overflow)
                },
            },
    {
        let layers = RoutingLayer::build_routing_layers(bookshelf)?;
        Ok(TechLef { layer: layers })
    }

    /// The whole technology LEF text.
    pub fn write(&self) -> (r: String)
        ensures
            r@ == techlef_text(layers_view(self.layer@)),
    {
        proof {
            reveal_strlit(
                "VERSION 5.8 ;\nBUSBITCHARS \"[]\" ;\nDIVIDERCHAR \"/\" ;\nUNITS\n  DATABASE MICRONS 1000 ;\nEND UNITS\nMANUFACTURINGGRID 0.005 ;",
            );
            reveal_strlit("\nEND LIBRARY");
            reveal_strlit("CUT");
        }
        let mut out = String::new();
        out.append(
            "VERSION 5.8 ;\nBUSBITCHARS \"[]\" ;\nDIVIDERCHAR \"/\" ;\nUNITS\n  DATABASE MICRONS 1000 ;\nEND UNITS\nMANUFACTURINGGRID 0.005 ;",
        );
        let overlap = OverlapLayer::format_a_default_one();
        out.append(overlap.as_str());
        let n = self.layer.len();
        let mut i: usize = 0;
        proof {
            assert(out@ =~= techlef_header_text() + layers_cuts_text(
                layers_view(self.layer@),
                0,
            ));
        }
        while i < n
            invariant
                n == layers_view(self.layer@).len(),
                i <= n,
                out@ == techlef_header_text() + layers_cuts_text(
                    layers_view(self.layer@),
                    i as int,
                ),
            decreases n - i,
        {
            proof {
                reveal_strlit("CUT");
                assert(layers_view(self.layer@)[i as int] == self.layer@[i as int]@);
            }
            let piece = self.layer[i].format();
            out.append(piece.as_str());
            if i != n - 1 {
                // the cut layer between this layer and the next
                let mut nm = String::new();
                nm.append("CUT");
                push_dec_u64((i + 1) as u64, &mut nm);
                let cut = CutLayer::format_a_default_one(nm);
                out.append(cut.as_str());
            }
            proof {
                assert(out@ =~= techlef_header_text() + layers_cuts_text(
                    layers_view(self.layer@),
                    i + 1,
                ));
            }
            i = i + 1;
        }
        let mut v: usize = 1;
        proof {
            assert(out@ =~= techlef_header_text() + layers_cuts_text(
                layers_view(self.layer@),
                n as int,
            ) + vias_text(1));
        }
        while v < n
            invariant
                n == layers_view(self.layer@).len(),
                1 <= v <= n || (n == 0 && v == 1),
                out@ == techlef_header_text() + layers_cuts_text(
                    layers_view(self.layer@),
                    n as int,
                ) + vias_text(v as int),
            decreases n - v,
        {
            let piece = via_piece(v);
            out.append(piece.as_str());
            v = v + 1;
        }
        out.append("\nEND LIBRARY");
        proof {
            if n == 0 {
                assert(vias_text(1) =~= vias_text(if n as int > 1 {
                    n as int
                } else {
                    1
                }));
            }
            assert(out@ =~= techlef_text(layers_view(self.layer@)));
        }
        out
    }
}

/// The fixed technology header, with the overlap layer.
pub open spec fn techlef_header_text() -> Seq<char> {
    "VERSION 5.8 ;\nBUSBITCHARS \"[]\" ;\nDIVIDERCHAR \"/\" ;\nUNITS\n  DATABASE MICRONS 1000 ;\nEND UNITS\nMANUFACTURINGGRID 0.005 ;"@
        + overlap_layer_text()
}

/// The name of the cut layer above routing layer `i`.
pub open spec fn cut_name_of(i: int) -> Seq<char> {
    "CUT"@ + crate::numfmt::dec_int(i)
}

/// The routing layers up to `upto`, each but the last followed by its cut
/// layer.
pub open spec fn layers_cuts_text(ls: Seq<RoutingLayerV>, upto: int) -> Seq<char>
    decreases upto,
{
    if upto <= 0 {
        Seq::empty()
    } else {
        layers_cuts_text(ls, upto - 1) + routing_layer_text(ls[upto - 1]) + if upto - 1
            != ls.len() - 1 {
            cut_layer_text(cut_name_of(upto))
        } else {
            Seq::<char>::empty()
        }
    }
}

/// The text of the default via between layers `id` and `id + 1`.
pub open spec fn via_text(id: int) -> Seq<char> {
    "\nVIA V"@ + crate::numfmt::dec_int(id) + " DEFAULT\n    LAYER metal"@
        + crate::numfmt::dec_int(id) + " ;\n        RECT -0.500 -0.500 0.500 0.500 ;\n    LAYER CUT"@
        + crate::numfmt::dec_int(id) + " ;\n        RECT -0.500 -0.500 0.500 0.500 ;\n    LAYER metal"@
        + crate::numfmt::dec_int(id + 1) + " ;\n        RECT -0.500 -0.500 0.500 0.500 ;\nEND V"@
        + crate::numfmt::dec_int(id)
}

/// The vias for ids `1 .. upto`.
pub open spec fn vias_text(upto: int) -> Seq<char>
    decreases upto,
{
    if upto <= 1 {
        Seq::empty()
    } else {
        vias_text(upto - 1) + via_text(upto - 1)
    }
}

/// The whole technology LEF text.
pub open spec fn techlef_text(ls: Seq<RoutingLayerV>) -> Seq<char> {
    techlef_header_text() + layers_cuts_text(ls, ls.len() as int) + vias_text(
        if ls.len() as int > 1 {
            ls.len() as int
        } else {
            1
        },
    ) + "\nEND LIBRARY"@
}

/// The text of one default via.
fn via_piece(id: usize) -> (r: String)
    requires
        id >= 1,
        id < usize::MAX,
    ensures
        r@ == via_text(id as int),
{
    proof {
        reveal_strlit("\nVIA V");
        reveal_strlit(" DEFAULT\n    LAYER metal");
        reveal_strlit(" ;\n        RECT -0.500 -0.500 0.500 0.500 ;\n    LAYER CUT");
        reveal_strlit(" ;\n        RECT -0.500 -0.500 0.500 0.500 ;\n    LAYER metal");
        reveal_strlit(" ;\n        RECT -0.500 -0.500 0.500 0.500 ;\nEND V");
    }
    let mut out = String::new();
    out.append("\nVIA V");
    push_dec_u64(id as u64, &mut out);
    out.append(" DEFAULT\n    LAYER metal");
    push_dec_u64(id as u64, &mut out);
    out.append(" ;\n        RECT -0.500 -0.500 0.500 0.500 ;\n    LAYER CUT");
    push_dec_u64(id as u64, &mut out);
    out.append(" ;\n        RECT -0.500 -0.500 0.500 0.500 ;\n    LAYER metal");
    push_dec_u64((id + 1) as u64, &mut out);
    out.append(" ;\n        RECT -0.500 -0.500 0.500 0.500 ;\nEND V");
    push_dec_u64(id as u64, &mut out);
    proof {
        assert(out@ =~= via_text(id as int));
    }
    out
}

} // verus!
