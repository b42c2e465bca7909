//! The LEF library: one site definition whose height is the first row's,
//! then the synthesized macros.

use vstd::prelude::*;
use vstd::string::StringExecFns;
use crate::error::BookshelfError;
use crate::lefdef::writer::{
    Macros, MacroV, macros_view, macros_ok, mac_pins, macro_emit_in_range, macros_text,
    check_macro_range,
};
use crate::numfmt::{dec_int, push_dec_i64};
use crate::parser::Bookshelf;

verus! {

/// The LEF library: the macros and the standard-cell site height.
pub struct Lef {
    pub macros: Macros,
    pub site_height: i64,
}

impl Lef {
    /// Builds the library: the site height from the first placement row,
    /// the macros from the nodes and nets. A macro whose pin geometry does
    /// not fit the machine integers cannot be emitted.
    pub fn build(bookshelf: &Bookshelf) -> (r: Result<Lef, BookshelfError>)
        requires
            bookshelf.nodes.wf(),
        ensures
            match r {
                Ok(l) => {
                    &&& bookshelf.scl@.len() > 0
                    &&& l.site_height == bookshelf.scl@[0].height
                    &&& macros_ok(bookshelf.nodes@, bookshelf.nets@)
                    &&& macros_view(l.macros.macros@).len() == bookshelf.nodes@.len()
                    &&& forall|k: int|
                        0 <= k < bookshelf.nodes@.len() ==> {
                            &&& (#[trigger] macros_view(l.macros.macros@)[k]).name
                                == bookshelf.nodes@[k].name
                            &&& macros_view(l.macros.macros@)[k].size == bookshelf.nodes@[k].size
                            &&& macros_view(l.macros.macros@)[k].pins == mac_pins(
                                bookshelf.nets@,
                                bookshelf.nodes@[k].name,
                            )
                            &&& macro_emit_in_range(macros_view(l.macros.macros@)[k])
                        }
                    &&& l.macros.net_to_nodes@.len() == bookshelf.nets@.len()
                    &&& forall|i: int|
                        0 <= i < bookshelf.nets@.len() ==> (
                        #[trigger] l.macros.net_to_nodes@[i]).0@ == bookshelf.nets@[i].name
                            && crate::lefdef::net::net_nodes_view(l.macros.net_to_nodes@[i].1@)
                            == crate::lefdef::writer::net_nodes_of(
                            bookshelf.nodes@,
                            bookshelf.nets@,
                            i,
                            bookshelf.nets@[i].pin.len() as int,
                        )
                },
                Err(e) => {
                    &&& (e == BookshelfError::NoRows || e == BookshelfError::Overflow || e
                        == BookshelfError::UnknownInstance || e == BookshelfError::BadPinDirection)
                    &&& (e == BookshelfError::NoRows <==> bookshelf.scl@.len() == 0)
                    &&& (e == BookshelfError::UnknownInstance || e
                        == BookshelfError::BadPinDirection ==> !macros_ok(
                        bookshelf.nodes@,
                        bookshelf.nets@,
                    ))
                    &&& (e == BookshelfError::Overflow ==> exists|k: int|
                        0 <= k < bookshelf.nodes@.len() && !macro_emit_in_range(
                            (MacroV {
                                name: (#[trigger] bookshelf.nodes@[k]).name,
                                size: bookshelf.nodes@[k].size,
                                pins: mac_pins(bookshelf.nets@, bookshelf.nodes@[k].name),
                            }),
                        ))
                },
            },
    {
        if bookshelf.scl.rows.len() == 0 {
            return Err(BookshelfError::NoRows);
        }
        let site_height = bookshelf.scl.rows[0].height;
        let macros = Macros::build_macro(bookshelf)?;
        let n = macros.macros.len();
        let mut k: usize = 0;
        while k < n
            invariant
                n == macros_view(macros.macros@).len(),
                n == bookshelf.nodes@.len(),
                bookshelf.scl@.len() > 0,
                macros_ok(bookshelf.nodes@, bookshelf.nets@),
                k <= n,
                forall|q: int|
                    0 <= q < n ==> {
                        &&& (#[trigger] macros_view(macros.macros@)[q]).name
                            == bookshelf.nodes@[q].name
                        &&& macros_view(macros.macros@)[q].size == bookshelf.nodes@[q].size
                        &&& macros_view(macros.macros@)[q].pins == mac_pins(
                            bookshelf.nets@,
                            bookshelf.nodes@[q].name,
                        )
                    },
                forall|q: int|
                    0 <= q < k ==> macro_emit_in_range(#[trigger] macros_view(macros.macros@)[q]),
            decreases n - k,
        {
            proof {
                assert(macros_view(macros.macros@)[k as int] == macros.macros@[k as int]@);
            }
            if !check_macro_range(&macros.macros[k]) {
                proof {
                    assert(macros_view(macros.macros@)[k as int] == (MacroV {
                        name: bookshelf.nodes@[k as int].name,
                        size: bookshelf.nodes@[k as int].size,
                        pins: mac_pins(bookshelf.nets@, bookshelf.nodes@[k as int].name),
                    }));
                }
                return Err(BookshelfError::Overflow);
            }
            k = k + 1;
        }
        Ok(Lef { macros, site_height })
    }

    /// The whole LEF library text: header, the site, then every macro.
    pub fn write(&self) -> (r: String)
        requires
            forall|k: int|
                0 <= k < macros_view(self.macros.macros@).len() ==> macro_emit_in_range(
                    #[trigger] macros_view(self.macros.macros@)[k],
                ),
        ensures
            r@ == lef_text(self.site_height as int, macros_view(self.macros.macros@)),
    {
        proof {
            reveal_strlit(
                "VERSION 5.8 ;\nBUSBITCHARS \"[]\" ;\nDIVIDERCHAR \"/\" ;\n\nSITE CoreSite \n    CLASS CORE ;\n    SYMMETRY Y ;\n    SIZE 1.000 BY ",
            );
            reveal_strlit(".000 ;\nEND CoreSite\n");
        }
        let mut out = String::new();
        out.append(
            "VERSION 5.8 ;\nBUSBITCHARS \"[]\" ;\nDIVIDERCHAR \"/\" ;\n\nSITE CoreSite \n    CLASS CORE ;\n    SYMMETRY Y ;\n    SIZE 1.000 BY ",
        );
        push_dec_i64(self.site_height, &mut out);
        out.append(".000 ;\nEND CoreSite\n");
        let body = self.macros.write_all();
        out.append(body.as_str());
        proof {
            assert(out@ =~= lef_text(self.site_height as int, macros_view(self.macros.macros@)));
        }
        out
    }
}

/// The whole LEF library text.
pub open spec fn lef_text(site_height: int, ms: Seq<crate::lefdef::writer::MacroV>) -> Seq<char> {
    "VERSION 5.8 ;\nBUSBITCHARS \"[]\" ;\nDIVIDERCHAR \"/\" ;\n\nSITE CoreSite \n    CLASS CORE ;\n    SYMMETRY Y ;\n    SIZE 1.000 BY "@
        + dec_int(site_height) + ".000 ;\nEND CoreSite\n"@ + macros_text(ms)
}

} // verus!
