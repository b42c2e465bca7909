//! The DEF design: die area, rows, tracks, components, top-level pins and
//! nets assembled from the validated model, and the whole design text.

use vstd::prelude::*;
use vstd::string::StringExecFns;
use crate::error::BookshelfError;
use crate::geom::in_i64;
use crate::lefdef::components::{Components, components_section_text};
use crate::lefdef::die_area::{DieArea, die_area_text};
use crate::lefdef::lef::Lef;
use crate::lefdef::net::{Nets, nets_section_text};
use crate::lefdef::pin::{DefPins, def_pins_emit_in_range, def_pins_section_text, def_pins_ok,
    def_pin_matches, pins_scaled_ok, lemma_pins_scaled_transfer};
use crate::lefdef::row::{Rows, rows_view, rows_text, rows_scaled_in_range};
use crate::lefdef::tracks::{Tracks, tracks_text, track_matches, tracks_in_range, Direction};
use crate::lefdef::die_area::{die_in_range, core_area, core_in_range};
use crate::lefdef::components::components_ok;
use crate::parser::Bookshelf;
use crate::route::route_terms_wf;

verus! {

/// The assembled DEF design.
pub struct Def {
    pub rows: Rows,
    pub pins: DefPins,
    pub nets: Nets,
    pub components: Components,
    pub tracks: Tracks,
    pub die_area: DieArea,
}

/// Everything assembling and emitting a design demands of the model: the
/// derived geometry and its database-micron scalings fit the machine
/// integers, the pin views agree, and every component is placed.
pub open spec fn def_buildable(b: &Bookshelf) -> bool {
    &&& die_in_range(b.route@)
    &&& core_in_range(b.scl@)
    &&& tracks_in_range(b.route@)
    &&& def_pins_ok(b.route@.ni_terminal_to_layer, b.pls@, b.nodes@, b.nets@)
    &&& components_ok(b.nodes@, b.pls@)
    &&& rows_scaled_in_range(b.scl@)
    &&& pins_scaled_ok(b.route@.ni_terminal_to_layer, b.pls@, b.nodes@)
}

impl Def {
    /// Everything the emitters demand of an assembled design.
    pub open spec fn wf(&self) -> bool {
        &&& self.rows.emit_in_range()
        &&& def_pins_emit_in_range(self.pins@)
        &&& in_i64(self.die_area.die_area@.ll.x * 1000)
        &&& in_i64(self.die_area.die_area@.ll.y * 1000)
        &&& in_i64(self.die_area.die_area@.ur.x * 1000)
        &&& in_i64(self.die_area.die_area@.ur.y * 1000)
    }

    /// Assembles the design: die area, rows, tracks, validated pins, nets
    /// and components, each derived from the model as its section demands.
    pub fn build(bookshelf: &Bookshelf, lef: &Lef) -> (r: Result<Def, BookshelfError>)
        requires
            bookshelf.pls.wf(),
            bookshelf.nodes.wf(),
            route_terms_wf(bookshelf.route@),
        ensures
            match r {
                Ok(d) => {
                    &&& def_buildable(bookshelf)
                    &&& d.wf()
                    &&& d.die_area.die_area@.ll == crate::lefdef::die_area::die_ll(
                        bookshelf.route@,
                    )
                    &&& d.die_area.die_area@.ur.x == crate::lefdef::die_area::die_ur_x(
                        bookshelf.route@,
                    )
                    &&& d.die_area.die_area@.ur.y == crate::lefdef::die_area::die_ur_y(
                        bookshelf.route@,
                    )
                    &&& rows_view(d.rows.rows@) == bookshelf.scl@
                    &&& d.tracks@.len() == 2 * bookshelf.route@.min_wire_width.len()
                    &&& forall|l: int|
                        0 <= l < bookshelf.route@.min_wire_width.len() ==> track_matches(
                            bookshelf.route@,
                            l,
                            Direction::X,
                            #[trigger] d.tracks@[2 * l],
                        ) && track_matches(
                            bookshelf.route@,
                            l,
                            Direction::Y,
                            d.tracks@[2 * l + 1],
                        )
                    &&& def_pins_ok(
                        bookshelf.route@.ni_terminal_to_layer,
                        bookshelf.pls@,
                        bookshelf.nodes@,
                        bookshelf.nets@,
                    )
                    &&& d.pins@.len() == bookshelf.route@.ni_terminal_to_layer.len()
                    &&& forall|i: int|
                        0 <= i < d.pins@.len() ==> def_pin_matches(
                            bookshelf.route@.ni_terminal_to_layer,
                            bookshelf.pls@,
                            bookshelf.nodes@,
                            bookshelf.nets@,
                            i,
                            #[trigger] d.pins@[i],
                        )
                    &&& d.nets@.len() == lef.macros.net_to_nodes@.len()
                    &&& d.components.num == crate::lefdef::components::components_count(
                        bookshelf.nodes@,
                        bookshelf.nodes@.len() as int,
                    )
                },
                Err(_) => !def_buildable(bookshelf),
            },
    {
        proof {
            reveal_strlit("CoreSite");
        }
        let die_area = DieArea::build(bookshelf)?;
        let mut site = String::new();
        site.append("CoreSite");
        let rows = Rows::build(bookshelf, site);
        let tracks = Tracks::build(bookshelf)?;
        let pins = DefPins::build(bookshelf)?;
        let nets = Nets::build_net(&lef.macros);
        let components = Components::build(bookshelf)?;
        if !rows.check_emit_range() {
            proof {
                assert(rows_view(rows.rows@) == bookshelf.scl@);
                assert(!rows_scaled_in_range(bookshelf.scl@));
            }
            return Err(BookshelfError::Overflow);
        }
        proof {
            lemma_pins_scaled_transfer(
                bookshelf.route@.ni_terminal_to_layer,
                bookshelf.pls@,
                bookshelf.nodes@,
                bookshelf.nets@,
                pins@,
            );
        }
        if !pins.check_emit_range() {
            return Err(BookshelfError::Overflow);
        }
        Ok(Def { rows, pins, nets, components, tracks, die_area })
    }

    /// The whole DEF design text: header, then every section in order.
    pub fn write(&self) -> (r: String)
        requires
            self.wf(),
        ensures
            r@ == def_text(self),
    {
        proof {
            reveal_strlit(
                "VERSION 5.8 ;\nDIVIDERCHAR \"/\" ;\nBUSBITCHARS \"[]\" ;\nDESIGN auto_generated ;\nUNITS DISTANCE MICRONS 1000 ;",
            );
            reveal_strlit("\n            \nEND DESIGN\n            ");
        }
        let mut out = String::new();
        out.append(
            "VERSION 5.8 ;\nDIVIDERCHAR \"/\" ;\nBUSBITCHARS \"[]\" ;\nDESIGN auto_generated ;\nUNITS DISTANCE MICRONS 1000 ;",
        );
        let s1 = self.die_area.write();
        out.append(s1.as_str());
        let s2 = self.rows.write();
        out.append(s2.as_str());
        let s3 = self.tracks.write();
        out.append(s3.as_str());
        let s4 = self.components.write();
        out.append(s4.as_str());
        let s5 = self.pins.write();
        out.append(s5.as_str());
        let s6 = self.nets.write();
        out.append(s6.as_str());
        out.append("\n            \nEND DESIGN\n            ");
        proof {
            assert(out@ =~= def_text(self));
        }
        out
    }
}

/// The whole DEF design text.
pub open spec fn def_text(d: &Def) -> Seq<char> {
    "VERSION 5.8 ;\nDIVIDERCHAR \"/\" ;\nBUSBITCHARS \"[]\" ;\nDESIGN auto_generated ;\nUNITS DISTANCE MICRONS 1000 ;"@
        + die_area_text(d.die_area.die_area@) + rows_text(
        rows_view(d.rows.rows@),
        d.rows.site_name@,
        rows_view(d.rows.rows@).len() as int,
    ) + tracks_text(d.tracks@) + components_section_text(
        d.components.num as int,
        d.components.to_print@,
    ) + def_pins_section_text(d.pins@) + nets_section_text(d.nets@)
        + "\n            \nEND DESIGN\n            "@
}

} // verus!
