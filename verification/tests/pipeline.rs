//! Whole-pipeline scenarios: the cross-file reconciliation and the emitted
//! design, and the inputs the validator must refuse.

use bookshelf2lefdef::aux::Aux;
use bookshelf2lefdef::error::BookshelfError;
use bookshelf2lefdef::lefdef::def::Def;
use bookshelf2lefdef::lefdef::lef::Lef;
use bookshelf2lefdef::lefdef::pin::{DefPins, PinValidator};
use bookshelf2lefdef::parser::Bookshelf;

fn shelf(nodes: &str, nets: &str, pl: &str, scl: &str, route: &str) -> Bookshelf {
    let aux = Aux::build(b": d.nodes d.nets d.pl d.scl d.route".to_vec()).unwrap();
    Bookshelf::build_from_aux(
        aux,
        Some(nodes.as_bytes().to_vec()),
        Some(nets.as_bytes().to_vec()),
        Some(pl.as_bytes().to_vec()),
        Some(scl.as_bytes().to_vec()),
        Some(route.as_bytes().to_vec()),
        None,
    )
    .unwrap()
}

const NODES: &str = "cellA 10 20\npadA 1 1 terminal_NI\n";
const PL: &str = "cellA 5 6 : N\npadA 100 200 : N /FIXED_NI\n";
const SCL: &str = "CoreRow Horizontal\nCoordinate : 0\nHeight : 10\nSitewidth : 1\n\
    SubrowOrigin : 0\nNumSites : 100\nEnd\n";
const ROUTE: &str = "Grid : 8 9 2\nVerticalCapacity : 0 10\nHorizontalCapacity : 20 0\n\
    MinWireWidth : 1 1\nMinWireSpacing : 2 2\nViaSpacing : 0 0\n\
    GridOrigin : 0 0\nTileSize : 30 40\nBlockagePorosity : 0\n\
    NumNiTerminals : 1\npadA 2\n";
const NETS: &str = "NetDegree : 2 n1\npadA I : 0 0\ncellA O : 0 0\n";

#[test]
fn conversion_scenario_produces_the_expected_pin_and_macro() {
    // a movable cell and a terminal; the terminal sits on layer 2, is
    // placed fixed not-in-image at (100, 200), and is the input of net n1
    let b = shelf(NODES, NETS, PL, SCL, ROUTE);
    let pins = DefPins::build(&b).unwrap();
    assert_eq!(pins.0.len(), 1);
    let pin = pins.get("padA").unwrap();
    assert_eq!(pin.layer, "metal2");
    assert_eq!(pin.direction.as_deref(), Some("INPUT"));
    assert_eq!(pin.net.as_deref(), Some("n1"));
    assert_eq!((pin.place.x, pin.place.y), (100, 200));
    assert!(pins.is_defpin("padA"));
    assert!(!pins.is_defpin("cellA"));

    let lef = Lef::build(&b).unwrap();
    let lef_text = lef.write();
    // the movable cell became a macro with one pin from its endpoint
    assert!(lef_text.contains("\nMACRO cellA"));
    assert!(lef_text.contains("\n  PIN O_0_0"));

    let def = Def::build(&b, &lef).unwrap();
    let def_text = def.write();
    // the terminal became one top-level pin on its layer, placed scaled
    assert!(def_text.contains("\nPINS 1"));
    assert!(def_text.contains("\n- padA"));
    assert!(def_text.contains("+ NET n1"));
    assert!(def_text.contains("+ DIRECTION INPUT"));
    assert!(def_text.contains("+ LAYER metal2 ( 0 0 ) ( 1000 1000 )"));
    assert!(def_text.contains("+ FIXED ( 100000 200000 ) N ;"));
    assert!(def_text.contains("( PIN padA )"));
    assert!(def_text.contains("( cellA O_0 )"));
    assert!(def_text.starts_with("VERSION 5.8 ;"));
    assert!(def_text.contains("\nEND DESIGN"));
}

#[test]
fn doubly_referenced_terminal_aborts_the_run() {
    // the same terminal is an endpoint of two distinct nets: a top-level
    // pin has exactly one port, so the validator must refuse the input
    let nets = "NetDegree : 2 n1\npadA I : 0 0\ncellA O : 0 0\n\
                NetDegree : 2 n2\npadA I : 0 0\ncellA I : 0 0\n";
    let b = shelf(NODES, nets, PL, SCL, ROUTE);
    assert_eq!(
        PinValidator::build(&b).err(),
        Some(BookshelfError::PinCardinality),
    );
    assert_eq!(DefPins::build(&b).err(), Some(BookshelfError::PinCardinality));
}

#[test]
fn twice_in_one_net_is_also_too_often() {
    let nets = "NetDegree : 2 n1\npadA I : 0 0\npadA I : 1 1\n";
    let b = shelf(NODES, nets, PL, SCL, ROUTE);
    assert_eq!(DefPins::build(&b).err(), Some(BookshelfError::PinCardinality));
}

#[test]
fn the_three_terminal_views_must_agree() {
    // the routing grid knows padA, but the placement does not mark it
    let pl = "cellA 5 6 : N\npadA 100 200 : N\n";
    let b = shelf(NODES, NETS, pl, SCL, ROUTE);
    assert_eq!(DefPins::build(&b).err(), Some(BookshelfError::PinSetMismatch));

    // the placement marks a terminal the routing grid does not know
    let pl2 = "cellA 5 6 : N /FIXED_NI\npadA 100 200 : N /FIXED_NI\n";
    let b2 = shelf(NODES, NETS, pl2, SCL, ROUTE);
    assert_eq!(DefPins::build(&b2).err(), Some(BookshelfError::PinSetMismatch));

    // the nodes file does not mark the terminal
    let nodes = "cellA 10 20\npadA 1 1\n";
    let b3 = shelf(nodes, NETS, PL, SCL, ROUTE);
    assert_eq!(DefPins::build(&b3).err(), Some(BookshelfError::PinSetMismatch));
}

#[test]
fn validator_accepts_the_consistent_model() {
    let b = shelf(NODES, NETS, PL, SCL, ROUTE);
    let v = PinValidator::build(&b).unwrap();
    assert!(v.is_valid().is_ok());
    assert_eq!(v.pin_in_route.len(), 1);
    assert_eq!(v.pin_in_pl.len(), 1);
    assert_eq!(v.pin_in_net.len(), 1);
    assert_eq!(v.pin_in_net[0].1, 1);
}

#[test]
fn terminal_endpoint_direction_must_be_readable() {
    let nets = "NetDegree : 1 n1\npadA Z : 0 0\n";
    let b = shelf(NODES, nets, PL, SCL, ROUTE);
    assert_eq!(DefPins::build(&b).err(), Some(BookshelfError::BadPinDirection));
}

#[test]
fn unreferenced_terminal_keeps_no_net() {
    let nets = "NetDegree : 1 n1\ncellA O : 0 0\n";
    let b = shelf(NODES, nets, PL, SCL, ROUTE);
    let pins = DefPins::build(&b).unwrap();
    let pin = pins.get("padA").unwrap();
    assert!(pin.net.is_none());
    assert!(pin.direction.is_none());
    let text = pins.write();
    assert!(text.contains("\n - padA"));
    assert!(text.contains("\n + USE SIGNAL"));
}

#[test]
fn empty_rows_abort_the_library_build() {
    let b = shelf(NODES, NETS, PL, "", ROUTE);
    assert_eq!(Lef::build(&b).err(), Some(BookshelfError::NoRows));
}

#[test]
fn oversized_geometry_is_an_overflow() {
    let route = "Grid : 8 9 1\nVerticalCapacity : 0\nHorizontalCapacity : 20\n\
        MinWireWidth : 9223372036854775807\nMinWireSpacing : 1\nViaSpacing : 0\n\
        GridOrigin : 0 0\nTileSize : 30 40\nBlockagePorosity : 0\n\
        NumNiTerminals : 1\npadA 1\n";
    let b = shelf(NODES, NETS, PL, SCL, route);
    assert_eq!(
        bookshelf2lefdef::lefdef::tracks::Tracks::build(&b).err(),
        Some(BookshelfError::Overflow),
    );
}

#[test]
fn error_descriptions_name_the_invariant() {
    assert!(BookshelfError::PinCardinality.describe().contains("one net"));
    assert!(BookshelfError::Encoding.describe().len() > 0);
    assert_ne!(
        BookshelfError::Grammar.describe(),
        BookshelfError::TruncatedInput.describe(),
    );
}
