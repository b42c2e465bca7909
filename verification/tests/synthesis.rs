//! The derived geometry and synthesized records: die and core area,
//! tracks, rows, components, macros and technology layers.

use bookshelf2lefdef::error::BookshelfError;
use bookshelf2lefdef::lefdef::components::Components;
use bookshelf2lefdef::lefdef::die_area::{core_area, DieArea};
use bookshelf2lefdef::lefdef::lef::Lef;
use bookshelf2lefdef::lefdef::row::Rows;
use bookshelf2lefdef::lefdef::techlef::TechLef;
use bookshelf2lefdef::lefdef::tracks::{Direction, Tracks};
use bookshelf2lefdef::lefdef::writer::Macros;
use bookshelf2lefdef::aux::Aux;
use bookshelf2lefdef::parser::Bookshelf;

fn model(
    nodes: &str,
    nets: &str,
    pl: &str,
    scl: &str,
    route: &str,
) -> Bookshelf {
    let aux = Aux::build(b": m.nodes m.nets m.pl m.scl m.route".to_vec()).unwrap();
    Bookshelf::build_from_aux(
        aux,
        Some(nodes.as_bytes().to_vec()),
        Some(nets.as_bytes().to_vec()),
        Some(pl.as_bytes().to_vec()),
        Some(scl.as_bytes().to_vec()),
        Some(route.as_bytes().to_vec()),
        None,
    )
    .unwrap()
}

const NODES: &str = "cellA 10 20\npadA 1 1 terminal_NI\n";
const NETS: &str = "NetDegree : 2 n1\npadA I : 0 0\ncellA O : 1 1\n";
const PL: &str = "cellA 5 6 : N\npadA 100 200 : N /FIXED_NI\n";
const SCL: &str = "CoreRow Horizontal\nCoordinate : 2\nHeight : 10\nSitewidth : 1\n\
    SubrowOrigin : 3\nNumSites : 50\nEnd\n\
    CoreRow Horizontal\nCoordinate : 12\nHeight : 10\nSitewidth : 1\n\
    SubrowOrigin : 1\nNumSites : 60\nEnd\n\
    CoreRow Horizontal\nCoordinate : 22\nHeight : 10\nSitewidth : 1\n\
    SubrowOrigin : 3\nNumSites : 50\nEnd\n";
const ROUTE: &str = "Grid : 8 9 2\nVerticalCapacity : 0 10\nHorizontalCapacity : 20 0\n\
    MinWireWidth : 1 1\nMinWireSpacing : 2 2\nViaSpacing : 0 0\n\
    GridOrigin : 1 2\nTileSize : 30 40\nBlockagePorosity : 0\n\
    NumNiTerminals : 1\npadA 2\n";

#[test]
fn die_area_is_origin_plus_tiles() {
    let b = model(NODES, NETS, PL, SCL, ROUTE);
    let die = DieArea::build(&b).unwrap();
    assert_eq!((die.die_area.ll.x, die.die_area.ll.y), (1, 2));
    assert_eq!((die.die_area.ur.x, die.die_area.ur.y), (1 + 30 * 8, 2 + 40 * 9));
    let text = die.write();
    assert_eq!(text, "\nDIEAREA ( 1000 2000 ) ( 241000 362000 ) ;");
}

#[test]
fn core_area_is_the_tightest_row_box() {
    let b = model(NODES, NETS, PL, SCL, ROUTE);
    let core = core_area(&b.scl).unwrap();
    assert_eq!((core.ll.x, core.ll.y), (1, 2));
    assert_eq!((core.ur.x, core.ur.y), (1 + 60, 22 + 10));
    let empty = Bookshelf::build_from_aux(
        Aux::build(b": x".to_vec()).unwrap(),
        None,
        None,
        None,
        None,
        None,
        None,
    )
    .unwrap();
    assert_eq!(core_area(&empty.scl), Err(BookshelfError::NoRows));
}

#[test]
fn track_counts_follow_the_floor_formula() {
    let b = model(NODES, NETS, PL, SCL, ROUTE);
    let tracks = Tracks::build(&b).unwrap();
    // two layers, an X and a Y set each
    assert_eq!(tracks.tracks.len(), 4);
    let t = &tracks.tracks[0];
    assert!(matches!(t.direction, Direction::X));
    // pitch = (width + spacing) * 1000
    assert_eq!(t.step, 3000);
    // start = ll * 1000 + pitch / 2
    assert_eq!(t.start, 1000 + 1500);
    // count = floor((extent * 1000 - pitch / 2) / pitch)
    let extent = (241 - 1) * 1000;
    assert_eq!(t.num_tracks, (extent - 1500) / 3000);
    assert_eq!(t.layer, "metal1");
    let ty = &tracks.tracks[1];
    assert!(matches!(ty.direction, Direction::Y));
    assert_eq!(ty.start, 2000 + 1500);
    assert_eq!(tracks.tracks[2].layer, "metal2");
    let line = t.write_all();
    assert_eq!(
        line,
        format!("\n TRACKS X {} DO {} STEP 3000 LAYER metal1 ;", t.start, t.num_tracks),
    );
}

#[test]
fn zero_pitch_layers_are_rejected() {
    let route = "Grid : 2 2 1\nVerticalCapacity : 1\nHorizontalCapacity : 0\n\
        MinWireWidth : 0\nMinWireSpacing : 0\nViaSpacing : 0\n\
        GridOrigin : 0 0\nTileSize : 10 10\n";
    let b = model(NODES, NETS, PL, SCL, route);
    assert_eq!(Tracks::build(&b).err(), Some(BookshelfError::ZeroPitch));
}

#[test]
fn short_spacing_lists_are_rejected() {
    // a spacing list declared before the grid is read against a zero layer
    // count and stays empty, shorter than the width list read afterwards
    let route = "MinWireSpacing :\nGrid : 2 2 2\nVerticalCapacity : 0 0\n\
        HorizontalCapacity : 1 1\nMinWireWidth : 1 1\nViaSpacing : 0 0\n\
        GridOrigin : 0 0\nTileSize : 10 10\n";
    let b = model(NODES, NETS, PL, SCL, route);
    assert_eq!(Tracks::build(&b).err(), Some(BookshelfError::LayerCount));
}

#[test]
fn row_orientation_alternates_by_parity() {
    let b = model(NODES, NETS, PL, SCL, ROUTE);
    let rows = Rows::build(&b, String::from("CoreSite"));
    assert_eq!(rows.rows.len(), 3);
    let text = rows.write();
    assert!(text.contains("\n ROW CORE_ROW_0 CoreSite 3000 2000 FS DO 50 BY 1 STEP 1000 0 ;"));
    assert!(text.contains("\n ROW CORE_ROW_1 CoreSite 1000 12000 N DO 60 BY 1 STEP 1000 0 ;"));
    assert!(text.contains("\n ROW CORE_ROW_2 CoreSite 3000 22000 FS DO 50 BY 1 STEP 1000 0 ;"));
}

#[test]
fn components_skip_terminals_and_scale_placements() {
    let b = model(NODES, NETS, PL, SCL, ROUTE);
    let comps = Components::build(&b).unwrap();
    assert_eq!(comps.num, 1);
    let text = comps.write();
    assert!(text.starts_with("\nCOMPONENTS 1 ;"));
    assert!(text.contains("\n- cellA cellA + PLACED ( 5000 6000 ) N ;"));
    assert!(text.ends_with("\nEND COMPONENTS"));
}

#[test]
fn missing_placement_is_fatal_for_components() {
    let b = model(NODES, NETS, "padA 100 200 : N /FIXED_NI\n", SCL, ROUTE);
    assert_eq!(Components::build(&b).err(), Some(BookshelfError::MissingPlacement));
}

#[test]
fn node_size_reappears_unscaled_in_the_macro() {
    let b = model(NODES, NETS, PL, SCL, ROUTE);
    let macros = Macros::build_macro(&b).unwrap();
    assert_eq!(macros.macros.len(), 2);
    let cell = &macros.macros[0];
    assert_eq!(cell.name, "cellA");
    assert_eq!((cell.size.x, cell.size.y), (10, 20));
    let text = cell.format_to_lef();
    // the size is emitted digit for digit, unscaled
    assert!(text.contains("\n  SIZE 10 20 ;"));
    assert!(!text.contains("10000"));
    // one pin synthesized from the cellA endpoint, ordinal zero
    assert!(text.contains("\n  PIN O_0_0"));
    assert!(text.contains("\n      DIRECTION OUTPUT ;"));
    assert!(text.contains("\n END cellA"));
}

#[test]
fn macro_pin_rect_sits_around_the_offset() {
    let b = model(NODES, NETS, PL, SCL, ROUTE);
    let macros = Macros::build_macro(&b).unwrap();
    let cell = &macros.macros[0];
    // offset (1, 1), size (10, 20): centre (5, 10), half-unit square
    let text = cell.format_to_lef();
    assert!(text.contains("RECT 5.5 10.5 6.5 11.5 ;"));
}

#[test]
fn macro_pin_rect_handles_negative_offsets() {
    // offset (-30, 0), size (10, 20): the left edge lands on -25.5
    let nets = "NetDegree : 1 n1\ncellA O : -30 0\n";
    let b = model(NODES, nets, PL, SCL, ROUTE);
    let macros = Macros::build_macro(&b).unwrap();
    let text = macros.macros[0].format_to_lef();
    assert!(text.contains("RECT -25.5 9.5 -24.5 10.5 ;"));
}

#[test]
fn unknown_instances_and_directions_are_fatal() {
    let b = model(NODES, "NetDegree : 1 n1\nghost I : 0 0\n", PL, SCL, ROUTE);
    assert_eq!(
        Macros::build_macro(&b).err(),
        Some(BookshelfError::UnknownInstance),
    );
    let b2 = model(NODES, "NetDegree : 1 n1\ncellA A1 : 0 0\n", PL, SCL, ROUTE);
    assert_eq!(
        Macros::build_macro(&b2).err(),
        Some(BookshelfError::BadPinDirection),
    );
}

#[test]
fn technology_layers_carry_direction_and_pitch() {
    let b = model(NODES, NETS, PL, SCL, ROUTE);
    let tech = TechLef::build(&b).unwrap();
    assert_eq!(tech.layer.len(), 2);
    assert_eq!(tech.layer[0].name, "metal1");
    assert_eq!(tech.layer[0].pitch, 3);
    let text = tech.write();
    assert!(text.contains("\nLAYER metal1\n  TYPE ROUTING ;\n  DIRECTION HORIZONTAL ;"));
    assert!(text.contains("\nLAYER metal2\n  TYPE ROUTING ;\n  DIRECTION VERTICAL ;"));
    assert!(text.contains("\n  OFFSET 1.5 ;"));
    assert!(text.contains("\nLAYER CUT1\n"));
    assert!(text.contains("\nVIA V1 DEFAULT"));
    assert!(text.ends_with("\nEND LIBRARY"));
}

#[test]
fn bidirectional_layers_are_rejected() {
    let route = "Grid : 2 2 1\nVerticalCapacity : 1\nHorizontalCapacity : 1\n\
        MinWireWidth : 1\nMinWireSpacing : 1\nViaSpacing : 0\n\
        GridOrigin : 0 0\nTileSize : 10 10\n";
    let b = model(NODES, NETS, PL, SCL, route);
    assert_eq!(TechLef::build(&b).err(), Some(BookshelfError::BidirectionalLayer));
}

#[test]
fn lef_carries_the_first_row_height() {
    let b = model(NODES, NETS, PL, SCL, ROUTE);
    let lef = Lef::build(&b).unwrap();
    assert_eq!(lef.site_height, 10);
    let text = lef.write();
    assert!(text.starts_with("VERSION 5.8 ;\nBUSBITCHARS \"[]\" ;\nDIVIDERCHAR \"/\" ;"));
    assert!(text.contains("SIZE 1.000 BY 10.000 ;"));
    assert!(text.contains("\nMACRO cellA"));
    assert!(text.contains("\nMACRO padA"));
}

#[test]
fn model_stats_split_nodes_and_count_sizes() {
    let b = model(
        "cellA 10 20\ncellB 10 20\ncellC 4 4\npadA 1 1 terminal_NI\n",
        NETS,
        PL,
        SCL,
        ROUTE,
    );
    let stats = b.parse();
    assert_eq!(stats.num_pins, 1);
    assert_eq!(stats.num_instances, 3);
    assert_eq!(stats.num_distinct_sizes, 3);
}
