//! The per-file readers and the token source, on small concrete inputs.

use bookshelf2lefdef::aux::{Aux, OutPaths};
use bookshelf2lefdef::error::BookshelfError;
use bookshelf2lefdef::nets::Nets;
use bookshelf2lefdef::numfmt::{i64_to_string, metal_string};
use bookshelf2lefdef::nodes::{Movable, Nodes};
use bookshelf2lefdef::pl::{Pls, Type};
use bookshelf2lefdef::reader::TokenReader;
use bookshelf2lefdef::route::Route;
use bookshelf2lefdef::scl::{RowOrientation, Scl, SiteOrient, SiteSymmetry};
use bookshelf2lefdef::shape::Shapes;
use bookshelf2lefdef::util::{parse, parse_coord};

fn bytes(s: &str) -> Vec<u8> {
    s.as_bytes().to_vec()
}

#[test]
fn tokenizer_walks_tokens_and_lines() {
    let mut r = TokenReader::new(bytes("# comment line\nalpha  beta\n gamma")).unwrap();
    assert_eq!(r.peek_token().as_deref(), Some("#"));
    assert_eq!(r.next_token().as_deref(), Some("#"));
    let _ = r.swallow_line();
    assert_eq!(r.next_token().as_deref(), Some("alpha"));
    assert_eq!(r.peek_token().as_deref(), Some("beta"));
    assert_eq!(r.next_token().as_deref(), Some("beta"));
    assert_eq!(r.next_token().as_deref(), Some("gamma"));
    assert_eq!(r.next_token(), None);
}

#[test]
fn tokenizer_expect_reports_mismatch_and_truncation() {
    let mut r = TokenReader::new(bytes("NetDegree")).unwrap();
    assert!(r.expect("NetDegree").is_ok());
    assert_eq!(r.expect(":"), Err(BookshelfError::TruncatedInput));
    let mut r2 = TokenReader::new(bytes("x")).unwrap();
    assert_eq!(r2.expect(":"), Err(BookshelfError::Grammar));
}

#[test]
fn non_ascii_input_is_an_encoding_error() {
    let r = TokenReader::new(vec![b'a', 0xC3, 0xA9]);
    assert!(matches!(r, Err(BookshelfError::Encoding)));
    let r2 = Nodes::read(vec![0xFF]);
    assert!(matches!(r2, Err(BookshelfError::Encoding)));
}

#[test]
fn decimal_rendering_is_exact() {
    assert_eq!(i64_to_string(0), "0");
    assert_eq!(i64_to_string(907), "907");
    assert_eq!(i64_to_string(-42), "-42");
    assert_eq!(i64_to_string(i64::MIN), "-9223372036854775808");
    assert_eq!(i64_to_string(i64::MAX), "9223372036854775807");
    assert_eq!(metal_string(3), "metal3");
}

#[test]
fn integer_tokens_parse_exactly() {
    assert_eq!(parse("0"), Some(0));
    assert_eq!(parse("-17"), Some(-17));
    assert_eq!(parse("+42"), Some(42));
    assert_eq!(parse("9223372036854775807"), Some(i64::MAX));
    assert_eq!(parse("-9223372036854775808"), Some(i64::MIN));
    assert_eq!(parse("9223372036854775808"), None);
    assert_eq!(parse(""), None);
    assert_eq!(parse("12a"), None);
    assert_eq!(parse("-"), None);
}

#[test]
fn coordinate_tokens_must_denote_integers() {
    assert_eq!(parse_coord("10"), Ok(10));
    assert_eq!(parse_coord("10.000"), Ok(10));
    assert_eq!(parse_coord("-3.0"), Ok(-3));
    assert_eq!(parse_coord("10.5"), Err(BookshelfError::NonIntegerGeometry));
    assert_eq!(parse_coord("abc"), Err(BookshelfError::Grammar));
    assert_eq!(parse_coord("1.2.3"), Err(BookshelfError::Grammar));
}

#[test]
fn nodes_reader_reads_sizes_and_kinds() {
    let src = "UCLA nodes 1.0\n# comment\nNumNodes : 3\nNumTerminals : 2\n\
               cellA 10 20\npadA 1 1 terminal_NI\nblockB 4 4 terminal\n";
    let nodes = Nodes::read(bytes(src)).unwrap();
    assert_eq!(nodes.len(), 3);
    let a = nodes.get("cellA").unwrap();
    assert_eq!((a.size.x, a.size.y), (10, 20));
    assert!(matches!(a.moveable, Movable::Movable));
    let p = nodes.get("padA").unwrap();
    assert!(matches!(p.moveable, Movable::FixedButOverlapAllowed));
    let b = nodes.get("blockB").unwrap();
    assert!(matches!(b.moveable, Movable::Fixed));
    assert!(nodes.get("missing").is_none());
    assert!(nodes.is_terminal_ni("padA"));
    assert!(!nodes.is_terminal_ni("cellA"));
}

#[test]
fn nodes_reader_rejects_fractional_sizes() {
    assert_eq!(
        Nodes::read(bytes("cellA 10.5 20\n")).err(),
        Some(BookshelfError::NonIntegerGeometry),
    );
    assert_eq!(
        Nodes::read(bytes("cellA 10")).err(),
        Some(BookshelfError::TruncatedInput),
    );
}

#[test]
fn placement_reader_reads_kinds_and_locations() {
    let src = "UCLA pl 1.0\n# generated\ncellA 5 6 : N\npadA 100 200 : FS /FIXED_NI\nblockB 7 8 : N /FIXED\n";
    let pls = Pls::read_from_file(bytes(src)).unwrap();
    assert_eq!(pls.len(), 3);
    let a = pls.get("cellA").unwrap();
    assert_eq!((a.place.x, a.place.y), (5, 6));
    assert!(matches!(a.kind, Type::Movable));
    assert_eq!(a.orientation, "N");
    let p = pls.get("padA").unwrap();
    assert!(matches!(p.kind, Type::FixedNotInImage));
    assert_eq!((p.place.x, p.place.y), (100, 200));
    let b = pls.get("blockB").unwrap();
    assert!(matches!(b.kind, Type::Fixed));
}

#[test]
fn nets_reader_reads_degrees_and_offsets() {
    let src = "UCLA nets 1.0\nNumNets : 2\nNumPins : 3\n\
               NetDegree : 2 n1\npadA I : 0 0\ncellA O : -1 2\n\
               NetDegree : 1 n2\ncellA I : 3 4\n";
    let nets = Nets::read_from_file(bytes(src)).unwrap();
    assert_eq!(nets.len(), 2);
    let ns = nets.iter();
    assert_eq!(ns[0].name, "n1");
    assert_eq!(ns[0].pin.len(), 2);
    assert_eq!(ns[0].pin[0].instance_name, "padA");
    assert_eq!(ns[0].pin[0].pin_name, "I");
    assert_eq!((ns[0].pin[1].offset.x, ns[0].pin[1].offset.y), (-1, 2));
    assert_eq!(ns[1].name, "n2");
    assert_eq!(ns[1].pin.len(), 1);
}

#[test]
fn rows_reader_reads_every_setting() {
    let src = "UCLA scl 1.0\nNumRows : 1\n\
               CoreRow Horizontal\n  Coordinate : 11\n  Height : 12\n  Sitewidth : 1\n\
               Sitespacing : 1\n  Siteorient : FS\n  Sitesymmetry : X\n\
               SubrowOrigin : 20\n  NumSites : 30\nEnd\n";
    let scl = Scl::read_from_file(bytes(src)).unwrap();
    assert_eq!(scl.len(), 1);
    let row = &scl.iter()[0];
    assert_eq!(row.coordinate, 11);
    assert_eq!(row.height, 12);
    assert_eq!(row.site_width, 1);
    assert_eq!(row.site_spacing, 1);
    assert!(matches!(row.site_orient, SiteOrient::FS));
    assert!(matches!(row.site_symmetry, SiteSymmetry::X));
    assert_eq!(row.subrow_origin, 20);
    assert_eq!(row.num_sites, 30);
    assert!(matches!(row.orientation, RowOrientation::Horizontal));
}

#[test]
fn route_reader_reads_grid_capacities_and_terminals() {
    let src = "route 1.0\n# comment\nGrid : 8 9 2\n\
               VerticalCapacity : 0 10\nHorizontalCapacity : 20 0\n\
               MinWireWidth : 1 1\nMinWireSpacing : 2 2\nViaSpacing : 0 0\n\
               GridOrigin : 1 2\nTileSize : 30 40\nBlockagePorosity : 0\n\
               NumNiTerminals : 2\npadA 2\npadB 1\n\
               NumBlockageNodes : 1\nblockB 2 1 2\n";
    let route = Route::read(bytes(src)).unwrap();
    assert_eq!((route.grid.num_x, route.grid.num_y, route.grid.num_layer), (8, 9, 2));
    assert_eq!(route.vertical_capacity, vec![0, 10]);
    assert_eq!(route.horizontal_capacity, vec![20, 0]);
    assert_eq!(route.min_wire_width, vec![1, 1]);
    assert_eq!(route.min_wire_spacing, vec![2, 2]);
    assert_eq!((route.grid_origin.x, route.grid_origin.y), (1, 2));
    assert_eq!((route.tile_size.x, route.tile_size.y), (30, 40));
    assert_eq!(route.ni_terminal_len(), 2);
    assert_eq!(route.ni_terminal_to_layer[0].0, "padA");
    assert_eq!(route.ni_terminal_to_layer[0].1, 2);
    assert_eq!(route.blockge_len(), 1);
    assert_eq!(route.blockage_info[0].0, "blockB");
    assert_eq!(route.blockage_info[0].1, vec![1, 2]);
}

#[test]
fn shapes_reader_reads_rectangles() {
    let src = "shapes 1.0\nNumNonRectangularNodes : 1\nblockB : 2\n\
               blockB_a 0 0 4 5\nblockB_b 4 0 2 2\n";
    let shapes = Shapes::read_from_file(bytes(src)).unwrap();
    assert_eq!(shapes.len(), 1);
    let ns = &shapes.shapes[0];
    assert_eq!(ns.node_name, "blockB");
    assert_eq!(ns.shape.len(), 2);
    assert_eq!(ns.shape[0].shape_name, "blockB_a");
    assert_eq!((ns.shape[0].rect.ll.x, ns.shape[0].rect.ll.y), (0, 0));
    assert_eq!((ns.shape[0].rect.ur.x, ns.shape[0].rect.ur.y), (4, 5));
    assert_eq!((ns.shape[1].rect.ur.x, ns.shape[1].rect.ur.y), (6, 2));
}

#[test]
fn manifest_classifies_paths_by_extension() {
    let src = "RowBasedPlacement : design.nodes design.nets design.wts\n\
               design.pl design.scl design.shapes design.route other.unknown plain\n";
    let aux = Aux::build(bytes(src)).unwrap();
    assert_eq!(aux.nodes.as_deref(), Some("design.nodes"));
    assert_eq!(aux.nets.as_deref(), Some("design.nets"));
    assert_eq!(aux.wts.as_deref(), Some("design.wts"));
    assert_eq!(aux.pl.as_deref(), Some("design.pl"));
    assert_eq!(aux.scl.as_deref(), Some("design.scl"));
    assert_eq!(aux.shapes.as_deref(), Some("design.shapes"));
    assert_eq!(aux.route.as_deref(), Some("design.route"));
    assert!(aux.me.is_none());
}

#[test]
fn output_paths_replace_the_manifest_extension() {
    let paths = OutPaths::build("bench/design.aux");
    assert_eq!(paths.techlef, "bench/design.tech.lef");
    assert_eq!(paths.lef, "bench/design.lef");
    assert_eq!(paths.def, "bench/design.def");
    let bare = OutPaths::build("noext");
    assert_eq!(bare.def, "noext.def");
}
