//! The cross-file model: one `Bookshelf` owns every per-file collection,
//! built once from the file contents the manifest names and read-only
//! afterwards. `parse` summarizes how the nodes split into instances and
//! terminals.

use vstd::prelude::*;
use crate::aux::Aux;
use crate::error::BookshelfError;
use crate::nets::{Nets, NetV, parse_nets};
use crate::reader::all_ascii;
use crate::nodes::{Movable, Nodes, NodeV, parse_nodes};
use crate::pl::{Pls, PlV, parse_pls};
use crate::route::{Route, Grid, parse_route, default_route, route_terms_wf};
use crate::geom::Point;
use crate::scl::{Scl, RowV, parse_scl};
use crate::shape::{Shapes, NodeShapeV, parse_shapes};

verus! {

/// The aggregate model: every collection of the benchmark, cross-referenced
/// by name.
pub struct Bookshelf {
    pub aux: Aux,
    pub nodes: Nodes,
    pub nets: Nets,
    pub pls: Pls,
    pub scl: Scl,
    pub route: Route,
    pub shape: Shapes,
}

/// What a file's collection must be, given the bytes the manifest named for
/// it: parsed exactly when present, empty when the manifest named none.
pub open spec fn collection_from<T>(
    bytes: Option<Vec<u8>>,
    parsed: Result<T, BookshelfError>,
    empty: T,
    got: T,
) -> bool {
    match bytes {
        None => got == empty,
        Some(b) => parsed == Ok::<T, BookshelfError>(got),
    }
}

impl Bookshelf {
    /// Joins the per-file contents into one model. Each argument holds the
    /// bytes of the file the manifest named, or nothing; reading the files
    /// from disk is the caller's business.
    pub fn build_from_aux(
        aux: Aux,
        nodes_bytes: Option<Vec<u8>>,
        nets_bytes: Option<Vec<u8>>,
        pl_bytes: Option<Vec<u8>>,
        scl_bytes: Option<Vec<u8>>,
        route_bytes: Option<Vec<u8>>,
        shapes_bytes: Option<Vec<u8>>,
    ) -> (r: Result<Bookshelf, BookshelfError>)
        ensures
            match r {
                Ok(b) => {
                    &&& b.aux == aux
                    &&& collection_from(
                        nodes_bytes,
                        parse_nodes(nodes_bytes->Some_0@),
                        Seq::<NodeV>::empty(),
                        b.nodes@,
                    )
                    &&& b.nodes.wf()
                    &&& collection_from(
                        nets_bytes,
                        parse_nets(nets_bytes->Some_0@),
                        Seq::<NetV>::empty(),
                        b.nets@,
                    )
                    &&& collection_from(
                        pl_bytes,
                        parse_pls(pl_bytes->Some_0@),
                        Seq::<PlV>::empty(),
                        b.pls@,
                    )
                    &&& b.pls.wf()
                    &&& collection_from(
                        scl_bytes,
                        parse_scl(scl_bytes->Some_0@),
                        Seq::<RowV>::empty(),
                        b.scl@,
                    )
                    &&& collection_from(
                        route_bytes,
                        parse_route(route_bytes->Some_0@),
                        default_route(),
                        b.route@,
                    )
                    &&& route_terms_wf(b.route@)
                    &&& collection_from(
                        shapes_bytes,
                        parse_shapes(shapes_bytes->Some_0@),
                        Seq::<NodeShapeV>::empty(),
                        b.shape@,
                    )
                },
                Err(_) => {
                    ||| nodes_bytes is Some && (!all_ascii(nodes_bytes->Some_0@) || parse_nodes(
                        nodes_bytes->Some_0@,
                    ) is Err)
                    ||| nets_bytes is Some && (!all_ascii(nets_bytes->Some_0@) || parse_nets(
                        nets_bytes->Some_0@,
                    ) is Err)
                    ||| pl_bytes is Some && (!all_ascii(pl_bytes->Some_0@) || parse_pls(
                        pl_bytes->Some_0@,
                    ) is Err)
                    ||| scl_bytes is Some && (!all_ascii(scl_bytes->Some_0@) || parse_scl(
                        scl_bytes->Some_0@,
                    ) is Err)
                    ||| route_bytes is Some && (!all_ascii(route_bytes->Some_0@) || parse_route(
                        route_bytes->Some_0@,
                    ) is Err)
                    ||| shapes_bytes is Some && (!all_ascii(shapes_bytes->Some_0@) || parse_shapes(
                        shapes_bytes->Some_0@,
                    ) is Err)
                },
            },
    {
        let nodes = match nodes_bytes {
            None => Nodes { nodes: Vec::new() },
            Some(b) => Nodes::read(b)?,
        };
        let nets = match nets_bytes {
            None => Nets { nets: Vec::new() },
            Some(b) => Nets::read_from_file(b)?,
        };
        let pls = match pl_bytes {
            None => Pls { pls: Vec::new() },
            Some(b) => Pls::read_from_file(b)?,
        };
        let scl = match scl_bytes {
            None => Scl { rows: Vec::new() },
            Some(b) => Scl::read_from_file(b)?,
        };
        let route = match route_bytes {
            None => Route {
                grid: Grid { num_x: 0, num_y: 0, num_layer: 0 },
                vertical_capacity: Vec::new(),
                horizontal_capacity: Vec::new(),
                min_wire_width: Vec::new(),
                min_wire_spacing: Vec::new(),
                via_spacing: Vec::new(),
                grid_origin: Point { x: 0, y: 0 },
                tile_size: Point { x: 0, y: 0 },
                blockage_porosity: 0,
                ni_terminal_to_layer: Vec::new(),
                blockage_info: Vec::new(),
            },
            Some(b) => Route::read(b)?,
        };
        let shape = match shapes_bytes {
            None => Shapes { shapes: Vec::new() },
            Some(b) => Shapes::read_from_file(b)?,
        };
        proof {
            if nodes_bytes is None {
                assert(nodes@ =~= Seq::<NodeV>::empty());
            }
            if nets_bytes is None {
                assert(nets@ =~= Seq::<NetV>::empty());
            }
            if pl_bytes is None {
                assert(pls@ =~= Seq::<PlV>::empty());
            }
            if scl_bytes is None {
                assert(scl@ =~= Seq::<RowV>::empty());
            }
            if route_bytes is None {
                assert(route@.vertical_capacity =~= default_route().vertical_capacity);
                assert(route@.horizontal_capacity =~= default_route().horizontal_capacity);
                assert(route@.min_wire_width =~= default_route().min_wire_width);
                assert(route@.min_wire_spacing =~= default_route().min_wire_spacing);
                assert(route@.via_spacing =~= default_route().via_spacing);
                assert(route@.ni_terminal_to_layer =~= default_route().ni_terminal_to_layer);
                assert(route@.blockage_info =~= default_route().blockage_info);
                assert(route@ == default_route());
            }
            if shapes_bytes is None {
                assert(shape@ =~= Seq::<NodeShapeV>::empty());
            }
        }
        Ok(Bookshelf { aux, nodes, nets, pls, scl, route, shape })
    }
}

/// How many nodes of `s` have kind `k`.
pub open spec fn count_kind(s: Seq<NodeV>, k: Movable) -> int
    decreases s.len(),
{
    if s.len() == 0 {
        0
    } else {
        count_kind(s.drop_last(), k) + if s.last().moveable == k {
            1int
        } else {
            0
        }
    }
}

/// Whether some node of `s` has size `(w, h)`.
pub open spec fn has_size(s: Seq<NodeV>, w: int, h: int) -> bool {
    exists|i: int| 0 <= i < s.len() && s[i].size.x == w && s[i].size.y == h
}

/// How many distinct sizes appear among the nodes of `s`.
pub open spec fn distinct_sizes(s: Seq<NodeV>) -> int
    decreases s.len(),
{
    if s.len() == 0 {
        0
    } else {
        distinct_sizes(s.drop_last()) + if has_size(
            s.drop_last(),
            s.last().size.x,
            s.last().size.y,
        ) {
            0int
        } else {
            1
        }
    }
}

/// How the nodes split into standard-cell instances and boundary terminals.
pub struct ModelStats {
    pub num_pins: usize,
    pub num_instances: usize,
    pub num_distinct_sizes: usize,
}

impl Bookshelf {
    /// Splits the nodes into instances (movable or fixed) and terminal pins
    /// (fixed not-in-image), and counts the distinct cell sizes.
    pub fn parse(&self) -> (r: ModelStats)
        ensures
            r.num_pins == count_kind(self.nodes@, Movable::FixedButOverlapAllowed),
            r.num_instances == self.nodes@.len() - count_kind(
                self.nodes@,
                Movable::FixedButOverlapAllowed,
            ),
            r.num_distinct_sizes == distinct_sizes(self.nodes@),
    {
        let ghost s = self.nodes@;
        let n = self.nodes.len();
        let mut pins: usize = 0;
        let mut seen: Vec<(i64, i64)> = Vec::new();
        let mut i: usize = 0;
        proof {
            assert(s.subrange(0, 0) =~= Seq::<NodeV>::empty());
        }
        while i < n
            invariant
                n == s.len(),
                s == self.nodes@,
                i <= n,
                pins <= i,
                pins == count_kind(s.subrange(0, i as int), Movable::FixedButOverlapAllowed),
                seen@.len() <= i,
                seen@.len() == distinct_sizes(s.subrange(0, i as int)),
                forall|w: int, h: int|
                    has_size(s.subrange(0, i as int), w, h) <==> exists|j: int|
                        0 <= j < seen@.len() && seen@[j].0 == w && seen@[j].1 == h,
            decreases n - i,
        {
            let ghost pre = s.subrange(0, i as int);
            let ghost ext = s.subrange(0, i + 1);
            proof {
                assert(ext.drop_last() =~= pre);
                assert(ext.last() == s[i as int]);
            }
            let node = &self.nodes.nodes[i];
            match node.moveable {
                Movable::FixedButOverlapAllowed => {
                    pins = pins + 1;
                },
                _ => {},
            }
            let w = node.size.x;
            let h = node.size.y;
            let mut found = false;
            let mut j: usize = 0;
            let m = seen.len();
            while j < m
                invariant
                    m == seen@.len(),
                    j <= m,
                    found <==> exists|q: int| 0 <= q < j && seen@[q].0 == w && seen@[q].1 == h,
                decreases m - j,
            {
                if seen[j].0 == w && seen[j].1 == h {
                    found = true;
                }
                j = j + 1;
            }
            if !found {
                let ghost seen_pre = seen@;
                seen.push((w, h));
                proof {
                    assert(seen@ =~= seen_pre.push((w, h)));
                    assert(!has_size(pre, w as int, h as int));
                    assert forall|ww: int, hh: int| has_size(ext, ww, hh) implies exists|q: int|
                        0 <= q < seen@.len() && seen@[q].0 == ww && seen@[q].1 == hh by {
                        let wit = choose|q: int|
                            0 <= q < ext.len() && ext[q].size.x == ww && ext[q].size.y == hh;
                        if wit < i {
                            assert(pre[wit] == ext[wit]);
                            assert(has_size(pre, ww, hh));
                            let q0 = choose|q: int|
                                0 <= q < seen_pre.len() && seen_pre[q].0 == ww && seen_pre[q].1
                                    == hh;
                            assert(seen@[q0].0 == ww && seen@[q0].1 == hh);
                        } else {
                            assert(ext[wit].size.x == w as int && ext[wit].size.y == h as int);
                            assert(seen@[seen@.len() - 1].0 == ww && seen@[seen@.len() - 1].1
                                == hh);
                        }
                    }
                    assert forall|ww: int, hh: int|
                        (exists|q: int|
                            0 <= q < seen@.len() && seen@[q].0 == ww && seen@[q].1
                                == hh) implies has_size(ext, ww, hh) by {
                        let wit = choose|q: int|
                            0 <= q < seen@.len() && seen@[q].0 == ww && seen@[q].1 == hh;
                        if wit < seen_pre.len() {
                            assert(seen_pre[wit].0 == ww && seen_pre[wit].1 == hh);
                            assert(has_size(pre, ww, hh));
                            let wit2 = choose|q: int|
                                0 <= q < pre.len() && pre[q].size.x == ww && pre[q].size.y == hh;
                            assert(ext[wit2] == pre[wit2]);
                            assert(has_size(ext, ww, hh));
                        } else {
                            assert(seen@[wit] == (w, h));
                            assert(ext[i as int].size.x == ww && ext[i as int].size.y == hh);
                            assert(has_size(ext, ww, hh));
                        }
                    }
                }
            } else {
                proof {
                    assert(has_size(pre, w as int, h as int));
                    assert forall|ww: int, hh: int| has_size(ext, ww, hh) implies exists|q: int|
                        0 <= q < seen@.len() && seen@[q].0 == ww && seen@[q].1 == hh by {
                        let wit = choose|q: int|
                            0 <= q < ext.len() && ext[q].size.x == ww && ext[q].size.y == hh;
                        if wit < i {
                            assert(pre[wit] == ext[wit]);
                            assert(has_size(pre, ww, hh));
                        } else {
                            assert(ww == w as int && hh == h as int);
                            assert(has_size(pre, ww, hh));
                        }
                    }
                    assert forall|ww: int, hh: int|
                        (exists|q: int|
                            0 <= q < seen@.len() && seen@[q].0 == ww && seen@[q].1
                                == hh) implies has_size(ext, ww, hh) by {
                        assert(has_size(pre, ww, hh));
                        let wit2 = choose|q: int|
                            0 <= q < pre.len() && pre[q].size.x == ww && pre[q].size.y == hh;
                        assert(ext[wit2] == pre[wit2]);
                        assert(has_size(ext, ww, hh));
                    }
                }
            }
            i = i + 1;
        }
        proof {
            assert(s.subrange(0, n as int) =~= s);
        }
        ModelStats {
            num_pins: pins,
            num_instances: n - pins,
            num_distinct_sizes: seen.len(),
        }
    }
}

} // verus!
