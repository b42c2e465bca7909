//! Top-level pin reconciliation and synthesis. Three files record the fixed
//! not-in-image terminals independently: the routing grid assigns them
//! layers, the placement file marks them `/FIXED_NI`, and the nodes file
//! marks them `terminal_NI`. The validator demands that the three views
//! agree and that no terminal is a net endpoint more than once — a LEF/DEF
//! top-level pin has exactly one port. Only then are the DEF pins built.

use vstd::prelude::*;
use crate::error::BookshelfError;
use crate::geom::{Point, PointV};
use crate::nets::{NetV, PinV};
use crate::nodes::{Movable, NodeV, has_node, node_index_of};
use crate::numfmt::{metal_name, metal_string};
use crate::parser::Bookshelf;
use crate::pl::{PlV, Type, has_pl, pl_index_of, lemma_pl_index_of_props};
use crate::route::{
    has_term, term_index_of, route_terms_wf, lemma_term_index_of_props, lemma_term_index_found,
};
use crate::strutil::str_eq;

verus! {

/// Whether the placement collection marks `name` as fixed not-in-image.
pub open spec fn is_ni_pl(pls: Seq<PlV>, name: Seq<char>) -> bool {
    has_pl(pls, name) && pls[pl_index_of(pls, name)].kind == Type::FixedNotInImage
}

/// Whether the node collection marks `name` as a not-in-image terminal.
pub open spec fn is_ni_node(nodes: Seq<NodeV>, name: Seq<char>) -> bool {
    has_node(nodes, name) && nodes[node_index_of(nodes, name)].moveable
        == Movable::FixedButOverlapAllowed
}

/// How often `name` appears as an instance among these endpoints.
pub open spec fn count_in_pins(pins: Seq<PinV>, name: Seq<char>) -> int
    decreases pins.len(),
{
    if pins.len() == 0 {
        0
    } else {
        count_in_pins(pins.drop_last(), name) + if pins.last().instance_name == name {
            1int
        } else {
            0
        }
    }
}

/// How often `name` appears as a net endpoint across all nets.
pub open spec fn count_endpoints(nets: Seq<NetV>, name: Seq<char>) -> int
    decreases nets.len(),
{
    if nets.len() == 0 {
        0
    } else {
        count_endpoints(nets.drop_last(), name) + count_in_pins(nets.last().pin, name)
    }
}

/// The pin label of the last endpoint of `name` among these endpoints.
pub open spec fn last_in_pins(pins: Seq<PinV>, name: Seq<char>) -> Option<Seq<char>>
    decreases pins.len(),
{
    if pins.len() == 0 {
        None
    } else if pins.last().instance_name == name {
        Some(pins.last().pin_name)
    } else {
        last_in_pins(pins.drop_last(), name)
    }
}

/// The net name and pin label of the last endpoint of `name` across all
/// nets.
pub open spec fn last_endpoint(nets: Seq<NetV>, name: Seq<char>) -> Option<(Seq<char>, Seq<char>)>
    decreases nets.len(),
{
    if nets.len() == 0 {
        None
    } else {
        match last_in_pins(nets.last().pin, name) {
            Some(pn) => Some((nets.last().name, pn)),
            None => last_endpoint(nets.drop_last(), name),
        }
    }
}

/// Every declared terminal is a net endpoint at most once.
pub open spec fn pin_counts_ok(terms: Seq<(Seq<char>, int)>, nets: Seq<NetV>) -> bool {
    forall|i: int| 0 <= i < terms.len() ==> count_endpoints(nets, terms[i].0) <= 1
}

/// The three per-file views of the terminals agree: every routing-grid
/// terminal is placed `/FIXED_NI` and declared `terminal_NI`, and the other
/// way round.
pub open spec fn pin_sets_agree(
    terms: Seq<(Seq<char>, int)>,
    pls: Seq<PlV>,
    nodes: Seq<NodeV>,
) -> bool {
    &&& forall|i: int| 0 <= i < terms.len() ==> is_ni_pl(pls, terms[i].0)
    &&& forall|i: int| 0 <= i < terms.len() ==> is_ni_node(nodes, terms[i].0)
    &&& forall|j: int|
        0 <= j < pls.len() && pls[j].kind == Type::FixedNotInImage ==> has_term(
            terms,
            pls[j].name,
        )
    &&& forall|j: int|
        0 <= j < nodes.len() && nodes[j].moveable == Movable::FixedButOverlapAllowed ==> has_term(
            terms,
            nodes[j].name,
        )
}

/// Every net endpoint on a terminal is labelled `I` or `O`, the only labels
/// a top-level pin direction can be derived from.
pub open spec fn directions_ok(terms: Seq<(Seq<char>, int)>, nets: Seq<NetV>) -> bool {
    forall|i: int, j: int|
        0 <= i < nets.len() && 0 <= j < nets[i].pin.len() && has_term(
            terms,
            nets[i].pin[j].instance_name,
        ) ==> nets[i].pin[j].pin_name == "I"@ || nets[i].pin[j].pin_name == "O"@
}

/// Everything DEF pin synthesis demands of the model.
pub open spec fn def_pins_ok(
    terms: Seq<(Seq<char>, int)>,
    pls: Seq<PlV>,
    nodes: Seq<NodeV>,
    nets: Seq<NetV>,
) -> bool {
    &&& pin_counts_ok(terms, nets)
    &&& pin_sets_agree(terms, pls, nodes)
    &&& directions_ok(terms, nets)
}

/// When the three views agree, membership in the routing-grid terminal map,
/// a `/FIXED_NI` placement and a `terminal_NI` node declaration all pick out
/// the same names.
pub proof fn lemma_terminal_views_agree(
    terms: Seq<(Seq<char>, int)>,
    pls: Seq<PlV>,
    nodes: Seq<NodeV>,
)
    requires
        pin_sets_agree(terms, pls, nodes),
    ensures
        forall|name: Seq<char>| has_term(terms, name) <==> is_ni_pl(pls, name),
        forall|name: Seq<char>| has_term(terms, name) <==> is_ni_node(nodes, name),
{
    assert forall|name: Seq<char>| has_term(terms, name) <==> is_ni_pl(pls, name) by {
        if has_term(terms, name) {
            lemma_term_index_of_props(terms, name);
            let i = term_index_of(terms, name);
            assert(is_ni_pl(pls, terms[i].0));
        }
        if is_ni_pl(pls, name) {
            lemma_pl_index_of_props(pls, name);
            let j = pl_index_of(pls, name);
            assert(has_term(terms, pls[j].name));
        }
    }
    assert forall|name: Seq<char>| has_term(terms, name) <==> is_ni_node(nodes, name) by {
        if has_term(terms, name) {
            lemma_term_index_of_props(terms, name);
            let i = term_index_of(terms, name);
            assert(is_ni_node(nodes, terms[i].0));
        }
        if is_ni_node(nodes, name) {
            crate::nodes::lemma_node_index_of_props(nodes, name);
            let j = node_index_of(nodes, name);
            assert(has_term(terms, nodes[j].name));
        }
    }
}

/// A terminal that is an endpoint of more than one net defeats pin
/// synthesis: a top-level pin has exactly one port.
pub proof fn lemma_repeated_endpoint_rejected(
    terms: Seq<(Seq<char>, int)>,
    pls: Seq<PlV>,
    nodes: Seq<NodeV>,
    nets: Seq<NetV>,
    i: int,
)
    requires
        0 <= i < terms.len(),
        count_endpoints(nets, terms[i].0) >= 2,
    ensures
        !def_pins_ok(terms, pls, nodes, nets),
{
    assert(!pin_counts_ok(terms, nets));
}

/// One synthesized top-level pin of the DEF design: the routing grid gives
/// its name and layer, the placement its location and orientation, the node
/// its port shape, and the nets its net and direction.
pub struct DefPin {
    pub name: String,
    pub layer: String,
    pub orientation: String,
    pub place: Point,
    pub shape: Point,
    pub net: Option<String>,
    pub direction: Option<String>,
}

/// The mathematical value of a synthesized pin.
pub struct DefPinV {
    pub name: Seq<char>,
    pub layer: Seq<char>,
    pub orientation: Seq<char>,
    pub place: PointV,
    pub shape: PointV,
    pub net: Option<Seq<char>>,
    pub direction: Option<Seq<char>>,
}

impl View for DefPin {
    type V = DefPinV;

    open spec fn view(&self) -> DefPinV {
        DefPinV {
            name: self.name@,
            layer: self.layer@,
            orientation: self.orientation@,
            place: self.place@,
            shape: self.shape@,
            net: crate::aux::opt_view(self.net),
            direction: crate::aux::opt_view(self.direction),
        }
    }
}

/// What the pin synthesized for terminal `i` must hold.
pub open spec fn def_pin_matches(
    terms: Seq<(Seq<char>, int)>,
    pls: Seq<PlV>,
    nodes: Seq<NodeV>,
    nets: Seq<NetV>,
    i: int,
    p: DefPinV,
) -> bool {
    let name = terms[i].0;
    &&& p.name == name
    &&& p.layer == metal_name(terms[i].1)
    &&& p.place == pls[pl_index_of(pls, name)].place
    &&& p.orientation == pls[pl_index_of(pls, name)].orientation
    &&& p.shape == nodes[node_index_of(nodes, name)].size
    &&& match last_endpoint(nets, name) {
        None => p.net is None && p.direction is None,
        Some((nn, pn)) => p.net == Some(nn) && p.direction == Some(
            if pn == "I"@ {
                "INPUT"@
            } else {
                "OUTPUT"@
            },
        ),
    }
}

/// The names placed fixed not-in-image, in placement order.
pub open spec fn ni_pl_names(pls: Seq<PlV>, upto: int) -> Seq<Seq<char>>
    decreases upto,
{
    if upto <= 0 {
        Seq::empty()
    } else {
        ni_pl_names(pls, upto - 1) + if pls[upto - 1].kind == Type::FixedNotInImage {
            seq![pls[upto - 1].name]
        } else {
            Seq::<Seq<char>>::empty()
        }
    }
}

/// The terminals that are net endpoints at all, each with its endpoint
/// count, in terminal-map order.
pub open spec fn terminal_net_counts(
    terms: Seq<(Seq<char>, int)>,
    nets: Seq<NetV>,
    upto: int,
) -> Seq<(Seq<char>, int)>
    decreases upto,
{
    if upto <= 0 {
        Seq::empty()
    } else {
        terminal_net_counts(terms, nets, upto - 1) + if count_endpoints(nets, terms[upto - 1].0)
            >= 1 {
            seq![(terms[upto - 1].0, count_endpoints(nets, terms[upto - 1].0))]
        } else {
            Seq::<(Seq<char>, int)>::empty()
        }
    }
}

/// The three independently recorded name sets, reconciled before any DEF
/// pin is synthesized.
pub struct PinValidator {
    pub pin_in_route: Vec<String>,
    pub pin_in_pl: Vec<String>,
    pub pin_in_net: Vec<(String, i64)>,
}

/// The names a vector of owned strings denotes.
pub open spec fn names_view(v: Seq<String>) -> Seq<Seq<char>> {
    v.map_values(|s: String| s@)
}

/// How often `name` occurs as an endpoint of the first `i` nets plus the
/// first `j` endpoints of net `i`.
pub open spec fn count_upto(nets: Seq<NetV>, i: int, j: int, name: Seq<char>) -> int {
    count_endpoints(nets.subrange(0, i), name) + count_in_pins(
        nets[i].pin.subrange(0, j),
        name,
    )
}

/// Counts how often `name` is a net endpoint, stopping at two: more than
/// one reference already defeats synthesis.
fn count_endpoints_of(nets: &crate::nets::Nets, name: &str) -> (r: i64)
    ensures
        r == count_endpoints(nets@, name@) || r >= 2,
        r >= 2 ==> count_endpoints(nets@, name@) >= 2,
        r >= 0,
{
    let ghost ns = nets@;
    let mut c: i64 = 0;
    let n = nets.nets.len();
    let mut i: usize = 0;
    proof {
        assert(ns.subrange(0, 0) =~= Seq::<NetV>::empty());
    }
    while i < n
        invariant
            n == ns.len(),
            ns == nets@,
            i <= n,
            0 <= c <= 2,
            c == count_endpoints(ns.subrange(0, i as int), name@),
        decreases n - i,
    {
        let net = &nets.nets[i];
        let m = net.pin.len();
        let mut j: usize = 0;
        proof {
            assert(ns[i as int].pin.subrange(0, 0) =~= Seq::<PinV>::empty());
        }
        while j < m
            invariant
                ns == nets@,
                i < ns.len(),
                n == ns.len(),
                m == ns[i as int].pin.len(),
                net == nets.nets@[i as int],
                j <= m,
                0 <= c <= 2,
                c == count_endpoints(ns.subrange(0, i as int), name@) + count_in_pins(
                    ns[i as int].pin.subrange(0, j as int),
                    name@,
                ),
            decreases m - j,
        {
            proof {
                let pv = ns[i as int].pin;
                assert(pv.subrange(0, j + 1).drop_last() =~= pv.subrange(0, j as int));
                assert(pv.subrange(0, j + 1).last() == pv[j as int]);
            }
            if str_eq(net.pin[j].instance_name.as_str(), name) {
                if c >= 2 {
                    proof {
                        lemma_count_prefix_bound(ns, i as int, j + 1, name@);
                    }
                    return c;
                }
                c = c + 1;
            }
            j = j + 1;
        }
        proof {
            assert(ns[i as int].pin.subrange(0, m as int) =~= ns[i as int].pin);
            assert(ns.subrange(0, i + 1).drop_last() =~= ns.subrange(0, i as int));
            assert(ns.subrange(0, i + 1).last() == ns[i as int]);
        }
        i = i + 1;
    }
    proof {
        assert(ns.subrange(0, n as int) =~= ns);
    }
    c
}

/// Endpoint counts only grow as more of the net list is scanned.
proof fn lemma_count_in_pins_mono(pins: Seq<PinV>, j: int, name: Seq<char>)
    requires
        0 <= j <= pins.len(),
    ensures
        count_in_pins(pins, name) >= count_in_pins(pins.subrange(0, j), name),
        count_in_pins(pins.subrange(0, j), name) >= 0,
    decreases pins.len() - j,
{
    lemma_count_in_pins_nonneg(pins.subrange(0, j), name);
    if j < pins.len() {
        lemma_count_in_pins_mono(pins, j + 1, name);
        assert(pins.subrange(0, j + 1).drop_last() =~= pins.subrange(0, j));
    } else {
        assert(pins.subrange(0, j) =~= pins);
    }
}

proof fn lemma_count_in_pins_nonneg(pins: Seq<PinV>, name: Seq<char>)
    ensures
        count_in_pins(pins, name) >= 0,
    decreases pins.len(),
{
    if pins.len() > 0 {
        lemma_count_in_pins_nonneg(pins.drop_last(), name);
    }
}

proof fn lemma_count_endpoints_nonneg(nets: Seq<NetV>, name: Seq<char>)
    ensures
        count_endpoints(nets, name) >= 0,
    decreases nets.len(),
{
    if nets.len() > 0 {
        lemma_count_endpoints_nonneg(nets.drop_last(), name);
        lemma_count_in_pins_nonneg(nets.last().pin, name);
    }
}

proof fn lemma_count_endpoints_mono(nets: Seq<NetV>, i: int, name: Seq<char>)
    requires
        0 <= i <= nets.len(),
    ensures
        count_endpoints(nets, name) >= count_endpoints(nets.subrange(0, i), name),
        count_endpoints(nets.subrange(0, i), name) >= 0,
    decreases nets.len() - i,
{
    lemma_count_endpoints_nonneg(nets.subrange(0, i), name);
    if i < nets.len() {
        lemma_count_endpoints_mono(nets, i + 1, name);
        assert(nets.subrange(0, i + 1).drop_last() =~= nets.subrange(0, i));
        lemma_count_in_pins_nonneg(nets.subrange(0, i + 1).last().pin, name);
    } else {
        assert(nets.subrange(0, i) =~= nets);
    }
}

/// A partial scan never counts more than the whole list.
pub proof fn lemma_count_prefix_bound(nets: Seq<NetV>, i: int, j: int, name: Seq<char>)
    requires
        0 <= i < nets.len(),
        0 <= j <= nets[i].pin.len(),
    ensures
        count_endpoints(nets, name) >= count_upto(nets, i, j, name),
{
    lemma_count_endpoints_mono(nets, i + 1, name);
    assert(nets.subrange(0, i + 1).drop_last() =~= nets.subrange(0, i));
    assert(nets.subrange(0, i + 1).last() == nets[i]);
    lemma_count_in_pins_mono(nets[i].pin, j, name);
}

impl PinValidator {
    /// Builds the three name views and counts every terminal's net
    /// endpoints, failing as soon as one terminal is referenced twice.
    pub fn build(bookshelf: &Bookshelf) -> (r: Result<PinValidator, BookshelfError>)
        ensures
            match r {
                Ok(v) => {
                    &&& names_view(v.pin_in_route@) == bookshelf.route@.ni_terminal_to_layer
                        .map_values(|p: (Seq<char>, int)| p.0)
                    &&& names_view(v.pin_in_pl@) == ni_pl_names(
                        bookshelf.pls@,
                        bookshelf.pls@.len() as int,
                    )
                    &&& crate::route::term_map_view(v.pin_in_net@) == terminal_net_counts(
                        bookshelf.route@.ni_terminal_to_layer,
                        bookshelf.nets@,
                        bookshelf.route@.ni_terminal_to_layer.len() as int,
                    )
                    &&& pin_counts_ok(bookshelf.route@.ni_terminal_to_layer, bookshelf.nets@)
                    &&& forall|k: int|
                        0 <= k < v.pin_in_net@.len() ==> 0 <= (#[trigger] v.pin_in_net@[k]).1
                            <= 1
                },
                Err(e) => {
                    &&& e == BookshelfError::PinCardinality
                    &&& !pin_counts_ok(bookshelf.route@.ni_terminal_to_layer, bookshelf.nets@)
                },
            },
    {
        let ghost terms = bookshelf.route@.ni_terminal_to_layer;
        let mut pin_in_route: Vec<String> = Vec::new();
        let mut pin_in_net: Vec<(String, i64)> = Vec::new();
        let n = bookshelf.route.ni_terminal_to_layer.len();
        let mut i: usize = 0;
        proof {
            assert(names_view(pin_in_route@) =~= terms.map_values(
                |p: (Seq<char>, int)| p.0,
            ).subrange(0, 0));
        }
        while i < n
            invariant
                n == terms.len(),
                terms == bookshelf.route@.ni_terminal_to_layer,
                i <= n,
                names_view(pin_in_route@) == terms.map_values(
                    |p: (Seq<char>, int)| p.0,
                ).subrange(0, i as int),
                crate::route::term_map_view(pin_in_net@) == terminal_net_counts(
                    terms,
                    bookshelf.nets@,
                    i as int,
                ),
                forall|k: int| 0 <= k < i ==> count_endpoints(bookshelf.nets@, terms[k].0) <= 1,
                forall|k: int|
                    0 <= k < pin_in_net@.len() ==> 0 <= (#[trigger] pin_in_net@[k]).1 <= 1,
            decreases n - i,
        {
            let entry = &bookshelf.route.ni_terminal_to_layer[i];
            let c = count_endpoints_of(&bookshelf.nets, entry.0.as_str());
            if c >= 2 {
                proof {
                    assert(count_endpoints(bookshelf.nets@, terms[i as int].0) >= 2);
                    assert(!pin_counts_ok(terms, bookshelf.nets@));
                }
                return Err(BookshelfError::PinCardinality);
            }
            let ghost counts_before = crate::route::term_map_view(pin_in_net@);
            if c >= 1 {
                pin_in_net.push((entry.0.clone(), c));
                proof {
                    assert(crate::route::term_map_view(pin_in_net@) =~= counts_before.push(
                        (terms[i as int].0, c as int),
                    ));
                    assert(crate::route::term_map_view(pin_in_net@) =~= terminal_net_counts(
                        terms,
                        bookshelf.nets@,
                        i + 1,
                    ));
                }
            } else {
                proof {
                    assert(crate::route::term_map_view(pin_in_net@) =~= terminal_net_counts(
                        terms,
                        bookshelf.nets@,
                        i + 1,
                    ));
                }
            }
            let ghost before = names_view(pin_in_route@);
            pin_in_route.push(entry.0.clone());
            proof {
                assert(names_view(pin_in_route@) =~= before.push(terms[i as int].0));
                assert(names_view(pin_in_route@) =~= terms.map_values(
                    |p: (Seq<char>, int)| p.0,
                ).subrange(0, i + 1));
            }
            i = i + 1;
        }
        let mut pin_in_pl: Vec<String> = Vec::new();
        let np = bookshelf.pls.len();
        let mut j: usize = 0;
        proof {
            assert(names_view(pin_in_pl@) =~= ni_pl_names(bookshelf.pls@, 0));
        }
        while j < np
            invariant
                np == bookshelf.pls@.len(),
                j <= np,
                names_view(pin_in_pl@) == ni_pl_names(bookshelf.pls@, j as int),
            decreases np - j,
        {
            let pl = &bookshelf.pls.pls[j];
            let ghost before = names_view(pin_in_pl@);
            match pl.kind {
                Type::FixedNotInImage => {
                    pin_in_pl.push(pl.name.clone());
                    proof {
                        assert(names_view(pin_in_pl@) =~= before.push(
                            bookshelf.pls@[j as int].name,
                        ));
                        assert(names_view(pin_in_pl@) =~= ni_pl_names(bookshelf.pls@, j + 1));
                    }
                },
                _ => {
                    proof {
                        assert(names_view(pin_in_pl@) =~= ni_pl_names(bookshelf.pls@, j + 1));
                    }
                },
            }
            j = j + 1;
        }
        proof {
            assert(names_view(pin_in_route@) =~= terms.map_values(|p: (Seq<char>, int)| p.0));
        }
        Ok(PinValidator { pin_in_route, pin_in_net, pin_in_pl })
    }

    /// The validity judgment: the routing-grid and placement terminal sets
    /// have the same size, every routing-grid terminal is placed, and no
    /// terminal is a net endpoint more than once.
    pub fn is_valid(&self) -> (r: Result<(), BookshelfError>)
        ensures
            r is Ok <==> {
                &&& self.pin_in_route@.len() == self.pin_in_pl@.len()
                &&& forall|i: int|
                    0 <= i < self.pin_in_route@.len() ==> names_view(self.pin_in_pl@).contains(
                        self.pin_in_route@[i]@,
                    )
                &&& forall|k: int| 0 <= k < self.pin_in_net@.len() ==> self.pin_in_net@[k].1 <= 1
            },
            r is Err ==> (r->Err_0 == BookshelfError::PinSetMismatch || r->Err_0
                == BookshelfError::PinCardinality),
    {
        if self.pin_in_route.len() != self.pin_in_pl.len() {
            return Err(BookshelfError::PinSetMismatch);
        }
        let n = self.pin_in_route.len();
        let mut i: usize = 0;
        while i < n
            invariant
                n == self.pin_in_route@.len(),
                i <= n,
                forall|k: int|
                    0 <= k < i ==> names_view(self.pin_in_pl@).contains(self.pin_in_route@[k]@),
            decreases n - i,
        {
            let name = &self.pin_in_route[i];
            let m = self.pin_in_pl.len();
            let mut j: usize = 0;
            let mut found = false;
            while j < m
                invariant
                    m == self.pin_in_pl@.len(),
                    j <= m,
                    found ==> names_view(self.pin_in_pl@).contains(self.pin_in_route@[i as int]@),
                    !found ==> forall|q: int|
                        0 <= q < j ==> self.pin_in_pl@[q]@ != self.pin_in_route@[i as int]@,
                    name == self.pin_in_route@[i as int],
                    i < n,
                decreases m - j,
            {
                if str_eq(self.pin_in_pl[j].as_str(), name.as_str()) {
                    proof {
                        assert(names_view(self.pin_in_pl@)[j as int]
                            == self.pin_in_route@[i as int]@);
                    }
                    found = true;
                }
                j = j + 1;
            }
            if !found {
                proof {
                    assert forall|q: int|
                        0 <= q < names_view(self.pin_in_pl@).len() implies names_view(
                        self.pin_in_pl@,
                    )[q] != self.pin_in_route@[i as int]@ by {
                        assert(names_view(self.pin_in_pl@)[q] == self.pin_in_pl@[q]@);
                    }
                }
                return Err(BookshelfError::PinSetMismatch);
            }
            i = i + 1;
        }
        let mut k: usize = 0;
        let nn = self.pin_in_net.len();
        while k < nn
            invariant
                nn == self.pin_in_net@.len(),
                k <= nn,
                forall|q: int| 0 <= q < k ==> self.pin_in_net@[q].1 <= 1,
            decreases nn - k,
        {
            if self.pin_in_net[k].1 >= 2 {
                return Err(BookshelfError::PinCardinality);
            }
            k = k + 1;
        }
        Ok(())
    }
}


/// The value of a direction label: `I` means input, `O` output.
pub open spec fn dir_of(pn: Seq<char>) -> Seq<char> {
    if pn == "I"@ {
        "INPUT"@
    } else {
        "OUTPUT"@
    }
}

/// The last endpoint of `name` within the first `i` nets plus the first `j`
/// endpoints of net `i`.
pub open spec fn last_endpoint_upto(nets: Seq<NetV>, i: int, j: int, name: Seq<char>) -> Option<
    (Seq<char>, Seq<char>),
> {
    if 0 <= i < nets.len() {
        match last_in_pins(nets[i].pin.subrange(0, j), name) {
            Some(pn) => Some((nets[i].name, pn)),
            None => last_endpoint(nets.subrange(0, i), name),
        }
    } else {
        last_endpoint(nets.subrange(0, i), name)
    }
}

/// The mathematical values of a pin vector.
pub open spec fn pins_view(v: Seq<DefPin>) -> Seq<DefPinV> {
    v.map_values(|p: DefPin| p@)
}

/// What loop-invariant bookkeeping demands of one pin before nets are
/// scanned: everything but its net and direction.
pub open spec fn def_pin_base(
    terms: Seq<(Seq<char>, int)>,
    pls: Seq<PlV>,
    nodes: Seq<NodeV>,
    i: int,
    p: DefPinV,
) -> bool {
    let name = terms[i].0;
    &&& p.name == name
    &&& p.layer == metal_name(terms[i].1)
    &&& p.place == pls[pl_index_of(pls, name)].place
    &&& p.orientation == pls[pl_index_of(pls, name)].orientation
    &&& p.shape == nodes[node_index_of(nodes, name)].size
}

/// The synthesized top-level pins, one per routing-grid terminal, in the
/// terminal map's order.
pub struct DefPins(pub Vec<DefPin>);

impl View for DefPins {
    type V = Seq<DefPinV>;

    open spec fn view(&self) -> Seq<DefPinV> {
        pins_view(self.0@)
    }
}

impl DefPins {
    /// Looks a synthesized pin up by name.
    pub fn get(&self, name: &str) -> (r: Option<&DefPin>)
        ensures
            match r {
                Some(p) => exists|i: int|
                    0 <= i < self@.len() && self@[i] == p@ && (#[trigger] self@[i]).name == name@,
                None => forall|i: int| 0 <= i < self@.len() ==> (#[trigger] self@[i]).name
                    != name@,
            },
    {
        let n = self.0.len();
        let mut i: usize = 0;
        while i < n
            invariant
                n == self@.len(),
                i <= n,
                forall|k: int| 0 <= k < i ==> (#[trigger] self@[k]).name != name@,
            decreases n - i,
        {
            if str_eq(self.0[i].name.as_str(), name) {
                proof {
                    assert(self@[i as int].name == name@);
                }
                return Some(&self.0[i]);
            }
            i = i + 1;
        }
        None
    }

    /// Whether `name` is a synthesized top-level pin.
    pub fn is_defpin(&self, name: &str) -> (r: bool)
        ensures
            r == exists|i: int| 0 <= i < self@.len() && (#[trigger] self@[i]).name == name@,
    {
        match self.get(name) {
            Some(_) => true,
            None => false,
        }
    }

    /// Synthesizes one top-level DEF pin per routing-grid terminal, after
    /// the reconciliation checks pass: counts first, then the agreement of
    /// the three per-file terminal views in both directions, then the net
    /// scan that demands a readable direction for every terminal endpoint.
    pub fn build(bookshelf: &Bookshelf) -> (r: Result<DefPins, BookshelfError>)
        requires
            bookshelf.pls.wf(),
            bookshelf.nodes.wf(),
            route_terms_wf(bookshelf.route@),
        ensures
            match r {
                Ok(dp) => {
                    &&& def_pins_ok(
                        bookshelf.route@.ni_terminal_to_layer,
                        bookshelf.pls@,
                        bookshelf.nodes@,
                        bookshelf.nets@,
                    )
                    &&& dp@.len() == bookshelf.route@.ni_terminal_to_layer.len()
                    &&& forall|i: int|
                        0 <= i < dp@.len() ==> def_pin_matches(
                            bookshelf.route@.ni_terminal_to_layer,
                            bookshelf.pls@,
                            bookshelf.nodes@,
                            bookshelf.nets@,
                            i,
                            #[trigger] dp@[i],
                        )
                },
                Err(e) => {
                    &&& !def_pins_ok(
                        bookshelf.route@.ni_terminal_to_layer,
                        bookshelf.pls@,
                        bookshelf.nodes@,
                        bookshelf.nets@,
                    )
                    &&& (e == BookshelfError::PinCardinality || e == BookshelfError::PinSetMismatch
                        || e == BookshelfError::BadPinDirection)
                    &&& e == BookshelfError::PinCardinality ==> !pin_counts_ok(
                        bookshelf.route@.ni_terminal_to_layer,
                        bookshelf.nets@,
                    )
                    &&& e == BookshelfError::PinSetMismatch ==> !pin_sets_agree(
                        bookshelf.route@.ni_terminal_to_layer,
                        bookshelf.pls@,
                        bookshelf.nodes@,
                    )
                    &&& e == BookshelfError::BadPinDirection ==> !directions_ok(
                        bookshelf.route@.ni_terminal_to_layer,
                        bookshelf.nets@,
                    )
                },
            },
    {
        let ghost terms = bookshelf.route@.ni_terminal_to_layer;
        let ghost plv = bookshelf.pls@;
        let ghost ndv = bookshelf.nodes@;
        let ghost ntv = bookshelf.nets@;
        let validator = match PinValidator::build(bookshelf) {
            Ok(v) => v,
            Err(e) => {
                return Err(e);
            },
        };
        let mut pins: Vec<DefPin> = Vec::new();
        let n = bookshelf.route.ni_terminal_to_layer.len();
        let mut i: usize = 0;
        while i < n
            invariant
                n == terms.len(),
                terms == bookshelf.route@.ni_terminal_to_layer,
                plv == bookshelf.pls@,
                ndv == bookshelf.nodes@,
                i <= n,
                pins@.len() == i,
                forall|k: int| 0 <= k < i ==> def_pin_base(terms, plv, ndv, k, pins_view(pins@)[k]),
                forall|k: int|
                    0 <= k < i ==> (#[trigger] pins_view(pins@)[k]).net is None && pins_view(
                        pins@,
                    )[k].direction is None,
                forall|k: int| 0 <= k < i ==> is_ni_pl(plv, (#[trigger] terms[k]).0),
                forall|k: int| 0 <= k < i ==> is_ni_node(ndv, (#[trigger] terms[k]).0),
            decreases n - i,
        {
            let entry = &bookshelf.route.ni_terminal_to_layer[i];
            let pl = match bookshelf.pls.get(entry.0.as_str()) {
                Some(p) => p,
                None => {
                    proof {
                        assert(!is_ni_pl(plv, terms[i as int].0));
                        assert(!pin_sets_agree(terms, plv, ndv));
                    }
                    return Err(BookshelfError::PinSetMismatch);
                },
            };
            let pl_is_ni = match pl.kind {
                Type::FixedNotInImage => true,
                _ => false,
            };
            if !pl_is_ni {
                proof {
                    assert(!is_ni_pl(plv, terms[i as int].0));
                    assert(!pin_sets_agree(terms, plv, ndv));
                }
                return Err(BookshelfError::PinSetMismatch);
            }
            let node = match bookshelf.nodes.get(entry.0.as_str()) {
                Some(nd) => nd,
                None => {
                    proof {
                        assert(!is_ni_node(ndv, terms[i as int].0));
                        assert(!pin_sets_agree(terms, plv, ndv));
                    }
                    return Err(BookshelfError::PinSetMismatch);
                },
            };
            let node_is_ni = match node.moveable {
                Movable::FixedButOverlapAllowed => true,
                _ => false,
            };
            if !node_is_ni {
                proof {
                    assert(!is_ni_node(ndv, terms[i as int].0));
                    assert(!pin_sets_agree(terms, plv, ndv));
                }
                return Err(BookshelfError::PinSetMismatch);
            }
            let ghost before = pins_view(pins@);
            let newpin = DefPin {
                name: entry.0.clone(),
                layer: metal_string(entry.1),
                orientation: pl.orientation.clone(),
                place: pl.place,
                shape: node.size,
                net: None,
                direction: None,
            };
            pins.push(newpin);
            proof {
                assert(pins_view(pins@) =~= before.push(pins_view(pins@).last()));
                assert(def_pin_base(terms, plv, ndv, i as int, pins_view(pins@)[i as int]));
            }
            i = i + 1;
        }
        // the placement file may not mark a terminal the routing grid does
        // not know
        let np = bookshelf.pls.len();
        let mut j: usize = 0;
        while j < np
            invariant
                np == plv.len(),
                plv == bookshelf.pls@,
                terms == bookshelf.route@.ni_terminal_to_layer,
                j <= np,
                forall|q: int|
                    0 <= q < j && (#[trigger] plv[q]).kind == Type::FixedNotInImage ==> has_term(
                        terms,
                        plv[q].name,
                    ),
            decreases np - j,
        {
            let pl = &bookshelf.pls.pls[j];
            let pl_is_ni = match pl.kind {
                Type::FixedNotInImage => true,
                _ => false,
            };
            if pl_is_ni {
                if !term_contains(&bookshelf.route.ni_terminal_to_layer, pl.name.as_str()) {
                    proof {
                        assert(crate::route::term_map_view(bookshelf.route.ni_terminal_to_layer@)
                            == terms);
                        assert(plv[j as int].kind == Type::FixedNotInImage);
                        assert(!has_term(terms, plv[j as int].name));
                        assert(!pin_sets_agree(terms, plv, ndv));
                    }
                    return Err(BookshelfError::PinSetMismatch);
                }
            }
            j = j + 1;
        }
        // nor may the nodes file
        let nn = bookshelf.nodes.len();
        let mut k: usize = 0;
        while k < nn
            invariant
                nn == ndv.len(),
                ndv == bookshelf.nodes@,
                terms == bookshelf.route@.ni_terminal_to_layer,
                k <= nn,
                forall|q: int|
                    0 <= q < k && (#[trigger] ndv[q]).moveable == Movable::FixedButOverlapAllowed
                        ==> has_term(terms, ndv[q].name),
            decreases nn - k,
        {
            let node = &bookshelf.nodes.nodes[k];
            let node_is_ni = match node.moveable {
                Movable::FixedButOverlapAllowed => true,
                _ => false,
            };
            if node_is_ni {
                if !term_contains(&bookshelf.route.ni_terminal_to_layer, node.name.as_str()) {
                    proof {
                        assert(crate::route::term_map_view(bookshelf.route.ni_terminal_to_layer@)
                            == terms);
                        assert(ndv[k as int].moveable == Movable::FixedButOverlapAllowed);
                        assert(!has_term(terms, ndv[k as int].name));
                        assert(!pin_sets_agree(terms, plv, ndv));
                    }
                    return Err(BookshelfError::PinSetMismatch);
                }
            }
            k = k + 1;
        }
        // scan the nets: each endpoint on a terminal names that pin's net
        // and direction
        let nets_n = bookshelf.nets.len();
        let mut i2: usize = 0;
        proof {
            assert(ntv.subrange(0, 0) =~= Seq::<NetV>::empty());
            assert forall|q: int| 0 <= q < terms.len() implies #[trigger] last_endpoint(
                ntv.subrange(0, 0),
                terms[q].0,
            ) is None by {}
        }
        while i2 < nets_n
            invariant
                nets_n == ntv.len(),
                ntv == bookshelf.nets@,
                terms == bookshelf.route@.ni_terminal_to_layer,
                plv == bookshelf.pls@,
                ndv == bookshelf.nodes@,
                route_terms_wf(bookshelf.route@),
                i2 <= nets_n,
                pins@.len() == terms.len(),
                forall|q: int|
                    0 <= q < terms.len() ==> def_pin_base(terms, plv, ndv, q, pins_view(pins@)[q]),
                forall|q: int|
                    0 <= q < terms.len() ==> match last_endpoint(
                        ntv.subrange(0, i2 as int),
                        (#[trigger] terms[q]).0,
                    ) {
                        None => pins_view(pins@)[q].net is None && pins_view(pins@)[q].direction
                            is None,
                        Some((nn2, pn)) => pins_view(pins@)[q].net == Some(nn2) && pins_view(
                            pins@,
                        )[q].direction == Some(dir_of(pn)),
                    },
                forall|a: int, b: int|
                    0 <= a < i2 && 0 <= b < ntv[a].pin.len() && has_term(
                        terms,
                        (#[trigger] ntv[a].pin[b]).instance_name,
                    ) ==> ntv[a].pin[b].pin_name == "I"@ || ntv[a].pin[b].pin_name == "O"@,
            decreases nets_n - i2,
        {
            let net = &bookshelf.nets.nets[i2];
            let m2 = net.pin.len();
            let mut j2: usize = 0;
            proof {
                assert(ntv[i2 as int].pin.subrange(0, 0) =~= Seq::<PinV>::empty());
            }
            while j2 < m2
                invariant
                    nets_n == ntv.len(),
                    ntv == bookshelf.nets@,
                    terms == bookshelf.route@.ni_terminal_to_layer,
                    plv == bookshelf.pls@,
                    ndv == bookshelf.nodes@,
                    route_terms_wf(bookshelf.route@),
                    i2 < nets_n,
                    net == bookshelf.nets.nets@[i2 as int],
                    m2 == ntv[i2 as int].pin.len(),
                    j2 <= m2,
                    pins@.len() == terms.len(),
                    forall|q: int|
                        0 <= q < terms.len() ==> def_pin_base(
                            terms,
                            plv,
                            ndv,
                            q,
                            pins_view(pins@)[q],
                        ),
                    forall|q: int|
                        0 <= q < terms.len() ==> match last_endpoint_upto(
                            ntv,
                            i2 as int,
                            j2 as int,
                            (#[trigger] terms[q]).0,
                        ) {
                            None => pins_view(pins@)[q].net is None && pins_view(
                                pins@,
                            )[q].direction is None,
                            Some((nn2, pn)) => pins_view(pins@)[q].net == Some(nn2) && pins_view(
                                pins@,
                            )[q].direction == Some(dir_of(pn)),
                        },
                    forall|a: int, b: int|
                        (0 <= a < i2 && 0 <= b < ntv[a].pin.len() || a == i2 && 0 <= b < j2)
                            && has_term(terms, (#[trigger] ntv[a].pin[b]).instance_name) ==> ntv[
                        a
                    ].pin[b].pin_name == "I"@ || ntv[a].pin[b].pin_name == "O"@,
                decreases m2 - j2,
            {
                let ghost pv = ntv[i2 as int].pin;
                proof {
                    assert(pv.subrange(0, j2 + 1).drop_last() =~= pv.subrange(0, j2 as int));
                    assert(pv.subrange(0, j2 + 1).last() == pv[j2 as int]);
                }
                let pin = &net.pin[j2];
                let idx_opt = pins_find(&pins, pin.instance_name.as_str(), Ghost(terms));
                match idx_opt {
                    None => {
                        proof {
                            assert(!has_term(terms, pv[j2 as int].instance_name));
                            assert forall|q: int|
                                0 <= q < terms.len() implies #[trigger] last_endpoint_upto(
                                ntv,
                                i2 as int,
                                j2 + 1,
                                terms[q].0,
                            ) == last_endpoint_upto(ntv, i2 as int, j2 as int, terms[q].0) by {
                                lemma_term_index_of_props(terms, terms[q].0);
                                assert(terms[q].0 != pv[j2 as int].instance_name);
                            }
                        }
                    },
                    Some(idx) => {
                        proof {
                            assert(has_term(terms, pv[j2 as int].instance_name));
                        }
                        let is_input = str_eq(pin.pin_name.as_str(), "I");
                        let is_output = str_eq(pin.pin_name.as_str(), "O");
                        if !is_input && !is_output {
                            proof {
                                assert(!directions_ok(terms, ntv));
                            }
                            return Err(BookshelfError::BadPinDirection);
                        }
                        let dir = if is_input {
                            "INPUT"
                        } else {
                            "OUTPUT"
                        };
                        let ghost before = pins_view(pins@);
                        let old_pin = &pins[idx];
                        let updated = DefPin {
                            name: old_pin.name.clone(),
                            layer: old_pin.layer.clone(),
                            orientation: old_pin.orientation.clone(),
                            place: old_pin.place,
                            shape: old_pin.shape,
                            net: Some(net.name.clone()),
                            direction: Some(String::from_str(dir)),
                        };
                        pins.set(idx, updated);
                        proof {
                            reveal_strlit("INPUT");
                            reveal_strlit("OUTPUT");
                            assert(pins_view(pins@) =~= before.update(
                                idx as int,
                                pins_view(pins@)[idx as int],
                            ));
                            assert(pins_view(pins@)[idx as int].net == Some(
                                ntv[i2 as int].name,
                            ));
                            assert(pins_view(pins@)[idx as int].direction == Some(
                                dir_of(pv[j2 as int].pin_name),
                            ));
                            assert forall|q: int|
                                0 <= q < terms.len() implies (match last_endpoint_upto(
                                ntv,
                                i2 as int,
                                j2 + 1,
                                (#[trigger] terms[q]).0,
                            ) {
                                None => pins_view(pins@)[q].net is None && pins_view(
                                    pins@,
                                )[q].direction is None,
                                Some((nn2, pn)) => pins_view(pins@)[q].net == Some(nn2)
                                    && pins_view(pins@)[q].direction == Some(dir_of(pn)),
                            }) by {
                                if q == idx {
                                } else {
                                    assert(terms[q].0 != terms[idx as int].0);
                                    assert(terms[q].0 != pv[j2 as int].instance_name);
                                    assert(pins_view(pins@)[q] == before[q]);
                                }
                            }
                        }
                    },
                }
                j2 = j2 + 1;
            }
            proof {
                assert(ntv.subrange(0, i2 + 1).drop_last() =~= ntv.subrange(0, i2 as int));
                assert(ntv.subrange(0, i2 + 1).last() == ntv[i2 as int]);
                assert(ntv[i2 as int].pin.subrange(0, m2 as int) =~= ntv[i2 as int].pin);
                assert forall|q: int|
                    0 <= q < terms.len() implies #[trigger] last_endpoint(
                    ntv.subrange(0, i2 + 1),
                    terms[q].0,
                ) == last_endpoint_upto(ntv, i2 as int, m2 as int, terms[q].0) by {}
            }
            i2 = i2 + 1;
        }
        proof {
            assert(ntv.subrange(0, nets_n as int) =~= ntv);
            assert(pin_counts_ok(terms, ntv));
            assert(pin_sets_agree(terms, plv, ndv));
            assert(directions_ok(terms, ntv));
        }
        Ok(DefPins(pins))
    }
}

/// Whether the terminal map has an entry called `name`.
fn term_contains(terms: &Vec<(String, i64)>, name: &str) -> (r: bool)
    ensures
        r == has_term(crate::route::term_map_view(terms@), name@),
{
    let ghost tv = crate::route::term_map_view(terms@);
    let n = terms.len();
    let mut i: usize = 0;
    while i < n
        invariant
            n == tv.len(),
            tv == crate::route::term_map_view(terms@),
            i <= n,
            forall|k: int| 0 <= k < i ==> (#[trigger] tv[k]).0 != name@,
        decreases n - i,
    {
        if str_eq(terms[i].0.as_str(), name) {
            proof {
                lemma_term_index_found(tv, name@, i as int);
            }
            return true;
        }
        i = i + 1;
    }
    proof {
        lemma_term_index_found(tv, name@, n as int);
    }
    false
}

/// Finds the pin whose name is `name`, which by construction is the index
/// of that name in the terminal map.
fn pins_find(pins: &Vec<DefPin>, name: &str, Ghost(terms): Ghost<Seq<(Seq<char>, int)>>) -> (r:
    Option<usize>)
    requires
        pins_view(pins@).len() == terms.len(),
        forall|k: int| 0 <= k < terms.len() ==> (#[trigger] pins_view(pins@)[k]).name
            == terms[k].0,
    ensures
        match r {
            Some(idx) => idx < terms.len() && term_index_of(terms, name@) == idx && terms[
                idx as int
            ].0 == name@ && has_term(terms, name@),
            None => !has_term(terms, name@),
        },
{
    let n = pins.len();
    let mut i: usize = 0;
    while i < n
        invariant
            n == terms.len(),
            pins_view(pins@).len() == terms.len(),
            forall|k: int| 0 <= k < terms.len() ==> (#[trigger] pins_view(pins@)[k]).name
                == terms[k].0,
            i <= n,
            forall|k: int| 0 <= k < i ==> (#[trigger] terms[k]).0 != name@,
        decreases n - i,
    {
        if str_eq(pins[i].name.as_str(), name) {
            proof {
                assert(pins_view(pins@)[i as int].name == name@);
                lemma_term_index_found(terms, name@, i as int);
            }
            return Some(i);
        }
        proof {
            assert(pins_view(pins@)[i as int].name == terms[i as int].0);
        }
        i = i + 1;
    }
    proof {
        lemma_term_index_found(terms, name@, n as int);
    }
    None
}



/// Whether a pin's scaled coordinates fit the machine integers.
pub open spec fn def_pin_emit_in_range(p: DefPinV) -> bool {
    &&& crate::geom::in_i64(p.shape.x * 1000)
    &&& crate::geom::in_i64(p.shape.y * 1000)
    &&& crate::geom::in_i64(p.place.x * 1000)
    &&& crate::geom::in_i64(p.place.y * 1000)
}

/// Whether every synthesized pin can be emitted.
pub open spec fn def_pins_emit_in_range(ps: Seq<DefPinV>) -> bool {
    forall|i: int| 0 <= i < ps.len() ==> def_pin_emit_in_range(#[trigger] ps[i])
}

/// The same condition over the model: every terminal's placement and port
/// shape still fit the machine integers once scaled.
pub open spec fn pins_scaled_ok(
    terms: Seq<(Seq<char>, int)>,
    pls: Seq<PlV>,
    nodes: Seq<NodeV>,
) -> bool {
    forall|i: int|
        0 <= i < terms.len() ==> {
            &&& crate::geom::in_i64(
                pls[pl_index_of(pls, (#[trigger] terms[i]).0)].place.x * 1000,
            )
            &&& crate::geom::in_i64(pls[pl_index_of(pls, terms[i].0)].place.y * 1000)
            &&& crate::geom::in_i64(nodes[node_index_of(nodes, terms[i].0)].size.x * 1000)
            &&& crate::geom::in_i64(nodes[node_index_of(nodes, terms[i].0)].size.y * 1000)
        }
}

/// On pins that match the model, the emission bound and its model-level
/// phrasing coincide.
pub proof fn lemma_pins_scaled_transfer(
    terms: Seq<(Seq<char>, int)>,
    pls: Seq<PlV>,
    nodes: Seq<NodeV>,
    nets: Seq<NetV>,
    ps: Seq<DefPinV>,
)
    requires
        ps.len() == terms.len(),
        forall|i: int| 0 <= i < ps.len() ==> def_pin_matches(
            terms,
            pls,
            nodes,
            nets,
            i,
            #[trigger] ps[i],
        ),
    ensures
        def_pins_emit_in_range(ps) <==> pins_scaled_ok(terms, pls, nodes),
{
    if def_pins_emit_in_range(ps) {
        assert forall|i: int|
            0 <= i < terms.len() implies {
            &&& crate::geom::in_i64(
                pls[pl_index_of(pls, (#[trigger] terms[i]).0)].place.x * 1000,
            )
            &&& crate::geom::in_i64(pls[pl_index_of(pls, terms[i].0)].place.y * 1000)
            &&& crate::geom::in_i64(nodes[node_index_of(nodes, terms[i].0)].size.x * 1000)
            &&& crate::geom::in_i64(nodes[node_index_of(nodes, terms[i].0)].size.y * 1000)
        } by {
            assert(def_pin_matches(terms, pls, nodes, nets, i, ps[i]));
            assert(def_pin_emit_in_range(ps[i]));
        }
    }
    if pins_scaled_ok(terms, pls, nodes) {
        assert forall|i: int| 0 <= i < ps.len() implies def_pin_emit_in_range(
            #[trigger] ps[i],
        ) by {
            assert(def_pin_matches(terms, pls, nodes, nets, i, ps[i]));
            assert(crate::geom::in_i64(
                pls[pl_index_of(pls, terms[i].0)].place.x * 1000,
            ));
        }
    }
}

/// The geometry tail both record shapes share: the port layer and shape,
/// and the fixed location, scaled to database microns.
pub open spec fn def_pin_geom_text(p: DefPinV, indent: Seq<char>) -> Seq<char> {
    "\n"@ + indent + "+ LAYER "@ + p.layer + " ( 0 0 ) ( "@ + crate::numfmt::dec_int(
        p.shape.x * 1000,
    ) + " "@ + crate::numfmt::dec_int(p.shape.y * 1000) + " )"@ + "\n"@ + indent + "+ FIXED ( "@
        + crate::numfmt::dec_int(p.place.x * 1000) + " "@ + crate::numfmt::dec_int(
        p.place.y * 1000,
    ) + " ) N ;"@
}

/// The text of one DEF pin record: the full shape when a net and direction
/// are known, the reduced one otherwise.
pub open spec fn def_pin_text(p: DefPinV) -> Seq<char> {
    if p.net is Some && p.direction is Some {
        "\n- "@ + p.name + "\n    + NET "@ + p.net->Some_0 + "\n    + DIRECTION "@
            + p.direction->Some_0 + "\n    + USE SIGNAL"@ + "\n    + PORT"@ + def_pin_geom_text(
            p,
            "        "@,
        )
    } else {
        "\n - "@ + p.name + "\n + USE SIGNAL"@ + "\n + PORT"@ + def_pin_geom_text(p, "   "@)
    }
}

/// The concatenated pin records.
pub open spec fn def_pins_list_text(ps: Seq<DefPinV>) -> Seq<char>
    decreases ps.len(),
{
    if ps.len() == 0 {
        Seq::empty()
    } else {
        def_pins_list_text(ps.drop_last()) + def_pin_text(ps.last())
    }
}

/// The whole DEF `PINS` section.
pub open spec fn def_pins_section_text(ps: Seq<DefPinV>) -> Seq<char> {
    "\nPINS "@ + crate::numfmt::dec_nat(ps.len() as nat) + def_pins_list_text(ps)
        + "\nEND PINS"@
}

impl DefPin {
    /// The text of this pin's DEF record.
    fn write_to_string(&self) -> (r: String)
        requires
            def_pin_emit_in_range(self@),
        ensures
            r@ == def_pin_text(self@),
    {
        proof {
            reveal_strlit("\n- ");
            reveal_strlit("\n - ");
            reveal_strlit("\n    + NET ");
            reveal_strlit("\n    + DIRECTION ");
            reveal_strlit("\n    + USE SIGNAL");
            reveal_strlit("\n + USE SIGNAL");
            reveal_strlit("\n    + PORT");
            reveal_strlit("\n + PORT");
            reveal_strlit("\n");
            reveal_strlit("        ");
            reveal_strlit("   ");
            reveal_strlit("+ LAYER ");
            reveal_strlit(" ( 0 0 ) ( ");
            reveal_strlit(" ");
            reveal_strlit(" )");
            reveal_strlit("+ FIXED ( ");
            reveal_strlit(" ) N ;");
        }
        let mut out = String::new();
        let full = match (&self.net, &self.direction) {
            (Some(_), Some(_)) => true,
            _ => false,
        };
        if full {
            out.append("\n- ");
            out.append(self.name.as_str());
            out.append("\n    + NET ");
            match &self.net {
                Some(netname) => out.append(netname.as_str()),
                None => {},
            }
            out.append("\n    + DIRECTION ");
            match &self.direction {
                Some(d) => out.append(d.as_str()),
                None => {},
            }
            out.append("\n    + USE SIGNAL");
            out.append("\n    + PORT");
        } else {
            out.append("\n - ");
            out.append(self.name.as_str());
            out.append("\n + USE SIGNAL");
            out.append("\n + PORT");
        }
        let indent = if full {
            "        "
        } else {
            "   "
        };
        out.append("\n");
        out.append(indent);
        out.append("+ LAYER ");
        out.append(self.layer.as_str());
        out.append(" ( 0 0 ) ( ");
        crate::numfmt::push_dec_i64(self.shape.x * 1000, &mut out);
        out.append(" ");
        crate::numfmt::push_dec_i64(self.shape.y * 1000, &mut out);
        out.append(" )");
        out.append("\n");
        out.append(indent);
        out.append("+ FIXED ( ");
        crate::numfmt::push_dec_i64(self.place.x * 1000, &mut out);
        out.append(" ");
        crate::numfmt::push_dec_i64(self.place.y * 1000, &mut out);
        out.append(" ) N ;");
        proof {
            assert(out@ =~= def_pin_text(self@));
        }
        out
    }
}

impl DefPins {
    /// Whether every pin can be emitted.
    pub fn check_emit_range(&self) -> (r: bool)
        ensures
            r == def_pins_emit_in_range(self@),
    {
        let n = self.0.len();
        let mut i: usize = 0;
        while i < n
            invariant
                n == self@.len(),
                i <= n,
                forall|q: int| 0 <= q < i ==> def_pin_emit_in_range(#[trigger] self@[q]),
            decreases n - i,
        {
            let p = &self.0[i];
            if p.shape.x.checked_mul(1000).is_none() || p.shape.y.checked_mul(1000).is_none()
                || p.place.x.checked_mul(1000).is_none() || p.place.y.checked_mul(
                1000,
            ).is_none() {
                proof {
                    if def_pins_emit_in_range(self@) {
                        assert(def_pin_emit_in_range(self@[i as int]));
                    }
                    assert(!def_pins_emit_in_range(self@));
                }
                return false;
            }
            i = i + 1;
        }
        true
    }

    /// The whole DEF `PINS` section.
    pub fn write(&self) -> (r: String)
        requires
            def_pins_emit_in_range(self@),
        ensures
            r@ == def_pins_section_text(self@),
    {
        proof {
            reveal_strlit("\nPINS ");
            reveal_strlit("\nEND PINS");
        }
        let mut out = String::new();
        out.append("\nPINS ");
        crate::numfmt::push_dec_u64(self.0.len() as u64, &mut out);
        let n = self.0.len();
        let mut i: usize = 0;
        proof {
            assert(out@ =~= "\nPINS "@ + crate::numfmt::dec_nat(self@.len() as nat)
                + def_pins_list_text(self@.subrange(0, 0)));
        }
        while i < n
            invariant
                def_pins_emit_in_range(self@),
                n == self@.len(),
                i <= n,
                out@ == "\nPINS "@ + crate::numfmt::dec_nat(self@.len() as nat)
                    + def_pins_list_text(self@.subrange(0, i as int)),
            decreases n - i,
        {
            proof {
                assert(self@[i as int] == self.0@[i as int]@);
            }
            let piece = self.0[i].write_to_string();
            out.append(piece.as_str());
            proof {
                assert(self@.subrange(0, i + 1).drop_last() =~= self@.subrange(0, i as int));
                assert(self@.subrange(0, i + 1).last() == self@[i as int]);
            }
            i = i + 1;
        }
        out.append("\nEND PINS");
        proof {
            assert(self@.subrange(0, n as int) =~= self@);
            assert(out@ =~= def_pins_section_text(self@));
        }
        out
    }
}


} // verus!
