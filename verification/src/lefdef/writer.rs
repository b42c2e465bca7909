//! Macro synthesis and the LEF layer text. Every node becomes one macro of
//! its own size; every net endpoint becomes one synthesized macro pin with
//! an ordinal name and a direction read from its label, and is classified
//! at the same time as a chip-level or instance-level endpoint for the DEF
//! net section. Bookshelf gives a macro no more than this, so the class,
//! symmetry, site and port geometry are fixed defaults.

use vstd::prelude::*;
use vstd::string::{StringExecFns, StrSliceExecFns};
use crate::error::BookshelfError;
use crate::geom::{Point, PointV, in_i64};
use crate::lefdef::net::{Node, NetNodeV, net_nodes_view};
use crate::lefdef::pin::{count_upto, count_endpoints, count_in_pins, is_ni_node, lemma_count_prefix_bound};
use crate::nets::{NetV, PinV};
use crate::nodes::{NodeV, has_node, node_index_of};
use crate::numfmt::{dec_int, dec_half, push_dec_i64, push_dec_half, push_dec_u64};
use crate::parser::Bookshelf;
use crate::strutil::str_eq;

verus! {

/// One synthesized macro pin. Bookshelf pins have no size; the port is a
/// unit square around the offset, on the first metal layer.
pub struct Pin {
    pub name: String,
    pub offset: Point,
    pub direction: String,
}

/// The mathematical value of a synthesized macro pin.
pub struct MacPinV {
    pub name: Seq<char>,
    pub offset: PointV,
    pub direction: Seq<char>,
}

impl View for Pin {
    type V = MacPinV;

    open spec fn view(&self) -> MacPinV {
        MacPinV { name: self.name@, offset: self.offset@, direction: self.direction@ }
    }
}

/// One synthesized macro: a node's name and size, and its pins.
pub struct Macro {
    pub name: String,
    pub size: Point,
    pub pins: Vec<Pin>,
}

/// The mathematical value of a synthesized macro.
pub struct MacroV {
    pub name: Seq<char>,
    pub size: PointV,
    pub pins: Seq<MacPinV>,
}

/// The mathematical values of a pin vector.
pub open spec fn mac_pins_view(v: Seq<Pin>) -> Seq<MacPinV> {
    v.map_values(|p: Pin| p@)
}

impl View for Macro {
    type V = MacroV;

    open spec fn view(&self) -> MacroV {
        MacroV { name: self.name@, size: self.size@, pins: mac_pins_view(self.pins@) }
    }
}

/// The synthesized pin name: the endpoint's label and the pin's ordinal on
/// its macro.
pub open spec fn pin_label(pn: Seq<char>, ord: int) -> Seq<char> {
    pn + "_"@ + dec_int(ord)
}

/// The direction a pin label denotes.
pub open spec fn pin_direction(pn: Seq<char>) -> Seq<char> {
    if pn == "I"@ {
        "INPUT"@
    } else {
        "OUTPUT"@
    }
}

/// The pins synthesized for `name` from the first `i` nets plus the first
/// `j` endpoints of net `i`, in endpoint order, each named with its ordinal.
pub open spec fn mac_pins_upto(nets: Seq<NetV>, i: int, j: int, name: Seq<char>) -> Seq<MacPinV>
    decreases i, j,
{
    if i <= 0 && j <= 0 {
        Seq::empty()
    } else if j <= 0 {
        mac_pins_upto(nets, i - 1, nets[i - 1].pin.len() as int, name)
    } else {
        let prev = mac_pins_upto(nets, i, j - 1, name);
        let p = nets[i].pin[j - 1];
        if p.instance_name == name {
            prev.push(
                MacPinV {
                    name: pin_label(p.pin_name, prev.len() as int),
                    offset: p.offset,
                    direction: pin_direction(p.pin_name),
                },
            )
        } else {
            prev
        }
    }
}

/// All pins synthesized for `name`.
pub open spec fn mac_pins(nets: Seq<NetV>, name: Seq<char>) -> Seq<MacPinV> {
    mac_pins_upto(nets, nets.len() as int, 0, name)
}

/// The classification of endpoint `j` of net `i` for the DEF net section:
/// a chip pin if the instance is a not-in-image terminal, an instance pin
/// named with its ordinal otherwise.
pub open spec fn net_node_of(nodes: Seq<NodeV>, nets: Seq<NetV>, i: int, j: int) -> NetNodeV {
    let p = nets[i].pin[j];
    if is_ni_node(nodes, p.instance_name) {
        NetNodeV::Pin(p.instance_name)
    } else {
        NetNodeV::InstancePin(
            p.instance_name,
            pin_label(p.pin_name, mac_pins_upto(nets, i, j, p.instance_name).len() as int),
        )
    }
}

/// The classified endpoints of net `i`.
pub open spec fn net_nodes_of(nodes: Seq<NodeV>, nets: Seq<NetV>, i: int, j: int) -> Seq<NetNodeV>
    decreases j,
{
    if j <= 0 {
        Seq::empty()
    } else {
        net_nodes_of(nodes, nets, i, j - 1).push(net_node_of(nodes, nets, i, j - 1))
    }
}

/// Every net endpoint names a declared node and carries a readable
/// direction label.
pub open spec fn macros_ok(nodes: Seq<NodeV>, nets: Seq<NetV>) -> bool {
    forall|i: int, j: int|
        0 <= i < nets.len() && 0 <= j < nets[i].pin.len() ==> has_node(
            nodes,
            (#[trigger] nets[i].pin[j]).instance_name,
        ) && (nets[i].pin[j].pin_name == "I"@ || nets[i].pin[j].pin_name == "O"@)
}

/// The synthesized macros, one per node in node order, and the per-net
/// endpoint classification for the DEF net section.
pub struct Macros {
    pub macros: Vec<Macro>,
    pub net_to_nodes: Vec<(String, Vec<Node>)>,
}

/// The mathematical values of a macro vector.
pub open spec fn macros_view(v: Seq<Macro>) -> Seq<MacroV> {
    v.map_values(|m: Macro| m@)
}

impl Macros {
    /// Synthesizes one macro per node and one classified endpoint list per
    /// net. Fails when a net endpoint names an undeclared instance or
    /// carries a label that is neither `I` nor `O`.
    pub fn build_macro(bookshelf: &Bookshelf) -> (r: Result<Macros, BookshelfError>)
        requires
            bookshelf.nodes.wf(),
        ensures
            match r {
                Ok(m) => {
                    &&& macros_ok(bookshelf.nodes@, bookshelf.nets@)
                    &&& macros_view(m.macros@).len() == bookshelf.nodes@.len()
                    &&& forall|k: int|
                        0 <= k < bookshelf.nodes@.len() ==> {
                            &&& (#[trigger] macros_view(m.macros@)[k]).name
                                == bookshelf.nodes@[k].name
                            &&& macros_view(m.macros@)[k].size == bookshelf.nodes@[k].size
                            &&& macros_view(m.macros@)[k].pins == mac_pins(
                                bookshelf.nets@,
                                bookshelf.nodes@[k].name,
                            )
                        }
                    &&& m.net_to_nodes@.len() == bookshelf.nets@.len()
                    &&& forall|i: int|
                        0 <= i < bookshelf.nets@.len() ==> (#[trigger] m.net_to_nodes@[i]).0@
                            == bookshelf.nets@[i].name && net_nodes_view(m.net_to_nodes@[i].1@)
                            == net_nodes_of(
                            bookshelf.nodes@,
                            bookshelf.nets@,
                            i,
                            bookshelf.nets@[i].pin.len() as int,
                        )
                },
                Err(e) => {
                    &&& !macros_ok(bookshelf.nodes@, bookshelf.nets@)
                    &&& (e == BookshelfError::UnknownInstance || e
                        == BookshelfError::BadPinDirection)
                },
            },
    {
        let ghost ndv = bookshelf.nodes@;
        let ghost ntv = bookshelf.nets@;
        let nodes_n = bookshelf.nodes.len();
        let nets_n = bookshelf.nets.len();
        // every endpoint must name a declared node and a readable direction
        let mut i: usize = 0;
        while i < nets_n
            invariant
                nets_n == ntv.len(),
                ntv == bookshelf.nets@,
                ndv == bookshelf.nodes@,
                i <= nets_n,
                forall|a: int, b: int|
                    0 <= a < i && 0 <= b < ntv[a].pin.len() ==> has_node(
                        ndv,
                        (#[trigger] ntv[a].pin[b]).instance_name,
                    ) && (ntv[a].pin[b].pin_name == "I"@ || ntv[a].pin[b].pin_name == "O"@),
            decreases nets_n - i,
        {
            let net = &bookshelf.nets.nets[i];
            let m = net.pin.len();
            let mut j: usize = 0;
            while j < m
                invariant
                    nets_n == ntv.len(),
                    ntv == bookshelf.nets@,
                    ndv == bookshelf.nodes@,
                    i < nets_n,
                    net == bookshelf.nets.nets@[i as int],
                    m == ntv[i as int].pin.len(),
                    j <= m,
                    forall|a: int, b: int|
                        (0 <= a < i && 0 <= b < ntv[a].pin.len() || a == i && 0 <= b < j)
                            ==> has_node(ndv, (#[trigger] ntv[a].pin[b]).instance_name) && (ntv[
                        a
                    ].pin[b].pin_name == "I"@ || ntv[a].pin[b].pin_name == "O"@),
                decreases m - j,
            {
                let pin = &net.pin[j];
                match bookshelf.nodes.get(pin.instance_name.as_str()) {
                    Some(_) => {},
                    None => {
                        proof {
                            assert(!has_node(ndv, ntv[i as int].pin[j as int].instance_name));
                            assert(!macros_ok(ndv, ntv));
                        }
                        return Err(BookshelfError::UnknownInstance);
                    },
                }
                if !str_eq(pin.pin_name.as_str(), "I") && !str_eq(pin.pin_name.as_str(), "O") {
                    proof {
                        assert(ntv[i as int].pin[j as int].pin_name != "I"@);
                        if macros_ok(ndv, ntv) {
                            assert(has_node(
                                ndv,
                                ntv[i as int].pin[j as int].instance_name,
                            ) && (ntv[i as int].pin[j as int].pin_name == "I"@ || ntv[
                                i as int
                            ].pin[j as int].pin_name == "O"@));
                        }
                        assert(!macros_ok(ndv, ntv));
                    }
                    return Err(BookshelfError::BadPinDirection);
                }
                j = j + 1;
            }
            i = i + 1;
        }
        // one macro per node, its pins gathered in endpoint order
        let mut macros: Vec<Macro> = Vec::new();
        let mut k: usize = 0;
        while k < nodes_n
            invariant
                nodes_n == ndv.len(),
                ndv == bookshelf.nodes@,
                ntv == bookshelf.nets@,
                macros_ok(ndv, ntv),
                k <= nodes_n,
                macros_view(macros@).len() == k,
                forall|q: int|
                    0 <= q < k ==> {
                        &&& (#[trigger] macros_view(macros@)[q]).name == ndv[q].name
                        &&& macros_view(macros@)[q].size == ndv[q].size
                        &&& macros_view(macros@)[q].pins == mac_pins(ntv, ndv[q].name)
                    },
            decreases nodes_n - k,
        {
            let node = &bookshelf.nodes.nodes[k];
            let pins = gather_pins(&bookshelf.nets, node.name.as_str(), Ghost(ndv));
            let ghost before = macros_view(macros@);
            macros.push(Macro { name: node.name.clone(), size: node.size, pins });
            proof {
                assert(macros_view(macros@) =~= before.push(macros_view(macros@).last()));
            }
            k = k + 1;
        }
        // reading each macro's pin count bounds every instance's endpoint
        // count by the machine word
        let mut k2: usize = 0;
        while k2 < nodes_n
            invariant
                nodes_n == ndv.len(),
                ndv == bookshelf.nodes@,
                ntv == bookshelf.nets@,
                k2 <= nodes_n,
                macros_view(macros@).len() == nodes_n,
                forall|q: int|
                    0 <= q < nodes_n ==> (#[trigger] macros_view(macros@)[q]).pins == mac_pins(
                        ntv,
                        ndv[q].name,
                    ),
                forall|q: int|
                    0 <= q < k2 ==> count_endpoints(ntv, (#[trigger] ndv[q]).name)
                        <= usize::MAX,
            decreases nodes_n - k2,
        {
            let l = macros[k2].pins.len();
            proof {
                lemma_mac_pins_len(ntv, ntv.len() as int, 0, ndv[k2 as int].name);
                assert(macros_view(macros@)[k2 as int].pins == mac_pins(
                    ntv,
                    ndv[k2 as int].name,
                ));
                assert(mac_pins(ntv, ndv[k2 as int].name).len() == l);
            }
            k2 = k2 + 1;
        }
        // the per-net endpoint classification for the DEF net section
        let mut net_to_nodes: Vec<(String, Vec<Node>)> = Vec::new();
        let mut i2: usize = 0;
        while i2 < nets_n
            invariant
                nets_n == ntv.len(),
                ntv == bookshelf.nets@,
                ndv == bookshelf.nodes@,
                macros_ok(ndv, ntv),
                forall|q: int|
                    0 <= q < ndv.len() ==> count_endpoints(ntv, (#[trigger] ndv[q]).name)
                        <= usize::MAX,
                bookshelf.nodes.wf(),
                i2 <= nets_n,
                net_to_nodes@.len() == i2,
                forall|q: int|
                    0 <= q < i2 ==> (#[trigger] net_to_nodes@[q]).0@ == ntv[q].name
                        && net_nodes_view(net_to_nodes@[q].1@) == net_nodes_of(
                        ndv,
                        ntv,
                        q,
                        ntv[q].pin.len() as int,
                    ),
            decreases nets_n - i2,
        {
            let net = &bookshelf.nets.nets[i2];
            let nodes_list = classify_net(bookshelf, i2, Ghost(ndv), Ghost(ntv));
            net_to_nodes.push((net.name.clone(), nodes_list));
            i2 = i2 + 1;
        }
        Ok(Macros { macros, net_to_nodes })
    }
}

/// The synthesized pin list never grows faster than the endpoint count.
pub proof fn lemma_mac_pins_len(nets: Seq<NetV>, i: int, j: int, name: Seq<char>)
    requires
        0 <= i <= nets.len(),
        i < nets.len() ==> 0 <= j <= nets[i].pin.len(),
        i == nets.len() ==> j == 0,
    ensures
        mac_pins_upto(nets, i, j, name).len() == if i < nets.len() {
            count_upto(nets, i, j, name)
        } else {
            count_endpoints(nets, name)
        },
    decreases i, j,
{
    if i <= 0 && j <= 0 {
        assert(nets.subrange(0, 0) =~= Seq::<NetV>::empty());
        if i < nets.len() {
            assert(nets[0].pin.subrange(0, 0) =~= Seq::<PinV>::empty());
        }
    } else if j <= 0 {
        lemma_mac_pins_len(nets, i - 1, nets[i - 1].pin.len() as int, name);
        assert(nets.subrange(0, i).drop_last() =~= nets.subrange(0, i - 1));
        assert(nets.subrange(0, i).last() == nets[i - 1]);
        assert(nets[i - 1].pin.subrange(0, nets[i - 1].pin.len() as int) =~= nets[i - 1].pin);
        if i < nets.len() {
            assert(nets[i].pin.subrange(0, 0) =~= Seq::<PinV>::empty());
        } else {
            assert(nets.subrange(0, i) =~= nets);
        }
    } else {
        lemma_mac_pins_len(nets, i, j - 1, name);
        assert(nets[i].pin.subrange(0, j).drop_last() =~= nets[i].pin.subrange(0, j - 1));
        assert(nets[i].pin.subrange(0, j).last() == nets[i].pin[j - 1]);
    }
}

/// Gathers the pins synthesized for one macro, walking every net endpoint
/// in order.
fn gather_pins(nets: &crate::nets::Nets, name: &str, Ghost(ndv): Ghost<Seq<NodeV>>) -> (r: Vec<
    Pin,
>)
    ensures
        mac_pins_view(r@) == mac_pins(nets@, name@),
{
    let ghost ntv = nets@;
    let mut pins: Vec<Pin> = Vec::new();
    let nets_n = nets.nets.len();
    let mut i: usize = 0;
    proof {
        assert(mac_pins_view(pins@) =~= mac_pins_upto(ntv, 0, 0, name@));
    }
    while i < nets_n
        invariant
            nets_n == ntv.len(),
            ntv == nets@,
            i <= nets_n,
            mac_pins_view(pins@) == mac_pins_upto(ntv, i as int, 0, name@),
        decreases nets_n - i,
    {
        let net = &nets.nets[i];
        let m = net.pin.len();
        let mut j: usize = 0;
        while j < m
            invariant
                nets_n == ntv.len(),
                ntv == nets@,
                i < nets_n,
                net == nets.nets@[i as int],
                m == ntv[i as int].pin.len(),
                j <= m,
                mac_pins_view(pins@) == mac_pins_upto(ntv, i as int, j as int, name@),
            decreases m - j,
        {
            let pin = &net.pin[j];
            if str_eq(pin.instance_name.as_str(), name) {
                let label = make_label(pin.pin_name.as_str(), pins.len());
                let dir = if str_eq(pin.pin_name.as_str(), "I") {
                    "INPUT"
                } else {
                    "OUTPUT"
                };
                let ghost before = mac_pins_view(pins@);
                pins.push(
                    Pin {
                        name: label,
                        offset: pin.offset,
                        direction: String::from_str(dir),
                    },
                );
                proof {
                    reveal_strlit("INPUT");
                    reveal_strlit("OUTPUT");
                    assert(mac_pins_view(pins@) =~= before.push(mac_pins_view(pins@).last()));
                    assert(mac_pins_view(pins@).last().direction == pin_direction(
                        ntv[i as int].pin[j as int].pin_name,
                    ));
                    assert(mac_pins_view(pins@) =~= mac_pins_upto(
                        ntv,
                        i as int,
                        j + 1,
                        name@,
                    ));
                }
            } else {
                proof {
                    assert(mac_pins_view(pins@) =~= mac_pins_upto(ntv, i as int, j + 1, name@));
                }
            }
            j = j + 1;
        }
        proof {
            assert(mac_pins_upto(ntv, i + 1, 0, name@) == mac_pins_upto(
                ntv,
                i as int,
                ntv[i as int].pin.len() as int,
                name@,
            ));
        }
        i = i + 1;
    }
    pins
}

/// The label of one synthesized pin: the endpoint's label, an underscore,
/// and the ordinal.
fn make_label(pn: &str, ord: usize) -> (r: String)
    ensures
        r@ == pin_label(pn@, ord as int),
{
    proof {
        reveal_strlit("_");
    }
    let mut out = String::from_str(pn);
    out.append("_");
    push_dec_u64(ord as u64, &mut out);
    proof {
        assert(out@ =~= pin_label(pn@, ord as int));
    }
    out
}

/// Classifies every endpoint of net `i` for the DEF net section.
fn classify_net(
    bookshelf: &Bookshelf,
    i: usize,
    Ghost(ndv): Ghost<Seq<NodeV>>,
    Ghost(ntv): Ghost<Seq<NetV>>,
) -> (r: Vec<Node>)
    requires
        ndv == bookshelf.nodes@,
        ntv == bookshelf.nets@,
        bookshelf.nodes.wf(),
        i < ntv.len(),
        macros_ok(ndv, ntv),
        forall|k: int|
            0 <= k < ndv.len() ==> count_endpoints(ntv, (#[trigger] ndv[k]).name)
                <= usize::MAX,
    ensures
        net_nodes_view(r@) == net_nodes_of(ndv, ntv, i as int, ntv[i as int].pin.len() as int),
{
    let net = &bookshelf.nets.nets[i];
    let m = net.pin.len();
    let mut out: Vec<Node> = Vec::new();
    let mut j: usize = 0;
    proof {
        assert(net_nodes_view(out@) =~= net_nodes_of(ndv, ntv, i as int, 0));
    }
    while j < m
        invariant
            ndv == bookshelf.nodes@,
            ntv == bookshelf.nets@,
            bookshelf.nodes.wf(),
            i < ntv.len(),
            macros_ok(ndv, ntv),
            forall|k: int|
                0 <= k < ndv.len() ==> count_endpoints(ntv, (#[trigger] ndv[k]).name)
                    <= usize::MAX,
            net == bookshelf.nets.nets@[i as int],
            m == ntv[i as int].pin.len(),
            j <= m,
            net_nodes_view(out@) == net_nodes_of(ndv, ntv, i as int, j as int),
        decreases m - j,
    {
        let pin = &net.pin[j];
        proof {
            assert(has_node(ndv, ntv[i as int].pin[j as int].instance_name));
            crate::nodes::lemma_node_index_of_props(ndv, ntv[i as int].pin[j as int].instance_name);
        }
        let is_ni = bookshelf.nodes.is_terminal_ni(pin.instance_name.as_str());
        let node = if is_ni {
            Node::Pin(pin.instance_name.clone())
        } else {
            proof {
                let nm = ntv[i as int].pin[j as int].instance_name;
                let nidx = node_index_of(ndv, nm);
                assert(ndv[nidx].name == nm);
                assert(count_endpoints(ntv, nm) <= usize::MAX);
            }
            let ord = count_prior_endpoints(&bookshelf.nets, i, j, pin.instance_name.as_str());
            proof {
                lemma_mac_pins_len(ntv, i as int, j as int, ntv[i as int].pin[j as int].instance_name);
            }
            let label = make_label(pin.pin_name.as_str(), ord);
            Node::InstancePin(pin.instance_name.clone(), label)
        };
        let ghost before = net_nodes_view(out@);
        out.push(node);
        proof {
            assert(net_nodes_view(out@) =~= before.push(net_nodes_view(out@).last()));
            assert(net_nodes_view(out@).last() == net_node_of(ndv, ntv, i as int, j as int));
            assert(net_nodes_view(out@) =~= net_nodes_of(ndv, ntv, i as int, j + 1));
        }
        j = j + 1;
    }
    out
}

/// Counts the endpoints of `name` before endpoint `j` of net `i`.
fn count_prior_endpoints(nets: &crate::nets::Nets, i: usize, j: usize, name: &str) -> (r: usize)
    requires
        i < nets@.len(),
        j <= nets@[i as int].pin.len(),
        count_endpoints(nets@, name@) <= usize::MAX,
    ensures
        r == count_upto(nets@, i as int, j as int, name@),
{
    let ghost ntv = nets@;
    let mut c: usize = 0;
    let mut a: usize = 0;
    proof {
        assert(ntv.subrange(0, 0) =~= Seq::<NetV>::empty());
    }
    while a < i
        invariant
            ntv == nets@,
            i < ntv.len(),
            count_endpoints(ntv, name@) <= usize::MAX,
            a <= i,
            c == count_endpoints(ntv.subrange(0, a as int), name@),
        decreases i - a,
    {
        let net = &nets.nets[a];
        let m = net.pin.len();
        let mut b: usize = 0;
        proof {
            assert(ntv[a as int].pin.subrange(0, 0) =~= Seq::<PinV>::empty());
        }
        while b < m
            invariant
                ntv == nets@,
                i < ntv.len(),
                count_endpoints(ntv, name@) <= usize::MAX,
                a < i,
                net == nets.nets@[a as int],
                m == ntv[a as int].pin.len(),
                b <= m,
                c == count_endpoints(ntv.subrange(0, a as int), name@) + count_in_pins(
                    ntv[a as int].pin.subrange(0, b as int),
                    name@,
                ),
            decreases m - b,
        {
            proof {
                let pv = ntv[a as int].pin;
                assert(pv.subrange(0, b + 1).drop_last() =~= pv.subrange(0, b as int));
                assert(pv.subrange(0, b + 1).last() == pv[b as int]);
                lemma_count_prefix_bound(ntv, a as int, b + 1, name@);
            }
            if str_eq(net.pin[b].instance_name.as_str(), name) {
                c = c + 1;
            }
            b = b + 1;
        }
        proof {
            assert(ntv[a as int].pin.subrange(0, m as int) =~= ntv[a as int].pin);
            assert(ntv.subrange(0, a + 1).drop_last() =~= ntv.subrange(0, a as int));
            assert(ntv.subrange(0, a + 1).last() == ntv[a as int]);
        }
        a = a + 1;
    }
    let net = &nets.nets[i];
    let mut b: usize = 0;
    proof {
        assert(ntv[i as int].pin.subrange(0, 0) =~= Seq::<PinV>::empty());
    }
    while b < j
        invariant
            ntv == nets@,
            i < ntv.len(),
            j <= ntv[i as int].pin.len(),
            count_endpoints(ntv, name@) <= usize::MAX,
            net == nets.nets@[i as int],
            b <= j,
            c == count_endpoints(ntv.subrange(0, i as int), name@) + count_in_pins(
                ntv[i as int].pin.subrange(0, b as int),
                name@,
            ),
        decreases j - b,
    {
        proof {
            let pv = ntv[i as int].pin;
            assert(pv.subrange(0, b + 1).drop_last() =~= pv.subrange(0, b as int));
            assert(pv.subrange(0, b + 1).last() == pv[b as int]);
            lemma_count_prefix_bound(ntv, i as int, b + 1, name@);
        }
        if str_eq(net.pin[b].instance_name.as_str(), name) {
            c = c + 1;
        }
        b = b + 1;
    }
    c
}


/// The opening of a macro's LEF text.
pub open spec fn macro_prefix_text(name: Seq<char>) -> Seq<char> {
    "\nMACRO "@ + name + "\n  CLASS CORE ;\n  ORIGIN 0 0 ;"@
}

/// The `SIZE` clause: the node's width and height, digit for digit,
/// unscaled.
pub open spec fn size_clause_text(s: PointV) -> Seq<char> {
    "\n  SIZE "@ + dec_int(s.x) + " "@ + dec_int(s.y) + " ;"@
}

/// The fixed defaults between the size and the pins.
pub open spec fn macro_mid_text() -> Seq<char> {
    "\n  SYMMETRY X Y ;\n  SITE coresite ;"@
}

/// The text of one macro pin: a unit square around the offset from the
/// macro's centre, in half units.
pub open spec fn macro_pin_text(p: MacPinV, cnt: int, size: PointV) -> Seq<char> {
    "\n  PIN "@ + p.name + "_"@ + dec_int(cnt) + "\n      DIRECTION "@ + p.direction + " ;"@
        + "\n      USE SIGNAL ; "@ + "\n      PORT"@ + "\n          LAYER metal1 ; "@
        + "\n              RECT "@ + dec_half(2 * p.offset.x + size.x - 1) + " "@ + dec_half(
        2 * p.offset.y + size.y - 1,
    ) + " "@ + dec_half(2 * p.offset.x + size.x + 1) + " "@ + dec_half(
        2 * p.offset.y + size.y + 1,
    ) + " ;"@ + "\n      END"@ + "\n  END "@ + p.name + "_"@ + dec_int(cnt)
}

/// The concatenated pin texts of one macro.
pub open spec fn macro_pins_text(pins: Seq<MacPinV>, size: PointV, upto: int) -> Seq<char>
    decreases upto,
{
    if upto <= 0 {
        Seq::empty()
    } else {
        macro_pins_text(pins, size, upto - 1) + macro_pin_text(pins[upto - 1], upto - 1, size)
    }
}

/// The whole LEF text of one macro.
pub open spec fn macro_lef_text(m: MacroV) -> Seq<char> {
    macro_prefix_text(m.name) + size_clause_text(m.size) + macro_mid_text() + macro_pins_text(
        m.pins,
        m.size,
        m.pins.len() as int,
    ) + "\n END "@ + m.name
}

/// A node's declared size reappears in its macro's LEF text exactly as
/// declared: the `SIZE` clause holds the same integers, unscaled, while
/// placement and track coordinates elsewhere are scaled to database
/// microns.
pub proof fn lemma_node_size_round_trip(n: NodeV, m: MacroV)
    requires
        m.size == n.size,
    ensures
        macro_lef_text(m) == macro_prefix_text(m.name) + ("\n  SIZE "@ + dec_int(n.size.x) + " "@
            + dec_int(n.size.y) + " ;"@) + macro_mid_text() + macro_pins_text(
            m.pins,
            m.size,
            m.pins.len() as int,
        ) + "\n END "@ + m.name,
{
}

/// Whether every pin rectangle of a macro fits the machine integers, in
/// half units.
pub open spec fn macro_emit_in_range(m: MacroV) -> bool {
    forall|k: int|
        0 <= k < m.pins.len() ==> {
            &&& in_i64(2 * (#[trigger] m.pins[k]).offset.x + m.size.x - 1)
            &&& in_i64(2 * m.pins[k].offset.y + m.size.y - 1)
            &&& in_i64(2 * m.pins[k].offset.x + m.size.x + 1)
            &&& in_i64(2 * m.pins[k].offset.y + m.size.y + 1)
        }
}

/// Whether a macro's pin rectangles can be emitted.
pub fn check_macro_range(m: &Macro) -> (r: bool)
    ensures
        r == macro_emit_in_range(m@),
{
    let n = m.pins.len();
    let mut k: usize = 0;
    while k < n
        invariant
            n == m@.pins.len(),
            k <= n,
            forall|q: int|
                0 <= q < k ==> {
                    &&& in_i64(2 * (#[trigger] m@.pins[q]).offset.x + m@.size.x - 1)
                    &&& in_i64(2 * m@.pins[q].offset.y + m@.size.y - 1)
                    &&& in_i64(2 * m@.pins[q].offset.x + m@.size.x + 1)
                    &&& in_i64(2 * m@.pins[q].offset.y + m@.size.y + 1)
                },
        decreases n - k,
    {
        let p = &m.pins[k];
        let ox = p.offset.x as i128;
        let oy = p.offset.y as i128;
        let sx = m.size.x as i128;
        let sy = m.size.y as i128;
        let lo: i128 = -9223372036854775808i128;
        let hi: i128 = 9223372036854775807i128;
        let x1 = 2 * ox + sx - 1;
        let y1 = 2 * oy + sy - 1;
        let x2 = 2 * ox + sx + 1;
        let y2 = 2 * oy + sy + 1;
        if x1 < lo || x1 > hi || y1 < lo || y1 > hi || x2 < lo || x2 > hi || y2 < lo || y2 > hi {
            proof {
                if macro_emit_in_range(m@) {
                    assert(in_i64(2 * (m@.pins[k as int]).offset.x + m@.size.x - 1));
                    assert(in_i64(2 * m@.pins[k as int].offset.y + m@.size.y - 1));
                    assert(in_i64(2 * m@.pins[k as int].offset.x + m@.size.x + 1));
                    assert(in_i64(2 * m@.pins[k as int].offset.y + m@.size.y + 1));
                }
                assert(!macro_emit_in_range(m@));
            }
            return false;
        }
        k = k + 1;
    }
    true
}

/// The LEF text of one pin of a macro.
fn pin_piece(p: &Pin, cnt: usize, size: Point, Ghost(m): Ghost<MacroV>) -> (r: String)
    requires
        macro_emit_in_range(m),
        exists|k: int| 0 <= k < m.pins.len() && m.pins[k] == p@ && k == cnt,
        m.size == size@,
    ensures
        r@ == macro_pin_text(p@, cnt as int, size@),
{
    proof {
        reveal_strlit("\n  PIN ");
        reveal_strlit("_");
        reveal_strlit("\n      DIRECTION ");
        reveal_strlit(" ;");
        reveal_strlit("\n      USE SIGNAL ; ");
        reveal_strlit("\n      PORT");
        reveal_strlit("\n          LAYER metal1 ; ");
        reveal_strlit("\n              RECT ");
        reveal_strlit(" ");
        reveal_strlit("\n      END");
        reveal_strlit("\n  END ");
        let k = choose|k: int| 0 <= k < m.pins.len() && m.pins[k] == p@ && k == cnt;
        assert(in_i64(2 * p@.offset.x + m.size.x - 1));
        assert(in_i64(2 * p@.offset.y + m.size.y - 1));
        assert(in_i64(2 * p@.offset.x + m.size.x + 1));
        assert(in_i64(2 * p@.offset.y + m.size.y + 1));
    }
    let x1 = ((2 * (p.offset.x as i128)) + (size.x as i128) - 1) as i64;
    let y1 = ((2 * (p.offset.y as i128)) + (size.y as i128) - 1) as i64;
    let x2 = ((2 * (p.offset.x as i128)) + (size.x as i128) + 1) as i64;
    let y2 = ((2 * (p.offset.y as i128)) + (size.y as i128) + 1) as i64;
    let mut out = String::new();
    out.append("\n  PIN ");
    out.append(p.name.as_str());
    out.append("_");
    push_dec_u64(cnt as u64, &mut out);
    out.append("\n      DIRECTION ");
    out.append(p.direction.as_str());
    out.append(" ;");
    out.append("\n      USE SIGNAL ; ");
    out.append("\n      PORT");
    out.append("\n          LAYER metal1 ; ");
    out.append("\n              RECT ");
    push_dec_half(x1, &mut out);
    out.append(" ");
    push_dec_half(y1, &mut out);
    out.append(" ");
    push_dec_half(x2, &mut out);
    out.append(" ");
    push_dec_half(y2, &mut out);
    out.append(" ;");
    out.append("\n      END");
    out.append("\n  END ");
    out.append(p.name.as_str());
    out.append("_");
    push_dec_u64(cnt as u64, &mut out);
    proof {
        assert(out@ =~= macro_pin_text(p@, cnt as int, size@));
    }
    out
}

impl Macro {
    /// The LEF text of this macro.
    pub fn format_to_lef(&self) -> (r: String)
        requires
            macro_emit_in_range(self@),
        ensures
            r@ == macro_lef_text(self@),
    {
        proof {
            reveal_strlit("\nMACRO ");
            reveal_strlit("\n  CLASS CORE ;\n  ORIGIN 0 0 ;");
            reveal_strlit("\n  SIZE ");
            reveal_strlit(" ");
            reveal_strlit(" ;");
            reveal_strlit("\n  SYMMETRY X Y ;\n  SITE coresite ;");
            reveal_strlit("\n END ");
        }
        let mut out = String::new();
        out.append("\nMACRO ");
        out.append(self.name.as_str());
        out.append("\n  CLASS CORE ;\n  ORIGIN 0 0 ;");
        out.append("\n  SIZE ");
        push_dec_i64(self.size.x, &mut out);
        out.append(" ");
        push_dec_i64(self.size.y, &mut out);
        out.append(" ;");
        out.append("\n  SYMMETRY X Y ;\n  SITE coresite ;");
        proof {
            assert(out@ =~= macro_prefix_text(self@.name) + size_clause_text(self@.size)
                + macro_mid_text());
        }
        let n = self.pins.len();
        let mut k: usize = 0;
        while k < n
            invariant
                macro_emit_in_range(self@),
                n == self@.pins.len(),
                k <= n,
                out@ == macro_prefix_text(self@.name) + size_clause_text(self@.size)
                    + macro_mid_text() + macro_pins_text(self@.pins, self@.size, k as int),
            decreases n - k,
        {
            proof {
                assert(self@.pins[k as int] == self.pins@[k as int]@);
            }
            let piece = pin_piece(&self.pins[k], k, self.size, Ghost(self@));
            out.append(piece.as_str());
            proof {
                assert(out@ =~= macro_prefix_text(self@.name) + size_clause_text(self@.size)
                    + macro_mid_text() + macro_pins_text(self@.pins, self@.size, k + 1));
            }
            k = k + 1;
        }
        out.append("\n END ");
        out.append(self.name.as_str());
        proof {
            assert(out@ =~= macro_lef_text(self@));
        }
        out
    }
}

/// The concatenated LEF texts of a list of macros.
pub open spec fn macros_text(ms: Seq<MacroV>) -> Seq<char>
    decreases ms.len(),
{
    if ms.len() == 0 {
        Seq::empty()
    } else {
        macros_text(ms.drop_last()) + macro_lef_text(ms.last())
    }
}

impl Macros {
    /// The LEF texts of all macros, in order.
    pub fn write_all(&self) -> (r: String)
        requires
            forall|k: int|
                0 <= k < macros_view(self.macros@).len() ==> macro_emit_in_range(
                    #[trigger] macros_view(self.macros@)[k],
                ),
        ensures
            r@ == macros_text(macros_view(self.macros@)),
    {
        let mut out = String::new();
        let n = self.macros.len();
        let mut i: usize = 0;
        proof {
            assert(out@ =~= macros_text(macros_view(self.macros@).subrange(0, 0)));
        }
        while i < n
            invariant
                n == macros_view(self.macros@).len(),
                forall|k: int|
                    0 <= k < macros_view(self.macros@).len() ==> macro_emit_in_range(
                        #[trigger] macros_view(self.macros@)[k],
                    ),
                i <= n,
                out@ == macros_text(macros_view(self.macros@).subrange(0, i as int)),
            decreases n - i,
        {
            proof {
                assert(macros_view(self.macros@)[i as int] == self.macros@[i as int]@);
            }
            let piece = self.macros[i].format_to_lef();
            out.append(piece.as_str());
            proof {
                let mv = macros_view(self.macros@);
                assert(mv.subrange(0, i + 1).drop_last() =~= mv.subrange(0, i as int));
                assert(mv.subrange(0, i + 1).last() == mv[i as int]);
            }
            i = i + 1;
        }
        proof {
            assert(macros_view(self.macros@).subrange(0, n as int) =~= macros_view(
                self.macros@,
            ));
        }
        out
    }
}

/// The direction a routing layer prefers.
#[derive(Clone, Copy, Debug, PartialEq, Eq, Structural)]
pub enum Direction {
    Horizontal,
    Vertical,
}

/// One technology routing layer derived from the per-layer wire
/// parameters.
pub struct RoutingLayer {
    pub name: String,
    pub direction: Direction,
    pub pitch: i64,
    pub width: i64,
    pub spacing: i64,
}

/// The mathematical value of a routing layer.
pub struct RoutingLayerV {
    pub name: Seq<char>,
    pub direction: Direction,
    pub pitch: int,
    pub width: int,
    pub spacing: int,
}

impl View for RoutingLayer {
    type V = RoutingLayerV;

    open spec fn view(&self) -> RoutingLayerV {
        RoutingLayerV {
            name: self.name@,
            direction: self.direction,
            pitch: self.pitch as int,
            width: self.width as int,
            spacing: self.spacing as int,
        }
    }
}

/// The mathematical values of a layer vector.
pub open spec fn layers_view(v: Seq<RoutingLayer>) -> Seq<RoutingLayerV> {
    v.map_values(|x: RoutingLayer| x@)
}

/// The direction a layer's capacities declare: vertical capacity selects
/// vertical, otherwise horizontal; both at once cannot be translated.
pub open spec fn layer_direction(route: crate::route::RouteV, l: int) -> Direction {
    if route.vertical_capacity[l] > 0 {
        Direction::Vertical
    } else {
        Direction::Horizontal
    }
}

/// What the technology layer for `l` must be.
pub open spec fn routing_layer_matches(
    route: crate::route::RouteV,
    l: int,
    v: RoutingLayerV,
) -> bool {
    &&& v.name == crate::numfmt::metal_name(l + 1)
    &&& v.direction == layer_direction(route, l)
    &&& v.width == route.min_wire_width[l]
    &&& v.spacing == route.min_wire_spacing[l]
    &&& v.pitch == route.min_wire_width[l] + route.min_wire_spacing[l]
}

/// Whether the technology layers can be derived: every per-layer list is
/// long enough, no layer is bidirectional, and every pitch fits.
pub open spec fn layers_ok(route: crate::route::RouteV) -> bool {
    &&& route.horizontal_capacity.len() >= route.vertical_capacity.len()
    &&& route.min_wire_width.len() >= route.vertical_capacity.len()
    &&& route.min_wire_spacing.len() >= route.vertical_capacity.len()
    &&& forall|l: int|
        0 <= l < route.vertical_capacity.len() ==> !((#[trigger] route.vertical_capacity[l]) > 0
            && route.horizontal_capacity[l] > 0)
    &&& forall|l: int|
        0 <= l < route.vertical_capacity.len() ==> in_i64(
            (#[trigger] route.min_wire_width[l]) + route.min_wire_spacing[l],
        ) && in_i64(l + 1)
}

impl RoutingLayer {
    /// Derives one technology layer per routing layer: its direction from
    /// the capacities, its pitch from width plus spacing.
    pub fn build_routing_layers(bookshelf: &Bookshelf) -> (r: Result<
        Vec<RoutingLayer>,
        BookshelfError,
    >)
        ensures
            match r {
                Ok(v) => {
                    &&& layers_ok(bookshelf.route@)
                    &&& layers_view(v@).len() == bookshelf.route@.vertical_capacity.len()
                    &&& forall|l: int|
                        0 <= l < layers_view(v@).len() ==> routing_layer_matches(
                            bookshelf.route@,
                            l,
                            #[trigger] layers_view(v@)[l],
                        )
                },
                Err(e) => {
                    &&& !layers_ok(bookshelf.route@)
                    &&& (e == BookshelfError::LayerCount || e == BookshelfError::BidirectionalLayer
                        || e == BookshelfError::Overflow)
                    &&& e == BookshelfError::BidirectionalLayer ==> exists|l: int|
                        0 <= l < bookshelf.route@.vertical_capacity.len() && (
                        #[trigger] bookshelf.route@.vertical_capacity[l]) > 0
                            && bookshelf.route@.horizontal_capacity[l] > 0
                },
            },
    {
        let ghost route = bookshelf.route@;
        let n = bookshelf.route.vertical_capacity.len();
        if bookshelf.route.horizontal_capacity.len() < n || bookshelf.route.min_wire_width.len()
            < n || bookshelf.route.min_wire_spacing.len() < n {
            return Err(BookshelfError::LayerCount);
        }
        let mut res: Vec<RoutingLayer> = Vec::new();
        let mut layer_num: i64 = 0;
        let mut l: usize = 0;
        while l < n
            invariant
                route == bookshelf.route@,
                n == route.vertical_capacity.len(),
                route.horizontal_capacity.len() >= n,
                route.min_wire_width.len() >= n,
                route.min_wire_spacing.len() >= n,
                l <= n,
                layer_num == l,
                layers_view(res@).len() == l,
                forall|q: int|
                    0 <= q < l ==> routing_layer_matches(
                        route,
                        q,
                        #[trigger] layers_view(res@)[q],
                    ),
                forall|q: int|
                    0 <= q < l ==> !((#[trigger] route.vertical_capacity[q]) > 0
                        && route.horizontal_capacity[q] > 0) && in_i64(
                        route.min_wire_width[q] + route.min_wire_spacing[q],
                    ) && in_i64(q + 1),
            decreases n - l,
        {
            let vc = bookshelf.route.vertical_capacity[l];
            let hc = bookshelf.route.horizontal_capacity[l];
            if vc > 0 && hc > 0 {
                proof {
                    assert((route.vertical_capacity[l as int]) > 0
                        && route.horizontal_capacity[l as int] > 0);
                    assert(exists|q: int|
                        0 <= q < route.vertical_capacity.len() && (
                        #[trigger] route.vertical_capacity[q]) > 0
                            && route.horizontal_capacity[q] > 0);
                    if layers_ok(route) {
                        assert(!((route.vertical_capacity[l as int]) > 0
                            && route.horizontal_capacity[l as int] > 0));
                    }
                    assert(!layers_ok(route));
                }
                return Err(BookshelfError::BidirectionalLayer);
            }
            let direction = if vc > 0 {
                Direction::Vertical
            } else {
                Direction::Horizontal
            };
            let w = bookshelf.route.min_wire_width[l];
            let s = bookshelf.route.min_wire_spacing[l];
            let pitch = match w.checked_add(s) {
                Some(v) => v,
                None => {
                    proof {
                        if layers_ok(route) {
                            assert(in_i64(
                                route.min_wire_width[l as int] + route.min_wire_spacing[l as int],
                            ) && in_i64(l as int + 1));
                        }
                        assert(!layers_ok(route));
                    }
                    return Err(BookshelfError::Overflow);
                },
            };
            let layer_id = match layer_num.checked_add(1) {
                Some(v) => v,
                None => {
                    proof {
                        if layers_ok(route) {
                            assert(in_i64(
                                route.min_wire_width[l as int] + route.min_wire_spacing[l as int],
                            ) && in_i64(l as int + 1));
                        }
                        assert(!layers_ok(route));
                    }
                    return Err(BookshelfError::Overflow);
                },
            };
            let ghost before = layers_view(res@);
            res.push(
                RoutingLayer {
                    name: crate::numfmt::metal_string(layer_id),
                    direction,
                    pitch,
                    width: w,
                    spacing: s,
                },
            );
            proof {
                assert(layers_view(res@) =~= before.push(layers_view(res@).last()));
            }
            layer_num = layer_id;
            l = l + 1;
        }
        proof {
            assert forall|q: int|
                0 <= q < route.vertical_capacity.len() implies in_i64(
                (#[trigger] route.min_wire_width[q]) + route.min_wire_spacing[q],
            ) && in_i64(q + 1) by {
                assert(!((route.vertical_capacity[q]) > 0 && route.horizontal_capacity[q] > 0));
            }
        }
        Ok(res)
    }

    /// The LEF text of this routing layer; the offset is half the pitch.
    pub fn format(&self) -> (r: String)
        ensures
            r@ == routing_layer_text(self@),
    {
        proof {
            reveal_strlit("\nLAYER ");
            reveal_strlit("\n  TYPE ROUTING ;");
            reveal_strlit("\n  DIRECTION ");
            reveal_strlit("HORIZONTAL");
            reveal_strlit("VERTICAL");
            reveal_strlit(" ;");
            reveal_strlit("\n  WIDTH ");
            reveal_strlit("\n  SPACING ");
            reveal_strlit("\n  PITCH ");
            reveal_strlit("\n  OFFSET ");
            reveal_strlit("\nEND ");
        }
        let mut out = String::new();
        out.append("\nLAYER ");
        out.append(self.name.as_str());
        out.append("\n  TYPE ROUTING ;");
        out.append("\n  DIRECTION ");
        match self.direction {
            Direction::Horizontal => out.append("HORIZONTAL"),
            Direction::Vertical => out.append("VERTICAL"),
        }
        out.append(" ;");
        out.append("\n  WIDTH ");
        push_dec_i64(self.width, &mut out);
        out.append(" ;");
        out.append("\n  SPACING ");
        push_dec_i64(self.spacing, &mut out);
        out.append(" ;");
        out.append("\n  PITCH ");
        push_dec_i64(self.pitch, &mut out);
        out.append(" ;");
        out.append("\n  OFFSET ");
        push_dec_half(self.pitch, &mut out);
        out.append(" ;");
        out.append("\nEND ");
        out.append(self.name.as_str());
        proof {
            assert(out@ =~= routing_layer_text(self@));
        }
        out
    }
}

/// The direction label of a routing layer.
pub open spec fn direction_label(d: Direction) -> Seq<char> {
    if d == Direction::Horizontal {
        "HORIZONTAL"@
    } else {
        "VERTICAL"@
    }
}

/// The LEF text of one routing layer.
pub open spec fn routing_layer_text(v: RoutingLayerV) -> Seq<char> {
    "\nLAYER "@ + v.name + "\n  TYPE ROUTING ;"@ + "\n  DIRECTION "@ + direction_label(
        v.direction,
    ) + " ;"@ + "\n  WIDTH "@ + dec_int(v.width) + " ;"@ + "\n  SPACING "@ + dec_int(v.spacing)
        + " ;"@ + "\n  PITCH "@ + dec_int(v.pitch) + " ;"@ + "\n  OFFSET "@ + dec_half(v.pitch)
        + " ;"@ + "\nEND "@ + v.name
}

/// The default cut layer between two routing layers.
pub struct CutLayer;

/// The text of a default cut layer.
pub open spec fn cut_layer_text(name: Seq<char>) -> Seq<char> {
    "\n\nLAYER "@ + name + "\n  TYPE CUT ;\n  SPACING 0.05 ;\n  WIDTH 0.05 ;\nEND "@ + name
}

impl CutLayer {
    /// The LEF text of a default cut layer called `name`.
    pub fn format_a_default_one(name: String) -> (r: String)
        ensures
            r@ == cut_layer_text(name@),
    {
        proof {
            reveal_strlit("\n\nLAYER ");
            reveal_strlit("\n  TYPE CUT ;\n  SPACING 0.05 ;\n  WIDTH 0.05 ;\nEND ");
        }
        let mut out = String::new();
        out.append("\n\nLAYER ");
        out.append(name.as_str());
        out.append("\n  TYPE CUT ;\n  SPACING 0.05 ;\n  WIDTH 0.05 ;\nEND ");
        out.append(name.as_str());
        proof {
            assert(out@ =~= cut_layer_text(name@));
        }
        out
    }
}

/// The overlap layer every library carries once.
pub struct OverlapLayer;

/// The text of the default overlap layer.
pub open spec fn overlap_layer_text() -> Seq<char> {
    "\n\nLAYER OVERLAP\n  TYPE OVERLAP ;\n END OVERLAP"@
}

impl OverlapLayer {
    /// The LEF text of the default overlap layer.
    pub fn format_a_default_one() -> (r: String)
        ensures
            r@ == overlap_layer_text(),
    {
        proof {
            reveal_strlit("\n\nLAYER OVERLAP\n  TYPE OVERLAP ;\n END OVERLAP");
        }
        let mut out = String::new();
        out.append("\n\nLAYER OVERLAP\n  TYPE OVERLAP ;\n END OVERLAP");
        proof {
            assert(out@ =~= overlap_layer_text());
        }
        out
    }
}


} // verus!
