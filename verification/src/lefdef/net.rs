//! The DEF net section: one physical net per Bookshelf net, each endpoint
//! written either as a reference to a top-level chip pin or as an instance
//! pin pair. The classification is made during macro synthesis; here the
//! records are assembled and emitted.

use vstd::prelude::*;
use vstd::string::StringExecFns;

verus! {

/// One DEF net endpoint: a top-level chip pin, or a pin of an instance.
pub enum Node {
    Pin(String),
    InstancePin(String, String),
}

/// The mathematical value of a DEF net endpoint.
pub enum NetNodeV {
    Pin(Seq<char>),
    InstancePin(Seq<char>, Seq<char>),
}

impl View for Node {
    type V = NetNodeV;

    open spec fn view(&self) -> NetNodeV {
        match self {
            Node::Pin(p) => NetNodeV::Pin(p@),
            Node::InstancePin(i, p) => NetNodeV::InstancePin(i@, p@),
        }
    }
}

/// One DEF net: its name and its classified endpoints.
pub struct Net {
    pub name: String,
    pub nodes: Vec<Node>,
}

/// The mathematical value of a DEF net.
pub struct DefNetV {
    pub name: Seq<char>,
    pub nodes: Seq<NetNodeV>,
}

/// The mathematical values of an endpoint vector.
pub open spec fn net_nodes_view(v: Seq<Node>) -> Seq<NetNodeV> {
    v.map_values(|n: Node| n@)
}

impl View for Net {
    type V = DefNetV;

    open spec fn view(&self) -> DefNetV {
        DefNetV { name: self.name@, nodes: net_nodes_view(self.nodes@) }
    }
}

/// The DEF net collection, one record per Bookshelf net, in order.
pub struct Nets(pub Vec<Net>);

/// The mathematical values of a net vector.
pub open spec fn def_nets_view(v: Seq<Net>) -> Seq<DefNetV> {
    v.map_values(|n: Net| n@)
}

impl View for Nets {
    type V = Seq<DefNetV>;

    open spec fn view(&self) -> Seq<DefNetV> {
        def_nets_view(self.0@)
    }
}

impl Nets {
    /// Assembles the DEF nets from the per-net endpoint lists the macro
    /// synthesis recorded.
    pub fn build_net(macros: &crate::lefdef::writer::Macros) -> (r: Nets)
        ensures
            r@.len() == macros.net_to_nodes@.len(),
            forall|i: int|
                0 <= i < r@.len() ==> (#[trigger] r@[i]).name == macros.net_to_nodes@[i].0@
                    && r@[i].nodes == net_nodes_view(macros.net_to_nodes@[i].1@),
    {
        let n = macros.net_to_nodes.len();
        let mut nets: Vec<Net> = Vec::new();
        let mut i: usize = 0;
        while i < n
            invariant
                n == macros.net_to_nodes@.len(),
                i <= n,
                def_nets_view(nets@).len() == i,
                forall|k: int|
                    0 <= k < i ==> (#[trigger] def_nets_view(nets@)[k]).name
                        == macros.net_to_nodes@[k].0@ && def_nets_view(nets@)[k].nodes
                        == net_nodes_view(macros.net_to_nodes@[k].1@),
            decreases n - i,
        {
            let entry = &macros.net_to_nodes[i];
            let m = entry.1.len();
            let mut nodes: Vec<Node> = Vec::new();
            let mut j: usize = 0;
            while j < m
                invariant
                    m == entry.1@.len(),
                    entry == macros.net_to_nodes@[i as int],
                    i < n,
                    n == macros.net_to_nodes@.len(),
                    j <= m,
                    net_nodes_view(nodes@) == net_nodes_view(entry.1@).subrange(0, j as int),
                decreases m - j,
            {
                let copied = match &entry.1[j] {
                    Node::Pin(p) => Node::Pin(p.clone()),
                    Node::InstancePin(a, b) => Node::InstancePin(a.clone(), b.clone()),
                };
                let ghost before = net_nodes_view(nodes@);
                nodes.push(copied);
                proof {
                    assert(net_nodes_view(nodes@) =~= before.push(
                        net_nodes_view(entry.1@)[j as int],
                    ));
                    assert(net_nodes_view(nodes@) =~= net_nodes_view(entry.1@).subrange(
                        0,
                        j + 1,
                    ));
                }
                j = j + 1;
            }
            proof {
                assert(net_nodes_view(entry.1@).subrange(0, m as int) =~= net_nodes_view(
                    entry.1@,
                ));
            }
            let ghost before = def_nets_view(nets@);
            nets.push(Net { name: entry.0.clone(), nodes });
            proof {
                assert(def_nets_view(nets@) =~= before.push(def_nets_view(nets@).last()));
            }
            i = i + 1;
        }
        Nets(nets)
    }

    /// The DEF `NETS` section.
    pub fn write(&self) -> (r: String)
        ensures
            r@ == nets_section_text(self@),
    {
        proof {
            reveal_strlit("\nNETS ");
            reveal_strlit(" ;");
        }
        let mut out = String::new();
        out.append("\nNETS ");
        let n = self.0.len();
        crate::numfmt::push_dec_u64(n as u64, &mut out);
        out.append(" ;");
        let mut i: usize = 0;
        proof {
            assert(out@ =~= "\nNETS "@ + crate::numfmt::dec_nat(self@.len() as nat) + " ;"@
                + nets_list_text(self@.subrange(0, 0)));
        }
        while i < n
            invariant
                n == self@.len(),
                i <= n,
                out@ == "\nNETS "@ + crate::numfmt::dec_nat(self@.len() as nat) + " ;"@
                    + nets_list_text(self@.subrange(0, i as int)),
            decreases n - i,
        {
            let line = net_line(&self.0[i]);
            out.append(line.as_str());
            proof {
                assert(self@.subrange(0, i + 1).drop_last() =~= self@.subrange(0, i as int));
                assert(self@.subrange(0, i + 1).last() == self@[i as int]);
            }
            i = i + 1;
        }
        proof {
            assert(self@.subrange(0, n as int) =~= self@);
        }
        out
    }
}

/// The text of one endpoint inside a DEF net record.
pub open spec fn net_node_text(n: NetNodeV) -> Seq<char> {
    match n {
        NetNodeV::Pin(p) => " ( PIN "@ + p + " )"@,
        NetNodeV::InstancePin(i, p) => " ( "@ + i + " "@ + p + " )"@,
    }
}

/// The concatenated endpoints of one net record.
pub open spec fn net_nodes_text(ns: Seq<NetNodeV>) -> Seq<char>
    decreases ns.len(),
{
    if ns.len() == 0 {
        Seq::empty()
    } else {
        net_nodes_text(ns.drop_last()) + net_node_text(ns.last())
    }
}

/// The text of one DEF net record.
pub open spec fn net_text(n: DefNetV) -> Seq<char> {
    "\n- "@ + n.name + net_nodes_text(n.nodes) + " + USE SIGNAL ;"@
}

/// The concatenated net records.
pub open spec fn nets_list_text(ns: Seq<DefNetV>) -> Seq<char>
    decreases ns.len(),
{
    if ns.len() == 0 {
        Seq::empty()
    } else {
        nets_list_text(ns.drop_last()) + net_text(ns.last())
    }
}

/// The whole DEF `NETS` section.
pub open spec fn nets_section_text(ns: Seq<DefNetV>) -> Seq<char> {
    "\nNETS "@ + crate::numfmt::dec_nat(ns.len() as nat) + " ;"@ + nets_list_text(ns)
}

/// The text of one net record.
fn net_line(net: &Net) -> (r: String)
    ensures
        r@ == net_text(net@),
{
    proof {
        reveal_strlit("\n- ");
        reveal_strlit(" ( PIN ");
        reveal_strlit(" ( ");
        reveal_strlit(" ");
        reveal_strlit(" )");
        reveal_strlit(" + USE SIGNAL ;");
    }
    let mut out = String::new();
    out.append("\n- ");
    out.append(net.name.as_str());
    let m = net.nodes.len();
    let mut j: usize = 0;
    proof {
        assert(out@ =~= "\n- "@ + net@.name + net_nodes_text(net@.nodes.subrange(0, 0)));
    }
    while j < m
        invariant
            j <= m,
            m == net@.nodes.len(),
            net@.nodes.len() == net.nodes@.len(),
            net@.nodes == net_nodes_view(net.nodes@),
            out@ == "\n- "@ + net@.name + net_nodes_text(net@.nodes.subrange(0, j as int)),
        decreases m - j,
    {
        match &net.nodes[j] {
            Node::Pin(p) => {
                out.append(" ( PIN ");
                out.append(p.as_str());
                out.append(" )");
            },
            Node::InstancePin(inst, pn) => {
                out.append(" ( ");
                out.append(inst.as_str());
                out.append(" ");
                out.append(pn.as_str());
                out.append(" )");
            },
        }
        proof {
            assert(net@.nodes.subrange(0, j + 1).drop_last() =~= net@.nodes.subrange(
                0,
                j as int,
            ));
            assert(net@.nodes.subrange(0, j + 1).last() == net@.nodes[j as int]);
            assert(net@.nodes[j as int] == net.nodes@[j as int]@);
            assert(out@ =~= "\n- "@ + net@.name + net_nodes_text(
                net@.nodes.subrange(0, j + 1),
            ));
        }
        j = j + 1;
    }
    proof {
        assert(net@.nodes.subrange(0, m as int) =~= net@.nodes);
    }
    out.append(" + USE SIGNAL ;");
    proof {
        assert(out@ =~= net_text(net@));
    }
    out
}

} // verus!
