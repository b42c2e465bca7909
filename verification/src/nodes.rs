//! The nodes file: one record per cell, `name width height`, optionally
//! followed on the next line by `terminal` or `terminal_NI`, which reclassify
//! the most recently declared node. Comment and header lines are discarded.
//! `parse_nodes` is the grammar; `Nodes::read` is proved to compute it.

use vstd::prelude::*;
use crate::error::BookshelfError;
use crate::geom::{Point, PointV, parse_point_at};
use crate::reader::{
    TokenReader, all_ascii, has_token, token_chars, after_token, line_start_after,
    lemma_token_progress, lemma_line_start_bounds,
};
use crate::strutil::str_eq;

verus! {

/// How a node may move: freely, fixed in place, or fixed above the cell
/// image (a chip-boundary terminal that is allowed to overlap).
#[derive(Clone, Copy, Debug, PartialEq, Eq, Structural)]
pub enum Movable {
    Movable,
    Fixed,
    FixedButOverlapAllowed,
}

/// One declared cell or terminal.
pub struct Node {
    pub name: String,
    pub size: Point,
    pub moveable: Movable,
}

/// The mathematical value of a node record.
pub struct NodeV {
    pub name: Seq<char>,
    pub size: PointV,
    pub moveable: Movable,
}

impl View for Node {
    type V = NodeV;

    open spec fn view(&self) -> NodeV {
        NodeV { name: self.name@, size: self.size@, moveable: self.moveable }
    }
}

/// The index of the first node called `name`, or `-1`.
pub open spec fn node_index_of(s: Seq<NodeV>, name: Seq<char>) -> int
    decreases s.len(),
{
    if s.len() == 0 {
        -1
    } else if s[0].name == name {
        0
    } else {
        let r = node_index_of(s.drop_first(), name);
        if r < 0 {
            -1
        } else {
            r + 1
        }
    }
}

/// Whether some node is called `name`.
pub open spec fn has_node(s: Seq<NodeV>, name: Seq<char>) -> bool {
    node_index_of(s, name) >= 0
}

/// The collection with the kind of the node called `name` changed.
pub open spec fn set_kind(s: Seq<NodeV>, name: Seq<char>, k: Movable) -> Seq<NodeV> {
    let i = node_index_of(s, name);
    s.update(i, NodeV { name: s[i].name, size: s[i].size, moveable: k })
}

/// The collection with `n` added, replacing a node of the same name.
pub open spec fn upsert_node(s: Seq<NodeV>, n: NodeV) -> Seq<NodeV> {
    if has_node(s, n.name) {
        s.update(node_index_of(s, n.name), n)
    } else {
        s.push(n)
    }
}

pub proof fn lemma_node_index_of_props(s: Seq<NodeV>, name: Seq<char>)
    ensures
        node_index_of(s, name) >= 0 ==> node_index_of(s, name) < s.len() && s[node_index_of(
            s,
            name,
        )].name == name,
        node_index_of(s, name) == -1 ==> forall|i: int| 0 <= i < s.len() ==> s[i].name != name,
        node_index_of(s, name) >= -1,
        forall|i: int| 0 <= i < node_index_of(s, name) ==> s[i].name != name,
    decreases s.len(),
{
    if s.len() > 0 && s[0].name != name {
        lemma_node_index_of_props(s.drop_first(), name);
        let d = s.drop_first();
        assert(forall|i: int| 1 <= i < s.len() ==> s[i] == d[i - 1]);
        if node_index_of(s, name) == -1 {
            assert forall|i: int| 0 <= i < s.len() implies s[i].name != name by {
                if i >= 1 {
                    assert(s[i] == d[i - 1]);
                }
            }
        }
        assert forall|i: int| 0 <= i < node_index_of(s, name) implies s[i].name != name by {
            if i >= 1 {
                assert(s[i] == d[i - 1]);
            }
        }
    }
}

/// A forward search that has ruled the first `i` entries out and stops at
/// `i` determines the index.
pub proof fn lemma_node_index_found(s: Seq<NodeV>, name: Seq<char>, i: int)
    requires
        0 <= i <= s.len(),
        forall|k: int| 0 <= k < i ==> s[k].name != name,
        i < s.len() ==> s[i].name == name,
    ensures
        node_index_of(s, name) == if i == s.len() {
            -1int
        } else {
            i
        },
    decreases s.len(),
{
    if s.len() > 0 {
        if i == 0 && s[0].name == name {
        } else {
            lemma_node_index_found(s.drop_first(), name, i - 1);
        }
    }
}

/// The whole grammar of a nodes file, starting at `pos` with the records
/// read so far in `acc` and the most recently declared name in `last`.
pub open spec fn parse_nodes_at(
    s: Seq<u8>,
    pos: int,
    acc: Seq<NodeV>,
    last: Seq<char>,
) -> Result<Seq<NodeV>, BookshelfError>
    decreases s.len() - pos,
    when 0 <= pos <= s.len()
    via parse_nodes_at_dec
{
    if !has_token(s, pos) {
        Ok(acc)
    } else {
        let t = token_chars(s, pos);
        let p1 = after_token(s, pos);
        if t == "#"@ || t == "UCLA"@ || t == "NumNodes"@ || t == "NumTerminals"@ {
            parse_nodes_at(s, line_start_after(s, p1), acc, last)
        } else if t == "terminal"@ {
            if has_node(acc, last) {
                parse_nodes_at(s, p1, set_kind(acc, last, Movable::Fixed), last)
            } else {
                Err(BookshelfError::Grammar)
            }
        } else if t == "terminal_NI"@ {
            if has_node(acc, last) {
                parse_nodes_at(s, p1, set_kind(acc, last, Movable::FixedButOverlapAllowed), last)
            } else {
                Err(BookshelfError::Grammar)
            }
        } else {
            match parse_point_at(s, p1) {
                Err(e) => Err(e),
                Ok((sz, p2)) => parse_nodes_at(
                    s,
                    p2,
                    upsert_node(acc, NodeV { name: t, size: sz, moveable: Movable::Movable }),
                    t,
                ),
            }
        }
    }
}

#[via_fn]
proof fn parse_nodes_at_dec(s: Seq<u8>, pos: int, acc: Seq<NodeV>, last: Seq<char>) {
    if 0 <= pos <= s.len() && has_token(s, pos) {
        lemma_token_progress(s, pos);
        let p1 = after_token(s, pos);
        lemma_line_start_bounds(s, p1);
        if has_token(s, p1) {
            lemma_token_progress(s, p1);
            let p2 = after_token(s, p1);
            if has_token(s, p2) {
                lemma_token_progress(s, p2);
            }
        }
    }
}

/// What a whole nodes file denotes.
pub open spec fn parse_nodes(s: Seq<u8>) -> Result<Seq<NodeV>, BookshelfError> {
    parse_nodes_at(s, 0, Seq::empty(), Seq::empty())
}

/// The node collection, keyed by unique name.
pub struct Nodes {
    pub nodes: Vec<Node>,
}

impl View for Nodes {
    type V = Seq<NodeV>;

    open spec fn view(&self) -> Seq<NodeV> {
        self.nodes@.map_values(|n: Node| n@)
    }
}

impl Nodes {
    /// The collection's invariant: no two nodes share a name.
    pub open spec fn wf(&self) -> bool {
        forall|i: int, j: int|
            0 <= i < j < self@.len() ==> self@[i].name != self@[j].name
    }

    /// The records, in declaration order.
    pub fn iter(&self) -> (r: &Vec<Node>)
        ensures
            r@ == self.nodes@,
    {
        &self.nodes
    }

    /// How many nodes were declared.
    pub fn len(&self) -> (r: usize)
        ensures
            r == self@.len(),
    {
        self.nodes.len()
    }

    fn find_index(&self, name: &str) -> (r: Option<usize>)
        ensures
            match r {
                Some(i) => i < self@.len() && node_index_of(self@, name@) == i,
                None => node_index_of(self@, name@) == -1,
            },
    {
        let mut i: usize = 0;
        let n = self.nodes.len();
        while i < n
            invariant
                i <= n,
                n == self@.len(),
                forall|k: int| 0 <= k < i ==> self@[k].name != name@,
            decreases n - i,
        {
            if str_eq(self.nodes[i].name.as_str(), name) {
                proof {
                    lemma_node_index_found(self@, name@, i as int);
                }
                return Some(i);
            }
            i = i + 1;
        }
        proof {
            lemma_node_index_found(self@, name@, n as int);
        }
        None
    }

    /// Looks a node up by name.
    pub fn get(&self, name: &str) -> (r: Option<&Node>)
        ensures
            match r {
                Some(n) => {
                    &&& has_node(self@, name@)
                    &&& n@ == self@[node_index_of(self@, name@)]
                },
                None => !has_node(self@, name@),
            },
    {
        match self.find_index(name) {
            Some(i) => Some(&self.nodes[i]),
            None => None,
        }
    }

    /// Whether the node called `name` is a fixed not-in-image terminal.
    pub fn is_terminal_ni(&self, name: &str) -> (r: bool)
        requires
            has_node(self@, name@),
        ensures
            r == (self@[node_index_of(self@, name@)].moveable
                == Movable::FixedButOverlapAllowed),
    {
        proof {
            lemma_node_index_of_props(self@, name@);
        }
        let i = match self.find_index(name) {
            Some(i) => i,
            None => {
                proof {
                    assert(false);
                }
                0
            },
        };
        match self.nodes[i].moveable {
            Movable::FixedButOverlapAllowed => true,
            _ => false,
        }
    }

    fn upsert(&mut self, node: Node)
        requires
            old(self).wf(),
        ensures
            final(self).wf(),
            final(self)@ == upsert_node(old(self)@, node@),
    {
        let ghost pre = self@;
        let ghost nv = node@;
        match self.find_index(node.name.as_str()) {
            Some(i) => {
                proof {
                    lemma_node_index_of_props(pre, nv.name);
                }
                self.nodes.set(i, node);
                proof {
                    assert(self@ =~= pre.update(node_index_of(pre, nv.name), nv));
                }
            },
            None => {
                self.nodes.push(node);
                proof {
                    lemma_node_index_of_props(pre, nv.name);
                    assert(self@ =~= pre.push(nv));
                }
            },
        }
    }

    fn set_kind_of(&mut self, name: &str, k: Movable) -> (r: bool)
        requires
            old(self).wf(),
        ensures
            final(self).wf(),
            r == has_node(old(self)@, name@),
            r ==> final(self)@ == set_kind(old(self)@, name@, k),
            !r ==> final(self)@ == old(self)@,
    {
        let ghost pre = self@;
        match self.find_index(name) {
            Some(i) => {
                proof {
                    lemma_node_index_of_props(pre, name@);
                }
                let old_node = &self.nodes[i];
                let new_node = Node {
                    name: old_node.name.clone(),
                    size: old_node.size,
                    moveable: k,
                };
                proof {
                    assert(new_node@.name == pre[i as int].name);
                }
                self.nodes.set(i, new_node);
                proof {
                    assert(self@ =~= set_kind(pre, name@, k));
                }
                true
            },
            None => false,
        }
    }

    /// Reads a whole nodes file, returning exactly what the grammar says the
    /// bytes denote.
    pub fn read(bytes: Vec<u8>) -> (r: Result<Nodes, BookshelfError>)
        ensures
            match r {
                Ok(ns) => {
                    &&& all_ascii(bytes@)
                    &&& parse_nodes(bytes@) == Ok::<Seq<NodeV>, BookshelfError>(ns@)
                    &&& ns.wf()
                },
                Err(e) => {
                    &&& !all_ascii(bytes@) ==> e == BookshelfError::Encoding
                    &&& all_ascii(bytes@) ==> parse_nodes(bytes@) == Err::<
                        Seq<NodeV>,
                        BookshelfError,
                    >(e)
                },
            },
    {
        let ghost s = bytes@;
        let mut reader = match TokenReader::new(bytes) {
            Ok(r) => r,
            Err(e) => {
                return Err(e);
            },
        };
        let mut res = Nodes { nodes: Vec::new() };
        let mut last = String::new();
        proof {
            assert(res@ =~= Seq::<NodeV>::empty());
            assert(last@ =~= Seq::<char>::empty());
        }
        loop
            invariant
                s == bytes@,
                reader.wf(),
                reader.text() == s,
                res.wf(),
                parse_nodes_at(s, reader.position(), res@, last@) == parse_nodes(s),
            decreases s.len() - reader.position(),
        {
            let ghost pos0 = reader.position();
            let ghost acc0 = res@;
            let ghost last0 = last@;
            proof {
                if has_token(s, pos0) {
                    lemma_token_progress(s, pos0);
                }
            }
            let t = match reader.next_token() {
                None => {
                    return Ok(res);
                },
                Some(t) => t,
            };
            if str_eq(t.as_str(), "#") || str_eq(t.as_str(), "UCLA") || str_eq(
                t.as_str(),
                "NumNodes",
            ) || str_eq(t.as_str(), "NumTerminals") {
                let skipped = reader.swallow_line();
                proof {
                    lemma_line_start_bounds(s, after_token(s, pos0));
                }
            } else if str_eq(t.as_str(), "terminal") {
                let found = res.set_kind_of(last.as_str(), Movable::Fixed);
                if !found {
                    return Err(BookshelfError::Grammar);
                }
            } else if str_eq(t.as_str(), "terminal_NI") {
                let found = res.set_kind_of(last.as_str(), Movable::FixedButOverlapAllowed);
                if !found {
                    return Err(BookshelfError::Grammar);
                }
            } else {
                let size = match Point::read(&mut reader) {
                    Ok(p) => p,
                    Err(e) => {
                        return Err(e);
                    },
                };
                proof {
                    let p1 = after_token(s, pos0);
                    if has_token(s, p1) {
                        lemma_token_progress(s, p1);
                        if has_token(s, after_token(s, p1)) {
                            lemma_token_progress(s, after_token(s, p1));
                        }
                    }
                }
                let name_copy = t.clone();
                res.upsert(Node { name: t, size, moveable: Movable::Movable });
                last = name_copy;
            }
        }
    }
}

} // verus!
