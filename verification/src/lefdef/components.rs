//! The DEF component section: one record per placeable node (terminals are
//! top-level pins, not components), each with its placement scaled to
//! database microns and its fixedness from the placement file.

use vstd::prelude::*;
use vstd::string::StringExecFns;
use crate::error::BookshelfError;
use crate::geom::in_i64;
use crate::nodes::{Movable, NodeV};
use crate::numfmt::{dec_int, dec_nat, push_dec_i64, push_dec_u64};
use crate::parser::Bookshelf;
use crate::pl::{PlV, has_pl, pl_index_of};

verus! {

/// The component section: how many components and their formatted records.
pub struct Components {
    pub num: usize,
    pub to_print: String,
}

/// The placement keyword of a component: `PLACED` for movable nodes,
/// `FIXED` for fixed ones.
pub open spec fn placed_text(k: Movable) -> Seq<char> {
    if k == Movable::Movable {
        "PLACED"@
    } else {
        "FIXED"@
    }
}

/// The text of one component record.
pub open spec fn component_line_text(n: NodeV, pls: Seq<PlV>) -> Seq<char> {
    let place = pls[pl_index_of(pls, n.name)].place;
    "\n- "@ + n.name + " "@ + n.name + " + "@ + placed_text(n.moveable) + " ( "@ + dec_int(
        place.x * 1000,
    ) + " "@ + dec_int(place.y * 1000) + " ) N ;"@
}

/// The concatenated component records of the first `upto` nodes; terminals
/// contribute nothing.
pub open spec fn components_text(nodes: Seq<NodeV>, pls: Seq<PlV>, upto: int) -> Seq<char>
    decreases upto,
{
    if upto <= 0 {
        Seq::empty()
    } else {
        components_text(nodes, pls, upto - 1) + if nodes[upto - 1].moveable
            == Movable::FixedButOverlapAllowed {
            Seq::<char>::empty()
        } else {
            component_line_text(nodes[upto - 1], pls)
        }
    }
}

/// How many of the first `upto` nodes are components.
pub open spec fn components_count(nodes: Seq<NodeV>, upto: int) -> int
    decreases upto,
{
    if upto <= 0 {
        0
    } else {
        components_count(nodes, upto - 1) + if nodes[upto - 1].moveable
            == Movable::FixedButOverlapAllowed {
            0int
        } else {
            1
        }
    }
}

/// Whether every component has a placement whose scaling fits the machine
/// integers.
pub open spec fn components_ok(nodes: Seq<NodeV>, pls: Seq<PlV>) -> bool {
    forall|i: int|
        0 <= i < nodes.len() && (#[trigger] nodes[i]).moveable != Movable::FixedButOverlapAllowed
            ==> {
            &&& has_pl(pls, nodes[i].name)
            &&& in_i64(pls[pl_index_of(pls, nodes[i].name)].place.x * 1000)
            &&& in_i64(pls[pl_index_of(pls, nodes[i].name)].place.y * 1000)
        }
}

impl Components {
    /// Builds one component record per placeable node, looking its location
    /// up in the placement file. A component without a placement is fatal.
    pub fn build(bookshelf: &Bookshelf) -> (r: Result<Components, BookshelfError>)
        ensures
            match r {
                Ok(c) => {
                    &&& components_ok(bookshelf.nodes@, bookshelf.pls@)
                    &&& c.num == components_count(bookshelf.nodes@, bookshelf.nodes@.len() as int)
                    &&& c.to_print@ == components_text(
                        bookshelf.nodes@,
                        bookshelf.pls@,
                        bookshelf.nodes@.len() as int,
                    )
                },
                Err(e) => {
                    &&& !components_ok(bookshelf.nodes@, bookshelf.pls@)
                    &&& (e == BookshelfError::MissingPlacement || e == BookshelfError::Overflow)
                    &&& e == BookshelfError::MissingPlacement ==> exists|i: int|
                        0 <= i < bookshelf.nodes@.len() && (#[trigger] bookshelf.nodes@[i]).moveable
                            != Movable::FixedButOverlapAllowed && !has_pl(
                            bookshelf.pls@,
                            bookshelf.nodes@[i].name,
                        )
                },
            },
    {
        let ghost ndv = bookshelf.nodes@;
        let ghost plv = bookshelf.pls@;
        let mut out = String::new();
        let mut num: usize = 0;
        let n = bookshelf.nodes.len();
        let mut i: usize = 0;
        proof {
            assert(out@ =~= components_text(ndv, plv, 0));
        }
        while i < n
            invariant
                ndv == bookshelf.nodes@,
                plv == bookshelf.pls@,
                n == ndv.len(),
                i <= n,
                num == components_count(ndv, i as int),
                0 <= num <= i,
                out@ == components_text(ndv, plv, i as int),
                forall|q: int|
                    0 <= q < i && (#[trigger] ndv[q]).moveable != Movable::FixedButOverlapAllowed
                        ==> {
                        &&& has_pl(plv, ndv[q].name)
                        &&& in_i64(plv[pl_index_of(plv, ndv[q].name)].place.x * 1000)
                        &&& in_i64(plv[pl_index_of(plv, ndv[q].name)].place.y * 1000)
                    },
            decreases n - i,
        {
            proof {
                reveal_strlit("\n- ");
                reveal_strlit(" ");
                reveal_strlit(" + ");
                reveal_strlit("PLACED");
                reveal_strlit("FIXED");
                reveal_strlit(" ( ");
                reveal_strlit(" ) N ;");
            }
            let node = &bookshelf.nodes.nodes[i];
            let is_ni = match node.moveable {
                Movable::FixedButOverlapAllowed => true,
                _ => false,
            };
            if !is_ni {
                let pl = match bookshelf.pls.get(node.name.as_str()) {
                    Some(p) => p,
                    None => {
                        proof {
                            assert(ndv[i as int].moveable != Movable::FixedButOverlapAllowed);
                            assert(!has_pl(plv, ndv[i as int].name));
                            if components_ok(ndv, plv) {
                                assert(has_pl(plv, ndv[i as int].name));
                            }
                            assert(!components_ok(ndv, plv));
                        }
                        return Err(BookshelfError::MissingPlacement);
                    },
                };
                let px = match pl.place.x.checked_mul(1000) {
                    Some(v) => v,
                    None => {
                        proof {
                            if components_ok(ndv, plv) {
                                assert(in_i64(
                                    plv[pl_index_of(plv, ndv[i as int].name)].place.x * 1000,
                                ));
                            }
                            assert(!components_ok(ndv, plv));
                        }
                        return Err(BookshelfError::Overflow);
                    },
                };
                let py = match pl.place.y.checked_mul(1000) {
                    Some(v) => v,
                    None => {
                        proof {
                            if components_ok(ndv, plv) {
                                assert(in_i64(
                                    plv[pl_index_of(plv, ndv[i as int].name)].place.y * 1000,
                                ));
                            }
                            assert(!components_ok(ndv, plv));
                        }
                        return Err(BookshelfError::Overflow);
                    },
                };
                out.append("\n- ");
                out.append(node.name.as_str());
                out.append(" ");
                out.append(node.name.as_str());
                out.append(" + ");
                match node.moveable {
                    Movable::Movable => out.append("PLACED"),
                    _ => out.append("FIXED"),
                }
                out.append(" ( ");
                push_dec_i64(px, &mut out);
                out.append(" ");
                push_dec_i64(py, &mut out);
                out.append(" ) N ;");
                num = num + 1;
                proof {
                    assert(out@ =~= components_text(ndv, plv, i + 1));
                }
            } else {
                proof {
                    assert(out@ =~= components_text(ndv, plv, i + 1));
                }
            }
            i = i + 1;
        }
        Ok(Components { num, to_print: out })
    }

    /// The whole DEF `COMPONENTS` section.
    pub fn write(&self) -> (r: String)
        ensures
            r@ == components_section_text(self.num as int, self.to_print@),
    {
        proof {
            reveal_strlit("\nCOMPONENTS ");
            reveal_strlit(" ;");
            reveal_strlit("\nEND COMPONENTS");
        }
        let mut out = String::new();
        out.append("\nCOMPONENTS ");
        push_dec_u64(self.num as u64, &mut out);
        out.append(" ;");
        out.append(self.to_print.as_str());
        out.append("\nEND COMPONENTS");
        proof {
            assert(out@ =~= components_section_text(self.num as int, self.to_print@));
        }
        out
    }
}

/// The whole DEF `COMPONENTS` section around the records.
pub open spec fn components_section_text(num: int, body: Seq<char>) -> Seq<char> {
    "\nCOMPONENTS "@ + dec_nat(num as nat) + " ;"@ + body + "\nEND COMPONENTS"@
}

} // verus!
