//! The placement file: one record per node, `name x y : orientation`,
//! optionally followed by `/FIXED` or `/FIXED_NI`. Comment and header lines
//! are discarded. `parse_pls` is the grammar; `Pls::read_from_file` is
//! proved to compute it.

use vstd::prelude::*;
use crate::error::BookshelfError;
use crate::geom::{Point, PointV, parse_point_at, lemma_parse_point_progress};
use crate::reader::{
    TokenReader, all_ascii, has_token, token_chars, after_token, line_start_after,
    lemma_token_progress, lemma_line_start_bounds,
};
use crate::strutil::{str_eq, str_eq_ignore_case, upper_seq};

verus! {

/// How a placement is constrained.
#[derive(Clone, Copy, Debug, PartialEq, Eq, Structural)]
pub enum Type {
    Movable,
    Fixed,
    FixedNotInImage,
}

/// One placement record.
pub struct Pl {
    pub name: String,
    pub place: Point,
    pub orientation: String,
    pub kind: Type,
}

/// The mathematical value of a placement record.
pub struct PlV {
    pub name: Seq<char>,
    pub place: PointV,
    pub orientation: Seq<char>,
    pub kind: Type,
}

impl View for Pl {
    type V = PlV;

    open spec fn view(&self) -> PlV {
        PlV {
            name: self.name@,
            place: self.place@,
            orientation: self.orientation@,
            kind: self.kind,
        }
    }
}

/// The index of the first placement of `name`, or `-1`.
pub open spec fn pl_index_of(s: Seq<PlV>, name: Seq<char>) -> int
    decreases s.len(),
{
    if s.len() == 0 {
        -1
    } else if s[0].name == name {
        0
    } else {
        let r = pl_index_of(s.drop_first(), name);
        if r < 0 {
            -1
        } else {
            r + 1
        }
    }
}

/// Whether some placement is for `name`.
pub open spec fn has_pl(s: Seq<PlV>, name: Seq<char>) -> bool {
    pl_index_of(s, name) >= 0
}

/// The collection with `p` added, replacing a record of the same name.
pub open spec fn upsert_pl(s: Seq<PlV>, p: PlV) -> Seq<PlV> {
    if has_pl(s, p.name) {
        s.update(pl_index_of(s, p.name), p)
    } else {
        s.push(p)
    }
}

pub proof fn lemma_pl_index_of_props(s: Seq<PlV>, name: Seq<char>)
    ensures
        pl_index_of(s, name) >= 0 ==> pl_index_of(s, name) < s.len() && s[pl_index_of(
            s,
            name,
        )].name == name,
        pl_index_of(s, name) == -1 ==> forall|i: int| 0 <= i < s.len() ==> s[i].name != name,
        pl_index_of(s, name) >= -1,
    decreases s.len(),
{
    if s.len() > 0 && s[0].name != name {
        lemma_pl_index_of_props(s.drop_first(), name);
        let d = s.drop_first();
        assert(forall|i: int| 1 <= i < s.len() ==> s[i] == d[i - 1]);
        if pl_index_of(s, name) == -1 {
            assert forall|i: int| 0 <= i < s.len() implies s[i].name != name by {
                if i >= 1 {
                    assert(s[i] == d[i - 1]);
                }
            }
        }
    }
}

pub proof fn lemma_pl_index_found(s: Seq<PlV>, name: Seq<char>, i: int)
    requires
        0 <= i <= s.len(),
        forall|k: int| 0 <= k < i ==> s[k].name != name,
        i < s.len() ==> s[i].name == name,
    ensures
        pl_index_of(s, name) == if i == s.len() {
            -1int
        } else {
            i
        },
    decreases s.len(),
{
    if s.len() > 0 {
        if i == 0 && s[0].name == name {
        } else {
            lemma_pl_index_found(s.drop_first(), name, i - 1);
        }
    }
}

/// What reading one placement record at `pos` yields.
pub open spec fn parse_pl_at(s: Seq<u8>, pos: int) -> Result<(PlV, int), BookshelfError> {
    if !has_token(s, pos) {
        Err(BookshelfError::TruncatedInput)
    } else {
        let name = token_chars(s, pos);
        let p1 = after_token(s, pos);
        match parse_point_at(s, p1) {
            Err(e) => Err(e),
            Ok((place, p2)) => if !has_token(s, p2) {
                Err(BookshelfError::TruncatedInput)
            } else if token_chars(s, p2) != ":"@ {
                Err(BookshelfError::Grammar)
            } else {
                let p3 = after_token(s, p2);
                if !has_token(s, p3) {
                    Err(BookshelfError::TruncatedInput)
                } else {
                    let orient = token_chars(s, p3);
                    let p4 = after_token(s, p3);
                    if has_token(s, p4) && upper_seq(token_chars(s, p4)) == upper_seq("/FIXED"@) {
                        Ok((
                            PlV { name, place, orientation: orient, kind: Type::Fixed },
                            after_token(s, p4),
                        ))
                    } else if has_token(s, p4) && upper_seq(token_chars(s, p4)) == upper_seq("/FIXED_NI"@) {
                        Ok((
                            PlV { name, place, orientation: orient, kind: Type::FixedNotInImage },
                            after_token(s, p4),
                        ))
                    } else {
                        Ok((PlV { name, place, orientation: orient, kind: Type::Movable }, p4))
                    }
                }
            },
        }
    }
}

/// A placement record that reads successfully consumes at least one token.
pub proof fn lemma_parse_pl_progress(s: Seq<u8>, pos: int)
    requires
        0 <= pos <= s.len(),
    ensures
        parse_pl_at(s, pos) is Ok ==> pos < parse_pl_at(s, pos)->Ok_0.1 <= s.len(),
{
    if has_token(s, pos) {
        lemma_token_progress(s, pos);
        let p1 = after_token(s, pos);
        lemma_parse_point_progress(s, p1);
        if parse_point_at(s, p1) is Ok {
            let p2 = parse_point_at(s, p1)->Ok_0.1;
            if has_token(s, p2) {
                lemma_token_progress(s, p2);
                let p3 = after_token(s, p2);
                if has_token(s, p3) {
                    lemma_token_progress(s, p3);
                    let p4 = after_token(s, p3);
                    if has_token(s, p4) {
                        lemma_token_progress(s, p4);
                    }
                }
            }
        }
    }
}

/// The whole grammar of a placement file starting at `pos`.
pub open spec fn parse_pls_at(s: Seq<u8>, pos: int, acc: Seq<PlV>) -> Result<
    Seq<PlV>,
    BookshelfError,
>
    decreases s.len() - pos,
    when 0 <= pos <= s.len()
    via parse_pls_at_dec
{
    if !has_token(s, pos) {
        Ok(acc)
    } else {
        let t = token_chars(s, pos);
        let p1 = after_token(s, pos);
        if upper_seq(t) == upper_seq("UCLA"@) || upper_seq(t) == upper_seq("#"@) {
            parse_pls_at(s, line_start_after(s, p1), acc)
        } else {
            match parse_pl_at(s, pos) {
                Err(e) => Err(e),
                Ok((p, p2)) => parse_pls_at(s, p2, upsert_pl(acc, p)),
            }
        }
    }
}

#[via_fn]
proof fn parse_pls_at_dec(s: Seq<u8>, pos: int, acc: Seq<PlV>) {
    if 0 <= pos <= s.len() && has_token(s, pos) {
        lemma_token_progress(s, pos);
        lemma_line_start_bounds(s, after_token(s, pos));
        lemma_parse_pl_progress(s, pos);
    }
}

/// What a whole placement file denotes.
pub open spec fn parse_pls(s: Seq<u8>) -> Result<Seq<PlV>, BookshelfError> {
    parse_pls_at(s, 0, Seq::empty())
}

impl Pl {
    /// Reads one placement record.
    pub fn read(reader: &mut TokenReader) -> (r: Result<Pl, BookshelfError>)
        requires
            old(reader).wf(),
        ensures
            final(reader).wf(),
            final(reader).text() == old(reader).text(),
            match r {
                Ok(p) => parse_pl_at(old(reader).text(), old(reader).position()) == Ok::<
                    (PlV, int),
                    BookshelfError,
                >((p@, final(reader).position())),
                Err(e) => parse_pl_at(old(reader).text(), old(reader).position()) == Err::<
                    (PlV, int),
                    BookshelfError,
                >(e),
            },
    {
        let name = match reader.next_token() {
            None => {
                return Err(BookshelfError::TruncatedInput);
            },
            Some(t) => t,
        };
        let place = Point::read(reader)?;
        match reader.expect(":") {
            Ok(()) => {},
            Err(e) => {
                return Err(e);
            },
        }
        let orientation = match reader.next_token() {
            None => {
                return Err(BookshelfError::TruncatedInput);
            },
            Some(t) => t,
        };
        let kind = match reader.peek_token() {
            Some(next) => {
                if str_eq_ignore_case(next.as_str(), "/FIXED") {
                    let _ = reader.next_token();
                    Type::Fixed
                } else if str_eq_ignore_case(next.as_str(), "/FIXED_NI") {
                    let _ = reader.next_token();
                    Type::FixedNotInImage
                } else {
                    Type::Movable
                }
            },
            None => Type::Movable,
        };
        Ok(Pl { name, place, orientation, kind })
    }
}

/// The placement collection, keyed by unique name.
pub struct Pls {
    pub pls: Vec<Pl>,
}

impl View for Pls {
    type V = Seq<PlV>;

    open spec fn view(&self) -> Seq<PlV> {
        self.pls@.map_values(|p: Pl| p@)
    }
}

impl Pls {
    /// The collection's invariant: no two records share a name.
    pub open spec fn wf(&self) -> bool {
        forall|i: int, j: int| 0 <= i < j < self@.len() ==> self@[i].name != self@[j].name
    }

    /// The records, in declaration order.
    pub fn iter(&self) -> (r: &Vec<Pl>)
        ensures
            r@ == self.pls@,
    {
        &self.pls
    }

    /// How many placements were declared.
    pub fn len(&self) -> (r: usize)
        ensures
            r == self@.len(),
    {
        self.pls.len()
    }

    fn find_index(&self, name: &str) -> (r: Option<usize>)
        ensures
            match r {
                Some(i) => i < self@.len() && pl_index_of(self@, name@) == i,
                None => pl_index_of(self@, name@) == -1,
            },
    {
        let mut i: usize = 0;
        let n = self.pls.len();
        while i < n
            invariant
                i <= n,
                n == self@.len(),
                forall|k: int| 0 <= k < i ==> self@[k].name != name@,
            decreases n - i,
        {
            if str_eq(self.pls[i].name.as_str(), name) {
                proof {
                    lemma_pl_index_found(self@, name@, i as int);
                }
                return Some(i);
            }
            i = i + 1;
        }
        proof {
            lemma_pl_index_found(self@, name@, n as int);
        }
        None
    }

    /// Looks a placement up by name.
    pub fn get(&self, name: &str) -> (r: Option<&Pl>)
        ensures
            match r {
                Some(p) => {
                    &&& has_pl(self@, name@)
                    &&& p@ == self@[pl_index_of(self@, name@)]
                },
                None => !has_pl(self@, name@),
            },
    {
        match self.find_index(name) {
            Some(i) => Some(&self.pls[i]),
            None => None,
        }
    }

    fn upsert(&mut self, pl: Pl)
        requires
            old(self).wf(),
        ensures
            final(self).wf(),
            final(self)@ == upsert_pl(old(self)@, pl@),
    {
        let ghost pre = self@;
        let ghost pv = pl@;
        match self.find_index(pl.name.as_str()) {
            Some(i) => {
                proof {
                    lemma_pl_index_of_props(pre, pv.name);
                }
                self.pls.set(i, pl);
                proof {
                    assert(self@ =~= pre.update(pl_index_of(pre, pv.name), pv));
                }
            },
            None => {
                self.pls.push(pl);
                proof {
                    lemma_pl_index_of_props(pre, pv.name);
                    assert(self@ =~= pre.push(pv));
                }
            },
        }
    }

    /// Reads a whole placement file, returning exactly what the grammar says
    /// the bytes denote.
    pub fn read_from_file(bytes: Vec<u8>) -> (r: Result<Pls, BookshelfError>)
        ensures
            match r {
                Ok(ps) => {
                    &&& all_ascii(bytes@)
                    &&& parse_pls(bytes@) == Ok::<Seq<PlV>, BookshelfError>(ps@)
                    &&& ps.wf()
                },
                Err(e) => {
                    &&& !all_ascii(bytes@) ==> e == BookshelfError::Encoding
                    &&& all_ascii(bytes@) ==> parse_pls(bytes@) == Err::<
                        Seq<PlV>,
                        BookshelfError,
                    >(e)
                },
            },
    {
        let ghost s = bytes@;
        let mut reader = match TokenReader::new(bytes) {
            Ok(r) => r,
            Err(e) => {
                return Err(e);
            },
        };
        let mut res = Pls { pls: Vec::new() };
        proof {
            assert(res@ =~= Seq::<PlV>::empty());
        }
        loop
            invariant
                s == bytes@,
                reader.wf(),
                reader.text() == s,
                res.wf(),
                parse_pls_at(s, reader.position(), res@) == parse_pls(s),
            decreases s.len() - reader.position(),
        {
            let ghost pos0 = reader.position();
            proof {
                if has_token(s, pos0) {
                    lemma_token_progress(s, pos0);
                }
            }
            let t = match reader.peek_token() {
                None => {
                    return Ok(res);
                },
                Some(t) => t,
            };
            if str_eq_ignore_case(t.as_str(), "UCLA") || str_eq_ignore_case(t.as_str(), "#") {
                let _ = reader.next_token();
                let _ = reader.swallow_line();
                proof {
                    lemma_line_start_bounds(s, after_token(s, pos0));
                }
            } else {
                let pl = match Pl::read(&mut reader) {
                    Ok(p) => p,
                    Err(e) => {
                        return Err(e);
                    },
                };
                proof {
                    lemma_parse_pl_progress(s, pos0);
                }
                res.upsert(pl);
            }
        }
    }
}

} // verus!
