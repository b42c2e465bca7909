//! The nets file: `NetDegree : <count> <name>` headers, each followed by pin
//! lines `<instance> <pin> : <dx> <dy>` until the next header. Header and
//! comment lines are discarded; an unrecognized keyword skips its line.
//! `parse_nets` is the grammar; `Nets::read_from_file` is proved to compute
//! it.

use vstd::prelude::*;
use crate::error::BookshelfError;
use crate::geom::{Point, PointV, parse_point_at, lemma_parse_point_progress};
use crate::reader::{
    TokenReader, all_ascii, has_token, token_chars, after_token, line_start_after,
    lemma_token_progress, lemma_line_start_bounds,
};
use crate::strutil::{str_eq_ignore_case, upper_seq};

verus! {

/// One net endpoint: an instance, a pin label and an offset from the
/// instance centre.
pub struct Pin {
    pub pin_name: String,
    pub instance_name: String,
    pub offset: Point,
}

/// The mathematical value of a net endpoint.
pub struct PinV {
    pub pin_name: Seq<char>,
    pub instance_name: Seq<char>,
    pub offset: PointV,
}

impl View for Pin {
    type V = PinV;

    open spec fn view(&self) -> PinV {
        PinV {
            pin_name: self.pin_name@,
            instance_name: self.instance_name@,
            offset: self.offset@,
        }
    }
}

/// One net: a name and its ordered endpoints.
pub struct Net {
    pub name: String,
    pub pin: Vec<Pin>,
}

/// The mathematical value of a net.
pub struct NetV {
    pub name: Seq<char>,
    pub pin: Seq<PinV>,
}

impl View for Net {
    type V = NetV;

    open spec fn view(&self) -> NetV {
        NetV { name: self.name@, pin: self.pin@.map_values(|p: Pin| p@) }
    }
}

/// What reading one pin line at `pos` yields.
pub open spec fn parse_pin_at(s: Seq<u8>, pos: int) -> Result<(PinV, int), BookshelfError> {
    if !has_token(s, pos) {
        Err(BookshelfError::TruncatedInput)
    } else {
        let inst = token_chars(s, pos);
        let p1 = after_token(s, pos);
        if !has_token(s, p1) {
            Err(BookshelfError::TruncatedInput)
        } else {
            let pname = token_chars(s, p1);
            let p2 = after_token(s, p1);
            if !has_token(s, p2) {
                Err(BookshelfError::TruncatedInput)
            } else if token_chars(s, p2) != ":"@ {
                Err(BookshelfError::Grammar)
            } else {
                match parse_point_at(s, after_token(s, p2)) {
                    Err(e) => Err(e),
                    Ok((off, p3)) => Ok(
                        (PinV { pin_name: pname, instance_name: inst, offset: off }, p3),
                    ),
                }
            }
        }
    }
}

/// A pin line that reads successfully consumes at least one token.
pub proof fn lemma_parse_pin_progress(s: Seq<u8>, pos: int)
    requires
        0 <= pos <= s.len(),
    ensures
        parse_pin_at(s, pos) is Ok ==> pos < parse_pin_at(s, pos)->Ok_0.1 <= s.len(),
{
    if has_token(s, pos) {
        lemma_token_progress(s, pos);
        let p1 = after_token(s, pos);
        if has_token(s, p1) {
            lemma_token_progress(s, p1);
            let p2 = after_token(s, p1);
            if has_token(s, p2) {
                lemma_token_progress(s, p2);
                lemma_parse_point_progress(s, after_token(s, p2));
            }
        }
    }
}

/// The pin lines of one net: everything until the end of the input or the
/// next `NetDegree` header.
pub open spec fn parse_net_pins_at(s: Seq<u8>, pos: int, acc: Seq<PinV>) -> Result<
    (Seq<PinV>, int),
    BookshelfError,
>
    decreases s.len() - pos,
    when 0 <= pos <= s.len()
    via parse_net_pins_at_dec
{
    if !has_token(s, pos) {
        Ok((acc, pos))
    } else if upper_seq(token_chars(s, pos)) == upper_seq("NetDegree"@) {
        Ok((acc, pos))
    } else {
        match parse_pin_at(s, pos) {
            Err(e) => Err(e),
            Ok((p, p2)) => parse_net_pins_at(s, p2, acc.push(p)),
        }
    }
}

#[via_fn]
proof fn parse_net_pins_at_dec(s: Seq<u8>, pos: int, acc: Seq<PinV>) {
    if 0 <= pos <= s.len() {
        lemma_parse_pin_progress(s, pos);
    }
}

/// The pin list never moves the position backwards.
pub proof fn lemma_parse_net_pins_progress(s: Seq<u8>, pos: int, acc: Seq<PinV>)
    requires
        0 <= pos <= s.len(),
    ensures
        parse_net_pins_at(s, pos, acc) is Ok ==> pos <= parse_net_pins_at(s, pos, acc)->Ok_0.1
            <= s.len(),
    decreases s.len() - pos,
{
    if has_token(s, pos) && upper_seq(token_chars(s, pos)) != upper_seq("NetDegree"@) {
        lemma_parse_pin_progress(s, pos);
        if parse_pin_at(s, pos) is Ok {
            let p2 = parse_pin_at(s, pos)->Ok_0.1;
            lemma_parse_net_pins_progress(s, p2, acc.push(parse_pin_at(s, pos)->Ok_0.0));
        }
    }
}

/// What reading one whole net record at `pos` yields. The declared degree
/// token is read but not trusted: the pin list extends to the next header.
pub open spec fn parse_net_at(s: Seq<u8>, pos: int) -> Result<(NetV, int), BookshelfError> {
    if !has_token(s, pos) {
        Err(BookshelfError::TruncatedInput)
    } else if token_chars(s, pos) != "NetDegree"@ {
        Err(BookshelfError::Grammar)
    } else {
        let p1 = after_token(s, pos);
        if !has_token(s, p1) {
            Err(BookshelfError::TruncatedInput)
        } else if token_chars(s, p1) != ":"@ {
            Err(BookshelfError::Grammar)
        } else {
            let p2 = after_token(s, p1);
            if !has_token(s, p2) {
                Err(BookshelfError::TruncatedInput)
            } else {
                let p3 = after_token(s, p2);
                if !has_token(s, p3) {
                    Err(BookshelfError::TruncatedInput)
                } else {
                    let name = token_chars(s, p3);
                    let p4 = after_token(s, p3);
                    match parse_net_pins_at(s, p4, Seq::empty()) {
                        Err(e) => Err(e),
                        Ok((pins, p5)) => Ok((NetV { name, pin: pins }, p5)),
                    }
                }
            }
        }
    }
}

/// A net record that reads successfully consumes at least one token.
pub proof fn lemma_parse_net_progress(s: Seq<u8>, pos: int)
    requires
        0 <= pos <= s.len(),
    ensures
        parse_net_at(s, pos) is Ok ==> pos < parse_net_at(s, pos)->Ok_0.1 <= s.len(),
{
    if has_token(s, pos) {
        lemma_token_progress(s, pos);
        let p1 = after_token(s, pos);
        if has_token(s, p1) {
            lemma_token_progress(s, p1);
            let p2 = after_token(s, p1);
            if has_token(s, p2) {
                lemma_token_progress(s, p2);
                let p3 = after_token(s, p2);
                if has_token(s, p3) {
                    lemma_token_progress(s, p3);
                    let p4 = after_token(s, p3);
                    lemma_parse_net_pins_progress(s, p4, Seq::empty());
                }
            }
        }
    }
}

/// The whole grammar of a nets file starting at `pos`.
pub open spec fn parse_nets_at(s: Seq<u8>, pos: int, acc: Seq<NetV>) -> Result<
    Seq<NetV>,
    BookshelfError,
>
    decreases s.len() - pos,
    when 0 <= pos <= s.len()
    via parse_nets_at_dec
{
    if !has_token(s, pos) {
        Ok(acc)
    } else {
        let t = token_chars(s, pos);
        let p1 = after_token(s, pos);
        if upper_seq(t) == upper_seq("UCLA"@) || upper_seq(t) == upper_seq("#"@) || upper_seq(t)
            == upper_seq("NumNets"@) || upper_seq(t) == upper_seq("NumPins"@) {
            parse_nets_at(s, line_start_after(s, p1), acc)
        } else if upper_seq(t) == upper_seq("NetDegree"@) {
            match parse_net_at(s, pos) {
                Err(e) => Err(e),
                Ok((n, p2)) => parse_nets_at(s, p2, acc.push(n)),
            }
        } else {
            parse_nets_at(s, line_start_after(s, p1), acc)
        }
    }
}

#[via_fn]
proof fn parse_nets_at_dec(s: Seq<u8>, pos: int, acc: Seq<NetV>) {
    if 0 <= pos <= s.len() && has_token(s, pos) {
        lemma_token_progress(s, pos);
        lemma_line_start_bounds(s, after_token(s, pos));
        lemma_parse_net_progress(s, pos);
    }
}

/// What a whole nets file denotes.
pub open spec fn parse_nets(s: Seq<u8>) -> Result<Seq<NetV>, BookshelfError> {
    parse_nets_at(s, 0, Seq::empty())
}

impl Pin {
    /// Reads one pin line.
    pub fn read(reader: &mut TokenReader) -> (r: Result<Pin, BookshelfError>)
        requires
            old(reader).wf(),
        ensures
            final(reader).wf(),
            final(reader).text() == old(reader).text(),
            match r {
                Ok(p) => parse_pin_at(old(reader).text(), old(reader).position()) == Ok::<
                    (PinV, int),
                    BookshelfError,
                >((p@, final(reader).position())),
                Err(e) => parse_pin_at(old(reader).text(), old(reader).position()) == Err::<
                    (PinV, int),
                    BookshelfError,
                >(e),
            },
    {
        let instance_name = match reader.next_token() {
            None => {
                return Err(BookshelfError::TruncatedInput);
            },
            Some(t) => t,
        };
        let pin_name = match reader.next_token() {
            None => {
                return Err(BookshelfError::TruncatedInput);
            },
            Some(t) => t,
        };
        match reader.expect(":") {
            Ok(()) => {},
            Err(e) => {
                return Err(e);
            },
        }
        let offset = Point::read(reader)?;
        Ok(Pin { pin_name, instance_name, offset })
    }
}

impl Net {
    /// Reads one net record: its header, then pin lines until the next
    /// header or the end of the input.
    pub fn read(reader: &mut TokenReader) -> (r: Result<Net, BookshelfError>)
        requires
            old(reader).wf(),
        ensures
            final(reader).wf(),
            final(reader).text() == old(reader).text(),
            match r {
                Ok(n) => parse_net_at(old(reader).text(), old(reader).position()) == Ok::<
                    (NetV, int),
                    BookshelfError,
                >((n@, final(reader).position())),
                Err(e) => parse_net_at(old(reader).text(), old(reader).position()) == Err::<
                    (NetV, int),
                    BookshelfError,
                >(e),
            },
    {
        let ghost s = old(reader).text();
        let ghost pos0 = old(reader).position();
        match reader.expect("NetDegree") {
            Ok(()) => {},
            Err(e) => {
                return Err(e);
            },
        }
        match reader.expect(":") {
            Ok(()) => {},
            Err(e) => {
                return Err(e);
            },
        }
        // The declared degree is read and ignored; the pin list speaks for
        // itself.
        match reader.next_token() {
            None => {
                return Err(BookshelfError::TruncatedInput);
            },
            Some(_) => {},
        }
        let name = match reader.next_token() {
            None => {
                return Err(BookshelfError::TruncatedInput);
            },
            Some(t) => t,
        };
        let ghost pstart = reader.position();
        let ghost name_v = name@;
        let mut pin: Vec<Pin> = Vec::new();
        proof {
            assert(pin@.map_values(|p: Pin| p@) =~= Seq::<PinV>::empty());
        }
        loop
            invariant
                s == old(reader).text(),
                pos0 == old(reader).position(),
                reader.wf(),
                reader.text() == s,
                0 <= pstart <= s.len(),
                name_v == name@,
                parse_net_pins_at(s, reader.position(), pin@.map_values(|p: Pin| p@))
                    == parse_net_pins_at(s, pstart, Seq::empty()),
                parse_net_at(s, pos0) == (match parse_net_pins_at(s, pstart, Seq::empty()) {
                    Err(e) => Err::<(NetV, int), BookshelfError>(e),
                    Ok((ps, p)) => Ok::<(NetV, int), BookshelfError>(
                        (NetV { name: name_v, pin: ps }, p),
                    ),
                }),
            decreases s.len() - reader.position(),
        {
            let ghost posl = reader.position();
            let keep_going = match reader.peek_token() {
                None => false,
                Some(t) => !str_eq_ignore_case(t.as_str(), "NetDegree"),
            };
            if !keep_going {
                return Ok(Net { name, pin });
            }
            proof {
                lemma_parse_pin_progress(s, posl);
            }
            let p = match Pin::read(reader) {
                Ok(p) => p,
                Err(e) => {
                    return Err(e);
                },
            };
            let ghost pins_before = pin@.map_values(|q: Pin| q@);
            pin.push(p);
            proof {
                assert(pin@.map_values(|q: Pin| q@) =~= pins_before.push(p@));
            }
        }
    }
}

/// The net collection, in file order.
pub struct Nets {
    pub nets: Vec<Net>,
}

impl View for Nets {
    type V = Seq<NetV>;

    open spec fn view(&self) -> Seq<NetV> {
        self.nets@.map_values(|n: Net| n@)
    }
}

impl Nets {
    /// How many nets were declared.
    pub fn len(&self) -> (r: usize)
        ensures
            r == self@.len(),
    {
        self.nets.len()
    }

    /// The nets, in declaration order.
    pub fn iter(&self) -> (r: &Vec<Net>)
        ensures
            r@ == self.nets@,
    {
        &self.nets
    }

    /// Reads a whole nets file, returning exactly what the grammar says the
    /// bytes denote.
    pub fn read_from_file(bytes: Vec<u8>) -> (r: Result<Nets, BookshelfError>)
        ensures
            match r {
                Ok(ns) => {
                    &&& all_ascii(bytes@)
                    &&& parse_nets(bytes@) == Ok::<Seq<NetV>, BookshelfError>(ns@)
                },
                Err(e) => {
                    &&& !all_ascii(bytes@) ==> e == BookshelfError::Encoding
                    &&& all_ascii(bytes@) ==> parse_nets(bytes@) == Err::<
                        Seq<NetV>,
                        BookshelfError,
                    >(e)
                },
            },
    {
        let ghost s = bytes@;
        let mut reader = match TokenReader::new(bytes) {
            Ok(r) => r,
            Err(e) => {
                return Err(e);
            },
        };
        let mut res = Nets { nets: Vec::new() };
        proof {
            assert(res@ =~= Seq::<NetV>::empty());
        }
        loop
            invariant
                s == bytes@,
                reader.wf(),
                reader.text() == s,
                parse_nets_at(s, reader.position(), res@) == parse_nets(s),
            decreases s.len() - reader.position(),
        {
            let ghost pos0 = reader.position();
            proof {
                if has_token(s, pos0) {
                    lemma_token_progress(s, pos0);
                }
            }
            let t = match reader.peek_token() {
                None => {
                    return Ok(res);
                },
                Some(t) => t,
            };
            if str_eq_ignore_case(t.as_str(), "UCLA") || str_eq_ignore_case(t.as_str(), "#")
                || str_eq_ignore_case(t.as_str(), "NumNets") || str_eq_ignore_case(
                t.as_str(),
                "NumPins",
            ) {
                let _ = reader.next_token();
                let _ = reader.swallow_line();
                proof {
                    lemma_line_start_bounds(s, after_token(s, pos0));
                }
            } else if str_eq_ignore_case(t.as_str(), "NetDegree") {
                proof {
                    lemma_parse_net_progress(s, pos0);
                }
                let net = match Net::read(&mut reader) {
                    Ok(n) => n,
                    Err(e) => {
                        return Err(e);
                    },
                };
                let ghost nets_before = res@;
                res.nets.push(net);
                proof {
                    assert(res@ =~= nets_before.push(net@));
                }
            } else {
                let _ = reader.next_token();
                let _ = reader.swallow_line();
                proof {
                    lemma_line_start_bounds(s, after_token(s, pos0));
                }
            }
        }
    }
}

} // verus!
