//! The rows file: `CoreRow ... End` stanzas of keyword/value settings
//! describing one placement row each. Unknown keywords inside a stanza are
//! skipped token by token; header and comment lines are discarded.
//! `parse_scl` is the grammar; `Scl::read_from_file` is proved to compute it.

use vstd::prelude::*;
use crate::error::BookshelfError;
use crate::reader::{
    TokenReader, all_ascii, has_token, token_chars, after_token, line_start_after,
    lemma_token_progress, lemma_line_start_bounds,
};
use crate::strutil::{str_eq_ignore_case, upper_seq};
use crate::util::{is_i64_token, int_token_val, parse};

verus! {

/// Whether a row runs horizontally or vertically.
#[derive(Clone, Copy, Debug, PartialEq, Eq, Structural)]
pub enum RowOrientation {
    Horizontal,
    Vertical,
}

/// The declared orientation of the sites in a row.
#[derive(Clone, Copy, Debug, PartialEq, Eq, Structural)]
pub enum SiteOrient {
    N,
    FS,
}

/// The declared symmetry of the sites in a row.
#[derive(Clone, Copy, Debug, PartialEq, Eq, Structural)]
pub enum SiteSymmetry {
    X,
    Y,
}

/// One placement row of standard-cell sites.
#[derive(Clone, Copy, Debug, PartialEq, Eq, Structural)]
pub struct Row {
    pub coordinate: i64,
    pub height: i64,
    pub site_width: i64,
    pub site_spacing: i64,
    pub site_orient: SiteOrient,
    pub site_symmetry: SiteSymmetry,
    pub subrow_origin: i64,
    pub num_sites: i64,
    pub orientation: RowOrientation,
}

/// The mathematical value of a row record.
pub struct RowV {
    pub coordinate: int,
    pub height: int,
    pub site_width: int,
    pub site_spacing: int,
    pub site_orient: SiteOrient,
    pub site_symmetry: SiteSymmetry,
    pub subrow_origin: int,
    pub num_sites: int,
    pub orientation: RowOrientation,
}

impl View for Row {
    type V = RowV;

    open spec fn view(&self) -> RowV {
        RowV {
            coordinate: self.coordinate as int,
            height: self.height as int,
            site_width: self.site_width as int,
            site_spacing: self.site_spacing as int,
            site_orient: self.site_orient,
            site_symmetry: self.site_symmetry,
            subrow_origin: self.subrow_origin as int,
            num_sites: self.num_sites as int,
            orientation: self.orientation,
        }
    }
}

/// The row every stanza starts from before its settings are applied.
pub open spec fn default_row() -> RowV {
    RowV {
        coordinate: 0,
        height: 0,
        site_width: 0,
        site_spacing: 0,
        site_orient: SiteOrient::N,
        site_symmetry: SiteSymmetry::Y,
        subrow_origin: 0,
        num_sites: 0,
        orientation: RowOrientation::Horizontal,
    }
}

/// What reading `: <integer>` at `pos` yields.
pub open spec fn parse_colon_int(s: Seq<u8>, pos: int) -> Result<(int, int), BookshelfError> {
    if !has_token(s, pos) {
        Err(BookshelfError::TruncatedInput)
    } else if token_chars(s, pos) != ":"@ {
        Err(BookshelfError::Grammar)
    } else {
        let p1 = after_token(s, pos);
        if !has_token(s, p1) {
            Err(BookshelfError::TruncatedInput)
        } else if is_i64_token(token_chars(s, p1)) {
            Ok((int_token_val(token_chars(s, p1)), after_token(s, p1)))
        } else {
            Err(BookshelfError::Grammar)
        }
    }
}

/// What reading `: <token>` at `pos` yields.
pub open spec fn parse_colon_word(s: Seq<u8>, pos: int) -> Result<
    (Seq<char>, int),
    BookshelfError,
> {
    if !has_token(s, pos) {
        Err(BookshelfError::TruncatedInput)
    } else if token_chars(s, pos) != ":"@ {
        Err(BookshelfError::Grammar)
    } else {
        let p1 = after_token(s, pos);
        if !has_token(s, p1) {
            Err(BookshelfError::TruncatedInput)
        } else {
            Ok((token_chars(s, p1), after_token(s, p1)))
        }
    }
}

pub proof fn lemma_parse_colon_progress(s: Seq<u8>, pos: int)
    requires
        0 <= pos <= s.len(),
    ensures
        parse_colon_int(s, pos) is Ok ==> pos < parse_colon_int(s, pos)->Ok_0.1 <= s.len(),
        parse_colon_word(s, pos) is Ok ==> pos < parse_colon_word(s, pos)->Ok_0.1 <= s.len(),
{
    if has_token(s, pos) {
        lemma_token_progress(s, pos);
        let p1 = after_token(s, pos);
        if has_token(s, p1) {
            lemma_token_progress(s, p1);
        }
    }
}

/// The grammar of the remainder of one row stanza, with the settings read
/// so far in `row`.
pub open spec fn parse_row_at(s: Seq<u8>, pos: int, row: RowV) -> Result<
    (RowV, int),
    BookshelfError,
>
    decreases s.len() - pos,
    when 0 <= pos <= s.len()
    via parse_row_at_dec
{
    if !has_token(s, pos) {
        Ok((row, s.len() as int))
    } else {
        let t = upper_seq(token_chars(s, pos));
        let p1 = after_token(s, pos);
        if t == upper_seq("End"@) {
            Ok((row, p1))
        } else if t == upper_seq("CoreRow"@) {
            parse_row_at(s, p1, row)
        } else if t == upper_seq("Horizontal"@) {
            parse_row_at(s, p1, RowV { orientation: RowOrientation::Horizontal, ..row })
        } else if t == upper_seq("Vertical"@) {
            parse_row_at(s, p1, RowV { orientation: RowOrientation::Vertical, ..row })
        } else if t == upper_seq("Coordinate"@) {
            match parse_colon_int(s, p1) {
                Err(e) => Err(e),
                Ok((v, p2)) => parse_row_at(s, p2, RowV { coordinate: v, ..row }),
            }
        } else if t == upper_seq("Height"@) {
            match parse_colon_int(s, p1) {
                Err(e) => Err(e),
                Ok((v, p2)) => parse_row_at(s, p2, RowV { height: v, ..row }),
            }
        } else if t == upper_seq("Sitewidth"@) {
            match parse_colon_int(s, p1) {
                Err(e) => Err(e),
                Ok((v, p2)) => parse_row_at(s, p2, RowV { site_width: v, ..row }),
            }
        } else if t == upper_seq("Sitespacing"@) {
            match parse_colon_int(s, p1) {
                Err(e) => Err(e),
                Ok((v, p2)) => parse_row_at(s, p2, RowV { site_spacing: v, ..row }),
            }
        } else if t == upper_seq("Siteorient"@) {
            match parse_colon_word(s, p1) {
                Err(e) => Err(e),
                Ok((w, p2)) => {
                    if upper_seq(w) == upper_seq("N"@) {
                        parse_row_at(s, p2, RowV { site_orient: SiteOrient::N, ..row })
                    } else if upper_seq(w) == upper_seq("FS"@) {
                        parse_row_at(s, p2, RowV { site_orient: SiteOrient::FS, ..row })
                    } else {
                        Err(BookshelfError::Grammar)
                    }
                },
            }
        } else if t == upper_seq("Sitesymmetry"@) {
            match parse_colon_word(s, p1) {
                Err(e) => Err(e),
                Ok((w, p2)) => {
                    if upper_seq(w) == upper_seq("X"@) {
                        parse_row_at(s, p2, RowV { site_symmetry: SiteSymmetry::X, ..row })
                    } else if upper_seq(w) == upper_seq("Y"@) {
                        parse_row_at(s, p2, RowV { site_symmetry: SiteSymmetry::Y, ..row })
                    } else {
                        Err(BookshelfError::Grammar)
                    }
                },
            }
        } else if t == upper_seq("Subroworigin"@) {
            match parse_colon_int(s, p1) {
                Err(e) => Err(e),
                Ok((v, p2)) => parse_row_at(s, p2, RowV { subrow_origin: v, ..row }),
            }
        } else if t == upper_seq("Numsites"@) {
            match parse_colon_int(s, p1) {
                Err(e) => Err(e),
                Ok((v, p2)) => parse_row_at(s, p2, RowV { num_sites: v, ..row }),
            }
        } else {
            parse_row_at(s, p1, row)
        }
    }
}

#[via_fn]
proof fn parse_row_at_dec(s: Seq<u8>, pos: int, row: RowV) {
    if 0 <= pos <= s.len() && has_token(s, pos) {
        lemma_token_progress(s, pos);
        lemma_parse_colon_progress(s, after_token(s, pos));
    }
}

/// A row stanza never moves the position backwards.
pub proof fn lemma_parse_row_progress(s: Seq<u8>, pos: int, row: RowV)
    requires
        0 <= pos <= s.len(),
    ensures
        parse_row_at(s, pos, row) is Ok ==> pos <= parse_row_at(s, pos, row)->Ok_0.1 <= s.len(),
    decreases s.len() - pos,
{
    if has_token(s, pos) {
        lemma_token_progress(s, pos);
        let p1 = after_token(s, pos);
        lemma_parse_colon_progress(s, p1);
        let t = upper_seq(token_chars(s, pos));
        if t == upper_seq("End"@) {
        } else if t == upper_seq("CoreRow"@) {
            lemma_parse_row_progress(s, p1, row);
        } else if t == upper_seq("Horizontal"@) {
            lemma_parse_row_progress(s, p1, RowV { orientation: RowOrientation::Horizontal, ..row });
        } else if t == upper_seq("Vertical"@) {
            lemma_parse_row_progress(s, p1, RowV { orientation: RowOrientation::Vertical, ..row });
        } else if t == upper_seq("Coordinate"@) {
            if parse_colon_int(s, p1) is Ok {
                let (v, p2) = parse_colon_int(s, p1)->Ok_0;
                lemma_parse_row_progress(s, p2, RowV { coordinate: v, ..row });
            }
        } else if t == upper_seq("Height"@) {
            if parse_colon_int(s, p1) is Ok {
                let (v, p2) = parse_colon_int(s, p1)->Ok_0;
                lemma_parse_row_progress(s, p2, RowV { height: v, ..row });
            }
        } else if t == upper_seq("Sitewidth"@) {
            if parse_colon_int(s, p1) is Ok {
                let (v, p2) = parse_colon_int(s, p1)->Ok_0;
                lemma_parse_row_progress(s, p2, RowV { site_width: v, ..row });
            }
        } else if t == upper_seq("Sitespacing"@) {
            if parse_colon_int(s, p1) is Ok {
                let (v, p2) = parse_colon_int(s, p1)->Ok_0;
                lemma_parse_row_progress(s, p2, RowV { site_spacing: v, ..row });
            }
        } else if t == upper_seq("Siteorient"@) {
            if parse_colon_word(s, p1) is Ok {
                let (w, p2) = parse_colon_word(s, p1)->Ok_0;
                if upper_seq(w) == upper_seq("N"@) {
                    lemma_parse_row_progress(s, p2, RowV { site_orient: SiteOrient::N, ..row });
                } else if upper_seq(w) == upper_seq("FS"@) {
                    lemma_parse_row_progress(s, p2, RowV { site_orient: SiteOrient::FS, ..row });
                }
            }
        } else if t == upper_seq("Sitesymmetry"@) {
            if parse_colon_word(s, p1) is Ok {
                let (w, p2) = parse_colon_word(s, p1)->Ok_0;
                if upper_seq(w) == upper_seq("X"@) {
                    lemma_parse_row_progress(s, p2, RowV { site_symmetry: SiteSymmetry::X, ..row });
                } else if upper_seq(w) == upper_seq("Y"@) {
                    lemma_parse_row_progress(s, p2, RowV { site_symmetry: SiteSymmetry::Y, ..row });
                }
            }
        } else if t == upper_seq("Subroworigin"@) {
            if parse_colon_int(s, p1) is Ok {
                let (v, p2) = parse_colon_int(s, p1)->Ok_0;
                lemma_parse_row_progress(s, p2, RowV { subrow_origin: v, ..row });
            }
        } else if t == upper_seq("Numsites"@) {
            if parse_colon_int(s, p1) is Ok {
                let (v, p2) = parse_colon_int(s, p1)->Ok_0;
                lemma_parse_row_progress(s, p2, RowV { num_sites: v, ..row });
            }
        } else {
            lemma_parse_row_progress(s, p1, row);
        }
    }
}

/// The whole grammar of a rows file starting at `pos`.
pub open spec fn parse_scl_at(s: Seq<u8>, pos: int, acc: Seq<RowV>) -> Result<
    Seq<RowV>,
    BookshelfError,
>
    decreases s.len() - pos,
    when 0 <= pos <= s.len()
    via parse_scl_at_dec
{
    if !has_token(s, pos) {
        Ok(acc)
    } else {
        let t = upper_seq(token_chars(s, pos));
        let p1 = after_token(s, pos);
        if t == upper_seq("UCLA"@) || t == upper_seq("#"@) || t == upper_seq("NumRows"@) {
            parse_scl_at(s, line_start_after(s, p1), acc)
        } else if t == upper_seq("CoreRow"@) {
            match parse_row_at(s, p1, default_row()) {
                Err(e) => Err(e),
                Ok((row, p2)) => parse_scl_at(s, p2, acc.push(row)),
            }
        } else {
            parse_scl_at(s, line_start_after(s, p1), acc)
        }
    }
}

#[via_fn]
proof fn parse_scl_at_dec(s: Seq<u8>, pos: int, acc: Seq<RowV>) {
    if 0 <= pos <= s.len() && has_token(s, pos) {
        lemma_token_progress(s, pos);
        let p1 = after_token(s, pos);
        lemma_line_start_bounds(s, p1);
        lemma_parse_row_progress(s, p1, default_row());
    }
}

/// What a whole rows file denotes.
pub open spec fn parse_scl(s: Seq<u8>) -> Result<Seq<RowV>, BookshelfError> {
    parse_scl_at(s, 0, Seq::empty())
}

impl Row {
    /// Reads the remainder of one row stanza, the `CoreRow` keyword already
    /// consumed.
    pub fn read(reader: &mut TokenReader) -> (r: Result<Row, BookshelfError>)
        requires
            old(reader).wf(),
        ensures
            final(reader).wf(),
            final(reader).text() == old(reader).text(),
            match r {
                Ok(row) => parse_row_at(old(reader).text(), old(reader).position(), default_row())
                    == Ok::<(RowV, int), BookshelfError>((row@, final(reader).position())),
                Err(e) => parse_row_at(old(reader).text(), old(reader).position(), default_row())
                    == Err::<(RowV, int), BookshelfError>(e),
            },
    {
        let ghost s = old(reader).text();
        let mut res = Row {
            coordinate: 0,
            height: 0,
            site_width: 0,
            site_spacing: 0,
            site_orient: SiteOrient::N,
            site_symmetry: SiteSymmetry::Y,
            subrow_origin: 0,
            num_sites: 0,
            orientation: RowOrientation::Horizontal,
        };
        loop
            invariant
                s == old(reader).text(),
                reader.wf(),
                reader.text() == s,
                parse_row_at(s, reader.position(), res@) == parse_row_at(
                    s,
                    old(reader).position(),
                    default_row(),
                ),
            decreases s.len() - reader.position(),
        {
            let ghost pos0 = reader.position();
            proof {
                if has_token(s, pos0) {
                    lemma_token_progress(s, pos0);
                    lemma_parse_colon_progress(s, after_token(s, pos0));
                }
            }
            let t = match reader.next_token() {
                None => {
                    return Ok(res);
                },
                Some(t) => t,
            };
            if str_eq_ignore_case(t.as_str(), "End") {
                return Ok(res);
            } else if str_eq_ignore_case(t.as_str(), "CoreRow") {
                // nothing to set
            } else if str_eq_ignore_case(t.as_str(), "Horizontal") {
                res.orientation = RowOrientation::Horizontal;
            } else if str_eq_ignore_case(t.as_str(), "Vertical") {
                res.orientation = RowOrientation::Vertical;
            } else if str_eq_ignore_case(t.as_str(), "Coordinate") {
                res.coordinate = read_colon_int(reader)?;
            } else if str_eq_ignore_case(t.as_str(), "Height") {
                res.height = read_colon_int(reader)?;
            } else if str_eq_ignore_case(t.as_str(), "Sitewidth") {
                res.site_width = read_colon_int(reader)?;
            } else if str_eq_ignore_case(t.as_str(), "Sitespacing") {
                res.site_spacing = read_colon_int(reader)?;
            } else if str_eq_ignore_case(t.as_str(), "Siteorient") {
                let w = read_colon_word(reader)?;
                if str_eq_ignore_case(w.as_str(), "N") {
                    res.site_orient = SiteOrient::N;
                } else if str_eq_ignore_case(w.as_str(), "FS") {
                    res.site_orient = SiteOrient::FS;
                } else {
                    return Err(BookshelfError::Grammar);
                }
            } else if str_eq_ignore_case(t.as_str(), "Sitesymmetry") {
                let w = read_colon_word(reader)?;
                if str_eq_ignore_case(w.as_str(), "X") {
                    res.site_symmetry = SiteSymmetry::X;
                } else if str_eq_ignore_case(w.as_str(), "Y") {
                    res.site_symmetry = SiteSymmetry::Y;
                } else {
                    return Err(BookshelfError::Grammar);
                }
            } else if str_eq_ignore_case(t.as_str(), "Subroworigin") {
                res.subrow_origin = read_colon_int(reader)?;
            } else if str_eq_ignore_case(t.as_str(), "Numsites") {
                res.num_sites = read_colon_int(reader)?;
            } else {
                // an unknown setting: skip the token and go on
            }
        }
    }
}

/// Reads `: <integer>`.
pub fn read_colon_int(reader: &mut TokenReader) -> (r: Result<i64, BookshelfError>)
    requires
        old(reader).wf(),
    ensures
        final(reader).wf(),
        final(reader).text() == old(reader).text(),
        match r {
            Ok(v) => parse_colon_int(old(reader).text(), old(reader).position()) == Ok::<
                (int, int),
                BookshelfError,
            >((v as int, final(reader).position())),
            Err(e) => parse_colon_int(old(reader).text(), old(reader).position()) == Err::<
                (int, int),
                BookshelfError,
            >(e),
        },
{
    match reader.expect(":") {
        Ok(()) => {},
        Err(e) => {
            return Err(e);
        },
    }
    let t = match reader.next_token() {
        None => {
            return Err(BookshelfError::TruncatedInput);
        },
        Some(t) => t,
    };
    match parse(t.as_str()) {
        Some(v) => Ok(v),
        None => Err(BookshelfError::Grammar),
    }
}

/// Reads `: <token>`.
fn read_colon_word(reader: &mut TokenReader) -> (r: Result<String, BookshelfError>)
    requires
        old(reader).wf(),
    ensures
        final(reader).wf(),
        final(reader).text() == old(reader).text(),
        match r {
            Ok(w) => parse_colon_word(old(reader).text(), old(reader).position()) == Ok::<
                (Seq<char>, int),
                BookshelfError,
            >((w@, final(reader).position())),
            Err(e) => parse_colon_word(old(reader).text(), old(reader).position()) == Err::<
                (Seq<char>, int),
                BookshelfError,
            >(e),
        },
{
    match reader.expect(":") {
        Ok(()) => {},
        Err(e) => {
            return Err(e);
        },
    }
    match reader.next_token() {
        None => Err(BookshelfError::TruncatedInput),
        Some(t) => Ok(t),
    }
}

/// The row collection, in file order.
pub struct Scl {
    pub rows: Vec<Row>,
}

impl View for Scl {
    type V = Seq<RowV>;

    open spec fn view(&self) -> Seq<RowV> {
        self.rows@.map_values(|r: Row| r@)
    }
}

impl Scl {
    /// The rows, in declaration order.
    pub fn iter(&self) -> (r: &Vec<Row>)
        ensures
            r@ == self.rows@,
    {
        &self.rows
    }

    /// How many rows were declared.
    pub fn len(&self) -> (r: usize)
        ensures
            r == self@.len(),
    {
        self.rows.len()
    }

    /// Reads a whole rows file, returning exactly what the grammar says the
    /// bytes denote.
    pub fn read_from_file(bytes: Vec<u8>) -> (r: Result<Scl, BookshelfError>)
        ensures
            match r {
                Ok(sc) => {
                    &&& all_ascii(bytes@)
                    &&& parse_scl(bytes@) == Ok::<Seq<RowV>, BookshelfError>(sc@)
                },
                Err(e) => {
                    &&& !all_ascii(bytes@) ==> e == BookshelfError::Encoding
                    &&& all_ascii(bytes@) ==> parse_scl(bytes@) == Err::<
                        Seq<RowV>,
                        BookshelfError,
                    >(e)
                },
            },
    {
        let ghost s = bytes@;
        let mut reader = match TokenReader::new(bytes) {
            Ok(r) => r,
            Err(e) => {
                return Err(e);
            },
        };
        let mut res = Scl { rows: Vec::new() };
        proof {
            assert(res@ =~= Seq::<RowV>::empty());
        }
        loop
            invariant
                s == bytes@,
                reader.wf(),
                reader.text() == s,
                parse_scl_at(s, reader.position(), res@) == parse_scl(s),
            decreases s.len() - reader.position(),
        {
            let ghost pos0 = reader.position();
            proof {
                if has_token(s, pos0) {
                    lemma_token_progress(s, pos0);
                    lemma_line_start_bounds(s, after_token(s, pos0));
                    lemma_parse_row_progress(s, after_token(s, pos0), default_row());
                }
            }
            let t = match reader.next_token() {
                None => {
                    return Ok(res);
                },
                Some(t) => t,
            };
            if str_eq_ignore_case(t.as_str(), "UCLA") || str_eq_ignore_case(t.as_str(), "#")
                || str_eq_ignore_case(t.as_str(), "NumRows") {
                let _ = reader.swallow_line();
            } else if str_eq_ignore_case(t.as_str(), "CoreRow") {
                let row = match Row::read(&mut reader) {
                    Ok(row) => row,
                    Err(e) => {
                        return Err(e);
                    },
                };
                let ghost rows_before = res@;
                res.rows.push(row);
                proof {
                    assert(res@ =~= rows_before.push(row@));
                }
            } else {
                let _ = reader.swallow_line();
            }
        }
    }
}

} // verus!
