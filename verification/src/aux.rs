//! The manifest file: after a `:` marker, whitespace-separated paths that
//! are classified by file extension. Resolving the paths against the disk is
//! the caller's business; here a path is text and only its extension is
//! interpreted.

use vstd::prelude::*;
use vstd::string::{StringExecFns, StrSliceExecFns};
use crate::error::BookshelfError;
use crate::reader::{
    TokenReader, all_ascii, has_token, token_chars, after_token, lemma_token_progress,
};
use crate::strutil::str_eq;

verus! {

/// The files a manifest names, each optional.
pub struct Aux {
    pub me: Option<String>,
    pub nodes: Option<String>,
    pub nets: Option<String>,
    pub wts: Option<String>,
    pub pl: Option<String>,
    pub scl: Option<String>,
    pub shapes: Option<String>,
    pub route: Option<String>,
}

/// The mathematical value of a manifest.
pub struct AuxV {
    pub me: Option<Seq<char>>,
    pub nodes: Option<Seq<char>>,
    pub nets: Option<Seq<char>>,
    pub wts: Option<Seq<char>>,
    pub pl: Option<Seq<char>>,
    pub scl: Option<Seq<char>>,
    pub shapes: Option<Seq<char>>,
    pub route: Option<Seq<char>>,
}

/// The value of an optional owned string.
pub open spec fn opt_view(o: Option<String>) -> Option<Seq<char>> {
    match o {
        None => None,
        Some(s) => Some(s@),
    }
}

impl View for Aux {
    type V = AuxV;

    open spec fn view(&self) -> AuxV {
        AuxV {
            me: opt_view(self.me),
            nodes: opt_view(self.nodes),
            nets: opt_view(self.nets),
            wts: opt_view(self.wts),
            pl: opt_view(self.pl),
            scl: opt_view(self.scl),
            shapes: opt_view(self.shapes),
            route: opt_view(self.route),
        }
    }
}

/// The manifest with nothing named yet.
pub open spec fn empty_aux() -> AuxV {
    AuxV {
        me: None,
        nodes: None,
        nets: None,
        wts: None,
        pl: None,
        scl: None,
        shapes: None,
        route: None,
    }
}

/// The index of the last occurrence of `c` in `s`, or `-1`.
pub open spec fn last_index_of_char(s: Seq<char>, c: char) -> int
    decreases s.len(),
{
    if s.len() == 0 {
        -1
    } else if s.last() == c {
        s.len() - 1
    } else {
        last_index_of_char(s.drop_last(), c)
    }
}

pub proof fn lemma_last_index_found(s: Seq<char>, c: char, j: int)
    requires
        0 <= j < s.len(),
        s[j] == c,
        forall|k: int| j < k < s.len() ==> s[k] != c,
    ensures
        last_index_of_char(s, c) == j,
    decreases s.len(),
{
    if j == s.len() - 1 {
    } else {
        lemma_last_index_found(s.drop_last(), c, j);
    }
}

pub proof fn lemma_last_index_none(s: Seq<char>, c: char)
    requires
        forall|k: int| 0 <= k < s.len() ==> s[k] != c,
    ensures
        last_index_of_char(s, c) == -1,
    decreases s.len(),
{
    if s.len() > 0 {
        lemma_last_index_none(s.drop_last(), c);
    }
}

pub proof fn lemma_last_index_bounds(s: Seq<char>, c: char)
    ensures
        -1 <= last_index_of_char(s, c) < s.len(),
    decreases s.len(),
{
    if s.len() > 0 && s.last() != c {
        lemma_last_index_bounds(s.drop_last(), c);
    }
}

/// The final path component: everything after the last `/`.
pub open spec fn file_name_of(p: Seq<char>) -> Seq<char> {
    p.subrange(last_index_of_char(p, '/') + 1, p.len() as int)
}

/// The extension of a path: what follows the last `.` of the file name,
/// none when the file name has no dot or only a leading one.
pub open spec fn ext_of(p: Seq<char>) -> Option<Seq<char>> {
    let f = file_name_of(p);
    let d = last_index_of_char(f, '.');
    if d <= 0 {
        None
    } else {
        Some(f.subrange(d + 1, f.len() as int))
    }
}

/// One path classified into the manifest: a known extension fills its slot,
/// the rest change nothing.
pub open spec fn classify_path(acc: AuxV, p: Seq<char>) -> AuxV {
    match ext_of(p) {
        None => acc,
        Some(e) => {
            if e == "nets"@ {
                AuxV { nets: Some(p), ..acc }
            } else if e == "wts"@ {
                AuxV { wts: Some(p), ..acc }
            } else if e == "scl"@ {
                AuxV { scl: Some(p), ..acc }
            } else if e == "pl"@ {
                AuxV { pl: Some(p), ..acc }
            } else if e == "nodes"@ {
                AuxV { nodes: Some(p), ..acc }
            } else if e == "route"@ {
                AuxV { route: Some(p), ..acc }
            } else if e == "shapes"@ {
                AuxV { shapes: Some(p), ..acc }
            } else {
                acc
            }
        },
    }
}

/// The position just after the first `:` token, or the end of the input.
pub open spec fn skip_to_colon(s: Seq<u8>, pos: int) -> int
    decreases s.len() - pos,
    when 0 <= pos <= s.len()
    via skip_to_colon_dec
{
    if !has_token(s, pos) {
        s.len() as int
    } else if token_chars(s, pos) == ":"@ {
        after_token(s, pos)
    } else {
        skip_to_colon(s, after_token(s, pos))
    }
}

#[via_fn]
proof fn skip_to_colon_dec(s: Seq<u8>, pos: int) {
    if 0 <= pos <= s.len() && has_token(s, pos) {
        lemma_token_progress(s, pos);
    }
}

/// Every remaining token classified into the manifest.
pub open spec fn parse_paths_at(s: Seq<u8>, pos: int, acc: AuxV) -> AuxV
    decreases s.len() - pos,
    when 0 <= pos <= s.len()
    via parse_paths_at_dec
{
    if !has_token(s, pos) {
        acc
    } else {
        parse_paths_at(s, after_token(s, pos), classify_path(acc, token_chars(s, pos)))
    }
}

#[via_fn]
proof fn parse_paths_at_dec(s: Seq<u8>, pos: int, acc: AuxV) {
    if 0 <= pos <= s.len() && has_token(s, pos) {
        lemma_token_progress(s, pos);
    }
}

/// What a whole manifest denotes.
pub open spec fn parse_aux(s: Seq<u8>) -> AuxV {
    parse_paths_at(s, skip_to_colon(s, 0), empty_aux())
}

/// The extension of a path, as `ext_of` defines it.
pub fn extension_of(p: &str) -> (r: Option<String>)
    ensures
        match r {
            Some(e) => ext_of(p@) == Some(e@),
            None => ext_of(p@) is None,
        },
{
    let n = p.unicode_len();
    let mut sl: usize = n;
    while sl > 0 && p.get_char(sl - 1) != '/'
        invariant
            sl <= n,
            n == p@.len(),
            forall|k: int| sl <= k < n ==> p@[k] != '/',
        decreases sl,
    {
        sl = sl - 1;
    }
    proof {
        if sl > 0 {
            lemma_last_index_found(p@, '/', sl - 1);
        } else {
            lemma_last_index_none(p@, '/');
        }
    }
    let f = p.substring_char(sl, n);
    proof {
        assert(f@ =~= file_name_of(p@));
    }
    let fl = f.unicode_len();
    let mut d: usize = fl;
    while d > 0 && f.get_char(d - 1) != '.'
        invariant
            d <= fl,
            fl == f@.len(),
            forall|k: int| d <= k < fl ==> f@[k] != '.',
        decreases d,
    {
        d = d - 1;
    }
    proof {
        if d > 0 {
            lemma_last_index_found(f@, '.', d - 1);
        } else {
            lemma_last_index_none(f@, '.');
        }
    }
    if d <= 1 {
        proof {
            assert(last_index_of_char(f@, '.') <= 0);
        }
        return None;
    }
    let e = f.substring_char(d, fl);
    proof {
        assert(e@ =~= ext_of(p@)->Some_0);
    }
    Some(String::from_str(e))
}

impl Aux {
    /// Builds a manifest from file bytes: tokens up to the first `:` are
    /// discarded, the rest are paths classified by extension. The manifest's
    /// own path is the caller's to fill in.
    pub fn build(bytes: Vec<u8>) -> (r: Result<Aux, BookshelfError>)
        ensures
            match r {
                Ok(a) => {
                    &&& all_ascii(bytes@)
                    &&& a@ == parse_aux(bytes@)
                    &&& a@.me is None
                },
                Err(e) => {
                    &&& e == BookshelfError::Encoding
                    &&& !all_ascii(bytes@)
                },
            },
    {
        let ghost s = bytes@;
        let mut reader = match TokenReader::new(bytes) {
            Ok(r) => r,
            Err(e) => {
                return Err(e);
            },
        };
        loop
            invariant_except_break
                skip_to_colon(s, reader.position()) == skip_to_colon(s, 0),
            invariant
                s == bytes@,
                reader.wf(),
                reader.text() == s,
            ensures
                reader.wf(),
                reader.text() == s,
                s == bytes@,
                reader.position() == skip_to_colon(s, 0),
            decreases s.len() - reader.position(),
        {
            let ghost pos0 = reader.position();
            proof {
                if has_token(s, pos0) {
                    lemma_token_progress(s, pos0);
                }
            }
            match reader.next_token() {
                None => {
                    break ;
                },
                Some(t) => {
                    if str_eq(t.as_str(), ":") {
                        break ;
                    }
                },
            }
        }
        let mut res = Aux {
            me: None,
            nodes: None,
            nets: None,
            wts: None,
            pl: None,
            scl: None,
            shapes: None,
            route: None,
        };
        proof {
            assert(res@ == empty_aux());
        }
        loop
            invariant
                s == bytes@,
                reader.wf(),
                reader.text() == s,
                res@.me is None,
                parse_paths_at(s, reader.position(), res@) == parse_aux(s),
            decreases s.len() - reader.position(),
        {
            let ghost pos0 = reader.position();
            let ghost acc0 = res@;
            proof {
                if has_token(s, pos0) {
                    lemma_token_progress(s, pos0);
                }
            }
            let t = match reader.next_token() {
                None => {
                    return Ok(res);
                },
                Some(t) => t,
            };
            match extension_of(t.as_str()) {
                None => {},
                Some(e) => {
                    if str_eq(e.as_str(), "nets") {
                        res.nets = Some(t);
                    } else if str_eq(e.as_str(), "wts") {
                        res.wts = Some(t);
                    } else if str_eq(e.as_str(), "scl") {
                        res.scl = Some(t);
                    } else if str_eq(e.as_str(), "pl") {
                        res.pl = Some(t);
                    } else if str_eq(e.as_str(), "nodes") {
                        res.nodes = Some(t);
                    } else if str_eq(e.as_str(), "route") {
                        res.route = Some(t);
                    } else if str_eq(e.as_str(), "shapes") {
                        res.shapes = Some(t);
                    }
                },
            }
            proof {
                assert(res@ == classify_path(acc0, token_chars(s, pos0)));
            }
        }
    }
}

/// Where the derived output files go: the manifest's path with its
/// extension replaced.
pub open spec fn with_extension(p: Seq<char>, e: Seq<char>) -> Seq<char> {
    let f = file_name_of(p);
    let d = last_index_of_char(f, '.');
    let base = if d <= 0 {
        p
    } else {
        p.subrange(0, p.len() - f.len() + d)
    };
    base + seq!['.'] + e
}

/// The three output paths derived from the manifest's path.
pub struct OutPaths {
    pub techlef: String,
    pub lef: String,
    pub def: String,
}

fn replace_extension(p: &str, e: &str) -> (r: String)
    ensures
        r@ == with_extension(p@, e@),
{
    let n = p.unicode_len();
    let mut sl: usize = n;
    while sl > 0 && p.get_char(sl - 1) != '/'
        invariant
            sl <= n,
            n == p@.len(),
            forall|k: int| sl <= k < n ==> p@[k] != '/',
        decreases sl,
    {
        sl = sl - 1;
    }
    proof {
        if sl > 0 {
            lemma_last_index_found(p@, '/', sl - 1);
        } else {
            lemma_last_index_none(p@, '/');
        }
    }
    let f = p.substring_char(sl, n);
    proof {
        assert(f@ =~= file_name_of(p@));
    }
    let fl = f.unicode_len();
    let mut d: usize = fl;
    while d > 0 && f.get_char(d - 1) != '.'
        invariant
            d <= fl,
            fl == f@.len(),
            forall|k: int| d <= k < fl ==> f@[k] != '.',
        decreases d,
    {
        d = d - 1;
    }
    proof {
        if d > 0 {
            lemma_last_index_found(f@, '.', d - 1);
        } else {
            lemma_last_index_none(f@, '.');
        }
    }
    let base = if d <= 1 {
        proof {
            assert(last_index_of_char(f@, '.') <= 0);
        }
        p.substring_char(0, n)
    } else {
        p.substring_char(0, sl + d - 1)
    };
    let mut out = String::from_str(base);
    out.append(".");
    out.append(e);
    proof {
        reveal_strlit(".");
        assert(out@ =~= with_extension(p@, e@));
    }
    out
}

impl OutPaths {
    /// Derives the technology, library and design output paths from the
    /// manifest's path.
    pub fn build(aux_path: &str) -> (r: OutPaths)
        ensures
            r.techlef@ == with_extension(aux_path@, "tech.lef"@),
            r.lef@ == with_extension(aux_path@, "lef"@),
            r.def@ == with_extension(aux_path@, "def"@),
    {
        OutPaths {
            techlef: replace_extension(aux_path, "tech.lef"),
            lef: replace_extension(aux_path, "lef"),
            def: replace_extension(aux_path, "def"),
        }
    }
}

} // verus!
