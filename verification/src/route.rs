//! The routing-grid file: grid dimensions, per-layer capacity and wire
//! parameters, grid origin and tile size, the map from not-in-image
//! terminals to their routing layer, and per-node routing blockages.
//! `parse_route` is the grammar; `Route::read` is proved to compute it.

use vstd::prelude::*;
use crate::error::BookshelfError;
use crate::geom::{Point, PointV, parse_point_at, lemma_parse_point_progress};
use crate::reader::{
    TokenReader, all_ascii, has_token, token_chars, after_token, line_start_after,
    lemma_token_progress, lemma_line_start_bounds,
};
use crate::strutil::{str_eq, str_eq_ignore_case, upper_seq};
use crate::util::{is_i64_token, int_token_val, parse};

verus! {

/// The routing grid's dimensions: tiles in x and y, and layer count.
#[derive(Clone, Copy, Debug, PartialEq, Eq, Structural)]
pub struct Grid {
    pub num_x: i64,
    pub num_y: i64,
    pub num_layer: i64,
}

/// The mathematical value of the grid dimensions.
pub struct GridV {
    pub num_x: int,
    pub num_y: int,
    pub num_layer: int,
}

impl View for Grid {
    type V = GridV;

    open spec fn view(&self) -> GridV {
        GridV {
            num_x: self.num_x as int,
            num_y: self.num_y as int,
            num_layer: self.num_layer as int,
        }
    }
}

/// The mathematical value of a vector of machine integers.
pub open spec fn int_seq_view(v: Seq<i64>) -> Seq<int> {
    v.map_values(|x: i64| x as int)
}

/// The mathematical value of the terminal-to-layer map.
pub open spec fn term_map_view(v: Seq<(String, i64)>) -> Seq<(Seq<char>, int)> {
    v.map_values(|p: (String, i64)| (p.0@, p.1 as int))
}

/// The mathematical value of the blockage map.
pub open spec fn blockage_map_view(v: Seq<(String, Vec<i64>)>) -> Seq<(Seq<char>, Seq<int>)> {
    v.map_values(|p: (String, Vec<i64>)| (p.0@, int_seq_view(p.1@)))
}

/// The mathematical value of the whole routing-grid file.
pub struct RouteV {
    pub grid: GridV,
    pub vertical_capacity: Seq<int>,
    pub horizontal_capacity: Seq<int>,
    pub min_wire_width: Seq<int>,
    pub min_wire_spacing: Seq<int>,
    pub via_spacing: Seq<int>,
    pub grid_origin: PointV,
    pub tile_size: PointV,
    pub blockage_porosity: int,
    pub ni_terminal_to_layer: Seq<(Seq<char>, int)>,
    pub blockage_info: Seq<(Seq<char>, Seq<int>)>,
}

/// The state all settings start from.
pub open spec fn default_route() -> RouteV {
    RouteV {
        grid: GridV { num_x: 0, num_y: 0, num_layer: 0 },
        vertical_capacity: Seq::empty(),
        horizontal_capacity: Seq::empty(),
        min_wire_width: Seq::empty(),
        min_wire_spacing: Seq::empty(),
        via_spacing: Seq::empty(),
        grid_origin: PointV { x: 0, y: 0 },
        tile_size: PointV { x: 0, y: 0 },
        blockage_porosity: 0,
        ni_terminal_to_layer: Seq::empty(),
        blockage_info: Seq::empty(),
    }
}

/// The index of the first terminal entry for `name`, or `-1`.
pub open spec fn term_index_of(s: Seq<(Seq<char>, int)>, name: Seq<char>) -> int
    decreases s.len(),
{
    if s.len() == 0 {
        -1
    } else if s[0].0 == name {
        0
    } else {
        let r = term_index_of(s.drop_first(), name);
        if r < 0 {
            -1
        } else {
            r + 1
        }
    }
}

/// Whether the terminal map has an entry for `name`.
pub open spec fn has_term(s: Seq<(Seq<char>, int)>, name: Seq<char>) -> bool {
    term_index_of(s, name) >= 0
}

/// The terminal map with an entry added, replacing one of the same name.
pub open spec fn upsert_term(s: Seq<(Seq<char>, int)>, name: Seq<char>, layer: int) -> Seq<
    (Seq<char>, int),
> {
    if has_term(s, name) {
        s.update(term_index_of(s, name), (name, layer))
    } else {
        s.push((name, layer))
    }
}

/// No two terminal entries share a name.
pub open spec fn route_terms_wf(r: RouteV) -> bool {
    forall|i: int, j: int|
        0 <= i < j < r.ni_terminal_to_layer.len() ==> r.ni_terminal_to_layer[i].0
            != r.ni_terminal_to_layer[j].0
}

/// No two entries of a terminal map share a name.
pub open spec fn terms_unique(s: Seq<(Seq<char>, int)>) -> bool {
    forall|i: int, j: int| 0 <= i < j < s.len() ==> s[i].0 != s[j].0
}

pub proof fn lemma_term_index_of_props(s: Seq<(Seq<char>, int)>, name: Seq<char>)
    ensures
        term_index_of(s, name) >= 0 ==> term_index_of(s, name) < s.len() && s[term_index_of(
            s,
            name,
        )].0 == name,
        term_index_of(s, name) == -1 ==> forall|i: int| 0 <= i < s.len() ==> s[i].0 != name,
        term_index_of(s, name) >= -1,
    decreases s.len(),
{
    if s.len() > 0 && s[0].0 != name {
        lemma_term_index_of_props(s.drop_first(), name);
        let d = s.drop_first();
        assert(forall|i: int| 1 <= i < s.len() ==> s[i] == d[i - 1]);
        if term_index_of(s, name) == -1 {
            assert forall|i: int| 0 <= i < s.len() implies s[i].0 != name by {
                if i >= 1 {
                    assert(s[i] == d[i - 1]);
                }
            }
        }
    }
}

pub proof fn lemma_term_index_found(s: Seq<(Seq<char>, int)>, name: Seq<char>, i: int)
    requires
        0 <= i <= s.len(),
        forall|k: int| 0 <= k < i ==> s[k].0 != name,
        i < s.len() ==> s[i].0 == name,
    ensures
        term_index_of(s, name) == if i == s.len() {
            -1int
        } else {
            i
        },
    decreases s.len(),
{
    if s.len() > 0 {
        if i == 0 && s[0].0 == name {
        } else {
            lemma_term_index_found(s.drop_first(), name, i - 1);
        }
    }
}

/// What reading `k` integer tokens onto `acc` yields.
pub open spec fn parse_int_list_at(s: Seq<u8>, pos: int, k: int, acc: Seq<int>) -> Result<
    (Seq<int>, int),
    BookshelfError,
>
    decreases k,
{
    if k <= 0 {
        Ok((acc, pos))
    } else if !has_token(s, pos) {
        Err(BookshelfError::TruncatedInput)
    } else if !is_i64_token(token_chars(s, pos)) {
        Err(BookshelfError::Grammar)
    } else {
        parse_int_list_at(
            s,
            after_token(s, pos),
            k - 1,
            acc.push(int_token_val(token_chars(s, pos))),
        )
    }
}

/// Reading an integer list never moves the position backwards.
pub proof fn lemma_parse_int_list_progress(s: Seq<u8>, pos: int, k: int, acc: Seq<int>)
    requires
        0 <= pos <= s.len(),
    ensures
        parse_int_list_at(s, pos, k, acc) is Ok ==> pos <= parse_int_list_at(s, pos, k, acc)->Ok_0.1
            <= s.len(),
    decreases k,
{
    if k > 0 && has_token(s, pos) && is_i64_token(token_chars(s, pos)) {
        lemma_token_progress(s, pos);
        lemma_parse_int_list_progress(
            s,
            after_token(s, pos),
            k - 1,
            acc.push(int_token_val(token_chars(s, pos))),
        );
    }
}

/// A successful integer list holds its accumulator plus `k` new values.
pub proof fn lemma_parse_int_list_len(s: Seq<u8>, pos: int, k: int, acc: Seq<int>)
    ensures
        parse_int_list_at(s, pos, k, acc) is Ok ==> parse_int_list_at(s, pos, k, acc)->Ok_0.0.len()
            == acc.len() + (if k > 0 {
            k
        } else {
            0
        }),
    decreases k,
{
    if k > 0 && has_token(s, pos) && is_i64_token(token_chars(s, pos)) {
        lemma_parse_int_list_len(
            s,
            after_token(s, pos),
            k - 1,
            acc.push(int_token_val(token_chars(s, pos))),
        );
    }
}

/// What reading `k` terminal entries (`<name> <layer>`) onto `acc` yields.
pub open spec fn parse_terminals_at(
    s: Seq<u8>,
    pos: int,
    k: int,
    acc: Seq<(Seq<char>, int)>,
) -> Result<(Seq<(Seq<char>, int)>, int), BookshelfError>
    decreases k,
{
    if k <= 0 {
        Ok((acc, pos))
    } else if !has_token(s, pos) {
        Err(BookshelfError::TruncatedInput)
    } else {
        let name = token_chars(s, pos);
        let p1 = after_token(s, pos);
        if !has_token(s, p1) {
            Err(BookshelfError::TruncatedInput)
        } else if !is_i64_token(token_chars(s, p1)) {
            Err(BookshelfError::Grammar)
        } else {
            parse_terminals_at(
                s,
                after_token(s, p1),
                k - 1,
                upsert_term(acc, name, int_token_val(token_chars(s, p1))),
            )
        }
    }
}

/// Reading terminal entries never moves the position backwards.
pub proof fn lemma_parse_terminals_progress(
    s: Seq<u8>,
    pos: int,
    k: int,
    acc: Seq<(Seq<char>, int)>,
)
    requires
        0 <= pos <= s.len(),
    ensures
        parse_terminals_at(s, pos, k, acc) is Ok ==> pos <= parse_terminals_at(
            s,
            pos,
            k,
            acc,
        )->Ok_0.1 <= s.len(),
    decreases k,
{
    if k > 0 && has_token(s, pos) {
        lemma_token_progress(s, pos);
        let p1 = after_token(s, pos);
        if has_token(s, p1) && is_i64_token(token_chars(s, p1)) {
            lemma_token_progress(s, p1);
            lemma_parse_terminals_progress(
                s,
                after_token(s, p1),
                k - 1,
                upsert_term(acc, token_chars(s, pos), int_token_val(token_chars(s, p1))),
            );
        }
    }
}

/// What reading `k` blockage entries (`<name> <count> <count layers>`) onto
/// `acc` yields. A repeated name keeps the later entry.
pub open spec fn parse_blockages_at(
    s: Seq<u8>,
    pos: int,
    k: int,
    acc: Seq<(Seq<char>, Seq<int>)>,
) -> Result<(Seq<(Seq<char>, Seq<int>)>, int), BookshelfError>
    decreases k,
{
    if k <= 0 {
        Ok((acc, pos))
    } else if !has_token(s, pos) {
        Err(BookshelfError::TruncatedInput)
    } else {
        let name = token_chars(s, pos);
        let p1 = after_token(s, pos);
        if !has_token(s, p1) {
            Err(BookshelfError::TruncatedInput)
        } else if !is_i64_token(token_chars(s, p1)) {
            Err(BookshelfError::Grammar)
        } else {
            let n = int_token_val(token_chars(s, p1));
            match parse_int_list_at(s, after_token(s, p1), n, Seq::empty()) {
                Err(e) => Err(e),
                Ok((ids, p2)) => parse_blockages_at(s, p2, k - 1, acc.push((name, ids))),
            }
        }
    }
}

/// Reading blockage entries never moves the position backwards.
pub proof fn lemma_parse_blockages_progress(
    s: Seq<u8>,
    pos: int,
    k: int,
    acc: Seq<(Seq<char>, Seq<int>)>,
)
    requires
        0 <= pos <= s.len(),
    ensures
        parse_blockages_at(s, pos, k, acc) is Ok ==> pos <= parse_blockages_at(
            s,
            pos,
            k,
            acc,
        )->Ok_0.1 <= s.len(),
    decreases k,
{
    if k > 0 && has_token(s, pos) {
        lemma_token_progress(s, pos);
        let p1 = after_token(s, pos);
        if has_token(s, p1) && is_i64_token(token_chars(s, p1)) {
            lemma_token_progress(s, p1);
            let n = int_token_val(token_chars(s, p1));
            lemma_parse_int_list_progress(s, after_token(s, p1), n, Seq::empty());
            if parse_int_list_at(s, after_token(s, p1), n, Seq::empty()) is Ok {
                let (ids, p2) = parse_int_list_at(s, after_token(s, p1), n, Seq::empty())->Ok_0;
                lemma_parse_blockages_progress(
                    s,
                    p2,
                    k - 1,
                    acc.push((token_chars(s, pos), ids)),
                );
            }
        }
    }
}

/// What the `NumNiTerminals` section after its keyword yields: a count,
/// then that many terminal entries into a fresh map.
pub open spec fn parse_terminal_section_at(s: Seq<u8>, pos: int) -> Result<
    (Seq<(Seq<char>, int)>, int),
    BookshelfError,
> {
    match crate::scl::parse_colon_int(s, pos) {
        Err(e) => Err(e),
        Ok((n, p2)) => parse_terminals_at(s, p2, n, Seq::empty()),
    }
}

/// The terminal section consumes at least its count tokens.
pub proof fn lemma_parse_terminal_section_progress(s: Seq<u8>, pos: int)
    requires
        0 <= pos <= s.len(),
    ensures
        parse_terminal_section_at(s, pos) is Ok ==> pos < parse_terminal_section_at(
            s,
            pos,
        )->Ok_0.1 <= s.len(),
{
    crate::scl::lemma_parse_colon_progress(s, pos);
    if crate::scl::parse_colon_int(s, pos) is Ok {
        let (n, p2) = crate::scl::parse_colon_int(s, pos)->Ok_0;
        lemma_parse_terminals_progress(s, p2, n, Seq::empty());
    }
}

/// What the `NumBlockageNodes` section after its keyword yields.
pub open spec fn parse_blockage_section_at(s: Seq<u8>, pos: int) -> Result<
    (Seq<(Seq<char>, Seq<int>)>, int),
    BookshelfError,
> {
    match crate::scl::parse_colon_int(s, pos) {
        Err(e) => Err(e),
        Ok((n, p2)) => parse_blockages_at(s, p2, n, Seq::empty()),
    }
}

/// The blockage section consumes at least its count tokens.
pub proof fn lemma_parse_blockage_section_progress(s: Seq<u8>, pos: int)
    requires
        0 <= pos <= s.len(),
    ensures
        parse_blockage_section_at(s, pos) is Ok ==> pos < parse_blockage_section_at(
            s,
            pos,
        )->Ok_0.1 <= s.len(),
{
    crate::scl::lemma_parse_colon_progress(s, pos);
    if crate::scl::parse_colon_int(s, pos) is Ok {
        let (n, p2) = crate::scl::parse_colon_int(s, pos)->Ok_0;
        lemma_parse_blockages_progress(s, p2, n, Seq::empty());
    }
}

/// What reading `: <value> ...` after a keyword yields: the `:` token, then
/// the given continuation.
pub open spec fn parse_grid_at(s: Seq<u8>, pos: int) -> Result<(GridV, int), BookshelfError> {
    if !has_token(s, pos) {
        Err(BookshelfError::TruncatedInput)
    } else if token_chars(s, pos) != "Grid"@ {
        Err(BookshelfError::Grammar)
    } else {
        let p1 = after_token(s, pos);
        if !has_token(s, p1) {
            Err(BookshelfError::TruncatedInput)
        } else if token_chars(s, p1) != ":"@ {
            Err(BookshelfError::Grammar)
        } else {
            match parse_int_list_at(s, after_token(s, p1), 3, Seq::empty()) {
                Err(e) => Err(e),
                Ok((v, p2)) => Ok(
                    (GridV { num_x: v[0], num_y: v[1], num_layer: v[2] }, p2),
                ),
            }
        }
    }
}

/// A grid record that reads successfully consumes at least one token.
pub proof fn lemma_parse_grid_progress(s: Seq<u8>, pos: int)
    requires
        0 <= pos <= s.len(),
    ensures
        parse_grid_at(s, pos) is Ok ==> pos < parse_grid_at(s, pos)->Ok_0.1 <= s.len(),
{
    if has_token(s, pos) {
        lemma_token_progress(s, pos);
        let p1 = after_token(s, pos);
        if has_token(s, p1) {
            lemma_token_progress(s, p1);
            lemma_parse_int_list_progress(s, after_token(s, p1), 3, Seq::empty());
        }
    }
}

/// What `: ` followed by `k` integers yields, the keyword already consumed.
pub open spec fn parse_colon_list_at(s: Seq<u8>, pos: int, k: int, acc: Seq<int>) -> Result<
    (Seq<int>, int),
    BookshelfError,
> {
    if !has_token(s, pos) {
        Err(BookshelfError::TruncatedInput)
    } else if token_chars(s, pos) != ":"@ {
        Err(BookshelfError::Grammar)
    } else {
        parse_int_list_at(s, after_token(s, pos), k, acc)
    }
}

pub proof fn lemma_parse_colon_list_progress(s: Seq<u8>, pos: int, k: int, acc: Seq<int>)
    requires
        0 <= pos <= s.len(),
    ensures
        parse_colon_list_at(s, pos, k, acc) is Ok ==> pos < parse_colon_list_at(
            s,
            pos,
            k,
            acc,
        )->Ok_0.1 <= s.len(),
{
    if has_token(s, pos) {
        lemma_token_progress(s, pos);
        lemma_parse_int_list_progress(s, after_token(s, pos), k, acc);
    }
}

/// What `: <point>` yields, the keyword already consumed.
pub open spec fn parse_colon_point_at(s: Seq<u8>, pos: int) -> Result<
    (PointV, int),
    BookshelfError,
> {
    if !has_token(s, pos) {
        Err(BookshelfError::TruncatedInput)
    } else if token_chars(s, pos) != ":"@ {
        Err(BookshelfError::Grammar)
    } else {
        parse_point_at(s, after_token(s, pos))
    }
}

pub proof fn lemma_parse_colon_point_progress(s: Seq<u8>, pos: int)
    requires
        0 <= pos <= s.len(),
    ensures
        parse_colon_point_at(s, pos) is Ok ==> pos < parse_colon_point_at(s, pos)->Ok_0.1
            <= s.len(),
{
    if has_token(s, pos) {
        lemma_token_progress(s, pos);
        lemma_parse_point_progress(s, after_token(s, pos));
    }
}

/// The whole grammar of a routing-grid file starting at `pos`, with the
/// settings read so far in `r`.
#[verifier::opaque]
pub open spec fn parse_route_at(s: Seq<u8>, pos: int, r: RouteV) -> Result<RouteV, BookshelfError>
    decreases s.len() - pos,
    when 0 <= pos <= s.len()
    via parse_route_at_dec
{
    if !has_token(s, pos) {
        Ok(r)
    } else {
        let t = upper_seq(token_chars(s, pos));
        let p1 = after_token(s, pos);
        if t == upper_seq("route"@) || t == upper_seq("#"@) {
            parse_route_at(s, line_start_after(s, p1), r)
        } else if t == upper_seq("Grid"@) {
            match parse_grid_at(s, pos) {
                Err(e) => Err(e),
                Ok((g, p2)) => parse_route_at(s, p2, RouteV { grid: g, ..r }),
            }
        } else if t == upper_seq("VerticalCapacity"@) {
            match parse_colon_list_at(s, p1, r.grid.num_layer, r.vertical_capacity) {
                Err(e) => Err(e),
                Ok((v, p2)) => parse_route_at(s, p2, RouteV { vertical_capacity: v, ..r }),
            }
        } else if t == upper_seq("HorizontalCapacity"@) {
            match parse_colon_list_at(s, p1, r.grid.num_layer, r.horizontal_capacity) {
                Err(e) => Err(e),
                Ok((v, p2)) => parse_route_at(s, p2, RouteV { horizontal_capacity: v, ..r }),
            }
        } else if t == upper_seq("MinWireWidth"@) {
            match parse_colon_list_at(s, p1, r.grid.num_layer, r.min_wire_width) {
                Err(e) => Err(e),
                Ok((v, p2)) => parse_route_at(s, p2, RouteV { min_wire_width: v, ..r }),
            }
        } else if t == upper_seq("MinWireSpacing"@) {
            match parse_colon_list_at(s, p1, r.grid.num_layer, r.min_wire_spacing) {
                Err(e) => Err(e),
                Ok((v, p2)) => parse_route_at(s, p2, RouteV { min_wire_spacing: v, ..r }),
            }
        } else if t == upper_seq("ViaSpacing"@) {
            match parse_colon_list_at(s, p1, r.grid.num_layer, r.via_spacing) {
                Err(e) => Err(e),
                Ok((v, p2)) => parse_route_at(s, p2, RouteV { via_spacing: v, ..r }),
            }
        } else if t == upper_seq("GridOrigin"@) {
            match parse_colon_point_at(s, p1) {
                Err(e) => Err(e),
                Ok((p, p2)) => parse_route_at(s, p2, RouteV { grid_origin: p, ..r }),
            }
        } else if t == upper_seq("TileSize"@) {
            match parse_colon_point_at(s, p1) {
                Err(e) => Err(e),
                Ok((p, p2)) => parse_route_at(s, p2, RouteV { tile_size: p, ..r }),
            }
        } else if t == upper_seq("BlockagePorosity"@) {
            match crate::scl::parse_colon_int(s, p1) {
                Err(e) => Err(e),
                Ok((v, p2)) => parse_route_at(s, p2, RouteV { blockage_porosity: v, ..r }),
            }
        } else if t == upper_seq("NumNiTerminals"@) {
            match parse_terminal_section_at(s, p1) {
                Err(e) => Err(e),
                Ok((m, p3)) => parse_route_at(s, p3, RouteV { ni_terminal_to_layer: m, ..r }),
            }
        } else if t == upper_seq("NumBlockageNodes"@) {
            if token_chars(s, pos) != "NumBlockageNodes"@ {
                Err(BookshelfError::Grammar)
            } else {
                match parse_blockage_section_at(s, p1) {
                    Err(e) => Err(e),
                    Ok((m, p3)) => parse_route_at(s, p3, RouteV { blockage_info: m, ..r }),
                }
            }
        } else {
            parse_route_at(s, line_start_after(s, p1), r)
        }
    }
}

#[via_fn]
proof fn parse_route_at_dec(s: Seq<u8>, pos: int, r: RouteV) {
    if 0 <= pos <= s.len() && has_token(s, pos) {
        lemma_token_progress(s, pos);
        let p1 = after_token(s, pos);
        lemma_line_start_bounds(s, p1);
        lemma_parse_grid_progress(s, pos);
        lemma_parse_colon_list_progress(s, p1, r.grid.num_layer, r.vertical_capacity);
        lemma_parse_colon_list_progress(s, p1, r.grid.num_layer, r.horizontal_capacity);
        lemma_parse_colon_list_progress(s, p1, r.grid.num_layer, r.min_wire_width);
        lemma_parse_colon_list_progress(s, p1, r.grid.num_layer, r.min_wire_spacing);
        lemma_parse_colon_list_progress(s, p1, r.grid.num_layer, r.via_spacing);
        lemma_parse_colon_point_progress(s, p1);
        crate::scl::lemma_parse_colon_progress(s, p1);
        lemma_parse_terminal_section_progress(s, p1);
        lemma_parse_blockage_section_progress(s, p1);
    }
}

/// What a whole routing-grid file denotes.
pub open spec fn parse_route(s: Seq<u8>) -> Result<RouteV, BookshelfError> {
    parse_route_at(s, 0, default_route())
}

impl Grid {
    /// Reads the grid record `Grid : <x> <y> <layers>`.
    pub fn read(reader: &mut TokenReader) -> (r: Result<Grid, BookshelfError>)
        requires
            old(reader).wf(),
        ensures
            final(reader).wf(),
            final(reader).text() == old(reader).text(),
            match r {
                Ok(g) => parse_grid_at(old(reader).text(), old(reader).position()) == Ok::<
                    (GridV, int),
                    BookshelfError,
                >((g@, final(reader).position())),
                Err(e) => parse_grid_at(old(reader).text(), old(reader).position()) == Err::<
                    (GridV, int),
                    BookshelfError,
                >(e),
            },
    {
        match reader.expect("Grid") {
            Ok(()) => {},
            Err(e) => {
                return Err(e);
            },
        }
        match reader.expect(":") {
            Ok(()) => {},
            Err(e) => {
                return Err(e);
            },
        }
        let ghost s = reader.text();
        let ghost p = reader.position();
        let mut vals: Vec<i64> = Vec::new();
        proof {
            assert(int_seq_view(vals@) =~= Seq::<int>::empty());
        }
        let rres = read_int_list(reader, 3, &mut vals);
        match rres {
            Ok(()) => {
                proof {
                    lemma_parse_int_list_len(s, p, 3, Seq::empty());
                    assert(int_seq_view(vals@).len() == 3);
                    assert(vals@.len() == 3);
                }
                Ok(Grid { num_x: vals[0], num_y: vals[1], num_layer: vals[2] })
            },
            Err(e) => Err(e),
        }
    }
}

/// Reads `k` integer tokens onto the end of `dst`.
fn read_int_list(reader: &mut TokenReader, k: i64, dst: &mut Vec<i64>) -> (r: Result<
    (),
    BookshelfError,
>)
    requires
        old(reader).wf(),
    ensures
        final(reader).wf(),
        final(reader).text() == old(reader).text(),
        match r {
            Ok(()) => parse_int_list_at(
                old(reader).text(),
                old(reader).position(),
                k as int,
                int_seq_view(old(dst)@),
            ) == Ok::<(Seq<int>, int), BookshelfError>(
                (int_seq_view(final(dst)@), final(reader).position()),
            ),
            Err(e) => parse_int_list_at(
                old(reader).text(),
                old(reader).position(),
                k as int,
                int_seq_view(old(dst)@),
            ) == Err::<(Seq<int>, int), BookshelfError>(e),
        },
{
    let ghost s = old(reader).text();
    let mut i: i64 = 0;
    while i < k
        invariant
            reader.wf(),
            reader.text() == s,
            s == old(reader).text(),
            0 <= i <= k || (k < 0 && i == 0),
            parse_int_list_at(
                s,
                reader.position(),
                k - i,
                int_seq_view(dst@),
            ) == parse_int_list_at(
                s,
                old(reader).position(),
                k as int,
                int_seq_view(old(dst)@),
            ),
        decreases k - i,
    {
        let ghost pos0 = reader.position();
        proof {
            if has_token(s, pos0) {
                lemma_token_progress(s, pos0);
            }
        }
        let t = match reader.next_token() {
            None => {
                return Err(BookshelfError::TruncatedInput);
            },
            Some(t) => t,
        };
        let v = match parse(t.as_str()) {
            Some(v) => v,
            None => {
                return Err(BookshelfError::Grammar);
            },
        };
        let ghost before = int_seq_view(dst@);
        dst.push(v);
        proof {
            assert(int_seq_view(dst@) =~= before.push(v as int));
        }
        i = i + 1;
    }
    Ok(())
}

/// The routing-grid collection.
pub struct Route {
    pub grid: Grid,
    pub vertical_capacity: Vec<i64>,
    pub horizontal_capacity: Vec<i64>,
    pub min_wire_width: Vec<i64>,
    pub min_wire_spacing: Vec<i64>,
    pub via_spacing: Vec<i64>,
    pub grid_origin: Point,
    pub tile_size: Point,
    pub blockage_porosity: i64,
    pub ni_terminal_to_layer: Vec<(String, i64)>,
    pub blockage_info: Vec<(String, Vec<i64>)>,
}

impl View for Route {
    type V = RouteV;

    open spec fn view(&self) -> RouteV {
        RouteV {
            grid: self.grid@,
            vertical_capacity: int_seq_view(self.vertical_capacity@),
            horizontal_capacity: int_seq_view(self.horizontal_capacity@),
            min_wire_width: int_seq_view(self.min_wire_width@),
            min_wire_spacing: int_seq_view(self.min_wire_spacing@),
            via_spacing: int_seq_view(self.via_spacing@),
            grid_origin: self.grid_origin@,
            tile_size: self.tile_size@,
            blockage_porosity: self.blockage_porosity as int,
            ni_terminal_to_layer: term_map_view(self.ni_terminal_to_layer@),
            blockage_info: blockage_map_view(self.blockage_info@),
        }
    }
}

impl Route {
    /// How many nodes carry routing blockages.
    pub fn blockge_len(&self) -> (r: usize)
        ensures
            r == self@.blockage_info.len(),
    {
        self.blockage_info.len()
    }

    /// How many not-in-image terminals the file declared.
    pub fn ni_terminal_len(&self) -> (r: usize)
        ensures
            r == self@.ni_terminal_to_layer.len(),
    {
        self.ni_terminal_to_layer.len()
    }

    /// Reads a whole routing-grid file, returning exactly what the grammar
    /// says the bytes denote.
    pub fn read(bytes: Vec<u8>) -> (r: Result<Route, BookshelfError>)
        ensures
            match r {
                Ok(rt) => {
                    &&& all_ascii(bytes@)
                    &&& parse_route(bytes@) == Ok::<RouteV, BookshelfError>(rt@)
                    &&& route_terms_wf(rt@)
                },
                Err(e) => {
                    &&& !all_ascii(bytes@) ==> e == BookshelfError::Encoding
                    &&& all_ascii(bytes@) ==> parse_route(bytes@) == Err::<
                        RouteV,
                        BookshelfError,
                    >(e)
                },
            },
    {
        let ghost s = bytes@;
        let mut reader = match TokenReader::new(bytes) {
            Ok(r) => r,
            Err(e) => {
                return Err(e);
            },
        };
        let mut res = Route {
            grid: Grid { num_x: 0, num_y: 0, num_layer: 0 },
            vertical_capacity: Vec::new(),
            horizontal_capacity: Vec::new(),
            min_wire_width: Vec::new(),
            min_wire_spacing: Vec::new(),
            via_spacing: Vec::new(),
            grid_origin: Point { x: 0, y: 0 },
            tile_size: Point { x: 0, y: 0 },
            blockage_porosity: 0,
            ni_terminal_to_layer: Vec::new(),
            blockage_info: Vec::new(),
        };
        proof {
            assert(res@.vertical_capacity =~= default_route().vertical_capacity);
            assert(res@.horizontal_capacity =~= default_route().horizontal_capacity);
            assert(res@.min_wire_width =~= default_route().min_wire_width);
            assert(res@.min_wire_spacing =~= default_route().min_wire_spacing);
            assert(res@.via_spacing =~= default_route().via_spacing);
            assert(res@.ni_terminal_to_layer =~= default_route().ni_terminal_to_layer);
            assert(res@.blockage_info =~= default_route().blockage_info);
            assert(res@ == default_route());
            assert(parse_route_at(s, 0, res@) == parse_route(s));
        }
        loop
            invariant
                s == bytes@,
                reader.wf(),
                reader.text() == s,
                route_terms_wf(res@),
                parse_route_at(s, reader.position(), res@) == parse_route(s),
            decreases s.len() - reader.position(),
        {
            let ghost pos0 = reader.position();
            let ghost r0 = res@;
            proof {
                if has_token(s, pos0) {
                    lemma_token_progress(s, pos0);
                    lemma_line_start_bounds(s, after_token(s, pos0));
                }
            }
            let t = match reader.peek_token() {
                None => {
                    proof {
                        assert(parse_route_at(s, pos0, r0) == Ok::<RouteV, BookshelfError>(r0))
                            by {
                            reveal_with_fuel(parse_route_at, 1);
                        };
                    }
                    return Ok(res);
                },
                Some(t) => t,
            };
            match route_step(&mut reader, &mut res, &t) {
                Ok(()) => {},
                Err(e) => {
                    return Err(e);
                },
            }
        }
    }
}

/// Performs one dispatch step of the routing-grid grammar: the peeked token
/// `t` selects a section, which is read and folded into `res`.
#[verifier::rlimit(100)]
fn route_step(reader: &mut TokenReader, res: &mut Route, t: &String) -> (r: Result<
    (),
    BookshelfError,
>)
    requires
        old(reader).wf(),
        has_token(old(reader).text(), old(reader).position()),
        t@ == token_chars(old(reader).text(), old(reader).position()),
    ensures
        final(reader).wf(),
        final(reader).text() == old(reader).text(),
        match r {
            Ok(()) => {
                &&& parse_route_at(old(reader).text(), old(reader).position(), old(res)@)
                    == parse_route_at(
                    old(reader).text(),
                    final(reader).position(),
                    final(res)@,
                )
                &&& old(reader).position() < final(reader).position()
                &&& 0 <= final(reader).position() <= final(reader).text().len()
                &&& route_terms_wf(old(res)@) ==> route_terms_wf(final(res)@)
            },
            Err(e) => parse_route_at(old(reader).text(), old(reader).position(), old(res)@)
                == Err::<RouteV, BookshelfError>(e),
        },
{
    let ghost s = old(reader).text();
    let ghost pos0 = old(reader).position();
    let ghost r0 = res@;
    proof {
        lemma_token_progress(s, pos0);
        lemma_line_start_bounds(s, after_token(s, pos0));
    }
    if str_eq_ignore_case(t.as_str(), "route") || str_eq_ignore_case(t.as_str(), "#") {
        let _ = reader.next_token();
        let _ = reader.swallow_line();
        proof {
            assert(parse_route_at(s, reader.position(), res@) == parse_route_at(s, pos0, r0))
                by {
                reveal_with_fuel(parse_route_at, 1);
            };
            if route_terms_wf(r0) {
                assert(res@.ni_terminal_to_layer == r0.ni_terminal_to_layer);
                assert forall|a: int, b: int|
                    0 <= a < b < res@.ni_terminal_to_layer.len()
                        implies res@.ni_terminal_to_layer[a].0 != res@.ni_terminal_to_layer[b].0
                    by {
                    assert(r0.ni_terminal_to_layer[a].0 != r0.ni_terminal_to_layer[b].0);
                }
                assert(route_terms_wf(res@));
            }
        }
        Ok(())
    } else if str_eq_ignore_case(t.as_str(), "Grid") {
        proof {
            lemma_parse_grid_progress(s, pos0);
        }
        match Grid::read(reader) {
            Ok(g) => {
                res.grid = g;
                proof {
                    assert(parse_route_at(s, reader.position(), res@) == parse_route_at(
                        s,
                        pos0,
                        r0,
                    )) by {
                        reveal_with_fuel(parse_route_at, 1);
                    };
                    if route_terms_wf(r0) {
                        assert(res@.ni_terminal_to_layer == r0.ni_terminal_to_layer);
                        assert forall|a: int, b: int|
                            0 <= a < b < res@.ni_terminal_to_layer.len()
                                implies res@.ni_terminal_to_layer[a].0
                                != res@.ni_terminal_to_layer[b].0 by {
                            assert(r0.ni_terminal_to_layer[a].0 != r0.ni_terminal_to_layer[b].0);
                        }
                        assert(route_terms_wf(res@));
                    }
                }
                Ok(())
            },
            Err(e) => {
                proof {
                    assert(parse_route_at(s, pos0, r0) == Err::<RouteV, BookshelfError>(e)) by {
                        reveal_with_fuel(parse_route_at, 1);
                    };
                }
                Err(e)
            },
        }
    } else if str_eq_ignore_case(t.as_str(), "VerticalCapacity") {
        let _ = reader.next_token();
        proof {
            lemma_parse_colon_list_progress(s, after_token(s, pos0), r0.grid.num_layer, r0.vertical_capacity);
        }
        let k = res.grid.num_layer;
        match read_colon_list(reader, k, &mut res.vertical_capacity) {
            Ok(()) => {
                proof {
                    assert(parse_route_at(s, reader.position(), res@) == parse_route_at(
                        s,
                        pos0,
                        r0,
                    )) by {
                        reveal_with_fuel(parse_route_at, 1);
                    };
                    if route_terms_wf(r0) {
                        assert(res@.ni_terminal_to_layer == r0.ni_terminal_to_layer);
                        assert forall|a: int, b: int|
                            0 <= a < b < res@.ni_terminal_to_layer.len()
                                implies res@.ni_terminal_to_layer[a].0
                                != res@.ni_terminal_to_layer[b].0 by {
                            assert(r0.ni_terminal_to_layer[a].0 != r0.ni_terminal_to_layer[b].0);
                        }
                        assert(route_terms_wf(res@));
                    }
                }
                Ok(())
            },
            Err(e) => {
                proof {
                    assert(parse_route_at(s, pos0, r0) == Err::<RouteV, BookshelfError>(e)) by {
                        reveal_with_fuel(parse_route_at, 1);
                    };
                }
                Err(e)
            },
        }
    } else if str_eq_ignore_case(t.as_str(), "HorizontalCapacity") {
        let _ = reader.next_token();
        proof {
            lemma_parse_colon_list_progress(s, after_token(s, pos0), r0.grid.num_layer, r0.horizontal_capacity);
        }
        let k = res.grid.num_layer;
        match read_colon_list(reader, k, &mut res.horizontal_capacity) {
            Ok(()) => {
                proof {
                    assert(parse_route_at(s, reader.position(), res@) == parse_route_at(
                        s,
                        pos0,
                        r0,
                    )) by {
                        reveal_with_fuel(parse_route_at, 1);
                    };
                    if route_terms_wf(r0) {
                        assert(res@.ni_terminal_to_layer == r0.ni_terminal_to_layer);
                        assert forall|a: int, b: int|
                            0 <= a < b < res@.ni_terminal_to_layer.len()
                                implies res@.ni_terminal_to_layer[a].0
                                != res@.ni_terminal_to_layer[b].0 by {
                            assert(r0.ni_terminal_to_layer[a].0 != r0.ni_terminal_to_layer[b].0);
                        }
                        assert(route_terms_wf(res@));
                    }
                }
                Ok(())
            },
            Err(e) => {
                proof {
                    assert(parse_route_at(s, pos0, r0) == Err::<RouteV, BookshelfError>(e)) by {
                        reveal_with_fuel(parse_route_at, 1);
                    };
                }
                Err(e)
            },
        }
    } else if str_eq_ignore_case(t.as_str(), "MinWireWidth") {
        let _ = reader.next_token();
        proof {
            lemma_parse_colon_list_progress(s, after_token(s, pos0), r0.grid.num_layer, r0.min_wire_width);
        }
        let k = res.grid.num_layer;
        match read_colon_list(reader, k, &mut res.min_wire_width) {
            Ok(()) => {
                proof {
                    assert(parse_route_at(s, reader.position(), res@) == parse_route_at(
                        s,
                        pos0,
                        r0,
                    )) by {
                        reveal_with_fuel(parse_route_at, 1);
                    };
                    if route_terms_wf(r0) {
                        assert(res@.ni_terminal_to_layer == r0.ni_terminal_to_layer);
                        assert forall|a: int, b: int|
                            0 <= a < b < res@.ni_terminal_to_layer.len()
                                implies res@.ni_terminal_to_layer[a].0
                                != res@.ni_terminal_to_layer[b].0 by {
                            assert(r0.ni_terminal_to_layer[a].0 != r0.ni_terminal_to_layer[b].0);
                        }
                        assert(route_terms_wf(res@));
                    }
                }
                Ok(())
            },
            Err(e) => {
                proof {
                    assert(parse_route_at(s, pos0, r0) == Err::<RouteV, BookshelfError>(e)) by {
                        reveal_with_fuel(parse_route_at, 1);
                    };
                }
                Err(e)
            },
        }
    } else {
        route_step_more(reader, res, t)
    }
}

/// The later sections of the routing-grid dispatch.
#[verifier::rlimit(100)]
fn route_step_more(reader: &mut TokenReader, res: &mut Route, t: &String) -> (r: Result<
    (),
    BookshelfError,
>)
    requires
        old(reader).wf(),
        has_token(old(reader).text(), old(reader).position()),
        t@ == token_chars(old(reader).text(), old(reader).position()),
        upper_seq(t@) != upper_seq("route"@),
        upper_seq(t@) != upper_seq("#"@),
        upper_seq(t@) != upper_seq("Grid"@),
        upper_seq(t@) != upper_seq("VerticalCapacity"@),
        upper_seq(t@) != upper_seq("HorizontalCapacity"@),
        upper_seq(t@) != upper_seq("MinWireWidth"@),
    ensures
        final(reader).wf(),
        final(reader).text() == old(reader).text(),
        match r {
            Ok(()) => {
                &&& parse_route_at(old(reader).text(), old(reader).position(), old(res)@)
                    == parse_route_at(
                    old(reader).text(),
                    final(reader).position(),
                    final(res)@,
                )
                &&& old(reader).position() < final(reader).position()
                &&& 0 <= final(reader).position() <= final(reader).text().len()
                &&& route_terms_wf(old(res)@) ==> route_terms_wf(final(res)@)
            },
            Err(e) => parse_route_at(old(reader).text(), old(reader).position(), old(res)@)
                == Err::<RouteV, BookshelfError>(e),
        },
{
    let ghost s = old(reader).text();
    let ghost pos0 = old(reader).position();
    let ghost r0 = res@;
    proof {
        lemma_token_progress(s, pos0);
        lemma_line_start_bounds(s, after_token(s, pos0));
    }
    if str_eq_ignore_case(t.as_str(), "MinWireSpacing") {
        let _ = reader.next_token();
        proof {
            lemma_parse_colon_list_progress(s, after_token(s, pos0), r0.grid.num_layer, r0.min_wire_spacing);
        }
        let k = res.grid.num_layer;
        match read_colon_list(reader, k, &mut res.min_wire_spacing) {
            Ok(()) => {
                proof {
                    assert(parse_route_at(s, reader.position(), res@) == parse_route_at(
                        s,
                        pos0,
                        r0,
                    )) by {
                        reveal_with_fuel(parse_route_at, 1);
                    };
                    if route_terms_wf(r0) {
                        assert(res@.ni_terminal_to_layer == r0.ni_terminal_to_layer);
                        assert forall|a: int, b: int|
                            0 <= a < b < res@.ni_terminal_to_layer.len()
                                implies res@.ni_terminal_to_layer[a].0
                                != res@.ni_terminal_to_layer[b].0 by {
                            assert(r0.ni_terminal_to_layer[a].0 != r0.ni_terminal_to_layer[b].0);
                        }
                        assert(route_terms_wf(res@));
                    }
                }
                Ok(())
            },
            Err(e) => {
                proof {
                    assert(parse_route_at(s, pos0, r0) == Err::<RouteV, BookshelfError>(e)) by {
                        reveal_with_fuel(parse_route_at, 1);
                    };
                }
                Err(e)
            },
        }
    } else if str_eq_ignore_case(t.as_str(), "ViaSpacing") {
        let _ = reader.next_token();
        proof {
            lemma_parse_colon_list_progress(s, after_token(s, pos0), r0.grid.num_layer, r0.via_spacing);
        }
        let k = res.grid.num_layer;
        match read_colon_list(reader, k, &mut res.via_spacing) {
            Ok(()) => {
                proof {
                    assert(parse_route_at(s, reader.position(), res@) == parse_route_at(
                        s,
                        pos0,
                        r0,
                    )) by {
                        reveal_with_fuel(parse_route_at, 1);
                    };
                    if route_terms_wf(r0) {
                        assert(res@.ni_terminal_to_layer == r0.ni_terminal_to_layer);
                        assert forall|a: int, b: int|
                            0 <= a < b < res@.ni_terminal_to_layer.len()
                                implies res@.ni_terminal_to_layer[a].0
                                != res@.ni_terminal_to_layer[b].0 by {
                            assert(r0.ni_terminal_to_layer[a].0 != r0.ni_terminal_to_layer[b].0);
                        }
                        assert(route_terms_wf(res@));
                    }
                }
                Ok(())
            },
            Err(e) => {
                proof {
                    assert(parse_route_at(s, pos0, r0) == Err::<RouteV, BookshelfError>(e)) by {
                        reveal_with_fuel(parse_route_at, 1);
                    };
                }
                Err(e)
            },
        }
    } else if str_eq_ignore_case(t.as_str(), "GridOrigin") {
        let _ = reader.next_token();
        proof {
            lemma_parse_colon_point_progress(s, after_token(s, pos0));
        }
        match read_colon_point(reader) {
            Ok(p) => {
                res.grid_origin = p;
                proof {
                    assert(parse_route_at(s, reader.position(), res@) == parse_route_at(
                        s,
                        pos0,
                        r0,
                    )) by {
                        reveal_with_fuel(parse_route_at, 1);
                    };
                    if route_terms_wf(r0) {
                        assert(res@.ni_terminal_to_layer == r0.ni_terminal_to_layer);
                        assert forall|a: int, b: int|
                            0 <= a < b < res@.ni_terminal_to_layer.len()
                                implies res@.ni_terminal_to_layer[a].0
                                != res@.ni_terminal_to_layer[b].0 by {
                            assert(r0.ni_terminal_to_layer[a].0 != r0.ni_terminal_to_layer[b].0);
                        }
                        assert(route_terms_wf(res@));
                    }
                }
                Ok(())
            },
            Err(e) => {
                proof {
                    assert(parse_route_at(s, pos0, r0) == Err::<RouteV, BookshelfError>(e)) by {
                        reveal_with_fuel(parse_route_at, 1);
                    };
                }
                Err(e)
            },
        }
    } else if str_eq_ignore_case(t.as_str(), "TileSize") {
        let _ = reader.next_token();
        proof {
            lemma_parse_colon_point_progress(s, after_token(s, pos0));
        }
        match read_colon_point(reader) {
            Ok(p) => {
                res.tile_size = p;
                proof {
                    assert(parse_route_at(s, reader.position(), res@) == parse_route_at(
                        s,
                        pos0,
                        r0,
                    )) by {
                        reveal_with_fuel(parse_route_at, 1);
                    };
                    if route_terms_wf(r0) {
                        assert(res@.ni_terminal_to_layer == r0.ni_terminal_to_layer);
                        assert forall|a: int, b: int|
                            0 <= a < b < res@.ni_terminal_to_layer.len()
                                implies res@.ni_terminal_to_layer[a].0
                                != res@.ni_terminal_to_layer[b].0 by {
                            assert(r0.ni_terminal_to_layer[a].0 != r0.ni_terminal_to_layer[b].0);
                        }
                        assert(route_terms_wf(res@));
                    }
                }
                Ok(())
            },
            Err(e) => {
                proof {
                    assert(parse_route_at(s, pos0, r0) == Err::<RouteV, BookshelfError>(e)) by {
                        reveal_with_fuel(parse_route_at, 1);
                    };
                }
                Err(e)
            },
        }
    } else if str_eq_ignore_case(t.as_str(), "BlockagePorosity") {
        let _ = reader.next_token();
        proof {
            crate::scl::lemma_parse_colon_progress(s, after_token(s, pos0));
        }
        match crate::scl::read_colon_int(reader) {
            Ok(v) => {
                res.blockage_porosity = v;
                proof {
                    assert(parse_route_at(s, reader.position(), res@) == parse_route_at(
                        s,
                        pos0,
                        r0,
                    )) by {
                        reveal_with_fuel(parse_route_at, 1);
                    };
                    if route_terms_wf(r0) {
                        assert(res@.ni_terminal_to_layer == r0.ni_terminal_to_layer);
                        assert forall|a: int, b: int|
                            0 <= a < b < res@.ni_terminal_to_layer.len()
                                implies res@.ni_terminal_to_layer[a].0
                                != res@.ni_terminal_to_layer[b].0 by {
                            assert(r0.ni_terminal_to_layer[a].0 != r0.ni_terminal_to_layer[b].0);
                        }
                        assert(route_terms_wf(res@));
                    }
                }
                Ok(())
            },
            Err(e) => {
                proof {
                    assert(parse_route_at(s, pos0, r0) == Err::<RouteV, BookshelfError>(e)) by {
                        reveal_with_fuel(parse_route_at, 1);
                    };
                }
                Err(e)
            },
        }
    } else {
        route_step_tail(reader, res, t)
    }
}

/// The last sections of the routing-grid dispatch.
#[verifier::rlimit(100)]
fn route_step_tail(reader: &mut TokenReader, res: &mut Route, t: &String) -> (r: Result<
    (),
    BookshelfError,
>)
    requires
        old(reader).wf(),
        has_token(old(reader).text(), old(reader).position()),
        t@ == token_chars(old(reader).text(), old(reader).position()),
        upper_seq(t@) != upper_seq("route"@),
        upper_seq(t@) != upper_seq("#"@),
        upper_seq(t@) != upper_seq("Grid"@),
        upper_seq(t@) != upper_seq("VerticalCapacity"@),
        upper_seq(t@) != upper_seq("HorizontalCapacity"@),
        upper_seq(t@) != upper_seq("MinWireWidth"@),
        upper_seq(t@) != upper_seq("MinWireSpacing"@),
        upper_seq(t@) != upper_seq("ViaSpacing"@),
        upper_seq(t@) != upper_seq("GridOrigin"@),
        upper_seq(t@) != upper_seq("TileSize"@),
        upper_seq(t@) != upper_seq("BlockagePorosity"@),
    ensures
        final(reader).wf(),
        final(reader).text() == old(reader).text(),
        match r {
            Ok(()) => {
                &&& parse_route_at(old(reader).text(), old(reader).position(), old(res)@)
                    == parse_route_at(
                    old(reader).text(),
                    final(reader).position(),
                    final(res)@,
                )
                &&& old(reader).position() < final(reader).position()
                &&& 0 <= final(reader).position() <= final(reader).text().len()
                &&& route_terms_wf(old(res)@) ==> route_terms_wf(final(res)@)
            },
            Err(e) => parse_route_at(old(reader).text(), old(reader).position(), old(res)@)
                == Err::<RouteV, BookshelfError>(e),
        },
{
    let ghost s = old(reader).text();
    let ghost pos0 = old(reader).position();
    let ghost r0 = res@;
    proof {
        lemma_token_progress(s, pos0);
        lemma_line_start_bounds(s, after_token(s, pos0));
    }
    if str_eq_ignore_case(t.as_str(), "NumNiTerminals") {
        let _ = reader.next_token();
        proof {
            lemma_parse_terminal_section_progress(s, after_token(s, pos0));
        }
        match read_terminal_section(reader) {
            Ok(m) => {
                res.ni_terminal_to_layer = m;
                proof {
                    assert(parse_route_at(s, reader.position(), res@) == parse_route_at(
                        s,
                        pos0,
                        r0,
                    )) by {
                        reveal_with_fuel(parse_route_at, 1);
                    };
                    assert forall|a: int, b: int|
                        0 <= a < b < res@.ni_terminal_to_layer.len()
                            implies res@.ni_terminal_to_layer[a].0
                            != res@.ni_terminal_to_layer[b].0 by {
                        assert(terms_unique(res@.ni_terminal_to_layer));
                    }
                    assert(route_terms_wf(res@));
                }
                Ok(())
            },
            Err(e) => {
                proof {
                    assert(parse_route_at(s, pos0, r0) == Err::<RouteV, BookshelfError>(e)) by {
                        reveal_with_fuel(parse_route_at, 1);
                    };
                }
                Err(e)
            },
        }
    } else if str_eq_ignore_case(t.as_str(), "NumBlockageNodes") {
        proof {
            lemma_parse_blockage_section_progress(s, after_token(s, pos0));
        }
        match reader.expect("NumBlockageNodes") {
            Ok(()) => {},
            Err(e) => {
                proof {
                    assert(parse_route_at(s, pos0, r0) == Err::<RouteV, BookshelfError>(e)) by {
                        reveal_with_fuel(parse_route_at, 1);
                    };
                }
                return Err(e);
            },
        }
        match read_blockage_section(reader) {
            Ok(m) => {
                res.blockage_info = m;
                proof {
                    assert(parse_route_at(s, reader.position(), res@) == parse_route_at(
                        s,
                        pos0,
                        r0,
                    )) by {
                        reveal_with_fuel(parse_route_at, 1);
                    };
                    if route_terms_wf(r0) {
                        assert(res@.ni_terminal_to_layer == r0.ni_terminal_to_layer);
                        assert forall|a: int, b: int|
                            0 <= a < b < res@.ni_terminal_to_layer.len()
                                implies res@.ni_terminal_to_layer[a].0
                                != res@.ni_terminal_to_layer[b].0 by {
                            assert(r0.ni_terminal_to_layer[a].0 != r0.ni_terminal_to_layer[b].0);
                        }
                        assert(route_terms_wf(res@));
                    }
                }
                Ok(())
            },
            Err(e) => {
                proof {
                    assert(parse_route_at(s, pos0, r0) == Err::<RouteV, BookshelfError>(e)) by {
                        reveal_with_fuel(parse_route_at, 1);
                    };
                }
                Err(e)
            },
        }
    } else {
        let _ = reader.next_token();
        let _ = reader.swallow_line();
        proof {
            assert(parse_route_at(s, reader.position(), res@) == parse_route_at(s, pos0, r0))
                by {
                reveal_with_fuel(parse_route_at, 1);
            };
            if route_terms_wf(r0) {
                assert(res@.ni_terminal_to_layer == r0.ni_terminal_to_layer);
                assert forall|a: int, b: int|
                    0 <= a < b < res@.ni_terminal_to_layer.len()
                        implies res@.ni_terminal_to_layer[a].0 != res@.ni_terminal_to_layer[b].0
                    by {
                    assert(r0.ni_terminal_to_layer[a].0 != r0.ni_terminal_to_layer[b].0);
                }
                assert(route_terms_wf(res@));
            }
        }
        Ok(())
    }
}

/// Reads `: ` and `k` integers onto the end of `dst`, the keyword already
/// consumed.
fn read_colon_list(reader: &mut TokenReader, k: i64, dst: &mut Vec<i64>) -> (r: Result<
    (),
    BookshelfError,
>)
    requires
        old(reader).wf(),
    ensures
        final(reader).wf(),
        final(reader).text() == old(reader).text(),
        match r {
            Ok(()) => parse_colon_list_at(
                old(reader).text(),
                old(reader).position(),
                k as int,
                int_seq_view(old(dst)@),
            ) == Ok::<(Seq<int>, int), BookshelfError>(
                (int_seq_view(final(dst)@), final(reader).position()),
            ),
            Err(e) => parse_colon_list_at(
                old(reader).text(),
                old(reader).position(),
                k as int,
                int_seq_view(old(dst)@),
            ) == Err::<(Seq<int>, int), BookshelfError>(e),
        },
{
    match reader.expect(":") {
        Ok(()) => {},
        Err(e) => {
            return Err(e);
        },
    }
    read_int_list(reader, k, dst)
}

/// Reads `: <point>`, the keyword already consumed.
fn read_colon_point(reader: &mut TokenReader) -> (r: Result<Point, BookshelfError>)
    requires
        old(reader).wf(),
    ensures
        final(reader).wf(),
        final(reader).text() == old(reader).text(),
        match r {
            Ok(p) => parse_colon_point_at(old(reader).text(), old(reader).position()) == Ok::<
                (PointV, int),
                BookshelfError,
            >((p@, final(reader).position())),
            Err(e) => parse_colon_point_at(old(reader).text(), old(reader).position()) == Err::<
                (PointV, int),
                BookshelfError,
            >(e),
        },
{
    match reader.expect(":") {
        Ok(()) => {},
        Err(e) => {
            return Err(e);
        },
    }
    Point::read(reader)
}

/// Reads the count and entries of the terminal section, the keyword already
/// consumed.
fn read_terminal_section(reader: &mut TokenReader) -> (r: Result<
    Vec<(String, i64)>,
    BookshelfError,
>)
    requires
        old(reader).wf(),
    ensures
        final(reader).wf(),
        final(reader).text() == old(reader).text(),
        match r {
            Ok(m) => parse_terminal_section_at(old(reader).text(), old(reader).position())
                == Ok::<(Seq<(Seq<char>, int)>, int), BookshelfError>(
                (term_map_view(m@), final(reader).position()),
            ) && terms_unique(term_map_view(m@)),
            Err(e) => parse_terminal_section_at(old(reader).text(), old(reader).position())
                == Err::<(Seq<(Seq<char>, int)>, int), BookshelfError>(e),
        },
{
    let n = match crate::scl::read_colon_int(reader) {
        Ok(v) => v,
        Err(e) => {
            return Err(e);
        },
    };
    read_terminals(reader, n)
}

/// Reads the count and entries of the blockage section, the keyword already
/// consumed.
fn read_blockage_section(reader: &mut TokenReader) -> (r: Result<
    Vec<(String, Vec<i64>)>,
    BookshelfError,
>)
    requires
        old(reader).wf(),
    ensures
        final(reader).wf(),
        final(reader).text() == old(reader).text(),
        match r {
            Ok(m) => parse_blockage_section_at(old(reader).text(), old(reader).position())
                == Ok::<(Seq<(Seq<char>, Seq<int>)>, int), BookshelfError>(
                (blockage_map_view(m@), final(reader).position()),
            ),
            Err(e) => parse_blockage_section_at(old(reader).text(), old(reader).position())
                == Err::<(Seq<(Seq<char>, Seq<int>)>, int), BookshelfError>(e),
        },
{
    let n = match crate::scl::read_colon_int(reader) {
        Ok(v) => v,
        Err(e) => {
            return Err(e);
        },
    };
    read_blockages(reader, n)
}

/// Reads `k` terminal entries into a fresh map.
fn read_terminals(reader: &mut TokenReader, k: i64) -> (r: Result<
    Vec<(String, i64)>,
    BookshelfError,
>)
    requires
        old(reader).wf(),
    ensures
        final(reader).wf(),
        final(reader).text() == old(reader).text(),
        match r {
            Ok(m) => parse_terminals_at(
                old(reader).text(),
                old(reader).position(),
                k as int,
                Seq::empty(),
            ) == Ok::<(Seq<(Seq<char>, int)>, int), BookshelfError>(
                (term_map_view(m@), final(reader).position()),
            ) && terms_unique(term_map_view(m@)),
            Err(e) => parse_terminals_at(
                old(reader).text(),
                old(reader).position(),
                k as int,
                Seq::empty(),
            ) == Err::<(Seq<(Seq<char>, int)>, int), BookshelfError>(e),
        },
{
    let ghost s = old(reader).text();
    let mut m: Vec<(String, i64)> = Vec::new();
    proof {
        assert(term_map_view(m@) =~= Seq::<(Seq<char>, int)>::empty());
        assert(terms_unique(term_map_view(m@)));
    }
    let mut i: i64 = 0;
    while i < k
        invariant
            reader.wf(),
            reader.text() == s,
            s == old(reader).text(),
            0 <= i <= k || (k < 0 && i == 0),
            parse_terminals_at(
                s,
                reader.position(),
                k - i,
                term_map_view(m@),
            ) == parse_terminals_at(s, old(reader).position(), k as int, Seq::empty()),
            terms_unique(term_map_view(m@)),
        decreases k - i,
    {
        let ghost pos0 = reader.position();
        proof {
            if has_token(s, pos0) {
                lemma_token_progress(s, pos0);
                if has_token(s, after_token(s, pos0)) {
                    lemma_token_progress(s, after_token(s, pos0));
                }
            }
        }
        let name = match reader.next_token() {
            None => {
                return Err(BookshelfError::TruncatedInput);
            },
            Some(t) => t,
        };
        let lt = match reader.next_token() {
            None => {
                return Err(BookshelfError::TruncatedInput);
            },
            Some(t) => t,
        };
        let layer = match parse(lt.as_str()) {
            Some(v) => v,
            None => {
                return Err(BookshelfError::Grammar);
            },
        };
        term_upsert(&mut m, name, layer);
        i = i + 1;
    }
    Ok(m)
}

/// Adds an entry to the terminal map, replacing one of the same name.
fn term_upsert(m: &mut Vec<(String, i64)>, name: String, layer: i64)
    ensures
        term_map_view(final(m)@) == upsert_term(term_map_view(old(m)@), name@, layer as int),
        terms_unique(term_map_view(old(m)@)) ==> terms_unique(term_map_view(final(m)@)),
{
    let ghost pre = term_map_view(m@);
    let n = m.len();
    let mut i: usize = 0;
    while i < n
        invariant
            n == m@.len(),
            i <= n,
            pre == term_map_view(m@),
            pre == term_map_view(old(m)@),
            forall|j: int| 0 <= j < i ==> pre[j].0 != name@,
        decreases n - i,
    {
        if str_eq(m[i].0.as_str(), name.as_str()) {
            proof {
                lemma_term_index_found(pre, name@, i as int);
            }
            let ghost namev = name@;
            m.set(i, (name, layer));
            proof {
                assert(term_map_view(m@) =~= pre.update(i as int, (namev, layer as int)));
                assert(has_term(pre, namev));
                assert(term_index_of(pre, namev) == i as int);
                assert(upsert_term(pre, namev, layer as int) == pre.update(
                    i as int,
                    (namev, layer as int),
                ));
                if terms_unique(pre) {
                    let cur = term_map_view(m@);
                    assert(pre[i as int].0 == namev);
                    assert forall|a: int, b: int|
                        0 <= a < b < cur.len() implies cur[a].0 != cur[b].0 by {
                        assert(cur[a] == if a == i as int {
                            (namev, layer as int)
                        } else {
                            pre[a]
                        });
                        assert(cur[b] == if b == i as int {
                            (namev, layer as int)
                        } else {
                            pre[b]
                        });
                    }
                }
            }
            return ;
        }
        i = i + 1;
    }
    proof {
        lemma_term_index_found(pre, name@, n as int);
    }
    let ghost namev = name@;
    m.push((name, layer));
    proof {
        assert(term_map_view(m@) =~= pre.push((namev, layer as int)));
        lemma_term_index_of_props(pre, namev);
        if terms_unique(pre) {
            let cur = term_map_view(m@);
            assert forall|a: int, b: int|
                0 <= a < b < cur.len() implies cur[a].0 != cur[b].0 by {
                if b == pre.len() {
                    assert(cur[a] == pre[a]);
                    assert(cur[b].0 == namev);
                    assert(pre[a].0 != namev);
                } else {
                    assert(cur[a] == pre[a]);
                    assert(cur[b] == pre[b]);
                }
            }
        }
    }
}

/// Reads `k` blockage entries into a fresh map.
fn read_blockages(reader: &mut TokenReader, k: i64) -> (r: Result<
    Vec<(String, Vec<i64>)>,
    BookshelfError,
>)
    requires
        old(reader).wf(),
    ensures
        final(reader).wf(),
        final(reader).text() == old(reader).text(),
        match r {
            Ok(m) => parse_blockages_at(
                old(reader).text(),
                old(reader).position(),
                k as int,
                Seq::empty(),
            ) == Ok::<(Seq<(Seq<char>, Seq<int>)>, int), BookshelfError>(
                (blockage_map_view(m@), final(reader).position()),
            ),
            Err(e) => parse_blockages_at(
                old(reader).text(),
                old(reader).position(),
                k as int,
                Seq::empty(),
            ) == Err::<(Seq<(Seq<char>, Seq<int>)>, int), BookshelfError>(e),
        },
{
    let ghost s = old(reader).text();
    let mut m: Vec<(String, Vec<i64>)> = Vec::new();
    proof {
        assert(blockage_map_view(m@) =~= Seq::<(Seq<char>, Seq<int>)>::empty());
    }
    let mut i: i64 = 0;
    while i < k
        invariant
            reader.wf(),
            reader.text() == s,
            s == old(reader).text(),
            0 <= i <= k || (k < 0 && i == 0),
            parse_blockages_at(
                s,
                reader.position(),
                k - i,
                blockage_map_view(m@),
            ) == parse_blockages_at(s, old(reader).position(), k as int, Seq::empty()),
        decreases k - i,
    {
        let ghost pos0 = reader.position();
        proof {
            if has_token(s, pos0) {
                lemma_token_progress(s, pos0);
                if has_token(s, after_token(s, pos0)) {
                    lemma_token_progress(s, after_token(s, pos0));
                }
            }
        }
        let name = match reader.next_token() {
            None => {
                return Err(BookshelfError::TruncatedInput);
            },
            Some(t) => t,
        };
        let nt = match reader.next_token() {
            None => {
                return Err(BookshelfError::TruncatedInput);
            },
            Some(t) => t,
        };
        let nl = match parse(nt.as_str()) {
            Some(v) => v,
            None => {
                return Err(BookshelfError::Grammar);
            },
        };
        let mut ids: Vec<i64> = Vec::new();
        proof {
            assert(int_seq_view(ids@) =~= Seq::<int>::empty());
        }
        match read_int_list(reader, nl, &mut ids) {
            Ok(()) => {},
            Err(e) => {
                return Err(e);
            },
        }
        let ghost before = blockage_map_view(m@);
        let ghost namev = name@;
        let ghost idsv = int_seq_view(ids@);
        m.push((name, ids));
        proof {
            assert(blockage_map_view(m@) =~= before.push((namev, idsv)));
        }
        i = i + 1;
    }
    Ok(m)
}

} // verus!
