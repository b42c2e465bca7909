//! Routing tracks. For each layer the pitch is the minimum wire width plus
//! the minimum wire spacing, scaled to database microns; tracks start half a
//! pitch inside the die edge and repeat every pitch. One X and one Y track
//! set is emitted per layer, whatever the layer's declared direction.

use vstd::prelude::*;
use crate::error::BookshelfError;
use crate::geom::in_i64;
use crate::lefdef::die_area::{die_ll, die_ur_x, die_ur_y, die_in_range, core_area, core_in_range};
use crate::numfmt::{dec_int, metal_name, metal_string, push_dec_i64};
use crate::parser::Bookshelf;
use crate::route::RouteV;
use vstd::string::StringExecFns;

verus! {

/// The axis a track set runs along.
#[derive(Clone, Copy, Debug, PartialEq, Eq, Structural)]
pub enum Direction {
    X,
    Y,
}

/// One DEF track set: where it starts, how many tracks, their pitch, their
/// layer.
pub struct Track {
    pub direction: Direction,
    pub start: i64,
    pub num_tracks: i64,
    pub step: i64,
    pub layer: String,
}

/// The mathematical value of a track set.
pub struct TrackV {
    pub direction: Direction,
    pub start: int,
    pub num_tracks: int,
    pub step: int,
    pub layer: Seq<char>,
}

impl View for Track {
    type V = TrackV;

    open spec fn view(&self) -> TrackV {
        TrackV {
            direction: self.direction,
            start: self.start as int,
            num_tracks: self.num_tracks as int,
            step: self.step as int,
            layer: self.layer@,
        }
    }
}

/// Truncating division, the way the machine divides.
pub open spec fn div_trunc(a: int, b: int) -> int {
    if a >= 0 {
        a / b
    } else {
        -((-a) / b)
    }
}

/// A layer's track pitch in database microns: wire width plus wire spacing,
/// each scaled by a thousand.
pub open spec fn layer_pitch(route: RouteV, l: int) -> int {
    route.min_wire_spacing[l] * 1000 + route.min_wire_width[l] * 1000
}

/// Where a layer's tracks start along one axis: half a pitch inside the die
/// edge.
pub open spec fn track_start(ll_axis: int, pitch: int) -> int {
    ll_axis * 1000 + pitch / 2
}

/// How many tracks fit between the start and the die's far edge.
pub open spec fn track_count(ll_axis: int, ur_axis: int, pitch: int) -> int {
    div_trunc(ur_axis * 1000 - track_start(ll_axis, pitch), pitch)
}

/// The track count obeys the floor formula: whenever the span from half a
/// pitch inside the edge to the far edge is non-negative, the count is the
/// floor of that span over the pitch.
pub proof fn lemma_track_count_floor(ll_axis: int, ur_axis: int, pitch: int)
    requires
        pitch > 0,
        (ur_axis - ll_axis) * 1000 - pitch / 2 >= 0,
    ensures
        track_count(ll_axis, ur_axis, pitch) == ((ur_axis - ll_axis) * 1000 - pitch / 2) / pitch,
{
    assert(ur_axis * 1000 - track_start(ll_axis, pitch) == (ur_axis - ll_axis) * 1000 - pitch
        / 2) by (nonlinear_arith);
}

/// Whether every per-layer derivation fits the machine integers and is
/// meaningful: the spacing list covers every width entry, each pitch is
/// positive, and every start and span fits.
pub open spec fn tracks_in_range(route: RouteV) -> bool {
    &&& route.min_wire_spacing.len() >= route.min_wire_width.len()
    &&& forall|l: int|
        0 <= l < route.min_wire_width.len() ==> {
            &&& in_i64((#[trigger] route.min_wire_spacing[l]) * 1000)
            &&& in_i64(route.min_wire_width[l] * 1000)
            &&& in_i64(layer_pitch(route, l))
            &&& layer_pitch(route, l) > 0
            &&& in_i64(track_start(die_ll(route).x, layer_pitch(route, l)))
            &&& in_i64(track_start(die_ll(route).y, layer_pitch(route, l)))
            &&& in_i64(die_ur_x(route) * 1000 - track_start(die_ll(route).x, layer_pitch(route, l)))
            &&& in_i64(die_ur_y(route) * 1000 - track_start(die_ll(route).y, layer_pitch(route, l)))
            &&& in_i64((l + 1))
        }
}

/// What the track set for layer `l` along one axis must be.
pub open spec fn track_matches(route: RouteV, l: int, d: Direction, t: TrackV) -> bool {
    let ll_axis = if d == Direction::X {
        die_ll(route).x
    } else {
        die_ll(route).y
    };
    let ur_axis = if d == Direction::X {
        die_ur_x(route)
    } else {
        die_ur_y(route)
    };
    &&& t.direction == d
    &&& t.start == track_start(ll_axis, layer_pitch(route, l))
    &&& t.num_tracks == track_count(ll_axis, ur_axis, layer_pitch(route, l))
    &&& t.step == layer_pitch(route, l)
    &&& t.layer == metal_name(l + 1)
}

/// The synthesized track sets, X then Y for each layer in order.
pub struct Tracks {
    pub tracks: Vec<Track>,
}

/// The mathematical values of a track vector.
pub open spec fn tracks_view(v: Seq<Track>) -> Seq<TrackV> {
    v.map_values(|t: Track| t@)
}

impl View for Tracks {
    type V = Seq<TrackV>;

    open spec fn view(&self) -> Seq<TrackV> {
        tracks_view(self.tracks@)
    }
}

impl Tracks {
    /// Derives one X and one Y track set per routing layer from the die
    /// area and the per-layer wire parameters. The core area is derived
    /// alongside and reported with the die area, so a benchmark without rows
    /// fails here.
    pub fn build(bookshelf: &Bookshelf) -> (r: Result<Tracks, BookshelfError>)
        ensures
            match r {
                Ok(t) => {
                    &&& die_in_range(bookshelf.route@)
                    &&& core_in_range(bookshelf.scl@)
                    &&& tracks_in_range(bookshelf.route@)
                    &&& t@.len() == 2 * bookshelf.route@.min_wire_width.len()
                    &&& forall|l: int|
                        0 <= l < bookshelf.route@.min_wire_width.len() ==> track_matches(
                            bookshelf.route@,
                            l,
                            Direction::X,
                            #[trigger] t@[2 * l],
                        ) && track_matches(bookshelf.route@, l, Direction::Y, t@[2 * l + 1])
                },
                Err(e) => {
                    &&& !(die_in_range(bookshelf.route@) && core_in_range(bookshelf.scl@)
                        && tracks_in_range(bookshelf.route@))
                    &&& (e == BookshelfError::NoRows ==> bookshelf.scl@.len() == 0)
                    &&& (e == BookshelfError::LayerCount ==> bookshelf.route@.min_wire_spacing.len()
                        < bookshelf.route@.min_wire_width.len())
                    &&& (e == BookshelfError::ZeroPitch ==> exists|l: int|
                        0 <= l < bookshelf.route@.min_wire_width.len() && in_i64(
                            layer_pitch(bookshelf.route@, l),
                        ) && #[trigger] layer_pitch(bookshelf.route@, l) <= 0)
                },
            },
    {
        let ghost route = bookshelf.route@;
        let die = crate::lefdef::die_area::DieArea::build(bookshelf)?;
        let _core = core_area(&bookshelf.scl)?;
        let layer_count = bookshelf.route.min_wire_width.len();
        if bookshelf.route.min_wire_spacing.len() < layer_count {
            return Err(BookshelfError::LayerCount);
        }
        let mut tracks: Vec<Track> = Vec::new();
        let mut layer_num: i64 = 0;
        let mut l: usize = 0;
        while l < layer_count
            invariant
                route == bookshelf.route@,
                layer_count == route.min_wire_width.len(),
                route.min_wire_spacing.len() >= layer_count,
                die_in_range(route),
                die.die_area@.ll == die_ll(route),
                die.die_area@.ur.x == die_ur_x(route),
                die.die_area@.ur.y == die_ur_y(route),
                l <= layer_count,
                layer_num == l,
                tracks@.len() == 2 * l,
                forall|q: int|
                    0 <= q < l ==> {
                        &&& in_i64((#[trigger] route.min_wire_spacing[q]) * 1000)
                        &&& in_i64(route.min_wire_width[q] * 1000)
                        &&& in_i64(layer_pitch(route, q))
                        &&& layer_pitch(route, q) > 0
                        &&& in_i64(track_start(die_ll(route).x, layer_pitch(route, q)))
                        &&& in_i64(track_start(die_ll(route).y, layer_pitch(route, q)))
                        &&& in_i64(
                            die_ur_x(route) * 1000 - track_start(
                                die_ll(route).x,
                                layer_pitch(route, q),
                            ),
                        )
                        &&& in_i64(
                            die_ur_y(route) * 1000 - track_start(
                                die_ll(route).y,
                                layer_pitch(route, q),
                            ),
                        )
                        &&& in_i64((q + 1))
                    },
                tracks@.len() == tracks_view(tracks@).len(),
                forall|q: int|
                    0 <= q < l ==> track_matches(
                        route,
                        q,
                        Direction::X,
                        #[trigger] tracks_view(tracks@)[2 * q],
                    ) && track_matches(route, q, Direction::Y, tracks_view(tracks@)[2 * q + 1]),
            decreases layer_count - l,
        {
            let sp = match bookshelf.route.min_wire_spacing[l].checked_mul(1000) {
                Some(v) => v,
                None => {
                    proof {
                        assert(!in_i64(route.min_wire_spacing[l as int] * 1000));
                        if tracks_in_range(route) {
                            assert(in_i64(route.min_wire_spacing[l as int] * 1000));
                            assert(in_i64(route.min_wire_spacing[l as int] * 1000));
                        }
                        assert(!tracks_in_range(route));
                    }
                    return Err(BookshelfError::Overflow);
                },
            };
            let wd = match bookshelf.route.min_wire_width[l].checked_mul(1000) {
                Some(v) => v,
                None => {
                    proof {
                        assert(!in_i64(route.min_wire_width[l as int] * 1000));
                        if tracks_in_range(route) {
                            assert(in_i64(route.min_wire_spacing[l as int] * 1000));
                            assert(in_i64(route.min_wire_width[l as int] * 1000));
                        }
                        assert(!tracks_in_range(route));
                    }
                    return Err(BookshelfError::Overflow);
                },
            };
            let pitch = match sp.checked_add(wd) {
                Some(v) => v,
                None => {
                    proof {
                        assert(!in_i64(layer_pitch(route, l as int)));
                        if tracks_in_range(route) {
                            assert(in_i64(route.min_wire_spacing[l as int] * 1000));
                            assert(in_i64(layer_pitch(route, l as int)));
                        }
                        assert(!tracks_in_range(route));
                    }
                    return Err(BookshelfError::Overflow);
                },
            };
            proof {
                assert(pitch as int == layer_pitch(route, l as int));
            }
            if pitch <= 0 {
                proof {
                    assert(layer_pitch(route, l as int) <= 0);
                    if tracks_in_range(route) {
                        assert(in_i64(route.min_wire_spacing[l as int] * 1000));
                        assert(layer_pitch(route, l as int) > 0);
                    }
                    assert(!tracks_in_range(route));
                }
                return Err(BookshelfError::ZeroPitch);
            }
            let half = pitch / 2;
            proof {
                assert(half as int == layer_pitch(route, l as int) / 2);
            }
            let llx1000 = match die.die_area.ll.x.checked_mul(1000) {
                Some(v) => v,
                None => {
                    proof {
                        assert(false);
                    }
                    return Err(BookshelfError::Overflow);
                },
            };
            let lly1000 = match die.die_area.ll.y.checked_mul(1000) {
                Some(v) => v,
                None => {
                    proof {
                        assert(false);
                    }
                    return Err(BookshelfError::Overflow);
                },
            };
            let urx1000 = match die.die_area.ur.x.checked_mul(1000) {
                Some(v) => v,
                None => {
                    proof {
                        assert(false);
                    }
                    return Err(BookshelfError::Overflow);
                },
            };
            let ury1000 = match die.die_area.ur.y.checked_mul(1000) {
                Some(v) => v,
                None => {
                    proof {
                        assert(false);
                    }
                    return Err(BookshelfError::Overflow);
                },
            };
            let startx = match llx1000.checked_add(half) {
                Some(v) => v,
                None => {
                    proof {
                        assert(!in_i64(track_start(die_ll(route).x, layer_pitch(route, l as int))));
                        if tracks_in_range(route) {
                            assert(in_i64(route.min_wire_spacing[l as int] * 1000));
                            assert(in_i64(track_start(die_ll(route).x, layer_pitch(route, l as int))));
                        }
                        assert(!tracks_in_range(route));
                    }
                    return Err(BookshelfError::Overflow);
                },
            };
            let starty = match lly1000.checked_add(half) {
                Some(v) => v,
                None => {
                    proof {
                        assert(!in_i64(track_start(die_ll(route).y, layer_pitch(route, l as int))));
                        if tracks_in_range(route) {
                            assert(in_i64(route.min_wire_spacing[l as int] * 1000));
                            assert(in_i64(track_start(die_ll(route).y, layer_pitch(route, l as int))));
                        }
                        assert(!tracks_in_range(route));
                    }
                    return Err(BookshelfError::Overflow);
                },
            };
            let spanx = match urx1000.checked_sub(startx) {
                Some(v) => v,
                None => {
                    proof {
                        assert(!in_i64(
                            die_ur_x(route) * 1000 - track_start(
                                die_ll(route).x,
                                layer_pitch(route, l as int),
                            ),
                        ));
                        if tracks_in_range(route) {
                            assert(in_i64(route.min_wire_spacing[l as int] * 1000));
                            assert(in_i64(
                            die_ur_x(route) * 1000 - track_start(
                                die_ll(route).x,
                                layer_pitch(route, l as int),
                            ),
                        ));
                        }
                        assert(!tracks_in_range(route));
                    }
                    return Err(BookshelfError::Overflow);
                },
            };
            let spany = match ury1000.checked_sub(starty) {
                Some(v) => v,
                None => {
                    proof {
                        assert(!in_i64(
                            die_ur_y(route) * 1000 - track_start(
                                die_ll(route).y,
                                layer_pitch(route, l as int),
                            ),
                        ));
                        if tracks_in_range(route) {
                            assert(in_i64(route.min_wire_spacing[l as int] * 1000));
                            assert(in_i64(
                            die_ur_y(route) * 1000 - track_start(
                                die_ll(route).y,
                                layer_pitch(route, l as int),
                            ),
                        ));
                        }
                        assert(!tracks_in_range(route));
                    }
                    return Err(BookshelfError::Overflow);
                },
            };
            let layer_id = match layer_num.checked_add(1) {
                Some(v) => v,
                None => {
                    proof {
                        assert(!in_i64((l as int + 1)));
                        if tracks_in_range(route) {
                            assert(in_i64(route.min_wire_spacing[l as int] * 1000));
                            assert(in_i64((l as int + 1)));
                        }
                        assert(!tracks_in_range(route));
                    }
                    return Err(BookshelfError::Overflow);
                },
            };
            let numx = spanx / pitch;
            let numy = spany / pitch;
            let layer_x = metal_string(layer_id);
            let layer_y = metal_string(layer_id);
            let ghost txv = TrackV {
                direction: Direction::X,
                start: startx as int,
                num_tracks: numx as int,
                step: pitch as int,
                layer: layer_x@,
            };
            let ghost tyv = TrackV {
                direction: Direction::Y,
                start: starty as int,
                num_tracks: numy as int,
                step: pitch as int,
                layer: layer_y@,
            };
            let ghost before = tracks_view(tracks@);
            proof {
                assert(numx as int == div_trunc(spanx as int, pitch as int));
                assert(numy as int == div_trunc(spany as int, pitch as int));
                assert(track_matches(route, l as int, Direction::X, txv));
                assert(track_matches(route, l as int, Direction::Y, tyv));
            }
            tracks.push(
                Track {
                    direction: Direction::X,
                    start: startx,
                    num_tracks: numx,
                    step: pitch,
                    layer: layer_x,
                },
            );
            proof {
                assert(tracks_view(tracks@) =~= before.push(txv));
            }
            let ghost mid = tracks_view(tracks@);
            tracks.push(
                Track {
                    direction: Direction::Y,
                    start: starty,
                    num_tracks: numy,
                    step: pitch,
                    layer: layer_y,
                },
            );
            proof {
                assert(tracks_view(tracks@) =~= mid.push(tyv));
                assert(tracks_view(tracks@)[2 * (l as int)] == txv);
                assert(tracks_view(tracks@)[2 * (l as int) + 1] == tyv);
                assert forall|q: int| 0 <= q < l + 1 implies track_matches(
                    route,
                    q,
                    Direction::X,
                    #[trigger] tracks_view(tracks@)[2 * q],
                ) && track_matches(route, q, Direction::Y, tracks_view(tracks@)[2 * q + 1]) by {
                    if q < l {
                        assert(tracks_view(tracks@)[2 * q] == before[2 * q]);
                        assert(tracks_view(tracks@)[2 * q + 1] == before[2 * q + 1]);
                    } else {
                        assert(tracks_view(tracks@)[2 * q] == txv);
                        assert(tracks_view(tracks@)[2 * q + 1] == tyv);
                    }
                }
                assert(in_i64(route.min_wire_spacing[l as int] * 1000));
                assert(in_i64(route.min_wire_width[l as int] * 1000));
                assert(in_i64(layer_pitch(route, l as int)));
                assert(in_i64(track_start(die_ll(route).x, layer_pitch(route, l as int))));
                assert(in_i64(track_start(die_ll(route).y, layer_pitch(route, l as int))));
                assert(in_i64(
                    die_ur_x(route) * 1000 - track_start(
                        die_ll(route).x,
                        layer_pitch(route, l as int),
                    ),
                ));
                assert(in_i64(
                    die_ur_y(route) * 1000 - track_start(
                        die_ll(route).y,
                        layer_pitch(route, l as int),
                    ),
                ));
            }
            layer_num = layer_id;
            l = l + 1;
        }
        Ok(Tracks { tracks })
    }

    /// The DEF `TRACKS` records, one per track set, in order.
    pub fn write(&self) -> (r: String)
        ensures
            r@ == tracks_text(self@),
    {
        let mut out = String::new();
        let n = self.tracks.len();
        let mut i: usize = 0;
        proof {
            assert(out@ =~= tracks_text(self@.subrange(0, 0)));
        }
        while i < n
            invariant
                n == self@.len(),
                i <= n,
                out@ == tracks_text(self@.subrange(0, i as int)),
            decreases n - i,
        {
            let line = self.tracks[i].write_all();
            out.append(line.as_str());
            proof {
                assert(self@.subrange(0, i + 1).drop_last() =~= self@.subrange(0, i as int));
                assert(self@.subrange(0, i + 1).last() == self@[i as int]);
            }
            i = i + 1;
        }
        proof {
            assert(self@.subrange(0, n as int) =~= self@);
        }
        out
    }
}

/// The text of one DEF `TRACKS` record.
pub open spec fn track_text(t: TrackV) -> Seq<char> {
    "\n TRACKS "@ + direction_text(t.direction) + " "@ + dec_int(t.start) + " DO "@ + dec_int(
        t.num_tracks,
    ) + " STEP "@ + dec_int(t.step) + " LAYER "@ + t.layer + " ;"@
}

/// The axis label of a track set.
pub open spec fn direction_text(d: Direction) -> Seq<char> {
    if d == Direction::X {
        "X"@
    } else {
        "Y"@
    }
}

/// The concatenated text of a list of track sets.
pub open spec fn tracks_text(ts: Seq<TrackV>) -> Seq<char>
    decreases ts.len(),
{
    if ts.len() == 0 {
        Seq::empty()
    } else {
        tracks_text(ts.drop_last()) + track_text(ts.last())
    }
}

impl Track {
    /// The text of this track set's DEF record.
    pub fn write_all(&self) -> (r: String)
        ensures
            r@ == track_text(self@),
    {
        proof {
            reveal_strlit("\n TRACKS ");
            reveal_strlit("X");
            reveal_strlit("Y");
            reveal_strlit(" ");
            reveal_strlit(" DO ");
            reveal_strlit(" STEP ");
            reveal_strlit(" LAYER ");
            reveal_strlit(" ;");
        }
        let mut out = String::new();
        out.append("\n TRACKS ");
        match self.direction {
            Direction::X => out.append("X"),
            Direction::Y => out.append("Y"),
        }
        out.append(" ");
        push_dec_i64(self.start, &mut out);
        out.append(" DO ");
        push_dec_i64(self.num_tracks, &mut out);
        out.append(" STEP ");
        push_dec_i64(self.step, &mut out);
        out.append(" LAYER ");
        out.append(self.layer.as_str());
        out.append(" ;");
        proof {
            assert(out@ =~= track_text(self@));
        }
        out
    }
}

} // verus!
