//! Die and core area. The die area is the routing grid's outer bound:
//! origin plus tile size times tile count. The core area is the tightest
//! box around the placement rows. The two are derived independently and may
//! legitimately differ; neither is reconciled against the other.

use vstd::prelude::*;
use crate::error::BookshelfError;
use crate::geom::{Point, PointV, Rect, RectV, in_i64};
use crate::numfmt::{dec_int, push_dec_i64};
use crate::parser::Bookshelf;
use crate::route::RouteV;
use crate::scl::RowV;
use vstd::string::StringExecFns;

verus! {

/// The die's lower-left corner: the grid origin.
pub open spec fn die_ll(route: RouteV) -> PointV {
    route.grid_origin
}

/// The die's upper-right x: origin plus tile size times tile count.
pub open spec fn die_ur_x(route: RouteV) -> int {
    route.grid_origin.x + route.tile_size.x * route.grid.num_x
}

/// The die's upper-right y.
pub open spec fn die_ur_y(route: RouteV) -> int {
    route.grid_origin.y + route.tile_size.y * route.grid.num_y
}

/// Whether the die corners and their database-micron scalings fit the
/// machine integers.
pub open spec fn die_in_range(route: RouteV) -> bool {
    &&& in_i64(route.tile_size.x * route.grid.num_x)
    &&& in_i64(route.tile_size.y * route.grid.num_y)
    &&& in_i64(die_ur_x(route))
    &&& in_i64(die_ur_y(route))
    &&& in_i64(route.grid_origin.x * 1000)
    &&& in_i64(route.grid_origin.y * 1000)
    &&& in_i64(die_ur_x(route) * 1000)
    &&& in_i64(die_ur_y(route) * 1000)
}

/// The chip outline derived from the routing grid.
pub struct DieArea {
    pub die_area: Rect,
}

impl DieArea {
    /// Derives the die area from the routing grid: lower-left at the grid
    /// origin, upper-right one tile size per tile further.
    pub fn build(bookshelf: &Bookshelf) -> (r: Result<DieArea, BookshelfError>)
        ensures
            match r {
                Ok(d) => {
                    &&& die_in_range(bookshelf.route@)
                    &&& d.die_area@.ll == die_ll(bookshelf.route@)
                    &&& d.die_area@.ur.x == die_ur_x(bookshelf.route@)
                    &&& d.die_area@.ur.y == die_ur_y(bookshelf.route@)
                },
                Err(e) => {
                    &&& e == BookshelfError::Overflow
                    &&& !die_in_range(bookshelf.route@)
                },
            },
    {
        let route = &bookshelf.route;
        let ll = route.grid_origin;
        let dx = match route.tile_size.x.checked_mul(route.grid.num_x) {
            Some(v) => v,
            None => {
                return Err(BookshelfError::Overflow);
            },
        };
        let dy = match route.tile_size.y.checked_mul(route.grid.num_y) {
            Some(v) => v,
            None => {
                return Err(BookshelfError::Overflow);
            },
        };
        let urx = match ll.x.checked_add(dx) {
            Some(v) => v,
            None => {
                return Err(BookshelfError::Overflow);
            },
        };
        let ury = match ll.y.checked_add(dy) {
            Some(v) => v,
            None => {
                return Err(BookshelfError::Overflow);
            },
        };
        if ll.x.checked_mul(1000).is_none() || ll.y.checked_mul(1000).is_none()
            || urx.checked_mul(1000).is_none() || ury.checked_mul(1000).is_none() {
            return Err(BookshelfError::Overflow);
        }
        Ok(DieArea { die_area: Rect { ll, ur: Point { x: urx, y: ury } } })
    }

    /// The DEF `DIEAREA` record, corners scaled to database microns.
    pub fn write(&self) -> (r: String)
        requires
            in_i64(self.die_area@.ll.x * 1000),
            in_i64(self.die_area@.ll.y * 1000),
            in_i64(self.die_area@.ur.x * 1000),
            in_i64(self.die_area@.ur.y * 1000),
        ensures
            r@ == die_area_text(self.die_area@),
    {
        proof {
            reveal_strlit("\nDIEAREA ( ");
            reveal_strlit(" ");
            reveal_strlit(" ) ( ");
            reveal_strlit(" ) ;");
        }
        let mut out = String::new();
        out.append("\nDIEAREA ( ");
        push_dec_i64(self.die_area.ll.x * 1000, &mut out);
        out.append(" ");
        push_dec_i64(self.die_area.ll.y * 1000, &mut out);
        out.append(" ) ( ");
        push_dec_i64(self.die_area.ur.x * 1000, &mut out);
        out.append(" ");
        push_dec_i64(self.die_area.ur.y * 1000, &mut out);
        out.append(" ) ;");
        proof {
            assert(out@ =~= die_area_text(self.die_area@));
        }
        out
    }
}

/// The text of the DEF `DIEAREA` record.
pub open spec fn die_area_text(r: RectV) -> Seq<char> {
    "\nDIEAREA ( "@ + dec_int(r.ll.x * 1000) + " "@ + dec_int(r.ll.y * 1000) + " ) ( "@ + dec_int(
        r.ur.x * 1000,
    ) + " "@ + dec_int(r.ur.y * 1000) + " ) ;"@
}

/// The smallest x where a placement row starts.
pub open spec fn core_ll_x(rows: Seq<RowV>) -> int
    decreases rows.len(),
{
    if rows.len() <= 1 {
        rows[0].subrow_origin
    } else if rows.last().subrow_origin < core_ll_x(rows.drop_last()) {
        rows.last().subrow_origin
    } else {
        core_ll_x(rows.drop_last())
    }
}

/// The smallest y where a placement row starts.
pub open spec fn core_ll_y(rows: Seq<RowV>) -> int
    decreases rows.len(),
{
    if rows.len() <= 1 {
        rows[0].coordinate
    } else if rows.last().coordinate < core_ll_y(rows.drop_last()) {
        rows.last().coordinate
    } else {
        core_ll_y(rows.drop_last())
    }
}

/// Where a row ends: its origin plus its sites times their width.
pub open spec fn row_end_x(row: RowV) -> int {
    row.subrow_origin + row.num_sites * row.site_width
}

/// The top of a row: its coordinate plus its height.
pub open spec fn row_end_y(row: RowV) -> int {
    row.coordinate + row.height
}

/// The largest x where a placement row ends.
pub open spec fn core_ur_x(rows: Seq<RowV>) -> int
    decreases rows.len(),
{
    if rows.len() <= 1 {
        row_end_x(rows[0])
    } else if row_end_x(rows.last()) > core_ur_x(rows.drop_last()) {
        row_end_x(rows.last())
    } else {
        core_ur_x(rows.drop_last())
    }
}

/// The largest y where a placement row ends.
pub open spec fn core_ur_y(rows: Seq<RowV>) -> int
    decreases rows.len(),
{
    if rows.len() <= 1 {
        row_end_y(rows[0])
    } else if row_end_y(rows.last()) > core_ur_y(rows.drop_last()) {
        row_end_y(rows.last())
    } else {
        core_ur_y(rows.drop_last())
    }
}

/// Whether every row's extent arithmetic fits the machine integers.
pub open spec fn core_in_range(rows: Seq<RowV>) -> bool {
    &&& rows.len() > 0
    &&& forall|i: int|
        0 <= i < rows.len() ==> in_i64((#[trigger] rows[i]).num_sites * rows[i].site_width)
            && in_i64(row_end_x(rows[i])) && in_i64(row_end_y(rows[i]))
}

/// The tightest box containing every placement row. There is none without
/// rows.
pub fn core_area(scl: &crate::scl::Scl) -> (r: Result<Rect, BookshelfError>)
    ensures
        match r {
            Ok(rc) => {
                &&& core_in_range(scl@)
                &&& rc@.ll.x == core_ll_x(scl@)
                &&& rc@.ll.y == core_ll_y(scl@)
                &&& rc@.ur.x == core_ur_x(scl@)
                &&& rc@.ur.y == core_ur_y(scl@)
            },
            Err(e) => {
                &&& !core_in_range(scl@)
                &&& (e == BookshelfError::NoRows <==> scl@.len() == 0)
                &&& e == BookshelfError::NoRows || e == BookshelfError::Overflow
            },
        },
{
    let ghost rows = scl@;
    let n = scl.rows.len();
    if n == 0 {
        return Err(BookshelfError::NoRows);
    }
    let first = &scl.rows[0];
    let mut llx = first.subrow_origin;
    let mut lly = first.coordinate;
    let w0 = match first.num_sites.checked_mul(first.site_width) {
        Some(v) => v,
        None => {
            return Err(BookshelfError::Overflow);
        },
    };
    let mut urx = match first.subrow_origin.checked_add(w0) {
        Some(v) => v,
        None => {
            return Err(BookshelfError::Overflow);
        },
    };
    let mut ury = match first.coordinate.checked_add(first.height) {
        Some(v) => v,
        None => {
            return Err(BookshelfError::Overflow);
        },
    };
    let mut i: usize = 1;
    proof {
        assert(rows.subrange(0, 1).len() == 1);
        assert(rows.subrange(0, 1)[0] == rows[0]);
    }
    while i < n
        invariant
            n == rows.len(),
            rows == scl@,
            1 <= i <= n,
            llx == core_ll_x(rows.subrange(0, i as int)),
            lly == core_ll_y(rows.subrange(0, i as int)),
            urx == core_ur_x(rows.subrange(0, i as int)),
            ury == core_ur_y(rows.subrange(0, i as int)),
            forall|q: int|
                0 <= q < i ==> in_i64((#[trigger] rows[q]).num_sites * rows[q].site_width)
                    && in_i64(row_end_x(rows[q])) && in_i64(row_end_y(rows[q])),
        decreases n - i,
    {
        let row = &scl.rows[i];
        let w = match row.num_sites.checked_mul(row.site_width) {
            Some(v) => v,
            None => {
                return Err(BookshelfError::Overflow);
            },
        };
        let ex = match row.subrow_origin.checked_add(w) {
            Some(v) => v,
            None => {
                return Err(BookshelfError::Overflow);
            },
        };
        let ey = match row.coordinate.checked_add(row.height) {
            Some(v) => v,
            None => {
                return Err(BookshelfError::Overflow);
            },
        };
        proof {
            let ext = rows.subrange(0, i + 1);
            assert(ext.drop_last() =~= rows.subrange(0, i as int));
            assert(ext.last() == rows[i as int]);
        }
        if row.subrow_origin < llx {
            llx = row.subrow_origin;
        }
        if row.coordinate < lly {
            lly = row.coordinate;
        }
        if ex > urx {
            urx = ex;
        }
        if ey > ury {
            ury = ey;
        }
        i = i + 1;
    }
    proof {
        assert(rows.subrange(0, n as int) =~= rows);
    }
    Ok(Rect { ll: Point { x: llx, y: lly }, ur: Point { x: urx, y: ury } })
}

} // verus!
