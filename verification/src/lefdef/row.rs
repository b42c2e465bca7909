//! DEF placement rows. Each Bookshelf row becomes one `ROW` record; the
//! orientation alternates `FS`, `N` by row index parity, a fixed convention
//! because Bookshelf rows do not reliably carry one.

use vstd::prelude::*;
use vstd::string::StringExecFns;
use crate::geom::in_i64;
use crate::numfmt::{dec_int, push_dec_i64};
use crate::parser::Bookshelf;
use crate::scl::{Row, RowV};

verus! {

/// The DEF rows: the site they instantiate and the copied row records.
pub struct Rows {
    pub site_name: String,
    pub rows: Vec<Row>,
}

/// The mathematical values of a row vector.
pub open spec fn rows_view(v: Seq<Row>) -> Seq<RowV> {
    v.map_values(|r: Row| r@)
}

impl Rows {
    /// Copies the placement rows under the given site name.
    pub fn build(bookshelf: &Bookshelf, site_name: String) -> (r: Rows)
        ensures
            r.site_name@ == site_name@,
            rows_view(r.rows@) == bookshelf.scl@,
    {
        let mut rows: Vec<Row> = Vec::new();
        let n = bookshelf.scl.rows.len();
        let mut i: usize = 0;
        proof {
            assert(rows_view(rows@) =~= bookshelf.scl@.subrange(0, 0));
        }
        while i < n
            invariant
                n == bookshelf.scl@.len(),
                i <= n,
                rows_view(rows@) == bookshelf.scl@.subrange(0, i as int),
            decreases n - i,
        {
            let row = bookshelf.scl.rows[i];
            let ghost before = rows_view(rows@);
            rows.push(row);
            proof {
                assert(row@ == bookshelf.scl@[i as int]);
                assert(rows_view(rows@) =~= before.push(row@));
                assert(rows_view(rows@) =~= bookshelf.scl@.subrange(0, i + 1));
            }
            i = i + 1;
        }
        proof {
            assert(bookshelf.scl@.subrange(0, n as int) =~= bookshelf.scl@);
        }
        Rows { site_name, rows }
    }

    /// Whether every row's scaled coordinates fit the machine integers.
    pub open spec fn emit_in_range(&self) -> bool {
        rows_scaled_in_range(rows_view(self.rows@))
    }

    /// Whether the rows can be emitted.
    pub fn check_emit_range(&self) -> (r: bool)
        ensures
            r == self.emit_in_range(),
    {
        let n = self.rows.len();
        let mut i: usize = 0;
        while i < n
            invariant
                n == rows_view(self.rows@).len(),
                i <= n,
                forall|q: int|
                    0 <= q < i ==> {
                        &&& in_i64((#[trigger] rows_view(self.rows@)[q]).subrow_origin * 1000)
                        &&& in_i64(rows_view(self.rows@)[q].coordinate * 1000)
                        &&& in_i64(rows_view(self.rows@)[q].site_width * 1000)
                    },
            decreases n - i,
        {
            let row = &self.rows[i];
            if row.subrow_origin.checked_mul(1000).is_none() || row.coordinate.checked_mul(
                1000,
            ).is_none() || row.site_width.checked_mul(1000).is_none() {
                proof {
                    if self.emit_in_range() {
                        assert(in_i64(rows_view(self.rows@)[i as int].subrow_origin * 1000));
                        assert(in_i64(rows_view(self.rows@)[i as int].coordinate * 1000));
                        assert(in_i64(rows_view(self.rows@)[i as int].site_width * 1000));
                    }
                    assert(!self.emit_in_range());
                }
                return false;
            }
            i = i + 1;
        }
        true
    }

    /// The DEF `ROW` records, orientation alternating by index parity.
    pub fn write(&self) -> (r: String)
        requires
            self.emit_in_range(),
        ensures
            r@ == rows_text(rows_view(self.rows@), self.site_name@, rows_view(
                self.rows@,
            ).len() as int),
    {
        let mut out = String::new();
        let n = self.rows.len();
        let mut i: usize = 0;
        proof {
            assert(out@ =~= rows_text(rows_view(self.rows@), self.site_name@, 0));
        }
        while i < n
            invariant
                self.emit_in_range(),
                n == rows_view(self.rows@).len(),
                i <= n,
                out@ == rows_text(rows_view(self.rows@), self.site_name@, i as int),
            decreases n - i,
        {
            proof {
                reveal_strlit("\n ROW CORE_ROW_");
                reveal_strlit(" ");
                reveal_strlit("FS");
                reveal_strlit("N");
                reveal_strlit(" DO ");
                reveal_strlit(" BY 1 STEP ");
                reveal_strlit(" 0 ;");
                assert(in_i64((rows_view(self.rows@)[i as int]).subrow_origin * 1000));
                assert(rows_view(self.rows@)[i as int] == self.rows@[i as int]@);
            }
            let row = &self.rows[i];
            out.append("\n ROW CORE_ROW_");
            crate::numfmt::push_dec_u64(i as u64, &mut out);
            out.append(" ");
            out.append(self.site_name.as_str());
            out.append(" ");
            push_dec_i64(row.subrow_origin * 1000, &mut out);
            out.append(" ");
            push_dec_i64(row.coordinate * 1000, &mut out);
            out.append(" ");
            if i % 2 == 0 {
                out.append("FS");
            } else {
                out.append("N");
            }
            out.append(" DO ");
            push_dec_i64(row.num_sites, &mut out);
            out.append(" BY 1 STEP ");
            push_dec_i64(row.site_width * 1000, &mut out);
            out.append(" 0 ;");
            proof {
                assert(out@ =~= rows_text(rows_view(self.rows@), self.site_name@, i + 1));
            }
            i = i + 1;
        }
        out
    }
}

/// Whether every row's scaled coordinates fit the machine integers.
pub open spec fn rows_scaled_in_range(rows: Seq<RowV>) -> bool {
    forall|i: int|
        0 <= i < rows.len() ==> {
            &&& in_i64((#[trigger] rows[i]).subrow_origin * 1000)
            &&& in_i64(rows[i].coordinate * 1000)
            &&& in_i64(rows[i].site_width * 1000)
        }
}

/// The orientation a row at index `i` is emitted with: `FS` for even
/// indices, `N` for odd ones.
pub open spec fn row_orientation_text(i: int) -> Seq<char> {
    if i % 2 == 0 {
        "FS"@
    } else {
        "N"@
    }
}

/// The emitted orientation alternates strictly by ascending row index:
/// even rows read `FS`, odd rows `N`, and no two neighbours agree.
pub proof fn lemma_row_orientation_alternates(i: int)
    requires
        i >= 0,
    ensures
        (row_orientation_text(i) == "FS"@ <==> i % 2 == 0),
        (row_orientation_text(i) == "N"@ <==> i % 2 == 1),
        row_orientation_text(i + 1) != row_orientation_text(i),
{
    reveal_strlit("FS");
    reveal_strlit("N");
    assert("FS"@.len() == 2);
    assert("N"@.len() == 1);
}

/// The text of one DEF `ROW` record.
pub open spec fn row_line_text(i: int, site: Seq<char>, row: RowV) -> Seq<char> {
    "\n ROW CORE_ROW_"@ + dec_int(i) + " "@ + site + " "@ + dec_int(row.subrow_origin * 1000)
        + " "@ + dec_int(row.coordinate * 1000) + " "@ + row_orientation_text(i) + " DO "@
        + dec_int(row.num_sites) + " BY 1 STEP "@ + dec_int(row.site_width * 1000) + " 0 ;"@
}

/// The concatenated `ROW` records for the first `upto` rows.
pub open spec fn rows_text(rows: Seq<RowV>, site: Seq<char>, upto: int) -> Seq<char>
    decreases upto,
{
    if upto <= 0 {
        Seq::empty()
    } else {
        rows_text(rows, site, upto - 1) + row_line_text(upto - 1, site, rows[upto - 1])
    }
}

} // verus!
