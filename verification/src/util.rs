//! Numeric token interpretation. A Bookshelf file carries integers either as
//! plain decimal tokens or as decimal tokens with a fractional part that must
//! be zero; a non-zero fraction where an integer is structurally required is
//! a fatal condition.

use vstd::prelude::*;
use vstd::string::StrSliceExecFns;
use crate::error::BookshelfError;

verus! {

/// Whether a character is a decimal digit.
pub open spec fn is_digit(c: char) -> bool {
    48 <= c as u32 <= 57
}

/// The value of a decimal digit.
pub open spec fn digit_val(c: char) -> int {
    c as u32 - 48
}

/// Whether every character of `s` is a decimal digit.
pub open spec fn all_digits(s: Seq<char>) -> bool {
    forall|i: int| 0 <= i < s.len() ==> is_digit(s[i])
}

/// The value of a sequence of decimal digits, most significant first.
pub open spec fn dec_val(s: Seq<char>) -> int
    decreases s.len(),
{
    if s.len() == 0 {
        0
    } else {
        dec_val(s.drop_last()) * 10 + digit_val(s.last())
    }
}

/// The digits of an optionally signed integer token.
pub open spec fn int_body(s: Seq<char>) -> Seq<char> {
    if s.len() > 0 && (s[0] == '-' || s[0] == '+') {
        s.subrange(1, s.len() as int)
    } else {
        s
    }
}

/// The sign an optionally signed integer token denotes.
pub open spec fn int_sign(s: Seq<char>) -> int {
    if s.len() > 0 && s[0] == '-' {
        -1
    } else {
        1
    }
}

/// Whether `s` is an optionally signed run of one or more digits.
pub open spec fn is_int_token(s: Seq<char>) -> bool {
    int_body(s).len() > 0 && all_digits(int_body(s))
}

/// The value an integer token denotes.
pub open spec fn int_token_val(s: Seq<char>) -> int {
    int_sign(s) * dec_val(int_body(s))
}

/// Whether `s` is an integer token whose value fits a 64-bit signed integer.
pub open spec fn is_i64_token(s: Seq<char>) -> bool {
    is_int_token(s) && i64::MIN <= int_token_val(s) <= i64::MAX
}

proof fn lemma_dec_val_nonneg(s: Seq<char>)
    requires
        all_digits(s),
    ensures
        dec_val(s) >= 0,
    decreases s.len(),
{
    if s.len() > 0 {
        assert(all_digits(s.drop_last()));
        lemma_dec_val_nonneg(s.drop_last());
    }
}

proof fn lemma_dec_val_prefix(s: Seq<char>, k: int)
    requires
        all_digits(s),
        0 <= k <= s.len(),
    ensures
        dec_val(s) >= dec_val(s.subrange(0, k)),
    decreases s.len() - k,
{
    if k < s.len() {
        lemma_dec_val_prefix(s, k + 1);
        let p = s.subrange(0, k + 1);
        assert(p.drop_last() =~= s.subrange(0, k));
        assert(all_digits(s.subrange(0, k)));
        lemma_dec_val_nonneg(s.subrange(0, k));
        assert(dec_val(p) == dec_val(s.subrange(0, k)) * 10 + digit_val(s[k]));
    } else {
        assert(s.subrange(0, k) =~= s);
    }
}

/// Reads an optionally signed decimal integer token, exactly when the token
/// has that shape and its value fits the machine integer.
pub fn parse(x: &str) -> (r: Option<i64>)
    ensures
        match r {
            Some(v) => is_i64_token(x@) && v as int == int_token_val(x@),
            None => !is_i64_token(x@),
        },
{
    let n = x.unicode_len();
    if n == 0 {
        return None;
    }
    let c0 = x.get_char(0);
    let mut i: usize = 0;
    let neg = c0 == '-';
    if c0 == '-' || c0 == '+' {
        i = 1;
    }
    if i == n {
        return None;
    }
    let ghost body = int_body(x@);
    proof {
        assert(body =~= x@.subrange(i as int, n as int));
    }
    let mut mag: u64 = 0;
    let start = i;
    while i < n
        invariant
            start <= i <= n,
            n == x@.len(),
            start == if x@.len() > 0 && (x@[0] == '-' || x@[0] == '+') {
                1int
            } else {
                0int
            },
            body == int_body(x@),
            body =~= x@.subrange(start as int, n as int),
            body.len() > 0,
            all_digits(body.subrange(0, i - start)),
            mag as int == dec_val(body.subrange(0, i - start)),
        decreases n - i,
    {
        let c = x.get_char(i);
        let u = c as u32;
        if !(48 <= u && u <= 57) {
            proof {
                assert(body[i - start] == x@[i as int]);
                assert(!is_digit(body[i - start]));
            }
            return None;
        }
        let d = (u - 48) as u64;
        let ghost pre = body.subrange(0, i - start);
        let ghost ext = body.subrange(0, i - start + 1);
        proof {
            assert(ext.drop_last() =~= pre);
            assert(ext.last() == x@[i as int]);
            assert(dec_val(ext) == dec_val(pre) * 10 + digit_val(ext.last()));
        }
        if mag > (u64::MAX - d) / 10 {
            proof {
                assert(dec_val(ext) > u64::MAX);
                if all_digits(body) {
                    lemma_dec_val_prefix(body, i - start + 1);
                    assert(dec_val(body) > u64::MAX);
                }
            }
            return None;
        }
        mag = mag * 10 + d;
        i = i + 1;
    }
    proof {
        assert(body.subrange(0, n - start) =~= body);
    }
    if neg {
        if mag > 9223372036854775808u64 {
            return None;
        }
        if mag == 9223372036854775808u64 {
            Some(i64::MIN)
        } else {
            Some(-(mag as i64))
        }
    } else {
        if mag > 9223372036854775807u64 {
            return None;
        }
        Some(mag as i64)
    }
}

/// The position of the first `.` in `s`, or `-1` when there is none.
pub open spec fn dot_index(s: Seq<char>) -> int
    decreases s.len(),
{
    if s.len() == 0 {
        -1
    } else if s[0] == '.' {
        0
    } else {
        let r = dot_index(s.drop_first());
        if r == -1 {
            -1
        } else {
            r + 1
        }
    }
}

proof fn lemma_dot_index_at(s: Seq<char>, k: int)
    requires
        0 <= k < s.len(),
        s[k] == '.',
        forall|j: int| 0 <= j < k ==> s[j] != '.',
    ensures
        dot_index(s) == k,
    decreases s.len(),
{
    if k > 0 {
        lemma_dot_index_at(s.drop_first(), k - 1);
    }
}

proof fn lemma_dot_index_none(s: Seq<char>)
    requires
        forall|j: int| 0 <= j < s.len() ==> s[j] != '.',
    ensures
        dot_index(s) == -1,
    decreases s.len(),
{
    if s.len() > 0 {
        lemma_dot_index_none(s.drop_first());
    }
}

/// The integer part of a coordinate token: everything before the first `.`.
pub open spec fn coord_left(s: Seq<char>) -> Seq<char> {
    if dot_index(s) == -1 {
        s
    } else {
        s.subrange(0, dot_index(s))
    }
}

/// The fraction digits of a coordinate token: everything after the first `.`.
pub open spec fn coord_right(s: Seq<char>) -> Seq<char> {
    if dot_index(s) == -1 {
        Seq::empty()
    } else {
        s.subrange(dot_index(s) + 1, s.len() as int)
    }
}

/// Whether `s` is an integer-valued coordinate token: an integer token,
/// optionally followed by `.` and zero digits only.
pub open spec fn is_coord_token(s: Seq<char>) -> bool {
    &&& is_i64_token(coord_left(s))
    &&& forall|i: int| 0 <= i < coord_right(s).len() ==> coord_right(s)[i] == '0'
}

/// The value an integer-valued coordinate token denotes.
pub open spec fn coord_val(s: Seq<char>) -> int {
    int_token_val(coord_left(s))
}

/// Whether `s` is a well-formed decimal coordinate whose fraction is not
/// zero, so its value is not an integer.
pub open spec fn is_fractional_coord(s: Seq<char>) -> bool {
    &&& is_i64_token(coord_left(s))
    &&& all_digits(coord_right(s))
    &&& exists|i: int| 0 <= i < coord_right(s).len() && coord_right(s)[i] != '0'
}

/// Reads a coordinate token that must denote an integer. A well-formed
/// decimal with a non-zero fraction is non-integer geometry; any other
/// failure is a grammar fault.
pub fn parse_coord(x: &str) -> (r: Result<i64, BookshelfError>)
    ensures
        match r {
            Ok(v) => is_coord_token(x@) && v as int == coord_val(x@),
            Err(e) => !is_coord_token(x@) && (e == BookshelfError::NonIntegerGeometry
                <==> is_fractional_coord(x@)) && (e == BookshelfError::NonIntegerGeometry || e
                == BookshelfError::Grammar),
        },
{
    let n = x.unicode_len();
    let mut d: usize = 0;
    while d < n && x.get_char(d) != '.'
        invariant
            d <= n,
            n == x@.len(),
            forall|j: int| 0 <= j < d ==> x@[j] != '.',
        decreases n - d,
    {
        d = d + 1;
    }
    let left = x.substring_char(0, d);
    proof {
        if d < n {
            lemma_dot_index_at(x@, d as int);
        } else {
            lemma_dot_index_none(x@);
        }
        assert(left@ =~= coord_left(x@));
    }
    let v = match parse(left) {
        Some(v) => v,
        None => {
            return Err(BookshelfError::Grammar);
        },
    };
    if d == n {
        proof {
            assert(coord_right(x@) =~= Seq::<char>::empty());
        }
        return Ok(v);
    }
    let mut i: usize = d + 1;
    let mut saw_nonzero = false;
    let mut frac_ok = true;
    while i < n
        invariant
            d < i <= n,
            n == x@.len(),
            dot_index(x@) == d,
            frac_ok == all_digits(x@.subrange(d + 1, i as int)),
            frac_ok ==> (saw_nonzero <==> exists|j: int|
                d + 1 <= j < i && x@[j] != '0'),
        decreases n - i,
    {
        let c = x.get_char(i);
        let u = c as u32;
        if !(48 <= u && u <= 57) {
            frac_ok = false;
        } else if c != '0' {
            saw_nonzero = true;
        }
        proof {
            assert(x@.subrange(d + 1, i + 1).drop_last() =~= x@.subrange(d + 1, i as int));
            assert(x@.subrange(d + 1, i + 1).last() == x@[i as int]);
        }
        i = i + 1;
    }
    proof {
        assert(x@.subrange(d + 1, n as int) =~= coord_right(x@));
        let right = coord_right(x@);
        if frac_ok {
            if saw_nonzero {
                let j = choose|j: int| d + 1 <= j < n && x@[j] != '0';
                assert(right[j - (d + 1)] == x@[j]);
                assert(!is_coord_token(x@));
            }
        } else {
            assert(!all_digits(right));
            let j = choose|j: int| 0 <= j < right.len() && !is_digit(right[j]);
            assert(right[j] != '0');
            assert(!is_coord_token(x@));
        }
    }
    if frac_ok && !saw_nonzero {
        proof {
            assert(forall|j: int| d + 1 <= j < n ==> x@[j] == '0');
            assert forall|j: int| 0 <= j < coord_right(x@).len() implies coord_right(x@)[j]
                == '0' by {
                assert(coord_right(x@)[j] == x@[d + 1 + j]);
            }
        }
        Ok(v)
    } else if frac_ok {
        Err(BookshelfError::NonIntegerGeometry)
    } else {
        Err(BookshelfError::Grammar)
    }
}

} // verus!
