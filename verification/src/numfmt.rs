//! Decimal rendering of integers. Every coordinate that reaches the LEF/DEF
//! text goes through these functions, so their contracts pin the emitted
//! digits exactly.

use vstd::prelude::*;
use vstd::string::StringExecFns;

verus! {

/// The digit character for a value below ten.
pub open spec fn digit_char(d: int) -> char {
    if d == 0 {
        '0'
    } else if d == 1 {
        '1'
    } else if d == 2 {
        '2'
    } else if d == 3 {
        '3'
    } else if d == 4 {
        '4'
    } else if d == 5 {
        '5'
    } else if d == 6 {
        '6'
    } else if d == 7 {
        '7'
    } else if d == 8 {
        '8'
    } else {
        '9'
    }
}

/// The decimal digits of a non-negative value, most significant first.
pub open spec fn dec_nat(n: nat) -> Seq<char>
    decreases n,
{
    if n < 10 {
        seq![digit_char(n as int)]
    } else {
        dec_nat(n / 10) + seq![digit_char((n % 10) as int)]
    }
}

/// The decimal rendering of a signed value: a minus sign for negative
/// values, then the digits of the magnitude.
pub open spec fn dec_int(v: int) -> Seq<char> {
    if v < 0 {
        seq!['-'] + dec_nat((-v) as nat)
    } else {
        dec_nat(v as nat)
    }
}

/// The rendering of a value counted in halves: `h` stands for `h / 2`.
/// Even counts print as plain integers, odd counts with a `.5` fraction,
/// so half-unit geometry prints the way a printed float would.
pub open spec fn dec_half(h: int) -> Seq<char> {
    if h % 2 == 0 {
        dec_int(h / 2)
    } else if h < 0 {
        seq!['-'] + dec_nat(((-h) / 2) as nat) + seq!['.', '5']
    } else {
        dec_nat((h / 2) as nat) + seq!['.', '5']
    }
}

fn digit_str(d: u64) -> (r: &'static str)
    requires
        d < 10,
    ensures
        r@ == seq![digit_char(d as int)],
        r.is_ascii(),
{
    proof {
        reveal_strlit("0");
        reveal_strlit("1");
        reveal_strlit("2");
        reveal_strlit("3");
        reveal_strlit("4");
        reveal_strlit("5");
        reveal_strlit("6");
        reveal_strlit("7");
        reveal_strlit("8");
        reveal_strlit("9");
    }
    let r = match d {
        0 => "0",
        1 => "1",
        2 => "2",
        3 => "3",
        4 => "4",
        5 => "5",
        6 => "6",
        7 => "7",
        8 => "8",
        _ => "9",
    };
    proof {
        assert(r@ =~= seq![digit_char(d as int)]);
    }
    r
}

/// Appends the decimal digits of `n` to `out`.
pub fn push_dec_u64(n: u64, out: &mut String)
    ensures
        final(out)@ == old(out)@ + dec_nat(n as nat),
    decreases n,
{
    if n >= 10 {
        push_dec_u64(n / 10, out);
    }
    out.append(digit_str(n % 10));
    proof {
        assert(final(out)@ =~= old(out)@ + dec_nat(n as nat));
    }
}

/// Appends the decimal rendering of `v` to `out`.
pub fn push_dec_i64(v: i64, out: &mut String)
    ensures
        final(out)@ == old(out)@ + dec_int(v as int),
{
    proof {
        reveal_strlit("-");
    }
    if v < 0 {
        out.append("-");
        let mag: u64 = ((-(v + 1)) as u64) + 1;
        assert(mag as nat == (-(v as int)) as nat);
        push_dec_u64(mag, out);
        proof {
            assert(final(out)@ =~= old(out)@ + dec_int(v as int));
        }
    } else {
        push_dec_u64(v as u64, out);
    }
}

/// The decimal rendering of `v` as a fresh string.
pub fn i64_to_string(v: i64) -> (r: String)
    ensures
        r@ == dec_int(v as int),
{
    let mut out = String::new();
    push_dec_i64(v, &mut out);
    proof {
        assert(out@ =~= dec_int(v as int));
    }
    out
}

/// The conventional name of a routing layer: `metal` and its number.
pub open spec fn metal_name(layer: int) -> Seq<char> {
    "metal"@ + dec_int(layer)
}

/// The name of a routing layer as a fresh string.
pub fn metal_string(layer: i64) -> (r: String)
    ensures
        r@ == metal_name(layer as int),
{
    proof {
        reveal_strlit("metal");
    }
    let mut out = String::new();
    out.append("metal");
    push_dec_i64(layer, &mut out);
    proof {
        assert(out@ =~= metal_name(layer as int));
    }
    out
}

/// Appends the rendering of the half-unit count `h` (standing for `h / 2`)
/// to `out`.
pub fn push_dec_half(h: i64, out: &mut String)
    ensures
        final(out)@ == old(out)@ + dec_half(h as int),
{
    proof {
        reveal_strlit("-");
        reveal_strlit(".5");
    }
    if h % 2 == 0 {
        push_dec_i64(h / 2, out);
        proof {
            assert(h as int % 2 == 0);
            assert((h / 2) as int == h as int / 2);
        }
    } else if h < 0 {
        out.append("-");
        let mag: u64 = ((-(h + 1)) as u64) + 1;
        assert(mag as nat == (-(h as int)) as nat);
        push_dec_u64(mag / 2, out);
        out.append(".5");
        proof {
            assert((mag / 2) as nat == ((-(h as int)) / 2) as nat);
            assert(final(out)@ =~= old(out)@ + dec_half(h as int));
        }
    } else {
        push_dec_u64((h as u64) / 2, out);
        out.append(".5");
        proof {
            assert(final(out)@ =~= old(out)@ + dec_half(h as int));
        }
    }
}

} // verus!
