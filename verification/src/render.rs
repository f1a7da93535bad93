//! Rendering stored values as display strings: decimal notation for
//! integers, `true`/`false` for booleans.

use vstd::prelude::*;
use vstd::string::StringExecFns;

verus! {

/// The digit character for `d`.
pub open spec fn dec_digit(d: int) -> char
    recommends
        0 <= d < 10,
{
    if d == 0 {
        '0'
    } else if d == 1 {
        '1'
    } else if d == 2 {
        '2'
    } else if d == 3 {
        '3'
    } else if d == 4 {
        '4'
    } else if d == 5 {
        '5'
    } else if d == 6 {
        '6'
    } else if d == 7 {
        '7'
    } else if d == 8 {
        '8'
    } else {
        '9'
    }
}

/// Decimal notation of a non-negative number, most significant digit first.
pub open spec fn dec_nat(n: int) -> Seq<char>
    recommends
        n >= 0,
    decreases n,
{
    if n < 10 {
        seq![dec_digit(n)]
    } else {
        dec_nat(n / 10).push(dec_digit(n % 10))
    }
}

/// Decimal notation of an integer, with a leading minus sign when negative.
pub open spec fn dec_int(n: int) -> Seq<char> {
    if n < 0 {
        seq!['-'] + dec_nat(-n)
    } else {
        dec_nat(n)
    }
}

/// The rendering of a boolean.
pub open spec fn bool_str(b: bool) -> Seq<char> {
    if b {
        seq!['t', 'r', 'u', 'e']
    } else {
        seq!['f', 'a', 'l', 's', 'e']
    }
}

fn push_digit(out: &mut String, d: u64)
    requires
        d < 10,
    ensures
        final(out)@ == old(out)@ + seq![dec_digit(d as int)],
{
    if d == 0 {
        proof {
            reveal_strlit("0");
        }
        out.append("0");
        assert(out@ =~= old(out)@ + seq![dec_digit(d as int)]);
    } else if d == 1 {
        proof {
            reveal_strlit("1");
        }
        out.append("1");
        assert(out@ =~= old(out)@ + seq![dec_digit(d as int)]);
    } else if d == 2 {
        proof {
            reveal_strlit("2");
        }
        out.append("2");
        assert(out@ =~= old(out)@ + seq![dec_digit(d as int)]);
    } else if d == 3 {
        proof {
            reveal_strlit("3");
        }
        out.append("3");
        assert(out@ =~= old(out)@ + seq![dec_digit(d as int)]);
    } else if d == 4 {
        proof {
            reveal_strlit("4");
        }
        out.append("4");
        assert(out@ =~= old(out)@ + seq![dec_digit(d as int)]);
    } else if d == 5 {
        proof {
            reveal_strlit("5");
        }
        out.append("5");
        assert(out@ =~= old(out)@ + seq![dec_digit(d as int)]);
    } else if d == 6 {
        proof {
            reveal_strlit("6");
        }
        out.append("6");
        assert(out@ =~= old(out)@ + seq![dec_digit(d as int)]);
    } else if d == 7 {
        proof {
            reveal_strlit("7");
        }
        out.append("7");
        assert(out@ =~= old(out)@ + seq![dec_digit(d as int)]);
    } else if d == 8 {
        proof {
            reveal_strlit("8");
        }
        out.append("8");
        assert(out@ =~= old(out)@ + seq![dec_digit(d as int)]);
    } else {
        proof {
            reveal_strlit("9");
        }
        out.append("9");
        assert(out@ =~= old(out)@ + seq![dec_digit(d as int)]);
    }
}

fn push_u64_dec(out: &mut String, n: u64)
    ensures
        final(out)@ == old(out)@ + dec_nat(n as int),
    decreases n,
{
    if n < 10 {
        push_digit(out, n);
    } else {
        push_u64_dec(out, n / 10);
        push_digit(out, n % 10);
        proof {
            assert(out@ =~= old(out)@ + dec_nat(n as int));
        }
    }
}

/// The decimal rendering of `v`, as `to_string` would give it.
pub fn i32_to_string(v: i32) -> (r: String)
    ensures
        r@ == dec_int(v as int),
{
    let mut out = String::new();
    if v < 0 {
        proof {
            reveal_strlit("-");
        }
        out.append("-");
        let w: i64 = v as i64;
        let m: u64 = (-w) as u64;
        push_u64_dec(&mut out, m);
        proof {
            assert(out@ =~= dec_int(v as int));
        }
    } else {
        push_u64_dec(&mut out, v as u64);
        proof {
            assert(out@ =~= dec_int(v as int));
        }
    }
    out
}

/// The decimal rendering of a row count or row id.
pub fn usize_to_string(v: usize) -> (r: String)
    ensures
        r@ == dec_nat(v as int),
{
    let mut out = String::new();
    push_u64_dec(&mut out, v as u64);
    out
}

/// The rendering of `b`, as `to_string` would give it.
pub fn bool_to_string(b: bool) -> (r: String)
    ensures
        r@ == bool_str(b),
{
    if b {
        proof {
            reveal_strlit("true");
        }
        let r = "true".to_owned();
        assert(r@ =~= bool_str(b));
        r
    } else {
        proof {
            reveal_strlit("false");
        }
        let r = "false".to_owned();
        assert(r@ =~= bool_str(b));
        r
    }
}

} // verus!
