//! Rendering table cells: decimal numbers, unit-suffixed totals, and the
//! dotted extension name.
//!
//! A total below one thousand is shown in full; beyond that it is divided
//! down to thousands, millions, or billions (integer truncation) and given
//! the suffix `K`, `M`, or `G`.

use vstd::prelude::*;
use vstd::string::StringExecFns;

verus! {

/// The decimal digit character for `d`.
pub open spec fn digit_char(d: int) -> char {
    if d == 0 {
        '0'
    } else if d == 1 {
        '1'
    } else if d == 2 {
        '2'
    } else if d == 3 {
        '3'
    } else if d == 4 {
        '4'
    } else if d == 5 {
        '5'
    } else if d == 6 {
        '6'
    } else if d == 7 {
        '7'
    } else if d == 8 {
        '8'
    } else {
        '9'
    }
}

/// The decimal digits of a positive `v`, most significant first; empty for
/// zero and below.
pub open spec fn decimal_digits(v: int) -> Seq<char>
    decreases v,
{
    if v <= 0 {
        Seq::empty()
    } else {
        decimal_digits(v / 10).push(digit_char(v % 10))
    }
}

/// The decimal rendering of a non-negative `v`; zero is `"0"`.
pub open spec fn decimal_of(v: int) -> Seq<char> {
    if v == 0 {
        seq!['0']
    } else {
        decimal_digits(v)
    }
}

/// A single decimal digit as text.
fn digit_str(d: u64) -> (r: &'static str)
    requires
        d < 10,
    ensures
        r@ =~= seq![digit_char(d as int)],
{
    proof {
        reveal_strlit("0");
        reveal_strlit("1");
        reveal_strlit("2");
        reveal_strlit("3");
        reveal_strlit("4");
        reveal_strlit("5");
        reveal_strlit("6");
        reveal_strlit("7");
        reveal_strlit("8");
        reveal_strlit("9");
    }
    if d == 0 {
        "0"
    } else if d == 1 {
        "1"
    } else if d == 2 {
        "2"
    } else if d == 3 {
        "3"
    } else if d == 4 {
        "4"
    } else if d == 5 {
        "5"
    } else if d == 6 {
        "6"
    } else if d == 7 {
        "7"
    } else if d == 8 {
        "8"
    } else {
        "9"
    }
}

/// The digits of a positive `v`.
fn digits_of(v: u64) -> (r: String)
    requires
        v > 0,
    ensures
        r@ == decimal_digits(v as int),
    decreases v,
{
    let d = digit_str(v % 10);
    if v < 10 {
        proof {
            assert(v as int / 10 == 0);
            assert(decimal_digits(0) =~= Seq::<char>::empty());
            assert(decimal_digits(v as int) =~= Seq::<char>::empty().push(
                digit_char(v as int % 10),
            ));
        }
        d.to_owned()
    } else {
        let r = digits_of(v / 10).concat(d);
        proof {
            assert(decimal_digits(v as int) =~= decimal_digits(v as int / 10) + seq![
                digit_char(v as int % 10),
            ]);
        }
        r
    }
}

/// Renders `v` in decimal.
pub fn to_decimal(v: u64) -> (r: String)
    ensures
        r@ == decimal_of(v as int),
{
    if v == 0 {
        proof {
            reveal_strlit("0");
            assert("0"@ =~= seq!['0']);
        }
        "0".to_owned()
    } else {
        digits_of(v)
    }
}

/// What a total of `v` looks like in the table: plain below one thousand,
/// otherwise truncated to its unit and suffixed `K`, `M` or `G`.
pub open spec fn size_display(v: int) -> Seq<char> {
    if v < 1000 {
        decimal_of(v)
    } else if v < 1000000 {
        decimal_of(v / 1000).push('K')
    } else if v < 1000000000 {
        decimal_of(v / 1000000).push('M')
    } else {
        decimal_of(v / 1000000000).push('G')
    }
}

/// Renders an accumulated total with its unit suffix. A zero total (an empty
/// file counted by size) is shown as `"0"`.
pub fn format_size(v: u64) -> (r: String)
    ensures
        r@ == size_display(v as int),
{
    if v < 1000 {
        to_decimal(v)
    } else if v < 1000000 {
        let r = to_decimal(v / 1000).concat("K");
        proof {
            reveal_strlit("K");
            assert(r@ =~= decimal_of(v as int / 1000).push('K'));
        }
        r
    } else if v < 1000000000 {
        let r = to_decimal(v / 1000000).concat("M");
        proof {
            reveal_strlit("M");
            assert(r@ =~= decimal_of(v as int / 1000000).push('M'));
        }
        r
    } else {
        let r = to_decimal(v / 1000000000).concat("G");
        proof {
            reveal_strlit("G");
            assert(r@ =~= decimal_of(v as int / 1000000000).push('G'));
        }
        r
    }
}

/// What an extension looks like in the table: the key behind a dot.
pub open spec fn name_display(ext: Seq<char>) -> Seq<char> {
    seq!['.'] + ext
}

/// Renders an extension key as a dotted name.
pub fn format_name(ext: &str) -> (r: String)
    ensures
        r@ == name_display(ext@),
{
    proof {
        reveal_strlit(".");
    }
    let r = ".".to_owned().concat(ext);
    proof {
        assert(r@ =~= seq!['.'] + ext@);
    }
    r
}

} // verus!
