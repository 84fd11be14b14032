//! Small string helpers shared across the library.

use vstd::prelude::*;

verus! {

/// Relies on `<str as PartialEq>::eq`: two string slices compare equal
/// exactly when they hold the same characters.
pub assume_specification[ <str as PartialEq<str>>::eq ](a: &str, b: &str) -> (r: bool)
    ensures
        r == (a@ == b@),
;

/// Content equality of two string slices.
pub fn str_eq(a: &str, b: &str) -> (r: bool)
    ensures
        r == (a@ == b@),
{
    a.eq(b)
}

/// The views of a list of strings.
pub open spec fn str_views(v: Seq<String>) -> Seq<Seq<char>> {
    v.map_values(|x: String| x@)
}

/// The decimal digit character for a value below 10.
pub open spec fn dec_digit(v: int) -> char {
    if v == 0 { '0' }
    else if v == 1 { '1' }
    else if v == 2 { '2' }
    else if v == 3 { '3' }
    else if v == 4 { '4' }
    else if v == 5 { '5' }
    else if v == 6 { '6' }
    else if v == 7 { '7' }
    else if v == 8 { '8' }
    else { '9' }
}

/// The decimal rendering of a non-negative number, most significant digit
/// first, with no leading zeros (a single `'0'` for zero).
pub open spec fn dec_rep(n: int) -> Seq<char>
    decreases n,
{
    if n <= 9 {
        seq![dec_digit(n)]
    } else {
        dec_rep(n / 10).push(dec_digit(n % 10))
    }
}

fn dec_digit_str(v: usize) -> (r: &'static str)
    requires
        v < 10,
    ensures
        r@ =~= seq![dec_digit(v as int)],
{
    proof {
        reveal_strlit("0");
        reveal_strlit("1");
        reveal_strlit("2");
        reveal_strlit("3");
        reveal_strlit("4");
        reveal_strlit("5");
        reveal_strlit("6");
        reveal_strlit("7");
        reveal_strlit("8");
        reveal_strlit("9");
    }
    if v == 0 { "0" }
    else if v == 1 { "1" }
    else if v == 2 { "2" }
    else if v == 3 { "3" }
    else if v == 4 { "4" }
    else if v == 5 { "5" }
    else if v == 6 { "6" }
    else if v == 7 { "7" }
    else if v == 8 { "8" }
    else { "9" }
}

/// Renders `n` in decimal.
pub fn usize_to_dec(n: usize) -> (r: String)
    ensures
        r@ == dec_rep(n as int),
    decreases n,
{
    if n <= 9 {
        let mut s = String::new();
        s.append(dec_digit_str(n));
        s
    } else {
        let mut s = usize_to_dec(n / 10);
        s.append(dec_digit_str(n % 10));
        s
    }
}

} // verus!
