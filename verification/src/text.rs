//! Decimal text for numbers.
use vstd::prelude::*;

verus! {

/// The decimal digit for `d < 10`.
pub open spec fn digit(d: nat) -> char {
    (48 + d) as char
}

/// The decimal representation of `n`, without leading zeros.
pub open spec fn dec(n: nat) -> Seq<char>
    decreases n,
{
    if n < 10 {
        seq![digit(n)]
    } else {
        dec(n / 10) + seq![digit(n % 10)]
    }
}

/// The one-character text of the decimal digit `d < 10`.
fn digit_text(d: u64) -> (s: String)
    requires
        d < 10,
    ensures
        s@ == seq![digit(d as nat)],
{
    let s = match d {
        0 => String::from_str("0"),
        1 => String::from_str("1"),
        2 => String::from_str("2"),
        3 => String::from_str("3"),
        4 => String::from_str("4"),
        5 => String::from_str("5"),
        6 => String::from_str("6"),
        7 => String::from_str("7"),
        8 => String::from_str("8"),
        _ => String::from_str("9"),
    };
    proof {
        reveal_strlit("0");
        reveal_strlit("1");
        reveal_strlit("2");
        reveal_strlit("3");
        reveal_strlit("4");
        reveal_strlit("5");
        reveal_strlit("6");
        reveal_strlit("7");
        reveal_strlit("8");
        reveal_strlit("9");
        assert(s@ =~= seq![digit(d as nat)]);
    }
    s
}

/// `n` in decimal, without leading zeros.
pub(crate) fn u64_to_string(n: u64) -> (s: String)
    ensures
        s@ == dec(n as nat),
    decreases n,
{
    if n < 10 {
        digit_text(n)
    } else {
        let mut s = u64_to_string(n / 10);
        let d = digit_text(n % 10);
        s.append(d.as_str());
        s
    }
}

/// `n` in decimal, without leading zeros.
pub(crate) fn usize_to_string(n: usize) -> (s: String)
    ensures
        s@ == dec(n as nat),
{
    u64_to_string(n as u64)
}

/// What `Debug` writes for a string: the text in double quotes, with
/// quotes, backslashes and control characters escaped.
pub uninterp spec fn str_debug(s: Seq<char>) -> Seq<char>;

/// `format!("{:?}", s)` for a string slice (`str`'s `Debug`).
#[verifier::external_body]
pub(crate) fn debug_str(s: &str) -> (r: String)
    ensures
        r@ == str_debug(s@),
{
    format!("{:?}", s)
}

} // verus!
