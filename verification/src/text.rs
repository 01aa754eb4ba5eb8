//! Numbers and lists as text.

use vstd::prelude::*;
use vstd::string::StringExecFns;

verus! {

pub open spec fn digit(d: nat) -> Seq<char> {
    if d == 0 {
        "0"@
    } else if d == 1 {
        "1"@
    } else if d == 2 {
        "2"@
    } else if d == 3 {
        "3"@
    } else if d == 4 {
        "4"@
    } else if d == 5 {
        "5"@
    } else if d == 6 {
        "6"@
    } else if d == 7 {
        "7"@
    } else if d == 8 {
        "8"@
    } else {
        "9"@
    }
}

/// The decimal digits of a number.
pub open spec fn decimal(n: nat) -> Seq<char>
    decreases n,
{
    if n < 10 {
        digit(n)
    } else {
        decimal(n / 10) + digit(n % 10)
    }
}

/// The decimal digits of a number, after a minus sign if it is negative.
pub open spec fn signed_decimal(n: int) -> Seq<char> {
    if n < 0 {
        "-"@ + decimal((-n) as nat)
    } else {
        decimal(n as nat)
    }
}

/// The contents of strings.
pub open spec fn texts(strings: Seq<String>) -> Seq<Seq<char>> {
    strings.map_values(|s: String| s@)
}

/// The first `n` parts, with a separator between them.
pub open spec fn joined(parts: Seq<Seq<char>>, separator: Seq<char>, n: nat) -> Seq<char>
    decreases n,
{
    if n == 0 {
        Seq::empty()
    } else if n == 1 {
        parts[0]
    } else {
        joined(parts, separator, (n - 1) as nat) + separator + parts[n - 1]
    }
}

/// The parts with a space between them.
pub open spec fn spaced(parts: Seq<Seq<char>>) -> Seq<char> {
    joined(parts, " "@, parts.len())
}

/// `n` zeros with a space between them.
pub open spec fn zeros(n: nat) -> Seq<char> {
    spaced(Seq::new(n, |i: int| "0"@))
}

fn digit_text(d: u64) -> (r: &'static str)
    requires
        d < 10,
    ensures
        r@ == digit(d as nat),
{
    if d == 0 {
        "0"
    } else if d == 1 {
        "1"
    } else if d == 2 {
        "2"
    } else if d == 3 {
        "3"
    } else if d == 4 {
        "4"
    } else if d == 5 {
        "5"
    } else if d == 6 {
        "6"
    } else if d == 7 {
        "7"
    } else if d == 8 {
        "8"
    } else {
        "9"
    }
}

fn push_decimal(out: &mut String, n: u64)
    ensures
        final(out)@ == old(out)@ + decimal(n as nat),
    decreases n,
{
    if n < 10 {
        out.append(digit_text(n));
    } else {
        push_decimal(out, n / 10);
        out.append(digit_text(n % 10));
    }
}

/// Whether two texts are the same.
pub(crate) fn same_text(a: &str, b: &str) -> (r: bool)
    ensures
        r == (a@ == b@),
{
    a.to_owned() == b.to_owned()
}

/// A number as text.
pub(crate) fn decimal_text(n: u64) -> (r: String)
    ensures
        r@ == decimal(n as nat),
{
    let mut r = String::new();
    push_decimal(&mut r, n);
    r
}

/// A number as text, with its sign if it is negative.
pub(crate) fn signed_text(n: i64) -> (r: String)
    requires
        n > i64::MIN,
    ensures
        r@ == signed_decimal(n as int),
{
    let mut r = String::new();
    if n < 0 {
        r.append("-");
        push_decimal(&mut r, (-n) as u64);
    } else {
        push_decimal(&mut r, n as u64);
    }
    r
}

/// Strings with a separator between them.
pub(crate) fn join(parts: &[String], separator: &str) -> (r: String)
    ensures
        r@ == joined(texts(parts@), separator@, parts@.len()),
{
    let mut r = String::new();
    let n = parts.len();
    for i in 0..n
        invariant
            n == parts@.len(),
            r@ == joined(texts(parts@), separator@, i as nat),
    {
        if i > 0 {
            r.append(separator);
        }
        r.append(parts[i].as_str());
    }
    r
}

/// `n` zeros with a space between them.
pub(crate) fn zeros_text(n: usize) -> (r: String)
    ensures
        r@ == zeros(n as nat),
{
    let mut r = String::new();
    let ghost parts = Seq::new(n as nat, |i: int| "0"@);
    for i in 0..n
        invariant
            parts == Seq::new(n as nat, |i: int| "0"@),
            r@ == joined(parts, " "@, i as nat),
    {
        if i > 0 {
            r.append(" ");
        }
        r.append("0");
    }
    r
}

} // verus!
