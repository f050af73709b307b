//! Rendering values the way `{:?}` and `{}` do, for user-facing messages.
use vstd::prelude::*;

verus! {

/// What `format!("{:?}", s)` yields for a string whose characters are `s`:
/// the string in double quotes with Rust's escape sequences.
pub uninterp spec fn debug_str(s: Seq<char>) -> Seq<char>;

/// `format!("{:?}", s)`: the string quoted and escaped as Rust's `Debug`
/// does. The contract only names the result; the escaping rules are std's.
#[verifier::external_body]
pub(crate) fn debug_quoted(s: &str) -> (r: String)
    ensures
        r@ == debug_str(s@),
{
    format!("{s:?}")
}

/// What `format!("{:?}", Path::new(p))` yields for a path whose characters
/// are `p`: the path in double quotes with Rust's escape sequences.
pub uninterp spec fn path_debug_str(p: Seq<char>) -> Seq<char>;

/// `format!("{:?}", Path::new(p))`. The contract only names the result;
/// the escaping rules are std's.
#[verifier::external_body]
pub(crate) fn debug_path(p: &str) -> (r: String)
    ensures
        r@ == path_debug_str(p@),
{
    format!("{:?}", std::path::Path::new(p))
}

/// Decimal digits of a natural number, most significant first.
pub open spec fn digits(n: nat) -> Seq<char>
    decreases n,
{
    if n < 10 {
        seq![digit_char(n)]
    } else {
        digits(n / 10).push(digit_char(n % 10))
    }
}

/// The ASCII digit for `d < 10`.
pub open spec fn digit_char(d: nat) -> char {
    (('0' as u32) + d) as char
}

/// Decimal rendering of an integer, as `{}` prints it.
pub open spec fn decimal(v: int) -> Seq<char> {
    if v < 0 {
        seq!['-'] + digits((-v) as nat)
    } else {
        digits(v as nat)
    }
}

fn digit(d: u64) -> (c: char)
    requires
        d < 10,
    ensures
        c == digit_char(d as nat),
{
    let b: u8 = 48u8 + d as u8;
    b as char
}

/// Appends the decimal digits of `n` to `out`.
fn push_digits(n: u64, out: &mut Vec<char>)
    ensures
        final(out)@ == old(out)@ + digits(n as nat),
    decreases n,
{
    if n < 10 {
        out.push(digit(n));
    } else {
        push_digits(n / 10, out);
        out.push(digit(n % 10));
        assert(digits(n as nat) == digits((n / 10) as nat).push(digit_char((n % 10) as nat)));
    }
}

/// `format!("{}", v)` for an `i64`, written in verified code.
pub fn decimal_i64(v: i64) -> (r: Vec<char>)
    ensures
        r@ == decimal(v as int),
{
    let mut out: Vec<char> = Vec::new();
    if v < 0 {
        out.push('-');
        let m: u64 = if v == i64::MIN {
            9223372036854775808u64
        } else {
            (-v) as u64
        };
        push_digits(m, &mut out);
    } else {
        push_digits(v as u64, &mut out);
        assert(out@ =~= digits(v as nat));
    }
    out
}

} // verus!
