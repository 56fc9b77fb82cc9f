use vstd::prelude::*;

verus! {

/// The decimal digit character for `d`.
pub open spec fn digit_char(d: nat) -> char {
    if d == 0 { '0' } else if d == 1 { '1' } else if d == 2 { '2' } else if d == 3 { '3' }
    else if d == 4 { '4' } else if d == 5 { '5' } else if d == 6 { '6' } else if d == 7 { '7' }
    else if d == 8 { '8' } else { '9' }
}

/// Decimal representation of `n` without leading zeros ("0" for zero).
pub open spec fn decimal(n: nat) -> Seq<char>
    decreases n,
{
    if n < 10 {
        seq![digit_char(n)]
    } else {
        decimal(n / 10).push(digit_char(n % 10))
    }
}

fn digit_str(d: u128) -> (r: &'static str)
    requires
        d < 10,
    ensures
        r@ == seq![digit_char(d as nat)],
{
    proof {
        reveal_strlit("0");
        reveal_strlit("1");
        reveal_strlit("2");
        reveal_strlit("3");
        reveal_strlit("4");
        reveal_strlit("5");
        reveal_strlit("6");
        reveal_strlit("7");
        reveal_strlit("8");
        reveal_strlit("9");
    }
    if d == 0 { "0" } else if d == 1 { "1" } else if d == 2 { "2" } else if d == 3 { "3" }
    else if d == 4 { "4" } else if d == 5 { "5" } else if d == 6 { "6" } else if d == 7 { "7" }
    else if d == 8 { "8" } else { "9" }
}

/// Appends the decimal representation of `n` to `out`.
pub fn push_decimal(out: &mut String, n: u128)
    ensures
        final(out)@ == old(out)@ + decimal(n as nat),
    decreases n,
{
    if n < 10 {
        out.append(digit_str(n));
    } else {
        push_decimal(out, n / 10);
        out.append(digit_str(n % 10));
    }
}

/// `n` as at least two decimal digits, with a leading zero below ten.
pub open spec fn two_digits(n: nat) -> Seq<char> {
    if n < 10 {
        seq!['0'] + decimal(n)
    } else {
        decimal(n)
    }
}

/// `total_secs` as hours, minutes and seconds: `HH:MM:SS`, where the hours
/// take as many digits as they need beyond two.
pub open spec fn duration_text(total_secs: nat) -> Seq<char> {
    two_digits(total_secs / 3600) + seq![':'] + two_digits((total_secs % 3600) / 60) + seq![':']
        + two_digits(total_secs % 60)
}

fn push_two_digits(out: &mut String, n: u128)
    ensures
        final(out)@ == old(out)@ + two_digits(n as nat),
{
    if n < 10 {
        out.append(digit_str(0));
    }
    push_decimal(out, n);
    assert(final(out)@ =~= old(out)@ + two_digits(n as nat));
}

fn push_char_str(out: &mut String, s: &str, c: char)
    requires
        s@.len() == 1,
        s@[0] == c,
    ensures
        final(out)@ == old(out)@ + seq![c],
{
    assert(s@ =~= seq![c]);
    out.append(s);
}

/// Formats a duration given in seconds as `HH:MM:SS`.
pub fn format_duration_secs(total_secs: u64) -> (r: String)
    ensures
        r@ == duration_text(total_secs as nat),
{
    let hours = total_secs / 3600;
    let mins = (total_secs % 3600) / 60;
    let secs = total_secs % 60;
    let mut out = String::new();
    proof {
        reveal_strlit(":");
    }
    push_two_digits(&mut out, hours as u128);
    push_char_str(&mut out, ":", ':');
    push_two_digits(&mut out, mins as u128);
    push_char_str(&mut out, ":", ':');
    push_two_digits(&mut out, secs as u128);
    assert(out@ =~= duration_text(total_secs as nat));
    out
}

/// 1024 to the power `k`.
pub open spec fn pow1024(k: nat) -> nat
    decreases k,
{
    if k == 0 {
        1
    } else {
        1024 * pow1024((k - 1) as nat)
    }
}

/// The unit a byte count is shown in: the largest `k` of at most four with
/// `1024^k <= bytes` (0 for bytes, then K, M, G, T).
pub open spec fn byte_unit(bytes: nat) -> nat {
    if bytes >= pow1024(4) {
        4
    } else if bytes >= pow1024(3) {
        3
    } else if bytes >= pow1024(2) {
        2
    } else if bytes >= pow1024(1) {
        1
    } else {
        0
    }
}

/// The suffix letter of unit `k`.
pub open spec fn unit_char(k: nat) -> char {
    if k == 0 {
        'B'
    } else if k == 1 {
        'K'
    } else if k == 2 {
        'M'
    } else if k == 3 {
        'G'
    } else {
        'T'
    }
}

/// `num / den` rounded to the nearest integer, ties to the even neighbour.
pub open spec fn round_half_even(num: nat, den: nat) -> nat {
    let q = num / den;
    let r = num % den;
    if 2 * r > den || (2 * r == den && q % 2 == 1) {
        q + 1
    } else {
        q
    }
}

/// The size in tenths of its unit, rounded half to even.
pub open spec fn size_tenths(bytes: nat) -> nat {
    round_half_even(10 * bytes, pow1024(byte_unit(bytes)))
}

/// A byte count with one decimal and a unit letter (`512.0B`, `1.5K`);
/// zero is `0B`.
pub open spec fn bytes_text(bytes: nat) -> Seq<char> {
    if bytes == 0 {
        seq!['0', 'B']
    } else {
        let t = size_tenths(bytes);
        decimal(t / 10) + seq!['.', digit_char(t % 10), unit_char(byte_unit(bytes))]
    }
}

fn unit_str(k: u128) -> (r: &'static str)
    requires
        k <= 4,
    ensures
        r@ == seq![unit_char(k as nat)],
{
    proof {
        reveal_strlit("B");
        reveal_strlit("K");
        reveal_strlit("M");
        reveal_strlit("G");
        reveal_strlit("T");
    }
    if k == 0 {
        "B"
    } else if k == 1 {
        "K"
    } else if k == 2 {
        "M"
    } else if k == 3 {
        "G"
    } else {
        "T"
    }
}

/// Formats a byte count for display, scaled by 1024 up to terabytes.
pub fn format_bytes(bytes: u64) -> (r: String)
    ensures
        r@ == bytes_text(bytes as nat),
{
    let mut out = String::new();
    proof {
        reveal_strlit("0B");
        reveal_strlit(".");
    }
    if bytes == 0 {
        out.append("0B");
        assert(out@ =~= bytes_text(0));
        return out;
    }
    proof {
        reveal_with_fuel(pow1024, 5);
    }
    let b = bytes as u128;
    let (k, den): (u128, u128) = if b >= 1099511627776 {
        (4, 1099511627776)
    } else if b >= 1073741824 {
        (3, 1073741824)
    } else if b >= 1048576 {
        (2, 1048576)
    } else if b >= 1024 {
        (1, 1024)
    } else {
        (0, 1)
    };
    assert(k == byte_unit(bytes as nat) && den == pow1024(k as nat));
    let num = b * 10;
    let q = num / den;
    let rem = num % den;
    let t = if 2 * rem > den || (2 * rem == den && q % 2 == 1) {
        q + 1
    } else {
        q
    };
    assert(t == size_tenths(bytes as nat));
    push_decimal(&mut out, t / 10);
    push_char_str(&mut out, ".", '.');
    out.append(digit_str(t % 10));
    out.append(unit_str(k));
    assert(out@ =~= bytes_text(bytes as nat));
    out
}

} // verus!
