//! Human-readable renderings of numbers, balances, durations and addresses.
use vstd::prelude::*;
use vstd::string::{StringExecFns, StringSliceAdditionalSpecFns};
use vstd::utf8::{decode_utf8, encode_utf8, is_char_boundary, group_utf8_lib};

verus! {

/// Smallest unit of the native currency per whole LOS (11 decimals).
pub const CIL_PER_LOS: u128 = 100_000_000_000;

/// Appends one character to `s` (`String::push`).
#[verifier::external_body]
pub(crate) fn push_char(s: &mut String, c: char)
    ensures
        final(s)@ == old(s)@.push(c),
{
    s.push(c);
}

/// The character of decimal digit `d`.
pub open spec fn digit_char(d: int) -> char {
    if d == 0 {
        '0'
    } else if d == 1 {
        '1'
    } else if d == 2 {
        '2'
    } else if d == 3 {
        '3'
    } else if d == 4 {
        '4'
    } else if d == 5 {
        '5'
    } else if d == 6 {
        '6'
    } else if d == 7 {
        '7'
    } else if d == 8 {
        '8'
    } else {
        '9'
    }
}

/// The decimal digits of `n`, most significant first, without leading zeros
/// ("0" for zero).
pub open spec fn decimal(n: nat) -> Seq<char>
    decreases n,
{
    if n < 10 {
        seq![digit_char(n as int)]
    } else {
        decimal(n / 10).push(digit_char((n % 10) as int))
    }
}

/// `s` preceded by zeros up to `width` characters.
pub open spec fn zero_pad(s: Seq<char>, width: nat) -> Seq<char> {
    if s.len() < width {
        Seq::new((width - s.len()) as nat, |i: int| '0') + s
    } else {
        s
    }
}

/// Digits grouped by three from the right, separated by dots.
pub open spec fn group_thousands(d: Seq<char>) -> Seq<char>
    decreases d.len(),
{
    if d.len() <= 3 {
        d
    } else {
        group_thousands(d.take(d.len() - 3)) + seq!['.'] + d.skip(d.len() - 3)
    }
}

/// The uptime text of `secs` seconds: days, hours and minutes, leaving out
/// leading zero units ("3d 12h 5m", "2h 0m", "7m").
pub open spec fn uptime_text(secs: u64) -> Seq<char> {
    let days = secs / 86400;
    let hours = (secs % 86400) / 3600;
    let mins = (secs % 3600) / 60;
    if days > 0 {
        decimal(days as nat) + "d "@ + decimal(hours as nat) + "h "@ + decimal(mins as nat) + "m"@
    } else if hours > 0 {
        decimal(hours as nat) + "h "@ + decimal(mins as nat) + "m"@
    } else {
        decimal(mins as nat) + "m"@
    }
}

fn digit(d: u128) -> (c: char)
    requires
        d < 10,
    ensures
        c == digit_char(d as int),
{
    if d == 0 {
        '0'
    } else if d == 1 {
        '1'
    } else if d == 2 {
        '2'
    } else if d == 3 {
        '3'
    } else if d == 4 {
        '4'
    } else if d == 5 {
        '5'
    } else if d == 6 {
        '6'
    } else if d == 7 {
        '7'
    } else if d == 8 {
        '8'
    } else {
        '9'
    }
}

/// Appends the decimal digits of `n` to `s`.
pub(crate) fn push_decimal(s: &mut String, n: u128)
    ensures
        final(s)@ == old(s)@ + decimal(n as nat),
    decreases n,
{
    if n < 10 {
        push_char(s, digit(n));
        proof {
            assert(old(s)@.push(digit_char(n as int)) =~= old(s)@ + decimal(n as nat));
        }
    } else {
        push_decimal(s, n / 10);
        push_char(s, digit(n % 10));
        proof {
            assert(decimal(n as nat) == decimal((n / 10) as nat).push(digit_char((n % 10) as int)));
            assert(old(s)@ + decimal((n / 10) as nat) + seq![digit_char((n % 10) as int)] =~= old(
                s,
            )@ + decimal(n as nat));
        }
    }
}

/// The decimal digits of `n`, as characters.
fn decimal_chars(n: u128) -> (r: Vec<char>)
    ensures
        r@ == decimal(n as nat),
    decreases n,
{
    if n < 10 {
        let mut v: Vec<char> = Vec::new();
        v.push(digit(n));
        proof {
            assert(v@ =~= decimal(n as nat));
        }
        v
    } else {
        let mut v = decimal_chars(n / 10);
        v.push(digit(n % 10));
        v
    }
}

/// The uptime of a node that has run for `total_secs` seconds.
pub fn format_uptime(total_secs: u64) -> (r: String)
    ensures
        r@ == uptime_text(total_secs),
{
    let days = total_secs / 86400;
    let hours = (total_secs % 86400) / 3600;
    let mins = (total_secs % 3600) / 60;
    let mut s = String::new();
    if days > 0 {
        push_decimal(&mut s, days as u128);
        s.append("d ");
        push_decimal(&mut s, hours as u128);
        s.append("h ");
        push_decimal(&mut s, mins as u128);
        s.append("m");
        proof {
            assert(s@ =~= uptime_text(total_secs));
        }
    } else if hours > 0 {
        push_decimal(&mut s, hours as u128);
        s.append("h ");
        push_decimal(&mut s, mins as u128);
        s.append("m");
        proof {
            assert(s@ =~= uptime_text(total_secs));
        }
    } else {
        push_decimal(&mut s, mins as u128);
        s.append("m");
        proof {
            assert(s@ =~= uptime_text(total_secs));
        }
    }
    s
}

/// A CIL amount as whole LOS, a dot, and the eleven decimals of the
/// fraction, so that no sub-LOS amount is hidden.
pub fn format_balance_precise(cil_amount: u128) -> (r: String)
    ensures
        r@ == decimal((cil_amount / CIL_PER_LOS) as nat) + seq!['.'] + zero_pad(
            decimal((cil_amount % CIL_PER_LOS) as nat),
            11,
        ),
{
    let mut s = String::new();
    push_decimal(&mut s, cil_amount / CIL_PER_LOS);
    push_char(&mut s, '.');
    let frac = decimal_chars(cil_amount % CIL_PER_LOS);
    let ghost prefix = s@;
    let flen = frac.len();
    if flen < 11 {
        let pad = 11 - flen;
        let mut k: usize = 0;
        while k < pad
            invariant
                k <= pad,
                pad == 11 - flen,
                s@ == prefix + Seq::new(k as nat, |i: int| '0'),
            decreases pad - k,
        {
            push_char(&mut s, '0');
            proof {
                assert(s@ =~= prefix + Seq::new((k + 1) as nat, |i: int| '0'));
            }
            k += 1;
        }
    }
    let ghost padded = s@;
    let mut j: usize = 0;
    while j < flen
        invariant
            flen == frac@.len(),
            j <= flen,
            s@ == padded + frac@.take(j as int),
        decreases flen - j,
    {
        push_char(&mut s, frac[j]);
        proof {
            assert(frac@.take(j + 1) =~= frac@.take(j as int).push(frac@[j as int]));
        }
        j += 1;
    }
    proof {
        assert(frac@.take(flen as int) =~= frac@);
        assert(s@ =~= decimal((cil_amount / CIL_PER_LOS) as nat) + seq!['.'] + zero_pad(
            decimal((cil_amount % CIL_PER_LOS) as nat),
            11,
        ));
    }
    s
}

/// Appends `group_thousands(d.take(end))` to `s`.
fn push_grouped(s: &mut String, d: &Vec<char>, end: usize)
    requires
        end <= d@.len(),
    ensures
        final(s)@ == old(s)@ + group_thousands(d@.take(end as int)),
    decreases end,
{
    let ghost t = d@.take(end as int);
    if end <= 3 {
        let mut j: usize = 0;
        while j < end
            invariant
                j <= end,
                end <= d@.len(),
                s@ == old(s)@ + d@.take(j as int),
            decreases end - j,
        {
            push_char(s, d[j]);
            proof {
                assert(d@.take(j + 1) =~= d@.take(j as int).push(d@[j as int]));
            }
            j += 1;
        }
    } else {
        push_grouped(s, d, end - 3);
        push_char(s, '.');
        let ghost mid = s@;
        let mut j: usize = end - 3;
        while j < end
            invariant
                end > 3,
                end - 3 <= j <= end,
                end <= d@.len(),
                s@ == mid + d@.subrange(end - 3, j as int),
            decreases end - j,
        {
            push_char(s, d[j]);
            proof {
                assert(d@.subrange(end - 3, j + 1) =~= d@.subrange(end - 3, j as int).push(
                    d@[j as int],
                ));
            }
            j += 1;
        }
        proof {
            assert(t.take(t.len() - 3) =~= d@.take(end - 3));
            assert(t.skip(t.len() - 3) =~= d@.subrange(end - 3, end as int));
        }
    }
    proof {
        assert(d@.take(end as int) == t);
    }
}

/// `n` with its digits grouped by three, separated by dots ("1.234.567").
pub fn format_u128(n: u128) -> (r: String)
    ensures
        r@ == group_thousands(decimal(n as nat)),
{
    let d = decimal_chars(n);
    let mut s = String::new();
    push_grouped(&mut s, &d, d.len());
    proof {
        assert(d@.take(d@.len() as int) =~= d@);
        assert(s@ =~= group_thousands(decimal(n as nat)));
    }
    s
}

/// The short form of the address with characters `a`: `a` itself when its
/// UTF-8 encoding has fewer than twelve bytes, otherwise "los_" and the
/// characters of its bytes 3 to 11.
pub open spec fn short_addr(a: Seq<char>) -> Seq<char> {
    let b = encode_utf8(a);
    if b.len() < 12 {
        a
    } else {
        "los_"@ + decode_utf8(b.subrange(3, 11))
    }
}

/// Bytes 3 and 11 of a long address start characters, so that its short
/// form can be cut out.
pub open spec fn short_addr_defined(a: Seq<char>) -> bool {
    let b = encode_utf8(a);
    b.len() >= 12 ==> is_char_boundary(b, 3) && is_char_boundary(b, 11)
}

/// The short form of an address: the address itself when it has fewer than
/// twelve bytes, otherwise "los_" and its bytes 3 to 11 (skipping the
/// three-letter prefix).
pub fn get_short_addr(full_addr: &str) -> (r: String)
    requires
        short_addr_defined(full_addr@),
    ensures
        r@ == short_addr(full_addr@),
{
    broadcast use group_utf8_lib;

    if full_addr.as_bytes().len() < 12 {
        return full_addr.to_owned();
    }
    let ghost bytes = full_addr.spec_bytes();
    let (_, rest) = full_addr.split_at(3);
    proof {
        vstd::utf8::is_char_boundary_iff_not_is_continuation_byte(bytes, 11);
        vstd::utf8::is_char_boundary_iff_not_is_continuation_byte(rest.spec_bytes(), 8);
        assert(rest.spec_bytes()[8] == bytes[11]);
    }
    let (mid, _) = rest.split_at(8);
    proof {
        assert(mid.spec_bytes() =~= bytes.subrange(3, 11));
    }
    let mut r = String::from_str("los_");
    r.append(mid);
    r
}

} // verus!
