//! Text of the summary tables: column padding, ages and durations, and the
//! ways decimals are shown (USD amounts, percentages, rounded quantities).
use vstd::prelude::*;
use crate::decimal::Dec;
use crate::text::{decimal_digits, push_str, push_u64, push_u128, string_from_chars};

verus! {

broadcast use crate::decimal::group_dec_parts;

/// `n` spaces.
pub open spec fn spaces(n: nat) -> Seq<char> {
    Seq::new(n, |i: int| ' ')
}

/// `s` right-aligned in `width` columns (`{:>width}`): spaces in front when
/// it is shorter, unchanged otherwise.
pub open spec fn pad_left(s: Seq<char>, width: nat) -> Seq<char> {
    if s.len() >= width {
        s
    } else {
        spaces((width - s.len()) as nat) + s
    }
}

/// `s` left-aligned in `width` columns (`{:<width}`).
pub open spec fn pad_right(s: Seq<char>, width: nat) -> Seq<char> {
    if s.len() >= width {
        s
    } else {
        s + spaces((width - s.len()) as nat)
    }
}

fn push_spaces(out: &mut Vec<char>, n: usize)
    ensures
        final(out)@ == old(out)@ + spaces(n as nat),
{
    let ghost start = out@;
    let mut i: usize = 0;
    while i < n
        invariant
            i <= n,
            out@ == start + spaces(i as nat),
        decreases n - i,
    {
        out.push(' ');
        i = i + 1;
        assert(out@ =~= start + spaces(i as nat));
    }
}

/// Appends `s` right-aligned in `width` columns.
pub fn push_right_aligned(out: &mut Vec<char>, s: &str, width: usize)
    ensures
        final(out)@ == old(out)@ + pad_left(s@, width as nat),
{
    let n = s.unicode_len();
    if n < width {
        push_spaces(out, width - n);
    }
    push_str(out, s);
    proof {
        if n < width {
            assert(pad_left(s@, width as nat) == spaces((width - n) as nat) + s@);
        }
    }
    assert(final(out)@ =~= old(out)@ + pad_left(s@, width as nat)) by {
        if n < width {
            assert(old(out)@ + spaces((width - n) as nat) + s@ =~= old(out)@ + (spaces((width - n) as nat) + s@));
        }
    }
}

/// Appends `s` left-aligned in `width` columns.
pub fn push_left_aligned(out: &mut Vec<char>, s: &str, width: usize)
    ensures
        final(out)@ == old(out)@ + pad_right(s@, width as nat),
{
    let n = s.unicode_len();
    push_str(out, s);
    if n < width {
        push_spaces(out, width - n);
    }
    assert(final(out)@ =~= old(out)@ + pad_right(s@, width as nat));
}

/// Appends the decimal digits of `n` right-aligned in `width` columns.
pub fn push_count(out: &mut Vec<char>, n: u64, width: usize)
    ensures
        final(out)@ == old(out)@ + pad_left(decimal_digits(n as nat), width as nat),
{
    let mut digits: Vec<char> = Vec::new();
    push_u64(&mut digits, n);
    assert(digits@ =~= decimal_digits(n as nat));
    let text = string_from_chars(&digits);
    push_right_aligned(out, text.as_str(), width);
}

/// How long ago something was seen, from the whole seconds elapsed (negative
/// counts as zero): `45s ago`, `12m ago`, `3h7m ago`, `2d ago`.
pub open spec fn age_text(secs: int) -> Seq<char> {
    let s: int = if secs < 0 { 0 } else { secs };
    if s < 60 {
        decimal_digits(s as nat) + "s ago"@
    } else if s < 3600 {
        decimal_digits((s / 60) as nat) + "m ago"@
    } else if s < 86_400 {
        decimal_digits((s / 3600) as nat) + "h"@ + decimal_digits(((s % 3600) / 60) as nat) + "m ago"@
    } else {
        decimal_digits((s / 86_400) as nat) + "d ago"@
    }
}

/// A duration from its whole seconds (negative counts as zero): `45s`,
/// `12m5s`, `3h7m`, `2d4h`.
pub open spec fn duration_text(secs: int) -> Seq<char> {
    let s: int = if secs < 0 { 0 } else { secs };
    if s < 60 {
        decimal_digits(s as nat) + "s"@
    } else if s < 3600 {
        decimal_digits((s / 60) as nat) + "m"@ + decimal_digits((s % 60) as nat) + "s"@
    } else if s < 86_400 {
        decimal_digits((s / 3600) as nat) + "h"@ + decimal_digits(((s % 3600) / 60) as nat) + "m"@
    } else {
        decimal_digits((s / 86_400) as nat) + "d"@ + decimal_digits(((s % 86_400) / 3600) as nat) + "h"@
    }
}

/// Age text for `secs` whole seconds elapsed.
pub fn format_age(secs: i128) -> (r: String)
    ensures
        r@ == age_text(secs as int),
{
    let s: u128 = if secs < 0 { 0 } else { secs as u128 };
    let mut out: Vec<char> = Vec::new();
    if s < 60 {
        push_u128(&mut out, s);
        push_str(&mut out, "s ago");
    } else if s < 3600 {
        push_u128(&mut out, s / 60);
        push_str(&mut out, "m ago");
    } else if s < 86_400 {
        push_u128(&mut out, s / 3600);
        push_str(&mut out, "h");
        push_u128(&mut out, (s % 3600) / 60);
        push_str(&mut out, "m ago");
    } else {
        push_u128(&mut out, s / 86_400);
        push_str(&mut out, "d ago");
    }
    string_from_chars(&out)
}

/// Duration text for `secs` whole seconds.
pub fn format_duration(secs: i128) -> (r: String)
    ensures
        r@ == duration_text(secs as int),
{
    let s: u128 = if secs < 0 { 0 } else { secs as u128 };
    let mut out: Vec<char> = Vec::new();
    if s < 60 {
        push_u128(&mut out, s);
        push_str(&mut out, "s");
    } else if s < 3600 {
        push_u128(&mut out, s / 60);
        push_str(&mut out, "m");
        push_u128(&mut out, s % 60);
        push_str(&mut out, "s");
    } else if s < 86_400 {
        push_u128(&mut out, s / 3600);
        push_str(&mut out, "h");
        push_u128(&mut out, (s % 3600) / 60);
        push_str(&mut out, "m");
    } else {
        push_u128(&mut out, s / 86_400);
        push_str(&mut out, "d");
        push_u128(&mut out, (s % 86_400) / 3600);
        push_str(&mut out, "h");
    }
    string_from_chars(&out)
}

/// A USD amount: rounded to 4 places, trailing zeros stripped, with a leading
/// `-$` when the rounded amount has its sign bit set and `$` otherwise
/// (`$12.5`, `-$0.0031`, and `-$0` for `-0`).
pub open spec fn usd_text(d: Dec) -> Seq<char> {
    let r = d.spec_round_dp(4);
    if r.sign_neg() {
        "-$"@ + r.spec_neg().spec_normalize().spec_text()
    } else {
        "$"@ + r.spec_normalize().spec_text()
    }
}

/// USD text of `d`.
pub fn format_usd(d: Dec) -> (r: String)
    ensures
        r@ == usd_text(d),
{
    let rounded = d.round_dp(4);
    let mut out: Vec<char> = Vec::new();
    if rounded.is_sign_negative() {
        push_str(&mut out, "-$");
        let t = rounded.neg().normalize().to_text();
        push_str(&mut out, t.as_str());
    } else {
        push_str(&mut out, "$");
        let t = rounded.normalize().to_text();
        push_str(&mut out, t.as_str());
    }
    string_from_chars(&out)
}

/// A quantity rounded to `dp` places with trailing zeros stripped.
pub open spec fn rounded_text(d: Dec, dp: u32) -> Seq<char> {
    d.spec_round_dp(dp).spec_normalize().spec_text()
}

/// Text of `d` rounded to `dp` places, trailing zeros stripped.
pub fn format_decimal(d: Dec, dp: u32) -> (r: String)
    ensures
        r@ == rounded_text(d, dp),
{
    d.round_dp(dp).normalize().to_text()
}

/// A fraction as a percentage rounded to one place: `0.0125` gives `1.2%`
/// (halves to even); `None` where `d * 100` overflows.
pub open spec fn pct_text(d: Dec) -> Option<Seq<char>> {
    match d.spec_mul(Dec::spec_from_int(100)) {
        Some(p) => Some(p.spec_round_dp(1).spec_text() + "%"@),
        None => None,
    }
}

/// Percentage text of a fraction.
pub fn format_pct(d: Dec) -> (r: Option<String>)
    ensures
        match (r, pct_text(d)) {
            (Some(s), Some(t)) => s@ == t,
            (None, None) => true,
            _ => false,
        },
{
    match d.checked_mul(Dec::from_u32(100)) {
        Some(p) => {
            let mut out: Vec<char> = Vec::new();
            let t = p.round_dp(1).to_text();
            push_str(&mut out, t.as_str());
            push_str(&mut out, "%");
            Some(string_from_chars(&out))
        },
        None => None,
    }
}

/// A fraction as a percentage cut to one place (`{:.1}%`): `0.0129` gives
/// `1.2%`; `None` where `d * 100` overflows.
pub open spec fn pct_cut_text(d: Dec) -> Option<Seq<char>> {
    match d.spec_mul(Dec::spec_from_int(100)) {
        Some(p) => Some(p.spec_text_prec(1) + "%"@),
        None => None,
    }
}

/// Percentage of a fraction, cut to one place.
pub fn format_pct_cut(d: Dec) -> (r: Option<String>)
    ensures
        match (r, pct_cut_text(d)) {
            (Some(s), Some(t)) => s@ == t,
            (None, None) => true,
            _ => false,
        },
{
    match d.checked_mul(Dec::from_u32(100)) {
        Some(p) => {
            let mut out: Vec<char> = Vec::new();
            let t = p.to_text_prec(1);
            push_str(&mut out, t.as_str());
            push_str(&mut out, "%");
            Some(string_from_chars(&out))
        },
        None => None,
    }
}

/// The text of each line.
pub open spec fn texts(lines: Seq<String>) -> Seq<Seq<char>> {
    lines.map_values(|l: String| l@)
}

/// Appends a line with the text of `chars`.
pub fn push_line(lines: &mut Vec<String>, chars: &Vec<char>)
    ensures
        texts(final(lines)@) == texts(old(lines)@).push(chars@),
{
    lines.push(string_from_chars(chars));
    assert(texts(final(lines)@) =~= texts(old(lines)@).push(chars@));
}

/// Appends the line `t`.
pub fn push_text(lines: &mut Vec<String>, t: String)
    ensures
        texts(final(lines)@) == texts(old(lines)@).push(t@),
{
    lines.push(t);
    assert(texts(final(lines)@) =~= texts(old(lines)@).push(t@));
}

/// Appends a line holding `s`.
pub fn push_line_str(lines: &mut Vec<String>, s: &str)
    ensures
        texts(final(lines)@) == texts(old(lines)@).push(s@),
{
    let mut chars: Vec<char> = Vec::new();
    push_str(&mut chars, s);
    assert(chars@ =~= s@);
    push_line(lines, &chars);
}

/// ` ({n} malformed lines skipped)` when `n` is not zero, nothing otherwise.
pub open spec fn skipped_suffix(n: nat) -> Seq<char> {
    if n > 0 {
        " ("@ + decimal_digits(n) + " malformed lines skipped)"@
    } else {
        Seq::empty()
    }
}

/// Appends the `skipped_suffix` of `n`.
pub fn push_skipped_suffix(out: &mut Vec<char>, n: usize)
    ensures
        final(out)@ == old(out)@ + skipped_suffix(n as nat),
{
    if n > 0 {
        push_str(out, " (");
        push_u64(out, n as u64);
        push_str(out, " malformed lines skipped)");
        assert(final(out)@ =~= old(out)@ + skipped_suffix(n as nat));
    } else {
        assert(final(out)@ =~= old(out)@ + skipped_suffix(n as nat));
    }
}

} // verus!
