//! ASCII case handling and small text-building helpers.
use vstd::prelude::*;

verus! {

/// Code of `c` after ASCII lowercasing: `'A'..='Z'` move to `'a'..='z'`,
/// every other character keeps its code.
pub open spec fn lower_code(c: char) -> u32 {
    if 'A' <= c && c <= 'Z' {
        (c as u32 + 32) as u32
    } else {
        c as u32
    }
}

/// `c` after ASCII uppercasing: `'a'..='z'` move to `'A'..='Z'`.
pub open spec fn upper_char(c: char) -> char {
    if 'a' <= c && c <= 'z' {
        ((c as u32 - 32) as u32) as char
    } else {
        c
    }
}

/// Codes of the ASCII-lowercased string.
pub open spec fn lower_codes(s: Seq<char>) -> Seq<u32> {
    s.map_values(|c: char| lower_code(c))
}

/// The ASCII-uppercased string.
pub open spec fn upper_seq(s: Seq<char>) -> Seq<char> {
    s.map_values(|c: char| upper_char(c))
}

/// Two asset names denote the same asset: they match ignoring ASCII case.
pub open spec fn same_asset(a: Seq<char>, b: Seq<char>) -> bool {
    lower_codes(a) == lower_codes(b)
}

pub proof fn lemma_same_asset_refl(a: Seq<char>)
    ensures
        same_asset(a, a),
{
}

pub proof fn lemma_same_asset_symm(a: Seq<char>, b: Seq<char>)
    ensures
        same_asset(a, b) == same_asset(b, a),
{
}

pub proof fn lemma_same_asset_trans(a: Seq<char>, b: Seq<char>, c: Seq<char>)
    requires
        same_asset(a, b),
        same_asset(b, c),
    ensures
        same_asset(a, c),
{
}

proof fn lemma_same_char_upper(x: char, y: char)
    requires
        lower_code(x) == lower_code(y),
    ensures
        upper_char(x) == upper_char(y),
{
    assert((x as u32) as int == x as int && (y as u32) as int == y as int);
    if x != y {
        assert(x as int != y as int);
    }
}

/// Names that match ignoring ASCII case have the same uppercase form.
pub proof fn lemma_same_asset_upper(a: Seq<char>, b: Seq<char>)
    requires
        same_asset(a, b),
    ensures
        upper_seq(a) == upper_seq(b),
{
    assert(lower_codes(a).len() == lower_codes(b).len());
    assert forall|i: int| 0 <= i < a.len() implies upper_seq(a)[i] == upper_seq(b)[i] by {
        assert(lower_codes(a)[i] == lower_codes(b)[i]);
        lemma_same_char_upper(a[i], b[i]);
    }
    assert(upper_seq(a) =~= upper_seq(b));
}

fn lower_code_of(c: char) -> (r: u32)
    ensures
        r == lower_code(c),
{
    if 'A' <= c && c <= 'Z' {
        c as u32 + 32
    } else {
        c as u32
    }
}

/// Whether `a` and `b` match ignoring ASCII case (`str::eq_ignore_ascii_case`).
pub fn eq_ignore_ascii_case(a: &str, b: &str) -> (r: bool)
    ensures
        r == same_asset(a@, b@),
{
    let n = a.unicode_len();
    let m = b.unicode_len();
    if n != m {
        assert(lower_codes(a@).len() != lower_codes(b@).len());
        return false;
    }
    let mut i: usize = 0;
    while i < n
        invariant
            n == a@.len(),
            m == b@.len(),
            n == m,
            i <= n,
            forall|j: int| 0 <= j < i ==> lower_code(#[trigger] a@[j]) == lower_code(b@[j]),
        decreases n - i,
    {
        let x = a.get_char(i);
        let y = b.get_char(i);
        if lower_code_of(x) != lower_code_of(y) {
            assert(lower_codes(a@)[i as int] != lower_codes(b@)[i as int]);
            return false;
        }
        i = i + 1;
    }
    assert(lower_codes(a@) =~= lower_codes(b@));
    true
}

/// Whether `a` and `b` hold the same characters.
pub fn str_equal(a: &str, b: &str) -> (r: bool)
    ensures
        r == (a@ == b@),
{
    let n = a.unicode_len();
    let m = b.unicode_len();
    if n != m {
        return false;
    }
    let mut i: usize = 0;
    while i < n
        invariant
            n == a@.len(),
            m == b@.len(),
            n == m,
            i <= n,
            forall|j: int| 0 <= j < i ==> #[trigger] a@[j] == b@[j],
        decreases n - i,
    {
        if a.get_char(i) != b.get_char(i) {
            return false;
        }
        i = i + 1;
    }
    assert(a@ =~= b@);
    true
}

/// `c` with `'a'..='z'` moved to `'A'..='Z'`.
fn upper_ascii(c: char) -> (r: char)
    ensures
        r == upper_char(c),
{
    if 'a' <= c && c <= 'z' {
        let b: u8 = c as u8;
        (b - 32) as char
    } else {
        c
    }
}

/// `s` with `'a'..='z'` moved to `'A'..='Z'` and every other character kept
/// (as `str::to_ascii_uppercase`).
pub(crate) fn to_ascii_uppercase(s: &str) -> (r: String)
    ensures
        r@ == upper_seq(s@),
{
    let n = s.unicode_len();
    let mut out: Vec<char> = Vec::new();
    let mut i: usize = 0;
    while i < n
        invariant
            n == s@.len(),
            i <= n,
            out@ == upper_seq(s@.subrange(0, i as int)),
        decreases n - i,
    {
        out.push(upper_ascii(s.get_char(i)));
        i = i + 1;
        assert(out@ =~= upper_seq(s@.subrange(0, i as int)));
    }
    assert(s@.subrange(0, n as int) =~= s@);
    string_from_chars(&out)
}

/// Calls `String::from_iter` on the characters, in order.
#[verifier::external_body]
pub(crate) fn string_from_chars(chars: &Vec<char>) -> (r: String)
    ensures
        r@ == chars@,
{
    String::from_iter(chars.iter())
}

/// The characters of `s`, in order.
pub fn chars_of(s: &str) -> (r: Vec<char>)
    ensures
        r@ == s@,
{
    let n = s.unicode_len();
    let mut out: Vec<char> = Vec::new();
    let mut i: usize = 0;
    while i < n
        invariant
            n == s@.len(),
            i <= n,
            out@ == s@.subrange(0, i as int),
        decreases n - i,
    {
        out.push(s.get_char(i));
        i = i + 1;
        assert(out@ =~= s@.subrange(0, i as int));
    }
    assert(out@ =~= s@);
    out
}

/// Appends the characters of `s` to `out`.
pub fn push_str(out: &mut Vec<char>, s: &str)
    ensures
        final(out)@ == old(out)@ + s@,
{
    let n = s.unicode_len();
    let mut i: usize = 0;
    let ghost start = out@;
    while i < n
        invariant
            n == s@.len(),
            i <= n,
            out@ == start + s@.subrange(0, i as int),
        decreases n - i,
    {
        out.push(s.get_char(i));
        i = i + 1;
        assert(out@ =~= start + s@.subrange(0, i as int));
    }
    assert(s@.subrange(0, n as int) =~= s@);
}

/// The decimal digits of `n`, most significant first, without leading zeros
/// (`"0"` for zero).
pub open spec fn decimal_digits(n: nat) -> Seq<char>
    decreases n,
{
    if n < 10 {
        seq![digit_char(n)]
    } else {
        decimal_digits(n / 10) + seq![digit_char(n % 10)]
    }
}

pub open spec fn digit_char(d: nat) -> char {
    if d == 0 {
        '0'
    } else if d == 1 {
        '1'
    } else if d == 2 {
        '2'
    } else if d == 3 {
        '3'
    } else if d == 4 {
        '4'
    } else if d == 5 {
        '5'
    } else if d == 6 {
        '6'
    } else if d == 7 {
        '7'
    } else if d == 8 {
        '8'
    } else {
        '9'
    }
}

fn digit(d: u64) -> (r: char)
    requires
        d < 10,
    ensures
        r == digit_char(d as nat),
{
    if d == 0 {
        '0'
    } else if d == 1 {
        '1'
    } else if d == 2 {
        '2'
    } else if d == 3 {
        '3'
    } else if d == 4 {
        '4'
    } else if d == 5 {
        '5'
    } else if d == 6 {
        '6'
    } else if d == 7 {
        '7'
    } else if d == 8 {
        '8'
    } else {
        '9'
    }
}

/// Appends the decimal digits of `n` to `out`.
pub fn push_u64(out: &mut Vec<char>, n: u64)
    ensures
        final(out)@ == old(out)@ + decimal_digits(n as nat),
    decreases n,
{
    if n < 10 {
        out.push(digit(n));
    } else {
        push_u64(out, n / 10);
        out.push(digit(n % 10));
    }
}

/// Appends the decimal digits of `n` to `out`.
pub fn push_u128(out: &mut Vec<char>, n: u128)
    ensures
        final(out)@ == old(out)@ + decimal_digits(n as nat),
    decreases n,
{
    if n < 10 {
        out.push(digit(n as u64));
    } else {
        push_u128(out, n / 10);
        out.push(digit((n % 10) as u64));
    }
}

} // verus!
