//! Numbers in messages, and the pieces of text handling the transport needs.
use vstd::prelude::*;
use vstd::string::*;

verus! {

/// [`String::push`]: the character goes to the end of the string.
pub assume_specification[ String::push ](s: &mut String, c: char)
    ensures
        final(s)@ == old(s)@.push(c),
;

/// The character of the digit `d`, lower case from ten on.
pub open spec fn digit(d: nat) -> char {
    if d < 10 {
        (48 + d) as char
    } else {
        (87 + d) as char
    }
}

/// `n` in the base `base`, without leading zeros.
pub open spec fn digits(n: nat, base: nat) -> Seq<char>
    decreases n,
{
    if base < 2 || n < base {
        seq![digit(n)]
    } else {
        proof {
            vstd::arithmetic::div_mod::lemma_div_decreases(n as int, base as int);
        }
        digits(n / base, base).push(digit(n % base))
    }
}

/// `n` in decimal.
pub open spec fn dec(n: nat) -> Seq<char> {
    digits(n, 10)
}

/// The low `width` hexadecimal digits of `n`.
pub open spec fn fixed_hex(n: nat, width: nat) -> Seq<char>
    decreases width,
{
    if width == 0 {
        Seq::empty()
    } else {
        fixed_hex(n / 16, (width - 1) as nat).push(digit(n % 16))
    }
}

/// `n` in hexadecimal with its prefix.
pub open spec fn hex(n: nat) -> Seq<char> {
    "0x"@ + digits(n, 16)
}

/// `n` as `width` hexadecimal digits with their prefix.
pub open spec fn padded_hex(n: nat, width: nat) -> Seq<char> {
    "0x"@ + fixed_hex(n, width)
}

pub fn digit_char(d: u8) -> (c: char)
    requires
        d < 16,
    ensures
        c == digit(d as nat),
{
    if d < 10 {
        (48 + d) as char
    } else {
        (87 + d) as char
    }
}

fn digits_string(n: u64, base: u64) -> (s: String)
    requires
        2 <= base <= 16,
    ensures
        s@ == digits(n as nat, base as nat),
    decreases n,
{
    if n < base {
        let mut s = String::new();
        s.push(digit_char(n as u8));
        assert(s@ =~= digits(n as nat, base as nat));
        s
    } else {
        assert(n / base < n) by (nonlinear_arith)
            requires
                2 <= base <= n,
        ;
        let mut s: String = digits_string(n / base, base);
        s.push(digit_char((n % base) as u8));
        s
    }
}

fn fixed_hex_string(n: u64, width: u8) -> (s: String)
    ensures
        s@ == fixed_hex(n as nat, width as nat),
    decreases width,
{
    if width == 0 {
        String::new()
    } else {
        let mut s: String = fixed_hex_string(n / 16, width - 1);
        s.push(digit_char((n % 16) as u8));
        s
    }
}

pub fn dec_string(n: u64) -> (s: String)
    ensures
        s@ == dec(n as nat),
{
    digits_string(n, 10)
}

pub fn hex_string(n: u64) -> (s: String)
    ensures
        s@ == hex(n as nat),
{
    "0x".to_owned().concat(digits_string(n, 16).as_str())
}

pub fn padded_hex_string(n: u64, width: u8) -> (s: String)
    ensures
        s@ == padded_hex(n as nat, width as nat),
{
    "0x".to_owned().concat(fixed_hex_string(n, width).as_str())
}

/// The characters of `s`.
pub fn chars_of(s: &str) -> (v: Vec<char>)
    ensures
        v@ == s@,
{
    let mut v: Vec<char> = Vec::new();
    for c in it: s.chars()
        invariant
            it.seq() == s@,
            v@ == s@.take(it.index()),
    {
        v.push(c);
    }
    assert(s@.take(s@.len() as int) =~= s@);
    v
}

/// The Unicode characters that are white space.
pub open spec fn is_space(c: char) -> bool {
    let n = c as u32;
    9 <= n <= 13 || n == 0x20 || n == 0x85 || n == 0xa0 || n == 0x1680 || 0x2000 <= n <= 0x200a
        || n == 0x2028 || n == 0x2029 || n == 0x202f || n == 0x205f || n == 0x3000
}

fn space(c: char) -> (b: bool)
    ensures
        b == is_space(c),
{
    let n: u32 = c as u32;
    (9 <= n && n <= 13) || n == 0x20 || n == 0x85 || n == 0xa0 || n == 0x1680 || (0x2000 <= n && n
        <= 0x200a) || n == 0x2028 || n == 0x2029 || n == 0x202f || n == 0x205f || n == 0x3000
}

/// `s` without the white space at its end.
pub open spec fn trimmed_end(s: Seq<char>) -> Seq<char>
    decreases s.len(),
{
    if s.len() > 0 && is_space(s.last()) {
        trimmed_end(s.drop_last())
    } else {
        s
    }
}

/// `s` without the white space at its start.
pub open spec fn trimmed_start(s: Seq<char>) -> Seq<char>
    decreases s.len(),
{
    if s.len() > 0 && is_space(s[0]) {
        trimmed_start(s.skip(1))
    } else {
        s
    }
}

/// `s` without the white space around it.
pub open spec fn trimmed(s: Seq<char>) -> Seq<char> {
    trimmed_start(trimmed_end(s))
}

/// The number of characters up to the white space at the end.
fn end_of(s: &[char]) -> (n: usize)
    ensures
        n <= s@.len(),
        trimmed_end(s@) == s@.take(n as int),
{
    let mut n: usize = s.len();
    assert(s@.take(n as int) =~= s@);
    while n > 0 && space(s[n - 1])
        invariant
            n <= s@.len(),
            trimmed_end(s@) == trimmed_end(s@.take(n as int)),
        decreases n,
    {
        assert(s@.take(n as int).drop_last() =~= s@.take(n - 1));
        n = n - 1;
    }
    n
}

/// `s` without the white space at its end.
pub fn trim_end<'a>(s: &'a str) -> (r: &'a str)
    ensures
        r@ == trimmed_end(s@),
{
    let chars = chars_of(s);
    let n: usize = end_of(chars.as_slice());
    let r = s.substring_char(0, n);
    assert(r@ =~= s@.take(n as int));
    r
}

/// `s` without the white space around it.
pub fn trim<'a>(s: &'a str) -> (r: &'a str)
    ensures
        r@ == trimmed(s@),
{
    let chars = chars_of(s);
    let n: usize = end_of(chars.as_slice());
    let ghost t = s@.take(n as int);
    let mut i: usize = 0;
    assert(t.skip(0) =~= t);
    while i < n && space(chars[i])
        invariant
            i <= n <= chars@.len(),
            t == chars@.take(n as int),
            trimmed_start(t) == trimmed_start(t.skip(i as int)),
        decreases n - i,
    {
        assert(t.skip(i as int)[0] == chars@[i as int]);
        assert(t.skip(i as int).skip(1) =~= t.skip(i + 1));
        i = i + 1;
    }
    if i < n {
        assert(t.skip(i as int)[0] == chars@[i as int]);
    }
    let r = s.substring_char(i, n);
    assert(r@ =~= t.skip(i as int));
    r
}

/// The lower case of an ASCII letter; any other character is left alone.
pub open spec fn lower(c: char) -> char {
    if 'A' <= c <= 'Z' {
        (c as u32 + 32) as char
    } else {
        c
    }
}

/// Whether two texts are the same but for the case of ASCII letters.
pub open spec fn same_ignoring_case(a: Seq<char>, b: Seq<char>) -> bool {
    a.len() == b.len() && forall|i: int| 0 <= i < a.len() ==> #[trigger] lower(a[i]) == lower(b[i])
}

fn lower_code(c: char) -> (n: u32)
    ensures
        n == lower(c) as u32,
{
    let n: u32 = c as u32;
    if 65 <= n && n <= 90 {
        n + 32
    } else {
        n
    }
}

pub fn eq_ignore_case(a: &str, b: &str) -> (r: bool)
    ensures
        r == same_ignoring_case(a@, b@),
{
    let x = chars_of(a);
    let y = chars_of(b);
    if x.len() != y.len() {
        return false;
    }
    let mut i: usize = 0;
    while i < x.len()
        invariant
            i <= x@.len(),
            x@ == a@,
            y@ == b@,
            x@.len() == y@.len(),
            forall|j: int| 0 <= j < i ==> #[trigger] lower(a@[j]) == lower(b@[j]),
        decreases x@.len() - i,
    {
        if lower_code(x[i]) != lower_code(y[i]) {
            assert(lower(a@[i as int]) != lower(b@[i as int]));
            return false;
        }
        i = i + 1;
    }
    true
}

/// The number of characters in front of the first `c`.
pub open spec fn leading(s: Seq<char>, c: char) -> nat
    decreases s.len(),
{
    if s.len() == 0 || s[0] == c {
        0
    } else {
        1 + leading(s.skip(1), c)
    }
}

/// `s` split at its first `c`.
pub open spec fn split(s: Seq<char>, c: char) -> Option<(Seq<char>, Seq<char>)> {
    let n = leading(s, c);
    if n < s.len() {
        Some((s.take(n as int), s.skip(n as int + 1)))
    } else {
        None
    }
}

pub fn split_once<'a>(s: &'a str, c: char) -> (r: Option<(&'a str, &'a str)>)
    ensures
        match r {
            Some((a, b)) => split(s@, c) == Some((a@, b@)),
            None => split(s@, c) is None,
        },
{
    let chars = chars_of(s);
    let total: usize = chars.len();
    let mut n: usize = 0;
    assert(s@.skip(0) =~= s@);
    while n < total && chars[n] != c
        invariant
            n <= total == chars@.len(),
            chars@ == s@,
            leading(s@, c) == n + leading(s@.skip(n as int), c),
        decreases total - n,
    {
        assert(s@.skip(n as int)[0] == chars@[n as int]);
        assert(s@.skip(n as int).skip(1) =~= s@.skip(n + 1));
        n = n + 1;
    }
    if n < total {
        assert(s@.skip(n as int)[0] == chars@[n as int]);
        let a = s.substring_char(0, n);
        let b = s.substring_char(n + 1, total);
        assert(a@ =~= s@.take(n as int));
        assert(b@ =~= s@.skip(n + 1));
        Some((a, b))
    } else {
        None
    }
}

pub open spec fn is_digit(c: char) -> bool {
    '0' <= c <= '9'
}

/// The number that a decimal digit stands for.
pub open spec fn digit_value(c: char) -> nat {
    (c as u32 - '0' as u32) as nat
}

fn digit_of(c: char) -> (r: Option<u64>)
    ensures
        r is Some <==> is_digit(c),
        r matches Some(v) ==> v == digit_value(c) && v <= 9,
{
    let n: u32 = c as u32;
    if n < 48 || n > 57 {
        None
    } else {
        Some((n - 48) as u64)
    }
}

/// The number that decimal digits spell.
pub open spec fn value(d: Seq<char>) -> nat
    decreases d.len(),
{
    if d.len() == 0 {
        0
    } else {
        value(d.drop_last()) * 10 + digit_value(d.last())
    }
}

/// The digits of a number that may have a plus sign.
pub open spec fn unsigned(s: Seq<char>) -> Seq<char> {
    if s.len() > 0 && s[0] == '+' {
        s.skip(1)
    } else {
        s
    }
}

/// The number that `s` spells: at least one digit, and nothing but digits behind
/// an optional plus sign.
pub open spec fn number(s: Seq<char>) -> Option<nat> {
    let d = unsigned(s);
    if d.len() > 0 && forall|i: int| 0 <= i < d.len() ==> is_digit(#[trigger] d[i]) {
        Some(value(d))
    } else {
        None
    }
}

/// The number that `s` spells, if it is no more than `max`.
pub open spec fn number_up_to(s: Seq<char>, max: nat) -> Option<nat> {
    match number(s) {
        Some(n) => if n <= max {
            Some(n)
        } else {
            None
        },
        None => None,
    }
}

/// Reads a number that is no more than `max`.
pub fn parse_number(s: &str, max: u64) -> (r: Option<u64>)
    ensures
        match r {
            Some(n) => number_up_to(s@, max as nat) == Some(n as nat),
            None => number_up_to(s@, max as nat) is None,
        },
{
    let chars = chars_of(s);
    let start: usize = if chars.len() > 0 && chars[0] == '+' {
        1
    } else {
        0
    };
    let ghost d = unsigned(s@);
    assert(d =~= s@.skip(start as int));
    if chars.len() == start {
        return None;
    }
    let total: usize = chars.len();
    let mut sum: u64 = 0;
    let mut too_big: bool = false;
    let mut i: usize = start;
    while i < total
        invariant
            start <= i <= total == chars@.len(),
            d == chars@.skip(start as int),
            d == unsigned(s@),
            forall|j: int| 0 <= j < i - start ==> is_digit(#[trigger] d[j]),
            !too_big ==> sum == value(d.take(i - start)) && sum <= max,
            too_big ==> value(d.take(i - start)) > max,
        decreases total - i,
    {
        assert(d[i - start] == chars@[i as int]);
        let digit: u64 = match digit_of(chars[i]) {
            Some(digit) => digit,
            None => {
                return None;
            },
        };
        assert(d.take(i - start + 1).drop_last() =~= d.take(i - start));
        assert(value(d.take(i - start + 1)) == value(d.take(i - start)) * 10 + digit);
        if !too_big {
            let next: u128 = sum as u128 * 10 + digit as u128;
            if next > max as u128 {
                too_big = true;
            } else {
                sum = next as u64;
            }
        }
        i = i + 1;
    }
    assert(d.take(total - start) =~= d);
    if too_big {
        None
    } else {
        Some(sum)
    }
}

/// A number in decimal is all digits, and reads back as itself.
pub proof fn decimal_reads_back(n: nat)
    ensures
        forall|i: int| 0 <= i < dec(n).len() ==> is_digit(#[trigger] dec(n)[i]),
        number(dec(n)) == Some(n),
{
    lemma_decimal(n);
}

proof fn lemma_decimal(n: nat)
    ensures
        dec(n).len() > 0,
        forall|i: int| 0 <= i < dec(n).len() ==> is_digit(#[trigger] dec(n)[i]),
        value(dec(n)) == n,
    decreases n,
{
    let d = dec(n);
    if n < 10 {
        assert(d == seq![digit(n)]);
        assert(d.drop_last() =~= Seq::empty());
        assert(value(d.drop_last()) == 0);
        assert(d.last() == digit(n));
    } else {
        lemma_decimal(n / 10);
        assert(d == dec(n / 10).push(digit(n % 10)));
        assert(d.drop_last() =~= dec(n / 10));
        assert(d.last() == digit(n % 10));
        assert(value(d) == value(dec(n / 10)) * 10 + digit_value(digit(n % 10)));
    }
}

pub fn strip_prefix<'a>(s: &'a str, prefix: &str) -> (r: Option<&'a str>)
    ensures
        match r {
            Some(rest) => prefix@.is_prefix_of(s@) && rest@ == s@.skip(prefix@.len() as int),
            None => !prefix@.is_prefix_of(s@),
        },
{
    let chars = chars_of(s);
    let p = chars_of(prefix);
    if chars.len() < p.len() {
        return None;
    }
    let mut i: usize = 0;
    while i < p.len()
        invariant
            i <= p@.len() <= chars@.len(),
            p@ == prefix@,
            chars@ == s@,
            forall|j: int| 0 <= j < i ==> chars@[j] == p@[j],
        decreases p@.len() - i,
    {
        if chars[i] != p[i] {
            assert(s@.take(prefix@.len() as int)[i as int] != prefix@[i as int]);
            return None;
        }
        i = i + 1;
    }
    let rest = s.substring_char(p.len(), chars.len());
    assert(prefix@ =~= s@.subrange(0, prefix@.len() as int));
    assert(rest@ =~= s@.skip(prefix@.len() as int));
    Some(rest)
}

/// White space behind a text is trimmed away, as if it were not there.
pub proof fn trailing_space_is_trimmed(a: Seq<char>, b: Seq<char>)
    requires
        forall|i: int| 0 <= i < b.len() ==> is_space(#[trigger] b[i]),
    ensures
        trimmed_end(a + b) == trimmed_end(a),
    decreases b.len(),
{
    if b.len() > 0 {
        assert((a + b).last() == b.last());
        assert((a + b).drop_last() =~= a + b.drop_last());
        trailing_space_is_trimmed(a, b.drop_last());
    } else {
        assert(a + b =~= a);
    }
}

/// A text that trimming leaves alone neither starts nor ends with white space.
pub proof fn trimmed_text_has_no_margin(s: Seq<char>)
    requires
        trimmed(s) == s,
    ensures
        trimmed_end(s) == s,
        trimmed_start(s) == s,
        s.len() > 0 ==> !is_space(s[0]) && !is_space(s.last()),
{
    trimming_shortens(s);
    trimming_shortens(trimmed_end(s));
    if s.len() > 0 {
        trimming_shortens(s.drop_last());
        trimming_shortens(s.skip(1));
    }
}

/// Trimming takes characters away or leaves a text alone.
pub proof fn trimming_shortens(s: Seq<char>)
    ensures
        trimmed_end(s).len() <= s.len(),
        trimmed_start(s).len() <= s.len(),
        trimmed_end(s).len() == s.len() ==> trimmed_end(s) == s,
    decreases s.len(),
{
    if s.len() > 0 {
        trimming_shortens(s.drop_last());
        trimming_shortens(s.skip(1));
    }
}

/// The number that a hexadecimal digit stands for.
pub open spec fn hex_digit_value(c: char) -> nat {
    if '0' <= c <= '9' {
        (c as u32 - 48) as nat
    } else {
        (c as u32 - 87) as nat
    }
}

/// Whether a character is a hexadecimal digit in lower case.
pub open spec fn is_hex_digit(c: char) -> bool {
    '0' <= c <= '9' || 'a' <= c <= 'f'
}

/// The number that hexadecimal digits spell.
pub open spec fn hex_value(d: Seq<char>) -> nat
    decreases d.len(),
{
    if d.len() == 0 {
        0
    } else {
        hex_value(d.drop_last()) * 16 + hex_digit_value(d.last())
    }
}

/// A number as some hexadecimal digits has that many of them, and reads back as itself
/// where it fits.
pub proof fn padded_hex_reads_back(n: nat, width: nat)
    requires
        n < vstd::arithmetic::power::pow(16, width),
    ensures
        padded_hex(n, width).len() == 2 + width,
        padded_hex(n, width).take(2) == seq!['0', 'x'],
        forall|i: int|
            2 <= i < 2 + width ==> is_hex_digit(#[trigger] padded_hex(n, width)[i]),
        hex_value(padded_hex(n, width).skip(2)) == n,
{
    reveal_strlit("0x");
    lemma_fixed_hex(n, width);
    let s = padded_hex(n, width);
    assert(s.take(2) =~= seq!['0', 'x']);
    assert(s.skip(2) =~= fixed_hex(n, width));
    assert forall|i: int| 2 <= i < 2 + width implies is_hex_digit(#[trigger] s[i]) by {
        assert(s[i] == fixed_hex(n, width)[i - 2]);
    }
}

proof fn lemma_fixed_hex(n: nat, width: nat)
    requires
        n < vstd::arithmetic::power::pow(16, width),
    ensures
        fixed_hex(n, width).len() == width,
        forall|i: int| 0 <= i < width ==> is_hex_digit(#[trigger] fixed_hex(n, width)[i]),
        hex_value(fixed_hex(n, width)) == n,
    decreases width,
{
    reveal(vstd::arithmetic::power::pow);
    if width > 0 {
        let front = fixed_hex(n / 16, (width - 1) as nat);
        let s = fixed_hex(n, width);
        lemma_fixed_hex(n / 16, (width - 1) as nat);
        assert(s.drop_last() =~= front);
        assert(s.last() == digit(n % 16));
        assert forall|i: int| 0 <= i < width implies is_hex_digit(#[trigger] s[i]) by {
            if i < width - 1 {
                assert(s[i] == front[i]);
            }
        }
    }
}

/// A number in hexadecimal reads back as itself, and has no needless zero in front; nor has
/// one in decimal.
pub proof fn hex_reads_back(n: nat)
    ensures
        hex(n).take(2) == seq!['0', 'x'],
        hex_value(hex(n).skip(2)) == n,
        hex(n).len() > 3 ==> hex(n)[2] != '0',
        dec(n).len() > 1 ==> dec(n)[0] != '0',
{
    reveal_strlit("0x");
    lemma_hex_digits(n);
    lemma_first_digit(n, 16);
    lemma_first_digit(n, 10);
    let s = hex(n);
    assert(s.take(2) =~= seq!['0', 'x']);
    assert(s.skip(2) =~= digits(n, 16));
}

proof fn lemma_hex_digits(n: nat)
    ensures
        digits(n, 16).len() > 0,
        hex_value(digits(n, 16)) == n,
    decreases n,
{
    let d = digits(n, 16);
    if n < 16 {
        assert(d == seq![digit(n)]);
        assert(d.drop_last() =~= Seq::empty());
        assert(hex_value(d.drop_last()) == 0);
        assert(d.last() == digit(n));
    } else {
        lemma_hex_digits(n / 16);
        assert(d == digits(n / 16, 16).push(digit(n % 16)));
        assert(d.drop_last() =~= digits(n / 16, 16));
        assert(d.last() == digit(n % 16));
    }
}

proof fn lemma_first_digit(n: nat, base: nat)
    requires
        base == 10 || base == 16,
    ensures
        digits(n, base).len() > 0,
        n > 0 ==> digits(n, base)[0] != '0',
        digits(n, base).len() > 1 ==> n > 0,
    decreases n,
{
    if n >= base {
        if base == 10 {
            lemma_first_digit(n / 10, 10);
            assert(digits(n, 10)[0] == digits(n / 10, 10)[0]);
        } else {
            lemma_first_digit(n / 16, 16);
            assert(digits(n, 16)[0] == digits(n / 16, 16)[0]);
        }
    }
}

/// White space is what Unicode says it is: in ASCII the tab, the four line breaks behind it,
/// and the blank.
pub proof fn spaces_are_white_space(c: char)
    ensures
        c as u32 <= 127 ==> (is_space(c) <==> c == '\t' || c == '\n' || c == '\x0b' || c == '\x0c'
            || c == '\r' || c == ' '),
        c as u32 > 127 ==> (is_space(c) <==> c == '\u{85}' || c == '\u{a0}' || c == '\u{1680}' || (
        '\u{2000}' <= c <= '\u{200a}') || c == '\u{2028}' || c == '\u{2029}' || c == '\u{202f}'
            || c == '\u{205f}' || c == '\u{3000}'),
{
}

/// Whether `part` is `s` without the white space around it: what stands before and behind
/// it is white space, and its own ends are not.
pub open spec fn is_inner(s: Seq<char>, from: int, to: int, part: Seq<char>) -> bool {
    &&& 0 <= from <= to <= s.len()
    &&& part == s.subrange(from, to)
    &&& forall|i: int| 0 <= i < from ==> is_space(#[trigger] s[i])
    &&& forall|i: int| to <= i < s.len() ==> is_space(#[trigger] s[i])
    &&& part.len() > 0 ==> !is_space(part[0]) && !is_space(part.last())
}

/// Trimming takes away all white space at the ends of a text, and nothing else.
pub proof fn trimming_keeps_the_inside(s: Seq<char>)
    ensures
        exists|from: int, to: int| #[trigger] is_inner(s, from, to, trimmed(s)),
{
    let to = lemma_trimmed_end(s);
    let t = trimmed_end(s);
    let from = lemma_trimmed_start(t);
    let part = trimmed(s);
    assert(part =~= s.subrange(from, to));
    assert forall|i: int| 0 <= i < from implies is_space(#[trigger] s[i]) by {
        assert(t[i] == s[i]);
    }
    if part.len() > 0 {
        assert(part.last() == t.last());
    }
    assert(is_inner(s, from, to, part));
}

proof fn lemma_trimmed_end(s: Seq<char>) -> (to: int)
    ensures
        0 <= to <= s.len(),
        trimmed_end(s) == s.take(to),
        forall|i: int| to <= i < s.len() ==> is_space(#[trigger] s[i]),
        to > 0 ==> !is_space(s[to - 1]),
    decreases s.len(),
{
    if s.len() > 0 && is_space(s.last()) {
        let front = s.drop_last();
        let to = lemma_trimmed_end(front);
        assert(front.take(to) =~= s.take(to));
        assert forall|i: int| to <= i < s.len() implies is_space(#[trigger] s[i]) by {
            if i < front.len() {
                assert(front[i] == s[i]);
            }
        }
        if to > 0 {
            assert(front[to - 1] == s[to - 1]);
        }
        to
    } else {
        assert(s.take(s.len() as int) =~= s);
        s.len() as int
    }
}

proof fn lemma_trimmed_start(s: Seq<char>) -> (from: int)
    ensures
        0 <= from <= s.len(),
        trimmed_start(s) == s.skip(from),
        forall|i: int| 0 <= i < from ==> is_space(#[trigger] s[i]),
        from < s.len() ==> !is_space(s[from]),
    decreases s.len(),
{
    if s.len() > 0 && is_space(s[0]) {
        let rest = s.skip(1);
        let from = lemma_trimmed_start(rest);
        assert(rest.skip(from) =~= s.skip(from + 1));
        assert forall|i: int| 0 <= i < from + 1 implies is_space(#[trigger] s[i]) by {
            if i > 0 {
                assert(rest[i - 1] == s[i]);
            }
        }
        if from < rest.len() {
            assert(rest[from] == s[from + 1]);
        }
        from + 1
    } else {
        assert(s.skip(0) =~= s);
        0
    }
}

/// Each letter of the ASCII alphabet has its small letter; no other character changes.
pub proof fn letters_have_their_case(i: int, c: char)
    requires
        0 <= i < 26,
    ensures
        lower("ABCDEFGHIJKLMNOPQRSTUVWXYZ"@[i]) == "abcdefghijklmnopqrstuvwxyz"@[i],
        lower("abcdefghijklmnopqrstuvwxyz"@[i]) == "abcdefghijklmnopqrstuvwxyz"@[i],
        !("ABCDEFGHIJKLMNOPQRSTUVWXYZ"@.contains(c)) ==> lower(c) == c,
{
    reveal_strlit("ABCDEFGHIJKLMNOPQRSTUVWXYZ");
    reveal_strlit("abcdefghijklmnopqrstuvwxyz");
    if 'A' <= c <= 'Z' {
        let at = c as u32 - 65;
        assert("ABCDEFGHIJKLMNOPQRSTUVWXYZ"@[at] == c);
    }
}

/// A text is split at the first place where the character stands, which is left out; and
/// only a text without it is not split.
pub proof fn splitting_takes_out_one_character(s: Seq<char>, c: char)
    ensures
        split(s, c) is None <==> !s.contains(c),
        split(s, c) matches Some((a, b)) ==> s == a + seq![c] + b && !a.contains(c),
{
    lemma_split(s, c);
    if leading(s, c) < s.len() {
        let n = leading(s, c) as int;
        let a = s.take(n);
        assert(s =~= a + seq![c] + s.skip(n + 1));
        assert(s[n] == c);
        if a.contains(c) {
            let i = choose|i: int| 0 <= i < a.len() && a[i] == c;
            assert(s[i] == a[i]);
        }
    }
}

proof fn lemma_split(s: Seq<char>, c: char)
    ensures
        leading(s, c) <= s.len(),
        leading(s, c) < s.len() ==> s[leading(s, c) as int] == c,
        forall|i: int| 0 <= i < leading(s, c) ==> #[trigger] s[i] != c,
    decreases s.len(),
{
    if s.len() > 0 && s[0] != c {
        let rest = s.skip(1);
        lemma_split(rest, c);
        assert forall|i: int| 0 <= i < leading(s, c) implies #[trigger] s[i] != c by {
            if i > 0 {
                assert(s[i] == rest[i - 1]);
            }
        }
        if leading(rest, c) < rest.len() {
            assert(rest[leading(rest, c) as int] == s[leading(s, c) as int]);
        }
    }
}

/// A number reads back with a plus sign in front as without, up to its limit and no further;
/// a text with anything but digits behind the sign, or without a digit, is no number.
pub proof fn numbers_are_digits(n: nat, max: nat, s: Seq<char>)
    ensures
        number(seq!['+'] + dec(n)) == Some(n),
        number_up_to(dec(n), max) == if n <= max {
            Some(n)
        } else {
            None
        },
        number(Seq::empty()) is None,
        number(seq!['+']) is None,
        (exists|i: int| 1 <= i < s.len() && !is_digit(#[trigger] s[i])) ==> number(s) is None,
        s.len() > 0 && s[0] != '+' && !is_digit(s[0]) ==> number(s) is None,
{
    lemma_decimal(n);
    decimal_reads_back(n);
    let plus = seq!['+'] + dec(n);
    assert(plus.skip(1) =~= dec(n));
    assert(unsigned(plus) == dec(n));
    assert(seq!['+'].skip(1) =~= Seq::<char>::empty());
    if exists|i: int| 1 <= i < s.len() && !is_digit(#[trigger] s[i]) {
        let i = choose|i: int| 1 <= i < s.len() && !is_digit(#[trigger] s[i]);
        if s[0] == '+' {
            assert(unsigned(s)[i - 1] == s[i]);
        } else {
            assert(unsigned(s)[i] == s[i]);
        }
    }
    if s.len() > 0 && s[0] != '+' {
        assert(unsigned(s)[0] == s[0]);
    }
}

} // verus!
