//! The vocabulary of spelled-out English numbers, decimal digit strings, and
//! the word-by-word machine that turns spelled-out numbers into digits.

use vstd::prelude::*;

use crate::text::{chars_equal, chars_of};

verus! {

// ---------------------------------------------------------------------------
// Decimal digits
// ---------------------------------------------------------------------------
/// Whether `c` is one of the ASCII digits `0` to `9`.
pub open spec fn is_digit(c: char) -> bool {
    '0' <= c && c <= '9'
}

/// Whether every character of `s` is an ASCII digit (true of the empty sequence).
pub open spec fn all_digits(s: Seq<char>) -> bool {
    forall|i: int| 0 <= i < s.len() ==> is_digit(#[trigger] s[i])
}

/// The value of the digit character `c`.
pub open spec fn digit_value(c: char) -> nat {
    (c as int - '0' as int) as nat
}

/// The digit character for `d` (below ten).
pub open spec fn digit_char(d: nat) -> char {
    if d == 0 {
        '0'
    } else if d == 1 {
        '1'
    } else if d == 2 {
        '2'
    } else if d == 3 {
        '3'
    } else if d == 4 {
        '4'
    } else if d == 5 {
        '5'
    } else if d == 6 {
        '6'
    } else if d == 7 {
        '7'
    } else if d == 8 {
        '8'
    } else {
        '9'
    }
}

/// The number that a string of digits spells.
pub open spec fn digits_value(s: Seq<char>) -> nat
    decreases s.len(),
{
    if s.len() == 0 {
        0
    } else {
        digits_value(s.drop_last()) * 10 + digit_value(s.last())
    }
}

/// The decimal numeral of `n`, without leading zeros.
pub open spec fn decimal(n: nat) -> Seq<char>
    decreases n,
{
    if n < 10 {
        seq![digit_char(n)]
    } else {
        decimal(n / 10).push(digit_char(n % 10))
    }
}

/// Ten to the power `e`.
pub open spec fn pow10(e: nat) -> nat
    decreases e,
{
    if e == 0 {
        1
    } else {
        10 * pow10((e - 1) as nat)
    }
}

/// A decimal numeral is never empty and consists of digits.
pub proof fn lemma_decimal_digits(n: nat)
    ensures
        decimal(n).len() > 0,
        all_digits(decimal(n)),
    decreases n,
{
    if n >= 10 {
        lemma_decimal_digits(n / 10);
    }
}

/// Powers of ten grow with the exponent.
pub proof fn lemma_pow10_monotonic(a: nat, b: nat)
    requires
        a <= b,
    ensures
        1 <= pow10(a) <= pow10(b),
    decreases b,
{
    if b > a {
        lemma_pow10_monotonic(a, (b - 1) as nat);
    } else if a > 0 {
        lemma_pow10_monotonic((a - 1) as nat, (a - 1) as nat);
    }
}

/// The character for digit `d`.
fn digit_to_char(d: u128) -> (c: char)
    requires
        d < 10,
    ensures
        c == digit_char(d as nat),
        is_digit(c),
        digit_value(c) == d,
{
    match d {
        0 => '0',
        1 => '1',
        2 => '2',
        3 => '3',
        4 => '4',
        5 => '5',
        6 => '6',
        7 => '7',
        8 => '8',
        _ => '9',
    }
}

/// The decimal numeral of `n`.
pub fn decimal_chars(n: u128) -> (v: Vec<char>)
    ensures
        v@ == decimal(n as nat),
    decreases n,
{
    if n < 10 {
        let mut v: Vec<char> = Vec::new();
        v.push(digit_to_char(n));
        assert(v@ =~= seq![digit_char(n as nat)]);
        v
    } else {
        let mut v = decimal_chars(n / 10);
        v.push(digit_to_char(n % 10));
        v
    }
}

/// Whether every character of `s` is an ASCII digit.
pub fn chars_all_digits(s: &[char]) -> (b: bool)
    ensures
        b == all_digits(s@),
{
    let mut i: usize = 0;
    while i < s.len()
        invariant
            i <= s@.len(),
            forall|k: int| 0 <= k < i ==> is_digit(#[trigger] s@[k]),
        decreases s@.len() - i,
    {
        if !('0' <= s[i] && s[i] <= '9') {
            return false;
        }
        i = i + 1;
    }
    true
}

/// The value of a string of digits, or `None` where it exceeds `u128`.
pub fn parse_digits(s: &[char]) -> (r: Option<u128>)
    requires
        all_digits(s@),
    ensures
        r is Some <==> digits_value(s@) <= u128::MAX,
        r matches Some(v) ==> v == digits_value(s@),
{
    let mut acc: u128 = 0;
    let mut i: usize = 0;
    while i < s.len()
        invariant
            i <= s@.len(),
            all_digits(s@),
            acc == digits_value(s@.take(i as int)),
        decreases s@.len() - i,
    {
        assert(s@.take(i + 1).drop_last() =~= s@.take(i as int));
        assert(is_digit(s@[i as int]));
        let d: u128 = ((s[i] as u32) - 48u32) as u128;
        proof {
            lemma_digits_value_prefix_bound(s@, i as int + 1);
        }
        match acc.checked_mul(10) {
            None => {
                proof {
                    lemma_digits_value_prefix_bound(s@, s@.len() as int);
                    lemma_digits_prefix_le(s@, i + 1);
                }
                return None;
            },
            Some(t) => match t.checked_add(d) {
                None => {
                    proof {
                        lemma_digits_prefix_le(s@, i + 1);
                    }
                    return None;
                },
                Some(u) => {
                    acc = u;
                },
            },
        }
        i = i + 1;
    }
    assert(s@.take(s@.len() as int) =~= s@);
    Some(acc)
}

/// The value of a digit string's prefix of length `k` is at least ten times
/// that of its prefix of length `k - 1`.
proof fn lemma_digits_value_prefix_bound(s: Seq<char>, k: int)
    requires
        1 <= k <= s.len(),
    ensures
        digits_value(s.take(k)) >= 10 * digits_value(s.take(k - 1)),
{
    assert(s.take(k).drop_last() =~= s.take(k - 1));
}

/// The value of a digit string is at least that of any of its prefixes.
proof fn lemma_digits_prefix_le(s: Seq<char>, k: int)
    requires
        0 <= k <= s.len(),
    ensures
        digits_value(s.take(k)) <= digits_value(s),
    decreases s.len() - k,
{
    if k < s.len() {
        lemma_digits_prefix_le(s, k + 1);
        assert(s.take(k + 1).drop_last() =~= s.take(k));
    } else {
        assert(s.take(k) =~= s);
    }
}

// ---------------------------------------------------------------------------
// Words
// ---------------------------------------------------------------------------
/// Whether the characters of `w` spell `lit`.
pub fn word_is(w: &[char], lit: &str) -> (b: bool)
    ensures
        b == (w@ == lit@),
{
    let l = chars_of(lit);
    chars_equal(w, l.as_slice())
}

/// The names of one to nineteen.
pub open spec fn ones_names() -> Seq<Seq<char>> {
    seq![
        "one"@, "two"@, "three"@, "four"@, "five"@, "six"@, "seven"@, "eight"@, "nine"@,
        "ten"@, "eleven"@, "twelve"@, "thirteen"@, "fourteen"@, "fifteen"@, "sixteen"@,
        "seventeen"@, "eighteen"@, "nineteen"@,
    ]
}

/// The names of the multiples of ten from twenty to ninety.
pub open spec fn tens_names() -> Seq<Seq<char>> {
    seq!["twenty"@, "thirty"@, "forty"@, "fifty"@, "sixty"@, "seventy"@, "eighty"@, "ninety"@]
}

/// The names of the multipliers, from a hundred to a decillion.
pub open spec fn multiplier_names() -> Seq<Seq<char>> {
    seq![
        "hundred"@, "thousand"@, "million"@, "billion"@, "trillion"@, "quadrillion"@,
        "quintillion"@, "sextillion"@, "septillion"@, "octillion"@, "nonillion"@,
        "decillion"@,
    ]
}

/// The value of the multiplier at position `i` of `multiplier_names`.
pub open spec fn multiplier_at(i: int) -> u128 {
    seq![
        100u128,
        1_000u128,
        1_000_000u128,
        1_000_000_000u128,
        1_000_000_000_000u128,
        1_000_000_000_000_000u128,
        1_000_000_000_000_000_000u128,
        1_000_000_000_000_000_000_000u128,
        1_000_000_000_000_000_000_000_000u128,
        1_000_000_000_000_000_000_000_000_000u128,
        1_000_000_000_000_000_000_000_000_000_000u128,
        1_000_000_000_000_000_000_000_000_000_000_000u128,
    ][i]
}

fn ones_name(i: usize) -> (s: &'static str)
    requires
        i < 19,
    ensures
        s@ == ones_names()[i as int],
{
    match i {
        0 => "one",
        1 => "two",
        2 => "three",
        3 => "four",
        4 => "five",
        5 => "six",
        6 => "seven",
        7 => "eight",
        8 => "nine",
        9 => "ten",
        10 => "eleven",
        11 => "twelve",
        12 => "thirteen",
        13 => "fourteen",
        14 => "fifteen",
        15 => "sixteen",
        16 => "seventeen",
        17 => "eighteen",
        _ => "nineteen",
    }
}

fn tens_name(i: usize) -> (s: &'static str)
    requires
        i < 8,
    ensures
        s@ == tens_names()[i as int],
{
    match i {
        0 => "twenty",
        1 => "thirty",
        2 => "forty",
        3 => "fifty",
        4 => "sixty",
        5 => "seventy",
        6 => "eighty",
        _ => "ninety",
    }
}

fn multiplier_name(i: usize) -> (s: &'static str)
    requires
        i < 12,
    ensures
        s@ == multiplier_names()[i as int],
{
    match i {
        0 => "hundred",
        1 => "thousand",
        2 => "million",
        3 => "billion",
        4 => "trillion",
        5 => "quadrillion",
        6 => "quintillion",
        7 => "sextillion",
        8 => "septillion",
        9 => "octillion",
        10 => "nonillion",
        _ => "decillion",
    }
}

fn multiplier_value_at(i: usize) -> (v: u128)
    requires
        i < 12,
    ensures
        v == multiplier_at(i as int),
{
    match i {
        0 => 100,
        1 => 1_000,
        2 => 1_000_000,
        3 => 1_000_000_000,
        4 => 1_000_000_000_000,
        5 => 1_000_000_000_000_000,
        6 => 1_000_000_000_000_000_000,
        7 => 1_000_000_000_000_000_000_000,
        8 => 1_000_000_000_000_000_000_000_000,
        9 => 1_000_000_000_000_000_000_000_000_000,
        10 => 1_000_000_000_000_000_000_000_000_000_000,
        _ => 1_000_000_000_000_000_000_000_000_000_000_000,
    }
}

// ---------------------------------------------------------------------------
// Classifying words
// ---------------------------------------------------------------------------
/// The first position at or after `i` where `names` holds `w`.
pub open spec fn position_from(names: Seq<Seq<char>>, w: Seq<char>, i: int) -> Option<int>
    decreases names.len() - i,
{
    if i < 0 || i >= names.len() {
        None
    } else if names[i] == w {
        Some(i)
    } else {
        position_from(names, w, i + 1)
    }
}

/// The first position where `names` holds `w`.
pub open spec fn position(names: Seq<Seq<char>>, w: Seq<char>) -> Option<int> {
    position_from(names, w, 0)
}

/// Whether `w` names zero: "o", "oh" or "zero".
pub open spec fn is_zero_word(w: Seq<char>) -> bool {
    w == "o"@ || w == "oh"@ || w == "zero"@
}

/// The value of a word naming one to nineteen.
pub open spec fn ones_value(w: Seq<char>) -> Option<u128> {
    match position(ones_names(), w) {
        Some(i) => Some((i + 1) as u128),
        None => None,
    }
}

/// The value of a word naming a multiple of ten from twenty to ninety.
pub open spec fn tens_value(w: Seq<char>) -> Option<u128> {
    match position(tens_names(), w) {
        Some(i) => Some((10 * (i + 2)) as u128),
        None => None,
    }
}

/// The value of a multiplier word ("hundred" to "decillion").
pub open spec fn multiplier_value(w: Seq<char>) -> Option<u128> {
    match position(multiplier_names(), w) {
        Some(i) => Some(multiplier_at(i)),
        None => None,
    }
}

pub fn is_zero(w: &[char]) -> (b: bool)
    ensures
        b == is_zero_word(w@),
{
    word_is(w, "o") || word_is(w, "oh") || word_is(w, "zero")
}

pub fn ones_value_of(w: &[char]) -> (r: Option<u128>)
    ensures
        r == ones_value(w@),
{
    let mut i: usize = 0;
    while i < 19
        invariant
            i <= 19,
            position(ones_names(), w@) == position_from(ones_names(), w@, i as int),
        decreases 19 - i,
    {
        if word_is(w, ones_name(i)) {
            return Some(i as u128 + 1);
        }
        i = i + 1;
    }
    None
}

pub fn tens_value_of(w: &[char]) -> (r: Option<u128>)
    ensures
        r == tens_value(w@),
{
    let mut i: usize = 0;
    while i < 8
        invariant
            i <= 8,
            position(tens_names(), w@) == position_from(tens_names(), w@, i as int),
        decreases 8 - i,
    {
        if word_is(w, tens_name(i)) {
            return Some(10 * (i as u128 + 2));
        }
        i = i + 1;
    }
    None
}

pub fn multiplier_value_of(w: &[char]) -> (r: Option<u128>)
    ensures
        r == multiplier_value(w@),
{
    let mut i: usize = 0;
    while i < 12
        invariant
            i <= 12,
            position(multiplier_names(), w@) == position_from(multiplier_names(), w@, i as int),
        decreases 12 - i,
    {
        if word_is(w, multiplier_name(i)) {
            return Some(multiplier_value_at(i));
        }
        i = i + 1;
    }
    None
}

/// `s` followed by the characters of `t`.
pub fn concat_str(s: &[char], t: &str) -> (v: Vec<char>)
    ensures
        v@ == s@ + t@,
{
    let mut v: Vec<char> = Vec::new();
    let mut i: usize = 0;
    while i < s.len()
        invariant
            i <= s@.len(),
            v@ == s@.take(i as int),
        decreases s@.len() - i,
    {
        v.push(s[i]);
        i = i + 1;
        assert(v@ =~= s@.take(i as int));
    }
    assert(s@.take(s@.len() as int) =~= s@);
    for c in it: t.chars()
        invariant
            v@ == s@ + it.seq().take(it.index() as int),
            it.seq() == t@,
    {
        v.push(c);
    }
    v
}

/// `s` with every occurrence of `c` replaced by `rep`.
pub open spec fn replace_char(s: Seq<char>, c: char, rep: Seq<char>) -> Seq<char>
    decreases s.len(),
{
    if s.len() == 0 {
        seq![]
    } else if s.last() == c {
        replace_char(s.drop_last(), c, rep) + rep
    } else {
        replace_char(s.drop_last(), c, rep).push(s.last())
    }
}

/// Replaces every `c` in `s` by the characters of `rep`, as `str::replace` does.
pub fn replace_char_with(s: &[char], c: char, rep: &str) -> (v: Vec<char>)
    ensures
        v@ == replace_char(s@, c, rep@),
{
    let r = chars_of(rep);
    let mut v: Vec<char> = Vec::new();
    let mut i: usize = 0;
    while i < s.len()
        invariant
            i <= s@.len(),
            r@ == rep@,
            v@ == replace_char(s@.take(i as int), c, rep@),
        decreases s@.len() - i,
    {
        assert(s@.take(i + 1).drop_last() =~= s@.take(i as int));
        if s[i] == c {
            let mut j: usize = 0;
            let ghost before = v@;
            while j < r.len()
                invariant
                    j <= r@.len(),
                    v@ == before + r@.take(j as int),
                decreases r@.len() - j,
            {
                v.push(r[j]);
                j = j + 1;
                assert(v@ =~= before + r@.take(j as int));
            }
            assert(r@.take(r@.len() as int) =~= r@);
        } else {
            v.push(s[i]);
        }
        i = i + 1;
    }
    assert(s@.take(s@.len() as int) =~= s@);
    v
}

/// The plural of the name at position `i` of `ones_names` ("sixes" for six).
pub open spec fn ones_plural(i: int) -> Seq<char> {
    if ones_names()[i] == "six"@ {
        "sixes"@
    } else {
        ones_names()[i] + "s"@
    }
}

/// The ordinal of the name at position `i` of `ones_names`, formed with "h"
/// after a final "t" and with "th" otherwise.
pub open spec fn ones_ordinal(i: int) -> Seq<char> {
    let n = ones_names()[i];
    if n.len() > 0 && n.last() == 't' {
        n + "h"@
    } else {
        n + "th"@
    }
}

/// A plural or regular ordinal of one to nineteen, searched from position `i`.
pub open spec fn ones_suffixed_from(w: Seq<char>, i: int) -> Option<(u128, Seq<char>)>
    decreases 19 - i,
{
    if i < 0 || i >= 19 {
        None
    } else if w == ones_plural(i) {
        Some(((i + 1) as u128, "s"@))
    } else if i + 1 > 3 && i + 1 != 5 && i + 1 != 12 && w == ones_ordinal(i) {
        Some(((i + 1) as u128, "th"@))
    } else {
        ones_suffixed_from(w, i + 1)
    }
}

/// The value and suffix of an ordinal or plural of zero to nineteen
/// ("first" is 1 with "st", "sevens" is 7 with "s").
pub open spec fn ones_suffixed(w: Seq<char>) -> Option<(u128, Seq<char>)> {
    if w == "zeroth"@ {
        Some((0, "th"@))
    } else if w == "first"@ {
        Some((1, "st"@))
    } else if w == "second"@ {
        Some((2, "nd"@))
    } else if w == "third"@ {
        Some((3, "rd"@))
    } else if w == "fifth"@ {
        Some((5, "th"@))
    } else if w == "twelfth"@ {
        Some((12, "th"@))
    } else {
        ones_suffixed_from(w, 0)
    }
}

/// A plural or ordinal of a multiple of ten ("twenties", "thirtieth"),
/// searched from position `i`.
pub open spec fn tens_suffixed_from(w: Seq<char>, i: int) -> Option<(u128, Seq<char>)>
    decreases 8 - i,
{
    if i < 0 || i >= 8 {
        None
    } else if w == replace_char(tens_names()[i], 'y', "ies"@) {
        Some(((10 * (i + 2)) as u128, "s"@))
    } else if w == replace_char(tens_names()[i], 'y', "ieth"@) {
        Some(((10 * (i + 2)) as u128, "th"@))
    } else {
        tens_suffixed_from(w, i + 1)
    }
}

/// The value and suffix of a plural or ordinal of a multiple of ten.
pub open spec fn tens_suffixed(w: Seq<char>) -> Option<(u128, Seq<char>)> {
    tens_suffixed_from(w, 0)
}

/// A plural or ordinal of a multiplier ("millions", "thousandth"), searched
/// from position `i`.
pub open spec fn multiplier_suffixed_from(w: Seq<char>, i: int) -> Option<(u128, Seq<char>)>
    decreases 12 - i,
{
    if i < 0 || i >= 12 {
        None
    } else if w == multiplier_names()[i] + "s"@ {
        Some((multiplier_at(i), "s"@))
    } else if w == multiplier_names()[i] + "th"@ {
        Some((multiplier_at(i), "th"@))
    } else {
        multiplier_suffixed_from(w, i + 1)
    }
}

/// The value and suffix of a plural or ordinal of a multiplier.
pub open spec fn multiplier_suffixed(w: Seq<char>) -> Option<(u128, Seq<char>)> {
    multiplier_suffixed_from(w, 0)
}

/// The sign that a word standing before a number puts in front of it.
pub open spec fn preceding_prefixer(w: Seq<char>) -> Option<char> {
    if w == "minus"@ || w == "negative"@ {
        Some('-')
    } else if w == "plus"@ || w == "positive"@ {
        Some('+')
    } else {
        None
    }
}

/// The currency symbol that a word standing after a number puts in front of it.
pub open spec fn following_prefixer(w: Seq<char>) -> Option<char> {
    if w == "pound"@ || w == "pounds"@ {
        Some('£')
    } else if w == "euro"@ || w == "euros"@ {
        Some('€')
    } else if w == "dollar"@ || w == "dollars"@ {
        Some('$')
    } else if w == "cent"@ || w == "cents"@ {
        Some('¢')
    } else {
        None
    }
}

/// Whether `c` is a sign or currency symbol that may lead a number.
pub open spec fn is_prefix_symbol(c: char) -> bool {
    c == '-' || c == '+' || c == '£' || c == '€' || c == '$' || c == '¢'
}

/// Whether `w` names a single digit position: zero, one to nineteen, or a
/// multiple of ten.
pub open spec fn is_decimal_word(w: Seq<char>) -> bool {
    ones_value(w) is Some || tens_value(w) is Some || is_zero_word(w)
}

/// Whether `w` is one of the connecting words "and", "double", "triple", "point".
pub open spec fn is_special_word(w: Seq<char>) -> bool {
    w == "and"@ || w == "double"@ || w == "triple"@ || w == "point"@
}

/// Whether `w` belongs to the vocabulary of spelled-out numbers.
pub open spec fn is_number_word(w: Seq<char>) -> bool {
    ||| is_zero_word(w)
    ||| ones_value(w) is Some
    ||| ones_suffixed(w) is Some
    ||| tens_value(w) is Some
    ||| tens_suffixed(w) is Some
    ||| multiplier_value(w) is Some
    ||| multiplier_suffixed(w) is Some
    ||| preceding_prefixer(w) is Some
    ||| following_prefixer(w) is Some
    ||| w == "per"@
    ||| w == "percent"@
    ||| is_special_word(w)
}

/// The first position at or after `i` where `s` holds `c`.
pub open spec fn char_position_from(s: Seq<char>, c: char, i: int) -> Option<int>
    decreases s.len() - i,
{
    if i < 0 || i >= s.len() {
        None
    } else if s[i] == c {
        Some(i)
    } else {
        char_position_from(s, c, i + 1)
    }
}

/// The position of the first `.` in `s`.
pub open spec fn dot_position(s: Seq<char>) -> Option<int> {
    char_position_from(s, '.', 0)
}

/// Whether `w` is a numeral: digits, optionally followed by a `.` and more digits.
pub open spec fn is_numeric(w: Seq<char>) -> bool {
    match dot_position(w) {
        None => w.len() > 0 && all_digits(w),
        Some(k) => k > 0 && all_digits(w.take(k)) && w.len() > k + 1 && all_digits(w.skip(k + 1)),
    }
}

fn ones_suffixed_at(w: &[char], i: usize) -> (r: Option<(u128, &'static str)>)
    requires
        i < 19,
    ensures
        r matches Some((v, s)) ==> ones_suffixed_from(w@, i as int) == Some((v, s@)),
        r is None ==> ones_suffixed_from(w@, i as int) == ones_suffixed_from(w@, i + 1),
{
    let name = chars_of(ones_name(i));
    let plural = if word_is(name.as_slice(), "six") {
        chars_of("sixes")
    } else {
        concat_str(name.as_slice(), "s")
    };
    if chars_equal(w, plural.as_slice()) {
        return Some((i as u128 + 1, "s"));
    }
    let value = i + 1;
    if value > 3 && value != 5 && value != 12 {
        let ordinal = if name.len() > 0 && name[name.len() - 1] == 't' {
            concat_str(name.as_slice(), "h")
        } else {
            concat_str(name.as_slice(), "th")
        };
        if chars_equal(w, ordinal.as_slice()) {
            return Some((i as u128 + 1, "th"));
        }
    }
    None
}

pub fn ones_suffixed_of(w: &[char]) -> (r: Option<(u128, &'static str)>)
    ensures
        r matches Some((v, s)) ==> ones_suffixed(w@) == Some((v, s@)),
        r is None ==> ones_suffixed(w@) is None,
{
    if word_is(w, "zeroth") {
        return Some((0, "th"));
    } else if word_is(w, "first") {
        return Some((1, "st"));
    } else if word_is(w, "second") {
        return Some((2, "nd"));
    } else if word_is(w, "third") {
        return Some((3, "rd"));
    } else if word_is(w, "fifth") {
        return Some((5, "th"));
    } else if word_is(w, "twelfth") {
        return Some((12, "th"));
    }
    let mut i: usize = 0;
    while i < 19
        invariant
            i <= 19,
            ones_suffixed(w@) == ones_suffixed_from(w@, i as int),
        decreases 19 - i,
    {
        let r = ones_suffixed_at(w, i);
        if r.is_some() {
            return r;
        }
        i = i + 1;
    }
    None
}

pub fn tens_suffixed_of(w: &[char]) -> (r: Option<(u128, &'static str)>)
    ensures
        r matches Some((v, s)) ==> tens_suffixed(w@) == Some((v, s@)),
        r is None ==> tens_suffixed(w@) is None,
{
    let mut i: usize = 0;
    while i < 8
        invariant
            i <= 8,
            tens_suffixed(w@) == tens_suffixed_from(w@, i as int),
        decreases 8 - i,
    {
        let name = chars_of(tens_name(i));
        let plural = replace_char_with(name.as_slice(), 'y', "ies");
        if chars_equal(w, plural.as_slice()) {
            return Some((10 * (i as u128 + 2), "s"));
        }
        let ordinal = replace_char_with(name.as_slice(), 'y', "ieth");
        if chars_equal(w, ordinal.as_slice()) {
            return Some((10 * (i as u128 + 2), "th"));
        }
        i = i + 1;
    }
    None
}

pub fn multiplier_suffixed_of(w: &[char]) -> (r: Option<(u128, &'static str)>)
    ensures
        r matches Some((v, s)) ==> multiplier_suffixed(w@) == Some((v, s@)),
        r is None ==> multiplier_suffixed(w@) is None,
{
    let mut i: usize = 0;
    while i < 12
        invariant
            i <= 12,
            multiplier_suffixed(w@) == multiplier_suffixed_from(w@, i as int),
        decreases 12 - i,
    {
        let name = chars_of(multiplier_name(i));
        let plural = concat_str(name.as_slice(), "s");
        if chars_equal(w, plural.as_slice()) {
            return Some((multiplier_value_at(i), "s"));
        }
        let ordinal = concat_str(name.as_slice(), "th");
        if chars_equal(w, ordinal.as_slice()) {
            return Some((multiplier_value_at(i), "th"));
        }
        i = i + 1;
    }
    None
}

pub fn preceding_prefixer_of(w: &[char]) -> (r: Option<char>)
    ensures
        r == preceding_prefixer(w@),
{
    if word_is(w, "minus") || word_is(w, "negative") {
        Some('-')
    } else if word_is(w, "plus") || word_is(w, "positive") {
        Some('+')
    } else {
        None
    }
}

pub fn following_prefixer_of(w: &[char]) -> (r: Option<char>)
    ensures
        r == following_prefixer(w@),
{
    if word_is(w, "pound") || word_is(w, "pounds") {
        Some('£')
    } else if word_is(w, "euro") || word_is(w, "euros") {
        Some('€')
    } else if word_is(w, "dollar") || word_is(w, "dollars") {
        Some('$')
    } else if word_is(w, "cent") || word_is(w, "cents") {
        Some('¢')
    } else {
        None
    }
}

pub fn prefix_symbol(c: char) -> (b: bool)
    ensures
        b == is_prefix_symbol(c),
{
    c == '-' || c == '+' || c == '£' || c == '€' || c == '$' || c == '¢'
}

pub fn decimal_word(w: &[char]) -> (b: bool)
    ensures
        b == is_decimal_word(w@),
{
    ones_value_of(w).is_some() || tens_value_of(w).is_some() || is_zero(w)
}

pub fn special_word(w: &[char]) -> (b: bool)
    ensures
        b == is_special_word(w@),
{
    word_is(w, "and") || word_is(w, "double") || word_is(w, "triple") || word_is(w, "point")
}

pub fn number_word(w: &[char]) -> (b: bool)
    ensures
        b == is_number_word(w@),
{
    is_zero(w) || ones_value_of(w).is_some() || ones_suffixed_of(w).is_some()
        || tens_value_of(w).is_some() || tens_suffixed_of(w).is_some()
        || multiplier_value_of(w).is_some() || multiplier_suffixed_of(w).is_some()
        || preceding_prefixer_of(w).is_some() || following_prefixer_of(w).is_some()
        || word_is(w, "per") || word_is(w, "percent") || special_word(w)
}

/// The position of the first `c` in `s`.
pub fn find_char(s: &[char], c: char) -> (r: Option<usize>)
    ensures
        r matches Some(k) ==> char_position_from(s@, c, 0) == Some(k as int) && k < s@.len(),
        r is None ==> char_position_from(s@, c, 0) is None,
{
    let mut i: usize = 0;
    while i < s.len()
        invariant
            i <= s@.len(),
            char_position_from(s@, c, 0) == char_position_from(s@, c, i as int),
        decreases s@.len() - i,
    {
        if s[i] == c {
            return Some(i);
        }
        i = i + 1;
    }
    None
}

/// Whether `w` is a numeral.
pub fn numeric(w: &[char]) -> (b: bool)
    ensures
        b == is_numeric(w@),
{
    match find_char(w, '.') {
        None => w.len() > 0 && chars_all_digits(w),
        Some(k) => {
            let int_part = crate::text::chars_between(w, 0, k);
            assert(int_part@ =~= w@.take(k as int));
            if k == 0 || !chars_all_digits(int_part.as_slice()) || w.len() <= k + 1 {
                return false;
            }
            let frac = crate::text::chars_between(w, k + 1, w.len());
            assert(frac@ =~= w@.skip(k + 1));
            chars_all_digits(frac.as_slice())
        },
    }
}

// ---------------------------------------------------------------------------
// Scaling decimal numerals
// ---------------------------------------------------------------------------
/// The digits before the first `.` of `s` and those after it (all of `s`
/// and nothing, where there is no `.`).
pub open spec fn split_at_dot(s: Seq<char>) -> (Seq<char>, Seq<char>) {
    match dot_position(s) {
        Some(k) => (s.take(k), s.skip(k + 1)),
        None => (s, seq![]),
    }
}

/// The decimal numeral `s` ("2.5") times `multiplier`, where the product is a
/// whole number and every intermediate value fits in `u128`.
pub open spec fn scaled_decimal(s: Seq<char>, multiplier: u128) -> Option<u128> {
    let (int_part, frac) = split_at_dot(s);
    let mantissa = digits_value(int_part + frac);
    let denom = pow10((frac.len() as u32) as nat);
    if int_part.len() == 0 && frac.len() == 0 {
        None
    } else if !all_digits(int_part) || !all_digits(frac) {
        None
    } else if mantissa > u128::MAX || denom > u128::MAX || mantissa * multiplier > u128::MAX {
        None
    } else if (mantissa * multiplier) % (denom as int) == 0 {
        Some(((mantissa * multiplier) / (denom as int)) as u128)
    } else {
        None
    }
}

/// `a` followed by `b`.
pub fn concat(a: &[char], b: &[char]) -> (v: Vec<char>)
    ensures
        v@ == a@ + b@,
{
    let mut v: Vec<char> = Vec::new();
    let mut i: usize = 0;
    while i < a.len()
        invariant
            i <= a@.len(),
            v@ == a@.take(i as int),
        decreases a@.len() - i,
    {
        v.push(a[i]);
        i = i + 1;
        assert(v@ =~= a@.take(i as int));
    }
    let mut j: usize = 0;
    while j < b.len()
        invariant
            j <= b@.len(),
            i == a@.len(),
            v@ == a@ + b@.take(j as int),
        decreases b@.len() - j,
    {
        v.push(b[j]);
        j = j + 1;
        assert(v@ =~= a@ + b@.take(j as int));
    }
    assert(a@.take(a@.len() as int) =~= a@);
    assert(b@.take(b@.len() as int) =~= b@);
    v
}

/// Ten to the power `e`, where it fits in `u128`.
fn checked_pow10(e: u32) -> (r: Option<u128>)
    ensures
        r is Some <==> pow10(e as nat) <= u128::MAX,
        r matches Some(v) ==> v == pow10(e as nat),
{
    let mut p: u128 = 1;
    let mut i: u32 = 0;
    while i < e
        invariant
            i <= e,
            p == pow10(i as nat),
        decreases e - i,
    {
        match p.checked_mul(10) {
            Some(q) => {
                p = q;
            },
            None => {
                proof {
                    lemma_pow10_monotonic((i + 1) as nat, e as nat);
                }
                return None;
            },
        }
        i = i + 1;
    }
    Some(p)
}

/// The decimal numeral `s` times `multiplier`, where that is a whole number
/// that fits in `u128`.
pub fn scale_decimal(s: &[char], multiplier: u128) -> (r: Option<u128>)
    ensures
        r == scaled_decimal(s@, multiplier),
{
    let n = s.len();
    let (int_part, frac) = match find_char(s, '.') {
        Some(k) => (crate::text::chars_between(s, 0, k), crate::text::chars_between(s, k + 1, n)),
        None => (crate::text::chars_between(s, 0, n), Vec::new()),
    };
    assert(int_part@ == split_at_dot(s@).0 && frac@ == split_at_dot(s@).1) by {
        assert(s@.take(s@.len() as int) =~= s@);
        assert(s@.subrange(0, s@.len() as int) =~= s@);
        if let Some(k) = dot_position(s@) {
            assert(s@.subrange(0, k) =~= s@.take(k));
            assert(s@.subrange(k + 1, s@.len() as int) =~= s@.skip(k + 1));
        }
    }
    if int_part.len() == 0 && frac.len() == 0 {
        return None;
    }
    if !chars_all_digits(int_part.as_slice()) || !chars_all_digits(frac.as_slice()) {
        return None;
    }
    let joined = concat(int_part.as_slice(), frac.as_slice());
    assert(all_digits(joined@)) by {
        assert forall|i: int| 0 <= i < joined@.len() implies is_digit(#[trigger] joined@[i]) by {
            if i < int_part@.len() {
                assert(joined@[i] == int_part@[i]);
            } else {
                assert(joined@[i] == frac@[i - int_part@.len()]);
            }
        }
    }
    let mantissa = match parse_digits(joined.as_slice()) {
        Some(m) => m,
        None => {
            return None;
        },
    };
    let e: u32 = #[verifier::truncate] (frac.len() as u32);
    let denom = match checked_pow10(e) {
        Some(d) => d,
        None => {
            return None;
        },
    };
    let product = match mantissa.checked_mul(multiplier) {
        Some(p) => p,
        None => {
            return None;
        },
    };
    proof {
        lemma_pow10_monotonic(0, e as nat);
    }
    if product % denom == 0 {
        Some(product / denom)
    } else {
        None
    }
}

// ---------------------------------------------------------------------------
// The number machine: its model
// ---------------------------------------------------------------------------
/// A number under construction: a whole number, or digits kept as text
/// (with a decimal point, leading zeros, or digits run together).
pub enum NumberValue {
    Int(u128),
    Text(Seq<char>),
}

/// The state of the machine between words: a pending sign or currency
/// symbol, the number under construction, and the words put out so far.
pub struct MachineState {
    pub prefix: Option<char>,
    pub value: Option<NumberValue>,
    pub out: Seq<Seq<char>>,
}

/// The text of a value.
pub open spec fn render(v: NumberValue) -> Seq<char> {
    match v {
        NumberValue::Int(n) => decimal(n as nat),
        NumberValue::Text(s) => s,
    }
}

/// The machine before the first word.
pub open spec fn initial_state() -> MachineState {
    MachineState { prefix: None, value: None, out: seq![] }
}

/// `st` with its value replaced by `v`.
pub open spec fn with_value(st: MachineState, v: NumberValue) -> MachineState {
    MachineState { prefix: st.prefix, value: Some(v), out: st.out }
}

/// Puts out `result` behind the pending prefix, and clears the prefix and value.
pub open spec fn emit(st: MachineState, result: Seq<char>) -> MachineState {
    let word = match st.prefix {
        Some(p) => seq![p] + result,
        None => result,
    };
    MachineState { prefix: None, value: None, out: st.out.push(word) }
}

/// Puts out the number under construction, if there is one.
pub open spec fn flush(st: MachineState) -> MachineState {
    match st.value {
        Some(v) => emit(st, render(v)),
        None => st,
    }
}

/// The text of the number under construction; empty where there is none or
/// where it is the whole number zero.
pub open spec fn value_or_empty(st: MachineState) -> Seq<char> {
    match st.value {
        None => seq![],
        Some(NumberValue::Int(n)) => if n == 0 {
            seq![]
        } else {
            decimal(n as nat)
        },
        Some(NumberValue::Text(s)) => s,
    }
}

/// `s` repeated `n` times.
pub open spec fn repeat(s: Seq<char>, n: nat) -> Seq<char>
    decreases n,
{
    if n == 0 {
        seq![]
    } else {
        repeat(s, (n - 1) as nat) + s
    }
}

/// Whether `s` ends with the digit zero.
pub open spec fn ends_with_zero(s: Seq<char>) -> bool {
    s.len() > 0 && s.last() == '0'
}

/// Whether a whole number joins a following value of `ones`: a one-digit
/// value fills the units of a multiple of ten, a value from ten to nineteen
/// fills the last two digits of a multiple of a hundred.
pub open spec fn joins(v: u128, ones: u128) -> bool {
    (ones < 10 && v % 10 == 0) || (ones >= 10 && v % 100 == 0)
}

/// The digits of `ones` appended to a value, as one to nineteen does: after
/// a tens word, a digit takes the place of the tens word's final zero; `None`
/// where a sum overflows `u128`.
pub open spec fn append_ones(v: NumberValue, ones: u128, prev_is_ones: bool, prev_is_tens: bool) -> Option<NumberValue> {
    match v {
        NumberValue::Text(s) => if prev_is_tens && ones < 10 {
            Some(NumberValue::Text(s.drop_last() + decimal(ones as nat)))
        } else {
            Some(NumberValue::Text(s + decimal(ones as nat)))
        },
        NumberValue::Int(n) => if prev_is_ones {
            if prev_is_tens && ones < 10 {
                Some(NumberValue::Text(decimal(n as nat).drop_last() + decimal(ones as nat)))
            } else {
                Some(NumberValue::Text(decimal(n as nat) + decimal(ones as nat)))
            }
        } else if joins(n, ones) {
            if n + ones > u128::MAX {
                None
            } else {
                Some(NumberValue::Int((n + ones) as u128))
            }
        } else {
            Some(NumberValue::Text(decimal(n as nat) + decimal(ones as nat)))
        },
    }
}

/// The digits of a multiple of ten appended to a value.
pub open spec fn append_tens(v: NumberValue, tens: u128) -> Option<NumberValue> {
    match v {
        NumberValue::Text(s) => Some(NumberValue::Text(s + decimal(tens as nat))),
        NumberValue::Int(n) => if n % 100 == 0 {
            if n + tens > u128::MAX {
                None
            } else {
                Some(NumberValue::Int((n + tens) as u128))
            }
        } else {
            Some(NumberValue::Text(decimal(n as nat) + decimal(tens as nat)))
        },
    }
}

/// A whole number times a multiplier: the part below a thousand is
/// multiplied, the thousands are kept ("two thousand five hundred").
pub open spec fn multiplied(n: u128, multiplier: u128) -> int {
    (n / 1000 * 1000) as int + (n % 1000) as int * multiplier as int
}

/// Whether a value is text ending in a decimal point.
pub open spec fn continues_decimal(v: Option<NumberValue>) -> bool {
    v matches Some(NumberValue::Text(s)) && s.len() > 0 && s.last() == '.'
}

/// What a numeral word does: it continues a value ending in a decimal
/// point, and otherwise puts out the value and starts a new one.
pub open spec fn numeral_step(st: MachineState, cur: Seq<char>, has_prefix: bool, bare: Seq<char>) -> Option<MachineState> {
    if continues_decimal(st.value) {
        Some(with_value(st, NumberValue::Text(render(st.value.unwrap()) + cur)))
    } else {
        let st1 = flush(st);
        let st2 = if has_prefix {
            MachineState { prefix: Some(cur[0]), value: st1.value, out: st1.out }
        } else {
            st1
        };
        if dot_position(bare) is Some {
            Some(with_value(st2, NumberValue::Text(bare)))
        } else if digits_value(bare) > u128::MAX {
            None
        } else {
            Some(with_value(st2, NumberValue::Int(digits_value(bare) as u128)))
        }
    }
}

/// What one to nineteen does.
pub open spec fn ones_step(st: MachineState, ones: u128, prev_is_ones: bool, prev_is_tens: bool) -> Option<MachineState> {
    match st.value {
        None => Some(with_value(st, NumberValue::Int(ones))),
        Some(v) => match append_ones(v, ones, prev_is_ones, prev_is_tens) {
            Some(w) => Some(with_value(st, w)),
            None => None,
        },
    }
}

/// What an ordinal or plural of one to nineteen does: it completes the value
/// and puts it out with the suffix.
pub open spec fn ones_suffixed_step(st: MachineState, ones: u128, suffix: Seq<char>, prev_is_ones: bool, prev_is_tens: bool) -> Option<MachineState> {
    match st.value {
        None => Some(emit(st, decimal(ones as nat) + suffix)),
        Some(v) => match append_ones(v, ones, prev_is_ones, prev_is_tens) {
            Some(w) => Some(emit(st, render(w) + suffix)),
            None => None,
        },
    }
}

/// What a multiple of ten does.
pub open spec fn tens_step(st: MachineState, tens: u128) -> Option<MachineState> {
    match st.value {
        None => Some(with_value(st, NumberValue::Int(tens))),
        Some(v) => match append_tens(v, tens) {
            Some(w) => Some(with_value(st, w)),
            None => None,
        },
    }
}

/// What an ordinal or plural of a multiple of ten does.
pub open spec fn tens_suffixed_step(st: MachineState, tens: u128, suffix: Seq<char>) -> Option<MachineState> {
    match st.value {
        None => Some(emit(st, decimal(tens as nat) + suffix)),
        Some(v) => match append_tens(v, tens) {
            Some(w) => Some(emit(st, render(w) + suffix)),
            None => None,
        },
    }
}

/// What a multiplier does.
pub open spec fn multiplier_step(st: MachineState, m: u128) -> Option<MachineState> {
    match st.value {
        None => Some(with_value(st, NumberValue::Int(m))),
        Some(NumberValue::Text(s)) => match scaled_decimal(s, m) {
            Some(p) => Some(with_value(st, NumberValue::Int(p))),
            None => Some(with_value(flush(st), NumberValue::Int(m))),
        },
        Some(NumberValue::Int(n)) => if n == 0 {
            Some(st)
        } else if multiplied(n, m) > u128::MAX {
            None
        } else {
            Some(with_value(st, NumberValue::Int(multiplied(n, m) as u128)))
        },
    }
}

/// What an ordinal or plural of a multiplier does.
pub open spec fn multiplier_suffixed_step(st: MachineState, m: u128, suffix: Seq<char>) -> Option<MachineState> {
    match st.value {
        None => Some(emit(st, decimal(m as nat) + suffix)),
        Some(NumberValue::Text(s)) => match scaled_decimal(s, m) {
            Some(p) => Some(emit(st, decimal(p as nat) + suffix)),
            None => Some(emit(flush(st), decimal(m as nat) + suffix)),
        },
        Some(NumberValue::Int(n)) => if multiplied(n, m) > u128::MAX {
            None
        } else {
            Some(emit(st, decimal(multiplied(n, m) as nat) + suffix))
        },
    }
}

/// What a sign word ("minus", "plus") does: it becomes the prefix of a
/// number that follows, and stays a word otherwise.
pub open spec fn preceding_step(st: MachineState, cur: Seq<char>, p: char, number_follows: bool) -> MachineState {
    let st1 = flush(st);
    if number_follows {
        MachineState { prefix: Some(p), value: st1.value, out: st1.out }
    } else {
        emit(st1, cur)
    }
}

/// What a currency word ("dollars") does: it becomes the prefix of the
/// number before it, and stays a word where there is none.
pub open spec fn following_step(st: MachineState, cur: Seq<char>, p: char) -> MachineState {
    if st.value is Some {
        flush(MachineState { prefix: Some(p), value: st.value, out: st.out })
    } else {
        emit(st, cur)
    }
}

/// What "percent", or "per" before "cent", does; the flag says that the
/// next word is consumed.
pub open spec fn percent_step(st: MachineState, cur: Seq<char>, next: Option<Seq<char>>) -> (MachineState, bool) {
    match st.value {
        Some(v) => if cur == "percent"@ {
            (emit(st, render(v) + "%"@), false)
        } else if next == Some("cent"@) {
            (emit(st, render(v) + "%"@), true)
        } else {
            (emit(emit(st, render(v)), cur), false)
        },
        None => (emit(st, cur), false),
    }
}

/// What "and", "double", "triple" and "point" do; the flag says that the
/// next word is consumed.
pub open spec fn special_step(st: MachineState, cur: Seq<char>, prev: Option<Seq<char>>, next: Option<Seq<char>>) -> (MachineState, bool) {
    let next_in_words = next matches Some(n) && is_number_word(n);
    let next_numeric = next matches Some(n) && is_numeric(n);
    let next_ones = match next {
        Some(n) => ones_value(n),
        None => None,
    };
    let next_zero = next matches Some(n) && is_zero_word(n);
    if !next_in_words && !next_numeric {
        (emit(flush(st), cur), false)
    } else if cur == "and"@ {
        if prev matches Some(p) && multiplier_value(p) is Some {
            (st, false)
        } else {
            (emit(flush(st), cur), false)
        }
    } else if cur == "double"@ || cur == "triple"@ {
        if next_ones is Some || next_zero {
            let repeats: nat = if cur == "double"@ { 2 } else { 3 };
            let ones: u128 = match next_ones {
                Some(o) => o,
                None => 0,
            };
            (with_value(st, NumberValue::Text(value_or_empty(st) + repeat(decimal(ones as nat), repeats))), true)
        } else {
            (emit(flush(st), cur), false)
        }
    } else if cur == "point"@ && ((next matches Some(n) && is_decimal_word(n)) || next_numeric) {
        (with_value(st, NumberValue::Text(value_or_empty(st) + "."@)), false)
    } else {
        (st, false)
    }
}

/// A step that never consumes the next word.
pub open spec fn no_skip(r: Option<MachineState>) -> Option<(MachineState, bool)> {
    match r {
        Some(st) => Some((st, false)),
        None => None,
    }
}

/// What the word at `idx` does to the machine, given its neighbours; `None`
/// where a number overflows `u128`.
pub open spec fn step(st: MachineState, words: Seq<Seq<char>>, idx: int) -> Option<(MachineState, bool)> {
    let cur = words[idx];
    let prev = if idx > 0 { Some(words[idx - 1]) } else { None };
    let next = if idx + 1 < words.len() { Some(words[idx + 1]) } else { None };
    let has_prefix = cur.len() > 0 && is_prefix_symbol(cur[0]);
    let bare = if has_prefix { cur.drop_first() } else { cur };
    let prev_is_ones = prev matches Some(p) && ones_value(p) is Some;
    let prev_is_tens = prev matches Some(p) && tens_value(p) is Some;
    let number_follows = next matches Some(n) && (is_number_word(n) || is_numeric(n));
    if is_numeric(bare) {
        no_skip(numeral_step(st, cur, has_prefix, bare))
    } else if !is_number_word(cur) {
        Some((emit(flush(st), cur), false))
    } else if is_zero_word(cur) {
        Some((with_value(st, NumberValue::Text(value_or_empty(st) + "0"@)), false))
    } else if let Some(ones) = ones_value(cur) {
        no_skip(ones_step(st, ones, prev_is_ones, prev_is_tens))
    } else if let Some((ones, suffix)) = ones_suffixed(cur) {
        no_skip(ones_suffixed_step(st, ones, suffix, prev_is_ones, prev_is_tens))
    } else if let Some(tens) = tens_value(cur) {
        no_skip(tens_step(st, tens))
    } else if let Some((tens, suffix)) = tens_suffixed(cur) {
        no_skip(tens_suffixed_step(st, tens, suffix))
    } else if let Some(m) = multiplier_value(cur) {
        no_skip(multiplier_step(st, m))
    } else if let Some((m, suffix)) = multiplier_suffixed(cur) {
        no_skip(multiplier_suffixed_step(st, m, suffix))
    } else if let Some(p) = preceding_prefixer(cur) {
        Some((preceding_step(st, cur, p, number_follows), false))
    } else if let Some(p) = following_prefixer(cur) {
        Some((following_step(st, cur, p), false))
    } else if cur == "per"@ || cur == "percent"@ {
        Some(percent_step(st, cur, next))
    } else {
        Some(special_step(st, cur, prev, next))
    }
}

/// Runs the machine over the words from `idx` on; `skip` says that the word
/// at `idx` was consumed by the one before it.
pub open spec fn run_from(words: Seq<Seq<char>>, idx: int, st: MachineState, skip: bool) -> Option<MachineState>
    decreases words.len() - idx,
{
    if idx < 0 || idx >= words.len() {
        Some(st)
    } else if skip {
        run_from(words, idx + 1, st, false)
    } else {
        match step(st, words, idx) {
            Some((st2, sk)) => run_from(words, idx + 1, st2, sk),
            None => None,
        }
    }
}

/// The words with spelled-out numbers turned into digits; `None` where a
/// number overflows `u128`.
pub open spec fn convert_number_words(words: Seq<Seq<char>>) -> Option<Seq<Seq<char>>> {
    match run_from(words, 0, initial_state(), false) {
        Some(st) => Some(flush(st).out),
        None => None,
    }
}

// ---------------------------------------------------------------------------
// The number machine: its implementation
// ---------------------------------------------------------------------------
/// The character sequences of a list of words.
pub open spec fn views(ws: Seq<Vec<char>>) -> Seq<Seq<char>> {
    ws.map_values(|w: Vec<char>| w@)
}

enum Value {
    Int(u128),
    Text(Vec<char>),
}

impl View for Value {
    type V = NumberValue;

    closed spec fn view(&self) -> NumberValue {
        match self {
            Value::Int(n) => NumberValue::Int(*n),
            Value::Text(s) => NumberValue::Text(s@),
        }
    }
}

spec fn value_view(v: Option<Value>) -> Option<NumberValue> {
    match v {
        Some(x) => Some(x@),
        None => None,
    }
}

struct Machine {
    prefix: Option<char>,
    value: Option<Value>,
    out: Vec<Vec<char>>,
}

impl View for Machine {
    type V = MachineState;

    closed spec fn view(&self) -> MachineState {
        MachineState { prefix: self.prefix, value: value_view(self.value), out: views(self.out@) }
    }
}

spec fn machine_view(m: Option<Machine>) -> Option<MachineState> {
    match m {
        Some(x) => Some(x@),
        None => None,
    }
}

fn render_value(v: &Value) -> (r: Vec<char>)
    ensures
        r@ == render(v@),
{
    match v {
        Value::Int(n) => decimal_chars(*n),
        Value::Text(s) => concat(s.as_slice(), &[]),
    }
}

impl Machine {
    fn new() -> (m: Machine)
        ensures
            m@ == initial_state(),
    {
        let m = Machine { prefix: None, value: None, out: Vec::new() };
        assert(m@.out =~= seq![]);
        m
    }

    fn emit(self, result: Vec<char>) -> (r: Machine)
        ensures
            r@ == emit(self@, result@),
    {
        let mut out = self.out;
        let ghost before = out@;
        let word = match self.prefix {
            Some(p) => {
                let mut head: Vec<char> = Vec::new();
                head.push(p);
                assert(head@ =~= seq![p]);
                concat(head.as_slice(), result.as_slice())
            },
            None => result,
        };
        out.push(word);
        assert(views(out@) =~= views(before).push(word@));
        Machine { prefix: None, value: None, out }
    }

    fn flush(self) -> (r: Machine)
        ensures
            r@ == flush(self@),
    {
        match &self.value {
            Some(v) => {
                let text = render_value(v);
                self.emit(text)
            },
            None => self,
        }
    }

    fn with_value(self, v: Value) -> (r: Machine)
        ensures
            r@ == with_value(self@, v@),
    {
        Machine { prefix: self.prefix, value: Some(v), out: self.out }
    }

    fn value_or_empty(&self) -> (s: Vec<char>)
        ensures
            s@ == value_or_empty(self@),
    {
        match &self.value {
            None => Vec::new(),
            Some(Value::Int(n)) => if *n == 0 {
                Vec::new()
            } else {
                decimal_chars(*n)
            },
            Some(Value::Text(t)) => concat(t.as_slice(), &[]),
        }
    }
}

fn append_ones_to(v: Value, ones: u128, prev_is_ones: bool, prev_is_tens: bool) -> (r: Option<Value>)
    requires
        prev_is_tens ==> ends_in_zero(v@),
    ensures
        value_view(r) == append_ones(v@, ones, prev_is_ones, prev_is_tens),
{
    let digits = decimal_chars(ones);
    match v {
        Value::Text(s) => if prev_is_tens && ones < 10 {
            let head = crate::text::chars_between(s.as_slice(), 0, s.len() - 1);
            assert(head@ =~= s@.drop_last());
            Some(Value::Text(concat(head.as_slice(), digits.as_slice())))
        } else {
            Some(Value::Text(concat(s.as_slice(), digits.as_slice())))
        },
        Value::Int(n) => if prev_is_ones {
            let d = decimal_chars(n);
            if prev_is_tens && ones < 10 {
                proof {
                    lemma_decimal_digits(n as nat);
                }
                let head = crate::text::chars_between(d.as_slice(), 0, d.len() - 1);
                assert(head@ =~= d@.drop_last());
                Some(Value::Text(concat(head.as_slice(), digits.as_slice())))
            } else {
                Some(Value::Text(concat(d.as_slice(), digits.as_slice())))
            }
        } else if (ones < 10 && n % 10 == 0) || (ones >= 10 && n % 100 == 0) {
            match n.checked_add(ones) {
                Some(t) => Some(Value::Int(t)),
                None => None,
            }
        } else {
            let d = decimal_chars(n);
            Some(Value::Text(concat(d.as_slice(), digits.as_slice())))
        },
    }
}

fn append_tens_to(v: Value, tens: u128) -> (r: Option<Value>)
    ensures
        value_view(r) == append_tens(v@, tens),
{
    let digits = decimal_chars(tens);
    match v {
        Value::Text(s) => Some(Value::Text(concat(s.as_slice(), digits.as_slice()))),
        Value::Int(n) => if n % 100 == 0 {
            match n.checked_add(tens) {
                Some(t) => Some(Value::Int(t)),
                None => None,
            }
        } else {
            let d = decimal_chars(n);
            Some(Value::Text(concat(d.as_slice(), digits.as_slice())))
        },
    }
}

/// `n` times `m` as the multiplier words compute it, where that fits in `u128`.
fn multiply(n: u128, m: u128) -> (r: Option<u128>)
    ensures
        r is Some <==> multiplied(n, m) <= u128::MAX,
        r matches Some(p) ==> p == multiplied(n, m),
{
    let before = n / 1000 * 1000;
    let residual = n % 1000;
    match residual.checked_mul(m) {
        Some(t) => before.checked_add(t),
        None => {
            assert(multiplied(n, m) > u128::MAX) by {
                assert(before >= 0);
            }
            None
        },
    }
}

fn numeral_step_exec(m: Machine, cur: &[char], has_prefix: bool, bare: &[char]) -> (r: Option<Machine>)
    requires
        has_prefix ==> cur@.len() > 0,
        is_numeric(bare@),
    ensures
        machine_view(r) == numeral_step(m@, cur@, has_prefix, bare@),
{
    let cont = match &m.value {
        Some(Value::Text(t)) => t.len() > 0 && t[t.len() - 1] == '.',
        _ => false,
    };
    if cont {
        let joined = match &m.value {
            Some(Value::Text(t)) => concat(t.as_slice(), cur),
            _ => Vec::new(),
        };
        return Some(m.with_value(Value::Text(joined)));
    }
    let m1 = m.flush();
    let m2 = if has_prefix {
        Machine { prefix: Some(cur[0]), value: m1.value, out: m1.out }
    } else {
        m1
    };
    match find_char(bare, '.') {
        Some(_) => {
            let t = concat(bare, &[]);
            Some(m2.with_value(Value::Text(t)))
        },
        None => match parse_digits(bare) {
            Some(n) => Some(m2.with_value(Value::Int(n))),
            None => None,
        },
    }
}

fn ones_step_exec(m: Machine, ones: u128, prev_is_ones: bool, prev_is_tens: bool) -> (r: Option<Machine>)
    requires
        prev_is_tens ==> (m@.value matches Some(v) && ends_in_zero(v)),
    ensures
        machine_view(r) == ones_step(m@, ones, prev_is_ones, prev_is_tens),
{
    let Machine { prefix, value, out } = m;
    match value {
        None => Some(Machine { prefix, value: Some(Value::Int(ones)), out }),
        Some(v) => match append_ones_to(v, ones, prev_is_ones, prev_is_tens) {
            Some(w) => Some(Machine { prefix, value: Some(w), out }),
            None => None,
        },
    }
}

fn ones_suffixed_step_exec(m: Machine, ones: u128, suffix: &str, prev_is_ones: bool, prev_is_tens: bool) -> (r: Option<Machine>)
    requires
        prev_is_tens ==> (m@.value matches Some(v) && ends_in_zero(v)),
    ensures
        machine_view(r) == ones_suffixed_step(m@, ones, suffix@, prev_is_ones, prev_is_tens),
{
    let Machine { prefix, value, out } = m;
    match value {
        None => {
            let d = decimal_chars(ones);
            let text = concat_str(d.as_slice(), suffix);
            Some(Machine { prefix, value: None, out }.emit(text))
        },
        Some(v) => match append_ones_to(v, ones, prev_is_ones, prev_is_tens) {
            Some(w) => {
                let r = render_value(&w);
                let text = concat_str(r.as_slice(), suffix);
                Some(Machine { prefix, value: Some(w), out }.emit(text))
            },
            None => None,
        },
    }
}

fn tens_step_exec(m: Machine, tens: u128) -> (r: Option<Machine>)
    ensures
        machine_view(r) == tens_step(m@, tens),
{
    let Machine { prefix, value, out } = m;
    match value {
        None => Some(Machine { prefix, value: Some(Value::Int(tens)), out }),
        Some(v) => match append_tens_to(v, tens) {
            Some(w) => Some(Machine { prefix, value: Some(w), out }),
            None => None,
        },
    }
}

fn tens_suffixed_step_exec(m: Machine, tens: u128, suffix: &str) -> (r: Option<Machine>)
    ensures
        machine_view(r) == tens_suffixed_step(m@, tens, suffix@),
{
    let Machine { prefix, value, out } = m;
    match value {
        None => {
            let d = decimal_chars(tens);
            let text = concat_str(d.as_slice(), suffix);
            Some(Machine { prefix, value: None, out }.emit(text))
        },
        Some(v) => match append_tens_to(v, tens) {
            Some(w) => {
                let r = render_value(&w);
                let text = concat_str(r.as_slice(), suffix);
                Some(Machine { prefix, value: Some(w), out }.emit(text))
            },
            None => None,
        },
    }
}

fn multiplier_step_exec(m: Machine, mult: u128) -> (r: Option<Machine>)
    ensures
        machine_view(r) == multiplier_step(m@, mult),
{
    match &m.value {
        None => Some(m.with_value(Value::Int(mult))),
        Some(Value::Text(t)) => match scale_decimal(t.as_slice(), mult) {
            Some(p) => Some(m.with_value(Value::Int(p))),
            None => Some(m.flush().with_value(Value::Int(mult))),
        },
        Some(Value::Int(n)) => {
            let n = *n;
            if n == 0 {
                Some(m)
            } else {
                match multiply(n, mult) {
                    Some(p) => Some(m.with_value(Value::Int(p))),
                    None => None,
                }
            }
        },
    }
}

fn multiplier_suffixed_step_exec(m: Machine, mult: u128, suffix: &str) -> (r: Option<Machine>)
    ensures
        machine_view(r) == multiplier_suffixed_step(m@, mult, suffix@),
{
    match &m.value {
        None => {
            let d = decimal_chars(mult);
            Some(m.emit(concat_str(d.as_slice(), suffix)))
        },
        Some(Value::Text(t)) => match scale_decimal(t.as_slice(), mult) {
            Some(p) => {
                let d = decimal_chars(p);
                Some(m.emit(concat_str(d.as_slice(), suffix)))
            },
            None => {
                let d = decimal_chars(mult);
                Some(m.flush().emit(concat_str(d.as_slice(), suffix)))
            },
        },
        Some(Value::Int(n)) => match multiply(*n, mult) {
            Some(p) => {
                let d = decimal_chars(p);
                Some(m.emit(concat_str(d.as_slice(), suffix)))
            },
            None => None,
        },
    }
}

fn preceding_step_exec(m: Machine, cur: &[char], p: char, number_follows: bool) -> (r: Machine)
    ensures
        r@ == preceding_step(m@, cur@, p, number_follows),
{
    let m1 = m.flush();
    if number_follows {
        Machine { prefix: Some(p), value: m1.value, out: m1.out }
    } else {
        m1.emit(concat(cur, &[]))
    }
}

fn following_step_exec(m: Machine, cur: &[char], p: char) -> (r: Machine)
    ensures
        r@ == following_step(m@, cur@, p),
{
    if m.value.is_some() {
        Machine { prefix: Some(p), value: m.value, out: m.out }.flush()
    } else {
        m.emit(concat(cur, &[]))
    }
}

fn percent_step_exec(m: Machine, cur: &[char], next: Option<&Vec<char>>) -> (r: (Machine, bool))
    ensures
        (r.0@, r.1) == percent_step(
            m@,
            cur@,
            match next {
                Some(n) => Some(n@),
                None => None,
            },
        ),
{
    let next_is_cent = match next {
        Some(n) => word_is(n.as_slice(), "cent"),
        None => false,
    };
    match &m.value {
        Some(v) => {
            let text = render_value(v);
            if word_is(cur, "percent") {
                (m.emit(concat_str(text.as_slice(), "%")), false)
            } else if next_is_cent {
                (m.emit(concat_str(text.as_slice(), "%")), true)
            } else {
                (m.emit(text).emit(concat(cur, &[])), false)
            }
        },
        None => (m.emit(concat(cur, &[])), false),
    }
}

spec fn opt_view(w: Option<&Vec<char>>) -> Option<Seq<char>> {
    match w {
        Some(x) => Some(x@),
        None => None,
    }
}

/// `s` repeated `n` times.
fn repeat_chars(s: &[char], n: usize) -> (r: Vec<char>)
    ensures
        r@ == repeat(s@, n as nat),
{
    let mut r: Vec<char> = Vec::new();
    let mut i: usize = 0;
    while i < n
        invariant
            i <= n,
            r@ == repeat(s@, i as nat),
        decreases n - i,
    {
        r = concat(r.as_slice(), s);
        i = i + 1;
    }
    r
}

fn special_step_exec(m: Machine, cur: &[char], prev: Option<&Vec<char>>, next: Option<&Vec<char>>) -> (r: (Machine, bool))
    ensures
        (r.0@, r.1) == special_step(m@, cur@, opt_view(prev), opt_view(next)),
{
    let next_in_words = match next {
        Some(n) => number_word(n.as_slice()),
        None => false,
    };
    let next_numeric = match next {
        Some(n) => numeric(n.as_slice()),
        None => false,
    };
    let next_ones = match next {
        Some(n) => ones_value_of(n.as_slice()),
        None => None,
    };
    let next_zero = match next {
        Some(n) => is_zero(n.as_slice()),
        None => false,
    };
    let next_decimal = match next {
        Some(n) => decimal_word(n.as_slice()),
        None => false,
    };
    let prev_multiplier = match prev {
        Some(p) => multiplier_value_of(p.as_slice()).is_some(),
        None => false,
    };
    if !next_in_words && !next_numeric {
        (m.flush().emit(concat(cur, &[])), false)
    } else if word_is(cur, "and") {
        if prev_multiplier {
            (m, false)
        } else {
            (m.flush().emit(concat(cur, &[])), false)
        }
    } else if word_is(cur, "double") || word_is(cur, "triple") {
        if next_ones.is_some() || next_zero {
            let repeats: usize = if word_is(cur, "double") {
                2
            } else {
                3
            };
            let ones: u128 = match next_ones {
                Some(o) => o,
                None => 0,
            };
            let head = m.value_or_empty();
            let digits = decimal_chars(ones);
            let run = repeat_chars(digits.as_slice(), repeats);
            let text = concat(head.as_slice(), run.as_slice());
            (m.with_value(Value::Text(text)), true)
        } else {
            (m.flush().emit(concat(cur, &[])), false)
        }
    } else if word_is(cur, "point") && (next_decimal || next_numeric) {
        let head = m.value_or_empty();
        let text = concat_str(head.as_slice(), ".");
        (m.with_value(Value::Text(text)), false)
    } else {
        (m, false)
    }
}

fn no_skip_exec(r: Option<Machine>) -> (s: Option<(Machine, bool)>)
    ensures
        match s {
            Some((m, sk)) => no_skip(machine_view(r)) == Some((m@, sk)),
            None => no_skip(machine_view(r)) is None,
        },
{
    match r {
        Some(m) => Some((m, false)),
        None => None,
    }
}

/// What the word at `idx` does to the machine.
fn step_exec(m: Machine, words: &[Vec<char>], idx: usize) -> (r: Option<(Machine, bool)>)
    requires
        idx < words@.len(),
        tens_invariant(m@, views(words@), idx as int, false),
    ensures
        match r {
            Some((m2, sk)) => step(m@, views(words@), idx as int) == Some((m2@, sk)),
            None => step(m@, views(words@), idx as int) is None,
        },
{
    let ghost ws = views(words@);
    let cur = words[idx].as_slice();
    let prev: Option<&Vec<char>> = if idx > 0 {
        Some(&words[idx - 1])
    } else {
        None
    };
    let next: Option<&Vec<char>> = if idx + 1 < words.len() {
        Some(&words[idx + 1])
    } else {
        None
    };
    assert(cur@ == ws[idx as int]);
    assert(opt_view(prev) == (if idx > 0 { Some(ws[idx - 1]) } else { None }));
    assert(opt_view(next) == (if idx + 1 < ws.len() { Some(ws[idx + 1]) } else { None }));
    let has_prefix = cur.len() > 0 && prefix_symbol(cur[0]);
    let bare_vec = if has_prefix {
        crate::text::chars_between(cur, 1, cur.len())
    } else {
        concat(cur, &[])
    };
    assert(has_prefix ==> bare_vec@ =~= cur@.drop_first());
    let bare = bare_vec.as_slice();
    let prev_is_ones = match prev {
        Some(p) => ones_value_of(p.as_slice()).is_some(),
        None => false,
    };
    let prev_is_tens = match prev {
        Some(p) => tens_value_of(p.as_slice()).is_some(),
        None => false,
    };
    let number_follows = match next {
        Some(n) => number_word(n.as_slice()) || numeric(n.as_slice()),
        None => false,
    };
    if numeric(bare) {
        no_skip_exec(numeral_step_exec(m, cur, has_prefix, bare))
    } else if !number_word(cur) {
        Some((m.flush().emit(concat(cur, &[])), false))
    } else if is_zero(cur) {
        let head = m.value_or_empty();
        let text = concat_str(head.as_slice(), "0");
        Some((m.with_value(Value::Text(text)), false))
    } else if let Some(ones) = ones_value_of(cur) {
        no_skip_exec(ones_step_exec(m, ones, prev_is_ones, prev_is_tens))
    } else if let Some((ones, suffix)) = ones_suffixed_of(cur) {
        no_skip_exec(ones_suffixed_step_exec(m, ones, suffix, prev_is_ones, prev_is_tens))
    } else if let Some(tens) = tens_value_of(cur) {
        no_skip_exec(tens_step_exec(m, tens))
    } else if let Some((tens, suffix)) = tens_suffixed_of(cur) {
        no_skip_exec(tens_suffixed_step_exec(m, tens, suffix))
    } else if let Some(mult) = multiplier_value_of(cur) {
        no_skip_exec(multiplier_step_exec(m, mult))
    } else if let Some((mult, suffix)) = multiplier_suffixed_of(cur) {
        no_skip_exec(multiplier_suffixed_step_exec(m, mult, suffix))
    } else if let Some(p) = preceding_prefixer_of(cur) {
        Some((preceding_step_exec(m, cur, p, number_follows), false))
    } else if let Some(p) = following_prefixer_of(cur) {
        Some((following_step_exec(m, cur, p), false))
    } else if word_is(cur, "per") || word_is(cur, "percent") {
        Some(percent_step_exec(m, cur, next))
    } else {
        Some(special_step_exec(m, cur, prev, next))
    }
}

/// Turns spelled-out numbers in a list of words into digits ("twenty one"
/// becomes "21", "two point five million dollars" becomes "$2500000").
/// Returns `None` where a number overflows `u128`.
pub fn convert_words(words: &[Vec<char>]) -> (r: Option<Vec<Vec<char>>>)
    ensures
        match r {
            Some(out) => convert_number_words(views(words@)) == Some(views(out@)),
            None => convert_number_words(views(words@)) is None,
        },
        r matches Some(out) ==> out@.len() <= words@.len(),
{
    proof {
        lemma_convert_never_lengthens(views(words@));
    }
    let mut m = Machine::new();
    let mut skip = false;
    let mut idx: usize = 0;
    while idx < words.len()
        invariant
            idx <= words@.len(),
            run_from(views(words@), 0, initial_state(), false) == run_from(
                views(words@),
                idx as int,
                m@,
                skip,
            ),
            tens_invariant(m@, views(words@), idx as int, skip),
        decreases words@.len() - idx,
    {
        if skip {
            skip = false;
        } else {
            let ghost before = m@;
            match step_exec(m, words, idx) {
                Some((m2, sk)) => {
                    proof {
                        lemma_step_keeps_tens_invariant(before, views(words@), idx as int);
                    }
                    m = m2;
                    skip = sk;
                },
                None => {
                    return None;
                },
            }
        }
        idx = idx + 1;
    }
    let m = m.flush();
    Some(m.out)
}

} // verus!

verus! {

// ---------------------------------------------------------------------------
// Laws
// ---------------------------------------------------------------------------
/// Reading back a decimal numeral gives the number it was written from.
pub proof fn lemma_decimal_round_trip(n: nat)
    ensures
        all_digits(decimal(n)),
        digits_value(decimal(n)) == n,
    decreases n,
{
    lemma_decimal_digits(n);
    let d = decimal(n);
    let last = n % 10;
    assert(digit_value(digit_char(last)) == last);
    assert(digits_value(d) == digits_value(d.drop_last()) * 10 + digit_value(d.last()));
    if n < 10 {
        assert(d.drop_last() =~= seq![]);
        assert(d.last() == digit_char(n));
        assert(n % 10 == n);
    } else {
        lemma_decimal_round_trip(n / 10);
        assert(d.drop_last() =~= decimal(n / 10));
        assert(d.last() == digit_char(last));
        assert(n == (n / 10) * 10 + n % 10);
    }
}

/// Whether a word passes through the number normalizer untouched: it is no
/// number word and, without a leading sign or currency symbol, no numeral.
pub open spec fn is_plain_word(w: Seq<char>) -> bool {
    let bare = if w.len() > 0 && is_prefix_symbol(w[0]) { w.drop_first() } else { w };
    !is_number_word(w) && !is_numeric(bare)
}

/// The machine copies plain words to its output.
proof fn lemma_run_plain(words: Seq<Seq<char>>, idx: int)
    requires
        0 <= idx <= words.len(),
        forall|i: int| 0 <= i < words.len() ==> is_plain_word(#[trigger] words[i]),
    ensures
        run_from(
            words,
            idx,
            MachineState { prefix: None, value: None, out: words.take(idx) },
            false,
        ) == Some(MachineState { prefix: None, value: None, out: words }),
    decreases words.len() - idx,
{
    let st = MachineState { prefix: None, value: None, out: words.take(idx) };
    if idx == words.len() {
        assert(words.take(idx) =~= words);
    } else {
        assert(is_plain_word(words[idx]));
        assert(words.take(idx).push(words[idx]) =~= words.take(idx + 1));
        assert(step(st, words, idx) == Some(
            (MachineState { prefix: None, value: None, out: words.take(idx + 1) }, false),
        ));
        lemma_run_plain(words, idx + 1);
    }
}

/// Text without numbers passes through the number machine unchanged.
pub proof fn lemma_plain_words_unchanged(words: Seq<Seq<char>>)
    requires
        forall|i: int| 0 <= i < words.len() ==> is_plain_word(#[trigger] words[i]),
    ensures
        convert_number_words(words) == Some(words),
{
    assert(words.take(0) =~= seq![]);
    lemma_run_plain(words, 0);
}

} // verus!

verus! {

// ---------------------------------------------------------------------------
// The vocabulary's words are told apart
// ---------------------------------------------------------------------------
/// What a search of a name table finds: a position holding the word, or
/// none at all from where it started.
proof fn lemma_position_from(names: Seq<Seq<char>>, w: Seq<char>, i: int)
    requires
        0 <= i,
    ensures
        position_from(names, w, i) matches Some(k) ==> i <= k < names.len() && names[k] == w,
        position_from(names, w, i) is None ==> forall|j: int| i <= j < names.len() ==> names[j] != w,
    decreases names.len() - i,
{
    if i < names.len() && names[i] != w {
        lemma_position_from(names, w, i + 1);
    }
}

/// A word ending in neither "s" nor "h" is no plural or ordinal of one to
/// nineteen.
proof fn lemma_ones_suffixed_from_none(w: Seq<char>, i: int)
    requires
        0 <= i,
        w.len() > 0,
        w.last() != 's',
        w.last() != 'h',
    ensures
        ones_suffixed_from(w, i) is None,
    decreases 19 - i,
{
    if i < 19 {
        lemma_ones_suffix_shape(i);
        lemma_ones_suffixed_from_none(w, i + 1);
    }
}

/// The position of a character that a search finds is within the sequence.
proof fn lemma_char_position_from(s: Seq<char>, c: char, i: int)
    requires
        0 <= i,
    ensures
        char_position_from(s, c, i) matches Some(k) ==> i <= k < s.len() && s[k] == c,
    decreases s.len() - i,
{
    if i < s.len() && s[i] != c {
        lemma_char_position_from(s, c, i + 1);
    }
}

/// Each name of a multiple of ten starts with a lowercase letter and ends
/// with "y".
proof fn lemma_tens_name_shape(i: int)
    requires
        0 <= i < 8,
    ensures
        tens_names()[i].len() >= 5,
        'a' <= tens_names()[i][0] && tens_names()[i][0] <= 'z',
        tens_names()[i].last() == 'y',
{
    if i == 0 {
        reveal_strlit("twenty");
        assert(tens_names()[i] == "twenty"@);
    } else if i == 1 {
        reveal_strlit("thirty");
        assert(tens_names()[i] == "thirty"@);
    } else if i == 2 {
        reveal_strlit("forty");
        assert(tens_names()[i] == "forty"@);
    } else if i == 3 {
        reveal_strlit("fifty");
        assert(tens_names()[i] == "fifty"@);
    } else if i == 4 {
        reveal_strlit("sixty");
        assert(tens_names()[i] == "sixty"@);
    } else if i == 5 {
        reveal_strlit("seventy");
        assert(tens_names()[i] == "seventy"@);
    } else if i == 6 {
        reveal_strlit("eighty");
        assert(tens_names()[i] == "eighty"@);
    } else {
        reveal_strlit("ninety");
        assert(tens_names()[i] == "ninety"@);
    }
}

/// Each name of one to nineteen starts with a lowercase letter other than
/// "z", and none ends with "y", "d" or "on".
proof fn lemma_ones_name_shape(j: int)
    requires
        0 <= j < 19,
    ensures
        ones_names()[j].len() >= 3,
        'a' <= ones_names()[j][0] && ones_names()[j][0] <= 'y',
        ones_names()[j].last() != 'y',
        ones_names()[j].last() != 'd',
        ones_names()[j].last() == 'n' ==> ones_names()[j][ones_names()[j].len() - 2] != 'o',
{
    if j == 0 {
        reveal_strlit("one");
        assert(ones_names()[j] == "one"@);
    } else if j == 1 {
        reveal_strlit("two");
        assert(ones_names()[j] == "two"@);
    } else if j == 2 {
        reveal_strlit("three");
        assert(ones_names()[j] == "three"@);
    } else if j == 3 {
        reveal_strlit("four");
        assert(ones_names()[j] == "four"@);
    } else if j == 4 {
        reveal_strlit("five");
        assert(ones_names()[j] == "five"@);
    } else if j == 5 {
        reveal_strlit("six");
        assert(ones_names()[j] == "six"@);
    } else if j == 6 {
        reveal_strlit("seven");
        assert(ones_names()[j] == "seven"@);
    } else if j == 7 {
        reveal_strlit("eight");
        assert(ones_names()[j] == "eight"@);
    } else if j == 8 {
        reveal_strlit("nine");
        assert(ones_names()[j] == "nine"@);
    } else if j == 9 {
        reveal_strlit("ten");
        assert(ones_names()[j] == "ten"@);
    } else if j == 10 {
        reveal_strlit("eleven");
        assert(ones_names()[j] == "eleven"@);
    } else if j == 11 {
        reveal_strlit("twelve");
        assert(ones_names()[j] == "twelve"@);
    } else if j == 12 {
        reveal_strlit("thirteen");
        assert(ones_names()[j] == "thirteen"@);
    } else if j == 13 {
        reveal_strlit("fourteen");
        assert(ones_names()[j] == "fourteen"@);
    } else if j == 14 {
        reveal_strlit("fifteen");
        assert(ones_names()[j] == "fifteen"@);
    } else if j == 15 {
        reveal_strlit("sixteen");
        assert(ones_names()[j] == "sixteen"@);
    } else if j == 16 {
        reveal_strlit("seventeen");
        assert(ones_names()[j] == "seventeen"@);
    } else if j == 17 {
        reveal_strlit("eighteen");
        assert(ones_names()[j] == "eighteen"@);
    } else {
        reveal_strlit("nineteen");
        assert(ones_names()[j] == "nineteen"@);
    }
}

/// The plurals of one to nineteen end with "s", their ordinals with "h".
proof fn lemma_ones_suffix_shape(j: int)
    requires
        0 <= j < 19,
    ensures
        ones_plural(j).len() > 0 && ones_plural(j).last() == 's',
        ones_ordinal(j).len() > 0 && ones_ordinal(j).last() == 'h',
{
    reveal_strlit("sixes");
    reveal_strlit("s");
    reveal_strlit("h");
    reveal_strlit("th");
    lemma_ones_name_shape(j);
}

/// The names of the multiples of ten are no other kind of number word: no
/// numeral, no zero, no name of one to nineteen, none of its ordinals or
/// plurals, and not "cent".
pub proof fn lemma_tens_word(w: Seq<char>)
    requires
        tens_value(w) is Some,
    ensures
        w.len() > 0,
        !is_prefix_symbol(w[0]),
        !is_numeric(w),
        !is_zero_word(w),
        ones_value(w) is None,
        ones_suffixed(w) is None,
        w != "cent"@,
{
    lemma_position_from(tens_names(), w, 0);
    let i = position(tens_names(), w)->Some_0;
    lemma_tens_name_shape(i);
    assert(w == tens_names()[i]);
    assert(!is_digit(w[0]));
    lemma_char_position_from(w, '.', 0);
    if let Some(k) = dot_position(w) {
        if k > 0 {
            assert(w.take(k)[0] == w[0]);
        }
    }
    reveal_strlit("o");
    reveal_strlit("oh");
    reveal_strlit("zero");
    reveal_strlit("cent");
    reveal_strlit("zeroth");
    reveal_strlit("first");
    reveal_strlit("second");
    reveal_strlit("third");
    reveal_strlit("fifth");
    reveal_strlit("twelfth");
    assert forall|j: int| 0 <= j < 19 implies ones_names()[j] != w by {
        lemma_ones_name_shape(j);
    }
    lemma_position_from(ones_names(), w, 0);
    lemma_ones_suffixed_from_none(w, 0);
}

/// Each multiplier name starts with a lowercase letter other than "z", has
/// at least seven letters, and ends with "d" or "on".
proof fn lemma_multiplier_name_shape(i: int)
    requires
        0 <= i < 12,
    ensures
        multiplier_names()[i].len() >= 7,
        'a' <= multiplier_names()[i][0] && multiplier_names()[i][0] <= 'y',
        multiplier_names()[i].last() == 'd' || (multiplier_names()[i].last() == 'n'
            && multiplier_names()[i][multiplier_names()[i].len() - 2] == 'o'),
{
    if i == 0 {
        reveal_strlit("hundred");
        assert(multiplier_names()[i] == "hundred"@);
    } else if i == 1 {
        reveal_strlit("thousand");
        assert(multiplier_names()[i] == "thousand"@);
    } else if i == 2 {
        reveal_strlit("million");
        assert(multiplier_names()[i] == "million"@);
    } else if i == 3 {
        reveal_strlit("billion");
        assert(multiplier_names()[i] == "billion"@);
    } else if i == 4 {
        reveal_strlit("trillion");
        assert(multiplier_names()[i] == "trillion"@);
    } else if i == 5 {
        reveal_strlit("quadrillion");
        assert(multiplier_names()[i] == "quadrillion"@);
    } else if i == 6 {
        reveal_strlit("quintillion");
        assert(multiplier_names()[i] == "quintillion"@);
    } else if i == 7 {
        reveal_strlit("sextillion");
        assert(multiplier_names()[i] == "sextillion"@);
    } else if i == 8 {
        reveal_strlit("septillion");
        assert(multiplier_names()[i] == "septillion"@);
    } else if i == 9 {
        reveal_strlit("octillion");
        assert(multiplier_names()[i] == "octillion"@);
    } else if i == 10 {
        reveal_strlit("nonillion");
        assert(multiplier_names()[i] == "nonillion"@);
    } else {
        reveal_strlit("decillion");
        assert(multiplier_names()[i] == "decillion"@);
    }
}

/// A word ending in neither "s" nor "h" is no plural or ordinal of a
/// multiple of ten.
proof fn lemma_tens_suffixed_from_none(w: Seq<char>, i: int)
    requires
        0 <= i,
        w.len() > 0,
        w.last() != 's',
        w.last() != 'h',
    ensures
        tens_suffixed_from(w, i) is None,
    decreases 8 - i,
{
    if i < 8 {
        lemma_tens_name_shape(i);
        let t = tens_names()[i];
        reveal_strlit("ies");
        reveal_strlit("ieth");
        assert(replace_char(t, 'y', "ies"@) == replace_char(t.drop_last(), 'y', "ies"@) + "ies"@);
        assert(replace_char(t, 'y', "ieth"@) == replace_char(t.drop_last(), 'y', "ieth"@)
            + "ieth"@);
        lemma_tens_suffixed_from_none(w, i + 1);
    }
}

/// A multiplier name is no other kind of number word: no numeral, no sign or
/// currency symbol, no zero, no name of one to nineteen or of a multiple of
/// ten, and none of their ordinals or plurals.
proof fn lemma_multiplier_word(w: Seq<char>)
    requires
        multiplier_value(w) is Some,
    ensures
        w.len() > 0,
        !is_prefix_symbol(w[0]),
        !is_numeric(w),
        !is_zero_word(w),
        ones_value(w) is None,
        ones_suffixed(w) is None,
        tens_value(w) is None,
        tens_suffixed(w) is None,
        is_number_word(w),
{
    lemma_position_from(multiplier_names(), w, 0);
    let i = position(multiplier_names(), w)->Some_0;
    lemma_multiplier_name_shape(i);
    assert(w == multiplier_names()[i]);
    assert(!is_digit(w[0]));
    lemma_char_position_from(w, '.', 0);
    if let Some(k) = dot_position(w) {
        if k > 0 {
            assert(w.take(k)[0] == w[0]);
        }
    }
    reveal_strlit("o");
    reveal_strlit("oh");
    reveal_strlit("zero");
    reveal_strlit("zeroth");
    reveal_strlit("first");
    reveal_strlit("second");
    reveal_strlit("third");
    reveal_strlit("fifth");
    reveal_strlit("twelfth");
    assert forall|j: int| 0 <= j < 19 implies ones_names()[j] != w by {
        lemma_ones_name_shape(j);
    }
    lemma_position_from(ones_names(), w, 0);
    lemma_ones_suffixed_from_none(w, 0);
    assert forall|j: int| 0 <= j < 8 implies tens_names()[j] != w by {
        lemma_tens_name_shape(j);
    }
    lemma_position_from(tens_names(), w, 0);
    lemma_tens_suffixed_from_none(w, 0);
}

/// A name of one to nineteen is no other kind of word the machine reads
/// first: no numeral, no sign or currency symbol, no zero.
proof fn lemma_ones_word(w: Seq<char>)
    requires
        ones_value(w) is Some,
    ensures
        w.len() > 0,
        !is_prefix_symbol(w[0]),
        !is_numeric(w),
        !is_zero_word(w),
        is_number_word(w),
{
    lemma_position_from(ones_names(), w, 0);
    let i = position(ones_names(), w)->Some_0;
    lemma_ones_name_shape(i);
    assert(w == ones_names()[i]);
    assert(!is_digit(w[0]));
    lemma_char_position_from(w, '.', 0);
    if let Some(k) = dot_position(w) {
        if k > 0 {
            assert(w.take(k)[0] == w[0]);
        }
    }
    reveal_strlit("o");
    reveal_strlit("oh");
    reveal_strlit("zero");
}

/// After a whole number, a name of one to nineteen that does not follow
/// another such name adds its value to the number where it fills the
/// number's last places: a digit after a multiple of ten, ten to nineteen
/// after a multiple of a hundred ("two thousand" then "fifteen" makes 2015,
/// "one hundred" then "twelve" makes 112).
pub proof fn lemma_ones_word_fills_whole_number(
    st: MachineState,
    words: Seq<Seq<char>>,
    idx: int,
    n: u128,
    ones: u128,
)
    requires
        0 <= idx < words.len(),
        st.value == Some(NumberValue::Int(n)),
        ones_value(words[idx]) == Some(ones),
        idx == 0 || ones_value(words[idx - 1]) is None,
        n + ones <= u128::MAX,
    ensures
        1 <= ones <= 19,
        ones < 10 && n % 10 == 0 ==> step(st, words, idx) == Some(
            (with_value(st, NumberValue::Int((n + ones) as u128)), false),
        ),
        ones >= 10 && n % 100 == 0 ==> step(st, words, idx) == Some(
            (with_value(st, NumberValue::Int((n + ones) as u128)), false),
        ),
{
    lemma_ones_word(words[idx]);
    lemma_position_from(ones_names(), words[idx], 0);
}

/// A name of one to nineteen with no number under construction starts one
/// with its value.
pub proof fn lemma_ones_word_starts_number(st: MachineState, words: Seq<Seq<char>>, idx: int)
    requires
        0 <= idx < words.len(),
        ones_value(words[idx]) is Some,
        st.value is None,
    ensures
        step(st, words, idx) == Some(
            (with_value(st, NumberValue::Int(ones_value(words[idx])->Some_0)), false),
        ),
{
    lemma_ones_word(words[idx]);
}

/// A multiplier starts a number with its own value; after a whole number
/// other than zero it multiplies the part of the number below a thousand and
/// keeps the thousands: "two" then "thousand" makes 2000, and "two thousand
/// five" then "hundred" makes 2500.
pub proof fn lemma_multiplier_word_scales(st: MachineState, words: Seq<Seq<char>>, idx: int)
    requires
        0 <= idx < words.len(),
        multiplier_value(words[idx]) is Some,
    ensures
        ({
            let m = multiplier_value(words[idx])->Some_0;
            &&& m >= 100
            &&& st.value is None ==> step(st, words, idx) == Some(
                (with_value(st, NumberValue::Int(m)), false),
            )
            &&& (st.value matches Some(NumberValue::Int(n)) && n > 0 && (n - n % 1000) + (n % 1000)
                * m <= u128::MAX) ==> step(st, words, idx) == Some(
                (
                    with_value(
                        st,
                        NumberValue::Int(
                            ((st.value->Some_0->Int_0 - st.value->Some_0->Int_0 % 1000) + (
                            st.value->Some_0->Int_0 % 1000) * m) as u128,
                        ),
                    ),
                    false,
                ),
            )
        }),
{
    lemma_multiplier_word(words[idx]);
    lemma_position_from(multiplier_names(), words[idx], 0);
    let i = position(multiplier_names(), words[idx])->Some_0;
    assert(multiplier_at(i) >= 100);
    if let Some(NumberValue::Int(n)) = st.value {
        assert(n / 1000 * 1000 == n - n % 1000);
    }
}

/// A name of a multiple of ten starts a number with its value, and after a
/// whole number that is a multiple of a hundred it adds its value to it
/// ("three hundred" then "forty" makes 340).
pub proof fn lemma_tens_word_fills_hundreds(st: MachineState, words: Seq<Seq<char>>, idx: int)
    requires
        0 <= idx < words.len(),
        tens_value(words[idx]) is Some,
    ensures
        ({
            let tens = tens_value(words[idx])->Some_0;
            &&& 20 <= tens <= 90 && tens % 10 == 0
            &&& st.value is None ==> step(st, words, idx) == Some(
                (with_value(st, NumberValue::Int(tens)), false),
            )
            &&& (st.value matches Some(NumberValue::Int(n)) && n % 100 == 0 && n + tens
                <= u128::MAX) ==> step(st, words, idx) == Some(
                (with_value(st, NumberValue::Int((st.value->Some_0->Int_0 + tens) as u128)), false),
            )
        }),
{
    lemma_tens_word(words[idx]);
    lemma_position_from(tens_names(), words[idx], 0);
}

} // verus!

verus! {

// ---------------------------------------------------------------------------
// What the machine keeps between words
// ---------------------------------------------------------------------------
/// Whether a value's last digit is zero.
pub open spec fn ends_in_zero(v: NumberValue) -> bool {
    match v {
        NumberValue::Int(n) => n % 10 == 0,
        NumberValue::Text(s) => ends_with_zero(s),
    }
}

/// What the machine keeps between words: a word that is to be skipped is no
/// tens word, and right after a tens word the number under construction
/// ends in zero, so that a following digit can take that zero's place.
pub open spec fn tens_invariant(st: MachineState, words: Seq<Seq<char>>, idx: int, skip: bool) -> bool {
    &&& skip ==> 0 <= idx < words.len() && tens_value(words[idx]) is None
    &&& (!skip && 0 < idx <= words.len() && tens_value(words[idx - 1]) is Some) ==> (st.value matches Some(
        v,
    ) && ends_in_zero(v))
}

/// The numeral of a multiple of ten ends in zero.
proof fn lemma_decimal_ends_zero(n: nat)
    requires
        n % 10 == 0,
    ensures
        ends_with_zero(decimal(n)),
{
    lemma_decimal_digits(n);
}

/// Every step of the machine keeps `tens_invariant`.
pub proof fn lemma_step_keeps_tens_invariant(st: MachineState, words: Seq<Seq<char>>, idx: int)
    requires
        0 <= idx < words.len(),
        tens_invariant(st, words, idx, false),
        step(st, words, idx) is Some,
    ensures
        tens_invariant(step(st, words, idx)->Some_0.0, words, idx + 1, step(st, words, idx)->Some_0.1),
{
    let cur = words[idx];
    let (st2, sk) = step(st, words, idx)->Some_0;
    if idx + 1 < words.len() && tens_value(words[idx + 1]) is Some {
        lemma_tens_word(words[idx + 1]);
    }
    if tens_value(cur) is Some {
        lemma_tens_word(cur);
        let tens = tens_value(cur)->Some_0;
        lemma_position_from(tens_names(), cur, 0);
        assert(tens % 10 == 0);
        lemma_decimal_ends_zero(tens as nat);
        assert(cur.drop_first().len() >= 0);
        match st.value {
            Some(NumberValue::Int(n)) => {
                if n % 100 == 0 {
                    assert((n + tens) % 10 == 0);
                }
            },
            _ => {},
        }
    }
}

} // verus!

verus! {

// ---------------------------------------------------------------------------
// The machine never puts out more words than it reads
// ---------------------------------------------------------------------------
/// The words the machine has put out, counting a pending number or prefix
/// as one more.
pub open spec fn tally(st: MachineState) -> nat {
    st.out.len() + if st.value is Some || st.prefix is Some { 1nat } else { 0nat }
}

/// Flushing never raises the tally; putting out a word or starting a value
/// raises it by at most one.
proof fn lemma_tally_ops(st: MachineState, r: Seq<char>, v: NumberValue)
    ensures
        tally(flush(st)) <= tally(st),
        tally(emit(st, r)) == st.out.len() + 1,
        tally(with_value(st, v)) == st.out.len() + 1,
        tally(emit(flush(st), r)) <= tally(st) + 1,
        tally(with_value(flush(st), v)) <= tally(st) + 1,
{
}

/// One step raises the tally by at most one.
pub proof fn lemma_step_tally(st: MachineState, words: Seq<Seq<char>>, idx: int)
    requires
        0 <= idx < words.len(),
        step(st, words, idx) is Some,
    ensures
        tally(step(st, words, idx)->Some_0.0) <= tally(st) + 1,
{
    let cur = words[idx];
    lemma_tally_ops(st, cur, NumberValue::Int(0));
    if let Some(v) = st.value {
        lemma_tally_ops(emit(st, render(v)), cur, v);
        lemma_tally_ops(flush(st), cur, v);
    }
}

/// Over the rest of the words, the tally never exceeds the number of words.
proof fn lemma_run_tally(words: Seq<Seq<char>>, idx: int, st: MachineState, skip: bool)
    requires
        0 <= idx <= words.len(),
        tally(st) <= idx,
    ensures
        run_from(words, idx, st, skip) matches Some(fin) ==> tally(fin) <= words.len(),
    decreases words.len() - idx,
{
    if idx < words.len() {
        if skip {
            lemma_run_tally(words, idx + 1, st, false);
        } else if let Some((st2, sk)) = step(st, words, idx) {
            lemma_step_tally(st, words, idx);
            lemma_run_tally(words, idx + 1, st2, sk);
        }
    }
}

/// The number machine never puts out more words than it reads: every
/// output word accounts for at least one input word.
pub proof fn lemma_convert_never_lengthens(words: Seq<Seq<char>>)
    ensures
        convert_number_words(words) matches Some(out) ==> out.len() <= words.len(),
{
    lemma_run_tally(words, 0, initial_state(), false);
    if let Some(st) = run_from(words, 0, initial_state(), false) {
        lemma_tally_ops(st, seq![], NumberValue::Int(0));
    }
}

} // verus!
