//! English and language-agnostic text normalizers applied to transcripts
//! before scoring: lowercasing, removal of bracketed text and fillers,
//! contraction and title expansion, symbol and diacritic removal, spelling
//! standardisation, and the number normalizer that writes spelled-out
//! numbers as digits.

use unicode_properties::GeneralCategoryGroup;
use vstd::prelude::*;

use crate::numbers::{
    concat, convert_number_words, convert_words, decimal_word, is_decimal_word,
    multiplier_value, multiplier_value_of, views,
};
use crate::text::{
    chars_of, collapse_whitespace, collapse_whitespace_of, is_white_space,
    lemma_collapse_single_spaced, lemma_trimmed_single_spaced, single_spaced, split_whitespace,
    split_words, string_from_chars, trim_chars, trimmed,
};

verus! {

// ---------------------------------------------------------------------------
// Regular expressions
// ---------------------------------------------------------------------------
/// Whether `pattern` is accepted by `regex::Regex::new`.
pub uninterp spec fn regex_compiles(pattern: Seq<char>) -> bool;

/// What `regex::Regex::replace_all` gives for the regex compiled from
/// `pattern`, the haystack, and a replacement string in which `$n` stands for
/// the `n`-th capture group.
pub uninterp spec fn regex_replaced(pattern: Seq<char>, haystack: Seq<char>, replacement: Seq<char>) -> Seq<char>;

/// The pieces of the haystack between the matches of `pattern`, as
/// `regex::Regex::split` yields them.
pub uninterp spec fn regex_split(pattern: Seq<char>, haystack: Seq<char>) -> Seq<Seq<char>>;

/// The first three capture groups of each match of `pattern` in the
/// haystack, in order, as `regex::Regex::captures_iter` yields the matches
/// (a group that did not take part counting as empty).
pub uninterp spec fn regex_captures(pattern: Seq<char>, haystack: Seq<char>) -> Seq<Seq<Seq<char>>>;

/// Whether `pattern` compiles.
///
/// Calls `regex::Regex::new`; the contract names whether it succeeds.
#[verifier::external_body]
fn pattern_compiles(pattern: &str) -> (b: bool)
    ensures
        b == regex_compiles(pattern@),
{
    regex::Regex::new(pattern).is_ok()
}

/// Replaces every match of `pattern` in `haystack` by `replacement`.
///
/// Calls `regex::Regex::new`, which the `requires` says succeeds, and
/// `regex::Regex::replace_all`; the contract names the result as a function
/// of the three strings and claims nothing more of it.
#[verifier::external_body]
fn replace_all(pattern: &str, haystack: &str, replacement: &str) -> (r: String)
    requires
        regex_compiles(pattern@),
    ensures
        r@ == regex_replaced(pattern@, haystack@, replacement@),
{
    regex::Regex::new(pattern).unwrap().replace_all(haystack, replacement).into_owned()
}

/// Splits `haystack` at the matches of `pattern`.
///
/// Calls `regex::Regex::new`, which the `requires` says succeeds, and
/// `regex::Regex::split`; the contract names the pieces as a function of the
/// two strings and claims nothing more of them.
#[verifier::external_body]
fn split_by(pattern: &str, haystack: &str) -> (r: Vec<String>)
    requires
        regex_compiles(pattern@),
    ensures
        r@.map_values(|x: String| x@) == regex_split(pattern@, haystack@),
{
    regex::Regex::new(pattern).unwrap().split(haystack).map(|x| x.to_string()).collect()
}

/// The first three capture groups of every match of `pattern` in
/// `haystack`.
///
/// Calls `regex::Regex::new`, which the `requires` says succeeds, and
/// `regex::Regex::captures_iter`, picking groups 1 to 3 of each match. The
/// contract names the groups and claims what the documentation of
/// `captures_iter` and `split` gives: `captures_iter` yields the same matches
/// as `find_iter`, and `split` yields the pieces between those matches, so
/// there is one piece more than there are matches.
#[verifier::external_body]
fn capture_groups(pattern: &str, haystack: &str) -> (r: Vec<Vec<String>>)
    requires
        regex_compiles(pattern@),
    ensures
        r@.map_values(|g: Vec<String>| g@.map_values(|x: String| x@)) == regex_captures(
            pattern@,
            haystack@,
        ),
        r@.len() + 1 == regex_split(pattern@, haystack@).len(),
        forall|k: int| 0 <= k < r@.len() ==> (#[trigger] r@[k])@.len() == 3,
{
    regex::Regex::new(pattern).unwrap().captures_iter(haystack).map(|c| {
        (1..4).map(|i| c.get(i).map_or("", |m| m.as_str()).to_string()).collect()
    }).collect()
}

/// The pieces joined with the replacements between them: the first piece,
/// the first replacement, the second piece, and so on.
pub open spec fn interleave(pieces: Seq<Seq<char>>, reps: Seq<Seq<char>>) -> Seq<char>
    decreases reps.len(),
{
    if reps.len() == 0 {
        if pieces.len() > 0 {
            pieces[0]
        } else {
            seq![]
        }
    } else {
        interleave(pieces.take(reps.len() as int), reps.drop_last()) + reps.last() + pieces[reps.len() as int]
    }
}

/// The haystack with each match of `pattern` replaced by the text that
/// `currency_spec` makes of its first three capture groups: the pieces
/// between the matches, with the replacements between them.
pub open spec fn currency_replaced(pattern: Seq<char>, haystack: Seq<char>, with_amount: bool) -> Seq<char> {
    interleave(
        regex_split(pattern, haystack),
        regex_captures(pattern, haystack).map_values(
            |g: Seq<Seq<char>>| currency_spec(with_amount, g[0], g[1], g[2]),
        ),
    )
}

/// Replaces every match of `pattern` in `haystack` by the text that
/// `currency_text` makes of its capture groups.
fn replace_currency(pattern: &str, haystack: &str, with_amount: bool) -> (r: String)
    requires
        regex_compiles(pattern@),
    ensures
        r@ == currency_replaced(pattern@, haystack@, with_amount),
{
    let pieces = split_by(pattern, haystack);
    let groups = capture_groups(pattern, haystack);
    let ghost pv = pieces@.map_values(|x: String| x@);
    let ghost gv = groups@.map_values(|g: Vec<String>| g@.map_values(|x: String| x@));
    let ghost reps = gv.map_values(
        |g: Seq<Seq<char>>| currency_spec(with_amount, g[0], g[1], g[2]),
    );
    let n = groups.len();
    let mut out = chars_of(&pieces[0]);
    proof {
        assert(pv[0] == pieces@[0]@);
        assert(reps.take(0).len() == 0);
    }
    let mut k: usize = 0;
    while k < n
        invariant
            k <= n,
            n == groups@.len(),
            pieces@.len() == n + 1,
            pv == pieces@.map_values(|x: String| x@),
            gv == groups@.map_values(|g: Vec<String>| g@.map_values(|x: String| x@)),
            reps == gv.map_values(|g: Seq<Seq<char>>| currency_spec(with_amount, g[0], g[1], g[2])),
            forall|q: int| 0 <= q < groups@.len() ==> (#[trigger] groups@[q])@.len() == 3,
            out@ == interleave(pv.take(k + 1), reps.take(k as int)),
        decreases n - k,
    {
        let g = &groups[k];
        assert(g@.len() == 3);
        let rep = currency_text(with_amount, &g[0], &g[1], &g[2]);
        proof {
            assert(gv[k as int] == g@.map_values(|x: String| x@));
            assert(g@[0]@ == gv[k as int][0]);
            assert(g@[1]@ == gv[k as int][1]);
            assert(g@[2]@ == gv[k as int][2]);
            assert(rep@ == reps[k as int]);
            assert(pv.take(k + 2).take(k + 1) =~= pv.take(k + 1));
            assert(reps.take(k + 1).drop_last() =~= reps.take(k as int));
            assert(pv.take(k + 2)[k + 1] == pieces@[k + 1]@);
        }
        let rc = chars_of(&rep);
        let pc = chars_of(&pieces[k + 1]);
        out = concat(concat(out.as_slice(), rc.as_slice()).as_slice(), pc.as_slice());
        k = k + 1;
    }
    proof {
        assert(pv.take(n + 1) =~= pv);
        assert(reps.take(n as int) =~= reps);
    }
    string_from_chars(out.as_slice())
}

/// The text that replaces an amount of money, from the first three capture
/// groups of its match: with `with_amount` (groups: currency symbol, whole
/// amount, cents), the symbol, the amount, a point and the cents padded to
/// two digits ("$2.05"); without it (group: cents), the cent sign and the
/// cents without a leading zero ("¢5").
pub open spec fn currency_spec(with_amount: bool, first: Seq<char>, second: Seq<char>, third: Seq<char>) -> Seq<char> {
    if with_amount {
        let padded = if third.len() == 1 { seq!['0'] + third } else { third };
        first + second + seq!['.'] + padded
    } else {
        let cents = if first.len() == 2 && first[0] == '0' { first.drop_first() } else { first };
        seq!['¢'] + cents
    }
}

/// The replacement text for an amount of money; see `currency_spec`.
pub fn currency_text(with_amount: bool, first: &str, second: &str, third: &str) -> (r: String)
    ensures
        r@ == currency_spec(with_amount, first@, second@, third@),
{
    let mut v: Vec<char> = Vec::new();
    if with_amount {
        let s = chars_of(first);
        let a = chars_of(second);
        let c = chars_of(third);
        let mut dot: Vec<char> = Vec::new();
        dot.push('.');
        assert(dot@ =~= seq!['.']);
        let head = concat(concat(s.as_slice(), a.as_slice()).as_slice(), dot.as_slice());
        if c.len() == 1 {
            let mut zero: Vec<char> = Vec::new();
            zero.push('0');
            assert(zero@ =~= seq!['0']);
            let padded = concat(zero.as_slice(), c.as_slice());
            v = concat(head.as_slice(), padded.as_slice());
        } else {
            v = concat(head.as_slice(), c.as_slice());
        }
    } else {
        let c = chars_of(first);
        v.push('¢');
        assert(v@ =~= seq!['¢']);
        if c.len() == 2 && c[0] == '0' {
            let rest = crate::text::chars_between(c.as_slice(), 1, 2);
            assert(rest@ =~= c@.drop_first());
            v = concat(v.as_slice(), rest.as_slice());
        } else {
            v = concat(v.as_slice(), c.as_slice());
        }
    }
    string_from_chars(v.as_slice())
}

// ---------------------------------------------------------------------------
// Unicode
// ---------------------------------------------------------------------------
/// What `str::to_lowercase` gives for `s`.
pub uninterp spec fn lowercase(s: Seq<char>) -> Seq<char>;

/// The compatibility decomposition (NFKD) of `s`.
pub uninterp spec fn nfkd(s: Seq<char>) -> Seq<char>;

/// The compatibility composition (NFKC) of `s`.
pub uninterp spec fn nfkc(s: Seq<char>) -> Seq<char>;

/// The groups of Unicode general categories.
#[derive(PartialEq, Eq, Structural, Clone, Copy, Debug)]
pub enum CategoryGroup {
    Letter,
    Mark,
    Number,
    Punctuation,
    Symbol,
    Separator,
    Other,
}

/// The group of the Unicode general category of `c`.
pub uninterp spec fn category_group(c: char) -> CategoryGroup;

/// Whether the Unicode general category of `c` is `Mn` (nonspacing mark).
pub uninterp spec fn nonspacing_mark(c: char) -> bool;

/// Lowercases a string.
///
/// Calls std's `str::to_lowercase`; the contract names the result.
#[verifier::external_body]
fn to_lowercase(s: &str) -> (r: String)
    ensures
        r@ == lowercase(s@),
{
    s.to_lowercase()
}

/// The NFKD decomposition of a string, as characters.
///
/// Calls `unicode_normalization::UnicodeNormalization::nfkd`; the contract
/// names the result.
#[verifier::external_body]
fn nfkd_chars(s: &str) -> (r: Vec<char>)
    ensures
        r@ == nfkd(s@),
{
    unicode_normalization::UnicodeNormalization::nfkd(s).collect()
}

/// The NFKC composition of a string, as characters.
///
/// Calls `unicode_normalization::UnicodeNormalization::nfkc`; the contract
/// names the result.
#[verifier::external_body]
fn nfkc_chars(s: &str) -> (r: Vec<char>)
    ensures
        r@ == nfkc(s@),
{
    unicode_normalization::UnicodeNormalization::nfkc(s).collect()
}

/// The general category group of `c`.
///
/// Calls `unicode_properties::UnicodeGeneralCategory::general_category_group`
/// and converts its variant; the contract names the result.
#[verifier::external_body]
fn group_of(c: char) -> (g: CategoryGroup)
    ensures
        g == category_group(c),
{
    match unicode_properties::UnicodeGeneralCategory::general_category_group(c) {
        GeneralCategoryGroup::Letter => CategoryGroup::Letter,
        GeneralCategoryGroup::Mark => CategoryGroup::Mark,
        GeneralCategoryGroup::Number => CategoryGroup::Number,
        GeneralCategoryGroup::Punctuation => CategoryGroup::Punctuation,
        GeneralCategoryGroup::Symbol => CategoryGroup::Symbol,
        GeneralCategoryGroup::Separator => CategoryGroup::Separator,
        GeneralCategoryGroup::Other => CategoryGroup::Other,
    }
}

/// Whether `c` is a nonspacing mark.
///
/// Calls `unicode_properties::UnicodeGeneralCategory::general_category` and
/// tells its `NonspacingMark` variant apart; the contract names the result.
#[verifier::external_body]
fn is_nonspacing_mark(c: char) -> (b: bool)
    ensures
        b == nonspacing_mark(c),
{
    matches!(
        unicode_properties::UnicodeGeneralCategory::general_category(c),
        unicode_properties::GeneralCategory::NonspacingMark
    )
}

} // verus!

verus! {

// ---------------------------------------------------------------------------
// Patterns
// ---------------------------------------------------------------------------
/// "and a half", which the number normalizer reads as a half.
pub const HALF: &'static str = r"\band\s+a\s+half\b";

/// A letter directly followed by a digit.
pub const LETTER_DIGIT: &'static str = r"([a-z])([0-9])";

/// A digit directly followed by a letter.
pub const DIGIT_LETTER: &'static str = r"([0-9])([a-z])";

/// A digit, whitespace and an ordinal or plural suffix.
pub const DIGIT_SUFFIX: &'static str = r"([0-9])\s+(st|nd|rd|th|s)\b";

/// An amount with cents ("$2 and ¢70").
pub const AMOUNT_WITH_CENTS: &'static str = r"([€£$])([0-9]+) (?:and )?¢([0-9]{1,2})\b";

/// An amount under one unit ("$0.36").
pub const CENTS_ONLY: &'static str = r"[€£$]0.([0-9]{1,2})\b";

/// A lone "1" or "1s".
pub const LONE_ONE: &'static str = r"\b1(s?)\b";

/// Text in angle or square brackets.
pub const BRACKETS: &'static str = r"[<\[][^>\]]*[>\]]";

/// Text in parentheses.
pub const PARENS: &'static str = r"\(([^)]+?)\)";

/// Hesitation fillers.
pub const FILLERS: &'static str = r"\b(hmm|mm|mhm|mmm|uh|um)\b";

/// Whitespace before an apostrophe.
pub const SPACE_APOSTROPHE: &'static str = r"\s+'";

/// A comma between digits.
pub const DIGIT_COMMAS: &'static str = r"(\d),(\d)";

/// A period not followed by a digit.
pub const PERIODS: &'static str = r"\.([^0-9]|$)";

/// A period or currency symbol not followed by a digit.
pub const SYMBOL_CLEANUP: &'static str = r"[.$¢€£]([^0-9])";

/// A percent sign not preceded by a digit.
pub const PERCENT_CLEANUP: &'static str = r"([^0-9])%";

/// The characters that the English normalizer keeps while removing symbols.
pub const KEPT_SYMBOLS: &'static str = ".%$¢€£";

/// The contraction and title patterns, in the order they are applied.
pub open spec fn replacer_patterns() -> Seq<Seq<char>> {
    seq![
        r"\bwon't\b"@,
        r"\bcan't\b"@,
        r"\blet's\b"@,
        r"\bain't\b"@,
        r"\by'all\b"@,
        r"\bwanna\b"@,
        r"\bgotta\b"@,
        r"\bgonna\b"@,
        r"\bi'ma\b"@,
        r"\bimma\b"@,
        r"\bwoulda\b"@,
        r"\bcoulda\b"@,
        r"\bshoulda\b"@,
        r"\bma'am\b"@,
        r"\bmr\b"@,
        r"\bmrs\b"@,
        r"\bst\b"@,
        r"\bdr\b"@,
        r"\bprof\b"@,
        r"\bcapt\b"@,
        r"\bgov\b"@,
        r"\bald\b"@,
        r"\bgen\b"@,
        r"\bsen\b"@,
        r"\brep\b"@,
        r"\bpres\b"@,
        r"\brev\b"@,
        r"\bhon\b"@,
        r"\basst\b"@,
        r"\bassoc\b"@,
        r"\blt\b"@,
        r"\bcol\b"@,
        r"\bjr\b"@,
        r"\bsr\b"@,
        r"\besq\b"@,
        r"'d been\b"@,
        r"'s been\b"@,
        r"'d gone\b"@,
        r"'s gone\b"@,
        r"'d done\b"@,
        r"'s got\b"@,
        r"n't\b"@,
        r"'re\b"@,
        r"'s\b"@,
        r"'d\b"@,
        r"'ll\b"@,
        r"'t\b"@,
        r"'ve\b"@,
        r"'m\b"@,
    ]
}

/// What each contraction and title pattern is replaced by.
pub open spec fn replacer_replacements() -> Seq<Seq<char>> {
    seq![
        "will not"@,
        "can not"@,
        "let us"@,
        "aint"@,
        "you all"@,
        "want to"@,
        "got to"@,
        "going to"@,
        "i am going to"@,
        "i am going to"@,
        "would have"@,
        "could have"@,
        "should have"@,
        "madam"@,
        "mister "@,
        "missus "@,
        "saint "@,
        "doctor "@,
        "professor "@,
        "captain "@,
        "governor "@,
        "alderman "@,
        "general "@,
        "senator "@,
        "representative "@,
        "president "@,
        "reverend "@,
        "honorable "@,
        "assistant "@,
        "associate "@,
        "lieutenant "@,
        "colonel "@,
        "junior "@,
        "senior "@,
        "esquire "@,
        " had been"@,
        " has been"@,
        " had gone"@,
        " has gone"@,
        " had done"@,
        " has got"@,
        " not"@,
        " are"@,
        " is"@,
        " would"@,
        " will"@,
        " not"@,
        " have"@,
        " am"@,
    ]
}

/// The number of contraction and title patterns.
pub const REPLACER_COUNT: usize = 49;

/// The contraction or title pattern at position `i`, and its replacement.
fn replacer(i: usize) -> (r: (&'static str, &'static str))
    requires
        i < REPLACER_COUNT,
    ensures
        r.0@ == replacer_patterns()[i as int],
        r.1@ == replacer_replacements()[i as int],
{
    match i {
        0 => (r"\bwon't\b", "will not"),
        1 => (r"\bcan't\b", "can not"),
        2 => (r"\blet's\b", "let us"),
        3 => (r"\bain't\b", "aint"),
        4 => (r"\by'all\b", "you all"),
        5 => (r"\bwanna\b", "want to"),
        6 => (r"\bgotta\b", "got to"),
        7 => (r"\bgonna\b", "going to"),
        8 => (r"\bi'ma\b", "i am going to"),
        9 => (r"\bimma\b", "i am going to"),
        10 => (r"\bwoulda\b", "would have"),
        11 => (r"\bcoulda\b", "could have"),
        12 => (r"\bshoulda\b", "should have"),
        13 => (r"\bma'am\b", "madam"),
        14 => (r"\bmr\b", "mister "),
        15 => (r"\bmrs\b", "missus "),
        16 => (r"\bst\b", "saint "),
        17 => (r"\bdr\b", "doctor "),
        18 => (r"\bprof\b", "professor "),
        19 => (r"\bcapt\b", "captain "),
        20 => (r"\bgov\b", "governor "),
        21 => (r"\bald\b", "alderman "),
        22 => (r"\bgen\b", "general "),
        23 => (r"\bsen\b", "senator "),
        24 => (r"\brep\b", "representative "),
        25 => (r"\bpres\b", "president "),
        26 => (r"\brev\b", "reverend "),
        27 => (r"\bhon\b", "honorable "),
        28 => (r"\basst\b", "assistant "),
        29 => (r"\bassoc\b", "associate "),
        30 => (r"\blt\b", "lieutenant "),
        31 => (r"\bcol\b", "colonel "),
        32 => (r"\bjr\b", "junior "),
        33 => (r"\bsr\b", "senior "),
        34 => (r"\besq\b", "esquire "),
        35 => (r"'d been\b", " had been"),
        36 => (r"'s been\b", " has been"),
        37 => (r"'d gone\b", " had gone"),
        38 => (r"'s gone\b", " has gone"),
        39 => (r"'d done\b", " had done"),
        40 => (r"'s got\b", " has got"),
        41 => (r"n't\b", " not"),
        42 => (r"'re\b", " are"),
        43 => (r"'s\b", " is"),
        44 => (r"'d\b", " would"),
        45 => (r"'ll\b", " will"),
        46 => (r"'t\b", " not"),
        47 => (r"'ve\b", " have"),
        _ => (r"'m\b", " am"),
    }
}

/// Whether the number normalizer's patterns compile.
pub open spec fn number_patterns_compile() -> bool {
    &&& regex_compiles(HALF@)
    &&& regex_compiles(LETTER_DIGIT@)
    &&& regex_compiles(DIGIT_LETTER@)
    &&& regex_compiles(DIGIT_SUFFIX@)
    &&& regex_compiles(AMOUNT_WITH_CENTS@)
    &&& regex_compiles(CENTS_ONLY@)
    &&& regex_compiles(LONE_ONE@)
}

/// Whether the patterns that both text normalizers use compile.
pub open spec fn basic_patterns_compile() -> bool {
    &&& regex_compiles(BRACKETS@)
    &&& regex_compiles(PARENS@)
}

/// Whether the English normalizer's patterns compile.
pub open spec fn english_patterns_compile() -> bool {
    &&& number_patterns_compile()
    &&& basic_patterns_compile()
    &&& regex_compiles(FILLERS@)
    &&& regex_compiles(SPACE_APOSTROPHE@)
    &&& regex_compiles(DIGIT_COMMAS@)
    &&& regex_compiles(PERIODS@)
    &&& regex_compiles(SYMBOL_CLEANUP@)
    &&& regex_compiles(PERCENT_CLEANUP@)
    &&& forall|i: int| 0 <= i < REPLACER_COUNT ==> regex_compiles(#[trigger] replacer_patterns()[i])
}

fn number_patterns_ok() -> (b: bool)
    ensures
        b == number_patterns_compile(),
{
    pattern_compiles(HALF) && pattern_compiles(LETTER_DIGIT) && pattern_compiles(DIGIT_LETTER)
        && pattern_compiles(DIGIT_SUFFIX) && pattern_compiles(AMOUNT_WITH_CENTS)
        && pattern_compiles(CENTS_ONLY) && pattern_compiles(LONE_ONE)
}

fn basic_patterns_ok() -> (b: bool)
    ensures
        b == basic_patterns_compile(),
{
    pattern_compiles(BRACKETS) && pattern_compiles(PARENS)
}

fn english_patterns_ok() -> (b: bool)
    ensures
        b == english_patterns_compile(),
{
    if !(number_patterns_ok() && basic_patterns_ok() && pattern_compiles(FILLERS)
        && pattern_compiles(SPACE_APOSTROPHE) && pattern_compiles(DIGIT_COMMAS)
        && pattern_compiles(PERIODS) && pattern_compiles(SYMBOL_CLEANUP)
        && pattern_compiles(PERCENT_CLEANUP)) {
        return false;
    }
    let mut i: usize = 0;
    while i < REPLACER_COUNT
        invariant
            i <= REPLACER_COUNT,
            forall|k: int| 0 <= k < i ==> regex_compiles(#[trigger] replacer_patterns()[k]),
        decreases REPLACER_COUNT - i,
    {
        let (p, _) = replacer(i);
        if !pattern_compiles(p) {
            return false;
        }
        i = i + 1;
    }
    true
}

// ---------------------------------------------------------------------------
// Joining words
// ---------------------------------------------------------------------------
/// The parts joined with `sep` between neighbours.
pub open spec fn join(parts: Seq<Seq<char>>, sep: Seq<char>) -> Seq<char>
    decreases parts.len(),
{
    if parts.len() == 0 {
        seq![]
    } else if parts.len() == 1 {
        parts[0]
    } else {
        join(parts.drop_last(), sep) + sep + parts.last()
    }
}

/// Joins words with single spaces.
fn join_words(parts: &[Vec<char>]) -> (r: Vec<char>)
    ensures
        r@ == join(views(parts@), seq![' ']),
{
    let mut r: Vec<char> = Vec::new();
    let mut space: Vec<char> = Vec::new();
    space.push(' ');
    assert(space@ =~= seq![' ']);
    let mut i: usize = 0;
    while i < parts.len()
        invariant
            i <= parts@.len(),
            space@ == seq![' '],
            r@ == join(views(parts@.take(i as int)), seq![' ']),
        decreases parts@.len() - i,
    {
        proof {
            assert(views(parts@.take(i + 1)).drop_last() =~= views(parts@.take(i as int)));
            assert(views(parts@.take(i + 1)).last() == parts@[i as int]@);
            if i == 0 {
                assert(views(parts@.take(1)) =~= seq![parts@[0]@]);
            }
        }
        if i == 0 {
            r = concat(parts[0].as_slice(), &[]);
        } else {
            r = concat(concat(r.as_slice(), space.as_slice()).as_slice(), parts[i].as_slice());
        }
        i = i + 1;
    }
    assert(parts@.take(parts@.len() as int) =~= parts@);
    r
}

} // verus!

verus! {

// ---------------------------------------------------------------------------
// The number normalizer
// ---------------------------------------------------------------------------
/// Whether "and a half" after `segment` is read as "point five": where the
/// segment ends in a word naming a digit position or a multiplier.
pub open spec fn half_becomes_point(segment: Seq<char>) -> bool {
    let ws = split_words(segment);
    let last = if ws.len() > 0 { ws.last() } else { seq![] };
    is_decimal_word(last) || multiplier_value(last) is Some
}

/// The pieces around each "and a half", for the first `k` pieces: blank
/// pieces are dropped, and between pieces the half is written "point five"
/// or "and a half".
pub open spec fn expand_halves(segments: Seq<Seq<char>>, k: nat) -> Seq<Seq<char>>
    decreases k,
{
    if k == 0 {
        seq![]
    } else {
        let before = expand_halves(segments, (k - 1) as nat);
        let i = k - 1;
        let seg = segments[i];
        if trimmed(seg).len() == 0 {
            before
        } else if i == segments.len() - 1 {
            before.push(seg)
        } else if half_becomes_point(seg) {
            before.push(seg).push("point five"@)
        } else {
            before.push(seg).push("and a half"@)
        }
    }
}

/// The text as the number normalizer prepares it: halves rewritten, letters
/// and digits separated, and ordinal suffixes joined to their digits.
pub open spec fn number_preprocessed(s: Seq<char>) -> Seq<char> {
    let segments = regex_split(HALF@, s);
    let s1 = join(expand_halves(segments, segments.len()), seq![' ']);
    let s2 = regex_replaced(LETTER_DIGIT@, s1, "$1 $2"@);
    let s3 = regex_replaced(DIGIT_LETTER@, s2, "$1 $2"@);
    regex_replaced(DIGIT_SUFFIX@, s3, "$1$2"@)
}

/// The text as the number normalizer finishes it: amounts with cents
/// written with a decimal point, amounts under one unit in cents, and a
/// lone "1" written "one".
pub open spec fn number_postprocessed(s: Seq<char>) -> Seq<char> {
    let s1 = currency_replaced(AMOUNT_WITH_CENTS@, s, true);
    let s2 = currency_replaced(CENTS_ONLY@, s1, false);
    regex_replaced(LONE_ONE@, s2, "one$1"@)
}

/// What the number normalizer makes of `text`; `None` where a number
/// overflows `u128`.
pub open spec fn english_numbers(text: Seq<char>) -> Option<Seq<char>> {
    match convert_number_words(split_words(number_preprocessed(text))) {
        Some(out) => Some(number_postprocessed(join(out, seq![' ']))),
        None => None,
    }
}

fn number_preprocess(s: &str) -> (r: String)
    requires
        number_patterns_compile(),
    ensures
        r@ == number_preprocessed(s@),
{
    let segments = split_by(HALF, s);
    let ghost segs = segments@.map_values(|x: String| x@);
    let n = segments.len();
    let mut results: Vec<Vec<char>> = Vec::new();
    let mut i: usize = 0;
    while i < n
        invariant
            i <= n,
            n == segments@.len(),
            segs == segments@.map_values(|x: String| x@),
            views(results@) == expand_halves(segs, i as nat),
        decreases n - i,
    {
        let seg = chars_of(&segments[i]);
        assert(seg@ == segs[i as int]);
        let ghost before = results@;
        if trim_chars(seg.as_slice()).len() == 0 {
        } else if i == n - 1 {
            results.push(seg);
            assert(views(results@) =~= views(before).push(segs[i as int]));
        } else {
            let words = split_whitespace(seg.as_slice());
            let last: Vec<char> = if words.len() > 0 {
                concat(words[words.len() - 1].as_slice(), &[])
            } else {
                Vec::new()
            };
            proof {
                let ws = split_words(seg@);
                assert(ws == words@.map_values(|w: Vec<char>| w@));
                if ws.len() > 0 {
                    assert(ws.last() == words@[words@.len() - 1]@);
                }
                assert(last@ =~= (if ws.len() > 0 { ws.last() } else { seq![] }));
            }
            let point = decimal_word(last.as_slice()) || multiplier_value_of(last.as_slice()).is_some();
            results.push(seg);
            let filler = if point {
                chars_of("point five")
            } else {
                chars_of("and a half")
            };
            results.push(filler);
            assert(views(results@) =~= views(before).push(segs[i as int]).push(filler@));
        }
        i = i + 1;
    }
    let joined = join_words(results.as_slice());
    let s1 = string_from_chars(joined.as_slice());
    let s2 = replace_all(LETTER_DIGIT, &s1, "$1 $2");
    let s3 = replace_all(DIGIT_LETTER, &s2, "$1 $2");
    replace_all(DIGIT_SUFFIX, &s3, "$1$2")
}

fn number_postprocess(s: &str) -> (r: String)
    requires
        number_patterns_compile(),
    ensures
        r@ == number_postprocessed(s@),
{
    let s1 = replace_currency(AMOUNT_WITH_CENTS, s, true);
    let s2 = replace_currency(CENTS_ONLY, &s1, false);
    replace_all(LONE_ONE, &s2, "one$1")
}

/// The number normalizer, or `None` where a number overflows.
fn english_numbers_of(text: &str) -> (r: Option<String>)
    requires
        number_patterns_compile(),
    ensures
        r is Some <==> english_numbers(text@) is Some,
        r matches Some(t) ==> english_numbers(text@) == Some(t@),
{
    let pre = number_preprocess(text);
    let pre_chars = chars_of(&pre);
    let words = split_whitespace(pre_chars.as_slice());
    assert(views(words@) == split_words(pre@));
    match convert_words(words.as_slice()) {
        Some(out) => {
            let joined = join_words(out.as_slice());
            let s = string_from_chars(joined.as_slice());
            Some(number_postprocess(&s))
        },
        None => None,
    }
}

/// Writes the spelled-out numbers of English text as digits: "two point
/// five million" becomes "2500000", "thirty first" becomes "31st", "two
/// dollars and seventy cents" becomes "$2.70", "double oh seven" becomes
/// "007".
///
/// Its patterns must compile, and no number in the text may overflow
/// `u128`; `try_normalize_english_numbers` checks both.
pub fn normalize_english_numbers(text: &str) -> (r: String)
    requires
        number_patterns_compile(),
        english_numbers(text@) is Some,
    ensures
        english_numbers(text@) == Some(r@),
{
    match english_numbers_of(text) {
        Some(t) => t,
        None => {
            proof {
                assert(false);
            }
            String::new()
        },
    }
}

/// The number normalizer, or `None` where its patterns do not compile or a
/// number in the text overflows `u128`.
pub fn try_normalize_english_numbers(text: &str) -> (r: Option<String>)
    ensures
        r is Some <==> number_patterns_compile() && english_numbers(text@) is Some,
        r matches Some(t) ==> english_numbers(text@) == Some(t@),
{
    if !number_patterns_ok() {
        return None;
    }
    match english_numbers_of(text) {
        Some(_) => Some(normalize_english_numbers(text)),
        None => None,
    }
}

} // verus!

verus! {

// ---------------------------------------------------------------------------
// Spelling
// ---------------------------------------------------------------------------
/// The map that a list of (word, standard spelling) entries describes; a
/// later entry for a word replaces an earlier one.
pub open spec fn entries_map(entries: Seq<(Seq<char>, Seq<char>)>) -> Map<Seq<char>, Seq<char>>
    decreases entries.len(),
{
    if entries.len() == 0 {
        Map::empty()
    } else {
        entries_map(entries.drop_last()).insert(entries.last().0, entries.last().1)
    }
}

/// The character sequences of a list of entries.
pub open spec fn entry_views(entries: Seq<(Vec<char>, Vec<char>)>) -> Seq<(Seq<char>, Seq<char>)> {
    entries.map_values(|e: (Vec<char>, Vec<char>)| (e.0@, e.1@))
}

/// A table of standard spellings: each word of the table is respelled as
/// the entry gives it ("mobilisation" as "mobilization").
pub struct SpellingMap {
    entries: Vec<(Vec<char>, Vec<char>)>,
}

impl View for SpellingMap {
    type V = Map<Seq<char>, Seq<char>>;

    closed spec fn view(&self) -> Map<Seq<char>, Seq<char>> {
        entries_map(entry_views(self.entries@))
    }
}

impl SpellingMap {
    /// An empty table.
    pub fn new() -> (m: SpellingMap)
        ensures
            m@ == Map::<Seq<char>, Seq<char>>::empty(),
    {
        let m = SpellingMap { entries: Vec::new() };
        assert(entry_views(m.entries@) =~= seq![]);
        m
    }

    /// Records that `word` is spelled `standard`, replacing an earlier entry.
    pub fn insert(&mut self, word: &str, standard: &str)
        ensures
            final(self)@ == old(self)@.insert(word@, standard@),
    {
        let ghost before = self.entries@;
        let w = chars_of(word);
        let s = chars_of(standard);
        self.entries.push((w, s));
        assert(entry_views(self.entries@).drop_last() =~= entry_views(before));
    }

    /// The standard spelling of `word`, if the table has one.
    pub fn get(&self, word: &[char]) -> (r: Option<Vec<char>>)
        ensures
            match r {
                Some(v) => self@.contains_key(word@) && self@[word@] == v@,
                None => !self@.contains_key(word@),
            },
    {
        let ghost es = entry_views(self.entries@);
        let mut i: usize = self.entries.len();
        assert(es.take(i as int) =~= es);
        while i > 0
            invariant
                i <= es.len(),
                es == entry_views(self.entries@),
                entries_map(es).contains_key(word@) == entries_map(es.take(i as int)).contains_key(word@),
                entries_map(es).contains_key(word@) ==> entries_map(es)[word@] == entries_map(es.take(i as int))[word@],
            decreases i,
        {
            assert(es.take(i as int).drop_last() =~= es.take(i - 1));
            assert(es.take(i as int).last() == es[i - 1]);
            let (k, v) = &self.entries[i - 1];
            if crate::text::chars_equal(k.as_slice(), word) {
                return Some(concat(v.as_slice(), &[]));
            }
            i = i - 1;
        }
        None
    }
}

/// `w` as the table spells it.
pub open spec fn respell_word(map: Map<Seq<char>, Seq<char>>, w: Seq<char>) -> Seq<char> {
    if map.contains_key(w) {
        map[w]
    } else {
        w
    }
}

/// The words of `text` respelled and joined with single spaces.
pub open spec fn respelled(text: Seq<char>, map: Map<Seq<char>, Seq<char>>) -> Seq<char> {
    join(split_words(text).map_values(|w: Seq<char>| respell_word(map, w)), seq![' '])
}

/// Replaces each word of `text` that the table lists by its standard
/// spelling, and joins the words with single spaces.
pub fn normalize_english_spelling(text: &str, spelling: &SpellingMap) -> (r: String)
    ensures
        r@ == respelled(text@, spelling@),
{
    let c = chars_of(text);
    let words = split_whitespace(c.as_slice());
    let ghost ws = split_words(text@);
    let ghost target = ws.map_values(|w: Seq<char>| respell_word(spelling@, w));
    assert(views(words@) == ws);
    let mut out: Vec<Vec<char>> = Vec::new();
    let mut i: usize = 0;
    while i < words.len()
        invariant
            i <= words@.len(),
            views(words@) == ws,
            target == ws.map_values(|w: Seq<char>| respell_word(spelling@, w)),
            views(out@) == target.take(i as int),
        decreases words@.len() - i,
    {
        let w = &words[i];
        assert(w@ == ws[i as int]);
        let ghost before = out@;
        match spelling.get(w.as_slice()) {
            Some(v) => out.push(v),
            None => out.push(concat(w.as_slice(), &[])),
        }
        assert(views(out@) =~= target.take(i + 1)) by {
            assert(views(out@) =~= views(before).push(target[i as int]));
        }
        i = i + 1;
    }
    assert(target.take(words@.len() as int) =~= target);
    let joined = join_words(out.as_slice());
    string_from_chars(joined.as_slice())
}

// ---------------------------------------------------------------------------
// Symbols and diacritics
// ---------------------------------------------------------------------------
/// The letters that decomposition leaves whole and the normalizer spells out
/// in plain Latin letters.
pub open spec fn diacritic_replacement(c: char) -> Option<Seq<char>> {
    if c == 'œ' {
        Some("oe"@)
    } else if c == 'Œ' {
        Some("OE"@)
    } else if c == 'ø' {
        Some("o"@)
    } else if c == 'Ø' {
        Some("O"@)
    } else if c == 'æ' {
        Some("ae"@)
    } else if c == 'Æ' {
        Some("AE"@)
    } else if c == 'ß' {
        Some("ss"@)
    } else if c == 'ẞ' {
        Some("SS"@)
    } else if c == 'đ' {
        Some("d"@)
    } else if c == 'Đ' {
        Some("D"@)
    } else if c == 'ð' {
        Some("d"@)
    } else if c == 'Ð' {
        Some("D"@)
    } else if c == 'þ' {
        Some("th"@)
    } else if c == 'Þ' {
        Some("th"@)
    } else if c == 'ł' {
        Some("l"@)
    } else if c == 'Ł' {
        Some("L"@)
    } else {
        None
    }
}

fn diacritic_replacement_of(c: char) -> (r: Option<&'static str>)
    ensures
        match r {
            Some(s) => diacritic_replacement(c) == Some(s@),
            None => diacritic_replacement(c) is None,
        },
{
    if c == 'œ' {
        Some("oe")
    } else if c == 'Œ' {
        Some("OE")
    } else if c == 'ø' {
        Some("o")
    } else if c == 'Ø' {
        Some("O")
    } else if c == 'æ' {
        Some("ae")
    } else if c == 'Æ' {
        Some("AE")
    } else if c == 'ß' {
        Some("ss")
    } else if c == 'ẞ' {
        Some("SS")
    } else if c == 'đ' {
        Some("d")
    } else if c == 'Đ' {
        Some("D")
    } else if c == 'ð' {
        Some("d")
    } else if c == 'Ð' {
        Some("D")
    } else if c == 'þ' {
        Some("th")
    } else if c == 'Þ' {
        Some("th")
    } else if c == 'ł' {
        Some("l")
    } else if c == 'Ł' {
        Some("L")
    } else {
        None
    }
}

/// Whether a general category group is one that the normalizers blank out.
pub open spec fn is_blanked_group(g: CategoryGroup) -> bool {
    g == CategoryGroup::Mark || g == CategoryGroup::Symbol || g == CategoryGroup::Punctuation
}

/// What the English normalizer makes of one decomposed character: kept
/// symbols stay, special letters are spelled out, nonspacing marks vanish,
/// other marks, symbols and punctuation become spaces, and the rest stays.
pub open spec fn strip_char(c: char, keep: Seq<char>) -> Seq<char> {
    if keep.contains(c) {
        seq![c]
    } else if let Some(r) = diacritic_replacement(c) {
        r
    } else if nonspacing_mark(c) {
        seq![]
    } else if is_blanked_group(category_group(c)) {
        seq![' ']
    } else {
        seq![c]
    }
}

/// `strip_char` applied to each character, the results concatenated.
pub open spec fn strip_all(cs: Seq<char>, keep: Seq<char>) -> Seq<char>
    decreases cs.len(),
{
    if cs.len() == 0 {
        seq![]
    } else {
        strip_all(cs.drop_last(), keep) + strip_char(cs.last(), keep)
    }
}

/// What a language-agnostic normalizer makes of one composed character:
/// marks, symbols and punctuation become spaces.
pub open spec fn blank_char(c: char) -> char {
    if is_blanked_group(category_group(c)) {
        ' '
    } else {
        c
    }
}

fn contains_char(s: &[char], c: char) -> (b: bool)
    ensures
        b == s@.contains(c),
{
    let mut i: usize = 0;
    while i < s.len()
        invariant
            i <= s@.len(),
            forall|k: int| 0 <= k < i ==> s@[k] != c,
        decreases s@.len() - i,
    {
        if s[i] == c {
            assert(s@[i as int] == c);
            return true;
        }
        i = i + 1;
    }
    false
}

fn blanked(g: CategoryGroup) -> (b: bool)
    ensures
        b == is_blanked_group(g),
{
    g == CategoryGroup::Mark || g == CategoryGroup::Symbol || g == CategoryGroup::Punctuation
}

/// Decomposes `s` and removes or blanks symbols and diacritics, keeping the
/// characters of `keep`.
fn remove_symbols_and_diacritics(s: &str, keep: &str) -> (r: String)
    ensures
        r@ == strip_all(nfkd(s@), keep@),
{
    let cs = nfkd_chars(s);
    let kept = chars_of(keep);
    let mut out: Vec<char> = Vec::new();
    let mut i: usize = 0;
    while i < cs.len()
        invariant
            i <= cs@.len(),
            cs@ == nfkd(s@),
            kept@ == keep@,
            out@ == strip_all(cs@.take(i as int), keep@),
        decreases cs@.len() - i,
    {
        let c = cs[i];
        assert(cs@.take(i + 1).drop_last() =~= cs@.take(i as int));
        assert(cs@.take(i + 1).last() == c);
        if contains_char(kept.as_slice(), c) {
            out.push(c);
        } else if let Some(rep) = diacritic_replacement_of(c) {
            out = crate::numbers::concat_str(out.as_slice(), rep);
        } else if is_nonspacing_mark(c) {
        } else if blanked(group_of(c)) {
            out.push(' ');
        } else {
            out.push(c);
        }
        assert(out@ =~= strip_all(cs@.take(i + 1), keep@));
        i = i + 1;
    }
    assert(cs@.take(cs@.len() as int) =~= cs@);
    string_from_chars(out.as_slice())
}

/// Composes `s` and blanks marks, symbols and punctuation.
fn remove_symbols(s: &str) -> (r: String)
    ensures
        r@ == nfkc(s@).map_values(|c: char| blank_char(c)),
{
    let cs = nfkc_chars(s);
    let mut out: Vec<char> = Vec::new();
    let mut i: usize = 0;
    while i < cs.len()
        invariant
            i <= cs@.len(),
            cs@ == nfkc(s@),
            out@ == cs@.take(i as int).map_values(|c: char| blank_char(c)),
        decreases cs@.len() - i,
    {
        let c = cs[i];
        if blanked(group_of(c)) {
            out.push(' ');
        } else {
            out.push(c);
        }
        assert(out@ =~= cs@.take(i + 1).map_values(|c: char| blank_char(c)));
        i = i + 1;
    }
    assert(cs@.take(cs@.len() as int) =~= cs@);
    string_from_chars(out.as_slice())
}

} // verus!

verus! {

// ---------------------------------------------------------------------------
// The normalizers
// ---------------------------------------------------------------------------
/// The first `k` contraction and title replacements applied in order.
pub open spec fn apply_replacers(s: Seq<char>, k: nat) -> Seq<char>
    decreases k,
{
    if k == 0 {
        s
    } else {
        let i = k - 1;
        regex_replaced(
            replacer_patterns()[i as int],
            apply_replacers(s, i as nat),
            replacer_replacements()[i as int],
        )
    }
}

/// The text as the English normalizer has it before the number normalizer:
/// lowercased, brackets, parenthesised text and fillers removed,
/// contractions and titles expanded, digit commas and sentence periods
/// removed, and symbols and diacritics stripped.
pub open spec fn english_before_numbers(text: Seq<char>) -> Seq<char> {
    let s0 = lowercase(text);
    let s1 = regex_replaced(BRACKETS@, s0, ""@);
    let s2 = regex_replaced(PARENS@, s1, ""@);
    let s3 = regex_replaced(FILLERS@, s2, ""@);
    let s4 = regex_replaced(SPACE_APOSTROPHE@, s3, "'"@);
    let s5 = apply_replacers(s4, REPLACER_COUNT as nat);
    let s6 = regex_replaced(DIGIT_COMMAS@, s5, "$1$2"@);
    let s7 = regex_replaced(PERIODS@, s6, " $1"@);
    strip_all(nfkd(s7), KEPT_SYMBOLS@)
}

/// The text as the English normalizer finishes it after the number
/// normalizer: respelled, stray periods, currency and percent signs
/// separated, whitespace collapsed and trimmed.
pub open spec fn english_after_numbers(s: Seq<char>, map: Map<Seq<char>, Seq<char>>) -> Seq<char> {
    let s1 = respelled(s, map);
    let s2 = regex_replaced(SYMBOL_CLEANUP@, s1, " $1"@);
    let s3 = regex_replaced(PERCENT_CLEANUP@, s2, "$1 "@);
    trimmed(collapse_whitespace(s3))
}

/// What the English normalizer makes of `text` with the spelling table
/// `map`; `None` where a number overflows `u128`.
pub open spec fn normalized_english(text: Seq<char>, map: Map<Seq<char>, Seq<char>>) -> Option<Seq<char>> {
    match english_numbers(english_before_numbers(text)) {
        Some(s) => Some(english_after_numbers(s, map)),
        None => None,
    }
}

/// What the language-agnostic normalizer makes of `text`: lowercased,
/// bracketed and parenthesised text removed, marks, symbols and punctuation
/// blanked, whitespace collapsed and trimmed.
pub open spec fn normalized_basic(text: Seq<char>) -> Seq<char> {
    let s0 = lowercase(text);
    let s1 = regex_replaced(BRACKETS@, s0, ""@);
    let s2 = regex_replaced(PARENS@, s1, ""@);
    let s3 = lowercase(nfkc(s2).map_values(|c: char| blank_char(c)));
    trimmed(collapse_whitespace(s3))
}

fn english_before_numbers_of(text: &str) -> (r: String)
    requires
        english_patterns_compile(),
    ensures
        r@ == english_before_numbers(text@),
{
    let mut s = to_lowercase(text);
    s = replace_all(BRACKETS, &s, "");
    s = replace_all(PARENS, &s, "");
    s = replace_all(FILLERS, &s, "");
    s = replace_all(SPACE_APOSTROPHE, &s, "'");
    let ghost start = s@;
    let mut i: usize = 0;
    while i < REPLACER_COUNT
        invariant
            i <= REPLACER_COUNT,
            english_patterns_compile(),
            s@ == apply_replacers(start, i as nat),
        decreases REPLACER_COUNT - i,
    {
        let (pattern, replacement) = replacer(i);
        assert(regex_compiles(replacer_patterns()[i as int]));
        s = replace_all(pattern, &s, replacement);
        i = i + 1;
    }
    s = replace_all(DIGIT_COMMAS, &s, "$1$2");
    s = replace_all(PERIODS, &s, " $1");
    remove_symbols_and_diacritics(&s, KEPT_SYMBOLS)
}

fn english_after_numbers_of(s: &str, spelling: &SpellingMap) -> (r: String)
    requires
        english_patterns_compile(),
    ensures
        r@ == english_after_numbers(s@, spelling@),
{
    let mut t = normalize_english_spelling(s, spelling);
    t = replace_all(SYMBOL_CLEANUP, &t, " $1");
    t = replace_all(PERCENT_CLEANUP, &t, "$1 ");
    t = collapse_whitespace_of(&t);
    crate::text::trim(&t)
}

/// The English normalizer, or `None` where a number overflows.
fn english_of(text: &str, spelling: &SpellingMap) -> (r: Option<String>)
    requires
        english_patterns_compile(),
    ensures
        r is Some <==> normalized_english(text@, spelling@) is Some,
        r matches Some(t) ==> normalized_english(text@, spelling@) == Some(t@),
{
    let before = english_before_numbers_of(text);
    match english_numbers_of(&before) {
        Some(n) => Some(english_after_numbers_of(&n, spelling)),
        None => None,
    }
}

/// Normalizes English text for scoring: lowercases it; removes bracketed
/// and parenthesised text and hesitation fillers; expands contractions and
/// titles ("let's" to "let us", "mr" to "mister"); strips symbols and
/// diacritics; writes spelled-out numbers as digits; respells words by the
/// spelling table; and collapses whitespace.
///
/// Its patterns must compile, and no number in the text may overflow
/// `u128`; `try_normalize_english` checks both.
pub fn normalize_english(text: &str, spelling: &SpellingMap) -> (r: String)
    requires
        english_patterns_compile(),
        normalized_english(text@, spelling@) is Some,
    ensures
        normalized_english(text@, spelling@) == Some(r@),
        single_spaced(r@),
        r@.len() > 0 ==> !is_white_space(r@[0]) && !is_white_space(r@.last()),
{
    proof {
        lemma_english_output_spacing(text@, spelling@);
    }
    match english_of(text, spelling) {
        Some(t) => t,
        None => {
            proof {
                assert(false);
            }
            String::new()
        },
    }
}

/// The English normalizer, or `None` where its patterns do not compile or a
/// number in the text overflows `u128`.
pub fn try_normalize_english(text: &str, spelling: &SpellingMap) -> (r: Option<String>)
    ensures
        r is Some <==> english_patterns_compile() && normalized_english(text@, spelling@) is Some,
        r matches Some(t) ==> normalized_english(text@, spelling@) == Some(t@),
{
    if !english_patterns_ok() {
        return None;
    }
    match english_of(text, spelling) {
        Some(_) => Some(normalize_english(text, spelling)),
        None => None,
    }
}

/// Normalizes text in any language for scoring: lowercases it, removes
/// bracketed and parenthesised text, turns marks, symbols and punctuation
/// into spaces, and collapses whitespace.
///
/// Its patterns must compile; `try_normalize_basic` checks that.
pub fn normalize_basic(text: &str) -> (r: String)
    requires
        basic_patterns_compile(),
    ensures
        r@ == normalized_basic(text@),
        single_spaced(r@),
        r@.len() > 0 ==> !is_white_space(r@[0]) && !is_white_space(r@.last()),
{
    proof {
        lemma_basic_output_spacing(text@);
    }
    let mut s = to_lowercase(text);
    s = replace_all(BRACKETS, &s, "");
    s = replace_all(PARENS, &s, "");
    let blanked = remove_symbols(&s);
    s = to_lowercase(&blanked);
    s = collapse_whitespace_of(&s);
    crate::text::trim(&s)
}

/// The language-agnostic normalizer, or `None` where its patterns do not
/// compile.
pub fn try_normalize_basic(text: &str) -> (r: Option<String>)
    ensures
        r is Some <==> basic_patterns_compile(),
        r matches Some(t) ==> t@ == normalized_basic(text@),
{
    if basic_patterns_ok() {
        Some(normalize_basic(text))
    } else {
        None
    }
}

} // verus!

verus! {

// ---------------------------------------------------------------------------
// Laws
// ---------------------------------------------------------------------------
/// The English normalizer's output separates its words by single spaces:
/// its only whitespace is spaces, no two of them are neighbours, and none
/// begins or ends it.
pub proof fn lemma_english_output_spacing(text: Seq<char>, map: Map<Seq<char>, Seq<char>>)
    requires
        normalized_english(text, map) is Some,
    ensures
        ({
            let out = normalized_english(text, map)->Some_0;
            &&& single_spaced(out)
            &&& out.len() > 0 ==> !is_white_space(out[0]) && !is_white_space(out.last())
        }),
{
    let s = english_numbers(english_before_numbers(text))->Some_0;
    let s1 = respelled(s, map);
    let s2 = regex_replaced(SYMBOL_CLEANUP@, s1, " $1"@);
    let s3 = regex_replaced(PERCENT_CLEANUP@, s2, "$1 "@);
    lemma_collapse_single_spaced(s3);
    lemma_trimmed_single_spaced(collapse_whitespace(s3));
}

/// The English normalizer drops bracketed and parenthesised text: two texts
/// that are the same once lowercased and stripped of their bracketed and then
/// of their parenthesised groups normalize alike, whatever the groups held.
pub proof fn lemma_english_ignores_parenthesised(
    t1: Seq<char>,
    t2: Seq<char>,
    map: Map<Seq<char>, Seq<char>>,
)
    requires
        regex_replaced(PARENS@, regex_replaced(BRACKETS@, lowercase(t1), ""@), ""@)
            == regex_replaced(PARENS@, regex_replaced(BRACKETS@, lowercase(t2), ""@), ""@),
    ensures
        english_before_numbers(t1) == english_before_numbers(t2),
        normalized_english(t1, map) == normalized_english(t2, map),
{
}

/// The language-agnostic normalizer drops parenthesised text: two texts that
/// are the same once lowercased and stripped of their bracketed and then of
/// their parenthesised groups normalize alike, whatever the groups held.
pub proof fn lemma_basic_ignores_parenthesised(t1: Seq<char>, t2: Seq<char>)
    requires
        regex_replaced(PARENS@, regex_replaced(BRACKETS@, lowercase(t1), ""@), ""@)
            == regex_replaced(PARENS@, regex_replaced(BRACKETS@, lowercase(t2), ""@), ""@),
    ensures
        normalized_basic(t1) == normalized_basic(t2),
{
}

/// The language-agnostic normalizer's output separates its words by single
/// spaces: its only whitespace is spaces, no two of them are neighbours, and
/// none begins or ends it.
pub proof fn lemma_basic_output_spacing(text: Seq<char>)
    ensures
        ({
            let out = normalized_basic(text);
            &&& single_spaced(out)
            &&& out.len() > 0 ==> !is_white_space(out[0]) && !is_white_space(out.last())
        }),
{
    let s0 = lowercase(text);
    let s1 = regex_replaced(BRACKETS@, s0, ""@);
    let s2 = regex_replaced(PARENS@, s1, ""@);
    let s3 = lowercase(nfkc(s2).map_values(|c: char| blank_char(c)));
    lemma_collapse_single_spaced(s3);
    lemma_trimmed_single_spaced(collapse_whitespace(s3));
}

} // verus!
