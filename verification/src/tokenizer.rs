//! Byte-level BPE decoding and the multitask special-token map.
//!
//! Vocabulary entries are spelled in the byte-level alphabet, in which every
//! byte has one printable character: the printable bytes stand for
//! themselves, the others are shifted to code points 256 and up.

use std::collections::HashMap;

use vstd::prelude::*;

use crate::text::{chars_equal, chars_of};

verus! {

broadcast use vstd::std_specs::hash::group_hash_axioms;

/// Bytes that the byte-level alphabet spells with the character of the same
/// code point.
pub open spec fn is_direct_byte(b: u8) -> bool {
    ||| (0x21 <= b && b <= 0x7e)
    ||| (0xa1 <= b && b <= 0xac)
    ||| 0xae <= b
}

/// The code point of the character that spells byte `b`: the byte itself for
/// a direct byte, otherwise 256 plus the number of non-direct bytes below `b`.
pub open spec fn byte_code_point(b: u8) -> u32 {
    if is_direct_byte(b) {
        b as u32
    } else if b <= 0x20 {
        (256 + b) as u32
    } else if b <= 0xa0 {
        (b + 162) as u32
    } else {
        323
    }
}

/// The byte that a code point spells, if it is in the byte-level alphabet.
pub open spec fn code_point_byte(u: u32) -> Option<u8> {
    if (0x21 <= u && u <= 0x7e) || (0xa1 <= u && u <= 0xac) || (0xae <= u && u <= 0xff) {
        Some(u as u8)
    } else if 256 <= u && u <= 288 {
        Some((u - 256) as u8)
    } else if 289 <= u && u <= 322 {
        Some((u - 162) as u8)
    } else if u == 323 {
        Some(0xad)
    } else {
        None
    }
}

/// The byte that character `c` spells, if any.
pub open spec fn char_byte(c: char) -> Option<u8> {
    code_point_byte(c as u32)
}

/// The byte-level alphabet is a bijection between all 256 bytes and its
/// characters: every byte is spelled by one character, and that character
/// spells that byte back.
pub proof fn lemma_byte_alphabet_bijective(b: u8, u: u32)
    ensures
        code_point_byte(byte_code_point(b)) == Some(b),
        code_point_byte(u) == Some(b) ==> byte_code_point(b) == u,
{
}

/// Every direct byte is spelled by the character of its own code point, and
/// that character spells it back: in particular each printable ASCII
/// character (`!` to `~`) stands for its own byte.
pub proof fn lemma_direct_bytes_spell_themselves(b: u8, c: char)
    ensures
        is_direct_byte(b) ==> byte_code_point(b) == b as u32,
        is_direct_byte(b) ==> code_point_byte(b as u32) == Some(b),
        '!' <= c <= '~' ==> char_byte(c) is Some && char_byte(c)->Some_0 as u32 == c as u32,
{
}

/// A vocabulary entry made of printable ASCII characters spells the bytes of
/// those characters, one byte per character and in order, so that it decodes
/// to itself.
pub proof fn lemma_printable_entry_bytes(chars: Seq<char>)
    requires
        forall|i: int| 0 <= i < chars.len() ==> '!' <= #[trigger] chars[i] <= '~',
    ensures
        token_bytes(chars).len() == chars.len(),
        forall|i: int| 0 <= i < chars.len() ==> #[trigger] token_bytes(chars)[i] as u32 == chars[i] as u32,
    decreases chars.len(),
{
    if chars.len() > 0 {
        let rest = chars.drop_last();
        assert forall|i: int| 0 <= i < rest.len() implies '!' <= #[trigger] rest[i] <= '~' by {
            assert(rest[i] == chars[i]);
        }
        lemma_printable_entry_bytes(rest);
        lemma_direct_bytes_spell_themselves(0, chars.last());
        assert forall|i: int| 0 <= i < chars.len() implies #[trigger] token_bytes(chars)[i] as u32
            == chars[i] as u32 by {
            if i < rest.len() {
                assert(token_bytes(chars)[i] == token_bytes(rest)[i]);
                assert(rest[i] == chars[i]);
            }
        }
    }
}

/// The character with code point `u`, if `u` is a Unicode scalar value.
///
/// Calls std's `char::from_u32`; the contract claims what its documentation
/// says: it returns `None` for surrogates and values above U+10FFFF, and
/// otherwise the character with that code point.
#[verifier::external_body]
fn char_from_u32(u: u32) -> (c: Option<char>)
    ensures
        c is Some <==> (u < 0xd800 || (0xe000 <= u && u <= 0x10ffff)),
        c matches Some(ch) ==> ch as u32 == u,
{
    char::from_u32(u)
}

/// The byte that character `c` spells in the byte-level alphabet, if any.
pub fn byte_for_char(c: char) -> (b: Option<u8>)
    ensures
        b == char_byte(c),
{
    let u = c as u32;
    if (0x21 <= u && u <= 0x7e) || (0xa1 <= u && u <= 0xac) || (0xae <= u && u <= 0xff) {
        Some(u as u8)
    } else if 256 <= u && u <= 288 {
        Some((u - 256) as u8)
    } else if 289 <= u && u <= 322 {
        Some((u - 162) as u8)
    } else if u == 323 {
        Some(0xad)
    } else {
        None
    }
}

/// The code point of the character that spells byte `b`.
fn code_point_for_byte(b: u8) -> (u: u32)
    ensures
        u == byte_code_point(b),
{
    if (0x21 <= b && b <= 0x7e) || (0xa1 <= b && b <= 0xac) || 0xae <= b {
        b as u32
    } else if b <= 0x20 {
        256 + b as u32
    } else if b <= 0xa0 {
        b as u32 + 162
    } else {
        323
    }
}

/// The byte-level alphabet as a table: for each byte, in byte order, the
/// character that spells it and the byte.
pub fn unicode_to_byte() -> (table: Vec<(char, u8)>)
    ensures
        table@.len() == 256,
        forall|k: int| 0 <= k < 256 ==> #[trigger] table@[k].1 == k as u8,
        forall|k: int| 0 <= k < 256 ==> #[trigger] table@[k].0 as u32 == byte_code_point(table@[k].1),
        forall|k: int| 0 <= k < 256 ==> char_byte(#[trigger] table@[k].0) == Some(table@[k].1),
{
    let mut table: Vec<(char, u8)> = Vec::new();
    let mut b: u16 = 0;
    while b < 256
        invariant
            b <= 256,
            table@.len() == b,
            forall|k: int| 0 <= k < b ==> #[trigger] table@[k].1 == k as u8,
            forall|k: int| 0 <= k < b ==> #[trigger] table@[k].0 as u32 == byte_code_point(table@[k].1),
            forall|k: int| 0 <= k < b ==> char_byte(#[trigger] table@[k].0) == Some(table@[k].1),
        decreases 256 - b,
    {
        let byte = b as u8;
        let u = code_point_for_byte(byte);
        proof {
            lemma_byte_alphabet_bijective(byte, u);
        }
        let c = char_from_u32(u).unwrap();
        table.push((c, byte));
        b = b + 1;
    }
    table
}

} // verus!

verus! {

/// The ids of the special tokens that steer the multitask decoder.
#[derive(Debug, Clone, Copy)]
pub struct SpecialTokens {
    pub sot: u32,
    pub eot: u32,
    pub transcribe: u32,
    pub translate: u32,
    pub no_timestamps: u32,
    pub no_speech: u32,
    pub timestamp_begin: u32,
    pub language_begin: u32,
    pub language_count: u32,
}

/// Why a tokenizer could not be built.
#[derive(Debug, Clone, PartialEq, Eq)]
pub enum TokenizerError {
    /// A required special token is in neither the added tokens nor the vocabulary.
    MissingSpecialToken(String),
}

/// The bytes that a vocabulary entry spells: each character of the entry that
/// belongs to the byte-level alphabet gives its byte; other characters are
/// skipped.
pub open spec fn token_bytes(chars: Seq<char>) -> Seq<u8>
    decreases chars.len(),
{
    if chars.len() == 0 {
        seq![]
    } else {
        let rest = token_bytes(chars.drop_last());
        match char_byte(chars.last()) {
            Some(b) => rest.push(b),
            None => rest,
        }
    }
}

/// The bytes that a vocabulary entry spells.
pub fn bytes_of_token(chars: &[char]) -> (bytes: Vec<u8>)
    ensures
        bytes@ == token_bytes(chars@),
{
    let mut bytes: Vec<u8> = Vec::new();
    let mut i: usize = 0;
    while i < chars.len()
        invariant
            i <= chars@.len(),
            bytes@ == token_bytes(chars@.take(i as int)),
        decreases chars@.len() - i,
    {
        proof {
            assert(chars@.take(i + 1).drop_last() =~= chars@.take(i as int));
            assert(chars@.take(i + 1).last() == chars@[i as int]);
        }
        match byte_for_char(chars[i]) {
            Some(b) => bytes.push(b),
            None => {},
        }
        i = i + 1;
    }
    proof {
        assert(chars@.take(chars@.len() as int) =~= chars@);
    }
    bytes
}

/// Vocabulary entries (token text, id), by their characters.
pub open spec fn vocab_view(vocab: Seq<(String, u32)>) -> Seq<(Seq<char>, u32)> {
    vocab.map_values(|e: (String, u32)| (e.0@, e.1))
}

/// Added tokens (id, content), by their characters.
pub open spec fn added_view(added: Seq<(u32, String)>) -> Seq<(u32, Seq<char>)> {
    added.map_values(|e: (u32, String)| (e.0, e.1@))
}

/// The largest vocabulary id, or 0.
pub open spec fn max_vocab_id(vocab: Seq<(Seq<char>, u32)>) -> nat
    decreases vocab.len(),
{
    if vocab.len() == 0 {
        0
    } else {
        let m = max_vocab_id(vocab.drop_last());
        if vocab.last().1 > m {
            vocab.last().1 as nat
        } else {
            m
        }
    }
}

/// The largest added-token id, or 0.
pub open spec fn max_added_id(added: Seq<(u32, Seq<char>)>) -> nat
    decreases added.len(),
{
    if added.len() == 0 {
        0
    } else {
        let m = max_added_id(added.drop_last());
        if added.last().0 > m {
            added.last().0 as nat
        } else {
            m
        }
    }
}

/// The largest id among the vocabulary and the added tokens, or 0.
pub open spec fn max_token_id(vocab: Seq<(Seq<char>, u32)>, added: Seq<(u32, Seq<char>)>) -> nat {
    if max_vocab_id(vocab) >= max_added_id(added) {
        max_vocab_id(vocab)
    } else {
        max_added_id(added)
    }
}

/// The bytes spelled by the last vocabulary entry with id `id`, if any.
pub open spec fn vocab_bytes_for(vocab: Seq<(Seq<char>, u32)>, id: int) -> Option<Seq<u8>>
    decreases vocab.len(),
{
    if vocab.len() == 0 {
        None
    } else if vocab.last().1 == id {
        Some(token_bytes(vocab.last().0))
    } else {
        vocab_bytes_for(vocab.drop_last(), id)
    }
}

/// The added tokens as a map from id to content; a later entry for an id
/// replaces an earlier one.
pub open spec fn added_token_map(added: Seq<(u32, Seq<char>)>) -> Map<u32, Seq<char>>
    decreases added.len(),
{
    if added.len() == 0 {
        Map::empty()
    } else {
        added_token_map(added.drop_last()).insert(added.last().0, added.last().1)
    }
}

/// The id of the first added token whose content is `name`.
pub open spec fn find_added(added: Seq<(u32, Seq<char>)>, name: Seq<char>) -> Option<u32>
    decreases added.len(),
{
    if added.len() == 0 {
        None
    } else {
        match find_added(added.drop_last(), name) {
            Some(id) => Some(id),
            None => if added.last().1 == name {
                Some(added.last().0)
            } else {
                None
            },
        }
    }
}

/// The id of the first vocabulary entry spelled `name`.
pub open spec fn find_vocab(vocab: Seq<(Seq<char>, u32)>, name: Seq<char>) -> Option<u32>
    decreases vocab.len(),
{
    if vocab.len() == 0 {
        None
    } else {
        match find_vocab(vocab.drop_last(), name) {
            Some(id) => Some(id),
            None => if vocab.last().0 == name {
                Some(vocab.last().1)
            } else {
                None
            },
        }
    }
}

/// The id of a named special token: an added token takes precedence over a
/// vocabulary entry.
pub open spec fn find_token(
    vocab: Seq<(Seq<char>, u32)>,
    added: Seq<(u32, Seq<char>)>,
    name: Seq<char>,
) -> Option<u32> {
    match find_added(added, name) {
        Some(id) => Some(id),
        None => find_vocab(vocab, name),
    }
}

/// Whether an added token's content is a language tag: `<|`, two or three
/// lowercase ASCII letters, `|>`.
pub open spec fn is_language_content(c: Seq<char>) -> bool {
    &&& (c.len() == 6 || c.len() == 7)
    &&& c[0] == '<'
    &&& c[1] == '|'
    &&& c[c.len() - 2] == '|'
    &&& c[c.len() - 1] == '>'
    &&& forall|i: int| 2 <= i < c.len() - 2 ==> 'a' <= #[trigger] c[i] && c[i] <= 'z'
}

/// The number of consecutive ids from `start` whose added tokens are language tags.
pub open spec fn language_run(m: Map<u32, Seq<char>>, start: int) -> nat
    decreases u32::MAX + 1 - start,
{
    if 0 <= start <= u32::MAX && m.contains_key(start as u32) && is_language_content(
        m[start as u32],
    ) {
        1 + language_run(m, start + 1)
    } else {
        0
    }
}

/// The special tokens that a vocabulary and added-token list determine, or
/// the name of the first required special token that neither holds.
pub open spec fn special_tokens_of(
    vocab: Seq<(Seq<char>, u32)>,
    added: Seq<(u32, Seq<char>)>,
) -> Result<SpecialTokens, Seq<char>> {
    let find = |name: Seq<char>| find_token(vocab, added, name);
    match find("<|startoftranscript|>"@) {
        None => Err("<|startoftranscript|>"@),
        Some(sot) => match find("<|endoftext|>"@) {
            None => Err("<|endoftext|>"@),
            Some(eot) => match find("<|transcribe|>"@) {
                None => Err("<|transcribe|>"@),
                Some(transcribe) => match find("<|translate|>"@) {
                    None => Err("<|translate|>"@),
                    Some(translate) => match find("<|notimestamps|>"@) {
                        None => Err("<|notimestamps|>"@),
                        Some(no_timestamps) => {
                            let no_speech = match find("<|nospeech|>"@) {
                                Some(id) => Some(id),
                                None => find("<|nocaptions|>"@),
                            };
                            match no_speech {
                                None => Err("<|nocaptions|>"@),
                                Some(no_speech) => Ok(
                                    SpecialTokens {
                                        sot,
                                        eot,
                                        transcribe,
                                        translate,
                                        no_timestamps,
                                        no_speech,
                                        timestamp_begin: (no_timestamps + 1) as u32,
                                        language_begin: (sot + 1) as u32,
                                        language_count: language_run(
                                            added_token_map(added),
                                            sot + 1,
                                        ) as u32,
                                    },
                                ),
                            }
                        },
                    },
                },
            },
        },
    }
}

/// A byte-level BPE tokenizer with the multitask special tokens.
pub struct Tokenizer {
    id_to_bytes: Vec<Option<Vec<u8>>>,
    added: HashMap<u32, String>,
    pub special: SpecialTokens,
}

impl Tokenizer {
    /// For each id, the bytes its vocabulary entry spells, if it has one.
    pub closed spec fn byte_table(&self) -> Seq<Option<Seq<u8>>> {
        self.id_to_bytes@.map_values(
            |o: Option<Vec<u8>>|
                match o {
                    Some(v) => Some(v@),
                    None => None,
                },
        )
    }

    /// The ids of the special tokens.
    pub closed spec fn specials(&self) -> SpecialTokens {
        self.special
    }

    /// The ids of the special tokens.
    pub fn special_tokens(&self) -> (s: SpecialTokens)
        ensures
            s == self.specials(),
    {
        self.special
    }

    /// The added (special) tokens, from id to content.
    pub closed spec fn added_tokens(&self) -> Map<u32, Seq<char>> {
        self.added@.map_values(|s: String| s@)
    }
}

} // verus!

verus! {

/// The largest id among the vocabulary and the added tokens, or 0.
fn largest_id(vocab: &[(String, u32)], added: &[(u32, String)]) -> (m: u32)
    requires
        forall|k: int| 0 <= k < vocab@.len() ==> #[trigger] vocab@[k].1 < u32::MAX - 1,
        forall|k: int| 0 <= k < added@.len() ==> #[trigger] added@[k].0 < u32::MAX - 1,
    ensures
        m == max_token_id(vocab_view(vocab@), added_view(added@)),
        m < u32::MAX - 1,
        forall|k: int| 0 <= k < vocab@.len() ==> #[trigger] vocab@[k].1 <= m,
{
    let ghost vv = vocab_view(vocab@);
    let ghost av = added_view(added@);
    let mut mv: u32 = 0;
    let mut k: usize = 0;
    while k < vocab.len()
        invariant
            k <= vocab@.len(),
            vv == vocab_view(vocab@),
            mv == max_vocab_id(vv.take(k as int)),
            mv < u32::MAX - 1,
            forall|j: int| 0 <= j < vocab@.len() ==> #[trigger] vocab@[j].1 < u32::MAX - 1,
            forall|j: int| 0 <= j < k ==> #[trigger] vocab@[j].1 <= mv,
        decreases vocab@.len() - k,
    {
        proof {
            assert(vv.take(k + 1).drop_last() =~= vv.take(k as int));
        }
        if vocab[k].1 > mv {
            mv = vocab[k].1;
        }
        k = k + 1;
    }
    let mut ma: u32 = 0;
    let mut k: usize = 0;
    while k < added.len()
        invariant
            k <= added@.len(),
            av == added_view(added@),
            ma == max_added_id(av.take(k as int)),
            ma < u32::MAX - 1,
            forall|j: int| 0 <= j < added@.len() ==> #[trigger] added@[j].0 < u32::MAX - 1,
        decreases added@.len() - k,
    {
        proof {
            assert(av.take(k + 1).drop_last() =~= av.take(k as int));
        }
        if added[k].0 > ma {
            ma = added[k].0;
        }
        k = k + 1;
    }
    proof {
        assert(vv.take(vocab@.len() as int) =~= vv);
        assert(av.take(added@.len() as int) =~= av);
    }
    if mv >= ma {
        mv
    } else {
        ma
    }
}

/// For each id below `len`, the bytes its last vocabulary entry spells.
fn build_byte_table(vocab: &[(String, u32)], vocab_chars: &Vec<Vec<char>>, len: usize) -> (table:
    Vec<Option<Vec<u8>>>)
    requires
        vocab_chars@.len() == vocab@.len(),
        forall|k: int| 0 <= k < vocab@.len() ==> #[trigger] vocab_chars@[k]@ == vocab@[k].0@,
        forall|k: int| 0 <= k < vocab@.len() ==> (#[trigger] vocab@[k].1 as int) < len,
    ensures
        table@.len() == len,
        forall|i: int|
            0 <= i < len ==> match #[trigger] table@[i] {
                Some(v) => vocab_bytes_for(vocab_view(vocab@), i) == Some(v@),
                None => vocab_bytes_for(vocab_view(vocab@), i) is None,
            },
{
    let ghost vv = vocab_view(vocab@);
    let mut table: Vec<Option<Vec<u8>>> = Vec::new();
    let mut i: usize = 0;
    while i < len
        invariant
            i <= len,
            table@.len() == i,
            forall|j: int| 0 <= j < i ==> #[trigger] table@[j] is None,
        decreases len - i,
    {
        table.push(None);
        i = i + 1;
    }
    let mut k: usize = 0;
    while k < vocab.len()
        invariant
            k <= vocab@.len(),
            vv == vocab_view(vocab@),
            vocab_chars@.len() == vocab@.len(),
            forall|k: int| 0 <= k < vocab@.len() ==> #[trigger] vocab_chars@[k]@ == vocab@[k].0@,
            forall|k: int| 0 <= k < vocab@.len() ==> (#[trigger] vocab@[k].1 as int) < len,
            table@.len() == len,
            forall|i: int|
                0 <= i < len ==> match #[trigger] table@[i] {
                    Some(v) => vocab_bytes_for(vv.take(k as int), i) == Some(v@),
                    None => vocab_bytes_for(vv.take(k as int), i) is None,
                },
        decreases vocab@.len() - k,
    {
        proof {
            assert(vv.take(k + 1).drop_last() =~= vv.take(k as int));
            assert(vv.take(k + 1).last() == vv[k as int]);
            assert(vocab_chars@[k as int]@ == vocab@[k as int].0@);
        }
        let id = vocab[k].1;
        let bytes = bytes_of_token(vocab_chars[k].as_slice());
        table.set(id as usize, Some(bytes));
        k = k + 1;
    }
    proof {
        assert(vv.take(vocab@.len() as int) =~= vv);
    }
    table
}

/// The added tokens as a map from id to content; a later entry for an id
/// replaces an earlier one.
fn build_added_map(added: &[(u32, String)]) -> (m: HashMap<u32, String>)
    requires
        forall|k: int| 0 <= k < added@.len() ==> #[trigger] added@[k].0 < u32::MAX - 1,
    ensures
        m@.map_values(|s: String| s@) == added_token_map(added_view(added@)),
        forall|id: u32| m@.contains_key(id) ==> id < u32::MAX - 1,
{
    let ghost av = added_view(added@);
    let mut m: HashMap<u32, String> = HashMap::new();
    let mut k: usize = 0;
    while k < added.len()
        invariant
            k <= added@.len(),
            av == added_view(added@),
            m@.map_values(|s: String| s@) == added_token_map(av.take(k as int)),
            forall|j: int| 0 <= j < added@.len() ==> #[trigger] added@[j].0 < u32::MAX - 1,
            forall|id: u32| m@.contains_key(id) ==> id < u32::MAX - 1,
        decreases added@.len() - k,
    {
        proof {
            assert(av.take(k + 1).drop_last() =~= av.take(k as int));
            assert(av.take(k + 1).last() == av[k as int]);
        }
        let ghost before = m@;
        let content = added[k].1.clone();
        m.insert(added[k].0, content);
        proof {
            assert(m@.map_values(|s: String| s@) =~= before.map_values(|s: String| s@).insert(
                added@[k as int].0,
                added@[k as int].1@,
            ));
        }
        k = k + 1;
    }
    proof {
        assert(av.take(added@.len() as int) =~= av);
    }
    m
}

/// The id of a named special token: the first added token with that content,
/// otherwise the first vocabulary entry spelled so.
fn find_special(
    vocab: &[(String, u32)],
    vocab_chars: &Vec<Vec<char>>,
    added: &[(u32, String)],
    added_chars: &Vec<Vec<char>>,
    name: &str,
) -> (id: Option<u32>)
    requires
        vocab_chars@.len() == vocab@.len(),
        forall|k: int| 0 <= k < vocab@.len() ==> #[trigger] vocab_chars@[k]@ == vocab@[k].0@,
        added_chars@.len() == added@.len(),
        forall|k: int| 0 <= k < added@.len() ==> #[trigger] added_chars@[k]@ == added@[k].1@,
    ensures
        id == find_token(vocab_view(vocab@), added_view(added@), name@),
        (forall|k: int| 0 <= k < vocab@.len() ==> #[trigger] vocab@[k].1 < u32::MAX - 1) && (forall|
            k: int,
        |
            0 <= k < added@.len() ==> #[trigger] added@[k].0 < u32::MAX - 1) ==> (id matches Some(
            i,
        ) ==> i < u32::MAX - 1),
{
    let ghost vv = vocab_view(vocab@);
    let ghost av = added_view(added@);
    let target = chars_of(name);
    let mut found: Option<u32> = None;
    let mut k: usize = 0;
    while k < added.len()
        invariant
            k <= added@.len(),
            av == added_view(added@),
            target@ == name@,
            added_chars@.len() == added@.len(),
            forall|k: int| 0 <= k < added@.len() ==> #[trigger] added_chars@[k]@ == added@[k].1@,
            found == find_added(av.take(k as int), name@),
            found matches Some(i) ==> exists|j: int| 0 <= j < added@.len() && added@[j].0 == i,
        decreases added@.len() - k,
    {
        proof {
            assert(av.take(k + 1).drop_last() =~= av.take(k as int));
            assert(av.take(k + 1).last() == av[k as int]);
            assert(added_chars@[k as int]@ == added@[k as int].1@);
        }
        if found.is_none() && chars_equal(added_chars[k].as_slice(), target.as_slice()) {
            found = Some(added[k].0);
        }
        k = k + 1;
    }
    proof {
        assert(av.take(added@.len() as int) =~= av);
    }
    if found.is_some() {
        return found;
    }
    let mut k: usize = 0;
    while k < vocab.len()
        invariant
            k <= vocab@.len(),
            vv == vocab_view(vocab@),
            target@ == name@,
            vocab_chars@.len() == vocab@.len(),
            forall|k: int| 0 <= k < vocab@.len() ==> #[trigger] vocab_chars@[k]@ == vocab@[k].0@,
            found == find_vocab(vv.take(k as int), name@),
            found matches Some(i) ==> exists|j: int| 0 <= j < vocab@.len() && vocab@[j].1 == i,
        decreases vocab@.len() - k,
    {
        proof {
            assert(vv.take(k + 1).drop_last() =~= vv.take(k as int));
            assert(vv.take(k + 1).last() == vv[k as int]);
            assert(vocab_chars@[k as int]@ == vocab@[k as int].0@);
        }
        if found.is_none() && chars_equal(vocab_chars[k].as_slice(), target.as_slice()) {
            found = Some(vocab[k].1);
        }
        k = k + 1;
    }
    proof {
        assert(vv.take(vocab@.len() as int) =~= vv);
    }
    found
}

/// Whether an added token's content is a language tag.
pub fn is_language_tag(c: &[char]) -> (b: bool)
    ensures
        b == is_language_content(c@),
{
    let n = c.len();
    if !(n == 6 || n == 7) {
        return false;
    }
    if !(c[0] == '<' && c[1] == '|' && c[n - 2] == '|' && c[n - 1] == '>') {
        return false;
    }
    let mut i: usize = 2;
    while i < n - 2
        invariant
            n == c@.len(),
            n == 6 || n == 7,
            2 <= i <= n - 2,
            forall|j: int| 2 <= j < i ==> 'a' <= #[trigger] c@[j] && c@[j] <= 'z',
        decreases n - 2 - i,
    {
        if !('a' <= c[i] && c[i] <= 'z') {
            return false;
        }
        i = i + 1;
    }
    true
}

/// The number of consecutive ids from `start` whose added tokens are language tags.
fn count_languages(m: &HashMap<u32, String>, start: u32) -> (count: u32)
    requires
        start < u32::MAX,
        forall|id: u32| m@.contains_key(id) ==> id < u32::MAX - 1,
    ensures
        count == language_run(m@.map_values(|s: String| s@), start as int),
        start + count < u32::MAX,
{
    let ghost mm = m@.map_values(|s: String| s@);
    let mut count: u32 = 0;
    let mut done = false;
    while !done
        invariant
            mm == m@.map_values(|s: String| s@),
            start < u32::MAX,
            forall|id: u32| m@.contains_key(id) ==> id < u32::MAX - 1,
            start + count < u32::MAX,
            done ==> language_run(mm, start + count) == 0,
            language_run(mm, start as int) == count + language_run(mm, start + count),
        decreases 2 * (u32::MAX - (start + count)) + (if done { 0int } else { 1int }),
    {
        let key = start + count;
        match m.get(&key) {
            Some(content) => {
                let cs = chars_of(content.as_str());
                if is_language_tag(cs.as_slice()) {
                    count = count + 1;
                } else {
                    done = true;
                }
            },
            None => {
                done = true;
            },
        }
    }
    count
}

impl Tokenizer {
    /// Builds a tokenizer from its vocabulary (token text spelled in the
    /// byte-level alphabet, id) and its added tokens (id, content).
    pub fn from_parts(vocab: &[(String, u32)], added: &[(u32, String)]) -> (res: Result<
        Tokenizer,
        TokenizerError,
    >)
        requires
            forall|k: int| 0 <= k < vocab@.len() ==> #[trigger] vocab@[k].1 < u32::MAX - 1,
            forall|k: int| 0 <= k < added@.len() ==> #[trigger] added@[k].0 < u32::MAX - 1,
        ensures
            match res {
                Ok(t) => {
                    &&& special_tokens_of(vocab_view(vocab@), added_view(added@)) == Ok::<
                        SpecialTokens,
                        Seq<char>,
                    >(t.specials())
                    &&& t.byte_table().len() == max_token_id(vocab_view(vocab@), added_view(added@))
                        + 1
                    &&& forall|i: int|
                        0 <= i < t.byte_table().len() ==> #[trigger] t.byte_table()[i]
                            == vocab_bytes_for(vocab_view(vocab@), i)
                    &&& t.added_tokens() == added_token_map(added_view(added@))
                    &&& t.specials().language_begin + t.specials().language_count < u32::MAX
                    &&& t.specials().language_begin == t.specials().sot + 1
                    &&& t.specials().timestamp_begin == t.specials().no_timestamps + 1
                    &&& t.specials().language_count == language_run(
                        t.added_tokens(),
                        t.specials().sot + 1,
                    )
                    &&& forall|i: int|
                        0 <= i < t.specials().language_count ==> #[trigger] t.added_tokens().contains_key(
                            (t.specials().language_begin + i) as u32,
                        ) && is_language_content(
                            t.added_tokens()[(t.specials().language_begin + i) as u32],
                        )
                    &&& !({
                        let next = (t.specials().language_begin + t.specials().language_count) as u32;
                        &&& t.added_tokens().contains_key(next)
                        &&& is_language_content(t.added_tokens()[next])
                    })
                },
                Err(TokenizerError::MissingSpecialToken(name)) => special_tokens_of(
                    vocab_view(vocab@),
                    added_view(added@),
                ) == Err::<SpecialTokens, Seq<char>>(name@),
            },
    {
        let mut vocab_chars: Vec<Vec<char>> = Vec::new();
        let mut k: usize = 0;
        while k < vocab.len()
            invariant
                k <= vocab@.len(),
                vocab_chars@.len() == k,
                forall|j: int| 0 <= j < k ==> #[trigger] vocab_chars@[j]@ == vocab@[j].0@,
            decreases vocab@.len() - k,
        {
            vocab_chars.push(chars_of(vocab[k].0.as_str()));
            k = k + 1;
        }
        let mut added_chars: Vec<Vec<char>> = Vec::new();
        let mut k: usize = 0;
        while k < added.len()
            invariant
                k <= added@.len(),
                added_chars@.len() == k,
                forall|j: int| 0 <= j < k ==> #[trigger] added_chars@[j]@ == added@[j].1@,
            decreases added@.len() - k,
        {
            added_chars.push(chars_of(added[k].1.as_str()));
            k = k + 1;
        }
        let max_id = largest_id(vocab, added);
        let id_to_bytes = build_byte_table(vocab, &vocab_chars, max_id as usize + 1);
        let added_map = build_added_map(added);
        let sot = match find_special(vocab, &vocab_chars, added, &added_chars, "<|startoftranscript|>") {
            Some(id) => id,
            None => {
                return Err(
                    TokenizerError::MissingSpecialToken(String::from_str("<|startoftranscript|>")),
                )
            },
        };
        let language_count = count_languages(&added_map, sot + 1);
        let eot = match find_special(vocab, &vocab_chars, added, &added_chars, "<|endoftext|>") {
            Some(id) => id,
            None => return Err(TokenizerError::MissingSpecialToken(String::from_str("<|endoftext|>"))),
        };
        let transcribe = match find_special(vocab, &vocab_chars, added, &added_chars, "<|transcribe|>") {
            Some(id) => id,
            None => return Err(TokenizerError::MissingSpecialToken(String::from_str("<|transcribe|>"))),
        };
        let translate = match find_special(vocab, &vocab_chars, added, &added_chars, "<|translate|>") {
            Some(id) => id,
            None => return Err(TokenizerError::MissingSpecialToken(String::from_str("<|translate|>"))),
        };
        let no_timestamps = match find_special(vocab, &vocab_chars, added, &added_chars, "<|notimestamps|>") {
            Some(id) => id,
            None => {
                return Err(TokenizerError::MissingSpecialToken(String::from_str("<|notimestamps|>")))
            },
        };
        let no_speech = match find_special(vocab, &vocab_chars, added, &added_chars, "<|nospeech|>") {
            Some(id) => id,
            None => match find_special(vocab, &vocab_chars, added, &added_chars, "<|nocaptions|>") {
                Some(id) => id,
                None => {
                    return Err(TokenizerError::MissingSpecialToken(String::from_str("<|nocaptions|>")))
                },
            },
        };
        let special = SpecialTokens {
            sot,
            eot,
            transcribe,
            translate,
            no_timestamps,
            no_speech,
            timestamp_begin: no_timestamps + 1,
            language_begin: sot + 1,
            language_count,
        };
        proof {
            lemma_special_tokens_layout(vocab_view(vocab@), added_view(added@), special);
        }
        Ok(Tokenizer { id_to_bytes, added: added_map, special })
    }
}

} // verus!

verus! {

/// The bytes that a token sequence decodes to: the bytes of each token, in
/// order, leaving out added (special) tokens, timestamp tokens and ids with
/// no vocabulary entry.
pub open spec fn decoded_bytes(
    table: Seq<Option<Seq<u8>>>,
    added: Map<u32, Seq<char>>,
    timestamp_begin: u32,
    tokens: Seq<u32>,
) -> Seq<u8>
    decreases tokens.len(),
{
    if tokens.len() == 0 {
        seq![]
    } else {
        let rest = decoded_bytes(table, added, timestamp_begin, tokens.drop_last());
        let id = tokens.last();
        if added.contains_key(id) || id >= timestamp_begin {
            rest
        } else if (id as int) < table.len() && table[id as int] is Some {
            rest + table[id as int]->Some_0
        } else {
            rest
        }
    }
}

/// The text that lossy UTF-8 decoding makes of a byte sequence: each maximal
/// ill-formed subsequence becomes U+FFFD.
pub uninterp spec fn utf8_lossy(bytes: Seq<u8>) -> Seq<char>;

/// Decodes bytes as UTF-8, replacing ill-formed sequences.
///
/// Calls std's `String::from_utf8_lossy`. The contract names its result and
/// claims what its documentation states: well-formed UTF-8 decodes to the
/// characters it encodes.
#[verifier::external_body]
fn string_from_utf8_lossy(bytes: &[u8]) -> (s: String)
    ensures
        s@ == utf8_lossy(bytes@),
        vstd::utf8::valid_utf8(bytes@) ==> s@ == vstd::utf8::decode_utf8(bytes@),
{
    String::from_utf8_lossy(bytes).into_owned()
}

/// Appends `src` to `dst`.
fn append_bytes(dst: &mut Vec<u8>, src: &[u8])
    ensures
        final(dst)@ == old(dst)@ + src@,
{
    let ghost start = dst@;
    let mut i: usize = 0;
    while i < src.len()
        invariant
            i <= src@.len(),
            dst@ == start + src@.take(i as int),
        decreases src@.len() - i,
    {
        dst.push(src[i]);
        i = i + 1;
        assert(dst@ =~= start + src@.take(i as int));
    }
    assert(src@.take(src@.len() as int) =~= src@);
}

impl Tokenizer {
    /// The bytes that `tokens` decode to.
    pub fn decode_bytes(&self, tokens: &[u32]) -> (bytes: Vec<u8>)
        ensures
            bytes@ == decoded_bytes(
                self.byte_table(),
                self.added_tokens(),
                self.specials().timestamp_begin,
                tokens@,
            ),
    {
        let mut bytes: Vec<u8> = Vec::new();
        let mut k: usize = 0;
        while k < tokens.len()
            invariant
                k <= tokens@.len(),
                bytes@ == decoded_bytes(
                    self.byte_table(),
                    self.added_tokens(),
                    self.specials().timestamp_begin,
                    tokens@.take(k as int),
                ),
            decreases tokens@.len() - k,
        {
            proof {
                assert(tokens@.take(k + 1).drop_last() =~= tokens@.take(k as int));
                assert(tokens@.take(k + 1).last() == tokens@[k as int]);
            }
            let id = tokens[k];
            if !self.added.contains_key(&id) && id < self.special.timestamp_begin {
                let i = id as usize;
                if i < self.id_to_bytes.len() {
                    match &self.id_to_bytes[i] {
                        Some(b) => append_bytes(&mut bytes, b.as_slice()),
                        None => {},
                    }
                }
            }
            k = k + 1;
        }
        proof {
            assert(tokens@.take(tokens@.len() as int) =~= tokens@);
        }
        bytes
    }

    /// Decodes text tokens to a string; special and timestamp tokens decode
    /// to nothing.
    pub fn decode(&self, tokens: &[u32]) -> (text: String)
        ensures
            text@ == utf8_lossy(
                decoded_bytes(
                    self.byte_table(),
                    self.added_tokens(),
                    self.specials().timestamp_begin,
                    tokens@,
                ),
            ),
            vstd::utf8::valid_utf8(
                decoded_bytes(
                    self.byte_table(),
                    self.added_tokens(),
                    self.specials().timestamp_begin,
                    tokens@,
                ),
            ) ==> text@ == vstd::utf8::decode_utf8(
                decoded_bytes(
                    self.byte_table(),
                    self.added_tokens(),
                    self.specials().timestamp_begin,
                    tokens@,
                ),
            ),
    {
        let bytes = self.decode_bytes(tokens);
        string_from_utf8_lossy(bytes.as_slice())
    }

    /// The tag of a language token (`en` for `<|en|>`), when `id` lies in the
    /// run of language tokens and its added token is wrapped in `<|` `|>`.
    pub fn language_tag(&self, id: u32) -> (tag: Option<&str>)
        requires
            self.specials().language_begin + self.specials().language_count <= u32::MAX,
        ensures
            tag is Some <==> {
                &&& self.specials().language_begin <= id
                &&& id < self.specials().language_begin + self.specials().language_count
                &&& self.added_tokens().contains_key(id)
                &&& self.added_tokens()[id].len() >= 4
                &&& self.added_tokens()[id].take(2) == "<|"@
                &&& self.added_tokens()[id].skip(self.added_tokens()[id].len() - 2) == "|>"@
            },
            tag matches Some(t) ==> t@ == self.added_tokens()[id].subrange(
                2,
                self.added_tokens()[id].len() - 2,
            ),
    {
        let sp = &self.special;
        if !(sp.language_begin <= id && id < sp.language_begin + sp.language_count) {
            return None;
        }
        let content = match self.added.get(&id) {
            Some(c) => c,
            None => return None,
        };
        let cs = chars_of(content.as_str());
        let n = cs.len();
        proof {
            reveal_strlit("<|");
            reveal_strlit("|>");
            assert(self.added_tokens()[id] == content@);
        }
        if n < 4 || !(cs[0] == '<' && cs[1] == '|' && cs[n - 2] == '|' && cs[n - 1] == '>') {
            proof {
                if n >= 4 {
                    if content@.take(2) == "<|"@ && content@.skip(n - 2) == "|>"@ {
                        assert(content@.take(2)[0] == content@[0]);
                        assert(content@.take(2)[1] == content@[1]);
                        assert(content@.skip(n - 2)[0] == content@[n - 2]);
                        assert(content@.skip(n - 2)[1] == content@[n - 1]);
                    }
                }
            }
            return None;
        }
        proof {
            assert(content@.take(2) =~= "<|"@);
            assert(content@.skip(n - 2) =~= "|>"@);
        }
        Some(content.as_str().substring_char(2, n - 2))
    }
}

} // verus!

verus! {

/// Decoding distributes over concatenation: the bytes of two token
/// sequences joined are the bytes of each, joined.
pub proof fn lemma_decoded_bytes_concat(
    table: Seq<Option<Seq<u8>>>,
    added: Map<u32, Seq<char>>,
    timestamp_begin: u32,
    a: Seq<u32>,
    b: Seq<u32>,
)
    ensures
        decoded_bytes(table, added, timestamp_begin, a + b) == decoded_bytes(
            table,
            added,
            timestamp_begin,
            a,
        ) + decoded_bytes(table, added, timestamp_begin, b),
    decreases b.len(),
{
    if b.len() == 0 {
        assert(a + b =~= a);
        assert(decoded_bytes(table, added, timestamp_begin, a) + seq![] =~= decoded_bytes(
            table,
            added,
            timestamp_begin,
            a,
        ));
    } else {
        assert((a + b).drop_last() =~= a + b.drop_last());
        assert((a + b).last() == b.last());
        lemma_decoded_bytes_concat(table, added, timestamp_begin, a, b.drop_last());
        let da = decoded_bytes(table, added, timestamp_begin, a);
        let db = decoded_bytes(table, added, timestamp_begin, b.drop_last());
        let id = b.last();
        if !(added.contains_key(id) || id >= timestamp_begin) && (id as int) < table.len()
            && table[id as int] is Some {
            assert(da + db + table[id as int]->Some_0 =~= da + (db + table[id as int]->Some_0));
        }
    }
}

/// Added (special) tokens and timestamp tokens decode to no text: a
/// sequence made only of them decodes to no bytes, which is the empty string.
pub proof fn lemma_control_tokens_decode_to_nothing(
    table: Seq<Option<Seq<u8>>>,
    added: Map<u32, Seq<char>>,
    timestamp_begin: u32,
    tokens: Seq<u32>,
)
    requires
        forall|i: int|
            0 <= i < tokens.len() ==> added.contains_key(#[trigger] tokens[i]) || tokens[i]
                >= timestamp_begin,
    ensures
        decoded_bytes(table, added, timestamp_begin, tokens) == Seq::<u8>::empty(),
        vstd::utf8::valid_utf8(Seq::<u8>::empty()),
        vstd::utf8::decode_utf8(Seq::<u8>::empty()) == Seq::<char>::empty(),
    decreases tokens.len(),
{
    if tokens.len() > 0 {
        assert(added.contains_key(tokens[tokens.len() - 1]) || tokens[tokens.len() - 1]
            >= timestamp_begin);
        lemma_control_tokens_decode_to_nothing(table, added, timestamp_begin, tokens.drop_last());
    }
}

/// Every id of the language run starting at `start` holds an added token
/// whose content is a language tag.
pub proof fn lemma_language_run_is_tags(m: Map<u32, Seq<char>>, start: int, i: int)
    requires
        0 <= i < language_run(m, start),
    ensures
        0 <= start + i <= u32::MAX,
        m.contains_key((start + i) as u32),
        is_language_content(m[(start + i) as u32]),
    decreases i,
{
    if i > 0 {
        lemma_language_run_is_tags(m, start + 1, i - 1);
    }
}

/// The tag inside language-tag content (between `<|` and `|>`) is two or
/// three lowercase ASCII letters.
pub proof fn lemma_language_content_tag(c: Seq<char>)
    requires
        is_language_content(c),
    ensures
        c.len() >= 4,
        c.take(2) == "<|"@,
        c.skip(c.len() - 2) == "|>"@,
        2 <= c.subrange(2, c.len() - 2).len() <= 3,
        forall|k: int|
            0 <= k < c.subrange(2, c.len() - 2).len() ==> 'a' <= #[trigger] c.subrange(
                2,
                c.len() - 2,
            )[k] && c.subrange(2, c.len() - 2)[k] <= 'z',
{
    reveal_strlit("<|");
    reveal_strlit("|>");
    assert(c.take(2) =~= "<|"@);
    assert(c.skip(c.len() - 2) =~= "|>"@);
    assert forall|k: int| 0 <= k < c.subrange(2, c.len() - 2).len() implies 'a'
        <= #[trigger] c.subrange(2, c.len() - 2)[k] && c.subrange(2, c.len() - 2)[k] <= 'z' by {
        assert(c.subrange(2, c.len() - 2)[k] == c[k + 2]);
    }
}

/// For a tokenizer built from a vocabulary and added-token list, the
/// language run starts right after the start-of-transcript token, and every
/// token in it is an added token whose tag is two or three lowercase letters.
pub proof fn lemma_tokenizer_language_run(
    vocab: Seq<(Seq<char>, u32)>,
    added: Seq<(u32, Seq<char>)>,
    t: Tokenizer,
    id: u32,
)
    requires
        special_tokens_of(vocab, added) == Ok::<SpecialTokens, Seq<char>>(t.specials()),
        t.added_tokens() == added_token_map(added),
        t.specials().language_begin + t.specials().language_count < u32::MAX,
        t.specials().language_begin <= id < t.specials().language_begin
            + t.specials().language_count,
    ensures
        t.specials().language_begin == t.specials().sot + 1,
        t.added_tokens().contains_key(id),
        is_language_content(t.added_tokens()[id]),
{
    let sp = t.specials();
    let m = added_token_map(added);
    let sot = find_token(vocab, added, "<|startoftranscript|>"@)->Some_0;
    assert(sp.sot == sot);
    assert(sp.language_begin == sot + 1);
    assert(sp.language_count == language_run(m, sot + 1) as u32);
    lemma_language_run_bound(m, sot + 1);
    lemma_language_run_is_tags(m, sot + 1, id - sp.language_begin);
}

/// A language run starting at `start` ends within the range of `u32`.
pub proof fn lemma_language_run_bound(m: Map<u32, Seq<char>>, start: int)
    requires
        0 <= start <= u32::MAX + 1,
    ensures
        start + language_run(m, start) <= u32::MAX + 1,
    decreases u32::MAX + 1 - start,
{
    if 0 <= start <= u32::MAX && m.contains_key(start as u32) && is_language_content(
        m[start as u32],
    ) {
        lemma_language_run_bound(m, start + 1);
    }
}

} // verus!

verus! {

/// An added token that `find_added` finds is an entry of the list.
proof fn lemma_find_added_entry(added: Seq<(u32, Seq<char>)>, name: Seq<char>)
    ensures
        find_added(added, name) matches Some(id) ==> exists|k: int|
            0 <= k < added.len() && #[trigger] added[k] == (id, name),
    decreases added.len(),
{
    if added.len() > 0 {
        lemma_find_added_entry(added.drop_last(), name);
        if let Some(id) = find_added(added.drop_last(), name) {
            let k = choose|k: int| 0 <= k < added.len() - 1 && #[trigger] added.drop_last()[k] == (id, name);
            assert(added[k] == added.drop_last()[k]);
        } else if added.last().1 == name {
            assert(added[added.len() - 1] == (added.last().0, name));
        }
    }
}

/// Where no id occurs twice among the added tokens, the map holds each
/// entry's content under its id.
proof fn lemma_added_map_entry(added: Seq<(u32, Seq<char>)>, k: int)
    requires
        0 <= k < added.len(),
        forall|i: int, j: int| 0 <= i < j < added.len() ==> added[i].0 != added[j].0,
    ensures
        added_token_map(added).contains_key(added[k].0),
        added_token_map(added)[added[k].0] == added[k].1,
    decreases added.len(),
{
    if k < added.len() - 1 {
        let d = added.drop_last();
        assert forall|i: int, j: int| 0 <= i < j < d.len() implies d[i].0 != d[j].0 by {
            assert(d[i] == added[i] && d[j] == added[j]);
        }
        lemma_added_map_entry(d, k);
        assert(d[k] == added[k]);
        assert(added[k].0 != added[added.len() - 1].0);
    }
}

/// An added token whose content is no language tag lies outside the
/// language run.
pub proof fn lemma_non_language_outside_run(m: Map<u32, Seq<char>>, start: int, id: u32)
    requires
        0 <= start,
        m.contains_key(id),
        !is_language_content(m[id]),
    ensures
        !(start <= id < start + language_run(m, start)),
{
    if start <= id < start + language_run(m, start) {
        lemma_language_run_is_tags(m, start, id - start);
    }
}

/// For a tokenizer built from a vocabulary and added-token list in which no
/// id occurs twice, the transcribe, translate, no-timestamps and no-speech
/// tokens lie outside the language run (so `language_tag` gives none of them
/// a tag) where each was found among the added tokens.
pub proof fn lemma_tokenizer_controls_outside_language_run(
    vocab: Seq<(Seq<char>, u32)>,
    added: Seq<(u32, Seq<char>)>,
    t: Tokenizer,
)
    requires
        special_tokens_of(vocab, added) == Ok::<SpecialTokens, Seq<char>>(t.specials()),
        t.added_tokens() == added_token_map(added),
        forall|i: int, j: int| 0 <= i < j < added.len() ==> added[i].0 != added[j].0,
        find_added(added, "<|transcribe|>"@) is Some,
        find_added(added, "<|translate|>"@) is Some,
        find_added(added, "<|notimestamps|>"@) is Some,
        find_added(added, "<|nospeech|>"@) is Some || (find_vocab(vocab, "<|nospeech|>"@) is None
            && find_added(added, "<|nocaptions|>"@) is Some),
    ensures
        ({
            let sp = t.specials();
            let outside = |id: u32|
                !(sp.language_begin <= id < sp.language_begin + sp.language_count);
            &&& outside(sp.transcribe)
            &&& outside(sp.translate)
            &&& outside(sp.no_timestamps)
            &&& outside(sp.no_speech)
        }),
{
    let sp = t.specials();
    let m = added_token_map(added);
    let sot = find_token(vocab, added, "<|startoftranscript|>"@)->Some_0;
    assert(sp.sot == sot);
    assert(sp.language_count == language_run(m, sot + 1) as u32);
    lemma_language_run_bound(m, sot + 1);
    reveal_strlit("<|transcribe|>");
    reveal_strlit("<|translate|>");
    reveal_strlit("<|notimestamps|>");
    reveal_strlit("<|nospeech|>");
    reveal_strlit("<|nocaptions|>");
    let names = seq!["<|transcribe|>"@, "<|translate|>"@, "<|notimestamps|>"@, "<|nospeech|>"@, "<|nocaptions|>"@];
    assert forall|q: int| 0 <= q < 5 implies (#[trigger] find_added(added, names[q]) matches Some(id)
        ==> m.contains_key(id) && m[id] == names[q] && !is_language_content(m[id])) by {
        let name = names[q];
        lemma_find_added_entry(added, name);
        if let Some(id) = find_added(added, name) {
            let k = choose|k: int| 0 <= k < added.len() && #[trigger] added[k] == (id, name);
            lemma_added_map_entry(added, k);
            assert(name.len() > 7);
        }
    }
    assert(find_added(added, names[0]) is Some);
    assert(find_added(added, names[1]) is Some);
    assert(find_added(added, names[2]) is Some);
    lemma_non_language_outside_run(m, sot + 1, sp.transcribe);
    lemma_non_language_outside_run(m, sot + 1, sp.translate);
    lemma_non_language_outside_run(m, sot + 1, sp.no_timestamps);
    if find_added(added, names[3]) is Some {
        lemma_non_language_outside_run(m, sot + 1, sp.no_speech);
    } else {
        assert(find_added(added, names[4]) is Some);
        lemma_non_language_outside_run(m, sot + 1, sp.no_speech);
    }
}

} // verus!

verus! {

/// A vocabulary entry that `find_vocab` finds is an entry of the list.
proof fn lemma_find_vocab_entry(vocab: Seq<(Seq<char>, u32)>, name: Seq<char>)
    ensures
        find_vocab(vocab, name) matches Some(id) ==> exists|k: int|
            0 <= k < vocab.len() && #[trigger] vocab[k] == (name, id),
    decreases vocab.len(),
{
    if vocab.len() > 0 {
        lemma_find_vocab_entry(vocab.drop_last(), name);
        if let Some(id) = find_vocab(vocab.drop_last(), name) {
            let k = choose|k: int| 0 <= k < vocab.len() - 1 && #[trigger] vocab.drop_last()[k] == (name, id);
            assert(vocab[k] == vocab.drop_last()[k]);
        } else if vocab.last().0 == name {
            assert(vocab[vocab.len() - 1] == (name, vocab.last().1));
        }
    }
}

/// A special token that `find_token` finds has one of the listed ids.
proof fn lemma_find_token_bound(vocab: Seq<(Seq<char>, u32)>, added: Seq<(u32, Seq<char>)>, name: Seq<char>)
    requires
        forall|k: int| 0 <= k < vocab.len() ==> #[trigger] vocab[k].1 < u32::MAX - 1,
        forall|k: int| 0 <= k < added.len() ==> #[trigger] added[k].0 < u32::MAX - 1,
    ensures
        find_token(vocab, added, name) matches Some(id) ==> id < u32::MAX - 1,
{
    lemma_find_added_entry(added, name);
    lemma_find_vocab_entry(vocab, name);
    if let Some(id) = find_added(added, name) {
        let k = choose|k: int| 0 <= k < added.len() && #[trigger] added[k] == (id, name);
        assert(added[k].0 < u32::MAX - 1);
    } else if let Some(id) = find_vocab(vocab, name) {
        let k = choose|k: int| 0 <= k < vocab.len() && #[trigger] vocab[k] == (name, id);
        assert(vocab[k].1 < u32::MAX - 1);
    }
}

/// The language run stops at an id that holds no language tag.
pub proof fn lemma_language_run_maximal(m: Map<u32, Seq<char>>, start: int)
    requires
        0 <= start <= u32::MAX + 1,
    ensures
        start + language_run(m, start) <= u32::MAX ==> !({
            let next = (start + language_run(m, start)) as u32;
            &&& m.contains_key(next)
            &&& is_language_content(m[next])
        }),
    decreases u32::MAX + 1 - start,
{
    if 0 <= start <= u32::MAX && m.contains_key(start as u32) && is_language_content(
        m[start as u32],
    ) {
        lemma_language_run_maximal(m, start + 1);
    }
}

/// The layout of the special tokens that a vocabulary and added-token list
/// determine: the language run starts right after the start of transcript
/// and takes every following id whose added token is a language tag, up to
/// the first that is not; the timestamps start right after no-timestamps.
pub proof fn lemma_special_tokens_layout(
    vocab: Seq<(Seq<char>, u32)>,
    added: Seq<(u32, Seq<char>)>,
    sp: SpecialTokens,
)
    requires
        forall|k: int| 0 <= k < vocab.len() ==> #[trigger] vocab[k].1 < u32::MAX - 1,
        forall|k: int| 0 <= k < added.len() ==> #[trigger] added[k].0 < u32::MAX - 1,
        special_tokens_of(vocab, added) == Ok::<SpecialTokens, Seq<char>>(sp),
    ensures
        sp.language_begin == sp.sot + 1,
        sp.timestamp_begin == sp.no_timestamps + 1,
        sp.language_count == language_run(added_token_map(added), sp.sot + 1),
        forall|i: int|
            0 <= i < sp.language_count ==> #[trigger] added_token_map(added).contains_key(
                (sp.language_begin + i) as u32,
            ) && is_language_content(added_token_map(added)[(sp.language_begin + i) as u32]),
        sp.language_begin + sp.language_count <= u32::MAX ==> !({
            let next = (sp.language_begin + sp.language_count) as u32;
            &&& added_token_map(added).contains_key(next)
            &&& is_language_content(added_token_map(added)[next])
        }),
{
    let m = added_token_map(added);
    lemma_find_token_bound(vocab, added, "<|startoftranscript|>"@);
    lemma_find_token_bound(vocab, added, "<|notimestamps|>"@);
    let sot = find_token(vocab, added, "<|startoftranscript|>"@)->Some_0;
    assert(sp.sot == sot);
    assert(sp.no_timestamps == find_token(vocab, added, "<|notimestamps|>"@)->Some_0);
    lemma_language_run_bound(m, sot + 1);
    lemma_language_run_maximal(m, sot + 1);
    assert forall|i: int| 0 <= i < sp.language_count implies #[trigger] m.contains_key(
        (sp.language_begin + i) as u32,
    ) && is_language_content(m[(sp.language_begin + i) as u32]) by {
        lemma_language_run_is_tags(m, sot + 1, i);
    }
}

} // verus!
