//! A dictionary-driven converter from Han-character text to pinyin.
//!
//! The crate root holds the pinyin value itself: a syllable with a tone,
//! its textual encodings (tone digit, tone mark, toneless) and the
//! placement rules for tone-mark diacritics.

use vstd::prelude::*;

pub mod converter;
pub mod error;
pub mod loader;
pub mod matcher;
pub mod strutil;

use crate::error::PingyinError;
use crate::strutil::{
    append_chars, chars_of, contains_seq, contains_sub, first_where, last_where,
    lemma_first_where, lemma_first_where_is, lemma_last_where, lemma_last_where_is,
    lemma_replace_absent_pat, lemma_replace_preserves_absent, lemma_replace_removes, replace_seq,
    spec_replace, string_of,
};

verus! {

/// A syllable may hold ASCII letters and the vowel `ü`.
pub open spec fn valid_syllable_char(c: char) -> bool {
    ('a' <= c && c <= 'z') || ('A' <= c && c <= 'Z') || c == 'ü'
}

/// A well-formed syllable: non-empty, letters and `ü` only.
pub open spec fn wf_syllable(s: Seq<char>) -> bool {
    s.len() > 0 && forall|i: int| 0 <= i < s.len() ==> valid_syllable_char(s[i])
}

/// Tones run from 1 to 4; 5 stands for the neutral tone.
pub open spec fn wf_tone(t: u8) -> bool {
    1 <= t && t <= 5
}

fn is_valid_syllable_char(c: char) -> (b: bool)
    ensures
        b == valid_syllable_char(c),
{
    ('a' <= c && c <= 'z') || ('A' <= c && c <= 'Z') || c == 'ü'
}

/// The vowels that may carry a tone mark.
pub open spec fn markable_vowel(c: char) -> bool {
    c == 'a' || c == 'e' || c == 'i' || c == 'o' || c == 'u' || c == 'ü'
}

/// The diacritic form of a vowel under tones 1 to 4; the vowel itself
/// under the neutral tone 5, or when no diacritic is defined for it.
pub open spec fn spec_mark_vowel(v: char, tone: u8) -> char {
    if v == 'a' {
        if tone == 1 { 'ā' } else if tone == 2 { 'á' } else if tone == 3 { 'ǎ' }
        else if tone == 4 { 'à' } else { v }
    } else if v == 'e' {
        if tone == 1 { 'ē' } else if tone == 2 { 'é' } else if tone == 3 { 'ě' }
        else if tone == 4 { 'è' } else { v }
    } else if v == 'i' {
        if tone == 1 { 'ī' } else if tone == 2 { 'í' } else if tone == 3 { 'ǐ' }
        else if tone == 4 { 'ì' } else { v }
    } else if v == 'o' {
        if tone == 1 { 'ō' } else if tone == 2 { 'ó' } else if tone == 3 { 'ǒ' }
        else if tone == 4 { 'ò' } else { v }
    } else if v == 'u' {
        if tone == 1 { 'ū' } else if tone == 2 { 'ú' } else if tone == 3 { 'ǔ' }
        else if tone == 4 { 'ù' } else { v }
    } else if v == 'ü' {
        if tone == 1 { 'ǖ' } else if tone == 2 { 'ǘ' } else if tone == 3 { 'ǚ' }
        else if tone == 4 { 'ǜ' } else { v }
    } else {
        v
    }
}

/// The tone encoded by a diacritic-bearing vowel, or 0 for any other
/// character.
pub open spec fn mark_tone_of(c: char) -> u8 {
    if c == 'ā' || c == 'ē' || c == 'ī' || c == 'ō' || c == 'ū' || c == 'ǖ' {
        1
    } else if c == 'á' || c == 'é' || c == 'í' || c == 'ó' || c == 'ú' || c == 'ǘ' {
        2
    } else if c == 'ǎ' || c == 'ě' || c == 'ǐ' || c == 'ǒ' || c == 'ǔ' || c == 'ǚ' {
        3
    } else if c == 'à' || c == 'è' || c == 'ì' || c == 'ò' || c == 'ù' || c == 'ǜ' {
        4
    } else {
        0
    }
}

/// A character that carries a tone-mark diacritic.
pub open spec fn is_tone_marked(c: char) -> bool {
    mark_tone_of(c) != 0
}

/// The bare vowel under a diacritic-bearing vowel; any other character
/// is returned unchanged.
pub open spec fn mark_base_of(c: char) -> char {
    if c == 'ā' || c == 'á' || c == 'ǎ' || c == 'à' {
        'a'
    } else if c == 'ē' || c == 'é' || c == 'ě' || c == 'è' {
        'e'
    } else if c == 'ī' || c == 'í' || c == 'ǐ' || c == 'ì' {
        'i'
    } else if c == 'ō' || c == 'ó' || c == 'ǒ' || c == 'ò' {
        'o'
    } else if c == 'ū' || c == 'ú' || c == 'ǔ' || c == 'ù' {
        'u'
    } else if c == 'ǖ' || c == 'ǘ' || c == 'ǚ' || c == 'ǜ' {
        'ü'
    } else {
        c
    }
}

/// Marking a vowel and stripping the mark are mutually inverse.
pub proof fn lemma_mark_unmark(v: char, tone: u8)
    requires
        markable_vowel(v),
        1 <= tone <= 4,
    ensures
        mark_tone_of(spec_mark_vowel(v, tone)) == tone,
        mark_base_of(spec_mark_vowel(v, tone)) == v,
        is_tone_marked(spec_mark_vowel(v, tone)),
{
}

fn tone_mark_value(c: char) -> (t: u8)
    ensures
        t == mark_tone_of(c),
{
    if c == 'ā' || c == 'ē' || c == 'ī' || c == 'ō' || c == 'ū' || c == 'ǖ' {
        1
    } else if c == 'á' || c == 'é' || c == 'í' || c == 'ó' || c == 'ú' || c == 'ǘ' {
        2
    } else if c == 'ǎ' || c == 'ě' || c == 'ǐ' || c == 'ǒ' || c == 'ǔ' || c == 'ǚ' {
        3
    } else if c == 'à' || c == 'è' || c == 'ì' || c == 'ò' || c == 'ù' || c == 'ǜ' {
        4
    } else {
        0
    }
}

fn tone_mark_base(c: char) -> (b: char)
    ensures
        b == mark_base_of(c),
{
    if c == 'ā' || c == 'á' || c == 'ǎ' || c == 'à' {
        'a'
    } else if c == 'ē' || c == 'é' || c == 'ě' || c == 'è' {
        'e'
    } else if c == 'ī' || c == 'í' || c == 'ǐ' || c == 'ì' {
        'i'
    } else if c == 'ō' || c == 'ó' || c == 'ǒ' || c == 'ò' {
        'o'
    } else if c == 'ū' || c == 'ú' || c == 'ǔ' || c == 'ù' {
        'u'
    } else if c == 'ǖ' || c == 'ǘ' || c == 'ǚ' || c == 'ǜ' {
        'ü'
    } else {
        c
    }
}

/// Attaches the diacritic of `tone` to `vowel`; tone 5 leaves any
/// character bare.
pub fn mark_vowel(vowel: char, tone: u8) -> (r: char)
    requires
        wf_tone(tone),
        tone != 5 ==> markable_vowel(vowel),
    ensures
        r == spec_mark_vowel(vowel, tone),
{
    if tone == 5 {
        return vowel;
    }
    if vowel == 'a' {
        if tone == 1 { 'ā' } else if tone == 2 { 'á' } else if tone == 3 { 'ǎ' } else { 'à' }
    } else if vowel == 'e' {
        if tone == 1 { 'ē' } else if tone == 2 { 'é' } else if tone == 3 { 'ě' } else { 'è' }
    } else if vowel == 'i' {
        if tone == 1 { 'ī' } else if tone == 2 { 'í' } else if tone == 3 { 'ǐ' } else { 'ì' }
    } else if vowel == 'o' {
        if tone == 1 { 'ō' } else if tone == 2 { 'ó' } else if tone == 3 { 'ǒ' } else { 'ò' }
    } else if vowel == 'u' {
        if tone == 1 { 'ū' } else if tone == 2 { 'ú' } else if tone == 3 { 'ǔ' } else { 'ù' }
    } else {
        if tone == 1 { 'ǖ' } else if tone == 2 { 'ǘ' } else if tone == 3 { 'ǚ' } else { 'ǜ' }
    }
}

/// The predicate picking out diacritic-bearing characters.
pub open spec fn pred_marked() -> spec_fn(char) -> bool {
    |c: char| is_tone_marked(c)
}

/// What stripping the first tone mark of `s` yields: the sequence with
/// that mark replaced by its bare vowel, and the tone it encoded
/// (tone 5 when no mark is present).
pub open spec fn spec_remove_tone(s: Seq<char>) -> (Seq<char>, u8) {
    let i = first_where(s, pred_marked());
    if i < 0 {
        (s, 5u8)
    } else {
        (s.update(i, mark_base_of(s[i])), mark_tone_of(s[i]))
    }
}

/// Strips the first tone-mark diacritic of `pinyin` and reports the
/// tone it encoded; a mark-free input keeps its text and gets tone 5.
pub fn remove_tone(pinyin: &str) -> (r: (String, u8))
    ensures
        (r.0@, r.1) == spec_remove_tone(pinyin@),
        wf_tone(r.1),
{
    let mut v = chars_of(pinyin);
    let n = v.len();
    let mut i: usize = 0;
    while i < n
        invariant
            n == v@.len(),
            v@ == pinyin@,
            i <= n,
            forall|j: int| 0 <= j < i ==> !is_tone_marked(v@[j]),
        decreases n - i,
    {
        let c = v[i];
        if tone_mark_value(c) != 0 {
            proof {
                lemma_first_where_is(pinyin@, pred_marked(), i as int);
            }
            let tone = tone_mark_value(c);
            let base = tone_mark_base(c);
            v.set(i, base);
            let s = string_of(&v);
            return (s, tone);
        }
        i = i + 1;
    }
    proof {
        lemma_first_where(pinyin@, pred_marked());
    }
    let s = string_of(&v);
    (s, 5)
}

/// The predicate picking out one fixed character.
pub open spec fn pred_is(c0: char) -> spec_fn(char) -> bool {
    |c: char| c == c0
}

/// The predicate picking out the weak vowels `i`, `u` and `ü`.
pub open spec fn pred_weak_vowel() -> spec_fn(char) -> bool {
    |c: char| c == 'i' || c == 'u' || c == 'ü'
}

/// Index of the first `üe` pair, or -1 if none occurs.
pub open spec fn first_ue(s: Seq<char>) -> int
    decreases s.len(),
{
    if s.len() < 2 {
        -1
    } else if s[0] == 'ü' && s[1] == 'e' {
        0
    } else {
        let r = first_ue(s.drop_first());
        if r < 0 {
            -1
        } else {
            r + 1
        }
    }
}

pub open spec fn contains_ue(s: Seq<char>) -> bool {
    first_ue(s) >= 0
}

proof fn lemma_first_ue(s: Seq<char>)
    ensures
        first_ue(s) == -1 || 0 <= first_ue(s) <= s.len() - 2,
        first_ue(s) == -1 ==> forall|i: int| 0 <= i < s.len() - 1 ==> !(#[trigger] s[i] == 'ü' && s[i + 1] == 'e'),
        first_ue(s) >= 0 ==> s[first_ue(s)] == 'ü' && s[first_ue(s) + 1] == 'e',
        first_ue(s) >= 0 ==> forall|j: int| 0 <= j < first_ue(s) ==> !(#[trigger] s[j] == 'ü' && s[j + 1] == 'e'),
    decreases s.len(),
{
    if s.len() >= 2 && !(s[0] == 'ü' && s[1] == 'e') {
        let t = s.drop_first();
        lemma_first_ue(t);
        let r = first_ue(t);
        assert(forall|i: int| 0 <= i < t.len() ==> t[i] == s[i + 1]);
        if r == -1 {
            assert forall|i: int| 0 <= i < s.len() - 1 implies !(#[trigger] s[i] == 'ü' && s[i + 1] == 'e') by {
                if i >= 1 {
                    assert(s[i] == t[i - 1] && s[i + 1] == t[i]);
                }
            }
        } else {
            assert forall|j: int| 0 <= j < r + 1 implies !(#[trigger] s[j] == 'ü' && s[j + 1] == 'e') by {
                if j >= 1 {
                    assert(s[j] == t[j - 1] && s[j + 1] == t[j]);
                }
            }
        }
    }
}

proof fn lemma_first_ue_is(s: Seq<char>, k: int)
    requires
        0 <= k <= s.len() - 2,
        s[k] == 'ü' && s[k + 1] == 'e',
        forall|j: int| 0 <= j < k ==> !(#[trigger] s[j] == 'ü' && s[j + 1] == 'e'),
    ensures
        first_ue(s) == k,
{
    lemma_first_ue(s);
}

/// The character position that carries the tone mark of a syllable:
/// the first `a` if any; else the first `e`; else the first `o`
/// (the `o` of `ou` among them); else the last of `i`, `u`, `ü`.
/// -1 when the syllable has no vowel at all.
pub open spec fn spec_nucleus(s: Seq<char>) -> int {
    if first_where(s, pred_is('a')) >= 0 {
        first_where(s, pred_is('a'))
    } else if first_where(s, pred_is('e')) >= 0 {
        first_where(s, pred_is('e'))
    } else if first_where(s, pred_is('o')) >= 0 {
        first_where(s, pred_is('o'))
    } else {
        last_where(s, pred_weak_vowel())
    }
}

/// The tone-marked rendering: the nucleus vowel exchanged for its
/// diacritic form; a vowel-free sequence is kept unchanged.
pub open spec fn spec_format_to_mark(s: Seq<char>, tone: u8) -> Seq<char> {
    let i = spec_nucleus(s);
    if i >= 0 {
        s.update(i, spec_mark_vowel(s[i], tone))
    } else {
        s
    }
}

fn find_first_char(v: &Vec<char>, c0: char) -> (r: Option<usize>)
    ensures
        r is None ==> first_where(v@, pred_is(c0)) == -1,
        r is Some ==> first_where(v@, pred_is(c0)) == r->0 && r->0 < v@.len(),
{
    let mut i: usize = 0;
    while i < v.len()
        invariant
            i <= v@.len(),
            forall|j: int| 0 <= j < i ==> v@[j] != c0,
        decreases v@.len() - i,
    {
        if v[i] == c0 {
            proof {
                lemma_first_where_is(v@, pred_is(c0), i as int);
            }
            return Some(i);
        }
        i = i + 1;
    }
    proof {
        lemma_first_where(v@, pred_is(c0));
    }
    None
}

fn find_first_ue_pair(v: &Vec<char>) -> (r: Option<usize>)
    ensures
        r is None ==> first_ue(v@) == -1,
        r is Some ==> first_ue(v@) == r->0 && r->0 + 1 < v@.len(),
{
    if v.len() < 2 {
        proof {
            lemma_first_ue(v@);
        }
        return None;
    }
    let mut i: usize = 0;
    while i < v.len() - 1
        invariant
            v@.len() >= 2,
            i <= v@.len() - 1,
            forall|j: int| 0 <= j < i ==> !(#[trigger] v@[j] == 'ü' && v@[j + 1] == 'e'),
        decreases v@.len() - i,
    {
        if v[i] == 'ü' && v[i + 1] == 'e' {
            proof {
                lemma_first_ue_is(v@, i as int);
            }
            return Some(i);
        }
        i = i + 1;
    }
    proof {
        lemma_first_ue(v@);
    }
    None
}

fn find_last_weak_vowel(v: &Vec<char>) -> (r: Option<usize>)
    ensures
        r is None ==> last_where(v@, pred_weak_vowel()) == -1,
        r is Some ==> last_where(v@, pred_weak_vowel()) == r->0 && r->0 < v@.len(),
{
    let mut i: usize = v.len();
    while i > 0
        invariant
            i <= v@.len(),
            forall|j: int| i <= j < v@.len() ==> !(v@[j] == 'i' || v@[j] == 'u' || v@[j] == 'ü'),
        decreases i,
    {
        i = i - 1;
        let c = v[i];
        if c == 'i' || c == 'u' || c == 'ü' {
            proof {
                lemma_last_where_is(v@, pred_weak_vowel(), i as int);
            }
            return Some(i);
        }
    }
    proof {
        lemma_last_where(v@, pred_weak_vowel());
    }
    None
}

fn find_nucleus(v: &Vec<char>) -> (r: Option<usize>)
    ensures
        r is None ==> spec_nucleus(v@) == -1,
        r is Some ==> spec_nucleus(v@) == r->0 && r->0 < v@.len() && markable_vowel(v@[r->0 as int]),
{
    if let Some(i) = find_first_char(v, 'a') {
        proof {
            lemma_first_where(v@, pred_is('a'));
        }
        return Some(i);
    }
    if let Some(i) = find_first_char(v, 'e') {
        proof {
            lemma_first_where(v@, pred_is('e'));
        }
        return Some(i);
    }
    if let Some(i) = find_first_char(v, 'o') {
        proof {
            lemma_first_where(v@, pred_is('o'));
        }
        return Some(i);
    }
    if let Some(i) = find_last_weak_vowel(v) {
        proof {
            lemma_last_where(v@, pred_weak_vowel());
        }
        return Some(i);
    }
    None
}

/// Renders `pinyin` in tone-mark form: the nucleus vowel — first `a`;
/// else first `e`; else first `o`; else the last of `i`/`u`/`ü` —
/// takes the diacritic of `tone`.
pub fn format_to_mark(pinyin: &str, tone: u8) -> (r: String)
    requires
        wf_tone(tone),
    ensures
        r@ == spec_format_to_mark(pinyin@, tone),
{
    let mut v = chars_of(pinyin);
    match find_nucleus(&v) {
        Some(i) => {
            let m = mark_vowel(v[i], tone);
            v.set(i, m);
            string_of(&v)
        },
        None => string_of(&v),
    }
}

/// The predicate picking out the diacritics of one tone.
pub open spec fn pred_marked_tone(t: u8) -> spec_fn(char) -> bool {
    |c: char| mark_tone_of(c) == t && t != 0
}

/// What reading a tone mark numerically yields: scanning tones 1 to 4
/// in turn, the first tone whose diacritic occurs is stripped at its
/// first occurrence; a mark-free sequence keeps its text with tone 5.
pub open spec fn spec_transform_mark(s: Seq<char>) -> (Seq<char>, u8) {
    if first_where(s, pred_marked_tone(1)) >= 0 {
        let i = first_where(s, pred_marked_tone(1));
        (s.update(i, mark_base_of(s[i])), 1u8)
    } else if first_where(s, pred_marked_tone(2)) >= 0 {
        let i = first_where(s, pred_marked_tone(2));
        (s.update(i, mark_base_of(s[i])), 2u8)
    } else if first_where(s, pred_marked_tone(3)) >= 0 {
        let i = first_where(s, pred_marked_tone(3));
        (s.update(i, mark_base_of(s[i])), 3u8)
    } else if first_where(s, pred_marked_tone(4)) >= 0 {
        let i = first_where(s, pred_marked_tone(4));
        (s.update(i, mark_base_of(s[i])), 4u8)
    } else {
        (s, 5u8)
    }
}

fn find_first_mark_of(v: &Vec<char>, t: u8) -> (r: Option<usize>)
    requires
        1 <= t <= 4,
    ensures
        r is None ==> first_where(v@, pred_marked_tone(t)) == -1,
        r is Some ==> first_where(v@, pred_marked_tone(t)) == r->0 && r->0 < v@.len(),
{
    let mut i: usize = 0;
    while i < v.len()
        invariant
            1 <= t <= 4,
            i <= v@.len(),
            forall|j: int| 0 <= j < i ==> mark_tone_of(v@[j]) != t,
        decreases v@.len() - i,
    {
        if tone_mark_value(v[i]) == t {
            proof {
                lemma_first_where_is(v@, pred_marked_tone(t), i as int);
            }
            return Some(i);
        }
        i = i + 1;
    }
    proof {
        lemma_first_where(v@, pred_marked_tone(t));
    }
    None
}

/// A single pinyin syllable with its tone.
#[derive(Debug)]
pub struct Pinyin {
    pub pinyin: String,
    pub tone: u8,
}

impl View for Pinyin {
    type V = (Seq<char>, u8);

    open spec fn view(&self) -> (Seq<char>, u8) {
        (self.pinyin@, self.tone)
    }
}

/// A well-formed pinyin value: letters and `ü` only, tone 1 to 5.
pub open spec fn wf_pinyin(p: (Seq<char>, u8)) -> bool {
    wf_syllable(p.0) && wf_tone(p.1)
}

/// The digit character of a tone.
pub open spec fn digit_char(t: u8) -> char {
    if t == 0 { '0' } else if t == 1 { '1' } else if t == 2 { '2' } else if t == 3 { '3' }
    else if t == 4 { '4' } else if t == 5 { '5' } else if t == 6 { '6' } else if t == 7 { '7' }
    else if t == 8 { '8' } else { '9' }
}

/// The value of a decimal digit character; 10 for any other character.
pub open spec fn digit_val(c: char) -> u8 {
    if c == '0' { 0 } else if c == '1' { 1 } else if c == '2' { 2 } else if c == '3' { 3 }
    else if c == '4' { 4 } else if c == '5' { 5 } else if c == '6' { 6 } else if c == '7' { 7 }
    else if c == '8' { 8 } else if c == '9' { 9 } else { 10 }
}

pub open spec fn is_digit(c: char) -> bool {
    '0' <= c && c <= '9'
}

fn digit_char_of(t: u8) -> (c: char)
    requires
        t <= 9,
    ensures
        c == digit_char(t),
{
    if t == 0 { '0' } else if t == 1 { '1' } else if t == 2 { '2' } else if t == 3 { '3' }
    else if t == 4 { '4' } else if t == 5 { '5' } else if t == 6 { '6' } else if t == 7 { '7' }
    else if t == 8 { '8' } else { '9' }
}

fn digit_val_of(c: char) -> (t: u8)
    requires
        is_digit(c),
    ensures
        t == digit_val(c),
{
    if c == '0' { 0 } else if c == '1' { 1 } else if c == '2' { 2 } else if c == '3' { 3 }
    else if c == '4' { 4 } else if c == '5' { 5 } else if c == '6' { 6 } else if c == '7' { 7 }
    else if c == '8' { 8 } else { 9 }
}

/// The tone-digit encoding of a pinyin value: syllable then digit.
pub open spec fn spec_format_number(p: (Seq<char>, u8)) -> Seq<char> {
    p.0.push(digit_char(p.1))
}

fn check_wf_syllable(v: &Vec<char>) -> (b: bool)
    ensures
        b == wf_syllable(v@),
{
    if v.len() == 0 {
        return false;
    }
    let mut i: usize = 0;
    while i < v.len()
        invariant
            i <= v@.len(),
            forall|j: int| 0 <= j < i ==> valid_syllable_char(v@[j]),
        decreases v@.len() - i,
    {
        if !is_valid_syllable_char(v[i]) {
            return false;
        }
        i = i + 1;
    }
    true
}

impl Pinyin {
    pub open spec fn wf(&self) -> bool {
        wf_pinyin(self@)
    }

    /// A pinyin value from a syllable and a tone. The syllable must be
    /// non-empty and hold only letters and `ü`; the tone must lie in
    /// 1 to 5.
    pub fn new(pinyin: &str, tone: u8) -> (r: Pinyin)
        requires
            wf_tone(tone),
            wf_syllable(pinyin@),
        ensures
            r@ == (pinyin@, tone),
            r.wf(),
    {
        Pinyin { pinyin: String::from_str(pinyin), tone }
    }

    /// Tone 5 is the neutral tone.
    pub fn is_toneless(&self) -> (b: bool)
        ensures
            b == (self.tone == 5),
    {
        self.tone == 5
    }

    /// The tone-digit encoding: syllable followed by the tone digit.
    pub fn to_string(&self) -> (r: String)
        requires
            wf_tone(self.tone),
        ensures
            r@ == spec_format_number(self@),
    {
        let mut v = chars_of(self.pinyin.as_str());
        v.push(digit_char_of(self.tone));
        string_of(&v)
    }
}

/// Reads a tone-marked syllable into a pinyin value with a numeric
/// tone: tones 1 to 4 are tried in turn and the first one whose
/// diacritic occurs is stripped; a mark-free input gets tone 5.
pub fn transform_mark_to_number(pinyin: &str) -> (r: Pinyin)
    requires
        wf_syllable(spec_transform_mark(pinyin@).0),
    ensures
        r@ == spec_transform_mark(pinyin@),
        r.wf(),
{
    let mut v = chars_of(pinyin);
    let mut tone: u8 = 5;
    if let Some(i) = find_first_mark_of(&v, 1) {
        proof { lemma_first_where(pinyin@, pred_marked_tone(1)); }
        let b = tone_mark_base(v[i]);
        v.set(i, b);
        tone = 1;
    } else if let Some(i) = find_first_mark_of(&v, 2) {
        proof { lemma_first_where(pinyin@, pred_marked_tone(2)); }
        let b = tone_mark_base(v[i]);
        v.set(i, b);
        tone = 2;
    } else if let Some(i) = find_first_mark_of(&v, 3) {
        proof { lemma_first_where(pinyin@, pred_marked_tone(3)); }
        let b = tone_mark_base(v[i]);
        v.set(i, b);
        tone = 3;
    } else if let Some(i) = find_first_mark_of(&v, 4) {
        proof { lemma_first_where(pinyin@, pred_marked_tone(4)); }
        let b = tone_mark_base(v[i]);
        v.set(i, b);
        tone = 4;
    }
    let s = string_of(&v);
    Pinyin { pinyin: s, tone }
}

/// What parsing `"<syllable><optional tone digit>"` yields: a trailing
/// digit 1 to 5 names the tone; a digit-free input may carry one
/// tone-mark diacritic instead, and otherwise gets tone 5. The
/// syllable left over must be well-formed.
pub open spec fn spec_parse_pinyin(s: Seq<char>) -> Option<(Seq<char>, u8)> {
    if s.len() == 0 {
        Option::None
    } else if is_digit(s.last()) {
        let t = digit_val(s.last());
        let syl = s.drop_last();
        if 1 <= t && t <= 5 && wf_syllable(syl) {
            Option::Some((syl, t))
        } else {
            Option::None
        }
    } else {
        let (syl, t) = spec_remove_tone(s);
        if wf_syllable(syl) {
            Option::Some((syl, t))
        } else {
            Option::None
        }
    }
}

impl Pinyin {
    /// Parses `"<syllable><optional tone digit>"`; a tone-marked
    /// syllable parses by stripping the mark. Fails exactly on an
    /// empty input, a trailing digit outside 1 to 5, or a leftover
    /// syllable that is not letters-and-`ü`.
    pub fn from_str(s: &str) -> (r: Result<Pinyin, PingyinError>)
        ensures
            r is Ok <==> spec_parse_pinyin(s@) is Some,
            r is Ok ==> r->Ok_0@ == spec_parse_pinyin(s@)->0 && r->Ok_0.wf(),
            r is Err ==> (r->Err_0 matches PingyinError::ParseStrError(m) && m@ == s@),
    {
        let mut v = chars_of(s);
        let n = v.len();
        if n == 0 {
            return Result::Err(PingyinError::ParseStrError(String::from_str(s)));
        }
        let lastc = v[n - 1];
        if '0' <= lastc && lastc <= '9' {
            assert(s@.last() == lastc);
            let t = digit_val_of(lastc);
            if t < 1 || t > 5 {
                return Result::Err(PingyinError::ParseStrError(String::from_str(s)));
            }
            v.pop();
            if !check_wf_syllable(&v) {
                return Result::Err(PingyinError::ParseStrError(String::from_str(s)));
            }
            let sy = string_of(&v);
            Result::Ok(Pinyin { pinyin: sy, tone: t })
        } else {
            assert(!is_digit(s@.last()));
            let (base, tone) = remove_tone(s);
            let bv = chars_of(base.as_str());
            if !check_wf_syllable(&bv) {
                return Result::Err(PingyinError::ParseStrError(String::from_str(s)));
            }
            Result::Ok(Pinyin { pinyin: base, tone })
        }
    }
}

/// Law: a well-formed pinyin value rendered in tone-digit form parses
/// back to itself.
pub proof fn lemma_format_number_round_trip(p: (Seq<char>, u8))
    requires
        wf_pinyin(p),
    ensures
        spec_parse_pinyin(spec_format_number(p)) == Option::Some(p),
{
    let s = spec_format_number(p);
    assert(s.last() == digit_char(p.1));
    assert(is_digit(digit_char(p.1)));
    assert(digit_val(digit_char(p.1)) == p.1);
    assert(s.drop_last() =~= p.0);
}

/// A tone mark is never the letter `ü`, and never the letter `v`
/// unless put on one.
proof fn lemma_mark_not_umlaut_or_v(c: char, t: u8)
    ensures
        spec_mark_vowel(c, t) == 'ü' ==> c == 'ü',
        spec_mark_vowel(c, t) == 'v' ==> c == 'v',
{
}

/// The tone-marked form of a `c`-free sequence is `c`-free, for any
/// `c` that is neither a diacritic nor a vowel.
proof fn lemma_format_to_mark_free(s: Seq<char>, tone: u8, c: char)
    requires
        !s.contains(c),
        forall|v: char, t: u8| spec_mark_vowel(v, t) == c ==> v == c,
    ensures
        !spec_format_to_mark(s, tone).contains(c),
{
    lemma_first_where(s, pred_is('a'));
    lemma_first_ue(s);
    lemma_first_where(s, pred_is('e'));
    lemma_first_where(s, pred_is('o'));
    lemma_last_where(s, pred_weak_vowel());
    let i = spec_nucleus(s);
    if i >= 0 {
        assert(0 <= i < s.len());
        assert(s[i] != c) by {
            if s[i] == c {
                assert(s.contains(c));
            }
        }
        let r = s.update(i, spec_mark_vowel(s[i], tone));
        assert forall|k: int| 0 <= k < r.len() implies r[k] != c by {
            if k != i {
                assert(r[k] == s[k]);
                if s[k] == c {
                    assert(s.contains(c));
                }
            } else {
                assert(r[i] == spec_mark_vowel(s[i], tone));
            }
        }
    }
}

/// Law: under the `V` ü-format, no rendering of any pinyin value in
/// any tone style contains the letter `ü`.
pub proof fn lemma_yu_v_has_no_umlaut(p: (Seq<char>, u8), style: ToneStyle)
    ensures
        !spec_format_with_yu(p, style, YuFormat::V).contains('ü'),
{
    let py = spec_yu_adjust(p.0, YuFormat::V);
    lemma_replace_removes(p.0, 'ü', seq!['v']);
    assert(!py.contains('ü'));
    if has_lyu_nyu(py) && style != ToneStyle::Toneless {
    } else {
        match style {
            ToneStyle::Number => {
                let r = py.push(digit_char(p.1));
                assert forall|k: int| 0 <= k < r.len() implies r[k] != 'ü' by {
                    if k < py.len() {
                        assert(r[k] == py[k]);
                    }
                }
            },
            ToneStyle::Mark => {
                lemma_format_to_mark_free(py, p.1, 'ü');
            },
            ToneStyle::Toneless => {
                lemma_replace_removes(py, 'ü', seq!['v']);
            },
        }
    }
}

/// Law: under the `U` ü-format, no rendering of any pinyin value in
/// any tone style contains the letter `ü`.
pub proof fn lemma_yu_u_has_no_umlaut(p: (Seq<char>, u8), style: ToneStyle)
    ensures
        !spec_format_with_yu(p, style, YuFormat::U).contains('ü'),
{
    let py = spec_yu_adjust(p.0, YuFormat::U);
    assert(!seq!['u'].contains('ü')) by {
        assert(forall|i: int| 0 <= i < 1 ==> seq!['u'][i] == 'u');
    }
    lemma_replace_removes(p.0, 'ü', seq!['u']);
    assert(!py.contains('ü'));
    if has_lyu_nyu(py) && style != ToneStyle::Toneless {
    } else {
        match style {
            ToneStyle::Number => {
                let r = py.push(digit_char(p.1));
                assert forall|k: int| 0 <= k < r.len() implies r[k] != 'ü' by {
                    if k < py.len() {
                        assert(r[k] == py[k]);
                    }
                }
            },
            ToneStyle::Mark => {
                lemma_format_to_mark_free(py, p.1, 'ü');
            },
            ToneStyle::Toneless => {
                lemma_replace_removes(py, 'ü', seq!['v']);
            },
        }
    }
}

/// Law: under the `Yu` ü-format, normalization introduces no letter
/// `v`: a `v`-free syllable renders `v`-free. The one exception is
/// the toneless style on a syllable holding `üe`, whose kept `ü`
/// falls back to `v`; that case is excluded here.
pub proof fn lemma_yu_yu_adds_no_v(p: (Seq<char>, u8), style: ToneStyle)
    requires
        !p.0.contains('v'),
        style == ToneStyle::Toneless ==> !contains_ue(p.0),
    ensures
        !spec_format_with_yu(p, style, YuFormat::Yu).contains('v'),
{
    let py = spec_yu_adjust(p.0, YuFormat::Yu);
    assert(!py.contains('v')) by {
        if !contains_ue(p.0) {
            assert(!seq!['y', 'u'].contains('v')) by {
                assert(forall|i: int|
                    0 <= i < 2 ==> seq!['y', 'u'][i] == 'y' || seq!['y', 'u'][i] == 'u');
            }
            lemma_replace_preserves_absent(p.0, seq!['ü'], seq!['y', 'u'], 'v');
        }
    }
    if has_lyu_nyu(py) && style != ToneStyle::Toneless {
    } else {
        match style {
            ToneStyle::Number => {
                let r = py.push(digit_char(p.1));
                assert forall|k: int| 0 <= k < r.len() implies r[k] != 'v' by {
                    if k < py.len() {
                        assert(r[k] == py[k]);
                    }
                }
            },
            ToneStyle::Mark => {
                assert forall|v: char, t: u8| spec_mark_vowel(v, t) == 'v' implies v == 'v' by {
                    lemma_mark_not_umlaut_or_v(v, t);
                }
                lemma_format_to_mark_free(py, p.1, 'v');
            },
            ToneStyle::Toneless => {
                assert(!contains_ue(p.0));
                assert(!seq!['y', 'u'].contains('ü')) by {
                    assert(forall|i: int|
                        0 <= i < 2 ==> seq!['y', 'u'][i] == 'y' || seq!['y', 'u'][i] == 'u');
                }
                lemma_replace_removes(p.0, 'ü', seq!['y', 'u']);
                assert(!py.contains('ü'));
                lemma_replace_absent_pat(py, 'ü', seq!['v']);
            },
        }
    }
}

impl PartialEq for Pinyin {
    fn eq(&self, other: &Pinyin) -> bool {
        self.pinyin == other.pinyin && self.tone == other.tone
    }
}

impl vstd::std_specs::cmp::PartialEqSpecImpl for Pinyin {
    open spec fn obeys_eq_spec() -> bool {
        true
    }

    open spec fn eq_spec(&self, other: &Pinyin) -> bool {
        self@ == other@
    }
}

/// How tones are rendered: as a trailing digit, as a diacritic, or
/// not at all.
#[derive(Debug, PartialEq, Eq, Structural, Clone, Copy)]
pub enum ToneStyle {
    Number,
    Mark,
    Toneless,
}

/// How the vowel `ü` is rendered: expanded to `yu`, mapped to the
/// ASCII-safe plain `u`, or mapped to the ASCII `v`.
#[derive(Debug, PartialEq, Eq, Structural, Clone, Copy)]
pub enum YuFormat {
    Yu,
    U,
    V,
}

/// What parsing a tone-style name yields.
pub open spec fn spec_parse_tone_style(s: Seq<char>) -> Option<ToneStyle> {
    if s == seq!['n', 'u', 'm', 'b', 'e', 'r'] {
        Option::Some(ToneStyle::Number)
    } else if s == seq!['m', 'a', 'r', 'k'] {
        Option::Some(ToneStyle::Mark)
    } else if s == seq!['n', 'o', 'n', 'e'] {
        Option::Some(ToneStyle::Toneless)
    } else {
        Option::None
    }
}

impl ToneStyle {
    /// Parses `"number"`, `"mark"` or `"none"`; any other input fails.
    pub fn from_str(s: &str) -> (r: Result<ToneStyle, PingyinError>)
        ensures
            r is Ok <==> spec_parse_tone_style(s@) is Some,
            r is Ok ==> r->Ok_0 == spec_parse_tone_style(s@)->0,
            r is Err ==> (r->Err_0 matches PingyinError::ParseStrError(m) && m@ == s@),
    {
        let v = chars_of(s);
        let mut number: Vec<char> = crate::strutil::vec3('n', 'u', 'm');
        number.push('b');
        number.push('e');
        number.push('r');
        assert(number@ =~= seq!['n', 'u', 'm', 'b', 'e', 'r']);
        let mut mark: Vec<char> = crate::strutil::vec3('m', 'a', 'r');
        mark.push('k');
        assert(mark@ =~= seq!['m', 'a', 'r', 'k']);
        let mut none_name: Vec<char> = crate::strutil::vec3('n', 'o', 'n');
        none_name.push('e');
        assert(none_name@ =~= seq!['n', 'o', 'n', 'e']);
        if crate::strutil::vec_eq(&v, &number) {
            Result::Ok(ToneStyle::Number)
        } else if crate::strutil::vec_eq(&v, &mark) {
            Result::Ok(ToneStyle::Mark)
        } else if crate::strutil::vec_eq(&v, &none_name) {
            Result::Ok(ToneStyle::Toneless)
        } else {
            Result::Err(PingyinError::ParseStrError(String::from_str(s)))
        }
    }
}

/// The toneless rendering: every `ü` becomes `v`.
pub open spec fn spec_format_none(s: Seq<char>) -> Seq<char> {
    spec_replace(s, seq!['ü'], seq!['v'])
}

/// The rendering of a pinyin value under a tone style: syllable plus
/// tone digit, tone-marked syllable, or bare syllable with `ü`
/// written `v`.
pub open spec fn spec_format(p: (Seq<char>, u8), style: ToneStyle) -> Seq<char> {
    match style {
        ToneStyle::Number => spec_format_number(p),
        ToneStyle::Mark => spec_format_to_mark(p.0, p.1),
        ToneStyle::Toneless => spec_format_none(p.0),
    }
}

/// The syllable text after ü-normalization: `Yu` expands `ü` to `yu`
/// except in `üe` syllables, `V` maps `ü` to `v`, and `U` maps `ü`
/// to the ASCII-safe plain `u`.
pub open spec fn spec_yu_adjust(s: Seq<char>, yu: YuFormat) -> Seq<char> {
    match yu {
        YuFormat::Yu => if contains_ue(s) {
            s
        } else {
            spec_replace(s, seq!['ü'], seq!['y', 'u'])
        },
        YuFormat::V => spec_replace(s, seq!['ü'], seq!['v']),
        YuFormat::U => spec_replace(s, seq!['ü'], seq!['u']),
    }
}

/// `lyu` or `nyu` occurs: such a token is rendered toneless, as the
/// marked form would be non-standard.
pub open spec fn has_lyu_nyu(s: Seq<char>) -> bool {
    contains_seq(s, seq!['l', 'y', 'u']) || contains_seq(s, seq!['n', 'y', 'u'])
}

/// The rendering of a pinyin value under a tone style and a
/// ü-format: the ü-normalized syllable, rendered per the style —
/// except that a syllable holding `lyu` or `nyu` suppresses tone
/// digits and marks.
pub open spec fn spec_format_with_yu(p: (Seq<char>, u8), style: ToneStyle, yu: YuFormat) -> Seq<
    char,
> {
    let s = spec_yu_adjust(p.0, yu);
    if has_lyu_nyu(s) && style != ToneStyle::Toneless {
        s
    } else {
        spec_format((s, p.1), style)
    }
}

fn yu_adjust(v: &Vec<char>, yu: YuFormat) -> (r: Vec<char>)
    ensures
        r@ == spec_yu_adjust(v@, yu),
{
    let umlaut: Vec<char> = crate::strutil::vec1('ü');
    match yu {
        YuFormat::Yu => {
            if let Some(_) = find_first_ue_pair(v) {
                let mut out: Vec<char> = Vec::new();
                append_chars(&mut out, v);
                out
            } else {
                let rep: Vec<char> = crate::strutil::vec2('y', 'u');
                replace_seq(v, &umlaut, &rep)
            }
        },
        YuFormat::V => {
            let rep: Vec<char> = crate::strutil::vec1('v');
            replace_seq(v, &umlaut, &rep)
        },
        YuFormat::U => {
            let rep: Vec<char> = crate::strutil::vec1('u');
            replace_seq(v, &umlaut, &rep)
        },
    }
}

impl Pinyin {
    /// Renders the syllable under `style` alone; `ü` stays `ü` in the
    /// marked and numbered forms and becomes `v` in the toneless form.
    pub fn format(&self, style: ToneStyle) -> (r: String)
        requires
            wf_tone(self.tone),
        ensures
            r@ == spec_format(self@, style),
    {
        match style {
            ToneStyle::Number => self.to_string(),
            ToneStyle::Mark => format_to_mark(self.pinyin.as_str(), self.tone),
            ToneStyle::Toneless => {
                let v = chars_of(self.pinyin.as_str());
                let umlaut: Vec<char> = crate::strutil::vec1('ü');
                let rep: Vec<char> = crate::strutil::vec1('v');
                let out = replace_seq(&v, &umlaut, &rep);
                string_of(&out)
            },
        }
    }

    /// Renders the syllable under a tone style and a ü-format.
    pub fn format_with_yu(&self, style: ToneStyle, yu_format: YuFormat) -> (r: String)
        requires
            wf_tone(self.tone),
        ensures
            r@ == spec_format_with_yu(self@, style, yu_format),
    {
        let v = chars_of(self.pinyin.as_str());
        let s = yu_adjust(&v, yu_format);
        let lyu: Vec<char> = crate::strutil::vec3('l', 'y', 'u');
        let nyu: Vec<char> = crate::strutil::vec3('n', 'y', 'u');
        if (contains_sub(&s, &lyu) || contains_sub(&s, &nyu)) && !matches!(style, ToneStyle::Toneless) {
            return string_of(&s);
        }
        match style {
            ToneStyle::Number => {
                let mut out = s;
                out.push(digit_char_of(self.tone));
                string_of(&out)
            },
            ToneStyle::Mark => {
                let t = string_of(&s);
                format_to_mark(t.as_str(), self.tone)
            },
            ToneStyle::Toneless => {
                let umlaut: Vec<char> = crate::strutil::vec1('ü');
                let rep: Vec<char> = crate::strutil::vec1('v');
                let out = replace_seq(&s, &umlaut, &rep);
                string_of(&out)
            },
        }
    }
}

/// The views of a pinyin vector, elementwise.
pub open spec fn views_of_pinyins(v: Seq<Pinyin>) -> Seq<(Seq<char>, u8)> {
    v.map_values(|p: Pinyin| p@)
}

/// All tones of a parsed annotation are well-formed.
pub open spec fn wf_pinyins(ps: Seq<(Seq<char>, u8)>) -> bool {
    forall|j: int| 0 <= j < ps.len() ==> wf_tone((#[trigger] ps[j]).1)
}

proof fn lemma_views_push(v: Seq<Pinyin>, p: Pinyin)
    ensures
        views_of_pinyins(v.push(p)) == views_of_pinyins(v).push(p@),
{
    assert(views_of_pinyins(v.push(p)) =~= views_of_pinyins(v).push(p@));
}

/// What parsing a space-separated run of pinyin tokens yields: every
/// token must parse; an empty token fails.
pub open spec fn spec_parse_syllables(s: Seq<char>) -> Option<Seq<(Seq<char>, u8)>>
    decreases s.len(),
{
    let i = first_where(s, pred_is(' '));
    if 0 <= i && i < s.len() {
        match spec_parse_pinyin(s.subrange(0, i)) {
            Option::Some(p) => match spec_parse_syllables(s.skip(i + 1)) {
                Option::Some(rest) => Option::Some(seq![p] + rest),
                Option::None => Option::None,
            },
            Option::None => Option::None,
        }
    } else {
        match spec_parse_pinyin(s) {
            Option::Some(p) => Option::Some(seq![p]),
            Option::None => Option::None,
        }
    }
}

pub(crate) fn find_char_from(s: &str, start: usize, n: usize, c: char) -> (k: usize)
    requires
        n <= s@.len(),
        start <= n,
    ensures
        start <= k <= n,
        k < n ==> s@[k as int] == c,
        forall|j: int| start <= j < k ==> s@[j] != c,
{
    let mut k: usize = start;
    while k < n
        invariant
            n <= s@.len(),
            start <= k <= n,
            forall|j: int| start <= j < k ==> s@[j] != c,
        decreases n - k,
    {
        if s.get_char(k) == c {
            return k;
        }
        k = k + 1;
    }
    k
}

/// Parses a space-separated run of pinyin tokens, failing on the
/// first malformed token.
pub fn parse_syllables(s: &str) -> (r: Result<Vec<Pinyin>, PingyinError>)
    ensures
        r is Ok <==> spec_parse_syllables(s@) is Some,
        r is Ok ==> views_of_pinyins(r->Ok_0@) == spec_parse_syllables(s@)->0,
        r is Ok ==> forall|j: int| 0 <= j < r->Ok_0@.len() ==> (#[trigger] r->Ok_0@[j]).wf(),
        r is Err ==> r->Err_0 matches PingyinError::ParseStrError(_),
{
    let n = s.unicode_len();
    let mut out: Vec<Pinyin> = Vec::new();
    let mut start: usize = 0;
    proof {
        assert(s@.skip(0) =~= s@);
        assert(views_of_pinyins(out@) =~= Seq::<(Seq<char>, u8)>::empty());
    }
    loop
        invariant
            n == s@.len(),
            start <= n,
            spec_parse_syllables(s@) is Some <==> spec_parse_syllables(s@.skip(start as int))
                is Some,
            spec_parse_syllables(s@) is Some ==> spec_parse_syllables(s@)->0 == views_of_pinyins(
                out@,
            ) + spec_parse_syllables(s@.skip(start as int))->0,
            forall|j: int| 0 <= j < out@.len() ==> (#[trigger] out@[j]).wf(),
        decreases n - start,
    {
        let ghost tail = s@.skip(start as int);
        let k = find_char_from(s, start, n, ' ');
        proof {
            if k < n {
                assert(tail[k - start] == s@[k as int]);
                assert forall|j: int| 0 <= j < k - start implies !(pred_is(' ')(tail[j])) by {
                    assert(tail[j] == s@[start + j]);
                }
                lemma_first_where_is(tail, pred_is(' '), k - start);
            } else {
                assert forall|j: int| 0 <= j < tail.len() implies !(pred_is(' ')(tail[j])) by {
                    assert(tail[j] == s@[start + j]);
                }
                lemma_first_where(tail, pred_is(' '));
                if first_where(tail, pred_is(' ')) >= 0 {
                    assert(pred_is(' ')(tail[first_where(tail, pred_is(' '))]));
                }
                assert(first_where(tail, pred_is(' ')) == -1);
            }
        }
        let token = s.substring_char(start, k);
        proof {
            assert(token@ =~= tail.subrange(0, k - start));
        }
        match Pinyin::from_str(token) {
            Result::Err(e) => {
                proof {
                    if k < n {
                        assert(spec_parse_syllables(tail) is None);
                    } else {
                        assert(token@ =~= tail);
                        assert(spec_parse_syllables(tail) is None);
                    }
                }
                return Result::Err(e);
            },
            Result::Ok(p) => {
                let ghost old_out = out@;
                out.push(p);
                proof {
                    lemma_views_push(old_out, p);
                }
                if k == n {
                    proof {
                        assert(token@ =~= tail);
                        assert(spec_parse_syllables(tail) == Option::Some(seq![p@]));
                        assert(views_of_pinyins(old_out) + seq![p@] =~= views_of_pinyins(
                            old_out,
                        ).push(p@));
                    }
                    return Result::Ok(out);
                }
                proof {
                    let i = k - start;
                    assert(0 <= i && i < tail.len());
                    assert(spec_parse_pinyin(tail.subrange(0, i)) == Option::Some(p@));
                    assert(tail.skip(i + 1) =~= s@.skip(k + 1));
                    if spec_parse_syllables(s@.skip(k + 1)) is Some {
                        assert(spec_parse_syllables(tail)->0 == seq![p@] + spec_parse_syllables(
                            s@.skip(k + 1),
                        )->0);
                        assert(views_of_pinyins(old_out) + (seq![p@] + spec_parse_syllables(
                            s@.skip(k + 1),
                        )->0) =~= views_of_pinyins(old_out).push(p@) + spec_parse_syllables(
                            s@.skip(k + 1),
                        )->0);
                    }
                }
                start = k + 1;
            },
        }
    }
}

/// A Han word with one pinyin value per character position; a
/// polyphonic single character may carry several alternative values.
#[derive(Debug)]
pub struct PinyinWord {
    pub word: String,
    pub pinyin: Vec<Pinyin>,
}

impl View for PinyinWord {
    type V = (Seq<char>, Seq<(Seq<char>, u8)>);

    open spec fn view(&self) -> (Seq<char>, Seq<(Seq<char>, u8)>) {
        (self.word@, views_of_pinyins(self.pinyin@))
    }
}

impl PinyinWord {
    /// Pairs a word with its pinyin values.
    pub fn new(word: String, pinyin: Vec<Pinyin>) -> (r: PinyinWord)
        ensures
            r@ == (word@, views_of_pinyins(pinyin@)),
    {
        PinyinWord { word, pinyin }
    }
}

impl PartialEq for PinyinWord {
    fn eq(&self, other: &PinyinWord) -> bool {
        if !(self.word == other.word) {
            return false;
        }
        if self.pinyin.len() != other.pinyin.len() {
            proof {
                assert(self@.1.len() == self.pinyin@.len());
                assert(other@.1.len() == other.pinyin@.len());
            }
            return false;
        }
        let mut i: usize = 0;
        while i < self.pinyin.len()
            invariant
                self.pinyin@.len() == other.pinyin@.len(),
                i <= self.pinyin@.len(),
                self.word@ == other.word@,
                forall|j: int| 0 <= j < i ==> self.pinyin@[j]@ == other.pinyin@[j]@,
            decreases self.pinyin@.len() - i,
        {
            if !(self.pinyin[i] == other.pinyin[i]) {
                proof {
                    assert(self@.1[i as int] == self.pinyin@[i as int]@);
                    assert(other@.1[i as int] == other.pinyin@[i as int]@);
                }
                return false;
            }
            i = i + 1;
        }
        proof {
            assert(self@.1 =~= other@.1);
        }
        true
    }
}

impl vstd::std_specs::cmp::PartialEqSpecImpl for PinyinWord {
    open spec fn obeys_eq_spec() -> bool {
        true
    }

    open spec fn eq_spec(&self, other: &PinyinWord) -> bool {
        self@ == other@
    }
}

/// What parsing `"<word>:<space-separated syllables>"` yields: the
/// text before the first colon is the word; the text between the
/// first colon and the second (or the end) is the annotation, whose
/// tokens must all parse. An input without a colon fails.
pub open spec fn spec_parse_pinyin_word(s: Seq<char>) -> Option<
    (Seq<char>, Seq<(Seq<char>, u8)>),
> {
    let i = first_where(s, pred_is(':'));
    if 0 <= i && i < s.len() {
        let word = s.subrange(0, i);
        let rest = s.skip(i + 1);
        let j = first_where(rest, pred_is(':'));
        let ann = if 0 <= j && j < rest.len() {
            rest.subrange(0, j)
        } else {
            rest
        };
        match spec_parse_syllables(ann) {
            Option::Some(ps) => Option::Some((word, ps)),
            Option::None => Option::None,
        }
    } else {
        Option::None
    }
}

impl PinyinWord {
    /// Parses `"<word>:<space-separated syllables>"`; text after a
    /// second colon is ignored. Fails on a missing colon or a
    /// malformed syllable token.
    pub fn from_str(s: &str) -> (r: Result<PinyinWord, PingyinError>)
        ensures
            r is Ok <==> spec_parse_pinyin_word(s@) is Some,
            r is Ok ==> r->Ok_0@ == spec_parse_pinyin_word(s@)->0,
            r is Ok ==> forall|j: int|
                0 <= j < r->Ok_0.pinyin@.len() ==> (#[trigger] r->Ok_0.pinyin@[j]).wf(),
            r is Err ==> r->Err_0 matches PingyinError::ParseStrError(_),
    {
        let n = s.unicode_len();
        let i = find_char_from(s, 0, n, ':');
        if i == n {
            proof {
                lemma_first_where(s@, pred_is(':'));
                if first_where(s@, pred_is(':')) >= 0 {
                    assert(pred_is(':')(s@[first_where(s@, pred_is(':'))]));
                }
            }
            return Result::Err(PingyinError::ParseStrError(String::from_str(s)));
        }
        proof {
            lemma_first_where_is(s@, pred_is(':'), i as int);
        }
        let word = s.substring_char(0, i);
        let ghost rest = s@.skip(i + 1);
        let j = find_char_from(s, i + 1, n, ':');
        proof {
            if j < n {
                assert(rest[j - (i + 1)] == s@[j as int]);
                assert forall|t: int| 0 <= t < j - (i + 1) implies !(pred_is(':')(rest[t])) by {
                    assert(rest[t] == s@[i + 1 + t]);
                }
                lemma_first_where_is(rest, pred_is(':'), j - (i + 1));
            } else {
                assert forall|t: int| 0 <= t < rest.len() implies !(pred_is(':')(rest[t])) by {
                    assert(rest[t] == s@[i + 1 + t]);
                }
                lemma_first_where(rest, pred_is(':'));
                if first_where(rest, pred_is(':')) >= 0 {
                    assert(pred_is(':')(rest[first_where(rest, pred_is(':'))]));
                }
            }
        }
        let ann = s.substring_char(i + 1, j);
        proof {
            if j < n {
                assert(ann@ =~= rest.subrange(0, j - (i + 1)));
            } else {
                assert(ann@ =~= rest);
            }
        }
        match parse_syllables(ann) {
            Result::Err(e) => Result::Err(e),
            Result::Ok(ps) => Result::Ok(PinyinWord { word: String::from_str(word), pinyin: ps }),
        }
    }
}

/// The number-form renderings of the values of a word, in order.
pub open spec fn number_forms(ps: Seq<(Seq<char>, u8)>) -> Seq<Seq<char>> {
    ps.map_values(|p: (Seq<char>, u8)| spec_format_number(p))
}

/// The textual encoding of a word entry:
/// `"<word>:<syllable1><tone1> <syllable2><tone2> ..."`.
pub open spec fn spec_encode_word(w: (Seq<char>, Seq<(Seq<char>, u8)>)) -> Seq<char> {
    w.0 + seq![':'] + crate::strutil::spec_join(number_forms(w.1), seq![' '])
}

impl PinyinWord {
    /// Renders the entry in its textual encoding, each value in
    /// tone-digit form.
    pub fn to_string(&self) -> (r: String)
        requires
            wf_pinyins(self@.1),
        ensures
            r@ == spec_encode_word(self@),
    {
        let ghost parts = number_forms(self@.1);
        let mut out = chars_of(self.word.as_str());
        out.push(':');
        proof {
            assert(parts.take(0) =~= Seq::<Seq<char>>::empty());
            assert(out@ =~= self.word@ + seq![':'] + crate::strutil::spec_join(
                parts.take(0),
                seq![' '],
            ));
        }
        let mut i: usize = 0;
        while i < self.pinyin.len()
            invariant
                parts == number_forms(self@.1),
                parts.len() == self.pinyin@.len(),
                wf_pinyins(self@.1),
                i <= self.pinyin@.len(),
                out@ == self.word@ + seq![':'] + crate::strutil::spec_join(
                    parts.take(i as int),
                    seq![' '],
                ),
            decreases self.pinyin@.len() - i,
        {
            if i > 0 {
                out.push(' ');
            }
            let p = &self.pinyin[i];
            let sy = chars_of(p.pinyin.as_str());
            append_chars(&mut out, &sy);
            proof {
                assert(self@.1[i as int] == self.pinyin@[i as int]@);
                assert(wf_tone(self@.1[i as int].1));
            }
            out.push(digit_char_of(p.tone));
            proof {
                assert(parts[i as int] == spec_format_number(self@.1[i as int]));
                crate::strutil::lemma_join_push(parts.take(i as int), seq![' '], parts[i as int]);
                assert(parts.take(i as int).push(parts[i as int]) =~= parts.take(i + 1));
                if i == 0 {
                    assert(out@ =~= self.word@ + seq![':'] + crate::strutil::spec_join(
                        parts.take(i + 1),
                        seq![' '],
                    ));
                } else {
                    assert(out@ =~= self.word@ + seq![':'] + crate::strutil::spec_join(
                        parts.take(i + 1),
                        seq![' '],
                    ));
                }
            }
            i = i + 1;
        }
        proof {
            assert(parts.take(self.pinyin@.len() as int) =~= parts);
        }
        string_of(&out)
    }
}

/// The views of a word-entry vector, elementwise.
pub open spec fn views_of_words(v: Seq<PinyinWord>) -> Seq<(Seq<char>, Seq<(Seq<char>, u8)>)> {
    v.map_values(|w: PinyinWord| w@)
}

/// The flattened form of a word entry: at most one pinyin value per
/// character of the word, keeping the first values.
pub open spec fn spec_flatten_entry(w: (Seq<char>, Seq<(Seq<char>, u8)>)) -> (
    Seq<char>,
    Seq<(Seq<char>, u8)>,
) {
    if w.1.len() > w.0.len() {
        (w.0, w.1.subrange(0, w.0.len() as int))
    } else {
        w
    }
}

/// Law: flattening a word entry twice is the same as flattening it
/// once — after one flattening no entry holds more values than its
/// word has characters.
pub proof fn lemma_flatten_idempotent(w: (Seq<char>, Seq<(Seq<char>, u8)>))
    ensures
        spec_flatten_entry(spec_flatten_entry(w)) == spec_flatten_entry(w),
{
}

pub(crate) fn clone_pinyins(v: &Vec<Pinyin>, n: usize) -> (r: Vec<Pinyin>)
    requires
        n <= v@.len(),
    ensures
        r@ == v@.subrange(0, n as int),
{
    let mut r: Vec<Pinyin> = Vec::new();
    let mut i: usize = 0;
    while i < n
        invariant
            n <= v@.len(),
            i <= n,
            r@ == v@.subrange(0, i as int),
        decreases n - i,
    {
        let p = &v[i];
        r.push(Pinyin { pinyin: p.pinyin.clone(), tone: p.tone });
        assert(r@ =~= v@.subrange(0, i + 1 as int));
        i = i + 1;
    }
    r
}

impl PinyinWord {
    /// The entry reduced to at most one pinyin value per character of
    /// its word, keeping the first values.
    pub fn flattened(&self) -> (r: PinyinWord)
        ensures
            r@ == spec_flatten_entry(self@),
    {
        let wlen = self.word.as_str().unicode_len();
        if self.pinyin.len() > wlen {
            let kept = clone_pinyins(&self.pinyin, wlen);
            proof {
                assert(views_of_pinyins(self.pinyin@.subrange(0, wlen as int)) =~= views_of_pinyins(
                    self.pinyin@,
                ).subrange(0, wlen as int));
            }
            PinyinWord { word: self.word.clone(), pinyin: kept }
        } else {
            let kept = clone_pinyins(&self.pinyin, self.pinyin.len());
            proof {
                assert(self.pinyin@.subrange(0, self.pinyin@.len() as int) =~= self.pinyin@);
            }
            PinyinWord { word: self.word.clone(), pinyin: kept }
        }
    }
}

} // verus!
