//! Various fast lookups for consonant clusters and vowels, on plain
//! (unaccented) letters.

use vstd::prelude::*;

use crate::phonology::{
    banned_triple, cll_cluster, hard_onset, hyphen, initial_cluster, is_banned_triple_chars,
    is_cll_cluster, is_initial_chars,
};
use crate::text::collect_chars;

verus! {

/// *a e i o u y*, without stress marks.
pub open spec fn plain_vowel(c: char) -> bool {
    c == 'a' || c == 'e' || c == 'i' || c == 'o' || c == 'u' || c == 'y'
}

/// The diphthongs *ai ei oi au*.
pub open spec fn diphthong(s: Seq<char>) -> bool {
    s == seq!['a', 'i'] || s == seq!['e', 'i'] || s == seq!['o', 'i'] || s == seq!['a', 'u']
}

/// The pairs that may start a zi'evla: *bl br dr fl fr gl gr kl kr ml mr pl
/// pr tr vl vr*.
pub open spec fn zihevla_initial(x: char, y: char) -> bool {
    (y == 'l' && (x == 'b' || x == 'f' || x == 'g' || x == 'k' || x == 'm' || x == 'p' || x
        == 'v')) || (y == 'r' && (x == 'b' || x == 'd' || x == 'f' || x == 'g' || x == 'k' || x
        == 'm' || x == 'p' || x == 't' || x == 'v'))
}

/// Every word-initial cluster is a valid cluster.
pub proof fn lemma_initial_is_valid(x: char, y: char)
    requires
        initial_cluster(x, y),
    ensures
        cll_cluster(x, y),
{
}

/// Every pair that may start a zi'evla is a word-initial cluster.
pub proof fn lemma_zihevla_initial_is_initial(x: char, y: char)
    requires
        zihevla_initial(x, y),
    ensures
        initial_cluster(x, y),
{
}

/// A hard onset of three consonants starts with a word-initial pair and
/// ends with a pair that may start a zi'evla.
pub proof fn lemma_triple_onset(s: Seq<char>)
    requires
        hard_onset(s),
        s.len() == 3,
    ensures
        initial_cluster(s[0], s[1]),
        zihevla_initial(s[1], s[2]),
{
}

/// Returns `true` if `s` is one of the consonant clusters permitted by CLL.
pub fn is_valid(s: &str) -> (b: bool)
    ensures
        b == (s@.len() == 2 && cll_cluster(s@[0], s@[1])),
{
    let chars = collect_chars(s);
    chars.len() == 2 && is_cll_cluster(chars[0], chars[1])
}

/// Returns `true` if `s` is one of the consonant clusters permitted by CLL,
/// or is *mz*.
pub fn is_mz_valid(s: &str) -> (b: bool)
    ensures
        b == (s@ == seq!['m', 'z'] || (s@.len() == 2 && cll_cluster(s@[0], s@[1]))),
{
    let chars = collect_chars(s);
    if chars.len() == 2 {
        assert(s@ == seq![s@[0], s@[1]]);
    }
    (chars.len() == 2 && chars[0] == 'm' && chars[1] == 'z') || is_valid(s)
}

/// Returns `true` if `s` is one of the consonant clusters permitted
/// word-initially by CLL.
pub fn is_initial(s: &str) -> (b: bool)
    ensures
        b == (s@.len() == 2 && initial_cluster(s@[0], s@[1])),
{
    let chars = collect_chars(s);
    chars.len() == 2 && is_initial_chars(chars[0], chars[1])
}

/// Returns `true` if `s` is one of the pairs that may start a zi'evla.
pub fn is_zihevla_initial(s: &str) -> (b: bool)
    ensures
        b == (s@.len() == 2 && zihevla_initial(s@[0], s@[1])),
{
    let chars = collect_chars(s);
    if chars.len() != 2 {
        return false;
    }
    let (x, y) = (chars[0], chars[1]);
    (y == 'l' && (x == 'b' || x == 'f' || x == 'g' || x == 'k' || x == 'm' || x == 'p' || x
        == 'v')) || (y == 'r' && (x == 'b' || x == 'd' || x == 'f' || x == 'g' || x == 'k' || x
        == 'm' || x == 'p' || x == 't' || x == 'v'))
}

/// Returns `true` if `s` is one of the consonant triples banned by CLL: *ndj
/// ndz ntc nts*.
pub fn is_banned_triple(s: &str) -> (b: bool)
    ensures
        b == (s@.len() == 3 && banned_triple(s@[0], s@[1], s@[2])),
{
    let chars = collect_chars(s);
    chars.len() == 3 && is_banned_triple_chars(chars[0], chars[1], chars[2])
}

/// Returns `true` if `c` is a hard consonant (any consonant except *'* and
/// *.*).
pub fn is_hard_consonant(c: char) -> (b: bool)
    ensures
        b == crate::phonology::hard_consonant(c),
{
    crate::phonology::is_hard_consonant(c)
}

/// Returns `true` if `c` is an annotated onglide: *q* or *w*.
pub fn is_onglide(c: char) -> (b: bool)
    ensures
        b == (c == 'q' || c == 'w'),
{
    c == 'q' || c == 'w'
}

/// Returns `true` if `c` is an annotated offglide: *ĭ* or *ŭ*.
pub fn is_offglide(c: char) -> (b: bool)
    ensures
        b == (c == 'ĭ' || c == 'ŭ'),
{
    c == 'ĭ' || c == 'ŭ'
}

/// Returns `true` if `c` is a sonorant: one of *l m n r*.
pub fn is_sonorant(c: char) -> (b: bool)
    ensures
        b == crate::phonology::sonorant(c),
{
    crate::phonology::is_sonorant(c)
}

/// Returns `true` if `c` is a vowel: *a e i o u y*.
pub fn is_vowel(c: char) -> (b: bool)
    ensures
        b == plain_vowel(c),
{
    c == 'a' || c == 'e' || c == 'i' || c == 'o' || c == 'u' || c == 'y'
}

/// Whether the letters `s` are a diphthong: *ai ei oi au*.
pub(crate) fn is_diphthong_seq(s: &[char]) -> (b: bool)
    ensures
        b == diphthong(s@),
{
    if s.len() != 2 {
        return false;
    }
    let r = (s[0] == 'a' && s[1] == 'i') || (s[0] == 'e' && s[1] == 'i') || (s[0] == 'o' && s[1]
        == 'i') || (s[0] == 'a' && s[1] == 'u');
    assert(s@ == seq![s@[0], s@[1]]);
    r
}

/// Returns `true` if `s` is a diphthong: *ai ei oi au*.
pub fn is_diphthong(s: &str) -> (b: bool)
    ensures
        b == diphthong(s@),
{
    let chars = collect_chars(s);
    is_diphthong_seq(&chars)
}

/// Returns `true` if `s` is a single vowel (other than *y*) or a diphthong. As
/// standalone syllables, these always require a glottal stop before them.
pub fn is_start_vowel_cluster(s: &str) -> (b: bool)
    ensures
        b == ((s@.len() == 1 && s@[0] != 'y' && plain_vowel(s@[0])) || diphthong(s@)),
{
    let chars = collect_chars(s);
    if chars.len() == 1 {
        let c = chars[0];
        c != 'y' && is_vowel(c)
    } else {
        is_diphthong_seq(&chars)
    }
}

/// Returns `true` if `s` is a lujvo hyphen, used to prevent cmavo-shaped rafsi
/// from falling off the start of a lujvo and to delimit zi'evla inside a lujvo.
pub fn is_hyphen(s: &str) -> (b: bool)
    ensures
        b == hyphen(s@),
{
    crate::phonology::is_hyphen(s)
}

} // verus!
