//! Constructors for syllables.

use vstd::prelude::*;

use crate::jvofli::{Jvofli, What};
use crate::phonology::{
    accented, add_stress_accent, lemma_stress_roundtrip, could_be_glide, diphthong_chars, glide_letter, hard_consonant,
    hard_onset, is_diphthong_chars, is_hard_consonant, is_hard_onset_chars, is_sonorant, is_vowel,
    sonorant, strip_stress_accent, stripped, vowel,
};
use crate::text::{collect_chars, push_char};

verus! {

/// An onset. It can either be empty, an apostrophe, an onglide, or a [hard
/// onset](`crate::phonology::is_hard_onset`).
#[derive(Debug, Clone, Copy, PartialEq, Eq)]
pub enum Onset {
    /// "Nothing" (really *denpa bu* = glottal stop).
    Empty,
    /// An apostrophe.
    H,
    /// An onglide, written *i* or *u*.
    Onglide(char),
    /// A hard consonant.
    Single(char),
    /// Two hard consonants.
    Pair([char; 2]),
    /// Three hard consonants.
    Triple([char; 3]),
}

/// The onset that `s` spells, if it spells one.
pub open spec fn onset_of(s: Seq<char>) -> Option<Onset> {
    if s.len() == 0 {
        Some(Onset::Empty)
    } else if s == seq!['\''] {
        Some(Onset::H)
    } else if s.len() == 1 && glide_letter(s[0]) {
        Some(Onset::Onglide(s[0]))
    } else if !hard_onset(s) {
        None
    } else if s.len() == 1 {
        Some(Onset::Single(s[0]))
    } else if s.len() == 2 {
        Some(Onset::Pair([s[0], s[1]]))
    } else {
        Some(Onset::Triple([s[0], s[1], s[2]]))
    }
}

impl Onset {
    /// The letters of this onset.
    pub open spec fn spelling(self) -> Seq<char> {
        match self {
            Onset::Empty => seq![],
            Onset::H => seq!['\''],
            Onset::Onglide(c) => seq![c],
            Onset::Single(c) => seq![c],
            Onset::Pair(p) => seq![p[0], p[1]],
            Onset::Triple(t) => seq![t[0], t[1], t[2]],
        }
    }

    /// The number of hard consonants in this onset.
    pub open spec fn hard_count(self) -> nat {
        match self {
            Onset::Single(_) => 1,
            Onset::Pair(_) => 2,
            Onset::Triple(_) => 3,
            _ => 0,
        }
    }

    /// Tries to create an `Onset`.
    ///
    /// # Errors
    /// Returns [`Jvofli::Invalid`] with [`What::Onset`] if `s` is not a valid
    /// onset.
    pub fn new(s: &str) -> (r: Result<Onset, Jvofli>)
        ensures
            match r {
                Ok(o) => onset_of(s@) == Some(o),
                Err(e) => onset_of(s@) is None && (e matches Jvofli::Invalid { what, value }
                    && what == What::Onset && value@ == s@),
            },
    {
        let chars = collect_chars(s);
        match Self::from_chars(chars.as_slice()) {
            Some(o) => Ok(o),
            None => Err(Jvofli::Invalid { what: What::Onset, value: s.to_owned() }),
        }
    }

    /// The onset that `s` spells, if it spells one.
    pub(crate) fn from_chars(s: &[char]) -> (r: Option<Onset>)
        ensures
            r == onset_of(s@),
    {
        if s.len() == 0 {
            return Some(Onset::Empty);
        }
        if s.len() == 1 && s[0] == '\'' {
            assert(s@ == seq!['\'']);
            return Some(Onset::H);
        }
        assert(s@ != seq!['\'']);
        if s.len() == 1 && could_be_glide(s[0]) {
            return Some(Onset::Onglide(s[0]));
        }
        if !is_hard_onset_chars(s) {
            return None;
        }
        if s.len() == 1 {
            Some(Onset::Single(s[0]))
        } else if s.len() == 2 {
            Some(Onset::Pair([s[0], s[1]]))
        } else {
            Some(Onset::Triple([s[0], s[1], s[2]]))
        }
    }

    /// Returns the number of hard consonants in this onset.
    pub fn hard_consonant_count(&self) -> (n: usize)
        ensures
            n == self.hard_count(),
    {
        match self {
            Onset::Single(_) => 1,
            Onset::Pair(_) => 2,
            Onset::Triple(_) => 3,
            _ => 0,
        }
    }

    /// Returns whether this onset is [`Onset::H`].
    pub fn is_h(&self) -> (b: bool)
        ensures
            b == (*self is H),
    {
        matches!(self, Onset::H)
    }

    /// Returns whether this onset is [`Onset::Empty`].
    pub fn is_empty(&self) -> (b: bool)
        ensures
            b == (*self is Empty),
    {
        matches!(self, Onset::Empty)
    }

    /// Appends the letters of this onset to `out`.
    pub(crate) fn write_to(&self, out: &mut String)
        ensures
            final(out)@ == old(out)@ + self.spelling(),
    {
        match self {
            Onset::Empty => {
                assert(old(out)@ + seq![] =~= old(out)@);
            },
            Onset::H => {
                push_char(out, '\'');
                assert(old(out)@.push('\'') =~= old(out)@ + seq!['\'']);
            },
            Onset::Onglide(c) | Onset::Single(c) => {
                push_char(out, *c);
                assert(old(out)@.push(*c) =~= old(out)@ + seq![*c]);
            },
            Onset::Pair(p) => {
                push_char(out, p[0]);
                push_char(out, p[1]);
                assert(old(out)@.push(p[0]).push(p[1]) =~= old(out)@ + seq![p[0], p[1]]);
            },
            Onset::Triple(t) => {
                push_char(out, t[0]);
                push_char(out, t[1]);
                push_char(out, t[2]);
                assert(old(out)@.push(t[0]).push(t[1]).push(t[2]) =~= old(out)@ + seq![
                    t[0],
                    t[1],
                    t[2],
                ]);
            },
        }
    }
}

/// A syllable nucleus. It can either be a stressable monophthong (*a e i o u*),
/// a diphthong (*ai au ei oi*), a sonorant (*l m n r*), or the letter *y*.
#[derive(Debug, Clone, Copy, PartialEq, Eq)]
pub enum Nucleus {
    /// One of *a e i o u*.
    StressableMonophthong { vowel: char, stressed: bool },
    /// The letter *y*.
    Y,
    /// One of *ai au ei oi*.
    Diphthong { first: char, second: char, stressed: bool },
    /// One of *l m n r*.
    Sonorant(char),
}

/// The nucleus that `s` spells, if it spells one.
pub open spec fn nucleus_of(s: Seq<char>) -> Option<Nucleus> {
    if s.len() == 1 {
        let c = stripped(s[0]).0;
        let st = stripped(s[0]).1;
        if c == 'y' {
            if st {
                None
            } else {
                Some(Nucleus::Y)
            }
        } else if vowel(c) {
            Some(Nucleus::StressableMonophthong { vowel: c, stressed: st })
        } else if sonorant(c) && !st {
            Some(Nucleus::Sonorant(c))
        } else {
            None
        }
    } else if s.len() == 2 && diphthong_chars(stripped(s[0]).0, s[1]) {
        Some(Nucleus::Diphthong { first: stripped(s[0]).0, second: s[1], stressed: stripped(s[0]).1 })
    } else {
        None
    }
}

/// `s` is a single stressed *y* or sonorant.
pub open spec fn stressed_unstressable(s: Seq<char>) -> bool {
    s.len() == 1 && stripped(s[0]).1 && (stripped(s[0]).0 == 'y' || sonorant(stripped(s[0]).0))
}

/// The stressed form of `c`, or `c` itself if it has none.
pub open spec fn accent_or_same(c: char) -> char {
    match accented(c) {
        Some(a) => a,
        None => c,
    }
}

impl Nucleus {
    /// The letters of this nucleus, with the stress mark if it is stressed.
    pub open spec fn spelling(self) -> Seq<char> {
        match self {
            Nucleus::Y => seq!['y'],
            Nucleus::Sonorant(c) => seq![c],
            Nucleus::StressableMonophthong { vowel, stressed } => if stressed {
                seq![accent_or_same(vowel)]
            } else {
                seq![vowel]
            },
            Nucleus::Diphthong { first, second, stressed } => if stressed {
                seq![accent_or_same(first), second]
            } else {
                seq![first, second]
            },
        }
    }

    /// Whether this nucleus is stressed.
    pub open spec fn stressed_spec(self) -> bool {
        match self {
            Nucleus::StressableMonophthong { stressed, .. } => stressed,
            Nucleus::Diphthong { stressed, .. } => stressed,
            _ => false,
        }
    }

    /// This nucleus with its stress set to `value`, where it can carry one.
    pub open spec fn with_stress(self, value: bool) -> Nucleus {
        match self {
            Nucleus::StressableMonophthong { vowel, .. } => Nucleus::StressableMonophthong {
                vowel,
                stressed: value,
            },
            Nucleus::Diphthong { first, second, .. } => Nucleus::Diphthong {
                first,
                second,
                stressed: value,
            },
            _ => self,
        }
    }

    /// Tries to parse a `Nucleus`.
    ///
    /// # Errors
    /// - [`Jvofli::Unstressable`] if `s` is *y* or a sonorant with a stress
    ///   mark; it holds the letter without the mark.
    /// - [`Jvofli::Invalid`] with [`What::Nucleus`] if `s` is otherwise not a
    ///   valid nucleus.
    pub fn new(s: &str) -> (r: Result<Nucleus, Jvofli>)
        ensures
            match r {
                Ok(n) => nucleus_of(s@) == Some(n),
                Err(e) => nucleus_of(s@) is None && if stressed_unstressable(s@) {
                    (e matches Jvofli::Unstressable(value) && value@ == seq![stripped(s@[0]).0])
                } else {
                    (e matches Jvofli::Invalid { what, value } && what == What::Nucleus && value@
                        == s@)
                },
            },
    {
        let chars = collect_chars(s);
        match Self::from_chars(chars.as_slice()) {
            Ok(n) => Ok(n),
            Err(Some(c)) => {
                let mut value = String::new();
                push_char(&mut value, c);
                assert(value@ =~= seq![c]);
                Err(Jvofli::Unstressable(value))
            },
            Err(None) => Err(Jvofli::Invalid { what: What::Nucleus, value: s.to_owned() }),
        }
    }

    /// The nucleus that `s` spells; if it spells none, `Err(Some(c))` where
    /// `s` is the unstressable letter `c` with a stress mark, else `Err(None)`.
    pub(crate) fn from_chars(s: &[char]) -> (r: Result<Nucleus, Option<char>>)
        ensures
            match r {
                Ok(n) => nucleus_of(s@) == Some(n),
                Err(c) => nucleus_of(s@) is None && if stressed_unstressable(s@) {
                    c == Some(stripped(s@[0]).0)
                } else {
                    c is None
                },
            },
    {
        if s.len() == 0 || s.len() > 2 {
            return Err(None);
        }
        let (first, stressed) = strip_stress_accent(s[0]);
        if s.len() == 1 {
            if first == 'y' {
                if stressed {
                    Err(Some(first))
                } else {
                    Ok(Nucleus::Y)
                }
            } else if is_vowel(first) {
                Ok(Nucleus::StressableMonophthong { vowel: first, stressed })
            } else if is_sonorant(first) {
                if stressed {
                    Err(Some(first))
                } else {
                    Ok(Nucleus::Sonorant(first))
                }
            } else {
                Err(None)
            }
        } else if is_diphthong_chars(first, s[1]) {
            Ok(Nucleus::Diphthong { first, second: s[1], stressed })
        } else {
            Err(None)
        }
    }

    /// Returns whether this syllable is stressable, i.e. it's a
    /// [`Nucleus::StressableMonophthong`] or [`Nucleus::Diphthong`].
    pub fn is_stressable(&self) -> (b: bool)
        ensures
            b == !(*self is Y || *self is Sonorant),
    {
        !matches!(self, Nucleus::Y | Nucleus::Sonorant(_))
    }

    /// Marks this nucleus as stressed. Does nothing if `!self.is_stressable()`.
    pub fn set_stressed(&mut self, value: bool)
        ensures
            *final(self) == old(self).with_stress(value),
    {
        match self {
            Nucleus::StressableMonophthong { stressed, .. } => {
                *stressed = value;
            },
            Nucleus::Diphthong { stressed, .. } => {
                *stressed = value;
            },
            _ => {},
        }
    }

    /// Returns whether this nucleus is stressed.
    pub fn is_stressed(&self) -> (b: bool)
        ensures
            b == self.stressed_spec(),
    {
        match self {
            Nucleus::StressableMonophthong { stressed, .. } => *stressed,
            Nucleus::Diphthong { stressed, .. } => *stressed,
            _ => false,
        }
    }

    /// Tries to return the offglide of a [`Nucleus::Diphthong`].
    pub fn get_offglide(&self) -> (r: Option<char>)
        ensures
            r == (match *self {
                Nucleus::Diphthong { second, .. } => Some(second),
                _ => None,
            }),
    {
        match self {
            Nucleus::Diphthong { second, .. } => Some(*second),
            _ => None,
        }
    }

    /// Tries to return the character in a [`Nucleus::Sonorant`].
    pub fn get_sonorant(&self) -> (r: Option<char>)
        ensures
            r == (match *self {
                Nucleus::Sonorant(c) => Some(c),
                _ => None,
            }),
    {
        match self {
            Nucleus::Sonorant(c) => Some(*c),
            _ => None,
        }
    }

    /// Returns whether the nucleus is a [`Nucleus::Sonorant`].
    pub fn is_consonantal(&self) -> (b: bool)
        ensures
            b == (*self is Sonorant),
    {
        matches!(self, Nucleus::Sonorant(_))
    }

    /// Returns whether the nucleus *isn't* a [`Nucleus::Sonorant`].
    pub fn is_vocalic(&self) -> (b: bool)
        ensures
            b == !(*self is Sonorant),
    {
        !self.is_consonantal()
    }

    /// Appends the letters of this nucleus to `out`.
    pub(crate) fn write_to(&self, out: &mut String)
        ensures
            final(out)@ == old(out)@ + self.spelling(),
    {
        match self {
            Nucleus::Y => {
                push_char(out, 'y');
                assert(old(out)@.push('y') =~= old(out)@ + seq!['y']);
            },
            Nucleus::Sonorant(c) => {
                push_char(out, *c);
                assert(old(out)@.push(*c) =~= old(out)@ + seq![*c]);
            },
            Nucleus::StressableMonophthong { vowel, stressed } => {
                let v = if *stressed {
                    match add_stress_accent(*vowel) {
                        Some(a) => a,
                        None => *vowel,
                    }
                } else {
                    *vowel
                };
                push_char(out, v);
                assert(old(out)@.push(v) =~= old(out)@ + self.spelling());
            },
            Nucleus::Diphthong { first, second, stressed } => {
                let f = if *stressed {
                    match add_stress_accent(*first) {
                        Some(a) => a,
                        None => *first,
                    }
                } else {
                    *first
                };
                push_char(out, f);
                push_char(out, *second);
                assert(old(out)@.push(f).push(*second) =~= old(out)@ + self.spelling());
            },
        }
    }
}

/// A coda, containing one hard consonant.
#[derive(Debug, Clone, Copy, PartialEq, Eq)]
pub struct Coda(pub char);

impl Coda {
    /// Tries to parse a `Coda`; `None` unless `c` is a hard consonant.
    pub fn new(c: char) -> (r: Option<Coda>)
        ensures
            r == (if hard_consonant(c) {
                Some(Coda(c))
            } else {
                None
            }),
    {
        if is_hard_consonant(c) {
            Some(Coda(c))
        } else {
            None
        }
    }

    /// Returns the character inside.
    pub fn it(&self) -> (c: char)
        ensures
            c == self.0,
    {
        self.0
    }
}

/// A parsed syllable.
#[derive(Debug, Clone, Copy, PartialEq, Eq)]
pub struct Syllable {
    /// The onset.
    pub onset: Onset,
    /// The nucleus.
    pub nucleus: Nucleus,
    /// The coda, if any.
    pub coda: Option<Coda>,
}

/// An onset that its own letters spell.
pub open spec fn onset_valid(o: Onset) -> bool {
    onset_of(o.spelling()) == Some(o)
}

/// A nucleus that its own letters, without stress, spell.
pub open spec fn nucleus_valid(n: Nucleus) -> bool {
    nucleus_of(n.with_stress(false).spelling()) == Some(n.with_stress(false))
}

/// Letters spell at most the onset that they spell.
pub proof fn lemma_onset_of_valid(s: Seq<char>)
    ensures
        onset_of(s) matches Some(o) ==> onset_valid(o) && o.spelling() == s,
{
    if onset_of(s) is Some {
        let o = onset_of(s)->0;
        if s.len() == 2 {
            assert(o.spelling() =~= s);
        } else if s.len() == 3 {
            assert(o.spelling() =~= s);
        } else if s.len() == 1 {
            assert(o.spelling() =~= s);
        } else {
            assert(o.spelling() =~= s);
        }
    }
}

/// The nucleus that letters spell is valid, whatever its stress.
pub proof fn lemma_nucleus_of_valid(s: Seq<char>)
    ensures
        nucleus_of(s) matches Some(n) ==> nucleus_valid(n),
{
    if nucleus_of(s) is Some {
        let n = nucleus_of(s)->0;
        let p = n.with_stress(false);
        lemma_stress_roundtrip(s[0]);
        match p {
            Nucleus::StressableMonophthong { vowel, .. } => {
                lemma_stress_roundtrip(vowel);
                assert(p.spelling() =~= seq![vowel]);
            },
            Nucleus::Diphthong { first, second, .. } => {
                lemma_stress_roundtrip(first);
                assert(p.spelling() =~= seq![first, second]);
            },
            _ => {},
        }
    }
}

/// Stress does not change whether a nucleus is valid.
pub proof fn lemma_nucleus_valid_stress(n: Nucleus, value: bool)
    ensures
        nucleus_valid(n.with_stress(value)) == nucleus_valid(n),
{
    assert(n.with_stress(value).with_stress(false) == n.with_stress(false));
}

impl Syllable {
    /// A syllable of valid parts: an onset and a nucleus that their letters
    /// spell, and a hard consonant as coda if there is one.
    pub open spec fn valid(self) -> bool {
        &&& onset_valid(self.onset)
        &&& nucleus_valid(self.nucleus)
        &&& (self.coda matches Some(c) ==> hard_consonant(c.0))
    }

    /// The letters of this syllable: onset, nucleus and coda.
    pub open spec fn spelling(self) -> Seq<char> {
        self.onset.spelling() + self.nucleus.spelling() + match self.coda {
            Some(c) => seq![c.0],
            None => seq![],
        }
    }

    /// The number of hard consonants in this syllable.
    pub open spec fn hard_count(self) -> nat {
        self.onset.hard_count() + (if self.nucleus is Sonorant {
            1nat
        } else {
            0nat
        }) + (if self.coda is Some {
            1nat
        } else {
            0nat
        })
    }

    /// The syllable could be a one-syllable cmavo: no coda, a vocalic
    /// nucleus, and an empty, onglide or single-consonant onset.
    pub open spec fn starts_cmavo(self) -> bool {
        (self.onset is Empty || self.onset is Onglide || self.onset is Single) && self.coda is None
            && !(self.nucleus is Sonorant)
    }

    /// The syllable could continue a cmavo: an apostrophe onset, no coda and
    /// a vocalic nucleus.
    pub open spec fn continues_cmavo(self) -> bool {
        self.onset is H && self.coda is None && !(self.nucleus is Sonorant)
    }

    /// Returns whether the nucleus is a [`Nucleus::Sonorant`].
    pub fn is_consonantal(&self) -> (b: bool)
        ensures
            b == (self.nucleus is Sonorant),
    {
        self.nucleus.is_consonantal()
    }

    /// Counts hard consonants in this syllable.
    pub fn hard_consonant_count(&self) -> (n: usize)
        ensures
            n == self.hard_count(),
    {
        let mut n = self.onset.hard_consonant_count();
        if self.is_consonantal() {
            n += 1;
        }
        if self.coda.is_some() {
            n += 1;
        }
        n
    }

    /// Returns whether this syllable's onset is [`Onset::H`].
    pub fn has_h_onset(&self) -> (b: bool)
        ensures
            b == (self.onset is H),
    {
        matches!(self.onset, Onset::H)
    }

    /// Returns whether this syllable's onset is [`Onset::Empty`].
    pub fn has_empty_onset(&self) -> (b: bool)
        ensures
            b == (self.onset is Empty),
    {
        matches!(self.onset, Onset::Empty)
    }

    /// Returns whether this syllable is a monosyllabic cmavo.
    pub(crate) fn could_start_cmavo(&self) -> (b: bool)
        ensures
            b == self.starts_cmavo(),
    {
        matches!(self.onset, Onset::Empty | Onset::Onglide(_) | Onset::Single(_))
            && self.coda.is_none() && self.nucleus.is_vocalic()
    }

    /// Returns whether this syllable could continue a cmavo that's already
    /// started.
    pub(crate) fn could_continue_cmavo(&self) -> (b: bool)
        ensures
            b == self.continues_cmavo(),
    {
        self.has_h_onset() && self.coda.is_none() && self.nucleus.is_vocalic()
    }

    /// Appends the letters of this syllable to `out`.
    pub(crate) fn write_to(&self, out: &mut String)
        ensures
            final(out)@ == old(out)@ + self.spelling(),
    {
        let ghost start = out@;
        self.onset.write_to(out);
        self.nucleus.write_to(out);
        match &self.coda {
            Some(c) => {
                push_char(out, c.0);
            },
            None => {},
        }
        assert(out@ =~= start + self.spelling());
    }

    /// The letters of this syllable, as a `String`.
    pub fn to_text(&self) -> (s: String)
        ensures
            s@ == self.spelling(),
    {
        let mut s = String::new();
        self.write_to(&mut s);
        assert(s@ =~= self.spelling());
        s
    }
}

impl Onset {
    /// The letters of this onset, as a `String`.
    pub fn to_text(&self) -> (s: String)
        ensures
            s@ == self.spelling(),
    {
        let mut s = String::new();
        self.write_to(&mut s);
        assert(s@ =~= self.spelling());
        s
    }
}

impl Nucleus {
    /// The letters of this nucleus, with the stress mark if it is stressed,
    /// as a `String`.
    pub fn to_text(&self) -> (s: String)
        ensures
            s@ == self.spelling(),
    {
        let mut s = String::new();
        self.write_to(&mut s);
        assert(s@ =~= self.spelling());
        s
    }
}

impl Coda {
    /// The letter of this coda, as a `String`.
    pub fn to_text(&self) -> (s: String)
        ensures
            s@ == seq![self.0],
    {
        let mut s = String::new();
        push_char(&mut s, self.0);
        assert(s@ =~= seq![self.0]);
        s
    }
}

} // verus!
