//! Types and parsers for units, strings of Lojban that match `cmavo*
//! prebrivla?`. (See the jargon docs for more details.)

use std::collections::VecDeque;
use vstd::prelude::*;

use crate::jvofli::Jvofli;
use crate::phonology::{consonant, is_consonant, is_vowel, vowel};
use crate::text::push_char;
use crate::settings::Settings;
use crate::phonology::lemma_stress_roundtrip;
use crate::syllables::{lemma_nucleus_valid_stress, lemma_onset_of_valid, Nucleus, Syllable};
use crate::text::collect_chars;
use crate::units::letters::{
    is_pause, lemma_syl_letters_concat, lemma_syl_letters_one, norm_seq, syl_letters, text_letters,
    unit_letters, units_text,
};
use crate::units::precompute::max_syllables;
use crate::units::stress::units_model;
use crate::units::unitifier::{
    cmevla_valid, one_cmevla_group, text_char, text_units, unit_ok, unitify_chars, units_ok,
};

mod cmavo;
mod cmevla;
mod consonants;
mod letters;
mod merge;
mod precompute;
mod stress;
mod unitifier;

verus! {

/// Mostly a list of Lojban syllables. Units are the result of taking some
/// Lojban text and splitting it at mandatory pauses and after brivla.
#[derive(Clone, PartialEq, Eq, Debug)]
pub enum Unit {
    /// A normal unit consists of a possibly empty sequence of cmavo followed by
    /// an optional pre-brivla.
    Normal {
        /// The list of syllables.
        syllables: VecDeque<Syllable>,
        /// The index in `syllables` that marks the start of the pre-brivla, if
        /// it's present; i.e. this is `Some(0)` if there are no cmavo and
        /// `None` if there is no pre-brivla.
        pre_brivla_start: Option<usize>,
    },
    /// Cmevla are not required to consist of syllables at all, so we don't
    /// bother trying to syllabify them.
    Cmevla(String),
}

/// A syllable with its stress mark removed.
pub open spec fn plain_syllable(x: Syllable) -> Syllable {
    Syllable { onset: x.onset, nucleus: x.nucleus.with_stress(false), coda: x.coda }
}

/// Syllables with their stress marks removed.
pub open spec fn plain_seq(s: Seq<Syllable>) -> Seq<Syllable> {
    s.map_values(|x: Syllable| plain_syllable(x))
}

/// The syllables of a unit (none for a cmevla).
pub open spec fn unit_syllables(u: Unit) -> Seq<Syllable> {
    match u {
        Unit::Normal { syllables, .. } => syllables@,
        Unit::Cmevla(_) => seq![],
    }
}

/// The syllables of a list of units, in order.
pub open spec fn all_syllables(units: Seq<Unit>) -> Seq<Syllable>
    decreases units.len(),
{
    if units.len() == 0 {
        seq![]
    } else {
        all_syllables(units.drop_last()) + unit_syllables(units.last())
    }
}

/// A normal unit with at least one syllable, whose pre-brivla, if any,
/// starts at one of them and holds at least two.
pub open spec fn normal_unit_ok(u: Unit) -> bool {
    &&& u is Normal
    &&& unit_syllables(u).len() > 0
    &&& (u->pre_brivla_start matches Some(p) ==> p + 2 <= unit_syllables(u).len())
}

/// Every unit of `units` is a well-formed normal unit.
pub open spec fn all_normal_ok(units: Seq<Unit>) -> bool {
    forall|k: int| 0 <= k < units.len() ==> normal_unit_ok(#[trigger] units[k])
}

/// The pre-brivla of a unit, where it has one, holds a stressed syllable.
pub open spec fn pre_brivla_stressed(u: Unit) -> bool {
    u matches Unit::Normal { syllables, pre_brivla_start: Some(p) } ==> exists|k: int|
        p <= k < syllables@.len() && (#[trigger] syllables@[k]).nucleus.stressed_spec()
}

/// The pre-brivla of every unit of `units` holds a stressed syllable.
pub open spec fn all_pre_brivla_stressed(units: Seq<Unit>) -> bool {
    forall|k: int| 0 <= k < units.len() ==> pre_brivla_stressed(#[trigger] units[k])
}

/// Every syllable of `s` is valid.
pub open spec fn syllables_valid(s: Seq<Syllable>) -> bool {
    forall|k: int| 0 <= k < s.len() ==> (#[trigger] s[k]).valid()
}

/// Removing stress marks does not change whether syllables are valid.
pub proof fn lemma_plain_valid(s: Seq<Syllable>)
    ensures
        syllables_valid(plain_seq(s)) == syllables_valid(s),
{
    assert forall|k: int| 0 <= k < s.len() implies (#[trigger] plain_seq(s)[k]).valid() == s[k].valid() by {
        lemma_nucleus_valid_stress(s[k].nucleus, false);
    }
    if syllables_valid(plain_seq(s)) {
        assert forall|k: int| 0 <= k < s.len() implies (#[trigger] s[k]).valid() by {
            assert(plain_seq(s)[k].valid());
        }
    }
    if syllables_valid(s) {
        assert forall|k: int| 0 <= k < plain_seq(s).len() implies (#[trigger] plain_seq(s)[k]).valid() by {
            assert(s[k].valid());
        }
    }
}

/// The syllables of each of some units are valid where all of theirs are.
pub proof fn lemma_units_valid(us: Seq<Unit>, k: int)
    requires
        syllables_valid(all_syllables(us)),
        0 <= k < us.len(),
    ensures
        syllables_valid(unit_syllables(us[k])),
    decreases us.len(),
{
    let init = us.drop_last();
    let head = all_syllables(init);
    let tail = unit_syllables(us.last());
    assert(all_syllables(us) == head + tail);
    if k == us.len() - 1 {
        assert forall|j: int| 0 <= j < tail.len() implies (#[trigger] tail[j]).valid() by {
            assert((head + tail)[head.len() + j] == tail[j]);
        }
    } else {
        assert forall|j: int| 0 <= j < head.len() implies (#[trigger] head[j]).valid() by {
            assert((head + tail)[j] == head[j]);
        }
        lemma_units_valid(init, k);
        assert(init[k] == us[k]);
    }
}

pub proof fn lemma_plain_seq_concat(a: Seq<Syllable>, b: Seq<Syllable>)
    ensures
        plain_seq(a + b) == plain_seq(a) + plain_seq(b),
{
    assert(plain_seq(a + b) =~= plain_seq(a) + plain_seq(b));
}

pub proof fn lemma_all_syllables_concat(a: Seq<Unit>, b: Seq<Unit>)
    ensures
        all_syllables(a + b) == all_syllables(a) + all_syllables(b),
    decreases b.len(),
{
    if b.len() == 0 {
        assert(a + b =~= a);
        assert(all_syllables(a) + all_syllables(b) =~= all_syllables(a));
    } else {
        assert((a + b).drop_last() =~= a + b.drop_last());
        lemma_all_syllables_concat(a, b.drop_last());
        assert(all_syllables(a + b) =~= all_syllables(a) + all_syllables(b));
    }
}

pub proof fn lemma_all_syllables_push(a: Seq<Unit>, u: Unit)
    ensures
        all_syllables(a.push(u)) == all_syllables(a) + unit_syllables(u),
{
    assert(a.push(u).drop_last() =~= a);
}

/// A deque holding the syllables of `s`, in order.
pub(crate) fn deque_of(s: &[Syllable]) -> (d: VecDeque<Syllable>)
    ensures
        d@ == s@,
{
    let mut d: VecDeque<Syllable> = VecDeque::new();
    let mut i: usize = 0;
    while i < s.len()
        invariant
            i <= s.len(),
            d@ == s@.take(i as int),
        decreases s.len() - i,
    {
        d.push_back(s[i]);
        i += 1;
        assert(s@.take(i as int) =~= s@.take(i - 1).push(s@[i - 1]));
    }
    assert(s@.take(s.len() as int) =~= s@);
    d
}

impl Unit {
    /// Returns whether this unit is entirely cmavo.
    pub fn is_cmavo_only(&self) -> (b: bool)
        ensures
            b == (*self matches Unit::Normal { pre_brivla_start, .. } && pre_brivla_start is None),
    {
        matches!(self, Unit::Normal { pre_brivla_start: None, .. })
    }

    /// Returns whether this unit is entirely a pre-brivla.
    pub fn is_pre_brivla_only(&self) -> (b: bool)
        ensures
            b == (*self matches Unit::Normal { pre_brivla_start, .. } && pre_brivla_start == Some(
                0usize,
            )),
    {
        match self {
            Unit::Normal { pre_brivla_start: Some(p), .. } => *p == 0,
            _ => false,
        }
    }
}

/// Tries to convert a string to a list of [`Unit`]s. `settings` is used for
/// `allow_mz` and `arbitrary_cmavo_rafsi`.
///
/// This isn't done via [`FromStr`](std::str::FromStr) for two reasons:
/// - in the `Ok` case we return a `Vec` rather than one `Unit`
/// - `from_str(s)` can also be written as `s.parse()`, which could be
///   interpreted as meaning Lojban *grammar* parsing
///
/// The input is assumed to be 100% Lojban, so e.g. uses of *la'oi .whatever.*
/// and *zoizoi. whatever .zoi* will probably error in some way. (We can't
/// handle these without considering grammar, which jvot3 isn't concerned with,
/// so this is a wontfix.)
///
/// It succeeds exactly where the rule that `text_units` states does, and
/// then gives the units that rule gives: pause group by pause group, right
/// to left, letters are read into syllables, a group that ends in a
/// consonant is a cmevla, and the syllables of any other group resolve
/// their stress (see `stress_split`), and the last unit of a group joins
/// the first unit of the group after it where it may.
///
/// The result is what the rule `text_units` gives: its units, or the error
/// that it names for `s` (the view of the error is that fault).
///
/// On success every normal unit holds valid syllables (see
/// [`Syllable::valid`]), the first without an apostrophe onset, and its
/// pre-brivla, if any, starts at one of them, holds at least two and holds
/// a stressed one; every cmevla ends in a hard consonant and
/// passes the cmevla check; and the units, run together, spell the letters
/// of `s` but for its pauses, glide marks and stress marks. It fails on any
/// text that holds a character other than a pause, a vowel or a consonant
/// (see `text_char`). A text of pauses alone has no units, and a text of
/// one pause group that ends in a consonant is one cmevla: it succeeds
/// exactly where its characters are letters and it passes the cmevla
/// check (see `cmevla_valid`).
///
/// # Errors
///
/// Propogates errors from all the internal functions. For example:
/// - [`Jvofli::NonLojbanCharacter`]
/// - [`Jvofli::Invalid`] (see [`crate::jvofli::What`])
/// - [`Jvofli::LongGlide`]: same letter used as both offglide and onglide
/// - [`Jvofli::OnglideInCluster`]: annotated glide adjacent to a consonant
/// - [`Jvofli::MisplacedApostrophe`]
/// - [`Jvofli::NotEnoughSyllables`]
/// - [`Jvofli::InvalidStressPosition`]: explicit stress doesn't fall on a valid
///   penult
/// - [`Jvofli::Slinkuhi`]: specifically for CCV'V units, as those are banned
///   even under `settings.no_slinkuhi`
pub fn unitify(s: &str, settings: Settings) -> (r: Result<Vec<Unit>, Jvofli>)
    requires
        s@.len() <= max_syllables(),
    ensures
        r matches Ok(units) ==> units_ok(units@, settings.allow_mz),
        r matches Ok(units) ==> norm_seq(units_text(units@)) == norm_seq(text_letters(s@)),
        r is Ok ==> forall|k: int| 0 <= k < s@.len() ==> text_char(#[trigger] s@[k]),
        (forall|k: int| 0 <= k < s@.len() ==> is_pause(#[trigger] s@[k])) ==> (r matches Ok(units)
            && units@.len() == 0),
        one_cmevla_group(s@) ==> (r is Ok <==> (forall|k: int|
            0 <= k < s@.len() ==> text_char(#[trigger] s@[k])) && cmevla_valid(
            s@,
            settings.allow_mz,
        )),
        one_cmevla_group(s@) ==> (r matches Ok(units) ==> units@.len() == 1 && (
        units@[0] matches Unit::Cmevla(t) && t@ == s@)),
        match text_units(s@, settings.allow_mz, settings.arbitrary_cmavo_rafsi) {
            Ok(m) => r matches Ok(units) && units_model(units@) == m,
            Err(f) => r matches Err(e) && e@ == f,
        },
{
    let input = collect_chars(s);
    unitify_chars(input, settings)
}


/// The debug form of syllable `k` of syllables `s` whose pre-brivla starts
/// at `pbs`: a comma before all but the first, a bar before the first of
/// the pre-brivla, then its letters.
pub open spec fn syllable_debug(s: Seq<Syllable>, pbs: Option<usize>, k: int) -> Seq<char> {
    (if k > 0 {
        seq![',']
    } else {
        seq![]
    }) + (if pbs matches Some(p) && p == k {
        seq!['|']
    } else {
        seq![]
    }) + s[k].spelling()
}

/// The debug forms of the first `n` syllables of `s`, run together.
pub open spec fn syllables_debug(s: Seq<Syllable>, pbs: Option<usize>, n: int) -> Seq<char>
    decreases n,
{
    if n <= 0 {
        seq![]
    } else {
        syllables_debug(s, pbs, n - 1) + syllable_debug(s, pbs, n - 1)
    }
}

/// The debug form of a unit: its syllables separated by commas, with a bar
/// where the pre-brivla starts, or a cmevla between periods.
pub open spec fn debug_text(u: Unit) -> Seq<char> {
    match u {
        Unit::Normal { syllables, pre_brivla_start } => syllables_debug(
            syllables@,
            pre_brivla_start,
            syllables@.len() as int,
        ),
        Unit::Cmevla(c) => seq!['.'] + c@ + seq!['.'],
    }
}

/// The consonants and vowels of `s`, in order.
pub open spec fn letters_of(s: Seq<char>) -> Seq<char>
    decreases s.len(),
{
    if s.len() == 0 {
        seq![]
    } else if consonant(s.last()) || vowel(s.last()) {
        letters_of(s.drop_last()).push(s.last())
    } else {
        letters_of(s.drop_last())
    }
}

/// Every letter of `s` is a consonant or a vowel.
pub open spec fn all_letters(s: Seq<char>) -> bool {
    forall|k: int| 0 <= k < s.len() ==> consonant(#[trigger] s[k]) || vowel(s[k])
}

proof fn lemma_letters_of_concat(a: Seq<char>, b: Seq<char>)
    ensures
        letters_of(a + b) == letters_of(a) + letters_of(b),
    decreases b.len(),
{
    if b.len() == 0 {
        assert(a + b =~= a);
        assert(letters_of(b) =~= seq![]);
        assert(letters_of(a) + seq![] =~= letters_of(a));
    } else {
        assert((a + b).drop_last() =~= a + b.drop_last());
        assert((a + b).last() == b.last());
        lemma_letters_of_concat(a, b.drop_last());
        if consonant(b.last()) || vowel(b.last()) {
            assert(letters_of(a) + letters_of(b.drop_last()).push(b.last()) =~= (letters_of(a)
                + letters_of(b.drop_last())).push(b.last()));
        }
    }
}

proof fn lemma_letters_of_letters(s: Seq<char>)
    requires
        all_letters(s),
    ensures
        letters_of(s) == s,
    decreases s.len(),
{
    if s.len() > 0 {
        assert(all_letters(s.drop_last())) by {
            assert forall|k: int| 0 <= k < s.drop_last().len() implies consonant(
                #[trigger] s.drop_last()[k],
            ) || vowel(s.drop_last()[k]) by {
                assert(s.drop_last()[k] == s[k]);
            }
        }
        lemma_letters_of_letters(s.drop_last());
        assert(s.drop_last().push(s.last()) =~= s);
    }
}

/// The letters of a valid syllable are all consonants and vowels.
proof fn lemma_valid_spelling_letters(x: Syllable)
    requires
        x.valid(),
    ensures
        all_letters(x.spelling()),
{
    lemma_onset_of_valid(x.onset.spelling());
    lemma_stress_roundtrip(x.nucleus.with_stress(false).spelling()[0]);
    let n = x.nucleus;
    match n {
        Nucleus::StressableMonophthong { vowel: v, .. } => {
            lemma_stress_roundtrip(v);
        },
        Nucleus::Diphthong { first, .. } => {
            lemma_stress_roundtrip(first);
        },
        _ => {},
    }
    let o = x.onset.spelling();
    let ns = x.nucleus.spelling();
    let c = match x.coda {
        Some(k) => seq![k.0],
        None => seq![],
    };
    assert(x.spelling() == o + ns + c);
    assert forall|k: int| 0 <= k < x.spelling().len() implies consonant(
        #[trigger] x.spelling()[k],
    ) || vowel(x.spelling()[k]) by {
        if k < o.len() {
            assert(x.spelling()[k] == o[k]);
        } else if k < o.len() + ns.len() {
            assert(x.spelling()[k] == ns[k - o.len()]);
        } else {
            assert(x.spelling()[k] == c[k - o.len() - ns.len()]);
        }
    }
}

/// A mark that is no letter leaves no letter.
proof fn lemma_mark_no_letter(c: char)
    requires
        !consonant(c),
        !vowel(c),
    ensures
        letters_of(seq![c]) == Seq::<char>::empty(),
{
    assert(seq![c].drop_last() =~= Seq::<char>::empty());
    assert(seq![c].last() == c);
    reveal_with_fuel(letters_of, 2);
}

/// The debug form of some syllables, without its marks, is their letters.
proof fn lemma_syllables_debug_letters(s: Seq<Syllable>, pbs: Option<usize>, n: int)
    requires
        0 <= n <= s.len(),
        syllables_valid(s),
    ensures
        letters_of(syllables_debug(s, pbs, n)) == syl_letters(s.take(n)),
    decreases n,
{
    if n == 0 {
        assert(syllables_debug(s, pbs, 0) =~= seq![]);
        assert(letters_of(seq![]) =~= seq![]);
        assert(s.take(0) =~= Seq::<Syllable>::empty());
        assert(syl_letters(Seq::<Syllable>::empty()) =~= seq![]);
    } else {
        lemma_syllables_debug_letters(s, pbs, n - 1);
        let comma: Seq<char> = if n - 1 > 0 {
            seq![',']
        } else {
            seq![]
        };
        let bar: Seq<char> = if pbs matches Some(p) && p == n - 1 {
            seq!['|']
        } else {
            seq![]
        };
        let sp = s[n - 1].spelling();
        assert(syllable_debug(s, pbs, n - 1) == comma + bar + sp);
        lemma_letters_of_concat(syllables_debug(s, pbs, n - 1), comma + bar + sp);
        lemma_letters_of_concat(comma + bar, sp);
        lemma_letters_of_concat(comma, bar);
        lemma_mark_no_letter(',');
        lemma_mark_no_letter('|');
        assert(letters_of(Seq::<char>::empty()) =~= seq![]);
        lemma_valid_spelling_letters(s[n - 1]);
        lemma_letters_of_letters(sp);
        assert(s.take(n) =~= s.take(n - 1) + seq![s[n - 1]]);
        lemma_syl_letters_concat(s.take(n - 1), seq![s[n - 1]]);
        lemma_syl_letters_one(s[n - 1]);
        assert(letters_of(syllables_debug(s, pbs, n)) =~= syl_letters(s.take(n - 1)) + sp);
    }
}

/// The letters of valid syllables are all consonants and vowels.
proof fn lemma_syl_letters_all(s: Seq<Syllable>)
    requires
        syllables_valid(s),
    ensures
        all_letters(syl_letters(s)),
    decreases s.len(),
{
    if s.len() > 0 {
        let t = s.drop_first();
        assert(syllables_valid(t)) by {
            assert forall|k: int| 0 <= k < t.len() implies (#[trigger] t[k]).valid() by {
                assert(t[k] == s[k + 1]);
            }
        }
        lemma_syl_letters_all(t);
        lemma_valid_spelling_letters(s[0]);
        let a = s[0].spelling();
        let b = syl_letters(t);
        assert(syl_letters(s) == a + b);
        assert forall|k: int| 0 <= k < (a + b).len() implies consonant(#[trigger] (a + b)[k])
            || vowel((a + b)[k]) by {
            if k < a.len() {
                assert((a + b)[k] == a[k]);
            } else {
                assert((a + b)[k] == b[k - a.len()]);
            }
        }
    }
}

/// The text of a unit as `unitify` makes them (see [`Unit::to_text`]) is
/// the consonants and vowels of its letters: those of its syllables, one
/// after the other, or those of its cmevla.
pub proof fn lemma_unit_text_letters(u: Unit, mz: bool)
    requires
        unit_ok(u, mz),
    ensures
        letters_of(debug_text(u)) == letters_of(unit_letters(u)),
        u is Normal ==> letters_of(debug_text(u)) == unit_letters(u),
{
    match u {
        Unit::Normal { syllables, pre_brivla_start } => {
            let s = syllables@;
            lemma_syllables_debug_letters(s, pre_brivla_start, s.len() as int);
            assert(s.take(s.len() as int) =~= s);
            lemma_syl_letters_all(s);
            lemma_letters_of_letters(syl_letters(s));
        },
        Unit::Cmevla(c) => {
            lemma_mark_no_letter('.');
            lemma_letters_of_concat(seq!['.'] + c@, seq!['.']);
            lemma_letters_of_concat(seq!['.'], c@);
            assert(Seq::<char>::empty() + letters_of(c@) + Seq::<char>::empty() =~= letters_of(c@));
        },
    }
}

impl Unit {
    /// The debug form of this unit: its syllables separated by commas, with
    /// a bar where the pre-brivla starts, or a cmevla between periods.
    pub fn to_debug_text(&self) -> (t: String)
        ensures
            t@ == debug_text(*self),
    {
        let mut t = String::new();
        match self {
            Unit::Normal { syllables, pre_brivla_start } => {
                let mut i: usize = 0;
                while i < syllables.len()
                    invariant
                        i <= syllables.len(),
                        t@ == syllables_debug(syllables@, *pre_brivla_start, i as int),
                    decreases syllables.len() - i,
                {
                    let ghost before = t@;
                    if i > 0 {
                        push_char(&mut t, ',');
                    }
                    let bar = match pre_brivla_start {
                        Some(p) => *p == i,
                        None => false,
                    };
                    if bar {
                        push_char(&mut t, '|');
                    }
                    let ghost mid = t@;
                    syllables[i].write_to(&mut t);
                    assert(t@ =~= before + syllable_debug(syllables@, *pre_brivla_start, i as int));
                    i += 1;
                }
            },
            Unit::Cmevla(c) => {
                push_char(&mut t, '.');
                let chars = crate::text::collect_chars(c.as_str());
                let mut i: usize = 0;
                while i < chars.len()
                    invariant
                        i <= chars.len(),
                        chars@ == c@,
                        t@ == seq!['.'] + c@.take(i as int),
                    decreases chars.len() - i,
                {
                    push_char(&mut t, chars[i]);
                    i += 1;
                    assert(c@.take(i as int) =~= c@.take(i - 1).push(c@[i - 1]));
                }
                push_char(&mut t, '.');
                assert(c@.take(c@.len() as int) =~= c@);
            },
        }
        t
    }

    /// This unit's letters: its debug form without the commas, bars and
    /// periods.
    pub fn to_text(&self) -> (t: String)
        ensures
            t@ == letters_of(debug_text(*self)),
    {
        let d = self.to_debug_text();
        let chars = crate::text::collect_chars(d.as_str());
        let mut t = String::new();
        let mut i: usize = 0;
        while i < chars.len()
            invariant
                i <= chars.len(),
                chars@ == debug_text(*self),
                t@ == letters_of(chars@.take(i as int)),
            decreases chars.len() - i,
        {
            let c = chars[i];
            assert(chars@.take(i + 1).drop_last() =~= chars@.take(i as int));
            if is_consonant(c) || is_vowel(c) {
                push_char(&mut t, c);
            }
            i += 1;
        }
        assert(chars@.take(chars.len() as int) =~= chars@);
        t
    }
}

} // verus!
