//! The letters that syllables and units are written with, and how they
//! relate to the letters of a text.

use vstd::prelude::*;

use crate::phonology::{accented, lemma_stress_roundtrip, plain_glide, stripped};
use crate::syllables::{nucleus_of, onset_of, Coda, Nucleus, Onset, Syllable};
use crate::units::consonants::{coda_split, consonantal_syllable, pairs_of};
use crate::units::{all_syllables, plain_seq, plain_syllable, unit_syllables, Unit};

verus! {

/// A letter without its glide mark or stress mark.
pub open spec fn norm(c: char) -> char {
    stripped(plain_glide(c)).0
}

/// The letters of `s` without glide marks or stress marks.
pub open spec fn norm_seq(s: Seq<char>) -> Seq<char> {
    s.map_values(|c: char| norm(c))
}

/// A pause: a space or a period.
pub open spec fn is_pause(c: char) -> bool {
    c == ' ' || c == '.'
}

/// The letters of the text `s`, without its pauses.
pub open spec fn text_letters(s: Seq<char>) -> Seq<char>
    decreases s.len(),
{
    if s.len() == 0 {
        seq![]
    } else {
        (if is_pause(s[0]) {
            seq![]
        } else {
            seq![s[0]]
        }) + text_letters(s.drop_first())
    }
}

/// The letters of the syllables `ss`, in order.
pub open spec fn syl_letters(ss: Seq<Syllable>) -> Seq<char>
    decreases ss.len(),
{
    if ss.len() == 0 {
        seq![]
    } else {
        ss[0].spelling() + syl_letters(ss.drop_first())
    }
}

/// The letters of a unit: those of its syllables, or a cmevla's text.
pub open spec fn unit_letters(u: Unit) -> Seq<char> {
    match u {
        Unit::Normal { syllables, .. } => syl_letters(syllables@),
        Unit::Cmevla(t) => t@,
    }
}

/// The letters of the units `us`, in order.
pub open spec fn units_text(us: Seq<Unit>) -> Seq<char>
    decreases us.len(),
{
    if us.len() == 0 {
        seq![]
    } else {
        unit_letters(us[0]) + units_text(us.drop_first())
    }
}

/// The letter of a coda, if there is one.
pub open spec fn coda_seq(c: Option<Coda>) -> Seq<char> {
    match c {
        Some(k) => seq![k.0],
        None => seq![],
    }
}

pub proof fn lemma_norm_concat(a: Seq<char>, b: Seq<char>)
    ensures
        norm_seq(a + b) == norm_seq(a) + norm_seq(b),
{
    assert(norm_seq(a + b) =~= norm_seq(a) + norm_seq(b));
}

pub proof fn lemma_text_letters_concat(a: Seq<char>, b: Seq<char>)
    ensures
        text_letters(a + b) == text_letters(a) + text_letters(b),
    decreases a.len(),
{
    if a.len() == 0 {
        assert(a + b =~= b);
        assert(text_letters(a) =~= seq![]);
        assert(seq![] + text_letters(b) =~= text_letters(b));
    } else {
        assert((a + b).drop_first() =~= a.drop_first() + b);
        lemma_text_letters_concat(a.drop_first(), b);
        assert((a + b)[0] == a[0]);
        let h = if is_pause(a[0]) {
            seq![]
        } else {
            seq![a[0]]
        };
        assert(text_letters(a + b) == h + text_letters(a.drop_first() + b));
        assert(h + (text_letters(a.drop_first()) + text_letters(b)) =~= (h + text_letters(
            a.drop_first(),
        )) + text_letters(b));
    }
}

/// A text without pauses is its own letters.
pub proof fn lemma_text_letters_plain(s: Seq<char>)
    requires
        forall|k: int| 0 <= k < s.len() ==> !is_pause(#[trigger] s[k]),
    ensures
        text_letters(s) == s,
    decreases s.len(),
{
    if s.len() > 0 {
        assert forall|k: int| 0 <= k < s.drop_first().len() implies !is_pause(
            #[trigger] s.drop_first()[k],
        ) by {
            assert(s.drop_first()[k] == s[k + 1]);
        }
        lemma_text_letters_plain(s.drop_first());
        assert(seq![s[0]] + s.drop_first() =~= s);
    }
}

pub proof fn lemma_syl_letters_concat(a: Seq<Syllable>, b: Seq<Syllable>)
    ensures
        syl_letters(a + b) == syl_letters(a) + syl_letters(b),
    decreases a.len(),
{
    if a.len() == 0 {
        assert(a + b =~= b);
        assert(seq![] + syl_letters(b) =~= syl_letters(b));
    } else {
        assert((a + b).drop_first() =~= a.drop_first() + b);
        lemma_syl_letters_concat(a.drop_first(), b);
        assert((a + b)[0] == a[0]);
        assert(a[0].spelling() + (syl_letters(a.drop_first()) + syl_letters(b)) =~= (
        a[0].spelling() + syl_letters(a.drop_first())) + syl_letters(b));
    }
}

pub proof fn lemma_syl_letters_one(x: Syllable)
    ensures
        syl_letters(seq![x]) == x.spelling(),
{
    assert(seq![x].drop_first() =~= Seq::<Syllable>::empty());
    assert(syl_letters(Seq::<Syllable>::empty()) =~= seq![]);
    assert(x.spelling() + seq![] =~= x.spelling());
}

pub proof fn lemma_units_text_concat(a: Seq<Unit>, b: Seq<Unit>)
    ensures
        units_text(a + b) == units_text(a) + units_text(b),
    decreases a.len(),
{
    if a.len() == 0 {
        assert(a + b =~= b);
        assert(seq![] + units_text(b) =~= units_text(b));
    } else {
        assert((a + b).drop_first() =~= a.drop_first() + b);
        lemma_units_text_concat(a.drop_first(), b);
        assert((a + b)[0] == a[0]);
        assert(unit_letters(a[0]) + (units_text(a.drop_first()) + units_text(b)) =~= (
        unit_letters(a[0]) + units_text(a.drop_first())) + units_text(b));
    }
}

pub proof fn lemma_units_text_one(u: Unit)
    ensures
        units_text(seq![u]) == unit_letters(u),
{
    assert(seq![u].drop_first() =~= Seq::<Unit>::empty());
    assert(units_text(Seq::<Unit>::empty()) =~= seq![]);
    assert(unit_letters(u) + seq![] =~= unit_letters(u));
}

/// The letters of normal units are those of all their syllables.
pub proof fn lemma_units_text_syllables(us: Seq<Unit>)
    requires
        forall|k: int| 0 <= k < us.len() ==> (#[trigger] us[k]) is Normal,
    ensures
        units_text(us) == syl_letters(all_syllables(us)),
    decreases us.len(),
{
    if us.len() == 0 {
        assert(all_syllables(us) =~= seq![]);
    } else {
        let init = us.drop_last();
        let last = us.last();
        assert forall|k: int| 0 <= k < init.len() implies (#[trigger] init[k]) is Normal by {
            assert(init[k] == us[k]);
        }
        lemma_units_text_syllables(init);
        assert(us =~= init + seq![last]);
        lemma_units_text_concat(init, seq![last]);
        lemma_units_text_one(last);
        assert(all_syllables(us) == all_syllables(init) + unit_syllables(last));
        lemma_syl_letters_concat(all_syllables(init), unit_syllables(last));
    }
}

/// Taking stress marks off syllables changes their letters only by stress.
pub proof fn lemma_plain_letters(ss: Seq<Syllable>)
    ensures
        norm_seq(syl_letters(plain_seq(ss))) == norm_seq(syl_letters(ss)),
    decreases ss.len(),
{
    if ss.len() > 0 {
        assert(plain_seq(ss).drop_first() =~= plain_seq(ss.drop_first()));
        lemma_plain_letters(ss.drop_first());
        let x = ss[0];
        assert(plain_seq(ss)[0] == plain_syllable(x));
        lemma_spelling_norm(x);
        lemma_norm_concat(plain_syllable(x).spelling(), syl_letters(plain_seq(ss.drop_first())));
        lemma_norm_concat(x.spelling(), syl_letters(ss.drop_first()));
    }
}

/// A syllable and its unstressed form have the same letters but for stress.
pub proof fn lemma_spelling_norm(x: Syllable)
    ensures
        norm_seq(plain_syllable(x).spelling()) == norm_seq(x.spelling()),
{
    lemma_nucleus_plain(x.nucleus);
    let c = match x.coda {
        Some(k) => seq![k.0],
        None => seq![],
    };
    assert(plain_syllable(x).spelling() == x.onset.spelling() + x.nucleus.with_stress(
        false,
    ).spelling() + c);
    lemma_norm_concat(x.onset.spelling() + x.nucleus.with_stress(false).spelling(), c);
    lemma_norm_concat(x.onset.spelling(), x.nucleus.with_stress(false).spelling());
    lemma_norm_concat(x.onset.spelling() + x.nucleus.spelling(), c);
    lemma_norm_concat(x.onset.spelling(), x.nucleus.spelling());
}

/// A nucleus without its stress has the same letters but for stress.
pub proof fn lemma_nucleus_plain(n: Nucleus)
    ensures
        norm_seq(n.with_stress(false).spelling()) == norm_seq(n.spelling()),
{
    match n {
        Nucleus::StressableMonophthong { vowel, stressed } => {
            lemma_stress_roundtrip(vowel);
            lemma_accent_norm(vowel);
            assert(norm_seq(n.with_stress(false).spelling()) =~= norm_seq(n.spelling()));
        },
        Nucleus::Diphthong { first, second, stressed } => {
            lemma_accent_norm(first);
            assert(norm_seq(n.with_stress(false).spelling()) =~= norm_seq(n.spelling()));
        },
        _ => {},
    }
}

/// A plain vowel with its stress mark added loses it again in `norm`.
pub proof fn lemma_accent_norm(v: char)
    ensures
        norm(crate::syllables::accent_or_same(v)) == norm(v),
{
    lemma_stress_roundtrip(v);
}

/// The nucleus that some letters spell is written with them, but for stress.
pub proof fn lemma_nucleus_letters(s: Seq<char>, n: Nucleus)
    requires
        nucleus_of(s) == Some(n),
        forall|k: int| 0 <= k < s.len() ==> plain_glide(#[trigger] s[k]) == s[k],
    ensures
        norm_seq(n.spelling()) == norm_seq(s),
{
    lemma_stress_roundtrip(s[0]);
    if s.len() == 2 {
        assert(plain_glide(s[1]) == s[1]);
    }
    assert(plain_glide(s[0]) == s[0]);
    lemma_stress_roundtrip(stripped(s[0]).0);
    assert(norm_seq(n.spelling()) =~= norm_seq(s));
}

/// An onset is written with the letters that spell it.
pub proof fn lemma_onset_letters(s: Seq<char>, o: Onset)
    requires
        onset_of(s) == Some(o),
    ensures
        o.spelling() == s,
{
    if s.len() == 2 {
        assert(s =~= seq![s[0], s[1]]);
    } else if s.len() == 3 {
        assert(s =~= seq![s[0], s[1], s[2]]);
    } else if s.len() == 1 {
        assert(s =~= seq![s[0]]);
    }
}

/// Consonantal syllables are written with the letters they were made of.
pub proof fn lemma_pairs_letters(rtl: Seq<char>)
    requires
        rtl.len() % 2 == 0,
        pairs_of(rtl) is Some,
    ensures
        syl_letters(pairs_of(rtl)->0) == rtl.reverse(),
    decreases rtl.len(),
{
    let ltr = rtl.reverse();
    let p = pairs_of(rtl)->0;
    if rtl.len() > 0 {
        // the first pair of ltr is the last two of rtl
        let rest = rtl.subrange(0, rtl.len() - 2);
        assert(rest.reverse() =~= ltr.subrange(2, ltr.len() as int));
        assert forall|j: int| 0 <= j < rest.len() / 2 implies #[trigger] crate::units::consonants::pair_ok_at(
            rest.reverse(),
            j,
        ) by {
            assert(crate::units::consonants::pair_ok_at(ltr, j + 1));
            assert(rest.reverse()[2 * j] == ltr[2 * j + 2]);
            assert(rest.reverse()[2 * j + 1] == ltr[2 * j + 3]);
        }
        assert(crate::units::consonants::pair_ok_at(ltr, 0));
        lemma_pairs_letters(rest);
        let q = pairs_of(rest)->0;
        assert(p.drop_first() =~= q) by {
            assert forall|j: int| 0 <= j < q.len() implies p.drop_first()[j] == q[j] by {
                assert(rest.reverse()[2 * j] == ltr[2 * j + 2]);
                assert(rest.reverse()[2 * j + 1] == ltr[2 * j + 3]);
            }
        }
        assert(p[0] == consonantal_syllable(ltr[0], ltr[1]));
        assert(p[0].spelling() =~= seq![ltr[0], ltr[1]]);
        assert(ltr =~= seq![ltr[0], ltr[1]] + rest.reverse());
    } else {
        assert(p =~= Seq::<Syllable>::empty());
        assert(ltr =~= seq![]);
    }
}

/// A consonant run split into a coda and consonantal syllables is written
/// with the same letters.
pub proof fn lemma_coda_split_letters(rtl: Seq<char>, allow_coda: bool)
    requires
        coda_split(rtl, allow_coda) is Some,
    ensures
        ({
            let (c, p) = coda_split(rtl, allow_coda)->0;
            rtl.reverse() == coda_seq(c) + syl_letters(p)
        }),
{
    if rtl.len() == 0 {
        assert(rtl.reverse() =~= seq![]);
        assert(coda_seq(None) + syl_letters(Seq::<Syllable>::empty()) =~= seq![]);
    } else if allow_coda && rtl.len() % 2 == 1 && crate::phonology::hard_consonant(rtl.last())
        && pairs_of(rtl.drop_last()) is Some {
        lemma_pairs_letters(rtl.drop_last());
        assert(rtl.reverse() =~= seq![rtl.last()] + rtl.drop_last().reverse());
    } else {
        lemma_pairs_letters(rtl);
        assert(coda_seq(None) + syl_letters(pairs_of(rtl)->0) =~= syl_letters(pairs_of(rtl)->0));
    }
}

} // verus!
