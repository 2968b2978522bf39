//! Walking a text right to left and gathering its syllables into units.

use vstd::prelude::*;

use crate::jvofli::{invalid_cluster_from_triple, invalid_from_pair, Fault, Jvofli, What};
use crate::phonology::{
    add_stress_accent, banned_triple, consonant, deannotate_glide, diphthong_chars, hard_consonant,
    is_banned_triple_chars, is_consonant, is_diphthong_chars, is_valid_chars, is_vowel,
    plain_glide, stripped, valid_cluster, vowel,
};
use crate::settings::Settings;
use crate::syllables::{
    lemma_nucleus_of_valid, lemma_onset_of_valid, nucleus_of, onset_of, onset_valid, stressed_unstressable, Coda, Nucleus,
    Onset, Syllable,
};
use crate::text::string_of;
use crate::units::cmevla::{
    annotated, check_cmevla, cmevla_fault, cmevla_fine_at, glide_pass, lemma_cmevla_fault,
};
use crate::units::consonants::{
    coda_split, lemma_coda_split_valid, split_into_coda_and_consonantal,
};
use crate::units::cmavo::cmavo_syllables;
use crate::units::merge::{joinable, try_merging_units};
use crate::units::precompute::max_syllables;
use crate::units::stress::{
    resolve_stress_and_split, stress_split, unit_model, units_model, UnitView,
};
use crate::units::letters::{
    coda_seq, is_pause, lemma_coda_split_letters, lemma_norm_concat, lemma_nucleus_letters,
    lemma_text_letters_concat, lemma_text_letters_plain, text_letters,
    lemma_onset_letters, lemma_plain_letters, lemma_syl_letters_concat, lemma_syl_letters_one,
    lemma_units_text_concat, lemma_units_text_one, lemma_units_text_syllables, norm_seq,
    syl_letters, unit_letters, units_text,
};
use crate::units::{
    all_normal_ok, all_syllables, lemma_all_syllables_push, lemma_plain_valid, lemma_units_valid,
    normal_unit_ok, plain_seq, pre_brivla_stressed, syllables_valid, unit_syllables, Unit,
};

verus! {

/// The text `t` can be a cmevla: it ends in a hard consonant, and its
/// letters, with their glides annotated, break no rule.
pub open spec fn cmevla_valid(t: Seq<char>, mz: bool) -> bool {
    &&& t.len() > 0
    &&& hard_consonant(t.last())
    &&& annotated(t) matches Some(a) && forall|i: int|
        0 <= i < a.len() ==> cmevla_fine_at(a, i, mz)
}

/// A unit as `unitify` makes them: a normal unit with valid syllables,
/// the first without an apostrophe onset, whose pre-brivla, if any, starts
/// at one of them, holds at least two and holds a stressed one; or a valid
/// cmevla.
pub open spec fn unit_ok(u: Unit, mz: bool) -> bool {
    match u {
        Unit::Normal { .. } => normal_unit_ok(u) && syllables_valid(unit_syllables(u))
            && pre_brivla_stressed(u) && !(unit_syllables(u)[0].onset is H),
        Unit::Cmevla(t) => cmevla_valid(t@, mz),
    }
}

/// Every unit of `us` is as `unitify` makes them.
pub open spec fn units_ok(us: Seq<Unit>, mz: bool) -> bool {
    forall|k: int| 0 <= k < us.len() ==> unit_ok(#[trigger] us[k], mz)
}

/// No unit of a list holds more syllables than the whole list.
proof fn lemma_unit_within(us: Seq<Unit>, k: int)
    requires
        0 <= k < us.len(),
    ensures
        unit_syllables(us[k]).len() <= all_syllables(us).len(),
    decreases us.len(),
{
    lemma_all_syllables_push(us.drop_last(), us.last());
    assert(us.drop_last().push(us.last()) =~= us);
    if k < us.len() - 1 {
        lemma_unit_within(us.drop_last(), k);
        assert(us.drop_last()[k] == us[k]);
    }
}

/// Annotating glides changes no letter but *i* and *u*.
proof fn lemma_glide_pass_keeps(s: Seq<char>, i: int, k: int)
    requires
        0 <= k < s.len(),
        !(stripped(s[k]).0 == 'i' || stripped(s[k]).0 == 'u'),
    ensures
        glide_pass(s, i) matches Ok(cur) ==> cur.len() == s.len() && cur[k] == s[k],
    decreases s.len() - i,
{
    if 0 <= i < s.len() {
        lemma_glide_pass_keeps(s, i + 1, k);
        lemma_glide_pass_prefix(s, i + 1);
    }
}

/// Annotating glides from `i` on leaves the letters before `i` alone.
proof fn lemma_glide_pass_prefix(s: Seq<char>, i: int)
    ensures
        glide_pass(s, i) matches Ok(cur) ==> cur.len() == s.len() && forall|k: int|
            0 <= k < i && k < s.len() ==> cur[k] == s[k],
    decreases s.len() - i,
{
    if 0 <= i < s.len() {
        lemma_glide_pass_prefix(s, i + 1);
    }
}

/// A text that passes the cmevla check and ends in a consonant ends in a
/// hard consonant.
proof fn lemma_cmevla_ends_hard(t: Seq<char>, mz: bool)
    requires
        t.len() > 0,
        consonant(t.last()),
        annotated(t) matches Some(a) && forall|i: int|
            0 <= i < a.len() ==> cmevla_fine_at(a, i, mz),
    ensures
        cmevla_valid(t, mz),
{
    let a = annotated(t)->0;
    lemma_glide_pass_keeps(t, 0, t.len() - 1);
    assert(a[a.len() - 1] == t.last());
    assert(cmevla_fine_at(a, a.len() - 1, mz));
}

/// The onset spelled by the first `m` letters of the right-to-left run
/// `rtl`.
pub open spec fn onset_of_rtl(rtl: Seq<char>, m: int) -> Option<Onset> {
    onset_of(rtl.take(m).reverse())
}

/// The letter just left of the onset once a consonant run is split: the
/// sonorant of the last consonantal syllable, or else the coda.
pub open spec fn left_of_onset(coda: Option<Coda>, pairs: Seq<Syllable>) -> Option<char> {
    if pairs.len() > 0 {
        match pairs.last().nucleus {
            Nucleus::Sonorant(l) => Some(l),
            _ => None,
        }
    } else {
        match coda {
            Some(cd) => Some(cd.0),
            None => None,
        }
    }
}

/// The right-to-left consonant run `rtl` splits with an onset of its first
/// `m` letters: they spell an onset, the rest splits into a coda (where
/// `may_try_coda`) and consonantal syllables, and the letter left of the
/// onset makes a valid cluster with its first letter and no banned triple
/// with its first two.
#[verifier::opaque]
pub open spec fn split_fits(rtl: Seq<char>, m: int, may_try_coda: bool, mz: bool) -> bool {
    let on = rtl.take(m).reverse();
    &&& onset_of(on) is Some
    &&& match coda_split(rtl.skip(m), may_try_coda) {
        Some((coda, pairs)) => match left_of_onset(coda, pairs) {
            Some(l) => valid_cluster(l, on[0], mz) && !(on.len() >= 2 && banned_triple(
                l,
                on[0],
                on[1],
            )),
            None => true,
        },
        None => false,
    }
}

/// The right-to-left consonant run `rtl` resolves: an apostrophe stands in
/// it only where it is alone, and some onset of one to three letters fits.
pub open spec fn consonants_resolve(rtl: Seq<char>, may_try_coda: bool, mz: bool) -> bool {
    &&& (rtl.len() <= 1 || !rtl.contains('\''))
    &&& exists|m: int|
        1 <= m <= 3 && m <= rtl.len() && #[trigger] split_fits(rtl, m, may_try_coda, mz)
}

/// The error that trying an onset of the first `k` letters of the
/// right-to-left consonant run `rtl` records, if any: an invalid onset
/// (where the rest would split), a rest that does not split, or an invalid
/// cluster or banned triple at the onset.
pub open spec fn fit_fault(rtl: Seq<char>, k: int, may_try_coda: bool, mz: bool) -> Option<Fault> {
    let on = rtl.take(k).reverse();
    let rest = rtl.skip(k);
    match onset_of(on) {
        None => if coda_split(rest, may_try_coda) is Some {
            Some(Fault::Invalid(What::Onset, on))
        } else {
            None
        },
        Some(_) => match coda_split(rest, may_try_coda) {
            None => Some(Fault::Invalid(What::ConsonantRun, rest.reverse())),
            Some(split) => match left_of_onset(split.0, split.1) {
                Some(l) => if !valid_cluster(l, on[0], mz) {
                    Some(Fault::Invalid(What::Cluster, seq![l, on[0]]))
                } else if on.len() >= 2 && banned_triple(l, on[0], on[1]) {
                    Some(Fault::Invalid(What::Cluster, seq![l, on[0], on[1]]))
                } else {
                    None
                },
                None => None,
            },
        },
    }
}

/// The first error recorded trying onsets of `hi` letters down to `lo + 1`.
pub open spec fn fits_fault(rtl: Seq<char>, hi: int, lo: int, may_try_coda: bool, mz: bool) -> Option<
    Fault,
>
    decreases hi - lo,
{
    if hi <= lo {
        None
    } else {
        match fit_fault(rtl, hi, may_try_coda, mz) {
            Some(f) => Some(f),
            None => fits_fault(rtl, hi - 1, lo, may_try_coda, mz),
        }
    }
}

/// Trying one more, shorter onset adds its error where none was recorded.
proof fn lemma_fits_fault_step(rtl: Seq<char>, hi: int, k: int, may_try_coda: bool, mz: bool)
    requires
        k <= hi,
    ensures
        fits_fault(rtl, hi, k - 1, may_try_coda, mz) == match fits_fault(rtl, hi, k, may_try_coda, mz) {
            Some(f) => Some(f),
            None => fit_fault(rtl, k, may_try_coda, mz),
        },
    decreases hi - k,
{
    assert(fits_fault(rtl, k - 1, k - 1, may_try_coda, mz) is None);
    assert(fits_fault(rtl, k, k, may_try_coda, mz) is None);
    if hi > k {
        lemma_fits_fault_step(rtl, hi - 1, k, may_try_coda, mz);
    }
}

/// The index of the first apostrophe of `rtl`.
pub open spec fn first_apostrophe(rtl: Seq<char>) -> int {
    choose|p: int|
        0 <= p < rtl.len() && rtl[p] == '\'' && forall|q: int| 0 <= q < p ==> rtl[q] != '\''
}

/// The error that resolving the right-to-left consonant run `rtl` (with
/// `left` the letter left of it, if any, and `nuc` the nucleus after it,
/// right to left) gives where it fails: a misplaced apostrophe with its
/// neighbours, or else the first error recorded trying onsets from the
/// longest down, or else the whole run as an invalid consonant run.
pub open spec fn resolve_fault(
    rtl: Seq<char>,
    may_try_coda: bool,
    mz: bool,
    left: Option<char>,
    nuc: Seq<char>,
) -> Fault {
    let n = rtl.len() as int;
    if n > 1 && rtl.contains('\'') {
        let pos = first_apostrophe(rtl);
        Fault::MisplacedApostrophe(
            if pos + 1 < n {
                Some(rtl[pos + 1])
            } else {
                left
            },
            if pos > 0 {
                Some(rtl[pos - 1])
            } else if nuc.len() > 0 {
                Some(nuc[0])
            } else {
                None
            },
        )
    } else {
        match fits_fault(
            rtl,
            if n < 3 {
                n
            } else {
                3
            },
            0,
            may_try_coda,
            mz,
        ) {
            Some(f) => f,
            None => Fault::Invalid(What::ConsonantRun, rtl.reverse()),
        }
    }
}

/// The length of the onset that resolving the consonant run `rtl` takes:
/// the longest that fits.
pub open spec fn chosen_onset_len(rtl: Seq<char>, may_try_coda: bool, mz: bool) -> int {
    choose|m: int| longest_fit(rtl, may_try_coda, mz, m)
}

/// `m` is the longest onset length, of one to three letters, that fits.
pub open spec fn longest_fit(rtl: Seq<char>, may_try_coda: bool, mz: bool, m: int) -> bool {
    &&& 1 <= m <= 3
    &&& m <= rtl.len()
    &&& split_fits(rtl, m, may_try_coda, mz)
    &&& forall|m2: int| m < m2 <= 3 && m2 <= rtl.len() ==> !#[trigger] split_fits(rtl, m2, may_try_coda, mz)
}

/// The longest fitting onset length is the one `chosen_onset_len` names.
proof fn lemma_chosen_onset_len(rtl: Seq<char>, may_try_coda: bool, mz: bool, m: int)
    requires
        longest_fit(rtl, may_try_coda, mz, m),
    ensures
        chosen_onset_len(rtl, may_try_coda, mz) == m,
{
    let c = chosen_onset_len(rtl, may_try_coda, mz);
    assert(longest_fit(rtl, may_try_coda, mz, c));
    if c < m {
        assert(!split_fits(rtl, m, may_try_coda, mz));
    } else if c > m {
        assert(!split_fits(rtl, c, may_try_coda, mz));
    }
}

/// A split of a consonant run uses two letters for each consonantal
/// syllable and one for the coda.
proof fn lemma_coda_split_len(rtl: Seq<char>, allow_coda: bool)
    ensures
        coda_split(rtl, allow_coda) matches Some((c, p)) ==> rtl.len() == 2 * p.len() + if c
            is Some {
            1int
        } else {
            0int
        },
{
}

/// The first letter that `n` is written with.
fn nucleus_first_letter(n: Nucleus) -> (c: char)
    ensures
        c == n.spelling()[0],
{
    match n {
        Nucleus::Y => 'y',
        Nucleus::Sonorant(c) => c,
        Nucleus::StressableMonophthong { vowel, stressed } => if stressed {
            match add_stress_accent(vowel) {
                Some(a) => a,
                None => vowel,
            }
        } else {
            vowel
        },
        Nucleus::Diphthong { first, stressed, .. } => if stressed {
            match add_stress_accent(first) {
                Some(a) => a,
                None => first,
            }
        } else {
            first
        },
    }
}

/// Letters that are all plain stay so in the other order.
proof fn lemma_nucleus_plain_rev(s: Seq<char>)
    requires
        forall|k: int| 0 <= k < s.len() ==> plain_glide(#[trigger] s[k]) == s[k],
    ensures
        forall|k: int| 0 <= k < s.len() ==> plain_glide(#[trigger] s.reverse()[k]) == s.reverse()[k],
{
    assert forall|k: int| 0 <= k < s.len() implies plain_glide(#[trigger] s.reverse()[k])
        == s.reverse()[k] by {
        assert(s.reverse()[k] == s[s.len() - 1 - k]);
    }
}

/// Changing a middle part of some letters to one with the same plain
/// letters keeps the plain letters of the whole.
proof fn lemma_norm_middle(x: Seq<char>, a: Seq<char>, b: Seq<char>, y: Seq<char>)
    requires
        norm_seq(a) == norm_seq(b),
    ensures
        norm_seq(x + a + y) == norm_seq(x + b + y),
{
    lemma_norm_concat(x + a, y);
    lemma_norm_concat(x, a);
    lemma_norm_concat(x + b, y);
    lemma_norm_concat(x, b);
}

/// The letters of finished syllables (right to left) after a syllable and
/// then some more syllables are pushed.
proof fn lemma_unit_push_letters(u: Seq<Syllable>, x: Syllable, more: Seq<Syllable>)
    ensures
        syl_letters((u.push(x) + more).reverse()) == syl_letters(more.reverse()) + x.spelling()
            + syl_letters(u.reverse()),
{
    assert((u.push(x) + more).reverse() =~= more.reverse() + (seq![x] + u.reverse()));
    lemma_syl_letters_concat(more.reverse(), seq![x] + u.reverse());
    lemma_syl_letters_concat(seq![x], u.reverse());
    lemma_syl_letters_one(x);
    assert(syl_letters(more.reverse()) + (x.spelling() + syl_letters(u.reverse())) =~= syl_letters(
        more.reverse(),
    ) + x.spelling() + syl_letters(u.reverse()));
}

/// The letters of the pending pieces after consonants before a vowel `c`
/// become the onset `onset` (after a coda `new_coda` and consonantal
/// syllables `buf`, right to left) of the nucleus `n` that the letters
/// `nuc0` spell: they are those before, with `c` in front, but for stress.
#[verifier::rlimit(40)]
proof fn lemma_after_consonants_text(
    cons0: Seq<char>,
    nuc0: Seq<char>,
    coda0: Option<Coda>,
    unit0: Seq<Syllable>,
    c: char,
    onset: Onset,
    n: Nucleus,
    new_coda: Option<Coda>,
    buf: Seq<Syllable>,
)
    requires
        cons0.reverse() == coda_seq(new_coda) + syl_letters(buf.reverse()) + onset.spelling(),
        nucleus_of(nuc0.reverse()) == Some(n),
        forall|k: int| 0 <= k < nuc0.len() ==> plain_glide(#[trigger] nuc0[k]) == nuc0[k],
    ensures
        norm_seq(
            seq![c] + coda_seq(new_coda) + syl_letters(
                (unit0.push(Syllable { onset, nucleus: n, coda: coda0 }) + buf).reverse(),
            ),
        ) == norm_seq(
            seq![c] + (cons0.reverse() + nuc0.reverse() + coda_seq(coda0) + syl_letters(
                unit0.reverse(),
            )),
        ),
{
    let syl = Syllable { onset, nucleus: n, coda: coda0 };
    lemma_nucleus_plain_rev(nuc0);
    lemma_nucleus_letters(nuc0.reverse(), n);
    lemma_unit_push_letters(unit0, syl, buf);
    let x = seq![c] + coda_seq(new_coda) + syl_letters(buf.reverse()) + onset.spelling();
    let y = coda_seq(coda0) + syl_letters(unit0.reverse());
    assert(seq![c] + coda_seq(new_coda) + syl_letters((unit0.push(syl) + buf).reverse()) =~= x
        + n.spelling() + y);
    assert(seq![c] + (cons0.reverse() + nuc0.reverse() + coda_seq(coda0) + syl_letters(
        unit0.reverse(),
    )) =~= x + nuc0.reverse() + y);
    lemma_norm_middle(x, n.spelling(), nuc0.reverse(), y);
}

/// A pause at `idx` ends the pause group after it: the letters from `idx`
/// on are those of the group and then those after it.
proof fn lemma_boundary_text(input: Seq<char>, idx: int, end: int, n: int)
    requires
        0 <= idx < end <= n <= input.len(),
        is_pause(input[idx]),
        forall|k: int| idx + 1 <= k < end ==> !is_pause(#[trigger] input[k]),
    ensures
        norm_seq(text_letters(input.subrange(idx, n))) == norm_seq(input.subrange(idx + 1, end))
            + norm_seq(text_letters(input.subrange(end, n))),
{
    let g = input.subrange(idx + 1, end);
    assert(input.subrange(idx, n) =~= seq![input[idx]] + (g + input.subrange(end, n)));
    lemma_text_letters_concat(seq![input[idx]], g + input.subrange(end, n));
    lemma_text_letters_concat(g, input.subrange(end, n));
    assert forall|k: int| 0 <= k < g.len() implies !is_pause(#[trigger] g[k]) by {
        assert(g[k] == input[idx + 1 + k]);
    }
    lemma_text_letters_plain(g);
    assert(seq![input[idx]].drop_first() =~= Seq::<char>::empty());
    assert(text_letters(Seq::<char>::empty()) =~= seq![]);
    assert(text_letters(seq![input[idx]]) =~= seq![]);
    lemma_norm_concat(g, text_letters(input.subrange(end, n)));
    assert(text_letters(input.subrange(idx, n)) =~= g + text_letters(input.subrange(end, n)));
}

/// A character that a text may hold: a pause, or a vowel or consonant
/// once its glide mark is removed.
pub open spec fn text_char(c: char) -> bool {
    is_pause(c) || vowel(plain_glide(c)) || consonant(plain_glide(c))
}

/// The text `t` is one pause group that ends in a consonant, which makes
/// it a cmevla.
pub open spec fn one_cmevla_group(t: Seq<char>) -> bool {
    &&& t.len() > 0
    &&& consonant(t.last())
    &&& forall|k: int| 0 <= k < t.len() ==> !is_pause(#[trigger] t[k])
}

/// A letter whose plain form is no pause is no pause either.
proof fn lemma_letter_not_pause(ch: char, c: char)
    requires
        c == plain_glide(ch),
        !is_pause(c),
    ensures
        !is_pause(ch),
{
}

/// Reading the letter at `idx`, whose plain form is `c`, puts it in front
/// of the letters of the pause group.
proof fn lemma_read_letter(input: Seq<char>, idx: int, end: int, c: char, state0: Seq<char>)
    requires
        0 <= idx < end <= input.len(),
        c == plain_glide(input[idx]),
        norm_seq(input.subrange(idx + 1, end)) == norm_seq(state0),
    ensures
        norm_seq(input.subrange(idx, end)) == norm_seq(seq![c] + state0),
        !is_pause(input[idx]) || is_pause(c),
{
    assert(input.subrange(idx, end) =~= seq![input[idx]] + input.subrange(idx + 1, end));
    lemma_norm_concat(seq![input[idx]], input.subrange(idx + 1, end));
    lemma_norm_concat(seq![c], state0);
    assert(norm_seq(seq![input[idx]]) =~= norm_seq(seq![c]));
}

/// The letters of the whole text, once the first pause group is read.
proof fn lemma_start_text(input: Seq<char>, end: int, n: int)
    requires
        0 <= end <= n == input.len(),
        forall|k: int| 0 <= k < end ==> !is_pause(#[trigger] input[k]),
    ensures
        norm_seq(text_letters(input)) == norm_seq(input.subrange(0, end)) + norm_seq(
            text_letters(input.subrange(end, n)),
        ),
{
    let g = input.subrange(0, end);
    assert(input =~= g + input.subrange(end, n));
    lemma_text_letters_concat(g, input.subrange(end, n));
    assert forall|k: int| 0 <= k < g.len() implies !is_pause(#[trigger] g[k]) by {
        assert(g[k] == input[k]);
    }
    lemma_text_letters_plain(g);
    lemma_norm_concat(g, text_letters(input.subrange(end, n)));
}

/// The pending pieces of a pause group, right to left: finished
/// syllables, nucleus letters, coda and consonants; and whether the group
/// is a cmevla.
pub type Group = (Seq<Syllable>, Seq<char>, Option<Coda>, Seq<char>, bool);

/// A vowel after waiting consonants goes through: the consonants
/// resolve (a coda may be tried), no finished syllable that starts
/// with an onglide waits without a nucleus, and the waiting nucleus
/// letters spell a nucleus.
pub open spec fn g_after_ok(g: Group, mz: bool) -> bool {
    &&& consonants_resolve(g.3, true, mz)
    &&& !(g.1.len() == 0 && g.0.len() > 0
        && g.0.last().onset is Onglide)
    &&& nucleus_of(g.1.reverse()) is Some
}

/// The vowel `c` read next goes through: inside a cmevla it is taken
/// as it is; after consonants see `after_consonants_ok`; it starts a
/// nucleus where none waits; it joins the waiting nucleus as a
/// diphthong unless that nucleus's first letter is also the onglide
/// of the finished syllable after it; an *i* or *u* becomes the
/// onglide of the waiting nucleus where that nucleus is whole; any
/// other vowel fails.
pub open spec fn g_vowel_ok(g: Group, c: char, mz: bool) -> bool {
    if g.4 {
        true
    } else if g.3.len() > 0 {
        g_after_ok(g, mz)
    } else if g.1.len() == 0 {
        true
    } else if diphthong_chars(c, g.1.last()) {
        !(g.0.len() > 0 && g.0.last().onset == Onset::Onglide(
            g.1[0],
        ))
    } else if c == 'i' || c == 'u' {
        nucleus_of(g.1.reverse()) is Some
    } else {
        false
    }
}

/// The pending pieces (finished syllables, nucleus, coda and
/// consonants, right to left) once the vowel `c` goes through outside a
/// cmevla: after consonants, they resolve with the longest onset that
/// fits (a coda may be tried) into a syllable with the waiting nucleus
/// and its coda, followed by their consonantal syllables, and `c` starts
/// the next nucleus with the coda split off; with no nucleus waiting `c`
/// starts one; as a diphthong it joins the waiting nucleus; otherwise
/// it is the onglide of the waiting nucleus's syllable.
pub open spec fn g_vowel_state(g: Group, c: char, mz: bool) -> (Seq<Syllable>, Seq<char>, Option<Coda>, Seq<char>) {
    let cons = g.3;
    let nuc = g.1;
    let nucleus = nucleus_of(nuc.reverse())->0;
    if cons.len() > 0 {
        let m = chosen_onset_len(cons, true, mz);
        let split = coda_split(cons.skip(m), true)->0;
        (
            g.0.push(
                Syllable {
                    onset: onset_of_rtl(cons, m)->0,
                    nucleus,
                    coda: g.2,
                },
            ) + split.1.reverse(),
            seq![c],
            split.0,
            seq![],
        )
    } else if nuc.len() == 0 {
        (g.0, seq![c], g.2, cons)
    } else if diphthong_chars(c, nuc.last()) {
        (g.0, nuc.push(c), g.2, cons)
    } else {
        (
            g.0.push(
                Syllable { onset: Onset::Onglide(c), nucleus, coda: g.2 },
            ),
            seq![],
            None,
            cons,
        )
    }
}

/// The last syllable of a pause group, outside a cmevla, can be made:
/// waiting consonants resolve with no coda tried and are the onset of
/// the waiting nucleus, whose letters spell one, or, with no nucleus,
/// no finished syllable that starts with an onglide is after them; a
/// lone waiting nucleus spells one.
pub open spec fn g_finish_ok(g: Group, mz: bool) -> bool {
    if g.3.len() > 0 {
        &&& consonants_resolve(g.3, false, mz)
        &&& if g.1.len() > 0 {
            nucleus_of(g.1.reverse()) is Some
        } else {
            !(g.0.len() > 0 && g.0.last().onset is Onglide)
        }
    } else if g.1.len() > 0 {
        nucleus_of(g.1.reverse()) is Some
    } else {
        true
    }
}

/// The finished syllables (right to left) once the last syllable of
/// the pause group is made: waiting consonants resolve with the longest
/// onset that fits (no coda tried) before the waiting nucleus, which
/// keeps the waiting coda, and their consonantal syllables follow it; a
/// lone waiting nucleus makes a syllable with no onset.
pub open spec fn g_finished(g: Group, mz: bool) -> Seq<Syllable> {
    let cons = g.3;
    let nucleus = nucleus_of(g.1.reverse())->0;
    if cons.len() > 0 {
        let m = chosen_onset_len(cons, false, mz);
        let pairs = (coda_split(cons.skip(m), false)->0).1;
        g.0.push(
            Syllable { onset: onset_of_rtl(cons, m)->0, nucleus, coda: g.2 },
        ) + pairs.reverse()
    } else if g.1.len() > 0 {
        g.0.push(
            Syllable { onset: Onset::Empty, nucleus, coda: g.2 },
        )
    } else {
        g.0
    }
}

/// The error for the letters `s` that spell no nucleus.
pub open spec fn nucleus_fault(s: Seq<char>) -> Fault {
    if stressed_unstressable(s) {
        Fault::Unstressable(seq![stripped(s[0]).0])
    } else {
        Fault::Invalid(What::Nucleus, s)
    }
}

/// The error where the vowel `c` does not go through the group `g` (see
/// `g_vowel_ok`): after consonants, that of resolving them, then an
/// onglide waiting without a nucleus, then the nucleus; a diphthong whose
/// first letter is also the onglide after it; an *i* or *u* before a
/// nucleus that is not whole; otherwise the two vowels as no nucleus.
pub open spec fn g_vowel_fault(g: Group, c: char, mz: bool) -> Fault {
    if g.3.len() > 0 {
        if !consonants_resolve(g.3, true, mz) {
            resolve_fault(g.3, true, mz, Some(c), g.1)
        } else if g.1.len() == 0 && g.0.len() > 0 && g.0.last().onset is Onglide {
            Fault::OnglideInCluster(g.0.last().onset->Onglide_0)
        } else {
            nucleus_fault(g.1.reverse())
        }
    } else if diphthong_chars(c, g.1.last()) {
        Fault::LongGlide(g.1[0])
    } else if c == 'i' || c == 'u' {
        nucleus_fault(g.1.reverse())
    } else {
        Fault::Invalid(What::Nucleus, seq![c, g.1.last()])
    }
}

/// The error where the last syllable of the group `g` cannot be made (see
/// `g_finish_ok`): that of resolving its consonants, then of its nucleus,
/// or an onglide waiting before them without a nucleus; or that of a lone
/// nucleus.
pub open spec fn g_finish_fault(g: Group, mz: bool) -> Fault {
    if g.3.len() > 0 {
        if !consonants_resolve(g.3, false, mz) {
            resolve_fault(g.3, false, mz, None, g.1)
        } else if g.1.len() > 0 {
            nucleus_fault(g.1.reverse())
        } else {
            Fault::OnglideInCluster(g.0.last().onset->Onglide_0)
        }
    } else {
        nucleus_fault(g.1.reverse())
    }
}

/// A pause group with nothing pending.
pub open spec fn empty_group() -> Group {
    (seq![], seq![], None, seq![], false)
}

/// The pause group after reading the letter `c` (in its plain form) right
/// to left, or the error where it fails: a vowel goes through as
/// `g_vowel_ok` says (inside a cmevla it changes nothing), a consonant
/// waits and makes a group with nothing pending a cmevla, and anything else
/// is no Lojban character.
#[verifier::opaque]
pub open spec fn g_read(g: Group, c: char, mz: bool) -> Result<Group, Fault> {
    if vowel(c) {
        if g.4 {
            Ok(g)
        } else if g_vowel_ok(g, c, mz) {
            let v = g_vowel_state(g, c, mz);
            Ok((v.0, v.1, v.2, v.3, false))
        } else {
            Err(g_vowel_fault(g, c, mz))
        }
    } else if consonant(c) {
        Ok(
            (
                g.0,
                g.1,
                g.2,
                g.3.push(c),
                g.4 || (g.0.len() == 0 && g.1.len() == 0 && g.3.len() == 0),
            ),
        )
    } else {
        Err(Fault::NonLojbanCharacter(c))
    }
}

/// The error where the finished syllables `f` of a group (right to left)
/// do not resolve: an apostrophe onset first, or the stress error.
pub open spec fn finished_fault(f: Seq<Syllable>, arb: bool) -> Fault {
    if f.last().onset is H {
        Fault::MisplacedApostrophe(None, Some(f.last().nucleus.spelling()[0]))
    } else {
        stress_split(f.reverse(), arb)->Err_0
    }
}

/// The units (right to left, as `units_model` gives them) after the pause
/// group `text`, read into `g`, is added to `us`, or the error where it
/// fails: a cmevla group that passes the cmevla check is one cmevla;
/// otherwise its last syllable is made, and its syllables, where there are
/// any, must not start with an apostrophe onset and must resolve their
/// stress.
#[verifier::opaque]
pub open spec fn group_units(
    text: Seq<char>,
    g: Group,
    us: Seq<UnitView>,
    mz: bool,
    arb: bool,
) -> Result<Seq<UnitView>, Fault> {
    if g.4 {
        if cmevla_valid(text, mz) {
            Ok(us.push((seq![], None, text)))
        } else {
            Err(cmevla_fault(text, mz))
        }
    } else if !g_finish_ok(g, mz) {
        Err(g_finish_fault(g, mz))
    } else {
        let f = g_finished(g, mz);
        if f.len() == 0 {
            Ok(us)
        } else if f.last().onset is H || stress_split(f.reverse(), arb) is Err {
            Err(finished_fault(f, arb))
        } else {
            Ok(added_units(us, f.reverse(), arb))
        }
    }
}

/// The units so far (right to left), the end of the current pause group
/// and that group after reading `input` from `i` on, right to left, or the
/// error where it failed.
#[verifier::opaque]
pub open spec fn read_from(input: Seq<char>, i: int, mz: bool, arb: bool) -> Result<
    (Seq<UnitView>, int, Group),
    Fault,
>
    decreases input.len() - i,
{
    if i < 0 || i >= input.len() {
        Ok((seq![], input.len() as int, empty_group()))
    } else {
        match read_from(input, i + 1, mz, arb) {
            Err(f) => Err(f),
            Ok(st) => {
                let c = plain_glide(input[i]);
                if c == ' ' || c == '.' {
                    match group_units(input.subrange(i + 1, st.1), st.2, st.0, mz, arb) {
                        Ok(us) => Ok((us, i, empty_group())),
                        Err(f) => Err(f),
                    }
                } else {
                    match g_read(st.2, c, mz) {
                        Ok(g) => Ok((st.0, st.1, g)),
                        Err(f) => Err(f),
                    }
                }
            },
        }
    }
}

/// The units (as `units_model` gives them) that a text splits into, or
/// the error where it fails: its letters are read right to left, pause
/// group by pause group (see `read_from`), and the first group ends the
/// text.
pub open spec fn text_units(input: Seq<char>, mz: bool, arb: bool) -> Result<
    Seq<UnitView>,
    Fault,
> {
    match read_from(input, 0, mz, arb) {
        Ok(st) => match group_units(input.subrange(0, st.1), st.2, st.0, mz, arb) {
            Ok(us) => Ok(us.reverse()),
            Err(f) => Err(f),
        },
        Err(f) => Err(f),
    }
}

/// Once reading fails from `k` on with an error, it fails with it from any
/// earlier `j` on.
proof fn lemma_read_err(input: Seq<char>, j: int, k: int, mz: bool, arb: bool)
    requires
        0 <= j <= k,
        read_from(input, k, mz, arb) is Err,
    ensures
        read_from(input, j, mz, arb) == read_from(input, k, mz, arb),
    decreases k - j,
{
    reveal(read_from);
    if j < k {
        lemma_read_err(input, j + 1, k, mz, arb);
    }
}

/// Reading the character at `i` after the rest: a pause adds the group
/// before it to the units, anything else is read into the group.
proof fn lemma_read_step(input: Seq<char>, i: int, mz: bool, arb: bool)
    requires
        0 <= i < input.len(),
    ensures
        read_from(input, i, mz, arb) == match read_from(input, i + 1, mz, arb) {
            Err(f) => Err(f),
            Ok(st) => if plain_glide(input[i]) == ' ' || plain_glide(input[i]) == '.' {
                match group_units(input.subrange(i + 1, st.1), st.2, st.0, mz, arb) {
                    Ok(us) => Ok((us, i, empty_group())),
                    Err(f) => Err(f),
                }
            } else {
                match g_read(st.2, plain_glide(input[i]), mz) {
                    Ok(g) => Ok((st.0, st.1, g)),
                    Err(f) => Err(f),
                }
            },
        },
{
    reveal(read_from);
}

/// Reading nothing leaves no units and an empty group at the end.
proof fn lemma_read_end(input: Seq<char>, mz: bool, arb: bool)
    ensures
        read_from(input, input.len() as int, mz, arb) == Ok::<_, Fault>(
            (Seq::<UnitView>::empty(), input.len() as int, empty_group()),
        ),
{
    reveal(read_from);
}

/// The state of a walk over a text, right to left.
struct Unitifier {
    /// The letters of the text.
    input: Vec<char>,
    /// Completed units, pushed rtl.
    units: Vec<Unit>,
    settings: Settings,
    /// Where the current pause group ends.
    pg_end: usize,
    in_cmevla: bool,
    consonantal_syllable_buffer: Vec<Syllable>,
    // all of these vecs are rtl:
    pending_unit: Vec<Syllable>,
    pending_nucleus: Vec<char>,
    pending_coda: Option<Coda>,
    pending_consonants: Vec<char>,
}

impl Unitifier {
    /// The pending pieces of the current pause group and whether it is a
    /// cmevla.
    spec fn group(&self) -> Group {
        (
            self.pending_unit@,
            self.pending_nucleus@,
            self.pending_coda,
            self.pending_consonants@,
            self.in_cmevla,
        )
    }

    /// Nothing is pending in the current pause group.
    spec fn fresh(&self) -> bool {
        &&& self.pending_unit@.len() == 0
        &&& self.pending_nucleus@.len() == 0
        &&& self.pending_consonants@.len() == 0
    }

    /// The syllables of the completed units and the pending pieces: never
    /// more than the letters read so far.
    spec fn count(&self) -> int {
        all_syllables(self.units@).len() + self.pending_unit@.len() + self.pending_nucleus@.len()
            + self.pending_consonants@.len() + if self.pending_coda is Some {
            1int
        } else {
            0int
        }
    }

    /// `self` and `other` agree on all but the pending pieces.
    spec fn same_frame(&self, other: &Unitifier) -> bool {
        &&& self.input@ == other.input@
        &&& self.settings == other.settings
        &&& self.pg_end == other.pg_end
    }

    /// The letters of the current pause group that the pending pieces
    /// hold, left to right: the consonants, the nucleus, its coda, then the
    /// finished syllables.
    spec fn state_text(&self) -> Seq<char> {
        self.pending_consonants@.reverse() + self.pending_nucleus@.reverse() + coda_seq(
            self.pending_coda,
        ) + syl_letters(self.pending_unit@.reverse())
    }

    /// How the pending pieces fit together: the nucleus holds plain letters
    /// and is there whenever a coda is; outside a cmevla, finished
    /// syllables without a nucleus after them end in an onglide, and so do
    /// they where consonants wait without a nucleus. The finished syllables
    /// are valid, and the coda is a hard consonant.
    spec fn wf(&self) -> bool {
        &&& forall|k: int|
            0 <= k < self.pending_nucleus@.len() ==> plain_glide(#[trigger] self.pending_nucleus@[k])
                == self.pending_nucleus@[k]
        &&& self.pending_coda is Some ==> self.pending_nucleus@.len() > 0
        &&& !self.in_cmevla && self.pending_nucleus@.len() == 0 && self.pending_unit@.len() > 0
            ==> self.pending_unit@.last().onset is Onglide
        &&& !self.in_cmevla && self.pending_consonants@.len() > 0 ==> self.pending_nucleus@.len()
            > 0 || (self.pending_unit@.len() > 0 && self.pending_unit@.last().onset is Onglide)
        &&& syllables_valid(self.pending_unit@)
        &&& (self.pending_coda matches Some(c) ==> hard_consonant(c.0))
    }

    /// A vowel after waiting consonants goes through: the consonants
    /// resolve (a coda may be tried), no finished syllable that starts
    /// with an onglide waits without a nucleus, and the waiting nucleus
    /// letters spell a nucleus.
    spec fn after_consonants_ok(&self) -> bool {
        g_after_ok(self.group(), self.settings.allow_mz)
    }

    /// The vowel `c` read next goes through: inside a cmevla it is taken
    /// as it is; after consonants see `after_consonants_ok`; it starts a
    /// nucleus where none waits; it joins the waiting nucleus as a
    /// diphthong unless that nucleus's first letter is also the onglide
    /// of the finished syllable after it; an *i* or *u* becomes the
    /// onglide of the waiting nucleus where that nucleus is whole; any
    /// other vowel fails.
    spec fn vowel_ok(&self, c: char) -> bool {
        g_vowel_ok(self.group(), c, self.settings.allow_mz)
    }

    /// The pending pieces (finished syllables, nucleus, coda and
    /// consonants, right to left) once the vowel `c` goes through outside a
    /// cmevla: after consonants, they resolve with the longest onset that
    /// fits (a coda may be tried) into a syllable with the waiting nucleus
    /// and its coda, followed by their consonantal syllables, and `c` starts
    /// the next nucleus with the coda split off; with no nucleus waiting `c`
    /// starts one; as a diphthong it joins the waiting nucleus; otherwise
    /// it is the onglide of the waiting nucleus's syllable.
    spec fn vowel_state(&self, c: char) -> (Seq<Syllable>, Seq<char>, Option<Coda>, Seq<char>) {
        g_vowel_state(self.group(), c, self.settings.allow_mz)
    }

    /// The last syllable of a pause group, outside a cmevla, can be made:
    /// waiting consonants resolve with no coda tried and are the onset of
    /// the waiting nucleus, whose letters spell one, or, with no nucleus,
    /// no finished syllable that starts with an onglide is after them; a
    /// lone waiting nucleus spells one.
    spec fn finish_ok(&self) -> bool {
        g_finish_ok(self.group(), self.settings.allow_mz)
    }

    /// The finished syllables (right to left) once the last syllable of
    /// the pause group is made: waiting consonants resolve with the longest
    /// onset that fits (no coda tried) before the waiting nucleus, which
    /// keeps the waiting coda, and their consonantal syllables follow it; a
    /// lone waiting nucleus makes a syllable with no onset.
    spec fn finished(&self) -> Seq<Syllable> {
        g_finished(self.group(), self.settings.allow_mz)
    }

    fn new(input: Vec<char>, settings: Settings) -> (u: Unitifier)
        ensures
            u.input@ == input@,
            u.settings == settings,
            u.pg_end == input.len(),
            !u.in_cmevla,
            u.fresh(),
            u.units@.len() == 0,
            u.pending_coda is None,
    {
        let pg_end = input.len();
        Unitifier {
            input,
            units: Vec::new(),
            settings,
            pg_end,
            in_cmevla: false,
            consonantal_syllable_buffer: Vec::new(),
            pending_unit: Vec::new(),
            pending_nucleus: Vec::new(),
            pending_coda: None,
            pending_consonants: Vec::new(),
        }
    }

    fn pg_is_fresh(&self) -> (b: bool)
        ensures
            b == self.fresh(),
    {
        self.pending_unit.len() == 0 && self.pending_nucleus.len() == 0
            && self.pending_consonants.len() == 0
    }

    fn reset_pending(&mut self)
        ensures
            final(self).same_frame(old(self)),
            final(self).units@ == old(self).units@,
            final(self).fresh(),
            final(self).pending_coda is None,
            !final(self).in_cmevla,
    {
        self.pending_unit.clear();
        self.pending_nucleus.clear();
        self.pending_coda = None;
        self.pending_consonants.clear();
        self.in_cmevla = false;
    }

    // - consonants -
    /// Accumulates a consonant and sets `in_cmevla` if the `pg_is_fresh`.
    fn push_consonant(&mut self, c: char)
        ensures
            final(self).same_frame(old(self)),
            final(self).units@ == old(self).units@,
            final(self).pending_unit@ == old(self).pending_unit@,
            final(self).pending_nucleus@ == old(self).pending_nucleus@,
            final(self).pending_coda == old(self).pending_coda,
            final(self).pending_consonants@ == old(self).pending_consonants@.push(c),
            final(self).in_cmevla == (old(self).in_cmevla || old(self).fresh()),
            old(self).wf() ==> final(self).wf(),
            final(self).state_text() == seq![c] + old(self).state_text(),
            consonant(c) ==> g_read(old(self).group(), c, old(self).settings.allow_mz) == Ok::<_, Fault>(
                final(self).group(),
            ),
    {
        proof {
            reveal(g_read);
        }
        if self.pg_is_fresh() {
            self.in_cmevla = true;
        }
        let ghost cons0 = self.pending_consonants@;
        self.pending_consonants.push(c);
        assert(self.pending_consonants@.reverse() =~= seq![c] + cons0.reverse());
    }

    /// Tries to split `pending_consonants` into some combination of onset,
    /// coda, and consonantal syllables. The onset and coda are returned and
    /// the consonantal syllables are written to
    /// `self.consonantal_syllable_buffer`. It succeeds exactly where the
    /// consonants resolve (see `consonants_resolve`), and then takes the
    /// longest onset that fits.
    #[verifier::rlimit(100)]
    #[verifier::spinoff_prover]
    fn resolve_pending_consonants(&mut self, may_try_coda: bool, left_neighbor: Option<char>) -> (r:
        Result<(Onset, Option<Coda>), Jvofli>)
        ensures
            final(self).same_frame(old(self)),
            final(self).units@ == old(self).units@,
            final(self).pending_unit@ == old(self).pending_unit@,
            final(self).pending_nucleus@ == old(self).pending_nucleus@,
            final(self).pending_coda == old(self).pending_coda,
            final(self).in_cmevla == old(self).in_cmevla,
            r matches Ok((onset, coda)) ==> {
                &&& final(self).pending_consonants@.len() == 0
                &&& old(self).pending_consonants@.len() >= 1 + 2
                    * final(self).consonantal_syllable_buffer@.len() + if coda is Some {
                    1int
                } else {
                    0int
                }
                &&& (!may_try_coda ==> coda is None)
                &&& old(self).pending_consonants@.reverse() == coda_seq(coda) + syl_letters(
                    final(self).consonantal_syllable_buffer@.reverse(),
                ) + onset.spelling()
                &&& onset_valid(onset)
                &&& (coda matches Some(c) ==> hard_consonant(c.0))
                &&& syllables_valid(final(self).consonantal_syllable_buffer@)
                &&& ({
                    let m = chosen_onset_len(
                        old(self).pending_consonants@,
                        may_try_coda,
                        old(self).settings.allow_mz,
                    );
                    &&& longest_fit(
                        old(self).pending_consonants@,
                        may_try_coda,
                        old(self).settings.allow_mz,
                        m,
                    )
                    &&& onset_of_rtl(old(self).pending_consonants@, m) == Some(onset)
                    &&& coda_split(old(self).pending_consonants@.skip(m), may_try_coda) == Some(
                        (coda, final(self).consonantal_syllable_buffer@.reverse()),
                    )
                })
            },
            r is Ok <==> consonants_resolve(
                old(self).pending_consonants@,
                may_try_coda,
                old(self).settings.allow_mz,
            ),
            r is Err ==> *final(self) == *old(self),
            old(self).pending_consonants@.len() > 1 && old(self).pending_consonants@.contains('\'')
                ==> r matches Err(Jvofli::MisplacedApostrophe { .. }),
            r matches Err(e) ==> e@ == resolve_fault(
                old(self).pending_consonants@,
                may_try_coda,
                old(self).settings.allow_mz,
                left_neighbor,
                old(self).pending_nucleus@,
            ),
    {
        let ghost old_cons = self.pending_consonants@;
        let ghost mz = self.settings.allow_mz;
        let n = self.pending_consonants.len();
        if n > 1 {
            let mut pos: usize = 0;
            while pos < n && self.pending_consonants[pos] != '\''
                invariant
                    n == self.pending_consonants.len(),
                    old_cons == self.pending_consonants@,
                    pos <= n,
                    forall|q: int| 0 <= q < pos ==> old_cons[q] != '\'',
                decreases n - pos,
            {
                pos += 1;
            }
            if pos < n {
                proof {
                    assert(old_cons[pos as int] == '\'');
                    assert(old_cons.contains('\''));
                    let fp = first_apostrophe(old_cons);
                    assert(0 <= pos < old_cons.len() && old_cons[pos as int] == '\'' && forall|q: int|
                        0 <= q < pos ==> old_cons[q] != '\'');
                    if fp < pos {
                        assert(old_cons[fp] != '\'');
                    } else if fp > pos {
                        assert(old_cons[pos as int] != '\'');
                    }
                }
                let before = if pos + 1 < n {
                    Some(self.pending_consonants[pos + 1])
                } else {
                    left_neighbor
                };
                let after = if pos > 0 {
                    Some(self.pending_consonants[pos - 1])
                } else if self.pending_nucleus.len() > 0 {
                    Some(self.pending_nucleus[0])
                } else {
                    None
                };
                return Err(Jvofli::MisplacedApostrophe { before, after });
            }
        }
        proof {
            if n > 1 {
                assert(!old_cons.contains('\''));
            }
        }
        let mut best_err: Option<Jvofli> = None;
        let max_suffix = if n < 3 {
            n
        } else {
            3
        };
        let mut suffix_len = max_suffix;
        while suffix_len >= 1
            invariant
                n == self.pending_consonants.len(),
                old_cons == self.pending_consonants@,
                suffix_len <= max_suffix <= 3,
                max_suffix <= n,
                self.same_frame(old(self)),
                self.units@ == old(self).units@,
                self.pending_unit@ == old(self).pending_unit@,
                self.pending_nucleus@ == old(self).pending_nucleus@,
                self.pending_coda == old(self).pending_coda,
                self.in_cmevla == old(self).in_cmevla,
                old_cons == old(self).pending_consonants@,
                *self == *old(self),
                mz == self.settings.allow_mz,
                match best_err {
                    Some(e) => fits_fault(old_cons, max_suffix as int, suffix_len as int, may_try_coda, mz)
                        == Some(e@),
                    None => fits_fault(old_cons, max_suffix as int, suffix_len as int, may_try_coda, mz)
                        is None,
                },
                max_suffix == if n < 3 {
                    n
                } else {
                    3
                },
                n <= 1 || !old_cons.contains('\''),
                forall|m2: int|
                    suffix_len < m2 <= max_suffix ==> !#[trigger] split_fits(
                        old_cons,
                        m2,
                        may_try_coda,
                        mz,
                    ),
            decreases suffix_len,
        {
            let ghost k = suffix_len as int;
            proof {
                lemma_fits_fault_step(old_cons, max_suffix as int, k, may_try_coda, mz);
            }
            let mut onset_chars: Vec<char> = Vec::new();
            let mut j = suffix_len;
            while j > 0
                invariant
                    j <= suffix_len <= n,
                    n == self.pending_consonants.len(),
                    onset_chars@ == self.pending_consonants@.subrange(j as int, suffix_len as int).reverse(),
                decreases j,
            {
                j -= 1;
                onset_chars.push(self.pending_consonants[j]);
                assert(self.pending_consonants@.subrange(j as int, suffix_len as int).reverse()
                    =~= self.pending_consonants@.subrange(j + 1, suffix_len as int).reverse().push(
                    self.pending_consonants@[j as int],
                ));
            }
            assert(self.pending_consonants@.subrange(0, suffix_len as int) =~= old_cons.take(
                suffix_len as int,
            ));
            assert(onset_chars@ =~= old_cons.take(k).reverse());
            let onset_str = string_of(&onset_chars);
            let leftover = &self.pending_consonants[suffix_len..n];
            assert(leftover@ =~= old_cons.skip(suffix_len as int));
            let onset = match Onset::new(onset_str.as_str()) {
                Ok(o) => o,
                Err(e) => {
                    assert(!split_fits(old_cons, k, may_try_coda, mz)) by {
                        reveal(split_fits);
                    }
                    if split_into_coda_and_consonantal(leftover, may_try_coda).is_ok() {
                        if best_err.is_none() {
                            best_err = Some(e);
                        }
                    }
                    suffix_len -= 1;
                    continue;
                },
            };
            let (coda, pairs) = match split_into_coda_and_consonantal(leftover, may_try_coda) {
                Ok(x) => x,
                Err(e) => {
                    assert(!split_fits(old_cons, k, may_try_coda, mz)) by {
                        reveal(split_fits);
                    }
                    if best_err.is_none() {
                        best_err = Some(e);
                    }
                    suffix_len -= 1;
                    continue;
                },
            };
            let left_letter = if pairs.len() > 0 {
                pairs[pairs.len() - 1].nucleus.get_sonorant()
            } else {
                match coda {
                    Some(c) => Some(c.it()),
                    None => None,
                }
            };
            assert(left_letter == left_of_onset(coda, pairs@));
            if let Some(l) = left_letter {
                let r = onset_chars[0];
                if !is_valid_chars(l, r, self.settings) {
                    assert(!split_fits(old_cons, k, may_try_coda, mz)) by {
                        reveal(split_fits);
                    }
                    if best_err.is_none() {
                        best_err = Some(invalid_from_pair(What::Cluster, l, r));
                    }
                    suffix_len -= 1;
                    continue;
                }
                if onset_chars.len() >= 2 && is_banned_triple_chars(
                    l,
                    onset_chars[0],
                    onset_chars[1],
                ) {
                    assert(!split_fits(old_cons, k, may_try_coda, mz)) by {
                        reveal(split_fits);
                    }
                    if best_err.is_none() {
                        best_err = Some(
                            invalid_cluster_from_triple(l, onset_chars[0], onset_chars[1]),
                        );
                    }
                    suffix_len -= 1;
                    continue;
                }
            }
            assert(split_fits(old_cons, k, may_try_coda, mz)) by {
                reveal(split_fits);
            }
            let mut buffer: Vec<Syllable> = Vec::new();
            let mut q = pairs.len();
            while q > 0
                invariant
                    q <= pairs.len(),
                    buffer@ == pairs@.subrange(q as int, pairs.len() as int).reverse(),
                decreases q,
            {
                q -= 1;
                buffer.push(pairs[q]);
                assert(pairs@.subrange(q as int, pairs.len() as int).reverse() =~= pairs@.subrange(
                    q + 1,
                    pairs.len() as int,
                ).reverse().push(pairs@[q as int]));
            }
            assert(pairs@.subrange(0, pairs.len() as int) =~= pairs@);
            assert(buffer@.reverse() =~= pairs@);
            self.consonantal_syllable_buffer = buffer;
            self.pending_consonants.clear();
            proof {
                let m = suffix_len as int;
                lemma_coda_split_len(old_cons.skip(m), may_try_coda);
                lemma_coda_split_valid(old_cons.skip(m), may_try_coda);
                lemma_onset_of_valid(onset_str@);
                assert forall|t: int| 0 <= t < buffer@.len() implies (
                #[trigger] buffer@[t]).valid() by {
                    assert(buffer@[t] == pairs@[pairs@.len() - 1 - t]);
                }
                assert(onset_of_rtl(old_cons, m) == Some(onset));
                lemma_onset_letters(old_cons.take(m).reverse(), onset);
                lemma_coda_split_letters(old_cons.skip(m), may_try_coda);
                assert(old_cons =~= old_cons.take(m) + old_cons.skip(m));
                assert(old_cons.reverse() =~= old_cons.skip(m).reverse() + old_cons.take(
                    m,
                ).reverse());
                assert(longest_fit(old_cons, may_try_coda, mz, m));
                lemma_chosen_onset_len(old_cons, may_try_coda, mz, m);
            }
            return Ok((onset, coda));
        }
        match best_err {
            Some(e) => Err(e),
            None => {
                let value = crate::units::consonants::reversed_string(&self.pending_consonants);
                Err(Jvofli::Invalid { what: What::ConsonantRun, value })
            },
        }
    }

    // - vowels -
    fn take_nucleus(&mut self) -> (r: Result<Nucleus, Jvofli>)
        ensures
            final(self).same_frame(old(self)),
            final(self).units@ == old(self).units@,
            final(self).pending_unit@ == old(self).pending_unit@,
            final(self).pending_consonants@ == old(self).pending_consonants@,
            final(self).pending_coda == old(self).pending_coda,
            final(self).in_cmevla == old(self).in_cmevla,
            final(self).consonantal_syllable_buffer@ == old(self).consonantal_syllable_buffer@,
            final(self).pending_nucleus@.len() == 0,
            r matches Ok(n) ==> nucleus_of(old(self).pending_nucleus@.reverse()) == Some(n)
                && 1 <= old(self).pending_nucleus@.len() <= 2,
            r is Ok <==> nucleus_of(old(self).pending_nucleus@.reverse()) is Some,
            r matches Err(e) ==> e@ == nucleus_fault(old(self).pending_nucleus@.reverse()),
    {
        let mut chars: Vec<char> = Vec::new();
        let len = self.pending_nucleus.len();
        let mut j = len;
        while j > 0
            invariant
                j <= len,
                len == self.pending_nucleus.len(),
                chars@ == self.pending_nucleus@.subrange(j as int, len as int).reverse(),
            decreases j,
        {
            j -= 1;
            chars.push(self.pending_nucleus[j]);
            assert(self.pending_nucleus@.subrange(j as int, len as int).reverse()
                =~= self.pending_nucleus@.subrange(j + 1, len as int).reverse().push(
                self.pending_nucleus@[j as int],
            ));
        }
        assert(self.pending_nucleus@.subrange(0, len as int) =~= self.pending_nucleus@);
        self.pending_nucleus.clear();
        let s = string_of(&chars);
        Nucleus::new(s.as_str())
    }

    /// Handles a vowel (and in doing so also the `pending_consonants`).
    /// Handles a vowel before which consonants wait: they become the onset
    /// (and maybe a coda and consonantal syllables) of the pending nucleus,
    /// which makes a syllable, and the vowel starts the next nucleus.
    #[verifier::rlimit(100)]
    #[verifier::spinoff_prover]
    fn vowel_after_consonants(&mut self, c: char) -> (r: Result<(), Jvofli>)
        requires
            old(self).wf(),
            plain_glide(c) == c,
            !old(self).in_cmevla,
            old(self).pending_consonants@.len() > 0,
        ensures
            final(self).same_frame(old(self)),
            final(self).units@ == old(self).units@,
            r is Ok ==> {
                &&& !final(self).in_cmevla
                &&& !final(self).fresh()
                &&& final(self).count() <= old(self).count() + 1
                &&& final(self).wf()
                &&& norm_seq(final(self).state_text()) == norm_seq(seq![c] + old(
                    self,
                ).state_text())
            },
            r is Ok <==> old(self).after_consonants_ok(),
            r matches Err(e) ==> e@ == g_vowel_fault(old(self).group(), c, old(self).settings.allow_mz),
            r is Ok ==> (
                final(self).pending_unit@,
                final(self).pending_nucleus@,
                final(self).pending_coda,
                final(self).pending_consonants@,
            ) == old(self).vowel_state(c),
    {
        let ghost cons0 = self.pending_consonants@;
        let ghost nuc0 = self.pending_nucleus@;
        let ghost coda0 = self.pending_coda;
        let ghost unit0 = self.pending_unit@;
        proof {
            lemma_nucleus_plain_rev(nuc0);
        }
        let old_coda = self.pending_coda;
        self.pending_coda = None;
        let (onset, new_coda) = match self.resolve_pending_consonants(true, Some(c)) {
            Ok(x) => x,
            Err(e) => {
                return Err(e);
            },
        };
        if self.pending_nucleus.len() == 0 && self.pending_unit.len() > 0 {
            if let Onset::Onglide(g) = self.pending_unit[self.pending_unit.len() - 1].onset {
                return Err(Jvofli::OnglideInCluster(g));
            }
        }
        let nucleus = match self.take_nucleus() {
            Ok(n) => n,
            Err(e) => {
                return Err(e);
            },
        };
        let ghost buf = self.consonantal_syllable_buffer@;
        let syl = Syllable { onset, nucleus, coda: old_coda };
        self.pending_unit.push(syl);
        append_all(&mut self.pending_unit, &self.consonantal_syllable_buffer);
        self.pending_coda = new_coda;
        self.pending_nucleus.push(c);
        proof {
            assert(self.pending_nucleus@ =~= seq![c]);
            assert(self.pending_nucleus@.reverse() =~= seq![c]);
            assert(self.pending_consonants@.reverse() =~= Seq::<char>::empty());
            assert(self.pending_unit@ == unit0.push(syl) + buf);
            lemma_after_consonants_text(cons0, nuc0, coda0, unit0, c, onset, nucleus, new_coda, buf);
            assert(self.state_text() =~= seq![c] + coda_seq(new_coda) + syl_letters(
                (unit0.push(syl) + buf).reverse(),
            ));
        }
        Ok(())
    }

    /// Handles an *i* or *u* before a nucleus that it cannot join: it
    /// becomes the onglide of that nucleus's syllable.
    #[verifier::rlimit(100)]
    #[verifier::spinoff_prover]
    fn vowel_as_onglide(&mut self, c: char) -> (r: Result<(), Jvofli>)
        requires
            old(self).wf(),
            plain_glide(c) == c,
            !old(self).in_cmevla,
            old(self).pending_consonants@.len() == 0,
            old(self).pending_nucleus@.len() > 0,
            c == 'i' || c == 'u',
        ensures
            final(self).same_frame(old(self)),
            final(self).units@ == old(self).units@,
            r is Ok ==> {
                &&& !final(self).in_cmevla
                &&& !final(self).fresh()
                &&& final(self).count() <= old(self).count() + 1
                &&& final(self).wf()
                &&& norm_seq(final(self).state_text()) == norm_seq(seq![c] + old(
                    self,
                ).state_text())
            },
            r is Ok <==> nucleus_of(old(self).pending_nucleus@.reverse()) is Some,
            r matches Err(e) ==> e@ == g_vowel_fault(old(self).group(), c, old(self).settings.allow_mz),
            r is Ok ==> (
                final(self).pending_unit@,
                final(self).pending_nucleus@,
                final(self).pending_coda,
                final(self).pending_consonants@,
            ) == old(self).vowel_state(c),
    {
        let ghost cons0 = self.pending_consonants@;
        let ghost nuc0 = self.pending_nucleus@;
        let ghost coda0 = self.pending_coda;
        let ghost unit0 = self.pending_unit@;
        proof {
            lemma_nucleus_plain_rev(nuc0);
        }
        let coda = self.pending_coda;
        let nucleus = match self.take_nucleus() {
            Ok(n) => n,
            Err(e) => {
                return Err(e);
            },
        };
        self.pending_coda = None;
        let syl = Syllable { onset: Onset::Onglide(c), nucleus, coda };
        self.pending_unit.push(syl);
        proof {
            lemma_nucleus_letters(nuc0.reverse(), nucleus);
            lemma_unit_push_letters(unit0, syl, seq![]);
            assert(unit0.push(syl) + seq![] =~= unit0.push(syl));
            assert(syl_letters(Seq::<Syllable>::empty().reverse()) =~= seq![]) by {
                assert(Seq::<Syllable>::empty().reverse() =~= Seq::<Syllable>::empty());
            }
            assert(self.pending_nucleus@.reverse() =~= seq![]);
            assert(self.pending_consonants@.reverse() =~= seq![]);
            let x = seq![c];
            let y = coda_seq(coda) + syl_letters(unit0.reverse());
            assert(self.state_text() =~= x + nucleus.spelling() + y);
            assert(seq![c] + old(self).state_text() =~= x + nuc0.reverse() + y);
            lemma_norm_middle(x, nucleus.spelling(), nuc0.reverse(), y);
        }
        Ok(())
    }

    #[verifier::rlimit(100)]
    #[verifier::spinoff_prover]
    fn handle_vowel(&mut self, c: char) -> (r: Result<(), Jvofli>)
        requires
            old(self).wf(),
            plain_glide(c) == c,
        ensures
            final(self).same_frame(old(self)),
            final(self).units@ == old(self).units@,
            old(self).in_cmevla ==> *final(self) == *old(self),
            r is Ok && !old(self).in_cmevla ==> {
                &&& !final(self).in_cmevla
                &&& !final(self).fresh()
                &&& final(self).count() <= old(self).count() + 1
                &&& final(self).wf()
                &&& norm_seq(final(self).state_text()) == norm_seq(seq![c] + old(
                    self,
                ).state_text())
            },
            r is Ok <==> old(self).vowel_ok(c),
            r matches Err(e) ==> e@ == g_vowel_fault(old(self).group(), c, old(self).settings.allow_mz),
            r is Ok && !old(self).in_cmevla ==> (
                final(self).pending_unit@,
                final(self).pending_nucleus@,
                final(self).pending_coda,
                final(self).pending_consonants@,
            ) == old(self).vowel_state(c),
            vowel(c) ==> match g_read(old(self).group(), c, old(self).settings.allow_mz) {
                Ok(g) => r is Ok && final(self).group() == g,
                Err(f) => r matches Err(e) && e@ == f,
            },
    {
        proof {
            reveal(g_read);
        }
        if self.in_cmevla {
            return Ok(());
        }
        let ghost cons0 = self.pending_consonants@;
        let ghost nuc0 = self.pending_nucleus@;
        let ghost coda0 = self.pending_coda;
        let ghost unit0 = self.pending_unit@;
        proof {
            lemma_nucleus_plain_rev(nuc0);
        }
        if self.pending_consonants.len() > 0 {
            return self.vowel_after_consonants(c);
        }
        if self.pending_nucleus.len() == 0 {
            self.pending_nucleus.push(c);
            proof {
                assert(self.pending_nucleus@.reverse() =~= seq![c]);
                assert(self.state_text() =~= seq![c] + old(self).state_text());
            }
            return Ok(());
        }
        let existing = self.pending_nucleus[self.pending_nucleus.len() - 1];
        // diphthong time
        if is_diphthong_chars(c, existing) {
            if self.pending_unit.len() > 0 {
                if let Onset::Onglide(g) = self.pending_unit[self.pending_unit.len() - 1].onset {
                    if g == self.pending_nucleus[0] {
                        return Err(Jvofli::LongGlide(g));
                    }
                }
            }
            self.pending_nucleus.push(c);
            proof {
                assert(self.pending_nucleus@.reverse() =~= seq![c] + nuc0.reverse());
                assert(self.state_text() =~= seq![c] + old(self).state_text());
            }
            return Ok(());
        }
        // onglide time
        if c == 'i' || c == 'u' {
            return self.vowel_as_onglide(c);
        }
        Err(invalid_from_pair(What::Nucleus, c, existing))
    }

    /// Makes the last syllable of the pause group from the consonants and
    /// nucleus that wait, outside a cmevla, so that only finished syllables
    /// are pending.
    #[verifier::rlimit(100)]
    #[verifier::spinoff_prover]
    fn finish_pending(&mut self) -> (r: Result<(), Jvofli>)
        requires
            old(self).wf(),
            !old(self).in_cmevla,
        ensures
            r is Ok ==> {
                &&& final(self).same_frame(old(self))
                &&& final(self).units@ == old(self).units@
                &&& !final(self).in_cmevla
                &&& final(self).pending_consonants@.len() == 0
                &&& final(self).pending_nucleus@.len() == 0
                &&& final(self).pending_coda is None
                &&& final(self).count() <= old(self).count()
                &&& norm_seq(syl_letters(final(self).pending_unit@.reverse())) == norm_seq(
                    old(self).state_text(),
                )
                &&& syllables_valid(final(self).pending_unit@)
            },
            r is Ok <==> old(self).finish_ok(),
            r matches Err(e) ==> e@ == g_finish_fault(old(self).group(), old(self).settings.allow_mz),
            r is Ok ==> final(self).pending_unit@ == old(self).finished(),
    {
        let ghost cons0 = self.pending_consonants@;
        let ghost nuc0 = self.pending_nucleus@;
        let ghost coda0 = self.pending_coda;
        let ghost unit0 = self.pending_unit@;
        proof {
            lemma_nucleus_plain_rev(nuc0);
        }
        if self.pending_consonants.len() > 0 {
            let old_coda = self.pending_coda;
            self.pending_coda = None;
            let (onset, split_coda) = match self.resolve_pending_consonants(false, None) {
                Ok(x) => x,
                Err(e) => {
                    return Err(e);
                },
            };
            if self.pending_nucleus.len() > 0 {
                let nucleus = match self.take_nucleus() {
                    Ok(n) => n,
                    Err(e) => {
                        return Err(e);
                    },
                };
                let ghost buf = self.consonantal_syllable_buffer@;
                let syl = Syllable { onset, nucleus, coda: old_coda };
                self.pending_unit.push(syl);
                append_all(&mut self.pending_unit, &self.consonantal_syllable_buffer);
                proof {
                    assert(buf.reverse().reverse() =~= buf);
                    lemma_nucleus_letters(nuc0.reverse(), nucleus);
                    lemma_unit_push_letters(unit0, syl, buf);
                    let x = syl_letters(buf.reverse()) + onset.spelling();
                    let y = coda_seq(coda0) + syl_letters(unit0.reverse());
                    assert(coda_seq(split_coda) =~= Seq::<char>::empty());
                    assert(cons0.reverse() =~= x);
                    assert(syl_letters(self.pending_unit@.reverse()) =~= x + nucleus.spelling() + y);
                    assert(old(self).state_text() =~= x + nuc0.reverse() + y);
                    lemma_norm_middle(x, nucleus.spelling(), nuc0.reverse(), y);
                }
            } else if self.pending_unit.len() > 0 {
                if let Onset::Onglide(g) = self.pending_unit[self.pending_unit.len() - 1].onset {
                    return Err(Jvofli::OnglideInCluster(g));
                }
            }
        } else if self.pending_nucleus.len() > 0 {
            let coda = self.pending_coda;
            let nucleus = match self.take_nucleus() {
                Ok(n) => n,
                Err(e) => {
                    return Err(e);
                },
            };
            self.pending_coda = None;
            let syl = Syllable { onset: Onset::Empty, nucleus, coda };
            self.pending_unit.push(syl);
            proof {
                lemma_nucleus_letters(nuc0.reverse(), nucleus);
                lemma_unit_push_letters(unit0, syl, seq![]);
                assert(unit0.push(syl) + seq![] =~= unit0.push(syl));
                assert(syl_letters(Seq::<Syllable>::empty().reverse()) =~= seq![]) by {
                    assert(Seq::<Syllable>::empty().reverse() =~= Seq::<Syllable>::empty());
                }
                let x = Seq::<char>::empty();
                let y = coda_seq(coda0) + syl_letters(unit0.reverse());
                assert(cons0.reverse() =~= Seq::<char>::empty());
                assert(syl_letters(self.pending_unit@.reverse()) =~= x + nucleus.spelling() + y);
                assert(old(self).state_text() =~= x + nuc0.reverse() + y);
                lemma_norm_middle(x, nucleus.spelling(), nuc0.reverse(), y);
            }
        }
        proof {
            if cons0.len() == 0 && nuc0.len() == 0 {
                assert(cons0.reverse() =~= Seq::<char>::empty());
                assert(nuc0.reverse() =~= Seq::<char>::empty());
                assert(old(self).state_text() =~= syl_letters(unit0.reverse()));
            }
        }
        Ok(())
    }

    // - pause groups / boundaries -
    /// Tries to resolve any leftover `pending_consonants`/`pending_nucleus` and
    /// emit a `Unit`. A cmevla group gives one cmevla unit exactly where it
    /// passes the cmevla check; a group with nothing pending gives none.
    #[verifier::rlimit(100)]
    #[verifier::spinoff_prover]
    fn flush_group(&mut self, pg_start: usize) -> (r: Result<(), Jvofli>)
        requires
            pg_start <= old(self).pg_end <= old(self).input.len() <= max_syllables(),
            units_ok(old(self).units@, old(self).settings.allow_mz),
            old(self).count() <= old(self).input.len(),
            old(self).in_cmevla ==> pg_start < old(self).pg_end && consonant(
                old(self).input@[old(self).pg_end - 1],
            ),
            old(self).wf(),
            !old(self).in_cmevla ==> norm_seq(
                old(self).input@.subrange(pg_start as int, old(self).pg_end as int),
            ) == norm_seq(old(self).state_text()),
        ensures
            r is Ok ==> {
                &&& final(self).same_frame(old(self))
                &&& final(self).fresh()
                &&& !final(self).in_cmevla
                &&& final(self).pending_coda is None
                &&& units_ok(final(self).units@, final(self).settings.allow_mz)
                &&& final(self).count() <= old(self).count()
                &&& norm_seq(units_text(final(self).units@.reverse())) == norm_seq(
                    old(self).input@.subrange(pg_start as int, old(self).pg_end as int),
                ) + norm_seq(units_text(old(self).units@.reverse()))
            },
            old(self).in_cmevla ==> (r is Ok <==> cmevla_valid(
                old(self).input@.subrange(pg_start as int, old(self).pg_end as int),
                old(self).settings.allow_mz,
            )),
            old(self).in_cmevla ==> (r matches Err(e) ==> e@ == cmevla_fault(
                old(self).input@.subrange(pg_start as int, old(self).pg_end as int),
                old(self).settings.allow_mz,
            )),
            !old(self).in_cmevla ==> (r matches Err(e) ==> e@ == if !old(self).finish_ok() {
                g_finish_fault(old(self).group(), old(self).settings.allow_mz)
            } else {
                finished_fault(old(self).finished(), old(self).settings.arbitrary_cmavo_rafsi)
            }),
            old(self).in_cmevla && r is Ok ==> final(self).units@ == old(self).units@.push(
                final(self).units@.last(),
            ) && (final(self).units@.last() matches Unit::Cmevla(t) && t@ == old(
                self,
            ).input@.subrange(pg_start as int, old(self).pg_end as int)),
            !old(self).in_cmevla && !old(self).finish_ok() ==> r is Err,
            !old(self).in_cmevla ==> (r is Ok <==> old(self).finish_ok() && (old(
                self,
            ).finished().len() == 0 || (!(old(self).finished().last().onset is H) && stress_split(
                old(self).finished().reverse(),
                old(self).settings.arbitrary_cmavo_rafsi,
            ) is Ok))),
            !old(self).in_cmevla && r is Ok ==> units_model(final(self).units@) == if old(
                self,
            ).finished().len() == 0 {
                units_model(old(self).units@)
            } else {
                added_units(
                    units_model(old(self).units@),
                    old(self).finished().reverse(),
                    old(self).settings.arbitrary_cmavo_rafsi,
                )
            },
            !old(self).in_cmevla && old(self).fresh() ==> r is Ok && final(self).units@ == old(
                self,
            ).units@,
    {
        let ghost mz = self.settings.allow_mz;
        if self.in_cmevla {
            let text = &self.input[pg_start..self.pg_end];
            match check_cmevla(text, self.settings) {
                Ok(()) => {},
                Err(e) => {
                    proof {
                        if cmevla_valid(text@, mz) {
                            let a = annotated(text@)->0;
                            assert(forall|i: int| 0 <= i < a.len() ==> cmevla_fine_at(a, i, mz));
                        }
                        lemma_cmevla_fault(text@, mz, e);
                    }
                    return Err(e);
                },
            }
            let t = string_of(text);
            proof {
                lemma_cmevla_ends_hard(t@, mz);
            }
            let ghost before = self.units@;
            let u = Unit::Cmevla(t);
            self.units.push(u);
            proof {
                lemma_all_syllables_push(before, u);
                lemma_units_ok_push(before, u, mz);
                lemma_units_text_push_rev(before, u);
                lemma_norm_concat(t@, units_text(before.reverse()));
            }
            self.reset_pending();
            return Ok(());
        }
        let ghost state0 = self.state_text();
        match self.finish_pending() {
            Ok(()) => {},
            Err(e) => {
                return Err(e);
            },
        }
        if self.pending_unit.len() == 0 {
            proof {
                assert(syl_letters(self.pending_unit@.reverse()) =~= seq![]) by {
                    assert(self.pending_unit@.reverse() =~= Seq::<Syllable>::empty());
                }
                assert(norm_seq(state0) =~= seq![]);
                assert(norm_seq(units_text(self.units@.reverse())) =~= norm_seq(state0) + norm_seq(
                    units_text(self.units@.reverse()),
                ));
            }
            self.reset_pending();
            return Ok(());
        }
        let syllables = reversed_syllables(&self.pending_unit);
        proof {
            let pu = self.pending_unit@;
            assert forall|k: int| 0 <= k < syllables@.len() implies (#[trigger] syllables@[k]).valid() by {
                assert(syllables@[k] == pu[pu.len() - 1 - k]);
            }
        }
        if syllables[0].has_h_onset() {
            return Err(
                Jvofli::MisplacedApostrophe {
                    before: None,
                    after: Some(nucleus_first_letter(syllables[0].nucleus)),
                },
            );
        }
        match add_units(&mut self.units, &syllables, self.settings) {
            Ok(()) => {},
            Err(e) => {
                return Err(e);
            },
        }
        self.reset_pending();
        Ok(())
    }

    /// Tries to flush the current pause group.
    fn handle_boundary(&mut self, i: usize) -> (r: Result<(), Jvofli>)
        requires
            i + 1 <= old(self).pg_end <= old(self).input.len() <= max_syllables(),
            units_ok(old(self).units@, old(self).settings.allow_mz),
            old(self).count() <= old(self).input.len(),
            old(self).in_cmevla ==> i + 1 < old(self).pg_end && consonant(
                old(self).input@[old(self).pg_end - 1],
            ),
            old(self).wf(),
            !old(self).in_cmevla ==> norm_seq(
                old(self).input@.subrange(i + 1, old(self).pg_end as int),
            ) == norm_seq(old(self).state_text()),
        ensures
            r is Ok ==> {
                &&& final(self).input@ == old(self).input@
                &&& final(self).settings == old(self).settings
                &&& final(self).pg_end == i
                &&& final(self).fresh()
                &&& !final(self).in_cmevla
                &&& final(self).pending_coda is None
                &&& units_ok(final(self).units@, final(self).settings.allow_mz)
                &&& final(self).count() <= old(self).count()
                &&& norm_seq(units_text(final(self).units@.reverse())) == norm_seq(
                    old(self).input@.subrange(i + 1, old(self).pg_end as int),
                ) + norm_seq(units_text(old(self).units@.reverse()))
            },
            old(self).in_cmevla ==> (r is Ok <==> cmevla_valid(
                old(self).input@.subrange(i + 1, old(self).pg_end as int),
                old(self).settings.allow_mz,
            )),
            !old(self).in_cmevla && !old(self).finish_ok() ==> r is Err,
            !old(self).in_cmevla ==> (r is Ok <==> old(self).finish_ok() && (old(
                self,
            ).finished().len() == 0 || (!(old(self).finished().last().onset is H) && stress_split(
                old(self).finished().reverse(),
                old(self).settings.arbitrary_cmavo_rafsi,
            ) is Ok))),
            !old(self).in_cmevla && r is Ok ==> units_model(final(self).units@) == if old(
                self,
            ).finished().len() == 0 {
                units_model(old(self).units@)
            } else {
                added_units(
                    units_model(old(self).units@),
                    old(self).finished().reverse(),
                    old(self).settings.arbitrary_cmavo_rafsi,
                )
            },
            !old(self).in_cmevla && old(self).fresh() ==> r is Ok && final(self).units@ == old(
                self,
            ).units@,
            match group_units(
                old(self).input@.subrange(i + 1, old(self).pg_end as int),
                old(self).group(),
                units_model(old(self).units@),
                old(self).settings.allow_mz,
                old(self).settings.arbitrary_cmavo_rafsi,
            ) {
                Ok(us) => r is Ok && units_model(final(self).units@) == us,
                Err(f) => r matches Err(e) && e@ == f,
            },
    {
        let ghost before = units_model(self.units@);
        proof {
            reveal(group_units);
        }
        match self.flush_group(i + 1) {
            Ok(()) => {},
            Err(e) => {
                return Err(e);
            },
        }
        proof {
            if old(self).in_cmevla {
                assert(units_model(self.units@) =~= before.push(unit_model(self.units@.last())));
            }
        }
        self.pg_end = i;
        Ok(())
    }

    fn handle_boundary_at_start(&mut self) -> (r: Result<(), Jvofli>)
        requires
            old(self).pg_end <= old(self).input.len() <= max_syllables(),
            units_ok(old(self).units@, old(self).settings.allow_mz),
            old(self).count() <= old(self).input.len(),
            old(self).in_cmevla ==> 0 < old(self).pg_end && consonant(
                old(self).input@[old(self).pg_end - 1],
            ),
            old(self).wf(),
            !old(self).in_cmevla ==> norm_seq(old(self).input@.subrange(0, old(self).pg_end as int))
                == norm_seq(old(self).state_text()),
        ensures
            r is Ok ==> units_ok(final(self).units@, final(self).settings.allow_mz)
                && final(self).settings == old(self).settings && norm_seq(
                units_text(final(self).units@.reverse()),
            ) == norm_seq(old(self).input@.subrange(0, old(self).pg_end as int)) + norm_seq(
                units_text(old(self).units@.reverse()),
            ),
            old(self).in_cmevla ==> (r is Ok <==> cmevla_valid(
                old(self).input@.subrange(0, old(self).pg_end as int),
                old(self).settings.allow_mz,
            )),
            old(self).in_cmevla && r is Ok ==> final(self).units@ == old(self).units@.push(
                final(self).units@.last(),
            ) && (final(self).units@.last() matches Unit::Cmevla(t) && t@ == old(
                self,
            ).input@.subrange(0, old(self).pg_end as int)),
            !old(self).in_cmevla && !old(self).finish_ok() ==> r is Err,
            !old(self).in_cmevla ==> (r is Ok <==> old(self).finish_ok() && (old(
                self,
            ).finished().len() == 0 || (!(old(self).finished().last().onset is H) && stress_split(
                old(self).finished().reverse(),
                old(self).settings.arbitrary_cmavo_rafsi,
            ) is Ok))),
            !old(self).in_cmevla && r is Ok ==> units_model(final(self).units@) == if old(
                self,
            ).finished().len() == 0 {
                units_model(old(self).units@)
            } else {
                added_units(
                    units_model(old(self).units@),
                    old(self).finished().reverse(),
                    old(self).settings.arbitrary_cmavo_rafsi,
                )
            },
            !old(self).in_cmevla && old(self).fresh() ==> r is Ok && final(self).units@ == old(
                self,
            ).units@,
            match group_units(
                old(self).input@.subrange(0, old(self).pg_end as int),
                old(self).group(),
                units_model(old(self).units@),
                old(self).settings.allow_mz,
                old(self).settings.arbitrary_cmavo_rafsi,
            ) {
                Ok(us) => r is Ok && units_model(final(self).units@) == us,
                Err(f) => r matches Err(e) && e@ == f,
            },
    {
        let ghost before = units_model(self.units@);
        proof {
            reveal(group_units);
        }
        let r = self.flush_group(0);
        proof {
            if old(self).in_cmevla && r is Ok {
                assert(units_model(self.units@) =~= before.push(unit_model(self.units@.last())));
            }
        }
        r
    }

    // - orchestrator -
    /// Walks `input` rtl trying to unitify it and returns the units ltr. A
    /// text of pauses alone has no units; a text of one pause group that
    /// ends in a consonant is one cmevla.
    #[verifier::rlimit(100)]
    #[verifier::spinoff_prover]
    fn run(self) -> (r: Result<Vec<Unit>, Jvofli>)
        requires
            self.input.len() <= max_syllables(),
            self.pg_end == self.input.len(),
            self.fresh(),
            !self.in_cmevla,
            self.units@.len() == 0,
            self.pending_coda is None,
        ensures
            r matches Ok(us) ==> units_ok(us@, self.settings.allow_mz),
            r matches Ok(us) ==> norm_seq(units_text(us@)) == norm_seq(text_letters(self.input@)),
            r is Ok ==> forall|k: int| 0 <= k < self.input@.len() ==> text_char(#[trigger] self.input@[k]),
            (forall|k: int| 0 <= k < self.input@.len() ==> is_pause(#[trigger] self.input@[k]))
                ==> (r matches Ok(us) && us@.len() == 0),
            one_cmevla_group(self.input@) ==> (r is Ok <==> (forall|k: int|
                0 <= k < self.input@.len() ==> text_char(#[trigger] self.input@[k])) && cmevla_valid(
                self.input@,
                self.settings.allow_mz,
            )),
            one_cmevla_group(self.input@) ==> (r matches Ok(us) ==> us@.len() == 1 && (
            us@[0] matches Unit::Cmevla(t) && t@ == self.input@)),
            match text_units(self.input@, self.settings.allow_mz, self.settings.arbitrary_cmavo_rafsi) {
                Ok(m) => r matches Ok(us) && units_model(us@) == m,
                Err(f) => r matches Err(e) && e@ == f,
            },
    {
        let ghost input = self.input@;
        let mut this = self;
        let ghost mz = this.settings.allow_mz;
        let ghost arb = this.settings.arbitrary_cmavo_rafsi;
        let n = this.input.len();
        let mut i = n;
        proof {
            assert(all_syllables(this.units@) =~= seq![]);
            assert(this.units@.reverse() =~= Seq::<Unit>::empty());
            assert(units_text(Seq::<Unit>::empty()) =~= seq![]);
            assert(input.subrange(n as int, n as int) =~= Seq::<char>::empty());
            assert(text_letters(Seq::<char>::empty()) =~= seq![]);
            assert(this.pending_unit@.reverse() =~= Seq::<Syllable>::empty());
            assert(this.pending_nucleus@.reverse() =~= Seq::<char>::empty());
            assert(this.pending_consonants@.reverse() =~= Seq::<char>::empty());
            assert(syl_letters(Seq::<Syllable>::empty()) =~= seq![]);
            assert(this.state_text() =~= seq![]);
            assert(units_model(this.units@) =~= seq![]);
            assert(this.group() =~~= empty_group());
            lemma_read_end(input, mz, arb);
        }
        while i > 0
            invariant
                n == this.input.len(),
                n <= max_syllables(),
                mz == this.settings.allow_mz,
                i <= this.pg_end <= n,
                units_ok(this.units@, mz),
                this.count() <= n - i,
                this.in_cmevla ==> i < this.pg_end && this.pending_consonants@.len() > 0
                    && consonant(this.input@[this.pg_end - 1]),
                this.fresh() && !this.in_cmevla ==> i == this.pg_end,
                input == this.input@,
                this.wf(),
                forall|k: int| i <= k < this.pg_end ==> !is_pause(#[trigger] input[k]),
                !this.in_cmevla ==> norm_seq(input.subrange(i as int, this.pg_end as int))
                    == norm_seq(this.state_text()),
                norm_seq(units_text(this.units@.reverse())) == norm_seq(
                    text_letters(input.subrange(this.pg_end as int, n as int)),
                ),
                forall|k: int| i <= k < n ==> text_char(#[trigger] input[k]),
                (forall|k: int| i <= k < n ==> is_pause(#[trigger] input[k])) ==> this.fresh()
                    && !this.in_cmevla && this.units@.len() == 0,
                input == self.input@,
                this.settings == self.settings,
                arb == this.settings.arbitrary_cmavo_rafsi,
                read_from(input, i as int, mz, arb) == Ok::<_, Fault>(
                    (units_model(this.units@), this.pg_end as int, this.group()),
                ),
                one_cmevla_group(input) && i < n ==> this.in_cmevla && this.units@.len() == 0
                    && this.pg_end == n,
            decreases i,
        {
            let idx = i - 1;
            let c = deannotate_glide(this.input[idx]);
            let ghost old_end = this.pg_end;
            let ghost st0 = (units_model(this.units@), this.pg_end as int, this.group());
            let ghost g0 = this.group();
            proof {
                lemma_read_step(input, idx as int, mz, arb);
            }
            proof {
                if forall|k: int| 0 <= k < n ==> is_pause(#[trigger] input[k]) {
                    assert(is_pause(input[idx as int]));
                    assert(forall|k: int| i <= k < n ==> is_pause(#[trigger] input[k]));
                }
            }
            if c == ' ' || c == '.' {
                match this.handle_boundary(idx) {
                    Ok(()) => {},
                    Err(e) => {
                        proof {
                            assert(read_from(input, idx as int, mz, arb) == Err::<(Seq<UnitView>, int, Group), Fault>(e@));
                            lemma_read_err(input, 0, idx as int, mz, arb);
                        }
                        return Err(e);
                    },
                }
                proof {
                    assert(this.group() =~~= empty_group());
                    assert(read_from(input, idx as int, mz, arb) == Ok::<_, Fault>(
                        (units_model(this.units@), this.pg_end as int, this.group()),
                    ));
                    lemma_boundary_text(input, idx as int, old_end as int, n as int);
                    assert(this.pending_unit@.reverse() =~= Seq::<Syllable>::empty());
                    assert(this.pending_nucleus@.reverse() =~= Seq::<char>::empty());
                    assert(this.pending_consonants@.reverse() =~= Seq::<char>::empty());
                    assert(syl_letters(Seq::<Syllable>::empty()) =~= seq![]);
                    assert(this.state_text() =~= seq![]);
                    assert(input.subrange(idx as int, idx as int) =~= Seq::<char>::empty());
                }
            } else if is_vowel(c) {
                let ghost state0 = this.state_text();
                let ghost was_cmevla = this.in_cmevla;
                match this.handle_vowel(c) {
                    Ok(()) => {},
                    Err(e) => {
                        proof {
                            assert(read_from(input, idx as int, mz, arb) == Err::<(Seq<UnitView>, int, Group), Fault>(e@));
                            lemma_read_err(input, 0, idx as int, mz, arb);
                        }
                        return Err(e);
                    },
                }
                proof {
                    assert(this.group() =~~= g_read(g0, c, mz)->Ok_0);
                    assert(read_from(input, idx as int, mz, arb) == Ok::<_, Fault>(
                        (units_model(this.units@), this.pg_end as int, this.group()),
                    ));
                    lemma_letter_not_pause(input[idx as int], c);
                    if !was_cmevla {
                        lemma_read_letter(input, idx as int, old_end as int, c, state0);
                    }
                }
            } else if is_consonant(c) {
                let ghost state0 = this.state_text();
                let ghost was_cmevla = this.in_cmevla;
                this.push_consonant(c);
                proof {
                    assert(this.group() =~~= g_read(g0, c, mz)->Ok_0);
                    assert(read_from(input, idx as int, mz, arb) == Ok::<_, Fault>(
                        (units_model(this.units@), this.pg_end as int, this.group()),
                    ));
                    lemma_letter_not_pause(input[idx as int], c);
                    if !was_cmevla && this.in_cmevla {
                        assert(this.input@[old_end - 1] == c) by {
                            assert(i == old_end);
                        }
                    }
                    if !this.in_cmevla {
                        lemma_read_letter(input, idx as int, old_end as int, c, state0);
                    }
                }
            } else {
                proof {
                    assert(!text_char(input[idx as int]));
                    reveal(g_read);
                    assert(read_from(input, idx as int, mz, arb) == Err::<(Seq<UnitView>, int, Group), Fault>(Fault::NonLojbanCharacter(c)));
                    lemma_read_err(input, 0, idx as int, mz, arb);
                }
                return Err(Jvofli::NonLojbanCharacter(c));
            }
            i = idx;
        }
        let ghost end0 = this.pg_end;
        proof {
            assert(input.subrange(0, n as int) =~= input);
        }
        let ghost fin = (units_model(this.units@), this.pg_end as int, this.group());
        match this.handle_boundary_at_start() {
            Ok(()) => {},
            Err(e) => {
                return Err(e);
            },
        }
        proof {
            lemma_start_text(input, end0 as int, n as int);
        }
        let ghost all = this.units@;
        let mut out: Vec<Unit> = Vec::new();
        proof {
            assert(this.units@ + out@.reverse() =~= all);
        }
        while this.units.len() > 0
            invariant
                units_ok(this.units@, mz),
                units_ok(out@, mz),
                this.units@ + out@.reverse() == all,
            decreases this.units.len(),
        {
            let ghost before = this.units@;
            let u = this.units.pop().unwrap();
            proof {
                assert(before =~= this.units@.push(u));
                assert(unit_ok(before[before.len() - 1], mz));
                lemma_units_ok_push(out@, u, mz);
                assert forall|k: int| 0 <= k < this.units@.len() implies unit_ok(
                    #[trigger] this.units@[k],
                    mz,
                ) by {
                    assert(this.units@[k] == before[k]);
                }
            }
            let ghost out0 = out@;
            out.push(u);
            proof {
                assert(out@.reverse() =~= seq![u] + out0.reverse());
                assert(this.units@ + out@.reverse() =~= before + out0.reverse());
            }
        }
        proof {
            assert(out@.reverse() =~= all);
            assert(out@ =~= all.reverse());
            if forall|k: int| 0 <= k < n ==> is_pause(#[trigger] input[k]) {
                assert(all.len() == 0);
            }
            if one_cmevla_group(input) {
                assert(all.len() == 1);
                assert(out@[0] == all[0]);
            }
            assert(units_model(out@) =~= units_model(all).reverse());
        }
        Ok(out)
    }
}

/// Splits the letters `input` into units (see `crate::units::unitify`).
pub(crate) fn unitify_chars(input: Vec<char>, settings: Settings) -> (r: Result<Vec<Unit>, Jvofli>)
    requires
        input.len() <= max_syllables(),
    ensures
        r matches Ok(us) ==> units_ok(us@, settings.allow_mz),
        r matches Ok(us) ==> norm_seq(units_text(us@)) == norm_seq(text_letters(input@)),
        r is Ok ==> forall|k: int| 0 <= k < input@.len() ==> text_char(#[trigger] input@[k]),
        (forall|k: int| 0 <= k < input@.len() ==> is_pause(#[trigger] input@[k])) ==> (r matches Ok(
            us,
        ) && us@.len() == 0),
        one_cmevla_group(input@) ==> (r is Ok <==> (forall|k: int|
            0 <= k < input@.len() ==> text_char(#[trigger] input@[k])) && cmevla_valid(
            input@,
            settings.allow_mz,
        )),
        one_cmevla_group(input@) ==> (r matches Ok(us) ==> us@.len() == 1 && (
        us@[0] matches Unit::Cmevla(t) && t@ == input@)),
        match text_units(input@, settings.allow_mz, settings.arbitrary_cmavo_rafsi) {
            Ok(m) => r matches Ok(us) && units_model(us@) == m,
            Err(f) => r matches Err(e) && e@ == f,
        },
{
    Unitifier::new(input, settings).run()
}

/// The syllables of `rtl`, in the other order.
fn reversed_syllables(rtl: &Vec<Syllable>) -> (ltr: Vec<Syllable>)
    ensures
        ltr@ == rtl@.reverse(),
{
    let mut ltr: Vec<Syllable> = Vec::new();
    let len = rtl.len();
    let mut j = len;
    while j > 0
        invariant
            j <= len,
            len == rtl.len(),
            ltr@ == rtl@.subrange(j as int, len as int).reverse(),
        decreases j,
    {
        j -= 1;
        ltr.push(rtl[j]);
        assert(rtl@.subrange(j as int, len as int).reverse() =~= rtl@.subrange(
            j + 1,
            len as int,
        ).reverse().push(rtl@[j as int]));
    }
    assert(rtl@.subrange(0, len as int) =~= rtl@);
    ltr
}

/// The last unit `lm` of a pause group may be joined onto the unit `rm`
/// after it (both as `unit_model` gives them): `lm` has no pre-brivla and
/// their syllables are joinable (a cmevla, with no syllables, never is).
pub open spec fn model_joins(
    lm: UnitView,
    rm: UnitView,
    arb: bool,
) -> bool {
    &&& lm.1 is None
    &&& joinable(lm.0, rm.0, rm.1, arb)
}

/// The unit `lm` joined onto the front of `rm`, as `unit_model` gives them.
pub open spec fn model_joined(lm: UnitView, rm: UnitView) -> UnitView {
    (
        lm.0 + rm.0,
        match rm.1 {
            Some(p) => Some((p + lm.0.len()) as usize),
            None => None,
        },
        seq![],
    )
}

/// The units (right to left, as `units_model` gives them) once the units
/// that stress resolution makes of `syllables` are added to the units `o`:
/// the last new one joined onto the unit after it where it may.
pub open spec fn added_units(
    o: Seq<UnitView>,
    syllables: Seq<Syllable>,
    arb: bool,
) -> Seq<UnitView> {
    let m = stress_split(syllables, arb)->Ok_0;
    if o.len() > 0 && m.len() > 0 && model_joins(m.last(), o.last(), arb) {
        o.drop_last() + seq![model_joined(m.last(), o.last())] + m.drop_last().reverse()
    } else {
        o + m.reverse()
    }
}

/// Resolves the stress of the pause group `syllables` and adds its units to
/// `units` (which are right to left), joining the last new one onto the
/// unit after it where it may.
#[verifier::rlimit(80)]
#[verifier::spinoff_prover]
fn add_units(units: &mut Vec<Unit>, syllables: &Vec<Syllable>, settings: Settings) -> (r: Result<
    (),
    Jvofli,
>)
    requires
        units_ok(old(units)@, settings.allow_mz),
        syllables.len() > 0,
        syllables_valid(syllables@),
        !syllables@[0].continues_cmavo(),
        !(syllables@[0].onset is H),
        all_syllables(old(units)@).len() + syllables.len() <= max_syllables(),
    ensures
        r is Ok ==> units_ok(final(units)@, settings.allow_mz) && all_syllables(final(units)@).len()
            == all_syllables(old(units)@).len() + syllables.len(),
        r is Ok ==> norm_seq(units_text(final(units)@.reverse())) == norm_seq(
            syl_letters(syllables@),
        ) + norm_seq(units_text(old(units)@.reverse())),
        cmavo_syllables(syllables@, settings.arbitrary_cmavo_rafsi) ==> r is Ok,
        r is Ok <==> stress_split(syllables@, settings.arbitrary_cmavo_rafsi) is Ok,
        r matches Err(e) ==> e@ == stress_split(syllables@, settings.arbitrary_cmavo_rafsi)->Err_0,
        r is Ok ==> units_model(final(units)@) == added_units(
            units_model(old(units)@),
            syllables@,
            settings.arbitrary_cmavo_rafsi,
        ),
{
    let ghost mz = settings.allow_mz;
    let mut resolved = match resolve_stress_and_split(syllables, settings) {
        Ok(v) => v,
        Err(e) => {
            return Err(e);
        },
    };
    let ghost all = resolved@;
    let ghost m = units_model(all);
    proof {
        assert(plain_seq(all_syllables(all)).len() == all_syllables(all).len());
        assert(plain_seq(syllables@).len() == syllables@.len());
    }
    proof {
        lemma_plain_valid(syllables@);
        lemma_plain_valid(all_syllables(all));
        assert forall|k: int| 0 <= k < all.len() implies unit_ok(#[trigger] all[k], mz) by {
            lemma_units_valid(all, k);
        }
    }
    let new = resolved.pop().unwrap();
    proof {
        assert(all =~= resolved@.push(new));
        lemma_all_syllables_push(resolved@, new);
        assert(unit_ok(all[all.len() - 1], mz));
        assert forall|k: int| 0 <= k < resolved@.len() implies unit_ok(
            #[trigger] resolved@[k],
            mz,
        ) by {
            assert(resolved@[k] == all[k]);
        }
    }
    let ghost before = units@;
    if units.len() > 0 {
        let old = units.pop().unwrap();
        proof {
            assert(before =~= units@.push(old));
            lemma_all_syllables_push(units@, old);
            lemma_unit_within(before, before.len() - 1);
            assert(unit_ok(before[before.len() - 1], mz));
            assert forall|k: int| 0 <= k < units@.len() implies unit_ok(#[trigger] units@[k], mz) by {
                assert(units@[k] == before[k]);
            }
        }
        match try_merging_units(&new, old, settings) {
            Ok(merged) => {
                let ghost rest = units@;
                proof {
                    let a = unit_syllables(new);
                    let b = unit_syllables(old);
                    if old is Normal && old->pre_brivla_start is Some {
                        let p = old->pre_brivla_start->0;
                        let k = choose|k: int|
                            p <= k < b.len() && (#[trigger] b[k]).nucleus.stressed_spec();
                        assert(unit_syllables(merged)[a.len() + k] == b[k]);
                    }
                    assert forall|j: int| 0 <= j < (a + b).len() implies (#[trigger] (a
                        + b)[j]).valid() by {
                        if j < a.len() {
                            assert((a + b)[j] == a[j]);
                        } else {
                            assert((a + b)[j] == b[j - a.len()]);
                        }
                    }
                }
                units.push(merged);
                proof {
                    lemma_all_syllables_push(rest, merged);
                    lemma_units_ok_push(rest, merged, mz);
                    lemma_units_text_push_rev(rest, merged);
                    lemma_units_text_push_rev(rest, old);
                    lemma_syl_letters_concat(unit_syllables(new), unit_syllables(old));
                    assert(unit_letters(merged) == unit_letters(new) + unit_letters(old));
                    assert(units_text(units@.reverse()) =~= unit_letters(new) + units_text(
                        before.reverse(),
                    ));
                    assert(model_joins(unit_model(new), unit_model(old), settings.arbitrary_cmavo_rafsi));
                    assert(unit_model(merged) == model_joined(unit_model(new), unit_model(old)));
                    assert(units_model(units@) =~= units_model(rest) + seq![unit_model(merged)]);
                }
            },
            Err(old) => {
                units.push(old);
                proof {
                    assert(units@ =~= before);
                }
                let ghost mid = units@;
                units.push(new);
                proof {
                    lemma_all_syllables_push(mid, new);
                    lemma_units_ok_push(mid, new, mz);
                    lemma_units_text_push_rev(mid, new);
                    assert(!model_joins(unit_model(new), unit_model(before.last()), settings.arbitrary_cmavo_rafsi));
                    assert(units_model(units@) =~= units_model(before) + seq![unit_model(new)]);
                }
            },
        }
    } else {
        units.push(new);
        proof {
            lemma_all_syllables_push(before, new);
            lemma_units_ok_push(before, new, mz);
            lemma_units_text_push_rev(before, new);
            assert(units_model(units@) =~= units_model(before) + seq![unit_model(new)]);
        }
    }
    let ghost pre = units@;
    let ghost rest = resolved@;
    push_all_reversed(units, resolved, Ghost(mz));
    proof {
        lemma_add_units_text(before, pre, rest, new, all, syllables@);
        assert(m.last() == unit_model(new));
        assert(units_model(rest) =~= m.drop_last());
        assert(units_model(units@) =~= units_model(pre) + units_model(rest).reverse());
        assert(m.reverse() =~= seq![m.last()] + m.drop_last().reverse());
        if before.len() > 0 {
            assert(units_model(before) =~= units_model(before.drop_last()) + seq![
                unit_model(before.last()),
            ]);
            assert(units_model(before.drop_last()) =~= units_model(before).drop_last());
        }
    }
    Ok(())
}

/// Units `before` (right to left), then the units `all` (left to right)
/// that hold `syllables`, added last to first with the first of them
/// joined or pushed: their letters are those of `syllables` and then of
/// `before`, but for stress.
proof fn lemma_add_units_text(
    before: Seq<Unit>,
    pre: Seq<Unit>,
    rest: Seq<Unit>,
    new: Unit,
    all: Seq<Unit>,
    syllables: Seq<Syllable>,
)
    requires
        units_text(pre.reverse()) == unit_letters(new) + units_text(before.reverse()),
        all == rest.push(new),
        all_normal_ok(all),
        plain_seq(all_syllables(all)) == plain_seq(syllables),
    ensures
        norm_seq(units_text((pre + rest.reverse()).reverse())) == norm_seq(syl_letters(syllables))
            + norm_seq(units_text(before.reverse())),
{
    assert((pre + rest.reverse()).reverse() =~= rest + pre.reverse());
    lemma_units_text_concat(rest, pre.reverse());
    assert(all =~= rest + seq![new]);
    lemma_units_text_concat(rest, seq![new]);
    lemma_units_text_one(new);
    assert forall|k: int| 0 <= k < all.len() implies (#[trigger] all[k]) is Normal by {
        assert(normal_unit_ok(all[k]));
    }
    lemma_units_text_syllables(all);
    lemma_plain_letters(all_syllables(all));
    lemma_plain_letters(syllables);
    assert(units_text((pre + rest.reverse()).reverse()) =~= units_text(all) + units_text(
        before.reverse(),
    ));
    lemma_norm_concat(units_text(all), units_text(before.reverse()));
}

/// The letters of units kept right to left, after one more is pushed.
proof fn lemma_units_text_push_rev(us: Seq<Unit>, u: Unit)
    ensures
        units_text(us.push(u).reverse()) == unit_letters(u) + units_text(us.reverse()),
{
    assert(us.push(u).reverse() =~= seq![u] + us.reverse());
    lemma_units_text_concat(seq![u], us.reverse());
    lemma_units_text_one(u);
}

/// Adding a good unit to good units keeps them good.
proof fn lemma_units_ok_push(us: Seq<Unit>, u: Unit, mz: bool)
    requires
        units_ok(us, mz),
        unit_ok(u, mz),
    ensures
        units_ok(us.push(u), mz),
{
    assert forall|k: int| 0 <= k < us.push(u).len() implies unit_ok(#[trigger] us.push(u)[k], mz) by {
        if k < us.len() {
            assert(us.push(u)[k] == us[k]);
        }
    }
}

/// Moves the units of `src` to the end of `dst`, last first.
fn push_all_reversed(dst: &mut Vec<Unit>, src: Vec<Unit>, Ghost(mz): Ghost<bool>)
    requires
        units_ok(old(dst)@, mz),
        units_ok(src@, mz),
    ensures
        units_ok(final(dst)@, mz),
        all_syllables(final(dst)@).len() == all_syllables(old(dst)@).len() + all_syllables(
            src@,
        ).len(),
        final(dst)@ == old(dst)@ + src@.reverse(),
{
    let ghost src0 = src@;
    let mut src = src;
    proof {
        assert(src0.take(src0.len() as int) =~= src0);
        assert(src0.subrange(src0.len() as int, src0.len() as int).reverse() =~= Seq::<
            Unit,
        >::empty());
        assert(old(dst)@ + Seq::<Unit>::empty() =~= old(dst)@);
    }
    while src.len() > 0
        invariant
            units_ok(dst@, mz),
            units_ok(src@, mz),
            all_syllables(dst@).len() + all_syllables(src@).len() == all_syllables(old(dst)@).len()
                + all_syllables(src0).len(),
            src@ == src0.take(src@.len() as int),
            src@.len() <= src0.len(),
            dst@ == old(dst)@ + src0.subrange(src@.len() as int, src0.len() as int).reverse(),
        decreases src.len(),
    {
        let ghost before_src = src@;
        let ghost before_dst = dst@;
        let u = src.pop().unwrap();
        proof {
            assert(before_src =~= src@.push(u));
            lemma_all_syllables_push(src@, u);
            assert(unit_ok(before_src[before_src.len() - 1], mz));
            lemma_units_ok_push(before_dst, u, mz);
            lemma_all_syllables_push(before_dst, u);
            assert forall|k: int| 0 <= k < src@.len() implies unit_ok(#[trigger] src@[k], mz) by {
                assert(src@[k] == before_src[k]);
            }
        }
        dst.push(u);
        proof {
            assert(src0.subrange(src@.len() as int, src0.len() as int).reverse() =~= src0.subrange(
                src@.len() + 1int,
                src0.len() as int,
            ).reverse().push(u));
        }
    }
    proof {
        assert(src0.subrange(0, src0.len() as int) =~= src0);
    }
}

/// Appends the syllables of `src` to `dst`.
fn append_all(dst: &mut Vec<Syllable>, src: &Vec<Syllable>)
    ensures
        final(dst)@ == old(dst)@ + src@,
{
    let mut i: usize = 0;
    while i < src.len()
        invariant
            i <= src.len(),
            dst@ == old(dst)@ + src@.take(i as int),
        decreases src.len() - i,
    {
        dst.push(src[i]);
        i += 1;
        assert(src@.take(i as int) =~= src@.take(i - 1).push(src@[i - 1]));
    }
    assert(src@.take(src.len() as int) =~= src@);
}

} // verus!
