//! Checking the letters of a cmevla.

use vstd::prelude::*;

use crate::jvofli::{invalid_from_pair, invalid_pair_spec, Fault, Jvofli, What};
use crate::phonology::{
    annotated_offglide, annotated_onglide, consonant, diphthong_chars, hard_consonant,
    is_annotated_offglide, is_annotated_onglide, is_consonant, is_diphthong_chars,
    is_hard_consonant, is_valid_chars, is_vowel, plain_glide, strip_stress_accent, stripped, valid_cluster,
    vowel,
};
use crate::settings::Settings;
use crate::text::push_char;

verus! {

/// A letter that may stand in a cmevla before its glides are annotated.
pub open spec fn cmevla_letter(c: char) -> bool {
    consonant(c) || vowel(c) || annotated_offglide(c)
}

/// A letter that may come first in a diphthong, with or without stress.
pub open spec fn diphthong_first(c: char) -> bool {
    c == 'a' || c == 'á' || c == 'e' || c == 'é' || c == 'o' || c == 'ó' || c == 'y' || c == 'ý'
}

/// Why annotating the glides of a cmevla failed.
pub enum GlideFault {
    /// A stressed *i* or *u* in a glide's place.
    Stressed(char),
    /// The same letter as an offglide and then as an onglide.
    Long(char),
    /// Two letters that do not form a diphthong.
    Pair(char, char),
}

/// `e` is the error that reports `f`.
pub open spec fn reports(e: Jvofli, f: GlideFault) -> bool {
    match f {
        GlideFault::Stressed(c) => e matches Jvofli::StressOnUnstressable(v) && v@ == seq![c],
        GlideFault::Long(c) => e == Jvofli::LongGlide(c),
        GlideFault::Pair(x, y) => invalid_pair_spec(e, What::Diphthong, x, y),
    }
}

/// Annotates the letter at `i` of `cur`, everything after which is already
/// annotated: an *i* or *u* before a vowel becomes an onglide (*q w*), one
/// after the first letter of a diphthong an offglide (*ĭ ŭ*).
pub open spec fn glide_step(cur: Seq<char>, i: int) -> Result<Seq<char>, GlideFault> {
    let c = cur[i];
    let base = stripped(c).0;
    let stressed = stripped(c).1;
    let on = if base == 'i' {
        'q'
    } else {
        'w'
    };
    let off = if base == 'i' {
        'ĭ'
    } else {
        'ŭ'
    };
    if !(base == 'i' || base == 'u') {
        Ok(cur)
    } else if i + 1 < cur.len() && vowel(cur[i + 1]) {
        if stressed {
            Err(GlideFault::Stressed(c))
        } else {
            Ok(cur.update(i, on))
        }
    } else if i > 0 && diphthong_first(cur[i - 1]) {
        if diphthong_chars(cur[i - 1], c) {
            if stressed {
                Err(GlideFault::Stressed(c))
            } else if i + 1 < cur.len() && cur[i + 1] == on {
                Err(GlideFault::Long(base))
            } else {
                Ok(cur.update(i, off))
            }
        } else {
            Err(GlideFault::Pair(cur[i - 1], c))
        }
    } else {
        Ok(cur)
    }
}

/// The letters of `s` with the glides from `i` on annotated, right to left.
pub open spec fn glide_pass(s: Seq<char>, i: int) -> Result<Seq<char>, GlideFault>
    decreases s.len() - i,
{
    if i < 0 || i >= s.len() {
        Ok(s)
    } else {
        match glide_pass(s, i + 1) {
            Ok(cur) => glide_step(cur, i),
            Err(f) => Err(f),
        }
    }
}

proof fn lemma_glide_pass_len(s: Seq<char>, i: int)
    ensures
        glide_pass(s, i) matches Ok(cur) ==> cur.len() == s.len() && forall|k: int|
            0 <= k < i ==> cur[k] == s[k],
    decreases s.len() - i,
{
    if 0 <= i < s.len() {
        lemma_glide_pass_len(s, i + 1);
    }
}

/// Once annotating fails at some letter, it fails the same way at every
/// earlier start.
proof fn lemma_glide_err(s: Seq<char>, j: int, i: int)
    requires
        0 <= j <= i,
        glide_pass(s, i) is Err,
    ensures
        glide_pass(s, j) == glide_pass(s, i),
    decreases i - j,
{
    if j < i {
        lemma_glide_err(s, j + 1, i);
    }
}

/// Every letter of `s` may stand in a cmevla.
pub open spec fn letters_ok(s: Seq<char>) -> bool {
    forall|k: int| 0 <= k < s.len() ==> cmevla_letter(#[trigger] s[k])
}

/// The letters of `s` with their glides annotated, where that succeeds.
pub open spec fn annotated(s: Seq<char>) -> Option<Seq<char>> {
    if letters_ok(s) && glide_pass(s, 0) is Ok {
        Some(glide_pass(s, 0)->Ok_0)
    } else {
        None
    }
}

proof fn lemma_glide_pass_spelling(s: Seq<char>, i: int)
    ensures
        glide_pass(s, i) matches Ok(cur) ==> cur.len() == s.len() && forall|k: int|
            0 <= k < s.len() ==> plain_glide(#[trigger] cur[k]) == plain_glide(s[k]),
    decreases s.len() - i,
{
    if 0 <= i < s.len() {
        lemma_glide_pass_spelling(s, i + 1);
        lemma_glide_pass_len(s, i + 1);
        if let Ok(cur) = glide_pass(s, i + 1) {
            if let Ok(nxt) = glide_step(cur, i) {
                assert forall|k: int| 0 <= k < s.len() implies plain_glide(
                    #[trigger] nxt[k],
                ) == plain_glide(s[k]) by {
                    if k == i && nxt[k] != cur[k] {
                        assert(cur[k] == s[k]);
                    }
                }
            }
        }
    }
}

/// Annotating the glides of a text keeps its length and its spelling: each
/// letter reads, with its glide mark taken off, as the letter it came from.
pub proof fn lemma_annotated_spelling(s: Seq<char>)
    ensures
        annotated(s) matches Some(a) ==> a.len() == s.len() && forall|k: int|
            0 <= k < s.len() ==> plain_glide(#[trigger] a[k]) == plain_glide(s[k]),
{
    lemma_glide_pass_spelling(s, 0);
}

/// `e` is the error that annotating the glides of `s` reports: the first
/// letter that may not stand in a cmevla, or else the fault of the glides.
pub open spec fn annotation_error(s: Seq<char>, e: Jvofli) -> bool {
    if letters_ok(s) {
        glide_pass(s, 0) matches Err(f) && reports(e, f)
    } else {
        exists|k: int|
            0 <= k < s.len() && !cmevla_letter(s[k]) && (forall|j: int|
                0 <= j < k ==> cmevla_letter(#[trigger] s[j])) && e == Jvofli::NonLojbanCharacter(
                s[k],
            )
    }
}

/// Checks that `input` only contains Lojban letters, then annotates glides so
/// that *i* and *u* are unambiguous.
pub(crate) fn annotate_glides(input: &[char]) -> (r: Result<Vec<char>, Jvofli>)
    ensures
        match r {
            Ok(out) => annotated(input@) == Some(out@),
            Err(e) => annotated(input@) is None && annotation_error(input@, e),
        },
{
    let mut k: usize = 0;
    while k < input.len()
        invariant
            k <= input.len(),
            forall|j: int| 0 <= j < k ==> cmevla_letter(#[trigger] input@[j]),
        decreases input.len() - k,
    {
        let c = input[k];
        if !(is_consonant(c) || is_vowel(c) || is_annotated_offglide(c)) {
            return Err(Jvofli::NonLojbanCharacter(c));
        }
        k += 1;
    }
    let ghost s = input@;
    let mut chars: Vec<char> = Vec::new();
    let mut j: usize = 0;
    while j < input.len()
        invariant
            j <= input.len(),
            chars@ == input@.take(j as int),
            s == input@,
            letters_ok(s),
        decreases input.len() - j,
    {
        chars.push(input[j]);
        j += 1;
        assert(input@.take(j as int) =~= input@.take(j - 1).push(input@[j - 1]));
    }
    assert(input@.take(input.len() as int) =~= input@);
    let n = chars.len();
    let mut i = n;
    while i > 0
        invariant
            n == s.len(),
            i <= n,
            s == input@,
            letters_ok(s),
            glide_pass(s, i as int) == Ok::<Seq<char>, GlideFault>(chars@),
        decreases i,
    {
        i -= 1;
        proof {
            lemma_glide_pass_len(s, i + 1);
        }
        let c = chars[i];
        let (base, stressed) = strip_stress_accent(c);
        if !(base == 'i' || base == 'u') {
            continue;
        }
        let (on, off) = if base == 'i' {
            ('q', 'ĭ')
        } else {
            ('w', 'ŭ')
        };
        let next_is_vowel = i + 1 < n && is_vowel(chars[i + 1]);
        if next_is_vowel {
            if stressed {
                let mut v = String::new();
                push_char(&mut v, c);
                proof {
                    lemma_glide_err(s, 0, i as int);
                }
                return Err(Jvofli::StressOnUnstressable(v));
            }
            chars.set(i, on);
            continue;
        }
        let prev_is_diphthong_first = i != 0 && matches!(
            chars[i - 1],
            'a' | 'á' | 'e' | 'é' | 'o' | 'ó' | 'y' | 'ý'
        );
        if prev_is_diphthong_first {
            if is_diphthong_chars(chars[i - 1], c) {
                if stressed {
                    let mut v = String::new();
                    push_char(&mut v, c);
                    proof {
                        lemma_glide_err(s, 0, i as int);
                    }
                    return Err(Jvofli::StressOnUnstressable(v));
                }
                chars.set(i, off);
                if i + 1 < n && chars[i + 1] == on {
                    proof {
                        lemma_glide_err(s, 0, i as int);
                    }
                    return Err(Jvofli::LongGlide(base));
                }
            } else {
                let e = invalid_from_pair(What::Diphthong, chars[i - 1], c);
                proof {
                    lemma_glide_err(s, 0, i as int);
                }
                return Err(e);
            }
        }
    }
    Ok(chars)
}

/// The letter before position `i` of `a`, if any.
pub open spec fn before_at(a: Seq<char>, i: int) -> Option<char> {
    if i > 0 {
        Some(a[i - 1])
    } else {
        None
    }
}

/// The letter after position `i` of `a`, if any.
pub open spec fn after_at(a: Seq<char>, i: int) -> Option<char> {
    if i + 1 < a.len() {
        Some(a[i + 1])
    } else {
        None
    }
}

/// The letter at `i` of the annotated cmevla `a` breaks no rule: it is not
/// doubled (but for the apostrophe), it forms no invalid cluster or vowel
/// pair with the next letter, an apostrophe stands between a vowel or
/// offglide and a vowel, and an onglide has no consonant beside it.
pub open spec fn cmevla_fine_at(a: Seq<char>, i: int, mz: bool) -> bool {
    let c = a[i];
    let before = before_at(a, i);
    let after = after_at(a, i);
    &&& !(c != '\'' && after == Some(c))
    &&& !(hard_consonant(c) && after is Some && hard_consonant(after->0) && !valid_cluster(
        c,
        after->0,
        mz,
    ))
    &&& !(vowel(c) && after is Some && vowel(after->0))
    &&& (c == '\'' ==> (before is Some && (vowel(before->0) || annotated_offglide(before->0))) && (
    after is Some && vowel(after->0)))
    &&& (annotated_onglide(c) ==> !((before is Some && consonant(before->0)) || (after is Some
        && consonant(after->0))))
}

/// `e` is the error that the first broken rule at `i` of `a` reports.
pub open spec fn cmevla_error_at(a: Seq<char>, i: int, mz: bool, e: Jvofli) -> bool {
    let c = a[i];
    let before = before_at(a, i);
    let after = after_at(a, i);
    if c != '\'' && after == Some(c) {
        invalid_pair_spec(
            e,
            if consonant(c) {
                What::Cluster
            } else {
                What::Nucleus
            },
            c,
            c,
        )
    } else if hard_consonant(c) && after is Some && hard_consonant(after->0) && !valid_cluster(
        c,
        after->0,
        mz,
    ) {
        invalid_pair_spec(e, What::Cluster, c, after->0)
    } else if vowel(c) && after is Some && vowel(after->0) {
        invalid_pair_spec(e, What::Nucleus, c, after->0)
    } else if c == '\'' {
        e == Jvofli::MisplacedApostrophe { before, after }
    } else {
        e == Jvofli::OnglideInCluster(c)
    }
}

/// `e` reports the first letter of `a` that breaks a rule.
pub open spec fn first_fault(a: Seq<char>, mz: bool, e: Jvofli) -> bool {
    exists|i: int|
        #![trigger cmevla_error_at(a, i, mz, e)]
        0 <= i < a.len() && !cmevla_fine_at(a, i, mz) && (forall|j: int|
            0 <= j < i ==> cmevla_fine_at(a, j, mz)) && cmevla_error_at(a, i, mz, e)
}

proof fn lemma_first_fault(a: Seq<char>, mz: bool, e: Jvofli, i: int)
    requires
        0 <= i < a.len(),
        !cmevla_fine_at(a, i, mz),
        forall|j: int| 0 <= j < i ==> cmevla_fine_at(a, j, mz),
        cmevla_error_at(a, i, mz, e),
    ensures
        first_fault(a, mz, e),
{
}

/// Checks that `pg` (already known to end in a hard consonant) is a plausible
/// cmevla.
pub(crate) fn check_cmevla(pg: &[char], settings: Settings) -> (r: Result<(), Jvofli>)
    ensures
        match annotated(pg@) {
            None => r matches Err(e) && annotation_error(pg@, e),
            Some(a) => match r {
                Ok(()) => forall|i: int|
                    0 <= i < a.len() ==> cmevla_fine_at(a, i, settings.allow_mz),
                Err(e) => first_fault(a, settings.allow_mz, e),
            },
        },
{
    let chars = match annotate_glides(pg) {
        Ok(v) => v,
        Err(e) => {
            return Err(e);
        },
    };
    let ghost a = chars@;
    let ghost mz = settings.allow_mz;
    let n = chars.len();
    let mut i: usize = 0;
    while i < n
        invariant
            n == a.len(),
            a == chars@,
            mz == settings.allow_mz,
            annotated(pg@) == Some(a),
            i <= n,
            forall|j: int| 0 <= j < i ==> cmevla_fine_at(a, j, mz),
        decreases n - i,
    {
        let c = chars[i];
        let before = if i > 0 {
            Some(chars[i - 1])
        } else {
            None
        };
        let after = if i + 1 < n {
            Some(chars[i + 1])
        } else {
            None
        };
        assert(before == before_at(a, i as int));
        assert(after == after_at(a, i as int));
        if c != '\'' && after == Some(c) {
            let w = if is_consonant(c) {
                What::Cluster
            } else {
                What::Nucleus
            };
            let e = invalid_from_pair(w, c, c);
            proof {
                assert(!cmevla_fine_at(a, i as int, mz));
                assert(cmevla_error_at(a, i as int, mz, e));
                lemma_first_fault(a, mz, e, i as int);
            }
            return Err(e);
        }
        if is_hard_consonant(c) {
            if let Some(x) = after {
                if is_hard_consonant(x) && !is_valid_chars(c, x, settings) {
                    let e = invalid_from_pair(What::Cluster, c, x);
                    proof {
                        assert(!cmevla_fine_at(a, i as int, mz));
                        assert(cmevla_error_at(a, i as int, mz, e));
                        lemma_first_fault(a, mz, e, i as int);
                    }
                    return Err(e);
                }
            }
        }
        if is_vowel(c) {
            if let Some(x) = after {
                if is_vowel(x) {
                    let e = invalid_from_pair(What::Nucleus, c, x);
                    proof {
                        assert(!cmevla_fine_at(a, i as int, mz));
                        assert(cmevla_error_at(a, i as int, mz, e));
                        lemma_first_fault(a, mz, e, i as int);
                    }
                    return Err(e);
                }
            }
        }
        if c == '\'' {
            let before_ok = match before {
                Some(p) => is_vowel(p) || is_annotated_offglide(p),
                None => false,
            };
            let after_ok = match after {
                Some(x) => is_vowel(x),
                None => false,
            };
            if !(before_ok && after_ok) {
                let e = Jvofli::MisplacedApostrophe { before, after };
                proof {
                    assert(!cmevla_fine_at(a, i as int, mz));
                    assert(cmevla_error_at(a, i as int, mz, e));
                    lemma_first_fault(a, mz, e, i as int);
                }
                return Err(e);
            }
        } else if is_annotated_onglide(c) {
            let near = match before {
                Some(p) => is_consonant(p),
                None => false,
            } || match after {
                Some(x) => is_consonant(x),
                None => false,
            };
            if near {
                let e = Jvofli::OnglideInCluster(c);
                proof {
                    assert(!cmevla_fine_at(a, i as int, mz));
                    assert(cmevla_error_at(a, i as int, mz, e));
                    lemma_first_fault(a, mz, e, i as int);
                }
                return Err(e);
            }
        }
        i += 1;
    }
    Ok(())
}

/// The error that reports the glide fault `f`.
pub open spec fn glide_fault(f: GlideFault) -> Fault {
    match f {
        GlideFault::Stressed(c) => Fault::StressOnUnstressable(seq![c]),
        GlideFault::Long(c) => Fault::LongGlide(c),
        GlideFault::Pair(x, y) => Fault::Invalid(What::Diphthong, seq![x, y]),
    }
}

/// The index of the first letter of `s` that may not stand in a cmevla.
pub open spec fn first_non_letter(s: Seq<char>) -> int {
    choose|k: int|
        0 <= k < s.len() && !cmevla_letter(s[k]) && forall|j: int| 0 <= j < k ==> cmevla_letter(#[trigger] s[j])
}

/// The index of the first letter of the annotated `a` that breaks a rule.
pub open spec fn first_unfine(a: Seq<char>, mz: bool) -> int {
    choose|i: int|
        0 <= i < a.len() && !cmevla_fine_at(a, i, mz) && forall|j: int|
            0 <= j < i ==> cmevla_fine_at(a, j, mz)
}

/// The error for the first broken rule at `i` of the annotated `a`.
pub open spec fn cmevla_fault_at(a: Seq<char>, i: int, mz: bool) -> Fault {
    let c = a[i];
    let before = before_at(a, i);
    let after = after_at(a, i);
    if c != '\'' && after == Some(c) {
        Fault::Invalid(
            if consonant(c) {
                What::Cluster
            } else {
                What::Nucleus
            },
            seq![c, c],
        )
    } else if hard_consonant(c) && after is Some && hard_consonant(after->0) && !valid_cluster(
        c,
        after->0,
        mz,
    ) {
        Fault::Invalid(What::Cluster, seq![c, after->0])
    } else if vowel(c) && after is Some && vowel(after->0) {
        Fault::Invalid(What::Nucleus, seq![c, after->0])
    } else if c == '\'' {
        Fault::MisplacedApostrophe(before, after)
    } else {
        Fault::OnglideInCluster(c)
    }
}

/// The error that the cmevla check gives the text `t`: the first letter
/// that may not stand in a cmevla, else the fault of its glides, else the
/// first rule that its annotated letters break.
pub open spec fn cmevla_fault(t: Seq<char>, mz: bool) -> Fault {
    if !letters_ok(t) {
        Fault::NonLojbanCharacter(t[first_non_letter(t)])
    } else if glide_pass(t, 0) is Err {
        glide_fault(glide_pass(t, 0)->Err_0)
    } else {
        let a = glide_pass(t, 0)->Ok_0;
        cmevla_fault_at(a, first_unfine(a, mz), mz)
    }
}

/// An error that the cmevla check gives is the one `cmevla_fault` names.
pub proof fn lemma_cmevla_fault(t: Seq<char>, mz: bool, e: Jvofli)
    requires
        match annotated(t) {
            None => annotation_error(t, e),
            Some(a) => first_fault(a, mz, e),
        },
    ensures
        e@ == cmevla_fault(t, mz),
{
    if !letters_ok(t) {
        let k = choose|k: int|
            0 <= k < t.len() && !cmevla_letter(t[k]) && (forall|j: int|
                0 <= j < k ==> cmevla_letter(#[trigger] t[j])) && e == Jvofli::NonLojbanCharacter(t[k]);
        let f = first_non_letter(t);
        assert(0 <= f < t.len() && !cmevla_letter(t[f]));
        if f < k {
            assert(cmevla_letter(t[f]));
        } else if f > k {
            assert(cmevla_letter(t[k]));
        }
    } else if glide_pass(t, 0) is Err {
    } else {
        let a = glide_pass(t, 0)->Ok_0;
        let i = choose|i: int|
            0 <= i < a.len() && !cmevla_fine_at(a, i, mz) && (forall|j: int|
                0 <= j < i ==> cmevla_fine_at(a, j, mz)) && cmevla_error_at(a, i, mz, e);
        let f = first_unfine(a, mz);
        assert(0 <= f < a.len() && !cmevla_fine_at(a, f, mz));
        if f < i {
            assert(cmevla_fine_at(a, f, mz));
        } else if f > i {
            assert(cmevla_fine_at(a, i, mz));
        }
    }
}

} // verus!
