//! Syllabification of words in standard spelling, and recognizing cmavo.

use vstd::prelude::*;

use crate::data::{diphthong, is_diphthong_seq, is_offglide, is_onglide, is_vowel, plain_vowel};
use crate::jvofli::{invalid_cluster_from_triple, invalid_from_pair, invalid_pair_spec, Jvofli, What};
use crate::phonology::{
    banned_triple, cll_cluster, hard_consonant, hard_onset, initial_cluster, is_banned_triple_chars,
    is_cll_cluster, is_hard_consonant, is_hard_onset_chars, is_initial_chars, plain_glide, sonorant,
};
use crate::settings::Settings;
use crate::text::{collect_chars, string_of};

verus! {

/// A letter of standard or annotated spelling: a hard consonant, a plain
/// vowel, an annotated glide or the apostrophe.
pub open spec fn lojban_letter(c: char) -> bool {
    hard_consonant(c) || plain_vowel(c) || c == 'q' || c == 'w' || c == 'ĭ' || c == 'ŭ' || c
        == '\''
}

/// Checks if `s` only contains Lojban letters and returns `Ok(())` if so.
///
/// # Errors
/// Returns [`Jvofli::NonLojbanCharacter`] with the first letter that isn't
/// one.
pub fn check_lojban_only(s: &str) -> (r: Result<(), Jvofli>)
    ensures
        match r {
            Ok(()) => forall|k: int| 0 <= k < s@.len() ==> lojban_letter(#[trigger] s@[k]),
            Err(e) => exists|k: int|
                0 <= k < s@.len() && !lojban_letter(s@[k]) && (forall|j: int|
                    0 <= j < k ==> lojban_letter(#[trigger] s@[j])) && e
                    == Jvofli::NonLojbanCharacter(s@[k]),
        },
{
    let chars = collect_chars(s);
    let mut k: usize = 0;
    while k < chars.len()
        invariant
            k <= chars.len(),
            chars@ == s@,
            forall|j: int| 0 <= j < k ==> lojban_letter(#[trigger] s@[j]),
        decreases chars.len() - k,
    {
        let c = chars[k];
        if !(is_hard_consonant(c) || is_vowel(c) || is_onglide(c) || is_offglide(c) || c == '\'') {
            return Err(Jvofli::NonLojbanCharacter(c));
        }
        k += 1;
    }
    Ok(())
}

/// Why marking the glides of a word failed.
pub enum MarkFault {
    /// An offglide followed by the onglide of the same letter.
    Long(char),
    /// Two letters that do not form a diphthong.
    Pair(char, char),
}

/// `e` is the error that reports `f`.
pub open spec fn mark_reports(e: Jvofli, f: MarkFault) -> bool {
    match f {
        MarkFault::Long(c) => e == Jvofli::LongGlide(c),
        MarkFault::Pair(x, y) => invalid_pair_spec(e, What::Diphthong, x, y),
    }
}

/// Marks the letter at `i` of `cur`, everything after which is already
/// marked: an *i* or *u* before a vowel becomes an onglide (*q w*), one
/// after *a e o y* the offglide of a diphthong (*ĭ ŭ*).
pub open spec fn mark_step(cur: Seq<char>, i: int) -> Result<Seq<char>, MarkFault> {
    let c = cur[i];
    let on = if c == 'i' {
        'q'
    } else {
        'w'
    };
    let off = if c == 'i' {
        'ĭ'
    } else {
        'ŭ'
    };
    if !(c == 'i' || c == 'u') {
        Ok(cur)
    } else if i + 1 < cur.len() && plain_vowel(cur[i + 1]) {
        Ok(cur.update(i, on))
    } else if i > 0 && (cur[i - 1] == 'a' || cur[i - 1] == 'e' || cur[i - 1] == 'o' || cur[i - 1]
        == 'y') {
        if diphthong(seq![cur[i - 1], c]) {
            if i + 1 < cur.len() && cur[i + 1] == on {
                Err(MarkFault::Long(c))
            } else {
                Ok(cur.update(i, off))
            }
        } else {
            Err(MarkFault::Pair(cur[i - 1], c))
        }
    } else {
        Ok(cur)
    }
}

/// The letters of `s` with the glides from `i` on marked, right to left.
pub open spec fn mark_pass(s: Seq<char>, i: int) -> Result<Seq<char>, MarkFault>
    decreases s.len() - i,
{
    if i < 0 || i >= s.len() {
        Ok(s)
    } else {
        match mark_pass(s, i + 1) {
            Ok(cur) => mark_step(cur, i),
            Err(f) => Err(f),
        }
    }
}

proof fn lemma_mark_pass_len(s: Seq<char>, i: int)
    ensures
        mark_pass(s, i) matches Ok(cur) ==> cur.len() == s.len() && forall|k: int|
            0 <= k < i ==> cur[k] == s[k],
    decreases s.len() - i,
{
    if 0 <= i < s.len() {
        lemma_mark_pass_len(s, i + 1);
    }
}

/// `b` is `a`, or `a` respelled as a glide: *i* as *q* or *ĭ*, *u* as *w*
/// or *ŭ*.
pub open spec fn respelled(a: char, b: char) -> bool {
    b == a || (a == 'i' && (b == 'q' || b == 'ĭ')) || (a == 'u' && (b == 'w' || b == 'ŭ'))
}

/// Marking glides only respells *i* and *u*.
proof fn lemma_mark_pass_respells(s: Seq<char>, i: int)
    ensures
        mark_pass(s, i) matches Ok(cur) ==> cur.len() == s.len() && forall|k: int|
            0 <= k < s.len() ==> respelled(s[k], #[trigger] cur[k]),
    decreases s.len() - i,
{
    if 0 <= i < s.len() {
        lemma_mark_pass_respells(s, i + 1);
        lemma_mark_pass_len(s, i + 1);
    }
}

proof fn lemma_mark_err(s: Seq<char>, j: int, i: int)
    requires
        0 <= j <= i,
        mark_pass(s, i) is Err,
    ensures
        mark_pass(s, j) == mark_pass(s, i),
    decreases i - j,
{
    if j < i {
        lemma_mark_err(s, j + 1, i);
    }
}

/// Respells *i u* when they are onglides (as *q w*) or offglides (as *ĭ ŭ*).
///
/// # Errors
/// Returns [`Jvofli::LongGlide`] for an offglide followed by the same
/// letter as an onglide, and [`Jvofli::Invalid`] with [`What::Diphthong`]
/// for a falling pair that is not a diphthong.
pub fn mark_glides(input: &str) -> (r: Result<String, Jvofli>)
    ensures
        match r {
            Ok(out) => mark_pass(input@, 0) == Ok::<Seq<char>, MarkFault>(out@),
            Err(e) => mark_pass(input@, 0) matches Err(f) && mark_reports(e, f),
        },
        r matches Ok(out) ==> out@.len() == input@.len() && forall|k: int|
            0 <= k < input@.len() ==> respelled(input@[k], #[trigger] out@[k]),
{
    let mut chars = collect_chars(input);
    let ghost s = input@;
    let n = chars.len();
    let mut i = n;
    while i > 0
        invariant
            n == s.len(),
            s == input@,
            i <= n,
            mark_pass(s, i as int) == Ok::<Seq<char>, MarkFault>(chars@),
        decreases i,
    {
        i -= 1;
        proof {
            lemma_mark_pass_len(s, i + 1);
        }
        let c = chars[i];
        if c == 'i' || c == 'u' {
            let (on, off) = if c == 'i' {
                ('q', 'ĭ')
            } else {
                ('w', 'ŭ')
            };
            if i != n - 1 && is_vowel(chars[i + 1]) {
                chars.set(i, on);
            } else if i != 0 && (chars[i - 1] == 'a' || chars[i - 1] == 'e' || chars[i - 1] == 'o'
                || chars[i - 1] == 'y') {
                let before = chars[i - 1];
                let pair = vec![before, c];
                assert(pair@ =~= seq![before, c]);
                if is_diphthong_seq(&pair) {
                    chars.set(i, off);
                    if i + 1 < n && chars[i + 1] == on {
                        proof {
                            lemma_mark_err(s, 0, i as int);
                        }
                        return Err(Jvofli::LongGlide(c));
                    }
                } else {
                    let e = invalid_from_pair(What::Diphthong, before, c);
                    proof {
                        lemma_mark_err(s, 0, i as int);
                    }
                    return Err(e);
                }
            }
        }
    }
    proof {
        lemma_mark_pass_respells(s, 0);
    }
    Ok(string_of(&chars))
}


/// `parts` run together.
pub open spec fn flatten(parts: Seq<Seq<char>>) -> Seq<char>
    decreases parts.len(),
{
    if parts.len() == 0 {
        seq![]
    } else {
        flatten(parts.drop_last()) + parts.last()
    }
}

proof fn lemma_flatten_push(parts: Seq<Seq<char>>, p: Seq<char>)
    ensures
        flatten(parts.push(p)) == flatten(parts) + p,
{
    assert(parts.push(p).drop_last() =~= parts);
}

/// The views of some vectors of letters.
pub open spec fn views(v: Seq<Vec<char>>) -> Seq<Seq<char>> {
    v.map_values(|x: Vec<char>| x@)
}

/// Position `k` of `p` ends a nucleus: a vowel not followed by an offglide,
/// or an offglide.
pub open spec fn nucleus_end(p: Seq<char>, k: int) -> bool {
    (plain_vowel(p[k]) && !(k + 1 < p.len() && (p[k + 1] == 'ĭ' || p[k + 1] == 'ŭ'))) || p[k]
        == 'ĭ' || p[k] == 'ŭ'
}

/// `p` holds no nucleus end before its last letter.
pub open spec fn piece_ok(p: Seq<char>) -> bool {
    p.len() > 0 && forall|k: int| 0 <= k < p.len() - 1 ==> !#[trigger] nucleus_end(p, k)
}

/// `p` ends with a nucleus end.
pub open spec fn ends_nucleus(p: Seq<char>) -> bool {
    p.len() > 0 && nucleus_end(p, p.len() - 1)
}

/// Piece `q` may follow piece `p`: `p` does not end in a vowel that an
/// offglide at the start of `q` belongs to.
pub open spec fn pieces_meet(p: Seq<char>, q: Seq<char>) -> bool {
    !(plain_vowel(p.last()) && (q[0] == 'ĭ' || q[0] == 'ŭ'))
}

/// Splits some text after diphthongs and single vowels.
pub(crate) fn split_after_nuclei(s: &Vec<char>) -> (pieces: Vec<Vec<char>>)
    ensures
        flatten(views(pieces@)) == s@,
        forall|j: int| 0 <= j < pieces.len() ==> piece_ok(#[trigger] pieces@[j]@),
        forall|j: int| 0 <= j < pieces.len() - 1 ==> ends_nucleus(#[trigger] pieces@[j]@),
        forall|j: int|
            0 <= j < pieces.len() - 1 ==> pieces_meet(#[trigger] pieces@[j]@, pieces@[j + 1]@),
{
    let n = s.len();
    let mut pieces: Vec<Vec<char>> = Vec::new();
    let mut current: Vec<char> = Vec::new();
    let mut i: usize = 0;
    proof {
        assert(views(pieces@) =~= seq![]);
    }
    while i < n
        invariant
            n == s.len(),
            i <= n,
            flatten(views(pieces@)) + current@ == s@.take(i as int),
            forall|j: int| 0 <= j < pieces.len() ==> piece_ok(#[trigger] pieces@[j]@),
            forall|j: int| 0 <= j < pieces.len() ==> ends_nucleus(#[trigger] pieces@[j]@),
            forall|k: int|
                0 <= k < current@.len() ==> !#[trigger] nucleus_end(s@, i - current@.len() + k),
            current@ == s@.subrange(i - current@.len(), i as int),
            forall|j: int|
                0 <= j < pieces.len() - 1 ==> pieces_meet(#[trigger] pieces@[j]@, pieces@[j + 1]@),
            pieces.len() > 0 ==> pieces@.last()@.len() > 0 && i - current@.len() - 1 >= 0
                && nucleus_end(s@, i - current@.len() - 1) && pieces@.last()@.last() == s@[i
                - current@.len() - 1],
        decreases n - i,
    {
        let c = s[i];
        let next_is_off = i + 1 < n && is_offglide(s[i + 1]);
        current.push(c);
        i += 1;
        assert(s@.take(i as int) =~= s@.take(i - 1).push(c));
        if (is_vowel(c) && !next_is_off) || is_offglide(c) {
            let ghost before = pieces@;
            let ghost cur = current@;
            proof {
                assert(nucleus_end(s@, i - 1));
                assert(cur[0] == s@[i - cur.len()]);
                assert forall|k: int| 0 <= k < cur.len() - 1 implies !#[trigger] nucleus_end(cur, k) by {
                    assert(cur[k] == s@[i - cur.len() + k]);
                    assert(k + 1 < cur.len() ==> cur[k + 1] == s@[i - cur.len() + k + 1]);
                    assert(!nucleus_end(s@, i - 1 - (cur.len() - 1) + k));
                }
            }
            pieces.push(current);
            current = Vec::new();
            proof {
                assert(views(pieces@) =~= views(before).push(cur));
                lemma_flatten_push(views(before), cur);
                assert forall|j: int| 0 <= j < pieces.len() implies piece_ok(#[trigger] pieces@[j]@) by {
                    if j < before.len() {
                        assert(pieces@[j] == before[j]);
                    }
                }
                assert forall|j: int| 0 <= j < pieces.len() implies ends_nucleus(
                    #[trigger] pieces@[j]@,
                ) by {
                    if j < before.len() {
                        assert(pieces@[j] == before[j]);
                    }
                }
                assert forall|j: int| 0 <= j < pieces.len() - 1 implies pieces_meet(
                    #[trigger] pieces@[j]@,
                    pieces@[j + 1]@,
                ) by {
                    assert(pieces@[j] == before[j]);
                }
            }
        } else {
            proof {
                assert(!nucleus_end(s@, i - 1));
            }
        }
    }
    if current.len() > 0 {
        let ghost before = pieces@;
        let ghost cur = current@;
        proof {
            assert(cur[0] == s@[n - cur.len()]);
            assert forall|k: int| 0 <= k < cur.len() - 1 implies !#[trigger] nucleus_end(cur, k) by {
                assert(cur[k] == s@[n - cur.len() + k]);
                assert(k + 1 < cur.len() ==> cur[k + 1] == s@[n - cur.len() + k + 1]);
                assert(!nucleus_end(s@, n - cur.len() + k));
            }
        }
        pieces.push(current);
        proof {
            assert(views(pieces@) =~= views(before).push(cur));
            lemma_flatten_push(views(before), cur);
            assert forall|j: int| 0 <= j < pieces.len() implies piece_ok(#[trigger] pieces@[j]@) by {
                if j < before.len() {
                    assert(pieces@[j] == before[j]);
                }
            }
            assert forall|j: int| 0 <= j < pieces.len() - 1 implies ends_nucleus(
                #[trigger] pieces@[j]@,
            ) by {
                assert(pieces@[j] == before[j]);
            }
            assert forall|j: int| 0 <= j < pieces.len() - 1 implies pieces_meet(
                #[trigger] pieces@[j]@,
                pieces@[j + 1]@,
            ) by {
                assert(pieces@[j] == before[j]);
            }
        }
    } else {
        assert(flatten(views(pieces@)) + current@ =~= flatten(views(pieces@)));
    }
    assert(s@.take(n as int) =~= s@);
    pieces
}

/// The pairs of `chars` are consonantal syllables: a hard consonant and a
/// different sonorant.
pub open spec fn consonantal_pairs(chars: Seq<char>) -> bool {
    forall|j: int|
        0 <= j < chars.len() / 2 ==> hard_consonant(#[trigger] chars[2 * j]) && sonorant(
            chars[2 * j + 1],
        ) && chars[2 * j] != chars[2 * j + 1]
}

/// The run `c` starts with a coda: an odd number of letters, a hard
/// consonant first, and consonantal syllables after it.
pub open spec fn coda_taken(c: Seq<char>) -> bool {
    c.len() % 2 == 1 && hard_consonant(c[0]) && consonantal_pairs(c.drop_first())
}

/// The letters `x` cut into pieces of two letters each.
pub open spec fn pairs_split(x: Seq<char>) -> Seq<Seq<char>> {
    Seq::new((x.len() / 2) as nat, |i: int| x.subrange(2 * i, 2 * i + 2))
}

/// Pieces of two letters each that run together into `x` are the pieces
/// of two letters of `x`.
proof fn lemma_pairs_split(v: Seq<Seq<char>>, x: Seq<char>)
    requires
        forall|j: int| 0 <= j < v.len() ==> (#[trigger] v[j]).len() == 2,
        flatten(v) == x,
    ensures
        v == pairs_split(x),
        x.len() == 2 * v.len(),
    decreases v.len(),
{
    if v.len() == 0 {
        assert(pairs_split(x) =~= v);
    } else {
        let w = v.drop_last();
        let y = flatten(w);
        assert forall|j: int| 0 <= j < w.len() implies (#[trigger] w[j]).len() == 2 by {
            assert(w[j] == v[j]);
        }
        lemma_pairs_split(w, y);
        assert(x == y + v.last());
        assert forall|i: int| 0 <= i < v.len() implies v[i] == pairs_split(x)[i] by {
            if i < w.len() {
                assert(w[i] == pairs_split(y)[i]);
                assert(x.subrange(2 * i, 2 * i + 2) =~= y.subrange(2 * i, 2 * i + 2));
            } else {
                assert(x.subrange(2 * i, 2 * i + 2) =~= v.last());
            }
        }
        assert(v =~= pairs_split(x));
    }
}

/// The syllables `v` once the consonants `c` close the last of them with a
/// coda (where `coda_taken` says so) and add consonantal syllables.
pub open spec fn with_coda(v: Seq<Seq<char>>, c: Seq<char>) -> Seq<Seq<char>> {
    if coda_taken(c) {
        v.drop_last().push(v.last().push(c[0])) + pairs_split(c.drop_first())
    } else {
        v + pairs_split(c)
    }
}

/// The run `c` is an optional coda followed by consonantal syllables.
pub open spec fn coda_run_ok(c: Seq<char>) -> bool {
    c.len() == 0 || coda_taken(c) || (c.len() % 2 == 0 && consonantal_pairs(c))
}

/// Nicely packages consonantal syllables.
///
/// Fails with [`Jvofli::Invalid`] and [`What::ConsonantalSyllable`] at the
/// first pair that isn't one.
fn as_consonantal_syllables(chars: &[char]) -> (r: Result<Vec<Vec<char>>, Jvofli>)
    requires
        chars.len() % 2 == 0,
    ensures
        r is Ok <==> consonantal_pairs(chars@),
        r matches Ok(v) ==> flatten(views(v@)) == chars@ && v.len() == chars.len() / 2 && forall|
            j: int,
        | 0 <= j < v.len() ==> consonantal_chars((#[trigger] v@[j])@),
{
    let n = chars.len();
    let mut syllables: Vec<Vec<char>> = Vec::new();
    let mut j: usize = 0;
    proof {
        assert(views(syllables@) =~= seq![]);
    }
    while j < n / 2
        invariant
            n == chars.len(),
            n % 2 == 0,
            j <= n / 2,
            syllables.len() == j,
            flatten(views(syllables@)) == chars@.take(2 * j),
            forall|k: int| 0 <= k < j ==> consonantal_chars((#[trigger] syllables@[k])@),
            forall|k: int|
                0 <= k < j ==> hard_consonant(#[trigger] chars@[2 * k]) && sonorant(
                    chars@[2 * k + 1],
                ) && chars@[2 * k] != chars@[2 * k + 1],
        decreases n / 2 - j,
    {
        let first = chars[2 * j];
        let second = chars[2 * j + 1];
        if !(is_hard_consonant(first) && crate::phonology::is_sonorant(second) && first != second) {
            let e = invalid_from_pair(What::ConsonantalSyllable, first, second);
            assert(!(hard_consonant(chars@[2 * j]) && sonorant(chars@[2 * j + 1]) && chars@[2 * j]
                != chars@[2 * j + 1]));
            return Err(e);
        }
        let pair = vec![first, second];
        let ghost before = syllables@;
        syllables.push(pair);
        j += 1;
        proof {
            assert(views(syllables@) =~= views(before).push(seq![first, second]));
            lemma_flatten_push(views(before), seq![first, second]);
            assert(chars@.take(2 * j) =~= chars@.take(2 * (j - 1)) + seq![first, second]);
            assert forall|k: int| 0 <= k < j implies consonantal_chars((#[trigger] syllables@[k])@) by {
                if k < j - 1 {
                    assert(syllables@[k] == before[k]);
                }
            }
        }
    }
    assert(chars@.take(n as int) =~= chars@);
    assert(j == n / 2);
    assert forall|k: int| 0 <= k < chars@.len() / 2 implies hard_consonant(
        #[trigger] chars@[2 * k],
    ) && sonorant(chars@[2 * k + 1]) && chars@[2 * k] != chars@[2 * k + 1] by {
        assert(0 <= k < j);
    }
    assert(consonantal_pairs(chars@));
    Ok(syllables)
}

/// Extracts a coda from a list of consonants, and splits the rest into
/// consonantal syllables if possible.
///
/// Fails with [`Jvofli::Invalid`] and [`What::ConsonantRun`] if the run
/// can't be split so.
fn parse_previous_coda(chars: &[char]) -> (r: Result<(Option<char>, Vec<Vec<char>>), Jvofli>)
    ensures
        r is Ok <==> coda_run_ok(chars@),
        r matches Ok((coda, v)) ==> (coda is Some <==> coda_taken(chars@)),
        r matches Ok((coda, v)) ==> {
            &&& flatten(views(v@)) == match coda {
                Some(c) => chars@.drop_first(),
                None => chars@,
            }
            &&& (coda matches Some(c) ==> chars.len() > 0 && c == chars@[0] && hard_consonant(c))
            &&& forall|j: int| 0 <= j < v.len() ==> consonantal_chars((#[trigger] v@[j])@)
        },
{
    let n = chars.len();
    if n == 0 {
        let v: Vec<Vec<char>> = Vec::new();
        assert(views(v@) =~= seq![]);
        return Ok((None, v));
    }
    if (n - 1) % 2 == 0 && is_hard_consonant(chars[0]) {
        let rest = &chars[1..n];
        assert(rest@ =~= chars@.drop_first());
        if let Ok(syllables) = as_consonantal_syllables(rest) {
            return Ok((Some(chars[0]), syllables));
        }
    }
    if n % 2 == 0 {
        if let Ok(syllables) = as_consonantal_syllables(chars) {
            return Ok((None, syllables));
        }
    }
    Err(Jvofli::Invalid { what: What::ConsonantRun, value: string_of(chars) })
}

/// A consonantal syllable: a hard consonant and a different sonorant.
pub open spec fn consonantal_chars(x: Seq<char>) -> bool {
    x.len() == 2 && hard_consonant(x[0]) && sonorant(x[1]) && x[0] != x[1]
}

/// An onset in annotated spelling: none (only word-initially), the
/// apostrophe (never word-initially), an onglide, or a hard onset.
pub open spec fn onset_form(o: Seq<char>, first: bool) -> bool {
    ||| (o.len() == 0 && first)
    ||| (o == seq!['\''] && !first)
    ||| (o.len() == 1 && (o[0] == 'q' || o[0] == 'w'))
    ||| hard_onset(o)
}

/// A vocalic nucleus: a plain vowel, alone or followed by an offglide.
pub open spec fn vowel_nucleus(n: Seq<char>) -> bool {
    ||| (n.len() == 1 && plain_vowel(n[0]))
    ||| (n.len() == 2 && plain_vowel(n[0]) && (n[1] == 'ĭ' || n[1] == 'ŭ'))
}

/// An open syllable: an onset, then a vocalic nucleus.
pub open spec fn open_syllable(x: Seq<char>, first: bool) -> bool {
    exists|ol: int|
        0 <= ol <= x.len() && #[trigger] onset_form(x.take(ol), first) && vowel_nucleus(x.skip(ol))
}

/// A syllable of a word (`first` says whether it starts the word): an open
/// syllable, an open syllable closed by a hard consonant, or a consonantal
/// syllable.
pub open spec fn syllable_form(x: Seq<char>, first: bool) -> bool {
    ||| open_syllable(x, first)
    ||| (x.len() > 0 && hard_consonant(x.last()) && open_syllable(x.drop_last(), first))
    ||| consonantal_chars(x)
}

/// Every one of `v` is a syllable of a word whose syllables start with `v`.
pub open spec fn syllables_form(v: Seq<Seq<char>>) -> bool {
    forall|j: int| 0 <= j < v.len() ==> syllable_form(#[trigger] v[j], j == 0)
}

/// The last of `v`, if there is one, is an open syllable.
pub open spec fn last_open(v: Seq<Seq<char>>) -> bool {
    v.len() > 0 ==> open_syllable(v.last(), v.len() == 1)
}

proof fn lemma_forms_push(v: Seq<Seq<char>>, x: Seq<char>)
    requires
        syllables_form(v),
        syllable_form(x, v.len() == 0),
    ensures
        syllables_form(v.push(x)),
{
    assert forall|j: int| 0 <= j < v.push(x).len() implies syllable_form(
        #[trigger] v.push(x)[j],
        j == 0,
    ) by {
        if j < v.len() {
            assert(v.push(x)[j] == v[j]);
        }
    }
}

/// Closing the last, open, syllable with a hard consonant keeps the
/// syllables valid.
proof fn lemma_forms_close(v: Seq<Seq<char>>, c: char)
    requires
        syllables_form(v),
        last_open(v),
        v.len() > 0,
        hard_consonant(c),
    ensures
        syllables_form(v.drop_last().push(v.last().push(c))),
{
    let w = v.drop_last().push(v.last().push(c));
    assert(v.last().push(c).drop_last() =~= v.last());
    assert forall|j: int| 0 <= j < w.len() implies syllable_form(#[trigger] w[j], j == 0) by {
        if j < v.len() - 1 {
            assert(w[j] == v[j]);
        }
    }
}

/// Consonantal syllables may follow any syllables.
proof fn lemma_forms_consonantal(v: Seq<Seq<char>>, cs: Seq<Seq<char>>)
    requires
        syllables_form(v),
        forall|j: int| 0 <= j < cs.len() ==> consonantal_chars(#[trigger] cs[j]),
    ensures
        syllables_form(v + cs),
{
    assert forall|j: int| 0 <= j < (v + cs).len() implies syllable_form(
        #[trigger] (v + cs)[j],
        j == 0,
    ) by {
        if j < v.len() {
            assert((v + cs)[j] == v[j]);
        } else {
            assert((v + cs)[j] == cs[j - v.len()]);
        }
    }
}

/// A piece that holds a vowel ends with its nucleus.
proof fn lemma_piece_vowel_end(p: Seq<char>)
    requires
        piece_ok(p),
        has_vowel(p),
    ensures
        ends_nucleus(p),
{
    let k = choose|k: int| 0 <= k < p.len() && plain_vowel(#[trigger] p[k]);
    if k < p.len() - 1 {
        assert(!nucleus_end(p, k));
        if k + 1 < p.len() - 1 {
            assert(!nucleus_end(p, k + 1));
        }
    }
}

/// Every part of `parts` holds letters.
pub open spec fn all_nonempty(parts: Seq<Seq<char>>) -> bool {
    forall|j: int| 0 <= j < parts.len() ==> (#[trigger] parts[j]).len() > 0
}

/// Moves the last syllable of `sylls` out and back with `c` appended.
fn append_to_last(sylls: &mut Vec<Vec<char>>, c: char)
    requires
        old(sylls).len() > 0,
        all_nonempty(views(old(sylls)@)),
    ensures
        flatten(views(final(sylls)@)) == flatten(views(old(sylls)@)).push(c),
        final(sylls).len() == old(sylls).len(),
        all_nonempty(views(final(sylls)@)),
        views(final(sylls)@) == views(old(sylls)@).drop_last().push(
            views(old(sylls)@).last().push(c),
        ),
{
    let ghost before = sylls@;
    let mut prev = sylls.pop().unwrap();
    let ghost rest = sylls@;
    let ghost p0 = prev@;
    proof {
        assert(before =~= rest.push(prev));
        assert(views(before) =~= views(rest).push(p0));
        lemma_flatten_push(views(rest), p0);
    }
    prev.push(c);
    let ghost p1 = prev@;
    sylls.push(prev);
    proof {
        assert(views(sylls@) =~= views(rest).push(p1));
        lemma_flatten_push(views(rest), p1);
        assert(flatten(views(rest)) + p1 =~= (flatten(views(rest)) + p0).push(c));
        assert(views(before).drop_last() =~= views(rest));
        assert forall|j: int| 0 <= j < views(sylls@).len() implies (#[trigger] views(sylls@)[j]).len()
            > 0 by {
            if j < rest.len() {
                assert(views(sylls@)[j] == views(before)[j]);
            }
        }
    }
}

/// Appends the syllables `cs` to `sylls`.
fn push_all(sylls: &mut Vec<Vec<char>>, cs: Vec<Vec<char>>)
    requires
        all_nonempty(views(old(sylls)@)),
        all_nonempty(views(cs@)),
    ensures
        flatten(views(final(sylls)@)) == flatten(views(old(sylls)@)) + flatten(views(cs@)),
        final(sylls).len() == old(sylls).len() + cs.len(),
        all_nonempty(views(final(sylls)@)),
        views(final(sylls)@) == views(old(sylls)@) + views(cs@),
{
    let ghost start = sylls@;
    let mut k: usize = 0;
    proof {
        assert(views(cs@.take(0)) =~= seq![]);
    }
    while k < cs.len()
        invariant
            k <= cs.len(),
            all_nonempty(views(cs@)),
            all_nonempty(views(sylls@)),
            sylls.len() == start.len() + k,
            flatten(views(sylls@)) == flatten(views(start)) + flatten(views(cs@.take(k as int))),
            views(sylls@) == views(start) + views(cs@.take(k as int)),
        decreases cs.len() - k,
    {
        let ghost before = sylls@;
        let x = cs[k].clone();
        assert(x@ == cs@[k as int]@);
        sylls.push(x);
        k += 1;
        proof {
            assert(views(sylls@) =~= views(before).push(x@));
            lemma_flatten_push(views(before), x@);
            assert(views(cs@.take(k as int)) =~= views(cs@.take(k - 1)).push(x@));
            assert(views(sylls@) =~= views(start) + views(cs@.take(k as int)));
            lemma_flatten_push(views(cs@.take(k - 1)), x@);
            assert(views(cs@)[k - 1] == x@);
            assert forall|j: int| 0 <= j < views(sylls@).len() implies (#[trigger] views(
                sylls@,
            )[j]).len() > 0 by {
                if j < before.len() {
                    assert(views(sylls@)[j] == views(before)[j]);
                }
            }
        }
    }
    assert(cs@.take(cs.len() as int) =~= cs@);
}

/// An onglide or the apostrophe, which no coda may hold.
pub open spec fn glide_or_h(c: char) -> bool {
    c == 'q' || c == 'w' || c == '\''
}

/// The letters `c` before the consonant `next` (if any) can close the last
/// of the syllables (if `has_prev`) and add consonantal syllables: without
/// a consonant after them they hold no onglide or apostrophe, they are an
/// optional coda and consonantal syllables, and a coda has a syllable to
/// close and forms a valid cluster with the consonant after it.
pub open spec fn coda_apply_ok(c: Seq<char>, next: Option<char>, has_prev: bool) -> bool {
    &&& (next is None ==> forall|k: int| 0 <= k < c.len() ==> !glide_or_h(#[trigger] c[k]))
    &&& coda_run_ok(c)
    &&& (coda_taken(c) ==> has_prev && match (if c.len() > 1 {
        Some(c[1])
    } else {
        next
    }) {
        Some(x) => cll_cluster(c[0], x),
        None => true,
    })
}

/// The first letter of parts of two letters each is the first letter of
/// what they spell.
proof fn lemma_flatten_first(parts: Seq<Seq<char>>)
    requires
        parts.len() > 0,
        forall|j: int| 0 <= j < parts.len() ==> (#[trigger] parts[j]).len() == 2,
    ensures
        flatten(parts).len() > 0 && flatten(parts)[0] == parts[0][0],
    decreases parts.len(),
{
    if parts.len() > 1 {
        let init = parts.drop_last();
        assert forall|j: int| 0 <= j < init.len() implies (#[trigger] init[j]).len() == 2 by {
            assert(init[j] == parts[j]);
        }
        lemma_flatten_first(init);
        assert(flatten(parts) == flatten(init) + parts.last());
        assert(init[0] == parts[0]);
    } else {
        assert(parts.drop_last() =~= Seq::<Seq<char>>::empty());
        assert(flatten(parts) == flatten(parts.drop_last()) + parts.last());
        assert(flatten(Seq::<Seq<char>>::empty()) =~= seq![]);
    }
}

/// Applies a parsed coda to the syllable list.
///
/// # Errors
/// Fails if the letters cannot be a coda and consonantal syllables, if the
/// cluster at the syllable boundary is invalid, or if there is no previous
/// syllable for a coda to attach to.
fn apply_coda(sylls: &mut Vec<Vec<char>>, chars: &[char], next_consonant: Option<char>) -> (r:
    Result<(), Jvofli>)
    requires
        old(sylls).len() > 0 || next_consonant is Some,
        all_nonempty(views(old(sylls)@)),
        syllables_form(views(old(sylls)@)),
        last_open(views(old(sylls)@)),
    ensures
        r is Ok <==> coda_apply_ok(chars@, next_consonant, old(sylls).len() > 0),
        r is Ok ==> views(final(sylls)@) == with_coda(views(old(sylls)@), chars@),
        r is Ok ==> {
            &&& flatten(views(final(sylls)@)) == flatten(views(old(sylls)@)) + chars@
            &&& final(sylls).len() >= old(sylls).len()
            &&& all_nonempty(views(final(sylls)@))
            &&& syllables_form(views(final(sylls)@))
        },
{
    if next_consonant.is_none() {
        let mut k: usize = 0;
        while k < chars.len()
            invariant
                k <= chars.len(),
                next_consonant is None,
                forall|j: int| 0 <= j < k ==> !glide_or_h(#[trigger] chars@[j]),
            decreases chars.len() - k,
        {
            if is_onglide(chars[k]) || chars[k] == '\'' {
                assert(glide_or_h(chars@[k as int]));
                return Err(Jvofli::Invalid { what: What::ConsonantRun, value: string_of(chars) });
            }
            k += 1;
        }
    }
    let (coda, cs) = match parse_previous_coda(chars) {
        Ok(x) => x,
        Err(e) => {
            return Err(e);
        },
    };
    proof {
        if cs.len() > 0 {
            assert forall|j: int| 0 <= j < views(cs@).len() implies (#[trigger] views(
                cs@,
            )[j]).len() == 2 by {
                assert(cs@[j]@.len() == 2);
            }
            lemma_flatten_first(views(cs@));
            assert(views(cs@)[0] == cs@[0]@);
        } else {
            assert(views(cs@) =~= Seq::<Seq<char>>::empty());
            assert(flatten(Seq::<Seq<char>>::empty()) =~= seq![]);
        }
    }
    proof {
        assert forall|j: int| 0 <= j < views(cs@).len() implies (#[trigger] views(cs@)[j]).len()
            > 0 by {
            assert(cs@[j]@.len() == 2);
        }
    }
    if let Some(coda) = coda {
        let next = if cs.len() > 0 {
            assert(cs@[0]@.len() == 2);
            Some(cs[0][0])
        } else {
            next_consonant
        };
        if let Some(c) = next {
            if !is_cll_cluster(coda, c) {
                return Err(invalid_from_pair(What::Cluster, coda, c));
            }
        }
        if sylls.len() == 0 {
            let c = match next {
                Some(c) => c,
                None => {
                    proof {
                        assert(false);
                    }
                    coda
                },
            };
            return Err(invalid_from_pair(What::Cluster, coda, c));
        }
        let ghost v0 = views(sylls@);
        append_to_last(sylls, coda);
        proof {
            lemma_forms_close(v0, coda);
        }
        let ghost mid = flatten(views(sylls@));
        let ghost v1 = views(sylls@);
        proof {
            lemma_pairs_split(views(cs@), chars@.drop_first());
        }
        push_all(sylls, cs);
        proof {
            assert(chars@ =~= seq![coda] + chars@.drop_first());
            lemma_forms_consonantal(v1, views(cs@));
        }
    } else {
        let ghost v1 = views(sylls@);
        proof {
            lemma_pairs_split(views(cs@), chars@);
        }
        push_all(sylls, cs);
        proof {
            lemma_forms_consonantal(v1, views(cs@));
        }
    }
    Ok(())
}

/// Every letter of `s` is a Lojban letter.
pub open spec fn all_lojban(s: Seq<char>) -> bool {
    forall|k: int| 0 <= k < s.len() ==> lojban_letter(#[trigger] s[k])
}

/// `s` holds a vowel.
pub open spec fn has_vowel(s: Seq<char>) -> bool {
    exists|k: int| 0 <= k < s.len() && plain_vowel(#[trigger] s[k])
}

/// Marking glides writes only Lojban letters.
proof fn lemma_mark_pass_letters(s: Seq<char>, i: int)
    requires
        all_lojban(s),
    ensures
        mark_pass(s, i) matches Ok(cur) ==> all_lojban(cur),
    decreases s.len() - i,
{
    if 0 <= i < s.len() {
        lemma_mark_pass_letters(s, i + 1);
        lemma_mark_pass_len(s, i + 1);
    }
}

/// The parts of a text of Lojban letters hold Lojban letters.
proof fn lemma_parts_letters(parts: Seq<Seq<char>>, j: int)
    requires
        all_lojban(flatten(parts)),
        0 <= j < parts.len(),
    ensures
        all_lojban(parts[j]),
    decreases parts.len(),
{
    let init = parts.drop_last();
    assert(flatten(parts) == flatten(init) + parts.last());
    if j == parts.len() - 1 {
        assert forall|k: int| 0 <= k < parts[j].len() implies lojban_letter(#[trigger] parts[j][k]) by {
            assert(flatten(parts)[flatten(init).len() + k] == parts[j][k]);
        }
    } else {
        assert forall|k: int| 0 <= k < flatten(init).len() implies lojban_letter(
            #[trigger] flatten(init)[k],
        ) by {
            assert(flatten(parts)[k] == flatten(init)[k]);
        }
        lemma_parts_letters(init, j);
        assert(init[j] == parts[j]);
    }
}

/// Adds the open syllable of the hard onset `hard` and the nucleus
/// `nucleus` to `sylls`.
fn push_open_syllable(sylls: &mut Vec<Vec<char>>, hard: &[char], nucleus: &[char])
    requires
        hard_onset(hard@),
        vowel_nucleus(nucleus@),
        all_nonempty(views(old(sylls)@)),
        syllables_form(views(old(sylls)@)),
    ensures
        views(final(sylls)@) == views(old(sylls)@).push(hard@ + nucleus@),
        flatten(views(final(sylls)@)) == flatten(views(old(sylls)@)) + (hard@ + nucleus@),
        all_nonempty(views(final(sylls)@)),
        syllables_form(views(final(sylls)@)),
        last_open(views(final(sylls)@)),
{
    let mut syllable: Vec<char> = Vec::new();
    let mut k: usize = 0;
    while k < hard.len()
        invariant
            k <= hard.len(),
            syllable@ == hard@.take(k as int),
        decreases hard.len() - k,
    {
        syllable.push(hard[k]);
        k += 1;
        assert(hard@.take(k as int) =~= hard@.take(k - 1).push(hard@[k - 1]));
    }
    let mut j: usize = 0;
    while j < nucleus.len()
        invariant
            j <= nucleus.len(),
            syllable@ == hard@.take(hard.len() as int) + nucleus@.take(j as int),
        decreases nucleus.len() - j,
    {
        syllable.push(nucleus[j]);
        j += 1;
        assert(nucleus@.take(j as int) =~= nucleus@.take(j - 1).push(nucleus@[j - 1]));
    }
    let ghost before = sylls@;
    let ghost sy = syllable@;
    proof {
        assert(hard@.take(hard.len() as int) =~= hard@);
        assert(nucleus@.take(nucleus.len() as int) =~= nucleus@);
        assert(sy =~= hard@ + nucleus@);
        assert(sy.take(hard.len() as int) =~= hard@);
        assert(sy.skip(hard.len() as int) =~= nucleus@);
        assert(onset_form(sy.take(hard.len() as int), views(before).len() == 0));
        assert(onset_form(sy.take(hard.len() as int), views(before).len() + 1 == 1));
        lemma_forms_push(views(before), sy);
    }
    sylls.push(syllable);
    proof {
        assert(views(sylls@) =~= views(before).push(sy));
        lemma_flatten_push(views(before), sy);
        assert forall|i: int| 0 <= i < views(sylls@).len() implies (#[trigger] views(sylls@)[i]).len()
            > 0 by {
            if i < before.len() {
                assert(views(sylls@)[i] == views(before)[i]);
            }
        }
    }
}

/// Parts of two letters each spell some letters just when there are any.
proof fn lemma_parts_nonempty(parts: Seq<Seq<char>>)
    requires
        forall|j: int| 0 <= j < parts.len() ==> (#[trigger] parts[j]).len() == 2,
    ensures
        (parts.len() > 0) == (flatten(parts).len() > 0),
{
    if parts.len() > 0 {
        lemma_flatten_first(parts);
    } else {
        assert(parts =~= Seq::<Seq<char>>::empty());
        assert(flatten(parts) =~= seq![]);
    }
}

/// The consonants `p` before a hard onset leave consonantal syllables
/// after their coda, if any.
pub open spec fn leaves_consonantal(p: Seq<char>) -> bool {
    if coda_taken(p) {
        p.len() > 1
    } else {
        p.len() > 0
    }
}

/// The onset `o` splits with a hard onset of its last `k` letters: those
/// are a hard onset, the letters before them an optional coda and
/// consonantal syllables, the coda (with no consonantal syllables) or the
/// last consonantal syllable forms a valid cluster with the hard onset, and
/// coda and hard onset make no banned triple.
pub open spec fn scary_split_at(o: Seq<char>, k: int) -> bool {
    let n = o.len() as int;
    let hard = o.subrange(n - k, n);
    let p = o.subrange(0, n - k);
    &&& hard_onset(hard)
    &&& coda_run_ok(p)
    &&& !(coda_taken(p) && p.len() == 1 && !cll_cluster(p[0], hard[0]))
    &&& !(leaves_consonantal(p) && !cll_cluster(p.last(), hard[0]))
    &&& !(coda_taken(p) && k >= 2 && banned_triple(p[0], hard[0], hard[1]))
}

/// The onset `o` (no hard onset) splits: the longest hard onset with which
/// it splits (of at most three letters) leaves letters that can close the
/// last syllable (if `has_prev`) and add consonantal syllables.
pub open spec fn scary_ok(o: Seq<char>, has_prev: bool) -> bool {
    let n = o.len() as int;
    let m = if n < 3 {
        n
    } else {
        3
    };
    exists|k: int|
        1 <= k <= m && #[trigger] scary_split_at(o, k) && (forall|j: int|
            k < j <= m ==> !scary_split_at(o, j)) && coda_apply_ok(
            o.subrange(0, n - k),
            Some(o[n - k]),
            has_prev,
        )
}

/// `k` is the length of the longest hard onset (of at most three
/// letters) with which the onset `o` splits.
pub open spec fn longest_scary(o: Seq<char>, k: int) -> bool {
    let m = if o.len() < 3 {
        o.len() as int
    } else {
        3
    };
    &&& 1 <= k <= m
    &&& scary_split_at(o, k)
    &&& forall|j: int| k < j <= m ==> !scary_split_at(o, j)
}

/// The length of the longest hard onset with which the onset `o` splits.
pub open spec fn scary_len(o: Seq<char>) -> int {
    choose|k: int| longest_scary(o, k)
}

/// The longest split is the one `scary_len` names.
proof fn lemma_scary_len(o: Seq<char>, k: int)
    requires
        longest_scary(o, k),
    ensures
        scary_len(o) == k,
{
    let c = scary_len(o);
    assert(longest_scary(o, c));
    if c < k {
        assert(!scary_split_at(o, k));
    } else if c > k {
        assert(!scary_split_at(o, c));
    }
}

/// The syllables `v` once the onset `o` (no hard onset) and the nucleus
/// `nuc` are added: the letters before the longest hard onset close the
/// last syllable and add consonantal syllables, and the hard onset starts
/// a syllable with the nucleus.
pub open spec fn with_scary(v: Seq<Seq<char>>, o: Seq<char>, nuc: Seq<char>) -> Seq<Seq<char>> {
    let k = scary_len(o);
    with_coda(v, o.subrange(0, o.len() - k)).push(o.subrange(o.len() - k, o.len() as int) + nuc)
}

/// Splits an onset that is no hard onset into a coda and consonantal
/// syllables for what comes before it and the longest hard onset that can
/// follow them, then adds the syllables.
#[verifier::rlimit(100)]
#[verifier::spinoff_prover]
fn split_scary(sylls: &mut Vec<Vec<char>>, onset: &[char], nucleus: &[char]) -> (r: Result<
    (),
    Jvofli,
>)
    requires
        onset.len() > 0,
        forall|k: int| 0 <= k < onset.len() ==> hard_consonant(#[trigger] onset@[k]),
        all_nonempty(views(old(sylls)@)),
        syllables_form(views(old(sylls)@)),
        last_open(views(old(sylls)@)),
        vowel_nucleus(nucleus@),
    ensures
        r is Ok <==> scary_ok(onset@, old(sylls).len() > 0),
        r is Ok ==> views(final(sylls)@) == with_scary(views(old(sylls)@), onset@, nucleus@),
        r is Ok ==> {
            &&& flatten(views(final(sylls)@)) == flatten(views(old(sylls)@)) + onset@ + nucleus@
            &&& final(sylls).len() > 0
            &&& all_nonempty(views(final(sylls)@))
            &&& syllables_form(views(final(sylls)@))
            &&& last_open(views(final(sylls)@))
        },
{
    let olen = onset.len();
    let max = if olen < 3 {
        olen
    } else {
        3
    };
    let mut suffix_len = max;
    let mut best_err: Option<Jvofli> = None;
    let mut found: Option<usize> = None;
    while suffix_len >= 1 && found.is_none()
        invariant
            olen == onset.len(),
            max <= 3,
            max <= olen,
            suffix_len <= max,
            forall|k: int| 0 <= k < onset.len() ==> hard_consonant(#[trigger] onset@[k]),
            found matches Some(sl) ==> 1 <= sl <= max && hard_onset(
                onset@.subrange(olen - sl, olen as int),
            ) && scary_split_at(onset@, sl as int) && forall|j: int|
                sl < j <= max ==> !#[trigger] scary_split_at(onset@, j),
            found is None ==> forall|j: int|
                suffix_len < j <= max ==> !#[trigger] scary_split_at(onset@, j),
            found is None && suffix_len == 0 ==> best_err is Some,
        decreases suffix_len + if found is None {
            1int
        } else {
            0int
        },
    {
        let hard = &onset[olen - suffix_len..olen];
        if suffix_len == 1 {
            assert(hard_onset(hard@)) by {
                assert(hard@[0] == onset@[olen - 1]);
            }
        }
        let ghost o = onset@;
        let ghost sl0 = suffix_len as int;
        assert(hard@ == o.subrange(olen - sl0, olen as int));
        if is_hard_onset_chars(hard) {
            let prefix = &onset[0..olen - suffix_len];
            assert(prefix@ == o.subrange(0, olen - sl0));
            match parse_previous_coda(prefix) {
                Err(e) => {
                    assert(!scary_split_at(o, sl0));
                    if best_err.is_none() {
                        best_err = Some(e);
                    }
                },
                Ok((coda, cs)) => {
                    proof {
                        assert forall|j: int| 0 <= j < views(cs@).len() implies (#[trigger] views(
                            cs@,
                        )[j]).len() == 2 by {
                            assert(cs@[j]@.len() == 2);
                        }
                        lemma_parts_nonempty(views(cs@));
                        if coda is None {
                            assert(flatten(views(cs@)) == prefix@);
                        } else {
                            assert(flatten(views(cs@)) == prefix@.drop_first());
                        }
                        assert((cs.len() > 0) == leaves_consonantal(prefix@));
                    }
                    let h0 = hard[0];
                    let bad_coda = match coda {
                        Some(cd) => cs.len() == 0 && !is_cll_cluster(cd, h0),
                        None => false,
                    };
                    if bad_coda {
                        let cd = match coda {
                            Some(cd) => cd,
                            None => h0,
                        };
                        best_err = Some(invalid_from_pair(What::Cluster, cd, h0));
                    } else if cs.len() > 0 && !is_cll_cluster(prefix[prefix.len() - 1], h0) {
                        best_err = Some(
                            invalid_from_pair(What::Cluster, prefix[prefix.len() - 1], h0),
                        );
                    } else {
                        let banned = match coda {
                            Some(cd) => suffix_len >= 2 && is_banned_triple_chars(
                                cd,
                                hard[0],
                                hard[1],
                            ),
                            None => false,
                        };
                        if banned {
                            let cd = match coda {
                                Some(cd) => cd,
                                None => h0,
                            };
                            best_err = Some(invalid_cluster_from_triple(cd, hard[0], hard[1]));
                        } else {
                            assert(scary_split_at(o, sl0));
                            found = Some(suffix_len);
                        }
                    }
                },
            }
        } else {
            assert(!scary_split_at(o, sl0));
        }
        if found.is_none() {
            suffix_len -= 1;
        }
    }
    let sl = match found {
        Some(sl) => sl,
        None => {
            proof {
                assert(!scary_ok(onset@, old(sylls).len() > 0));
            }
            return match best_err {
                Some(e) => Err(e),
                None => {
                    proof {
                        assert(false);
                    }
                    Err(Jvofli::Invalid { what: What::Onset, value: string_of(onset) })
                },
            };
        },
    };
    let prefix = &onset[0..olen - sl];
    let h0 = onset[olen - sl];
    proof {
        assert(longest_scary(onset@, sl as int));
        lemma_scary_len(onset@, sl as int);
    }
    proof {
        assert(prefix@ == onset@.subrange(0, olen - sl));
        if scary_ok(onset@, old(sylls).len() > 0) {
            let k = choose|k: int|
                1 <= k <= max && #[trigger] scary_split_at(onset@, k) && (forall|j: int|
                    k < j <= max ==> !scary_split_at(onset@, j)) && coda_apply_ok(
                    onset@.subrange(0, olen - k),
                    Some(onset@[olen - k]),
                    old(sylls).len() > 0,
                );
            assert(k == sl);
        }
    }
    match apply_coda(sylls, prefix, Some(h0)) {
        Ok(()) => {},
        Err(e) => {
            return Err(e);
        },
    }
    proof {
        assert(scary_split_at(onset@, sl as int));
        assert(scary_ok(onset@, old(sylls).len() > 0));
    }
    let ghost mid = views(sylls@);
    push_open_syllable(sylls, &onset[olen - sl..olen], nucleus);
    proof {
        assert(prefix@ + onset@.subrange(olen - sl, olen as int) =~= onset@);
        assert(flatten(views(sylls@)) =~= flatten(views(old(sylls)@)) + onset@ + nucleus@);
    }
    Ok(())
}

/// An annotated offglide.
pub open spec fn offglide(c: char) -> bool {
    c == 'ĭ' || c == 'ŭ'
}

/// The piece `p` (the first of its word if `first`, the last if `last`)
/// makes syllables: a last piece without a vowel closes the syllables
/// before it (see [`coda_apply_ok`]); any other piece ends in a nucleus with
/// an onset before it (see [`nucleus_piece_splits`]).
pub open spec fn piece_splits(p: Seq<char>, first: bool, last: bool) -> bool {
    if last && !has_vowel(p) {
        coda_apply_ok(p, None, !first)
    } else {
        nucleus_piece_splits(p, first)
    }
}

/// The number of letters before the nucleus at the end of `p`.
pub open spec fn onset_len(p: Seq<char>) -> int {
    if offglide(p[p.len() - 1]) {
        p.len() - 2
    } else {
        p.len() - 1
    }
}

/// The piece `p` ends in a nucleus (an offglide only after a vowel) and
/// the letters before it make an onset (see [`onset_splits`]).
pub open spec fn nucleus_piece_splits(p: Seq<char>, first: bool) -> bool {
    let n = p.len() as int;
    if offglide(p[n - 1]) && (n < 2 || !plain_vowel(p[n - 2])) {
        false
    } else {
        onset_splits(p.subrange(0, onset_len(p)), first)
    }
}

/// The letters `on` before a nucleus are an empty onset (first piece
/// only), the apostrophe (never in the first piece), an onglide, a hard
/// onset, or consonants without onglide or apostrophe that split before a
/// hard onset (see [`scary_ok`]).
pub open spec fn onset_splits(on: Seq<char>, first: bool) -> bool {
    if on.len() == 0 {
        first
    } else if on.len() == 1 && on[0] == '\'' {
        !first
    } else if on.len() == 1 && (on[0] == 'q' || on[0] == 'w') {
        true
    } else if hard_onset(on) {
        true
    } else {
        (forall|k: int| 0 <= k < on.len() ==> !glide_or_h(#[trigger] on[k])) && scary_ok(on, !first)
    }
}

/// The syllables `v` once the piece `p` (the first where `first`, the last
/// where `last`) is added: a last piece without a vowel closes the last
/// syllable as a coda and adds consonantal syllables; a piece whose onset
/// is none, an apostrophe, an onglide or a hard onset is one syllable;
/// otherwise its onset splits at the longest hard onset (see
/// `with_scary`).
pub open spec fn with_piece(v: Seq<Seq<char>>, p: Seq<char>, first: bool, last: bool) -> Seq<
    Seq<char>,
> {
    if last && !has_vowel(p) {
        with_coda(v, p)
    } else {
        let olen = onset_len(p);
        let onset = p.subrange(0, olen);
        if olen == 0 || onset == seq!['\''] || (olen == 1 && (p[0] == 'q' || p[0] == 'w'))
            || hard_onset(onset) {
            v.push(p)
        } else {
            with_scary(v, onset, p.subrange(olen, p.len() as int))
        }
    }
}

/// The syllables that the first `n` of `pieces` make, each added as
/// `with_piece` says.
pub open spec fn with_pieces(pieces: Seq<Seq<char>>, n: int) -> Seq<Seq<char>>
    decreases n,
{
    if n <= 0 {
        seq![]
    } else {
        with_piece(with_pieces(pieces, n - 1), pieces[n - 1], n - 1 == 0, n - 1 == pieces.len() - 1)
    }
}

/// Adds the syllables of the piece `p`, the text between two nucleus ends,
/// to `sylls`.
#[verifier::rlimit(100)]
#[verifier::spinoff_prover]
fn push_piece(sylls: &mut Vec<Vec<char>>, p: &Vec<char>, first: bool, last: bool) -> (r: Result<
    (),
    Jvofli,
>)
    requires
        piece_ok(p@),
        all_lojban(p@),
        all_nonempty(views(old(sylls)@)),
        first == (old(sylls).len() == 0),
        old(sylls).len() == 0 && last ==> has_vowel(p@),
        !last ==> ends_nucleus(p@),
        syllables_form(views(old(sylls)@)),
        last_open(views(old(sylls)@)),
    ensures
        r is Ok <==> piece_splits(p@, first, last),
        r is Ok ==> views(final(sylls)@) == with_piece(views(old(sylls)@), p@, first, last),
        r is Ok ==> {
            &&& flatten(views(final(sylls)@)) == flatten(views(old(sylls)@)) + p@
            &&& final(sylls).len() > 0
            &&& all_nonempty(views(final(sylls)@))
            &&& syllables_form(views(final(sylls)@))
            &&& !last ==> last_open(views(final(sylls)@))
        },
{
    let n = p.len();
    let ghost q = p@;
    if last {
        let mut any = false;
        let mut k: usize = 0;
        while k < n
            invariant
                k <= n,
                n == p.len(),
                any ==> has_vowel(p@),
                !any ==> forall|j: int| 0 <= j < k ==> !plain_vowel(#[trigger] p@[j]),
            decreases n - k,
        {
            if is_vowel(p[k]) {
                any = true;
            }
            k += 1;
        }
        if !any {
            match apply_coda(sylls, p.as_slice(), None) {
                Ok(()) => {},
                Err(e) => {
                    return Err(e);
                },
            }
            return Ok(());
        }
    }
    proof {
        if last {
            lemma_piece_vowel_end(p@);
        }
    }
    let lastc = p[n - 1];
    if is_offglide(lastc) && (n < 2 || !is_vowel(p[n - 2])) {
        let one = vec![lastc];
        return Err(Jvofli::Invalid { what: What::Nucleus, value: string_of(&one) });
    }
    let nl: usize = if is_offglide(lastc) {
        2
    } else {
        1
    };
    let olen = n - nl;
    let onset = &p[0..olen];
    let nucleus = &p[olen..n];
    assert(onset@ + nucleus@ =~= p@);
    assert(vowel_nucleus(nucleus@));
    // no vowel or offglide before the nucleus
    assert forall|k: int| 0 <= k < olen implies !plain_vowel(#[trigger] q[k]) && q[k] != 'ĭ' && q[k]
        != 'ŭ' by {
        assert(!nucleus_end(q, k));
        if k + 1 < n - 1 {
            assert(!nucleus_end(q, k + 1));
        }
    }
    let whole = p.clone();
    assert(whole@ == p@);
    if olen == 0 {
        // null-onset syllables must be word-initial
        if !first {
            return Err(Jvofli::Invalid { what: What::Syllable, value: string_of(p.as_slice()) });
        }
    } else if olen == 1 && p[0] == '\'' {
        // h-onset syllables must not
        if first {
            return Err(Jvofli::MisplacedApostrophe { before: None, after: Some(p[1]) });
        }
    } else if olen == 1 && is_onglide(p[0]) {
        // `mark_glides` validates these
    } else if is_hard_onset_chars(onset) {
        // unambiguous hard onset
    } else {
        let mut k: usize = 0;
        let mut bad: Option<usize> = None;
        while k < olen && bad.is_none()
            invariant
                k <= olen,
                olen == onset.len(),
                olen + 1 <= p.len(),
                bad matches Some(b) ==> b < olen && glide_or_h(onset@[b as int]),
                bad is None ==> forall|j: int| 0 <= j < k ==> !glide_or_h(#[trigger] onset@[j]),
            decreases olen - k + if bad is None {
                1int
            } else {
                0int
            },
        {
            let c = onset[k];
            if is_onglide(c) || c == '\'' {
                bad = Some(k);
            } else {
                k += 1;
            }
        }
        if let Some(b) = bad {
            proof {
                assert(q.subrange(0, olen as int) == onset@);
                assert(glide_or_h(onset@[b as int]));
                assert(onset_len(q) == olen);
                assert(!onset_splits(onset@, first));
                assert(!piece_splits(q, first, last));
            }
            let c = onset[b];
            if is_onglide(c) {
                return Err(Jvofli::OnglideInCluster(c));
            }
            let before = if b > 0 {
                Some(onset[b - 1])
            } else {
                None
            };
            return Err(Jvofli::MisplacedApostrophe { before, after: Some(p[b + 1]) });
        }
        assert forall|j: int| 0 <= j < onset.len() implies hard_consonant(#[trigger] onset@[j]) by {
            assert(onset@[j] == q[j]);
            assert(lojban_letter(q[j]));
        }
        return split_scary(sylls, onset, nucleus);
    }
    let ghost before = sylls@;
    proof {
        assert(q.take(olen as int) =~= onset@);
        assert(q.skip(olen as int) =~= nucleus@);
        if olen == 1 && q[0] == '\'' {
            assert(onset@ =~= seq!['\'']);
        }
        assert(onset_form(q.take(olen as int), first));
        assert(open_syllable(q, views(before).len() == 0));
        lemma_forms_push(views(before), q);
        assert(onset_form(q.take(olen as int), views(before).len() + 1 == 1));
    }
    sylls.push(whole);
    proof {
        assert(views(sylls@) =~= views(before).push(q));
        lemma_flatten_push(views(before), q);
        assert forall|i: int| 0 <= i < views(sylls@).len() implies (#[trigger] views(sylls@)[i]).len()
            > 0 by {
            if i < before.len() {
                assert(views(sylls@)[i] == views(before)[i]);
            }
        }
    }
    Ok(())
}

/// The parts `pieces` split the letters `a` after each nucleus: they spell
/// `a`, none holds a nucleus end before its last letter, and each but the
/// last ends with one.
pub open spec fn nucleus_pieces(a: Seq<char>, pieces: Seq<Seq<char>>) -> bool {
    &&& pieces.len() > 0
    &&& flatten(pieces) == a
    &&& forall|j: int| 0 <= j < pieces.len() ==> piece_ok(#[trigger] pieces[j])
    &&& forall|j: int| 0 <= j < pieces.len() - 1 ==> ends_nucleus(#[trigger] pieces[j])
    &&& forall|j: int| 0 <= j < pieces.len() - 1 ==> pieces_meet(#[trigger] pieces[j], pieces[j + 1])
}

proof fn lemma_flatten_last_len(parts: Seq<Seq<char>>)
    requires
        parts.len() > 0,
    ensures
        flatten(parts).len() >= parts.last().len(),
        flatten(parts) == flatten(parts.drop_last()) + parts.last(),
{
}

/// The letters `a` are split after their nuclei in one way only.
pub proof fn lemma_nucleus_pieces_unique(a: Seq<char>, p: Seq<Seq<char>>, q: Seq<Seq<char>>)
    requires
        nucleus_pieces(a, p),
        nucleus_pieces(a, q),
    ensures
        p == q,
    decreases p.len(),
{
    lemma_flatten_last_len(p);
    lemma_flatten_last_len(q);
    let lp = p.last().len() as int;
    let lq = q.last().len() as int;
    assert forall|x: Seq<Seq<char>>, y: Seq<Seq<char>>|
        nucleus_pieces(a, x) && nucleus_pieces(a, y) implies x.last().len() >= y.last().len() by {
        lemma_flatten_last_len(x);
        lemma_flatten_last_len(y);
        let lx = x.last().len() as int;
        let ly = y.last().len() as int;
        if lx < ly {
            let n = x.len() as int;
            assert(piece_ok(x[n - 1]));
            if n == 1 {
                assert(flatten(x.drop_last()) =~= seq![]);
                assert(false);
            }
            let xd = x.drop_last();
            lemma_flatten_last_len(xd);
            assert(xd.last() == x[n - 2]);
            assert(ends_nucleus(x[n - 2]));
            assert(pieces_meet(x[n - 2], x[n - 1]));
            assert(piece_ok(x[n - 2]));
            let g = a.len() - lx - 1;
            let pre = flatten(xd);
            assert(pre.len() == g + 1);
            assert(a[g] == pre[g]);
            assert(pre[g] == x[n - 2].last());
            assert(a[g + 1] == x[n - 1][0]);
            let yl = y.last();
            let k = ly - lx - 1;
            let off = a.len() - ly;
            assert(yl[k] == a[off + k]);
            assert(yl[k + 1] == a[off + k + 1]);
            assert(piece_ok(y[y.len() - 1]));
            assert(!nucleus_end(yl, k));
        }
    }
    assert(lp == lq);
    assert(p.last() =~= a.subrange(a.len() - lp, a.len() as int));
    assert(q.last() =~= a.subrange(a.len() - lq, a.len() as int));
    let b = flatten(p.drop_last());
    assert(b =~= a.subrange(0, a.len() - lp));
    assert(flatten(q.drop_last()) =~= a.subrange(0, a.len() - lq));
    if p.len() == 1 || q.len() == 1 {
        if p.len() > 1 {
            lemma_flatten_last_len(p.drop_last());
            assert(piece_ok(p[p.len() - 2]));
        }
        if q.len() > 1 {
            lemma_flatten_last_len(q.drop_last());
            assert(piece_ok(q[q.len() - 2]));
        }
        assert(p =~= seq![p.last()]);
        assert(q =~= seq![q.last()]);
    } else {
        let pd = p.drop_last();
        let qd = q.drop_last();
        assert forall|j: int| 0 <= j < pd.len() implies piece_ok(#[trigger] pd[j]) by {
            assert(pd[j] == p[j]);
        }
        assert forall|j: int| 0 <= j < pd.len() - 1 implies ends_nucleus(#[trigger] pd[j]) by {
            assert(pd[j] == p[j]);
        }
        assert forall|j: int| 0 <= j < pd.len() - 1 implies pieces_meet(#[trigger] pd[j], pd[j + 1]) by {
            assert(pd[j] == p[j]);
        }
        assert forall|j: int| 0 <= j < qd.len() implies piece_ok(#[trigger] qd[j]) by {
            assert(qd[j] == q[j]);
        }
        assert forall|j: int| 0 <= j < qd.len() - 1 implies ends_nucleus(#[trigger] qd[j]) by {
            assert(qd[j] == q[j]);
        }
        assert forall|j: int| 0 <= j < qd.len() - 1 implies pieces_meet(#[trigger] qd[j], qd[j + 1]) by {
            assert(qd[j] == q[j]);
        }
        lemma_nucleus_pieces_unique(b, pd, qd);
        assert(p =~= pd.push(p.last()));
        assert(q =~= qd.push(q.last()));
    }
}

/// Each of `pieces` makes syllables (see [`piece_splits`]).
pub open spec fn pieces_split(pieces: Seq<Seq<char>>) -> bool {
    forall|j: int|
        0 <= j < pieces.len() ==> piece_splits(#[trigger] pieces[j], j == 0, j == pieces.len() - 1)
}

/// The text `s` is made of Lojban letters, its glides can be marked, and
/// its annotated spelling holds a vowel.
pub open spec fn syllabify_ok(s: Seq<char>) -> bool {
    &&& all_lojban(s)
    &&& mark_pass(s, 0) matches Ok(a) && has_vowel(a)
}

/// The syllables of the annotated spelling of `input` (see [`syllabify`]).
fn syllabify_chars(input: &str) -> (r: Result<Vec<Vec<char>>, Jvofli>)
    ensures
        r matches Ok(v) ==> syllabification(input@, views(v@)),
        r is Ok ==> syllabify_ok(input@),
        syllabify_ok(input@) ==> exists|pieces: Seq<Seq<char>>|
            #[trigger] nucleus_pieces(mark_pass(input@, 0)->Ok_0, pieces) && (r is Ok
                <==> pieces_split(pieces)),
        r matches Ok(v) ==> exists|pieces: Seq<Seq<char>>|
            #[trigger] nucleus_pieces(mark_pass(input@, 0)->Ok_0, pieces) && views(v@)
                == with_pieces(pieces, pieces.len() as int),
{
    match check_lojban_only(input) {
        Ok(()) => {},
        Err(e) => {
            return Err(e);
        },
    }
    let annotated = match mark_glides(input) {
        Ok(a) => a,
        Err(e) => {
            return Err(e);
        },
    };
    let chars = collect_chars(annotated.as_str());
    proof {
        assert(all_lojban(input@));
        lemma_mark_pass_letters(input@, 0);
    }
    let mut any = false;
    let mut k: usize = 0;
    while k < chars.len()
        invariant
            k <= chars.len(),
            any ==> has_vowel(chars@),
            !any ==> forall|j: int| 0 <= j < k ==> !plain_vowel(#[trigger] chars@[j]),
        decreases chars.len() - k,
    {
        if is_vowel(chars[k]) {
            any = true;
        }
        k += 1;
    }
    if !any {
        return Err(Jvofli::Invalid { what: What::Syllable, value: input.to_owned() });
    }
    let fake = split_after_nuclei(&chars);
    let mut sylls: Vec<Vec<char>> = Vec::new();
    let mut i: usize = 0;
    proof {
        assert(views(sylls@) =~= seq![]);
        assert(views(fake@.take(0)) =~= seq![]);
    }
    assert(fake.len() > 0) by {
        if fake.len() == 0 {
            assert(views(fake@) =~= seq![]);
            assert(chars@.len() == 0);
        }
    }
    proof {
        let vf = views(fake@);
        assert forall|j: int| 0 <= j < vf.len() implies piece_ok(#[trigger] vf[j]) by {
            assert(vf[j] == fake@[j]@);
        }
        assert forall|j: int| 0 <= j < vf.len() - 1 implies ends_nucleus(#[trigger] vf[j]) by {
            assert(vf[j] == fake@[j]@);
        }
        assert forall|j: int| 0 <= j < vf.len() - 1 implies pieces_meet(#[trigger] vf[j], vf[j + 1]) by {
            assert(vf[j] == fake@[j]@);
            assert(vf[j + 1] == fake@[j + 1]@);
            assert(pieces_meet(fake@[j]@, fake@[j + 1]@));
        }
        assert(nucleus_pieces(chars@, vf));
    }
    while i < fake.len()
        invariant
            i <= fake.len(),
            nucleus_pieces(chars@, views(fake@)),
            flatten(views(fake@)) == chars@,
            all_lojban(chars@),
            has_vowel(chars@),
            forall|j: int| 0 <= j < fake.len() ==> piece_ok(#[trigger] fake@[j]@),
            flatten(views(sylls@)) == flatten(views(fake@.take(i as int))),
            views(sylls@) == with_pieces(views(fake@), i as int),
            all_nonempty(views(sylls@)),
            (i == 0) == (sylls.len() == 0),
            forall|j: int| 0 <= j < fake.len() - 1 ==> ends_nucleus(#[trigger] fake@[j]@),
            syllables_form(views(sylls@)),
            i < fake.len() ==> last_open(views(sylls@)),
            mark_pass(input@, 0) == Ok::<Seq<char>, MarkFault>(chars@),
            forall|j: int|
                0 <= j < i ==> piece_splits(
                    #[trigger] views(fake@)[j],
                    j == 0,
                    j == fake.len() - 1,
                ),
        decreases fake.len() - i,
    {
        proof {
            lemma_parts_letters(views(fake@), i as int);
            assert(views(fake@)[i as int] == fake@[i as int]@);
            if i == 0 && fake.len() == 1 {
                assert(views(fake@).drop_last() =~= seq![]);
                assert(flatten(views(fake@).drop_last()) =~= seq![]);
                assert(views(fake@).last() == fake@[0]@);
                assert(flatten(views(fake@)) =~= fake@[0]@);
            }
        }
        let ghost before = sylls@;
        match push_piece(&mut sylls, &fake[i], i == 0, i + 1 == fake.len()) {
            Ok(()) => {},
            Err(e) => {
                proof {
                    assert(nucleus_pieces(chars@, views(fake@)));
                    assert(!piece_splits(views(fake@)[i as int], i == 0, i == fake.len() - 1));
                    assert(!pieces_split(views(fake@)));
                }
                return Err(e);
            },
        }
        proof {
            assert(views(fake@)[i as int] == fake@[i as int]@);
            assert(views(fake@).len() == fake.len());
            assert(views(fake@.take(i + 1)) =~= views(fake@.take(i as int)).push(fake@[i as int]@));
            lemma_flatten_push(views(fake@.take(i as int)), fake@[i as int]@);
        }
        i += 1;
    }
    proof {
        assert(fake@.take(fake.len() as int) =~= fake@);
        assert(nucleus_pieces(chars@, views(fake@)));
        assert(pieces_split(views(fake@)));
    }
    Ok(sylls)
}

/// `v` syllabifies the text `s`: `s` is made of Lojban letters, its glides
/// can be marked, its annotated spelling (see [`mark_glides`]) holds a
/// vowel, and `v`, run together, spells it; each of `v` is a nonempty
/// syllable (see [`syllable_form`]): only the first may lack an onset, and
/// it does not start with an apostrophe.
pub open spec fn syllabification(s: Seq<char>, v: Seq<Seq<char>>) -> bool {
    &&& all_lojban(s)
    &&& mark_pass(s, 0) matches Ok(a) && flatten(v) == a && has_vowel(a)
    &&& all_nonempty(v)
    &&& syllables_form(v)
}

/// Syllables that syllabify a text spell it, but for glide marks.
pub proof fn lemma_syllables_spell_text(s: Seq<char>, v: Seq<Seq<char>>)
    requires
        syllabification(s, v),
    ensures
        flatten(v).map_values(|c: char| plain_glide(c)) == s.map_values(|c: char| plain_glide(c)),
{
    lemma_mark_pass_respells(s, 0);
    let a = flatten(v);
    assert(a.map_values(|c: char| plain_glide(c)) =~= s.map_values(|c: char| plain_glide(c)));
}

/// The annotated spelling of `s` cut after each nucleus (see
/// [`nucleus_pieces`]; [`lemma_nucleus_pieces_unique`] shows there is one
/// such cut).
pub open spec fn nucleus_cut(s: Seq<char>) -> Seq<Seq<char>> {
    choose|pieces: Seq<Seq<char>>| nucleus_pieces(mark_pass(s, 0)->Ok_0, pieces)
}

/// [`syllabify`] splits `s`: its letters are Lojban letters whose glides
/// can be marked, with a vowel, and each piece of its nucleus cut makes
/// syllables.
pub open spec fn syllabify_succeeds(s: Seq<char>) -> bool {
    syllabify_ok(s) && pieces_split(nucleus_cut(s))
}

/// The syllables that [`syllabify`] gives for `s`: each piece of its
/// nucleus cut split with the longest onset that may start a syllable (see
/// [`with_piece`]).
pub open spec fn syllables_of(s: Seq<char>) -> Seq<Seq<char>> {
    with_pieces(nucleus_cut(s), nucleus_cut(s).len() as int)
}

/// The letters `p` are an onglide followed by its nucleus: a vowel, or a
/// vowel and an offglide.
pub open spec fn onglide_syllable(p: Seq<char>) -> bool {
    &&& p.len() == 2 || p.len() == 3
    &&& p[0] == 'q' || p[0] == 'w'
    &&& plain_vowel(p[1])
    &&& p.len() == 3 ==> offglide(p[2])
}

/// A piece made of an onglide and its nucleus makes a syllable wherever it
/// stands in the word: first, last or in between.
pub proof fn lemma_onglide_piece_splits(p: Seq<char>, first: bool, last: bool)
    requires
        onglide_syllable(p),
    ensures
        piece_splits(p, first, last),
        with_piece(Seq::<Seq<char>>::empty(), p, first, last) == seq![p],
{
    assert(plain_vowel(p[1]));
    assert(has_vowel(p));
    assert(onset_len(p) == 1);
    assert(p.subrange(0, onset_len(p)) =~= seq![p[0]]);
}

proof fn lemma_onglide_pieces(ps: Seq<Seq<char>>, n: int)
    requires
        0 <= n <= ps.len(),
        forall|j: int| 0 <= j < ps.len() ==> onglide_syllable(#[trigger] ps[j]),
    ensures
        with_pieces(ps, n) == ps.take(n),
        n > 0 ==> has_vowel(flatten(ps.take(n))),
    decreases n,
{
    if n > 0 {
        lemma_onglide_pieces(ps, n - 1);
        let p = ps[n - 1];
        assert(onglide_syllable(p));
        assert(has_vowel(p));
        assert(onset_len(p) == 1);
        assert(p.subrange(0, onset_len(p)) =~= seq![p[0]]);
        assert(ps.take(n) =~= ps.take(n - 1).push(p));
        lemma_flatten_push(ps.take(n - 1), p);
        let f = flatten(ps.take(n - 1));
        assert((f + p)[f.len() + 1int] == p[1]);
        assert(plain_vowel((f + p)[f.len() + 1int]));
    }
}

/// A word whose glides mark into pieces that are each an onglide with its
/// nucleus (such as *uiie*, marked *wiqe*) is split by [`syllabify`], and
/// its syllables are those pieces.
pub proof fn lemma_onglide_word_syllabifies(s: Seq<char>, ps: Seq<Seq<char>>)
    requires
        all_lojban(s),
        mark_pass(s, 0) == Ok::<Seq<char>, MarkFault>(flatten(ps)),
        ps.len() > 0,
        forall|j: int| 0 <= j < ps.len() ==> onglide_syllable(#[trigger] ps[j]),
    ensures
        syllabify_succeeds(s),
        syllables_of(s) == ps,
{
    let a = flatten(ps);
    lemma_onglide_pieces(ps, ps.len() as int);
    assert(ps.take(ps.len() as int) =~= ps);
    assert forall|j: int| 0 <= j < ps.len() implies piece_ok(#[trigger] ps[j]) by {
        assert(onglide_syllable(ps[j]));
    }
    assert forall|j: int| 0 <= j < ps.len() - 1 implies ends_nucleus(#[trigger] ps[j]) by {
        assert(onglide_syllable(ps[j]));
    }
    assert forall|j: int| 0 <= j < ps.len() - 1 implies pieces_meet(#[trigger] ps[j], ps[j + 1]) by {
        assert(onglide_syllable(ps[j + 1]));
    }
    assert(nucleus_pieces(a, ps));
    assert(syllabify_ok(s));
    assert(nucleus_pieces(a, nucleus_cut(s)));
    lemma_nucleus_pieces_unique(a, nucleus_cut(s), ps);
    assert forall|j: int| 0 <= j < ps.len() implies piece_splits(
        #[trigger] ps[j],
        j == 0,
        j == ps.len() - 1,
    ) by {
        lemma_onglide_piece_splits(ps[j], j == 0, j == ps.len() - 1);
    }
}

proof fn lemma_syllabify_exact(s: Seq<char>, ok: bool, v: Seq<Seq<char>>)
    requires
        ok ==> syllabify_ok(s),
        syllabify_ok(s) ==> exists|pieces: Seq<Seq<char>>|
            #[trigger] nucleus_pieces(mark_pass(s, 0)->Ok_0, pieces) && (ok <==> pieces_split(
                pieces,
            )),
        ok ==> exists|pieces: Seq<Seq<char>>|
            #[trigger] nucleus_pieces(mark_pass(s, 0)->Ok_0, pieces) && v == with_pieces(
                pieces,
                pieces.len() as int,
            ),
    ensures
        ok <==> syllabify_succeeds(s),
        ok ==> v == syllables_of(s),
{
    let a = mark_pass(s, 0)->Ok_0;
    if syllabify_ok(s) {
        let w = choose|pieces: Seq<Seq<char>>|
            #[trigger] nucleus_pieces(a, pieces) && (ok <==> pieces_split(pieces));
        assert(nucleus_pieces(a, nucleus_cut(s)));
        lemma_nucleus_pieces_unique(a, w, nucleus_cut(s));
        if ok {
            let w2 = choose|pieces: Seq<Seq<char>>|
                #[trigger] nucleus_pieces(a, pieces) && v == with_pieces(
                    pieces,
                    pieces.len() as int,
                );
            lemma_nucleus_pieces_unique(a, w2, nucleus_cut(s));
        }
    }
}

/// Splits a unit in standard spelling into syllables.
///
/// It succeeds just when `input` is made of Lojban letters whose glides can
/// be marked, with a vowel, and each piece of its annotated spelling up to
/// a nucleus makes syllables (see [`syllabify_succeeds`]). The syllables
/// are then [`syllables_of`] `input`, which syllabify it (see
/// [`syllabification`]).
///
/// # Errors
/// Fails if the input can't be split into valid syllables.
pub fn syllabify(input: &str) -> (r: Result<Vec<String>, Jvofli>)
    ensures
        r is Ok <==> syllabify_succeeds(input@),
        r matches Ok(v) ==> v@.map_values(|x: String| x@) == syllables_of(input@),
        r matches Ok(v) ==> syllabification(input@, v@.map_values(|x: String| x@)),
{
    let res = syllabify_chars(input);
    proof {
        if res is Ok {
            lemma_syllabify_exact(input@, true, views(res->Ok_0@));
        } else {
            lemma_syllabify_exact(input@, false, seq![]);
        }
    }
    let sylls = match res {
        Ok(v) => v,
        Err(e) => {
            return Err(e);
        },
    };
    let mut out: Vec<String> = Vec::new();
    let mut j: usize = 0;
    while j < sylls.len()
        invariant
            j <= sylls.len(),
            out.len() == j,
            forall|t: int| 0 <= t < j ==> (#[trigger] out@[t])@ == sylls@[t]@,
        decreases sylls.len() - j,
    {
        out.push(string_of(sylls[j].as_slice()));
        j += 1;
    }
    assert(out@.map_values(|x: String| x@) =~= views(sylls@));
    Ok(out)
}

/// The letters `s` are a gismu: consonant, vowel, consonant pair, vowel, or
/// consonant pair, vowel, consonant, vowel.
pub open spec fn gismu(s: Seq<char>) -> bool {
    &&& s.len() == 5
    &&& hard_consonant(s[0])
    &&& hard_consonant(s[3])
    &&& plain_vowel(s[4])
    &&& ((plain_vowel(s[1]) && cll_cluster(s[2], s[3])) || (plain_vowel(s[2]) && initial_cluster(
        s[0],
        s[1],
    )))
}

/// A gismu has five letters, consonants and vowels in the order CVCCV or
/// CCVCV: hard consonants where the consonants stand, plain vowels where the
/// vowels stand, so no apostrophe and no glide anywhere in it.
pub proof fn lemma_gismu_shape(s: Seq<char>)
    requires
        gismu(s),
    ensures
        s.len() == 5,
        hard_consonant(s[0]) && hard_consonant(s[3]) && plain_vowel(s[4]),
        (plain_vowel(s[1]) && hard_consonant(s[2])) || (hard_consonant(s[1]) && plain_vowel(s[2])),
        forall|k: int| 0 <= k < 5 ==> #[trigger] s[k] != '\'' && s[k] != 'q' && s[k] != 'w',
{
}

/// Returns whether `s` has the shape of a gismu.
pub fn is_gismu(s: &str) -> (b: bool)
    ensures
        b == gismu(s@),
{
    let c = collect_chars(s);
    if c.len() != 5 {
        return false;
    }
    is_hard_consonant(c[0]) && is_hard_consonant(c[3]) && is_vowel(c[4]) && ((is_vowel(c[1])
        && is_cll_cluster(c[2], c[3])) || (is_vowel(c[2]) && is_initial_chars(c[0], c[1])))
}

/// The number of hard consonants in `s`.
pub open spec fn hard_count(s: Seq<char>) -> nat
    decreases s.len(),
{
    if s.len() == 0 {
        0
    } else {
        hard_count(s.drop_last()) + if hard_consonant(s.last()) {
            1nat
        } else {
            0nat
        }
    }
}

/// The syllable `x` can be a one-syllable cmavo: at most one hard consonant,
/// ending in a vowel or offglide.
pub open spec fn one_cmavo_syllable(x: Seq<char>) -> bool {
    hard_count(x) < 2 && x.len() > 0 && (plain_vowel(x.last()) || x.last() == 'ĭ' || x.last()
        == 'ŭ')
}

/// Returns `true` if the first syllable of `sylls` is CV or CF. It does not
/// consider the rest of the syllables at all.
fn starts_with_one_cmavo(first: &Vec<char>) -> (b: bool)
    ensures
        b == one_cmavo_syllable(first@),
{
    let mut hard: usize = 0;
    let mut k: usize = 0;
    while k < first.len()
        invariant
            k <= first.len(),
            hard == hard_count(first@.take(k as int)),
            hard <= k,
        decreases first.len() - k,
    {
        assert(first@.take(k + 1).drop_last() =~= first@.take(k as int));
        if is_hard_consonant(first[k]) {
            hard += 1;
        }
        k += 1;
    }
    assert(first@.take(first.len() as int) =~= first@);
    if first.len() == 0 {
        return false;
    }
    let last = first[first.len() - 1];
    hard < 2 && (is_vowel(last) || is_offglide(last))
}

/// The syllable `x` asks for a cmavo ending in *y* after it: it ends in *y*
/// and, unless `arb`, starts with a hard consonant, an onglide or *y*.
pub open spec fn wants_y_next(x: Seq<char>, arb: bool) -> bool {
    x.len() > 0 && x.last() == 'y' && (arb || hard_consonant(x[0]) || x[0] == 'q' || x[0] == 'w'
        || x[0] == 'y')
}

/// Returns true if this syllable requires a cmavo ending in *y* after it. `arb`
/// indicates whether we care about all cmavo ending in *y* (`true`), or only
/// *Cy* cmavo like CLL says (`false`).
fn requires_y_next(syll: &Vec<char>, arb: bool) -> (b: bool)
    ensures
        b == wants_y_next(syll@, arb),
{
    let n = syll.len();
    if n == 0 || syll[n - 1] != 'y' {
        return false;
    }
    let c = syll[0];
    arb || is_hard_consonant(c) || is_onglide(c) || c == 'y'
}

/// The number of bytes that `c` takes in UTF-8.
pub open spec fn utf8_width(c: char) -> nat {
    if (c as u32) < 0x80 {
        1
    } else if (c as u32) < 0x800 {
        2
    } else if (c as u32) < 0x10000 {
        3
    } else {
        4
    }
}

/// The number of bytes that `s` takes in UTF-8.
pub open spec fn utf8_len(s: Seq<char>) -> nat
    decreases s.len(),
{
    if s.len() == 0 {
        0
    } else {
        utf8_len(s.drop_last()) + utf8_width(s.last())
    }
}

/// Whether `s` takes exactly two bytes in UTF-8.
fn two_bytes(s: &Vec<char>) -> (b: bool)
    ensures
        b == (utf8_len(s@) == 2),
{
    let mut total: usize = 0;
    let mut k: usize = 0;
    while k < s.len()
        invariant
            k <= s.len(),
            total == utf8_len(s@.take(k as int)),
            total <= 3,
        decreases s.len() - k,
    {
        assert(s@.take(k + 1).drop_last() =~= s@.take(k as int));
        let c = s[k];
        let u = c as u32;
        let w: usize = if u < 0x80 {
            1
        } else if u < 0x800 {
            2
        } else if u < 0x10000 {
            3
        } else {
            4
        };
        total = total + w;
        k += 1;
        if total > 2 {
            proof {
                lemma_utf8_len_grows(s@, k as int);
            }
            return false;
        }
    }
    assert(s@.take(s.len() as int) =~= s@);
    total == 2
}

proof fn lemma_utf8_len_grows(s: Seq<char>, k: int)
    requires
        0 <= k <= s.len(),
    ensures
        utf8_len(s.take(k)) <= utf8_len(s),
    decreases s.len() - k,
{
    if k < s.len() {
        lemma_utf8_len_grows(s, k + 1);
        assert(s.take(k + 1).drop_last() =~= s.take(k));
    } else {
        assert(s.take(k) =~= s);
    }
}

/// The first index from `from` on whose syllable does not start with an
/// apostrophe, or the length.
pub open spec fn run_end(sylls: Seq<Seq<char>>, from: int) -> int
    decreases sylls.len() - from,
{
    if from >= sylls.len() || from < 0 {
        sylls.len() as int
    } else if sylls[from].len() > 0 && sylls[from][0] == '\'' {
        run_end(sylls, from + 1)
    } else {
        from
    }
}

/// The cmavo that starts at `i + 1` (or, where none starts there, the
/// syllable at `i`) ends in *y*: under `arb`, every syllable of the run of
/// apostrophe syllables from `i + 1` ends in a vowel or offglide and the
/// last syllable before the run's end ends in *y*; otherwise the syllable
/// at `i` is two bytes long and ends in *y*.
pub open spec fn next_ends_in_y(sylls: Seq<Seq<char>>, i: int, arb: bool) -> bool {
    if arb {
        let end = run_end(sylls, i + 1);
        (forall|k: int|
            i + 1 <= k < end ==> (#[trigger] sylls[k]).len() > 0 && sylls[k][0] == '\'' && (
            plain_vowel(sylls[k].last()) || sylls[k].last() == 'ĭ' || sylls[k].last() == 'ŭ'))
            && sylls[end - 1].len() > 0 && sylls[end - 1].last() == 'y'
    } else {
        utf8_len(sylls[i]) == 2 && sylls[i].len() > 0 && sylls[i].last() == 'y'
    }
}

proof fn lemma_run_end(sylls: Seq<Seq<char>>, from: int)
    requires
        0 <= from <= sylls.len(),
    ensures
        from <= run_end(sylls, from) <= sylls.len(),
        forall|k: int|
            from <= k < run_end(sylls, from) ==> (#[trigger] sylls[k]).len() > 0 && sylls[k][0]
                == '\'',
        run_end(sylls, from) < sylls.len() ==> !(sylls[run_end(sylls, from)].len() > 0
            && sylls[run_end(sylls, from)][0] == '\''),
    decreases sylls.len() - from,
{
    if from < sylls.len() && sylls[from].len() > 0 && sylls[from][0] == '\'' {
        lemma_run_end(sylls, from + 1);
    }
}

/// Returns `true` if `sylls[i + 1]` is the first syllable of a cmavo ending in
/// *y*. `arb` indicates whether we care about all cmavo ending in *y* (`true`),
/// or only *Cy* cmavo like CLL says (`false`).
fn next_cmavo_ends_in_y(sylls: &[Vec<char>], i: usize, arb: bool) -> (b: bool)
    requires
        i < sylls.len(),
    ensures
        b == next_ends_in_y(views(sylls@), i as int, arb),
{
    let ghost v = views(sylls@);
    if arb {
        let n = sylls.len();
        let mut end = i + 1;
        while end < n && sylls[end].len() > 0 && sylls[end][0] == '\''
            invariant
                i + 1 <= end <= n,
                n == sylls.len(),
                v == views(sylls@),
                run_end(v, i + 1) == run_end(v, end as int),
            decreases n - end,
        {
            assert(v[end as int] == sylls@[end as int]@);
            end += 1;
        }
        proof {
            if end < n {
                assert(v[end as int] == sylls@[end as int]@);
            }
            lemma_run_end(v, i + 1);
        }
        let mut ok = true;
        let mut k = i + 1;
        while k < end
            invariant
                i + 1 <= k <= end <= n,
                n == sylls.len(),
                v == views(sylls@),
                end == run_end(v, i + 1),
                forall|j: int| i + 1 <= j < end ==> (#[trigger] v[j]).len() > 0 && v[j][0] == '\'',
                ok == forall|j: int|
                    i + 1 <= j < k ==> (#[trigger] v[j]).len() > 0 && v[j][0] == '\'' && (
                    plain_vowel(v[j].last()) || v[j].last() == 'ĭ' || v[j].last() == 'ŭ'),
            decreases end - k,
        {
            assert(v[k as int] == sylls@[k as int]@);
            let s = &sylls[k];
            let last = s[s.len() - 1];
            if !(is_vowel(last) || is_offglide(last)) {
                ok = false;
            }
            k += 1;
        }
        let e = &sylls[end - 1];
        assert(v[end - 1] == sylls@[end - 1]@);
        ok && e.len() > 0 && e[e.len() - 1] == 'y'
    } else {
        let s = &sylls[i];
        assert(v[i as int] == s@);
        two_bytes(s) && s.len() > 0 && s[s.len() - 1] == 'y'
    }
}

/// The syllable `x` starts a cmavo other than the first of a run: it starts
/// with a hard consonant or an onglide.
pub open spec fn starts_new(x: Seq<char>) -> bool {
    x.len() > 0 && (hard_consonant(x[0]) || x[0] == 'q' || x[0] == 'w')
}

/// The first index after `start` whose syllable starts a new cmavo.
pub open spec fn next_start(sylls: Seq<Seq<char>>, from: int) -> Option<int>
    decreases sylls.len() - from,
{
    if from < 0 || from >= sylls.len() {
        None
    } else if starts_new(sylls[from]) {
        Some(from)
    } else {
        next_start(sylls, from + 1)
    }
}

pub proof fn lemma_next_start(sylls: Seq<Seq<char>>, from: int)
    requires
        0 <= from,
    ensures
        next_start(sylls, from) matches Some(k) ==> from <= k < sylls.len() && starts_new(
            sylls[k],
        ) && forall|j: int| from <= j < k ==> !starts_new(#[trigger] sylls[j]),
        next_start(sylls, from) is None ==> forall|j: int|
            from <= j < sylls.len() ==> !starts_new(#[trigger] sylls[j]),
    decreases sylls.len() - from,
{
    if from < sylls.len() && !starts_new(sylls[from]) {
        lemma_next_start(sylls, from + 1);
    }
}

/// The syllables from `start` on are cmavo: each cmavo starts with a
/// one-syllable cmavo, and one that asks for a *y*-final cmavo after it gets
/// one.
pub open spec fn cmavo_walk(sylls: Seq<Seq<char>>, start: int, arb: bool) -> bool
    decreases sylls.len() - start,
{
    if start < 0 || start >= sylls.len() {
        true
    } else if !one_cmavo_syllable(sylls[start]) {
        false
    } else {
        proof {
            lemma_next_start(sylls, start + 1);
        }
        match next_start(sylls, start + 1) {
            None => true,
            Some(i) => if wants_y_next(sylls[i - 1], arb) && !next_ends_in_y(
                sylls.subrange(start, sylls.len() as int),
                i - start,
                arb,
            ) {
                false
            } else {
                cmavo_walk(sylls, i, arb)
            },
        }
    }
}

proof fn lemma_hard_count_one(s: Seq<char>, i: int)
    requires
        0 <= i < s.len(),
        hard_consonant(s[i]),
    ensures
        hard_count(s) >= 1,
    decreases s.len(),
{
    if i < s.len() - 1 {
        assert(s.drop_last()[i] == s[i]);
        lemma_hard_count_one(s.drop_last(), i);
    }
}

proof fn lemma_hard_count_two(s: Seq<char>, i: int, j: int)
    requires
        0 <= i < j < s.len(),
        hard_consonant(s[i]),
        hard_consonant(s[j]),
    ensures
        hard_count(s) >= 2,
    decreases s.len(),
{
    assert(s.drop_last()[i] == s[i]);
    if j < s.len() - 1 {
        assert(s.drop_last()[j] == s[j]);
        lemma_hard_count_two(s.drop_last(), i, j);
    } else {
        lemma_hard_count_one(s.drop_last(), i);
    }
}

/// The syllable `x` holds at most one hard consonant.
pub open spec fn at_most_one_hard(x: Seq<char>) -> bool {
    forall|i: int, j: int|
        0 <= i < j < x.len() ==> !(hard_consonant(#[trigger] x[i]) && hard_consonant(#[trigger] x[j]))
}

proof fn lemma_cmavo_walk_light(v: Seq<Seq<char>>, start: int, arb: bool)
    requires
        0 <= start,
        cmavo_walk(v, start, arb),
    ensures
        forall|k: int|
            start <= k < v.len() && (k == start || starts_new(v[k])) ==> at_most_one_hard(
                #[trigger] v[k],
            ),
    decreases v.len() - start,
{
    if start < v.len() {
        assert(one_cmavo_syllable(v[start]));
        assert forall|i: int, j: int|
            0 <= i < j < v[start].len() implies !(hard_consonant(#[trigger] v[start][i])
            && hard_consonant(#[trigger] v[start][j])) by {
            if hard_consonant(v[start][i]) && hard_consonant(v[start][j]) {
                lemma_hard_count_two(v[start], i, j);
            }
        }
        lemma_next_start(v, start + 1);
        match next_start(v, start + 1) {
            None => {},
            Some(n) => {
                lemma_cmavo_walk_light(v, n, arb);
            },
        }
    }
}

/// In syllables that are cmavo, the syllable that starts each cmavo (the
/// first, and each that starts with a hard consonant or an onglide) holds at
/// most one hard consonant: no consonant cluster and no coda beside its
/// onset.
pub proof fn lemma_cmavo_starts_light(v: Seq<Seq<char>>, arb: bool)
    requires
        cmavo_walk(v, 0, arb),
    ensures
        forall|k: int|
            0 <= k < v.len() && (k == 0 || starts_new(v[k])) ==> at_most_one_hard(#[trigger] v[k]),
{
    lemma_cmavo_walk_light(v, 0, arb);
}

/// Whether `sylls` are cmavo (see [`cmavo_walk`]).
fn is_cmavo_syllables(sylls: &Vec<Vec<char>>, arb: bool) -> (b: bool)
    ensures
        b == cmavo_walk(views(sylls@), 0, arb),
{
    let ghost v = views(sylls@);
    let n = sylls.len();
    let mut start: usize = 0;
    while start < n
        invariant
            n == sylls.len(),
            start <= n,
            v == views(sylls@),
            cmavo_walk(v, 0, arb) == cmavo_walk(v, start as int, arb),
        decreases n - start,
    {
        assert(v[start as int] == sylls@[start as int]@);
        if !starts_with_one_cmavo(&sylls[start]) {
            return false;
        }
        let mut k = start + 1;
        let mut searching = true;
        while searching && k < n
            invariant
                start + 1 <= k <= n,
                n == sylls.len(),
                v == views(sylls@),
                next_start(v, start + 1) == next_start(v, k as int),
                !searching ==> k < n && starts_new(v[k as int]),
            decreases n - k + if searching {
                1int
            } else {
                0int
            },
        {
            assert(v[k as int] == sylls@[k as int]@);
            let x = &sylls[k];
            if x.len() > 0 && (is_hard_consonant(x[0]) || is_onglide(x[0])) {
                searching = false;
            } else {
                k += 1;
            }
        }
        if k >= n {
            assert(next_start(v, start + 1) is None);
            return true;
        }
        assert(v[k as int] == sylls@[k as int]@);
        assert(next_start(v, start + 1) == Some(k as int));
        let rest = &sylls[start..n];
        assert(views(rest@) =~= v.subrange(start as int, n as int));
        assert(v[k - 1] == sylls@[k - 1]@);
        if requires_y_next(&sylls[k - 1], arb) && !next_cmavo_ends_in_y(rest, k - start, arb) {
            return false;
        }
        start = k;
    }
    true
}

/// Returns `true` if `s` is some cmavo. `settings.arbitrary_cmavo_rafsi`
/// affects which cmavo ending in *y* need pauses after them.
///
/// It is `true` just when [`syllabify`] splits `s` and the syllables it
/// gives are cmavo (see [`cmavo_walk`]).
pub fn is_some_cmavo(s: &str, settings: &Settings) -> (b: bool)
    ensures
        b == (syllabify_succeeds(s@) && cmavo_walk(
            syllables_of(s@),
            0,
            settings.arbitrary_cmavo_rafsi,
        )),
{
    let res = syllabify_chars(s);
    proof {
        if res is Ok {
            lemma_syllabify_exact(s@, true, views(res->Ok_0@));
        } else {
            lemma_syllabify_exact(s@, false, seq![]);
        }
    }
    let sylls = match res {
        Ok(v) => v,
        Err(_) => {
            return false;
        },
    };
    let b = is_cmavo_syllables(&sylls, settings.arbitrary_cmavo_rafsi);
    proof {
        assert(syllabification(s@, views(sylls@)));
    }
    b
}

} // verus!
