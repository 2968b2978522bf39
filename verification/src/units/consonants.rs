//! Splitting runs of consonants into codas and consonantal syllables.

use vstd::prelude::*;

use crate::jvofli::{Jvofli, What};
use crate::phonology::{hard_consonant, is_hard_consonant, is_sonorant, sonorant};
use crate::syllables::{Coda, Nucleus, Onset, Syllable};
use crate::text::push_char;

verus! {

/// `a b` can form a consonantal syllable: a hard consonant followed by a
/// different sonorant.
pub open spec fn consonantal_ok(a: char, b: char) -> bool {
    hard_consonant(a) && sonorant(b) && a != b
}

/// The consonantal syllable `a b`.
pub open spec fn consonantal_syllable(a: char, b: char) -> Syllable {
    Syllable { onset: Onset::Single(a), nucleus: Nucleus::Sonorant(b), coda: None }
}

/// The `j`-th pair of `ltr` forms a consonantal syllable.
pub open spec fn pair_ok_at(ltr: Seq<char>, j: int) -> bool {
    consonantal_ok(ltr[2 * j], ltr[2 * j + 1])
}

/// The consonantal syllables, left to right, that the letters `rtl` (given
/// right to left, an even number of them) form, if every pair forms one.
pub open spec fn pairs_of(rtl: Seq<char>) -> Option<Seq<Syllable>> {
    let ltr = rtl.reverse();
    if forall|j: int| 0 <= j < rtl.len() / 2 ==> #[trigger] pair_ok_at(ltr, j) {
        Some(Seq::new(rtl.len() / 2, |j: int| consonantal_syllable(ltr[2 * j], ltr[2 * j + 1])))
    } else {
        None
    }
}

/// How `rtl` (letters right to left) splits into an optional coda (its
/// leftmost letter, where `allow_coda`) followed by consonantal syllables.
pub open spec fn coda_split(rtl: Seq<char>, allow_coda: bool) -> Option<(Option<Coda>, Seq<Syllable>)> {
    if rtl.len() == 0 {
        Some((None, seq![]))
    } else if allow_coda && rtl.len() % 2 == 1 && hard_consonant(rtl.last()) && pairs_of(
        rtl.drop_last(),
    ) is Some {
        Some((Some(Coda(rtl.last())), pairs_of(rtl.drop_last())->0))
    } else if rtl.len() % 2 == 0 && pairs_of(rtl) is Some {
        Some((None, pairs_of(rtl)->0))
    } else {
        None
    }
}

/// A consonantal syllable is a valid syllable.
pub proof fn lemma_consonantal_valid(a: char, b: char)
    requires
        consonantal_ok(a, b),
    ensures
        consonantal_syllable(a, b).valid(),
{
    assert(seq![a] != seq!['\'']) by {
        assert(seq![a][0] != seq!['\''][0]);
    }
    assert(Onset::Single(a).spelling() =~= seq![a]);
    assert(Nucleus::Sonorant(b).with_stress(false).spelling() =~= seq![b]);
}

/// The coda and syllables that a run of consonants splits into are valid.
pub proof fn lemma_coda_split_valid(rtl: Seq<char>, allow_coda: bool)
    ensures
        coda_split(rtl, allow_coda) matches Some((coda, pairs)) ==> {
            &&& (coda matches Some(c) ==> hard_consonant(c.0))
            &&& forall|j: int| 0 <= j < pairs.len() ==> (#[trigger] pairs[j]).valid()
        },
{
    if coda_split(rtl, allow_coda) is Some {
        let (coda, pairs) = coda_split(rtl, allow_coda)->0;
        let src = if coda is Some {
            rtl.drop_last()
        } else {
            rtl
        };
        assert(pairs_of(src) == Some(pairs) || rtl.len() == 0);
        assert forall|j: int| 0 <= j < pairs.len() implies (#[trigger] pairs[j]).valid() by {
            let ltr = src.reverse();
            assert(pair_ok_at(ltr, j));
            lemma_consonantal_valid(ltr[2 * j], ltr[2 * j + 1]);
        }
    }
}

/// Tries to package `chars` (rtl) into consonantal [`Syllable`]s (ltr).
pub(crate) fn pair_consonantal(chars: &[char]) -> (r: Option<Vec<Syllable>>)
    requires
        chars.len() % 2 == 0,
    ensures
        match r {
            Some(v) => pairs_of(chars@) == Some(v@),
            None => pairs_of(chars@) is None,
        },
{
    let n = chars.len();
    let ghost ltr = chars@.reverse();
    let mut out: Vec<Syllable> = Vec::new();
    let mut j: usize = 0;
    while j < n / 2
        invariant
            n == chars.len(),
            n % 2 == 0,
            ltr == chars@.reverse(),
            j <= n / 2,
            out@.len() == j,
            forall|k: int| 0 <= k < j ==> #[trigger] pair_ok_at(ltr, k),
            forall|k: int|
                0 <= k < j ==> #[trigger] out@[k] == consonantal_syllable(ltr[2 * k], ltr[2 * k + 1]),
        decreases n / 2 - j,
    {
        let a = chars[n - 1 - 2 * j];
        let b = chars[n - 2 - 2 * j];
        assert(ltr[2 * j] == a && ltr[2 * j + 1] == b);
        if !(is_hard_consonant(a) && is_sonorant(b) && a != b) {
            assert(!pair_ok_at(ltr, j as int));
            return None;
        }
        out.push(Syllable { onset: Onset::Single(a), nucleus: Nucleus::Sonorant(b), coda: None });
        j += 1;
    }
    assert(out@ =~= Seq::new(
        (n / 2) as nat,
        |k: int| consonantal_syllable(ltr[2 * k], ltr[2 * k + 1]),
    ));
    Some(out)
}

/// The letters of `rtl` in left-to-right order, as a `String`.
pub(crate) fn reversed_string(rtl: &[char]) -> (s: String)
    ensures
        s@ == rtl@.reverse(),
{
    let mut s = String::new();
    let mut i = rtl.len();
    while i > 0
        invariant
            i <= rtl.len(),
            s@ == rtl@.subrange(i as int, rtl.len() as int).reverse(),
        decreases i,
    {
        i -= 1;
        push_char(&mut s, rtl[i]);
        assert(rtl@.subrange(i as int, rtl.len() as int).reverse() =~= rtl@.subrange(
            i + 1,
            rtl.len() as int,
        ).reverse().push(rtl@[i as int]));
    }
    assert(rtl@.subrange(0, rtl.len() as int) == rtl@);
    s
}

/// Tries to split `chars` (rtl) into an optional coda and maybe some
/// consonantal syllables (ltr).
pub(crate) fn split_into_coda_and_consonantal(chars: &[char], allow_coda: bool) -> (r: Result<
    (Option<Coda>, Vec<Syllable>),
    Jvofli,
>)
    ensures
        match r {
            Ok((coda, pairs)) => coda_split(chars@, allow_coda) == Some((coda, pairs@)),
            Err(e) => coda_split(chars@, allow_coda) is None && (e matches Jvofli::Invalid {
                what,
                value,
            } && what == What::ConsonantRun && value@ == chars@.reverse()),
        },
{
    let n = chars.len();
    if n == 0 {
        return Ok((None, Vec::new()));
    }
    if allow_coda && n % 2 == 1 {
        let last = chars[n - 1];
        if let Some(coda) = Coda::new(last) {
            let rest = &chars[0..n - 1];
            assert(rest@ == chars@.drop_last());
            if let Some(pairs) = pair_consonantal(rest) {
                return Ok((Some(coda), pairs));
            }
        }
    }
    if n % 2 == 0 {
        if let Some(pairs) = pair_consonantal(chars) {
            return Ok((None, pairs));
        }
    }
    Err(Jvofli::Invalid { what: What::ConsonantRun, value: reversed_string(chars) })
}

} // verus!
