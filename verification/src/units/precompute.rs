//! Per-syllable tables that the stress resolution looks up: hard consonant
//! counts, stressable and stressed syllables, and brivla evidence.

use vstd::prelude::*;

use crate::settings::Settings;
use crate::syllables::{Nucleus, Syllable};
use crate::units::cmavo::{
    cmavo_permitted_after_y, cmavo_start, permitted_after_y, tails_within,
};

verus! {

/// The most syllables that the stress resolution handles; it keeps the
/// hard consonant counts of all of them in a `usize`.
pub open spec fn max_syllables() -> int {
    usize::MAX as int / 8
}

// - hard consonants -

/// The number of hard consonants in the first `k` syllables.
pub open spec fn hc_sum(s: Seq<Syllable>, k: int) -> int
    decreases k,
{
    if k <= 0 || k > s.len() {
        0
    } else {
        hc_sum(s, k - 1) + s[k - 1].hard_count()
    }
}

pub proof fn lemma_hc_sum_bounds(s: Seq<Syllable>, k: int)
    requires
        0 <= k <= s.len(),
    ensures
        0 <= hc_sum(s, k) <= 5 * k,
    decreases k,
{
    if k > 0 {
        lemma_hc_sum_bounds(s, k - 1);
    }
}

pub proof fn lemma_hc_sum_monotonic(s: Seq<Syllable>, j: int, k: int)
    requires
        0 <= j <= k <= s.len(),
    ensures
        hc_sum(s, j) <= hc_sum(s, k),
    decreases k - j,
{
    if j < k {
        lemma_hc_sum_monotonic(s, j, k - 1);
    }
}

/// Returns prefix sums of hard consonant counts: `prefix[k]` is the total hard
/// consonants in `syllables[0..k]`.
pub(crate) fn hard_consonant_prefix_sums(syllables: &[Syllable]) -> (prefix: Vec<usize>)
    requires
        syllables.len() <= max_syllables(),
    ensures
        prefix@.len() == syllables.len() + 1,
        forall|k: int| 0 <= k <= syllables.len() ==> #[trigger] prefix@[k] == hc_sum(syllables@, k),
{
    let mut prefix: Vec<usize> = Vec::new();
    prefix.push(0);
    let mut running: usize = 0;
    let mut i: usize = 0;
    while i < syllables.len()
        invariant
            syllables.len() <= max_syllables(),
            i <= syllables.len(),
            prefix@.len() == i + 1,
            running == hc_sum(syllables@, i as int),
            forall|k: int| 0 <= k <= i ==> #[trigger] prefix@[k] == hc_sum(syllables@, k),
        decreases syllables.len() - i,
    {
        proof {
            lemma_hc_sum_bounds(syllables@, i + 1);
        }
        running = running + syllables[i].hard_consonant_count();
        prefix.push(running);
        i += 1;
    }
    prefix
}

// - stress -

/// A nucleus that can carry stress: neither *y* nor a sonorant.
pub open spec fn stressable(n: Nucleus) -> bool {
    !(n is Y || n is Sonorant)
}

/// The largest `j <= i` whose syllable is stressable.
pub open spec fn nearest_stressable(s: Seq<Syllable>, i: int) -> Option<int>
    decreases i + 1,
{
    if i < 0 || i >= s.len() {
        None
    } else if stressable(s[i].nucleus) {
        Some(i)
    } else {
        nearest_stressable(s, i - 1)
    }
}

pub proof fn lemma_nearest_stressable(s: Seq<Syllable>, i: int, k: int)
    requires
        0 <= k <= i < s.len(),
        stressable(s[k].nucleus),
    ensures
        nearest_stressable(s, i) matches Some(j) && k <= j <= i && stressable(s[j].nucleus),
    decreases i,
{
    if i > k && !stressable(s[i].nucleus) {
        lemma_nearest_stressable(s, i - 1, k);
    }
}

pub proof fn lemma_nearest_stressable_some(s: Seq<Syllable>, i: int)
    requires
        nearest_stressable(s, i) is Some,
    ensures
        nearest_stressable(s, i) matches Some(j) && 0 <= j <= i < s.len() && stressable(
            s[j].nucleus,
        ),
    decreases i + 1,
{
    if i >= 0 && i < s.len() && !stressable(s[i].nucleus) {
        lemma_nearest_stressable_some(s, i - 1);
    }
}

/// Returns, for each index `i`, the largest `j <= i` where `syllables[j]` is
/// stressable, or `None` if there is no such `j`.
pub(crate) fn nearest_stressable_at_or_before(syllables: &[Syllable]) -> (out: Vec<Option<usize>>)
    ensures
        out@.len() == syllables.len(),
        forall|k: int|
            0 <= k < syllables.len() ==> (match #[trigger] out@[k] {
                Some(j) => nearest_stressable(syllables@, k) == Some(j as int),
                None => nearest_stressable(syllables@, k) is None,
            }),
{
    let mut out: Vec<Option<usize>> = Vec::new();
    let mut last: Option<usize> = None;
    let mut i: usize = 0;
    while i < syllables.len()
        invariant
            i <= syllables.len(),
            out@.len() == i,
            match last {
                Some(j) => nearest_stressable(syllables@, i - 1) == Some(j as int),
                None => nearest_stressable(syllables@, i - 1) is None,
            },
            forall|k: int|
                0 <= k < i ==> (match #[trigger] out@[k] {
                    Some(j) => nearest_stressable(syllables@, k) == Some(j as int),
                    None => nearest_stressable(syllables@, k) is None,
                }),
        decreases syllables.len() - i,
    {
        if syllables[i].nucleus.is_stressable() {
            last = Some(i);
        }
        out.push(last);
        i += 1;
    }
    out
}

/// The nearest `j > i` whose syllable is stressable, or the length.
pub open spec fn next_stressable(s: Seq<Syllable>, i: int) -> int
    decreases s.len() - i,
{
    if i + 1 >= s.len() {
        s.len() as int
    } else if stressable(s[i + 1].nucleus) {
        i + 1
    } else {
        next_stressable(s, i + 1)
    }
}

pub proof fn lemma_next_stressable_bounds(s: Seq<Syllable>, i: int)
    ensures
        i < next_stressable(s, i) || next_stressable(s, i) == s.len(),
        next_stressable(s, i) <= s.len() || i + 1 >= s.len(),
        next_stressable(s, i) <= s.len(),
    decreases s.len() - i,
{
    if i + 1 < s.len() && !stressable(s[i + 1].nucleus) {
        lemma_next_stressable_bounds(s, i + 1);
    }
}

/// For each index `i`, returns the nearest stressable syllable strictly after
/// `i`, or `n` if none exists.
pub(crate) fn next_stressable_after(syllables: &[Syllable]) -> (out: Vec<usize>)
    ensures
        out@.len() == syllables.len(),
        forall|k: int|
            0 <= k < syllables.len() ==> #[trigger] out@[k] == next_stressable(syllables@, k),
{
    let n = syllables.len();
    let mut out: Vec<usize> = vec![n; n];
    if n == 0 {
        return out;
    }
    let mut i = n - 1;
    while i > 0
        invariant
            n == syllables.len(),
            n > 0,
            out@.len() == n,
            i < n,
            forall|k: int| i <= k < n ==> #[trigger] out@[k] == next_stressable(syllables@, k),
        decreases i,
    {
        i -= 1;
        let v = if syllables[i + 1].nucleus.is_stressable() {
            i + 1
        } else {
            out[i + 1]
        };
        out.set(i, v);
    }
    out
}

/// The nearest `j >= i` whose syllable is explicitly stressed.
pub open spec fn next_stressed(s: Seq<Syllable>, i: int) -> Option<int>
    decreases s.len() - i,
{
    if i < 0 || i >= s.len() {
        None
    } else if s[i].nucleus.stressed_spec() {
        Some(i)
    } else {
        next_stressed(s, i + 1)
    }
}

pub proof fn lemma_next_stressed(s: Seq<Syllable>, i: int)
    requires
        0 <= i,
    ensures
        next_stressed(s, i) matches Some(j) ==> i <= j < s.len() && s[j].nucleus.stressed_spec()
            && forall|k: int| i <= k < j ==> !(#[trigger] s[k].nucleus.stressed_spec()),
        next_stressed(s, i) is None ==> forall|k: int|
            i <= k < s.len() ==> !(#[trigger] s[k].nucleus.stressed_spec()),
    decreases s.len() - i,
{
    if i < s.len() && !s[i].nucleus.stressed_spec() {
        lemma_next_stressed(s, i + 1);
    }
}

/// For each index `i` (and the length), the nearest explicitly stressed
/// syllable at or after `i`.
pub(crate) fn next_explicit_stresses(syllables: &[Syllable]) -> (out: Vec<Option<usize>>)
    requires
        syllables.len() <= max_syllables(),
    ensures
        out@.len() == syllables.len() + 1,
        forall|k: int|
            0 <= k <= syllables.len() ==> (match #[trigger] out@[k] {
                Some(j) => next_stressed(syllables@, k) == Some(j as int),
                None => next_stressed(syllables@, k) is None,
            }),
{
    let n = syllables.len();
    let mut out: Vec<Option<usize>> = vec![None; n + 1];
    let mut i = n;
    while i > 0
        invariant
            n == syllables.len(),
            out@.len() == n + 1,
            i <= n,
            forall|k: int|
                i <= k <= n ==> (match #[trigger] out@[k] {
                    Some(j) => next_stressed(syllables@, k) == Some(j as int),
                    None => next_stressed(syllables@, k) is None,
                }),
        decreases i,
    {
        i -= 1;
        let v = if syllables[i].nucleus.is_stressed() {
            Some(i)
        } else {
            out[i + 1]
        };
        out.set(i, v);
    }
    out
}

// - brivla evidence -

/// The first index in `i..n` that satisfies `p`.
pub open spec fn first_from(p: spec_fn(int) -> bool, i: int, n: int) -> Option<int>
    decreases n - i,
{
    if i >= n {
        None
    } else if p(i) {
        Some(i)
    } else {
        first_from(p, i + 1, n)
    }
}

/// The last index below `i` (and at least 0) that satisfies `p`.
pub open spec fn last_before(p: spec_fn(int) -> bool, i: int) -> Option<int>
    decreases i,
{
    if i <= 0 {
        None
    } else if p(i - 1) {
        Some(i - 1)
    } else {
        last_before(p, i - 1)
    }
}

/// The smaller of two optional indices, ignoring a missing one.
pub open spec fn min_option(a: Option<int>, b: Option<int>) -> Option<int> {
    match (a, b) {
        (Some(x), Some(y)) => Some(if x <= y {
            x
        } else {
            y
        }),
        (Some(x), None) => Some(x),
        (None, y) => y,
    }
}

pub proof fn lemma_first_from(p: spec_fn(int) -> bool, i: int, n: int)
    ensures
        first_from(p, i, n) matches Some(j) ==> i <= j < n && p(j) && forall|k: int|
            i <= k < j ==> !#[trigger] p(k),
        first_from(p, i, n) is None ==> forall|k: int| i <= k < n ==> !#[trigger] p(k),
    decreases n - i,
{
    if i < n && !p(i) {
        lemma_first_from(p, i + 1, n);
    }
}

pub proof fn lemma_last_before(p: spec_fn(int) -> bool, i: int)
    ensures
        last_before(p, i) matches Some(j) ==> 0 <= j < i && p(j) && forall|k: int|
            j < k < i ==> !#[trigger] p(k),
        last_before(p, i) is None ==> forall|k: int| 0 <= k < i ==> !#[trigger] p(k),
    decreases i,
{
    if i > 0 && !p(i - 1) {
        lemma_last_before(p, i - 1);
    }
}

/// The nucleus of syllable `i` shows that a brivla is near: a sonorant, or a
/// *y* after which the next cmavo may not follow.
pub open spec fn nucleus_evidence(s: Seq<Syllable>, tails: Seq<usize>, arb: bool, i: int) -> bool {
    s[i].nucleus is Sonorant || (s[i].nucleus is Y && i + 1 < s.len() && !permitted_after_y(
        s,
        tails,
        cmavo_start(s, i),
        i + 1,
        arb,
    ))
}

/// Syllable `i` has a coda or a cluster onset.
pub open spec fn periphery_evidence(s: Seq<Syllable>, i: int) -> bool {
    s[i].coda is Some || s[i].onset.hard_count() >= 2
}

/// Syllable `i` does not interrupt a stretch of evidence: an apostrophe
/// onset or nucleus evidence.
pub open spec fn passes_evidence(s: Seq<Syllable>, tails: Seq<usize>, arb: bool, i: int) -> bool {
    s[i].onset is H || nucleus_evidence(s, tails, arb, i)
}

pub open spec fn nucleus_pred(s: Seq<Syllable>, tails: Seq<usize>, arb: bool) -> spec_fn(
    int,
) -> bool {
    |j: int| nucleus_evidence(s, tails, arb, j)
}

pub open spec fn periphery_pred(s: Seq<Syllable>) -> spec_fn(int) -> bool {
    |j: int| periphery_evidence(s, j)
}

pub open spec fn blocker_pred(s: Seq<Syllable>, tails: Seq<usize>, arb: bool) -> spec_fn(
    int,
) -> bool {
    |j: int| !passes_evidence(s, tails, arb, j)
}

/// The leftmost brivla evidence target for a segment starting at `start`.
pub open spec fn evidence_target(s: Seq<Syllable>, tails: Seq<usize>, arb: bool, start: int) -> Option<
    int,
> {
    let n = s.len() as int;
    let local = min_option(
        first_from(periphery_pred(s), start, n),
        first_from(nucleus_pred(s, tails, arb), start, n),
    );
    let remote = match first_from(blocker_pred(s, tails, arb), start, n) {
        Some(b) => match first_from(nucleus_pred(s, tails, arb), b + 1, n) {
            Some(i) => last_before(blocker_pred(s, tails, arb), i),
            None => None,
        },
        None => None,
    };
    min_option(local, remote)
}

pub proof fn lemma_evidence_target_bounds(
    s: Seq<Syllable>,
    tails: Seq<usize>,
    arb: bool,
    start: int,
)
    requires
        0 <= start,
    ensures
        evidence_target(s, tails, arb, start) matches Some(t) ==> start <= t < s.len(),
{
    let n = s.len() as int;
    lemma_first_from(periphery_pred(s), start, n);
    lemma_first_from(nucleus_pred(s, tails, arb), start, n);
    lemma_first_from(blocker_pred(s, tails, arb), start, n);
    if let Some(b) = first_from(blocker_pred(s, tails, arb), start, n) {
        lemma_first_from(nucleus_pred(s, tails, arb), b + 1, n);
        if let Some(i) = first_from(nucleus_pred(s, tails, arb), b + 1, n) {
            lemma_last_before(blocker_pred(s, tails, arb), i);
            assert(blocker_pred(s, tails, arb)(b));
        }
    }
}

/// Evidence at `j`, at or after `start`, gives the segment a target.
pub proof fn lemma_evidence_target_some(
    s: Seq<Syllable>,
    tails: Seq<usize>,
    arb: bool,
    start: int,
    j: int,
)
    requires
        0 <= start <= j < s.len(),
        periphery_evidence(s, j) || nucleus_evidence(s, tails, arb, j),
    ensures
        evidence_target(s, tails, arb, start) is Some,
{
    let n = s.len() as int;
    lemma_first_from(periphery_pred(s), start, n);
    lemma_first_from(nucleus_pred(s, tails, arb), start, n);
    if periphery_evidence(s, j) {
        assert(periphery_pred(s)(j));
    } else {
        assert(nucleus_pred(s, tails, arb)(j));
    }
}

fn has_nucleus_evidence(
    syllables: &[Syllable],
    cmavo_tail_lens: &[usize],
    starts: &Vec<usize>,
    settings: Settings,
    i: usize,
) -> (b: bool)
    requires
        cmavo_tail_lens.len() == syllables.len(),
        tails_within(cmavo_tail_lens@),
        starts@.len() == syllables.len(),
        forall|k: int|
            0 <= k < syllables.len() ==> #[trigger] starts@[k] == cmavo_start(syllables@, k),
        i < syllables.len(),
    ensures
        b == nucleus_evidence(syllables@, cmavo_tail_lens@, settings.arbitrary_cmavo_rafsi, i as int),
{
    let n = syllables.len();
    match syllables[i].nucleus {
        Nucleus::Sonorant(_) => true,
        Nucleus::Y => {
            if i + 1 < n {
                let pos = starts[i];
                proof {
                    lemma_cmavo_start_bounds(syllables@, i as int);
                }
                !cmavo_permitted_after_y(syllables, cmavo_tail_lens, pos, i + 1, settings)
            } else {
                false
            }
        },
        _ => false,
    }
}

pub proof fn lemma_cmavo_start_bounds(s: Seq<Syllable>, i: int)
    requires
        0 <= i < s.len(),
    ensures
        0 <= cmavo_start(s, i) <= i,
    decreases i,
{
    if 0 < i && s[i].continues_cmavo() {
        lemma_cmavo_start_bounds(s, i - 1);
    }
}

/// Precomputes the leftmost brivla evidence target for every start position.
pub(crate) fn evidence_target_from(
    syllables: &[Syllable],
    cmavo_tail_lens: &[usize],
    settings: Settings,
) -> (out: Vec<Option<usize>>)
    requires
        cmavo_tail_lens.len() == syllables.len(),
        tails_within(cmavo_tail_lens@),
        syllables.len() <= max_syllables(),
    ensures
        out@.len() == syllables.len(),
        forall|k: int|
            0 <= k < syllables.len() ==> (match #[trigger] out@[k] {
                Some(t) => evidence_target(
                    syllables@,
                    cmavo_tail_lens@,
                    settings.arbitrary_cmavo_rafsi,
                    k,
                ) == Some(t as int),
                None => evidence_target(
                    syllables@,
                    cmavo_tail_lens@,
                    settings.arbitrary_cmavo_rafsi,
                    k,
                ) is None,
            }),
{
    let n = syllables.len();
    let ghost s = syllables@;
    let ghost t = cmavo_tail_lens@;
    let ghost arb = settings.arbitrary_cmavo_rafsi;
    let starts = crate::units::cmavo::cmavo_starts(syllables);
    // prev_blocker[i]: the last blocker before i
    let mut prev_blocker: Vec<Option<usize>> = Vec::new();
    let mut last: Option<usize> = None;
    let mut i: usize = 0;
    while i < n
        invariant
            n == syllables.len(),
            cmavo_tail_lens.len() == n,
            tails_within(t),
            s == syllables@,
            t == cmavo_tail_lens@,
            arb == settings.arbitrary_cmavo_rafsi,
            starts@.len() == n,
            forall|k: int| 0 <= k < n ==> #[trigger] starts@[k] == cmavo_start(s, k),
            i <= n,
            prev_blocker@.len() == i,
            match last {
                Some(j) => last_before(blocker_pred(s, t, arb), i as int) == Some(j as int),
                None => last_before(blocker_pred(s, t, arb), i as int) is None,
            },
            forall|k: int|
                0 <= k < i ==> (match #[trigger] prev_blocker@[k] {
                    Some(j) => last_before(blocker_pred(s, t, arb), k) == Some(j as int),
                    None => last_before(blocker_pred(s, t, arb), k) is None,
                }),
        decreases n - i,
    {
        prev_blocker.push(last);
        let passes = syllables[i].has_h_onset() || has_nucleus_evidence(
            syllables,
            cmavo_tail_lens,
            &starts,
            settings,
            i,
        );
        if !passes {
            last = Some(i);
        }
        i += 1;
    }
    let mut next_blocker: Vec<Option<usize>> = vec![None; n + 1];
    let mut next_periphery: Vec<Option<usize>> = vec![None; n + 1];
    let mut next_nucleus: Vec<Option<usize>> = vec![None; n + 1];
    let mut i = n;
    while i > 0
        invariant
            n == syllables.len(),
            cmavo_tail_lens.len() == n,
            tails_within(t),
            s == syllables@,
            t == cmavo_tail_lens@,
            arb == settings.arbitrary_cmavo_rafsi,
            starts@.len() == n,
            forall|k: int| 0 <= k < n ==> #[trigger] starts@[k] == cmavo_start(s, k),
            i <= n,
            next_blocker@.len() == n + 1,
            next_periphery@.len() == n + 1,
            next_nucleus@.len() == n + 1,
            forall|k: int|
                i <= k <= n ==> (match #[trigger] next_blocker@[k] {
                    Some(j) => first_from(blocker_pred(s, t, arb), k, n as int) == Some(j as int),
                    None => first_from(blocker_pred(s, t, arb), k, n as int) is None,
                }),
            forall|k: int|
                i <= k <= n ==> (match #[trigger] next_periphery@[k] {
                    Some(j) => first_from(periphery_pred(s), k, n as int) == Some(j as int),
                    None => first_from(periphery_pred(s), k, n as int) is None,
                }),
            forall|k: int|
                i <= k <= n ==> (match #[trigger] next_nucleus@[k] {
                    Some(j) => first_from(nucleus_pred(s, t, arb), k, n as int) == Some(j as int),
                    None => first_from(nucleus_pred(s, t, arb), k, n as int) is None,
                }),
        decreases i,
    {
        i -= 1;
        let nuc = has_nucleus_evidence(syllables, cmavo_tail_lens, &starts, settings, i);
        let passes = syllables[i].has_h_onset() || nuc;
        let periphery = syllables[i].coda.is_some()
            || syllables[i].onset.hard_consonant_count() >= 2;
        assert(blocker_pred(s, t, arb)(i as int) == !passes);
        assert(periphery_pred(s)(i as int) == periphery);
        assert(nucleus_pred(s, t, arb)(i as int) == nuc);
        let b = if passes {
            next_blocker[i + 1]
        } else {
            Some(i)
        };
        next_blocker.set(i, b);
        let p = if periphery {
            Some(i)
        } else {
            next_periphery[i + 1]
        };
        next_periphery.set(i, p);
        let q = if nuc {
            Some(i)
        } else {
            next_nucleus[i + 1]
        };
        next_nucleus.set(i, q);
    }
    let mut out: Vec<Option<usize>> = Vec::new();
    let mut start: usize = 0;
    while start < n
        invariant
            n == syllables.len(),
            s == syllables@,
            t == cmavo_tail_lens@,
            arb == settings.arbitrary_cmavo_rafsi,
            start <= n,
            out@.len() == start,
            prev_blocker@.len() == n,
            next_blocker@.len() == n + 1,
            next_periphery@.len() == n + 1,
            next_nucleus@.len() == n + 1,
            forall|k: int|
                0 <= k < n ==> (match #[trigger] prev_blocker@[k] {
                    Some(j) => last_before(blocker_pred(s, t, arb), k) == Some(j as int),
                    None => last_before(blocker_pred(s, t, arb), k) is None,
                }),
            forall|k: int|
                0 <= k <= n ==> (match #[trigger] next_blocker@[k] {
                    Some(j) => first_from(blocker_pred(s, t, arb), k, n as int) == Some(j as int),
                    None => first_from(blocker_pred(s, t, arb), k, n as int) is None,
                }),
            forall|k: int|
                0 <= k <= n ==> (match #[trigger] next_periphery@[k] {
                    Some(j) => first_from(periphery_pred(s), k, n as int) == Some(j as int),
                    None => first_from(periphery_pred(s), k, n as int) is None,
                }),
            forall|k: int|
                0 <= k <= n ==> (match #[trigger] next_nucleus@[k] {
                    Some(j) => first_from(nucleus_pred(s, t, arb), k, n as int) == Some(j as int),
                    None => first_from(nucleus_pred(s, t, arb), k, n as int) is None,
                }),
            forall|k: int|
                0 <= k < start ==> (match #[trigger] out@[k] {
                    Some(x) => evidence_target(s, t, arb, k) == Some(x as int),
                    None => evidence_target(s, t, arb, k) is None,
                }),
        decreases n - start,
    {
        let local = match (next_periphery[start], next_nucleus[start]) {
            (Some(a), Some(b)) => Some(
                if a <= b {
                    a
                } else {
                    b
                },
            ),
            (Some(a), None) => Some(a),
            (None, b) => b,
        };
        let remote = match next_blocker[start] {
            Some(b) => {
                proof {
                    lemma_first_from(blocker_pred(s, t, arb), start as int, n as int);
                }
                match next_nucleus[b + 1] {
                    Some(i) => {
                        proof {
                            lemma_first_from(nucleus_pred(s, t, arb), b + 1, n as int);
                            lemma_last_before(blocker_pred(s, t, arb), i as int);
                            assert(blocker_pred(s, t, arb)(b as int));
                        }
                        match prev_blocker[i] {
                            Some(j) => Some(j),
                            None => {
                                assert(false);
                                None
                            },
                        }
                    },
                    None => None,
                }
            },
            None => None,
        };
        let r = match (local, remote) {
            (Some(a), Some(b)) => Some(
                if a <= b {
                    a
                } else {
                    b
                },
            ),
            (Some(a), None) => Some(a),
            (None, b) => b,
        };
        out.push(r);
        start += 1;
    }
    out
}

} // verus!
