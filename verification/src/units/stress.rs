//! Placing stress and splitting a pause group's syllables into units.

use std::collections::VecDeque;
use vstd::prelude::*;

use crate::jvofli::{Fault, Jvofli};
use crate::settings::Settings;
use crate::syllables::{Onset, Syllable};
use crate::text::{join_strings, joined};
use crate::units::letters::{lemma_syl_letters_concat, lemma_syl_letters_one, syl_letters};
use crate::units::cmavo::{
    as_ints, cmavo_sequence, cmavo_syllables, lemma_true_tails_of, tails_of, boundaries_spec, chain_from, cmavo_boundaries_from, cmavo_tail_lengths,
    is_cmavo_sequence, lemma_chain_bounds, lemma_chain_evidence, lemma_tails_slice_within,
    tails_within, true_tails,
};
use crate::units::precompute::{
    evidence_target, evidence_target_from, hard_consonant_prefix_sums, hc_sum,
    lemma_evidence_target_bounds, lemma_evidence_target_some, lemma_hc_sum_bounds,
    lemma_hc_sum_monotonic, lemma_nearest_stressable, lemma_next_stressable_bounds,
    lemma_next_stressed, lemma_nearest_stressable_some, max_syllables, nearest_stressable, nearest_stressable_at_or_before, next_explicit_stresses,
    next_stressable, next_stressable_after, next_stressed, stressable,
};
use crate::units::{
    all_normal_ok, all_pre_brivla_stressed, all_syllables, deque_of, lemma_all_syllables_concat,
    lemma_all_syllables_push, lemma_plain_seq_concat, normal_unit_ok, plain_seq, plain_syllable,
    pre_brivla_stressed, unit_syllables, Unit,
};

verus! {

/// The cmavo boundaries from `start` begin at 0, rise strictly, stay inside
/// the segment, and each of them ends a run of continuing syllables.
pub proof fn lemma_boundaries(s: Seq<Syllable>, t: Seq<usize>, arb: bool, start: int)
    requires
        true_tails(s, t),
        0 <= start < s.len(),
        !s[start].continues_cmavo(),
    ensures
        ({
            let b = boundaries_spec(s, t, arb, start);
            &&& b.len() >= 1
            &&& b[0] == 0
            &&& forall|k: int|
                0 <= k < b.len() ==> 0 <= #[trigger] b[k] <= s.len() - start && (start + b[k]
                    == s.len() || !s[start + b[k]].continues_cmavo())
            &&& forall|j: int, k: int| 0 <= j < k < b.len() ==> b[j] < b[k]
        }),
{
    lemma_chain_bounds(s, t, arb, start, start);
    let c = chain_from(s, t, arb, start, start);
    let b = boundaries_spec(s, t, arb, start);
    assert(b == seq![0int] + c);
    assert forall|k: int| 0 <= k < b.len() implies 0 <= #[trigger] b[k] <= s.len() - start && (
    start + b[k] == s.len() || !s[start + b[k]].continues_cmavo()) by {
        if k > 0 {
            assert(b[k] == c[k - 1]);
        }
    }
    assert forall|j: int, k: int| 0 <= j < k < b.len() implies b[j] < b[k] by {
        assert(b[k] == c[k - 1]);
        if j > 0 {
            assert(b[j] == c[j - 1]);
        }
    }
}

/// Where the cmavo boundaries from `start` stop short of the end, the
/// segment has a brivla evidence target.
pub proof fn lemma_evidence_exists(s: Seq<Syllable>, t: Seq<usize>, arb: bool, start: int)
    requires
        true_tails(s, t),
        0 <= start < s.len(),
        !s[start].continues_cmavo(),
        boundaries_spec(s, t, arb, start).last() != s.len() - start,
    ensures
        evidence_target(s, t, arb, start) matches Some(e) && start <= e < s.len(),
{
    let c = chain_from(s, t, arb, start, start);
    let b = boundaries_spec(s, t, arb, start);
    assert(b == seq![0int] + c);
    if c.len() > 0 {
        assert(b.last() == c.last());
    }
    let j = lemma_chain_evidence(s, t, arb, start, start);
    lemma_evidence_target_some(s, t, arb, start, j);
    lemma_evidence_target_bounds(s, t, arb, start);
}

/// A pre-brivla of the segment from `start` could start at `l`: no later
/// than `target`, at least two syllables before the end, on a stressable
/// syllable without an apostrophe onset.
pub open spec fn default_ok(s: Seq<Syllable>, start: int, l: int, target: int) -> bool {
    &&& l <= target
    &&& s.len() - start - l >= 2
    &&& !(s[start + l].onset is H)
    &&& stressable(s[start + l].nucleus)
}

/// The last cmavo boundary `l` (searching from the end) at which a
/// pre-brivla could start: no later than `target`, at least two syllables
/// before the end, on a stressable syllable without an apostrophe onset.
/// Returns its position in `boundaries` and the boundary.
fn find_default_start(
    syllables: &[Syllable],
    start: usize,
    boundaries: &Vec<usize>,
    target: usize,
) -> (r: Option<(usize, usize)>)
    requires
        start < syllables.len(),
        forall|k: int| 0 <= k < boundaries.len() ==> #[trigger] boundaries@[k] <= syllables.len() - start,
    ensures
        r matches Some((idx, l)) ==> {
            &&& idx < boundaries.len()
            &&& l == boundaries@[idx as int]
            &&& l <= target
            &&& syllables.len() - start - l >= 2
            &&& !(syllables@[start + l].onset is H)
            &&& stressable(syllables@[start + l].nucleus)
            &&& forall|j: int|
                idx < j < boundaries.len() ==> !default_ok(
                    syllables@,
                    start as int,
                    #[trigger] boundaries@[j] as int,
                    target as int,
                )
        },
        r is None ==> forall|j: int|
            0 <= j < boundaries.len() ==> !default_ok(
                syllables@,
                start as int,
                #[trigger] boundaries@[j] as int,
                target as int,
            ),
{
    let seg_len = syllables.len() - start;
    let mut k = boundaries.len();
    while k > 0
        invariant
            k <= boundaries.len(),
            seg_len == syllables.len() - start,
            start < syllables.len(),
            forall|j: int| 0 <= j < boundaries.len() ==> #[trigger] boundaries@[j] <= seg_len,
            forall|j: int|
                k <= j < boundaries.len() ==> !default_ok(
                    syllables@,
                    start as int,
                    #[trigger] boundaries@[j] as int,
                    target as int,
                ),
        decreases k,
    {
        k -= 1;
        let l = boundaries[k];
        if l <= target && seg_len - l >= 2 && !syllables[start + l].has_h_onset()
            && syllables[start + l].nucleus.is_stressable() {
            return Some((k, l));
        }
    }
    None
}

/// Returns whether no syllable in `from..to` is explicitly stressed.
fn none_stressed(syllables: &[Syllable], from: usize, to: usize) -> (b: bool)
    requires
        to <= syllables.len(),
    ensures
        b == forall|j: int| from <= j < to ==> !(#[trigger] syllables@[j].nucleus.stressed_spec()),
{
    let mut j = from;
    while j < to
        invariant
            to <= syllables.len(),
            from <= j || to <= j,
            forall|k: int| from <= k < j && k < to ==> !(#[trigger] syllables@[k].nucleus.stressed_spec()),
        decreases to - j,
    {
        if syllables[j].nucleus.is_stressed() {
            return false;
        }
        j += 1;
    }
    true
}

/// A pre-brivla of the segment from `start` whose stress is at
/// `stress_idx` could end at `r`: its last syllable has no coda, the next
/// one, if any, no apostrophe onset, and nothing after the stress is
/// stressed.
pub open spec fn candidate_ok(s: Seq<Syllable>, start: int, stress_idx: int, r: int) -> bool {
    &&& s[start + r - 1].coda is None
    &&& (start + r < s.len() ==> !(s[start + r].onset is H))
    &&& forall|j: int| start + stress_idx + 1 <= j < start + r ==> !(#[trigger] s[j].nucleus.stressed_spec())
}

/// The ends (relative to `start`) in `lo..=hi` at which a pre-brivla whose
/// stress is at `stress_idx` could end: the last syllable has no coda, the
/// next one, if any, no apostrophe onset, and nothing after the stress is
/// stressed.
fn split_candidates(
    syllables: &[Syllable],
    start: usize,
    stress_idx: usize,
    lo: usize,
    hi: usize,
) -> (out: Vec<usize>)
    requires
        start <= syllables.len() <= max_syllables(),
        stress_idx + 2 <= lo,
        hi <= syllables.len() - start,
    ensures
        forall|k: int|
            0 <= k < out.len() ==> {
                &&& stress_idx + 2 <= #[trigger] out@[k] <= syllables.len() - start
                &&& (start + out@[k] < syllables.len() ==> !(syllables@[start + out@[k]].onset is H))
            },
        forall|r: int|
            lo <= r <= hi ==> (out@.contains(r as usize) <==> #[trigger] candidate_ok(
                syllables@,
                start as int,
                stress_idx as int,
                r,
            )),
        forall|k: int| 0 <= k < out.len() ==> lo <= #[trigger] out@[k] <= hi,
        forall|j: int, k: int| 0 <= j < k < out.len() ==> out@[j] < out@[k],
{
    let seg_len = syllables.len() - start;
    let mut out: Vec<usize> = Vec::new();
    let mut r = lo;
    while r <= hi
        invariant
            seg_len == syllables.len() - start,
            start <= syllables.len() <= max_syllables(),
            stress_idx + 2 <= lo <= r,
            hi <= seg_len,
            forall|k: int|
                0 <= k < out.len() ==> {
                    &&& stress_idx + 2 <= #[trigger] out@[k] <= seg_len
                    &&& (start + out@[k] < syllables.len() ==> !(syllables@[start
                        + out@[k]].onset is H))
                },
            forall|q: int|
                lo <= q < r ==> (out@.contains(q as usize) <==> #[trigger] candidate_ok(
                    syllables@,
                    start as int,
                    stress_idx as int,
                    q,
                )),
            forall|k: int| 0 <= k < out.len() ==> lo <= #[trigger] out@[k] < r,
            forall|j: int, k: int| 0 <= j < k < out.len() ==> out@[j] < out@[k],
            r <= hi + 1 || out.len() == 0,
        decreases hi + 1 - r,
    {
        let next_ok = r >= seg_len || !syllables[start + r].has_h_onset();
        let ghost before = out@;
        if syllables[start + r - 1].coda.is_none() && next_ok && none_stressed(
            syllables,
            start + stress_idx + 1,
            start + r,
        ) {
            out.push(r);
            proof {
                assert(candidate_ok(syllables@, start as int, stress_idx as int, r as int));
                assert forall|q: int| lo <= q < r + 1 implies (out@.contains(q as usize)
                    <==> #[trigger] candidate_ok(
                    syllables@,
                    start as int,
                    stress_idx as int,
                    q,
                )) by {
                    if q < r {
                        if before.contains(q as usize) {
                            let t = choose|t: int| 0 <= t < before.len() && before[t] == q as usize;
                            assert(out@[t] == before[t]);
                        }
                        if out@.contains(q as usize) {
                            let t = choose|t: int| 0 <= t < out@.len() && out@[t] == q as usize;
                            if t < before.len() {
                                assert(before[t] == out@[t]);
                            }
                        }
                    } else {
                        assert(out@[before.len() as int] == r);
                    }
                }
            }
        } else {
            proof {
                assert(!candidate_ok(syllables@, start as int, stress_idx as int, r as int));
                assert forall|q: int| lo <= q < r + 1 implies (out@.contains(q as usize)
                    <==> #[trigger] candidate_ok(
                    syllables@,
                    start as int,
                    stress_idx as int,
                    q,
                )) by {
                    if q == r && out@.contains(q as usize) {
                        let t = choose|t: int| 0 <= t < out@.len() && out@[t] == q as usize;
                        assert(out@[t] < r);
                    }
                }
            }
        }
        r += 1;
    }
    out
}

/// `us` is the one unit of cmavo that holds the syllables `s`.
pub open spec fn cmavo_unit_of(us: Seq<Unit>, s: Seq<Syllable>) -> bool {
    &&& us.len() == 1
    &&& us[0] is Normal
    &&& us[0]->pre_brivla_start is None
    &&& unit_syllables(us[0]) == s
}

/// Indices that rise as integers rise as they are.
proof fn lemma_increasing_ints(v: Seq<usize>)
    requires
        forall|j: int, k: int| 0 <= j < k < v.len() ==> as_ints(v)[j] < as_ints(v)[k],
    ensures
        forall|j: int, k: int| 0 <= j < k < v.len() ==> v[j] < v[k],
{
    assert forall|j: int, k: int| 0 <= j < k < v.len() implies v[j] < v[k] by {
        assert(as_ints(v)[j] == v[j] && as_ints(v)[k] == v[k]);
    }
}

/// No candidate end among `c` follows the boundary `l` of the segment from
/// `start` by two hard consonants or more.
spec fn none_reaches(s: Seq<Syllable>, start: int, l: int, c: Seq<usize>) -> bool {
    forall|t: int| 0 <= t < c.len() ==> hc_sum(s, start + #[trigger] c[t]) < hc_sum(s, start + l) + 2
}

/// Searches the cmavo boundaries from the end for one, `l`, at or before
/// both `stress_idx` and `target`, that some candidate end follows by two
/// hard consonants or more; returns it with the first such candidate end.
fn find_split(
    syllables: &[Syllable],
    hc_prefix: &Vec<usize>,
    start: usize,
    boundaries: &Vec<usize>,
    candidates: &Vec<usize>,
    stress_idx: usize,
    target: usize,
) -> (r: Option<(usize, usize)>)
    requires
        start <= syllables.len() <= max_syllables(),
        hc_prefix@.len() == syllables.len() + 1,
        forall|k: int| 0 <= k <= syllables.len() ==> #[trigger] hc_prefix@[k] == hc_sum(syllables@, k),
        forall|k: int| 0 <= k < boundaries.len() ==> #[trigger] boundaries@[k] <= syllables.len() - start,
        forall|k: int| 0 <= k < candidates.len() ==> #[trigger] candidates@[k] <= syllables.len() - start,
        forall|j: int, k: int| 0 <= j < k < boundaries.len() ==> boundaries@[j] < boundaries@[k],
        forall|j: int, k: int| 0 <= j < k < candidates.len() ==> candidates@[j] < candidates@[k],
    ensures
        r matches Some((l, e)) ==> {
            &&& l <= stress_idx
            &&& l <= target
            &&& boundaries@.contains(l)
            &&& candidates@.contains(e)
            &&& hc_sum(syllables@, start + e) >= hc_sum(syllables@, start + l) + 2
            &&& forall|t: int|
                0 <= t < candidates.len() && #[trigger] candidates@[t] < e ==> hc_sum(
                    syllables@,
                    start + candidates@[t],
                ) < hc_sum(syllables@, start + l) + 2
            &&& forall|j: int|
                0 <= j < boundaries.len() && #[trigger] boundaries@[j] > l && boundaries@[j]
                    <= stress_idx && boundaries@[j] <= target ==> none_reaches(
                    syllables@,
                    start as int,
                    boundaries@[j] as int,
                    candidates@,
                )
        },
        r is None ==> forall|j: int|
            0 <= j < boundaries.len() && #[trigger] boundaries@[j] <= stress_idx && boundaries@[j]
                <= target ==> none_reaches(
                syllables@,
                start as int,
                boundaries@[j] as int,
                candidates@,
            ),
{
    let n = syllables.len();
    let ghost s = syllables@;
    proof {
        lemma_hc_sum_bounds(s, start as int);
    }
    let base = hc_prefix[start];
    let mut ptr = candidates.len();
    let mut k = boundaries.len();
    let mut found: Option<(usize, usize)> = None;
    let ghost mut fk: int = 0;
    while k > 0 && found.is_none()
        invariant
            n == syllables.len(),
            s == syllables@,
            start <= n <= max_syllables(),
            hc_prefix@.len() == n + 1,
            forall|j: int| 0 <= j <= n ==> #[trigger] hc_prefix@[j] == hc_sum(s, j),
            forall|j: int| 0 <= j < boundaries.len() ==> #[trigger] boundaries@[j] <= n - start,
            forall|j: int| 0 <= j < candidates.len() ==> #[trigger] candidates@[j] <= n - start,
            forall|j: int, q: int| 0 <= j < q < boundaries.len() ==> boundaries@[j] < boundaries@[q],
            forall|j: int, q: int| 0 <= j < q < candidates.len() ==> candidates@[j] < candidates@[q],
            base == hc_sum(s, start as int),
            k <= boundaries.len(),
            ptr <= candidates.len(),
            found is None ==> ptr == candidates.len(),
            found is None ==> forall|j: int|
                k <= j < boundaries.len() && #[trigger] boundaries@[j] <= stress_idx
                    && boundaries@[j] <= target ==> none_reaches(
                    s,
                    start as int,
                    boundaries@[j] as int,
                    candidates@,
                ),
            found matches Some((l, e)) ==> {
                &&& l <= stress_idx
                &&& l <= target
                &&& k <= fk < boundaries.len()
                &&& boundaries@[fk] == l
                &&& candidates@.contains(e)
                &&& hc_sum(s, start + e) >= hc_sum(s, start + l) + 2
                &&& forall|t: int|
                    0 <= t < candidates.len() && #[trigger] candidates@[t] < e ==> hc_sum(
                        s,
                        start + candidates@[t],
                    ) < hc_sum(s, start + l) + 2
                &&& forall|j: int|
                    fk < j < boundaries.len() && #[trigger] boundaries@[j] <= stress_idx
                        && boundaries@[j] <= target ==> none_reaches(
                        s,
                        start as int,
                        boundaries@[j] as int,
                        candidates@,
                    )
            },
        decreases k,
    {
        k -= 1;
        let l = boundaries[k];
        if l <= stress_idx && l <= target {
            proof {
                lemma_hc_sum_monotonic(s, start as int, start + l);
                lemma_hc_sum_bounds(s, start + l);
            }
            let threshold = hc_prefix[start + l] - base + 2;
            let mut moving = true;
            while moving && ptr > 0
                invariant
                    n == syllables.len(),
                    s == syllables@,
                    start <= n,
                    start + l <= n,
                    hc_prefix@.len() == n + 1,
                    forall|j: int| 0 <= j <= n ==> #[trigger] hc_prefix@[j] == hc_sum(s, j),
                    forall|j: int|
                        0 <= j < candidates.len() ==> #[trigger] candidates@[j] <= n - start,
                    base == hc_sum(s, start as int),
                    threshold == hc_sum(s, start + l) - base + 2,
                    ptr <= candidates.len(),
                    forall|t: int|
                        ptr <= t < candidates.len() ==> hc_sum(s, start + #[trigger] candidates@[t])
                            >= hc_sum(s, start + l) + 2,
                    !moving ==> ptr > 0 && hc_sum(s, start + candidates@[ptr - 1]) < hc_sum(
                        s,
                        start + l,
                    ) + 2,
                decreases ptr + if moving {
                    1int
                } else {
                    0int
                },
            {
                let c = candidates[ptr - 1];
                proof {
                    lemma_hc_sum_monotonic(s, start as int, start + c);
                }
                if hc_prefix[start + c] - base >= threshold {
                    ptr -= 1;
                } else {
                    moving = false;
                }
            }
            proof {
                // the candidates before `ptr` stay below the threshold
                assert forall|t: int| 0 <= t < ptr implies hc_sum(
                    s,
                    start + #[trigger] candidates@[t],
                ) < hc_sum(s, start + l) + 2 by {
                    if t < ptr - 1 {
                        lemma_hc_sum_monotonic(s, start + candidates@[t], start + candidates@[ptr
                            - 1]);
                    }
                }
            }
            if ptr < candidates.len() {
                let e = candidates[ptr];
                assert(candidates@[ptr as int] == e);
                assert(boundaries@[k as int] == l);
                proof {
                    fk = k as int;
                    assert forall|t: int|
                        0 <= t < candidates.len() && #[trigger] candidates@[t] < e implies hc_sum(
                        s,
                        start + candidates@[t],
                    ) < hc_sum(s, start + l) + 2 by {
                        if t >= ptr {
                            if t > ptr {
                                assert(candidates@[ptr as int] < candidates@[t]);
                            }
                        }
                    }
                }
                found = Some((l, e));
            } else {
                proof {
                    assert(none_reaches(s, start as int, l as int, candidates@));
                }
            }
        }
    }
    proof {
        if let Some((l, e)) = found {
            assert(boundaries@.contains(l)) by {
                assert(boundaries@[fk] == l);
            }
            assert forall|j: int|
                0 <= j < boundaries.len() && #[trigger] boundaries@[j] > l && boundaries@[j]
                    <= stress_idx && boundaries@[j] <= target implies none_reaches(
                s,
                start as int,
                boundaries@[j] as int,
                candidates@,
            ) by {
                if j <= fk {
                    if j < fk {
                        assert(boundaries@[j] < boundaries@[fk]);
                    }
                }
            }
        }
    }
    found
}

/// A deque of the syllables of `s`, with the one at `k` stressed.
fn deque_stressing(s: &[Syllable], k: usize) -> (d: VecDeque<Syllable>)
    requires
        k < s.len(),
    ensures
        d@ == s@.update(
            k as int,
            Syllable {
                onset: s@[k as int].onset,
                nucleus: s@[k as int].nucleus.with_stress(true),
                coda: s@[k as int].coda,
            },
        ),
{
    let ghost target = s@.update(
        k as int,
        Syllable {
            onset: s@[k as int].onset,
            nucleus: s@[k as int].nucleus.with_stress(true),
            coda: s@[k as int].coda,
        },
    );
    let mut d: VecDeque<Syllable> = VecDeque::new();
    let mut i: usize = 0;
    while i < s.len()
        invariant
            i <= s.len(),
            k < s.len(),
            target.len() == s.len(),
            target == s@.update(
                k as int,
                Syllable {
                    onset: s@[k as int].onset,
                    nucleus: s@[k as int].nucleus.with_stress(true),
                    coda: s@[k as int].coda,
                },
            ),
            d@ == target.take(i as int),
        decreases s.len() - i,
    {
        let mut x = s[i];
        if i == k {
            x.nucleus.set_stressed(true);
        }
        d.push_back(x);
        i += 1;
        assert(target.take(i as int) =~= target.take(i - 1).push(target[i - 1]));
    }
    assert(target.take(s.len() as int) =~= target);
    d
}

/// `u` with `prefix` put in front of its syllables; its pre-brivla moves
/// along.
fn prepend_syllables(prefix: &[Syllable], u: Unit) -> (r: Unit)
    requires
        normal_unit_ok(u),
        u->pre_brivla_start is Some,
        prefix.len() + unit_syllables(u).len() <= usize::MAX,
    ensures
        normal_unit_ok(r),
        unit_syllables(r) == prefix@ + unit_syllables(u),
        r->pre_brivla_start == Some(
            (match u->pre_brivla_start {
                Some(p) => p as int,
                None => 0,
            } + prefix.len()) as usize,
        ),
{
    match u {
        Unit::Normal { mut syllables, pre_brivla_start } => {
            let ghost orig = syllables@;
            let mut i = prefix.len();
            while i > 0
                invariant
                    i <= prefix.len(),
                    syllables@ == prefix@.subrange(i as int, prefix.len() as int) + orig,
                decreases i,
            {
                i -= 1;
                syllables.push_front(prefix[i]);
                assert(prefix@.subrange(i as int, prefix.len() as int) =~= seq![prefix@[i as int]]
                    + prefix@.subrange(i + 1, prefix.len() as int));
            }
            assert(prefix@.subrange(0, prefix.len() as int) =~= prefix@);
            let p = match pre_brivla_start {
                Some(p) => p,
                None => 0,
            };
            Unit::Normal { syllables, pre_brivla_start: Some(p + prefix.len()) }
        },
        Unit::Cmevla(c) => Unit::Cmevla(c),
    }
}

/// The spellings of the first `n` syllables of `s`.
spec fn spellings(s: Seq<Syllable>, n: int) -> Seq<Seq<char>> {
    Seq::new(n as nat, |k: int| s[k].spelling())
}

/// The spellings of syllables, joined with nothing between them, are their
/// letters.
proof fn lemma_joined_spellings(s: Seq<Syllable>, n: int)
    requires
        0 <= n <= s.len(),
    ensures
        joined(spellings(s, n), Seq::<char>::empty()) == syl_letters(s.take(n)),
    decreases n,
{
    if n == 0 {
        assert(s.take(0) =~= Seq::<Syllable>::empty());
        assert(syl_letters(Seq::<Syllable>::empty()) =~= seq![]);
    } else {
        lemma_joined_spellings(s, n - 1);
        assert(spellings(s, n).drop_last() =~= spellings(s, n - 1));
        assert(s.take(n) =~= s.take(n - 1) + seq![s[n - 1]]);
        lemma_syl_letters_concat(s.take(n - 1), seq![s[n - 1]]);
        lemma_syl_letters_one(s[n - 1]);
        if n == 1 {
            assert(s.take(0) =~= Seq::<Syllable>::empty());
            assert(syl_letters(Seq::<Syllable>::empty()) =~= seq![]);
            assert(seq![] + s[0].spelling() =~= s[0].spelling());
        } else {
            assert(joined(spellings(s, n - 1), Seq::<char>::empty()) + Seq::<char>::empty()
                =~= joined(spellings(s, n - 1), Seq::<char>::empty()));
        }
    }
}

/// The letters of the syllables of `s`, run together.
fn syllables_text(s: &[Syllable]) -> (t: String)
    ensures
        t@ == syl_letters(s@),
{
    let mut parts: Vec<String> = Vec::new();
    let mut i: usize = 0;
    while i < s.len()
        invariant
            i <= s.len(),
            parts@.map_values(|p: String| p@) == spellings(s@, i as int),
        decreases s.len() - i,
    {
        let ghost before = parts@;
        let ghost views0 = before.map_values(|p: String| p@);
        assert(views0.len() == i);
        let x = s[i].to_text();
        assert(x@ == s@[i as int].spelling());
        parts.push(x);
        i += 1;
        let ghost views = parts@.map_values(|p: String| p@);
        assert(parts@ == before.push(x));
        assert forall|k: int| 0 <= k < i implies #[trigger] views[k] == spellings(s@, i as int)[k] by {
            if k < i - 1 {
                assert(parts@[k] == before[k]);
                assert(views0[k] == spellings(s@, i - 1)[k]);
            } else {
                assert(parts@[k] == x);
            }
        }
        assert(views =~= spellings(s@, i as int));
    }
    let t = join_strings(&parts, "");
    proof {
        lemma_joined_spellings(s@, s.len() as int);
        assert(s@.take(s.len() as int) =~= s@);
        assert(""@ =~= Seq::<char>::empty()) by {
            reveal_strlit("");
        }
    }
    t
}

/// Adding a unit that holds `s[start..end]` to units that hold the first
/// `start` syllables gives units that hold the first `end`.
proof fn lemma_push_segment(s: Seq<Syllable>, units: Seq<Unit>, u: Unit, start: int, end: int)
    requires
        0 <= start < end <= s.len(),
        all_normal_ok(units),
        plain_seq(all_syllables(units)) == plain_seq(s.take(start)),
        normal_unit_ok(u),
        plain_seq(unit_syllables(u)) == plain_seq(s.subrange(start, end)),
    ensures
        all_normal_ok(units.push(u)),
        plain_seq(all_syllables(units.push(u))) == plain_seq(s.take(end)),
{
    lemma_all_syllables_push(units, u);
    lemma_plain_seq_concat(all_syllables(units), unit_syllables(u));
    lemma_plain_seq_concat(s.take(start), s.subrange(start, end));
    assert(s.take(start) + s.subrange(start, end) =~= s.take(end));
    assert forall|k: int| 0 <= k < units.push(u).len() implies normal_unit_ok(
        #[trigger] units.push(u)[k],
    ) by {
        if k < units.len() {
            assert(units.push(u)[k] == units[k]);
        }
    }
}

/// Stressing one syllable leaves the syllables the same but for stress.
proof fn lemma_plain_stressing(seg: Seq<Syllable>, k: int)
    requires
        0 <= k < seg.len(),
    ensures
        plain_seq(
            seg.update(
                k,
                Syllable {
                    onset: seg[k].onset,
                    nucleus: seg[k].nucleus.with_stress(true),
                    coda: seg[k].coda,
                },
            ),
        ) == plain_seq(seg),
{
    let x = Syllable {
        onset: seg[k].onset,
        nucleus: seg[k].nucleus.with_stress(true),
        coda: seg[k].coda,
    };
    assert(plain_syllable(x) == plain_syllable(seg[k]));
    assert(plain_seq(seg.update(k, x)) =~= plain_seq(seg));
}

/// The syllables of a list of units start with those of its first unit.
proof fn lemma_first_unit(units: Seq<Unit>)
    requires
        units.len() > 0,
    ensures
        all_syllables(units) == unit_syllables(units[0]) + all_syllables(
            units.subrange(1, units.len() as int),
        ),
{
    let tail = units.subrange(1, units.len() as int);
    assert(units =~= seq![units[0]] + tail);
    lemma_all_syllables_concat(seq![units[0]], tail);
    lemma_all_syllables_push(seq![], units[0]);
    assert(seq![].push(units[0]) =~= seq![units[0]]);
    assert(all_syllables(seq![]) =~= seq![]);
}

/// Units for the first `start` syllables, then the first unit of the units
/// for `s[mid..]` with `s[start..mid]` put in front of it, then the rest of
/// those units, hold all of `s`.
proof fn lemma_prepend_rest(
    s: Seq<Syllable>,
    before: Seq<Unit>,
    merged: Unit,
    first: Unit,
    tail: Seq<Unit>,
    start: int,
    mid: int,
)
    requires
        0 <= start < mid < s.len(),
        all_normal_ok(before),
        plain_seq(all_syllables(before)) == plain_seq(s.take(start)),
        normal_unit_ok(merged),
        unit_syllables(merged) == s.subrange(start, mid) + unit_syllables(first),
        all_normal_ok(seq![first] + tail),
        plain_seq(all_syllables(seq![first] + tail)) == plain_seq(s.subrange(mid, s.len() as int)),
    ensures
        all_normal_ok(before.push(merged) + tail),
        plain_seq(all_syllables(before.push(merged) + tail)) == plain_seq(s),
{
    let all = before.push(merged) + tail;
    lemma_all_syllables_concat(before.push(merged), tail);
    lemma_all_syllables_push(before, merged);
    lemma_first_unit(seq![first] + tail);
    assert((seq![first] + tail).subrange(1, tail.len() + 1int) =~= tail);
    assert(all_syllables(all) =~= all_syllables(before) + s.subrange(start, mid) + (unit_syllables(
        first,
    ) + all_syllables(tail)));
    lemma_plain_seq_concat(all_syllables(before), s.subrange(start, mid));
    lemma_plain_seq_concat(
        all_syllables(before) + s.subrange(start, mid),
        unit_syllables(first) + all_syllables(tail),
    );
    lemma_plain_seq_concat(s.take(start), s.subrange(start, mid));
    lemma_plain_seq_concat(s.take(mid), s.subrange(mid, s.len() as int));
    assert(s.take(start) + s.subrange(start, mid) =~= s.take(mid));
    assert(s.take(mid) + s.subrange(mid, s.len() as int) =~= s);
    assert forall|k: int| 0 <= k < all.len() implies normal_unit_ok(#[trigger] all[k]) by {
        if k < before.len() {
            assert(all[k] == before[k]);
        } else if k == before.len() {
            assert(all[k] == merged);
        } else {
            assert(all[k] == (seq![first] + tail)[k - before.len()]);
        }
    }
}

/// A unit as specifications see it: its syllables, the start of its
/// pre-brivla and, for a cmevla, its text.
pub type UnitView = (Seq<Syllable>, Option<usize>, Seq<char>);

/// A unit as its syllables, the start of its pre-brivla and its text as a
/// cmevla (empty for a normal unit).
pub open spec fn unit_model(u: Unit) -> UnitView {
    (
        unit_syllables(u),
        match u {
            Unit::Normal { pre_brivla_start, .. } => pre_brivla_start,
            Unit::Cmevla(_) => None,
        },
        match u {
            Unit::Normal { .. } => seq![],
            Unit::Cmevla(t) => t@,
        },
    )
}

/// Units as their syllables and pre-brivla starts.
pub open spec fn units_model(us: Seq<Unit>) -> Seq<UnitView> {
    us.map_values(|u: Unit| unit_model(u))
}

/// The syllables `seg` with the one at `k` stressed.
pub open spec fn stressing(seg: Seq<Syllable>, k: int) -> Seq<Syllable> {
    seg.update(
        k,
        Syllable { onset: seg[k].onset, nucleus: seg[k].nucleus.with_stress(true), coda: seg[k].coda },
    )
}

/// The boundary at index `k` of `b` is the last one at which a pre-brivla
/// of the segment from `start` could start (see `default_ok`).
pub open spec fn last_default(s: Seq<Syllable>, start: int, b: Seq<int>, target: int, k: int) -> bool {
    &&& 0 <= k < b.len()
    &&& default_ok(s, start, b[k], target)
    &&& forall|j: int| k < j < b.len() ==> !default_ok(s, start, #[trigger] b[j], target)
}

/// The index in `b` of the last boundary at which a pre-brivla could
/// start, if any.
#[verifier::opaque]
pub open spec fn default_index(s: Seq<Syllable>, start: int, b: Seq<int>, target: int) -> Option<int> {
    if exists|k: int| last_default(s, start, b, target, k) {
        Some(choose|k: int| last_default(s, start, b, target, k))
    } else {
        None
    }
}

/// The two syllables of the segment from `start` that begin at `f` make a
/// CCV'V word: the segment ends after them, the first has a pair onset and
/// no coda, the second an apostrophe onset and no coda.
pub open spec fn ccvhv_at(s: Seq<Syllable>, start: int, f: int) -> bool {
    &&& s.len() - start - f == 2
    &&& s[start + f].onset is Pair
    &&& s[start + f].coda is None
    &&& s[start + f + 1].onset is H
    &&& s[start + f + 1].coda is None
}

/// The end `r` (relative to `start`) lies in `lo..=hi` and could end a
/// pre-brivla stressed at `x`.
pub open spec fn cand(s: Seq<Syllable>, start: int, x: int, lo: int, hi: int, r: int) -> bool {
    lo <= r <= hi && candidate_ok(s, start, x, r)
}

/// The end `r` follows the boundary `l` by two hard consonants or more.
pub open spec fn reaches(s: Seq<Syllable>, start: int, l: int, r: int) -> bool {
    hc_sum(s, start + r) >= hc_sum(s, start + l) + 2
}

/// The pre-brivla of the segment from `start`, stressed at `x`, is cut at
/// boundary `l` and end `e`: `l` is the last boundary at or before both `x`
/// and `target` that some candidate end reaches, and `e` the first end it
/// reaches.
pub open spec fn split_ok(
    s: Seq<Syllable>,
    start: int,
    b: Seq<int>,
    x: int,
    target: int,
    lo: int,
    hi: int,
    l: int,
    e: int,
) -> bool {
    &&& b.contains(l)
    &&& l <= x
    &&& l <= target
    &&& cand(s, start, x, lo, hi, e)
    &&& reaches(s, start, l, e)
    &&& forall|r: int| #[trigger] cand(s, start, x, lo, hi, r) && r < e ==> !reaches(s, start, l, r)
    &&& forall|j: int, r: int|
        0 <= j < b.len() && b[j] > l && b[j] <= x && b[j] <= target && #[trigger] cand(
            s,
            start,
            x,
            lo,
            hi,
            r,
        ) ==> !reaches(s, start, #[trigger] b[j], r)
}

/// The boundary and end at which the pre-brivla is cut, if any.
#[verifier::opaque]
pub open spec fn split_pick(
    s: Seq<Syllable>,
    start: int,
    b: Seq<int>,
    x: int,
    target: int,
    lo: int,
    hi: int,
) -> Option<(int, int)> {
    if exists|l: int, e: int| split_ok(s, start, b, x, target, lo, hi, l, e) {
        Some(choose|l: int, e: int| split_ok(s, start, b, x, target, lo, hi, l, e))
    } else {
        None
    }
}

/// What the segment of syllables from a start resolves to.
pub ghost enum SegPlan {
    /// The rest is cmavo: one unit without a pre-brivla.
    Cmavo,
    /// The rest is one unit without explicit stress, whose pre-brivla
    /// starts at the first index and gets stress at the second.
    Natural(usize, usize),
    /// The rest is one unit, stressed as it is, whose pre-brivla starts at
    /// the index.
    Explicit(usize),
    /// A unit of the next syllables up to the end, whose pre-brivla starts
    /// at the boundary; the rest goes on after it.
    Cut(usize, usize),
    /// The cmavo up to the first index join the first unit of the rest;
    /// the second is that of the explicitly stressed syllable before it.
    Recurse(usize, usize),
    /// The next syllables, up to the stressed one, resolve on their own;
    /// the rest goes on after them.
    Close(usize),
    /// The segment cannot be resolved, with this error.
    Fail(Fault),
}

/// The stress rule on the segment of `s` from `start`, with cmavo rafsi
/// allowed where `arb`. Where the rest is not cmavo: the pre-brivla starts
/// by default at the last cmavo boundary at or before the brivla evidence
/// that leaves two syllables, has no apostrophe onset and can take stress
/// (one boundary earlier for a CCV'V word, which fails where there is
/// none); the last syllable must take stress. Without explicit stress the
/// nearest stressable syllable at or before the penult gets it. Explicit
/// stress where natural stress would be keeps one unit; elsewhere the
/// pre-brivla is cut at the first end two hard consonants past the last
/// boundary that reaches one, or cmavo before the default start join the
/// units of the rest, or the syllables before a stress after the evidence
/// resolve on their own.
#[verifier::opaque]
pub open spec fn seg_plan(s: Seq<Syllable>, arb: bool, start: int) -> SegPlan {
    let n = s.len() as int;
    let seg_len = n - start;
    let t = tails_of(s);
    let b = boundaries_spec(s, t, arb, start);
    if b.last() == seg_len {
        SegPlan::Cmavo
    } else if seg_len < 2 {
        SegPlan::Fail(Fault::NotEnoughSyllables(s[start].spelling()))
    } else {
        let target = evidence_target(s, t, arb, start)->0 - start;
        match default_index(s, start, b, target) {
            None => SegPlan::Fail(Fault::UnstressablePreBrivlaStart(s[start].spelling())),
            Some(idx) => {
                let ccvhv = ccvhv_at(s, start, b[idx]);
                if ccvhv && idx == 0 {
                    SegPlan::Fail(Fault::Slinkuhi(syl_letters(s.subrange(start + b[idx], n))))
                } else if !stressable(s[n - 1].nucleus) {
                    SegPlan::Fail(Fault::UnstressablePreBrivlaEnd(s[n - 1].spelling()))
                } else {
                    plan_stress(
                        s,
                        arb,
                        start,
                        if ccvhv {
                            b[idx - 1]
                        } else {
                            b[idx]
                        },
                    )
                }
            },
        }
    }
}

/// Where natural stress falls in the segment from `start` whose pre-brivla
/// starts at `d`: the nearest stressable syllable at or before the penult,
/// if it lies in the pre-brivla.
pub open spec fn natural_rel(s: Seq<Syllable>, start: int, d: int) -> Option<int> {
    match nearest_stressable(s, s.len() - 2) {
        Some(j) => if j >= start && j - start >= d {
            Some(j - start)
        } else {
            None
        },
        None => None,
    }
}

/// The first explicitly stressed syllable of the segment from `start`.
pub open spec fn explicit_rel(s: Seq<Syllable>, start: int) -> Option<int> {
    match next_stressed(s, start) {
        Some(a) => if a < s.len() {
            Some(a - start)
        } else {
            None
        },
        None => None,
    }
}

/// The stress rule on the segment from `start` once its pre-brivla starts
/// by default at `d`.
#[verifier::opaque]
pub open spec fn plan_stress(s: Seq<Syllable>, arb: bool, start: int, d: int) -> SegPlan {
    match explicit_rel(s, start) {
        None => SegPlan::Natural(d as usize, natural_rel(s, start, d)->0 as usize),
        Some(x) => if natural_rel(s, start, d) == Some(x) {
            SegPlan::Explicit(d as usize)
        } else {
            plan_cut(s, arb, start, d, x)
        },
    }
}

/// The stress rule on the segment from `start`, whose pre-brivla starts by
/// default at `d`, where explicit stress at `x` is not where natural stress
/// would be.
#[verifier::opaque]
pub open spec fn plan_cut(s: Seq<Syllable>, arb: bool, start: int, d: int, x: int) -> SegPlan {
    let n = s.len() as int;
    let seg_len = n - start;
    let t = tails_of(s);
    let b = boundaries_spec(s, t, arb, start);
    let target = evidence_target(s, t, arb, start)->0 - start;
    let next = next_stressable(s, start + x);
    let hi = if next - start + 1 < seg_len {
        next - start + 1
    } else {
        seg_len
    };
    let lo = if x + 2 < target + 1 {
        target + 1
    } else {
        x + 2
    };
    match split_pick(s, start, b, x, target, lo, hi) {
        Some((l, e)) => if stressable(s[start + e - 1].nucleus) {
            SegPlan::Cut(l as usize, e as usize)
        } else {
            SegPlan::Fail(Fault::UnstressablePreBrivlaEnd(s[start + e - 1].spelling()))
        },
        None => if x < d && cmavo_sequence(
            s.subrange(start, start + d),
            t.subrange(start, start + d),
            arb,
        ) {
            SegPlan::Recurse((start + d) as usize, (start + x) as usize)
        } else if target < x && !(s[start + x].onset is H) && !cmavo_syllables(
            s.subrange(start, start + x),
            arb,
        ) {
            SegPlan::Close(x as usize)
        } else {
            SegPlan::Fail(Fault::InvalidStressPosition(s[start + x].spelling()))
        },
    }
}

/// Once the default start `d` is found, the segment's plan is
/// `plan_stress`.
proof fn lemma_plan_stress(s: Seq<Syllable>, arb: bool, start: int, idx: int, d: int)
    requires
        ({
            let t = tails_of(s);
            let b = boundaries_spec(s, t, arb, start);
            let target = evidence_target(s, t, arb, start)->0 - start;
            &&& b.last() != s.len() - start
            &&& s.len() - start >= 2
            &&& default_index(s, start, b, target) == Some(idx)
            &&& !(ccvhv_at(s, start, b[idx]) && idx == 0)
            &&& stressable(s[s.len() - 1].nucleus)
            &&& d == if ccvhv_at(s, start, b[idx]) {
                b[idx - 1]
            } else {
                b[idx]
            }
        }),
    ensures
        seg_plan(s, arb, start) == plan_stress(s, arb, start, d),
{
    reveal(seg_plan);
}

/// With explicit stress at `x` away from natural stress, the plan is
/// `plan_cut`.
proof fn lemma_plan_cut(s: Seq<Syllable>, arb: bool, start: int, d: int, x: int)
    requires
        explicit_rel(s, start) == Some(x),
        natural_rel(s, start, d) != Some(x),
    ensures
        plan_stress(s, arb, start, d) == plan_cut(s, arb, start, d, x),
{
    reveal(plan_stress);
}

/// `a` in front of what `o` holds, unless it is an error.
pub open spec fn prepend_units(
    a: Seq<UnitView>,
    o: Result<Seq<UnitView>, Fault>,
) -> Result<Seq<UnitView>, Fault> {
    match o {
        Ok(x) => Ok(a + x),
        Err(f) => Err(f),
    }
}

/// The units (as `units_model` gives them) that the syllables of `s` from
/// `start` resolve to, segment by segment, or the error where they fail.
pub open spec fn walk(s: Seq<Syllable>, arb: bool, start: int) -> Result<
    Seq<UnitView>,
    Fault,
>
    decreases s.len(), 0int, s.len() - start,
{
    let n = s.len() as int;
    if start < 0 || start >= n {
        Ok(seq![])
    } else {
        let seg = s.subrange(start, n);
        match seg_plan(s, arb, start) {
            SegPlan::Cmavo => Ok(seq![(seg, None, seq![])]),
            SegPlan::Natural(d, k) => Ok(seq![(stressing(seg, k as int), Some(d), seq![])]),
            SegPlan::Explicit(d) => Ok(seq![(seg, Some(d), seq![])]),
            SegPlan::Cut(l, e) => if 0 < e && start + e <= n {
                prepend_units(seq![(s.subrange(start, start + e), Some(l), seq![])], walk(s, arb, start + e))
            } else {
                Err(Fault::InvalidStressPosition(seq![]))
            },
            SegPlan::Close(len) => if 0 < len && start + len < n {
                match stress_split(s.subrange(start, start + len), arb) {
                    Ok(first) => prepend_units(first, walk(s, arb, start + len)),
                    Err(f) => Err(f),
                }
            } else {
                Err(Fault::InvalidStressPosition(seq![]))
            },
            SegPlan::Recurse(mid, at) => if start < mid < n && 0 <= at < n {
                match stress_split(s.subrange(mid as int, n), arb) {
                    Ok(rest) => if rest.len() > 0 && rest[0].1 is Some {
                        Ok(
                            seq![
                                (
                                    s.subrange(start, mid as int) + rest[0].0,
                                    Some((rest[0].1->0 + (mid - start)) as usize),
                                    seq![],
                                ),
                            ] + rest.drop_first(),
                        )
                    } else {
                        Err(Fault::InvalidStressPosition(s[at as int].spelling()))
                    },
                    Err(f) => Err(f),
                }
            } else {
                Err(Fault::InvalidStressPosition(seq![]))
            },
            SegPlan::Fail(f) => Err(f),
        }
    }
}

/// The units (as `units_model` gives them) that stress resolution makes of
/// the syllables `s` of a pause group, or the error where it fails: none
/// for no syllables, one unit without a pre-brivla for cmavo alone, and
/// otherwise the segments that `walk` resolves.
pub open spec fn stress_split(s: Seq<Syllable>, arb: bool) -> Result<
    Seq<UnitView>,
    Fault,
>
    decreases s.len(), 1int, 0int,
{
    if s.len() == 0 {
        Ok(seq![])
    } else if cmavo_syllables(s, arb) {
        Ok(seq![(s, None, seq![])])
    } else {
        walk(s, arb, 0)
    }
}

/// A boundary that is the last at which a pre-brivla could start is the
/// one that `default_index` picks.
proof fn lemma_default_index(s: Seq<Syllable>, start: int, b: Seq<int>, target: int, k: int)
    requires
        last_default(s, start, b, target, k),
    ensures
        default_index(s, start, b, target) == Some(k),
{
    reveal(default_index);
    let c = choose|c: int| last_default(s, start, b, target, c);
    assert(last_default(s, start, b, target, c));
    if c < k {
        assert(!default_ok(s, start, b[k], target));
    } else if c > k {
        assert(!default_ok(s, start, b[c], target));
    }
}

/// The boundary that the search over `bnd` found last is the one that
/// `default_index` picks.
proof fn lemma_default_found(s: Seq<Syllable>, start: int, b: Seq<int>, bnd: Seq<usize>, target: int, idx: int)
    requires
        b == as_ints(bnd),
        0 <= idx < bnd.len(),
        default_ok(s, start, bnd[idx] as int, target),
        forall|j: int| idx < j < bnd.len() ==> !default_ok(s, start, #[trigger] bnd[j] as int, target),
    ensures
        default_index(s, start, b, target) == Some(idx),
{
    assert forall|j: int| idx < j < b.len() implies !default_ok(s, start, #[trigger] b[j], target) by {
        assert(b[j] == bnd[j]);
    }
    assert(b[idx] == bnd[idx]);
    lemma_default_index(s, start, b, target, idx);
}

/// Where no boundary of `bnd` can start a pre-brivla, `default_index`
/// picks none.
proof fn lemma_default_none(s: Seq<Syllable>, start: int, b: Seq<int>, bnd: Seq<usize>, target: int)
    requires
        b == as_ints(bnd),
        forall|j: int| 0 <= j < bnd.len() ==> !default_ok(s, start, #[trigger] bnd[j] as int, target),
    ensures
        default_index(s, start, b, target) is None,
{
    assert forall|k: int| !last_default(s, start, b, target, k) by {
        if 0 <= k < b.len() {
            assert(b[k] == bnd[k]);
        }
    }
    reveal(default_index);
}

/// A cut that `split_ok` allows is the one that `split_pick` picks.
proof fn lemma_split_pick(
    s: Seq<Syllable>,
    start: int,
    b: Seq<int>,
    x: int,
    target: int,
    lo: int,
    hi: int,
    l: int,
    e: int,
)
    requires
        split_ok(s, start, b, x, target, lo, hi, l, e),
    ensures
        split_pick(s, start, b, x, target, lo, hi) == Some((l, e)),
{
    reveal(split_pick);
    let (l2, e2) = choose|l2: int, e2: int| split_ok(s, start, b, x, target, lo, hi, l2, e2);
    assert(split_ok(s, start, b, x, target, lo, hi, l2, e2));
    if l2 > l {
        let j = choose|j: int| 0 <= j < b.len() && b[j] == l2;
        assert(cand(s, start, x, lo, hi, e2));
        assert(!reaches(s, start, b[j], e2));
    } else if l2 < l {
        let j = choose|j: int| 0 <= j < b.len() && b[j] == l;
        assert(cand(s, start, x, lo, hi, e));
        assert(!reaches(s, start, b[j], e));
    } else {
        if e2 < e {
            assert(cand(s, start, x, lo, hi, e2));
        } else if e2 > e {
            assert(cand(s, start, x, lo, hi, e));
        }
    }
}

/// The cut that the search over boundaries `bnd` and candidate ends `cands`
/// found is the one that `split_pick` picks.
proof fn lemma_split_found(
    s: Seq<Syllable>,
    start: int,
    b: Seq<int>,
    bnd: Seq<usize>,
    cands: Seq<usize>,
    x: int,
    tg: int,
    lo: int,
    hi: int,
    l: usize,
    e: usize,
)
    requires
        b == as_ints(bnd),
        0 <= lo,
        hi <= usize::MAX,
        forall|k: int| 0 <= k < cands.len() ==> cand(s, start, x, lo, hi, #[trigger] cands[k] as int),
        forall|q: int| #[trigger] cand(s, start, x, lo, hi, q) ==> cands.contains(q as usize),
        l <= x,
        l <= tg,
        bnd.contains(l),
        cands.contains(e),
        hc_sum(s, start + e) >= hc_sum(s, start + l) + 2,
        forall|t: int|
            0 <= t < cands.len() && #[trigger] cands[t] < e ==> hc_sum(s, start + cands[t]) < hc_sum(
                s,
                start + l,
            ) + 2,
        forall|j: int|
            0 <= j < bnd.len() && #[trigger] bnd[j] > l && bnd[j] <= x && bnd[j] <= tg ==> none_reaches(
                s,
                start,
                bnd[j] as int,
                cands,
            ),
    ensures
        split_pick(s, start, b, x, tg, lo, hi) == Some((l as int, e as int)),
{
    let kb = choose|kb: int| 0 <= kb < bnd.len() && bnd[kb] == l;
    assert(b[kb] == bnd[kb]);
    assert(b.contains(l as int));
    let ke = choose|ke: int| 0 <= ke < cands.len() && cands[ke] == e;
    assert(cand(s, start, x, lo, hi, cands[ke] as int));
    assert forall|q: int| #[trigger] cand(s, start, x, lo, hi, q) && q < e implies !reaches(
        s,
        start,
        l as int,
        q,
    ) by {
        let t = choose|t: int| 0 <= t < cands.len() && cands[t] == q as usize;
        assert(cands[t] < e);
    }
    assert forall|j: int, q: int|
        0 <= j < b.len() && b[j] > l && b[j] <= x && b[j] <= tg && #[trigger] cand(
            s,
            start,
            x,
            lo,
            hi,
            q,
        ) implies !reaches(s, start, #[trigger] b[j], q) by {
        assert(b[j] == bnd[j]);
        let t = choose|t: int| 0 <= t < cands.len() && cands[t] == q as usize;
        assert(none_reaches(s, start, bnd[j] as int, cands));
        assert(hc_sum(s, start + cands[t]) < hc_sum(s, start + bnd[j]) + 2);
    }
    assert(split_ok(s, start, b, x, tg, lo, hi, l as int, e as int));
    lemma_split_pick(s, start, b, x, tg, lo, hi, l as int, e as int);
}

/// Where the search over boundaries `bnd` and candidate ends `cands` found
/// no cut, `split_pick` picks none.
proof fn lemma_split_none(
    s: Seq<Syllable>,
    start: int,
    b: Seq<int>,
    bnd: Seq<usize>,
    cands: Seq<usize>,
    x: int,
    tg: int,
    lo: int,
    hi: int,
)
    requires
        b == as_ints(bnd),
        0 <= lo,
        hi <= usize::MAX,
        forall|q: int| #[trigger] cand(s, start, x, lo, hi, q) ==> cands.contains(q as usize),
        forall|j: int|
            0 <= j < bnd.len() && #[trigger] bnd[j] <= x && bnd[j] <= tg ==> none_reaches(
                s,
                start,
                bnd[j] as int,
                cands,
            ),
    ensures
        split_pick(s, start, b, x, tg, lo, hi) is None,
{
    assert forall|l: int, e: int| !split_ok(s, start, b, x, tg, lo, hi, l, e) by {
        if split_ok(s, start, b, x, tg, lo, hi, l, e) {
            let j = choose|j: int| 0 <= j < b.len() && b[j] == l;
            assert(b[j] == bnd[j]);
            assert(cands.contains(e as usize));
            let t = choose|t: int| 0 <= t < cands.len() && cands[t] == e as usize;
            assert(none_reaches(s, start, bnd[j] as int, cands));
            assert(hc_sum(s, start + cands[t]) < hc_sum(s, start + bnd[j]) + 2);
        }
    }
    reveal(split_pick);
}

/// The step `r` that resolving the segment from `start` gave is the plan
/// `p` of the stress rule.
spec fn step_follows(r: Result<Step, Jvofli>, p: SegPlan, s: Seq<Syllable>, start: int) -> bool {
    let seg = s.subrange(start, s.len() as int);
    match p {
        SegPlan::Fail(f) => r matches Err(e) && e@ == f,
        SegPlan::Cmavo => r matches Ok(Step::Finish(us)) && units_model(us@) == seq![
            (seg, None::<usize>, Seq::<char>::empty()),
        ],
        SegPlan::Natural(d, k) => r matches Ok(Step::Finish(us)) && units_model(us@) == seq![
            (stressing(seg, k as int), Some(d), Seq::<char>::empty()),
        ],
        SegPlan::Explicit(d) => r matches Ok(Step::Finish(us)) && units_model(us@) == seq![
            (seg, Some(d), Seq::<char>::empty()),
        ],
        SegPlan::Cut(l, e) => r matches Ok(Step::Cut(u, len)) && len == e && unit_model(u) == (
            s.subrange(start, start + e),
            Some(l),
            Seq::<char>::empty(),
        ),
        SegPlan::Recurse(mid, at) => r matches Ok(Step::Recurse(m, a)) && m == mid && a == at,
        SegPlan::Close(len) => r matches Ok(Step::Close(x)) && x == len,
    }
}

/// The per-syllable tables that the stress resolution looks up.
struct Tables {
    tails: Vec<usize>,
    nearest: Vec<Option<usize>>,
    stresses: Vec<Option<usize>>,
    hc_prefix: Vec<usize>,
    next_stressable: Vec<usize>,
    targets: Vec<Option<usize>>,
}

impl Tables {
    /// Each table holds, for the syllables `s`, what its name says.
    #[verifier::opaque]
    spec fn hold(&self, s: Seq<Syllable>, arb: bool) -> bool {
        &&& s.len() <= max_syllables()
        &&& true_tails(s, self.tails@)
        &&& tails_within(self.tails@)
        &&& self.nearest@.len() == s.len()
        &&& forall|k: int|
            0 <= k < s.len() ==> (match #[trigger] self.nearest@[k] {
                Some(j) => nearest_stressable(s, k) == Some(j as int),
                None => nearest_stressable(s, k) is None,
            })
        &&& self.stresses@.len() == s.len() + 1
        &&& forall|k: int|
            0 <= k <= s.len() ==> (match #[trigger] self.stresses@[k] {
                Some(j) => next_stressed(s, k) == Some(j as int),
                None => next_stressed(s, k) is None,
            })
        &&& self.hc_prefix@.len() == s.len() + 1
        &&& forall|k: int| 0 <= k <= s.len() ==> #[trigger] self.hc_prefix@[k] == hc_sum(s, k)
        &&& self.next_stressable@.len() == s.len()
        &&& forall|k: int|
            0 <= k < s.len() ==> #[trigger] self.next_stressable@[k] == next_stressable(s, k)
        &&& self.targets@.len() == s.len()
        &&& forall|k: int|
            0 <= k < s.len() ==> (match #[trigger] self.targets@[k] {
                Some(t) => evidence_target(s, self.tails@, arb, k) == Some(t as int),
                None => evidence_target(s, self.tails@, arb, k) is None,
            })
    }

    /// Computes the tables for `syllables`, whose cmavo runs are `tails`.
    fn new(syllables: &[Syllable], tails: Vec<usize>, settings: Settings) -> (t: Tables)
        requires
            syllables.len() <= max_syllables(),
            true_tails(syllables@, tails@),
            tails_within(tails@),
        ensures
            t.hold(syllables@, settings.arbitrary_cmavo_rafsi),
    {
        let nearest = nearest_stressable_at_or_before(syllables);
        let stresses = next_explicit_stresses(syllables);
        let hc_prefix = hard_consonant_prefix_sums(syllables);
        let next_stressable = next_stressable_after(syllables);
        let targets = evidence_target_from(syllables, &tails, settings);
        let t = Tables { tails, nearest, stresses, hc_prefix, next_stressable, targets };
        proof {
            reveal(Tables::hold);
        }
        t
    }
}

/// What to do after resolving the segment of syllables from some start.
enum Step {
    /// The rest of the syllables form these units.
    Finish(Vec<Unit>),
    /// This unit, of the next `len` syllables, is done; go on after it.
    Cut(Unit, usize),
    /// The cmavo before the first index join the first of the units that
    /// the syllables from it form on their own; the second index is that of
    /// the explicitly stressed syllable before it.
    Recurse(usize, usize),
    /// The next `len` syllables, which are no mere cmavo, up to an
    /// explicitly stressed one that no unit can hold with them, form units
    /// on their own; go on after them.
    Close(usize),
}

/// Units for the first `start` syllables, then units for the rest, hold all
/// of `s`.
proof fn lemma_append_rest(s: Seq<Syllable>, before: Seq<Unit>, rest: Seq<Unit>, start: int)
    requires
        0 <= start <= s.len(),
        all_normal_ok(before),
        plain_seq(all_syllables(before)) == plain_seq(s.take(start)),
        all_normal_ok(rest),
        plain_seq(all_syllables(rest)) == plain_seq(s.subrange(start, s.len() as int)),
    ensures
        all_normal_ok(before + rest),
        plain_seq(all_syllables(before + rest)) == plain_seq(s),
{
    lemma_all_syllables_concat(before, rest);
    lemma_plain_seq_concat(all_syllables(before), all_syllables(rest));
    lemma_plain_seq_concat(s.take(start), s.subrange(start, s.len() as int));
    assert(s.take(start) + s.subrange(start, s.len() as int) =~= s);
    assert forall|k: int| 0 <= k < (before + rest).len() implies normal_unit_ok(
        #[trigger] (before + rest)[k],
    ) by {
        if k < before.len() {
            assert((before + rest)[k] == before[k]);
        } else {
            assert((before + rest)[k] == rest[k - before.len()]);
        }
    }
}

/// What a step of resolving the segment of `s` (whose cmavo runs are
/// `tails`) from `start` promises: units that hold its syllables but for
/// stress and whose pre-brivla hold a stressed one, a unit cut off before a
/// new cmavo, or a later start before which the rest begins anew.
spec fn step_ok(r: Result<Step, Jvofli>, s: Seq<Syllable>, tails: Seq<usize>, start: int) -> bool {
    r matches Ok(step) ==> match step {
            Step::Finish(us) => {
                &&& all_normal_ok(us@)
                &&& plain_seq(all_syllables(us@)) == plain_seq(
                    s.subrange(start, s.len() as int),
                )
                &&& us.len() == 1
                &&& unit_syllables(us@[0])[0].onset == s[start].onset
                &&& gains_at_most_one(unit_syllables(us@[0]), s.subrange(start, s.len() as int))
                &&& all_pre_brivla_stressed(us@)
            },
            Step::Cut(u, len) => {
                &&& 0 < len
                &&& start + len <= s.len()
                &&& normal_unit_ok(u)
                &&& plain_seq(unit_syllables(u)) == plain_seq(
                    s.subrange(start, start + len),
                )
                &&& (start + len < s.len() ==> !s[start
                    + len].continues_cmavo())
                &&& (start + len < s.len() ==> !(s[start + len].onset is H))
                &&& unit_syllables(u)[0].onset == s[start].onset
                &&& unit_syllables(u) == s.subrange(start, start + len)
                &&& pre_brivla_stressed(u)
            },
            Step::Recurse(mid, at) => {
                &&& at < s.len()
                &&& start < mid
                &&& mid + 2 <= s.len()
                &&& !s[mid as int].continues_cmavo()
                &&& tails_within(tails.subrange(start, mid as int))
            },
            Step::Close(len) => {
                &&& 0 < len
                &&& start + len < s.len()
                &&& !s[start + len].continues_cmavo()
                &&& !(s[start + len].onset is H)
            },
        }
}

/// The syllable `a` is `b`, unstressed, with stress gained.
pub open spec fn gained(a: Syllable, b: Syllable) -> bool {
    &&& !b.nucleus.stressed_spec()
    &&& a == Syllable { onset: b.onset, nucleus: b.nucleus.with_stress(true), coda: b.coda }
}

/// The syllables `a` are `b`, but for at most one that gained stress.
#[verifier::opaque]
pub open spec fn gains_at_most_one(a: Seq<Syllable>, b: Seq<Syllable>) -> bool {
    &&& a.len() == b.len()
    &&& forall|i: int| 0 <= i < a.len() ==> a[i] == b[i] || gained(#[trigger] a[i], b[i])
    &&& forall|i: int, j: int|
        0 <= i < a.len() && 0 <= j < a.len() && #[trigger] a[i] != b[i] && #[trigger] a[j] != b[j]
            ==> i == j
}

/// Syllables are themselves with no stress gained.
proof fn lemma_gains_none(a: Seq<Syllable>)
    ensures
        gains_at_most_one(a, a),
{
    reveal(gains_at_most_one);
}

/// Stressing one unstressed syllable gains stress once.
proof fn lemma_gains_stressing(seg: Seq<Syllable>, k: int)
    requires
        0 <= k < seg.len(),
        !seg[k].nucleus.stressed_spec(),
    ensures
        gains_at_most_one(stressing(seg, k), seg),
{
    reveal(gains_at_most_one);
}

/// The units `us` hold the syllables `s` in order, each unit its own
/// stretch of them, but for at most one syllable per unit that gained
/// stress.
#[verifier::opaque]
pub open spec fn units_gain(us: Seq<Unit>, s: Seq<Syllable>) -> bool
    decreases us.len(),
{
    if us.len() == 0 {
        s.len() == 0
    } else {
        let u = unit_syllables(us[0]);
        &&& u.len() <= s.len()
        &&& gains_at_most_one(u, s.take(u.len() as int))
        &&& units_gain(us.drop_first(), s.skip(u.len() as int))
    }
}

/// Units for `s1` and then units for `s2` are units for `s1 + s2`.
proof fn lemma_units_gain_concat(a: Seq<Unit>, b: Seq<Unit>, s1: Seq<Syllable>, s2: Seq<Syllable>)
    requires
        units_gain(a, s1),
        units_gain(b, s2),
    ensures
        units_gain(a + b, s1 + s2),
    decreases a.len(),
{
    reveal(units_gain);
    if a.len() == 0 {
        assert(a + b =~= b);
        assert(s1 + s2 =~= s2);
    } else {
        let u = unit_syllables(a[0]);
        let m = u.len() as int;
        lemma_units_gain_concat(a.drop_first(), b, s1.skip(m), s2);
        assert((a + b)[0] == a[0]);
        assert((a + b).drop_first() =~= a.drop_first() + b);
        assert((s1 + s2).take(m) =~= s1.take(m));
        assert((s1 + s2).skip(m) =~= s1.skip(m) + s2);
    }
}

/// One unit whose syllables are `seg` but for at most one that gained
/// stress holds `seg`.
proof fn lemma_units_gain_one(u: Unit, seg: Seq<Syllable>)
    requires
        gains_at_most_one(unit_syllables(u), seg),
    ensures
        units_gain(seq![u], seg),
{
    reveal(gains_at_most_one);
    reveal(units_gain);
    let m = unit_syllables(u).len() as int;
    assert(seq![u][0] == u);
    assert(seg.take(m) =~= seg);
    assert(seq![u].drop_first() =~= Seq::<Unit>::empty());
    assert(seg.skip(m) =~= Seq::<Syllable>::empty());
    assert(units_gain(Seq::<Unit>::empty(), Seq::<Syllable>::empty()));
}

/// Syllables `pre` put in front of the first of units for `t` give units
/// for `pre + t`.
proof fn lemma_units_gain_prepend(
    first: Unit,
    rest: Seq<Unit>,
    t: Seq<Syllable>,
    pre: Seq<Syllable>,
    merged: Unit,
)
    requires
        units_gain(seq![first] + rest, t),
        unit_syllables(merged) == pre + unit_syllables(first),
    ensures
        units_gain(seq![merged] + rest, pre + t),
{
    reveal(gains_at_most_one);
    reveal(units_gain);
    let f = unit_syllables(first);
    let fm = f.len() as int;
    let all = seq![first] + rest;
    assert(all[0] == first);
    assert(all.drop_first() =~= rest);
    let mm = unit_syllables(merged);
    let pt = pre + t;
    let k = mm.len() as int;
    assert(pt.take(k) =~= pre + t.take(fm));
    assert(pt.skip(k) =~= t.skip(fm));
    let b = pt.take(k);
    let bt = t.take(fm);
    assert forall|i: int| 0 <= i < mm.len() implies mm[i] == b[i] || gained(#[trigger] mm[i], b[i]) by {
        if i >= pre.len() {
            assert(mm[i] == f[i - pre.len()]);
            assert(b[i] == bt[i - pre.len()]);
        }
    }
    assert forall|i: int, j: int|
        0 <= i < mm.len() && 0 <= j < mm.len() && #[trigger] mm[i] != b[i] && #[trigger] mm[j] != b[j]
        implies i == j by {
        assert(i >= pre.len() && j >= pre.len());
        assert(mm[i] == f[i - pre.len()] && b[i] == bt[i - pre.len()]);
        assert(mm[j] == f[j - pre.len()] && b[j] == bt[j - pre.len()]);
        assert(f[i - pre.len()] != bt[i - pre.len()]);
        assert(f[j - pre.len()] != bt[j - pre.len()]);
    }
    let m2 = seq![merged] + rest;
    assert(m2[0] == merged);
    assert(m2.drop_first() =~= rest);
}

/// Every unit of `us` after the first starts with a syllable that has no
/// apostrophe onset.
pub open spec fn later_units_open(us: Seq<Unit>) -> bool {
    forall|k: int| 1 <= k < us.len() ==> !(unit_syllables(#[trigger] us[k])[0].onset is H)
}

/// Units put together: those after the first of the whole start without an
/// apostrophe onset where they do in each part and the second part's
/// first unit does too.
proof fn lemma_open_concat(a: Seq<Unit>, b: Seq<Unit>)
    requires
        later_units_open(a),
        later_units_open(b),
        a.len() > 0 && b.len() > 0 ==> !(unit_syllables(b[0])[0].onset is H),
    ensures
        later_units_open(a + b),
        a.len() > 0 ==> (a + b)[0] == a[0],
        a.len() == 0 ==> a + b == b,
{
    assert forall|k: int| 1 <= k < (a + b).len() implies !(unit_syllables(#[trigger] (a + b)[k])[0].onset is H) by {
        if k < a.len() {
            assert((a + b)[k] == a[k]);
        } else {
            assert((a + b)[k] == b[k - a.len()]);
        }
    }
    if a.len() == 0 {
        assert(a + b =~= b);
    }
}

/// Resolves the stress of the segment of `syllables` from `start`: either
/// the rest forms units, or a unit ends before the end, or the cmavo at the
/// start join the units of a later part.
#[verifier::rlimit(100)]
#[verifier::spinoff_prover]
fn resolve_segment(syllables: &[Syllable], tables: &Tables, settings: Settings, start: usize) -> (r:
    Result<Step, Jvofli>)
    requires
        tables.hold(syllables@, settings.arbitrary_cmavo_rafsi),
        start < syllables.len(),
        !syllables@[start as int].continues_cmavo(),
    ensures
        boundaries_spec(syllables@, tables.tails@, settings.arbitrary_cmavo_rafsi, start as int).last()
            == syllables.len() - start ==> (r matches Ok(Step::Finish(us)) && cmavo_unit_of(
            us@,
            syllables@.subrange(start as int, syllables.len() as int),
        )),
        boundaries_spec(syllables@, tables.tails@, settings.arbitrary_cmavo_rafsi, start as int).last()
            != syllables.len() - start && syllables.len() - start < 2 ==> r matches Err(
            Jvofli::NotEnoughSyllables(_),
        ),
        step_ok(r, syllables@, tables.tails@, start as int),
        step_follows(r, seg_plan(syllables@, settings.arbitrary_cmavo_rafsi, start as int), syllables@, start as int),
{
    proof {
        reveal(Tables::hold);
        lemma_true_tails_of(syllables@, tables.tails@);
    }
    let n = syllables.len();
    let ghost s = syllables@;
    let ghost arb = settings.arbitrary_cmavo_rafsi;
    let seg_len = n - start;
    let boundaries = cmavo_boundaries_from(syllables, &tables.tails, settings, start);
    let ghost b = boundaries_spec(s, tables.tails@, arb, start as int);
    proof {
        lemma_boundaries(s, tables.tails@, arb, start as int);
        assert forall|k: int| 0 <= k < boundaries.len() implies #[trigger] boundaries@[k]
            <= seg_len by {
            assert(as_ints(boundaries@)[k] == boundaries@[k]);
        }
        assert(as_ints(boundaries@)[boundaries.len() - 1] == boundaries@[boundaries.len() - 1]);
    }
    if boundaries[boundaries.len() - 1] == seg_len {
        let mut us: Vec<Unit> = Vec::new();
        let u = Unit::Normal { syllables: deque_of(&syllables[start..n]), pre_brivla_start: None };
        us.push(u);
        proof {
            lemma_one_unit(u);
            assert(us@ =~= seq![u]);
            assert(pre_brivla_stressed(us@[0]));
            assert(units_model(us@) =~= seq![(s.subrange(start as int, n as int), None::<usize>, Seq::<char>::empty())]);
            lemma_gains_none(s.subrange(start as int, n as int));
        }
        proof {
            reveal(seg_plan);
        }
        return Ok(Step::Finish(us));
    }
    proof {
        lemma_evidence_exists(s, tables.tails@, arb, start as int);
    }
    let evidence_target = match tables.targets[start] {
        Some(abs) => abs - start,
        None => {
            proof {
                assert(false);
            }
            0
        },
    };
    if seg_len < 2 {
        proof {
            reveal(seg_plan);
        }
        return Err(Jvofli::NotEnoughSyllables(syllables[start].to_text()));
    }
    let (default_idx, found_start) = match find_default_start(
        syllables,
        start,
        &boundaries,
        evidence_target,
    ) {
        Some(x) => x,
        None => {
            proof {
                lemma_default_none(s, start as int, b, boundaries@, evidence_target as int);
                reveal(seg_plan);
            }
            return Err(Jvofli::UnstressablePreBrivlaStart(syllables[start].to_text()));
        },
    };
    proof {
        lemma_default_found(
            s,
            start as int,
            b,
            boundaries@,
            evidence_target as int,
            default_idx as int,
        );
    }
    let is_ccvhv = seg_len - found_start == 2 && matches!(
        syllables[start + found_start].onset,
        Onset::Pair(_)
    ) && syllables[start + found_start].coda.is_none() && syllables[start + found_start
        + 1].has_h_onset() && syllables[start + found_start + 1].coda.is_none();
    let default_start = if is_ccvhv {
        if default_idx == 0 {
            // even under noslinku'i!
            proof {
                reveal(seg_plan);
            }
            return Err(Jvofli::Slinkuhi(syllables_text(&syllables[start + found_start..n])));
        }
        boundaries[default_idx - 1]
    } else {
        found_start
    };
    let ghost dk: int = if is_ccvhv {
        default_idx - 1
    } else {
        default_idx as int
    };
    proof {
        if is_ccvhv {
            assert(b[default_idx - 1] < b[default_idx as int]);
            assert(as_ints(boundaries@)[default_idx - 1] == boundaries@[default_idx - 1]);
            assert(as_ints(boundaries@)[default_idx as int] == boundaries@[default_idx as int]);
        }
        assert(as_ints(boundaries@)[dk] == boundaries@[dk]);
        assert(boundaries@[dk] == default_start);
        lemma_nearest_stressable(s, n - 2, start + found_start);
    }
    assert(default_start <= found_start);
    if !syllables[n - 1].nucleus.is_stressable() {
        proof {
            reveal(seg_plan);
        }
        return Err(Jvofli::UnstressablePreBrivlaEnd(syllables[n - 1].to_text()));
    }
    proof {
        assert(as_ints(boundaries@)[default_idx as int] == boundaries@[default_idx as int]);
        lemma_plan_stress(s, arb, start as int, default_idx as int, default_start as int);
        assert(natural_rel(s, start as int, default_start as int) is Some);
        assert(!s[start + default_start].continues_cmavo());
    }
    resolve_stressed(syllables, tables, settings, start, &boundaries, evidence_target, default_start)
}

/// Resolves the stress of the segment of `syllables` from `start` whose
/// pre-brivla starts by default at `default_start`, before the brivla
/// evidence at `evidence_target` (both relative to `start`).
#[verifier::rlimit(100)]
#[verifier::spinoff_prover]
fn resolve_stressed(
    syllables: &[Syllable],
    tables: &Tables,
    settings: Settings,
    start: usize,
    boundaries: &Vec<usize>,
    evidence_target: usize,
    default_start: usize,
) -> (r: Result<Step, Jvofli>)
    requires
        tables.hold(syllables@, settings.arbitrary_cmavo_rafsi),
        start < syllables.len(),
        syllables.len() - start >= 2,
        !syllables@[start as int].continues_cmavo(),
        as_ints(boundaries@) == boundaries_spec(
            syllables@,
            tables.tails@,
            settings.arbitrary_cmavo_rafsi,
            start as int,
        ),
        crate::units::precompute::evidence_target(
            syllables@,
            tables.tails@,
            settings.arbitrary_cmavo_rafsi,
            start as int,
        ) == Some(start + evidence_target),
        start + evidence_target < syllables.len(),
        default_start <= evidence_target,
        default_start + 2 <= syllables.len() - start,
        !syllables@[start + default_start].continues_cmavo(),
        natural_rel(syllables@, start as int, default_start as int) is Some,
        stressable(syllables@[syllables.len() - 1].nucleus),
    ensures
        step_ok(r, syllables@, tables.tails@, start as int),
        step_follows(
            r,
            plan_stress(syllables@, settings.arbitrary_cmavo_rafsi, start as int, default_start as int),
            syllables@,
            start as int,
        ),
{
    proof {
        reveal(Tables::hold);
        lemma_true_tails_of(syllables@, tables.tails@);
    }
    let n = syllables.len();
    let ghost s = syllables@;
    let ghost arb = settings.arbitrary_cmavo_rafsi;
    let seg_len = n - start;
    let ghost b = boundaries_spec(s, tables.tails@, arb, start as int);
    proof {
        lemma_boundaries(s, tables.tails@, arb, start as int);
        assert forall|k: int| 0 <= k < boundaries.len() implies #[trigger] boundaries@[k]
            <= seg_len by {
            assert(as_ints(boundaries@)[k] == boundaries@[k]);
        }
        lemma_next_stressed(s, start as int);
        lemma_nearest_stressable_some(s, n - 2);
    }
    let stress_idx = match tables.stresses[start] {
        Some(abs) => if abs < n {
            Some(abs - start)
        } else {
            None
        },
        None => None,
    };
    let natural_stress = match tables.nearest[n - 2] {
        Some(j) => if j >= start && j - start >= default_start {
            Some(j - start)
        } else {
            None
        },
        None => None,
    };
    let stress_idx = match stress_idx {
        Some(x) => x,
        None => {
            let natural = match natural_stress {
                Some(x) => x,
                None => {
                    proof {
                        assert(false);
                    }
                    0
                },
            };
            let ghost seg = s.subrange(start as int, n as int);
            let u = Unit::Normal {
                syllables: deque_stressing(&syllables[start..n], natural),
                pre_brivla_start: Some(default_start),
            };
            let mut us: Vec<Unit> = Vec::new();
            us.push(u);
            proof {
                lemma_plain_stressing(seg, natural as int);
                lemma_one_unit(u);
                assert(us@ =~= seq![u]);
                assert(units_model(us@) =~= seq![
                    (stressing(seg, natural as int), Some(default_start), Seq::<char>::empty()),
                ]);
                let d = unit_syllables(u);
                assert(stressable(s[start + natural].nucleus));
                assert(d[natural as int].nucleus.stressed_spec());
                assert(pre_brivla_stressed(us@[0]));
                assert(!seg[natural as int].nucleus.stressed_spec()) by {
                    assert(seg[natural as int] == s[start + natural]);
                }
                lemma_gains_stressing(seg, natural as int);
            }
            proof {
                reveal(plan_stress);
            }
            return Ok(Step::Finish(us));
        },
    };
    let natural_matches = match natural_stress {
        Some(x) => x == stress_idx,
        None => false,
    };
    if natural_matches {
        let u = Unit::Normal {
            syllables: deque_of(&syllables[start..n]),
            pre_brivla_start: Some(default_start),
        };
        let mut us: Vec<Unit> = Vec::new();
        us.push(u);
        proof {
            lemma_one_unit(u);
            assert(us@ =~= seq![u]);
            assert(unit_syllables(u)[stress_idx as int] == s[start + stress_idx]);
            assert(pre_brivla_stressed(us@[0]));
            assert(units_model(us@) =~= seq![
                (s.subrange(start as int, n as int), Some(default_start), Seq::<char>::empty()),
            ]);
            lemma_gains_none(s.subrange(start as int, n as int));
        }
        proof {
            reveal(plan_stress);
        }
        return Ok(Step::Finish(us));
    }
    proof {
        lemma_plan_cut(s, arb, start as int, default_start as int, stress_idx as int);
    }
    let stress_idx_abs = start + stress_idx;
    proof {
        lemma_next_stressable_bounds(s, stress_idx_abs as int);
    }
    let next = tables.next_stressable[stress_idx_abs];
    let r_hi = if next - start + 1 < seg_len {
        next - start + 1
    } else {
        seg_len
    };
    let r_lo = if stress_idx + 2 < evidence_target + 1 {
        evidence_target + 1
    } else {
        stress_idx + 2
    };
    let candidates = if r_lo <= r_hi {
        split_candidates(syllables, start, stress_idx, r_lo, r_hi)
    } else {
        let v: Vec<usize> = Vec::new();
        v
    };
    proof {
        lemma_increasing_ints(boundaries@);
    }
    let split_at = find_split(
        syllables,
        &tables.hc_prefix,
        start,
        &boundaries,
        &candidates,
        stress_idx,
        evidence_target,
    );
    let ghost lo = r_lo as int;
    let ghost hi = r_hi as int;
    let ghost x = stress_idx as int;
    let ghost tg = evidence_target as int;
    proof {
        assert forall|q: int| #[trigger] cand(s, start as int, x, lo, hi, q) implies candidates@.contains(
            q as usize,
        ) by {}
        assert forall|k: int| 0 <= k < candidates.len() implies cand(
            s,
            start as int,
            x,
            lo,
            hi,
            #[trigger] candidates@[k] as int,
        ) by {}
    }
    if let Some((l, r)) = split_at {
        proof {
            let k = choose|k: int| 0 <= k < candidates.len() && candidates@[k] == r;
            assert(candidates@[k] == r);
            lemma_split_found(s, start as int, b, boundaries@, candidates@, x, tg, lo, hi, l, r);
        }
        if !syllables[start + r - 1].nucleus.is_stressable() {
            proof {
                reveal(plan_cut);
            }
            return Err(Jvofli::UnstressablePreBrivlaEnd(syllables[start + r - 1].to_text()));
        }
        let u = Unit::Normal {
            syllables: deque_of(&syllables[start..start + r]),
            pre_brivla_start: Some(l),
        };
        proof {
            assert(unit_syllables(u)[stress_idx as int] == s[start + stress_idx]);
        }
        proof {
            reveal(plan_cut);
        }
        return Ok(Step::Cut(u, r));
    }
    proof {
        lemma_split_none(s, start as int, b, boundaries@, candidates@, x, tg, lo, hi);
    }
    if stress_idx < default_start {
        let mid = start + default_start;
        proof {
            lemma_tails_slice_within(s, tables.tails@, start as int, mid as int);
        }
        if is_cmavo_sequence(&syllables[start..mid], &tables.tails[start..mid], settings) {
            proof {
                reveal(plan_cut);
            }
            return Ok(Step::Recurse(mid, start + stress_idx));
        }
    }
    if evidence_target < stress_idx && !syllables[start + stress_idx].has_h_onset() {
        // the stress lies after the brivla: the brivla ends before it, where
        // the syllables before the stress are no mere cmavo
        let before = &syllables[start..start + stress_idx];
        let before_tails = cmavo_tail_lengths(before);
        proof {
            lemma_true_tails_of(before@, before_tails@);
        }
        if !is_cmavo_sequence(before, before_tails.as_slice(), settings) {
            proof {
                reveal(plan_cut);
            }
            return Ok(Step::Close(stress_idx));
        }
    }
    proof {
        reveal(plan_cut);
    }
    Err(Jvofli::InvalidStressPosition(syllables[start + stress_idx].to_text()))
}

/// Units whose pre-brivla hold a stressed syllable, put together.
proof fn lemma_stressed_concat(a: Seq<Unit>, b: Seq<Unit>)
    requires
        all_pre_brivla_stressed(a),
        all_pre_brivla_stressed(b),
    ensures
        all_pre_brivla_stressed(a + b),
{
    assert forall|k: int| 0 <= k < (a + b).len() implies pre_brivla_stressed(#[trigger] (a + b)[k]) by {
        if k < a.len() {
            assert((a + b)[k] == a[k]);
        } else {
            assert((a + b)[k] == b[k - a.len()]);
        }
    }
}

/// One well-formed unit holds its own syllables.
proof fn lemma_one_unit(u: Unit)
    requires
        normal_unit_ok(u),
    ensures
        all_normal_ok(seq![u]),
        all_syllables(seq![u]) == unit_syllables(u),
{
    lemma_all_syllables_push(seq![], u);
    assert(seq![].push(u) =~= seq![u]);
    assert(all_syllables(seq![]) =~= seq![]);
    assert(all_syllables(seq![u]) =~= unit_syllables(u));
}

/// Nothing in front changes nothing.
proof fn lemma_prepend_empty(o: Result<Seq<UnitView>, Fault>)
    ensures
        prepend_units(seq![], o) == o,
{
    if let Ok(x) = o {
        assert(Seq::<UnitView>::empty() + x =~= x);
    }
}

/// Putting `b` and then `a` in front is putting `a + b` in front.
proof fn lemma_prepend_twice(
    a: Seq<UnitView>,
    b: Seq<UnitView>,
    o: Result<Seq<UnitView>, Fault>,
)
    ensures
        prepend_units(a, prepend_units(b, o)) == prepend_units(a + b, o),
{
    if let Ok(x) = o {
        assert(a + (b + x) =~= (a + b) + x);
    }
}

/// The model of units put together is the models put together.
proof fn lemma_models_concat(a: Seq<Unit>, b: Seq<Unit>)
    ensures
        units_model(a + b) == units_model(a) + units_model(b),
{
    assert(units_model(a + b) =~= units_model(a) + units_model(b));
}

/// Units for the first `start` syllables, then the first unit of the
/// units `rest0` for `s[mid..]` with `s[start..mid]` put in front of it as
/// `merged`, then the rest of `rest0`, are units for all of `s` with all
/// that the stress resolution promises.
#[verifier::rlimit(60)]
proof fn lemma_recurse_units(
    s: Seq<Syllable>,
    before: Seq<Unit>,
    first: Unit,
    merged: Unit,
    rest0: Seq<Unit>,
    start: int,
    mid: int,
)
    requires
        0 <= start < mid < s.len(),
        all_normal_ok(before),
        plain_seq(all_syllables(before)) == plain_seq(s.take(start)),
        all_pre_brivla_stressed(before),
        units_gain(before, s.take(start)),
        later_units_open(before),
        before.len() > 0 ==> unit_syllables(before[0])[0].onset == s[0].onset,
        start == 0 ==> before.len() == 0,
        start > 0 ==> before.len() > 0,
        0 < start ==> !(s[start].onset is H),
        rest0.len() > 0,
        rest0[0] == first,
        all_normal_ok(rest0),
        plain_seq(all_syllables(rest0)) == plain_seq(s.subrange(mid, s.len() as int)),
        all_pre_brivla_stressed(rest0),
        units_gain(rest0, s.subrange(mid, s.len() as int)),
        later_units_open(rest0),
        first->pre_brivla_start is Some,
        normal_unit_ok(merged),
        unit_syllables(merged) == s.subrange(start, mid) + unit_syllables(first),
        merged->pre_brivla_start == Some(
            (first->pre_brivla_start->0 + (mid - start)) as usize,
        ),
    ensures
        all_normal_ok((before.push(merged) + rest0.subrange(1, rest0.len() as int))),
        plain_seq(all_syllables((before.push(merged) + rest0.subrange(1, rest0.len() as int)))) == plain_seq(s),
        all_pre_brivla_stressed((before.push(merged) + rest0.subrange(1, rest0.len() as int))),
        units_gain((before.push(merged) + rest0.subrange(1, rest0.len() as int)), s),
        later_units_open((before.push(merged) + rest0.subrange(1, rest0.len() as int))),
        unit_syllables((before.push(merged) + rest0.subrange(1, rest0.len() as int))[0])[0].onset == s[0].onset,
        units_model((before.push(merged) + rest0.subrange(1, rest0.len() as int))) == units_model(before).push(unit_model(merged)) + units_model(
            rest0,
        ).drop_first(),
        unit_model(merged) == (
            s.subrange(start, mid) + units_model(rest0)[0].0,
            Some((units_model(rest0)[0].1->0 + (mid - start)) as usize),
            Seq::<char>::empty(),
        ),
{
    let n = s.len() as int;
    let sub = s.subrange(mid, n);
    let pre = s.subrange(start, mid);
    let tail = rest0.subrange(1, rest0.len() as int);
    let units = before.push(merged) + tail;
    assert(rest0 =~= seq![first] + tail);
    lemma_first_unit(rest0);
    assert(plain_seq(all_syllables(rest0)).len() == all_syllables(rest0).len());
    assert(plain_seq(sub).len() == n - mid);
    lemma_prepend_rest(s, before, merged, first, tail, start, mid);
    assert(pre_brivla_stressed(rest0[0]));
    let p = first->pre_brivla_start->0;
    let k = choose|k: int|
        p <= k < unit_syllables(first).len() && (#[trigger] unit_syllables(first)[k]).nucleus.stressed_spec();
    assert(unit_syllables(merged)[pre.len() + k] == unit_syllables(first)[k]);
    assert(pre_brivla_stressed(merged));
    assert(all_pre_brivla_stressed(tail)) by {
        assert forall|j: int| 0 <= j < tail.len() implies pre_brivla_stressed(#[trigger] tail[j]) by {
            assert(tail[j] == rest0[j + 1]);
        }
    }
    lemma_stressed_concat(before, seq![merged]);
    assert(before + seq![merged] =~= before.push(merged));
    lemma_stressed_concat(before.push(merged), tail);
    lemma_models_concat(before.push(merged), tail);
    assert(units_model(before.push(merged)) =~= units_model(before).push(unit_model(merged)));
    assert(units_model(tail) =~= units_model(rest0).drop_first());
    lemma_units_gain_prepend(first, tail, sub, pre, merged);
    lemma_units_gain_concat(before, seq![merged] + tail, s.take(start), pre + sub);
    assert(s.take(start) + (pre + sub) =~= s);
    assert(units =~= before + (seq![merged] + tail));
    lemma_all_syllables_concat(before.push(merged), tail);
    lemma_all_syllables_push(before, merged);
    assert(unit_syllables(merged)[0] == s[start]);
    assert forall|j: int| 1 <= j < units.len() implies !(unit_syllables(#[trigger] units[j])[0].onset is H) by {
        if j < before.len() {
            assert(units[j] == before[j]);
        } else if j == before.len() {
            assert(units[j] == merged);
        } else {
            assert(units[j] == rest0[j - before.len()]);
        }
    }
    if before.len() > 0 {
        assert(units[0] == before[0]);
    } else {
        assert(units[0] == merged);
    }
}

/// Tries to split `syllables` into multiple units using stress locations.
///
/// It succeeds exactly where the stress rule (see `stress_split`) does, and
/// then gives the units that rule gives. The units are well formed, each
/// pre-brivla holds at least two syllables and a stressed one, every unit
/// after the first starts without an apostrophe onset, and together they
/// hold the syllables in order, each as it was but for at most one syllable
/// per unit that gains stress (a pre-brivla without one gets it on its
/// natural, penultimate stressable, syllable).
#[verifier::rlimit(100)]
#[verifier::spinoff_prover]
pub(crate) fn resolve_stress_and_split(syllables: &[Syllable], settings: Settings) -> (r: Result<
    Vec<Unit>,
    Jvofli,
>)
    requires
        syllables.len() <= max_syllables(),
        syllables.len() == 0 || !syllables@[0].continues_cmavo(),
    ensures
        r matches Ok(units) ==> {
            &&& all_normal_ok(units@)
            &&& plain_seq(all_syllables(units@)) == plain_seq(syllables@)
            &&& (syllables.len() > 0 ==> units.len() > 0)
            &&& all_pre_brivla_stressed(units@)
        },
        syllables.len() == 0 ==> (r matches Ok(units) && units.len() == 0),
        syllables.len() > 0 && cmavo_syllables(syllables@, settings.arbitrary_cmavo_rafsi) ==> (r matches Ok(
            units,
        ) && cmavo_unit_of(units@, syllables@)),
        match stress_split(syllables@, settings.arbitrary_cmavo_rafsi) {
            Ok(m) => r matches Ok(units) && units_model(units@) == m,
            Err(f) => r matches Err(e) && e@ == f,
        },
        r matches Ok(units) ==> later_units_open(units@) && (units.len() > 0 ==> unit_syllables(
            units@[0],
        )[0].onset == syllables@[0].onset),
        r matches Ok(units) ==> units_gain(units@, syllables@),
    decreases syllables.len(),
{
    let n = syllables.len();
    let ghost s = syllables@;
    let ghost arb = settings.arbitrary_cmavo_rafsi;
    if n == 0 {
        let units: Vec<Unit> = Vec::new();
        assert(all_syllables(units@) =~= seq![]);
        assert(plain_seq(seq![]) =~= plain_seq(s));
        assert(units_model(units@) =~= seq![]);
        assert(units_gain(units@, s)) by {
            reveal(units_gain);
        }
        return Ok(units);
    }
    // precompute a bunch of stuff
    let tails = cmavo_tail_lengths(syllables);
    let boundaries0 = cmavo_boundaries_from(syllables, &tails, settings, 0);
    proof {
        lemma_true_tails_of(s, tails@);
        lemma_boundaries(s, tails@, arb, 0);
        assert(as_ints(boundaries0@)[boundaries0.len() - 1] == boundaries0@[boundaries0.len() - 1]);
    }
    if boundaries0[boundaries0.len() - 1] == n {
        // early exit if only cmavo
        let mut units: Vec<Unit> = Vec::new();
        let u = Unit::Normal { syllables: deque_of(syllables), pre_brivla_start: None };
        units.push(u);
        proof {
            lemma_one_unit(u);
            assert(units@ =~= seq![u]);
            assert(pre_brivla_stressed(units@[0]));
            assert(units_model(units@) =~= seq![(s, None::<usize>, Seq::<char>::empty())]);
            assert(gains_at_most_one(unit_syllables(u), s)) by {
                reveal(gains_at_most_one);
            }
            lemma_units_gain_one(u, s);
        }
        return Ok(units);
    }
    proof {
        assert(!cmavo_syllables(s, arb));
    }
    let tables = Tables::new(syllables, tails, settings);
    // scan time
    let mut units: Vec<Unit> = Vec::new();
    let mut start: usize = 0;
    proof {
        assert(all_syllables(units@) =~= seq![]);
        assert(s.take(0) =~= seq![]);
        assert(units_model(units@) =~= seq![]);
        lemma_prepend_empty(walk(s, arb, 0));
        assert(units_gain(units@, s.take(0))) by {
            reveal(units_gain);
        }
    }
    while start < n
        invariant
            n == syllables.len(),
            s == syllables@,
            arb == settings.arbitrary_cmavo_rafsi,
            n <= max_syllables(),
            tables.hold(s, arb),
            start <= n,
            start < n ==> !s[start as int].continues_cmavo(),
            all_normal_ok(units@),
            plain_seq(all_syllables(units@)) == plain_seq(s.take(start as int)),
            start > 0 ==> units.len() > 0,
            all_pre_brivla_stressed(units@),
            !cmavo_syllables(s, arb),
            walk(s, arb, 0) == prepend_units(units_model(units@), walk(s, arb, start as int)),
            later_units_open(units@),
            units.len() > 0 ==> unit_syllables(units@[0])[0].onset == s[0].onset,
            start == 0 ==> units.len() == 0,
            0 < start < n ==> !(s[start as int].onset is H),
            units_gain(units@, s.take(start as int)),
        decreases n - start,
    {
        let ghost w = walk(s, arb, start as int);
        let ghost mu = units_model(units@);
        let res = resolve_segment(syllables, &tables, settings, start);
        let step = match res {
            Ok(x) => x,
            Err(e) => {
                proof {
                    assert(w is Err);
                }
                return Err(e);
            },
        };
        match step {
            Step::Finish(mut us) => {
                let ghost before = units@;
                let ghost rest = us@;
                units.append(&mut us);
                proof {
                    lemma_append_rest(s, before, rest, start as int);
                    lemma_stressed_concat(before, rest);
                    lemma_models_concat(before, rest);
                    let seg = s.subrange(start as int, n as int);
                    assert(rest =~= seq![rest[0]]);
                    lemma_units_gain_one(rest[0], seg);
                    lemma_units_gain_concat(before, rest, s.take(start as int), seg);
                    assert(s.take(start as int) + seg =~= s);
                }
                return Ok(units);
            },
            Step::Cut(u, len) => {
                let ghost before = units@;
                units.push(u);
                proof {
                    lemma_push_segment(s, before, u, start as int, start + len);
                    lemma_stressed_concat(before, seq![u]);
                    assert(before + seq![u] =~= before.push(u));
                    lemma_models_concat(before, seq![u]);
                    assert(units_model(seq![u]) =~= seq![unit_model(u)]);
                    lemma_prepend_twice(mu, seq![unit_model(u)], walk(s, arb, start + len));
                    let sub = s.subrange(start as int, start + len);
                    assert(gains_at_most_one(unit_syllables(u), sub)) by {
                        reveal(gains_at_most_one);
                    }
                    lemma_all_syllables_push(before, u);
                    assert(s.take(start as int) + sub =~= s.take(start + len));
                    lemma_units_gain_one(u, sub);
                    lemma_units_gain_concat(before, seq![u], s.take(start as int), sub);
                    assert(s.take(start as int) + sub =~= s.take(start + len));
                }
                start += len;
            },
            Step::Close(len) => {
                let ghost sub = s.subrange(start as int, start + len);
                let mut first = match resolve_stress_and_split(
                    &syllables[start..start + len],
                    settings,
                ) {
                    Ok(v) => v,
                    Err(e) => {
                        proof {
                            assert(stress_split(sub, arb) is Err);
                        }
                        return Err(e);
                    },
                };
                let ghost before = units@;
                let ghost got = first@;
                units.append(&mut first);
                proof {
                    lemma_stressed_concat(before, got);
                    assert(s.take(start + len).take(start as int) =~= s.take(start as int));
                    assert(s.take(start + len).subrange(start as int, start + len) =~= s.subrange(
                        start as int,
                        start + len,
                    ));
                    lemma_append_rest(s.take(start + len), before, got, start as int);
                    lemma_models_concat(before, got);
                    lemma_prepend_twice(mu, units_model(got), walk(s, arb, start + len));
                    lemma_units_gain_concat(before, got, s.take(start as int), sub);
                    assert(s.take(start as int) + sub =~= s.take(start + len));
                }
                start += len;
            },
            Step::Recurse(mid, at) => {
                let ghost sub = s.subrange(mid as int, n as int);
                let mut rest = match resolve_stress_and_split(&syllables[mid..n], settings) {
                    Ok(v) => v,
                    Err(e) => {
                        proof {
                            assert(stress_split(sub, arb) is Err);
                        }
                        return Err(e);
                    },
                };
                let ghost rest0 = rest@;
                proof {
                    assert(normal_unit_ok(rest0[0]));
                    lemma_first_unit(rest0);
                    assert(plain_seq(all_syllables(rest0)).len() == all_syllables(rest0).len());
                    assert(plain_seq(s.subrange(mid as int, n as int)).len() == n - mid);
                }
                let first = rest.remove(0);
                proof {
                    assert(units_model(rest0)[0] == unit_model(first));
                }
                if let Unit::Normal { pre_brivla_start: None, .. } = first {
                    // the syllables from `mid` hold a brivla, so the first of
                    // their units starts a pre-brivla; where it does not, the
                    // stress has no place
                    return Err(Jvofli::InvalidStressPosition(syllables[at].to_text()));
                }
                let merged = prepend_syllables(&syllables[start..mid], first);
                let ghost before = units@;
                units.push(merged);
                units.append(&mut rest);
                proof {
                    let tail = rest0.subrange(1, rest0.len() as int);
                    assert(rest0 =~= seq![first] + tail);
                    assert(units@ =~= before.push(merged) + tail);
                    lemma_recurse_units(s, before, first, merged, rest0, start as int, mid as int);
                    let m0 = units_model(rest0);
                    assert(mu.push(unit_model(merged)) + m0.drop_first() =~= mu + (seq![
                        unit_model(merged),
                    ] + m0.drop_first()));
                }
                return Ok(units);
            },
        }
    }
    proof {
        assert(s.take(n as int) =~= s);
        assert(units_model(units@) + seq![] =~= units_model(units@));
    }
    Ok(units)
}

} // verus!
