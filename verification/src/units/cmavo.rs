//! Finding where cmavo start and end in a list of syllables.

use vstd::prelude::*;

use crate::settings::Settings;
use crate::syllables::{Nucleus, Onset, Syllable};

verus! {

/// The length of the maximal run of cmavo-continuing syllables starting at
/// `i` (0 past the end).
pub open spec fn tail_len(s: Seq<Syllable>, i: int) -> int
    decreases s.len() - i,
{
    if 0 <= i < s.len() && s[i].continues_cmavo() {
        1 + tail_len(s, i + 1)
    } else {
        0
    }
}

/// `tails` holds `tail_len` for every index of `s`.
pub open spec fn true_tails(s: Seq<Syllable>, tails: Seq<usize>) -> bool {
    tails.len() == s.len() && forall|k: int| 0 <= k < s.len() ==> tails[k] == tail_len(s, k)
}

/// No run that `tails` records reaches past the end.
pub open spec fn tails_within(tails: Seq<usize>) -> bool {
    forall|k: int| 0 <= k < tails.len() ==> k + #[trigger] tails[k] <= tails.len()
}

/// The end of the cmavo that starts at `i`, if one can start there: the
/// syllable at `i` and the run of continuing syllables that `tails` records
/// after it.
pub open spec fn one_cmavo(s: Seq<Syllable>, tails: Seq<usize>, i: int) -> Option<int> {
    if i < 0 || i >= s.len() || !s[i].starts_cmavo() {
        None
    } else if i + 1 < tails.len() {
        Some(i + 1 + tails[i + 1])
    } else {
        Some(i + 1)
    }
}

/// Whether a cmavo may follow, without a pause, the cmavo `pos..end` that
/// ends in *y*: always, unless that cmavo is a *Cy* cmavo (or any cmavo,
/// under `arb`), in which case the next cmavo must end in *y* too.
pub open spec fn permitted_after_y(
    s: Seq<Syllable>,
    tails: Seq<usize>,
    pos: int,
    end: int,
    arb: bool,
) -> bool {
    let cy = end - pos == 1 && (s[pos].onset is Empty || s[pos].onset is Single
        || s[pos].onset is Onglide);
    if !(arb || cy) {
        true
    } else {
        match one_cmavo(s, tails, end) {
            None => false,
            Some(next_end) => s[next_end - 1].nucleus is Y,
        }
    }
}

/// The cmavo boundaries, relative to `start`, that a greedy walk from `pos`
/// passes: the walk stops where no cmavo can start, or where a cmavo ending
/// in *y* may not be followed by the next one.
pub open spec fn chain_from(
    s: Seq<Syllable>,
    tails: Seq<usize>,
    arb: bool,
    start: int,
    pos: int,
) -> Seq<int>
    decreases s.len() - pos,
{
    if pos < 0 || pos >= s.len() {
        seq![]
    } else {
        match one_cmavo(s, tails, pos) {
            None => seq![],
            Some(end) => if end < s.len() && s[end - 1].nucleus is Y && !permitted_after_y(
                s,
                tails,
                pos,
                end,
                arb,
            ) {
                seq![]
            } else if end <= pos || end >= s.len() {
                seq![end - start]
            } else {
                seq![end - start] + chain_from(s, tails, arb, start, end)
            },
        }
    }
}

/// A sequence of indices as integers.
pub open spec fn as_ints(v: Seq<usize>) -> Seq<int> {
    v.map_values(|b: usize| b as int)
}

/// All cmavo boundaries from `start`, relative to it: 0 and then the chain.
pub open spec fn boundaries_spec(
    s: Seq<Syllable>,
    tails: Seq<usize>,
    arb: bool,
    start: int,
) -> Seq<int> {
    seq![0int] + chain_from(s, tails, arb, start, start)
}

/// `s` is a sequence of cmavo: empty, or the boundaries walk reaches its end.
pub open spec fn cmavo_sequence(s: Seq<Syllable>, tails: Seq<usize>, arb: bool) -> bool {
    s.len() == 0 || boundaries_spec(s, tails, arb, 0).last() == s.len()
}

/// The index at which the cmavo that holds syllable `i` starts.
pub open spec fn cmavo_start(s: Seq<Syllable>, i: int) -> int
    decreases i,
{
    if 0 < i < s.len() && s[i].continues_cmavo() {
        cmavo_start(s, i - 1)
    } else {
        i
    }
}

/// The lengths of the runs of continuing syllables at each index of `s`.
pub open spec fn tails_of(s: Seq<Syllable>) -> Seq<usize> {
    Seq::new(s.len(), |k: int| tail_len(s, k) as usize)
}

/// The syllables `s` are a sequence of cmavo.
pub open spec fn cmavo_syllables(s: Seq<Syllable>, arb: bool) -> bool {
    cmavo_sequence(s, tails_of(s), arb)
}

/// The true tails of `s` are its tails.
pub proof fn lemma_true_tails_of(s: Seq<Syllable>, t: Seq<usize>)
    requires
        true_tails(s, t),
    ensures
        t == tails_of(s),
{
    assert forall|k: int| 0 <= k < s.len() implies t[k] == tails_of(s)[k] by {
        lemma_tail_len_bounds(s, k);
    }
    assert(t =~= tails_of(s));
}

pub proof fn lemma_tail_len_bounds(s: Seq<Syllable>, i: int)
    requires
        0 <= i <= s.len(),
    ensures
        0 <= tail_len(s, i) <= s.len() - i,
    decreases s.len() - i,
{
    if i < s.len() && s[i].continues_cmavo() {
        lemma_tail_len_bounds(s, i + 1);
    }
}

pub proof fn lemma_true_tails_within(s: Seq<Syllable>, tails: Seq<usize>)
    requires
        true_tails(s, tails),
    ensures
        tails_within(tails),
{
    assert forall|k: int| 0 <= k < tails.len() implies k + #[trigger] tails[k] <= tails.len() by {
        lemma_tail_len_bounds(s, k);
    }
}

/// A run of continuing syllables ends at the end or before a syllable that
/// does not continue a cmavo.
pub proof fn lemma_tail_end(s: Seq<Syllable>, i: int)
    requires
        0 <= i <= s.len(),
    ensures
        i + tail_len(s, i) == s.len() || !s[i + tail_len(s, i)].continues_cmavo(),
        forall|k: int| i <= k < i + tail_len(s, i) ==> #[trigger] s[k].continues_cmavo(),
    decreases s.len() - i,
{
    if i < s.len() && s[i].continues_cmavo() {
        lemma_tail_end(s, i + 1);
    }
}

/// Where no syllable at `m` continues a cmavo, no run before it reaches past
/// `m`.
pub proof fn lemma_tails_stop_at(s: Seq<Syllable>, m: int, k: int)
    requires
        0 <= k <= m <= s.len(),
        m == s.len() || !s[m].continues_cmavo(),
    ensures
        k + tail_len(s, k) <= m,
    decreases m - k,
{
    if k < m && s[k].continues_cmavo() {
        lemma_tails_stop_at(s, m, k + 1);
    }
}

/// The runs that true tails record inside `start..m` stay inside it, when no
/// syllable at `m` continues a cmavo.
pub proof fn lemma_tails_slice_within(s: Seq<Syllable>, t: Seq<usize>, start: int, m: int)
    requires
        true_tails(s, t),
        0 <= start <= m <= s.len(),
        m == s.len() || !s[m].continues_cmavo(),
    ensures
        tails_within(t.subrange(start, m)),
{
    assert forall|k: int| 0 <= k < m - start implies k + #[trigger] t.subrange(start, m)[k] <= m
        - start by {
        lemma_tails_stop_at(s, m, start + k);
    }
}

/// Every syllable of the cmavo that starts at `pos` belongs to that cmavo.
pub proof fn lemma_cmavo_start_in_run(s: Seq<Syllable>, pos: int, k: int)
    requires
        0 <= pos <= k < s.len(),
        !s[pos].continues_cmavo(),
        forall|j: int| pos < j <= k ==> #[trigger] s[j].continues_cmavo(),
    ensures
        cmavo_start(s, k) == pos,
    decreases k,
{
    if k > pos {
        lemma_cmavo_start_in_run(s, pos, k - 1);
    }
}

/// The cmavo chain from `pos` rises strictly, stays inside the syllables,
/// and each of its boundaries ends a run.
pub proof fn lemma_chain_bounds(
    s: Seq<Syllable>,
    t: Seq<usize>,
    arb: bool,
    start: int,
    pos: int,
)
    requires
        true_tails(s, t),
        0 <= start <= pos,
    ensures
        ({
            let c = chain_from(s, t, arb, start, pos);
            &&& forall|k: int|
                0 <= k < c.len() ==> pos - start < #[trigger] c[k] <= s.len() - start && (start
                    + c[k] == s.len() || !s[start + c[k]].continues_cmavo())
            &&& forall|j: int, k: int| 0 <= j < k < c.len() ==> c[j] < c[k]
        }),
    decreases s.len() - pos,
{
    if pos < s.len() {
        if let Some(end) = one_cmavo(s, t, pos) {
            lemma_tail_len_bounds(s, pos + 1);
            lemma_tail_end(s, pos + 1);
            if pos + 1 < s.len() {
                assert(t[pos + 1] == tail_len(s, pos + 1));
            } else {
                assert(tail_len(s, pos + 1) == 0);
            }
            assert(end == pos + 1 + tail_len(s, pos + 1));
            let c = chain_from(s, t, arb, start, pos);
            if end < s.len() && s[end - 1].nucleus is Y && !permitted_after_y(s, t, pos, end, arb) {
                assert(c.len() == 0);
            } else if end >= s.len() {
                assert(c == seq![end - start]);
            } else {
                lemma_chain_bounds(s, t, arb, start, end);
                let rest = chain_from(s, t, arb, start, end);
                assert(c == seq![end - start] + rest);
                assert forall|k: int| 0 <= k < c.len() implies pos - start < #[trigger] c[k] <= s.len()
                    - start && (start + c[k] == s.len() || !s[start + c[k]].continues_cmavo()) by {
                    if k > 0 {
                        assert(c[k] == rest[k - 1]);
                    }
                }
                assert forall|j: int, k: int| 0 <= j < k < c.len() implies c[j] < c[k] by {
                    assert(c[k] == rest[k - 1]);
                    if j > 0 {
                        assert(c[j] == rest[j - 1]);
                    }
                }
            }
        }
    }
}

/// If the cmavo chain from `pos` stops short of the end, some syllable at or
/// after `pos` is brivla evidence: a coda, a cluster onset, a sonorant
/// nucleus, or a *y* that may not be followed by the next cmavo.
pub proof fn lemma_chain_evidence(
    s: Seq<Syllable>,
    t: Seq<usize>,
    arb: bool,
    start: int,
    pos: int,
) -> (j: int)
    requires
        true_tails(s, t),
        0 <= start <= pos < s.len(),
        !s[pos].continues_cmavo(),
        ({
            let c = chain_from(s, t, arb, start, pos);
            c.len() == 0 || c.last() != s.len() - start
        }),
    ensures
        pos <= j < s.len(),
        s[j].coda is Some || s[j].onset.hard_count() >= 2 || s[j].nucleus is Sonorant || (
        s[j].nucleus is Y && j + 1 < s.len() && !permitted_after_y(
            s,
            t,
            cmavo_start(s, j),
            j + 1,
            arb,
        )),
    decreases s.len() - pos,
{
    match one_cmavo(s, t, pos) {
        None => pos,
        Some(end) => {
            lemma_tail_len_bounds(s, pos + 1);
            lemma_tail_end(s, pos + 1);
            if pos + 1 < s.len() {
                assert(t[pos + 1] == tail_len(s, pos + 1));
            } else {
                assert(tail_len(s, pos + 1) == 0);
            }
            assert(end == pos + 1 + tail_len(s, pos + 1));
            if end < s.len() && s[end - 1].nucleus is Y && !permitted_after_y(s, t, pos, end, arb) {
                lemma_cmavo_start_in_run(s, pos, end - 1);
                end - 1
            } else {
                let rest = chain_from(s, t, arb, start, end);
                assert(chain_from(s, t, arb, start, pos) == seq![end - start] + rest);
                if rest.len() > 0 {
                    assert((seq![end - start] + rest).last() == rest.last());
                }
                lemma_chain_evidence(s, t, arb, start, end)
            }
        },
    }
}

/// Returns a list of, for each index `i`, the length of the maximal run of
/// cmavo continuation syllables starting at `i`, or 0 if `syllables[i]` doesn't
/// itself qualify.
pub(crate) fn cmavo_tail_lengths(syllables: &[Syllable]) -> (out: Vec<usize>)
    ensures
        true_tails(syllables@, out@),
        tails_within(out@),
{
    let n = syllables.len();
    let mut out: Vec<usize> = vec![0; n];
    let mut i = n;
    while i > 0
        invariant
            n == syllables.len(),
            out@.len() == n,
            i <= n,
            forall|k: int| i <= k < n ==> out@[k] == tail_len(syllables@, k),
            forall|k: int| 0 <= k < i ==> out@[k] == 0,
        decreases i,
    {
        i -= 1;
        if syllables[i].could_continue_cmavo() {
            let next = if i + 1 < n {
                out[i + 1]
            } else {
                0
            };
            proof {
                lemma_tail_len_bounds(syllables@, i + 1);
                assert(next == tail_len(syllables@, i + 1));
                assert(tail_len(syllables@, i as int) == 1 + tail_len(syllables@, i + 1));
            }
            out.set(i, 1 + next);
        } else {
            assert(tail_len(syllables@, i as int) == 0);
        }
    }
    proof {
        lemma_true_tails_within(syllables@, out@);
    }
    out
}

/// Tries to consume a single cmavo starting at `syllables[i]` and return
/// `Some` index after it.
pub(crate) fn try_one_cmavo(syllables: &[Syllable], cmavo_tail_lens: &[usize], i: usize) -> (r:
    Option<usize>)
    requires
        cmavo_tail_lens.len() == syllables.len(),
        tails_within(cmavo_tail_lens@),
    ensures
        match r {
            Some(e) => one_cmavo(syllables@, cmavo_tail_lens@, i as int) == Some(e as int) && i
                < e <= syllables.len(),
            None => one_cmavo(syllables@, cmavo_tail_lens@, i as int) is None,
        },
{
    if i >= syllables.len() || !syllables[i].could_start_cmavo() {
        return None;
    }
    let tail = if i + 1 < cmavo_tail_lens.len() {
        cmavo_tail_lens[i + 1]
    } else {
        0
    };
    Some(i + 1 + tail)
}

/// Returns whether a cmavo may immediately follow a *y*-ending cmavo
/// without an intervening pause.
pub(crate) fn cmavo_permitted_after_y(
    syllables: &[Syllable],
    cmavo_tail_lens: &[usize],
    pos: usize,
    end: usize,
    settings: Settings,
) -> (b: bool)
    requires
        cmavo_tail_lens.len() == syllables.len(),
        tails_within(cmavo_tail_lens@),
        pos < end <= syllables.len(),
    ensures
        b == permitted_after_y(
            syllables@,
            cmavo_tail_lens@,
            pos as int,
            end as int,
            settings.arbitrary_cmavo_rafsi,
        ),
{
    let is_cy_shaped = end - pos == 1 && matches!(
        syllables[pos].onset,
        Onset::Empty | Onset::Single(_) | Onset::Onglide(_)
    );
    if !(settings.arbitrary_cmavo_rafsi || is_cy_shaped) {
        return true;
    }
    let next_end = match try_one_cmavo(syllables, cmavo_tail_lens, end) {
        Some(e) => e,
        None => return false,
    };
    matches!(syllables[next_end - 1].nucleus, Nucleus::Y)
}

/// The cmavo boundaries from `start`, relative to it (see `boundaries_spec`).
pub(crate) fn cmavo_boundaries_from(
    syllables: &[Syllable],
    cmavo_tail_lens: &[usize],
    settings: Settings,
    start: usize,
) -> (boundaries: Vec<usize>)
    requires
        cmavo_tail_lens.len() == syllables.len(),
        tails_within(cmavo_tail_lens@),
        start <= syllables.len(),
    ensures
        as_ints(boundaries@) == boundaries_spec(
            syllables@,
            cmavo_tail_lens@,
            settings.arbitrary_cmavo_rafsi,
            start as int,
        ),
{
    let n = syllables.len();
    let ghost s = syllables@;
    let ghost t = cmavo_tail_lens@;
    let ghost arb = settings.arbitrary_cmavo_rafsi;
    let mut boundaries: Vec<usize> = vec![0];
    let mut pos = start;
    while pos < n
        invariant
            n == syllables.len(),
            cmavo_tail_lens.len() == n,
            tails_within(t),
            s == syllables@,
            t == cmavo_tail_lens@,
            arb == settings.arbitrary_cmavo_rafsi,
            start <= pos <= n,
            boundaries@.len() >= 1,
            boundaries@[boundaries@.len() - 1] == pos - start,
            as_ints(boundaries@) + chain_from(s, t, arb, start as int, pos as int)
                == boundaries_spec(s, t, arb, start as int),
        ensures
            as_ints(boundaries@) == boundaries_spec(s, t, arb, start as int),
        decreases n - pos,
    {
        let end = match try_one_cmavo(syllables, cmavo_tail_lens, pos) {
            Some(e) => e,
            None => {
                assert(chain_from(s, t, arb, start as int, pos as int) =~= Seq::<int>::empty());
                assert(as_ints(boundaries@) + Seq::<int>::empty() =~= as_ints(boundaries@));
                break;
            },
        };
        if end < n && matches!(syllables[end - 1].nucleus, Nucleus::Y) {
            if !cmavo_permitted_after_y(syllables, cmavo_tail_lens, pos, end, settings) {
                assert(one_cmavo(s, t, pos as int) == Some(end as int));
                assert(s[end - 1].nucleus is Y);
                assert(!permitted_after_y(s, t, pos as int, end as int, arb));
                assert(chain_from(s, t, arb, start as int, pos as int) =~= Seq::<int>::empty());
                assert(as_ints(boundaries@) + Seq::<int>::empty() =~= as_ints(boundaries@));
                break;
            }
        }
        assert(chain_from(s, t, arb, start as int, pos as int) =~= seq![end - start] + chain_from(
            s,
            t,
            arb,
            start as int,
            end as int,
        ));
        let ghost old_b = boundaries@;
        pos = end;
        boundaries.push(pos - start);
        assert(as_ints(boundaries@) =~= as_ints(old_b).push(end - start));
        assert(as_ints(old_b) + (seq![end - start] + chain_from(s, t, arb, start as int, end as int))
            =~= as_ints(boundaries@) + chain_from(s, t, arb, start as int, end as int));
    }
    boundaries
}

/// Returns whether `syllables` is a valid cmavo sequence.
pub(crate) fn is_cmavo_sequence(
    syllables: &[Syllable],
    cmavo_tail_lens: &[usize],
    settings: Settings,
) -> (b: bool)
    requires
        cmavo_tail_lens.len() == syllables.len(),
        tails_within(cmavo_tail_lens@),
    ensures
        b == cmavo_sequence(syllables@, cmavo_tail_lens@, settings.arbitrary_cmavo_rafsi),
{
    if syllables.len() == 0 {
        return true;
    }
    let boundaries = cmavo_boundaries_from(syllables, cmavo_tail_lens, settings, 0);
    assert(as_ints(boundaries@).len() == boundaries@.len());
    let last = boundaries[boundaries.len() - 1];
    assert(as_ints(boundaries@)[boundaries@.len() - 1] == last);
    last == syllables.len()
}

/// Returns, for each index `i`, the start of the cmavo `syllables[i]`
/// belongs to, if any.
pub(crate) fn cmavo_starts(syllables: &[Syllable]) -> (start: Vec<usize>)
    ensures
        start@.len() == syllables@.len(),
        forall|k: int|
            0 <= k < syllables@.len() ==> #[trigger] start@[k] == cmavo_start(syllables@, k),
{
    let mut start: Vec<usize> = Vec::new();
    let mut i: usize = 0;
    while i < syllables.len()
        invariant
            i <= syllables.len(),
            start@.len() == i,
            forall|k: int| 0 <= k < i ==> #[trigger] start@[k] == cmavo_start(syllables@, k),
        decreases syllables.len() - i,
    {
        let v = if i > 0 && syllables[i].could_continue_cmavo() {
            start[i - 1]
        } else {
            i
        };
        start.push(v);
        i += 1;
    }
    start
}

} // verus!
