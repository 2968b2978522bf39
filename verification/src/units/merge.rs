//! Joining a unit of cmavo onto the unit after it.

use std::collections::VecDeque;
use vstd::prelude::*;

use crate::settings::Settings;
use crate::syllables::{Nucleus, Onset, Syllable};
use crate::units::cmavo::{
    cmavo_permitted_after_y, cmavo_start, cmavo_starts, cmavo_tail_lengths, permitted_after_y,
    tail_len,
};
use crate::units::precompute::lemma_cmavo_start_bounds;
use crate::units::cmavo::lemma_tail_len_bounds;
use crate::units::{unit_syllables, Unit};

verus! {

/// The lengths of the runs of cmavo-continuing syllables at each index of `s`.
pub open spec fn tails_of(s: Seq<Syllable>) -> Seq<usize> {
    Seq::new(s.len(), |k: int| tail_len(s, k) as usize)
}

/// Whether the cmavo that ends `a`, a *y*-final one, may be followed by the
/// syllables `b` without a pause.
pub open spec fn y_joins(a: Seq<Syllable>, b: Seq<Syllable>, arb: bool) -> bool {
    let from = cmavo_start(a, a.len() - 1);
    let w = a.subrange(from, a.len() as int) + b;
    permitted_after_y(w, tails_of(w), 0, a.len() - from, arb)
}

/// Whether the syllables `a` of a unit that is all cmavo may be joined onto
/// the front of a unit with syllables `b` and pre-brivla start `rp`: both
/// hold syllables, the first of `b` has an onset that is not an onglide
/// repeating the offglide that ends `a`, a final *y* allows what follows,
/// and a stressed last syllable of `a` is not followed by a pre-brivla
/// whose first syllable has no coda.
pub open spec fn joinable(a: Seq<Syllable>, b: Seq<Syllable>, rp: Option<usize>, arb: bool) -> bool {
    &&& b.len() > 0
    &&& !(b[0].onset is Empty)
    &&& a.len() > 0
    &&& !(a.last().nucleus matches Nucleus::Diphthong { second, .. } && b[0].onset
        == Onset::Onglide(second))
    &&& (a.last().nucleus is Y ==> y_joins(a, b, arb))
    &&& !(a.last().nucleus.stressed_spec() && rp == Some(0usize) && b[0].coda is None)
}

/// Whether the unit `l` may be joined onto the front of the unit `r`: `l`
/// is all cmavo, `r` is a normal unit, and their syllables are joinable.
pub open spec fn can_merge(l: Unit, r: Unit, arb: bool) -> bool {
    match (l, r) {
        (
            Unit::Normal { syllables: ls, pre_brivla_start: None },
            Unit::Normal { syllables: rs, pre_brivla_start: rp },
        ) => joinable(ls@, rs@, rp, arb),
        _ => false,
    }
}

/// The syllables of the deque `d`, in a `Vec`.
fn vec_of(d: &VecDeque<Syllable>) -> (v: Vec<Syllable>)
    ensures
        v@ == d@,
{
    let mut v: Vec<Syllable> = Vec::new();
    let mut i: usize = 0;
    while i < d.len()
        invariant
            i <= d.len(),
            v@ == d@.take(i as int),
        decreases d.len() - i,
    {
        v.push(d[i]);
        i += 1;
        assert(d@.take(i as int) =~= d@.take(i - 1).push(d@[i - 1]));
    }
    assert(d@.take(d.len() as int) =~= d@);
    v
}

/// Whether the *y*-final cmavo that ends `a` may be followed by `b`.
fn y_joins_exec(a: &Vec<Syllable>, b: &VecDeque<Syllable>, settings: Settings) -> (ok: bool)
    requires
        a.len() > 0,
    ensures
        ok == y_joins(a@, b@, settings.arbitrary_cmavo_rafsi),
{
    let starts = cmavo_starts(a);
    let from = starts[a.len() - 1];
    proof {
        lemma_cmavo_start_bounds(a@, a.len() - 1);
    }
    let mut window: Vec<Syllable> = Vec::new();
    let mut i = from;
    while i < a.len()
        invariant
            from <= i <= a.len(),
            window@ == a@.subrange(from as int, i as int),
        decreases a.len() - i,
    {
        window.push(a[i]);
        i += 1;
        assert(a@.subrange(from as int, i as int) =~= a@.subrange(from as int, i - 1).push(
            a@[i - 1],
        ));
    }
    let end = window.len();
    let mut j: usize = 0;
    while j < b.len()
        invariant
            j <= b.len(),
            end == a.len() - from,
            window@ == a@.subrange(from as int, a.len() as int) + b@.take(j as int),
        decreases b.len() - j,
    {
        window.push(b[j]);
        j += 1;
        assert(b@.take(j as int) =~= b@.take(j - 1).push(b@[j - 1]));
    }
    assert(b@.take(b.len() as int) =~= b@);
    let tails = cmavo_tail_lengths(&window);
    assert(tails@ =~= tails_of(window@));
    cmavo_permitted_after_y(&window, &tails, 0, end, settings)
}

/// Tries to merge `l` into `r`. Returns `Err(r)` if it can't.
pub(crate) fn try_merging_units(l: &Unit, r: Unit, settings: Settings) -> (res: Result<Unit, Unit>)
    requires
        unit_syllables(*l).len() + unit_syllables(r).len() <= usize::MAX,
        r matches Unit::Normal { pre_brivla_start: Some(p), .. } ==> p + unit_syllables(*l).len()
            <= usize::MAX,
    ensures
        unit_syllables(r).len() == 0 ==> res == Err::<Unit, Unit>(r),
        match res {
            Ok(m) => {
                &&& can_merge(*l, r, settings.arbitrary_cmavo_rafsi)
                &&& m is Normal
                &&& unit_syllables(m) == unit_syllables(*l) + unit_syllables(r)
                &&& m->pre_brivla_start == match r->pre_brivla_start {
                    Some(p) => Some((p + unit_syllables(*l).len()) as usize),
                    None => None,
                }
            },
            Err(back) => !can_merge(*l, r, settings.arbitrary_cmavo_rafsi) && back == r,
        },
{
    let ghost arb = settings.arbitrary_cmavo_rafsi;
    let l_syl = match l {
        Unit::Normal { syllables, pre_brivla_start: None } => syllables,
        _ => {
            return Err(r);
        },
    };
    let (mut r_syl, r_pbs) = match r {
        Unit::Normal { syllables, pre_brivla_start } => (syllables, pre_brivla_start),
        Unit::Cmevla(c) => {
            return Err(Unit::Cmevla(c));
        },
    };
    let ghost a = l_syl@;
    let ghost b = r_syl@;
    if r_syl.len() == 0 {
        return Err(Unit::Normal { syllables: r_syl, pre_brivla_start: r_pbs });
    }
    let r_first = r_syl[0];
    if r_first.has_empty_onset() {
        return Err(Unit::Normal { syllables: r_syl, pre_brivla_start: r_pbs });
    }
    if l_syl.len() == 0 {
        return Err(Unit::Normal { syllables: r_syl, pre_brivla_start: r_pbs });
    }
    let l_last = l_syl[l_syl.len() - 1];
    assert(l_last == a.last());
    if let Some(off) = l_last.nucleus.get_offglide() {
        if let Onset::Onglide(on) = r_first.onset {
            if off == on {
                return Err(Unit::Normal { syllables: r_syl, pre_brivla_start: r_pbs });
            }
        }
    }
    if matches!(l_last.nucleus, Nucleus::Y) {
        let l_vec = vec_of(l_syl);
        if !y_joins_exec(&l_vec, &r_syl, settings) {
            return Err(Unit::Normal { syllables: r_syl, pre_brivla_start: r_pbs });
        }
    }
    let first_starts_pre_brivla = match r_pbs {
        Some(p) => p == 0,
        None => false,
    };
    if l_last.nucleus.is_stressed() && first_starts_pre_brivla && r_first.coda.is_none() {
        return Err(Unit::Normal { syllables: r_syl, pre_brivla_start: r_pbs });
    }
    let l_len = l_syl.len();
    let mut i = l_len;
    while i > 0
        invariant
            i <= l_len,
            l_len == a.len(),
            a == l_syl@,
            r_syl@ == a.subrange(i as int, l_len as int) + b,
        decreases i,
    {
        i -= 1;
        r_syl.push_front(l_syl[i]);
        assert(a.subrange(i as int, l_len as int) =~= seq![a[i as int]] + a.subrange(
            i + 1,
            l_len as int,
        ));
    }
    assert(a.subrange(0, l_len as int) =~= a);
    let pbs = match r_pbs {
        Some(p) => Some(p + l_len),
        None => None,
    };
    Ok(Unit::Normal { syllables: r_syl, pre_brivla_start: pbs })
}

/// The run of continuing syllables at a place in `y` is the same when `x`
/// stands before `y`.
proof fn lemma_tail_len_suffix(x: Seq<Syllable>, y: Seq<Syllable>, k: int)
    requires
        0 <= k,
    ensures
        tail_len(x + y, x.len() + k) == tail_len(y, k),
    decreases y.len() - k,
{
    if k < y.len() {
        assert((x + y)[x.len() + k] == y[k]);
        lemma_tail_len_suffix(x, y, k + 1);
    }
}

/// A unit of cmavo that ends in a *y*-final cmavo needing a pause after it
/// (a *Cy* cmavo, or under `arb` any cmavo ending in *y*) is joined onto
/// the unit `r` only where `r` starts with a cmavo that ends in *y* too:
/// its first syllable starts a cmavo, and the last syllable of that cmavo
/// (after the syllables with an apostrophe onset that continue it) has the
/// nucleus *y*.
pub proof fn lemma_merge_keeps_y_pause(l: Unit, r: Unit, arb: bool)
    requires
        can_merge(l, r, arb),
        unit_syllables(l).len() + unit_syllables(r).len() <= usize::MAX,
        unit_syllables(l).last().nucleus is Y,
        arb || ({
            let a = unit_syllables(l);
            let last = a.last();
            &&& cmavo_start(a, a.len() - 1) == a.len() - 1
            &&& (last.onset is Empty || last.onset is Single || last.onset is Onglide)
        }),
    ensures
        unit_syllables(r).len() > 0,
        unit_syllables(r)[0].starts_cmavo(),
        0 <= tail_len(unit_syllables(r), 1) < unit_syllables(r).len(),
        unit_syllables(r)[tail_len(unit_syllables(r), 1)].nucleus is Y,
{
    let a = unit_syllables(l);
    let b = unit_syllables(r);
    let from = cmavo_start(a, a.len() - 1);
    lemma_cmavo_start_bounds(a, a.len() - 1);
    let x = a.subrange(from, a.len() as int);
    let w = x + b;
    let end = a.len() - from;
    assert(y_joins(a, b, arb));
    assert(permitted_after_y(w, tails_of(w), 0, end, arb));
    assert(w[0] == a[from]);
    assert(w[end] == b[0]);
    lemma_tail_len_suffix(x, b, 1);
    lemma_tail_len_suffix(x, b, 0);
    lemma_tail_len_bounds(b, 1);
    if end + 1 < w.len() {
        lemma_tail_len_bounds(w, end + 1);
        assert(tails_of(w)[end + 1] == tail_len(w, end + 1));
        assert(w[end + tail_len(b, 1)] == b[tail_len(b, 1)]);
    } else {
        assert(b.len() == 1);
        assert(tail_len(b, 1) == 0);
    }
}

} // verus!
