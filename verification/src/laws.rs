//! What holds of the model, proved once for every input.

use vstd::prelude::*;
use crate::model::{
    Bounds, accepts, all_part_of, all_ranges, any_covers, any_touches, bound_before,
    chain_precedes, clip, clipped_parts, common_parts, envelope_touches, touches, covers, disjoint, ends_sorted, first_lower, first_start_at_least, greater,
    is_range, is_vacant, keep, last_end_at_most, last_upper, lesser, meet, none_vacant, part_of,
    precedes, push_all, sorted, sweep, upper, with_end, with_start,
};

verus! {

/// The common part of two intervals does not depend on their order.
pub proof fn lemma_meet_symmetric(a: Bounds, b: Bounds)
    ensures
        meet(a, b) == meet(b, a),
{
}

/// An interval meets itself in itself.
pub proof fn lemma_meet_self(a: Bounds)
    requires
        is_range(a),
    ensures
        meet(a, a) == Some(a),
{
}

/// The common part of two intervals covers exactly the positions that both
/// cover.
pub proof fn lemma_meet_covers(a: Bounds, b: Bounds, pos: u32)
    ensures
        (meet(a, b) matches Some(x) && covers(x, pos)) == (covers(a, pos) && covers(b, pos)),
{
}

/// Keeping a piece preserves order and validity of what was collected.
pub proof fn lemma_keep_sorted(acc: Seq<Bounds>, piece: Option<Bounds>)
    requires
        sorted(acc),
        all_ranges(acc),
        piece matches Some(x) ==> is_range(x),
    ensures
        sorted(keep(acc, piece)),
        all_ranges(keep(acc, piece)),
{
    if let Some(x) = piece {
        if accepts(acc, x) {
            let next = acc.push(x);
            assert forall|i: int, j: int| 0 <= i < j < next.len() implies !precedes(
                #[trigger] next[j],
                #[trigger] next[i],
            ) by {
                if j == acc.len() && i < acc.len() - 1 {
                    assert(!precedes(acc[acc.len() - 1], acc[i]));
                }
            }
        }
    }
}

/// Every segment that the two-cursor sweep adds lies within a segment of
/// each chain.
pub proof fn lemma_sweep_parts(a: Seq<Bounds>, b: Seq<Bounds>, i: int, j: int, acc: Seq<Bounds>)
    requires
        0 <= i,
        0 <= j,
        all_part_of(acc, a),
        all_part_of(acc, b),
    ensures
        all_part_of(sweep(a, b, i, j, acc), a),
        all_part_of(sweep(a, b, i, j, acc), b),
    decreases a.len() - i + b.len() - j,
{
    if i < a.len() && j < b.len() {
        let next = keep(acc, meet(a[i], b[j]));
        assert(all_part_of(next, a) && all_part_of(next, b)) by {
            assert forall|k: int| 0 <= k < next.len() implies part_of(#[trigger] next[k], a)
                && part_of(next[k], b) by {
                if k < acc.len() {
                    assert(next[k] == acc[k]);
                } else {
                    assert(a[i].0 <= next[k].0 && next[k].1 <= a[i].1);
                    assert(b[j].0 <= next[k].0 && next[k].1 <= b[j].1);
                }
            }
        }
        if bound_before(upper(a[i]), upper(b[j])) {
            lemma_sweep_parts(a, b, i + 1, j, next);
        } else {
            lemma_sweep_parts(a, b, i, j + 1, next);
        }
    }
}

/// Every segment that the one-sided sweep adds lies within a segment of the
/// chain and within the interval it is clipped to.
pub proof fn lemma_clip_parts(a: Seq<Bounds>, b: Bounds, i: int, acc: Seq<Bounds>)
    requires
        0 <= i,
        all_part_of(acc, a),
        all_part_of(acc, seq![b]),
    ensures
        all_part_of(clip(a, b, i, acc), a),
        all_part_of(clip(a, b, i, acc), seq![b]),
    decreases a.len() - i,
{
    if i < a.len() {
        let next = keep(acc, meet(a[i], b));
        assert(all_part_of(next, a) && all_part_of(next, seq![b])) by {
            assert forall|k: int| 0 <= k < next.len() implies part_of(#[trigger] next[k], a)
                && part_of(next[k], seq![b]) by {
                if k < acc.len() {
                    assert(next[k] == acc[k]);
                } else {
                    assert(a[i].0 <= next[k].0 && next[k].1 <= a[i].1);
                    assert(seq![b][0].0 <= next[k].0 && next[k].1 <= seq![b][0].1);
                }
            }
        }
        if bound_before(upper(a[i]), upper(b)) {
            lemma_clip_parts(a, b, i + 1, next);
        }
    }
}

/// A position covered by a part of a chain is covered by the chain.
pub proof fn lemma_part_covers(x: Bounds, s: Seq<Bounds>, pos: u32)
    requires
        part_of(x, s),
        covers(x, pos),
    ensures
        any_covers(s, pos),
{
    let i = choose|i: int| 0 <= i < s.len() && (#[trigger] s[i]).0 <= x.0 && x.1 <= s[i].1;
    assert(covers(s[i], pos));
}

/// Two intervals overlap exactly when they have a common part, unless the
/// second is vacant.
pub proof fn lemma_touches_iff_meet(a: Bounds, b: Bounds)
    requires
        is_range(a),
        is_range(b),
        !is_vacant(b),
    ensures
        touches(a, b) == meet(a, b) is Some,
{
}

/// Of two intervals exactly one holds: the first comes before the second,
/// the second before the first, or they are the same.
pub proof fn lemma_precedes_trichotomy(a: Bounds, b: Bounds)
    ensures
        precedes(a, b) ==> !precedes(b, a) && a != b,
        precedes(b, a) ==> a != b,
        !precedes(a, b) && !precedes(b, a) ==> a == b,
{
}

/// Of two chains exactly one holds: the first comes before the second, the
/// second before the first, or they agree from `from` on and have the same
/// length.
pub proof fn lemma_chain_precedes_trichotomy(a: Seq<Bounds>, b: Seq<Bounds>, from: int)
    requires
        0 <= from <= a.len(),
        from <= b.len(),
    ensures
        !(chain_precedes(a, b, from) && chain_precedes(b, a, from)),
        (!chain_precedes(a, b, from) && !chain_precedes(b, a, from)) == (a.skip(from) == b.skip(
            from,
        )),
    decreases a.len() - from,
{
    if from < a.len() && from < b.len() {
        assert(a.skip(from)[0] == a[from] && b.skip(from)[0] == b[from]);
        if !precedes(a[from], b[from]) && !precedes(b[from], a[from]) {
            lemma_chain_precedes_trichotomy(a, b, from + 1);
            assert(a.skip(from + 1) =~= a.skip(from).skip(1));
            assert(b.skip(from + 1) =~= b.skip(from).skip(1));
            if a.skip(from + 1) == b.skip(from + 1) {
                assert(a.skip(from).len() == a.skip(from + 1).len() + 1);
                assert(b.skip(from).len() == b.skip(from + 1).len() + 1);
                assert forall|k: int| 0 <= k < a.skip(from).len() implies a.skip(from)[k]
                    == b.skip(from)[k] by {
                    if k > 0 {
                        assert(a.skip(from)[k] == a.skip(from + 1)[k - 1]);
                        assert(b.skip(from)[k] == b.skip(from + 1)[k - 1]);
                    }
                }
                assert(a.skip(from) =~= b.skip(from));
            }
        }
    } else {
        if from >= a.len() && from >= b.len() {
            assert(a.skip(from) =~= b.skip(from));
        } else {
            assert(a.skip(from).len() != b.skip(from).len());
        }
    }
}

/// The precise overlap test implies the loose one: where a segment of the
/// chain overlaps an interval, so do the outer bounds of the chain. This
/// holds for chains whose segments start and end in non-decreasing order,
/// none of them vacant.
pub proof fn lemma_strict_implies_loose(s: Seq<Bounds>, b: Bounds)
    requires
        sorted(s),
        ends_sorted(s),
        none_vacant(s),
        any_touches(s, b),
    ensures
        envelope_touches(s, b),
{
    let i = choose|i: int| 0 <= i < s.len() && touches(#[trigger] s[i], b);
    assert(!is_vacant(s[0]) && !is_vacant(s[s.len() - 1]));
    if i > 0 {
        assert(!precedes(s[i], s[0]));
    }
    if i < s.len() - 1 {
        assert(s[i].1 <= s[s.len() - 1].1);
    }
}

/// Pushing segments that are in non-decreasing order never fails: pushed
/// one after the other onto a chain that they continue in order, all of them
/// arrive, in their order.
pub proof fn lemma_push_all_sorted(s: Seq<Bounds>, xs: Seq<Bounds>)
    requires
        sorted(s + xs),
    ensures
        push_all(s, xs) == Some(s + xs),
    decreases xs.len(),
{
    if xs.len() == 0 {
        assert(s + xs =~= s);
    } else {
        let whole = s + xs;
        let next = s.push(xs[0]);
        let rest = xs.drop_first();
        assert(next + rest =~= whole);
        if s.len() > 0 {
            assert(whole[s.len() - 1] == s.last());
            assert(whole[s.len() as int] == xs[0]);
            assert(!precedes(whole[s.len() as int], whole[s.len() - 1]));
        }
        lemma_push_all_sorted(next, rest);
    }
}

/// A chain built from nothing by pushing sorted segments holds exactly
/// those segments.
pub proof fn lemma_push_all_from_empty(xs: Seq<Bounds>)
    requires
        sorted(xs),
    ensures
        push_all(Seq::empty(), xs) == Some(xs),
{
    assert(Seq::<Bounds>::empty() + xs =~= xs);
    lemma_push_all_sorted(Seq::empty(), xs);
}

/// A push that is refused refuses every sequence of pushes that starts with
/// it.
pub proof fn lemma_push_all_refused(s: Seq<Bounds>, xs: Seq<Bounds>)
    requires
        xs.len() > 0,
        s.len() > 0,
        precedes(xs[0], s.last()),
    ensures
        push_all(s, xs) is None,
{
}

/// The two-cursor sweep preserves order: what it collects onto a sorted
/// chain of intervals is a sorted chain of intervals.
pub proof fn lemma_sweep_sorted(a: Seq<Bounds>, b: Seq<Bounds>, i: int, j: int, acc: Seq<Bounds>)
    requires
        sorted(acc),
        all_ranges(acc),
    ensures
        sorted(sweep(a, b, i, j, acc)),
        all_ranges(sweep(a, b, i, j, acc)),
    decreases a.len() - i + b.len() - j,
{
    if 0 <= i < a.len() && 0 <= j < b.len() {
        let next = keep(acc, meet(a[i], b[j]));
        lemma_keep_sorted(acc, meet(a[i], b[j]));
        if bound_before(upper(a[i]), upper(b[j])) {
            lemma_sweep_sorted(a, b, i + 1, j, next);
        } else {
            lemma_sweep_sorted(a, b, i, j + 1, next);
        }
    }
}

/// The one-sided sweep preserves order: what it collects onto a sorted
/// chain of intervals is a sorted chain of intervals.
pub proof fn lemma_clip_sorted(a: Seq<Bounds>, b: Bounds, i: int, acc: Seq<Bounds>)
    requires
        sorted(acc),
        all_ranges(acc),
    ensures
        sorted(clip(a, b, i, acc)),
        all_ranges(clip(a, b, i, acc)),
    decreases a.len() - i,
{
    if 0 <= i < a.len() {
        let next = keep(acc, meet(a[i], b));
        lemma_keep_sorted(acc, meet(a[i], b));
        if bound_before(upper(a[i]), upper(b)) {
            lemma_clip_sorted(a, b, i + 1, next);
        }
    }
}

/// Chains of intervals that lie apart have their starts and their ends in
/// order.
pub proof fn lemma_disjoint_sorted(s: Seq<Bounds>)
    requires
        all_ranges(s),
        disjoint(s),
    ensures
        sorted(s),
        ends_sorted(s),
{
    assert forall|i: int, j: int| 0 <= i < j < s.len() implies !precedes(
        #[trigger] s[j],
        #[trigger] s[i],
    ) && s[i].1 <= s[j].1 by {
        assert(is_range(s[i]) && is_range(s[j]));
    }
}

/// Where the segments of both chains start and end in non-decreasing
/// order, the two-cursor sweep leaves nothing out: it collects every common
/// part that it meets.
pub proof fn lemma_sweep_keeps_all(
    a: Seq<Bounds>,
    b: Seq<Bounds>,
    i: int,
    j: int,
    acc: Seq<Bounds>,
)
    requires
        sorted(a),
        sorted(b),
        ends_sorted(a),
        ends_sorted(b),
        0 <= i,
        0 <= j,
        acc.len() > 0 && i < a.len() && j < b.len() ==> acc.last().0 <= greater(a[i].0, b[j].0)
            && acc.last().1 <= lesser(a[i].1, b[j].1),
    ensures
        sweep(a, b, i, j, acc) == acc + common_parts(a, b, i, j),
    decreases a.len() - i + b.len() - j,
{
    if i < a.len() && j < b.len() {
        let piece = meet(a[i], b[j]);
        let next = keep(acc, piece);
        assert(piece matches Some(x) ==> next == acc.push(x));
        if bound_before(upper(a[i]), upper(b[j])) {
            if i + 1 < a.len() {
                assert(!precedes(a[i + 1], a[i]) && a[i].1 <= a[i + 1].1);
            }
            lemma_sweep_keeps_all(a, b, i + 1, j, next);
            let rest = common_parts(a, b, i + 1, j);
            match piece {
                Some(x) => {
                    assert(acc.push(x) + rest =~= acc + (seq![x] + rest));
                },
                None => {},
            }
        } else {
            if j + 1 < b.len() {
                assert(!precedes(b[j + 1], b[j]) && b[j].1 <= b[j + 1].1);
            }
            lemma_sweep_keeps_all(a, b, i, j + 1, next);
            let rest = common_parts(a, b, i, j + 1);
            match piece {
                Some(x) => {
                    assert(acc.push(x) + rest =~= acc + (seq![x] + rest));
                },
                None => {},
            }
        }
    } else {
        assert(acc + Seq::<Bounds>::empty() =~= acc);
    }
}

/// Where the segments of the chain start and end in non-decreasing order,
/// the one-sided sweep leaves nothing out.
pub proof fn lemma_clip_keeps_all(a: Seq<Bounds>, b: Bounds, i: int, acc: Seq<Bounds>)
    requires
        sorted(a),
        ends_sorted(a),
        0 <= i,
        acc.len() > 0 && i < a.len() ==> acc.last().0 <= greater(a[i].0, b.0) && acc.last().1
            <= lesser(a[i].1, b.1),
    ensures
        clip(a, b, i, acc) == acc + clipped_parts(a, b, i),
    decreases a.len() - i,
{
    if i < a.len() {
        let piece = meet(a[i], b);
        let next = keep(acc, piece);
        assert(piece matches Some(x) ==> next == acc.push(x));
        if bound_before(upper(a[i]), upper(b)) {
            if i + 1 < a.len() {
                assert(!precedes(a[i + 1], a[i]) && a[i].1 <= a[i + 1].1);
            }
            lemma_clip_keeps_all(a, b, i + 1, next);
            let rest = clipped_parts(a, b, i + 1);
            match piece {
                Some(x) => {
                    assert(acc.push(x) + rest =~= acc + (seq![x] + rest));
                },
                None => {},
            }
        } else {
            match piece {
                Some(x) => {
                    assert(acc.push(x) =~= acc + (seq![x] + Seq::<Bounds>::empty()));
                },
                None => {
                    assert(acc + Seq::<Bounds>::empty() =~= acc);
                },
            }
        }
    } else {
        assert(acc + Seq::<Bounds>::empty() =~= acc);
    }
}

/// A position covered by a segment of each chain is covered by one of the
/// common parts that the sweep meets, as long as neither cursor has passed
/// that segment. This holds for chains whose segments lie apart, none of
/// them vacant.
pub proof fn lemma_common_parts_reach(
    a: Seq<Bounds>,
    b: Seq<Bounds>,
    i: int,
    j: int,
    at_a: int,
    at_b: int,
    pos: u32,
)
    requires
        disjoint(a),
        disjoint(b),
        none_vacant(a),
        none_vacant(b),
        0 <= i <= at_a < a.len(),
        0 <= j <= at_b < b.len(),
        covers(a[at_a], pos),
        covers(b[at_b], pos),
    ensures
        any_covers(common_parts(a, b, i, j), pos),
    decreases a.len() - i + b.len() - j,
{
    let parts = common_parts(a, b, i, j);
    if i == at_a && j == at_b {
        let x = meet(a[i], b[j])->Some_0;
        assert(parts[0] == x);
        assert(covers(parts[0], pos));
    } else {
        let rest = if bound_before(upper(a[i]), upper(b[j])) {
            assert(i < at_a) by {
                if i == at_a {
                    assert(b[j].1 < b[at_b].0);
                }
            }
            lemma_common_parts_reach(a, b, i + 1, j, at_a, at_b, pos);
            common_parts(a, b, i + 1, j)
        } else {
            assert(j < at_b) by {
                if j == at_b {
                    assert(a[i].1 < a[at_a].0);
                }
            }
            lemma_common_parts_reach(a, b, i, j + 1, at_a, at_b, pos);
            common_parts(a, b, i, j + 1)
        };
        let k = choose|k: int| 0 <= k < rest.len() && covers(#[trigger] rest[k], pos);
        match meet(a[i], b[j]) {
            Some(x) => {
                assert(parts[k + 1] == rest[k]);
                assert(covers(parts[k + 1], pos));
            },
            None => {
                assert(covers(parts[k], pos));
            },
        }
    }
}

/// The intersection of two chains covers exactly the positions that both
/// chains cover. This holds for chains of intervals that lie apart, none of
/// them vacant.
pub proof fn lemma_sweep_covers(a: Seq<Bounds>, b: Seq<Bounds>, pos: u32)
    requires
        all_ranges(a),
        all_ranges(b),
        disjoint(a),
        disjoint(b),
        none_vacant(a),
        none_vacant(b),
    ensures
        any_covers(sweep(a, b, 0, 0, Seq::empty()), pos) == (any_covers(a, pos) && any_covers(
            b,
            pos,
        )),
{
    let found = sweep(a, b, 0, 0, Seq::empty());
    if any_covers(found, pos) {
        lemma_sweep_parts(a, b, 0, 0, Seq::empty());
        let k = choose|k: int| 0 <= k < found.len() && covers(#[trigger] found[k], pos);
        lemma_part_covers(found[k], a, pos);
        lemma_part_covers(found[k], b, pos);
    }
    if any_covers(a, pos) && any_covers(b, pos) {
        let at_a = choose|i: int| 0 <= i < a.len() && covers(#[trigger] a[i], pos);
        let at_b = choose|j: int| 0 <= j < b.len() && covers(#[trigger] b[j], pos);
        lemma_disjoint_sorted(a);
        lemma_disjoint_sorted(b);
        lemma_sweep_keeps_all(a, b, 0, 0, Seq::empty());
        assert(Seq::<Bounds>::empty() + common_parts(a, b, 0, 0) =~= common_parts(a, b, 0, 0));
        lemma_common_parts_reach(a, b, 0, 0, at_a, at_b, pos);
    }
}

/// A position covered by a segment of the chain and by the interval is
/// covered by one of the common parts that the one-sided sweep meets, as
/// long as the cursor has not passed that segment. This holds for a chain
/// whose segments lie apart, none of them vacant, and an interval that is
/// not vacant.
pub proof fn lemma_clipped_parts_reach(a: Seq<Bounds>, b: Bounds, i: int, at: int, pos: u32)
    requires
        disjoint(a),
        none_vacant(a),
        !is_vacant(b),
        0 <= i <= at < a.len(),
        covers(a[at], pos),
        covers(b, pos),
    ensures
        any_covers(clipped_parts(a, b, i), pos),
    decreases a.len() - i,
{
    let parts = clipped_parts(a, b, i);
    if i == at {
        let x = meet(a[i], b)->Some_0;
        assert(parts[0] == x);
        assert(covers(parts[0], pos));
    } else {
        assert(a[i].1 < a[at].0);
        lemma_clipped_parts_reach(a, b, i + 1, at, pos);
        let rest = clipped_parts(a, b, i + 1);
        let k = choose|k: int| 0 <= k < rest.len() && covers(#[trigger] rest[k], pos);
        match meet(a[i], b) {
            Some(x) => {
                assert(parts[k + 1] == rest[k]);
                assert(covers(parts[k + 1], pos));
            },
            None => {
                assert(covers(parts[k], pos));
            },
        }
    }
}

/// The intersection of a chain with an interval covers exactly the
/// positions that both cover. This holds for a chain of intervals that lie
/// apart, none of them vacant, and an interval that is not vacant.
pub proof fn lemma_clip_covers(a: Seq<Bounds>, b: Bounds, pos: u32)
    requires
        all_ranges(a),
        disjoint(a),
        none_vacant(a),
        !is_vacant(b),
    ensures
        any_covers(clip(a, b, 0, Seq::empty()), pos) == (any_covers(a, pos) && covers(b, pos)),
{
    let found = clip(a, b, 0, Seq::empty());
    if any_covers(found, pos) {
        lemma_clip_parts(a, b, 0, Seq::empty());
        let k = choose|k: int| 0 <= k < found.len() && covers(#[trigger] found[k], pos);
        lemma_part_covers(found[k], a, pos);
        lemma_part_covers(found[k], seq![b], pos);
    }
    if any_covers(a, pos) && covers(b, pos) {
        let at = choose|i: int| 0 <= i < a.len() && covers(#[trigger] a[i], pos);
        lemma_disjoint_sorted(a);
        lemma_clip_keeps_all(a, b, 0, Seq::empty());
        assert(Seq::<Bounds>::empty() + clipped_parts(a, b, 0) =~= clipped_parts(a, b, 0));
        lemma_clipped_parts_reach(a, b, 0, at, pos);
    }
}

/// Moving the start of a chain keeps it a sorted chain of intervals. Where
/// the request extends the chain, the new start is exactly the one asked
/// for; where it trims the chain, no segment that is left starts before the
/// one asked for. The request fails exactly when the chain reports no start
/// or no end, or the start asked for lies beyond its end.
pub proof fn lemma_with_start(s: Seq<Bounds>, v: u32)
    requires
        sorted(s),
        all_ranges(s),
    ensures
        with_start(s, v) is None <==> (first_lower(s) is None || last_upper(s) is None || v
            > last_upper(s)->Some_0),
        with_start(s, v) matches Some(t) ==> {
            &&& sorted(t)
            &&& all_ranges(t)
            &&& v <= first_lower(s)->Some_0 ==> first_lower(t) == Some(v)
            &&& forall|k: int| 0 <= k < t.len() ==> v <= (#[trigger] t[k]).0
        },
{
    if let Some(t) = with_start(s, v) {
        let lo = first_lower(s)->Some_0;
        if v <= lo {
            assert forall|k: int| 0 <= k < t.len() implies v <= (#[trigger] t[k]).0 by {
                if k > 0 {
                    assert(!precedes(s[k], s[0]));
                }
            }
            assert forall|i: int, j: int| 0 <= i < j < t.len() implies !precedes(
                #[trigger] t[j],
                #[trigger] t[i],
            ) by {
                assert(!precedes(s[j], s[i]));
            }
            assert forall|k: int| 0 <= k < t.len() implies is_range(#[trigger] t[k]) by {
                assert(is_range(s[k]));
            }
        } else {
            let cut = first_start_at_least(s, v, 0);
            lemma_first_start_at_least(s, v, 0);
            assert forall|k: int| 0 <= k < t.len() implies v <= (#[trigger] t[k]).0 by {
                assert(t[k] == s[cut + k]);
                if k > 0 {
                    assert(!precedes(s[cut + k], s[cut]));
                }
            }
            assert forall|i: int, j: int| 0 <= i < j < t.len() implies !precedes(
                #[trigger] t[j],
                #[trigger] t[i],
            ) by {
                assert(!precedes(s[cut + j], s[cut + i]));
            }
            assert forall|k: int| 0 <= k < t.len() implies is_range(#[trigger] t[k]) by {
                assert(is_range(s[cut + k]));
            }
        }
    }
}

/// The cut that trimming makes lies within the chain, at or after the
/// cursor it was looked for from; every pair between the two starts before
/// `v`, and the pair at the cut does not.
pub proof fn lemma_first_start_at_least(s: Seq<Bounds>, v: u32, from: int)
    requires
        0 <= from <= s.len(),
    ensures
        from <= first_start_at_least(s, v, from) <= s.len(),
        forall|k: int|
            from <= k < first_start_at_least(s, v, from) ==> (#[trigger] s[k]).0 < v,
        first_start_at_least(s, v, from) < s.len() ==> s[first_start_at_least(
            s,
            v,
            from,
        )].0 >= v,
    decreases s.len() - from,
{
    if from < s.len() && s[from].0 < v {
        lemma_first_start_at_least(s, v, from + 1);
    }
}

/// Moving the end of a chain keeps it a sorted chain of intervals. Where
/// the request extends the chain, the new end is exactly the one asked for;
/// where it trims the chain, the end that is reported afterwards, if any,
/// is not beyond the one asked for. The request fails exactly when the
/// chain reports no start or no end, or the end asked for lies before its
/// start.
pub proof fn lemma_with_end(s: Seq<Bounds>, v: u32)
    requires
        sorted(s),
        all_ranges(s),
    ensures
        with_end(s, v) is None <==> (first_lower(s) is None || last_upper(s) is None || v
            < first_lower(s)->Some_0),
        with_end(s, v) matches Some(t) ==> {
            &&& sorted(t)
            &&& all_ranges(t)
            &&& v >= last_upper(s)->Some_0 ==> last_upper(t) == Some(v)
            &&& last_upper(t) matches Some(e) ==> e <= v
        },
{
    if let Some(t) = with_end(s, v) {
        let hi = last_upper(s)->Some_0;
        let n = s.len() as int;
        if v >= hi {
            assert(!precedes(s[n - 1], s[0]));
            assert forall|i: int, j: int| 0 <= i < j < t.len() implies !precedes(
                #[trigger] t[j],
                #[trigger] t[i],
            ) by {
                assert(!precedes(s[j], s[i]));
            }
            assert forall|k: int| 0 <= k < t.len() implies is_range(#[trigger] t[k]) by {
                assert(is_range(s[k]));
            }
        } else {
            lemma_last_end_at_most(s, v, n);
            assert forall|i: int, j: int| 0 <= i < j < t.len() implies !precedes(
                #[trigger] t[j],
                #[trigger] t[i],
            ) by {
                assert(!precedes(s[j], s[i]));
            }
            assert forall|k: int| 0 <= k < t.len() implies is_range(#[trigger] t[k]) by {
                assert(is_range(s[k]));
            }
        }
    }
}

/// The cut that trimming from the back makes lies within the chain, at or
/// before the cursor it was looked for from; every pair between the two ends
/// after `v`, and the pair before the cut does not.
pub proof fn lemma_last_end_at_most(s: Seq<Bounds>, v: u32, upto: int)
    requires
        0 <= upto <= s.len(),
    ensures
        0 <= last_end_at_most(s, v, upto) <= upto,
        forall|k: int|
            last_end_at_most(s, v, upto) <= k < upto ==> (#[trigger] s[k]).1 > v,
        last_end_at_most(s, v, upto) > 0 ==> s[last_end_at_most(
            s,
            v,
            upto,
        ) - 1].1 <= v,
    decreases upto,
{
    if 0 < upto && s[upto - 1].1 > v {
        lemma_last_end_at_most(s, v, upto - 1);
    }
}

} // verus!
