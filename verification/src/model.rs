//! The mathematical model: a segment is the pair of its bounds, a chain is a
//! sequence of such pairs. Every contract of the crate is stated over the
//! functions of this module.

use vstd::prelude::*;

verus! {

/// The two bounds of a closed interval: `.0` is the start, `.1` the end.
pub type Bounds = (u32, u32);

/// The smaller of two positions.
pub open spec fn lesser(x: u32, y: u32) -> u32 {
    if x <= y { x } else { y }
}

/// The larger of two positions.
pub open spec fn greater(x: u32, y: u32) -> u32 {
    if x <= y { y } else { x }
}

/// The pair describes an interval: its start does not exceed its end.
pub open spec fn is_range(b: Bounds) -> bool {
    b.0 <= b.1
}

/// The pair is the one that stands for "no range": both bounds at the
/// largest position.
pub open spec fn is_vacant(b: Bounds) -> bool {
    b.0 == u32::MAX && b.1 == u32::MAX
}

/// The start that an accessor reports: none for the vacant pair.
pub open spec fn lower(b: Bounds) -> Option<u32> {
    if is_vacant(b) { None } else { Some(b.0) }
}

/// The end that an accessor reports: none for the vacant pair.
pub open spec fn upper(b: Bounds) -> Option<u32> {
    if is_vacant(b) { None } else { Some(b.1) }
}

/// `pos` lies within the closed interval.
pub open spec fn covers(b: Bounds, pos: u32) -> bool {
    b.0 <= pos && pos <= b.1
}

/// The number of positions in the interval.
pub open spec fn span_len(b: Bounds) -> int {
    b.1 - b.0 + 1
}

/// The positions common to two intervals, if there are any.
pub open spec fn meet(a: Bounds, b: Bounds) -> Option<Bounds> {
    let s = greater(a.0, b.0);
    let e = lesser(a.1, b.1);
    if s <= e { Some((s, e)) } else { None }
}

/// Closed-interval overlap of `a` with `b`: touching endpoints count, and a
/// vacant `b` overlaps nothing.
pub open spec fn touches(a: Bounds, b: Bounds) -> bool {
    !is_vacant(b) && a.0 <= b.1 && b.0 <= a.1
}

/// The single interval spanning two overlapping ones; none when they do not
/// overlap.
pub open spec fn join(a: Bounds, b: Bounds) -> Option<Bounds> {
    if touches(a, b) { Some((lesser(a.0, b.0), greater(a.1, b.1))) } else { None }
}

/// `a` comes strictly before `b` in the lexicographic order on
/// `(start, end)`.
pub open spec fn precedes(a: Bounds, b: Bounds) -> bool {
    a.0 < b.0 || (a.0 == b.0 && a.1 < b.1)
}

/// `x` is strictly smaller than `y` when an absent bound counts as smaller
/// than every present one.
pub open spec fn bound_before(x: Option<u32>, y: Option<u32>) -> bool {
    match (x, y) {
        (None, Some(_)) => true,
        (Some(p), Some(q)) => p < q,
        _ => false,
    }
}

/// Every pair of the sequence is an interval.
pub open spec fn all_ranges(s: Seq<Bounds>) -> bool {
    forall|i: int| 0 <= i < s.len() ==> is_range(#[trigger] s[i])
}

/// The sequence is in non-decreasing `(start, end)` order: no pair comes
/// strictly before one that stands earlier.
pub open spec fn sorted(s: Seq<Bounds>) -> bool {
    forall|i: int, j: int| 0 <= i < j < s.len() ==> !precedes(#[trigger] s[j], #[trigger] s[i])
}

/// Chain `a` comes strictly before chain `b` when both are compared pair by
/// pair from index `from` on: at the first index where they differ `a` has
/// the earlier pair, or `a` ends there and `b` does not.
pub open spec fn chain_precedes(a: Seq<Bounds>, b: Seq<Bounds>, from: int) -> bool
    decreases a.len() - from,
{
    if from < 0 || from >= b.len() {
        false
    } else if from >= a.len() {
        true
    } else if precedes(a[from], b[from]) {
        true
    } else if precedes(b[from], a[from]) {
        false
    } else {
        chain_precedes(a, b, from + 1)
    }
}

/// `x` may be appended to `s` without breaking the order.
pub open spec fn accepts(s: Seq<Bounds>, x: Bounds) -> bool {
    s.len() == 0 || !precedes(x, s.last())
}

/// Some pair of the sequence covers `pos`.
pub open spec fn any_covers(s: Seq<Bounds>, pos: u32) -> bool {
    exists|i: int| 0 <= i < s.len() && covers(#[trigger] s[i], pos)
}

/// The start of the envelope: that of the first pair, absent for the empty
/// sequence.
pub open spec fn first_lower(s: Seq<Bounds>) -> Option<u32> {
    if s.len() == 0 { None } else { lower(s[0]) }
}

/// The end of the envelope: that of the last pair, absent for the empty
/// sequence.
pub open spec fn last_upper(s: Seq<Bounds>) -> Option<u32> {
    if s.len() == 0 { None } else { upper(s.last()) }
}

/// The first index at or after `from` whose pair starts at `v` or later; the
/// length of the sequence when there is none.
pub open spec fn first_start_at_least(s: Seq<Bounds>, v: u32, from: int) -> int
    decreases s.len() - from,
{
    if 0 <= from < s.len() && s[from].0 < v {
        first_start_at_least(s, v, from + 1)
    } else {
        from
    }
}

/// How many of the first `upto` pairs are left when pairs that end after `v`
/// are taken away from the back, one by one, until one does not.
pub open spec fn last_end_at_most(s: Seq<Bounds>, v: u32, upto: int) -> int
    decreases upto,
{
    if 0 < upto <= s.len() && s[upto - 1].1 > v {
        last_end_at_most(s, v, upto - 1)
    } else {
        upto
    }
}

/// The sequence without its leading pairs that start before `v`.
pub open spec fn trim_front(s: Seq<Bounds>, v: u32) -> Seq<Bounds> {
    s.skip(first_start_at_least(s, v, 0))
}

/// The sequence without its trailing pairs that end after `v`.
pub open spec fn trim_back(s: Seq<Bounds>, v: u32) -> Seq<Bounds> {
    s.take(last_end_at_most(s, v, s.len() as int))
}

/// What moving the start of a chain to `v` gives. There is no result when
/// the chain reports no start or no end, or when `v` lies beyond its end.
/// A `v` at or before the start becomes the start of the first pair. Any
/// other `v` removes the leading pairs that start before it, whole.
pub open spec fn with_start(s: Seq<Bounds>, v: u32) -> Option<Seq<Bounds>> {
    match (first_lower(s), last_upper(s)) {
        (Some(lo), Some(hi)) => if v > hi {
            None
        } else if v <= lo {
            Some(s.update(0, (v, s[0].1)))
        } else {
            Some(trim_front(s, v))
        },
        _ => None,
    }
}

/// What moving the end of a chain to `v` gives, the mirror image of
/// [`with_start`]. There is no result when the chain reports no start or no
/// end, or when `v` lies before its start. A `v` at or after the end becomes
/// the end of the last pair. Any other `v` removes the trailing pairs that
/// end after it, whole.
pub open spec fn with_end(s: Seq<Bounds>, v: u32) -> Option<Seq<Bounds>> {
    match (first_lower(s), last_upper(s)) {
        (Some(lo), Some(hi)) => if v < lo {
            None
        } else if v >= hi {
            Some(s.update(s.len() - 1, (s.last().0, v)))
        } else {
            Some(trim_back(s, v))
        },
        _ => None,
    }
}

/// The loose overlap of a chain with an interval: the outer bounds of the
/// chain against the bounds of `b`, gaps ignored. False when either side
/// reports no bounds.
pub open spec fn envelope_touches(s: Seq<Bounds>, b: Bounds) -> bool {
    match (first_lower(s), last_upper(s), lower(b), upper(b)) {
        (Some(ss), Some(se), Some(os), Some(oe)) => ss <= oe && os <= se,
        _ => false,
    }
}

/// The loose overlap of an interval with a chain: the bounds of `a` against
/// the outer bounds of the chain. False when the chain reports no bounds.
pub open spec fn touches_envelope(a: Bounds, s: Seq<Bounds>) -> bool {
    match (first_lower(s), last_upper(s)) {
        (Some(os), Some(oe)) => a.0 <= oe && os <= a.1,
        _ => false,
    }
}

/// Some pair of the sequence overlaps `b`.
pub open spec fn any_touches(s: Seq<Bounds>, b: Bounds) -> bool {
    exists|i: int| 0 <= i < s.len() && touches(#[trigger] s[i], b)
}

/// Some pair of `a` overlaps the outer bounds of `b`.
pub open spec fn any_in_envelope(a: Seq<Bounds>, b: Seq<Bounds>) -> bool {
    exists|i: int| 0 <= i < a.len() && envelope_touches(b, #[trigger] a[i])
}

/// Some pair of `a` is overlapped by some pair of `b`.
pub open spec fn any_pair_touches(a: Seq<Bounds>, b: Seq<Bounds>) -> bool {
    exists|i: int| 0 <= i < a.len() && any_touches(b, #[trigger] a[i])
}

/// `acc` with `piece` appended, where there is a piece and the order admits
/// it; `acc` itself otherwise.
pub open spec fn keep(acc: Seq<Bounds>, piece: Option<Bounds>) -> Seq<Bounds> {
    match piece {
        Some(x) => if accepts(acc, x) { acc.push(x) } else { acc },
        None => acc,
    }
}

/// The two-cursor sweep over chains `a` and `b`, from cursors `i` and `j`,
/// with `acc` collected so far. Each step keeps the common part of `a[i]`
/// and `b[j]`, then moves past the one that ends first, past `b[j]` when the
/// ends agree. The sweep is over when either cursor leaves its chain.
pub open spec fn sweep(a: Seq<Bounds>, b: Seq<Bounds>, i: int, j: int, acc: Seq<Bounds>) -> Seq<
    Bounds,
>
    decreases a.len() - i + b.len() - j,
{
    if 0 <= i < a.len() && 0 <= j < b.len() {
        let next = keep(acc, meet(a[i], b[j]));
        if bound_before(upper(a[i]), upper(b[j])) {
            sweep(a, b, i + 1, j, next)
        } else {
            sweep(a, b, i, j + 1, next)
        }
    } else {
        acc
    }
}

/// The one-sided sweep of chain `a` against the interval `b`, from cursor
/// `i`, with `acc` collected so far. Each step keeps the common part of
/// `a[i]` and `b`, and goes on only if `a[i]` ends before `b` does.
pub open spec fn clip(a: Seq<Bounds>, b: Bounds, i: int, acc: Seq<Bounds>) -> Seq<Bounds>
    decreases a.len() - i,
{
    if 0 <= i < a.len() {
        let next = keep(acc, meet(a[i], b));
        if bound_before(upper(a[i]), upper(b)) {
            clip(a, b, i + 1, next)
        } else {
            next
        }
    } else {
        acc
    }
}

/// No pair of the sequence is the vacant one.
pub open spec fn none_vacant(s: Seq<Bounds>) -> bool {
    forall|i: int| 0 <= i < s.len() ==> !is_vacant(#[trigger] s[i])
}

/// The pairs of the sequence lie apart and in order: each ends before any
/// later one starts.
pub open spec fn disjoint(s: Seq<Bounds>) -> bool {
    forall|i: int, j: int| 0 <= i < j < s.len() ==> (#[trigger] s[i]).1 < (#[trigger] s[j]).0
}

/// The ends of the pairs never decrease along the sequence.
pub open spec fn ends_sorted(s: Seq<Bounds>) -> bool {
    forall|i: int, j: int| 0 <= i < j < s.len() ==> (#[trigger] s[i]).1 <= (#[trigger] s[j]).1
}

/// Every common part that the two-cursor sweep meets from cursors `i` and
/// `j` on, in the order in which it meets them, none left out.
pub open spec fn common_parts(a: Seq<Bounds>, b: Seq<Bounds>, i: int, j: int) -> Seq<Bounds>
    decreases a.len() - i + b.len() - j,
{
    if 0 <= i < a.len() && 0 <= j < b.len() {
        let rest = if bound_before(upper(a[i]), upper(b[j])) {
            common_parts(a, b, i + 1, j)
        } else {
            common_parts(a, b, i, j + 1)
        };
        match meet(a[i], b[j]) {
            Some(x) => seq![x] + rest,
            None => rest,
        }
    } else {
        Seq::empty()
    }
}

/// Every common part that the one-sided sweep meets from cursor `i` on, in
/// the order in which it meets them, none left out.
pub open spec fn clipped_parts(a: Seq<Bounds>, b: Bounds, i: int) -> Seq<Bounds>
    decreases a.len() - i,
{
    if 0 <= i < a.len() {
        let rest = if bound_before(upper(a[i]), upper(b)) {
            clipped_parts(a, b, i + 1)
        } else {
            Seq::empty()
        };
        match meet(a[i], b) {
            Some(x) => seq![x] + rest,
            None => rest,
        }
    } else {
        Seq::empty()
    }
}

/// What pushing the pairs of `xs` onto `s` one after the other gives; there
/// is no result once a push is refused.
pub open spec fn push_all(s: Seq<Bounds>, xs: Seq<Bounds>) -> Option<Seq<Bounds>>
    decreases xs.len(),
{
    if xs.len() == 0 {
        Some(s)
    } else if accepts(s, xs[0]) {
        push_all(s.push(xs[0]), xs.drop_first())
    } else {
        None
    }
}

/// The interval `x` lies within some pair of `s`.
pub open spec fn part_of(x: Bounds, s: Seq<Bounds>) -> bool {
    exists|i: int| 0 <= i < s.len() && (#[trigger] s[i]).0 <= x.0 && x.1 <= s[i].1
}

/// Every pair of `parts` lies within some pair of `s`.
pub open spec fn all_part_of(parts: Seq<Bounds>, s: Seq<Bounds>) -> bool {
    forall|k: int| 0 <= k < parts.len() ==> part_of(#[trigger] parts[k], s)
}

} // verus!
