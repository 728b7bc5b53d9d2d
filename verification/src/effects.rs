//! Proposed rewrites ("effects") and top-level effect resolution.
//!
//! An effect is a proposed rewrite of a source binding. After matching, the
//! accumulated effects are flattened: effects outside the bounding range or
//! memoized as suppressed are dropped, the rest are sorted by ascending end
//! of their byte interval, partial overlaps are a hard error, and of the
//! survivors only the outer-most intervals within the range are kept.

use vstd::prelude::*;

use crate::error::StateError;
use crate::ranges::CodeRange;

verus! {

/// Whether an effect rewrites its binding in place or inserts after it.
#[derive(Debug, Clone, Copy, PartialEq, Eq, Structural)]
pub enum EffectKind {
    Rewrite,
    Insert,
}

/// A byte interval `[start, end)` in a source text.
#[derive(Debug, Clone, Copy, PartialEq, Eq, Structural)]
pub struct ByteRange {
    pub start: usize,
    pub end: usize,
}

/// What effect resolution reads of a binding: the address of its source
/// text (if it has one), the range it occupies in that source (if
/// resolvable), and the byte interval to rewrite (if resolvable).
#[derive(Debug, Clone, Copy, PartialEq, Eq)]
pub struct EffectBinding {
    pub source: Option<usize>,
    pub code_range: Option<CodeRange>,
    pub byte_range: Option<ByteRange>,
}

/// A proposed rewrite: a source binding plus the replacement to apply to
/// it, rendered by the pattern layer.
#[derive(Debug, Clone, PartialEq, Eq)]
pub struct Effect {
    pub binding: EffectBinding,
    pub rewrite: String,
    pub kind: EffectKind,
}

/// An effect together with its resolved byte interval, used for
/// overlap/nesting computation.
#[derive(Debug, Clone, PartialEq, Eq)]
pub struct EffectRange {
    pub start: u32,
    pub end: u32,
    pub effect: Effect,
}

impl EffectRange {
    /// The byte interval of this effect.
    pub fn interval(&self) -> (r: (u32, u32))
        ensures
            r == (self.start, self.end),
    {
        (self.start, self.end)
    }
}

/// The memo's verdict on a source range, if any; entries earlier in the
/// list take precedence, as in a map built by first insertion.
pub open spec fn memo_get(
    entries: Seq<(CodeRange, Option<String>)>,
    key: CodeRange,
    i: int,
) -> Option<Option<String>>
    decreases entries.len() - i,
{
    if i < 0 || i >= entries.len() {
        None
    } else if entries[i].0 == key {
        Some(entries[i].1)
    } else {
        memo_get(entries, key, i + 1)
    }
}

/// A range is suppressed when the memo records it as decided with no
/// replacement.
pub open spec fn memo_suppressed(entries: Seq<(CodeRange, Option<String>)>, key: CodeRange) -> bool {
    &&& memo_get(entries, key, 0) is Some
    &&& memo_get(entries, key, 0)->0 is None
}

/// Whether an effect survives filtering: its binding has a source the
/// bounding range applies to, a resolvable range, and that range is not
/// memoized as suppressed.
pub open spec fn effect_kept(
    e: Effect,
    memo: Seq<(CodeRange, Option<String>)>,
    range: CodeRange,
) -> bool {
    &&& e.binding.source is Some
    &&& e.binding.code_range is Some
    &&& range.address == e.binding.source->0
    &&& !memo_suppressed(memo, e.binding.code_range->0)
}

/// Whether an effect is logged as an empty-field rewrite and dropped: it
/// has a source but no resolvable range.
pub open spec fn effect_logged(e: Effect) -> bool {
    e.binding.source is Some && e.binding.code_range is None
}

/// The byte interval of an effect whose binding has a byte range.
pub open spec fn interval_of(e: Effect) -> EffectRange {
    EffectRange {
        start: e.binding.byte_range->0.start as u32,
        end: e.binding.byte_range->0.end as u32,
        effect: e,
    }
}

/// The intervals of the kept effects among the first `i`, in input order.
pub open spec fn kept_upto(
    effects: Seq<Effect>,
    memo: Seq<(CodeRange, Option<String>)>,
    range: CodeRange,
    i: int,
) -> Seq<EffectRange>
    decreases i,
{
    if i <= 0 {
        Seq::empty()
    } else {
        kept_upto(effects, memo, range, i - 1) + if effect_kept(effects[i - 1], memo, range) {
            seq![interval_of(effects[i - 1])]
        } else {
            Seq::empty()
        }
    }
}

pub open spec fn kept_intervals(
    effects: Seq<Effect>,
    memo: Seq<(CodeRange, Option<String>)>,
    range: CodeRange,
) -> Seq<EffectRange> {
    kept_upto(effects, memo, range, effects.len() as int)
}

/// The first kept effect (at or after `i`) whose binding has no byte range;
/// resolving it is a hard error.
pub open spec fn first_rangeless(
    effects: Seq<Effect>,
    memo: Seq<(CodeRange, Option<String>)>,
    range: CodeRange,
    i: int,
) -> Option<int>
    decreases effects.len() - i,
{
    if i < 0 || i >= effects.len() {
        None
    } else if effect_kept(effects[i], memo, range) && effects[i].binding.byte_range is None {
        Some(i)
    } else {
        first_rangeless(effects, memo, range, i + 1)
    }
}

/// How many of the first `i` effects are logged and dropped.
pub open spec fn logged_upto(effects: Seq<Effect>, i: int) -> int
    decreases i,
{
    if i <= 0 {
        0
    } else {
        logged_upto(effects, i - 1) + if effect_logged(effects[i - 1]) {
            1int
        } else {
            0int
        }
    }
}

proof fn lemma_logged_upto_nonneg(effects: Seq<Effect>, i: int)
    ensures
        0 <= logged_upto(effects, i),
    decreases i,
{
    if i > 0 {
        lemma_logged_upto_nonneg(effects, i - 1);
    }
}

/// The diagnostic recorded for an effect whose binding cannot resolve a
/// field to rewrite.
pub open spec fn empty_field_message() -> Seq<char> {
    "empty field rewrite"@
}

/// How the analysis log grows: `count` copies of the empty-field
/// diagnostic are appended and nothing else changes.
pub open spec fn logs_extended(pre: Seq<String>, post: Seq<String>, count: int) -> bool {
    &&& post.len() == pre.len() + count
    &&& forall|k: int| 0 <= k < pre.len() ==> post[k] == pre[k]
    &&& forall|k: int|
        pre.len() <= k < post.len() ==> (#[trigger] post[k])@ == empty_field_message()
}

pub open spec fn intervals_disjoint(a: EffectRange, b: EffectRange) -> bool {
    a.end <= b.start || b.end <= a.start
}

pub open spec fn nested_in(a: EffectRange, b: EffectRange) -> bool {
    b.start <= a.start && a.end <= b.end
}

/// Two intervals overlap without either containing the other; such a pair
/// of effects is never silently merged or prioritized.
pub open spec fn partial_overlap(a: EffectRange, b: EffectRange) -> bool {
    !intervals_disjoint(a, b) && !nested_in(a, b) && !nested_in(b, a)
}

pub open spec fn no_partial_overlaps(s: Seq<EffectRange>) -> bool {
    forall|p: int, q: int| 0 <= p < q < s.len() ==> !partial_overlap(s[p], s[q])
}

/// Stable insertion of `x` into a sequence sorted by ascending end: `x`
/// lands after every element whose end does not exceed its own.
pub open spec fn insert_by_end(s: Seq<EffectRange>, x: EffectRange) -> Seq<EffectRange>
    decreases s.len(),
{
    if s.len() == 0 {
        seq![x]
    } else if s.last().end <= x.end {
        s.push(x)
    } else {
        insert_by_end(s.drop_last(), x).push(s.last())
    }
}

/// Stable earliest-deadline sort: intervals ordered by ascending end, ties
/// kept in input order.
pub open spec fn sort_by_end(s: Seq<EffectRange>) -> Seq<EffectRange>
    decreases s.len(),
{
    if s.len() == 0 {
        Seq::empty()
    } else {
        insert_by_end(sort_by_end(s.drop_last()), s.last())
    }
}

/// Greedy outer-most selection within `[lo, hi)`: scanning the end-sorted
/// intervals from the largest end down, keep an interval that fits in the
/// remaining window and shrink the window's end to its start. An interval
/// nested inside a kept one starts before the shrunk end and is discarded.
pub open spec fn select_top(s: Seq<EffectRange>, lo: u32, hi: u32) -> Seq<EffectRange>
    decreases s.len(),
{
    if s.len() == 0 {
        Seq::empty()
    } else {
        let x = s.last();
        if lo <= x.start && x.end <= hi {
            select_top(s.drop_last(), lo, x.start).push(x)
        } else {
            select_top(s.drop_last(), lo, hi)
        }
    }
}

pub open spec fn effects_of(s: Seq<EffectRange>) -> Seq<Effect> {
    s.map_values(|er: EffectRange| er.effect)
}

/// What `get_top_level_effects` returns when no hard error occurs.
pub open spec fn top_level_effects_spec(
    effects: Seq<Effect>,
    memo: Seq<(CodeRange, Option<String>)>,
    range: CodeRange,
) -> Seq<Effect> {
    effects_of(
        select_top(sort_by_end(kept_intervals(effects, memo, range)), range.start, range.end),
    )
}

/// Reverse of a sequence of intervals.
pub open spec fn rev_seq(s: Seq<EffectRange>) -> Seq<EffectRange>
    decreases s.len(),
{
    if s.len() == 0 {
        Seq::empty()
    } else {
        seq![s.last()] + rev_seq(s.drop_last())
    }
}

proof fn lemma_rev_index(s: Seq<EffectRange>)
    ensures
        rev_seq(s).len() == s.len(),
        forall|k: int| 0 <= k < s.len() ==> rev_seq(s)[k] == s[s.len() - 1 - k],
    decreases s.len(),
{
    if s.len() > 0 {
        lemma_rev_index(s.drop_last());
    }
}

/// Inserting at the position found by a backwards scan realizes
/// `insert_by_end`.
proof fn lemma_insert_at(s: Seq<EffectRange>, x: EffectRange, p: int)
    requires
        0 <= p <= s.len(),
        forall|k: int| p <= k < s.len() ==> s[k].end > x.end,
        p > 0 ==> s[p - 1].end <= x.end,
    ensures
        insert_by_end(s, x) == s.subrange(0, p) + seq![x] + s.subrange(p, s.len() as int),
    decreases s.len(),
{
    if p == s.len() {
        if s.len() == 0 {
            assert(insert_by_end(s, x) =~= s.subrange(0, p) + seq![x] + s.subrange(
                p,
                s.len() as int,
            ));
        } else {
            assert(insert_by_end(s, x) == s.push(x));
            assert(s.push(x) =~= s.subrange(0, p) + seq![x] + s.subrange(p, s.len() as int));
        }
    } else {
        lemma_insert_at(s.drop_last(), x, p);
        assert(insert_by_end(s, x) == insert_by_end(s.drop_last(), x).push(s.last()));
        assert((s.drop_last().subrange(0, p) + seq![x] + s.drop_last().subrange(
            p,
            s.len() - 1,
        )).push(s.last()) =~= s.subrange(0, p) + seq![x] + s.subrange(p, s.len() as int));
    }
}

/// Every interval selected within `[lo, hi)` lies within `[lo, hi)`,
/// provided no interval is inverted.
proof fn lemma_select_top_bounds(s: Seq<EffectRange>, lo: u32, hi: u32)
    requires
        forall|k: int| 0 <= k < s.len() ==> (#[trigger] s[k]).start <= s[k].end,
    ensures
        forall|k: int|
            0 <= k < select_top(s, lo, hi).len() ==> lo <= (#[trigger] select_top(s, lo, hi)[k]).start
                && select_top(s, lo, hi)[k].end <= hi,
    decreases s.len(),
{
    if s.len() > 0 {
        let x = s.last();
        if lo <= x.start && x.end <= hi {
            lemma_select_top_bounds(s.drop_last(), lo, x.start);
        } else {
            lemma_select_top_bounds(s.drop_last(), lo, hi);
        }
    }
}

/// The selected top-level intervals are chained: each ends at or before the
/// next begins. Selected effects are therefore pairwise disjoint and come
/// out in ascending order of their intervals.
pub proof fn lemma_select_top_chained(s: Seq<EffectRange>, lo: u32, hi: u32)
    requires
        forall|k: int| 0 <= k < s.len() ==> (#[trigger] s[k]).start <= s[k].end,
    ensures
        forall|a: int, b: int|
            0 <= a < b < select_top(s, lo, hi).len() ==> (#[trigger] select_top(s, lo, hi)[a]).end
                <= (#[trigger] select_top(s, lo, hi)[b]).start,
    decreases s.len(),
{
    if s.len() > 0 {
        let x = s.last();
        if lo <= x.start && x.end <= hi {
            lemma_select_top_chained(s.drop_last(), lo, x.start);
            lemma_select_top_bounds(s.drop_last(), lo, x.start);
        } else {
            lemma_select_top_chained(s.drop_last(), lo, hi);
        }
    }
}

/// Every top-level effect lies fully within the bounding range.
pub proof fn lemma_select_top_within(s: Seq<EffectRange>, lo: u32, hi: u32)
    requires
        forall|k: int| 0 <= k < s.len() ==> (#[trigger] s[k]).start <= s[k].end,
    ensures
        forall|k: int|
            0 <= k < select_top(s, lo, hi).len() ==> lo <= (#[trigger] select_top(s, lo, hi)[k]).start
                && select_top(s, lo, hi)[k].end <= hi,
{
    lemma_select_top_bounds(s, lo, hi);
}

/// Relies on nothing outside this crate: copies an effect field by field.
fn clone_effect(e: &Effect) -> (r: Effect)
    ensures
        r == *e,
{
    Effect { binding: e.binding, rewrite: e.rewrite.clone(), kind: e.kind }
}

fn clone_effect_range(e: &EffectRange) -> (r: EffectRange)
    ensures
        r == *e,
{
    EffectRange { start: e.start, end: e.end, effect: clone_effect(&e.effect) }
}

/// Whether the memo records `key` as suppressed.
#[verifier::loop_isolation(false)]
fn memo_is_suppressed(memo: &Vec<(CodeRange, Option<String>)>, key: &CodeRange) -> (r: bool)
    ensures
        r == memo_suppressed(memo@, *key),
{
    let n = memo.len();
    let mut i: usize = 0;
    while i < n
        invariant
            i <= n,
            memo_get(memo@, *key, 0) == memo_get(memo@, *key, i as int),
        decreases n - i,
    {
        if memo[i].0 == *key {
            return memo[i].1.is_none();
        }
        i += 1;
    }
    false
}

/// Filter, resolve, sort and select the top-level effect intervals within
/// the bounding range. An effect with a source but no resolvable range is
/// logged and dropped; a kept effect without a byte range is a hard error;
/// a partial overlap among the kept intervals is a hard error.
#[verifier::loop_isolation(false)]
fn get_top_level_effect_ranges(
    effects: &Vec<Effect>,
    memo: &Vec<(CodeRange, Option<String>)>,
    range: &CodeRange,
    logs: &mut Vec<String>,
) -> (r: Result<Vec<EffectRange>, StateError>)
    ensures
        match first_rangeless(effects@, memo@, *range, 0) {
            Some(b) => {
                &&& r is Err
                &&& r->Err_0 == StateError::BindingWithoutRange
                &&& logs_extended(old(logs)@, final(logs)@, logged_upto(effects@, b))
            },
            None => {
                &&& logs_extended(
                    old(logs)@,
                    final(logs)@,
                    logged_upto(effects@, effects@.len() as int),
                )
                &&& if no_partial_overlaps(kept_intervals(effects@, memo@, *range)) {
                    r is Ok && r->Ok_0@ == select_top(
                        sort_by_end(kept_intervals(effects@, memo@, *range)),
                        range.start,
                        range.end,
                    )
                } else {
                    r is Err && r->Err_0 == StateError::OverlappingEffects
                }
            },
        },
{
    let n = effects.len();
    let mut intervals: Vec<EffectRange> = Vec::new();
    let mut i: usize = 0;
    while i < n
        invariant
            i <= n,
            intervals@ == kept_upto(effects@, memo@, *range, i as int),
            first_rangeless(effects@, memo@, *range, 0) == first_rangeless(
                effects@,
                memo@,
                *range,
                i as int,
            ),
            logs_extended(old(logs)@, logs@, logged_upto(effects@, i as int)),
        decreases n - i,
    {
        let e = &effects[i];
        if e.binding.source.is_some() {
            if let Some(code_range) = &e.binding.code_range {
                let applies = range.applies_to(e.binding.source.unwrap());
                let suppressed = memo_is_suppressed(memo, code_range);
                if applies && !suppressed {
                    match &e.binding.byte_range {
                        Some(byte_range) => {
                            let start_byte = #[verifier::truncate] (byte_range.start as u32);
                            let end_byte = #[verifier::truncate] (byte_range.end as u32);
                            intervals.push(
                                EffectRange {
                                    start: start_byte,
                                    end: end_byte,
                                    effect: clone_effect(e),
                                },
                            );
                            proof {
                                assert(intervals@ =~= kept_upto(
                                    effects@,
                                    memo@,
                                    *range,
                                    i as int + 1,
                                ));
                            }
                        },
                        None => {
                            return Err(StateError::BindingWithoutRange);
                        },
                    }
                } else {
                    proof {
                        assert(intervals@ =~= kept_upto(effects@, memo@, *range, i as int + 1));
                    }
                }
            } else {
                let ghost pre_logs = logs@;
                logs.push("empty field rewrite".to_owned());
                proof {
                    lemma_logged_upto_nonneg(effects@, i as int);
                    assert(intervals@ =~= kept_upto(effects@, memo@, *range, i as int + 1));
                    assert(logged_upto(effects@, i as int + 1) == logged_upto(effects@, i as int)
                        + 1);
                    assert(logs@.last()@ == empty_field_message());
                    assert forall|k: int| 0 <= k < old(logs)@.len() implies logs@[k] == old(
                        logs,
                    )@[k] by {
                        assert(logs@[k] == pre_logs[k]);
                    }
                    assert forall|k: int| old(logs)@.len() <= k < logs@.len() implies (
                    #[trigger] logs@[k])@ == empty_field_message() by {
                        if k < logs@.len() - 1 {
                            assert(logs@[k] == pre_logs[k]);
                        }
                    }
                }
            }
        } else {
            proof {
                assert(intervals@ =~= kept_upto(effects@, memo@, *range, i as int + 1));
            }
        }
        i += 1;
    }
    // Conflict detection: any pairwise overlap that is neither disjoint nor
    // properly nested fails the whole operation.
    let m = intervals.len();
    let mut p: usize = 0;
    while p < m
        invariant
            p <= m,
            m == intervals@.len(),
            forall|a: int, b: int|
                0 <= a < p && a < b < m ==> !partial_overlap(intervals@[a], intervals@[b]),
        decreases m - p,
    {
        let mut q: usize = p + 1;
        while q < m
            invariant
                p < q <= m || (p + 1 == q && q > m),
                forall|b: int| p < b < q ==> !partial_overlap(intervals@[p as int], intervals@[b]),
            decreases m - q,
        {
            let a_start = intervals[p].start;
            let a_end = intervals[p].end;
            let b_start = intervals[q].start;
            let b_end = intervals[q].end;
            let disj = a_end <= b_start || b_end <= a_start;
            let a_in_b = b_start <= a_start && a_end <= b_end;
            let b_in_a = a_start <= b_start && b_end <= a_end;
            if !disj && !a_in_b && !b_in_a {
                proof {
                    assert(partial_overlap(intervals@[p as int], intervals@[q as int]));
                    assert(!no_partial_overlaps(intervals@));
                }
                return Err(StateError::OverlappingEffects);
            }
            q += 1;
        }
        p += 1;
    }
    // Earliest-deadline sort: stable insertion by ascending interval end.
    let mut sorted: Vec<EffectRange> = Vec::new();
    let mut s_idx: usize = 0;
    while s_idx < m
        invariant
            s_idx <= m,
            m == intervals@.len(),
            sorted@ == sort_by_end(intervals@.subrange(0, s_idx as int)),
        decreases m - s_idx,
    {
        let x = clone_effect_range(&intervals[s_idx]);
        let mut pos: usize = sorted.len();
        while pos > 0 && sorted[pos - 1].end > x.end
            invariant
                pos <= sorted@.len(),
                forall|k: int| pos <= k < sorted@.len() ==> (#[trigger] sorted@[k]).end > x.end,
            decreases pos,
        {
            pos -= 1;
        }
        let ghost pre_sorted = sorted@;
        sorted.insert(pos, x);
        proof {
            lemma_insert_at(pre_sorted, x, pos as int);
            assert(sorted@ =~= pre_sorted.subrange(0, pos as int) + seq![x] + pre_sorted.subrange(
                pos as int,
                pre_sorted.len() as int,
            ));
            assert(intervals@.subrange(0, s_idx as int + 1).drop_last() =~= intervals@.subrange(
                0,
                s_idx as int,
            ));
            assert(sorted@ == sort_by_end(intervals@.subrange(0, s_idx as int + 1)));
        }
        s_idx += 1;
    }
    proof {
        assert(intervals@.subrange(0, m as int) =~= intervals@);
    }
    // Top-level selection: scan from the largest end down, keeping only the
    // outer-most intervals within the bounding range.
    let lo: u32 = range.start;
    let mut hi: u32 = range.end;
    let mut picked_rev: Vec<EffectRange> = Vec::new();
    let slen = sorted.len();
    let mut idx: usize = slen;
    proof {
        assert(sorted@.subrange(0, slen as int) =~= sorted@);
        assert(select_top(sorted@, lo, range.end) + rev_seq(picked_rev@) =~= select_top(
            sorted@,
            lo,
            range.end,
        ));
    }
    while idx > 0
        invariant
            idx <= slen,
            slen == sorted@.len(),
            select_top(sorted@, lo, range.end) =~= select_top(
                sorted@.subrange(0, idx as int),
                lo,
                hi,
            ) + rev_seq(picked_rev@),
        decreases idx,
    {
        idx -= 1;
        let x = clone_effect_range(&sorted[idx]);
        let ghost xg = x;
        let ghost pre_picked = picked_rev@;
        let ghost pre_hi = hi;
        if lo <= x.start && x.end <= hi {
            hi = x.start;
            picked_rev.push(x);
        }
        proof {
            assert(sorted@.subrange(0, idx as int + 1).drop_last() =~= sorted@.subrange(
                0,
                idx as int,
            ));
            assert(sorted@.subrange(0, idx as int + 1).last() == sorted@[idx as int]);
            if lo <= xg.start && xg.end <= pre_hi {
                assert(pre_picked.push(xg).drop_last() =~= pre_picked);
                assert(rev_seq(pre_picked.push(xg)) =~= seq![xg] + rev_seq(pre_picked));
                assert(select_top(sorted@.subrange(0, idx as int), lo, hi).push(xg) + rev_seq(
                    pre_picked,
                ) =~= select_top(sorted@.subrange(0, idx as int), lo, hi) + rev_seq(picked_rev@));
            }
        }
    }
    proof {
        assert(sorted@.subrange(0, 0) =~= Seq::<EffectRange>::empty());
        assert(select_top(sorted@, lo, range.end) =~= rev_seq(picked_rev@));
        lemma_rev_index(picked_rev@);
    }
    let rlen = picked_rev.len();
    let mut result: Vec<EffectRange> = Vec::new();
    let mut t: usize = 0;
    while t < rlen
        invariant
            t <= rlen,
            rlen == picked_rev@.len(),
            result@.len() == t,
            forall|k: int| 0 <= k < t ==> result@[k] == rev_seq(picked_rev@)[k],
        decreases rlen - t,
    {
        result.push(clone_effect_range(&picked_rev[rlen - 1 - t]));
        t += 1;
    }
    proof {
        assert(result@ =~= rev_seq(picked_rev@));
    }
    Ok(result)
}

/// Flatten a candidate effect list into the ordered top-level effects
/// within the bounding range: effects outside the range or memoized as
/// suppressed are dropped, a rangeless binding among the survivors or a
/// partial overlap is a hard error, and of properly nested intervals only
/// the outer-most survive, ordered by ascending interval end.
#[verifier::loop_isolation(false)]
pub fn get_top_level_effects(
    effects: &Vec<Effect>,
    memo: &Vec<(CodeRange, Option<String>)>,
    range: &CodeRange,
    logs: &mut Vec<String>,
) -> (r: Result<Vec<Effect>, StateError>)
    requires
        forall|k: int|
            0 <= k < effects@.len() && (#[trigger] effects@[k]).binding.byte_range is Some
                ==> interval_of(effects@[k]).start <= interval_of(effects@[k]).end,
    ensures
        match first_rangeless(effects@, memo@, *range, 0) {
            Some(b) => {
                &&& r is Err
                &&& r->Err_0 == StateError::BindingWithoutRange
                &&& logs_extended(old(logs)@, final(logs)@, logged_upto(effects@, b))
            },
            None => {
                &&& logs_extended(
                    old(logs)@,
                    final(logs)@,
                    logged_upto(effects@, effects@.len() as int),
                )
                &&& if no_partial_overlaps(kept_intervals(effects@, memo@, *range)) {
                    r is Ok && r->Ok_0@ == top_level_effects_spec(effects@, memo@, *range)
                } else {
                    r is Err && r->Err_0 == StateError::OverlappingEffects
                }
            },
        },
{
    let top_level = match get_top_level_effect_ranges(effects, memo, range, logs) {
        Ok(top_level) => top_level,
        Err(e) => {
            return Err(e);
        },
    };
    proof {
        lemma_kept_intervals_wf(effects@, memo@, *range);
        lemma_select_top_bounds(
            sort_by_end(kept_intervals(effects@, memo@, *range)),
            range.start,
            range.end,
        );
    }
    let n = top_level.len();
    let mut out: Vec<Effect> = Vec::new();
    let mut i: usize = 0;
    while i < n
        invariant
            i <= n,
            n == top_level@.len(),
            top_level@ == select_top(
                sort_by_end(kept_intervals(effects@, memo@, *range)),
                range.start,
                range.end,
            ),
            forall|k: int|
                0 <= k < n ==> range.start <= (#[trigger] top_level@[k]).start && top_level@[k].end
                    <= range.end,
            out@.len() == i,
            forall|k: int| 0 <= k < i ==> out@[k] == top_level@[k].effect,
        decreases n - i,
    {
        let e = &top_level[i];
        assert(e.start >= range.start);
        assert(e.end <= range.end);
        out.push(clone_effect(&e.effect));
        i += 1;
    }
    proof {
        assert(out@ =~= effects_of(top_level@));
    }
    Ok(out)
}

/// The kept intervals inherit well-formedness (start at most end) from the
/// effects they were resolved from, and a stable sort keeps it.
proof fn lemma_kept_upto_wf(
    effects: Seq<Effect>,
    memo: Seq<(CodeRange, Option<String>)>,
    range: CodeRange,
    i: int,
)
    requires
        forall|k: int|
            0 <= k < effects.len() && (#[trigger] effects[k]).binding.byte_range is Some
                ==> interval_of(effects[k]).start <= interval_of(effects[k]).end,
        first_rangeless(effects, memo, range, 0) is None,
        i <= effects.len(),
    ensures
        forall|k: int|
            0 <= k < kept_upto(effects, memo, range, i).len() ==> (#[trigger] kept_upto(
                effects,
                memo,
                range,
                i,
            )[k]).start <= kept_upto(effects, memo, range, i)[k].end,
    decreases i,
{
    if i > 0 {
        lemma_kept_upto_wf(effects, memo, range, i - 1);
        if effect_kept(effects[i - 1], memo, range) {
            lemma_first_rangeless_none(effects, memo, range, 0, i - 1);
        }
    }
}

/// If no kept effect is rangeless, each kept effect has a byte range.
proof fn lemma_first_rangeless_none(
    effects: Seq<Effect>,
    memo: Seq<(CodeRange, Option<String>)>,
    range: CodeRange,
    i: int,
    k: int,
)
    requires
        first_rangeless(effects, memo, range, i) is None,
        0 <= i <= k < effects.len(),
        effect_kept(effects[k], memo, range),
    ensures
        effects[k].binding.byte_range is Some,
    decreases k - i,
{
    if i < k {
        lemma_first_rangeless_none(effects, memo, range, i + 1, k);
    }
}

proof fn lemma_kept_intervals_wf(
    effects: Seq<Effect>,
    memo: Seq<(CodeRange, Option<String>)>,
    range: CodeRange,
)
    requires
        forall|k: int|
            0 <= k < effects.len() && (#[trigger] effects[k]).binding.byte_range is Some
                ==> interval_of(effects[k]).start <= interval_of(effects[k]).end,
        first_rangeless(effects, memo, range, 0) is None,
    ensures
        forall|k: int|
            0 <= k < sort_by_end(kept_intervals(effects, memo, range)).len() ==> (
            #[trigger] sort_by_end(kept_intervals(effects, memo, range))[k]).start <= sort_by_end(
                kept_intervals(effects, memo, range),
            )[k].end,
{
    lemma_kept_upto_wf(effects, memo, range, effects.len() as int);
    lemma_sort_by_end_wf(kept_intervals(effects, memo, range));
}

/// Insertion keeps every element of the input, so elementwise properties
/// survive sorting.
proof fn lemma_insert_by_end_wf(s: Seq<EffectRange>, x: EffectRange)
    requires
        forall|k: int| 0 <= k < s.len() ==> (#[trigger] s[k]).start <= s[k].end,
        x.start <= x.end,
    ensures
        forall|k: int|
            0 <= k < insert_by_end(s, x).len() ==> (#[trigger] insert_by_end(s, x)[k]).start
                <= insert_by_end(s, x)[k].end,
    decreases s.len(),
{
    if s.len() > 0 && s.last().end > x.end {
        lemma_insert_by_end_wf(s.drop_last(), x);
    }
}

proof fn lemma_sort_by_end_wf(s: Seq<EffectRange>)
    requires
        forall|k: int| 0 <= k < s.len() ==> (#[trigger] s[k]).start <= s[k].end,
    ensures
        forall|k: int|
            0 <= k < sort_by_end(s).len() ==> (#[trigger] sort_by_end(s)[k]).start <= sort_by_end(
                s,
            )[k].end,
    decreases s.len(),
{
    if s.len() > 0 {
        lemma_sort_by_end_wf(s.drop_last());
        lemma_insert_by_end_wf(sort_by_end(s.drop_last()), s.last());
    }
}

} // verus!
