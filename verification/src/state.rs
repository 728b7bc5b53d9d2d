//! Execution state of one top-level match attempt.
//!
//! A `State` owns the variable-binding registry (scope → frame stack →
//! slots), the accumulated effects, the file registry, a deterministic
//! random generator, the current-scope cursor, and the map from dynamically
//! named pattern definitions to lazily assigned scope ids.

use vstd::prelude::*;
use vstd::string::StringExecFns;

use crate::files::FileRegistry;
use crate::ranges::Range;
use crate::rng::{rng_draw, rng_drawn, rng_from_seed, rng_next_u64, rng_seed};
use crate::vars::{
    HistoryBinding, Pattern, ResolvedValue, Variable, VariableContent, VariableMatch,
    VariableScope,
};

verus! {

/// The name of the implicit whole-match variable: its positions are
/// reported as top-level matches rather than under its own name.
pub open spec fn match_var_name() -> Seq<char> {
    "$match"@
}

/// The decimal digit character for `d`.
pub open spec fn digit_char(d: nat) -> char {
    if d == 0 {
        '0'
    } else if d == 1 {
        '1'
    } else if d == 2 {
        '2'
    } else if d == 3 {
        '3'
    } else if d == 4 {
        '4'
    } else if d == 5 {
        '5'
    } else if d == 6 {
        '6'
    } else if d == 7 {
        '7'
    } else if d == 8 {
        '8'
    } else {
        '9'
    }
}

/// The decimal rendering of `n`, most significant digit first.
pub open spec fn decimal_digits(n: nat) -> Seq<char>
    decreases n,
{
    if n < 10 {
        seq![digit_char(n)]
    } else {
        decimal_digits(n / 10).push(digit_char(n % 10))
    }
}

/// The scoped display name of slot `index` of scope `scope`, as rendered
/// for match reports: the two indices in decimal and the slot's name,
/// joined by underscores.
pub open spec fn scoped_name_of(scope: int, index: int, name: Seq<char>) -> Seq<char> {
    decimal_digits(scope as nat) + seq!['_'] + decimal_digits(index as nat) + seq!['_'] + name
}

fn digit_str(d: usize) -> (r: &'static str)
    requires
        d < 10,
    ensures
        r@ == seq![digit_char(d as nat)],
{
    if d == 0 {
        proof {
            reveal_strlit("0");
            assert("0"@ =~= seq![digit_char(d as nat)]);
        }
        "0"
    } else if d == 1 {
        proof {
            reveal_strlit("1");
            assert("1"@ =~= seq![digit_char(d as nat)]);
        }
        "1"
    } else if d == 2 {
        proof {
            reveal_strlit("2");
            assert("2"@ =~= seq![digit_char(d as nat)]);
        }
        "2"
    } else if d == 3 {
        proof {
            reveal_strlit("3");
            assert("3"@ =~= seq![digit_char(d as nat)]);
        }
        "3"
    } else if d == 4 {
        proof {
            reveal_strlit("4");
            assert("4"@ =~= seq![digit_char(d as nat)]);
        }
        "4"
    } else if d == 5 {
        proof {
            reveal_strlit("5");
            assert("5"@ =~= seq![digit_char(d as nat)]);
        }
        "5"
    } else if d == 6 {
        proof {
            reveal_strlit("6");
            assert("6"@ =~= seq![digit_char(d as nat)]);
        }
        "6"
    } else if d == 7 {
        proof {
            reveal_strlit("7");
            assert("7"@ =~= seq![digit_char(d as nat)]);
        }
        "7"
    } else if d == 8 {
        proof {
            reveal_strlit("8");
            assert("8"@ =~= seq![digit_char(d as nat)]);
        }
        "8"
    } else {
        proof {
            reveal_strlit("9");
            assert("9"@ =~= seq![digit_char(d as nat)]);
        }
        "9"
    }
}

/// Appends the decimal rendering of `n`, most significant digit first.
fn push_decimal(s: &mut String, n: usize)
    ensures
        final(s)@ == old(s)@ + decimal_digits(n as nat),
    decreases n,
{
    if n >= 10 {
        push_decimal(s, n / 10);
        s.append(digit_str(n % 10));
        proof {
            assert(final(s)@ =~= old(s)@ + decimal_digits(n as nat));
        }
    } else {
        s.append(digit_str(n));
        proof {
            assert(final(s)@ =~= old(s)@ + decimal_digits(n as nat));
        }
    }
}

/// Renders the scoped display name: the scope and slot indices and the
/// name, joined by underscores.
fn format_scoped_name(scope: usize, index: usize, name: &String) -> (r: String)
    ensures
        r@ == scoped_name_of(scope as int, index as int, name@),
{
    let mut r = String::new();
    push_decimal(&mut r, scope);
    r.append("_");
    push_decimal(&mut r, index);
    r.append("_");
    r.append(name.as_str());
    proof {
        reveal_strlit("_");
        assert("_"@ =~= seq!['_']);
        assert(r@ =~= scoped_name_of(scope as int, index as int, name@));
    }
    r
}

/// All concrete bindings carried by the first `k` values of a slot's
/// history, in history order.
pub open spec fn hist_bindings_upto(h: Seq<ResolvedValue>, k: int) -> Seq<HistoryBinding>
    decreases k,
{
    if k <= 0 {
        Seq::empty()
    } else {
        hist_bindings_upto(h, k - 1) + match h[k - 1].bindings {
            Some(b) => b@,
            None => Seq::empty(),
        }
    }
}

/// All concrete bindings in a slot's full value history.
pub open spec fn slot_bindings(c: VariableContent) -> Seq<HistoryBinding> {
    hist_bindings_upto(c.value_history@, c.value_history@.len() as int)
}

/// How many of the first `k` bindings are suppressed.
pub open spec fn suppressed_upto(bs: Seq<HistoryBinding>, k: int) -> int
    decreases k,
{
    if k <= 0 {
        0
    } else {
        suppressed_upto(bs, k - 1) + if bs[k - 1].suppressed {
            1int
        } else {
            0int
        }
    }
}

/// The positions of the non-suppressed bindings among the first `k`, in
/// order, skipping bindings without a position.
pub open spec fn positions_upto(bs: Seq<HistoryBinding>, k: int) -> Seq<Range>
    decreases k,
{
    if k <= 0 {
        Seq::empty()
    } else {
        positions_upto(bs, k - 1) + if !bs[k - 1].suppressed && bs[k - 1].position is Some {
            seq![bs[k - 1].position->0]
        } else {
            Seq::empty()
        }
    }
}

/// The match positions a slot contributes.
pub open spec fn slot_positions(c: VariableContent) -> Seq<Range> {
    positions_upto(slot_bindings(c), slot_bindings(c).len() as int)
}

/// A slot is fully suppressed when it has at least one binding and every
/// binding is suppressed; such a slot contributes no match entry.
pub open spec fn slot_fully_suppressed(c: VariableContent) -> bool {
    &&& slot_bindings(c).len() > 0
    &&& suppressed_upto(slot_bindings(c), slot_bindings(c).len() as int) == slot_bindings(c).len()
}

/// The match entries contributed by the first `j` slots of scope `i`'s
/// current frame, each as `(name, scoped name, positions)`. A fully
/// suppressed slot contributes nothing, and the implicit whole-match
/// variable reports through the top-level list rather than here.
pub open spec fn scope_matches_upto(reg: VarRegistry, i: int, j: int) -> Seq<
    (Seq<char>, Seq<char>, Seq<Range>),
>
    decreases j,
{
    if j <= 0 {
        Seq::empty()
    } else {
        scope_matches_upto(reg, i, j - 1) + if slot_fully_suppressed(cur_frame(reg, i)[j - 1])
            || cur_frame(reg, i)[j - 1].name@ == match_var_name() {
            Seq::empty()
        } else {
            seq![
                (
                    cur_frame(reg, i)[j - 1].name@,
                    scoped_name_of(i, j - 1, cur_frame(reg, i)[j - 1].name@),
                    slot_positions(cur_frame(reg, i)[j - 1]),
                ),
            ]
        }
    }
}

/// The match entries contributed by the first `i` scopes.
pub open spec fn matches_upto(reg: VarRegistry, i: int) -> Seq<(Seq<char>, Seq<char>, Seq<Range>)>
    decreases i,
{
    if i <= 0 {
        Seq::empty()
    } else {
        matches_upto(reg, i - 1) + scope_matches_upto(
            reg,
            i - 1,
            cur_frame(reg, i - 1).len() as int,
        )
    }
}

/// The top-level match positions contributed by the first `j` slots of
/// scope `i`'s current frame: the positions of slots named as the implicit
/// whole-match variable.
pub open spec fn scope_top_upto(reg: VarRegistry, i: int, j: int) -> Seq<Range>
    decreases j,
{
    if j <= 0 {
        Seq::empty()
    } else {
        scope_top_upto(reg, i, j - 1) + if cur_frame(reg, i)[j - 1].name@ == match_var_name() {
            slot_positions(cur_frame(reg, i)[j - 1])
        } else {
            Seq::empty()
        }
    }
}

/// The top-level match positions contributed by the first `i` scopes.
pub open spec fn top_upto(reg: VarRegistry, i: int) -> Seq<Range>
    decreases i,
{
    if i <= 0 {
        Seq::empty()
    } else {
        top_upto(reg, i - 1) + scope_top_upto(reg, i - 1, cur_frame(reg, i - 1).len() as int)
    }
}

/// Whether any slot among the first `j` of scope `i`'s current frame is
/// fully suppressed.
pub open spec fn scope_sup_upto(reg: VarRegistry, i: int, j: int) -> bool
    decreases j,
{
    j > 0 && (scope_sup_upto(reg, i, j - 1) || slot_fully_suppressed(cur_frame(reg, i)[j - 1]))
}

/// Whether any slot of the first `i` scopes is fully suppressed.
pub open spec fn sup_upto(reg: VarRegistry, i: int) -> bool
    decreases i,
{
    i > 0 && (sup_upto(reg, i - 1) || scope_sup_upto(reg, i - 1, cur_frame(reg, i - 1).len() as int))
}

/// The overall suppressed flag: some slot was fully suppressed and the
/// top-level match list ended up empty.
pub open spec fn history_suppressed(reg: VarRegistry) -> bool {
    sup_upto(reg, reg@.len() as int) && top_upto(reg, reg@.len() as int).len() == 0
}

/// The abstract view of a produced match entry.
pub open spec fn match_view(m: VariableMatch) -> (Seq<char>, Seq<char>, Seq<Range>) {
    (m.name@, m.scoped_name@, m.ranges@)
}

/// The abstract views of a produced match list.
pub open spec fn matches_views(ms: Seq<VariableMatch>) -> Seq<(Seq<char>, Seq<char>, Seq<Range>)> {
    ms.map_values(|m: VariableMatch| match_view(m))
}

proof fn lemma_matches_views_push(ms: Seq<VariableMatch>, m: VariableMatch)
    ensures
        matches_views(ms.push(m)) == matches_views(ms).push(match_view(m)),
{
    assert(matches_views(ms.push(m)) =~= matches_views(ms).push(match_view(m)));
}

/// Three-level variable store: scope id → stack of frames → ordered slots.
pub type VarRegistry = Vec<Vec<Vec<VariableContent>>>;

/// The fixed seed of every `State`'s random generator: reproducibility
/// across runs is a hard requirement.
pub const STATE_RNG_SEED: u64 = 32;

/// The frames of scope `s`.
pub open spec fn frames_of(reg: VarRegistry, s: int) -> Seq<Vec<VariableContent>> {
    reg@[s]@
}

/// The top (current) frame of scope `s`.
pub open spec fn cur_frame(reg: VarRegistry, s: int) -> Seq<VariableContent> {
    frames_of(reg, s).last()@
}

/// Every scope has at least one frame.
pub open spec fn registry_wf(reg: VarRegistry) -> bool {
    forall|s: int| 0 <= s < reg@.len() ==> (#[trigger] reg@[s])@.len() >= 1
}

/// First slot index in `frame`, at or after `j`, whose name is `name`.
pub open spec fn frame_find(frame: Seq<VariableContent>, name: Seq<char>, j: int) -> Option<int>
    decreases frame.len() - j,
{
    if j < 0 || j >= frame.len() {
        None
    } else if frame[j].name@ == name {
        Some(j)
    } else {
        frame_find(frame, name, j + 1)
    }
}

/// First match for `name`, searching the current frames of scopes `s`,
/// `s - 1`, ..., `0` in that order, each frame front to back.
pub open spec fn scope_search(reg: VarRegistry, name: Seq<char>, s: int) -> Option<VariableScope>
    decreases s + 1,
{
    if s < 0 {
        None
    } else {
        match frame_find(cur_frame(reg, s), name, 0) {
            Some(j) => Some(VariableScope { scope: s as usize, index: j as usize }),
            None => scope_search(reg, name, s - 1),
        }
    }
}

/// Where `register_var`/`find_var` locate `name`: scopes are searched in
/// reverse allocation order, each scope's current frame only, first match.
pub open spec fn find_var_spec(reg: VarRegistry, name: Seq<char>) -> Option<VariableScope> {
    scope_search(reg, name, reg@.len() - 1)
}

/// The scope id recorded for a pattern-definition name, if any: first entry
/// at or after `i` whose key is `name`.
pub open spec fn scopes_lookup(entries: Seq<(String, usize)>, name: Seq<char>, i: int) -> Option<
    usize,
>
    decreases entries.len() - i,
{
    if i < 0 || i >= entries.len() {
        None
    } else if entries[i].0@ == name {
        Some(entries[i].1)
    } else {
        scopes_lookup(entries, name, i + 1)
    }
}

pub open spec fn pattern_scope_of(entries: Seq<(String, usize)>, name: Seq<char>) -> Option<
    usize,
> {
    scopes_lookup(entries, name, 0)
}

/// The positional argument attached to slot `i` on scope entry: the `i`-th
/// argument if one is supplied, else none.
pub open spec fn arg_at(args: Seq<Option<Pattern>>, i: int) -> Option<Pattern> {
    if 0 <= i < args.len() {
        args[i]
    } else {
        None
    }
}

/// How one slot of a new frame relates to the slot it was cloned from:
/// the name carries over, the positional argument becomes the slot's
/// pattern, and the bound value and its history are reset. Mirrors are
/// stated separately: they carry over and may then grow by the back-
/// references recorded for arguments that name a variable.
pub open spec fn entered_slot(
    old_slot: VariableContent,
    arg: Option<Pattern>,
    new_slot: VariableContent,
) -> bool {
    &&& new_slot.name@ == old_slot.name@
    &&& new_slot.pattern == arg
    &&& new_slot.value is None
    &&& new_slot.value_history@.len() == 0
}

/// A slot keeps its identity through mirror recording: every field but the
/// mirror list is unchanged.
pub open spec fn same_but_mirrors(a: VariableContent, b: VariableContent) -> bool {
    &&& b.name == a.name
    &&& b.pattern == a.pattern
    &&& b.value == a.value
    &&& b.value_history == a.value_history
}

/// The mirror back-references recorded on the slot at `(s, k)` when a frame
/// of `n` slots is entered in `scope`: the address of each new slot whose
/// positional argument names `(s, k)`, in slot order. The variable a slot
/// is aliased to records that slot as a mirror, not the other way round.
pub open spec fn mirrors_added(
    args: Seq<Option<Pattern>>,
    scope: int,
    n: int,
    s: int,
    k: int,
) -> Seq<Variable>
    decreases n,
{
    if n <= 0 {
        Seq::empty()
    } else {
        mirrors_added(args, scope, n - 1, s, k) + match arg_at(args, n - 1) {
            Some(Pattern::Variable(v)) => if v.scope == s && v.index == k {
                seq![(Variable { scope: scope as usize, index: (n - 1) as usize })]
            } else {
                Seq::empty()
            },
            _ => Seq::empty(),
        }
    }
}

/// The guard returned by `enter_scope`; it must be consumed by exactly one
/// matching `exit_scope`.
pub struct ScopeTracker {
    pub previous_scope: usize,
}

/// Whether `v` addresses an existing slot of the registry's current frames.
pub open spec fn var_in_range(reg: VarRegistry, v: Variable) -> bool {
    &&& v.scope < reg@.len()
    &&& reg@[v.scope as int]@.len() >= 1
    &&& v.index < cur_frame(reg, v.scope as int).len()
}

/// The variable the slot of `v` is aliased to, if its pattern names one.
pub open spec fn alias_of(reg: VarRegistry, v: Variable) -> Option<Variable> {
    match cur_frame(reg, v.scope as int)[v.index as int].pattern {
        Some(Pattern::Variable(w)) => Some(w),
        _ => None,
    }
}

/// The alias chain starting at `v` stays in range and reaches a non-alias
/// slot within `n` steps.
pub open spec fn resolves_in(reg: VarRegistry, v: Variable, n: nat) -> bool
    decreases n,
{
    var_in_range(reg, v) && match alias_of(reg, v) {
        None => true,
        Some(w) => n > 0 && resolves_in(reg, w, (n - 1) as nat),
    }
}

/// The alias chain starting at `v` is acyclic and stays in range; callers
/// of `trace_var` are required to maintain this.
pub open spec fn traceable(reg: VarRegistry, v: Variable) -> bool {
    exists|n: nat| resolves_in(reg, v, n)
}

/// The end of the alias chain from `v`, following at most `n` links.
pub open spec fn trace_spec(reg: VarRegistry, v: Variable, n: nat) -> Variable
    decreases n,
{
    if var_in_range(reg, v) && n > 0 && alias_of(reg, v) is Some {
        trace_spec(reg, alias_of(reg, v)->0, (n - 1) as nat)
    } else {
        v
    }
}

/// The root binding reached from `v`: the unique end of its alias chain.
pub open spec fn trace_result(reg: VarRegistry, v: Variable) -> Variable {
    trace_spec(reg, v, choose|n: nat| resolves_in(reg, v, n))
}

/// The end of an alias chain does not depend on the step bound used to
/// show that the chain terminates.
pub proof fn lemma_trace_unique(reg: VarRegistry, v: Variable, n: nat, m: nat)
    requires
        resolves_in(reg, v, n),
        resolves_in(reg, v, m),
    ensures
        trace_spec(reg, v, n) == trace_spec(reg, v, m),
    decreases n,
{
    if alias_of(reg, v) is Some {
        lemma_trace_unique(reg, alias_of(reg, v)->0, (n - 1) as nat, (m - 1) as nat);
    }
}

/// The execution state of one top-level match attempt.
pub struct State {
    pub bindings: VarRegistry,
    pub effects: Vec<crate::effects::Effect>,
    pub files: FileRegistry,
    pub rng: rand::rngs::StdRng,
    pub current_scope: usize,
    pub pattern_scopes: Vec<(String, usize)>,
}

impl State {
    /// The state's structural invariant: every scope has a frame, the scope
    /// cursor and every recorded pattern scope are in range, and the
    /// generator was seeded with the fixed constant.
    pub open spec fn wf(&self) -> bool {
        &&& registry_wf(self.bindings)
        &&& self.bindings@.len() >= 1
        &&& self.current_scope < self.bindings@.len()
        &&& rng_seed(self.rng) == STATE_RNG_SEED
        &&& forall|i: int|
            0 <= i < self.pattern_scopes@.len() ==> (#[trigger] self.pattern_scopes@[i]).1
                < self.bindings@.len()
    }

    /// A fresh state over a prepared binding store and file registry: no
    /// effects, scope cursor at the root scope, no dynamic pattern names,
    /// and a generator deterministically seeded with the fixed constant.
    pub fn new(bindings: VarRegistry, registry: FileRegistry) -> (r: State)
        requires
            registry_wf(bindings),
            bindings@.len() >= 1,
        ensures
            r.wf(),
            r.bindings == bindings,
            r.files == registry,
            r.effects@.len() == 0,
            r.current_scope == 0,
            r.pattern_scopes@.len() == 0,
            rng_seed(r.rng) == STATE_RNG_SEED,
            rng_drawn(r.rng) == 0,
    {
        State {
            rng: rng_from_seed(STATE_RNG_SEED),
            current_scope: 0,
            bindings,
            effects: Vec::new(),
            files: registry,
            pattern_scopes: Vec::new(),
        }
    }

    pub fn get_files(&self) -> (r: &FileRegistry)
        ensures
            r == &self.files,
    {
        &self.files
    }

    /// The current scope cursor.
    pub fn current_scope(&self) -> (r: usize)
        ensures
            r == self.current_scope,
    {
        self.current_scope
    }

    /// Exposes the deterministic generator for patterns requiring
    /// randomness; draws advance it but never change its fixed seed.
    pub fn get_rng(&mut self) -> (r: &mut rand::rngs::StdRng)
        requires
            old(self).wf(),
        ensures
            *r == old(self).rng,
            final(self).rng == *final(r),
            final(self).bindings == old(self).bindings,
            final(self).effects == old(self).effects,
            final(self).files == old(self).files,
            final(self).current_scope == old(self).current_scope,
            final(self).pattern_scopes == old(self).pattern_scopes,
    {
        &mut self.rng
    }

    /// Draws the next value from the state's deterministic generator. With
    /// the fixed seed, draw number `n` of every `State` is the same value.
    pub fn next_random(&mut self) -> (v: u64)
        requires
            old(self).wf(),
        ensures
            final(self).wf(),
            v == rng_draw(STATE_RNG_SEED, rng_drawn(old(self).rng)),
            rng_drawn(final(self).rng) == rng_drawn(old(self).rng) + 1,
            final(self).bindings == old(self).bindings,
            final(self).effects == old(self).effects,
            final(self).files == old(self).files,
            final(self).current_scope == old(self).current_scope,
            final(self).pattern_scopes == old(self).pattern_scopes,
    {
        rng_next_u64(&mut self.rng)
    }

    /// Enter a scope: push a new frame cloned from that scope's current top
    /// frame, attach the positional argument patterns, record on each
    /// variable named by an argument that the receiving slot mirrors it,
    /// move the scope cursor there, and return a guard holding the previous
    /// cursor.
    ///
    /// Every successful `enter_scope` must be paired with exactly one
    /// `exit_scope` on the returned guard.
    #[verifier::loop_isolation(false)]
    pub fn enter_scope(&mut self, scope: usize, args: &Vec<Option<Pattern>>) -> (tracker:
        ScopeTracker)
        requires
            old(self).wf(),
            scope < old(self).bindings@.len(),
            forall|i: int|
                0 <= i < cur_frame(old(self).bindings, scope as int).len() ==> (#[trigger] arg_at(
                    args@,
                    i,
                ) matches Some(Pattern::Variable(v)) ==> var_in_range(old(self).bindings, v)),
        ensures
            final(self).wf(),
            final(self).bindings@.len() == old(self).bindings@.len(),
            frames_of(final(self).bindings, scope as int).len() == frames_of(
                old(self).bindings,
                scope as int,
            ).len() + 1,
            forall|f: int|
                0 <= f < frames_of(old(self).bindings, scope as int).len() ==> frames_of(
                    final(self).bindings,
                    scope as int,
                )[f] == frames_of(old(self).bindings, scope as int)[f],
            cur_frame(final(self).bindings, scope as int).len() == cur_frame(
                old(self).bindings,
                scope as int,
            ).len(),
            forall|k: int|
                0 <= k < cur_frame(old(self).bindings, scope as int).len() ==> entered_slot(
                    cur_frame(old(self).bindings, scope as int)[k],
                    arg_at(args@, k),
                    #[trigger] cur_frame(final(self).bindings, scope as int)[k],
                ),
            forall|k: int|
                0 <= k < cur_frame(old(self).bindings, scope as int).len() ==> (
                #[trigger] cur_frame(final(self).bindings, scope as int)[k]).mirrors@ == cur_frame(
                    old(self).bindings,
                    scope as int,
                )[k].mirrors@ + mirrors_added(
                    args@,
                    scope as int,
                    cur_frame(old(self).bindings, scope as int).len() as int,
                    scope as int,
                    k,
                ),
            forall|s: int|
                0 <= s < old(self).bindings@.len() && s != scope ==> #[trigger] frames_of(
                    final(self).bindings,
                    s,
                ).len() == frames_of(old(self).bindings, s).len(),
            forall|s: int, f: int|
                0 <= s < old(self).bindings@.len() && s != scope && 0 <= f < frames_of(
                    old(self).bindings,
                    s,
                ).len() - 1 ==> #[trigger] frames_of(final(self).bindings, s)[f] == frames_of(
                    old(self).bindings,
                    s,
                )[f],
            forall|s: int|
                0 <= s < old(self).bindings@.len() && s != scope ==> #[trigger] cur_frame(
                    final(self).bindings,
                    s,
                ).len() == cur_frame(old(self).bindings, s).len(),
            forall|s: int, k: int|
                0 <= s < old(self).bindings@.len() && s != scope && 0 <= k < cur_frame(
                    old(self).bindings,
                    s,
                ).len() ==> same_but_mirrors(
                    cur_frame(old(self).bindings, s)[k],
                    #[trigger] cur_frame(final(self).bindings, s)[k],
                ),
            forall|s: int, k: int|
                0 <= s < old(self).bindings@.len() && s != scope && 0 <= k < cur_frame(
                    old(self).bindings,
                    s,
                ).len() ==> (#[trigger] cur_frame(final(self).bindings, s)[k]).mirrors@
                    == cur_frame(old(self).bindings, s)[k].mirrors@ + mirrors_added(
                    args@,
                    scope as int,
                    cur_frame(old(self).bindings, scope as int).len() as int,
                    s,
                    k,
                ),
            final(self).current_scope == scope,
            tracker.previous_scope == old(self).current_scope,
            final(self).effects == old(self).effects,
            final(self).files == old(self).files,
            final(self).rng == old(self).rng,
            final(self).pattern_scopes == old(self).pattern_scopes,
    {
        let old_scope_index = self.current_scope;
        let frames_len = self.bindings[scope].len();
        let n = self.bindings[scope][frames_len - 1].len();
        let mut new_frame: Vec<VariableContent> = Vec::new();
        let mut i: usize = 0;
        while i < n
            invariant
                i <= n,
                new_frame@.len() == i,
                forall|k: int|
                    0 <= k < i ==> entered_slot(
                        cur_frame(self.bindings, scope as int)[k],
                        arg_at(args@, k),
                        #[trigger] new_frame@[k],
                    ),
                forall|k: int|
                    0 <= k < i ==> (#[trigger] new_frame@[k]).mirrors@ == cur_frame(
                        self.bindings,
                        scope as int,
                    )[k].mirrors@,
            decreases n - i,
        {
            let pattern: Option<Pattern> = if i < args.len() {
                args[i]
            } else {
                None
            };
            let name = self.bindings[scope][frames_len - 1][i].name.clone();
            let m = self.bindings[scope][frames_len - 1][i].mirrors.len();
            let mut mirrors: Vec<Variable> = Vec::new();
            let mut j: usize = 0;
            while j < m
                invariant
                    j <= m,
                    m == cur_frame(self.bindings, scope as int)[i as int].mirrors@.len(),
                    mirrors@ == cur_frame(self.bindings, scope as int)[i as int].mirrors@.subrange(
                        0,
                        j as int,
                    ),
                decreases m - j,
            {
                mirrors.push(self.bindings[scope][frames_len - 1][i].mirrors[j]);
                j += 1;
            }
            proof {
                assert(mirrors@ == cur_frame(self.bindings, scope as int)[i as int].mirrors@);
            }
            new_frame.push(
                VariableContent {
                    name,
                    pattern,
                    value: None,
                    value_history: Vec::new(),
                    mirrors,
                },
            );
            i += 1;
        }
        self.bindings[scope].push(new_frame);
        self.current_scope = scope;
        let ghost mid = *self;
        proof {
            assert(cur_frame(mid.bindings, scope as int) == new_frame@);
            assert forall|s: int| 0 <= s < mid.bindings@.len() && s != scope implies mid.bindings@[s]
                == old(self).bindings@[s] by {}
            assert(mid.wf());
            assert(mid.bindings@.len() == old(self).bindings@.len());
            assert(n as int == cur_frame(old(self).bindings, scope as int).len());
            assert(frames_of(mid.bindings, scope as int).len() == frames_of(
                old(self).bindings,
                scope as int,
            ).len() + 1);
            assert forall|f: int|
                0 <= f < frames_of(old(self).bindings, scope as int).len() implies frames_of(
                mid.bindings,
                scope as int,
            )[f] == frames_of(old(self).bindings, scope as int)[f] by {}
            assert forall|k: int| 0 <= k < n implies entered_slot(
                cur_frame(old(self).bindings, scope as int)[k],
                arg_at(args@, k),
                #[trigger] cur_frame(mid.bindings, scope as int)[k],
            ) && cur_frame(mid.bindings, scope as int)[k].mirrors@ == cur_frame(
                old(self).bindings,
                scope as int,
            )[k].mirrors@ by {}
        }
        // Record the alias back-references: the variable an argument names
        // gains the receiving slot as a mirror.
        let mut t: usize = 0;
        while t < n
            invariant
                t <= n,
                n == cur_frame(old(self).bindings, scope as int).len(),
                self.bindings@.len() == mid.bindings@.len(),
                self.current_scope == mid.current_scope,
                self.effects == mid.effects,
                self.files == mid.files,
                self.rng == mid.rng,
                self.pattern_scopes == mid.pattern_scopes,
                forall|s: int|
                    0 <= s < mid.bindings@.len() ==> #[trigger] frames_of(self.bindings, s).len()
                        == frames_of(mid.bindings, s).len(),
                forall|s: int, f: int|
                    0 <= s < mid.bindings@.len() && 0 <= f < frames_of(mid.bindings, s).len() - 1
                        ==> #[trigger] frames_of(self.bindings, s)[f] == frames_of(
                        mid.bindings,
                        s,
                    )[f],
                forall|s: int|
                    0 <= s < mid.bindings@.len() ==> #[trigger] cur_frame(self.bindings, s).len()
                        == cur_frame(mid.bindings, s).len(),
                forall|s: int, k: int|
                    0 <= s < mid.bindings@.len() && 0 <= k < cur_frame(mid.bindings, s).len()
                        ==> same_but_mirrors(
                        cur_frame(mid.bindings, s)[k],
                        #[trigger] cur_frame(self.bindings, s)[k],
                    ),
                forall|s: int, k: int|
                    0 <= s < mid.bindings@.len() && 0 <= k < cur_frame(mid.bindings, s).len() ==> (
                    #[trigger] cur_frame(self.bindings, s)[k]).mirrors@ == cur_frame(
                        mid.bindings,
                        s,
                    )[k].mirrors@ + mirrors_added(args@, scope as int, t as int, s, k),
            decreases n - t,
        {
            let arg: Option<Pattern> = if t < args.len() {
                args[t]
            } else {
                None
            };
            let ghost pre = *self;
            proof {
                assert(pre.bindings@.len() == mid.bindings@.len());
                assert forall|s: int|
                    0 <= s < mid.bindings@.len() implies #[trigger] frames_of(
                    pre.bindings,
                    s,
                ).len() == frames_of(mid.bindings, s).len() by {
                    assert(frames_of(self.bindings, s).len() == frames_of(mid.bindings, s).len());
                }
                assert forall|s: int, f: int|
                    0 <= s < mid.bindings@.len() && 0 <= f < frames_of(mid.bindings, s).len() - 1
                        implies #[trigger] frames_of(pre.bindings, s)[f] == frames_of(
                    mid.bindings,
                    s,
                )[f] by {
                    assert(frames_of(self.bindings, s)[f] == frames_of(mid.bindings, s)[f]);
                }
                assert forall|s: int|
                    0 <= s < mid.bindings@.len() implies #[trigger] cur_frame(pre.bindings, s).len()
                    == cur_frame(mid.bindings, s).len() by {
                    assert(cur_frame(self.bindings, s).len() == cur_frame(mid.bindings, s).len());
                }
                assert forall|s: int, k: int|
                    0 <= s < mid.bindings@.len() && 0 <= k < cur_frame(mid.bindings, s).len()
                        implies same_but_mirrors(
                        cur_frame(mid.bindings, s)[k],
                        #[trigger] cur_frame(pre.bindings, s)[k],
                    ) && cur_frame(pre.bindings, s)[k].mirrors@ == cur_frame(
                        mid.bindings,
                        s,
                    )[k].mirrors@ + mirrors_added(args@, scope as int, t as int, s, k) by {
                    assert(same_but_mirrors(
                        cur_frame(mid.bindings, s)[k],
                        cur_frame(self.bindings, s)[k],
                    ));
                    assert(cur_frame(self.bindings, s)[k].mirrors@ == cur_frame(
                        mid.bindings,
                        s,
                    )[k].mirrors@ + mirrors_added(args@, scope as int, t as int, s, k));
                }
            }
            match arg {
                Some(Pattern::Variable(v)) => {
                    proof {
                        assert(arg_at(args@, t as int) == Some(Pattern::Variable(v)));
                        assert(var_in_range(old(self).bindings, v));
                        assert(cur_frame(self.bindings, v.scope as int).len() == cur_frame(
                            old(self).bindings,
                            v.scope as int,
                        ).len());
                    }
                    let flv = self.bindings[v.scope].len();
                    self.bindings[v.scope][flv - 1][v.index].mirrors.push(
                        Variable::new(scope, t),
                    );
                    proof {
                        let vs = v.scope as int;
                        let vk = v.index as int;
                        assert forall|s: int|
                            0 <= s < mid.bindings@.len() implies #[trigger] frames_of(
                            self.bindings,
                            s,
                        ).len() == frames_of(mid.bindings, s).len() by {
                            assert(frames_of(pre.bindings, s).len() == frames_of(
                                mid.bindings,
                                s,
                            ).len());
                            if s != vs {
                                assert(self.bindings@[s] == pre.bindings@[s]);
                            } else {
                                assert(frames_of(self.bindings, s).len() == frames_of(
                                    pre.bindings,
                                    s,
                                ).len());
                            }
                        }
                        assert forall|s: int, f: int|
                            0 <= s < mid.bindings@.len() && 0 <= f < frames_of(
                                mid.bindings,
                                s,
                            ).len() - 1 implies #[trigger] frames_of(self.bindings, s)[f]
                            == frames_of(mid.bindings, s)[f] by {
                            assert(frames_of(pre.bindings, s)[f] == frames_of(mid.bindings, s)[f]);
                            if s != vs {
                                assert(self.bindings@[s] == pre.bindings@[s]);
                            } else {
                                assert(frames_of(self.bindings, s)[f] == frames_of(
                                    pre.bindings,
                                    s,
                                )[f]);
                            }
                        }
                        assert forall|s: int|
                            0 <= s < mid.bindings@.len() implies #[trigger] cur_frame(
                            self.bindings,
                            s,
                        ).len() == cur_frame(mid.bindings, s).len() by {
                            assert(cur_frame(pre.bindings, s).len() == cur_frame(
                                mid.bindings,
                                s,
                            ).len());
                            if s != vs {
                                assert(self.bindings@[s] == pre.bindings@[s]);
                            } else {
                                assert(cur_frame(self.bindings, s).len() == cur_frame(
                                    pre.bindings,
                                    s,
                                ).len());
                            }
                        }
                        assert forall|s: int, k: int|
                            0 <= s < mid.bindings@.len() && 0 <= k < cur_frame(
                                mid.bindings,
                                s,
                            ).len() implies same_but_mirrors(
                            cur_frame(mid.bindings, s)[k],
                            #[trigger] cur_frame(self.bindings, s)[k],
                        ) by {
                            assert(same_but_mirrors(
                                cur_frame(mid.bindings, s)[k],
                                cur_frame(pre.bindings, s)[k],
                            ));
                            if s == vs && k == vk {
                                assert(same_but_mirrors(
                                    cur_frame(pre.bindings, s)[k],
                                    cur_frame(self.bindings, s)[k],
                                ));
                            } else if s == vs {
                                assert(cur_frame(self.bindings, s)[k] == cur_frame(
                                    pre.bindings,
                                    s,
                                )[k]);
                            } else {
                                assert(self.bindings@[s] == pre.bindings@[s]);
                            }
                        }
                        assert forall|s: int, k: int|
                            0 <= s < mid.bindings@.len() && 0 <= k < cur_frame(
                                mid.bindings,
                                s,
                            ).len() implies (#[trigger] cur_frame(self.bindings, s)[k]).mirrors@
                            == cur_frame(mid.bindings, s)[k].mirrors@ + mirrors_added(
                            args@,
                            scope as int,
                            t as int + 1,
                            s,
                            k,
                        ) by {
                            assert(cur_frame(pre.bindings, s)[k].mirrors@ == cur_frame(
                                mid.bindings,
                                s,
                            )[k].mirrors@ + mirrors_added(args@, scope as int, t as int, s, k));
                            if s == v.scope as int && k == v.index as int {
                                assert(cur_frame(self.bindings, s)[k].mirrors@ == cur_frame(
                                    pre.bindings,
                                    s,
                                )[k].mirrors@.push(Variable { scope, index: t }));
                                assert(mirrors_added(args@, scope as int, t as int + 1, s, k)
                                    =~= mirrors_added(args@, scope as int, t as int, s, k).push(
                                    Variable { scope, index: t },
                                ));
                                assert(cur_frame(mid.bindings, s)[k].mirrors@ + mirrors_added(
                                    args@,
                                    scope as int,
                                    t as int,
                                    s,
                                    k,
                                ).push((Variable { scope, index: t })) =~= (cur_frame(
                                    mid.bindings,
                                    s,
                                )[k].mirrors@ + mirrors_added(args@, scope as int, t as int, s, k)).push(
                                    (Variable { scope, index: t }),
                                ));
                            } else {
                                if s == vs {
                                    assert(cur_frame(self.bindings, s)[k] == cur_frame(
                                        pre.bindings,
                                        s,
                                    )[k]);
                                } else {
                                    assert(self.bindings@[s] == pre.bindings@[s]);
                                }
                                assert(mirrors_added(args@, scope as int, t as int + 1, s, k)
                                    =~= mirrors_added(args@, scope as int, t as int, s, k));
                            }
                        }
                    }
                },
                _ => {
                    proof {
                        assert(arg_at(args@, t as int) == arg);
                        assert forall|s: int, k: int|
                            0 <= s < mid.bindings@.len() && 0 <= k < cur_frame(
                                mid.bindings,
                                s,
                            ).len() implies mirrors_added(args@, scope as int, t as int + 1, s, k)
                            =~= mirrors_added(args@, scope as int, t as int, s, k) by {}
                    }
                },
            }
            t += 1;
        }
        proof {
            let sc = scope as int;
            assert forall|s: int|
                0 <= s < self.bindings@.len() implies (#[trigger] self.bindings@[s])@.len()
                >= 1 by {
                assert(frames_of(self.bindings, s).len() == frames_of(mid.bindings, s).len());
                assert(frames_of(mid.bindings, s).len() >= 1);
            }
            assert forall|f: int|
                0 <= f < frames_of(old(self).bindings, sc).len() implies frames_of(
                self.bindings,
                sc,
            )[f] == frames_of(old(self).bindings, sc)[f] by {
                assert(frames_of(self.bindings, sc)[f] == frames_of(mid.bindings, sc)[f]);
            }
            assert forall|k: int| 0 <= k < n implies entered_slot(
                cur_frame(old(self).bindings, sc)[k],
                arg_at(args@, k),
                #[trigger] cur_frame(self.bindings, sc)[k],
            ) && cur_frame(self.bindings, sc)[k].mirrors@ == cur_frame(
                old(self).bindings,
                sc,
            )[k].mirrors@ + mirrors_added(args@, sc, n as int, sc, k) by {
                assert(same_but_mirrors(
                    cur_frame(mid.bindings, sc)[k],
                    cur_frame(self.bindings, sc)[k],
                ));
                assert(entered_slot(
                    cur_frame(old(self).bindings, sc)[k],
                    arg_at(args@, k),
                    cur_frame(mid.bindings, sc)[k],
                ));
            }
            assert forall|s: int, f: int|
                0 <= s < old(self).bindings@.len() && s != scope && 0 <= f < frames_of(
                    old(self).bindings,
                    s,
                ).len() - 1 implies #[trigger] frames_of(self.bindings, s)[f] == frames_of(
                old(self).bindings,
                s,
            )[f] by {
                assert(mid.bindings@[s] == old(self).bindings@[s]);
                assert(frames_of(self.bindings, s)[f] == frames_of(mid.bindings, s)[f]);
            }
            assert forall|s: int, k: int|
                0 <= s < old(self).bindings@.len() && s != scope && 0 <= k < cur_frame(
                    old(self).bindings,
                    s,
                ).len() implies same_but_mirrors(
                cur_frame(old(self).bindings, s)[k],
                #[trigger] cur_frame(self.bindings, s)[k],
            ) && cur_frame(self.bindings, s)[k].mirrors@ == cur_frame(
                old(self).bindings,
                s,
            )[k].mirrors@ + mirrors_added(args@, sc, n as int, s, k) by {
                assert(mid.bindings@[s] == old(self).bindings@[s]);
                assert(same_but_mirrors(
                    cur_frame(mid.bindings, s)[k],
                    cur_frame(self.bindings, s)[k],
                ));
            }
        }
        ScopeTracker { previous_scope: old_scope_index }
    }

    /// Exit a scope: restore the scope cursor saved in the guard. The frame
    /// pushed by the matching `enter_scope` is deliberately kept: frames
    /// accumulate as an append-only history.
    pub fn exit_scope(&mut self, tracker: ScopeTracker)
        requires
            old(self).wf(),
            tracker.previous_scope < old(self).bindings@.len(),
        ensures
            final(self).wf(),
            final(self).current_scope == tracker.previous_scope,
            final(self).bindings == old(self).bindings,
            final(self).effects == old(self).effects,
            final(self).files == old(self).files,
            final(self).rng == old(self).rng,
            final(self).pattern_scopes == old(self).pattern_scopes,
    {
        self.current_scope = tracker.previous_scope;
    }

    /// The scope id for a dynamically named pattern definition: allocates a
    /// brand-new empty scope with one empty frame on first use, and returns
    /// the recorded id thereafter.
    #[verifier::loop_isolation(false)]
    pub fn register_pattern_definition(&mut self, name: &str) -> (r: usize)
        requires
            old(self).wf(),
        ensures
            final(self).wf(),
            r < final(self).bindings@.len(),
            match pattern_scope_of(old(self).pattern_scopes@, name@) {
                Some(s) => r == s && *final(self) == *old(self),
                None => {
                    &&& r == old(self).bindings@.len()
                    &&& final(self).bindings@.len() == old(self).bindings@.len() + 1
                    &&& forall|s: int|
                        0 <= s < old(self).bindings@.len() ==> final(self).bindings@[s] == old(
                            self,
                        ).bindings@[s]
                    &&& frames_of(final(self).bindings, r as int).len() == 1
                    &&& cur_frame(final(self).bindings, r as int).len() == 0
                    &&& final(self).pattern_scopes@.len() == old(self).pattern_scopes@.len() + 1
                    &&& forall|i: int|
                        0 <= i < old(self).pattern_scopes@.len() ==> final(self).pattern_scopes@[i]
                            == old(self).pattern_scopes@[i]
                    &&& final(self).pattern_scopes@.last().0@ == name@
                    &&& final(self).pattern_scopes@.last().1 == r
                    &&& final(self).current_scope == old(self).current_scope
                    &&& final(self).effects == old(self).effects
                    &&& final(self).files == old(self).files
                    &&& final(self).rng == old(self).rng
                },
            },
    {
        let owned = name.to_owned();
        let len = self.pattern_scopes.len();
        let mut i: usize = 0;
        while i < len
            invariant
                i <= len,
                pattern_scope_of(self.pattern_scopes@, name@) == scopes_lookup(
                    self.pattern_scopes@,
                    name@,
                    i as int,
                ),
            decreases len - i,
        {
            if self.pattern_scopes[i].0 == owned {
                return self.pattern_scopes[i].1;
            }
            i += 1;
        }
        let registered_scope = self.bindings.len();
        let mut first_frames: Vec<Vec<VariableContent>> = Vec::new();
        first_frames.push(Vec::new());
        self.bindings.push(first_frames);
        self.pattern_scopes.push((owned, registered_scope));
        registered_scope
    }

    /// The name of the addressed slot. An out-of-range address can only
    /// come from a defect in the caller, so it is excluded by `requires`.
    pub fn get_name(&self, var: &Variable) -> (r: &str)
        requires
            self.wf(),
            var.scope < self.bindings@.len(),
            var.index < cur_frame(self.bindings, var.scope as int).len(),
        ensures
            r@ == cur_frame(self.bindings, var.scope as int)[var.index as int].name@,
    {
        let fl = self.bindings[var.scope].len();
        self.bindings[var.scope][fl - 1][var.index].name.as_str()
    }

    /// Find a variable's registered scope by name, searching every scope in
    /// reverse allocation order, each scope's current frame only.
    #[verifier::loop_isolation(false)]
    fn find_var_scope(&self, name: &String) -> (r: Option<VariableScope>)
        requires
            self.wf(),
        ensures
            r == find_var_spec(self.bindings, name@),
    {
        let mut s: usize = self.bindings.len();
        while s > 0
            invariant
                s <= self.bindings@.len(),
                find_var_spec(self.bindings, name@) == scope_search(
                    self.bindings,
                    name@,
                    s as int - 1,
                ),
            decreases s,
        {
            let scope_idx = s - 1;
            let fl = self.bindings[scope_idx].len();
            let frame_len = self.bindings[scope_idx][fl - 1].len();
            let mut j: usize = 0;
            while j < frame_len
                invariant
                    j <= frame_len,
                    frame_len == cur_frame(self.bindings, scope_idx as int).len(),
                    fl == self.bindings@[scope_idx as int]@.len(),
                    scope_idx == s - 1,
                    frame_find(cur_frame(self.bindings, scope_idx as int), name@, 0) == frame_find(
                        cur_frame(self.bindings, scope_idx as int),
                        name@,
                        j as int,
                    ),
                decreases frame_len - j,
            {
                if self.bindings[scope_idx][fl - 1][j].name == *name {
                    return Some(VariableScope::new(scope_idx, j));
                }
                j += 1;
            }
            s = scope_idx;
        }
        None
    }

    /// Attempt to find a variable by name in any scope, searching scopes in
    /// reverse allocation order; none if the name was never registered.
    pub fn find_var(&self, name: &str) -> (r: Option<Variable>)
        requires
            self.wf(),
        ensures
            r == match find_var_spec(self.bindings, name@) {
                Some(vs) => Some(Variable { scope: vs.scope, index: vs.index }),
                None => None::<Variable>,
            },
    {
        let owned = name.to_owned();
        match self.find_var_scope(&owned) {
            Some(vs) => Some(Variable::new(vs.scope, vs.index)),
            None => None,
        }
    }

    /// Find-or-create: if the name exists anywhere (searched as `find_var`
    /// does), return its existing address; else append a fresh slot at the
    /// end of the current scope's top frame.
    pub fn register_var(&mut self, name: &str) -> (r: VariableScope)
        requires
            old(self).wf(),
        ensures
            final(self).wf(),
            match find_var_spec(old(self).bindings, name@) {
                Some(vs) => r == vs && *final(self) == *old(self),
                None => registered_fresh(*old(self), *final(self), name@, r),
            },
    {
        let owned = name.to_owned();
        let found = self.find_var_scope(&owned);
        if let Some(existing) = found {
            return existing;
        }
        let scope = self.current_scope;
        let fl = self.bindings[scope].len();
        let index = self.bindings[scope][fl - 1].len();
        self.bindings[scope][fl - 1].push(VariableContent::new(owned));
        VariableScope::new(scope, index)
    }

    /// Attempt to find a variable by name in the current scope's top frame
    /// only, first match front to back.
    pub fn find_var_in_scope(&mut self, name: &str) -> (r: Option<Variable>)
        requires
            old(self).wf(),
        ensures
            *final(self) == *old(self),
            r == match frame_find(
                cur_frame(old(self).bindings, old(self).current_scope as int),
                name@,
                0,
            ) {
                Some(j) => Some(Variable { scope: old(self).current_scope, index: j as usize }),
                None => None::<Variable>,
            },
    {
        let owned = name.to_owned();
        let cs = self.current_scope;
        let fl = self.bindings[cs].len();
        let frame_len = self.bindings[cs][fl - 1].len();
        let mut j: usize = 0;
        #[verifier::loop_isolation(false)]
        while j < frame_len
            invariant
                j <= frame_len,
                frame_find(cur_frame(self.bindings, cs as int), owned@, 0) == frame_find(
                    cur_frame(self.bindings, cs as int),
                    owned@,
                    j as int,
                ),
            decreases frame_len - j,
        {
            if self.bindings[cs][fl - 1][j].name == owned {
                return Some(Variable::new(cs, j));
            }
            j += 1;
        }
        None
    }

    /// Trace a variable to its root binding by following the alias chain.
    /// The alias graph is required to be acyclic; that invariant is
    /// maintained where aliases are created.
    #[verifier::loop_isolation(false)]
    pub fn trace_var(&self, var: &Variable) -> (r: Variable)
        requires
            self.wf(),
            traceable(self.bindings, *var),
        ensures
            r == trace_result(self.bindings, *var),
            var_in_range(self.bindings, r),
            alias_of(self.bindings, r) is None,
    {
        let ghost n0: nat = choose|n: nat| resolves_in(self.bindings, *var, n);
        proof {
            lemma_trace_unique(
                self.bindings,
                *var,
                n0,
                choose|n: nat| resolves_in(self.bindings, *var, n),
            );
        }
        let mut cur: Variable = *var;
        let ghost mut n: nat = n0;
        loop
            invariant
                resolves_in(self.bindings, cur, n),
                trace_spec(self.bindings, cur, n) == trace_result(self.bindings, *var),
            decreases n,
        {
            let fl = self.bindings[cur.scope].len();
            match &self.bindings[cur.scope][fl - 1][cur.index].pattern {
                Some(Pattern::Variable(w)) => {
                    let next: Variable = *w;
                    proof {
                        n = (n - 1) as nat;
                    }
                    cur = next;
                },
                _ => {
                    return cur;
                },
            }
        }
    }

    /// As `trace_var`; kept for parity with call sites that hold the state
    /// mutably while resolving a variable.
    pub fn trace_var_mut(&mut self, var: &Variable) -> (r: Variable)
        requires
            old(self).wf(),
            traceable(old(self).bindings, *var),
        ensures
            *final(self) == *old(self),
            r == trace_result(old(self).bindings, *var),
            var_in_range(old(self).bindings, r),
            alias_of(old(self).bindings, r) is None,
    {
        self.trace_var(var)
    }

    /// For every slot in every scope's current frame, walk its full value
    /// history and report the positions of its non-suppressed bindings:
    /// per-variable match entries, the top-level positions of the implicit
    /// whole-match variable, and whether some fully suppressed slot left the
    /// top-level list empty.
    #[verifier::loop_isolation(false)]
    pub fn bindings_history_to_ranges(&self) -> (r: (Vec<VariableMatch>, Vec<Range>, bool))
        requires
            self.wf(),
        ensures
            matches_views(r.0@) == matches_upto(self.bindings, self.bindings@.len() as int),
            r.1@ == top_upto(self.bindings, self.bindings@.len() as int),
            r.2 == history_suppressed(self.bindings),
    {
        let mut matches: Vec<VariableMatch> = Vec::new();
        let mut top_level_matches: Vec<Range> = Vec::new();
        let mut suppressed = false;
        let match_name: String = "$match".to_owned();
        let nscopes = self.bindings.len();
        let mut i: usize = 0;
        while i < nscopes
            invariant
                i <= nscopes,
                matches_views(matches@) == matches_upto(self.bindings, i as int),
                top_level_matches@ == top_upto(self.bindings, i as int),
                suppressed == sup_upto(self.bindings, i as int),
                match_name@ == match_var_name(),
            decreases nscopes - i,
        {
            let fl = self.bindings[i].len();
            let frame_len = self.bindings[i][fl - 1].len();
            let mut j: usize = 0;
            while j < frame_len
                invariant
                    j <= frame_len,
                    fl == self.bindings@[i as int]@.len(),
                    frame_len == cur_frame(self.bindings, i as int).len(),
                    matches_views(matches@) == matches_upto(self.bindings, i as int)
                        + scope_matches_upto(self.bindings, i as int, j as int),
                    top_level_matches@ == top_upto(self.bindings, i as int) + scope_top_upto(
                        self.bindings,
                        i as int,
                        j as int,
                    ),
                    suppressed == (sup_upto(self.bindings, i as int) || scope_sup_upto(
                        self.bindings,
                        i as int,
                        j as int,
                    )),
                decreases frame_len - j,
            {
                let ghost slot = cur_frame(self.bindings, i as int)[j as int];
                let hist_len = self.bindings[i][fl - 1][j].value_history.len();
                let mut bs: Vec<HistoryBinding> = Vec::new();
                let mut k: usize = 0;
                while k < hist_len
                    invariant
                        k <= hist_len,
                        j < frame_len,
                        hist_len == slot.value_history@.len(),
                        slot == cur_frame(self.bindings, i as int)[j as int],
                        bs@ == hist_bindings_upto(slot.value_history@, k as int),
                    decreases hist_len - k,
                {
                    match &self.bindings[i][fl - 1][j].value_history[k].bindings {
                        Some(b) => {
                            let blen = b.len();
                            let mut l: usize = 0;
                            while l < blen
                                invariant
                                    l <= blen,
                                    k < hist_len,
                                    blen == b@.len(),
                                    b@ == slot.value_history@[k as int].bindings->0@,
                                    bs@ == hist_bindings_upto(slot.value_history@, k as int)
                                        + b@.subrange(0, l as int),
                                decreases blen - l,
                            {
                                bs.push(b[l]);
                                l += 1;
                            }
                            proof {
                                assert(b@.subrange(0, blen as int) =~= b@);
                                assert(bs@ =~= hist_bindings_upto(
                                    slot.value_history@,
                                    k as int + 1,
                                ));
                            }
                        },
                        None => {
                            proof {
                                assert(bs@ =~= hist_bindings_upto(
                                    slot.value_history@,
                                    k as int + 1,
                                ));
                            }
                        },
                    }
                    k += 1;
                }
                proof {
                    assert(bs@ == slot_bindings(slot));
                }
                let total = bs.len();
                let mut var_ranges: Vec<Range> = Vec::new();
                let mut suppressed_count: usize = 0;
                let mut b_idx: usize = 0;
                while b_idx < total
                    invariant
                        b_idx <= total,
                        total == bs@.len(),
                        bs@ == slot_bindings(slot),
                        suppressed_count as int == suppressed_upto(bs@, b_idx as int),
                        var_ranges@ == positions_upto(bs@, b_idx as int),
                        suppressed_count <= b_idx,
                    decreases total - b_idx,
                {
                    if bs[b_idx].suppressed {
                        suppressed_count += 1;
                    } else {
                        if let Some(pos) = bs[b_idx].position {
                            var_ranges.push(pos);
                        }
                    }
                    b_idx += 1;
                }
                proof {
                    assert(var_ranges@ == slot_positions(slot));
                }
                let name_is_match = self.bindings[i][fl - 1][j].name == match_name;
                if name_is_match {
                    let vr_len = var_ranges.len();
                    let mut t: usize = 0;
                    while t < vr_len
                        invariant
                            t <= vr_len,
                            j < frame_len,
                            vr_len == var_ranges@.len(),
                            top_level_matches@ == top_upto(self.bindings, i as int)
                                + scope_top_upto(self.bindings, i as int, j as int)
                                + var_ranges@.subrange(0, t as int),
                        decreases vr_len - t,
                    {
                        top_level_matches.push(var_ranges[t]);
                        t += 1;
                    }
                    proof {
                        assert(var_ranges@.subrange(0, var_ranges@.len() as int) =~= var_ranges@);
                        assert(top_level_matches@ =~= top_upto(self.bindings, i as int)
                            + scope_top_upto(self.bindings, i as int, j as int + 1));
                    }
                } else {
                    proof {
                        assert(top_level_matches@ =~= top_upto(self.bindings, i as int)
                            + scope_top_upto(self.bindings, i as int, j as int + 1));
                    }
                }
                if suppressed_count > 0 && suppressed_count == total {
                    suppressed = true;
                    proof {
                        assert(slot_fully_suppressed(slot));
                        assert(matches_views(matches@) =~= matches_upto(self.bindings, i as int)
                            + scope_matches_upto(self.bindings, i as int, j as int + 1));
                    }
                } else if name_is_match {
                    proof {
                        assert(matches_views(matches@) =~= matches_upto(self.bindings, i as int)
                            + scope_matches_upto(self.bindings, i as int, j as int + 1));
                    }
                } else {
                    let scoped = format_scoped_name(i, j, &self.bindings[i][fl - 1][j].name);
                    let name_clone = self.bindings[i][fl - 1][j].name.clone();
                    let ghost pre_matches = matches@;
                    matches.push(
                        VariableMatch { name: name_clone, scoped_name: scoped, ranges: var_ranges },
                    );
                    proof {
                        assert(!slot_fully_suppressed(slot));
                        lemma_matches_views_push(pre_matches, matches@.last());
                        assert(match_view(matches@.last()) == (
                            slot.name@,
                            scoped_name_of(i as int, j as int, slot.name@),
                            slot_positions(slot),
                        ));
                        assert(matches_views(matches@) =~= matches_upto(self.bindings, i as int)
                            + scope_matches_upto(self.bindings, i as int, j as int + 1));
                    }
                }
                j += 1;
            }
            proof {
                assert(matches_views(matches@) =~= matches_upto(self.bindings, i as int + 1));
                assert(top_level_matches@ =~= top_upto(self.bindings, i as int + 1));
            }
            i += 1;
        }
        let no_top = top_level_matches.len() == 0;
        let final_suppressed = suppressed && no_top;
        (matches, top_level_matches, final_suppressed)
    }
}

/// For any matched `enter_scope`/`exit_scope` pair, the scope cursor after
/// the exit equals the cursor before the matching enter: `enter_scope`
/// saves the cursor in its guard and `exit_scope` restores exactly that
/// saved value, whatever happened in between.
pub proof fn lemma_scope_cursor_restored(
    before_enter: State,
    tracker: ScopeTracker,
    after_exit: State,
)
    requires
        tracker.previous_scope == before_enter.current_scope,
        after_exit.current_scope == tracker.previous_scope,
    ensures
        after_exit.current_scope == before_enter.current_scope,
{
}

/// Two states whose generators have drawn equally many values draw the
/// same value next: every `State` is seeded with the same fixed constant,
/// so random choices are reproducible across independently constructed
/// states.
pub proof fn lemma_rng_reproducible(a: State, b: State)
    requires
        a.wf(),
        b.wf(),
        rng_drawn(a.rng) == rng_drawn(b.rng),
    ensures
        rng_draw(rng_seed(a.rng), rng_drawn(a.rng)) == rng_draw(rng_seed(b.rng), rng_drawn(b.rng)),
{
}

/// How `register_var` extends the state when the name is fresh: the current
/// scope's top frame gains one unbound slot with that name at its end, and
/// nothing else changes.
pub open spec fn registered_fresh(
    pre: State,
    post: State,
    name: Seq<char>,
    r: VariableScope,
) -> bool {
    let cs = pre.current_scope as int;
    &&& r.scope == pre.current_scope
    &&& r.index == cur_frame(pre.bindings, cs).len()
    &&& post.bindings@.len() == pre.bindings@.len()
    &&& forall|s: int|
        0 <= s < pre.bindings@.len() && s != cs ==> post.bindings@[s] == pre.bindings@[s]
    &&& frames_of(post.bindings, cs).len() == frames_of(pre.bindings, cs).len()
    &&& forall|k: int|
        0 <= k < frames_of(pre.bindings, cs).len() - 1 ==> frames_of(post.bindings, cs)[k]
            == frames_of(pre.bindings, cs)[k]
    &&& cur_frame(post.bindings, cs) =~= cur_frame(pre.bindings, cs).push(
        cur_frame(post.bindings, cs).last(),
    )
    &&& cur_frame(post.bindings, cs).last().name@ == name
    &&& cur_frame(post.bindings, cs).last().pattern is None
    &&& cur_frame(post.bindings, cs).last().value is None
    &&& cur_frame(post.bindings, cs).last().value_history@.len() == 0
    &&& cur_frame(post.bindings, cs).last().mirrors@.len() == 0
    &&& post.current_scope == pre.current_scope
    &&& post.effects == pre.effects
    &&& post.files == pre.files
    &&& post.rng == pre.rng
    &&& post.pattern_scopes == pre.pattern_scopes
}


proof fn lemma_scope_search_none(reg: VarRegistry, name: Seq<char>, s: int, t: int)
    requires
        scope_search(reg, name, s) is None,
        0 <= t <= s,
    ensures
        frame_find(cur_frame(reg, t), name, 0) is None,
    decreases s,
{
    if t < s {
        lemma_scope_search_none(reg, name, s - 1, t);
    }
}

proof fn lemma_frame_find_push(
    frame: Seq<VariableContent>,
    name: Seq<char>,
    x: VariableContent,
    j: int,
)
    requires
        frame_find(frame, name, j) is None,
        x.name@ == name,
        0 <= j <= frame.len(),
    ensures
        frame_find(frame.push(x), name, j) == Some(frame.len() as int),
    decreases frame.len() - j,
{
    if j < frame.len() {
        assert(frame.push(x)[j] == frame[j]);
        lemma_frame_find_push(frame, name, x, j + 1);
    } else {
        assert(frame.push(x)[j] == x);
    }
}

proof fn lemma_scope_search_step(
    pre: VarRegistry,
    post: VarRegistry,
    name: Seq<char>,
    s: int,
    stop: int,
)
    requires
        pre@.len() == post@.len(),
        forall|t: int| stop < t <= s ==> post@[t] == pre@[t],
        forall|t: int| stop < t <= s ==> frame_find(cur_frame(pre, t), name, 0) is None,
        -1 <= stop <= s,
        s < pre@.len(),
    ensures
        scope_search(post, name, s) == scope_search(post, name, stop),
    decreases s - stop,
{
    if s > stop {
        assert(cur_frame(post, s) == cur_frame(pre, s));
        lemma_scope_search_step(pre, post, name, s - 1, stop);
    }
}

/// Registering a name that was not yet known anywhere makes it findable at
/// exactly the address the registration returned.
pub proof fn lemma_registered_var_found(pre: State, post: State, name: Seq<char>, r: VariableScope)
    requires
        pre.wf(),
        find_var_spec(pre.bindings, name) is None,
        registered_fresh(pre, post, name, r),
    ensures
        find_var_spec(post.bindings, name) == Some(r),
{
    let cs = pre.current_scope as int;
    let len = pre.bindings@.len() as int;
    assert forall|t: int| cs < t < len implies frame_find(
        cur_frame(pre.bindings, t),
        name,
        0,
    ) is None by {
        lemma_scope_search_none(pre.bindings, name, len - 1, t);
    }
    lemma_scope_search_step(pre.bindings, post.bindings, name, len - 1, cs);
    lemma_scope_search_none(pre.bindings, name, len - 1, cs);
    lemma_frame_find_push(
        cur_frame(pre.bindings, cs),
        name,
        cur_frame(post.bindings, cs).last(),
        0,
    );
    assert(cur_frame(post.bindings, cs) == cur_frame(pre.bindings, cs).push(
        cur_frame(post.bindings, cs).last(),
    ));
    assert(frame_find(cur_frame(post.bindings, cs), name, 0) == Some(
        cur_frame(pre.bindings, cs).len() as int,
    ));
}

/// Registering the same name twice returns the same address both times,
/// and the second registration changes nothing: the slot the first call
/// created is exactly what the second call finds.
pub proof fn lemma_register_var_idempotent(
    s0: State,
    s1: State,
    s2: State,
    name: Seq<char>,
    r1: VariableScope,
    r2: VariableScope,
)
    requires
        s0.wf(),
        match find_var_spec(s0.bindings, name) {
            Some(vs) => r1 == vs && s1 == s0,
            None => registered_fresh(s0, s1, name, r1),
        },
        match find_var_spec(s1.bindings, name) {
            Some(vs) => r2 == vs && s2 == s1,
            None => registered_fresh(s1, s2, name, r2),
        },
    ensures
        r2 == r1,
        s2 == s1,
{
    if find_var_spec(s0.bindings, name) is None {
        lemma_registered_var_found(s0, s1, name, r1);
    }
}

/// Fresh registrations in the same frame hand out consecutive, increasing
/// slot indices.
pub proof fn lemma_register_var_increasing(
    s0: State,
    s1: State,
    s2: State,
    n1: Seq<char>,
    n2: Seq<char>,
    r1: VariableScope,
    r2: VariableScope,
)
    requires
        registered_fresh(s0, s1, n1, r1),
        registered_fresh(s1, s2, n2, r2),
    ensures
        r2.scope == r1.scope,
        r2.index == r1.index + 1,
{
    assert(cur_frame(s1.bindings, s0.current_scope as int).len() == cur_frame(
        s0.bindings,
        s0.current_scope as int,
    ).len() + 1);
}

proof fn lemma_scope_sup_mono(reg: VarRegistry, i: int, j1: int, j2: int)
    requires
        0 <= j1 <= j2,
        scope_sup_upto(reg, i, j1),
    ensures
        scope_sup_upto(reg, i, j2),
    decreases j2 - j1,
{
    if j1 < j2 {
        lemma_scope_sup_mono(reg, i, j1, j2 - 1);
    }
}

proof fn lemma_sup_mono(reg: VarRegistry, i1: int, i2: int)
    requires
        0 <= i1 <= i2,
        sup_upto(reg, i1),
    ensures
        sup_upto(reg, i2),
    decreases i2 - i1,
{
    if i1 < i2 {
        lemma_sup_mono(reg, i1, i2 - 1);
    }
}

/// The whole-match variable reports through the top-level list rather than
/// the per-name list: its slot contributes its positions there and no match
/// entry of its own.
pub proof fn lemma_match_var_top_level_only(reg: VarRegistry, i: int, j: int)
    requires
        0 <= i < reg@.len(),
        0 <= j < cur_frame(reg, i).len(),
        cur_frame(reg, i)[j].name@ == match_var_name(),
    ensures
        scope_matches_upto(reg, i, j + 1) == scope_matches_upto(reg, i, j),
        scope_top_upto(reg, i, j + 1) == scope_top_upto(reg, i, j) + slot_positions(
            cur_frame(reg, i)[j],
        ),
{
    assert(scope_matches_upto(reg, i, j + 1) =~= scope_matches_upto(reg, i, j));
}

/// A slot whose every historical binding is suppressed contributes no
/// match entry, and the overall suppressed flag is then set exactly when
/// the top-level match list ends up empty: top-level positions always
/// clear the flag.
pub proof fn lemma_fully_suppressed_slot(reg: VarRegistry, i: int, j: int)
    requires
        0 <= i < reg@.len(),
        0 <= j < cur_frame(reg, i).len(),
        slot_fully_suppressed(cur_frame(reg, i)[j]),
    ensures
        scope_matches_upto(reg, i, j + 1) == scope_matches_upto(reg, i, j),
        sup_upto(reg, reg@.len() as int),
        history_suppressed(reg) == (top_upto(reg, reg@.len() as int).len() == 0),
{
    assert(scope_matches_upto(reg, i, j + 1) =~= scope_matches_upto(reg, i, j));
    lemma_scope_sup_mono(reg, i, j + 1, cur_frame(reg, i).len() as int);
    lemma_sup_mono(reg, i + 1, reg@.len() as int);
}

} // verus!
