use grit_state::files::FileRegistry;
use rand::RngCore;
use grit_state::ranges::{Position, Range};
use grit_state::state::{State, VarRegistry};
use grit_state::vars::{
    HistoryBinding, Pattern, ResolvedValue, Variable, VariableContent, VariableScope,
};

fn empty_state() -> State {
    let bindings: VarRegistry = vec![vec![Vec::new()]];
    State::new(bindings, FileRegistry::new_from_paths(Vec::new()))
}

fn range_at(line: u32) -> Range {
    Range {
        start: Position { line, column: 1 },
        end: Position { line, column: 5 },
        start_byte: (line - 1) * 10,
        end_byte: (line - 1) * 10 + 4,
    }
}

fn slot_with_history(name: &str, bindings: Vec<HistoryBinding>) -> VariableContent {
    let mut slot = VariableContent::new(name.to_string());
    slot.value_history = vec![ResolvedValue { bindings: Some(bindings) }];
    slot
}

#[test]
fn exit_scope_restores_the_previous_cursor() {
    let mut state = empty_state();
    let scope = state.register_pattern_definition("my-pattern");
    let before = state.current_scope();
    let tracker = state.enter_scope(scope, &Vec::new());
    assert_eq!(state.current_scope(), scope);
    state.exit_scope(tracker);
    assert_eq!(state.current_scope(), before);
}

#[test]
fn nested_scopes_unwind_in_order() {
    let mut state = empty_state();
    let s1 = state.register_pattern_definition("one");
    let s2 = state.register_pattern_definition("two");
    let t1 = state.enter_scope(s1, &Vec::new());
    let t2 = state.enter_scope(s2, &Vec::new());
    assert_eq!(state.current_scope(), s2);
    state.exit_scope(t2);
    assert_eq!(state.current_scope(), s1);
    state.exit_scope(t1);
    assert_eq!(state.current_scope(), 0);
}

#[test]
fn register_var_twice_returns_the_same_address() {
    let mut state = empty_state();
    let first = state.register_var("x");
    let second = state.register_var("x");
    assert_eq!(first, second);
    assert_eq!(first, VariableScope::new(0, 0));
}

#[test]
fn register_var_with_fresh_names_returns_increasing_indices() {
    let mut state = empty_state();
    let x = state.register_var("x");
    let y = state.register_var("y");
    let z = state.register_var("z");
    assert_eq!(x, VariableScope::new(0, 0));
    assert_eq!(y, VariableScope::new(0, 1));
    assert_eq!(z, VariableScope::new(0, 2));
}

#[test]
fn find_var_returns_none_for_unknown_names() {
    let mut state = empty_state();
    state.register_var("x");
    assert_eq!(state.find_var("never-registered"), None);
}

#[test]
fn find_var_prefers_the_most_recently_allocated_scope() {
    let bindings: VarRegistry = vec![
        vec![vec![VariableContent::new("x".to_string())]],
        vec![vec![VariableContent::new("x".to_string())]],
    ];
    let state = State::new(bindings, FileRegistry::new_from_paths(Vec::new()));
    assert_eq!(state.find_var("x"), Some(Variable::new(1, 0)));
}

#[test]
fn find_var_in_scope_sees_only_the_current_scope() {
    let mut state = empty_state();
    state.register_var("x");
    let scope = state.register_pattern_definition("p");
    let tracker = state.enter_scope(scope, &Vec::new());
    assert_eq!(state.find_var_in_scope("x"), None);
    assert_eq!(state.find_var("x"), Some(Variable::new(0, 0)));
    state.exit_scope(tracker);
    assert_eq!(state.find_var_in_scope("x"), Some(Variable::new(0, 0)));
}

#[test]
fn register_pattern_definition_is_idempotent() {
    let mut state = empty_state();
    let a = state.register_pattern_definition("p");
    let b = state.register_pattern_definition("q");
    assert_eq!(a, 1);
    assert_eq!(b, 2);
    assert_eq!(state.register_pattern_definition("p"), a);
    assert_eq!(state.register_pattern_definition("q"), b);
}

#[test]
fn get_name_reads_the_registered_slot() {
    let mut state = empty_state();
    let vs = state.register_var("my_var");
    assert_eq!(state.get_name(&Variable::new(vs.scope, vs.index)), "my_var");
}

#[test]
fn trace_var_follows_alias_chains_to_the_root() {
    let mut root = VariableContent::new("root".to_string());
    root.pattern = None;
    let mut alias = VariableContent::new("alias".to_string());
    alias.pattern = Some(Pattern::Variable(Variable::new(0, 0)));
    let mut alias2 = VariableContent::new("alias2".to_string());
    alias2.pattern = Some(Pattern::Variable(Variable::new(0, 1)));
    let bindings: VarRegistry = vec![vec![vec![root, alias, alias2]]];
    let state = State::new(bindings, FileRegistry::new_from_paths(Vec::new()));
    assert_eq!(state.trace_var(&Variable::new(0, 2)), Variable::new(0, 0));
    assert_eq!(state.trace_var(&Variable::new(0, 1)), Variable::new(0, 0));
    assert_eq!(state.trace_var(&Variable::new(0, 0)), Variable::new(0, 0));
    let mut state = state;
    assert_eq!(state.trace_var_mut(&Variable::new(0, 2)), Variable::new(0, 0));
}

#[test]
fn enter_scope_attaches_arguments_and_resets_values() {
    let mut state = empty_state();
    state.register_var("a");
    state.register_var("b");
    let args = vec![Some(Pattern::Variable(Variable::new(0, 1)))];
    let tracker = state.enter_scope(0, &args);
    // The new frame aliases slot "a" to the argument variable and keeps names.
    assert_eq!(state.find_var_in_scope("a"), Some(Variable::new(0, 0)));
    assert_eq!(state.trace_var(&Variable::new(0, 0)), Variable::new(0, 1));
    state.exit_scope(tracker);
}

#[test]
fn enter_scope_resets_values_and_keeps_names() {
    let mut bound = VariableContent::new("a".to_string());
    bound.value = Some(ResolvedValue { bindings: None });
    bound.value_history = vec![ResolvedValue { bindings: None }];
    let bindings: VarRegistry = vec![vec![vec![bound]]];
    let mut state = State::new(bindings, FileRegistry::new_from_paths(Vec::new()));
    let arg = Variable::new(0, 0);
    let args = vec![Some(Pattern::Variable(arg))];
    let _tracker = state.enter_scope(0, &args);
    let frame = state.bindings[0].last().unwrap();
    assert_eq!(frame.len(), 1);
    assert_eq!(frame[0].name, "a");
    assert!(frame[0].value.is_none());
    assert!(frame[0].value_history.is_empty());
    // The argument names the slot's own address, so the back-reference
    // lands on the new slot itself.
    assert_eq!(frame[0].mirrors, vec![Variable::new(0, 0)]);
    assert_eq!(frame[0].pattern, Some(Pattern::Variable(arg)));
    // The frame pushed by enter_scope is kept as history.
    assert_eq!(state.bindings[0].len(), 2);
}

#[test]
fn argument_variable_records_the_new_slot_as_mirror() {
    let target = VariableContent::new("target".to_string());
    let param = VariableContent::new("p".to_string());
    let bindings: VarRegistry = vec![vec![vec![target]], vec![vec![param]]];
    let mut state = State::new(bindings, FileRegistry::new_from_paths(Vec::new()));
    let args = vec![Some(Pattern::Variable(Variable::new(0, 0)))];
    let tracker = state.enter_scope(1, &args);
    // The aliased-to variable records the receiving slot as a mirror...
    assert_eq!(state.bindings[0].last().unwrap()[0].mirrors, vec![Variable::new(1, 0)]);
    // ...while the receiving slot carries the alias pattern and only its
    // inherited mirrors.
    assert!(state.bindings[1].last().unwrap()[0].mirrors.is_empty());
    assert_eq!(
        state.bindings[1].last().unwrap()[0].pattern,
        Some(Pattern::Variable(Variable::new(0, 0)))
    );
    state.exit_scope(tracker);
}

#[test]
fn two_states_draw_identical_random_sequences() {
    let mut a = empty_state();
    let mut b = empty_state();
    let draws_a: Vec<u64> = (0..8).map(|_| a.next_random()).collect();
    let draws_b: Vec<u64> = (0..8).map(|_| b.next_random()).collect();
    assert_eq!(draws_a, draws_b);
    // The generator is seeded, not echoed: draws differ from the seed and
    // from each other.
    assert_ne!(draws_a[0], grit_state::state::STATE_RNG_SEED);
    assert_ne!(draws_a[0], draws_a[1]);
}

#[test]
fn get_rng_exposes_the_same_deterministic_generator() {
    let mut a = empty_state();
    let mut b = empty_state();
    assert_eq!(a.get_rng().next_u64(), b.next_random());
    assert_eq!(a.next_random(), b.get_rng().next_u64());
}

#[test]
fn history_reports_positions_per_variable() {
    let slot = slot_with_history(
        "x",
        vec![
            HistoryBinding { suppressed: false, position: Some(range_at(1)) },
            HistoryBinding { suppressed: false, position: None },
        ],
    );
    let bindings: VarRegistry = vec![vec![vec![slot]]];
    let state = State::new(bindings, FileRegistry::new_from_paths(Vec::new()));
    let (matches, top_level, suppressed) = state.bindings_history_to_ranges();
    assert_eq!(matches.len(), 1);
    assert_eq!(matches[0].name, "x");
    assert_eq!(matches[0].scoped_name, "0_0_x");
    assert_eq!(matches[0].ranges, vec![range_at(1)]);
    assert!(top_level.is_empty());
    assert!(!suppressed);
}

#[test]
fn fully_suppressed_variable_is_excluded_and_sets_the_flag() {
    let suppressed_slot = slot_with_history(
        "x",
        vec![
            HistoryBinding { suppressed: true, position: Some(range_at(1)) },
            HistoryBinding { suppressed: true, position: Some(range_at(2)) },
        ],
    );
    let plain_slot = slot_with_history(
        "y",
        vec![HistoryBinding { suppressed: false, position: Some(range_at(3)) }],
    );
    let bindings: VarRegistry = vec![vec![vec![suppressed_slot, plain_slot]]];
    let state = State::new(bindings, FileRegistry::new_from_paths(Vec::new()));
    let (matches, top_level, suppressed) = state.bindings_history_to_ranges();
    assert_eq!(matches.len(), 1);
    assert_eq!(matches[0].name, "y");
    assert!(top_level.is_empty());
    assert!(suppressed);
}

#[test]
fn top_level_positions_clear_the_suppressed_flag() {
    let suppressed_slot = slot_with_history(
        "x",
        vec![HistoryBinding { suppressed: true, position: Some(range_at(1)) }],
    );
    let match_slot = slot_with_history(
        "$match",
        vec![HistoryBinding { suppressed: false, position: Some(range_at(2)) }],
    );
    let bindings: VarRegistry = vec![vec![vec![suppressed_slot, match_slot]]];
    let state = State::new(bindings, FileRegistry::new_from_paths(Vec::new()));
    let (matches, top_level, suppressed) = state.bindings_history_to_ranges();
    // The whole-match variable reports only through the top-level list.
    assert!(matches.is_empty());
    assert_eq!(top_level, vec![range_at(2)]);
    assert!(!suppressed);
}

#[test]
fn whole_match_variable_gets_no_per_name_entry() {
    let match_slot = slot_with_history(
        "$match",
        vec![HistoryBinding { suppressed: false, position: Some(range_at(1)) }],
    );
    let named_slot = slot_with_history(
        "x",
        vec![HistoryBinding { suppressed: false, position: Some(range_at(2)) }],
    );
    let bindings: VarRegistry = vec![vec![vec![match_slot, named_slot]]];
    let state = State::new(bindings, FileRegistry::new_from_paths(Vec::new()));
    let (matches, top_level, suppressed) = state.bindings_history_to_ranges();
    assert_eq!(matches.len(), 1);
    assert_eq!(matches[0].name, "x");
    assert_eq!(top_level, vec![range_at(1)]);
    assert!(!suppressed);
}

#[test]
fn partially_suppressed_variable_keeps_its_other_positions() {
    let slot = slot_with_history(
        "x",
        vec![
            HistoryBinding { suppressed: true, position: Some(range_at(1)) },
            HistoryBinding { suppressed: false, position: Some(range_at(2)) },
        ],
    );
    let bindings: VarRegistry = vec![vec![vec![slot]]];
    let state = State::new(bindings, FileRegistry::new_from_paths(Vec::new()));
    let (matches, _top_level, suppressed) = state.bindings_history_to_ranges();
    assert_eq!(matches.len(), 1);
    assert_eq!(matches[0].ranges, vec![range_at(2)]);
    assert!(!suppressed);
}
