use grit_state::effects::{ByteRange, Effect, EffectBinding, EffectKind};
use grit_state::error::StateError;
use grit_state::ranges::CodeRange;

const SRC: usize = 0xbeef;

fn effect(start: u32, end: u32) -> Effect {
    Effect {
        binding: EffectBinding {
            source: Some(SRC),
            code_range: Some(CodeRange { start, end, address: SRC }),
            byte_range: Some(ByteRange { start: start as usize, end: end as usize }),
        },
        rewrite: format!("rewrite[{}..{}]", start, end),
        kind: EffectKind::Rewrite,
    }
}

fn whole_range() -> CodeRange {
    CodeRange { start: 0, end: 100, address: SRC }
}

#[test]
fn disjoint_effects_are_both_kept_in_ascending_order() {
    let effects = vec![effect(10, 15), effect(0, 5)];
    let memo = Vec::new();
    let mut logs = Vec::new();
    let out = grit_state::effects::get_top_level_effects(&effects, &memo, &whole_range(), &mut logs)
        .unwrap();
    assert_eq!(out.len(), 2);
    assert_eq!(out[0], effect(0, 5));
    assert_eq!(out[1], effect(10, 15));
    assert!(logs.is_empty());
}

#[test]
fn nested_effect_is_discarded_in_favor_of_its_container() {
    let effects = vec![effect(0, 10), effect(2, 5)];
    let memo = Vec::new();
    let mut logs = Vec::new();
    let out = grit_state::effects::get_top_level_effects(&effects, &memo, &whole_range(), &mut logs)
        .unwrap();
    assert_eq!(out, vec![effect(0, 10)]);
}

#[test]
fn partially_overlapping_effects_are_an_error() {
    let effects = vec![effect(0, 5), effect(3, 8)];
    let memo = Vec::new();
    let mut logs = Vec::new();
    let err = grit_state::effects::get_top_level_effects(&effects, &memo, &whole_range(), &mut logs)
        .unwrap_err();
    assert_eq!(err, StateError::OverlappingEffects);
    assert_eq!(err.message(), "effects have overlapping ranges");
}

#[test]
fn memoized_suppressed_effect_is_dropped() {
    let effects = vec![effect(0, 5), effect(10, 15)];
    let memo = vec![(CodeRange { start: 0, end: 5, address: SRC }, None)];
    let mut logs = Vec::new();
    let out = grit_state::effects::get_top_level_effects(&effects, &memo, &whole_range(), &mut logs)
        .unwrap();
    assert_eq!(out, vec![effect(10, 15)]);
}

#[test]
fn memo_entry_with_replacement_does_not_suppress() {
    let effects = vec![effect(0, 5)];
    let memo = vec![(
        CodeRange { start: 0, end: 5, address: SRC },
        Some("pending".to_string()),
    )];
    let mut logs = Vec::new();
    let out = grit_state::effects::get_top_level_effects(&effects, &memo, &whole_range(), &mut logs)
        .unwrap();
    assert_eq!(out, vec![effect(0, 5)]);
}

#[test]
fn kept_effect_without_byte_range_is_an_error() {
    let mut broken = effect(0, 5);
    broken.binding.byte_range = None;
    let effects = vec![broken];
    let memo = Vec::new();
    let mut logs = Vec::new();
    let err = grit_state::effects::get_top_level_effects(&effects, &memo, &whole_range(), &mut logs)
        .unwrap_err();
    assert_eq!(err, StateError::BindingWithoutRange);
    assert_eq!(err.message(), "binding has no range");
}

#[test]
fn effect_without_code_range_is_logged_and_dropped() {
    let mut empty_field = effect(0, 5);
    empty_field.binding.code_range = None;
    let effects = vec![empty_field, effect(10, 15)];
    let memo = Vec::new();
    let mut logs = Vec::new();
    let out = grit_state::effects::get_top_level_effects(&effects, &memo, &whole_range(), &mut logs)
        .unwrap();
    assert_eq!(out, vec![effect(10, 15)]);
    assert_eq!(logs, vec!["empty field rewrite".to_string()]);
}

#[test]
fn effect_without_source_is_silently_dropped() {
    let mut detached = effect(0, 5);
    detached.binding.source = None;
    let effects = vec![detached, effect(10, 15)];
    let memo = Vec::new();
    let mut logs = Vec::new();
    let out = grit_state::effects::get_top_level_effects(&effects, &memo, &whole_range(), &mut logs)
        .unwrap();
    assert_eq!(out, vec![effect(10, 15)]);
    assert!(logs.is_empty());
}

#[test]
fn effect_on_another_source_is_dropped() {
    let mut other = effect(0, 5);
    other.binding.source = Some(SRC + 1);
    let effects = vec![other, effect(10, 15)];
    let memo = Vec::new();
    let mut logs = Vec::new();
    let out = grit_state::effects::get_top_level_effects(&effects, &memo, &whole_range(), &mut logs)
        .unwrap();
    assert_eq!(out, vec![effect(10, 15)]);
}

#[test]
fn effect_outside_the_bounding_range_is_dropped() {
    let effects = vec![effect(0, 5), effect(10, 15)];
    let memo = Vec::new();
    let narrow = CodeRange { start: 8, end: 100, address: SRC };
    let mut logs = Vec::new();
    let out =
        grit_state::effects::get_top_level_effects(&effects, &memo, &narrow, &mut logs).unwrap();
    assert_eq!(out, vec![effect(10, 15)]);
}

#[test]
fn interval_reports_start_and_end() {
    let er = grit_state::effects::EffectRange { start: 3, end: 9, effect: effect(3, 9) };
    assert_eq!(er.interval(), (3, 9));
}

#[test]
fn code_range_contains_and_applies_to() {
    let r = CodeRange::new(2, 6, SRC);
    assert!(r.applies_to(SRC));
    assert!(!r.applies_to(SRC + 1));
    assert!(r.contains(2));
    assert!(r.contains(5));
    assert!(!r.contains(6));
}
