use brass_engine::animation::evaluate_transitions;
use brass_engine::{Animator, AnimatorParams, Transition, TransitionCondition};

#[test]
fn params_bools_and_triggers() {
    let mut p = AnimatorParams::new();
    assert!(!p.get_bool("grounded"));
    p.set_bool("grounded", true);
    assert!(p.get_bool("grounded"));
    p.set_bool("grounded", false);
    assert!(!p.get_bool("grounded"));
    p.set_trigger("jump");
    assert!(p.consume_trigger("jump"));
    assert!(!p.consume_trigger("jump"));
    p.set_trigger("a");
    p.set_trigger("b");
    p.clear_triggers();
    assert!(!p.consume_trigger("a") && !p.consume_trigger("b"));
}

#[test]
fn transitions_by_priority() {
    let mut p = AnimatorParams::default();
    p.set_bool("moving", true);
    let ts = vec![
        Transition::new("walk", TransitionCondition::BoolIs { param: "moving".to_string(), expected: true }),
        Transition::new("run", TransitionCondition::Measured { holds: true }).priority(5),
        Transition::new("fall", TransitionCondition::OnFinish).priority(9),
    ];
    assert_eq!(evaluate_transitions(&mut p, false, &ts), Some(1));
    assert_eq!(evaluate_transitions(&mut p, true, &ts), Some(2));
    let none = vec![Transition::new("x", TransitionCondition::Measured { holds: false })];
    assert_eq!(evaluate_transitions(&mut p, true, &none), None);
}

#[test]
fn equal_priorities_keep_order_and_trigger_is_consumed() {
    let mut p = AnimatorParams::new();
    p.set_trigger("attack");
    let ts = vec![
        Transition::new("a", TransitionCondition::Trigger { param: "attack".to_string() }),
        Transition::new("b", TransitionCondition::Measured { holds: true }),
    ];
    assert_eq!(evaluate_transitions(&mut p, false, &ts), Some(0));
    assert!(!p.consume_trigger("attack"));
    assert_eq!(evaluate_transitions(&mut p, false, &ts), Some(1));
}

#[test]
fn animator_frames_and_states() {
    let mut a = Animator::new("idle");
    assert_eq!(a.current_state(), "idle");
    assert!(!a.set_state("idle"));
    assert!(!a.advance_frame(3, true));
    assert!(!a.advance_frame(3, true));
    assert_eq!(a.shown_frame(3), 2);
    assert!(!a.advance_frame(3, true));
    assert_eq!(a.shown_frame(3), 0);
    assert!(a.set_state("jump"));
    assert!(!a.advance_frame(2, false));
    assert!(a.advance_frame(2, false));
    assert!(a.is_finished());
    assert_eq!(a.shown_frame(2), 1);
    assert_eq!(a.shown_frame(1), 0);
}

#[test]
fn animator_takes_transition() {
    let mut a = Animator::new("attack");
    a.params.set_trigger("hit");
    a.params.set_trigger("other");
    a.advance_frame(1, false);
    assert!(a.is_finished());
    let ts = vec![Transition::new("idle", TransitionCondition::OnFinish)];
    assert_eq!(a.take_transition(&ts), Some(0));
    assert_eq!(a.current_state(), "idle");
    assert!(!a.is_finished());
    assert!(!a.params.consume_trigger("hit"));
    assert!(!a.params.consume_trigger("other"));
    assert_eq!(a.take_transition(&ts), None);
    assert_eq!(a.current_state(), "idle");
}

#[test]
fn animator_parameter_accessors() {
    let mut a = Animator::new("idle");
    a.set_bool("grounded", true);
    a.set_trigger("jump");
    assert!(a.params().get_bool("grounded"));
    assert!(!a.params().get_bool("falling"));
    assert!(!a.is_paused());
    a.set_paused(true);
    assert!(a.is_paused());
    let ts = vec![Transition::new("jump", TransitionCondition::Trigger { param: "jump".to_string() })];
    assert_eq!(a.take_transition(&ts), Some(0));
    assert_eq!(a.current_state(), "jump");
    assert!(a.params().get_bool("grounded"));
}
