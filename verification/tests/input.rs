//! Actions, bindings and edges.
use aurora::input::{
    input_code, input_name, Devices, Input, AXIS_LEFT_TRIGGER, AXIS_LEFT_Y, FULL, INPUT_CODE_MAX,
    MOUSE_CODE_BASE, PAD_CODE_BASE, PAD_INPUTS,
};

const ACT: i64 = 1;
const OTHER: i64 = 2;
const KEY_A: i64 = 40;
const KEY_B: i64 = 41;
const FORWARD: i64 = 10;
const BACK: i64 = 11;
const DODGE: i64 = 12;
const PAD_A: i64 = 200;

fn fresh() -> Input {
    Input::new(0.5f64.to_bits())
}

/// What the keyboard answers for the keys these tests name.
fn key(name: &str) -> Option<u32> {
    match name {
        "KeyS" => Some(18),
        "KeyW" => Some(22),
        "Space" => Some(36),
        _ => None,
    }
}

fn code(name: &str) -> i64 {
    let c = input_code(name, key(name));
    assert!(c >= 0, "no input code named {name}");
    c
}

fn name_of(c: i64) -> String {
    input_name(c, "")
}

fn value(i: &Input, action: i64) -> f64 {
    f64::from_bits(i.input_value(action))
}

fn axis(i: &Input, negative: i64, positive: i64) -> f64 {
    value(i, positive) - value(i, negative)
}

fn inject_key(i: &mut Input, code: i64, down: i64) {
    i.now.inject_code(code, down != 0);
}

fn inject_axis(i: &mut Input, axis: usize, v: f64) {
    i.now.inject_axis(axis, v.to_bits());
}

#[test]
fn a_press_arriving_after_the_boundary_is_still_an_edge() {
    let mut i = fresh();
    i.input_bind(ACT, KEY_A);

    // A frame in which nothing is held, ended properly.
    assert_eq!(i.input_pressed(ACT), 0, "nothing is held yet");
    i.input_step();

    // The key goes down HERE - after the boundary, where a real key's event
    // lands, because presenting is what pumps the event loop.
    inject_key(&mut i, KEY_A, 1);
    assert_eq!(
        i.input_pressed(ACT),
        1,
        "a key that went down after the last boundary must read as pressed"
    );

    // And it is one press, not sixty.
    i.input_step();
    assert_eq!(
        i.input_pressed(ACT),
        0,
        "a held key must not read as pressed again"
    );
    assert_eq!(i.input_down(ACT), 1, "it is still down");
}

#[test]
fn a_release_arriving_after_the_boundary_is_still_an_edge() {
    let mut i = fresh();
    i.input_bind(ACT, KEY_A);
    inject_key(&mut i, KEY_A, 1);
    i.input_step();

    inject_key(&mut i, KEY_A, 0);
    assert_eq!(
        i.input_released(ACT),
        1,
        "a key that came up after the last boundary must read as released"
    );
    i.input_step();
    assert_eq!(i.input_released(ACT), 0, "and only once");
}

#[test]
fn a_held_button_is_one_press() {
    let mut i = fresh();
    i.input_bind(ACT, KEY_A);

    inject_key(&mut i, KEY_A, 1);
    assert_eq!(i.input_pressed(ACT), 1, "the press was missed");
    // Asked twice in the same frame, it must answer the same. A read that
    // consumed the edge would make the order of two callers matter.
    assert_eq!(i.input_pressed(ACT), 1, "the edge was consumed by a read");

    i.input_step();
    assert_eq!(i.input_down(ACT), 1, "the key is still held");
    assert_eq!(i.input_pressed(ACT), 0, "a hold reported a second press");

    inject_key(&mut i, KEY_A, 0);
    assert_eq!(i.input_released(ACT), 1);
    assert_eq!(i.input_pressed(ACT), 0);
    i.input_step();
    assert_eq!(i.input_released(ACT), 0, "a release repeated");

    // And it can happen again.
    inject_key(&mut i, KEY_A, 1);
    assert_eq!(i.input_pressed(ACT), 1);
}

#[test]
fn rebinding_under_a_held_key_does_not_fire() {
    let mut i = fresh();
    i.input_bind(ACT, KEY_A);
    inject_key(&mut i, KEY_B, 1);
    i.input_step();
    assert_eq!(i.input_pressed(ACT), 0);

    // B was already down when the action moved onto it.
    i.input_bind(ACT, KEY_B);
    assert_eq!(i.input_pressed(ACT), 0, "rebinding onto a held key fired it");
}

#[test]
fn unsuppressing_a_held_action_does_not_fire_it() {
    let mut i = fresh();
    i.input_bind(ACT, KEY_A);
    inject_key(&mut i, KEY_A, 1);
    i.input_step();

    i.input_suppress(true);
    assert_eq!(i.input_pressed(ACT), 0, "suppressed input reported a press");
    assert_eq!(i.input_down(ACT), 0);
    // Frames pass while paused.
    i.input_step();
    i.input_step();
    i.input_suppress(false);
    assert_eq!(
        i.input_pressed(ACT),
        0,
        "unpausing fired the button that was already held"
    );
    assert_eq!(i.input_down(ACT), 1);
}

#[test]
fn an_unbound_action_is_never_pressed() {
    let mut i = fresh();
    i.input_bind(ACT, KEY_A);
    inject_key(&mut i, KEY_A, 1);
    assert_eq!(i.input_pressed(OTHER), 0);
    assert_eq!(i.input_released(OTHER), 0);
}

#[test]
fn every_pad_input_round_trips_through_its_name() {
    let names = [
        "PadA", "PadB", "PadX", "PadY", "PadLB", "PadRB", "PadBack", "PadStart", "PadLS",
        "PadRS", "PadUp", "PadDown", "PadLeft", "PadRight", "PadLT", "PadRT",
        "PadLeftStickUp", "PadLeftStickDown", "PadLeftStickRight", "PadLeftStickLeft",
        "PadRightStickUp", "PadRightStickDown", "PadRightStickRight", "PadRightStickLeft",
    ];
    assert_eq!(names.len() as i64, PAD_INPUTS);
    for n in names.iter() {
        let c = code(n);
        assert_eq!(&name_of(c), n, "{n} did not survive a round trip");
    }
    // And a name nothing answers to is -1 rather than something plausible.
    assert_eq!(input_code("PadTurbo", None), -1);
    assert_eq!(name_of(INPUT_CODE_MAX), "");
    assert_eq!(name_of(-1), "");
}

#[test]
fn an_action_answers_to_the_keyboard_and_the_pad_at_once() {
    let mut i = fresh();
    let key = code("Space");
    let pad_a = code("PadA");
    i.input_bind(DODGE, key);
    i.input_bind_also(DODGE, pad_a);
    assert_eq!(i.input_binding_count(DODGE), 2);
    // The PRIMARY is still the key, so `input_binding` and every existing
    // caller of it are unchanged.
    assert_eq!(i.input_binding(DODGE), key);
    assert_eq!(i.input_binding_at(DODGE, 1), pad_a);
    assert_eq!(i.input_binding_at(DODGE, 2), -1);

    assert_eq!(i.input_down(DODGE), 0);
    i.now.inject_code(PAD_A, true);
    assert_eq!(i.input_down(DODGE), 1, "the pad did not fire the action");
    i.now.inject_code(PAD_A, false);
    assert_eq!(i.input_down(DODGE), 0);
    inject_key(&mut i, key, 1);
    assert_eq!(i.input_down(DODGE), 1, "the key stopped firing it");
    inject_key(&mut i, key, 0);

    // Binding again REPLACES, so a rebind screen does not accumulate.
    i.input_bind(DODGE, pad_a);
    assert_eq!(i.input_binding_count(DODGE), 1);
    // And an alternate cannot be added twice - a setup function called on
    // every room transition would otherwise grow the list forever.
    i.input_bind_also(DODGE, key);
    i.input_bind_also(DODGE, key);
    assert_eq!(i.input_binding_count(DODGE), 2);
}

#[test]
fn a_stick_gives_a_movement_axis_between_zero_and_one() {
    let mut i = fresh();
    i.input_bind(FORWARD, code("KeyW"));
    i.input_bind_also(FORWARD, code("PadLeftStickUp"));
    i.input_bind(BACK, code("KeyS"));
    i.input_bind_also(BACK, code("PadLeftStickDown"));

    assert_eq!(axis(&i, BACK, FORWARD), 0.0);

    // A third of the way forward is a third, not "forward".
    inject_axis(&mut i, AXIS_LEFT_Y, 0.33);
    let v = axis(&i, BACK, FORWARD);
    assert!((v - 0.33).abs() < 1e-9, "a stick a third forward asked for {v}");
    // And it does not read as HELD - a walk is not a press.
    assert_eq!(
        i.input_down(FORWARD),
        0,
        "a third of a stick counted as holding the key down"
    );

    // Past the digital threshold it is both: analog for movement, held for
    // anything that only asks yes or no.
    inject_axis(&mut i, AXIS_LEFT_Y, 1.0);
    assert!((axis(&i, BACK, FORWARD) - 1.0).abs() < 1e-9);
    assert_eq!(i.input_down(FORWARD), 1);

    // The other half of the same axis is the opposing action, and gives
    // NOTHING while the stick is pushed forward.
    assert_eq!(value(&i, BACK), 0.0);
    inject_axis(&mut i, AXIS_LEFT_Y, -0.5);
    assert!((axis(&i, BACK, FORWARD) + 0.5).abs() < 1e-9);
    assert_eq!(value(&i, FORWARD), 0.0);

    // A KEY on the same action is still worth exactly 1.0.
    inject_axis(&mut i, AXIS_LEFT_Y, 0.0);
    inject_key(&mut i, code("KeyW"), 1);
    assert!((axis(&i, BACK, FORWARD) - 1.0).abs() < 1e-9);
    // ...and the LARGEST wins rather than the last one read.
    inject_axis(&mut i, AXIS_LEFT_Y, 0.2);
    assert!((value(&i, FORWARD) - 1.0).abs() < 1e-9);
    inject_key(&mut i, code("KeyW"), 0);
}

#[test]
fn a_trigger_is_analog_and_needs_a_deliberate_pull() {
    let mut i = fresh();
    let lt = code("PadLT");
    i.input_bind(DODGE, lt);
    inject_axis(&mut i, AXIS_LEFT_TRIGGER, 0.2);
    assert!((value(&i, DODGE) - 0.2).abs() < 1e-9);
    assert_eq!(i.input_down(DODGE), 0, "a fifth of a trigger counted as a press");
    inject_axis(&mut i, AXIS_LEFT_TRIGGER, 0.9);
    assert_eq!(i.input_down(DODGE), 1);
}

#[test]
fn two_inputs_on_one_action_are_still_one_press() {
    let mut i = fresh();
    let key = code("Space");
    let pad_a = code("PadA");
    i.input_bind(DODGE, key);
    i.input_bind_also(DODGE, pad_a);
    i.input_step();
    assert_eq!(i.input_pressed(DODGE), 0);

    inject_key(&mut i, key, 1);
    assert_eq!(i.input_pressed(DODGE), 1, "the key press was missed");
    i.input_step();
    assert_eq!(i.input_pressed(DODGE), 0, "a held key pressed twice");

    // The pad joins in while the key is still held: no second press.
    i.now.inject_code(PAD_A, true);
    assert_eq!(
        i.input_pressed(DODGE),
        0,
        "a second input on a held action manufactured a press"
    );
    // And the action is not RELEASED until both are up.
    i.input_step();
    inject_key(&mut i, key, 0);
    assert_eq!(
        i.input_released(DODGE),
        0,
        "letting go of one of two inputs released the action"
    );
    i.input_step();
    i.now.inject_code(PAD_A, false);
    assert_eq!(i.input_released(DODGE), 1);
}

#[test]
fn the_edge_snapshot_covers_the_highest_input_code() {
    let mut i = fresh();
    let last = PAD_CODE_BASE + PAD_INPUTS - 1;
    assert!(
        i.prev.len() as i64 > last,
        "the snapshot is {} codes and the codes run to {last}",
        i.prev.len()
    );
    i.input_bind(DODGE, last);
    i.input_step();
    // Injected through the ACTION, which is what proves `inject_code` knows
    // a pad code from a key.
    i.inject_action(DODGE, true);
    assert_eq!(i.input_down(DODGE), 1, "inject_action missed a pad code");
    assert_eq!(i.input_pressed(DODGE), 1);
    i.input_step();
    assert_eq!(i.input_pressed(DODGE), 0);
    i.inject_action(DODGE, false);
    assert_eq!(i.input_released(DODGE), 1);
}

#[test]
fn suppression_covers_the_controller() {
    let mut i = fresh();
    i.input_bind(FORWARD, code("PadLeftStickUp"));
    inject_axis(&mut i, AXIS_LEFT_Y, 1.0);
    assert_eq!(i.input_down(FORWARD), 1);
    i.input_suppress(true);
    assert_eq!(i.input_down(FORWARD), 0);
    assert_eq!(value(&i, FORWARD), 0.0);
    assert_eq!(axis(&i, BACK, FORWARD), 0.0);
    i.input_suppress(false);
    assert_eq!(i.input_down(FORWARD), 1);
}

/// With nothing plugged in, an action on the pad is nothing, and so is one that
/// nothing is bound to.
#[test]
fn a_pad_that_is_not_there_gives_nothing() {
    let mut i = fresh();
    i.input_bind(FORWARD, code("PadLeftStickUp"));
    assert_eq!(value(&i, FORWARD), 0.0);
    // And an unbound action is nothing, not a panic on an empty list.
    assert_eq!(value(&i, 999), 0.0);
    assert_eq!(i.input_down(999), 0);
    assert_eq!(i.input_binding(999), -1);
    assert_eq!(i.input_binding_count(999), 0);
    assert_eq!(i.input_binding_at(999, -1), -1);
}

#[test]
fn mouse_names_are_theirs_and_keys_come_from_the_keyboard() {
    assert_eq!(code("MouseLeft"), MOUSE_CODE_BASE);
    assert_eq!(code("MouseForward"), MOUSE_CODE_BASE + 4);
    assert_eq!(input_name(MOUSE_CODE_BASE + 2, "x"), "MouseMiddle");
    assert_eq!(input_name(MOUSE_CODE_BASE + 5, "x"), "");
    assert_eq!(input_name(36, "Space"), "Space");
    assert_eq!(code("Space"), 36);
}

/// A level drives an analog input part of the way and a digital one all or nothing.
#[test]
fn a_level_reaches_what_the_code_reads() {
    let half = 0.5f64.to_bits();
    let mut d = Devices::new();
    d.inject_input(PAD_A, 0.49f64.to_bits(), half);
    assert_eq!(d.code_value(PAD_A), 0);
    d.inject_input(PAD_A, 0.5f64.to_bits(), half);
    assert_eq!(d.code_value(PAD_A), FULL);
    let up = code("PadLeftStickUp");
    let down = code("PadLeftStickDown");
    d.inject_input(down, 0.25f64.to_bits(), half);
    assert_eq!(f64::from_bits(d.code_value(down)), 0.25);
    assert_eq!(d.code_value(up), 0);
    d.inject_input(up, 7.0f64.to_bits(), half);
    assert_eq!(d.code_value(up), FULL, "held to one");
    assert_eq!(d.code_value(down), 0, "the other half fell to nothing");
    d.inject_input(up, (-1.0f64).to_bits(), half);
    assert_eq!(d.code_value(up), 0, "below nothing is nothing");
    assert_eq!(d.code_value(INPUT_CODE_MAX), 0);
    assert_eq!(d.code_value(-1), 0);
}

#[test]
fn binding_twice_leaves_one() {
    let mut i = fresh();
    i.input_bind_also(ACT, KEY_A);
    i.input_bind_also(ACT, KEY_B);
    i.input_bind_also(ACT, KEY_A);
    assert_eq!(i.input_binding_count(ACT), 2);
    assert_eq!((i.input_binding_at(ACT, 0), i.input_binding_at(ACT, 1)), (KEY_A, KEY_B));
}

#[test]
fn an_injected_action_is_held() {
    let mut i = fresh();
    i.inject_action(ACT, true);
    assert_eq!(i.input_down(ACT), 0, "an unbound action is left alone");
    i.input_bind(ACT, PAD_A);
    i.inject_action(ACT, true);
    assert_eq!((i.input_down(ACT), i.input_pressed(ACT)), (1, 1));
    i.input_step();
    i.inject_action(ACT, true);
    assert_eq!((i.input_down(ACT), i.input_pressed(ACT)), (1, 0));
    i.inject_action(ACT, false);
    assert_eq!((i.input_down(ACT), i.input_released(ACT)), (0, 1));
}

/// What is not a number presses nothing and leaves an axis at rest.
#[test]
fn what_is_not_a_number_counts_as_nothing() {
    let half = 0.5f64.to_bits();
    let (up, down) = (code("PadLeftStickUp"), code("PadLeftStickDown"));
    for nan in [f64::NAN.to_bits(), (-f64::NAN).to_bits()] {
        let mut d = Devices::new();
        for c in [PAD_A, KEY_A, up, down] {
            d.inject_input(c, FULL, half);
            assert_eq!(d.code_value(c), FULL);
            d.inject_input(c, nan, half);
            assert_eq!(d.code_value(c), 0);
        }
        d.inject_axis(AXIS_LEFT_Y, nan);
        assert_eq!((d.code_value(up), d.code_value(down)), (0, 0));
    }
    let mut d = Devices::new();
    d.inject_input(up, f64::INFINITY.to_bits(), half);
    assert_eq!(d.code_value(up), FULL);
}
