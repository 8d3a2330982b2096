//! Rebindable input: a program binds actions to input codes and asks about
//! actions. Codes below 100 are keys, from 100 on mouse buttons, from 200 on
//! controller inputs.
use std::collections::HashMap;
use vstd::prelude::*;
use vstd::string::*;

verus! {

broadcast use vstd::std_specs::hash::group_hash_axioms;

/// The first mouse-button code.
pub const MOUSE_CODE_BASE: i64 = 100;

/// The first controller code.
pub const PAD_CODE_BASE: i64 = 200;

/// How many controller inputs there are.
pub const PAD_INPUTS: i64 = 24;

/// How many mouse buttons have a name.
pub const MOUSE_NAMES: i64 = 5;

/// One past the highest code.
pub const INPUT_CODE_MAX: i64 = 224;

/// The bits of the number one: what a held key or button gives.
pub const FULL: u64 = 0x3FF0_0000_0000_0000;

/// The bits of infinity: those of what is not a number are above them.
pub const INFINITE: u64 = 0x7FF0_0000_0000_0000;

/// The sign bit of a number.
pub const SIGN: u64 = 0x8000_0000_0000_0000;

/// How many digital controller buttons there are: the first inputs by code.
pub const BUTTONS: i64 = 14;

/// Analog axes, in the order they are held: the two triggers, then the sticks.
pub const AXIS_LEFT_TRIGGER: usize = 0;

pub const AXIS_RIGHT_TRIGGER: usize = 1;

pub const AXIS_LEFT_X: usize = 2;

pub const AXIS_LEFT_Y: usize = 3;

pub const AXIS_RIGHT_X: usize = 4;

pub const AXIS_RIGHT_Y: usize = 5;

/// What a code reads.
#[derive(Clone, Copy, PartialEq, Eq, Structural, Debug)]
pub enum Source {
    Nothing,
    Key(usize),
    Mouse(usize),
    /// A digital controller button.
    Button(usize),
    /// One half of an analog axis: which axis, and whether the half that counts is
    /// the positive one.
    Half(usize, bool),
}

/// What the devices give now. An axis is held as the bits of a number in -1..=1,
/// already freed of its dead zone.
pub struct Devices {
    pub keys: [bool; 100],
    pub mouse: [bool; 100],
    pub buttons: [bool; 14],
    pub axes: [u64; 6],
}

pub struct Input {
    pub bindings: HashMap<i64, Vec<i64>>,
    /// While set, bound actions read as not held.
    pub suppress: bool,
    /// Which codes were held at the last frame boundary.
    pub prev: [bool; 224],
    pub now: Devices,
    /// The bits of the least level that counts as held.
    pub threshold: u64,
}

/// What the analog inputs read, by their place behind the buttons.
pub open spec fn half_of(i: int) -> Source {
    if i == 14 {
        Source::Half(AXIS_LEFT_TRIGGER, true)
    } else if i == 15 {
        Source::Half(AXIS_RIGHT_TRIGGER, true)
    } else if i == 16 {
        Source::Half(AXIS_LEFT_Y, true)
    } else if i == 17 {
        Source::Half(AXIS_LEFT_Y, false)
    } else if i == 18 {
        Source::Half(AXIS_LEFT_X, true)
    } else if i == 19 {
        Source::Half(AXIS_LEFT_X, false)
    } else if i == 20 {
        Source::Half(AXIS_RIGHT_Y, true)
    } else if i == 21 {
        Source::Half(AXIS_RIGHT_Y, false)
    } else if i == 22 {
        Source::Half(AXIS_RIGHT_X, true)
    } else {
        Source::Half(AXIS_RIGHT_X, false)
    }
}

/// What a code reads.
pub open spec fn source(code: int) -> Source {
    if code < 0 || code >= INPUT_CODE_MAX {
        Source::Nothing
    } else if code >= PAD_CODE_BASE + BUTTONS {
        half_of(code - PAD_CODE_BASE)
    } else if code >= PAD_CODE_BASE {
        Source::Button((code - PAD_CODE_BASE) as usize)
    } else if code >= MOUSE_CODE_BASE {
        Source::Mouse((code - MOUSE_CODE_BASE) as usize)
    } else {
        Source::Key(code as usize)
    }
}

/// What a code reads: the one place where a key, a button and a controller input
/// are told apart.
pub fn source_of(code: i64) -> (s: Source)
    ensures
        s == source(code as int),
{
    if code < 0 || code >= INPUT_CODE_MAX {
        Source::Nothing
    } else if code >= PAD_CODE_BASE + BUTTONS {
        match code {
            214 => Source::Half(AXIS_LEFT_TRIGGER, true),
            215 => Source::Half(AXIS_RIGHT_TRIGGER, true),
            216 => Source::Half(AXIS_LEFT_Y, true),
            217 => Source::Half(AXIS_LEFT_Y, false),
            218 => Source::Half(AXIS_LEFT_X, true),
            219 => Source::Half(AXIS_LEFT_X, false),
            220 => Source::Half(AXIS_RIGHT_Y, true),
            221 => Source::Half(AXIS_RIGHT_Y, false),
            222 => Source::Half(AXIS_RIGHT_X, true),
            _ => Source::Half(AXIS_RIGHT_X, false),
        }
    } else if code >= PAD_CODE_BASE {
        Source::Button((code - PAD_CODE_BASE) as usize)
    } else if code >= MOUSE_CODE_BASE {
        Source::Mouse((code - MOUSE_CODE_BASE) as usize)
    } else {
        Source::Key(code as usize)
    }
}

/// How much the positive or the negative half of an axis gives: nothing on the
/// other side of rest, and nothing where the axis holds what is not a number.
pub open spec fn half_level(axis: u64, positive: bool) -> u64 {
    if positive {
        if axis <= INFINITE {
            axis
        } else {
            0
        }
    } else if axis < SIGN || axis - SIGN > INFINITE {
        0
    } else {
        (axis - SIGN) as u64
    }
}

/// A number held to 0..=1, by its bits. What is not a number counts as nothing.
pub open spec fn unit(value: u64) -> u64 {
    if value > INFINITE {
        0
    } else if value > FULL {
        FULL
    } else {
        value
    }
}

/// Whether a number reaches a threshold above nothing, by their bits. What is not a
/// number reaches none.
pub open spec fn at_least(value: u64, threshold: u64) -> bool {
    value <= INFINITE && value >= threshold
}

/// What a digital input gives.
pub open spec fn on(b: bool) -> u64 {
    if b {
        FULL
    } else {
        0
    }
}

/// Two codes read the two halves of one axis.
pub open spec fn opposed(a: int, b: int) -> bool {
    &&& source(a) is Half
    &&& source(b) is Half
    &&& source(a)->Half_0 == source(b)->Half_0
    &&& source(a)->Half_1 != source(b)->Half_1
}

/// `after` is `before` with what `code` reads driven to `level`: the other half of
/// the same axis falls to nothing, and every other code keeps its level.
pub open spec fn driven(before: Devices, after: Devices, code: int, level: u64) -> bool {
    &&& source(code) is Nothing ==> after == before
    &&& source(code) !is Nothing ==> after.level(code) == level
    &&& forall|other: int|
        source(other) != source(code) ==> #[trigger] after.level(other) == (if opposed(
            other,
            code,
        ) {
            0
        } else {
            before.level(other)
        })
}

impl Devices {
    /// How much a code gives, as the bits of a number in 0..=1.
    pub open spec fn level(self, code: int) -> u64 {
        match source(code) {
            Source::Nothing => 0,
            Source::Key(k) => on(self.keys@[k as int]),
            Source::Mouse(b) => on(self.mouse@[b as int]),
            Source::Button(b) => on(self.buttons@[b as int]),
            Source::Half(a, positive) => half_level(self.axes@[a as int], positive),
        }
    }

    /// Nothing held and everything at rest.
    pub fn new() -> (d: Devices)
        ensures
            forall|code: int| #[trigger] d.level(code) == 0,
    {
        Devices {
            keys: [false; 100],
            mouse: [false; 100],
            buttons: [false; 14],
            axes: [0u64; 6],
        }
    }

    /// How much a code gives.
    pub fn code_value(&self, code: i64) -> (r: u64)
        ensures
            r == self.level(code as int),
    {
        match source_of(code) {
            Source::Nothing => 0,
            Source::Key(k) => if self.keys[k] {
                FULL
            } else {
                0
            },
            Source::Mouse(b) => if self.mouse[b] {
                FULL
            } else {
                0
            },
            Source::Button(b) => if self.buttons[b] {
                FULL
            } else {
                0
            },
            Source::Half(a, positive) => {
                let v: u64 = self.axes[a];
                if positive {
                    if v <= INFINITE {
                        v
                    } else {
                        0
                    }
                } else if v < SIGN || v - SIGN > INFINITE {
                    0
                } else {
                    v - SIGN
                }
            },
        }
    }

    /// Press or release whatever a code reads. An analog input is driven all the
    /// way.
    pub fn inject_code(&mut self, code: i64, down: bool)
        ensures
            driven(*old(self), *final(self), code as int, on(down)),
    {
        match source_of(code) {
            Source::Nothing => {},
            Source::Key(k) => {
                self.keys[k] = down;
            },
            Source::Mouse(b) => {
                self.mouse[b] = down;
            },
            Source::Button(b) => {
                self.buttons[b] = down;
            },
            Source::Half(a, positive) => {
                self.axes[a] = if !down {
                    0
                } else if positive {
                    FULL
                } else {
                    FULL + SIGN
                };
            },
        }
    }

    /// Drive whatever a code reads to a level. A digital input takes it as a press
    /// where it reaches the threshold.
    pub fn inject_input(&mut self, code: i64, value: u64, threshold: u64)
        ensures
            driven(
                *old(self),
                *final(self),
                code as int,
                if source(code as int) is Half {
                    unit(value)
                } else {
                    on(at_least(value, threshold))
                },
            ),
    {
        match source_of(code) {
            Source::Half(a, positive) => {
                let v: u64 = if value > INFINITE {
                    0
                } else if value > FULL {
                    FULL
                } else {
                    value
                };
                self.axes[a] = if v == 0 || positive {
                    v
                } else {
                    v + SIGN
                };
            },
            _ => {
                self.inject_code(code, value <= INFINITE && value >= threshold);
            },
        }
    }

    /// Set an axis.
    pub fn inject_axis(&mut self, axis: usize, value: u64)
        requires
            axis < 6,
        ensures
            *final(self) == (Devices { axes: final(self).axes, ..*old(self) }),
            final(self).axes@ == old(self).axes@.update(axis as int, value),
    {
        self.axes[axis] = value;
    }
}

/// The name of a mouse button, by its number.
pub open spec fn mouse_text(i: int) -> Seq<char> {
    if i == 0 {
        "MouseLeft"@
    } else if i == 1 {
        "MouseRight"@
    } else if i == 2 {
        "MouseMiddle"@
    } else if i == 3 {
        "MouseBack"@
    } else {
        "MouseForward"@
    }
}

/// The name of a controller input, by its place.
pub open spec fn pad_text(i: int) -> Seq<char> {
    if i == 0 {
        "PadA"@
    } else if i == 1 {
        "PadB"@
    } else if i == 2 {
        "PadX"@
    } else if i == 3 {
        "PadY"@
    } else if i == 4 {
        "PadLB"@
    } else if i == 5 {
        "PadRB"@
    } else if i == 6 {
        "PadBack"@
    } else if i == 7 {
        "PadStart"@
    } else if i == 8 {
        "PadLS"@
    } else if i == 9 {
        "PadRS"@
    } else if i == 10 {
        "PadUp"@
    } else if i == 11 {
        "PadDown"@
    } else if i == 12 {
        "PadLeft"@
    } else if i == 13 {
        "PadRight"@
    } else if i == 14 {
        "PadLT"@
    } else if i == 15 {
        "PadRT"@
    } else if i == 16 {
        "PadLeftStickUp"@
    } else if i == 17 {
        "PadLeftStickDown"@
    } else if i == 18 {
        "PadLeftStickRight"@
    } else if i == 19 {
        "PadLeftStickLeft"@
    } else if i == 20 {
        "PadRightStickUp"@
    } else if i == 21 {
        "PadRightStickDown"@
    } else if i == 22 {
        "PadRightStickRight"@
    } else {
        "PadRightStickLeft"@
    }
}

fn mouse_name(i: i64) -> (r: &'static str)
    requires
        0 <= i < MOUSE_NAMES,
    ensures
        r@ == mouse_text(i as int),
{
    if i == 0 {
        "MouseLeft"
    } else if i == 1 {
        "MouseRight"
    } else if i == 2 {
        "MouseMiddle"
    } else if i == 3 {
        "MouseBack"
    } else {
        "MouseForward"
    }
}

fn pad_name(i: i64) -> (r: &'static str)
    requires
        0 <= i < PAD_INPUTS,
    ensures
        r@ == pad_text(i as int),
{
    if i == 0 {
        "PadA"
    } else if i == 1 {
        "PadB"
    } else if i == 2 {
        "PadX"
    } else if i == 3 {
        "PadY"
    } else if i == 4 {
        "PadLB"
    } else if i == 5 {
        "PadRB"
    } else if i == 6 {
        "PadBack"
    } else if i == 7 {
        "PadStart"
    } else if i == 8 {
        "PadLS"
    } else if i == 9 {
        "PadRS"
    } else if i == 10 {
        "PadUp"
    } else if i == 11 {
        "PadDown"
    } else if i == 12 {
        "PadLeft"
    } else if i == 13 {
        "PadRight"
    } else if i == 14 {
        "PadLT"
    } else if i == 15 {
        "PadRT"
    } else if i == 16 {
        "PadLeftStickUp"
    } else if i == 17 {
        "PadLeftStickDown"
    } else if i == 18 {
        "PadLeftStickRight"
    } else if i == 19 {
        "PadLeftStickLeft"
    } else if i == 20 {
        "PadRightStickUp"
    } else if i == 21 {
        "PadRightStickDown"
    } else if i == 22 {
        "PadRightStickRight"
    } else {
        "PadRightStickLeft"
    }
}

/// A number that tells the names apart.
spec fn mark(s: Seq<char>) -> int {
    s.len() * 1000000000000 + (s[3] as u32) * 1000000 + (s.last() as u32)
}

spec fn mouse_mark(i: int) -> int {
    if i == 0 {
        9000115000116
    } else if i == 1 {
        10000115000116
    } else if i == 2 {
        11000115000101
    } else if i == 3 {
        9000115000107
    } else {
        12000115000100
    }
}

spec fn pad_mark(i: int) -> int {
    if i == 0 {
        4000065000065
    } else if i == 1 {
        4000066000066
    } else if i == 2 {
        4000088000088
    } else if i == 3 {
        4000089000089
    } else if i == 4 {
        5000076000066
    } else if i == 5 {
        5000082000066
    } else if i == 6 {
        7000066000107
    } else if i == 7 {
        8000083000116
    } else if i == 8 {
        5000076000083
    } else if i == 9 {
        5000082000083
    } else if i == 10 {
        5000085000112
    } else if i == 11 {
        7000068000110
    } else if i == 12 {
        7000076000116
    } else if i == 13 {
        8000082000116
    } else if i == 14 {
        5000076000084
    } else if i == 15 {
        5000082000084
    } else if i == 16 {
        14000076000112
    } else if i == 17 {
        16000076000110
    } else if i == 18 {
        17000076000116
    } else if i == 19 {
        16000076000116
    } else if i == 20 {
        15000082000112
    } else if i == 21 {
        17000082000110
    } else if i == 22 {
        18000082000116
    } else {
        17000082000116
    }
}

proof fn lemma_mouse_marks(i: int)
    requires
        0 <= i < MOUSE_NAMES,
    ensures
        mark(mouse_text(i)) == mouse_mark(i),
{
    reveal_strlit("MouseLeft");
    reveal_strlit("MouseRight");
    reveal_strlit("MouseMiddle");
    reveal_strlit("MouseBack");
    reveal_strlit("MouseForward");
}

proof fn lemma_pad_marks(i: int)
    requires
        0 <= i < PAD_INPUTS,
    ensures
        mark(pad_text(i)) == pad_mark(i),
{
    reveal_strlit("PadA");
    reveal_strlit("PadB");
    reveal_strlit("PadX");
    reveal_strlit("PadY");
    reveal_strlit("PadLB");
    reveal_strlit("PadRB");
    reveal_strlit("PadBack");
    reveal_strlit("PadStart");
    reveal_strlit("PadLS");
    reveal_strlit("PadRS");
    reveal_strlit("PadUp");
    reveal_strlit("PadDown");
    reveal_strlit("PadLeft");
    reveal_strlit("PadRight");
    reveal_strlit("PadLT");
    reveal_strlit("PadRT");
    reveal_strlit("PadLeftStickUp");
    reveal_strlit("PadLeftStickDown");
    reveal_strlit("PadLeftStickRight");
    reveal_strlit("PadLeftStickLeft");
    reveal_strlit("PadRightStickUp");
    reveal_strlit("PadRightStickDown");
    reveal_strlit("PadRightStickRight");
    reveal_strlit("PadRightStickLeft");
}

/// The code of a name: a mouse button's, a controller input's, or the key's where
/// the keyboard knows the name; otherwise -1.
pub open spec fn code_named(name: Seq<char>, key: Option<u32>) -> int {
    if exists|i: int| 0 <= i < MOUSE_NAMES && name == #[trigger] mouse_text(i) {
        MOUSE_CODE_BASE + choose|i: int|
            0 <= i < MOUSE_NAMES && name == #[trigger] mouse_text(i)
    } else if exists|i: int| 0 <= i < PAD_INPUTS && name == #[trigger] pad_text(i) {
        PAD_CODE_BASE + choose|i: int| 0 <= i < PAD_INPUTS && name == #[trigger] pad_text(i)
    } else {
        match key {
            Some(k) => k as int,
            None => -1,
        }
    }
}

/// The name of a code, or nothing where it names no input.
pub open spec fn name_of(code: int, key: Seq<char>) -> Seq<char> {
    if code < 0 || code >= INPUT_CODE_MAX {
        Seq::empty()
    } else if code >= PAD_CODE_BASE {
        pad_text(code - PAD_CODE_BASE)
    } else if code >= MOUSE_CODE_BASE {
        if code < MOUSE_CODE_BASE + MOUSE_NAMES {
            mouse_text(code - MOUSE_CODE_BASE)
        } else {
            Seq::empty()
        }
    } else {
        key
    }
}

proof fn lemma_names_differ(i: int, j: int)
    ensures
        0 <= i < MOUSE_NAMES && 0 <= j < MOUSE_NAMES && mouse_text(i) == mouse_text(j) ==> i == j,
        0 <= i < PAD_INPUTS && 0 <= j < PAD_INPUTS && pad_text(i) == pad_text(j) ==> i == j,
        0 <= i < MOUSE_NAMES && 0 <= j < PAD_INPUTS ==> mouse_text(i) != pad_text(j),
{
    if 0 <= i < MOUSE_NAMES {
        lemma_mouse_marks(i);
    }
    if 0 <= j < MOUSE_NAMES {
        lemma_mouse_marks(j);
    }
    if 0 <= i < PAD_INPUTS {
        lemma_pad_marks(i);
    }
    if 0 <= j < PAD_INPUTS {
        lemma_pad_marks(j);
    }
}

/// The code of a named input. `key` is what the keyboard answers for the name.
pub fn input_code(name: &str, key: Option<u32>) -> (r: i64)
    ensures
        r == code_named(name@, key),
{
    let wanted: String = name.to_owned();
    let mut i: i64 = 0;
    while i < MOUSE_NAMES
        invariant
            0 <= i <= MOUSE_NAMES,
            wanted@ == name@,
            forall|k: int| 0 <= k < i ==> name@ != #[trigger] mouse_text(k),
        decreases MOUSE_NAMES - i,
    {
        if wanted == mouse_name(i).to_owned() {
            proof {
                assert(name@ == mouse_text(i as int));
                let k = choose|k: int| 0 <= k < MOUSE_NAMES && name@ == #[trigger] mouse_text(k);
                lemma_names_differ(i as int, k);
            }
            return MOUSE_CODE_BASE + i;
        }
        i += 1;
    }
    let mut j: i64 = 0;
    while j < PAD_INPUTS
        invariant
            0 <= j <= PAD_INPUTS,
            wanted@ == name@,
            forall|k: int| 0 <= k < MOUSE_NAMES ==> name@ != #[trigger] mouse_text(k),
            forall|k: int| 0 <= k < j ==> name@ != #[trigger] pad_text(k),
        decreases PAD_INPUTS - j,
    {
        if wanted == pad_name(j).to_owned() {
            proof {
                assert(name@ == pad_text(j as int));
                let k = choose|k: int| 0 <= k < PAD_INPUTS && name@ == #[trigger] pad_text(k);
                lemma_names_differ(j as int, k);
            }
            return PAD_CODE_BASE + j;
        }
        j += 1;
    }
    match key {
        Some(k) => k as i64,
        None => -1,
    }
}

/// The name of a code. `key` is what the keyboard calls it.
pub fn input_name(code: i64, key: &str) -> (r: String)
    ensures
        r@ == name_of(code as int, key@),
{
    if code < 0 || code >= INPUT_CODE_MAX {
        String::new()
    } else if code >= PAD_CODE_BASE {
        pad_name(code - PAD_CODE_BASE).to_owned()
    } else if code >= MOUSE_CODE_BASE {
        if code < MOUSE_CODE_BASE + MOUSE_NAMES {
            mouse_name(code - MOUSE_CODE_BASE).to_owned()
        } else {
            String::new()
        }
    } else {
        key.to_owned()
    }
}

/// A named mouse button or controller input survives the way to its name and back.
pub proof fn law_names_round_trip(code: int, key: Seq<char>, other: Option<u32>)
    requires
        MOUSE_CODE_BASE <= code < MOUSE_CODE_BASE + MOUSE_NAMES || PAD_CODE_BASE <= code
            < INPUT_CODE_MAX,
    ensures
        code_named(name_of(code, key), other) == code,
{
    let name = name_of(code, key);
    if code < PAD_CODE_BASE {
        let i = code - MOUSE_CODE_BASE;
        assert(name == mouse_text(i));
        let k = choose|k: int| 0 <= k < MOUSE_NAMES && name == #[trigger] mouse_text(k);
        lemma_names_differ(i, k);
    } else {
        let i = code - PAD_CODE_BASE;
        assert(name == pad_text(i));
        assert forall|k: int| 0 <= k < MOUSE_NAMES implies name != #[trigger] mouse_text(k) by {
            lemma_names_differ(k, i);
        }
        let k = choose|k: int| 0 <= k < PAD_INPUTS && name == #[trigger] pad_text(k);
        lemma_names_differ(i, k);
    }
}

/// A list of codes with one more, which is not added again where it is there.
pub open spec fn with_code(codes: Seq<i64>, code: i64) -> Seq<i64> {
    if codes.contains(code) {
        codes
    } else {
        codes.push(code)
    }
}

impl Input {
    /// The codes bound to an action, the primary one first.
    pub open spec fn codes(self, action: i64) -> Seq<i64> {
        if self.bindings@.contains_key(action) {
            self.bindings@[action]@
        } else {
            Seq::empty()
        }
    }

    /// Whether a code is held now.
    pub open spec fn held(self, code: int) -> bool {
        self.now.level(code) >= self.threshold
    }

    /// Whether a code was held at the last frame boundary.
    pub open spec fn was_held(self, code: int) -> bool {
        0 <= code < INPUT_CODE_MAX && self.prev@[code]
    }

    /// Whether some input bound to the action is held now.
    pub open spec fn any_now(self, action: i64) -> bool {
        exists|i: int|
            0 <= i < self.codes(action).len() && self.held(#[trigger] self.codes(action)[i] as int)
    }

    /// Whether some input bound to the action was held at the last frame boundary.
    pub open spec fn any_before(self, action: i64) -> bool {
        exists|i: int|
            0 <= i < self.codes(action).len() && self.was_held(
                #[trigger] self.codes(action)[i] as int,
            )
    }

    /// Whether the action went down since the last frame boundary.
    pub open spec fn went_down(self, action: i64) -> bool {
        !self.suppress && self.any_now(action) && !self.any_before(action)
    }

    /// Whether it came up.
    pub open spec fn came_up(self, action: i64) -> bool {
        !self.suppress && self.any_before(action) && !self.any_now(action)
    }

    /// Whether the action is held.
    pub open spec fn down(self, action: i64) -> bool {
        !self.suppress && self.any_now(action)
    }

    pub fn new(threshold: u64) -> (s: Input)
        ensures
            s.bindings@ == Map::<i64, Vec<i64>>::empty(),
            !s.suppress,
            s.threshold == threshold,
            forall|code: int| !#[trigger] s.was_held(code),
            forall|code: int| #[trigger] s.now.level(code) == 0,
    {
        Input {
            bindings: HashMap::new(),
            suppress: false,
            prev: [false; 224],
            now: Devices::new(),
            threshold,
        }
    }

    /// The frame boundary: what is held now becomes what was held. Suppression
    /// does not change what is recorded.
    pub fn input_step(&mut self)
        ensures
            *final(self) == (Input { prev: final(self).prev, ..*old(self) }),
            forall|code: int|
                0 <= code < INPUT_CODE_MAX ==> #[trigger] final(self).was_held(code) == old(self).held(code),
    {
        let ghost a = *self;
        let mut held: [bool; 224] = [false; 224];
        let mut c: i64 = 0;
        while c < INPUT_CODE_MAX
            invariant
                0 <= c <= INPUT_CODE_MAX,
                *self == a,
                forall|k: int| 0 <= k < c ==> #[trigger] held@[k] == a.held(k),
            decreases INPUT_CODE_MAX - c,
        {
            held[c as usize] = self.now.code_value(c) >= self.threshold;
            c += 1;
        }
        self.prev = held;
    }

    /// 1 where the action went down this frame, else 0.
    pub fn input_pressed(&self, action: i64) -> (r: i64)
        ensures
            r == (if self.went_down(action) {
                1int
            } else {
                0
            }),
    {
        if self.suppress {
            return 0;
        }
        let (was, now) = self.edge(action);
        if now && !was {
            1
        } else {
            0
        }
    }

    /// 1 where the action came up this frame, else 0.
    pub fn input_released(&self, action: i64) -> (r: i64)
        ensures
            r == (if self.came_up(action) {
                1int
            } else {
                0
            }),
    {
        if self.suppress {
            return 0;
        }
        let (was, now) = self.edge(action);
        if was && !now {
            1
        } else {
            0
        }
    }

    fn edge(&self, action: i64) -> (r: (bool, bool))
        ensures
            r.0 == self.any_before(action),
            r.1 == self.any_now(action),
    {
        match self.bindings.get(&action) {
            None => (false, false),
            Some(codes) => {
                let mut was: bool = false;
                let mut now: bool = false;
                let mut i: usize = 0;
                while i < codes.len()
                    invariant
                        i <= codes@.len(),
                        codes@ == self.codes(action),
                        was == (exists|k: int|
                            0 <= k < i && self.was_held(#[trigger] self.codes(action)[k] as int)),
                        now == (exists|k: int|
                            0 <= k < i && self.held(#[trigger] self.codes(action)[k] as int)),
                    decreases codes@.len() - i,
                {
                    let c: i64 = codes[i];
                    assert(c == self.codes(action)[i as int]);
                    if 0 <= c && c < INPUT_CODE_MAX && self.prev[c as usize] {
                        was = true;
                    }
                    if self.now.code_value(c) >= self.threshold {
                        now = true;
                    }
                    i += 1;
                }
                (was, now)
            },
        }
    }

    /// Suppress or restore all bound actions.
    pub fn input_suppress(&mut self, on: bool)
        ensures
            *final(self) == (Input { suppress: on, ..*old(self) }),
    {
        self.suppress = on;
    }

    /// Bind an action to a code in place of everything it was bound to.
    pub fn input_bind(&mut self, action: i64, code: i64)
        ensures
            *final(self) == (Input { bindings: final(self).bindings, ..*old(self) }),
            final(self).codes(action) == seq![code],
            forall|other: i64|
                other != action ==> #[trigger] final(self).codes(other) == old(self).codes(other),
    {
        let mut v: Vec<i64> = Vec::new();
        v.push(code);
        self.bindings.insert(action, v);
        assert(self.codes(action) =~= seq![code]);
    }

    /// Add a code to an action. One that is already bound is not added again.
    pub fn input_bind_also(&mut self, action: i64, code: i64)
        ensures
            *final(self) == (Input { bindings: final(self).bindings, ..*old(self) }),
            final(self).codes(action) == with_code(old(self).codes(action), code),
            forall|other: i64|
                other != action ==> #[trigger] final(self).codes(other) == old(self).codes(other),
    {
        let ghost a = *self;
        let mut v: Vec<i64> = Vec::new();
        let mut found: bool = false;
        match self.bindings.get(&action) {
            None => {},
            Some(codes) => {
                let mut i: usize = 0;
                while i < codes.len()
                    invariant
                        i <= codes@.len(),
                        codes@ == a.codes(action),
                        v@ == codes@.take(i as int),
                        found == codes@.take(i as int).contains(code),
                    decreases codes@.len() - i,
                {
                    let ghost t = codes@.take(i as int);
                    v.push(codes[i]);
                    proof {
                        let u = codes@.take(i + 1);
                        assert(u =~= t.push(codes@[i as int]));
                        assert(u[i as int] == codes@[i as int]);
                        if t.contains(code) {
                            let k = choose|k: int| 0 <= k < t.len() && t[k] == code;
                            assert(u[k] == code);
                        }
                        if u.contains(code) && codes@[i as int] != code {
                            let k = choose|k: int| 0 <= k < u.len() && u[k] == code;
                            assert(t[k] == code);
                        }
                    }
                    if codes[i] == code {
                        found = true;
                    }
                    i += 1;
                }
                assert(codes@.take(i as int) =~= codes@);
            },
        }
        assert(v@ =~= a.codes(action));
        if !found {
            v.push(code);
        }
        self.bindings.insert(action, v);
    }

    /// The primary code of an action, or -1.
    pub fn input_binding(&self, action: i64) -> (r: i64)
        ensures
            r == (if self.codes(action).len() > 0 {
                self.codes(action)[0] as int
            } else {
                -1
            }),
    {
        self.input_binding_at(action, 0)
    }

    /// Code `i` of an action, or -1.
    pub fn input_binding_at(&self, action: i64, i: i64) -> (r: i64)
        ensures
            r == (if 0 <= i < self.codes(action).len() {
                self.codes(action)[i as int] as int
            } else {
                -1
            }),
    {
        if i < 0 {
            return -1;
        }
        match self.bindings.get(&action) {
            None => -1,
            Some(codes) => {
                if (i as u64) < codes.len() as u64 {
                    codes[i as usize]
                } else {
                    -1
                }
            },
        }
    }

    /// How many codes an action has.
    pub fn input_binding_count(&self, action: i64) -> (r: usize)
        ensures
            r == self.codes(action).len(),
    {
        match self.bindings.get(&action) {
            None => 0,
            Some(codes) => codes.len(),
        }
    }

    /// 1 where some input of the action is held, else 0.
    pub fn input_down(&self, action: i64) -> (r: i64)
        ensures
            r == (if self.down(action) {
                1int
            } else {
                0
            }),
    {
        if self.suppress {
            return 0;
        }
        if self.edge(action).1 {
            1
        } else {
            0
        }
    }

    /// How much the action is asked for, as the bits of a number in 0..=1: the
    /// largest of what its inputs give.
    pub fn input_value(&self, action: i64) -> (r: u64)
        ensures
            self.suppress || self.codes(action).len() == 0 ==> r == 0,
            !self.suppress ==> forall|i: int|
                0 <= i < self.codes(action).len() ==> self.now.level(
                    #[trigger] self.codes(action)[i] as int,
                ) <= r,
            !self.suppress && r != 0 ==> exists|i: int|
                0 <= i < self.codes(action).len() && self.now.level(
                    #[trigger] self.codes(action)[i] as int,
                ) == r,
    {
        if self.suppress {
            return 0;
        }
        match self.bindings.get(&action) {
            None => 0,
            Some(codes) => {
                let mut best: u64 = 0;
                let mut i: usize = 0;
                while i < codes.len()
                    invariant
                        i <= codes@.len(),
                        codes@ == self.codes(action),
                        forall|k: int|
                            0 <= k < i ==> self.now.level(
                                #[trigger] self.codes(action)[k] as int,
                            ) <= best,
                        best != 0 ==> exists|k: int|
                            0 <= k < i && self.now.level(#[trigger] self.codes(action)[k] as int)
                                == best,
                    decreases codes@.len() - i,
                {
                    let v: u64 = self.now.code_value(codes[i]);
                    assert(codes@[i as int] == self.codes(action)[i as int]);
                    if v > best {
                        best = v;
                    }
                    i += 1;
                }
                best
            },
        }
    }

    /// Press or release the primary input of an action. An unbound action is left
    /// alone.
    pub fn inject_action(&mut self, action: i64, down: bool)
        ensures
            *final(self) == (Input { now: final(self).now, ..*old(self) }),
            old(self).codes(action).len() == 0 ==> final(self).now == old(self).now,
            old(self).codes(action).len() > 0 ==> driven(
                old(self).now,
                final(self).now,
                old(self).codes(action)[0] as int,
                on(down),
            ),
    {
        let code: i64 = self.input_binding(action);
        if code < 0 {
            return;
        }
        self.now.inject_code(code, down);
    }
}

/// A held button is one press: with nothing changed since the frame boundary, no
/// action has gone down and none has come up.
pub proof fn law_a_held_button_is_one_press(a: Input, b: Input, action: i64)
    requires
        b.now == a.now,
        b.threshold == a.threshold,
        forall|code: int|
            0 <= code < INPUT_CODE_MAX ==> #[trigger] b.was_held(code) == a.held(code),
        b.threshold > 0,
    ensures
        !b.went_down(action),
        !b.came_up(action),
{
    let codes = b.codes(action);
    if b.any_now(action) {
        let i = choose|i: int| 0 <= i < codes.len() && b.held(#[trigger] codes[i] as int);
        assert(0 <= codes[i] < INPUT_CODE_MAX);
        assert(b.was_held(codes[i] as int));
        assert(b.any_before(action));
    }
    if b.any_before(action) {
        let i = choose|i: int| 0 <= i < codes.len() && b.was_held(#[trigger] codes[i] as int);
        assert(a.held(codes[i] as int));
        assert(b.held(codes[i] as int));
    }
}

/// An action that moves onto a key which was already down does not fire.
pub proof fn law_rebinding_onto_a_held_key_does_not_fire(s: Input, action: i64)
    requires
        exists|i: int|
            0 <= i < s.codes(action).len() && s.was_held(#[trigger] s.codes(action)[i] as int),
    ensures
        !s.went_down(action),
{
}

/// While input is suppressed no action is held, pressed or released.
pub proof fn law_suppression_covers_every_action(s: Input, action: i64)
    requires
        s.suppress,
    ensures
        !s.down(action),
        !s.went_down(action),
        !s.came_up(action),
{
}

/// Binding a code twice leaves one.
pub proof fn law_binding_twice_leaves_one(codes: Seq<i64>, code: i64)
    ensures
        with_code(with_code(codes, code), code) == with_code(codes, code),
{
    if !codes.contains(code) {
        assert(codes.push(code)[codes.len() as int] == code);
    }
}

/// An action whose primary input reads something is held once it was injected, and
/// has gone down unless it was held before.
pub proof fn law_an_injected_action_is_held(a: Input, b: Input, action: i64)
    requires
        a.codes(action).len() > 0,
        source(a.codes(action)[0] as int) !is Nothing,
        !a.suppress,
        a.threshold <= FULL,
        b == (Input { now: b.now, ..a }),
        driven(a.now, b.now, a.codes(action)[0] as int, on(true)),
    ensures
        b.down(action),
        b.went_down(action) <==> !a.any_before(action),
{
    assert(b.codes(action) == a.codes(action));
    assert(b.held(b.codes(action)[0] as int));
    assert(b.any_now(action));
    if a.any_before(action) {
        let i = choose|i: int|
            0 <= i < a.codes(action).len() && a.was_held(#[trigger] a.codes(action)[i] as int);
        assert(b.was_held(b.codes(action)[i] as int));
    }
    if b.any_before(action) {
        let i = choose|i: int|
            0 <= i < b.codes(action).len() && b.was_held(#[trigger] b.codes(action)[i] as int);
        assert(a.was_held(a.codes(action)[i] as int));
    }
}

/// The input a code is named for is the one it reads. A stick's up and right are the
/// positive halves of its own y and x axis, its down and left the negative ones; none of
/// the four depends on the other axis or on the other stick.
pub proof fn law_sticks_read_their_own_axes(d: Devices, code: int, key: Seq<char>)
    requires
        PAD_CODE_BASE <= code < INPUT_CODE_MAX,
    ensures
        ({
            let n = name_of(code, key);
            let v = d.level(code);
            let (lx, ly) = (d.axes@[AXIS_LEFT_X as int], d.axes@[AXIS_LEFT_Y as int]);
            let (rx, ry) = (d.axes@[AXIS_RIGHT_X as int], d.axes@[AXIS_RIGHT_Y as int]);
            &&& n == "PadLeftStickUp"@ ==> v == above(ly)
            &&& n == "PadLeftStickDown"@ ==> v == below(ly)
            &&& n == "PadLeftStickRight"@ ==> v == above(lx)
            &&& n == "PadLeftStickLeft"@ ==> v == below(lx)
            &&& n == "PadRightStickUp"@ ==> v == above(ry)
            &&& n == "PadRightStickDown"@ ==> v == below(ry)
            &&& n == "PadRightStickRight"@ ==> v == above(rx)
            &&& n == "PadRightStickLeft"@ ==> v == below(rx)
            &&& n == "PadLT"@ ==> v == above(d.axes@[AXIS_LEFT_TRIGGER as int])
            &&& n == "PadRT"@ ==> v == above(d.axes@[AXIS_RIGHT_TRIGGER as int])
        }),
{
    let i = code - PAD_CODE_BASE;
    lemma_names_differ(i, 14);
    lemma_names_differ(i, 15);
    lemma_names_differ(i, 16);
    lemma_names_differ(i, 17);
    lemma_names_differ(i, 18);
    lemma_names_differ(i, 19);
    lemma_names_differ(i, 20);
    lemma_names_differ(i, 21);
    lemma_names_differ(i, 22);
    lemma_names_differ(i, 23);
}

/// What an axis gives above its rest, by its bits: the number itself where it has no sign
/// and is a number.
pub open spec fn above(axis: u64) -> u64 {
    if axis <= 0x7FF0_0000_0000_0000 {
        axis
    } else {
        0
    }
}

/// What an axis gives below its rest: the number without its sign where it has one.
pub open spec fn below(axis: u64) -> u64 {
    if axis < 0x8000_0000_0000_0000 {
        0
    } else {
        above((axis - 0x8000_0000_0000_0000) as u64)
    }
}

/// No two axes are held in the same place, and there are as many places as axes.
pub proof fn law_axes_are_held_apart(a: int, b: int)
    ensures
        ({
            let places = seq![
                AXIS_LEFT_TRIGGER as int,
                AXIS_RIGHT_TRIGGER as int,
                AXIS_LEFT_X as int,
                AXIS_LEFT_Y as int,
                AXIS_RIGHT_X as int,
                AXIS_RIGHT_Y as int,
            ];
            &&& 0 <= a < b < places.len() ==> places[a] != places[b]
            &&& 0 <= a < places.len() ==> 0 <= places[a] < 6
        }),
{
}

/// Turning an axis over exchanges what its two halves give.
pub proof fn law_turning_an_axis_over_exchanges_its_halves(axis: u64)
    requires
        axis <= INFINITE,
    ensures
        half_level(axis, true) == axis,
        half_level(axis, false) == 0,
        half_level((axis + SIGN) as u64, true) == 0,
        half_level((axis + SIGN) as u64, false) == axis,
{
}

/// A named button reads its own place, in the order of the names; a held one gives all
/// there is to give and any other nothing.
pub proof fn law_buttons_read_their_own_place(d: Devices, code: int, key: Seq<char>)
    ensures
        ({
            let n = name_of(code, key);
            let gives = |held: bool| d.level(code) == if held { 0x3FF0_0000_0000_0000u64 } else { 0u64 };
            &&& 0 <= code < 100 ==> gives(d.keys@[code])
            &&& 100 <= code < 200 ==> gives(d.mouse@[code - 100])
            &&& 200 <= code < 224 ==> {
                &&& n == "PadA"@ ==> gives(d.buttons@[0])
                &&& n == "PadB"@ ==> gives(d.buttons@[1])
                &&& n == "PadX"@ ==> gives(d.buttons@[2])
                &&& n == "PadY"@ ==> gives(d.buttons@[3])
                &&& n == "PadLB"@ ==> gives(d.buttons@[4])
                &&& n == "PadRB"@ ==> gives(d.buttons@[5])
                &&& n == "PadBack"@ ==> gives(d.buttons@[6])
                &&& n == "PadStart"@ ==> gives(d.buttons@[7])
                &&& n == "PadLS"@ ==> gives(d.buttons@[8])
                &&& n == "PadRS"@ ==> gives(d.buttons@[9])
                &&& n == "PadUp"@ ==> gives(d.buttons@[10])
                &&& n == "PadDown"@ ==> gives(d.buttons@[11])
                &&& n == "PadLeft"@ ==> gives(d.buttons@[12])
                &&& n == "PadRight"@ ==> gives(d.buttons@[13])
            }
            &&& 100 <= code < 105 ==> {
                &&& n == "MouseLeft"@ ==> gives(d.mouse@[0])
                &&& n == "MouseRight"@ ==> gives(d.mouse@[1])
                &&& n == "MouseMiddle"@ ==> gives(d.mouse@[2])
                &&& n == "MouseBack"@ ==> gives(d.mouse@[3])
                &&& n == "MouseForward"@ ==> gives(d.mouse@[4])
            }
            &&& !(0 <= code < 224) ==> d.level(code) == 0 && n == Seq::<char>::empty()
        }),
{
    let (i, j) = (code - PAD_CODE_BASE, code - MOUSE_CODE_BASE);
    lemma_names_differ(i, 0);
    lemma_names_differ(i, 1);
    lemma_names_differ(i, 2);
    lemma_names_differ(i, 3);
    lemma_names_differ(i, 4);
    lemma_names_differ(i, 5);
    lemma_names_differ(i, 6);
    lemma_names_differ(i, 7);
    lemma_names_differ(i, 8);
    lemma_names_differ(i, 9);
    lemma_names_differ(i, 10);
    lemma_names_differ(i, 11);
    lemma_names_differ(i, 12);
    lemma_names_differ(i, 13);
    lemma_names_differ(j, 0);
    lemma_names_differ(j, 1);
    lemma_names_differ(j, 2);
    lemma_names_differ(j, 3);
    lemma_names_differ(j, 4);
}

/// Every code reads an input of its own, and a code that is none reads nothing.
pub proof fn law_no_two_codes_read_the_same(a: int, b: int)
    ensures
        source(a) == source(b) ==> a == b || source(a) is Nothing,
        source(a) is Nothing <==> !(0 <= a < 224),
{
}

/// What is held now and was not at the last frame boundary has gone down; what was held
/// there and is not now has come up.
pub proof fn law_edges_are_changes(a: Input, b: Input, action: i64)
    requires
        b.codes(action) == a.codes(action),
        forall|code: int|
            0 <= code < INPUT_CODE_MAX ==> #[trigger] b.was_held(code) == a.held(code),
        a.threshold > 0,
        !a.suppress,
        !b.suppress,
    ensures
        b.went_down(action) <==> !a.down(action) && b.down(action),
        b.came_up(action) <==> a.down(action) && !b.down(action),
{
    let codes = a.codes(action);
    if a.any_now(action) {
        let i = choose|i: int| 0 <= i < codes.len() && a.held(#[trigger] codes[i] as int);
        assert(0 <= codes[i] < INPUT_CODE_MAX);
        assert(b.was_held(b.codes(action)[i] as int));
    }
    if b.any_before(action) {
        let i = choose|i: int|
            0 <= i < b.codes(action).len() && b.was_held(#[trigger] b.codes(action)[i] as int);
        assert(a.held(a.codes(action)[i] as int));
    }
}

/// An action is held exactly where one of its inputs gives at least the threshold.
pub proof fn law_an_action_is_held_by_any_of_its_inputs(s: Input, action: i64, i: int)
    requires
        0 <= i < s.codes(action).len(),
        !s.suppress,
        s.now.level(s.codes(action)[i] as int) >= s.threshold,
    ensures
        s.down(action),
{
    assert(s.held(s.codes(action)[i] as int));
}

/// Adding a code keeps the codes before it in their places and puts it behind them.
pub proof fn law_added_codes_come_last(codes: Seq<i64>, code: i64)
    ensures
        with_code(codes, code).contains(code),
        codes.is_prefix_of(with_code(codes, code)),
        !codes.contains(code) ==> with_code(codes, code).len() == codes.len() + 1 && with_code(
            codes,
            code,
        ).last() == code,
        codes.no_duplicates() ==> with_code(codes, code).no_duplicates(),
{
    let more = with_code(codes, code);
    if !codes.contains(code) {
        assert(more[codes.len() as int] == code);
    }
}

/// A level is held to what lies between nothing and all there is, and a level in between
/// stays. Something that is not a number is nothing and reaches no threshold.
pub proof fn law_levels_are_held_to_the_unit(value: u64, threshold: u64)
    ensures
        unit(value) <= 0x3FF0_0000_0000_0000,
        value <= 0x3FF0_0000_0000_0000 ==> unit(value) == value,
        0x3FF0_0000_0000_0000 < value <= 0x7FF0_0000_0000_0000 ==> unit(value) == 0x3FF0_0000_0000_0000,
        value > 0x7FF0_0000_0000_0000 ==> unit(value) == 0 && !at_least(value, threshold),
        value <= 0x7FF0_0000_0000_0000 ==> (at_least(value, threshold) <==> threshold <= value),
{
}

/// The two halves of an axis never give anything at once.
pub proof fn law_opposed_inputs_exclude_each_other(d: Devices, a: int, b: int)
    requires
        opposed(a, b),
    ensures
        opposed(b, a),
        a != b,
        d.level(a) != 0 ==> d.level(b) == 0,
{
}

/// A stick's up and down are opposed, and its right and left; nothing else of a controller
/// is.
pub proof fn law_only_the_ways_of_a_stick_are_opposed(a: int, b: int)
    requires
        PAD_CODE_BASE <= a < b < INPUT_CODE_MAX,
    ensures
        opposed(a, b) <==> {
            ||| pad_text(a - 200) == "PadLeftStickUp"@ && pad_text(b - 200) == "PadLeftStickDown"@
            ||| pad_text(a - 200) == "PadLeftStickRight"@ && pad_text(b - 200)
                == "PadLeftStickLeft"@
            ||| pad_text(a - 200) == "PadRightStickUp"@ && pad_text(b - 200)
                == "PadRightStickDown"@
            ||| pad_text(a - 200) == "PadRightStickRight"@ && pad_text(b - 200)
                == "PadRightStickLeft"@
        },
{
    let (i, j) = (a - PAD_CODE_BASE, b - PAD_CODE_BASE);
    lemma_names_differ(i, 16);
    lemma_names_differ(j, 17);
    lemma_names_differ(i, 18);
    lemma_names_differ(j, 19);
    lemma_names_differ(i, 20);
    lemma_names_differ(j, 21);
    lemma_names_differ(i, 22);
    lemma_names_differ(j, 23);
}

/// Driving an input sets that input and, where it is one way of a stick, takes the other
/// way back; every other input stays.
pub proof fn law_driving_reaches_one_input(
    before: Devices,
    after: Devices,
    code: int,
    level: u64,
    other: int,
)
    requires
        driven(before, after, code, level),
        0 <= code < 224,
        0 <= other < 224,
    ensures
        after.level(code) == level,
        other != code && !opposed(other, code) ==> after.level(other) == before.level(other),
        other != code && opposed(other, code) ==> after.level(other) == 0,
{
    law_no_two_codes_read_the_same(code, other);
    law_no_two_codes_read_the_same(other, code);
}

/// A key is called what the keyboard calls it, and codes that are no input have no name.
pub proof fn law_keys_keep_their_names(code: int, key: Seq<char>)
    ensures
        0 <= code < 100 ==> name_of(code, key) == key,
        105 <= code < 200 || code < 0 || code >= 224 ==> name_of(code, key) == Seq::<char>::empty(),
{
}

/// A name that is no mouse button's and no controller input's is looked up on the keyboard,
/// and a name that nobody knows has no code.
pub proof fn law_other_names_are_keys(name: Seq<char>, key: Option<u32>)
    requires
        forall|i: int| 0 <= i < 5 ==> name != #[trigger] mouse_text(i),
        forall|i: int| 0 <= i < 24 ==> name != #[trigger] pad_text(i),
    ensures
        key matches Some(k) ==> code_named(name, key) == k,
        key is None ==> code_named(name, key) == -1,
{
}

} // verus!
