//! Keys, buttons and the control panel.

use vstd::prelude::*;
use vstd::string::*;

use crate::text::{
    decimal, decimals_come_back, decimals_tell_numbers_apart, digits_value, push_decimal,
    starts_with,
};

verus! {

/// The hint for the mode of the camera.
pub open spec fn hint_text(flying: bool) -> Seq<char> {
    if flying {
        "fly mode  ·  F: orbit  ·  WASD + Q/E: move  ·  drag: look  ·  wheel: speed  ·  Shift: boost"@
    } else {
        "orbit mode  ·  F: fly  ·  drag: rotate  ·  wheel: zoom  ·  P: save view"@
    }
}

/// The hint for the mode of the camera.
pub fn mode_hint(flying: bool) -> (r: &'static str)
    ensures
        r@ == hint_text(flying),
{
    if flying {
        "fly mode  ·  F: orbit  ·  WASD + Q/E: move  ·  drag: look  ·  wheel: speed  ·  Shift: boost"
    } else {
        "orbit mode  ·  F: fly  ·  drag: rotate  ·  wheel: zoom  ·  P: save view"
    }
}

/// The hint to write in place of the one that stands there, if it differs.
pub fn hint_update(current: &str, flying: bool) -> (r: Option<&'static str>)
    ensures
        r is Some <==> current@ != hint_text(flying),
        r matches Some(hint) ==> hint@ == hint_text(flying),
{
    let hint = mode_hint(flying);
    if current.to_owned() == hint.to_owned() {
        None
    } else {
        Some(hint)
    }
}

/// A change of the camera's mode.
#[derive(Clone, Copy, Debug, PartialEq, Eq, Structural)]
pub enum FlyToggle {
    Stay,
    ToOrbit,
    ToFly,
}

/// How the camera's mode changes on so many requests.
pub open spec fn toggle_for(requests: int, flying: Option<bool>) -> FlyToggle {
    match flying {
        Some(flying) => if requests == 0 {
            FlyToggle::Stay
        } else if flying {
            FlyToggle::ToOrbit
        } else {
            FlyToggle::ToFly
        },
        None => FlyToggle::Stay,
    }
}

/// Decides how the camera's mode changes: once for any number of requests, and
/// only if there is one camera. `flying` is the mode of that camera.
pub fn plan_fly_toggle(requests: usize, flying: Option<bool>) -> (r: FlyToggle)
    ensures
        r == toggle_for(requests as int, flying),
{
    match flying {
        Some(flying) => if requests == 0 {
            FlyToggle::Stay
        } else if flying {
            FlyToggle::ToOrbit
        } else {
            FlyToggle::ToFly
        },
        None => FlyToggle::Stay,
    }
}

impl FlyToggle {
    /// What is said about the change.
    pub open spec fn says(self) -> Option<Seq<char>> {
        match self {
            FlyToggle::Stay => None,
            FlyToggle::ToOrbit => Some("orbit mode"@),
            FlyToggle::ToFly => Some(
                "fly mode: WASD move, Q/E down/up, drag to look, scroll for speed, Shift to boost"@,
            ),
        }
    }

    /// What is said about the change.
    pub fn line(self) -> (r: Option<&'static str>)
        ensures
            r is Some <==> self.says() is Some,
            r matches Some(line) ==> self.says() == Some(line@),
    {
        match self {
            FlyToggle::Stay => None,
            FlyToggle::ToOrbit => Some("orbit mode"),
            FlyToggle::ToFly => Some(
                "fly mode: WASD move, Q/E down/up, drag to look, scroll for speed, Shift to boost",
            ),
        }
    }
}

/// A direction to fly in.
#[derive(Clone, Copy, Debug, PartialEq, Eq, Structural)]
pub enum FlyMove {
    Forward,
    Back,
    Left,
    Right,
    Up,
    Down,
}

/// Keys and buttons that are held while flying.
#[derive(Clone, Copy, Debug, PartialEq, Eq, Structural)]
pub struct FlyInput {
    pub key_w: bool,
    pub key_s: bool,
    pub key_a: bool,
    pub key_d: bool,
    pub key_e: bool,
    pub key_q: bool,
    pub shift_left: bool,
    pub shift_right: bool,
    pub mouse_left: bool,
    pub mouse_right: bool,
}

impl FlyInput {
    /// Whether dragging turns the view.
    pub open spec fn drags(self) -> bool {
        self.mouse_left || self.mouse_right
    }

    /// How many times as fast the camera flies.
    pub open spec fn pace(self) -> int {
        if self.shift_left || self.shift_right {
            4
        } else {
            1
        }
    }

    /// The directions of the held keys, in the order in which they add up.
    pub open spec fn directions(self) -> Seq<FlyMove> {
        move_if(self.key_w, FlyMove::Forward) + move_if(self.key_s, FlyMove::Back) + move_if(
            self.key_a,
            FlyMove::Left,
        ) + move_if(self.key_d, FlyMove::Right) + move_if(self.key_e, FlyMove::Up) + move_if(
            self.key_q,
            FlyMove::Down,
        )
    }

    /// The directions of the held keys, in the order in which they add up.
    pub fn moves(&self) -> (r: Vec<FlyMove>)
        ensures
            r@ == self.directions(),
    {
        let mut moves: Vec<FlyMove> = Vec::new();
        add_move(&mut moves, self.key_w, FlyMove::Forward);
        add_move(&mut moves, self.key_s, FlyMove::Back);
        add_move(&mut moves, self.key_a, FlyMove::Left);
        add_move(&mut moves, self.key_d, FlyMove::Right);
        add_move(&mut moves, self.key_e, FlyMove::Up);
        add_move(&mut moves, self.key_q, FlyMove::Down);
        assert(moves@ =~= self.directions());
        moves
    }

    /// Whether dragging turns the view: with either mouse button.
    pub fn looks(&self) -> (r: bool)
        ensures
            r == self.drags(),
    {
        self.mouse_left || self.mouse_right
    }

    /// How many times as fast the camera flies: four times with either shift key.
    pub fn boost(&self) -> (r: u8)
        ensures
            r == self.pace(),
    {
        if self.shift_left || self.shift_right {
            4
        } else {
            1
        }
    }
}

/// `direction` if its key is held.
pub open spec fn move_if(held: bool, direction: FlyMove) -> Seq<FlyMove> {
    if held {
        seq![direction]
    } else {
        Seq::empty()
    }
}

/// Adds a direction if its key is held.
fn add_move(moves: &mut Vec<FlyMove>, held: bool, direction: FlyMove)
    ensures
        final(moves)@ == old(moves)@ + move_if(held, direction),
{
    if held {
        moves.push(direction);
    }
    assert(moves@ =~= old(moves)@ + move_if(held, direction));
}

/// An axis of the scene.
#[derive(Clone, Copy, Debug, PartialEq, Eq, Structural)]
pub enum SceneAxis {
    X,
    Y,
    Z,
}

/// What a button of the panel does.
#[derive(Clone, Copy, Debug, PartialEq, Eq, Structural)]
pub enum PanelAction {
    ToggleFly,
    Rotate { axis: SceneAxis, degrees: i32 },
    ResetRotation,
    SaveView,
}

/// How a button is touched.
#[derive(Clone, Copy, Debug, PartialEq, Eq, Structural)]
pub enum Touch {
    Pressed,
    Hovered,
    Away,
}

/// How a button looks.
#[derive(Clone, Copy, Debug, PartialEq, Eq, Structural)]
pub enum ButtonLook {
    Active,
    Hover,
    Plain,
}

/// How a button looks by its touch.
pub open spec fn button_look(touch: Touch) -> ButtonLook {
    match touch {
        Touch::Pressed => ButtonLook::Active,
        Touch::Hovered => ButtonLook::Hover,
        Touch::Away => ButtonLook::Plain,
    }
}

/// What a button does by its touch.
pub open spec fn button_action(touch: Touch, action: PanelAction) -> Option<PanelAction> {
    match touch {
        Touch::Pressed => Some(action),
        _ => None,
    }
}

/// Decides how a button looks after a change of its touch, and what it does: its
/// action when it is pressed, and nothing otherwise.
pub fn plan_click(touch: Touch, action: PanelAction) -> (r: (ButtonLook, Option<PanelAction>))
    ensures
        r == (button_look(touch), button_action(touch, action)),
{
    match touch {
        Touch::Pressed => (ButtonLook::Active, Some(action)),
        Touch::Hovered => (ButtonLook::Hover, None),
        Touch::Away => (ButtonLook::Plain, None),
    }
}

/// The label of a button that rotates the scene: the degrees with their sign.
pub open spec fn degrees_label(degrees: int) -> Seq<char> {
    if degrees > 0 {
        "+"@ + decimal(degrees as nat)
    } else if degrees < 0 {
        "-"@ + decimal((-degrees) as nat)
    } else {
        decimal(0)
    }
}

/// The label of a button that rotates the scene.
pub fn rotation_label(degrees: i32) -> (r: String)
    ensures
        r@ == degrees_label(degrees as int),
{
    let mut label = String::new();
    if degrees > 0 {
        label.append("+");
        push_decimal(&mut label, degrees as u64);
    } else if degrees < 0 {
        label.append("-");
        push_decimal(&mut label, (-(degrees as i64)) as u64);
    } else {
        push_decimal(&mut label, 0);
    }
    assert(label@ =~= degrees_label(degrees as int));
    label
}

/// The steps of the buttons that rotate the scene about an axis, in order.
pub open spec fn step_choices() -> Seq<i32> {
    seq![-90i32, -5i32, 5i32, 90i32]
}

/// The steps of the buttons that rotate the scene about an axis, in order.
pub fn rotation_steps() -> (r: [i32; 4])
    ensures
        r@ == step_choices(),
{
    [-90, -5, 5, 90]
}

/// A direction relative to the camera: right, up and forward.
#[derive(Clone, Copy, Debug, PartialEq, Eq, Structural)]
pub struct MoveAction {
    pub right: i8,
    pub up: i8,
    pub forward: i8,
}

/// A sum of directions.
#[derive(Clone, Copy, Debug, PartialEq, Eq, Structural)]
pub struct MoveSum {
    pub right: i128,
    pub up: i128,
    pub forward: i128,
}

/// The directions of the pressed buttons, added up.
pub open spec fn pressed_sum(buttons: Seq<(Touch, MoveAction)>) -> (int, int, int)
    decreases buttons.len(),
{
    if buttons.len() == 0 {
        (0, 0, 0)
    } else {
        let before = pressed_sum(buttons.drop_last());
        let (touch, action) = buttons.last();
        if touch is Pressed {
            (before.0 + action.right, before.1 + action.up, before.2 + action.forward)
        } else {
            before
        }
    }
}

/// Adds up the directions of the pressed buttons; `None` if there is nothing to
/// move.
pub fn held_direction(buttons: &Vec<(Touch, MoveAction)>) -> (r: Option<MoveSum>)
    ensures
        r is None <==> pressed_sum(buttons@) == (0int, 0int, 0int),
        r matches Some(sum) ==> pressed_sum(buttons@) == (
            sum.right as int,
            sum.up as int,
            sum.forward as int,
        ),
{
    let mut sum = MoveSum { right: 0, up: 0, forward: 0 };
    let mut k: usize = 0;
    assert(buttons@.subrange(0, 0) =~= Seq::empty());
    while k < buttons.len()
        invariant
            k <= buttons@.len(),
            pressed_sum(buttons@.subrange(0, k as int)) == (
                sum.right as int,
                sum.up as int,
                sum.forward as int,
            ),
            -128 * k <= sum.right <= 128 * k,
            -128 * k <= sum.up <= 128 * k,
            -128 * k <= sum.forward <= 128 * k,
        decreases buttons@.len() - k,
    {
        let ghost longer = buttons@.subrange(0, k + 1);
        assert(longer.drop_last() =~= buttons@.subrange(0, k as int));
        assert(longer.last() == buttons@[k as int]);
        let (touch, action) = buttons[k];
        if let Touch::Pressed = touch {
            sum.right = sum.right + action.right as i128;
            sum.up = sum.up + action.up as i128;
            sum.forward = sum.forward + action.forward as i128;
        }
        k = k + 1;
    }
    assert(buttons@.subrange(0, k as int) =~= buttons@);
    if sum.right == 0 && sum.up == 0 && sum.forward == 0 {
        None
    } else {
        Some(sum)
    }
}

/// Whether moving the camera takes the point that it looks at along.
pub open spec fn takes_focus_along(flying: bool) -> bool {
    !flying
}

/// Whether moving the camera takes the point that it looks at along: only while
/// it orbits that point.
pub fn moves_focus(flying: bool) -> (r: bool)
    ensures
        r == takes_focus_along(flying),
{
    !flying
}

/// The name of a screenshot.
pub open spec fn screenshot_text(frame: nat) -> Seq<char> {
    "output_"@ + decimal(frame) + ".png"@
}

/// Whether a screenshot is taken.
pub open spec fn takes_screenshot(flying: bool, key_pressed: bool) -> bool {
    !flying && key_pressed
}

/// Decides whether a screenshot is taken, and under which name: the key is for
/// flying backwards while the camera flies.
pub fn plan_screenshot(flying: bool, key_pressed: bool, frame: u32) -> (r: Option<String>)
    ensures
        r is Some <==> takes_screenshot(flying, key_pressed),
        r matches Some(name) ==> name@ == screenshot_text(frame as nat),
{
    if flying || !key_pressed {
        return None;
    }
    let mut name = String::new();
    name.append("output_");
    push_decimal(&mut name, frame as u64);
    name.append(".png");
    assert(name@ =~= screenshot_text(frame as nat));
    Some(name)
}

/// Where a direction stands among the six.
pub open spec fn turn_of(direction: FlyMove) -> int {
    match direction {
        FlyMove::Forward => 0,
        FlyMove::Back => 1,
        FlyMove::Left => 2,
        FlyMove::Right => 3,
        FlyMove::Up => 4,
        FlyMove::Down => 5,
    }
}

/// The key of a direction is held: W forward, S back, A left, D right, E up and Q
/// down.
pub open spec fn key_held(input: FlyInput, direction: FlyMove) -> bool {
    match direction {
        FlyMove::Forward => input.key_w,
        FlyMove::Back => input.key_s,
        FlyMove::Left => input.key_a,
        FlyMove::Right => input.key_d,
        FlyMove::Up => input.key_e,
        FlyMove::Down => input.key_q,
    }
}

/// A camera flies in a direction exactly if the key of that direction is held,
/// and in each direction once, in the order of the six.
pub proof fn every_key_moves_its_way(input: FlyInput, direction: FlyMove)
    ensures
        input.directions().contains(direction) <==> key_held(input, direction),
        forall|i: int, j: int|
            0 <= i < j < input.directions().len() ==> turn_of(#[trigger] input.directions()[i])
                < turn_of(#[trigger] input.directions()[j]),
{
    let w = move_if(input.key_w, FlyMove::Forward);
    let s = move_if(input.key_s, FlyMove::Back);
    let a = move_if(input.key_a, FlyMove::Left);
    let d = move_if(input.key_d, FlyMove::Right);
    let e = move_if(input.key_e, FlyMove::Up);
    let q = move_if(input.key_q, FlyMove::Down);
    lemma_one_more_move(Seq::empty(), input.key_w, FlyMove::Forward, direction);
    assert(Seq::<FlyMove>::empty() + w =~= w);
    lemma_one_more_move(w, input.key_s, FlyMove::Back, direction);
    lemma_one_more_move(w + s, input.key_a, FlyMove::Left, direction);
    lemma_one_more_move(w + s + a, input.key_d, FlyMove::Right, direction);
    lemma_one_more_move(w + s + a + d, input.key_e, FlyMove::Up, direction);
    lemma_one_more_move(w + s + a + d + e, input.key_q, FlyMove::Down, direction);
    assert(input.directions() =~= w + s + a + d + e + q);
}

/// A later direction behind earlier ones.
proof fn lemma_one_more_move(moves: Seq<FlyMove>, held: bool, next: FlyMove, direction: FlyMove)
    requires
        forall|i: int|
            0 <= i < moves.len() ==> turn_of(#[trigger] moves[i]) < turn_of(next),
        forall|i: int, j: int|
            0 <= i < j < moves.len() ==> turn_of(#[trigger] moves[i]) < turn_of(
                #[trigger] moves[j],
            ),
    ensures
        ({
            let all = moves + move_if(held, next);
            &&& all.contains(direction) <==> moves.contains(direction) || (held && direction
                == next)
            &&& forall|i: int| 0 <= i < all.len() ==> turn_of(#[trigger] all[i]) <= turn_of(next)
            &&& forall|i: int, j: int|
                0 <= i < j < all.len() ==> turn_of(#[trigger] all[i]) < turn_of(#[trigger] all[j])
        }),
{
    let all = moves + move_if(held, next);
    if held {
        assert(all[moves.len() as int] == next);
    }
    if moves.contains(direction) {
        let k = choose|k: int| 0 <= k < moves.len() && moves[k] == direction;
        assert(all[k] == direction);
    }
    if all.contains(direction) && direction != next {
        let k = choose|k: int| 0 <= k < all.len() && all[k] == direction;
        assert(moves[k] == direction);
    }
    if !held {
        assert(all =~= moves);
    }
}

/// One if held, none otherwise.
pub open spec fn unit(held: bool) -> int {
    if held {
        1
    } else {
        0
    }
}

/// Directions added up: to the right, up and forward.
pub open spec fn heading(moves: Seq<FlyMove>) -> (int, int, int)
    decreases moves.len(),
{
    if moves.len() == 0 {
        (0, 0, 0)
    } else {
        let (right, up, forward) = heading(moves.drop_last());
        match moves.last() {
            FlyMove::Forward => (right, up, forward + 1),
            FlyMove::Back => (right, up, forward - 1),
            FlyMove::Left => (right - 1, up, forward),
            FlyMove::Right => (right + 1, up, forward),
            FlyMove::Up => (right, up + 1, forward),
            FlyMove::Down => (right, up - 1, forward),
        }
    }
}

/// The heading after one direction more.
proof fn lemma_heading(moves: Seq<FlyMove>, held: bool, next: FlyMove)
    ensures
        heading(moves + move_if(held, next)) == (if held {
            heading(moves.push(next))
        } else {
            heading(moves)
        }),
        heading(moves.push(next)) == (match next {
            FlyMove::Forward => (heading(moves).0, heading(moves).1, heading(moves).2 + 1),
            FlyMove::Back => (heading(moves).0, heading(moves).1, heading(moves).2 - 1),
            FlyMove::Left => (heading(moves).0 - 1, heading(moves).1, heading(moves).2),
            FlyMove::Right => (heading(moves).0 + 1, heading(moves).1, heading(moves).2),
            FlyMove::Up => (heading(moves).0, heading(moves).1 + 1, heading(moves).2),
            FlyMove::Down => (heading(moves).0, heading(moves).1 - 1, heading(moves).2),
        }),
{
    assert(moves.push(next).drop_last() =~= moves);
    if held {
        assert(moves + move_if(held, next) =~= moves.push(next));
    } else {
        assert(moves + move_if(held, next) =~= moves);
    }
}

/// Opposite keys cancel: a camera heads right by D less A, up by E less Q and
/// forward by W less S.
pub proof fn opposite_keys_cancel(input: FlyInput)
    ensures
        heading(input.directions()) == (
            unit(input.key_d) - unit(input.key_a),
            unit(input.key_e) - unit(input.key_q),
            unit(input.key_w) - unit(input.key_s),
        ),
{
    let w = move_if(input.key_w, FlyMove::Forward);
    let s = move_if(input.key_s, FlyMove::Back);
    let a = move_if(input.key_a, FlyMove::Left);
    let d = move_if(input.key_d, FlyMove::Right);
    let e = move_if(input.key_e, FlyMove::Up);
    let none = Seq::<FlyMove>::empty();
    assert(heading(none) == (0int, 0int, 0int));
    lemma_heading(none, input.key_w, FlyMove::Forward);
    assert(none + w =~= w);
    lemma_heading(w, input.key_s, FlyMove::Back);
    lemma_heading(w + s, input.key_a, FlyMove::Left);
    lemma_heading(w + s + a, input.key_d, FlyMove::Right);
    lemma_heading(w + s + a + d, input.key_e, FlyMove::Up);
    lemma_heading(w + s + a + d + e, input.key_q, FlyMove::Down);
}

/// Either shift key makes the camera four times as fast as none, both no faster
/// than one; either mouse button turns the view, and nothing else does.
pub proof fn either_key_will_do(input: FlyInput)
    ensures
        ({
            let calm = FlyInput { shift_left: false, shift_right: false, ..input };
            let left = FlyInput { shift_left: true, ..input };
            let right = FlyInput { shift_right: true, ..input };
            &&& calm.pace() == 1
            &&& left.pace() == 4 * calm.pace()
            &&& right.pace() == 4 * calm.pace()
        }),
        (FlyInput { mouse_left: true, ..input }).drags(),
        (FlyInput { mouse_right: true, ..input }).drags(),
        !(FlyInput { mouse_left: false, mouse_right: false, ..input }).drags(),
{
}

/// The mode of a camera after a change.
pub open spec fn flies_after(toggle: FlyToggle, flying: bool) -> bool {
    match toggle {
        FlyToggle::Stay => flying,
        FlyToggle::ToOrbit => false,
        FlyToggle::ToFly => true,
    }
}

/// Any number of requests at once changes the mode once, to the other one, and
/// asking again changes it back; without a request, or without a camera, nothing
/// changes.
pub proof fn toggling_twice_returns(requests: int, again: int, flying: bool)
    requires
        requests > 0,
        again > 0,
    ensures
        flies_after(toggle_for(requests, Some(flying)), flying) == !flying,
        flies_after(
            toggle_for(again, Some(flies_after(toggle_for(requests, Some(flying)), flying))),
            flies_after(toggle_for(requests, Some(flying)), flying),
        ) == flying,
        toggle_for(requests, Some(flying)) == toggle_for(again, Some(flying)),
        toggle_for(0, Some(flying)) is Stay,
        toggle_for(requests, None) is Stay,
{
}

/// A button does what it is for exactly while it is pressed; its look shows how it
/// is touched.
pub proof fn buttons_act_when_pressed(touch: Touch, other: Touch, action: PanelAction)
    ensures
        button_action(touch, action) is Some <==> touch is Pressed,
        touch is Pressed ==> button_action(touch, action) == Some(action),
        button_look(touch) == button_look(other) <==> touch == other,
        button_look(touch) is Active <==> button_action(touch, action) is Some,
        button_look(touch) is Plain <==> touch is Away,
{
}

/// Labels say how far and which way a button rotates: a sign, and behind it the
/// degrees.
pub proof fn labels_say_the_degrees(degrees: int)
    ensures
        degrees > 0 ==> degrees_label(degrees)[0] == '+',
        degrees < 0 ==> degrees_label(degrees)[0] == '-',
        degrees != 0 ==> digits_value(degrees_label(degrees).drop_first()) == Some(
            (if degrees > 0 {
                degrees
            } else {
                -degrees
            }) as nat,
        ),
        digits_value(degrees_label(0)) == Some(0nat),
{
    reveal_strlit("+");
    reveal_strlit("-");
    decimals_come_back(0);
    if degrees > 0 {
        decimals_come_back(degrees as nat);
        assert(degrees_label(degrees).drop_first() =~= decimal(degrees as nat));
    } else if degrees < 0 {
        decimals_come_back((-degrees) as nat);
        assert(degrees_label(degrees).drop_first() =~= decimal((-degrees) as nat));
    }
}

/// Directions of buttons add up: one pressed button gives its own direction, one
/// that is not pressed gives none, and two groups of buttons give the sum of what
/// each gives.
pub proof fn pressed_buttons_add_up(
    some: Seq<(Touch, MoveAction)>,
    others: Seq<(Touch, MoveAction)>,
    touch: Touch,
    action: MoveAction,
)
    ensures
        pressed_sum(some + others) == (
            pressed_sum(some).0 + pressed_sum(others).0,
            pressed_sum(some).1 + pressed_sum(others).1,
            pressed_sum(some).2 + pressed_sum(others).2,
        ),
        pressed_sum(seq![(Touch::Pressed, action)]) == (
            action.right as int,
            action.up as int,
            action.forward as int,
        ),
        !(touch is Pressed) ==> pressed_sum(seq![(touch, action)]) == (0int, 0int, 0int),
    decreases others.len(),
{
    let none = Seq::<(Touch, MoveAction)>::empty();
    assert(pressed_sum(none) == (0int, 0int, 0int));
    assert(seq![(Touch::Pressed, action)].drop_last() =~= none);
    assert(seq![(touch, action)].drop_last() =~= none);
    if others.len() == 0 {
        assert(some + others =~= some);
    } else {
        pressed_buttons_add_up(some, others.drop_last(), touch, action);
        assert((some + others).drop_last() =~= some + others.drop_last());
    }
}

/// Screenshots are named by their frame, so those of different frames have different
/// names.
pub proof fn screenshots_keep_apart(frame: nat, other: nat)
    ensures
        starts_with(screenshot_text(frame), "output_"@ + decimal(frame) + "."@),
        screenshot_text(frame) == screenshot_text(other) ==> frame == other,
{
    reveal_strlit(".");
    reveal_strlit("output_");
    reveal_strlit(".png");
    let a = screenshot_text(frame);
    let b = screenshot_text(other);
    assert(a.subrange(7, a.len() - 4) =~= decimal(frame));
    assert(b.subrange(7, b.len() - 4) =~= decimal(other));
    let head = "output_"@ + decimal(frame) + "."@;
    assert(a.subrange(0, head.len() as int) =~= head);
    if a == b {
        decimals_tell_numbers_apart(frame, other);
    }
}

/// What is said of a change of mode, and the hint for the mode, begin with the mode
/// that the camera is in then; nothing is said where nothing changes.
pub proof fn hints_name_the_mode(requests: int, flying: bool)
    requires
        requests >= 0,
    ensures
        ({
            let toggle = toggle_for(requests, Some(flying));
            let now = flies_after(toggle, flying);
            let mode = if now {
                "fly mode"@
            } else {
                "orbit mode"@
            };
            &&& toggle.says() is Some <==> now != flying
            &&& toggle.says() matches Some(line) ==> starts_with(line, mode)
            &&& starts_with(hint_text(now), mode)
        }),
        hint_text(true) != hint_text(false),
{
    reveal_strlit("fly mode");
    reveal_strlit("orbit mode");
    reveal_strlit(
        "fly mode: WASD move, Q/E down/up, drag to look, scroll for speed, Shift to boost",
    );
    reveal_strlit(
        "fly mode  ·  F: orbit  ·  WASD + Q/E: move  ·  drag: look  ·  wheel: speed  ·  Shift: boost",
    );
    reveal_strlit("orbit mode  ·  F: fly  ·  drag: rotate  ·  wheel: zoom  ·  P: save view");
    let long =
        "fly mode: WASD move, Q/E down/up, drag to look, scroll for speed, Shift to boost"@;
    assert(long.subrange(0, 8) =~= "fly mode"@);
    assert(hint_text(true).subrange(0, 8) =~= "fly mode"@);
    assert(hint_text(false).subrange(0, 10) =~= "orbit mode"@);
    assert("orbit mode"@.subrange(0, 10) =~= "orbit mode"@);
    assert(hint_text(true)[0] != hint_text(false)[0]);
}

/// Every rotation can be undone by one button: the steps grow from left to right, and
/// mirror each other about zero. There is a quarter turn and a small step of five
/// degrees each way.
pub proof fn rotations_can_be_undone(k: int)
    requires
        0 <= k < 4,
    ensures
        step_choices().len() == 4,
        step_choices()[k] == -step_choices()[3 - k],
        k < 3 ==> step_choices()[k] < step_choices()[k + 1],
        4 * step_choices()[3] == 360,
        step_choices()[2] == 5,
{
}

/// A key of the keyboard does one thing at a time: the one for screenshots takes them
/// while the camera orbits, and flies backwards while it flies. The point that the
/// camera looks at comes along exactly while it orbits.
pub proof fn screenshots_wait_for_orbit(key_pressed: bool)
    ensures
        !takes_screenshot(true, key_pressed),
        takes_screenshot(false, key_pressed) <==> key_pressed,
        takes_focus_along(false),
        !takes_focus_along(true),
{
}

} // verus!
