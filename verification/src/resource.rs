//! The game's resources that are plain data: input bindings, scores,
//! level actions, menu states and the texts of the interface.

use vstd::prelude::*;
use vstd::string::StringExecFns;
use vstd::relations::{sorted_by, total_ordering};
use std::collections::HashMap;

verus! {

/// A direction the player moves in.
#[derive(Clone, Copy, Debug, PartialEq, Eq, Structural)]
pub enum Direction {
    Forward,
    Backward,
    Left,
    Right,
}

/// An action the player binds to a key or a mouse button.
#[derive(Clone, Copy, Debug, PartialEq, Eq, Structural)]
pub enum Input {
    Shoot,
    Direction(Direction),
}

/// A mouse button.
#[derive(Clone, Copy, Debug, PartialEq, Eq, Structural)]
pub enum MouseButton {
    Left,
    Right,
    Middle,
    Other(u8),
}

/// A key of the keyboard, by its name.
#[derive(Clone, Debug, PartialEq, Eq)]
pub struct KeyCode {
    pub name: String,
}

/// What an action is bound to.
#[derive(Clone, Debug, PartialEq, Eq)]
pub enum PossibleInput {
    VirtualKeyCode(KeyCode),
    MouseButton(MouseButton),
}

/// `p` is the key named `name`.
pub open spec fn is_key(p: PossibleInput, name: Seq<char>) -> bool {
    match p {
        PossibleInput::VirtualKeyCode(k) => k.name@ == name,
        PossibleInput::MouseButton(_) => false,
    }
}

/// `p` is the mouse button `b`.
pub open spec fn is_button(p: PossibleInput, b: MouseButton) -> bool {
    match p {
        PossibleInput::VirtualKeyCode(_) => false,
        PossibleInput::MouseButton(m) => m == b,
    }
}

impl PossibleInput {
    /// A copy of the binding.
    pub fn duplicate(&self) -> (r: Self)
        ensures
            r == *self,
    {
        match self {
            PossibleInput::VirtualKeyCode(k) => PossibleInput::VirtualKeyCode(KeyCode { name: k.name.clone() }),
            PossibleInput::MouseButton(b) => PossibleInput::MouseButton(*b),
        }
    }
}

/// The texts of the interface, in the player's language.
pub struct Text {
    pub pause: String,
    pub continue_: String,
    pub return_to_hall: String,
    pub create_custom_level: String,
    pub help: String,
    pub quit: String,
    pub audio: String,
    pub music_volume: String,
    pub effect_volume: String,
    pub video: String,
    pub fullscreen: String,
    pub controls: String,
    pub reset: String,
    pub field_of_view: String,
    pub mouse_sensibility: String,
    pub shoot: String,
    pub forward: String,
    pub backward: String,
    pub right: String,
    pub left: String,
    pub credits: String,
    pub custom: String,
    pub configuration: String,
    pub size: String,
    pub x_shift: String,
    pub y_shift: String,
    pub filling: String,
    pub attracted_eraser: String,
    pub avoider_eraser: String,
    pub bouncer_eraser: String,
    pub motionless_eraser: String,
    pub turret: String,
    pub input: String,
    pub set_input_or_escape: String,
    pub restart: String,
    pub setting_needs_to_restart_the_game: String,
    pub restart_now: String,
    pub restart_later: String,
    pub ok: String,
    pub attracted: String,
    pub avoider: String,
    pub bouncer: String,
    pub motionless: String,
    pub go_to_portal: String,
    pub remains: String,
    pub mouse_middle: String,
    pub mouse_left: String,
    pub mouse_right: String,
    pub mouse_other: String,
    pub key: String,
}

/// The decimal digit `d`.
pub open spec fn digit_char(d: nat) -> char {
    if d == 0 {
        '0'
    } else if d == 1 {
        '1'
    } else if d == 2 {
        '2'
    } else if d == 3 {
        '3'
    } else if d == 4 {
        '4'
    } else if d == 5 {
        '5'
    } else if d == 6 {
        '6'
    } else if d == 7 {
        '7'
    } else if d == 8 {
        '8'
    } else {
        '9'
    }
}

/// The decimal writing of `n`.
pub open spec fn decimal(n: nat) -> Seq<char>
    decreases n,
{
    if n < 10 {
        seq![digit_char(n)]
    } else {
        decimal(n / 10).push(digit_char(n % 10))
    }
}

/// How the interface shows a binding.
pub open spec fn input_text(p: PossibleInput, t: Text) -> Seq<char> {
    match p {
        PossibleInput::VirtualKeyCode(k) => t.key@ + seq![' '] + k.name@,
        PossibleInput::MouseButton(MouseButton::Other(n)) => t.mouse_other@ + seq![' '] + decimal(n as nat),
        PossibleInput::MouseButton(MouseButton::Middle) => t.mouse_middle@,
        PossibleInput::MouseButton(MouseButton::Left) => t.mouse_left@,
        PossibleInput::MouseButton(MouseButton::Right) => t.mouse_right@,
    }
}

/// The decimal digit `d`, as a string.
fn digit_string(d: u8) -> (s: String)
    requires
        d < 10,
    ensures
        s@ == seq![digit_char(d as nat)],
{
    let s = if d == 0 {
        "0"
    } else if d == 1 {
        "1"
    } else if d == 2 {
        "2"
    } else if d == 3 {
        "3"
    } else if d == 4 {
        "4"
    } else if d == 5 {
        "5"
    } else if d == 6 {
        "6"
    } else if d == 7 {
        "7"
    } else if d == 8 {
        "8"
    } else {
        "9"
    };
    proof {
        reveal_strlit("0");
        reveal_strlit("1");
        reveal_strlit("2");
        reveal_strlit("3");
        reveal_strlit("4");
        reveal_strlit("5");
        reveal_strlit("6");
        reveal_strlit("7");
        reveal_strlit("8");
        reveal_strlit("9");
    }
    String::from_str(s)
}

/// The decimal writing of `n`.
fn decimal_string(n: u8) -> (s: String)
    ensures
        s@ == decimal(n as nat),
{
    if n < 10 {
        digit_string(n)
    } else if n < 100 {
        let mut s = digit_string(n / 10);
        let d = digit_string(n % 10);
        s.append(d.as_str());
        proof {
            assert(decimal((n / 10) as nat) == seq![digit_char((n / 10) as nat)]);
        }
        s
    } else {
        let mut s = digit_string(n / 100);
        let d1 = digit_string((n / 10) % 10);
        let d2 = digit_string(n % 10);
        s.append(d1.as_str());
        s.append(d2.as_str());
        proof {
            assert(decimal((n / 100) as nat) == seq![digit_char((n / 100) as nat)]);
            assert((n / 10) / 10 == n / 100);
            assert(decimal((n / 10) as nat) == decimal((n / 100) as nat).push(digit_char(((n / 10) % 10) as nat)));
        }
        s
    }
}

impl PossibleInput {
    /// How the interface shows the binding: the key's name after the word
    /// for key, the button's number after the word for other buttons, or
    /// the name of the button.
    pub fn text(&self, text: &Text) -> (s: String)
        ensures
            s@ == input_text(*self, *text),
    {
        proof {
            reveal_strlit(" ");
        }
        match self {
            PossibleInput::VirtualKeyCode(code) => {
                let mut s = text.key.clone();
                s.append(" ");
                s.append(code.name.as_str());
                s
            },
            PossibleInput::MouseButton(MouseButton::Other(n)) => {
                let mut s = text.mouse_other.clone();
                s.append(" ");
                let d = decimal_string(*n);
                s.append(d.as_str());
                s
            },
            PossibleInput::MouseButton(MouseButton::Middle) => text.mouse_middle.clone(),
            PossibleInput::MouseButton(MouseButton::Left) => text.mouse_left.clone(),
            PossibleInput::MouseButton(MouseButton::Right) => text.mouse_right.clone(),
        }
    }
}

/// What each action is bound to.
pub struct InputSettings {
    shoot: PossibleInput,
    forward: PossibleInput,
    backward: PossibleInput,
    left: PossibleInput,
    right: PossibleInput,
}

/// The actions, in the order their bindings are looked at.
pub open spec fn all_inputs() -> Seq<Input> {
    seq![
        Input::Shoot,
        Input::Direction(Direction::Forward),
        Input::Direction(Direction::Backward),
        Input::Direction(Direction::Left),
        Input::Direction(Direction::Right),
    ]
}

impl InputSettings {
    /// What `input` is bound to.
    pub closed spec fn binding(&self, input: Input) -> PossibleInput {
        match input {
            Input::Shoot => self.shoot,
            Input::Direction(Direction::Forward) => self.forward,
            Input::Direction(Direction::Backward) => self.backward,
            Input::Direction(Direction::Left) => self.left,
            Input::Direction(Direction::Right) => self.right,
        }
    }

    /// The actions bound to the key named `name`, in the order of
    /// `all_inputs`.
    pub open spec fn key_inputs(&self, name: Seq<char>) -> Seq<Input> {
        all_inputs().filter(|i: Input| is_key(self.binding(i), name))
    }

    /// The actions bound to the button `b`, in the order of `all_inputs`.
    pub open spec fn button_inputs(&self, b: MouseButton) -> Seq<Input> {
        all_inputs().filter(|i: Input| is_button(self.binding(i), b))
    }

    /// The bindings a new player starts with: shoot on the left button,
    /// move with W, S, A and D.
    pub fn default() -> (s: Self)
        ensures
            s.binding(Input::Shoot) == PossibleInput::MouseButton(MouseButton::Left),
            is_key(s.binding(Input::Direction(Direction::Forward)), seq!['W']),
            is_key(s.binding(Input::Direction(Direction::Backward)), seq!['S']),
            is_key(s.binding(Input::Direction(Direction::Left)), seq!['A']),
            is_key(s.binding(Input::Direction(Direction::Right)), seq!['D']),
    {
        let w = String::from_str("W");
        let s = String::from_str("S");
        let a = String::from_str("A");
        let d = String::from_str("D");
        proof {
            reveal_strlit("W");
            reveal_strlit("S");
            reveal_strlit("A");
            reveal_strlit("D");
            assert(w@ =~= seq!['W']);
            assert(s@ =~= seq!['S']);
            assert(a@ =~= seq!['A']);
            assert(d@ =~= seq!['D']);
        }
        InputSettings {
            shoot: PossibleInput::MouseButton(MouseButton::Left),
            forward: PossibleInput::VirtualKeyCode(KeyCode { name: w }),
            backward: PossibleInput::VirtualKeyCode(KeyCode { name: s }),
            left: PossibleInput::VirtualKeyCode(KeyCode { name: a }),
            right: PossibleInput::VirtualKeyCode(KeyCode { name: d }),
        }
    }

    /// Binds `input` to `set`; the other actions keep their bindings.
    pub fn set_input(&mut self, input: Input, set: PossibleInput)
        ensures
            final(self).binding(input) == set,
            forall|i: Input| i != input ==> #[trigger] final(self).binding(i) == old(self).binding(i),
    {
        match input {
            Input::Shoot => self.shoot = set,
            Input::Direction(Direction::Forward) => self.forward = set,
            Input::Direction(Direction::Backward) => self.backward = set,
            Input::Direction(Direction::Left) => self.left = set,
            Input::Direction(Direction::Right) => self.right = set,
        }
    }

    /// What `input` is bound to.
    pub fn input(&self, input: Input) -> (p: PossibleInput)
        ensures
            p == self.binding(input),
    {
        match input {
            Input::Shoot => self.shoot.duplicate(),
            Input::Direction(Direction::Forward) => self.forward.duplicate(),
            Input::Direction(Direction::Backward) => self.backward.duplicate(),
            Input::Direction(Direction::Left) => self.left.duplicate(),
            Input::Direction(Direction::Right) => self.right.duplicate(),
        }
    }

    /// The actions the key triggers.
    pub fn convert_keycode_input(&self, keycode: &KeyCode) -> (v: Vec<Input>)
        ensures
            v@ == self.key_inputs(keycode.name@),
    {
        let mut v: Vec<Input> = Vec::new();
        if let PossibleInput::VirtualKeyCode(c) = &self.shoot {
            if keycode.name == c.name {
                v.push(Input::Shoot);
            }
        }
        if let PossibleInput::VirtualKeyCode(c) = &self.forward {
            if keycode.name == c.name {
                v.push(Input::Direction(Direction::Forward));
            }
        }
        if let PossibleInput::VirtualKeyCode(c) = &self.backward {
            if keycode.name == c.name {
                v.push(Input::Direction(Direction::Backward));
            }
        }
        if let PossibleInput::VirtualKeyCode(c) = &self.left {
            if keycode.name == c.name {
                v.push(Input::Direction(Direction::Left));
            }
        }
        if let PossibleInput::VirtualKeyCode(c) = &self.right {
            if keycode.name == c.name {
                v.push(Input::Direction(Direction::Right));
            }
        }
        proof {
            reveal_with_fuel(Seq::filter, 6);
            assert(all_inputs().drop_last().drop_last().drop_last().drop_last().drop_last() =~= Seq::<Input>::empty());
        }
        v
    }

    /// The actions the mouse button triggers.
    pub fn convert_mouse_button_input(&self, button: MouseButton) -> (v: Vec<Input>)
        ensures
            v@ == self.button_inputs(button),
    {
        let mut v: Vec<Input> = Vec::new();
        if let PossibleInput::MouseButton(b) = self.shoot {
            if button == b {
                v.push(Input::Shoot);
            }
        }
        if let PossibleInput::MouseButton(b) = self.forward {
            if button == b {
                v.push(Input::Direction(Direction::Forward));
            }
        }
        if let PossibleInput::MouseButton(b) = self.backward {
            if button == b {
                v.push(Input::Direction(Direction::Backward));
            }
        }
        if let PossibleInput::MouseButton(b) = self.left {
            if button == b {
                v.push(Input::Direction(Direction::Left));
            }
        }
        if let PossibleInput::MouseButton(b) = self.right {
            if button == b {
                v.push(Input::Direction(Direction::Right));
            }
        }
        proof {
            reveal_with_fuel(Seq::filter, 6);
            assert(all_inputs().drop_last().drop_last().drop_last().drop_last().drop_last() =~= Seq::<Input>::empty());
        }
        v
    }
}

/// Every action is one of `all_inputs`.
proof fn lemma_in_all_inputs(i: Input)
    ensures
        all_inputs().contains(i),
{
    match i {
        Input::Shoot => assert(all_inputs()[0] == i),
        Input::Direction(Direction::Forward) => assert(all_inputs()[1] == i),
        Input::Direction(Direction::Backward) => assert(all_inputs()[2] == i),
        Input::Direction(Direction::Left) => assert(all_inputs()[3] == i),
        Input::Direction(Direction::Right) => assert(all_inputs()[4] == i),
    }
}

/// A key triggers exactly the actions bound to it, and a button exactly
/// the actions bound to it.
pub proof fn lemma_triggered_iff_bound(s: InputSettings, name: Seq<char>, b: MouseButton, i: Input)
    ensures
        s.key_inputs(name).contains(i) <==> is_key(s.binding(i), name),
        s.button_inputs(b).contains(i) <==> is_button(s.binding(i), b),
{
    broadcast use vstd::seq_lib::group_filter_ensures;
    lemma_in_all_inputs(i);
    let k = choose|k: int| 0 <= k < all_inputs().len() && all_inputs()[k] == i;
    let pk = |j: Input| is_key(s.binding(j), name);
    let pb = |j: Input| is_button(s.binding(j), b);
    if s.key_inputs(name).contains(i) {
        let m = choose|m: int| 0 <= m < all_inputs().filter(pk).len() && all_inputs().filter(pk)[m] == i;
        assert(pk(all_inputs().filter(pk)[m]));
    }
    if is_key(s.binding(i), name) {
        assert(pk(all_inputs()[k]));
    }
    if s.button_inputs(b).contains(i) {
        let m = choose|m: int| 0 <= m < all_inputs().filter(pb).len() && all_inputs().filter(pb)[m] == i;
        assert(pb(all_inputs().filter(pb)[m]));
    }
    if is_button(s.binding(i), b) {
        assert(pb(all_inputs()[k]));
    }
}

/// The scores of a level: durations in nanoseconds.
pub struct Score {
    /// The ten best durations, shortest first.
    pub bests: Vec<u128>,
    /// The ten last durations, latest first.
    pub lasts: Vec<u128>,
}

/// The order of durations: shortest first.
pub open spec fn duration_order() -> spec_fn(u128, u128) -> bool {
    |a: u128, b: u128| a <= b
}

/// The first ten of `s`, or all of it when it is shorter.
pub open spec fn first_ten(s: Seq<u128>) -> Seq<u128> {
    if s.len() <= 10 {
        s
    } else {
        s.take(10)
    }
}

/// The position before the first element of a sorted `s` that is longer
/// than `d`.
fn insert_position(s: &Vec<u128>, d: u128) -> (p: usize)
    requires
        sorted_by(s@, duration_order()),
    ensures
        p <= s@.len(),
        forall|k: int| 0 <= k < p ==> s@[k] <= d,
        forall|k: int| p <= k < s@.len() ==> s@[k] > d,
{
    let mut p: usize = 0;
    while p < s.len() && s[p] <= d
        invariant
            p <= s@.len(),
            forall|k: int| 0 <= k < p ==> s@[k] <= d,
        decreases s.len() - p,
    {
        p = p + 1;
    }
    proof {
        if p < s@.len() {
            assert forall|k: int| p <= k < s@.len() implies s@[k] > d by {
                if k > p {
                    assert(duration_order()(s@[p as int], s@[k]));
                }
            }
        }
    }
    p
}

/// `v` sorted, shortest first.
fn sort_durations(v: &Vec<u128>) -> (r: Vec<u128>)
    ensures
        r@ == v@.sort_by(duration_order()),
{
    let ghost leq = duration_order();
    let mut r: Vec<u128> = Vec::new();
    let mut i: usize = 0;
    assert(r@ =~= v@.take(0));
    while i < v.len()
        invariant
            i <= v@.len(),
            leq == duration_order(),
            sorted_by(r@, leq),
            r@.to_multiset() == v@.take(i as int).to_multiset(),
        decreases v.len() - i,
    {
        let d = v[i];
        let p = insert_position(&r, d);
        let ghost old_r = r@;
        r.insert(p, d);
        proof {
            vstd::seq_lib::to_multiset_insert(old_r, p as int, d);
            assert(v@.take(i + 1) =~= v@.take(i as int).push(d));
            vstd::seq_lib::to_multiset_build(v@.take(i as int), d);
            assert forall|a: int, b: int| 0 <= a < b < r@.len() implies #[trigger] leq(r@[a], r@[b]) by {
                if b < p {
                    assert(leq(old_r[a], old_r[b]));
                } else if b == p {
                    assert(old_r[a] <= d);
                } else if a < p {
                    assert(old_r[a] <= d);
                    assert(old_r[b - 1] > d);
                } else if a == p {
                    assert(old_r[b - 1] > d);
                } else {
                    assert(leq(old_r[a - 1], old_r[b - 1]));
                }
            }
        }
        i = i + 1;
    }
    proof {
        assert(v@.take(v@.len() as int) =~= v@);
        assert(total_ordering(leq));
        v@.lemma_sort_by_ensures(leq);
        vstd::seq_lib::lemma_sorted_unique(r@, v@.sort_by(leq), leq);
    }
    r
}

impl Score {
    /// No score yet.
    pub fn new() -> (s: Self)
        ensures
            s.bests@.len() == 0,
            s.lasts@.len() == 0,
    {
        Score { bests: Vec::new(), lasts: Vec::new() }
    }

    /// Records a duration: it takes its place among the ten best, and
    /// comes first among the ten last.
    pub fn insert(&mut self, duration: u128)
        ensures
            final(self).bests@ == first_ten(
                old(self).bests@.push(duration).sort_by(duration_order()),
            ),
            final(self).lasts@ == first_ten(seq![duration] + old(self).lasts@),
    {
        let mut bests = self.bests.clone();
        bests.push(duration);
        let mut sorted = sort_durations(&bests);
        sorted.truncate(10);
        self.bests = sorted;
        self.lasts.insert(0, duration);
        self.lasts.truncate(10);
        proof {
            assert(seq![duration] + old(self).lasts@ =~= old(self).lasts@.insert(0, duration));
        }
    }
}

/// The scores of a level after a duration is recorded, from its scores
/// before, if any.
pub open spec fn scores_after(before: Option<Score>, duration: u128) -> (Seq<u128>, Seq<u128>) {
    let (bests, lasts) = match before {
        Some(s) => (s.bests@, s.lasts@),
        None => (Seq::<u128>::empty(), Seq::<u128>::empty()),
    };
    (first_ten(bests.push(duration).sort_by(duration_order())), first_ten(seq![duration] + lasts))
}

/// Records a duration for level `level`; a level without scores starts
/// with none. The other levels keep their scores.
pub fn insert_score(scores: &mut HashMap<usize, Score>, level: usize, duration: u128)
    ensures
        final(scores)@.dom() == old(scores)@.dom().insert(level),
        forall|k: usize| k != level && #[trigger] old(scores)@.contains_key(k) ==> final(scores)@[k] == old(scores)@[k],
        (final(scores)@[level].bests@, final(scores)@[level].lasts@) == scores_after(
            if old(scores)@.contains_key(level) {
                Some(old(scores)@[level])
            } else {
                None
            },
            duration,
        ),
{
    broadcast use vstd::std_specs::hash::group_hash_axioms;
    let ghost before = scores@;
    let mut score = match scores.remove(&level) {
        Some(s) => s,
        None => Score::new(),
    };
    let ghost start = score;
    assert(before.contains_key(level) ==> start == before[level]);
    assert(!before.contains_key(level) ==> start.bests@ =~= Seq::<u128>::empty() && start.lasts@ =~= Seq::<u128>::empty());
    score.insert(duration);
    scores.insert(level, score);
    assert(scores@.dom() =~= before.dom().insert(level));
}

/// After a duration is recorded, the best durations are sorted shortest
/// first, and there are ten of them, or all of them when fewer were
/// recorded.
pub proof fn lemma_bests_sorted(bests: Seq<u128>, duration: u128)
    ensures
        sorted_by(first_ten(bests.push(duration).sort_by(duration_order())), duration_order()),
        first_ten(bests.push(duration).sort_by(duration_order())).len() == if bests.len() + 1 <= 10 {
            bests.len() + 1
        } else {
            10
        },
{
    let leq = duration_order();
    let all = bests.push(duration);
    assert(total_ordering(leq));
    all.lemma_sort_by_ensures(leq);
    vstd::seq_lib::to_multiset_len(all);
    vstd::seq_lib::to_multiset_len(all.sort_by(leq));
    let t = first_ten(all.sort_by(leq));
    assert forall|i: int, j: int| 0 <= i < j < t.len() implies #[trigger] leq(t[i], t[j]) by {
        assert(t[i] == all.sort_by(leq)[i]);
        assert(t[j] == all.sort_by(leq)[j]);
    }
}

/// How long the current level has lasted, in nanoseconds.
pub struct GameDuration(pub u128);

/// Whether the debug view is on.
pub struct DebugMode(pub bool);

/// Whether the game window has the focus.
pub struct Activated(pub bool);

/// The number of frames drawn in the last second.
pub struct FpsCounter(pub usize);

/// The help text.
pub struct Help(pub String);

/// What the game is asked to do with the levels.
#[derive(Clone, Copy, Debug, PartialEq, Eq, Structural)]
pub enum LevelAction {
    Custom,
    Next,
    Reset,
    ReturnHall,
    Level(usize),
}

/// The level actions asked for since the last update.
pub struct LevelActions(pub Vec<LevelAction>);

/// The screen of the menu.
#[derive(Clone, Copy, Debug, PartialEq, Eq, Structural)]
pub enum MenuStateState {
    Pause,
    Input(Input),
    Game,
    Help,
    Restart,
    CreateCustom,
}

impl MenuStateState {
    /// The game is paused on every screen of the menu but the game itself.
    pub fn paused(&self) -> (p: bool)
        ensures
            p == !(*self == MenuStateState::Game),
    {
        match *self {
            MenuStateState::Input(_) => true,
            MenuStateState::Pause => true,
            MenuStateState::Restart => true,
            MenuStateState::CreateCustom => true,
            MenuStateState::Game => false,
            MenuStateState::Help => true,
        }
    }
}

/// The two device identifiers are the same.
fn same_uuid(a: &[u8; 16], b: &[u8; 16]) -> (r: bool)
    ensures
        r == (*a == *b),
{
    let mut i: usize = 0;
    while i < 16
        invariant
            i <= 16,
            forall|j: int| 0 <= j < i ==> a[j] == b[j],
        decreases 16 - i,
    {
        if a[i] != b[i] {
            return false;
        }
        i = i + 1;
    }
    proof {
        broadcast use vstd::array::axiom_array_ext_equal;
        assert(*a =~= *b);
    }
    true
}

/// Records the graphics device in use; returns whether it changed, which
/// is when there was no record or another device.
pub fn set_vulkan_device_uuid_lazy(saved: &mut Option<[u8; 16]>, uuid: &[u8; 16]) -> (changed: bool)
    ensures
        changed == (*old(saved) != Some(*uuid)),
        *final(saved) == Some(*uuid),
{
    let changed = match saved {
        Some(s) => !same_uuid(s, uuid),
        None => true,
    };
    if changed {
        *saved = Some(*uuid);
    }
    changed
}

} // verus!
