use std::collections::HashMap;

use hyperzen::resource::{
    insert_score, Direction, Input, InputSettings, KeyCode, LevelAction, MenuStateState, MouseButton,
    PossibleInput, Score, Text,
};

fn text() -> Text {
    Text {
        pause: String::from("pause"),
        continue_: String::from("continue_"),
        return_to_hall: String::from("return_to_hall"),
        create_custom_level: String::from("create_custom_level"),
        help: String::from("help"),
        quit: String::from("quit"),
        audio: String::from("audio"),
        music_volume: String::from("music_volume"),
        effect_volume: String::from("effect_volume"),
        video: String::from("video"),
        fullscreen: String::from("fullscreen"),
        controls: String::from("controls"),
        reset: String::from("reset"),
        field_of_view: String::from("field_of_view"),
        mouse_sensibility: String::from("mouse_sensibility"),
        shoot: String::from("shoot"),
        forward: String::from("forward"),
        backward: String::from("backward"),
        right: String::from("right"),
        left: String::from("left"),
        credits: String::from("credits"),
        custom: String::from("custom"),
        configuration: String::from("configuration"),
        size: String::from("size"),
        x_shift: String::from("x_shift"),
        y_shift: String::from("y_shift"),
        filling: String::from("filling"),
        attracted_eraser: String::from("attracted_eraser"),
        avoider_eraser: String::from("avoider_eraser"),
        bouncer_eraser: String::from("bouncer_eraser"),
        motionless_eraser: String::from("motionless_eraser"),
        turret: String::from("turret"),
        input: String::from("input"),
        set_input_or_escape: String::from("set_input_or_escape"),
        restart: String::from("restart"),
        setting_needs_to_restart_the_game: String::from("setting_needs_to_restart_the_game"),
        restart_now: String::from("restart_now"),
        restart_later: String::from("restart_later"),
        ok: String::from("ok"),
        attracted: String::from("attracted"),
        avoider: String::from("avoider"),
        bouncer: String::from("bouncer"),
        motionless: String::from("motionless"),
        go_to_portal: String::from("go_to_portal"),
        remains: String::from("remains"),
        mouse_middle: String::from("middle button"),
        mouse_left: String::from("left button"),
        mouse_right: String::from("right button"),
        mouse_other: String::from("button"),
        key: String::from("key"),
    }
}

fn key(name: &str) -> KeyCode {
    KeyCode { name: String::from(name) }
}

#[test]
fn default_bindings() {
    let s = InputSettings::default();
    assert_eq!(s.input(Input::Shoot), PossibleInput::MouseButton(MouseButton::Left));
    assert_eq!(s.input(Input::Direction(Direction::Forward)), PossibleInput::VirtualKeyCode(key("W")));
    assert_eq!(s.input(Input::Direction(Direction::Backward)), PossibleInput::VirtualKeyCode(key("S")));
    assert_eq!(s.input(Input::Direction(Direction::Left)), PossibleInput::VirtualKeyCode(key("A")));
    assert_eq!(s.input(Input::Direction(Direction::Right)), PossibleInput::VirtualKeyCode(key("D")));
}

#[test]
fn a_binding_reads_back_what_was_set() {
    let mut s = InputSettings::default();
    s.set_input(Input::Shoot, PossibleInput::VirtualKeyCode(key("Space")));
    assert_eq!(s.input(Input::Shoot), PossibleInput::VirtualKeyCode(key("Space")));
    assert_eq!(s.input(Input::Direction(Direction::Forward)), PossibleInput::VirtualKeyCode(key("W")));
}

#[test]
fn keys_trigger_their_actions() {
    let mut s = InputSettings::default();
    assert_eq!(s.convert_keycode_input(&key("W")), vec![Input::Direction(Direction::Forward)]);
    assert_eq!(s.convert_keycode_input(&key("Q")), vec![]);
    s.set_input(Input::Direction(Direction::Left), PossibleInput::VirtualKeyCode(key("W")));
    assert_eq!(
        s.convert_keycode_input(&key("W")),
        vec![Input::Direction(Direction::Forward), Input::Direction(Direction::Left)]
    );
    assert_eq!(s.convert_mouse_button_input(MouseButton::Left), vec![Input::Shoot]);
    assert_eq!(s.convert_mouse_button_input(MouseButton::Right), vec![]);
    s.set_input(Input::Direction(Direction::Right), PossibleInput::MouseButton(MouseButton::Other(4)));
    assert_eq!(s.convert_mouse_button_input(MouseButton::Other(4)), vec![Input::Direction(Direction::Right)]);
    assert_eq!(s.convert_mouse_button_input(MouseButton::Other(5)), vec![]);
}

#[test]
fn binding_texts() {
    let t = text();
    assert_eq!(PossibleInput::VirtualKeyCode(key("W")).text(&t), "key W");
    assert_eq!(PossibleInput::MouseButton(MouseButton::Left).text(&t), "left button");
    assert_eq!(PossibleInput::MouseButton(MouseButton::Right).text(&t), "right button");
    assert_eq!(PossibleInput::MouseButton(MouseButton::Middle).text(&t), "middle button");
    assert_eq!(PossibleInput::MouseButton(MouseButton::Other(7)).text(&t), "button 7");
    assert_eq!(PossibleInput::MouseButton(MouseButton::Other(42)).text(&t), "button 42");
    assert_eq!(PossibleInput::MouseButton(MouseButton::Other(255)).text(&t), "button 255");
    assert_eq!(PossibleInput::MouseButton(MouseButton::Other(100)).text(&t), "button 100");
}

#[test]
fn scores_keep_ten_best_and_ten_last() {
    let mut s = Score::new();
    for d in [50u128, 20, 70, 10, 60, 30, 90, 80, 40, 100, 5, 65] {
        s.insert(d);
    }
    assert_eq!(s.bests, vec![5, 10, 20, 30, 40, 50, 60, 65, 70, 80]);
    assert_eq!(s.lasts, vec![65, 5, 100, 40, 80, 90, 30, 60, 10, 70]);
}

#[test]
fn a_score_sorts_what_it_was_given() {
    let mut s = Score { bests: vec![30, 10], lasts: vec![] };
    s.insert(20);
    assert_eq!(s.bests, vec![10, 20, 30]);
    assert_eq!(s.lasts, vec![20]);
    s.insert(20);
    assert_eq!(s.bests, vec![10, 20, 20, 30]);
}

#[test]
fn the_menu_pauses_the_game() {
    assert!(!MenuStateState::Game.paused());
    assert!(MenuStateState::Pause.paused());
    assert!(MenuStateState::Help.paused());
    assert!(MenuStateState::Input(Input::Shoot).paused());
    assert_eq!(LevelAction::Level(3), LevelAction::Level(3));
}

#[test]
fn scores_by_level() {
    let mut scores: HashMap<usize, Score> = HashMap::new();
    insert_score(&mut scores, 2, 30);
    insert_score(&mut scores, 2, 10);
    insert_score(&mut scores, 5, 7);
    assert_eq!(scores.len(), 2);
    assert_eq!(scores[&2].bests, vec![10, 30]);
    assert_eq!(scores[&2].lasts, vec![10, 30]);
    assert_eq!(scores[&5].bests, vec![7]);
    assert_eq!(scores[&5].lasts, vec![7]);
}

#[test]
fn device_change_is_reported() {
    let mut saved = None;
    assert!(hyperzen::resource::set_vulkan_device_uuid_lazy(&mut saved, &[1; 16]));
    assert_eq!(saved, Some([1; 16]));
    assert!(!hyperzen::resource::set_vulkan_device_uuid_lazy(&mut saved, &[1; 16]));
    let mut other = [1u8; 16];
    other[15] = 2;
    assert!(hyperzen::resource::set_vulkan_device_uuid_lazy(&mut saved, &other));
    assert_eq!(saved, Some(other));
}
