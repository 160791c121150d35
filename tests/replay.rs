use orca_bot::parser::{parse_orca_code, OrcaSource, ParseConfig};
use orca_bot::replay::{replay_events, InputEvent, Key};
use orca_bot::replay::InputEvent::{Char, Pressed, Released};

#[test]
fn two_by_two_grid_events() {
    let cfg = ParseConfig::default();
    let src = parse_orca_code("AB\ncd", &cfg).unwrap();
    let ev = replay_events(&src);
    let row = |a: u8, b: u8| {
        vec![
            Char(a),
            Pressed(Key::Right),
            Released(Key::Right),
            Char(b),
            Pressed(Key::Right),
            Released(Key::Right),
            Pressed(Key::Down),
            Released(Key::Down),
            Pressed(Key::Left),
            Released(Key::Left),
            Pressed(Key::Left),
            Released(Key::Left),
        ]
    };
    let mut expected = row(b'A', b'B');
    expected.extend(row(b'c', b'd'));
    assert_eq!(ev, expected);
}

#[test]
fn event_counts_match_grid_size() {
    let src = OrcaSource { data: "abcdefghijkl".chars().collect(), width: 4 };
    let ev = replay_events(&src);
    let count = |e: InputEvent| ev.iter().filter(|x| **x == e).count();
    assert_eq!(ev.iter().filter(|x| matches!(x, InputEvent::Char(_))).count(), 12);
    assert_eq!(count(InputEvent::Pressed(Key::Right)), 12);
    assert_eq!(count(InputEvent::Released(Key::Right)), 12);
    assert_eq!(count(InputEvent::Pressed(Key::Left)), 12);
    assert_eq!(count(InputEvent::Released(Key::Left)), 12);
    assert_eq!(count(InputEvent::Pressed(Key::Down)), 3);
    assert_eq!(count(InputEvent::Released(Key::Down)), 3);
}

#[test]
fn wide_characters_are_truncated_to_a_byte() {
    let src = OrcaSource { data: vec!['\u{141}'], width: 1 };
    let ev = replay_events(&src);
    assert_eq!(ev[0], InputEvent::Char(0x41));
}

#[test]
fn replay_is_deterministic() {
    let src = OrcaSource { data: "x.*=".chars().collect(), width: 2 };
    assert_eq!(replay_events(&src), replay_events(&src));
}
