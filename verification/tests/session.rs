use xiaozhongsi::session::{door, frame, react, turned_away, Door, Reaction, BUSY, NEED_TTY, NO_KEY};
use xiaozhongsi::world::Action;

#[test]
fn door_needs_terminal_and_key() {
    assert_eq!(door(true, true, 0, 32), Door::Enter);
    assert_eq!(door(false, true, 0, 32), Door::NeedTerminal);
    assert_eq!(door(true, false, 0, 32), Door::NeedKey);
    assert_eq!(door(false, false, 40, 32), Door::NeedKey);
    assert_eq!(turned_away(Door::NeedTerminal), NEED_TTY);
    assert_eq!(turned_away(Door::NeedKey), NO_KEY);
    assert!(NO_KEY.contains("ssh-keygen -t ed25519"));
    assert_eq!(turned_away(Door::Enter), "");
}

#[test]
fn full_temple_turns_pilgrims_away() {
    assert_eq!(door(true, true, 31, 32), Door::Enter);
    assert_eq!(door(true, true, 32, 32), Door::Full);
    assert_eq!(door(false, true, 32, 32), Door::NeedTerminal);
    assert_eq!(turned_away(Door::Full), "寺中擁擠 · 香客已滿 · 稍後再來 🔔\r\n");
    assert_eq!(BUSY, "寺中擁擠 · 稍後再來 🔔\r\n");
}

#[test]
fn frame_rings_first() {
    assert_eq!(frame(true, "鐘"), vec![7, 0xe9, 0x90, 0x98]);
    assert_eq!(frame(false, "ab"), b"ab".to_vec());
}

#[test]
fn bell_is_heard_incense_is_quiet() {
    assert_eq!(react(Action::Ring), Reaction::Count { bell: true });
    assert_eq!(react(Action::Burn), Reaction::Count { bell: false });
    assert_eq!(react(Action::Pet), Reaction::Pet);
    assert_eq!(react(Action::Talk), Reaction::Draw { bell: false });
    assert_eq!(react(Action::Redraw), Reaction::Draw { bell: false });
    assert_eq!(react(Action::Idle), Reaction::Nothing);
    assert_eq!(react(Action::Leave), Reaction::Goodbye);
}
