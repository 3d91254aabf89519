//! Display names and the fixed texts players see.

use golf_engine::bot::Difficulty;
use golf_engine::names::{make_bot_name, push_decimal, room_code, sanitize_name, white_space};
use golf_engine::protocol::ErrorCode;
use golf_engine::state::ConfigError;
use golf_engine::RuleError;

#[test]
fn typed_names_are_trimmed_and_cut() {
    assert_eq!(sanitize_name("  Ann  ", 0), "Ann");
    assert_eq!(sanitize_name("Bartholomew the Great", 1), "Bartholomew th");
    assert_eq!(sanitize_name("\u{3000}Zoë\t", 2), "Zoë");
    assert_eq!(sanitize_name("Ann Lee", 0), "Ann Lee");
}

#[test]
fn empty_names_get_a_seat_number() {
    assert_eq!(sanitize_name("", 0), "Player 1");
    assert_eq!(sanitize_name(" \n ", 2), "Player 3");
    assert_eq!(sanitize_name("", 254), "Player 255");
}

#[test]
fn white_space_is_unicode_white_space() {
    for c in [' ', '\t', '\n', '\r', '\u{85}', '\u{a0}', '\u{2003}', '\u{3000}'] {
        assert!(white_space(c), "{c:?}");
        assert_eq!(white_space(c), c.is_whitespace());
    }
    for c in ['a', '0', '_', '\u{200b}', 'é'] {
        assert!(!white_space(c));
        assert_eq!(white_space(c), c.is_whitespace());
    }
}

#[test]
fn numbers_are_written_in_decimal() {
    for n in [0u8, 7, 10, 99, 100, 205, 255] {
        let mut s = String::from("#");
        push_decimal(&mut s, n);
        assert_eq!(s, format!("#{n}"));
    }
}

#[test]
fn bot_names_count_bots() {
    assert_eq!(make_bot_name(Difficulty::Easy, 1), "Easy bot 1");
    assert_eq!(make_bot_name(Difficulty::Hard, 3), "Hard bot 3");
    assert_eq!(Difficulty::Medium.name(), "Medium");
}

#[test]
fn messages_match_their_codes() {
    assert_eq!(ErrorCode::RoomNotFound.name(), "RoomNotFound");
    assert_eq!(ErrorCode::Kicked.name(), "Kicked");
    assert_eq!(RuleError::NotYourTurn.message(), "not your turn");
    assert_eq!(RuleError::SlotFrozen.message(), "that card is already face up");
    assert_eq!(ConfigError::BadPlayerCount.message(), "player count must be between 2 and 4");
    assert_eq!(ConfigError::NoHoles.message(), "number of holes must be at least 1");
}

#[test]
fn room_codes_spell_the_alphabet() {
    assert_eq!(room_code(&[0, 1, 2, 3]), "ABCD");
    assert_eq!(room_code(&[8, 9, 10, 11]), "JKMN");
    assert_eq!(room_code(&[30, 29, 22, 23]), "98Z2");
}
