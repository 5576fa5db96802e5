use word_quiz::clock::{Clock, ManualClock, SystemClock};
use word_quiz::dictionary::JsonDictionary;
use word_quiz::engine::{ConfigError, Engine, GameConfig, GameState};
use word_quiz::select::{RandomSelector, ScriptedSelector, WordSelector};

fn dict(json: &str) -> JsonDictionary {
    JsonDictionary::new(json).unwrap()
}

fn single_entry() -> JsonDictionary {
    dict(r#"[{"WORD":"Rust","DEFINITION":"Awesome Language!"}]"#)
}

fn three_entries() -> JsonDictionary {
    dict(
        r#"[
        {"WORD":"alpha","DEFINITION":"first"},
        {"WORD":"beta","DEFINITION":"second"},
        {"WORD":"gamma","DEFINITION":"third"}
    ]"#,
    )
}

fn config(round_seconds: u64, max_health: u64, points_per_word: u64) -> GameConfig {
    GameConfig { round_seconds, max_health, points_per_word }
}

#[test]
fn empty_dictionary_is_a_config_error() {
    let d = dict("[]");
    assert_eq!(d.len(), 0);
    let r = Engine::new(d, ManualClock::new(0), ScriptedSelector::new(vec![0]), config(30, 3, 10));
    let err = match r {
        Err(e) => e,
        Ok(_) => panic!("construction should fail"),
    };
    assert_eq!(err, ConfigError::EmptyDictionary);
}

#[test]
fn zero_round_seconds_is_a_config_error() {
    let r = Engine::new(
        single_entry(),
        ManualClock::new(0),
        ScriptedSelector::new(vec![0]),
        config(0, 3, 10),
    );
    let err = match r {
        Err(e) => e,
        Ok(_) => panic!("construction should fail"),
    };
    assert_eq!(err, ConfigError::ZeroRoundSeconds);
}

#[test]
fn zero_max_health_is_a_config_error() {
    let r = Engine::new(
        single_entry(),
        ManualClock::new(0),
        ScriptedSelector::new(vec![0]),
        config(30, 0, 10),
    );
    let err = match r {
        Err(e) => e,
        Ok(_) => panic!("construction should fail"),
    };
    assert_eq!(err, ConfigError::ZeroMaxHealth);
}

#[test]
fn construction_starts_stopped_at_full_health() {
    let mut e = Engine::new(
        three_entries(),
        ManualClock::new(0),
        ScriptedSelector::new(vec![0, 1, 2]),
        GameConfig::default(),
    )
    .unwrap();
    assert_eq!(e.get_game_state(), GameState::Stopped);
    assert_eq!(e.get_health(), 3);
    assert_eq!(e.get_score(), 0);
    assert_eq!(e.get_total_attempts(), 0);
    assert_eq!(e.get_successful_attempts(), 0);
    assert_eq!(e.get_total_game_time_seconds(), 0);
    assert_eq!(e.get_round_time_left_seconds(), 0);
    assert_eq!(e.get_definition(), "");
    assert_eq!(e.get_word_length(), 0);
}

#[test]
fn single_entry_happy_path() {
    let mut e = Engine::new(
        single_entry(),
        ManualClock::new(0),
        ScriptedSelector::new(vec![0]),
        config(30, 3, 10),
    )
    .unwrap();
    e.start_timer();
    assert_eq!(e.get_game_state(), GameState::Live);
    assert_eq!(e.get_definition(), "Awesome Language!");
    assert_eq!(e.get_word_length(), 4);
    assert_eq!(e.input_word("rust".to_string()), true);
    assert_eq!(e.get_score(), 10);
    assert_eq!(e.get_successful_attempts(), 1);
    assert_eq!(e.get_total_attempts(), 1);
    assert_eq!(e.get_health(), 3);
    assert_eq!(e.get_game_state(), GameState::Live);
}

#[test]
fn guess_is_trimmed_and_case_folded() {
    let mut e = Engine::new(
        single_entry(),
        ManualClock::new(0),
        ScriptedSelector::new(vec![0]),
        config(30, 3, 10),
    )
    .unwrap();
    e.start_timer();
    assert_eq!(e.input_word("  RuSt\t".to_string()), true);
    assert_eq!(e.input_word("rusty".to_string()), false);
}

#[test]
fn wrong_guess_health_drain_ends_the_game() {
    let mut e = Engine::new(
        three_entries(),
        ManualClock::new(0),
        ScriptedSelector::new(vec![0, 1, 2]),
        config(30, 3, 10),
    )
    .unwrap();
    e.start_timer();
    assert_eq!(e.input_word("wrong".to_string()), false);
    assert_eq!(e.input_word("wrong".to_string()), false);
    assert_eq!(e.input_word("wrong".to_string()), false);
    assert_eq!(e.get_game_state(), GameState::Ended);
    assert_eq!(e.get_health(), 0);
    assert_eq!(e.get_total_attempts(), 3);
    assert_eq!(e.get_successful_attempts(), 0);
    assert_eq!(e.get_score(), 0);
}

#[test]
fn guess_while_stopped_or_ended_is_refused_without_effect() {
    let mut e = Engine::new(
        single_entry(),
        ManualClock::new(0),
        ScriptedSelector::new(vec![0]),
        config(30, 1, 10),
    )
    .unwrap();
    assert_eq!(e.input_word("rust".to_string()), false);
    assert_eq!(e.get_total_attempts(), 0);
    assert_eq!(e.get_game_state(), GameState::Stopped);
    e.start_timer();
    assert_eq!(e.input_word("wrong".to_string()), false);
    assert_eq!(e.get_game_state(), GameState::Ended);
    assert_eq!(e.input_word("rust".to_string()), false);
    assert_eq!(e.get_total_attempts(), 1);
    assert_eq!(e.get_health(), 0);
}

#[test]
fn timeout_under_injected_clock() {
    let mut e = Engine::new(
        single_entry(),
        ManualClock::new(0),
        ScriptedSelector::new(vec![0]),
        config(5, 3, 10),
    )
    .unwrap();
    e.start_timer();
    assert_eq!(e.get_round_time_left_seconds(), 5);
    e.clock_mut().advance(6);
    assert_eq!(e.get_round_time_left_seconds(), 0);
    e.poll();
    assert_eq!(e.get_health(), 2);
    assert_eq!(e.get_total_attempts(), 0);
    assert_eq!(e.get_game_state(), GameState::Live);
}

#[test]
fn round_time_left_counts_down_and_freezes_on_stop() {
    let mut e = Engine::new(
        single_entry(),
        ManualClock::new(100),
        ScriptedSelector::new(vec![0]),
        config(30, 3, 10),
    )
    .unwrap();
    e.start_timer();
    e.clock_mut().advance(12);
    assert_eq!(e.get_round_time_left_seconds(), 18);
    e.stop_timer();
    assert_eq!(e.get_total_game_time_seconds(), 12);
    e.clock_mut().advance(50);
    assert_eq!(e.get_round_time_left_seconds(), 18);
    assert_eq!(e.get_total_game_time_seconds(), 12);
    e.start_timer();
    e.clock_mut().advance(3);
    assert_eq!(e.get_round_time_left_seconds(), 15);
}

#[test]
fn total_game_time_sums_only_ticking_seconds() {
    let mut e = Engine::new(
        single_entry(),
        ManualClock::new(0),
        ScriptedSelector::new(vec![0]),
        config(30, 3, 10),
    )
    .unwrap();
    e.start_timer();
    e.clock_mut().advance(3);
    e.stop_timer();
    e.clock_mut().advance(100);
    e.start_timer();
    e.clock_mut().advance(2);
    assert_eq!(e.input_word("rust".to_string()), true);
    assert_eq!(e.get_total_game_time_seconds(), 5);
}

#[test]
fn skip_word_costs_health_but_no_attempt() {
    let mut e = Engine::new(
        three_entries(),
        ManualClock::new(0),
        ScriptedSelector::new(vec![0, 1, 2]),
        config(30, 3, 10),
    )
    .unwrap();
    e.start_timer();
    e.skip_word();
    assert_eq!(e.get_health(), 2);
    assert_eq!(e.get_total_attempts(), 0);
    assert_eq!(e.get_game_state(), GameState::Live);
    e.skip_word();
    e.skip_word();
    assert_eq!(e.get_game_state(), GameState::Ended);
}

#[test]
fn reset_returns_to_the_post_construction_condition() {
    let mut e = Engine::new(
        three_entries(),
        ManualClock::new(0),
        ScriptedSelector::new(vec![0, 1, 2]),
        config(30, 3, 10),
    )
    .unwrap();
    e.start_timer();
    e.input_word("alpha".to_string());
    e.input_word("wrong".to_string());
    e.reset();
    assert_eq!(e.get_game_state(), GameState::Stopped);
    assert_eq!(e.get_health(), 3);
    assert_eq!(e.get_score(), 0);
    assert_eq!(e.get_total_attempts(), 0);
    assert_eq!(e.get_successful_attempts(), 0);
    assert_eq!(e.get_total_game_time_seconds(), 0);
    assert_eq!(e.get_round_time_left_seconds(), 0);
}

#[test]
fn reset_twice_equals_reset_once() {
    let mut a = Engine::new(
        three_entries(),
        ManualClock::new(0),
        ScriptedSelector::new(vec![0, 1, 2]),
        config(30, 3, 10),
    )
    .unwrap();
    a.start_timer();
    a.input_word("wrong".to_string());
    a.reset();
    let once = (
        a.get_game_state(),
        a.get_health(),
        a.get_score(),
        a.get_total_attempts(),
        a.get_successful_attempts(),
        a.get_total_game_time_seconds(),
        a.get_round_time_left_seconds(),
    );
    a.reset();
    let twice = (
        a.get_game_state(),
        a.get_health(),
        a.get_score(),
        a.get_total_attempts(),
        a.get_successful_attempts(),
        a.get_total_game_time_seconds(),
        a.get_round_time_left_seconds(),
    );
    assert_eq!(once, twice);
}

#[test]
fn stop_when_paused_and_start_when_ticking_are_no_ops() {
    let mut e = Engine::new(
        single_entry(),
        ManualClock::new(0),
        ScriptedSelector::new(vec![0]),
        config(30, 3, 10),
    )
    .unwrap();
    e.stop_timer();
    assert_eq!(e.get_game_state(), GameState::Stopped);
    e.start_timer();
    e.clock_mut().advance(4);
    e.start_timer();
    assert_eq!(e.get_round_time_left_seconds(), 26);
    assert_eq!(e.get_total_game_time_seconds(), 0);
    e.stop_timer();
    let left = e.get_round_time_left_seconds();
    e.stop_timer();
    assert_eq!(e.get_round_time_left_seconds(), left);
    assert_eq!(e.get_total_game_time_seconds(), 4);
}

#[test]
fn single_entry_dictionary_may_repeat() {
    let mut e = Engine::new(
        single_entry(),
        ManualClock::new(0),
        ScriptedSelector::new(vec![0]),
        config(30, 3, 10),
    )
    .unwrap();
    e.start_timer();
    assert_eq!(e.input_word("rust".to_string()), true);
    assert_eq!(e.input_word("rust".to_string()), true);
    assert_eq!(e.get_successful_attempts(), 2);
    assert_eq!(e.get_definition(), "Awesome Language!");
}

#[test]
fn random_selector_avoids_immediate_repeats() {
    let mut s = RandomSelector::new(42);
    let mut prev = None;
    for _ in 0..200 {
        let i = s.next_index(5, prev);
        assert!(i < 5);
        if let Some(p) = prev {
            assert_ne!(i, p);
        }
        prev = Some(i);
    }
}

#[test]
fn manual_clock_advances_and_system_clock_is_monotone() {
    let mut m = ManualClock::new(7);
    assert_eq!(m.now_seconds(), 7);
    m.advance(5);
    assert_eq!(m.now_seconds(), 12);
    let mut s = SystemClock::new();
    let a = s.now_seconds();
    let b = s.now_seconds();
    assert!(a <= b);
}

#[test]
fn normalize_trims_and_folds_ascii() {
    assert_eq!(word_quiz::text::normalize(b"  HeLLo \t"), b"hello".to_vec());
    assert_eq!(word_quiz::text::normalize(b"\r\n"), Vec::<u8>::new());
    assert_eq!(word_quiz::text::matches(b" RUST ", b"rust"), true);
    assert_eq!(word_quiz::text::matches(b"rust", b"rusty"), false);
}

#[test]
fn word_length_counts_letters_not_bytes() {
    let mut e = Engine::new(
        dict(r#"[{"WORD":"naïve","DEFINITION":"too trusting"}]"#),
        ManualClock::new(0),
        ScriptedSelector::new(vec![0]),
        config(30, 3, 10),
    )
    .unwrap();
    e.start_timer();
    assert_eq!(e.get_word_length(), 5);
    assert_eq!(e.input_word("NAÏVE".to_string()), false);
    assert_eq!(e.input_word("naïve".to_string()), true);
}

#[test]
fn score_saturates_instead_of_overflowing() {
    let mut e = Engine::new(
        single_entry(),
        ManualClock::new(0),
        ScriptedSelector::new(vec![0]),
        config(30, 3, u64::MAX),
    )
    .unwrap();
    e.start_timer();
    assert_eq!(e.input_word("rust".to_string()), true);
    assert_eq!(e.get_score(), u64::MAX);
    assert_eq!(e.input_word("rust".to_string()), true);
    assert_eq!(e.get_score(), u64::MAX);
    assert_eq!(e.get_successful_attempts(), 2);
}

#[test]
fn time_left_never_increases_while_ticking() {
    let mut e = Engine::new(
        single_entry(),
        ManualClock::new(0),
        ScriptedSelector::new(vec![0]),
        config(10, 3, 10),
    )
    .unwrap();
    e.start_timer();
    let mut prev = e.get_round_time_left_seconds();
    for _ in 0..12 {
        e.clock_mut().advance(1);
        let next = e.get_round_time_left_seconds();
        assert!(next <= prev);
        prev = next;
    }
    assert_eq!(prev, 0);
}

#[test]
fn default_config_is_thirty_three_ten() {
    let c = GameConfig::default();
    assert_eq!(c.round_seconds, 30);
    assert_eq!(c.max_health, 3);
    assert_eq!(c.points_per_word, 10);
}

#[test]
fn selector_seeded_from_clock_is_deterministic() {
    let mut c1 = ManualClock::new(99);
    let mut c2 = ManualClock::new(99);
    let mut a = RandomSelector::from_clock(&mut c1);
    let mut b = RandomSelector::from_clock(&mut c2);
    for _ in 0..20 {
        assert_eq!(a.next_index(7, None), b.next_index(7, None));
    }
}
