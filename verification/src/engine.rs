//! The session state machine: rounds, timer discipline, scoring and
//! statistics.
//!
//! The engine owns all mutable session state. It draws words from an
//! injected [`WordSelector`], asks an injected [`Clock`] for time, and is
//! driven by a host through the commands below; every observable is a
//! derived value, and the round timer needs no background work. After
//! construction the engine never fails: commands that are illegal in the
//! current state degrade to no-ops with defined return values.

use vstd::prelude::*;

use crate::clock::Clock;
use crate::dictionary::JsonDictionary;
use crate::dictionary::PairModel;
use crate::select::WordSelector;
use crate::text::guess_matches;
use vstd::arithmetic::div_mod::lemma_fundamental_div_mod;
use vstd::arithmetic::div_mod::lemma_mod_bound;
use vstd::arithmetic::mul::lemma_mul_inequality;
use vstd::utf8::encode_utf8;

verus! {

/// The phase of a session.
#[derive(Clone, Copy, PartialEq, Eq, Structural, Debug)]
pub enum GameState {
    /// Initial or after a reset: no round is drawn, the timer is not
    /// ticking.
    Stopped,
    /// A round is drawn; its timer may be ticking or paused.
    Live,
    /// Health reached zero; no further guesses are accepted until a reset.
    Ended,
}

/// Why an engine could not be constructed.
#[derive(Clone, Copy, PartialEq, Eq, Structural, Debug)]
pub enum ConfigError {
    /// The dictionary holds no entries.
    EmptyDictionary,
    /// The configured round length is zero seconds.
    ZeroRoundSeconds,
    /// The configured starting health is zero.
    ZeroMaxHealth,
}

impl ConfigError {
    /// A short human-readable reason.
    pub fn detail(&self) -> (r: &'static str)
        ensures
            match self {
                ConfigError::EmptyDictionary => r@ == "empty dictionary"@,
                ConfigError::ZeroRoundSeconds => r@ == "round_seconds is zero"@,
                ConfigError::ZeroMaxHealth => r@ == "max_health is zero"@,
            },
    {
        match self {
            ConfigError::EmptyDictionary => "empty dictionary",
            ConfigError::ZeroRoundSeconds => "round_seconds is zero",
            ConfigError::ZeroMaxHealth => "max_health is zero",
        }
    }
}

/// Configuration for a session.
#[derive(Clone, Copy, PartialEq, Eq, Structural, Debug)]
pub struct GameConfig {
    /// Seconds allotted to each round.
    pub round_seconds: u64,
    /// Starting and post-reset health.
    pub max_health: u64,
    /// Score increment per correct guess.
    pub points_per_word: u64,
}

impl Default for GameConfig {
    /// Thirty-second rounds, three health, ten points per word.
    fn default() -> (r: GameConfig)
        ensures
            r.round_seconds == 30,
            r.max_health == 3,
            r.points_per_word == 10,
    {
        GameConfig { round_seconds: 30, max_health: 3, points_per_word: 10 }
    }
}

/// `a + b`, saturating at the largest representable value.
pub open spec fn sat_add(a: u64, b: u64) -> u64 {
    if a + b > u64::MAX {
        u64::MAX
    } else {
        (a + b) as u64
    }
}

/// `a * b`, saturating at the largest representable value.
pub open spec fn sat_mul(a: u64, b: u64) -> u64 {
    if a * b > u64::MAX {
        u64::MAX
    } else {
        (a * b) as u64
    }
}

/// The seconds left of a round whose timer held `remaining` seconds when it
/// was anchored at reading `anchor`, observed at reading `now`.
pub open spec fn spec_left(remaining: u64, anchor: u64, now: u64) -> u64
    recommends
        anchor <= now,
{
    if now - anchor >= remaining {
        0u64
    } else {
        (remaining - (now - anchor)) as u64
    }
}

/// Whether a guess matches a word: both are trimmed of surrounding ASCII
/// whitespace and folded to ASCII lower case, then compared byte for byte
/// under UTF-8.
pub open spec fn words_match(guess: Seq<char>, word: Seq<char>) -> bool {
    guess_matches(encode_utf8(guess), encode_utf8(word))
}

fn sat_add_exec(a: u64, b: u64) -> (r: u64)
    ensures
        r == sat_add(a, b),
{
    if a <= u64::MAX - b {
        a + b
    } else {
        u64::MAX
    }
}

fn sat_mul_exec(a: u64, b: u64) -> (r: u64)
    ensures
        r == sat_mul(a, b),
{
    if b == 0 {
        0
    } else if a <= u64::MAX / b {
        proof {
            let q = (u64::MAX as int) / (b as int);
            lemma_fundamental_div_mod(u64::MAX as int, b as int);
            lemma_mod_bound(u64::MAX as int, b as int);
            assert((u64::MAX / b) as int == q);
            lemma_mul_inequality(a as int, q, b as int);
            assert((b as int) * q == q * (b as int)) by (nonlinear_arith);
            assert(a * b <= u64::MAX);
        }
        a * b
    } else {
        proof {
            let q = (u64::MAX as int) / (b as int);
            lemma_fundamental_div_mod(u64::MAX as int, b as int);
            lemma_mod_bound(u64::MAX as int, b as int);
            assert((u64::MAX / b) as int == q);
            lemma_mul_inequality(q + 1, a as int, b as int);
            assert((q + 1) * (b as int) == q * (b as int) + (b as int)) by (nonlinear_arith);
            assert((b as int) * q == q * (b as int)) by (nonlinear_arith);
            assert(a * b > u64::MAX);
        }
        u64::MAX
    }
}

/// The word-guessing session engine.
pub struct Engine<C: Clock, S: WordSelector> {
    dict: JsonDictionary,
    clock: C,
    selector: S,
    round_seconds: u64,
    max_health: u64,
    points_per_word: u64,
    state: GameState,
    health: u64,
    total_attempts: u64,
    successful_attempts: u64,
    total_game_time: u64,
    current: usize,
    prev: Option<usize>,
    ticking: bool,
    remaining: u64,
    anchor: u64,
}

impl<C: Clock, S: WordSelector> Engine<C, S> {
    /// The entries the engine draws from.
    pub closed spec fn spec_dict(&self) -> Seq<PairModel> {
        self.dict@
    }

    /// The injected clock.
    pub closed spec fn spec_clock(&self) -> C {
        self.clock
    }

    /// The injected selector.
    pub closed spec fn spec_selector(&self) -> S {
        self.selector
    }

    /// The configured round length in seconds.
    pub closed spec fn spec_round_seconds(&self) -> u64 {
        self.round_seconds
    }

    /// The configured starting health.
    pub closed spec fn spec_max_health(&self) -> u64 {
        self.max_health
    }

    /// The configured score increment per correct guess.
    pub closed spec fn spec_points_per_word(&self) -> u64 {
        self.points_per_word
    }

    /// The phase of the session.
    pub closed spec fn spec_state(&self) -> GameState {
        self.state
    }

    /// The current health.
    pub closed spec fn spec_health(&self) -> u64 {
        self.health
    }

    /// Guesses made this session.
    pub closed spec fn spec_total_attempts(&self) -> u64 {
        self.total_attempts
    }

    /// Correct guesses made this session.
    pub closed spec fn spec_successful_attempts(&self) -> u64 {
        self.successful_attempts
    }

    /// Whole seconds spent with the round timer ticking this session.
    pub closed spec fn spec_total_game_time(&self) -> u64 {
        self.total_game_time
    }

    /// The index of the active word.
    pub closed spec fn spec_current(&self) -> usize {
        self.current
    }

    /// The most recently drawn index, which the next draw avoids.
    pub closed spec fn spec_prev(&self) -> Option<usize> {
        self.prev
    }

    /// Whether the round timer is ticking.
    pub closed spec fn spec_ticking(&self) -> bool {
        self.ticking
    }

    /// The seconds the round held when its timer was last anchored; the
    /// frozen value while the timer is paused.
    pub closed spec fn spec_remaining(&self) -> u64 {
        self.remaining
    }

    /// The clock reading at which the round timer was last anchored.
    pub closed spec fn spec_anchor(&self) -> u64 {
        self.anchor
    }

    /// The score: correct guesses times the configured points per word.
    pub open spec fn spec_score(&self) -> u64 {
        sat_mul(self.spec_successful_attempts(), self.spec_points_per_word())
    }

    /// Well-formedness: every engine a constructor or command returns
    /// satisfies this.
    pub closed spec fn wf(&self) -> bool {
        &&& self.max_health >= 1
        &&& self.round_seconds >= 1
        &&& self.health <= self.max_health
        &&& (self.state is Ended <==> self.health == 0)
        &&& self.dict@.len() > 0
        &&& (self.state is Live || self.state is Ended) ==> self.current < self.dict@.len()
        &&& self.ticking ==> self.state is Live
        &&& self.ticking ==> self.anchor <= self.clock.spec_now()
        &&& self.state is Live ==> 1 <= self.remaining <= self.round_seconds
        &&& (match self.prev {
            Some(p) => p < self.dict@.len(),
            None => true,
        })
        &&& self.successful_attempts <= self.total_attempts
    }

    /// Builds an engine over a dictionary, a clock and a selector. The
    /// dictionary must be non-empty and the round length and starting
    /// health positive; each offence is reported as the corresponding
    /// error, and otherwise the engine starts Stopped, at full health, with
    /// all statistics zero and no round drawn.
    pub fn new(dict: JsonDictionary, clock: C, selector: S, config: GameConfig) -> (r: Result<
        Engine<C, S>,
        ConfigError,
    >)
        ensures
            (match r {
                Ok(e) => {
                    &&& dict@.len() > 0
                    &&& config.round_seconds >= 1
                    &&& config.max_health >= 1
                    &&& e.wf()
                    &&& e.spec_state() is Stopped
                    &&& e.spec_health() == config.max_health
                    &&& e.spec_total_attempts() == 0
                    &&& e.spec_successful_attempts() == 0
                    &&& e.spec_total_game_time() == 0
                    &&& e.spec_score() == 0
                    &&& !e.spec_ticking()
                    &&& e.spec_prev() is None
                    &&& e.spec_dict() == dict@
                    &&& e.spec_clock() == clock
                    &&& e.spec_selector() == selector
                    &&& e.spec_round_seconds() == config.round_seconds
                    &&& e.spec_max_health() == config.max_health
                    &&& e.spec_points_per_word() == config.points_per_word
                },
                Err(ConfigError::EmptyDictionary) => dict@.len() == 0,
                Err(ConfigError::ZeroRoundSeconds) => dict@.len() > 0 && config.round_seconds == 0,
                Err(ConfigError::ZeroMaxHealth) => dict@.len() > 0 && config.round_seconds >= 1
                    && config.max_health == 0,
            }),
    {
        if dict.len() == 0 {
            return Err(ConfigError::EmptyDictionary);
        }
        if config.round_seconds == 0 {
            return Err(ConfigError::ZeroRoundSeconds);
        }
        if config.max_health == 0 {
            return Err(ConfigError::ZeroMaxHealth);
        }
        proof {
            assert(sat_mul(0, config.points_per_word) == 0);
        }
        Ok(
            Engine {
                dict,
                clock,
                selector,
                round_seconds: config.round_seconds,
                max_health: config.max_health,
                points_per_word: config.points_per_word,
                state: GameState::Stopped,
                health: config.max_health,
                total_attempts: 0,
                successful_attempts: 0,
                total_game_time: 0,
                current: 0,
                prev: None,
                ticking: false,
                remaining: 0,
                anchor: 0,
            },
        )
    }

    /// The phase of the session.
    pub fn get_game_state(&self) -> (r: GameState)
        ensures
            r == self.spec_state(),
    {
        self.state
    }

    /// The current health, in `[0, max_health]`; zero exactly when the
    /// game has ended.
    pub fn get_health(&self) -> (r: u64)
        ensures
            r == self.spec_health(),
    {
        self.health
    }

    /// Guesses made this session.
    pub fn get_total_attempts(&self) -> (r: u64)
        ensures
            r == self.spec_total_attempts(),
    {
        self.total_attempts
    }

    /// Correct guesses made this session; never more than the total.
    pub fn get_successful_attempts(&self) -> (r: u64)
        ensures
            r == self.spec_successful_attempts(),
    {
        self.successful_attempts
    }

    /// Whole seconds spent with the round timer ticking this session.
    pub fn get_total_game_time_seconds(&self) -> (r: u64)
        ensures
            r == self.spec_total_game_time(),
    {
        self.total_game_time
    }

    /// The score: correct guesses times the configured points per word.
    pub fn get_score(&self) -> (r: u64)
        ensures
            r == self.spec_score(),
    {
        sat_mul_exec(self.successful_attempts, self.points_per_word)
    }

    /// The active round's definition; the empty string when no round is
    /// live.
    pub fn get_definition(&self) -> (r: String)
        requires
            self.wf(),
        ensures
            self.spec_state() is Live ==> r@ == self.spec_dict()[self.spec_current() as int].definition,
            !(self.spec_state() is Live) ==> r@ == Seq::<char>::empty(),
    {
        if matches!(self.state, GameState::Live) {
            self.dict.at(self.current).definition.clone()
        } else {
            String::new()
        }
    }

    /// The letter count of the active word, as a hint for the host's
    /// display; zero when no round is live.
    pub fn get_word_length(&self) -> (r: usize)
        requires
            self.wf(),
        ensures
            self.spec_state() is Live ==> r == self.spec_dict()[self.spec_current() as int].word.len(),
            !(self.spec_state() is Live) ==> r == 0,
    {
        if matches!(self.state, GameState::Live) {
            let w = self.dict.at(self.current);
            let s = w.word.as_str();
            let bs = s.as_bytes();
            proof {
                assert(bs@ == encode_utf8(s@));
                crate::text::lemma_utf8_leading_count(s@);
            }
            crate::text::char_count(bs)
        } else {
            0
        }
    }

    /// Whether `a` and `b` run over the same dictionary under the same
    /// configuration.
    pub open spec fn same_setup(a: &Self, b: &Self) -> bool {
        &&& a.spec_dict() == b.spec_dict()
        &&& a.spec_round_seconds() == b.spec_round_seconds()
        &&& a.spec_max_health() == b.spec_max_health()
        &&& a.spec_points_per_word() == b.spec_points_per_word()
    }

    /// Whether `a` and `b` carry the same session statistics.
    pub open spec fn same_stats(a: &Self, b: &Self) -> bool {
        &&& a.spec_total_attempts() == b.spec_total_attempts()
        &&& a.spec_successful_attempts() == b.spec_successful_attempts()
        &&& a.spec_total_game_time() == b.spec_total_game_time()
    }

    /// Whether `a` and `b` stand in the same round state.
    pub open spec fn same_round(a: &Self, b: &Self) -> bool {
        &&& a.spec_state() == b.spec_state()
        &&& a.spec_health() == b.spec_health()
        &&& a.spec_current() == b.spec_current()
        &&& a.spec_prev() == b.spec_prev()
        &&& a.spec_ticking() == b.spec_ticking()
        &&& a.spec_remaining() == b.spec_remaining()
        &&& a.spec_anchor() == b.spec_anchor()
    }

    /// Draws the next word and resets the round timer to a full round; the
    /// timer keeps its ticking or paused mode, anchored anew at `now` when
    /// ticking.
    fn next_round(&mut self, now: u64)
        requires
            old(self).wf(),
            old(self).spec_state() is Live,
            old(self).spec_ticking() ==> now <= old(self).spec_clock().spec_now(),
        ensures
            final(self).wf(),
            Self::same_setup(old(self), final(self)),
            Self::same_stats(old(self), final(self)),
            final(self).spec_clock() == old(self).spec_clock(),
            final(self).spec_state() == old(self).spec_state(),
            final(self).spec_health() == old(self).spec_health(),
            final(self).spec_ticking() == old(self).spec_ticking(),
            final(self).spec_remaining() == old(self).spec_round_seconds(),
            final(self).spec_ticking() ==> final(self).spec_anchor() == now,
            !final(self).spec_ticking() ==> final(self).spec_anchor() == old(self).spec_anchor(),
            final(self).spec_current() < final(self).spec_dict().len(),
            (match old(self).spec_prev() {
                Some(p) => old(self).spec_dict().len() > 1 ==> final(self).spec_current() != p,
                None => true,
            }),
            final(self).spec_prev() == Some(final(self).spec_current()),
    {
        let len = self.dict.len();
        let idx = self.selector.next_index(len, self.prev);
        self.current = idx;
        self.prev = Some(idx);
        self.remaining = self.round_seconds;
        if self.ticking {
            self.anchor = now;
        }
    }

    /// Applies a round timeout observed at reading `now`: the round's full
    /// ticking remainder is credited to play time and health drops by one;
    /// the session ends at zero health and moves to a fresh round
    /// otherwise. A timeout is not an attempt.
    fn apply_timeout(&mut self, now: u64)
        requires
            old(self).wf(),
            old(self).spec_state() is Live,
            old(self).spec_ticking(),
            now <= old(self).spec_clock().spec_now(),
            old(self).spec_anchor() <= now,
            spec_left(old(self).spec_remaining(), old(self).spec_anchor(), now) == 0,
        ensures
            final(self).wf(),
            Self::same_setup(old(self), final(self)),
            final(self).spec_clock() == old(self).spec_clock(),
            final(self).spec_health() == old(self).spec_health() - 1,
            final(self).spec_total_attempts() == old(self).spec_total_attempts(),
            final(self).spec_successful_attempts() == old(self).spec_successful_attempts(),
            final(self).spec_total_game_time() == sat_add(
                old(self).spec_total_game_time(),
                old(self).spec_remaining(),
            ),
            old(self).spec_health() == 1 ==> final(self).spec_state() is Ended && !final(self).spec_ticking() && final(self).spec_current() == old(self).spec_current(),
            old(self).spec_health() > 1 ==> final(self).spec_state() is Live && final(self).spec_ticking() && final(self).spec_remaining() == old(self).spec_round_seconds()
                && final(self).spec_anchor() == now && final(self).spec_current() < final(self).spec_dict().len(),
    {
        self.total_game_time = sat_add_exec(self.total_game_time, self.remaining);
        self.health = self.health - 1;
        if self.health == 0 {
            self.state = GameState::Ended;
            self.ticking = false;
        } else {
            self.next_round(now);
        }
    }

    /// From Stopped: draws the first word, arms a full round and starts the
    /// timer ticking. From Live with the timer paused: resumes ticking from
    /// the frozen remainder. From Live with the timer already ticking, or
    /// from Ended: leaves the engine untouched.
    pub fn start_timer(&mut self)
        requires
            old(self).wf(),
        ensures
            final(self).wf(),
            Self::same_setup(old(self), final(self)),
            old(self).spec_state() is Ended ==> *final(self) == *old(self),
            old(self).spec_state() is Live && old(self).spec_ticking() ==> *final(self) == *old(self),
            old(self).spec_state() is Live && !old(self).spec_ticking() ==> {
                &&& Self::same_stats(old(self), final(self))
                &&& final(self).spec_state() is Live
                &&& final(self).spec_ticking()
                &&& final(self).spec_health() == old(self).spec_health()
                &&& final(self).spec_current() == old(self).spec_current()
                &&& final(self).spec_prev() == old(self).spec_prev()
                &&& final(self).spec_remaining() == old(self).spec_remaining()
                &&& final(self).spec_anchor() == final(self).spec_clock().spec_now()
                &&& final(self).spec_selector() == old(self).spec_selector()
            },
            old(self).spec_state() is Stopped ==> {
                &&& Self::same_stats(old(self), final(self))
                &&& final(self).spec_state() is Live
                &&& final(self).spec_ticking()
                &&& final(self).spec_health() == old(self).spec_health()
                &&& final(self).spec_remaining() == old(self).spec_round_seconds()
                &&& final(self).spec_anchor() == final(self).spec_clock().spec_now()
                &&& final(self).spec_current() < final(self).spec_dict().len()
                &&& final(self).spec_prev() == Some(final(self).spec_current())
            },
    {
        match self.state {
            GameState::Ended => {},
            GameState::Live => {
                if !self.ticking {
                    let now = self.clock.now_seconds();
                    self.ticking = true;
                    self.anchor = now;
                }
            },
            GameState::Stopped => {
                let now = self.clock.now_seconds();
                self.state = GameState::Live;
                let len = self.dict.len();
                let idx = self.selector.next_index(len, self.prev);
                self.current = idx;
                self.prev = Some(idx);
                self.remaining = self.round_seconds;
                self.ticking = true;
                self.anchor = now;
            },
        }
    }

    /// From Live with the timer ticking: applies a pending timeout, then
    /// freezes the remaining seconds and credits the elapsed ticking time
    /// to total play time. When the timer is not ticking: leaves the engine
    /// untouched.
    pub fn stop_timer(&mut self)
        requires
            old(self).wf(),
        ensures
            final(self).wf(),
            Self::same_setup(old(self), final(self)),
            !old(self).spec_ticking() ==> *final(self) == *old(self),
            old(self).spec_ticking() ==> {
                let now = final(self).spec_clock().spec_now();
                let left = spec_left(old(self).spec_remaining(), old(self).spec_anchor(), now);
                &&& !final(self).spec_ticking()
                &&& final(self).spec_total_attempts() == old(self).spec_total_attempts()
                &&& final(self).spec_successful_attempts() == old(self).spec_successful_attempts()
                &&& (left > 0 ==> {
                    &&& final(self).spec_state() is Live
                    &&& final(self).spec_health() == old(self).spec_health()
                    &&& final(self).spec_remaining() == left
                    &&& final(self).spec_current() == old(self).spec_current()
                    &&& final(self).spec_prev() == old(self).spec_prev()
                    &&& final(self).spec_total_game_time() == sat_add(
                        old(self).spec_total_game_time(),
                        (now - old(self).spec_anchor()) as u64,
                    )
                    &&& final(self).spec_selector() == old(self).spec_selector()
                })
                &&& (left == 0 ==> {
                    &&& final(self).spec_health() == old(self).spec_health() - 1
                    &&& final(self).spec_total_game_time() == sat_add(
                        old(self).spec_total_game_time(),
                        old(self).spec_remaining(),
                    )
                    &&& (old(self).spec_health() == 1 ==> final(self).spec_state() is Ended
                        && final(self).spec_current() == old(self).spec_current())
                    &&& (old(self).spec_health() > 1 ==> final(self).spec_state() is Live && final(self).spec_remaining() == old(self).spec_round_seconds() && final(self).spec_current() < final(self).spec_dict().len())
                })
            },
    {
        if !self.ticking {
            return ;
        }
        let now = self.clock.now_seconds();
        let elapsed = now - self.anchor;
        if elapsed >= self.remaining {
            self.apply_timeout(now);
            if self.state == GameState::Live {
                self.ticking = false;
            }
        } else {
            self.total_game_time = sat_add_exec(self.total_game_time, elapsed);
            self.remaining = self.remaining - elapsed;
            self.ticking = false;
        }
    }

    /// Submits a guess. Legal only while Live: in Stopped or Ended the call
    /// returns `false` and changes nothing, and a round that has already
    /// timed out is closed as a timeout instead, without counting an
    /// attempt. Otherwise the guess counts as an attempt and is matched
    /// against the active word after trimming and ASCII case folding: a hit
    /// scores and draws the next word, a miss costs one health and either
    /// ends the session or draws the next word. The round timer keeps its
    /// ticking or paused mode across the word change.
    pub fn input_word(&mut self, word: String) -> (r: bool)
        requires
            old(self).wf(),
        ensures
            final(self).wf(),
            Self::same_setup(old(self), final(self)),
            final(self).spec_score() >= old(self).spec_score(),
            !(old(self).spec_state() is Live) ==> r == false && *final(self) == *old(self),
            old(self).spec_state() is Live && !old(self).spec_ticking() ==> {
                let hit = words_match(word@, old(self).spec_dict()[old(self).spec_current() as int].word);
                &&& r == hit
                &&& final(self).spec_total_attempts() == sat_add(old(self).spec_total_attempts(), 1)
                &&& final(self).spec_successful_attempts() == (if hit {
                    sat_add(old(self).spec_successful_attempts(), 1)
                } else {
                    old(self).spec_successful_attempts()
                })
                &&& final(self).spec_total_game_time() == old(self).spec_total_game_time()
                &&& !final(self).spec_ticking()
                &&& (hit ==> final(self).spec_state() is Live && final(self).spec_health() == old(self).spec_health()
                    && final(self).spec_remaining() == old(self).spec_round_seconds()
                    && final(self).spec_current() < final(self).spec_dict().len())
                &&& (!hit ==> {
                    &&& final(self).spec_health() == old(self).spec_health() - 1
                    &&& (old(self).spec_health() == 1 ==> final(self).spec_state() is Ended
                        && final(self).spec_current() == old(self).spec_current())
                    &&& (old(self).spec_health() > 1 ==> final(self).spec_state() is Live
                        && final(self).spec_remaining() == old(self).spec_round_seconds()
                        && final(self).spec_current() < final(self).spec_dict().len())
                })
            },
            old(self).spec_state() is Live && old(self).spec_ticking() ==> {
                let now = final(self).spec_clock().spec_now();
                let left = spec_left(old(self).spec_remaining(), old(self).spec_anchor(), now);
                &&& (left == 0 ==> {
                    &&& r == false
                    &&& final(self).spec_total_attempts() == old(self).spec_total_attempts()
                    &&& final(self).spec_successful_attempts() == old(self).spec_successful_attempts()
                    &&& final(self).spec_health() == old(self).spec_health() - 1
                    &&& final(self).spec_total_game_time() == sat_add(
                        old(self).spec_total_game_time(),
                        old(self).spec_remaining(),
                    )
                    &&& (old(self).spec_health() == 1 ==> final(self).spec_state() is Ended
                        && !final(self).spec_ticking())
                    &&& (old(self).spec_health() > 1 ==> final(self).spec_state() is Live
                        && final(self).spec_ticking() && final(self).spec_remaining() == old(self).spec_round_seconds()
                        && final(self).spec_anchor() == now)
                })
                &&& (left > 0 ==> {
                    let hit = words_match(word@, old(self).spec_dict()[old(self).spec_current() as int].word);
                    &&& r == hit
                    &&& final(self).spec_total_attempts() == sat_add(old(self).spec_total_attempts(), 1)
                    &&& final(self).spec_successful_attempts() == (if hit {
                        sat_add(old(self).spec_successful_attempts(), 1)
                    } else {
                        old(self).spec_successful_attempts()
                    })
                    &&& (hit ==> final(self).spec_state() is Live && final(self).spec_health() == old(self).spec_health()
                        && final(self).spec_ticking() && final(self).spec_remaining() == old(self).spec_round_seconds()
                        && final(self).spec_anchor() == now
                        && final(self).spec_total_game_time() == sat_add(
                            old(self).spec_total_game_time(),
                            (now - old(self).spec_anchor()) as u64,
                        ))
                    &&& (!hit ==> {
                        &&& final(self).spec_health() == old(self).spec_health() - 1
                        &&& final(self).spec_total_game_time() == sat_add(
                            old(self).spec_total_game_time(),
                            (now - old(self).spec_anchor()) as u64,
                        )
                        &&& (old(self).spec_health() == 1 ==> final(self).spec_state() is Ended
                            && !final(self).spec_ticking()
                            && final(self).spec_current() == old(self).spec_current())
                        &&& (old(self).spec_health() > 1 ==> final(self).spec_state() is Live
                            && final(self).spec_ticking()
                            && final(self).spec_remaining() == old(self).spec_round_seconds()
                            && final(self).spec_anchor() == now)
                    })
                })
            },
    {
        if !(self.state == GameState::Live) {
            return false;
        }
        proof {
            lemma_score_monotone(
                old(self).spec_successful_attempts(),
                sat_add(old(self).spec_successful_attempts(), 1),
                old(self).spec_points_per_word(),
            );
        }
        if self.ticking {
            let now = self.clock.now_seconds();
            let elapsed = now - self.anchor;
            if elapsed >= self.remaining {
                self.apply_timeout(now);
                return false;
            }
            let hit = {
                let gb = word.as_str().as_bytes();
                let wb = self.dict.at(self.current).word.as_str().as_bytes();
                proof {
                    assert(gb@ == encode_utf8(word@));
                    assert(wb@ == encode_utf8(
                        self.spec_dict()[self.spec_current() as int].word,
                    ));
                }
                crate::text::matches(gb, wb)
            };
            self.total_attempts = sat_add_exec(self.total_attempts, 1);
            self.total_game_time = sat_add_exec(self.total_game_time, elapsed);
            if hit {
                self.successful_attempts = sat_add_exec(self.successful_attempts, 1);
                self.next_round(now);
                true
            } else {
                self.health = self.health - 1;
                if self.health == 0 {
                    self.state = GameState::Ended;
                    self.ticking = false;
                } else {
                    self.next_round(now);
                }
                false
            }
        } else {
            let hit = {
                let gb = word.as_str().as_bytes();
                let wb = self.dict.at(self.current).word.as_str().as_bytes();
                proof {
                    assert(gb@ == encode_utf8(word@));
                    assert(wb@ == encode_utf8(
                        self.spec_dict()[self.spec_current() as int].word,
                    ));
                }
                crate::text::matches(gb, wb)
            };
            self.total_attempts = sat_add_exec(self.total_attempts, 1);
            if hit {
                self.successful_attempts = sat_add_exec(self.successful_attempts, 1);
                self.next_round(0);
                true
            } else {
                self.health = self.health - 1;
                if self.health == 0 {
                    self.state = GameState::Ended;
                    self.ticking = false;
                } else {
                    self.next_round(0);
                }
                false
            }
        }
    }

    /// Gives the active word up. Legal only while Live; otherwise nothing
    /// changes. A skip is penalised like a wrong guess -- one health -- but
    /// does not count as an attempt; a round that has already timed out is
    /// closed as a timeout instead.
    pub fn skip_word(&mut self)
        requires
            old(self).wf(),
        ensures
            final(self).wf(),
            Self::same_setup(old(self), final(self)),
            final(self).spec_total_attempts() == old(self).spec_total_attempts(),
            final(self).spec_successful_attempts() == old(self).spec_successful_attempts(),
            !(old(self).spec_state() is Live) ==> *final(self) == *old(self),
            old(self).spec_state() is Live && !old(self).spec_ticking() ==> {
                &&& final(self).spec_total_game_time() == old(self).spec_total_game_time()
                &&& !final(self).spec_ticking()
                &&& final(self).spec_health() == old(self).spec_health() - 1
                &&& (old(self).spec_health() == 1 ==> final(self).spec_state() is Ended
                    && final(self).spec_current() == old(self).spec_current())
                &&& (old(self).spec_health() > 1 ==> final(self).spec_state() is Live
                    && final(self).spec_remaining() == old(self).spec_round_seconds()
                    && final(self).spec_current() < final(self).spec_dict().len())
            },
            old(self).spec_state() is Live && old(self).spec_ticking() ==> {
                let now = final(self).spec_clock().spec_now();
                let left = spec_left(old(self).spec_remaining(), old(self).spec_anchor(), now);
                &&& final(self).spec_health() == old(self).spec_health() - 1
                &&& final(self).spec_total_game_time() == sat_add(
                    old(self).spec_total_game_time(),
                    (if left == 0 {
                        old(self).spec_remaining()
                    } else {
                        (now - old(self).spec_anchor()) as u64
                    }),
                )
                &&& (old(self).spec_health() == 1 ==> final(self).spec_state() is Ended
                    && !final(self).spec_ticking())
                &&& (old(self).spec_health() > 1 ==> final(self).spec_state() is Live
                    && final(self).spec_ticking()
                    && final(self).spec_remaining() == old(self).spec_round_seconds()
                    && final(self).spec_anchor() == now)
            },
    {
        if !(self.state == GameState::Live) {
            return ;
        }
        if self.ticking {
            let now = self.clock.now_seconds();
            let elapsed = now - self.anchor;
            if elapsed >= self.remaining {
                self.apply_timeout(now);
                return ;
            }
            self.total_game_time = sat_add_exec(self.total_game_time, elapsed);
            self.health = self.health - 1;
            if self.health == 0 {
                self.state = GameState::Ended;
                self.ticking = false;
            } else {
                self.next_round(now);
            }
        } else {
            self.health = self.health - 1;
            if self.health == 0 {
                self.state = GameState::Ended;
                self.ticking = false;
            } else {
                self.next_round(0);
            }
        }
    }

    /// What a reset leaves behind: the post-construction condition over the
    /// same dictionary, clock, selector and configuration.
    pub closed spec fn reset_outcome(pre: &Self, post: &Self) -> bool {
        &&& post.dict == pre.dict
        &&& post.clock == pre.clock
        &&& post.selector == pre.selector
        &&& post.round_seconds == pre.round_seconds
        &&& post.max_health == pre.max_health
        &&& post.points_per_word == pre.points_per_word
        &&& post.state == GameState::Stopped
        &&& post.health == pre.max_health
        &&& post.total_attempts == 0
        &&& post.successful_attempts == 0
        &&& post.total_game_time == 0
        &&& !post.ticking
        &&& post.remaining == 0
        &&& post.anchor == 0
        &&& post.current == 0
        &&& post.prev is None
    }

    /// Returns to the post-construction condition: Stopped, full health,
    /// all statistics zero, no round drawn, timer not ticking. The clock
    /// and the selector are left as they stand, so the word sequence
    /// continues rather than repeating.
    pub fn reset(&mut self)
        requires
            old(self).wf(),
        ensures
            final(self).wf(),
            Self::same_setup(old(self), final(self)),
            Self::reset_outcome(old(self), final(self)),
            final(self).spec_state() is Stopped,
            final(self).spec_health() == old(self).spec_max_health(),
            final(self).spec_total_attempts() == 0,
            final(self).spec_successful_attempts() == 0,
            final(self).spec_total_game_time() == 0,
            final(self).spec_score() == 0,
            !final(self).spec_ticking(),
            final(self).spec_prev() is None,
            final(self).spec_clock() == old(self).spec_clock(),
            final(self).spec_selector() == old(self).spec_selector(),
    {
        self.state = GameState::Stopped;
        self.health = self.max_health;
        self.total_attempts = 0;
        self.successful_attempts = 0;
        self.total_game_time = 0;
        self.ticking = false;
        self.prev = None;
        self.current = 0;
        self.remaining = 0;
        self.anchor = 0;
        proof {
            assert(sat_mul(0, self.points_per_word) == 0);
        }
    }

    /// Resetting twice is the same as resetting once: the second reset
    /// finds the engine exactly where the first one put it and leaves it
    /// there.
    pub proof fn lemma_reset_idempotent(a: &Self, b: &Self, c: &Self)
        requires
            Self::reset_outcome(a, b),
            Self::reset_outcome(b, c),
        ensures
            *c == *b,
    {
    }

    /// Observes the clock and closes the round as a timeout if its time has
    /// run out; in every other situation the engine is left untouched.
    /// Hosts call this between renders so that a timeout is never observed
    /// later than their polling interval.
    pub fn poll(&mut self)
        requires
            old(self).wf(),
        ensures
            final(self).wf(),
            Self::same_setup(old(self), final(self)),
            !(old(self).spec_state() is Live && old(self).spec_ticking()) ==> *final(self)
                == *old(self),
            old(self).spec_state() is Live && old(self).spec_ticking() ==> {
                let now = final(self).spec_clock().spec_now();
                let left = spec_left(old(self).spec_remaining(), old(self).spec_anchor(), now);
                &&& final(self).spec_total_attempts() == old(self).spec_total_attempts()
                &&& final(self).spec_successful_attempts() == old(self).spec_successful_attempts()
                &&& (left > 0 ==> Self::same_round(old(self), final(self)) && Self::same_stats(
                    old(self),
                    final(self),
                ) && final(self).spec_selector() == old(self).spec_selector())
                &&& (left == 0 ==> {
                    &&& final(self).spec_health() == old(self).spec_health() - 1
                    &&& final(self).spec_total_game_time() == sat_add(
                        old(self).spec_total_game_time(),
                        old(self).spec_remaining(),
                    )
                    &&& (old(self).spec_health() == 1 ==> final(self).spec_state() is Ended
                        && !final(self).spec_ticking())
                    &&& (old(self).spec_health() > 1 ==> final(self).spec_state() is Live
                        && final(self).spec_ticking()
                        && final(self).spec_remaining() == old(self).spec_round_seconds()
                        && final(self).spec_anchor() == now)
                })
            },
    {
        if self.state == GameState::Live && self.ticking {
            let now = self.clock.now_seconds();
            let elapsed = now - self.anchor;
            if elapsed >= self.remaining {
                self.apply_timeout(now);
            }
        }
    }

    /// The seconds left in the active round: the value derived from the
    /// clock while the timer is ticking, the frozen value while it is
    /// paused, and zero when no round is live. Never more than the
    /// configured round length.
    pub fn get_round_time_left_seconds(&mut self) -> (r: u64)
        requires
            old(self).wf(),
        ensures
            final(self).wf(),
            r <= old(self).spec_round_seconds(),
            Self::same_setup(old(self), final(self)),
            Self::same_stats(old(self), final(self)),
            Self::same_round(old(self), final(self)),
            final(self).spec_selector() == old(self).spec_selector(),
            !(old(self).spec_state() is Live) ==> r == 0 && *final(self) == *old(self),
            old(self).spec_state() is Live && !old(self).spec_ticking() ==> r == old(self).spec_remaining()
                && *final(self) == *old(self),
            old(self).spec_state() is Live && old(self).spec_ticking() ==> r == spec_left(
                old(self).spec_remaining(),
                old(self).spec_anchor(),
                final(self).spec_clock().spec_now(),
            ),
    {
        if self.state == GameState::Live {
            if self.ticking {
                let now = self.clock.now_seconds();
                let elapsed = now - self.anchor;
                if elapsed >= self.remaining {
                    0
                } else {
                    self.remaining - elapsed
                }
            } else {
                self.remaining
            }
        } else {
            0
        }
    }

    /// Borrows the injected clock, so that a host driving a manual clock
    /// can advance it between commands. Everything else in the engine is
    /// left as it stands.
    pub fn clock_mut(&mut self) -> (r: &mut C)
        ensures
            *r == old(self).spec_clock(),
            final(self).spec_clock() == *final(r),
            Self::same_setup(old(self), final(self)),
            Self::same_stats(old(self), final(self)),
            Self::same_round(old(self), final(self)),
            final(self).spec_selector() == old(self).spec_selector(),
    {
        &mut self.clock
    }

    /// For every well-formed engine: successes never exceed attempts,
    /// health stays within `[0, max_health]`, and the session has ended
    /// exactly when health is zero.
    pub proof fn lemma_session_invariants(&self)
        requires
            self.wf(),
        ensures
            self.spec_successful_attempts() <= self.spec_total_attempts(),
            self.spec_health() <= self.spec_max_health(),
            self.spec_state() is Ended <==> self.spec_health() == 0,
    {
    }
}

/// The score is monotone in the number of successes: more correct guesses
/// never lower it.
pub proof fn lemma_score_monotone(s1: u64, s2: u64, ppw: u64)
    requires
        s1 <= s2,
    ensures
        sat_mul(s1, ppw) <= sat_mul(s2, ppw),
{
    lemma_mul_inequality(s1 as int, s2 as int, ppw as int);
}

/// While the timer is ticking and no command intervenes, the remaining
/// time observed at a later clock reading is never larger than at an
/// earlier one.
pub proof fn lemma_time_left_antitone(remaining: u64, anchor: u64, t1: u64, t2: u64)
    requires
        anchor <= t1 <= t2,
    ensures
        spec_left(remaining, anchor, t2) <= spec_left(remaining, anchor, t1),
{
}

} // verus!
