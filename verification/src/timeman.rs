//! Time management: soft and hard limits derived from the `go` parameters.
//!
//! * soft limit: do not start another iterative-deepening iteration past it;
//! * hard limit: abort the search at once (checked every few thousand nodes).
use vstd::prelude::*;
use crate::types::Color;

verus! {

/// Parsed `go` limits.
#[derive(Clone, Debug)]
pub struct Limits {
    pub depth: Option<u32>,
    pub nodes: Option<u64>,
    pub movetime: Option<u64>,
    pub wtime: Option<u64>,
    pub btime: Option<u64>,
    pub winc: Option<u64>,
    pub binc: Option<u64>,
    pub movestogo: Option<u32>,
    pub infinite: bool,
    /// Safety margin (ms) kept back from the clock budget.
    pub move_overhead_ms: u64,
}

impl Default for Limits {
    fn default() -> (r: Limits)
        ensures
            r.depth is None,
            r.nodes is None,
            r.movetime is None,
            r.wtime is None,
            r.btime is None,
            r.winc is None,
            r.binc is None,
            r.movestogo is None,
            !r.infinite,
            r.move_overhead_ms == 30,
    {
        Limits {
            depth: None,
            nodes: None,
            movetime: None,
            wtime: None,
            btime: None,
            winc: None,
            binc: None,
            movestogo: None,
            infinite: false,
            move_overhead_ms: 30,
        }
    }
}

/// `a - b`, or zero when `b` is larger.
pub open spec fn sat_sub(a: int, b: int) -> int {
    if a > b {
        a - b
    } else {
        0
    }
}

pub open spec fn min(a: int, b: int) -> int {
    if a < b {
        a
    } else {
        b
    }
}

pub open spec fn max(a: int, b: int) -> int {
    if a > b {
        a
    } else {
        b
    }
}

/// The search has a wall clock: a move time or a game clock, and not `infinite`.
pub open spec fn clocked(l: Limits) -> bool {
    !l.infinite && (l.movetime is Some || l.wtime is Some || l.btime is Some)
}

/// Remaining time and increment of the side to move.
pub open spec fn clock_of(l: Limits, stm: Color) -> (int, int) {
    if stm == Color::White {
        (
            match l.wtime {
                Some(t) => t as int,
                None => 0,
            },
            match l.winc {
                Some(i) => i as int,
                None => 0,
            },
        )
    } else {
        (
            match l.btime {
                Some(t) => t as int,
                None => 0,
            },
            match l.binc {
                Some(i) => i as int,
                None => 0,
            },
        )
    }
}

/// Number of moves the clock is spread over: the moves to go (at least one, at
/// most forty), or a horizon from the move number in sudden death (long in the
/// opening, from 24 to 50).
pub open spec fn horizon(l: Limits, fullmove: u32) -> int {
    match l.movestogo {
        Some(m) => min(max(m as int, 1), 40),
        None => {
            let h = sat_sub(55, fullmove * 2);
            if h < 24 {
                24
            } else if h > 50 {
                50
            } else {
                h
            }
        },
    }
}

/// The clock arithmetic stays within `u64`.
pub open spec fn clock_fits(l: Limits, stm: Color) -> bool {
    let (time, inc) = clock_of(l, stm);
    let total = sat_sub(time, l.move_overhead_ms as int);
    !clocked(l) || l.movetime is Some || (inc * 3 <= u64::MAX && total * 8 <= u64::MAX && total
        + inc * 3 / 4 <= u64::MAX)
}

/// Soft and hard limits in milliseconds, or `None` without a wall clock.
pub open spec fn budget(l: Limits, stm: Color, fullmove: u32) -> Option<(int, int)> {
    if !clocked(l) {
        None
    } else {
        match l.movetime {
            Some(mt) => {
                let b = max(sat_sub(mt as int, l.move_overhead_ms as int), 1);
                Some((b, b))
            },
            None => {
                let (time, inc) = clock_of(l, stm);
                let total = sat_sub(time, l.move_overhead_ms as int);
                let cap = total * 8 / 10;
                let soft = max(min(total / horizon(l, fullmove) + inc * 3 / 4, cap), 1);
                let stretch = if l.movestogo is Some { 4int } else { 5int };
                let hard = max(min(soft * stretch, cap), soft);
                Some((soft, hard))
            },
        }
    }
}

/// A reading of the clock.
#[verifier::external_type_specification]
#[verifier::external_body]
pub struct ExInstant(web_time::Instant);

/// Reads the clock: calls `web_time::Instant::now`. Nothing is promised of the reading.
#[verifier::external_body]
fn clock_now() -> web_time::Instant {
    web_time::Instant::now()
}

/// Time since `start`: calls `Instant::elapsed`. Nothing is promised of it.
#[verifier::external_body]
fn clock_elapsed(start: &web_time::Instant) -> core::time::Duration {
    start.elapsed()
}

/// Whole microseconds of `d`: calls `Duration::as_micros`. Nothing is promised of it.
#[verifier::external_body]
fn micros_of(d: core::time::Duration) -> u128 {
    d.as_micros()
}

/// Whole milliseconds of `d`: calls `Duration::as_millis`. Nothing is promised of it.
#[verifier::external_body]
fn millis_of(d: core::time::Duration) -> u128 {
    d.as_millis()
}

/// Soft and hard limits of a search, measured from the moment it was set up.
pub struct TimeManager {
    start: web_time::Instant,
    soft: Option<u64>,
    hard: Option<u64>,
}

impl TimeManager {
    /// Soft limit in milliseconds, if the search has a clock.
    pub closed spec fn soft_limit(&self) -> Option<u64> {
        self.soft
    }

    /// Hard limit in milliseconds, if the search has a clock.
    pub closed spec fn hard_limit(&self) -> Option<u64> {
        self.hard
    }

    /// Is the clock arithmetic of `new` within range for these limits? (`new` asks it.)
    pub fn budget_fits(limits: &Limits, stm: Color) -> (r: bool)
        ensures
            r == clock_fits(*limits, stm),
    {
        if limits.infinite || (limits.movetime.is_none() && limits.wtime.is_none()
            && limits.btime.is_none()) || limits.movetime.is_some() {
            return true;
        }
        let (time, inc) = match stm {
            Color::White => (
                match limits.wtime {
                    Some(t) => t,
                    None => 0,
                },
                match limits.winc {
                    Some(i) => i,
                    None => 0,
                },
            ),
            Color::Black => (
                match limits.btime {
                    Some(t) => t,
                    None => 0,
                },
                match limits.binc {
                    Some(i) => i,
                    None => 0,
                },
            ),
        };
        let total: u64 = if time > limits.move_overhead_ms {
            time - limits.move_overhead_ms
        } else {
            0
        };
        inc <= u64::MAX / 3 && total <= u64::MAX / 8 && total <= u64::MAX - inc * 3 / 4
    }

    /// Set up the limits of a search starting now. `fullmove` is the game's move
    /// number; sudden-death allocation uses it to model how many moves remain.
    pub fn new(limits: &Limits, stm: Color, fullmove: u32) -> (r: TimeManager)
        requires
            clock_fits(*limits, stm),
        ensures
            match budget(*limits, stm, fullmove) {
                Some((s, h)) => r.soft_limit() == Some(s as u64) && r.hard_limit() == Some(h as u64),
                None => r.soft_limit() is None && r.hard_limit() is None,
            },
    {
        let start = clock_now();
        if limits.infinite || (limits.movetime.is_none() && limits.wtime.is_none()
            && limits.btime.is_none()) {
            // Depth, node and infinite searches have no wall-clock budget.
            return TimeManager { start, soft: None, hard: None };
        }
        let overhead = limits.move_overhead_ms;
        if let Some(mt) = limits.movetime {
            let left = if mt > overhead {
                mt - overhead
            } else {
                0
            };
            let b = if left > 1 {
                left
            } else {
                1
            };
            return TimeManager { start, soft: Some(b), hard: Some(b) };
        }
        let (time, inc) = match stm {
            Color::White => (
                match limits.wtime {
                    Some(t) => t,
                    None => 0,
                },
                match limits.winc {
                    Some(i) => i,
                    None => 0,
                },
            ),
            Color::Black => (
                match limits.btime {
                    Some(t) => t,
                    None => 0,
                },
                match limits.binc {
                    Some(i) => i,
                    None => 0,
                },
            ),
        };
        let total: u64 = if time > overhead {
            time - overhead
        } else {
            0
        };
        let cap = total * 8 / 10;
        let (soft, hard) = match limits.movestogo {
            Some(mtg) => {
                // Cap the moves to go so a distant control does not starve every
                // move, and keep a cushion before the control.
                let m1: u64 = if mtg > 1 {
                    mtg as u64
                } else {
                    1
                };
                let m: u64 = if m1 < 40 {
                    m1
                } else {
                    40
                };
                let share = total / m + inc * 3 / 4;
                let s0 = if share < cap {
                    share
                } else {
                    cap
                };
                let soft = if s0 > 1 {
                    s0
                } else {
                    1
                };
                let h0 = if soft * 4 < cap {
                    soft * 4
                } else {
                    cap
                };
                let hard = if h0 > soft {
                    h0
                } else {
                    soft
                };
                (soft, hard)
            },
            None => {
                // Sudden death or increment: the horizon shrinks with the move
                // number, so the opening banks time for the harder middlegame.
                let twice = fullmove as u64 * 2;
                let h = if 55 > twice {
                    55 - twice
                } else {
                    0
                };
                let horizon: u64 = if h < 24 {
                    24
                } else if h > 50 {
                    50
                } else {
                    h
                };
                let share = total / horizon + inc * 3 / 4;
                let s0 = if share < cap {
                    share
                } else {
                    cap
                };
                let soft = if s0 > 1 {
                    s0
                } else {
                    1
                };
                let h0 = if soft * 5 < cap {
                    soft * 5
                } else {
                    cap
                };
                let hard = if h0 > soft {
                    h0
                } else {
                    soft
                };
                (soft, hard)
            },
        };
        TimeManager { start, soft: Some(soft), hard: Some(hard) }
    }

    /// Soft limit in milliseconds, if any.
    pub fn soft_ms(&self) -> (r: Option<u64>)
        ensures
            r == self.soft_limit(),
    {
        self.soft
    }

    /// Hard limit in milliseconds, if any.
    pub fn hard_ms(&self) -> (r: Option<u64>)
        ensures
            r == self.hard_limit(),
    {
        self.hard
    }

    /// True when the search runs against a wall clock (move time or game clock).
    pub fn has_clock(&self) -> (r: bool)
        ensures
            r == self.soft_limit() is Some,
    {
        self.soft.is_some()
    }

    /// Time since the search was set up. The value is a reading of the clock, so
    /// no clause states what it is.
    pub fn elapsed(&self) -> core::time::Duration {
        clock_elapsed(&self.start)
    }

    /// Milliseconds since the search was set up (truncated to 64 bits). The value
    /// is a reading of the clock, so no clause states what it is.
    pub fn elapsed_ms(&self) -> u64 {
        millis_of(clock_elapsed(&self.start)) as u64
    }

    /// Should the search stop right now (hard limit reached)? Never without a clock.
    pub fn hard_expired(&self) -> (r: bool)
        ensures
            r ==> self.hard_limit() is Some,
            exists|us: u128| r == past_limit(self.hard_limit(), 100, us),
    {
        match self.hard {
            Some(h) => {
                let us = micros_of(clock_elapsed(&self.start));
                let r = expired(Some(h), 100, us);
                proof {
                    assert(r == past_limit(self.hard_limit(), 100, us));
                }
                r
            },
            None => {
                proof {
                    assert(!past_limit(self.hard_limit(), 100, 0));
                }
                false
            },
        }
    }

    /// Should the search avoid starting another deepening iteration (soft limit)?
    pub fn soft_expired(&self) -> (r: bool)
        ensures
            r ==> self.soft_limit() is Some,
            exists|us: u128| r == past_limit(self.soft_limit(), 100, us),
    {
        self.soft_expired_scaled(100)
    }

    /// Soft-limit check with the budget scaled to `pct` percent (taken modulo
    /// 2^32). The search shrinks the budget when the best move is stable and
    /// grows it on fail-lows and best-move changes.
    pub fn soft_expired_scaled(&self, pct: u64) -> (r: bool)
        ensures
            r ==> self.soft_limit() is Some,
            exists|us: u128| r == past_limit(self.soft_limit(), pct, us),
    {
        match self.soft {
            Some(s) => {
                let us = micros_of(clock_elapsed(&self.start));
                let r = expired(Some(s), pct, us);
                proof {
                    assert(r == past_limit(self.soft_limit(), pct, us));
                }
                r
            },
            None => {
                proof {
                    assert(!past_limit(self.soft_limit(), pct, 0));
                }
                false
            },
        }
    }
}

/// `elapsed_us` microseconds have reached `limit` milliseconds scaled to `pct`
/// percent (`pct` taken modulo 2^32).
pub open spec fn past_limit(limit: Option<u64>, pct: u64, elapsed_us: u128) -> bool {
    match limit {
        Some(ms) => elapsed_us * 100 >= ms * (pct % 0x1_0000_0000) * 1000,
        None => false,
    }
}

fn expired(limit: Option<u64>, pct: u64, elapsed_us: u128) -> (r: bool)
    ensures
        r == past_limit(limit, pct, elapsed_us),
{
    match limit {
        Some(ms) => {
            let p = (pct % 0x1_0000_0000) as u128;
            proof {
                assert(ms * p <= 0xFFFF_FFFF_FFFF_FFFF * 0xFFFF_FFFF) by (nonlinear_arith)
                    requires
                        ms <= 0xFFFF_FFFF_FFFF_FFFF,
                        p <= 0xFFFF_FFFF;
            }
            let threshold = (ms as u128) * p * 1000;
            if elapsed_us > u128::MAX / 100 {
                true
            } else {
                elapsed_us * 100 >= threshold
            }
        },
        None => false,
    }
}

/// With a clock, the soft limit is at least one millisecond and never above the
/// hard limit; from the game clock (no fixed move time) the hard limit keeps to
/// 80% of the usable time (or one millisecond when that is less).
pub proof fn lemma_budget_sane(l: Limits, stm: Color, fullmove: u32)
    requires
        clocked(l),
    ensures
        budget(l, stm, fullmove) matches Some((s, h)) && 1 <= s <= h,
        l.movetime is None ==> (budget(l, stm, fullmove) matches Some((s, h)) && h <= max(
            sat_sub(clock_of(l, stm).0, l.move_overhead_ms as int) * 8 / 10,
            1,
        )),
        l.movetime is Some ==> (budget(l, stm, fullmove) matches Some((s, h)) && s == h),
{
    let (time, inc) = clock_of(l, stm);
    let total = sat_sub(time, l.move_overhead_ms as int);
    assert(total >= 0 && inc >= 0);
    assert(horizon(l, fullmove) >= 1);
    assert(total / horizon(l, fullmove) >= 0) by (nonlinear_arith)
        requires
            total >= 0,
            horizon(l, fullmove) >= 1;
}

/// In sudden death, a later move never gets a smaller share of the clock: the
/// horizon shrinks with the move number and stays at 24 from move 16 on.
pub proof fn lemma_later_moves_not_starved(l: Limits, stm: Color, f1: u32, f2: u32)
    requires
        clocked(l),
        l.movetime is None,
        l.movestogo is None,
        f1 <= f2,
    ensures
        budget(l, stm, f1) matches Some((s1, h1)) && (budget(l, stm, f2) matches Some((s2, h2))
            && s1 <= s2),
        f1 >= 16 ==> budget(l, stm, f1) == budget(l, stm, f2),
{
    let (time, inc) = clock_of(l, stm);
    let total = sat_sub(time, l.move_overhead_ms as int);
    let h1 = horizon(l, f1);
    let h2 = horizon(l, f2);
    assert(24 <= h2 <= h1);
    assert(total / h1 <= total / h2) by (nonlinear_arith)
        requires
            total >= 0,
            24 <= h2 <= h1;
}

} // verus!
