//! Tick control: the sprint request and its completion report, the game-time
//! reply, and the verification that a single step really advanced the clock.
//!
//! The server acknowledges none of these commands synchronously; what it says
//! arrives later on the chat channel. The functions here decide what to send
//! and what a received message means; waiting and receiving stay with the
//! caller.

use vstd::prelude::*;
use crate::text::{
    after_first, after_first_exec, before_first, before_first_exec, chars_of, contains,
    contains_exec, decimal, push_decimal, string_of, trim, trimmed,
};

verus! {

/// How long a drain waits for each stale chat message, in milliseconds.
pub const CHAT_DRAIN_TIMEOUT_MS: u64 = 10;

/// How long one receive waits for a chat message, in milliseconds.
pub const CHAT_POLL_TIMEOUT_MS: u64 = 100;

/// The pause after an ordinary command, in milliseconds.
pub const COMMAND_DELAY_MS: u64 = 100;

/// How long to wait for a game-time reply, in seconds.
pub const GAMETIME_QUERY_TIMEOUT_SECS: u64 = 5;

/// How long to wait for a single step to show, in seconds.
pub const TICK_STEP_TIMEOUT_SECS: u64 = 5;

/// The pause between two game-time reads while a step is verified.
pub const TICK_STEP_POLL_MS: u64 = 50;

/// How long to wait for a sprint's completion report, in seconds.
pub const SPRINT_TIMEOUT_SECS: u64 = 30;

/// The pacing returned for a sprint whose duration is unknown.
pub const MIN_RETRY_DELAY_MS: u64 = 200;

/// The command that asks for the game time.
pub const GAMETIME_QUERY: &'static str = "time query gametime";

/// The command that advances the frozen clock by one tick.
pub const STEP_COMMAND: &'static str = "tick step";

/// The words that open the game-time reply, before the number.
pub const GAMETIME_PREFIX: &'static str = "The time is ";

/// The words that mark a sprint's completion report.
pub const SPRINT_DONE_MARKER: &'static str = "Sprint completed";

/// The count to request for a sprint of `ticks` ticks. The server runs one
/// tick more than a sprint asks for, so one less is requested.
pub fn sprint_request(ticks: u32) -> (r: u32)
    requires
        ticks >= 1,
    ensures
        r == ticks - 1,
{
    ticks - 1
}

/// The command for a sprint that runs exactly `ticks` ticks.
pub fn sprint_command(ticks: u32) -> (r: String)
    requires
        ticks >= 1,
    ensures
        r@ == "tick sprint "@ + decimal((ticks - 1) as nat),
{
    let mut r = String::from_str("tick sprint ");
    push_decimal(&mut r, sprint_request(ticks));
    r
}

/// What a chat message says about a running sprint.
#[derive(Clone, Debug)]
pub enum SprintReply {
    /// Not a completion report.
    Unrelated,
    /// The sprint completed; the text that should hold the milliseconds per
    /// tick, when the report has the expected shape.
    Completed { ms_per_tick: Option<String> },
}

/// The milliseconds-per-tick text of a completion report: from after the
/// first `or ` up to the next `or ` or ` ms per tick`, without surrounding
/// white space.
pub open spec fn ms_per_tick_text(m: Seq<char>) -> Option<Seq<char>> {
    match after_first(m, "or "@) {
        Some(rest) => Some(trimmed(before_first(before_first(rest, "or "@), " ms per tick"@))),
        None => None,
    }
}

/// Reads a chat message received while a sprint runs.
pub fn sprint_reply(message: &str) -> (r: SprintReply)
    ensures
        !contains(message@, SPRINT_DONE_MARKER@) <==> r is Unrelated,
        r matches SprintReply::Completed { ms_per_tick } ==> match ms_per_tick {
            Some(t) => ms_per_tick_text(message@) == Some(t@),
            None => ms_per_tick_text(message@) is None,
        },
{
    let m = chars_of(message);
    if !contains_exec(&m, &chars_of(SPRINT_DONE_MARKER)) {
        return SprintReply::Unrelated;
    }
    match after_first_exec(&m, &chars_of("or ")) {
        Some(rest) => {
            let piece = before_first_exec(&rest, &chars_of("or "));
            let field = string_of(&before_first_exec(&piece, &chars_of(" ms per tick")));
            let t = String::from_str(trim(field.as_str()));
            SprintReply::Completed { ms_per_tick: Some(t) }
        },
        None => SprintReply::Completed { ms_per_tick: None },
    }
}

/// The time a sprint of `ticks` took, in milliseconds: the reported
/// milliseconds per tick, rounded up, times `ticks`; or the fixed minimum
/// when no figure could be had.
pub fn sprint_total_ms(ms_per_tick: Option<u64>, ticks: u32) -> (r: u64)
    requires
        ms_per_tick matches Some(ms) ==> ms * ticks <= u64::MAX,
    ensures
        r == match ms_per_tick {
            Some(ms) => ms * ticks,
            None => MIN_RETRY_DELAY_MS as int,
        },
{
    match ms_per_tick {
        Some(ms) => ms * (ticks as u64),
        None => MIN_RETRY_DELAY_MS,
    }
}

/// An ASCII decimal digit.
pub open spec fn is_digit(c: char) -> bool {
    '0' <= c <= '9'
}

/// The first index at or after `i` that holds a digit, or the length.
pub open spec fn digits_start(s: Seq<char>, i: int) -> int
    decreases s.len() - i,
{
    if i < 0 || i >= s.len() || is_digit(s[i]) {
        i
    } else {
        digits_start(s, i + 1)
    }
}

/// The first index at or after `i` that does not hold a digit, or the length.
pub open spec fn digits_end(s: Seq<char>, i: int) -> int
    decreases s.len() - i,
{
    if i < 0 || i >= s.len() || !is_digit(s[i]) {
        i
    } else {
        digits_end(s, i + 1)
    }
}

/// The first run of digits in `s` (empty when there is none).
pub open spec fn first_digit_run(s: Seq<char>) -> Seq<char> {
    s.subrange(digits_start(s, 0), digits_end(s, digits_start(s, 0)))
}

/// The value of a sequence of decimal digits.
pub open spec fn digits_value(ds: Seq<char>) -> nat
    decreases ds.len(),
{
    if ds.len() == 0 {
        0
    } else {
        digits_value(ds.drop_last()) * 10 + (ds.last() as nat - '0' as nat) as nat
    }
}

/// The game time that a reply reports: the first run of digits after the
/// reply's opening words, when there is one and it fits a `u32`.
pub open spec fn gametime_of(m: Seq<char>) -> Option<nat> {
    match after_first(m, GAMETIME_PREFIX@) {
        Some(rest) => {
            let run = first_digit_run(rest);
            if run.len() > 0 && digits_value(run) <= u32::MAX {
                Some(digits_value(run))
            } else {
                None
            }
        },
        None => None,
    }
}

proof fn lemma_digits_start_bounds(s: Seq<char>, i: int)
    requires
        0 <= i <= s.len(),
    ensures
        i <= digits_start(s, i) <= s.len(),
        forall|k: int| i <= k < digits_start(s, i) ==> !is_digit(#[trigger] s[k]),
    decreases s.len() - i,
{
    if i < s.len() && !is_digit(s[i]) {
        lemma_digits_start_bounds(s, i + 1);
    }
}

proof fn lemma_digits_end_bounds(s: Seq<char>, i: int)
    requires
        0 <= i <= s.len(),
    ensures
        i <= digits_end(s, i) <= s.len(),
        forall|k: int| i <= k < digits_end(s, i) ==> is_digit(#[trigger] s[k]),
    decreases s.len() - i,
{
    if i < s.len() && is_digit(s[i]) {
        lemma_digits_end_bounds(s, i + 1);
    }
}

proof fn lemma_digits_value_grows(ds: Seq<char>, j: int)
    requires
        0 <= j <= ds.len(),
        forall|k: int| 0 <= k < ds.len() ==> is_digit(#[trigger] ds[k]),
    ensures
        digits_value(ds.subrange(0, j)) <= digits_value(ds),
    decreases ds.len() - j,
{
    if j < ds.len() {
        let longer = ds.subrange(0, j + 1);
        assert(longer.drop_last() =~= ds.subrange(0, j));
        assert(longer[j] == ds[j]);
        lemma_digits_value_grows(ds, j + 1);
    } else {
        assert(ds.subrange(0, j) =~= ds);
    }
}

/// Reads the game time from a reply to the game-time query.
pub fn gametime_from_message(message: &str) -> (r: Option<u32>)
    ensures
        match r {
            Some(t) => gametime_of(message@) == Some(t as nat),
            None => gametime_of(message@) is None,
        },
{
    let m = chars_of(message);
    let rest = match after_first_exec(&m, &chars_of(GAMETIME_PREFIX)) {
        Some(rest) => rest,
        None => {
            return None;
        },
    };
    let n = rest.len();
    let mut i: usize = 0;
    while i < n && !('0' <= rest[i] && rest[i] <= '9')
        invariant
            n == rest@.len(),
            after_first(message@, GAMETIME_PREFIX@) == Some(rest@),
            i <= n,
            digits_start(rest@, i as int) == digits_start(rest@, 0),
        decreases n - i,
    {
        i = i + 1;
    }
    let start = i;
    proof {
        lemma_digits_end_bounds(rest@, start as int);
    }
    let ghost end = digits_end(rest@, start as int);
    let ghost run = first_digit_run(rest@);
    assert(run == rest@.subrange(start as int, end));
    let mut v: u64 = 0;
    while i < n && '0' <= rest[i] && rest[i] <= '9'
        invariant
            n == rest@.len(),
            after_first(message@, GAMETIME_PREFIX@) == Some(rest@),
            start <= i <= end <= n,
            end == digits_end(rest@, start as int),
            digits_end(rest@, i as int) == end,
            run == rest@.subrange(start as int, end),
            run == first_digit_run(rest@),
            forall|k: int| start <= k < end ==> is_digit(#[trigger] rest@[k]),
            v == digits_value(rest@.subrange(start as int, i as int)),
            v <= u32::MAX,
        decreases n - i,
    {
        let d = (rest[i] as u32 - '0' as u32) as u64;
        let ghost before = rest@.subrange(start as int, i as int);
        assert(rest@.subrange(start as int, i + 1).drop_last() =~= before);
        assert(digits_end(rest@, i as int) == digits_end(rest@, i + 1));
        proof {
            lemma_digits_end_bounds(rest@, i + 1);
        }
        v = v * 10 + d;
        i = i + 1;
        if v > 0xffff_ffff {
            proof {
                assert forall|k: int| 0 <= k < run.len() implies is_digit(#[trigger] run[k]) by {
                    assert(run[k] == rest@[start + k]);
                }
                assert(run.subrange(0, i - start) =~= rest@.subrange(start as int, i as int));
                lemma_digits_value_grows(run, i - start);
                assert(digits_value(run) > u32::MAX);
                assert(run.len() > 0);

            }
            return None;
        }
    }
    assert(i == end);
    if i == start {
        return None;
    }
    Some(v as u32)
}

/// How a single-step verification stands after one more game-time read.
#[derive(Clone, Copy, Debug, PartialEq, Eq, Structural)]
pub enum StepStatus {
    /// The game time moved past the time read before the step.
    Advanced,
    /// Not yet; read again after the poll pause.
    Pending,
    /// Not within the allowed time: the step failed.
    TimedOut,
}

/// Judges a game-time read taken `waited_ms` after a step was sent.
pub fn step_status(before: u32, after: u32, waited_ms: u64) -> (r: StepStatus)
    ensures
        r == if after > before {
            StepStatus::Advanced
        } else if waited_ms >= TICK_STEP_TIMEOUT_SECS * 1000 {
            StepStatus::TimedOut
        } else {
            StepStatus::Pending
        },
{
    if after > before {
        StepStatus::Advanced
    } else if waited_ms >= TICK_STEP_TIMEOUT_SECS * 1000 {
        StepStatus::TimedOut
    } else {
        StepStatus::Pending
    }
}

} // verus!
