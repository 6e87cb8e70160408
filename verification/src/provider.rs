//! Turning the Portal's combined state reply into a `UIState`, through a tree
//! filter and a tree formatter, and the retry policy around fetching it.
use vstd::prelude::*;

use crate::error::{DroidrunError, Result};
use crate::filter::{side, TreeFilter};
use crate::formatter::TreeFormatter;
use crate::json::{as_text, jget, view_opt, view_opt_owned, JsonValue, JsonView};
use crate::state::{ScreenDimensions, UIState};
use crate::text::{chars_of, push_str, string_of};

verus! {

/// Attempts made to fetch the state before giving up.
pub const STATE_MAX_RETRIES: u32 = 3;

/// Pause between attempts, in milliseconds.
pub const STATE_RETRY_DELAY_MS: u64 = 500;

/// What to do after an attempt to fetch the state.
#[derive(Debug, Clone, Copy, PartialEq, Eq, Structural)]
pub enum RetryAction {
    /// The attempt succeeded: return its result.
    Return,
    /// Wait, then try again.
    RetryAfterDelay,
    /// No attempts left: return the last error.
    GiveUp,
}

/// The retry policy: after attempt number `attempt` (counted from 1), return
/// on success, try again while attempts are left, else give up.
pub open spec fn retry_step(attempt: int, succeeded: bool) -> RetryAction {
    if succeeded {
        RetryAction::Return
    } else if attempt < STATE_MAX_RETRIES {
        RetryAction::RetryAfterDelay
    } else {
        RetryAction::GiveUp
    }
}

/// The decision after attempt number `attempt` (counted from 1).
pub fn after_attempt(attempt: u32, succeeded: bool) -> (r: RetryAction)
    ensures
        r == retry_step(attempt as int, succeeded),
        succeeded ==> r == RetryAction::Return,
        !succeeded && attempt < STATE_MAX_RETRIES ==> r == RetryAction::RetryAfterDelay,
        !succeeded && attempt >= STATE_MAX_RETRIES ==> r == RetryAction::GiveUp,
{
    if succeeded {
        RetryAction::Return
    } else if attempt < STATE_MAX_RETRIES {
        RetryAction::RetryAfterDelay
    } else {
        RetryAction::GiveUp
    }
}

/// The attempt at which a loop that follows `retry_step` from attempt `k` on
/// stops, when attempt `i` succeeds exactly where `ok[i - 1]` holds.
pub open spec fn stop_attempt_from(ok: Seq<bool>, k: int) -> int
    decreases STATE_MAX_RETRIES - k,
{
    if 1 <= k < STATE_MAX_RETRIES && retry_step(k, ok[k - 1]) == RetryAction::RetryAfterDelay {
        stop_attempt_from(ok, k + 1)
    } else {
        k
    }
}

/// The first of the three attempts that succeeds, else the third.
pub open spec fn first_success_or_last(ok: Seq<bool>) -> int {
    if ok[0] {
        1
    } else if ok[1] {
        2
    } else {
        3
    }
}

/// Fetching the state with the retry policy makes attempts until the first
/// success, at most three: the loop stops at the first attempt that
/// succeeds, or after the third, and every attempt before the one it stops
/// at failed. Its result is that attempt's outcome (a success, or the
/// third attempt's error).
pub proof fn lemma_retry_outcome(ok: Seq<bool>)
    requires
        ok.len() >= STATE_MAX_RETRIES,
    ensures
        stop_attempt_from(ok, 1) == first_success_or_last(ok),
        1 <= stop_attempt_from(ok, 1) <= STATE_MAX_RETRIES,
        forall|i: int| 0 <= i < stop_attempt_from(ok, 1) - 1 ==> !#[trigger] ok[i],
        ok[stop_attempt_from(ok, 1) - 1] || stop_attempt_from(ok, 1) == STATE_MAX_RETRIES,
        retry_step(stop_attempt_from(ok, 1), ok[stop_attempt_from(ok, 1) - 1])
            != RetryAction::RetryAfterDelay,
{
    reveal_with_fuel(stop_attempt_from, 4);
}

/// Applies a tree filter and a tree formatter to the device state.
pub struct AndroidStateProvider<F: TreeFilter, M: TreeFormatter> {
    filter: F,
    formatter: M,
    use_normalized: bool,
}

/// A member of the state reply, or `null` when missing.
pub open spec fn member_or_null(v: JsonView, key: Seq<char>) -> JsonView {
    match jget(v, key) {
        Some(x) => x,
        None => JsonView::Null,
    }
}

/// The screen size named by the device context (1080 by 2400 by default).
pub open spec fn screen_of(device_context: JsonView) -> (i32, i32) {
    let sb = member_or_null(device_context, "screen_bounds"@);
    (side(sb, "width"@, 1080), side(sb, "height"@, 2400))
}

/// The state reply names no error and carries the three parts.
pub open spec fn complete_reply(combined: JsonView) -> bool {
    &&& jget(combined, "error"@) is None
    &&& jget(combined, "a11y_tree"@) is Some
    &&& jget(combined, "phone_state"@) is Some
    &&& jget(combined, "device_context"@) is Some
}

impl<F: TreeFilter, M: TreeFormatter> AndroidStateProvider<F, M> {
    /// The filter in use.
    pub closed spec fn filter_of(&self) -> F {
        self.filter
    }

    /// The formatter in use.
    pub closed spec fn formatter_of(&self) -> M {
        self.formatter
    }

    /// Whether coordinates are normalized.
    pub closed spec fn uses_normalized(&self) -> bool {
        self.use_normalized
    }

    pub fn new(filter: F, formatter: M, use_normalized: bool) -> (r: Self)
        ensures
            r.filter_of() == filter,
            r.formatter_of() == formatter,
            r.uses_normalized() == use_normalized,
    {
        AndroidStateProvider { filter, formatter, use_normalized }
    }

    /// The tree the filter keeps for a complete reply.
    pub open spec fn filtered_of(&self, combined: JsonView) -> Option<JsonView> {
        self.filter_of().filter_result(
            member_or_null(combined, "a11y_tree"@),
            member_or_null(combined, "device_context"@),
        )
    }

    /// Whether `process_state` is defined on the reply: for a complete reply,
    /// whether the formatter accepts the filtered tree on the reply's screen.
    pub fn ready_to_process(&self, combined: &JsonValue) -> (b: bool)
        ensures
            b == (complete_reply(combined@) ==> self.formatter_of().accepts(
                self.filtered_of(combined@),
                screen_of(member_or_null(combined@, "device_context"@)).0,
                screen_of(member_or_null(combined@, "device_context"@)).1,
                self.uses_normalized(),
            )),
    {
        if combined.get("error").is_some() {
            return true;
        }
        let tree = match combined.get("a11y_tree") {
            Some(t) => t,
            None => {
                return true;
            },
        };
        if combined.get("phone_state").is_none() {
            return true;
        }
        let device_context = match combined.get("device_context") {
            Some(d) => d,
            None => {
                return true;
            },
        };
        let screen_bounds = match device_context.get("screen_bounds") {
            Some(b) => b.duplicate(),
            None => JsonValue::Null,
        };
        let screen_width = crate::filter::int_field(&screen_bounds, "width", 1080) as i32;
        let screen_height = crate::filter::int_field(&screen_bounds, "height", 2400) as i32;
        let filtered = self.filter.filter(tree, device_context);
        let filtered_ref = match &filtered {
            Some(t) => Some(t),
            None => None,
        };
        assert(view_opt(filtered_ref) == view_opt_owned(filtered));
        self.formatter.accepts_input(filtered_ref, screen_width, screen_height, self.use_normalized)
    }

    /// Builds the UI state from the Portal's combined reply.
    pub fn process_state(&self, combined: &JsonValue) -> (r: Result<UIState>)
        requires
            complete_reply(combined@) ==> self.formatter_of().accepts(
                self.filtered_of(combined@),
                screen_of(member_or_null(combined@, "device_context"@)).0,
                screen_of(member_or_null(combined@, "device_context"@)).1,
                self.uses_normalized(),
            ),
        ensures
            jget(combined@, "error"@) is Some ==> (r matches Err(DroidrunError::PortalCommError(m))
                && m@ == "Portal returned error: "@ + match as_text(jget(combined@, "message"@)) {
                Some(s) => s,
                None => "Unknown error"@,
            }),
            jget(combined@, "error"@) is None && jget(combined@, "a11y_tree"@) is None ==> (r matches Err(
                DroidrunError::Parse(m),
            ) && m@ == "Missing data in state: a11y_tree"@),
            jget(combined@, "error"@) is None && jget(combined@, "a11y_tree"@) is Some && jget(
                combined@,
                "phone_state"@,
            ) is None ==> (r matches Err(DroidrunError::Parse(m)) && m@
                == "Missing data in state: phone_state"@),
            jget(combined@, "error"@) is None && jget(combined@, "a11y_tree"@) is Some && jget(
                combined@,
                "phone_state"@,
            ) is Some && jget(combined@, "device_context"@) is None ==> (r matches Err(
                DroidrunError::Parse(m),
            ) && m@ == "Missing data in state: device_context"@),
            complete_reply(combined@) ==> (r matches Ok(state) && {
                let (w, h) = screen_of(member_or_null(combined@, "device_context"@));
                &&& state.screen == ScreenDimensions { width: w, height: h }
                &&& state.use_normalized == self.uses_normalized()
                &&& self.formatter_of().formats(
                    self.filtered_of(combined@),
                    member_or_null(combined@, "phone_state"@),
                    w,
                    h,
                    self.uses_normalized(),
                    state.formatted_text@,
                    state.focused_text@,
                    state.elements@,
                    state.phone_state,
                )
            }),
    {
        if combined.get("error").is_some() {
            let mut m = chars_of("Portal returned error: ");
            match combined.get("message") {
                Some(v) => match v.as_str() {
                    Some(s) => push_str(&mut m, s),
                    None => push_str(&mut m, "Unknown error"),
                },
                None => push_str(&mut m, "Unknown error"),
            }
            return Err(DroidrunError::PortalCommError(string_of(m.as_slice())));
        }
        let tree = match combined.get("a11y_tree") {
            Some(t) => t,
            None => {
                return Err(DroidrunError::Parse("Missing data in state: a11y_tree".to_owned()));
            },
        };
        let phone_state = match combined.get("phone_state") {
            Some(p) => p,
            None => {
                return Err(DroidrunError::Parse("Missing data in state: phone_state".to_owned()));
            },
        };
        let device_context = match combined.get("device_context") {
            Some(d) => d,
            None => {
                return Err(
                    DroidrunError::Parse("Missing data in state: device_context".to_owned()),
                );
            },
        };
        let screen_bounds = match device_context.get("screen_bounds") {
            Some(b) => b.duplicate(),
            None => JsonValue::Null,
        };
        let screen_width = crate::filter::int_field(&screen_bounds, "width", 1080) as i32;
        let screen_height = crate::filter::int_field(&screen_bounds, "height", 2400) as i32;
        let filtered = self.filter.filter(tree, device_context);
        let filtered_ref = match &filtered {
            Some(t) => Some(t),
            None => None,
        };
        assert(view_opt(filtered_ref) == view_opt_owned(filtered));
        let (formatted_text, focused_text, elements, parsed) = self.formatter.format(
            filtered_ref,
            phone_state,
            screen_width,
            screen_height,
            self.use_normalized,
        );
        Ok(
            UIState::new(
                elements,
                formatted_text,
                focused_text,
                parsed,
                ScreenDimensions { width: screen_width, height: screen_height },
                self.use_normalized,
            ),
        )
    }
}

} // verus!
