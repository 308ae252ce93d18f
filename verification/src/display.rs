use crate::config::Config;
use crate::strutil::{contains_seq, contains_str, first_token, first_token_spec};
use crate::timewin::{in_window, in_window_spec, TimeOfDay};
use vstd::prelude::*;

verus! {

/// The name of the display that one line of the display tool's listing
/// announces: a line holding ` connected` names a connected output, and its
/// first word is the output's name. Lines of other kinds carry no name.
pub fn screen_name_of_line(line: &str) -> (r: Option<String>)
    ensures
        r is Some <==> contains_seq(line@, " connected"@),
        r is Some ==> r->0@ == (match first_token_spec(line@) {
            Some(t) => t,
            None => "default"@,
        }),
{
    if contains_str(line, " connected") {
        match first_token(line) {
            Some(t) => Some(t),
            None => Some(String::from_str("default")),
        }
    } else {
        None
    }
}

/// Whether one scheduled rule forces grayscale at this instant.
pub open spec fn display_rule_hit(c: Config, i: int, now_minutes: int) -> bool {
    in_window_spec(
        now_minutes,
        c.display_rules@[i].start_time.minutes as int,
        c.display_rules@[i].end_time.minutes as int,
    )
}

/// The display target state: grayscale is forced either by the manual
/// override, which dominates everything, or by any scheduled rule whose
/// window covers this instant.
pub open spec fn display_target_spec(c: Config, now_minutes: int) -> bool {
    c.manual_display_override || exists|i: int|
        0 <= i < c.display_rules@.len() && #[trigger] display_rule_hit(c, i, now_minutes)
}

/// Computes whether the display must be grayscale now.
pub fn compute_display_target(config: &Config, now_time: TimeOfDay) -> (r: bool)
    ensures
        r == display_target_spec(*config, now_time.minutes as int),
{
    if config.manual_display_override {
        return true;
    }
    let mut i: usize = 0;
    while i < config.display_rules.len()
        invariant
            0 <= i <= config.display_rules@.len(),
            forall|k: int|
                0 <= k < i ==> !#[trigger] display_rule_hit(
                    *config,
                    k,
                    now_time.minutes as int,
                ),
        decreases config.display_rules@.len() - i,
    {
        let rule = &config.display_rules[i];
        if in_window(now_time, rule.start_time, rule.end_time) {
            proof {
                assert(display_rule_hit(*config, i as int, now_time.minutes as int));
            }
            return true;
        }
        i = i + 1;
    }
    false
}

/// The manual override forces grayscale whatever the scheduled rules say,
/// and without it any one overlapping window is already enough.
pub proof fn lemma_display_forcing(c: Config, now_minutes: int, i: int)
    ensures
        c.manual_display_override ==> display_target_spec(c, now_minutes),
        0 <= i < c.display_rules@.len() && display_rule_hit(c, i, now_minutes)
            ==> display_target_spec(c, now_minutes),
{
}

/// What the display reconciler decides: leave the display alone, or apply
/// a grayscale state to it.
#[derive(Clone, Copy, Debug, PartialEq, Eq, Structural)]
pub enum DisplayAction {
    NoOp,
    Apply(bool),
}

/// Compares the computed target against the last state known to be applied
/// and orders an external call only on a transition. An unknown last state
/// (start-up, or an earlier failure) always orders an apply, so a cycle
/// never leaves the display stuck.
pub fn reconcile_display(target: bool, last_applied: Option<bool>) -> (r: DisplayAction)
    ensures
        r == (match last_applied {
            Some(prev) => if prev == target {
                DisplayAction::NoOp
            } else {
                DisplayAction::Apply(target)
            },
            None => DisplayAction::Apply(target),
        }),
{
    match last_applied {
        Some(prev) => {
            if prev == target {
                DisplayAction::NoOp
            } else {
                DisplayAction::Apply(target)
            }
        },
        None => DisplayAction::Apply(target),
    }
}

/// The color transformation matrix that the external display tool is handed
/// for each target state: the grayscale weights, or the identity.
pub fn color_matrix(grayscale: bool) -> (r: &'static str)
    ensures
        grayscale ==> r@ == "0.2126, 0.7152, 0.0722, 0.2126, 0.7152, 0.0722, 0.2126, 0.7152, 0.0722"@,
        !grayscale ==> r@ == "1, 0, 0, 0, 1, 0, 0, 0, 1"@,
{
    if grayscale {
        "0.2126, 0.7152, 0.0722, 0.2126, 0.7152, 0.0722, 0.2126, 0.7152, 0.0722"
    } else {
        "1, 0, 0, 0, 1, 0, 0, 0, 1"
    }
}

} // verus!
