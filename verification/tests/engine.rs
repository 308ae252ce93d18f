use focus_engine::blockset::compute_blocked_domains;
use focus_engine::config::{
    add_display_rule, add_rule, clear_display_rules, consume_exception, default_date,
    is_suspended, normalize_domain, remove_domain, set_exception_limit, set_manual_override,
    Config, DomainRule,
};
use focus_engine::display::{
    color_matrix, compute_display_target, reconcile_display, screen_name_of_line, DisplayAction,
};
use focus_engine::errors::{ExceptionError, ParseError};
use focus_engine::hosts::reconcile;
use focus_engine::timewin::{in_window, parse_time, TimeOfDay};

fn tod(h: u16, m: u16) -> TimeOfDay {
    TimeOfDay { minutes: h * 60 + m }
}

fn must_parse(s: &str) -> TimeOfDay {
    match parse_time(s) {
        Ok(t) => t,
        Err(_) => panic!("expected {} to parse", s),
    }
}

#[test]
fn parse_time_accepts_valid_times() {
    assert_eq!(must_parse("00:00").minutes, 0);
    assert_eq!(must_parse("09:00").minutes, 540);
    assert_eq!(must_parse("23:59").minutes, 23 * 60 + 59);
}

#[test]
fn parse_time_rejects_malformed_times() {
    assert_eq!(parse_time("24:00"), Err(ParseError));
    assert_eq!(parse_time("12:60"), Err(ParseError));
    assert_eq!(parse_time("9:00"), Err(ParseError));
    assert_eq!(parse_time("12-30"), Err(ParseError));
    assert_eq!(parse_time("ab:cd"), Err(ParseError));
    assert_eq!(parse_time(""), Err(ParseError));
    assert_eq!(parse_time("12:345"), Err(ParseError));
}

#[test]
fn ordinary_window_is_inclusive() {
    let s = tod(9, 0);
    let e = tod(17, 0);
    assert!(in_window(tod(12, 0), s, e));
    assert!(in_window(tod(9, 0), s, e));
    assert!(in_window(tod(17, 0), s, e));
    assert!(!in_window(tod(8, 59), s, e));
    assert!(!in_window(tod(17, 1), s, e));
}

#[test]
fn degenerate_window_matches_one_instant() {
    let s = tod(8, 0);
    assert!(in_window(tod(8, 0), s, s));
    assert!(!in_window(tod(8, 1), s, s));
    assert!(!in_window(tod(7, 59), s, s));
}

#[test]
fn wrapping_window_covers_midnight() {
    let s = must_parse("23:00");
    let e = must_parse("02:00");
    assert!(in_window(tod(1, 0), s, e));
    assert!(in_window(tod(23, 0), s, e));
    assert!(in_window(tod(2, 0), s, e));
    assert!(!in_window(tod(5, 0), s, e));
    assert!(!in_window(tod(22, 59), s, e));
}

#[test]
fn window_and_complement_meet_only_at_boundaries() {
    let s = tod(9, 0);
    let e = tod(17, 0);
    for m in 0..1440u16 {
        let now = TimeOfDay { minutes: m };
        let both = in_window(now, s, e) && in_window(now, e, s);
        assert_eq!(both, now == s || now == e, "at minute {}", m);
    }
}

#[test]
fn whitespace_only_differences_count_as_unchanged() {
    let blocked: Vec<String> = Vec::new();
    let (out, changed) = reconcile("127.0.0.1 localhost\n", &blocked);
    assert_eq!(out, "127.0.0.1 localhost");
    assert!(!changed);
}

#[test]
fn normalize_appends_com_to_bare_names() {
    assert_eq!(normalize_domain("youtube"), "youtube.com");
    assert_eq!(normalize_domain("youtube.com"), "youtube.com");
    assert_eq!(normalize_domain("news.example.org"), "news.example.org");
}

#[test]
fn default_config_matches_documented_defaults() {
    let c = Config::default();
    assert!(c.rules.is_empty());
    assert!(c.display_rules.is_empty());
    assert!(!c.manual_display_override);
    assert_eq!(c.exception_daily_limit, 2);
    assert_eq!(c.exceptions_used_today, 0);
    assert_eq!(c.last_exception_date, "1970-01-01");
    assert_eq!(default_date(), "1970-01-01");
}

#[test]
fn suspension_requires_a_strictly_future_expiry() {
    assert!(!is_suspended(None, 100));
    assert!(!is_suspended(Some(100), 100));
    assert!(!is_suspended(Some(99), 100));
    assert!(is_suspended(Some(101), 100));
}

#[test]
fn add_rule_validates_and_normalizes() {
    let mut c = Config::default();
    assert_eq!(add_rule(&mut c, "youtube", "09:00", "17:00"), Ok(()));
    assert_eq!(c.rules.len(), 1);
    assert_eq!(c.rules[0].domain, "youtube.com");
    assert_eq!(c.rules[0].start_time.minutes, 540);
    assert_eq!(c.rules[0].end_time.minutes, 1020);
    assert!(c.rules[0].exception_until.is_none());

    assert_eq!(add_rule(&mut c, "x.org", "25:00", "17:00"), Err(ParseError));
    assert_eq!(c.rules.len(), 1);
}

#[test]
fn remove_drops_every_rule_of_the_domain() {
    let mut c = Config::default();
    add_rule(&mut c, "a.com", "09:00", "10:00").unwrap();
    add_rule(&mut c, "b.com", "09:00", "10:00").unwrap();
    add_rule(&mut c, "a.com", "20:00", "21:00").unwrap();
    assert!(remove_domain(&mut c, "a.com"));
    assert_eq!(c.rules.len(), 1);
    assert_eq!(c.rules[0].domain, "b.com");
    assert!(!remove_domain(&mut c, "missing.com"));
    assert_eq!(c.rules.len(), 1);
}

#[test]
fn remove_uses_the_same_normalization_as_add() {
    let mut c = Config::default();
    add_rule(&mut c, "youtube", "09:00", "10:00").unwrap();
    assert!(remove_domain(&mut c, "youtube"));
    assert!(c.rules.is_empty());
}

#[test]
fn blocked_domains_are_sorted_and_deduplicated() {
    let mut c = Config::default();
    add_rule(&mut c, "b.com", "00:00", "23:59").unwrap();
    add_rule(&mut c, "a.com", "00:00", "23:59").unwrap();
    add_rule(&mut c, "a.com", "06:00", "07:00").unwrap();
    let blocked = compute_blocked_domains(&c.rules, tod(6, 30), 0);
    assert_eq!(blocked, vec!["a.com".to_string(), "b.com".to_string()]);
}

#[test]
fn blocked_domains_respect_windows() {
    let mut c = Config::default();
    add_rule(&mut c, "a.com", "09:00", "17:00").unwrap();
    add_rule(&mut c, "b.com", "22:00", "06:00").unwrap();
    let blocked = compute_blocked_domains(&c.rules, tod(23, 0), 0);
    assert_eq!(blocked, vec!["b.com".to_string()]);
    let blocked = compute_blocked_domains(&c.rules, tod(12, 0), 0);
    assert_eq!(blocked, vec!["a.com".to_string()]);
    let blocked = compute_blocked_domains(&c.rules, tod(8, 0), 0);
    assert!(blocked.is_empty());
}

#[test]
fn exception_scenario_suspends_then_reapplies() {
    // A block at noon, a thirty-minute exception, and the automatic re-block.
    let mut c = Config::default();
    add_rule(&mut c, "youtube.com", "09:00", "17:00").unwrap();

    let noon_ts: i64 = 43_200;
    let blocked = compute_blocked_domains(&c.rules, tod(12, 0), noon_ts);
    assert_eq!(blocked, vec!["youtube.com".to_string()]);

    let r = consume_exception(&mut c, "youtube.com", noon_ts, "2024-06-01", 30);
    assert_eq!(r, Ok(1));
    assert_eq!(c.exceptions_used_today, 1);
    assert_eq!(c.last_exception_date, "2024-06-01");

    let quarter_past = noon_ts + 15 * 60;
    let blocked = compute_blocked_domains(&c.rules, tod(12, 15), quarter_past);
    assert!(blocked.is_empty());

    let past_expiry = noon_ts + 31 * 60;
    let blocked = compute_blocked_domains(&c.rules, tod(12, 31), past_expiry);
    assert_eq!(blocked, vec!["youtube.com".to_string()]);
}

#[test]
fn exception_grant_covers_every_window_of_the_domain() {
    let mut c = Config::default();
    add_rule(&mut c, "a.com", "09:00", "10:00").unwrap();
    add_rule(&mut c, "a.com", "20:00", "21:00").unwrap();
    let r = consume_exception(&mut c, "a.com", 1_000, "2024-06-01", 10);
    assert_eq!(r, Ok(1));
    assert_eq!(c.rules[0].exception_until, Some(1_600));
    assert_eq!(c.rules[1].exception_until, Some(1_600));
    assert_eq!(c.exceptions_used_today, 1);
}

#[test]
fn exception_quota_blocks_the_next_grant_and_resets_daily() {
    let mut c = Config::default();
    add_rule(&mut c, "a.com", "09:00", "10:00").unwrap();
    assert_eq!(consume_exception(&mut c, "a.com", 0, "2024-06-01", 5), Ok(1));
    assert_eq!(consume_exception(&mut c, "a.com", 60, "2024-06-01", 5), Ok(0));
    assert_eq!(c.exceptions_used_today, 2);

    let refused = consume_exception(&mut c, "a.com", 120, "2024-06-01", 5);
    assert_eq!(refused, Err(ExceptionError::QuotaExceeded));
    assert_eq!(c.exceptions_used_today, 2);
    assert_eq!(c.last_exception_date, "2024-06-01");

    // The day advances: usage resets and the grant succeeds again.
    assert_eq!(consume_exception(&mut c, "a.com", 200, "2024-06-02", 5), Ok(1));
    assert_eq!(c.exceptions_used_today, 1);
    assert_eq!(c.last_exception_date, "2024-06-02");
}

#[test]
fn exception_for_unknown_domain_consumes_nothing() {
    let mut c = Config::default();
    add_rule(&mut c, "a.com", "09:00", "10:00").unwrap();
    let r = consume_exception(&mut c, "missing.com", 0, "2024-06-01", 5);
    assert_eq!(r, Err(ExceptionError::NoSuchRule));
    assert_eq!(c.exceptions_used_today, 0);
    assert_eq!(c.last_exception_date, "1970-01-01");
    assert!(c.rules[0].exception_until.is_none());
}

#[test]
fn exception_limit_can_be_changed() {
    let mut c = Config::default();
    add_rule(&mut c, "a.com", "09:00", "10:00").unwrap();
    set_exception_limit(&mut c, 0);
    let r = consume_exception(&mut c, "a.com", 0, "2024-06-01", 5);
    assert_eq!(r, Err(ExceptionError::QuotaExceeded));
}

#[test]
fn reconcile_replaces_a_stale_managed_block() {
    // Foreign lines survive, stale managed content is regenerated.
    let input = "127.0.0.1 localhost\n# BEGIN FOCUS BLOCK\n<stale>\n# END FOCUS BLOCK\n::1 ip6-localhost";
    let blocked = vec!["a.com".to_string()];
    let (out, changed) = reconcile(input, &blocked);
    assert_eq!(
        out,
        "127.0.0.1 localhost\n::1 ip6-localhost\n# BEGIN FOCUS BLOCK\n127.0.0.1 a.com\n127.0.0.1 www.a.com\n# END FOCUS BLOCK"
    );
    assert!(changed);
}

#[test]
fn reconcile_appends_a_block_to_a_plain_file() {
    let input = "127.0.0.1 localhost";
    let blocked = vec!["a.com".to_string(), "b.org".to_string()];
    let (out, changed) = reconcile(input, &blocked);
    assert_eq!(
        out,
        "127.0.0.1 localhost\n# BEGIN FOCUS BLOCK\n127.0.0.1 a.com\n127.0.0.1 www.a.com\n127.0.0.1 b.org\n127.0.0.1 www.b.org\n# END FOCUS BLOCK"
    );
    assert!(changed);
}

#[test]
fn reconcile_with_no_domains_emits_no_markers() {
    let input = "127.0.0.1 localhost\n# BEGIN FOCUS BLOCK\n127.0.0.1 a.com\n# END FOCUS BLOCK";
    let blocked: Vec<String> = Vec::new();
    let (out, changed) = reconcile(input, &blocked);
    assert_eq!(out, "127.0.0.1 localhost");
    assert!(changed);
}

#[test]
fn reconcile_drops_an_unterminated_region() {
    let input = "keep me\n# BEGIN FOCUS BLOCK\nstale one\nstale two";
    let blocked: Vec<String> = Vec::new();
    let (out, _) = reconcile(input, &blocked);
    assert_eq!(out, "keep me");
}

#[test]
fn reconcile_drops_a_stray_end_marker() {
    let input = "before\n# END FOCUS BLOCK\nafter";
    let blocked: Vec<String> = Vec::new();
    let (out, _) = reconcile(input, &blocked);
    assert_eq!(out, "before\nafter");
}

#[test]
fn reconcile_handles_multiple_block_pairs() {
    let input = "a\n# BEGIN FOCUS BLOCK\nx\n# END FOCUS BLOCK\nb\n# BEGIN FOCUS BLOCK\ny\n# END FOCUS BLOCK\nc";
    let blocked: Vec<String> = Vec::new();
    let (out, _) = reconcile(input, &blocked);
    assert_eq!(out, "a\nb\nc");
}

#[test]
fn reconcile_is_idempotent() {
    let cases: Vec<(&str, Vec<String>)> = vec![
        ("127.0.0.1 localhost\n# BEGIN FOCUS BLOCK\nstale\n# END FOCUS BLOCK\n::1 x", vec![
            "a.com".to_string(),
            "b.com".to_string(),
        ]),
        ("plain file\nwith lines\n", vec!["a.com".to_string()]),
        ("", vec!["a.com".to_string()]),
        ("only foreign\n\ntext", Vec::new()),
        ("", Vec::new()),
        ("trailing\n\n\n", Vec::new()),
    ];
    for (input, blocked) in cases {
        let (once, _) = reconcile(input, &blocked);
        let (_, changed) = reconcile(once.as_str(), &blocked);
        assert!(!changed, "second pass changed for input {:?}", input);
    }
}

#[test]
fn reconcile_reports_unchanged_content() {
    let input = "127.0.0.1 localhost\n# BEGIN FOCUS BLOCK\n127.0.0.1 a.com\n127.0.0.1 www.a.com\n# END FOCUS BLOCK";
    let blocked = vec!["a.com".to_string()];
    let (out, changed) = reconcile(input, &blocked);
    assert_eq!(out, input);
    assert!(!changed);
}

#[test]
fn manual_override_dominates_display_rules() {
    let mut c = Config::default();
    set_manual_override(&mut c, true);
    // No scheduled rule at all, and an instant far from any window.
    assert!(compute_display_target(&c, tod(3, 0)));

    // Override false, but an overlapping window still forces grayscale.
    let mut c = Config::default();
    add_display_rule(&mut c, "20:00", "22:00").unwrap();
    assert!(compute_display_target(&c, tod(21, 0)));
    assert!(!compute_display_target(&c, tod(10, 0)));

    // Override true together with a non-matching window: still forced.
    set_manual_override(&mut c, true);
    assert!(compute_display_target(&c, tod(10, 0)));
}

#[test]
fn clear_display_rules_resets_everything() {
    let mut c = Config::default();
    add_display_rule(&mut c, "20:00", "22:00").unwrap();
    set_manual_override(&mut c, true);
    clear_display_rules(&mut c);
    assert!(c.display_rules.is_empty());
    assert!(!c.manual_display_override);
    assert!(!compute_display_target(&c, tod(21, 0)));
}

#[test]
fn display_rule_rejects_bad_times() {
    let mut c = Config::default();
    assert_eq!(add_display_rule(&mut c, "20:xx", "22:00"), Err(ParseError));
    assert!(c.display_rules.is_empty());
}

#[test]
fn display_reconciler_acts_only_on_transitions() {
    assert_eq!(reconcile_display(true, None), DisplayAction::Apply(true));
    assert_eq!(reconcile_display(false, None), DisplayAction::Apply(false));
    assert_eq!(reconcile_display(true, Some(true)), DisplayAction::NoOp);
    assert_eq!(reconcile_display(false, Some(false)), DisplayAction::NoOp);
    assert_eq!(reconcile_display(true, Some(false)), DisplayAction::Apply(true));
    assert_eq!(reconcile_display(false, Some(true)), DisplayAction::Apply(false));
}

#[test]
fn color_matrices_match_the_display_tool_arguments() {
    assert_eq!(
        color_matrix(true),
        "0.2126, 0.7152, 0.0722, 0.2126, 0.7152, 0.0722, 0.2126, 0.7152, 0.0722"
    );
    assert_eq!(color_matrix(false), "1, 0, 0, 0, 1, 0, 0, 0, 1");
}

#[test]
fn suspended_rules_leave_other_domains_blocked() {
    let mut c = Config::default();
    add_rule(&mut c, "a.com", "00:00", "23:59").unwrap();
    add_rule(&mut c, "b.com", "00:00", "23:59").unwrap();
    consume_exception(&mut c, "a.com", 1_000, "2024-06-01", 10).unwrap();
    let blocked = compute_blocked_domains(&c.rules, tod(12, 0), 1_100);
    assert_eq!(blocked, vec!["b.com".to_string()]);
}

#[test]
fn screen_names_come_from_connected_lines_only() {
    assert_eq!(
        screen_name_of_line("eDP-1 connected primary 1920x1080+0+0 310mm x 170mm"),
        Some("eDP-1".to_string())
    );
    assert_eq!(
        screen_name_of_line("HDMI-1 disconnected (normal left inverted right x axis y axis)"),
        None
    );
    assert_eq!(screen_name_of_line("Screen 0: minimum 320 x 200"), None);
    assert_eq!(screen_name_of_line("   DP-2 connected 2560x1440+1920+0"), Some("DP-2".to_string()));
}

#[test]
fn rules_with_equal_domains_stay_independent() {
    let rules = vec![
        DomainRule {
            domain: "a.com".to_string(),
            start_time: tod(9, 0),
            end_time: tod(10, 0),
            exception_until: None,
        },
        DomainRule {
            domain: "a.com".to_string(),
            start_time: tod(20, 0),
            end_time: tod(21, 0),
            exception_until: Some(1_000_000),
        },
    ];
    // The morning rule is outside its window; the evening rule is suspended.
    let blocked = compute_blocked_domains(&rules, tod(20, 30), 0);
    assert!(blocked.is_empty());
    // The suspended evening rule expires: the domain comes back.
    let blocked = compute_blocked_domains(&rules, tod(20, 30), 2_000_000);
    assert_eq!(blocked, vec!["a.com".to_string()]);
}
