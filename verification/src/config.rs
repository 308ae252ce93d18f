use crate::errors::ExceptionError;
use crate::errors::ParseError;
use crate::strutil::str_eq;
use crate::timewin::{parse_time, time_str_minutes, valid_time_str, TimeOfDay};
use vstd::prelude::*;

verus! {

/// One domain-blocking rule: the domain is blocked while the wall clock lies
/// inside `[start_time, end_time]`, unless an exception suspends the rule.
/// Several rules may share a domain, one per independent window.
pub struct DomainRule {
    /// Canonical domain, as `normalize_domain` produces it.
    pub domain: String,
    pub start_time: TimeOfDay,
    pub end_time: TimeOfDay,
    /// When present, the rule is suspended strictly before this timestamp,
    /// counted in seconds.
    pub exception_until: Option<i64>,
}

impl Clone for DomainRule {
    fn clone(&self) -> (r: Self)
        ensures
            r == *self,
    {
        DomainRule {
            domain: self.domain.clone(),
            start_time: self.start_time,
            end_time: self.end_time,
            exception_until: self.exception_until,
        }
    }
}

impl DomainRule {
    /// Both window endpoints are valid times of day.
    pub open spec fn wf(&self) -> bool {
        self.start_time.wf() && self.end_time.wf()
    }
}

/// A window during which the display is forced to grayscale.
pub struct DisplayRule {
    pub start_time: TimeOfDay,
    pub end_time: TimeOfDay,
    pub enabled: bool,
}

impl Clone for DisplayRule {
    fn clone(&self) -> (r: Self)
        ensures
            r == *self,
    {
        DisplayRule {
            start_time: self.start_time,
            end_time: self.end_time,
            enabled: self.enabled,
        }
    }
}

impl DisplayRule {
    /// Both window endpoints are valid times of day.
    pub open spec fn wf(&self) -> bool {
        self.start_time.wf() && self.end_time.wf()
    }
}

/// The whole configuration snapshot. The caller loads it, hands it to the
/// engine, and persists whatever comes back; the engine holds no state of
/// its own across calls.
pub struct Config {
    pub rules: Vec<DomainRule>,
    pub display_rules: Vec<DisplayRule>,
    /// When true, grayscale is forced regardless of any display rule.
    pub manual_display_override: bool,
    /// How many exception grants one day allows.
    pub exception_daily_limit: u32,
    /// Grants consumed on `last_exception_date`.
    pub exceptions_used_today: u32,
    /// The day, as `YYYY-MM-DD`, that `exceptions_used_today` counts for.
    pub last_exception_date: String,
}

impl Config {
    /// Every stored rule carries valid times of day.
    pub open spec fn wf(&self) -> bool {
        &&& forall|i: int| 0 <= i < self.rules@.len() ==> (#[trigger] self.rules@[i]).wf()
        &&& forall|i: int|
            0 <= i < self.display_rules@.len() ==> (#[trigger] self.display_rules@[i]).wf()
    }
}

/// The sentinel date used before any exception was ever granted.
pub fn default_date() -> (r: String)
    ensures
        r@ == "1970-01-01"@,
{
    String::from_str("1970-01-01")
}

impl Default for Config {
    /// An empty configuration: no rules, override off, two exception grants
    /// per day, none used, dated by the sentinel.
    fn default() -> (r: Self)
        ensures
            r.rules@.len() == 0,
            r.display_rules@.len() == 0,
            !r.manual_display_override,
            r.exception_daily_limit == 2,
            r.exceptions_used_today == 0,
            r.last_exception_date@ == "1970-01-01"@,
            r.wf(),
    {
        Config {
            rules: Vec::new(),
            display_rules: Vec::new(),
            manual_display_override: false,
            exception_daily_limit: 2,
            exceptions_used_today: 0,
            last_exception_date: default_date(),
        }
    }
}

/// Whether a character occurs in a string.
pub open spec fn contains_char(s: Seq<char>, c: char) -> bool {
    exists|i: int| 0 <= i < s.len() && s[i] == c
}

/// The canonical form of a domain: a bare name, one without any dot, gets
/// `.com` appended; anything else is kept verbatim.
pub open spec fn normalize_spec(s: Seq<char>) -> Seq<char> {
    if contains_char(s, '.') {
        s
    } else {
        s + ".com"@
    }
}

/// Rewrites a domain into its canonical form; every domain-keyed entry
/// point applies this same convention.
pub fn normalize_domain(input: &str) -> (r: String)
    ensures
        r@ == normalize_spec(input@),
{
    let len = input.unicode_len();
    let mut i: usize = 0;
    while i < len
        invariant
            0 <= i <= len,
            len == input@.len(),
            forall|k: int| 0 <= k < i ==> input@[k] != '.',
        decreases len - i,
    {
        if input.get_char(i) == '.' {
            return input.to_owned();
        }
        i = i + 1;
    }
    input.to_owned().concat(".com")
}

/// Whether a block is currently suspended: an exception is present and its
/// expiry lies strictly in the future. An absent or expired exception means
/// the block applies again, with no cleanup required.
pub open spec fn suspended_spec(exception_until: Option<i64>, now: int) -> bool {
    match exception_until {
        Some(t) => t > now,
        None => false,
    }
}

/// Decides whether an exception currently suspends a block.
pub fn is_suspended(exception_until: Option<i64>, now: i64) -> (r: bool)
    ensures
        r == suspended_spec(exception_until, now as int),
{
    match exception_until {
        Some(t) => t > now,
        None => false,
    }
}

/// All fields of the configuration but the domain rules are unchanged.
pub open spec fn same_but_rules(a: Config, b: Config) -> bool {
    &&& a.display_rules@ == b.display_rules@
    &&& a.manual_display_override == b.manual_display_override
    &&& a.exception_daily_limit == b.exception_daily_limit
    &&& a.exceptions_used_today == b.exceptions_used_today
    &&& a.last_exception_date == b.last_exception_date
}

/// Validates the window, normalizes the domain, and appends the new rule.
/// Nothing is stored when either time string is malformed.
pub fn add_rule(config: &mut Config, domain: &str, start: &str, end: &str) -> (r: Result<
    (),
    ParseError,
>)
    ensures
        r is Ok <==> valid_time_str(start@) && valid_time_str(end@),
        r is Err ==> *final(config) == *old(config),
        r is Ok ==> {
            &&& final(config).rules@.len() == old(config).rules@.len() + 1
            &&& forall|i: int|
                0 <= i < old(config).rules@.len() ==> final(config).rules@[i] == old(
                    config,
                ).rules@[i]
            &&& final(config).rules@.last().domain@ == normalize_spec(domain@)
            &&& final(config).rules@.last().start_time.minutes as int == time_str_minutes(start@)
            &&& final(config).rules@.last().end_time.minutes as int == time_str_minutes(end@)
            &&& final(config).rules@.last().exception_until is None
            &&& final(config).rules@.last().wf()
            &&& same_but_rules(*final(config), *old(config))
        },
        old(config).wf() ==> final(config).wf(),
{
    let start_t = match parse_time(start) {
        Ok(t) => t,
        Err(e) => { return Err(e) },
    };
    let end_t = match parse_time(end) {
        Ok(t) => t,
        Err(e) => { return Err(e) },
    };
    let rule = DomainRule {
        domain: normalize_domain(domain),
        start_time: start_t,
        end_time: end_t,
        exception_until: None,
    };
    config.rules.push(rule);
    Ok(())
}

/// Whether a rule survives the removal of a domain.
pub open spec fn keeps_rule(rule: DomainRule, norm: Seq<char>) -> bool {
    rule.domain@ != norm
}

/// Removes every rule of the normalized domain. Returns whether any rule
/// was removed; when none matches the configuration is left as it stands.
pub fn remove_domain(config: &mut Config, domain: &str) -> (removed: bool)
    ensures
        final(config).rules@ == old(config).rules@.filter(
            |rule: DomainRule| keeps_rule(rule, normalize_spec(domain@)),
        ),
        removed <==> exists|i: int|
            0 <= i < old(config).rules@.len() && (#[trigger] old(config).rules@[i]).domain@
                == normalize_spec(domain@),
        same_but_rules(*final(config), *old(config)),
        old(config).wf() ==> final(config).wf(),
{
    let target = normalize_domain(domain);
    let ghost norm = normalize_spec(domain@);
    let ghost pred = |rule: DomainRule| keeps_rule(rule, norm);
    let mut kept: Vec<DomainRule> = Vec::new();
    let mut found = false;
    let mut i: usize = 0;
    proof {
        reveal(Seq::filter);
        assert(old(config).rules@.take(0) =~= Seq::<DomainRule>::empty());
        assert(kept@ =~= old(config).rules@.take(0).filter(pred));
    }
    while i < config.rules.len()
        invariant
            0 <= i <= config.rules@.len(),
            config.rules@ == old(config).rules@,
            same_but_rules(*config, *old(config)),
            target@ == norm,
            pred == (|rule: DomainRule| keeps_rule(rule, norm)),
            kept@ == old(config).rules@.take(i as int).filter(pred),
            old(config).wf() ==> forall|k: int| 0 <= k < kept@.len() ==> (#[trigger] kept@[k]).wf(),
            found <==> exists|k: int|
                0 <= k < i && (#[trigger] old(config).rules@[k]).domain@ == norm,
        decreases config.rules@.len() - i,
    {
        let rule = &config.rules[i];
        let is_match = str_eq(rule.domain.as_str(), target.as_str());
        if is_match {
            found = true;
        } else {
            kept.push(rule.clone());
        }
        proof {
            reveal(Seq::filter);
            let pre = old(config).rules@.take(i as int);
            assert(old(config).rules@.take(i + 1).drop_last() =~= pre);
            assert(old(config).rules@.take(i + 1).last() == old(config).rules@[i as int]);
        }
        i = i + 1;
    }
    proof {
        assert(old(config).rules@.take(config.rules@.len() as int) =~= old(config).rules@);
        broadcast use vstd::seq_lib::group_filter_ensures;

    }
    config.rules = kept;
    found
}

/// Sets the daily exception quota.
pub fn set_exception_limit(config: &mut Config, limit: u32)
    ensures
        final(config).exception_daily_limit == limit,
        final(config).rules@ == old(config).rules@,
        final(config).display_rules@ == old(config).display_rules@,
        final(config).manual_display_override == old(config).manual_display_override,
        final(config).exceptions_used_today == old(config).exceptions_used_today,
        final(config).last_exception_date == old(config).last_exception_date,
        old(config).wf() ==> final(config).wf(),
{
    config.exception_daily_limit = limit;
}

/// Grants a temporary exception for a domain: every rule of the normalized
/// domain is suspended until `now + minutes` of wall time, and exactly one
/// unit of the daily quota is consumed, however many rules matched. The
/// quota resets lazily when the day changes. A refused grant mutates
/// nothing.
pub fn consume_exception(
    config: &mut Config,
    domain: &str,
    now: i64,
    today: &str,
    minutes: i64,
) -> (r: Result<u32, ExceptionError>)
    requires
        i64::MIN <= minutes * 60 <= i64::MAX,
        i64::MIN <= now + minutes * 60 <= i64::MAX,
    ensures
        ({
            let norm = normalize_spec(domain@);
            let used0: u32 = if old(config).last_exception_date@ == today@ {
                old(config).exceptions_used_today
            } else {
                0u32
            };
            let has_rule = exists|i: int|
                0 <= i < old(config).rules@.len() && (#[trigger] old(config).rules@[i]).domain@
                    == norm;
            let expiry = now + minutes * 60;
            &&& r is Ok <==> used0 < old(config).exception_daily_limit && has_rule
            &&& r == Err::<u32, ExceptionError>(ExceptionError::QuotaExceeded) <==> used0 >= old(
                config,
            ).exception_daily_limit
            &&& r == Err::<u32, ExceptionError>(ExceptionError::NoSuchRule) <==> used0 < old(
                config,
            ).exception_daily_limit && !has_rule
            &&& r is Err ==> *final(config) == *old(config)
            &&& r is Ok ==> {
                &&& final(config).rules@.len() == old(config).rules@.len()
                &&& forall|i: int|
                    0 <= i < old(config).rules@.len() ==> final(config).rules@[i] == (
                    if old(config).rules@[i].domain@ == norm {
                        DomainRule {
                            exception_until: Some(expiry as i64),
                            ..old(config).rules@[i]
                        }
                    } else {
                        old(config).rules@[i]
                    })
                &&& final(config).exceptions_used_today == used0 + 1
                &&& final(config).last_exception_date@ == today@
                &&& final(config).exception_daily_limit == old(config).exception_daily_limit
                &&& final(config).display_rules@ == old(config).display_rules@
                &&& final(config).manual_display_override == old(config).manual_display_override
                &&& r->Ok_0 == old(config).exception_daily_limit - (used0 + 1)
            }
        }),
        old(config).wf() ==> final(config).wf(),
{
    let fresh_day = !str_eq(config.last_exception_date.as_str(), today);
    let used0: u32 = if fresh_day {
        0
    } else {
        config.exceptions_used_today
    };
    if used0 >= config.exception_daily_limit {
        return Err(ExceptionError::QuotaExceeded);
    }
    let target = normalize_domain(domain);
    let ghost norm = normalize_spec(domain@);
    let expiry: i64 = now + minutes * 60;
    let mut updated: Vec<DomainRule> = Vec::new();
    let mut found = false;
    let mut i: usize = 0;
    while i < config.rules.len()
        invariant
            0 <= i <= config.rules@.len(),
            config.rules@ == old(config).rules@,
            target@ == norm,
            updated@.len() == i,
            forall|k: int|
                0 <= k < i ==> updated@[k] == (if old(config).rules@[k].domain@ == norm {
                    DomainRule { exception_until: Some(expiry), ..old(config).rules@[k] }
                } else {
                    old(config).rules@[k]
                }),
            found <==> exists|k: int|
                0 <= k < i && (#[trigger] old(config).rules@[k]).domain@ == norm,
        decreases config.rules@.len() - i,
    {
        let rule = &config.rules[i];
        if str_eq(rule.domain.as_str(), target.as_str()) {
            updated.push(
                DomainRule {
                    domain: rule.domain.clone(),
                    start_time: rule.start_time,
                    end_time: rule.end_time,
                    exception_until: Some(expiry),
                },
            );
            found = true;
        } else {
            updated.push(rule.clone());
        }
        i = i + 1;
    }
    if !found {
        return Err(ExceptionError::NoSuchRule);
    }
    config.rules = updated;
    config.exceptions_used_today = used0 + 1;
    config.last_exception_date = today.to_owned();
    Ok(config.exception_daily_limit - config.exceptions_used_today)
}

/// Turns the manual grayscale override on or off.
pub fn set_manual_override(config: &mut Config, on: bool)
    ensures
        final(config).manual_display_override == on,
        final(config).rules@ == old(config).rules@,
        final(config).display_rules@ == old(config).display_rules@,
        final(config).exception_daily_limit == old(config).exception_daily_limit,
        final(config).exceptions_used_today == old(config).exceptions_used_today,
        final(config).last_exception_date == old(config).last_exception_date,
        old(config).wf() ==> final(config).wf(),
{
    config.manual_display_override = on;
}

/// Validates the window and appends a scheduled grayscale rule. Nothing is
/// stored when either time string is malformed.
pub fn add_display_rule(config: &mut Config, start: &str, end: &str) -> (r: Result<
    (),
    ParseError,
>)
    ensures
        r is Ok <==> valid_time_str(start@) && valid_time_str(end@),
        r is Err ==> *final(config) == *old(config),
        r is Ok ==> {
            &&& final(config).display_rules@.len() == old(config).display_rules@.len() + 1
            &&& forall|i: int|
                0 <= i < old(config).display_rules@.len() ==> final(config).display_rules@[i]
                    == old(config).display_rules@[i]
            &&& final(config).display_rules@.last().start_time.minutes as int == time_str_minutes(
                start@,
            )
            &&& final(config).display_rules@.last().end_time.minutes as int == time_str_minutes(
                end@,
            )
            &&& final(config).display_rules@.last().enabled
            &&& final(config).display_rules@.last().wf()
            &&& final(config).rules@ == old(config).rules@
            &&& final(config).manual_display_override == old(config).manual_display_override
            &&& final(config).exception_daily_limit == old(config).exception_daily_limit
            &&& final(config).exceptions_used_today == old(config).exceptions_used_today
            &&& final(config).last_exception_date == old(config).last_exception_date
        },
        old(config).wf() ==> final(config).wf(),
{
    let start_t = match parse_time(start) {
        Ok(t) => t,
        Err(e) => { return Err(e) },
    };
    let end_t = match parse_time(end) {
        Ok(t) => t,
        Err(e) => { return Err(e) },
    };
    config.display_rules.push(
        DisplayRule { start_time: start_t, end_time: end_t, enabled: true },
    );
    Ok(())
}

/// Drops every scheduled grayscale rule and the manual override.
pub fn clear_display_rules(config: &mut Config)
    ensures
        final(config).display_rules@.len() == 0,
        !final(config).manual_display_override,
        final(config).rules@ == old(config).rules@,
        final(config).exception_daily_limit == old(config).exception_daily_limit,
        final(config).exceptions_used_today == old(config).exceptions_used_today,
        final(config).last_exception_date == old(config).last_exception_date,
        old(config).wf() ==> final(config).wf(),
{
    config.display_rules = Vec::new();
    config.manual_display_override = false;
}

} // verus!
