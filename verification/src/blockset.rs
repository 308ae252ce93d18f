use crate::config::{is_suspended, suspended_spec, DomainRule};
use crate::strutil::{lemma_seq_lt_trans, seq_lt, str_cmp, views_of, StrOrd};
use crate::timewin::{in_window, in_window_spec, TimeOfDay};
use vstd::prelude::*;

verus! {

/// Whether a rule blocks its domain at this instant: the wall clock lies
/// inside the rule's window and no exception suspends the rule.
pub open spec fn rule_active(rule: DomainRule, now_minutes: int, now: int) -> bool {
    in_window_spec(now_minutes, rule.start_time.minutes as int, rule.end_time.minutes as int)
        && !suspended_spec(rule.exception_until, now)
}

/// Some rule among the first `k` blocks this domain now.
pub open spec fn blocked_by_prefix(
    rules: Seq<DomainRule>,
    k: int,
    now_minutes: int,
    now: int,
    d: Seq<char>,
) -> bool {
    exists|j: int|
        0 <= j < k && rule_active(#[trigger] rules[j], now_minutes, now) && rules[j].domain@ == d
}

/// Strictly ascending in lexicographic order; such a sequence holds no
/// duplicates.
pub open spec fn strictly_sorted(v: Seq<Seq<char>>) -> bool {
    forall|i: int, j: int| 0 <= i < j < v.len() ==> seq_lt(v[i], v[j])
}

proof fn lemma_contains_insert(s: Seq<Seq<char>>, j: int, x: Seq<char>)
    requires
        0 <= j <= s.len(),
    ensures
        forall|y: Seq<char>|
            #[trigger] s.insert(j, x).contains(y) <==> s.contains(y) || y == x,
{
    let t = s.insert(j, x);
    assert forall|y: Seq<char>| #[trigger] t.contains(y) <==> s.contains(y) || y == x by {
        if t.contains(y) {
            let i = choose|i: int| 0 <= i < t.len() && t[i] == y;
            if i < j {
                assert(s[i] == y);
            } else if i > j {
                assert(s[i - 1] == y);
            }
        }
        if s.contains(y) {
            let i = choose|i: int| 0 <= i < s.len() && s[i] == y;
            if i < j {
                assert(t[i] == y);
            } else {
                assert(t[i + 1] == y);
            }
        }
        if y == x {
            assert(t[j] == y);
        }
    }
}

/// Places one domain into a sorted list, keeping the order and never
/// introducing a duplicate: the set of held domains gains exactly `d`.
fn insert_sorted(v: &mut Vec<String>, d: &str)
    requires
        strictly_sorted(views_of(old(v)@)),
    ensures
        strictly_sorted(views_of(final(v)@)),
        forall|y: Seq<char>|
            #[trigger] views_of(final(v)@).contains(y) <==> views_of(old(v)@).contains(y) || y
                == d@,
{
    let mut j: usize = 0;
    while j < v.len() && matches!(str_cmp(v[j].as_str(), d), StrOrd::Less)
        invariant
            0 <= j <= v@.len(),
            v@ == old(v)@,
            strictly_sorted(views_of(v@)),
            forall|k: int| 0 <= k < j ==> seq_lt(views_of(v@)[k], d@),
        decreases v@.len() - j,
    {
        j = j + 1;
    }
    if j < v.len() {
        let c = str_cmp(v[j].as_str(), d);
        if matches!(c, StrOrd::Equal) {
            proof {
                assert(views_of(v@)[j as int] == v@[j as int]@);
                assert(views_of(v@).contains(d@));
            }
            return ;
        }
    }
    proof {
        let vs = views_of(v@);
        if j < v@.len() {
            assert(seq_lt(d@, vs[j as int]));
            assert forall|k: int| j <= k < vs.len() implies seq_lt(d@, vs[k]) by {
                if k > j {
                    lemma_seq_lt_trans(d@, vs[j as int], vs[k]);
                }
            }
        }
    }
    let ghost vs0 = views_of(v@);
    let ghost jj = j as int;
    v.insert(j, d.to_owned());
    proof {
        let vs1 = views_of(v@);
        assert forall|i: int| 0 <= i < vs1.len() implies vs1[i] == vs0.insert(jj, d@)[i] by {
            assert(v@[i] == old(v)@.insert(jj, v@[jj])[i]);
            if i < jj {
                assert(v@[i] == old(v)@[i]);
            } else if i > jj {
                assert(v@[i] == old(v)@[i - 1]);
            }
        }
        assert(vs1 =~= vs0.insert(jj, d@));
        lemma_contains_insert(vs0, jj, d@);
        assert forall|p: int, q: int| 0 <= p < q < vs1.len() implies seq_lt(vs1[p], vs1[q]) by {
            if p < jj && q < jj {
                assert(seq_lt(vs0[p], vs0[q]));
            } else if p == jj && q > jj {
                assert(seq_lt(d@, vs0[q - 1]));
            } else if p < jj && q == jj {
                assert(seq_lt(vs0[p], d@));
            } else if p < jj && q > jj {
                assert(seq_lt(vs0[p], vs0[q - 1]));
            } else {
                assert(seq_lt(vs0[p - 1], vs0[q - 1]));
            }
        }
    }
}

proof fn lemma_blockset_skip(rules: Seq<DomainRule>, vs: Seq<Seq<char>>, k: int, nm: int, ts: int)
    requires
        0 <= k < rules.len(),
        !rule_active(rules[k], nm, ts),
        forall|d: Seq<char>| #[trigger] vs.contains(d) <==> blocked_by_prefix(rules, k, nm, ts, d),
    ensures
        forall|d: Seq<char>|
            #[trigger] vs.contains(d) <==> blocked_by_prefix(rules, k + 1, nm, ts, d),
{
    assert forall|d: Seq<char>| #[trigger] vs.contains(d) <==> blocked_by_prefix(
        rules,
        k + 1,
        nm,
        ts,
        d,
    ) by {
        if blocked_by_prefix(rules, k + 1, nm, ts, d) {
            let j = choose|j: int|
                0 <= j < k + 1 && rule_active(#[trigger] rules[j], nm, ts) && rules[j].domain@
                    == d;
            assert(j < k);
            assert(blocked_by_prefix(rules, k, nm, ts, d));
        }
        if vs.contains(d) {
            let j = choose|j: int|
                0 <= j < k && rule_active(#[trigger] rules[j], nm, ts) && rules[j].domain@ == d;
            assert(rule_active(rules[j], nm, ts));
        }
    }
}

proof fn lemma_blockset_step(
    rules: Seq<DomainRule>,
    prev: Seq<Seq<char>>,
    cur: Seq<Seq<char>>,
    k: int,
    nm: int,
    ts: int,
)
    requires
        0 <= k < rules.len(),
        rule_active(rules[k], nm, ts),
        forall|d: Seq<char>|
            #[trigger] cur.contains(d) <==> prev.contains(d) || d == rules[k].domain@,
        forall|d: Seq<char>|
            #[trigger] prev.contains(d) <==> blocked_by_prefix(rules, k, nm, ts, d),
    ensures
        forall|d: Seq<char>|
            #[trigger] cur.contains(d) <==> blocked_by_prefix(rules, k + 1, nm, ts, d),
{
    assert forall|d: Seq<char>| #[trigger] cur.contains(d) <==> blocked_by_prefix(
        rules,
        k + 1,
        nm,
        ts,
        d,
    ) by {
        if cur.contains(d) {
            if prev.contains(d) {
                let j = choose|j: int|
                    0 <= j < k && rule_active(#[trigger] rules[j], nm, ts) && rules[j].domain@
                        == d;
                assert(rule_active(rules[j], nm, ts));
            } else {
                assert(d == rules[k].domain@);
                assert(rule_active(rules[k], nm, ts));
            }
        }
        if blocked_by_prefix(rules, k + 1, nm, ts, d) {
            let j = choose|j: int|
                0 <= j < k + 1 && rule_active(#[trigger] rules[j], nm, ts) && rules[j].domain@
                    == d;
            if j < k {
                assert(blocked_by_prefix(rules, k, nm, ts, d));
            } else {
                assert(d == rules[k].domain@);
            }
        }
    }
}

/// Folds every rule through the window evaluator and the exception resolver:
/// a domain is blocked exactly when some rule of it is active now. The list
/// comes back deduplicated and sorted, so equal target states always print
/// the same text.
pub fn compute_blocked_domains(rules: &Vec<DomainRule>, now_time: TimeOfDay, now: i64) -> (r: Vec<
    String,
>)
    ensures
        strictly_sorted(views_of(r@)),
        forall|d: Seq<char>|
            #[trigger] views_of(r@).contains(d) <==> blocked_by_prefix(
                rules@,
                rules@.len() as int,
                now_time.minutes as int,
                now as int,
                d,
            ),
{
    let ghost nm = now_time.minutes as int;
    let ghost ts = now as int;
    let mut out: Vec<String> = Vec::new();
    let mut k: usize = 0;
    proof {
        assert(views_of(out@).len() == 0);
        assert forall|d: Seq<char>| #[trigger] views_of(out@).contains(d) <==> blocked_by_prefix(
            rules@,
            0,
            nm,
            ts,
            d,
        ) by {
            if views_of(out@).contains(d) {
                let i = choose|i: int| 0 <= i < views_of(out@).len() && views_of(out@)[i] == d;
            }
            if blocked_by_prefix(rules@, 0, nm, ts, d) {
                let j = choose|j: int|
                    0 <= j < 0 && rule_active(#[trigger] rules@[j], nm, ts) && rules@[j].domain@
                        == d;
            }
        }
    }
    while k < rules.len()
        invariant
            0 <= k <= rules@.len(),
            strictly_sorted(views_of(out@)),
            nm == now_time.minutes as int,
            ts == now as int,
            forall|d: Seq<char>|
                #[trigger] views_of(out@).contains(d) <==> blocked_by_prefix(
                    rules@,
                    k as int,
                    nm,
                    ts,
                    d,
                ),
        decreases rules@.len() - k,
    {
        let rule = &rules[k];
        let active = in_window(now_time, rule.start_time, rule.end_time) && !is_suspended(
            rule.exception_until,
            now,
        );
        if active {
            let ghost prev = views_of(out@);
            insert_sorted(&mut out, rule.domain.as_str());
            proof {
                lemma_blockset_step(rules@, prev, views_of(out@), k as int, nm, ts);
            }
        } else {
            proof {
                lemma_blockset_skip(rules@, views_of(out@), k as int, nm, ts);
            }
        }
        k = k + 1;
    }
    out
}

} // verus!
