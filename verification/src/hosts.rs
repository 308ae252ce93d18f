use crate::strutil::{
    is_space, join_lines, join_lines_spec, lemma_join_split, lemma_lines_of_join,
    lemma_split_join, lemma_split_lines_no_nl, lemma_trim_id, lemma_trim_push_space, line_ok,
    lines_ok, split_lines, split_lines_spec, str_eq, trim, trim_spec, views_of,
};
use vstd::prelude::*;

verus! {

/// The exact line that opens the managed block.
pub open spec fn marker_start() -> Seq<char> {
    "# BEGIN FOCUS BLOCK"@
}

/// The exact line that closes the managed block.
pub open spec fn marker_end() -> Seq<char> {
    "# END FOCUS BLOCK"@
}

/// The line that opens the managed block.
pub fn marker_start_line() -> (r: &'static str)
    ensures
        r@ == marker_start(),
{
    "# BEGIN FOCUS BLOCK"
}

/// The line that closes the managed block.
pub fn marker_end_line() -> (r: &'static str)
    ensures
        r@ == marker_end(),
{
    "# END FOCUS BLOCK"
}

/// The foreign lines of a file: everything outside marker pairs, in its
/// original order. A start marker opens the managed region, an end marker
/// closes it, and both marker lines themselves are dropped; whatever stands
/// inside the region is discarded. A stray end marker is dropped and an
/// unterminated region extends to the end of the file.
pub open spec fn foreign_lines(lines: Seq<Seq<char>>, in_block: bool) -> Seq<Seq<char>>
    decreases lines.len(),
{
    if lines.len() == 0 {
        Seq::empty()
    } else {
        let l = lines[0];
        let rest = lines.drop_first();
        if trim_spec(l) == marker_start() {
            foreign_lines(rest, true)
        } else if trim_spec(l) == marker_end() {
            foreign_lines(rest, false)
        } else if in_block {
            foreign_lines(rest, true)
        } else {
            seq![l] + foreign_lines(rest, false)
        }
    }
}

/// The two hosts entries one blocked domain generates: the bare name and
/// its `www.` form, both pointed at the loopback address.
pub open spec fn host_pair(d: Seq<char>) -> Seq<Seq<char>> {
    seq!["127.0.0.1 "@ + d, "127.0.0.1 www."@ + d]
}

/// The body of the managed block: two entries for every blocked domain,
/// in the order the domains are given.
pub open spec fn managed_body(domains: Seq<Seq<char>>) -> Seq<Seq<char>>
    decreases domains.len(),
{
    if domains.len() == 0 {
        Seq::empty()
    } else {
        host_pair(domains[0]) + managed_body(domains.drop_first())
    }
}

/// The whole managed block: the markers around the body, or nothing at all
/// when no domain is blocked.
pub open spec fn managed_block(domains: Seq<Seq<char>>) -> Seq<Seq<char>> {
    if domains.len() == 0 {
        Seq::empty()
    } else {
        seq![marker_start()] + managed_body(domains) + seq![marker_end()]
    }
}

/// The lines the reconciled file holds: every foreign line of the input,
/// in order, then the freshly generated managed block.
pub open spec fn reconcile_lines(input: Seq<char>, domains: Seq<Seq<char>>) -> Seq<Seq<char>> {
    foreign_lines(split_lines_spec(input), false) + managed_block(domains)
}

/// The reconciled file content.
pub open spec fn reconcile_spec(input: Seq<char>, domains: Seq<Seq<char>>) -> Seq<char> {
    join_lines_spec(reconcile_lines(input, domains))
}

proof fn lemma_managed_body_push(domains: Seq<Seq<char>>, d: Seq<char>)
    ensures
        managed_body(domains.push(d)) == managed_body(domains) + host_pair(d),
    decreases domains.len(),
{
    if domains.len() == 0 {
        assert(domains.push(d).drop_first() =~= Seq::<Seq<char>>::empty());
        assert(managed_body(Seq::<Seq<char>>::empty()) =~= Seq::<Seq<char>>::empty());
        assert(domains.push(d)[0] == d);
        assert(managed_body(domains.push(d)) =~= host_pair(d));
        assert(managed_body(domains) + host_pair(d) =~= host_pair(d));
    } else {
        lemma_managed_body_push(domains.drop_first(), d);
        assert(domains.push(d).drop_first() =~= domains.drop_first().push(d));
        assert(host_pair(domains[0]) + (managed_body(domains.drop_first()) + host_pair(d))
            =~= (host_pair(domains[0]) + managed_body(domains.drop_first())) + host_pair(d));
    }
}

proof fn lemma_marker_facts()
    ensures
        marker_start().len() == 19,
        marker_end().len() == 17,
        marker_start()[0] == '#',
        marker_end()[0] == '#',
        trim_spec(marker_start()) == marker_start(),
        trim_spec(marker_end()) == marker_end(),
        line_ok(marker_start()),
        line_ok(marker_end()),
{
    reveal_strlit("# BEGIN FOCUS BLOCK");
    reveal_strlit("# END FOCUS BLOCK");
    lemma_trim_id(marker_start());
    lemma_trim_id(marker_end());
}

/// One sequence of lines arises from another by deleting lines only: what
/// remains is verbatim and in its original relative order.
pub open spec fn is_subseq_of(a: Seq<Seq<char>>, b: Seq<Seq<char>>) -> bool
    decreases a.len() + b.len(),
{
    if a.len() == 0 {
        true
    } else if b.len() == 0 {
        false
    } else if a[0] == b[0] {
        is_subseq_of(a.drop_first(), b.drop_first())
    } else {
        is_subseq_of(a, b.drop_first())
    }
}

proof fn lemma_subseq_drop_first(a: Seq<Seq<char>>, b: Seq<Seq<char>>)
    requires
        is_subseq_of(a, b),
        a.len() > 0,
    ensures
        is_subseq_of(a.drop_first(), b),
    decreases b.len(),
{
    let ad = a.drop_first();
    if a[0] == b[0] {
        if ad.len() > 0 && ad[0] == b[0] {
            lemma_subseq_drop_first(ad, b.drop_first());
        }
    } else {
        lemma_subseq_drop_first(a, b.drop_first());
        if ad.len() > 0 && ad[0] == b[0] {
            lemma_subseq_drop_first(ad, b.drop_first());
        }
    }
}

/// Non-destructive merge: the foreign lines that a scan keeps form a
/// subsequence of the scanned lines — every kept line appears verbatim, in
/// its original relative order, whatever marker pairs, stray end markers or
/// unterminated regions the input holds.
pub proof fn lemma_foreign_lines_subsequence(lines: Seq<Seq<char>>, in_block: bool)
    ensures
        is_subseq_of(foreign_lines(lines, in_block), lines),
    decreases lines.len(),
{
    if lines.len() > 0 {
        let l = lines[0];
        let rest = lines.drop_first();
        let f = foreign_lines(lines, in_block);
        if trim_spec(l) != marker_start() && trim_spec(l) != marker_end() && !in_block {
            lemma_foreign_lines_subsequence(rest, false);
            assert(f[0] == l);
            assert(f.drop_first() =~= foreign_lines(rest, false));
        } else {
            let b2 = if trim_spec(l) == marker_start() {
                true
            } else if trim_spec(l) == marker_end() {
                false
            } else {
                in_block
            };
            lemma_foreign_lines_subsequence(rest, b2);
            assert(f == foreign_lines(rest, b2));
            if f.len() > 0 && f[0] == l {
                lemma_subseq_drop_first(f, rest);
            }
        }
    }
}

/// A plausible blocked domain: non-empty text without any whitespace.
pub open spec fn domain_ok(d: Seq<char>) -> bool {
    d.len() > 0 && forall|k: int| 0 <= k < d.len() ==> !is_space(#[trigger] d[k])
}

/// No line trims to a marker.
pub open spec fn foreign_ok(ls: Seq<Seq<char>>) -> bool {
    forall|i: int|
        0 <= i < ls.len() ==> trim_spec(#[trigger] ls[i]) != marker_start() && trim_spec(ls[i])
            != marker_end()
}

proof fn lemma_host_line_facts(d: Seq<char>)
    requires
        domain_ok(d),
    ensures
        forall|i: int|
            0 <= i < host_pair(d).len() ==> line_ok(#[trigger] host_pair(d)[i]) && trim_spec(
                host_pair(d)[i],
            ) != marker_start() && trim_spec(host_pair(d)[i]) != marker_end(),
{
    reveal_strlit("127.0.0.1 ");
    reveal_strlit("127.0.0.1 www.");
    lemma_marker_facts();
    let l1 = "127.0.0.1 "@ + d;
    let l2 = "127.0.0.1 www."@ + d;
    assert(l1[0] == '1');
    assert(l2[0] == '1');
    assert(l1.last() == d.last());
    assert(l2.last() == d.last());
    lemma_trim_id(l1);
    lemma_trim_id(l2);
    assert(line_ok(l1));
    assert(line_ok(l2));
    assert(host_pair(d)[0] == l1);
    assert(host_pair(d)[1] == l2);
}

proof fn lemma_foreign_erases_managed(domains: Seq<Seq<char>>)
    requires
        forall|i: int| 0 <= i < domains.len() ==> domain_ok(#[trigger] domains[i]),
    ensures
        foreign_lines(managed_body(domains) + seq![marker_end()], true) == Seq::<Seq<char>>::empty(),
    decreases domains.len(),
{
    lemma_marker_facts();
    if domains.len() == 0 {
        let l = managed_body(domains) + seq![marker_end()];
        assert(l =~= seq![marker_end()]);
        assert(l[0] == marker_end());
        assert(l.drop_first() =~= Seq::<Seq<char>>::empty());
        assert(foreign_lines(l, true) == foreign_lines(l.drop_first(), false));
        assert(foreign_lines(l.drop_first(), false) == Seq::<Seq<char>>::empty());
    } else {
        lemma_host_line_facts(domains[0]);
        let body = managed_body(domains);
        let tail = managed_body(domains.drop_first()) + seq![marker_end()];
        let l = body + seq![marker_end()];
        assert(body == host_pair(domains[0]) + managed_body(domains.drop_first()));
        lemma_managed_body_len(domains);
        assert(l[0] == host_pair(domains[0])[0]);
        assert(trim_spec(l[0]) != marker_start() && trim_spec(l[0]) != marker_end());
        assert(foreign_lines(l, true) == foreign_lines(l.drop_first(), true));
        assert(l.drop_first()[0] == host_pair(domains[0])[1]);
        assert(trim_spec(l.drop_first()[0]) != marker_start() && trim_spec(l.drop_first()[0])
            != marker_end());
        assert(foreign_lines(l.drop_first(), true) == foreign_lines(
            l.drop_first().drop_first(),
            true,
        ));
        assert(l.drop_first().drop_first() =~= tail);
        lemma_foreign_erases_managed(domains.drop_first());
    }
}

proof fn lemma_foreign_props(ls: Seq<Seq<char>>, in_block: bool)
    requires
        lines_ok(ls),
    ensures
        lines_ok(foreign_lines(ls, in_block)),
        foreign_ok(foreign_lines(ls, in_block)),
    decreases ls.len(),
{
    if ls.len() > 0 {
        let l = ls[0];
        let rest = ls.drop_first();
        assert(line_ok(l));
        assert(lines_ok(rest));
        if trim_spec(l) != marker_start() && trim_spec(l) != marker_end() && !in_block {
            lemma_foreign_props(rest, false);
            let f = foreign_lines(ls, in_block);
            assert(f == seq![l] + foreign_lines(rest, false));
            assert forall|i: int| 0 <= i < f.len() implies line_ok(#[trigger] f[i]) by {
                if i > 0 {
                    assert(f[i] == foreign_lines(rest, false)[i - 1]);
                }
            }
            assert forall|i: int|
                0 <= i < f.len() implies trim_spec(#[trigger] f[i]) != marker_start() && trim_spec(
                f[i],
            ) != marker_end() by {
                if i > 0 {
                    assert(f[i] == foreign_lines(rest, false)[i - 1]);
                }
            }
        } else {
            let b2 = if trim_spec(l) == marker_start() {
                true
            } else if trim_spec(l) == marker_end() {
                false
            } else {
                in_block
            };
            lemma_foreign_props(rest, b2);
        }
    }
}

proof fn lemma_foreign_prepend(a: Seq<Seq<char>>, b: Seq<Seq<char>>)
    requires
        foreign_ok(a),
    ensures
        foreign_lines(a + b, false) == a + foreign_lines(b, false),
    decreases a.len(),
{
    if a.len() == 0 {
        assert(a + b =~= b);
        assert(a + foreign_lines(b, false) =~= foreign_lines(b, false));
    } else {
        let l = a[0];
        assert((a + b)[0] == l);
        assert((a + b).drop_first() =~= a.drop_first() + b);
        assert(foreign_ok(a.drop_first()));
        lemma_foreign_prepend(a.drop_first(), b);
        assert(seq![l] + (a.drop_first() + foreign_lines(b, false)) =~= a + foreign_lines(
            b,
            false,
        ));
    }
}

/// Reconciling is idempotent: feeding a reconciled file back in with the
/// same block set reports no change, so the caller never rewrites a file
/// that is already in its target state.
pub proof fn lemma_reconcile_idempotent(input: Seq<char>, domains: Seq<Seq<char>>)
    requires
        forall|i: int| 0 <= i < domains.len() ==> domain_ok(#[trigger] domains[i]),
    ensures
        trim_spec(reconcile_spec(reconcile_spec(input, domains), domains)) == trim_spec(
            reconcile_spec(input, domains),
        ),
{
    lemma_marker_facts();
    let all = split_lines_spec(input);
    lemma_split_lines_no_nl(input);
    assert(lines_ok(all));
    let f = foreign_lines(all, false);
    lemma_foreign_props(all, false);
    let m = managed_block(domains);
    let out1 = join_lines_spec(f + m);
    assert(out1 == reconcile_spec(input, domains));
    if domains.len() > 0 {
        assert forall|i: int| 0 <= i < m.len() implies line_ok(#[trigger] m[i]) by {
            lemma_managed_line_ok(domains, i);
        }
        let fm = f + m;
        assert forall|i: int| 0 <= i < fm.len() implies line_ok(#[trigger] fm[i]) by {
            if i < f.len() {
                assert(fm[i] == f[i]);
            } else {
                assert(fm[i] == m[i - f.len()]);
            }
        }
        assert(fm.last() == m[m.len() - 1]);
        assert(m.last() == marker_end());
        lemma_split_join(fm);
        assert(split_lines_spec(out1) == fm);
        lemma_foreign_prepend(f, m);
        assert(m =~= (seq![marker_start()] + (managed_body(domains) + seq![marker_end()])));
        assert(m[0] == marker_start());
        assert(m.drop_first() =~= managed_body(domains) + seq![marker_end()]);
        lemma_foreign_erases_managed(domains);
        assert(foreign_lines(m, false) =~= Seq::<Seq<char>>::empty());
        assert(foreign_lines(fm, false) =~= f);
        assert(reconcile_spec(out1, domains) == out1);
    } else {
        assert(m =~= Seq::<Seq<char>>::empty());
        assert(f + m =~= f);
        assert(out1 == join_lines_spec(f));
        let l1 = split_lines_spec(out1);
        lemma_lines_of_join(f);
        assert forall|i: int|
            0 <= i < l1.len() implies trim_spec(#[trigger] l1[i]) != marker_start() && trim_spec(
            l1[i],
        ) != marker_end() by {
            if l1[i].len() == 0 {
                assert(trim_spec(l1[i]) =~= l1[i]);
                assert(marker_start().len() > 0);
                assert(marker_end().len() > 0);
            } else {
                let j = choose|j: int| 0 <= j < f.len() && f[j] == l1[i];
                assert(trim_spec(f[j]) != marker_start());
            }
        }
        lemma_foreign_prepend(l1, Seq::<Seq<char>>::empty());
        assert(l1 + Seq::<Seq<char>>::empty() =~= l1);
        assert(foreign_lines(Seq::<Seq<char>>::empty(), false) =~= Seq::<Seq<char>>::empty());
        assert(foreign_lines(l1, false) =~= l1);
        assert(reconcile_lines(out1, domains) =~= l1);
        let out2 = join_lines_spec(l1);
        lemma_join_split(out1);
        if out1.len() > 0 && out1.last() == '\n' {
            assert(out2 == out1.drop_last());
            assert(out2.push('\n') =~= out1);
            lemma_trim_push_space(out2, '\n');
        }
    }
}

proof fn lemma_managed_line_ok(domains: Seq<Seq<char>>, i: int)
    requires
        forall|k: int| 0 <= k < domains.len() ==> domain_ok(#[trigger] domains[k]),
        domains.len() > 0,
        0 <= i < managed_block(domains).len(),
    ensures
        line_ok(managed_block(domains)[i]),
{
    lemma_marker_facts();
    let m = managed_block(domains);
    let body = managed_body(domains);
    lemma_managed_body_len(domains);
    if i == 0 {
        assert(m[0] == marker_start());
    } else if i == m.len() - 1 {
        assert(m[i] == marker_end());
    } else {
        assert(m[i] == body[i - 1]);
        lemma_managed_body_line(domains, i - 1);
    }
}

proof fn lemma_managed_body_len(domains: Seq<Seq<char>>)
    ensures
        managed_body(domains).len() == 2 * domains.len(),
    decreases domains.len(),
{
    if domains.len() > 0 {
        lemma_managed_body_len(domains.drop_first());
    }
}

proof fn lemma_managed_body_line(domains: Seq<Seq<char>>, i: int)
    requires
        forall|k: int| 0 <= k < domains.len() ==> domain_ok(#[trigger] domains[k]),
        0 <= i < managed_body(domains).len(),
    ensures
        line_ok(managed_body(domains)[i]),
    decreases domains.len(),
{
    lemma_managed_body_len(domains);
    lemma_host_line_facts(domains[0]);
    if i >= 2 {
        assert(managed_body(domains)[i] == managed_body(domains.drop_first())[i - 2]);
        lemma_managed_body_line(domains.drop_first(), i - 2);
    } else {
        assert(managed_body(domains)[i] == host_pair(domains[0])[i]);
    }
}

/// Merges the computed block set into the file content: foreign lines are
/// kept verbatim and in order, any previous managed block is discarded, and
/// a fresh block is appended when at least one domain is blocked. The
/// `changed` flag compares the trimmed old and new contents, so the caller
/// writes the file only when something really changed.
pub fn reconcile(current: &str, blocked: &Vec<String>) -> (r: (String, bool))
    ensures
        r.0@ == reconcile_spec(current@, views_of(blocked@)),
        r.1 == (trim_spec(r.0@) != trim_spec(current@)),
{
    let lines = split_lines(current);
    let ghost all = split_lines_spec(current@);
    let mut out_lines: Vec<String> = Vec::new();
    let mut in_block = false;
    let mut i: usize = 0;
    proof {
        assert(all.subrange(0, all.len() as int) =~= all);
        assert(views_of(out_lines@) + foreign_lines(all, false) =~= foreign_lines(all, false));
    }
    while i < lines.len()
        invariant
            0 <= i <= lines@.len(),
            views_of(lines@) == all,
            foreign_lines(all, false) == views_of(out_lines@) + foreign_lines(
                all.subrange(i as int, all.len() as int),
                in_block,
            ),
        decreases lines@.len() - i,
    {
        let ghost rest = all.subrange(i as int, all.len() as int);
        proof {
            assert(rest[0] == all[i as int]);
            assert(rest.drop_first() =~= all.subrange(i + 1, all.len() as int));
            assert(lines@[i as int]@ == all[i as int]);
        }
        let t = trim(lines[i].as_str());
        if str_eq(t, marker_start_line()) {
            in_block = true;
        } else if str_eq(t, marker_end_line()) {
            in_block = false;
        } else if !in_block {
            let kept = lines[i].clone();
            proof {
                assert(views_of(out_lines@.push(kept)) =~= views_of(out_lines@).push(kept@));
                assert(views_of(out_lines@) + (seq![all[i as int]] + foreign_lines(
                    rest.drop_first(),
                    false,
                )) =~= views_of(out_lines@.push(kept)) + foreign_lines(rest.drop_first(), false));
            }
            out_lines.push(kept);
        }
        i = i + 1;
    }
    proof {
        assert(all.subrange(all.len() as int, all.len() as int) =~= Seq::<Seq<char>>::empty());
        assert(views_of(out_lines@) + foreign_lines(
            all.subrange(all.len() as int, all.len() as int),
            in_block,
        ) =~= views_of(out_lines@));
    }
    let ghost foreign = views_of(out_lines@);
    let ghost domains = views_of(blocked@);
    if blocked.len() > 0 {
        out_lines.push(String::from_str(marker_start_line()));
        proof {
            assert(views_of(out_lines@) =~= foreign + seq![marker_start()]);
            assert(domains.take(0) =~= Seq::<Seq<char>>::empty());
            assert(foreign + seq![marker_start()] + managed_body(domains.take(0)) =~= foreign
                + seq![marker_start()]);
        }
        let mut j: usize = 0;
        while j < blocked.len()
            invariant
                0 <= j <= blocked@.len(),
                domains == views_of(blocked@),
                views_of(out_lines@) == foreign + seq![marker_start()] + managed_body(
                    domains.take(j as int),
                ),
            decreases blocked@.len() - j,
        {
            let bare = String::from_str("127.0.0.1 ").concat(blocked[j].as_str());
            let www = String::from_str("127.0.0.1 www.").concat(blocked[j].as_str());
            proof {
                assert(domains.take(j + 1) =~= domains.take(j as int).push(domains[j as int]));
                lemma_managed_body_push(domains.take(j as int), domains[j as int]);
                assert(bare@ == "127.0.0.1 "@ + domains[j as int]);
                assert(www@ == "127.0.0.1 www."@ + domains[j as int]);
                assert(views_of(out_lines@.push(bare).push(www)) =~= views_of(out_lines@).push(
                    bare@,
                ).push(www@));
                assert(views_of(out_lines@).push(bare@).push(www@) =~= foreign + seq![
                    marker_start(),
                ] + managed_body(domains.take(j + 1)));
            }
            out_lines.push(bare);
            out_lines.push(www);
            j = j + 1;
        }
        out_lines.push(String::from_str(marker_end_line()));
        proof {
            assert(domains.take(domains.len() as int) =~= domains);
            assert(views_of(out_lines@) =~= foreign + seq![marker_start()] + managed_body(domains)
                + seq![marker_end()]);
            assert(foreign + seq![marker_start()] + managed_body(domains) + seq![marker_end()]
                =~= foreign + (seq![marker_start()] + managed_body(domains) + seq![marker_end()]));
        }
    } else {
        proof {
            assert(views_of(out_lines@) =~= foreign + managed_block(domains));
        }
    }
    let content = join_lines(&out_lines);
    let changed = !str_eq(trim(content.as_str()), trim(current));
    (content, changed)
}

} // verus!
