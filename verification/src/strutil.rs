use vstd::prelude::*;

verus! {

/// The views of a sequence of strings.
pub open spec fn views_of(v: Seq<String>) -> Seq<Seq<char>> {
    v.map_values(|s: String| s@)
}

/// Strict lexicographic order on character sequences, by code point; a
/// proper prefix comes before every extension of it.
pub open spec fn seq_lt(a: Seq<char>, b: Seq<char>) -> bool
    decreases a.len(),
{
    if b.len() == 0 {
        false
    } else if a.len() == 0 {
        true
    } else if a[0] != b[0] {
        (a[0] as int) < (b[0] as int)
    } else {
        seq_lt(a.drop_first(), b.drop_first())
    }
}

/// Lexicographic order is irreflexive.
pub proof fn lemma_seq_lt_irrefl(a: Seq<char>)
    ensures
        !seq_lt(a, a),
    decreases a.len(),
{
    if a.len() > 0 {
        lemma_seq_lt_irrefl(a.drop_first());
    }
}

/// Lexicographic order is transitive.
pub proof fn lemma_seq_lt_trans(a: Seq<char>, b: Seq<char>, c: Seq<char>)
    requires
        seq_lt(a, b),
        seq_lt(b, c),
    ensures
        seq_lt(a, c),
    decreases a.len(),
{
    if a.len() > 0 && b.len() > 0 && c.len() > 0 && a[0] == b[0] && b[0] == c[0] {
        lemma_seq_lt_trans(a.drop_first(), b.drop_first(), c.drop_first());
    }
}

/// Strings that stand in the order are distinct.
pub proof fn lemma_seq_lt_neq(a: Seq<char>, b: Seq<char>)
    requires
        seq_lt(a, b),
    ensures
        a != b,
{
    if a == b {
        lemma_seq_lt_irrefl(a);
    }
}

/// The outcome of comparing two strings.
#[derive(Clone, Copy, Debug, PartialEq, Eq, Structural)]
pub enum StrOrd {
    Less,
    Equal,
    Greater,
}

proof fn lemma_seq_lt_at(a: Seq<char>, b: Seq<char>, i: int)
    requires
        0 <= i <= a.len(),
        i <= b.len(),
        forall|j: int| 0 <= j < i ==> a[j] == b[j],
        (i < a.len() && i < b.len() && (a[i] as int) < (b[i] as int)) || (i == a.len() && i
            < b.len()),
    ensures
        seq_lt(a, b),
    decreases i,
{
    if i == 0 {
    } else {
        lemma_seq_lt_at(a.drop_first(), b.drop_first(), i - 1);
    }
}

/// Compares two strings in the lexicographic order `seq_lt`.
pub fn str_cmp(a: &str, b: &str) -> (r: StrOrd)
    ensures
        r is Equal <==> a@ == b@,
        r is Less ==> seq_lt(a@, b@),
        r is Greater ==> seq_lt(b@, a@),
{
    let alen = a.unicode_len();
    let blen = b.unicode_len();
    let mut i: usize = 0;
    loop
        invariant
            0 <= i <= alen,
            i <= blen,
            alen == a@.len(),
            blen == b@.len(),
            forall|j: int| 0 <= j < i ==> a@[j] == b@[j],
        decreases alen - i,
    {
        if i == alen && i == blen {
            proof {
                assert(a@ =~= b@);
            }
            return StrOrd::Equal;
        }
        if i == alen {
            proof {
                lemma_seq_lt_at(a@, b@, i as int);
                lemma_seq_lt_neq(a@, b@);
            }
            return StrOrd::Less;
        }
        if i == blen {
            proof {
                lemma_seq_lt_at(b@, a@, i as int);
                lemma_seq_lt_neq(b@, a@);
            }
            return StrOrd::Greater;
        }
        let ca = a.get_char(i);
        let cb = b.get_char(i);
        if (ca as u32) < (cb as u32) {
            proof {
                lemma_seq_lt_at(a@, b@, i as int);
                lemma_seq_lt_neq(a@, b@);
            }
            return StrOrd::Less;
        }
        if (cb as u32) < (ca as u32) {
            proof {
                lemma_seq_lt_at(b@, a@, i as int);
                lemma_seq_lt_neq(b@, a@);
            }
            return StrOrd::Greater;
        }
        i = i + 1;
    }
}

/// Whether two strings hold the same characters.
pub fn str_eq(a: &str, b: &str) -> (r: bool)
    ensures
        r == (a@ == b@),
{
    match str_cmp(a, b) {
        StrOrd::Equal => true,
        _ => false,
    }
}

/// The whitespace characters that trimming removes.
pub open spec fn is_space(c: char) -> bool {
    c == ' ' || c == '\t' || c == '\r' || c == '\n'
}

pub fn is_space_char(c: char) -> (r: bool)
    ensures
        r == is_space(c),
{
    c == ' ' || c == '\t' || c == '\r' || c == '\n'
}

/// A string with its leading whitespace removed.
pub open spec fn trim_start_spec(s: Seq<char>) -> Seq<char>
    decreases s.len(),
{
    if s.len() > 0 && is_space(s[0]) {
        trim_start_spec(s.drop_first())
    } else {
        s
    }
}

/// A string with its trailing whitespace removed.
pub open spec fn trim_end_spec(s: Seq<char>) -> Seq<char>
    decreases s.len(),
{
    if s.len() > 0 && is_space(s.last()) {
        trim_end_spec(s.drop_last())
    } else {
        s
    }
}

/// A string with whitespace removed from both ends.
pub open spec fn trim_spec(s: Seq<char>) -> Seq<char> {
    trim_start_spec(trim_end_spec(s))
}

proof fn lemma_trim_end_at(s: Seq<char>, j: int)
    requires
        0 <= j <= s.len(),
        forall|k: int| j <= k < s.len() ==> is_space(s[k]),
        j > 0 ==> !is_space(s[j - 1]),
    ensures
        trim_end_spec(s) == s.subrange(0, j),
    decreases s.len(),
{
    if s.len() > 0 && is_space(s.last()) {
        lemma_trim_end_at(s.drop_last(), j);
        assert(s.drop_last().subrange(0, j) =~= s.subrange(0, j));
    } else {
        assert(s.subrange(0, j) =~= s);
    }
}

proof fn lemma_trim_start_at(s: Seq<char>, i: int)
    requires
        0 <= i <= s.len(),
        forall|k: int| 0 <= k < i ==> is_space(s[k]),
        i < s.len() ==> !is_space(s[i]),
    ensures
        trim_start_spec(s) == s.subrange(i, s.len() as int),
    decreases i,
{
    if i == 0 {
        assert(s.subrange(0, s.len() as int) =~= s);
    } else {
        lemma_trim_start_at(s.drop_first(), i - 1);
        assert(s.drop_first().subrange(i - 1, s.drop_first().len() as int) =~= s.subrange(
            i,
            s.len() as int,
        ));
    }
}

/// Removing trailing whitespace, one character at a time: appending a
/// whitespace character does not change the trimmed string.
pub proof fn lemma_trim_push_space(s: Seq<char>, c: char)
    requires
        is_space(c),
    ensures
        trim_spec(s.push(c)) == trim_spec(s),
{
    assert(s.push(c).drop_last() =~= s);
}

/// A string whose ends are not whitespace trims to itself.
pub proof fn lemma_trim_id(l: Seq<char>)
    requires
        l.len() > 0,
        !is_space(l[0]),
        !is_space(l.last()),
    ensures
        trim_spec(l) == l,
{
}

/// Trims whitespace from both ends of a string.
pub fn trim(s: &str) -> (r: &str)
    ensures
        r@ == trim_spec(s@),
{
    let len = s.unicode_len();
    let mut j: usize = len;
    while j > 0 && is_space_char(s.get_char(j - 1))
        invariant
            0 <= j <= len,
            len == s@.len(),
            forall|k: int| j <= k < s@.len() ==> is_space(s@[k]),
        decreases j,
    {
        j = j - 1;
    }
    let mut i: usize = 0;
    while i < j && is_space_char(s.get_char(i))
        invariant
            0 <= i <= j <= len,
            len == s@.len(),
            forall|k: int| 0 <= k < i ==> is_space(s@[k]),
        decreases j - i,
    {
        i = i + 1;
    }
    proof {
        lemma_trim_end_at(s@, j as int);
        lemma_trim_start_at(s@.subrange(0, j as int), i as int);
        assert(s@.subrange(0, j as int).subrange(i as int, j as int) =~= s@.subrange(
            i as int,
            j as int,
        ));
    }
    s.substring_char(i, j)
}

/// The position of the first line break, or the length when there is none.
pub open spec fn first_nl(s: Seq<char>) -> int
    decreases s.len(),
{
    if s.len() == 0 {
        0
    } else if s[0] == '\n' {
        0
    } else {
        1 + first_nl(s.drop_first())
    }
}

pub proof fn lemma_first_nl_at(s: Seq<char>, i: int)
    requires
        0 <= i <= s.len(),
        forall|k: int| 0 <= k < i ==> s[k] != '\n',
        i < s.len() ==> s[i] == '\n',
    ensures
        first_nl(s) == i,
    decreases i,
{
    if i > 0 {
        lemma_first_nl_at(s.drop_first(), i - 1);
    }
}

/// The lines of a string: the segments between line breaks. A trailing line
/// break closes the last line without opening an empty one.
pub open spec fn split_lines_spec(s: Seq<char>) -> Seq<Seq<char>>
    decreases s.len(),
    via split_lines_spec_decreases
{
    if s.len() == 0 {
        Seq::empty()
    } else {
        let i = first_nl(s);
        if i == s.len() {
            seq![s]
        } else {
            seq![s.subrange(0, i)] + split_lines_spec(s.subrange(i + 1, s.len() as int))
        }
    }
}

#[via_fn]
proof fn split_lines_spec_decreases(s: Seq<char>) {
    lemma_first_nl_bounds(s);
}

/// No line holds a line break.
pub proof fn lemma_split_lines_no_nl(s: Seq<char>)
    ensures
        forall|i: int, k: int|
            0 <= i < split_lines_spec(s).len() && 0 <= k < split_lines_spec(s)[i].len()
                ==> #[trigger] split_lines_spec(s)[i][k] != '\n',
    decreases s.len(),
{
    if s.len() > 0 {
        lemma_first_nl_bounds(s);
        let i = first_nl(s);
        let r = split_lines_spec(s);
        if i < s.len() {
            let rest = s.subrange(i + 1, s.len() as int);
            lemma_split_lines_no_nl(rest);
            assert forall|q: int, k: int| 0 <= q < r.len() && 0 <= k < r[q].len() implies #[trigger] r[q][k]
                != '\n' by {
                if q == 0 {
                    assert(r[0] == s.subrange(0, i));
                } else {
                    assert(r[q] == split_lines_spec(rest)[q - 1]);
                }
            }
        } else {
            assert(r[0] == s);
        }
    }
}

pub proof fn lemma_first_nl_bounds(s: Seq<char>)
    ensures
        0 <= first_nl(s) <= s.len(),
        forall|k: int| 0 <= k < first_nl(s) ==> s[k] != '\n',
        first_nl(s) < s.len() ==> s[first_nl(s)] == '\n',
    decreases s.len(),
{
    if s.len() > 0 && s[0] != '\n' {
        lemma_first_nl_bounds(s.drop_first());
        assert forall|k: int| 0 <= k < first_nl(s) implies s[k] != '\n' by {
            if k > 0 {
                assert(s[k] == s.drop_first()[k - 1]);
            }
        }
        if first_nl(s) < s.len() {
            assert(s[first_nl(s)] == s.drop_first()[first_nl(s.drop_first())]);
        }
    }
}

/// Splits a string into its lines.
pub fn split_lines(s: &str) -> (r: Vec<String>)
    ensures
        views_of(r@) == split_lines_spec(s@),
{
    let len = s.unicode_len();
    let mut lines: Vec<String> = Vec::new();
    let mut start: usize = 0;
    proof {
        assert(s@.subrange(0, len as int) =~= s@);
        assert(views_of(lines@) + split_lines_spec(s@) =~= split_lines_spec(s@));
    }
    while start < len
        invariant
            0 <= start <= len,
            len == s@.len(),
            split_lines_spec(s@) == views_of(lines@) + split_lines_spec(
                s@.subrange(start as int, len as int),
            ),
        decreases len - start,
    {
        let mut j: usize = start;
        while j < len && s.get_char(j) != '\n'
            invariant
                start <= j <= len,
                len == s@.len(),
                forall|k: int| start <= k < j ==> s@[k] != '\n',
            decreases len - j,
        {
            j = j + 1;
        }
        let line = s.substring_char(start, j).to_owned();
        proof {
            let t = s@.subrange(start as int, len as int);
            lemma_first_nl_at(t, j - start);
            assert(t.subrange(0, j - start) =~= s@.subrange(start as int, j as int));
            assert(views_of(lines@.push(line)) =~= views_of(lines@).push(line@));
            if j < len {
                assert(t.subrange(j - start + 1, t.len() as int) =~= s@.subrange(
                    j + 1,
                    len as int,
                ));
                assert(views_of(lines@) + (seq![line@] + split_lines_spec(
                    s@.subrange(j + 1, len as int),
                )) =~= views_of(lines@.push(line)) + split_lines_spec(
                    s@.subrange(j + 1, len as int),
                ));
            } else {
                assert(t =~= line@);
                assert(split_lines_spec(t) == seq![line@]);
                assert(views_of(lines@) + seq![line@] =~= views_of(lines@.push(line)));
            }
        }
        lines.push(line);
        if j == len {
            return lines;
        }
        start = j + 1;
    }
    proof {
        assert(s@.subrange(start as int, len as int) =~= Seq::<char>::empty());
        assert(views_of(lines@) + split_lines_spec(s@.subrange(start as int, len as int))
            =~= views_of(lines@));
    }
    lines
}

/// The lines of a text joined with single line breaks; no break follows the
/// last line.
pub open spec fn join_lines_spec(lines: Seq<Seq<char>>) -> Seq<char>
    decreases lines.len(),
{
    if lines.len() == 0 {
        Seq::empty()
    } else if lines.len() == 1 {
        lines[0]
    } else {
        lines[0] + seq!['\n'] + join_lines_spec(lines.drop_first())
    }
}

/// Joining one more line appends a break and the line.
pub proof fn lemma_join_lines_push(lines: Seq<Seq<char>>, l: Seq<char>)
    ensures
        join_lines_spec(lines.push(l)) == if lines.len() == 0 {
            l
        } else {
            join_lines_spec(lines) + seq!['\n'] + l
        },
    decreases lines.len(),
{
    if lines.len() == 0 {
        assert(lines.push(l).len() == 1);
        assert(join_lines_spec(lines.push(l)) == lines.push(l)[0]);
    } else {
        lemma_join_lines_push(lines.drop_first(), l);
        assert(lines.push(l).drop_first() =~= lines.drop_first().push(l));
        if lines.len() == 1 {
            assert(join_lines_spec(lines.push(l)) =~= join_lines_spec(lines) + seq!['\n'] + l);
        } else {
            assert(lines.push(l)[0] + seq!['\n'] + (join_lines_spec(lines.drop_first())
                + seq!['\n'] + l) =~= (lines[0] + seq!['\n'] + join_lines_spec(
                lines.drop_first(),
            )) + seq!['\n'] + l);
        }
    }
}

/// Whether the pattern occurs anywhere in the string.
pub open spec fn contains_seq(s: Seq<char>, p: Seq<char>) -> bool {
    exists|i: int| 0 <= i && i + p.len() <= s.len() && #[trigger] s.subrange(i, i + p.len()) == p
}

/// Searches a string for a pattern.
pub fn contains_str(s: &str, p: &str) -> (r: bool)
    ensures
        r == contains_seq(s@, p@),
{
    let slen = s.unicode_len();
    let plen = p.unicode_len();
    if plen > slen {
        return false;
    }
    if plen == 0 {
        proof {
            assert(s@.subrange(0, 0 + p@.len() as int) =~= p@);
            assert(contains_seq(s@, p@));
        }
        return true;
    }
    let mut i: usize = 0;
    while i <= slen - plen
        invariant
            1 <= plen <= slen,
            slen == s@.len(),
            plen == p@.len(),
            0 <= i <= slen - plen + 1,
            forall|k: int| 0 <= k < i ==> #[trigger] s@.subrange(k, k + p@.len()) != p@,
        decreases slen - i,
    {
        if str_eq(s.substring_char(i, i + plen), p) {
            return true;
        }
        i = i + 1;
    }
    false
}

/// The position of the first character that is not whitespace, or the
/// length when the string is all whitespace.
pub open spec fn first_non_space(s: Seq<char>) -> int
    decreases s.len(),
{
    if s.len() == 0 {
        0
    } else if !is_space(s[0]) {
        0
    } else {
        1 + first_non_space(s.drop_first())
    }
}

/// How many characters the leading whitespace-free run holds.
pub open spec fn leading_run(s: Seq<char>) -> int
    decreases s.len(),
{
    if s.len() == 0 {
        0
    } else if is_space(s[0]) {
        0
    } else {
        1 + leading_run(s.drop_first())
    }
}

/// The first whitespace-separated word of a string, if any.
pub open spec fn first_token_spec(s: Seq<char>) -> Option<Seq<char>> {
    let i = first_non_space(s);
    if i >= s.len() {
        None
    } else {
        let rest = s.subrange(i, s.len() as int);
        Some(rest.subrange(0, leading_run(rest)))
    }
}

proof fn lemma_first_non_space_at(s: Seq<char>, i: int)
    requires
        0 <= i <= s.len(),
        forall|k: int| 0 <= k < i ==> is_space(s[k]),
        i < s.len() ==> !is_space(s[i]),
    ensures
        first_non_space(s) == i,
    decreases i,
{
    if i > 0 {
        lemma_first_non_space_at(s.drop_first(), i - 1);
    }
}

proof fn lemma_leading_run_at(s: Seq<char>, j: int)
    requires
        0 <= j <= s.len(),
        forall|k: int| 0 <= k < j ==> !is_space(s[k]),
        j < s.len() ==> is_space(s[j]),
    ensures
        leading_run(s) == j,
    decreases j,
{
    if j > 0 {
        lemma_leading_run_at(s.drop_first(), j - 1);
    }
}

/// Reads the first whitespace-separated word of a string.
pub fn first_token(s: &str) -> (r: Option<String>)
    ensures
        r is Some <==> first_token_spec(s@) is Some,
        r is Some ==> r->0@ == first_token_spec(s@)->0,
{
    let len = s.unicode_len();
    let mut i: usize = 0;
    while i < len && is_space_char(s.get_char(i))
        invariant
            0 <= i <= len,
            len == s@.len(),
            forall|k: int| 0 <= k < i ==> is_space(s@[k]),
        decreases len - i,
    {
        i = i + 1;
    }
    proof {
        lemma_first_non_space_at(s@, i as int);
    }
    if i == len {
        return None;
    }
    let mut j: usize = i;
    while j < len && !is_space_char(s.get_char(j))
        invariant
            i <= j <= len,
            len == s@.len(),
            forall|k: int| i <= k < j ==> !is_space(s@[k]),
        decreases len - j,
    {
        j = j + 1;
    }
    proof {
        let rest = s@.subrange(i as int, len as int);
        lemma_leading_run_at(rest, j - i);
        assert(rest.subrange(0, j - i) =~= s@.subrange(i as int, j as int));
    }
    Some(s.substring_char(i, j).to_owned())
}

/// A line proper: text without a line break.
pub open spec fn line_ok(l: Seq<char>) -> bool {
    forall|k: int| 0 <= k < l.len() ==> l[k] != '\n'
}

/// Every element is a line proper.
pub open spec fn lines_ok(ls: Seq<Seq<char>>) -> bool {
    forall|i: int| 0 <= i < ls.len() ==> line_ok(#[trigger] ls[i])
}

/// Splitting takes one leading line off the front.
pub proof fn lemma_split_prepend_line(a: Seq<char>, r: Seq<char>)
    requires
        line_ok(a),
    ensures
        split_lines_spec(a + seq!['\n'] + r) == seq![a] + split_lines_spec(r),
{
    let s = a + seq!['\n'] + r;
    assert(s.len() > 0);
    lemma_first_nl_at(s, a.len() as int);
    assert(s.subrange(0, a.len() as int) =~= a);
    assert(s.subrange(a.len() as int + 1, s.len() as int) =~= r);
}

/// Splitting undoes joining, for lines proper whose last line is not empty.
pub proof fn lemma_split_join(ls: Seq<Seq<char>>)
    requires
        lines_ok(ls),
        ls.len() > 0 ==> ls.last().len() > 0,
    ensures
        split_lines_spec(join_lines_spec(ls)) == ls,
    decreases ls.len(),
{
    if ls.len() == 0 {
        assert(split_lines_spec(join_lines_spec(ls)) =~= ls);
    } else if ls.len() == 1 {
        let l = ls[0];
        lemma_first_nl_at(l, l.len() as int);
        assert(split_lines_spec(l) == seq![l]);
        assert(seq![l] =~= ls);
    } else {
        let rest = ls.drop_first();
        assert(join_lines_spec(ls) == ls[0] + seq!['\n'] + join_lines_spec(rest));
        lemma_split_prepend_line(ls[0], join_lines_spec(rest));
        assert(rest.last() == ls.last());
        lemma_split_join(rest);
        assert(seq![ls[0]] + rest =~= ls);
    }
}

/// Joining undoes splitting, up to one trailing line break of the text.
pub proof fn lemma_join_split(s: Seq<char>)
    ensures
        join_lines_spec(split_lines_spec(s)) == if s.len() > 0 && s.last() == '\n' {
            s.drop_last()
        } else {
            s
        },
    decreases s.len(),
{
    if s.len() > 0 {
        lemma_first_nl_bounds(s);
        let i = first_nl(s);
        if i == s.len() {
            assert(split_lines_spec(s) == seq![s]);
            assert(s.last() != '\n');
        } else {
            let rest = s.subrange(i + 1, s.len() as int);
            let t = split_lines_spec(rest);
            assert(split_lines_spec(s) == seq![s.subrange(0, i)] + t);
            lemma_join_split(rest);
            if t.len() == 0 {
                if rest.len() > 0 {
                    assert(join_lines_spec(t).len() == 0);
                    assert((if rest.len() > 0 && rest.last() == '\n' {
                        rest.drop_last()
                    } else {
                        rest
                    }).len() == rest.len() || (rest.last() == '\n' && rest.len() == 1));
                }
                assert(rest.len() == 0);
                assert(i == s.len() - 1);
                assert(s.last() == '\n');
                assert(join_lines_spec(split_lines_spec(s)) == s.subrange(0, i));
                assert(s.subrange(0, i) =~= s.drop_last());
            } else {
                let whole = seq![s.subrange(0, i)] + t;
                assert(whole.len() >= 2);
                assert(whole[0] == s.subrange(0, i));
                assert(whole.drop_first() =~= t);
                assert(join_lines_spec(whole) == s.subrange(0, i) + seq!['\n'] + join_lines_spec(
                    t,
                ));
                if rest.len() > 0 && rest.last() == '\n' {
                    assert(s.last() == '\n');
                    assert(s.subrange(0, i) + seq!['\n'] + rest.drop_last() =~= s.drop_last());
                } else {
                    assert(rest.len() > 0);
                    assert(s.last() == rest.last());
                    assert(s.subrange(0, i) + seq!['\n'] + rest =~= s);
                }
            }
        }
    } else {
        assert(join_lines_spec(split_lines_spec(s)) =~= s);
    }
}

/// Splitting a joined text gives back its lines, except that empty trailing
/// lines may collapse: every line of the result is a line of the input or
/// is empty.
pub proof fn lemma_lines_of_join(ls: Seq<Seq<char>>)
    requires
        lines_ok(ls),
    ensures
        forall|i: int|
            0 <= i < split_lines_spec(join_lines_spec(ls)).len() ==> ls.contains(
                #[trigger] split_lines_spec(join_lines_spec(ls))[i],
            ) || split_lines_spec(join_lines_spec(ls))[i].len() == 0,
        lines_ok(split_lines_spec(join_lines_spec(ls))),
    decreases ls.len(),
{
    let out = split_lines_spec(join_lines_spec(ls));
    if ls.len() == 0 {
        assert(out =~= Seq::<Seq<char>>::empty());
    } else if ls.len() == 1 {
        let l = ls[0];
        assert(join_lines_spec(ls) == l);
        lemma_first_nl_at(l, l.len() as int);
        if l.len() > 0 {
            assert(out == seq![l]);
            assert(ls.contains(l));
        }
    } else {
        let rest = ls.drop_first();
        assert(join_lines_spec(ls) == ls[0] + seq!['\n'] + join_lines_spec(rest));
        lemma_split_prepend_line(ls[0], join_lines_spec(rest));
        lemma_lines_of_join(rest);
        let sub = split_lines_spec(join_lines_spec(rest));
        assert(out == seq![ls[0]] + sub);
        assert forall|i: int| 0 <= i < out.len() implies ls.contains(#[trigger] out[i])
            || out[i].len() == 0 by {
            if i == 0 {
                assert(out[0] == ls[0]);
                assert(ls.contains(ls[0]));
            } else {
                assert(out[i] == sub[i - 1]);
                if sub[i - 1].len() > 0 {
                    let j = choose|j: int| 0 <= j < rest.len() && rest[j] == sub[i - 1];
                    assert(ls[j + 1] == rest[j]);
                    assert(ls.contains(ls[j + 1]));
                }
            }
        }
        assert forall|i: int| 0 <= i < out.len() implies line_ok(#[trigger] out[i]) by {
            if i == 0 {
                assert(out[0] == ls[0]);
            } else {
                assert(out[i] == sub[i - 1]);
            }
        }
    }
}

/// Joins lines with single line breaks.
pub fn join_lines(lines: &Vec<String>) -> (r: String)
    ensures
        r@ == join_lines_spec(views_of(lines@)),
{
    let mut out = String::new();
    let mut i: usize = 0;
    proof {
        reveal_strlit("\n");
        assert(views_of(lines@).take(0) =~= Seq::<Seq<char>>::empty());
    }
    while i < lines.len()
        invariant
            0 <= i <= lines@.len(),
            out@ == join_lines_spec(views_of(lines@).take(i as int)),
            "\n"@ =~= seq!['\n'],
        decreases lines@.len() - i,
    {
        if i > 0 {
            out.append("\n");
        }
        out.append(lines[i].as_str());
        proof {
            let vs = views_of(lines@);
            lemma_join_lines_push(vs.take(i as int), vs[i as int]);
            assert(vs.take(i as int).push(vs[i as int]) =~= vs.take(i + 1));
        }
        i = i + 1;
    }
    proof {
        assert(views_of(lines@).take(lines@.len() as int) =~= views_of(lines@));
    }
    out
}

} // verus!
