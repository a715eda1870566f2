//! A small line-based text linter.
//!
//! A linter holds rules, which report problems on single lines, and fixers,
//! which rewrite a whole text.  `check` runs every rule on every line and
//! numbers the reports by line (from 1); `fix` runs every fixer in turn and
//! counts those that changed the text.  Lines are those of `str::lines`:
//! the text is cut at each `\n`, a `\r` right before a `\n` is dropped, and
//! a final `\n` does not open an empty last line.
use vstd::prelude::*;
use crate::text::{chars_of, string_of};

verus! {

/// A problem found on a line.  Rules leave `line` at 0; `check` sets it to
/// the number of the line (from 1).
#[derive(Debug, Clone)]
pub struct Violation {
    pub line: usize,
    pub message: String,
}

/// A check on one line of text.
pub trait LineRule {
    /// The messages that the rule reports on `line`, in order.
    spec fn spec_messages(&self, line: Seq<char>) -> Seq<Seq<char>>;

    /// Reports the problems of `line`.
    fn check_line(&self, line: &str) -> (r: Vec<Violation>)
        ensures
            messages_of(r@) == self.spec_messages(line@),
    ;
}

/// A rewrite of a whole text.
pub trait Fixer {
    /// The text after the rewrite, and whether the rewrite changed it.
    spec fn spec_apply(&self, content: Seq<char>) -> (Seq<char>, bool);

    /// Rewrites `content`; says whether it changed.
    fn apply(&self, content: &mut String) -> (changed: bool)
        ensures
            (final(content)@, changed) == self.spec_apply(old(content)@),
    ;
}

/// The messages of some violations.
pub open spec fn messages_of(vs: Seq<Violation>) -> Seq<Seq<char>> {
    vs.map_values(|v: Violation| v.message@)
}

/// Violations as (line number, message) pairs.
pub open spec fn violations_view(vs: Seq<Violation>) -> Seq<(int, Seq<char>)> {
    vs.map_values(|v: Violation| (v.line as int, v.message@))
}

/// Where the first line of `s` ends: the index of the first `\n`, or the
/// length of `s` when it has none.
pub open spec fn line_end(s: Seq<char>) -> int
    decreases s.len(),
{
    if s.len() == 0 {
        0
    } else if s[0] == '\n' {
        0
    } else {
        1 + line_end(s.drop_first())
    }
}

pub proof fn lemma_line_end(s: Seq<char>)
    ensures
        0 <= line_end(s) <= s.len(),
        forall|j: int| 0 <= j < line_end(s) ==> s[j] != '\n',
        line_end(s) < s.len() ==> s[line_end(s)] == '\n',
    decreases s.len(),
{
    if s.len() > 0 && s[0] != '\n' {
        lemma_line_end(s.drop_first());
        assert forall|j: int| 0 <= j < line_end(s) implies s[j] != '\n' by {
            if j > 0 {
                assert(s[j] == s.drop_first()[j - 1]);
            }
        }
    }
}

/// `l` without one `\r` at its end, if it has one.
pub open spec fn strip_cr(l: Seq<char>) -> Seq<char> {
    if l.len() > 0 && l.last() == '\r' {
        l.drop_last()
    } else {
        l
    }
}

/// The lines of `s`, as `str::lines` gives them.
pub open spec fn lines(s: Seq<char>) -> Seq<Seq<char>>
    decreases s.len(),
{
    if s.len() == 0 {
        seq![]
    } else {
        let e = line_end(s);
        proof {
            lemma_line_end(s);
        }
        if e >= s.len() {
            seq![s]
        } else {
            seq![strip_cr(s.subrange(0, e))] + lines(s.subrange(e + 1, s.len() as int))
        }
    }
}

/// `s` holds no `\n`.
pub open spec fn no_newline(s: Seq<char>) -> bool {
    forall|j: int| 0 <= j < s.len() ==> s[j] != '\n'
}

pub proof fn lemma_line_end_of_line(cur: Seq<char>, rest: Seq<char>)
    requires
        no_newline(cur),
    ensures
        line_end(cur + rest) == cur.len() + line_end(rest),
    decreases cur.len(),
{
    if cur.len() > 0 {
        assert((cur + rest).drop_first() =~= cur.drop_first() + rest);
        lemma_line_end_of_line(cur.drop_first(), rest);
    } else {
        assert(cur + rest =~= rest);
    }
}

/// A line without `\n`, then `\n`, then more text.
pub proof fn lemma_lines_newline(cur: Seq<char>, rest: Seq<char>)
    requires
        no_newline(cur),
    ensures
        lines(cur + seq!['\n'] + rest) == seq![strip_cr(cur)] + lines(rest),
{
    let s = cur + seq!['\n'] + rest;
    lemma_line_end_of_line(cur, seq!['\n'] + rest);
    assert(s =~= cur + (seq!['\n'] + rest));
    assert(line_end(seq!['\n'] + rest) == 0);
    assert(s.subrange(0, cur.len() as int) =~= cur);
    assert(s.subrange(cur.len() + 1 as int, s.len() as int) =~= rest);
}

/// A last line without `\n`.
pub proof fn lemma_lines_last(cur: Seq<char>)
    requires
        no_newline(cur),
        cur.len() > 0,
    ensures
        lines(cur) == seq![cur],
{
    lemma_line_end_of_line(cur, seq![]);
    assert(cur + seq![] =~= cur);
}

/// The lines of `content`, as character vectors.
pub fn split_lines(content: &str) -> (r: Vec<Vec<char>>)
    ensures
        r@.map_values(|l: Vec<char>| l@) == lines(content@),
{
    let cs = chars_of(content);
    let ghost s = cs@;
    let mut out: Vec<Vec<char>> = Vec::new();
    let mut cur: Vec<char> = Vec::new();
    let mut i: usize = 0;
    assert(cur@ + s.subrange(0, s.len() as int) =~= s);
    while i < cs.len()
        invariant
            s == cs@,
            i <= s.len(),
            no_newline(cur@),
            lines(s) == out@.map_values(|l: Vec<char>| l@) + lines(
                cur@ + s.subrange(i as int, s.len() as int),
            ),
        decreases cs.len() - i,
    {
        let c = cs[i];
        let ghost rest = s.subrange(i + 1, s.len() as int);
        assert(s.subrange(i as int, s.len() as int) =~= seq![c] + rest);
        if c == '\n' {
            proof {
                lemma_lines_newline(cur@, rest);
                assert(cur@ + s.subrange(i as int, s.len() as int) =~= cur@ + seq!['\n'] + rest);
            }
            let ghost line = cur@;
            if cur.len() > 0 && cur[cur.len() - 1] == '\r' {
                cur.pop();
            }
            assert(cur@ == strip_cr(line));
            let ghost before = out@;
            out.push(cur);
            cur = Vec::new();
            proof {
                assert(out@.map_values(|l: Vec<char>| l@) =~= before.map_values(|l: Vec<char>| l@)
                    + seq![strip_cr(line)]);
                assert(cur@ + rest =~= rest);
            }
        } else {
            let ghost old_cur = cur@;
            cur.push(c);
            proof {
                assert(old_cur + (seq![c] + rest) =~= cur@ + rest);
            }
        }
        i += 1;
    }
    assert(cur@ + s.subrange(i as int, s.len() as int) =~= cur@);
    if cur.len() > 0 {
        proof {
            lemma_lines_last(cur@);
        }
        let ghost before = out@;
        let ghost line = cur@;
        out.push(cur);
        assert(out@.map_values(|l: Vec<char>| l@) =~= before.map_values(|l: Vec<char>| l@) + seq![
            line,
        ]);
    } else {
        assert(out@.map_values(|l: Vec<char>| l@) + lines(cur@) =~= out@.map_values(
            |l: Vec<char>| l@,
        ));
    }
    out
}

/// The reports of the first rules of `rules` on `line`, numbered `n`.
pub open spec fn line_report<R: LineRule>(rules: Seq<R>, line: Seq<char>, n: int) -> Seq<
    (int, Seq<char>),
>
    decreases rules.len(),
{
    if rules.len() == 0 {
        seq![]
    } else {
        line_report(rules.drop_last(), line, n) + rules.last().spec_messages(line).map_values(
            |m: Seq<char>| (n, m),
        )
    }
}

/// The reports of `rules` on `ls`, line by line, the first line numbered 1.
pub open spec fn check_lines<R: LineRule>(rules: Seq<R>, ls: Seq<Seq<char>>) -> Seq<
    (int, Seq<char>),
>
    decreases ls.len(),
{
    if ls.len() == 0 {
        seq![]
    } else {
        check_lines(rules, ls.drop_last()) + line_report(rules, ls.last(), ls.len() as int)
    }
}

/// `fixers` applied in turn to `content`: the final text and how many of
/// them changed the text.
pub open spec fn fix_all<F: Fixer>(fixers: Seq<F>, content: Seq<char>) -> (Seq<char>, nat)
    decreases fixers.len(),
{
    if fixers.len() == 0 {
        (content, 0)
    } else {
        let (c, n) = fix_all(fixers.drop_last(), content);
        let (c2, changed) = fixers.last().spec_apply(c);
        (c2, if changed { n + 1 } else { n })
    }
}

proof fn lemma_line_report_numbers<R: LineRule>(rules: Seq<R>, line: Seq<char>, n: int)
    ensures
        forall|i: int|
            0 <= i < line_report(rules, line, n).len() ==> (#[trigger] line_report(rules, line, n)[i]).0
                == n,
    decreases rules.len(),
{
    if rules.len() > 0 {
        lemma_line_report_numbers(rules.drop_last(), line, n);
        let a = line_report(rules.drop_last(), line, n);
        let b = rules.last().spec_messages(line).map_values(|m: Seq<char>| (n, m));
        assert forall|i: int| 0 <= i < (a + b).len() implies (#[trigger] (a + b)[i]).0 == n by {
            if i >= a.len() {
                assert((a + b)[i] == b[i - a.len()]);
            }
        }
    }
}

/// Every report of a check names a line of the text, and the reports come
/// in the order of the lines: line numbers run from 1 to the number of
/// lines and never go down.
pub proof fn lemma_check_line_numbers<R: LineRule>(rules: Seq<R>, ls: Seq<Seq<char>>)
    ensures
        forall|i: int|
            0 <= i < check_lines(rules, ls).len() ==> 1 <= (#[trigger] check_lines(rules, ls)[i]).0
                <= ls.len(),
        forall|i: int, j: int|
            0 <= i < j < check_lines(rules, ls).len() ==> (#[trigger] check_lines(rules, ls)[i]).0
                <= (#[trigger] check_lines(rules, ls)[j]).0,
    decreases ls.len(),
{
    if ls.len() > 0 {
        lemma_check_line_numbers(rules, ls.drop_last());
        lemma_line_report_numbers(rules, ls.last(), ls.len() as int);
        let a = check_lines(rules, ls.drop_last());
        let b = line_report(rules, ls.last(), ls.len() as int);
        assert(check_lines(rules, ls) == a + b);
        assert forall|i: int| 0 <= i < (a + b).len() implies 1 <= (#[trigger] (a + b)[i]).0
            <= ls.len() by {
            if i >= a.len() {
                assert((a + b)[i] == b[i - a.len()]);
            } else {
                assert((a + b)[i] == a[i]);
            }
        }
        assert forall|i: int, j: int| 0 <= i < j < (a + b).len() implies (#[trigger] (a + b)[i]).0
            <= (#[trigger] (a + b)[j]).0 by {
            if j >= a.len() {
                assert((a + b)[j] == b[j - a.len()]);
                if i >= a.len() {
                    assert((a + b)[i] == b[i - a.len()]);
                } else {
                    assert((a + b)[i] == a[i]);
                }
            } else {
                assert((a + b)[i] == a[i]);
                assert((a + b)[j] == a[j]);
            }
        }
    }
}

/// A linter without rules reports nothing.
pub proof fn lemma_check_without_rules<R: LineRule>(ls: Seq<Seq<char>>)
    ensures
        check_lines(Seq::<R>::empty(), ls) == Seq::<(int, Seq<char>)>::empty(),
    decreases ls.len(),
{
    if ls.len() > 0 {
        lemma_check_without_rules::<R>(ls.drop_last());
    }
}

/// At most every fixer changes the text, and without fixers the text stays
/// as it is.
pub proof fn lemma_fix_count<F: Fixer>(fixers: Seq<F>, content: Seq<char>)
    ensures
        fix_all(fixers, content).1 <= fixers.len(),
        fixers.len() == 0 ==> fix_all(fixers, content) == (content, 0nat),
    decreases fixers.len(),
{
    if fixers.len() > 0 {
        lemma_fix_count(fixers.drop_last(), content);
    }
}

/// Reports whose line numbers are raised by `n`.
pub open spec fn shift_reports(rs: Seq<(int, Seq<char>)>, n: int) -> Seq<(int, Seq<char>)> {
    rs.map_values(|p: (int, Seq<char>)| (p.0 + n, p.1))
}

/// A text that is empty or ends with a line break followed by more text:
/// its lines are those of the first part, then those of the second.
pub proof fn lemma_lines_concat(a: Seq<char>, b: Seq<char>)
    requires
        a.len() == 0 || a.last() == '\n',
    ensures
        lines(a + b) == lines(a) + lines(b),
    decreases a.len(),
{
    if a.len() == 0 {
        assert(a + b =~= b);
        assert(lines(a) + lines(b) =~= lines(b));
    } else {
        lemma_line_end(a);
        let e = line_end(a);
        if e >= a.len() {
            assert(a[a.len() - 1] == '\n');
            assert(false);
        }
        let cur = a.subrange(0, e);
        let rest = a.subrange(e + 1, a.len() as int);
        assert(no_newline(cur));
        assert(a =~= cur + seq!['\n'] + rest);
        assert(a + b =~= cur + seq!['\n'] + (rest + b));
        if rest.len() > 0 {
            assert(rest.last() == a.last());
        }
        lemma_lines_concat(rest, b);
        lemma_lines_newline(cur, rest);
        lemma_lines_newline(cur, rest + b);
        assert(seq![strip_cr(cur)] + (lines(rest) + lines(b)) =~= (seq![strip_cr(cur)] + lines(
            rest,
        )) + lines(b));
    }
}

proof fn lemma_line_report_shift<R: LineRule>(rules: Seq<R>, line: Seq<char>, m: int, n: int)
    ensures
        shift_reports(line_report(rules, line, m), n) == line_report(rules, line, m + n),
    decreases rules.len(),
{
    if rules.len() > 0 {
        lemma_line_report_shift(rules.drop_last(), line, m, n);
        let a = line_report(rules.drop_last(), line, m);
        let b = rules.last().spec_messages(line).map_values(|x: Seq<char>| (m, x));
        assert(shift_reports(a + b, n) =~= shift_reports(a, n) + shift_reports(b, n));
        assert(shift_reports(b, n) =~= rules.last().spec_messages(line).map_values(
            |x: Seq<char>| (m + n, x),
        ));
    }
}

/// Checking lines that follow other lines gives the reports of the later
/// lines, numbered after the earlier ones.
pub proof fn lemma_check_lines_concat<R: LineRule>(
    rules: Seq<R>,
    l1: Seq<Seq<char>>,
    l2: Seq<Seq<char>>,
)
    ensures
        check_lines(rules, l1 + l2) == check_lines(rules, l1) + shift_reports(
            check_lines(rules, l2),
            l1.len() as int,
        ),
    decreases l2.len(),
{
    if l2.len() == 0 {
        assert(l1 + l2 =~= l1);
        assert(shift_reports(check_lines(rules, l2), l1.len() as int) =~= Seq::<
            (int, Seq<char>),
        >::empty());
        assert(check_lines(rules, l1) + Seq::<(int, Seq<char>)>::empty() =~= check_lines(rules, l1));
    } else {
        let n = l1.len() as int;
        assert((l1 + l2).drop_last() =~= l1 + l2.drop_last());
        assert((l1 + l2).last() == l2.last());
        lemma_check_lines_concat(rules, l1, l2.drop_last());
        lemma_line_report_shift(rules, l2.last(), l2.len() as int, n);
        let c = check_lines(rules, l2.drop_last());
        let r = line_report(rules, l2.last(), l2.len() as int);
        assert(shift_reports(c + r, n) =~= shift_reports(c, n) + shift_reports(r, n));
        assert(check_lines(rules, l1) + shift_reports(c, n) + shift_reports(r, n) =~= check_lines(
            rules,
            l1,
        ) + (shift_reports(c, n) + shift_reports(r, n)));
    }
}

/// Checking a text cut after a line break: the reports of the first part,
/// then those of the second part with their line numbers raised by the
/// number of lines of the first part.
pub proof fn lemma_check_joined_texts<R: LineRule>(rules: Seq<R>, a: Seq<char>, b: Seq<char>)
    requires
        a.len() == 0 || a.last() == '\n',
    ensures
        check_lines(rules, lines(a + b)) == check_lines(rules, lines(a)) + shift_reports(
            check_lines(rules, lines(b)),
            lines(a).len() as int,
        ),
{
    lemma_lines_concat(a, b);
    lemma_check_lines_concat(rules, lines(a), lines(b));
}

/// A linter: rules to check lines with, fixers to rewrite texts with.
pub struct Linter<R, F> {
    rules: Vec<R>,
    fixers: Vec<F>,
}

impl<R: LineRule, F: Fixer> Linter<R, F> {
    /// The rules, in the order they were added.
    pub closed spec fn rules(&self) -> Seq<R> {
        self.rules@
    }

    /// The fixers, in the order they were added.
    pub closed spec fn fixers(&self) -> Seq<F> {
        self.fixers@
    }

    /// A linter without rules or fixers.
    pub fn new() -> (l: Self)
        ensures
            l.rules() == Seq::<R>::empty(),
            l.fixers() == Seq::<F>::empty(),
    {
        Linter { rules: Vec::new(), fixers: Vec::new() }
    }

    /// Adds a rule after the others.
    pub fn add_rule(&mut self, f: R)
        ensures
            final(self).rules() == old(self).rules().push(f),
            final(self).fixers() == old(self).fixers(),
    {
        self.rules.push(f);
    }

    /// Adds a fixer after the others.
    pub fn add_fixer(&mut self, f: F)
        ensures
            final(self).fixers() == old(self).fixers().push(f),
            final(self).rules() == old(self).rules(),
    {
        self.fixers.push(f);
    }

    /// Runs every rule on every line of `content`.
    ///
    /// The reports come line by line, and on a line rule by rule; each
    /// carries the number of its line, from 1.
    pub fn check(&self, content: &str) -> (r: Vec<Violation>)
        ensures
            violations_view(r@) == check_lines(self.rules(), lines(content@)),
    {
        let ls = split_lines(content);
        let ghost lv = ls@.map_values(|l: Vec<char>| l@);
        let mut all: Vec<Violation> = Vec::new();
        let mut n: usize = 0;
        assert(lv.take(0) =~= seq![]);
        while n < ls.len()
            invariant
                lv == ls@.map_values(|l: Vec<char>| l@),
                lv == lines(content@),
                n <= ls@.len(),
                violations_view(all@) == check_lines(self.rules@, lv.take(n as int)),
            decreases ls.len() - n,
        {
            let line = string_of(&ls[n]);
            let ghost base = violations_view(all@);
            let mut j: usize = 0;
            assert(self.rules@.take(0) =~= seq![]);
            assert(base + line_report(self.rules@.take(0), line@, n + 1) =~= base);
            while j < self.rules.len()
                invariant
                    n < ls.len(),
                    lv.len() == ls@.len(),
                    line@ == lv[n as int],
                    j <= self.rules@.len(),
                    violations_view(all@) == base + line_report(
                        self.rules@.take(j as int),
                        line@,
                        n + 1,
                    ),
                decreases self.rules.len() - j,
            {
                let vs = self.rules[j].check_line(line.as_str());
                let ghost msgs = self.rules@[j as int].spec_messages(line@);
                let ghost mid = violations_view(all@);
                let mut k: usize = 0;
                assert(mid + msgs.take(0).map_values(|m: Seq<char>| (n + 1, m)) =~= mid);
                while k < vs.len()
                    invariant
                        n < ls.len(),
                        messages_of(vs@) == msgs,
                        k <= vs@.len(),
                        violations_view(all@) == mid + msgs.take(k as int).map_values(
                            |m: Seq<char>| (n + 1, m),
                        ),
                    decreases vs.len() - k,
                {
                    let v = Violation { line: n + 1, message: vs[k].message.clone() };
                    let ghost before = all@;
                    all.push(v);
                    proof {
                        assert(msgs[k as int] == vs@[k as int].message@);
                        assert(violations_view(all@) =~= violations_view(before).push(
                            (n + 1, msgs[k as int]),
                        ));
                        assert(msgs.take(k + 1).map_values(|m: Seq<char>| (n + 1, m))
                            =~= msgs.take(k as int).map_values(|m: Seq<char>| (n + 1, m)).push(
                            (n + 1, msgs[k as int]),
                        ));
                    }
                    k += 1;
                }
                proof {
                    assert(msgs.take(k as int) =~= msgs);
                    assert(self.rules@.take(j + 1).drop_last() =~= self.rules@.take(j as int));
                }
                j += 1;
            }
            proof {
                assert(self.rules@.take(j as int) =~= self.rules@);
                assert(lv.take(n + 1).drop_last() =~= lv.take(n as int));
            }
            n += 1;
        }
        assert(lv.take(n as int) =~= lv);
        all
    }

    /// Runs every fixer on `content`, in the order they were added; returns
    /// how many of them changed it.
    pub fn fix(&self, content: &mut String) -> (count: usize)
        ensures
            (final(content)@, count as nat) == fix_all(self.fixers(), old(content)@),
            count <= self.fixers().len(),
    {
        let mut count: usize = 0;
        let mut i: usize = 0;
        assert(self.fixers@.take(0) =~= seq![]);
        while i < self.fixers.len()
            invariant
                i <= self.fixers@.len(),
                count <= i,
                (content@, count as nat) == fix_all(self.fixers@.take(i as int), old(content)@),
            decreases self.fixers.len() - i,
        {
            if self.fixers[i].apply(content) {
                count += 1;
            }
            assert(self.fixers@.take(i + 1).drop_last() =~= self.fixers@.take(i as int));
            i += 1;
        }
        assert(self.fixers@.take(i as int) =~= self.fixers@);
        count
    }
}

} // verus!
