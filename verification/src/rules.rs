//! The rules and the fixer that the linter program runs.
use vstd::prelude::*;
use vstd::utf8::encode_utf8;
use vstd::string::StringExecFns;
use crate::text::{
    chars_of, push_char, decimal, decimal_string, numeral_value, all_digits, lemma_decimal_names_value,
};
use crate::linter::{
    Violation, LineRule, Fixer, lines, split_lines, messages_of, no_newline, strip_cr, lemma_lines_newline,
    lemma_lines_last, lemma_line_end, line_end, check_lines, line_report, fix_all,
};

verus! {

/// The longest line, in bytes, that `LineTooLong` accepts.
pub const MAX_LINE_BYTES: usize = 80;

/// Unicode's White_Space property (what `char::is_whitespace` tests).
pub open spec fn is_white_space(c: char) -> bool {
    let u = c as u32;
    ||| 0x09 <= u <= 0x0d
    ||| u == 0x20
    ||| u == 0x85
    ||| u == 0xa0
    ||| u == 0x1680
    ||| 0x2000 <= u <= 0x200a
    ||| u == 0x2028
    ||| u == 0x2029
    ||| u == 0x202f
    ||| u == 0x205f
    ||| u == 0x3000
}

/// Whether `c` is white space in Unicode's sense.
pub fn white_space(c: char) -> (r: bool)
    ensures
        r == is_white_space(c),
{
    let u = c as u32;
    (0x09 <= u && u <= 0x0d) || u == 0x20 || u == 0x85 || u == 0xa0 || u == 0x1680 || (0x2000 <= u
        && u <= 0x200a) || u == 0x2028 || u == 0x2029 || u == 0x202f || u == 0x205f || u == 0x3000
}

/// `l` without its trailing white space (what `str::trim_end` leaves).
pub open spec fn trim_end(l: Seq<char>) -> Seq<char>
    decreases l.len(),
{
    if l.len() > 0 && is_white_space(l.last()) {
        trim_end(l.drop_last())
    } else {
        l
    }
}

/// `pat` occurs in `s`.
pub open spec fn contains_seq(s: Seq<char>, pat: Seq<char>) -> bool {
    exists|i: int| 0 <= i && i + pat.len() <= s.len() && #[trigger] s.subrange(i, i + pat.len()) == pat
}

/// The lines `ls` joined by `\n`.
pub open spec fn join_lines(ls: Seq<Seq<char>>) -> Seq<char>
    decreases ls.len(),
{
    if ls.len() == 0 {
        seq![]
    } else if ls.len() == 1 {
        ls[0]
    } else {
        join_lines(ls.drop_last()) + seq!['\n'] + ls.last()
    }
}

/// `s` ends with `\n`.
pub open spec fn ends_with_newline(s: Seq<char>) -> bool {
    s.len() > 0 && s.last() == '\n'
}

/// The lines of `s`, each without its trailing white space.
pub open spec fn trimmed_lines(s: Seq<char>) -> Seq<Seq<char>> {
    lines(s).map_values(|l: Seq<char>| trim_end(l))
}

/// The text after removing the trailing white space of every line: the
/// trimmed lines joined by `\n`, with a final `\n` when `s` had one.
pub open spec fn trimmed_text(s: Seq<char>) -> Seq<char> {
    let body = join_lines(trimmed_lines(s));
    if ends_with_newline(s) {
        body.push('\n')
    } else {
        body
    }
}

/// The line checks of the linter program.
#[derive(Debug, Clone, Copy, PartialEq, Eq)]
pub enum LintRule {
    /// A line ends with white space.
    TrailingWhitespace,
    /// A line has more than `MAX_LINE_BYTES` bytes.
    LineTooLong,
    /// A line holds a tab.
    HardTab,
    /// A line holds `TODO` or `FIXME`.
    TodoMarker,
}

/// The message of `LineTooLong` for a line of `n` bytes.
pub open spec fn too_long_message(n: nat) -> Seq<char> {
    "Line too long ("@ + decimal(n) + " characters)"@
}

impl LineRule for LintRule {
    open spec fn spec_messages(&self, line: Seq<char>) -> Seq<Seq<char>> {
        match self {
            LintRule::TrailingWhitespace => if trim_end(line) != line {
                seq!["Trailing whitespace"@]
            } else {
                seq![]
            },
            LintRule::LineTooLong => if encode_utf8(line).len() > MAX_LINE_BYTES {
                seq![too_long_message(encode_utf8(line).len())]
            } else {
                seq![]
            },
            LintRule::HardTab => if line.contains('\t') {
                seq!["Hard tab detected, use spaces"@]
            } else {
                seq![]
            },
            LintRule::TodoMarker => if contains_seq(line, "TODO"@) || contains_seq(line, "FIXME"@) {
                seq!["Contains TODO or FIXME marker"@]
            } else {
                seq![]
            },
        }
    }

    fn check_line(&self, line: &str) -> (r: Vec<Violation>) {
        let mut r: Vec<Violation> = Vec::new();
        let found = match self {
            LintRule::TrailingWhitespace => {
                let cs = chars_of(line);
                let k = trimmed_len(&cs);
                assert(k < cs.len() <==> trim_end(line@) != line@) by {
                    if k == cs.len() {
                        assert(cs@.take(k as int) =~= cs@);
                    }
                }
                if k < cs.len() {
                    Some("Trailing whitespace".to_owned())
                } else {
                    None
                }
            },
            LintRule::LineTooLong => {
                let n = line.as_bytes().len();
                if n > MAX_LINE_BYTES {
                    let mut m = "Line too long (".to_owned();
                    let d = decimal_string(n);
                    m.append(d.as_str());
                    m.append(" characters)");
                    Some(m)
                } else {
                    None
                }
            },
            LintRule::HardTab => {
                let cs = chars_of(line);
                if has_char(&cs, '\t') {
                    Some("Hard tab detected, use spaces".to_owned())
                } else {
                    None
                }
            },
            LintRule::TodoMarker => {
                let cs = chars_of(line);
                let todo = chars_of("TODO");
                let fixme = chars_of("FIXME");
                if has_sub(&cs, &todo) || has_sub(&cs, &fixme) {
                    Some("Contains TODO or FIXME marker".to_owned())
                } else {
                    None
                }
            },
        };
        assert(match found {
            Some(m) => self.spec_messages(line@) == seq![m@],
            None => self.spec_messages(line@) == Seq::<Seq<char>>::empty(),
        });
        match found {
            Some(m) => {
                r.push(Violation { line: 0, message: m });
            },
            None => {},
        }
        proof {
            assert(messages_of(r@) =~= self.spec_messages(line@));
        }
        r
    }
}

/// How many characters of `v` remain once its trailing white space is cut.
fn trimmed_len(v: &Vec<char>) -> (k: usize)
    ensures
        k <= v@.len(),
        v@.take(k as int) == trim_end(v@),
{
    let mut k = v.len();
    assert(v@.take(k as int) =~= v@);
    while k > 0 && white_space(v[k - 1])
        invariant
            k <= v@.len(),
            trim_end(v@.take(k as int)) == trim_end(v@),
        decreases k,
    {
        assert(v@.take(k as int).drop_last() =~= v@.take(k - 1));
        k -= 1;
    }
    k
}

/// Whether `v` holds `c`.
fn has_char(v: &Vec<char>, c: char) -> (r: bool)
    ensures
        r == v@.contains(c),
{
    let mut i: usize = 0;
    while i < v.len()
        invariant
            i <= v@.len(),
            forall|j: int| 0 <= j < i ==> v@[j] != c,
        decreases v.len() - i,
    {
        if v[i] == c {
            return true;
        }
        i += 1;
    }
    false
}

/// Whether `pat` occurs in `v`.
fn has_sub(v: &Vec<char>, pat: &Vec<char>) -> (r: bool)
    ensures
        r == contains_seq(v@, pat@),
{
    if pat.len() > v.len() {
        return false;
    }
    let mut i: usize = 0;
    while i <= v.len() - pat.len()
        invariant
            pat@.len() <= v@.len(),
            i <= v@.len() - pat@.len() + 1,
            forall|j: int| 0 <= j < i ==> #[trigger] v@.subrange(j, j + pat@.len()) != pat@,
        decreases v.len() - pat.len() + 1 - i,
    {
        let mut k: usize = 0;
        let mut same = true;
        while k < pat.len()
            invariant
                i + pat@.len() <= v@.len(),
                i + pat.len() <= v.len(),
                k <= pat@.len(),
                same == (forall|m: int| 0 <= m < k ==> v@[i + m] == pat@[m]),
            decreases pat.len() - k,
        {
            if v[i + k] != pat[k] {
                same = false;
            }
            k += 1;
        }
        if same {
            assert(v@.subrange(i as int, i + pat@.len()) =~= pat@);
            return true;
        }
        assert(v@.subrange(i as int, i + pat@.len()) != pat@) by {
            let m = choose|m: int| 0 <= m < pat@.len() && v@[i + m] != pat@[m];
            assert(v@.subrange(i as int, i + pat@.len())[m] != pat@[m]);
        }
        i += 1;
    }
    false
}

/// The fixers of the linter program.
#[derive(Debug, Clone, Copy, PartialEq, Eq)]
pub enum LintFixer {
    /// Removes the trailing white space of every line.
    TrimTrailingWhitespace,
}

impl Fixer for LintFixer {
    open spec fn spec_apply(&self, content: Seq<char>) -> (Seq<char>, bool) {
        match self {
            LintFixer::TrimTrailingWhitespace => (
                trimmed_text(content),
                trimmed_text(content) != content,
            ),
        }
    }

    fn apply(&self, content: &mut String) -> (changed: bool) {
        match self {
            LintFixer::TrimTrailingWhitespace => {
                let fixed = trim_lines(content.as_str());
                let changed = !(fixed == *content);
                *content = fixed;
                changed
            },
        }
    }
}

/// `s` with the trailing white space of every line removed.
pub fn trim_lines(s: &str) -> (r: String)
    ensures
        r@ == trimmed_text(s@),
{
    let ls = split_lines(s);
    let ghost lv = ls@.map_values(|l: Vec<char>| l@);
    let ghost tv = lv.map_values(|l: Seq<char>| trim_end(l));
    let mut out = String::new();
    let mut i: usize = 0;
    assert(tv.take(0) =~= seq![]);
    while i < ls.len()
        invariant
            lv == ls@.map_values(|l: Vec<char>| l@),
            lv == lines(s@),
            tv == lv.map_values(|l: Seq<char>| trim_end(l)),
            i <= ls@.len(),
            out@ == join_lines(tv.take(i as int)),
        decreases ls.len() - i,
    {
        let ghost before = out@;
        if i > 0 {
            push_char(&mut out, '\n');
        }
        let line = &ls[i];
        let k = trimmed_len(line);
        let mut j: usize = 0;
        let ghost mid = out@;
        while j < k
            invariant
                k <= line@.len(),
                j <= k,
                out@ == mid + line@.take(j as int),
            decreases k - j,
        {
            push_char(&mut out, line[j]);
            j += 1;
            assert(out@ =~= mid + line@.take(j as int));
        }
        proof {
            assert(tv[i as int] == line@.take(k as int));
            assert(tv.take(i + 1).drop_last() =~= tv.take(i as int));
            if i == 0 {
                assert(out@ =~= tv.take(1)[0]);
            } else {
                assert(out@ =~= before + seq!['\n'] + tv.take(i + 1).last());
            }
        }
        i += 1;
    }
    assert(tv.take(i as int) =~= tv);
    let cs = chars_of(s);
    if cs.len() > 0 && cs[cs.len() - 1] == '\n' {
        push_char(&mut out, '\n');
    }
    out
}

/// A line that trimming leaves as it is: no `\n` in it, and no white
/// space at its end.
pub open spec fn clean_line(l: Seq<char>) -> bool {
    no_newline(l) && trim_end(l) == l
}

proof fn lemma_trim_end_clean(l: Seq<char>)
    requires
        no_newline(l),
    ensures
        clean_line(trim_end(l)),
        trim_end(l).len() > 0 ==> !is_white_space(trim_end(l).last()),
    decreases l.len(),
{
    if l.len() > 0 && is_white_space(l.last()) {
        lemma_trim_end_clean(l.drop_last());
    }
}

proof fn lemma_trim_end_len(l: Seq<char>)
    ensures
        trim_end(l).len() <= l.len(),
    decreases l.len(),
{
    if l.len() > 0 && is_white_space(l.last()) {
        lemma_trim_end_len(l.drop_last());
    }
}

proof fn lemma_clean_no_cr(l: Seq<char>)
    requires
        clean_line(l),
    ensures
        strip_cr(l) == l,
        l.len() > 0 ==> !is_white_space(l.last()),
        l.len() > 0 ==> l.last() != '\n',
{
    if l.len() > 0 && is_white_space(l.last()) {
        lemma_trim_end_len(l.drop_last());
    }
}

proof fn lemma_lines_no_newline(s: Seq<char>)
    ensures
        forall|i: int| 0 <= i < lines(s).len() ==> no_newline(#[trigger] lines(s)[i]),
    decreases s.len(),
{
    if s.len() > 0 {
        lemma_line_end(s);
        let e = line_end(s);
        if e < s.len() {
            let rest = s.subrange(e + 1, s.len() as int);
            lemma_lines_no_newline(rest);
            assert forall|i: int| 0 <= i < lines(s).len() implies no_newline(#[trigger] lines(s)[i]) by {
                if i > 0 {
                    assert(lines(s)[i] == lines(rest)[i - 1]);
                }
            }
        }
    }
}

proof fn lemma_join_front(t: Seq<char>, ts: Seq<Seq<char>>)
    requires
        ts.len() > 0,
    ensures
        join_lines(seq![t] + ts) == t + seq!['\n'] + join_lines(ts),
    decreases ts.len(),
{
    let all = seq![t] + ts;
    assert(all.last() == ts.last());
    if ts.len() == 1 {
        assert(all.drop_last() =~= seq![t]);
        assert(join_lines(seq![t]) == t);
        assert(join_lines(ts) == ts[0]);
        assert(join_lines(all) == join_lines(all.drop_last()) + seq!['\n'] + all.last());
    } else {
        assert(all.drop_last() =~= seq![t] + ts.drop_last());
        lemma_join_front(t, ts.drop_last());
        assert(join_lines(all) == join_lines(all.drop_last()) + seq!['\n'] + all.last());
        assert(join_lines(ts) == join_lines(ts.drop_last()) + seq!['\n'] + ts.last());
        assert(t + seq!['\n'] + join_lines(ts.drop_last()) + seq!['\n'] + ts.last() =~= t
            + seq!['\n'] + (join_lines(ts.drop_last()) + seq!['\n'] + ts.last()));
    }
}

/// Clean lines joined and ended by `\n` read back as the same lines.
proof fn lemma_lines_of_join_newline(ts: Seq<Seq<char>>)
    requires
        ts.len() > 0,
        forall|i: int| 0 <= i < ts.len() ==> clean_line(#[trigger] ts[i]),
    ensures
        lines(join_lines(ts) + seq!['\n']) == ts,
    decreases ts.len(),
{
    let t = ts[0];
    let rest = ts.drop_first();
    assert(clean_line(t));
    lemma_clean_no_cr(t);
    if ts.len() == 1 {
        lemma_lines_newline(t, seq![]);
        assert(join_lines(ts) + seq!['\n'] =~= t + seq!['\n'] + seq![]);
        assert(lines(Seq::<char>::empty()) =~= Seq::<Seq<char>>::empty());
        assert(seq![t] + Seq::<Seq<char>>::empty() =~= ts);
    } else {
        assert(ts =~= seq![t] + rest);
        lemma_join_front(t, rest);
        assert forall|i: int| 0 <= i < rest.len() implies clean_line(#[trigger] rest[i]) by {
            assert(rest[i] == ts[i + 1]);
        }
        lemma_lines_of_join_newline(rest);
        lemma_lines_newline(t, join_lines(rest) + seq!['\n']);
        assert(join_lines(ts) + seq!['\n'] =~= t + seq!['\n'] + (join_lines(rest) + seq!['\n']));
    }
}

/// Clean lines joined by `\n`, the last one not empty, read back as the
/// same lines.
proof fn lemma_lines_of_join(ts: Seq<Seq<char>>)
    requires
        ts.len() > 0,
        ts.last().len() > 0,
        forall|i: int| 0 <= i < ts.len() ==> clean_line(#[trigger] ts[i]),
    ensures
        lines(join_lines(ts)) == ts,
    decreases ts.len(),
{
    let t = ts[0];
    let rest = ts.drop_first();
    assert(clean_line(t));
    lemma_clean_no_cr(t);
    if ts.len() == 1 {
        lemma_lines_last(t);
    } else {
        assert(ts =~= seq![t] + rest);
        lemma_join_front(t, rest);
        assert forall|i: int| 0 <= i < rest.len() implies clean_line(#[trigger] rest[i]) by {
            assert(rest[i] == ts[i + 1]);
        }
        lemma_lines_of_join(rest);
        lemma_lines_newline(t, join_lines(rest));
    }
}

proof fn lemma_join_last(ts: Seq<Seq<char>>)
    requires
        ts.len() > 0,
        ts.last().len() > 0,
    ensures
        join_lines(ts).len() > 0,
        join_lines(ts).last() == ts.last().last(),
{
}

/// The trimmed lines of `s`, and what trimming them again gives.
proof fn lemma_trimmed_lines(s: Seq<char>)
    ensures
        forall|i: int| 0 <= i < trimmed_lines(s).len() ==> clean_line(#[trigger] trimmed_lines(s)[i]),
{
    lemma_lines_no_newline(s);
    let tv = trimmed_lines(s);
    assert forall|i: int| 0 <= i < tv.len() implies clean_line(#[trigger] tv[i]) by {
        assert(no_newline(lines(s)[i]));
        lemma_trim_end_clean(lines(s)[i]);
    }
}

/// The lines of a trimmed text: the trimmed lines, less a last empty one
/// when the text had no final `\n`.
proof fn lemma_lines_of_trimmed(s: Seq<char>)
    ensures
        ({
            let tv = trimmed_lines(s);
            let out = trimmed_text(s);
            &&& forall|i: int| 0 <= i < lines(out).len() ==> clean_line(#[trigger] lines(out)[i])
            &&& trimmed_lines(out) == lines(out)
            &&& (ends_with_newline(out) ==> out == join_lines(lines(out)) + seq!['\n'])
            &&& (!ends_with_newline(out) ==> out == join_lines(lines(out)))
        }),
{
    let tv = trimmed_lines(s);
    let out = trimmed_text(s);
    lemma_trimmed_lines(s);
    if ends_with_newline(s) {
        assert(lines(s).len() > 0);
        lemma_lines_of_join_newline(tv);
        assert(out == join_lines(tv) + seq!['\n']);
        assert(lines(out) == tv);
    } else if tv.len() == 0 {
        assert(out == Seq::<char>::empty());
        assert(lines(out) =~= Seq::<Seq<char>>::empty());
        assert(join_lines(lines(out)) =~= out);
    } else if tv.last().len() > 0 {
        lemma_lines_of_join(tv);
        lemma_join_last(tv);
        assert(clean_line(tv.last()));
        lemma_trim_end_clean(tv.last());
        assert(lines(out) == tv);
        assert(!ends_with_newline(out));
    } else {
        let t0 = tv.drop_last();
        if t0.len() == 0 {
            assert(tv.len() == 1);
            assert(out == tv[0]);
            assert(out =~= Seq::<char>::empty());
            assert(lines(out) =~= Seq::<Seq<char>>::empty());
            assert(join_lines(lines(out)) =~= out);
        } else {
            assert(out == join_lines(t0) + seq!['\n'] + tv.last());
            assert(out =~= join_lines(t0) + seq!['\n']);
            assert forall|i: int| 0 <= i < t0.len() implies clean_line(#[trigger] t0[i]) by {
                assert(t0[i] == tv[i]);
            }
            lemma_lines_of_join_newline(t0);
            assert(lines(out) == t0);
        }
    }
    let lo = lines(out);
    assert(trimmed_lines(out) =~= lo);
}

/// Removing trailing white space twice gives what removing it once gives:
/// a second run of the fixer changes nothing.
pub proof fn lemma_trim_fixer_idempotent(s: Seq<char>)
    ensures
        trimmed_text(trimmed_text(s)) == trimmed_text(s),
        fix_all(seq![LintFixer::TrimTrailingWhitespace], trimmed_text(s)) == (trimmed_text(s), 0nat),
{
    lemma_lines_of_trimmed(s);
    let out = trimmed_text(s);
    let ts = seq![LintFixer::TrimTrailingWhitespace];
    assert(trimmed_text(out) == out);
    assert(ts.drop_last() =~= Seq::<LintFixer>::empty());
    assert(fix_all(ts.drop_last(), out) == (out, 0nat));
    assert(ts.last().spec_apply(out) == (out, false));
}

/// After the fixer has run, the trailing white space rule finds nothing:
/// checking the fixed text with that rule reports no violation.
pub proof fn lemma_trimmed_text_passes_rule(s: Seq<char>)
    ensures
        check_lines(seq![LintRule::TrailingWhitespace], lines(trimmed_text(s))) == Seq::<
            (int, Seq<char>),
        >::empty(),
{
    lemma_lines_of_trimmed(s);
    lemma_no_reports(lines(trimmed_text(s)));
}

proof fn lemma_no_reports(ls: Seq<Seq<char>>)
    requires
        forall|i: int| 0 <= i < ls.len() ==> clean_line(#[trigger] ls[i]),
    ensures
        check_lines(seq![LintRule::TrailingWhitespace], ls) == Seq::<(int, Seq<char>)>::empty(),
    decreases ls.len(),
{
    if ls.len() > 0 {
        let rules = seq![LintRule::TrailingWhitespace];
        assert forall|i: int| 0 <= i < ls.drop_last().len() implies clean_line(
            #[trigger] ls.drop_last()[i],
        ) by {
            assert(ls.drop_last()[i] == ls[i]);
        }
        lemma_no_reports(ls.drop_last());
        assert(clean_line(ls.last()));
        assert(rules.drop_last() =~= Seq::<LintRule>::empty());
        assert(line_report(rules.drop_last(), ls.last(), ls.len() as int) == Seq::<(int, Seq<char>)>::empty());
        assert(rules.last().spec_messages(ls.last()) =~= Seq::<Seq<char>>::empty());
        assert(line_report(rules, ls.last(), ls.len() as int) =~= Seq::<(int, Seq<char>)>::empty());
    }
}

/// `p` occurs in any text that holds it between two others.
proof fn lemma_contains_between(a: Seq<char>, p: Seq<char>, b: Seq<char>)
    ensures
        contains_seq(a + p + b, p),
{
    let s = a + p + b;
    assert(s.subrange(a.len() as int, (a.len() + p.len()) as int) =~= p);
}

/// The trailing white space rule reports a line exactly when its last
/// character is white space, whatever stands before it, and then reports
/// one message.
pub proof fn lemma_trailing_whitespace_rule(l: Seq<char>)
    ensures
        LintRule::TrailingWhitespace.spec_messages(l) == (if l.len() > 0 && is_white_space(l.last()) {
            seq!["Trailing whitespace"@]
        } else {
            Seq::<Seq<char>>::empty()
        }),
{
    if l.len() > 0 && is_white_space(l.last()) {
        lemma_trim_end_len(l.drop_last());
        assert(trim_end(l).len() < l.len());
    }
}

/// The hard tab rule reports a line exactly when a tab stands anywhere in
/// it, and then reports one message.
pub proof fn lemma_hard_tab_rule(l: Seq<char>)
    ensures
        LintRule::HardTab.spec_messages(l) == (if exists|j: int| 0 <= j < l.len() && #[trigger] l[j] == '\t' {
            seq!["Hard tab detected, use spaces"@]
        } else {
            Seq::<Seq<char>>::empty()
        }),
{
}

/// A tab between any two pieces of text is reported.
pub proof fn lemma_hard_tab_anywhere(a: Seq<char>, b: Seq<char>)
    ensures
        LintRule::HardTab.spec_messages(a + seq!['\t'] + b) == seq!["Hard tab detected, use spaces"@],
{
    let l = a + seq!['\t'] + b;
    assert(l[a.len() as int] == '\t');
    lemma_hard_tab_rule(l);
}

/// `TODO` or `FIXME` anywhere in a line is reported, at its start, in its
/// middle or at its very end.
pub proof fn lemma_todo_marker_anywhere(a: Seq<char>, b: Seq<char>)
    ensures
        LintRule::TodoMarker.spec_messages(a + "TODO"@ + b) == seq!["Contains TODO or FIXME marker"@],
        LintRule::TodoMarker.spec_messages(a + "FIXME"@ + b) == seq!["Contains TODO or FIXME marker"@],
{
    lemma_contains_between(a, "TODO"@, b);
    lemma_contains_between(a, "FIXME"@, b);
}

/// The TODO rule reports nothing on a line that holds neither `TODO` nor
/// `FIXME`, and at most one message on any line.
pub proof fn lemma_todo_marker_only_when_marked(l: Seq<char>)
    ensures
        LintRule::TodoMarker.spec_messages(l).len() <= 1,
        LintRule::TodoMarker.spec_messages(l).len() > 0 ==> exists|a: Seq<char>, b: Seq<char>|
            l == a + "TODO"@ + b || l == a + "FIXME"@ + b,
{
    if contains_seq(l, "TODO"@) {
        let i = choose|i: int| 0 <= i && i + "TODO"@.len() <= l.len() && #[trigger] l.subrange(i, i + "TODO"@.len()) == "TODO"@;
        let a = l.subrange(0, i);
        let b = l.subrange(i + "TODO"@.len(), l.len() as int);
        assert(l =~= a + "TODO"@ + b);
    } else if contains_seq(l, "FIXME"@) {
        let i = choose|i: int| 0 <= i && i + "FIXME"@.len() <= l.len() && #[trigger] l.subrange(i, i + "FIXME"@.len()) == "FIXME"@;
        let a = l.subrange(0, i);
        let b = l.subrange(i + "FIXME"@.len(), l.len() as int);
        assert(l =~= a + "FIXME"@ + b);
    }
}

/// The line length rule reports a line exactly when it has more than
/// `MAX_LINE_BYTES` bytes in UTF-8, and its one message names that byte
/// count as a decimal numeral: only digits, no leading zero, and reading the
/// digits back gives the line's length.
pub proof fn lemma_line_too_long_rule(l: Seq<char>)
    ensures
        LintRule::LineTooLong.spec_messages(l).len() > 0 <==> encode_utf8(l).len() > MAX_LINE_BYTES,
        encode_utf8(l).len() > MAX_LINE_BYTES ==> exists|d: Seq<char>|
            LintRule::LineTooLong.spec_messages(l) == seq!["Line too long ("@ + d + " characters)"@]
                && all_digits(d) && #[trigger] numeral_value(d) == encode_utf8(l).len() && d.len() > 0
                && (d.len() == 1 || d[0] != '0'),
{
    lemma_decimal_names_value(encode_utf8(l).len());
}

} // verus!
