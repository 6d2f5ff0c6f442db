use vstd::prelude::*;

use crate::fence::{fence_stripped, strip_fence_chars};
use crate::text::{
    chars_of, copy_range, find_newline, first_line_len, is_ws, lemma_trim_end_shape, string_of,
    trim_end, trim_end_chars,
};
use crate::text::{lemma_lf_only_chars, lf_only, lf_only_chars, lemma_lines_append, lemma_lines_concat, lemma_lines_nonempty, lines_of};
use crate::wrap::{
    append_chars, fits_width, lemma_wrapped_line_widths, wrap_chars, words, wrapped,
};

verus! {

/// Most characters a subject line keeps.
pub const SUBJECT_MAX: usize = 50;

/// Width at which the body is re-flowed.
pub const BODY_WIDTH: usize = 72;

/// The subject: the first line of `m`, cut to its first `SUBJECT_MAX` characters, without
/// trailing whitespace.
pub open spec fn subject_of(m: Seq<char>) -> Seq<char> {
    let n = first_line_len(m);
    trim_end(m.take(if n < SUBJECT_MAX { n as int } else { SUBJECT_MAX as int }))
}

/// What follows the first line of `m` (nothing where `m` has a single line).
pub open spec fn after_first_line(m: Seq<char>) -> Seq<char> {
    let n = first_line_len(m);
    if n < m.len() {
        m.subrange(n as int + 1, m.len() as int)
    } else {
        seq![]
    }
}

/// The lines after the first, as the body is made of them: each CRLF line end made a newline.
pub open spec fn body_source(m: Seq<char>) -> Seq<char> {
    lf_only(after_first_line(m))
}

/// The message in commit layout: the subject; then, where any word follows the first line,
/// a blank line and those lines re-flowed at `BODY_WIDTH` (blank lines right after the
/// subject produce nothing).
pub open spec fn formatted(m: Seq<char>) -> Seq<char> {
    let body = wrapped(body_source(m), BODY_WIDTH as nat);
    if body.len() == 0 {
        subject_of(m)
    } else {
        subject_of(m) + seq!['\n', '\n'] + body
    }
}

proof fn lemma_first_line(s: Seq<char>)
    ensures
        first_line_len(s) <= s.len(),
        forall|j: int| 0 <= j < first_line_len(s) ==> s[j] != '\n',
        first_line_len(s) < s.len() ==> s[first_line_len(s) as int] == '\n',
    decreases s.len(),
{
    if s.len() > 0 && s[0] != '\n' {
        lemma_first_line(s.drop_first());
        assert forall|j: int| 0 <= j < first_line_len(s) implies s[j] != '\n' by {
            if j > 0 {
                assert(s[j] == s.drop_first()[j - 1]);
            }
        }
    }
}

proof fn lemma_first_line_concat(a: Seq<char>, b: Seq<char>)
    requires
        forall|j: int| 0 <= j < a.len() ==> a[j] != '\n',
    ensures
        first_line_len(a + b) == a.len() + first_line_len(b),
    decreases a.len(),
{
    if a.len() > 0 {
        assert((a + b)[0] == a[0]);
        assert((a + b).drop_first() =~= a.drop_first() + b);
        lemma_first_line_concat(a.drop_first(), b);
    } else {
        assert(a + b =~= b);
    }
}

proof fn lemma_subject_one_line(m: Seq<char>)
    ensures
        subject_of(m).len() <= SUBJECT_MAX,
        forall|j: int| 0 <= j < subject_of(m).len() ==> subject_of(m)[j] != '\n',
{
    let n = first_line_len(m);
    let k = if n < SUBJECT_MAX { n as int } else { SUBJECT_MAX as int };
    lemma_first_line(m);
    lemma_trim_end_shape(m.take(k));
    let t = subject_of(m);
    assert forall|j: int| 0 <= j < t.len() implies t[j] != '\n' by {
        assert(t[j] == m.take(k)[j]);
    }
}

proof fn lemma_no_words(s: Seq<char>)
    requires
        forall|j: int| 0 <= j < s.len() ==> is_ws(#[trigger] s[j]),
    ensures
        words(s).len() == 0,
    decreases s.len(),
{
    if s.len() > 0 {
        lemma_no_words(s.drop_last());
        assert(is_ws(s[s.len() - 1]));
    }
}

/// The subject line of a formatted message holds at most `SUBJECT_MAX` characters.
pub proof fn lemma_subject_fits(m: Seq<char>)
    ensures
        first_line_len(formatted(m)) <= SUBJECT_MAX,
{
    let t = subject_of(m);
    let body = wrapped(body_source(m), BODY_WIDTH as nat);
    lemma_subject_one_line(m);
    if body.len() == 0 {
        lemma_first_line_concat(t, seq![]);
        assert(t + Seq::<char>::empty() =~= t);
    } else {
        assert(t + seq!['\n', '\n'] + body =~= t + (seq!['\n', '\n'] + body));
        lemma_first_line_concat(t, seq!['\n', '\n'] + body);
    }
}

/// Where nothing but whitespace follows the first line, the message is its subject alone,
/// with no body.
pub proof fn lemma_single_line_has_no_body(m: Seq<char>)
    requires
        forall|j: int|
            0 <= j < after_first_line(m).len() ==> is_ws(#[trigger] after_first_line(m)[j]),
    ensures
        formatted(m) == subject_of(m),
{
    lemma_lf_only_chars(after_first_line(m));
    lemma_no_words(body_source(m));
}

/// A formatted message keeps the commit layout: where it has more than one line, the second
/// is blank, and each line after it holds at most `BODY_WIDTH` characters unless it is a
/// single word longer than that.
pub proof fn lemma_body_layout(m: Seq<char>)
    ensures
        lines_of(formatted(m)).len() > 1 ==> lines_of(formatted(m))[1].len() == 0,
        forall|j: int|
            2 <= j < lines_of(formatted(m)).len() ==> fits_width(
                #[trigger] lines_of(formatted(m))[j],
                BODY_WIDTH as nat,
            ),
{
    let t = subject_of(m);
    let body = wrapped(body_source(m), BODY_WIDTH as nat);
    lemma_subject_one_line(m);
    lemma_lines_append(seq![], t);
    assert(Seq::<char>::empty() + t =~= t);
    assert(lines_of(Seq::<char>::empty()) =~= seq![Seq::<char>::empty()]);
    assert(lines_of(t) =~= seq![t]);
    if body.len() > 0 {
        let a = t + seq!['\n', '\n'];
        let t1 = t.push('\n');
        assert(a.drop_last() =~= t1);
        assert(t1.drop_last() =~= t);
        assert(lines_of(t1) =~= seq![t, seq![]]);
        assert(lines_of(a) =~= seq![t, seq![], seq![]]);
        lemma_lines_concat(a, body);
        lemma_lines_nonempty(body);
        lemma_wrapped_line_widths(body_source(m), BODY_WIDTH as nat);
        let lb = lines_of(body);
        let l = lines_of(formatted(m));
        assert(formatted(m) == a + body);
        assert(l == seq![t, seq![]] + seq![Seq::<char>::empty() + lb[0]] + lb.skip(1));
        assert(Seq::<char>::empty() + lb[0] =~= lb[0]);
        assert forall|j: int| 2 <= j < l.len() implies fits_width(#[trigger] l[j], BODY_WIDTH as nat) by {
            assert(l[j] == lb[j - 2]);
        }
    }
}

/// `m` in commit layout, as characters.
pub fn format_chars(m: &Vec<char>) -> (r: Vec<char>)
    ensures
        r@ == formatted(m@),
{
    let n = find_newline(m, 0);
    assert(m@.subrange(0, m@.len() as int) =~= m@);
    let k = if n < SUBJECT_MAX {
        n
    } else {
        SUBJECT_MAX
    };
    let first = copy_range(m, 0, k);
    assert(first@ =~= m@.take(k as int));
    let mut out = trim_end_chars(&first);
    let rest = if n < m.len() {
        copy_range(m, n + 1, m.len())
    } else {
        Vec::new()
    };
    assert(rest@ =~= after_first_line(m@));
    let source = lf_only_chars(&rest);
    let body = wrap_chars(&source, BODY_WIDTH);
    if body.len() > 0 {
        out.push('\n');
        out.push('\n');
        append_chars(&mut out, &body);
        assert(out@ =~= subject_of(m@) + seq!['\n', '\n'] + body@);
    }
    out
}

/// `message` in commit layout: its first line, cut to `SUBJECT_MAX` characters and trimmed at
/// the end, is the subject; where words follow, a blank line and the rest re-flowed at
/// `BODY_WIDTH` columns, paragraph by paragraph (a CRLF line end counts as a newline).
pub fn format_commit_message(message: &str) -> (r: String)
    ensures
        r@ == formatted(message@),
{
    let m = chars_of(message);
    let r = format_chars(&m);
    string_of(&r)
}

/// Raw generated text made a commit message: its fence stripped, then put in commit layout.
pub fn normalize_message(raw: &str) -> (r: String)
    ensures
        r@ == formatted(fence_stripped(raw@)),
{
    let t = chars_of(raw);
    let s = strip_fence_chars(&t);
    let r = format_chars(&s);
    string_of(&r)
}

} // verus!
