use vstd::prelude::*;

use crate::text::{
    chars_of, is_whitespace, is_ws, lemma_lines_append, lemma_lines_nonempty, lines_of, string_of,
};

verus! {

/// A word and whether a paragraph break comes before it.
pub type Word = (Seq<char>, bool);

/// `s` ends with a newline that closes an empty line: two newlines in a row.
pub open spec fn closes_empty_line(s: Seq<char>) -> bool {
    &&& s.len() >= 2
    &&& s.last() == '\n'
    &&& s[s.len() - 2] == '\n'
}

/// The run of whitespace that ends `s` holds an empty line.
pub open spec fn gap_has_empty_line(s: Seq<char>) -> bool
    decreases s.len(),
{
    if s.len() == 0 || !is_ws(s.last()) {
        false
    } else {
        gap_has_empty_line(s.drop_last()) || closes_empty_line(s)
    }
}

/// The words of `s` (maximal runs of non-whitespace characters), in order. Each carries a
/// flag that tells whether a paragraph break comes before it: whether an empty line stands
/// between it and the word before it, that is, two newlines in a row. A line that holds any
/// character, whitespace included, is no break. The first word has no break before it.
pub open spec fn words(s: Seq<char>) -> Seq<Word>
    decreases s.len(),
{
    if s.len() == 0 {
        seq![]
    } else {
        let p = s.drop_last();
        let c = s.last();
        let r = words(p);
        if is_ws(c) {
            r
        } else if p.len() > 0 && !is_ws(p.last()) {
            r.update(r.len() - 1, (r.last().0.push(c), r.last().1))
        } else {
            r.push((seq![c], r.len() > 0 && gap_has_empty_line(p)))
        }
    }
}

/// Words as `words` gives them: none empty, none holding whitespace, no break before the first.
pub open spec fn words_well_formed(ws: Seq<Word>) -> bool {
    &&& ws.len() > 0 ==> !ws[0].1
    &&& forall|i: int| 0 <= i < ws.len() ==> #[trigger] ws[i].0.len() > 0
    &&& forall|i: int, j: int|
        0 <= i < ws.len() && 0 <= j < ws[i].0.len() ==> !is_ws(#[trigger] ws[i].0[j])
}

/// Length of the last line when `ws` is filled greedily at width `w`.
pub open spec fn last_line_len(ws: Seq<Word>, w: nat) -> nat
    decreases ws.len(),
{
    if ws.len() == 0 {
        0
    } else {
        let prev = ws.drop_last();
        let n = last_line_len(prev, w) + 1 + ws.last().0.len();
        if prev.len() == 0 || ws.last().1 || n > w {
            ws.last().0.len()
        } else {
            n
        }
    }
}

/// What greedy filling puts before the last word of `ws`: nothing before the first word, a
/// blank line at a paragraph break, a space where the word still fits on the line, else a
/// newline.
pub open spec fn sep_before_last(ws: Seq<Word>, w: nat) -> Seq<char> {
    let prev = ws.drop_last();
    if prev.len() == 0 {
        seq![]
    } else if ws.last().1 {
        seq!['\n', '\n']
    } else if last_line_len(prev, w) + 1 + ws.last().0.len() <= w {
        seq![' ']
    } else {
        seq!['\n']
    }
}

/// The words `ws` filled greedily into lines of width `w`, paragraphs parted by a blank line.
/// A word is never split: one longer than `w` stands alone on its line.
pub open spec fn filled(ws: Seq<Word>, w: nat) -> Seq<char>
    decreases ws.len(),
{
    if ws.len() == 0 {
        seq![]
    } else {
        filled(ws.drop_last(), w) + sep_before_last(ws, w) + ws.last().0
    }
}

/// `s` re-flowed at width `w`: its words, paragraph by paragraph, filled greedily.
pub open spec fn wrapped(s: Seq<char>, w: nat) -> Seq<char> {
    filled(words(s), w)
}

/// A line of at most `w` characters, or a single word with no whitespace in it.
pub open spec fn fits_width(line: Seq<char>, w: nat) -> bool {
    line.len() <= w || forall|j: int| 0 <= j < line.len() ==> !is_ws(#[trigger] line[j])
}

proof fn lemma_words_shape(s: Seq<char>)
    ensures
        words_well_formed(words(s)),
        s.len() > 0 && !is_ws(s.last()) ==> words(s).len() > 0,
    decreases s.len(),
{
    if s.len() > 0 {
        let p = s.drop_last();
        let c = s.last();
        let r = words(p);
        lemma_words_shape(p);
        if is_ws(c) {
        } else if p.len() > 0 && !is_ws(p.last()) {
            let nw = r.last().0.push(c);
            let ws = words(s);
            assert(ws == r.update(r.len() - 1, (nw, r.last().1)));
            assert forall|i: int, j: int|
                0 <= i < ws.len() && 0 <= j < ws[i].0.len() implies !is_ws(#[trigger] ws[i].0[j]) by {
                if i == r.len() - 1 {
                    if j < r.last().0.len() {
                        assert(ws[i].0[j] == r[i].0[j]);
                    }
                } else {
                    assert(ws[i] == r[i]);
                }
            }
            assert forall|i: int| 0 <= i < ws.len() implies #[trigger] ws[i].0.len() > 0 by {
                if i != r.len() - 1 {
                    assert(ws[i] == r[i]);
                }
            }
        } else {
            let ws = words(s);
            assert forall|i: int, j: int|
                0 <= i < ws.len() && 0 <= j < ws[i].0.len() implies !is_ws(#[trigger] ws[i].0[j]) by {
                if i < r.len() {
                    assert(ws[i] == r[i]);
                }
            }
            assert forall|i: int| 0 <= i < ws.len() implies #[trigger] ws[i].0.len() > 0 by {
                if i < r.len() {
                    assert(ws[i] == r[i]);
                }
            }
        }
    }
}

proof fn lemma_words_append_word(y: Seq<char>, wd: Seq<char>)
    requires
        wd.len() > 0,
        forall|j: int| 0 <= j < wd.len() ==> !is_ws(#[trigger] wd[j]),
        y.len() == 0 || is_ws(y.last()),
    ensures
        words(y + wd) == words(y).push((wd, words(y).len() > 0 && gap_has_empty_line(y))),
    decreases wd.len(),
{
    if wd.len() == 1 {
        assert((y + wd).drop_last() =~= y);
        assert(seq![wd[0]] =~= wd);
    } else {
        let w0 = wd.drop_last();
        lemma_words_append_word(y, w0);
        assert((y + wd).drop_last() =~= y + w0);
        assert(w0.push(wd.last()) =~= wd);
        let f = words(y).len() > 0 && gap_has_empty_line(y);
        assert(words(y).push((w0, f)).update(words(y).len() as int, (wd, f))
            =~= words(y).push((wd, f)));
    }
}

proof fn lemma_filled_ends_in_word(ws: Seq<Word>, w: nat)
    requires
        words_well_formed(ws),
        ws.len() > 0,
    ensures
        filled(ws, w).len() > 0,
        !is_ws(filled(ws, w).last()),
{
    let wd = ws.last().0;
    assert(ws[ws.len() - 1].0.len() > 0);
    assert(!is_ws(ws[ws.len() - 1].0[wd.len() - 1]));
}

proof fn lemma_well_formed_prefix(ws: Seq<Word>)
    requires
        words_well_formed(ws),
        ws.len() > 0,
    ensures
        words_well_formed(ws.drop_last()),
        ws.last().0.len() > 0,
        forall|j: int| 0 <= j < ws.last().0.len() ==> !is_ws(#[trigger] ws.last().0[j]),
{
    let p = ws.drop_last();
    assert forall|i: int| 0 <= i < p.len() implies #[trigger] p[i].0.len() > 0 by {
        assert(p[i] == ws[i]);
    }
    assert forall|i: int, j: int|
        0 <= i < p.len() && 0 <= j < p[i].0.len() implies !is_ws(#[trigger] p[i].0[j]) by {
        assert(p[i] == ws[i]);
    }
    assert(ws[ws.len() - 1].0.len() > 0);
    assert forall|j: int| 0 <= j < ws.last().0.len() implies !is_ws(#[trigger] ws.last().0[j]) by {
        assert(!is_ws(ws[ws.len() - 1].0[j]));
    }
}

proof fn lemma_filled_words(ws: Seq<Word>, w: nat)
    requires
        words_well_formed(ws),
    ensures
        words(filled(ws, w)) == ws,
    decreases ws.len(),
{
    if ws.len() > 0 {
        let prev = ws.drop_last();
        let wd = ws.last().0;
        let brk = ws.last().1;
        lemma_well_formed_prefix(ws);
        lemma_filled_words(prev, w);
        let x = filled(prev, w);
        let sep = sep_before_last(ws, w);
        let y = x + sep;
        assert(filled(ws, w) =~= y + wd);
        if prev.len() == 0 {
            assert(y =~= Seq::<char>::empty());
            lemma_words_append_word(y, wd);
            assert(ws[0].1 == brk);
            assert(seq![(wd, brk)] =~= ws);
            assert(Seq::<Word>::empty().push((wd, false)) =~= seq![(wd, false)]);
        } else {
            lemma_filled_ends_in_word(prev, w);
            assert(!gap_has_empty_line(x));
            if brk {
                let x1 = x.push('\n');
                assert(y.drop_last() =~= x1);
                assert(x1.drop_last() =~= x);
                assert(y.last() == '\n');
                assert(x1.last() == '\n');
                assert(words(x1) == words(x));
                assert(closes_empty_line(y));
                assert(gap_has_empty_line(y));
            } else if last_line_len(prev, w) + 1 + wd.len() <= w {
                assert(y.drop_last() =~= x);
                assert(!gap_has_empty_line(y));
            } else {
                assert(y.drop_last() =~= x);
                assert(!closes_empty_line(y));
                assert(!gap_has_empty_line(y));
            }
            assert(words(y) == prev);
            lemma_words_append_word(y, wd);
            assert(prev.push((wd, brk)) =~= ws);
        }
    }
}

/// Re-flowing keeps the words, their order and the paragraph breaks between them: no two
/// paragraphs merge into one and none splits into two.
pub proof fn lemma_wrap_keeps_words(s: Seq<char>, w: nat)
    ensures
        words(wrapped(s, w)) == words(s),
{
    lemma_words_shape(s);
    lemma_filled_words(words(s), w);
}

proof fn lemma_filled_widths(ws: Seq<Word>, w: nat)
    requires
        words_well_formed(ws),
    ensures
        lines_of(filled(ws, w)).len() > 0,
        forall|j: int|
            0 <= j < lines_of(filled(ws, w)).len() ==> fits_width(
                #[trigger] lines_of(filled(ws, w))[j],
                w,
            ),
        lines_of(filled(ws, w)).last().len() == last_line_len(ws, w),
    decreases ws.len(),
{
    if ws.len() == 0 {
        assert(lines_of(filled(ws, w)) =~= seq![Seq::<char>::empty()]);
    } else {
        let prev = ws.drop_last();
        let wd = ws.last().0;
        lemma_well_formed_prefix(ws);
        lemma_filled_widths(prev, w);
        let x = filled(prev, w);
        let lx = lines_of(x);
        let sep = sep_before_last(ws, w);
        let y = x + sep;
        assert(filled(ws, w) =~= y + wd);
        assert forall|j: int| 0 <= j < wd.len() implies #[trigger] wd[j] != '\n' by {
            assert(!is_ws(wd[j]));
        }
        lemma_lines_nonempty(y);
        lemma_lines_append(y, wd);
        let ly = lines_of(y);
        let l = lines_of(y + wd);
        assert(l == ly.update(ly.len() - 1, ly.last() + wd));
        if prev.len() == 0 {
            assert(y =~= Seq::<char>::empty());
            assert(ly =~= seq![Seq::<char>::empty()]);
            assert(l[0] =~= wd);
        } else if ws.last().1 {
            let x1 = x.push('\n');
            assert(y.drop_last() =~= x1);
            assert(x1.drop_last() =~= x);
            assert(y.last() == '\n');
            assert(x1.last() == '\n');
            assert(lines_of(x1) == lx.push(seq![]));
            assert(ly =~= lx.push(seq![]).push(seq![]));
            assert(l[l.len() - 1] =~= wd);
            assert forall|j: int| 0 <= j < l.len() implies fits_width(#[trigger] l[j], w) by {
                if j < lx.len() {
                    assert(l[j] == lx[j]);
                }
            }
        } else if last_line_len(prev, w) + 1 + wd.len() <= w {
            assert(y.drop_last() =~= x);
            assert(ly =~= lx.update(lx.len() - 1, lx.last().push(' ')));
            assert forall|j: int| 0 <= j < l.len() implies fits_width(#[trigger] l[j], w) by {
                if j < lx.len() - 1 {
                    assert(l[j] == lx[j]);
                }
            }
        } else {
            assert(y.drop_last() =~= x);
            assert(ly =~= lx.push(seq![]));
            assert(l[l.len() - 1] =~= wd);
            assert forall|j: int| 0 <= j < l.len() implies fits_width(#[trigger] l[j], w) by {
                if j < lx.len() {
                    assert(l[j] == lx[j]);
                }
            }
        }
    }
}

/// Every line of re-flowed text is at most `w` characters long, unless it is a single word
/// (a line with no whitespace) longer than `w`.
pub proof fn lemma_wrapped_line_widths(s: Seq<char>, w: nat)
    ensures
        forall|j: int|
            0 <= j < lines_of(wrapped(s, w)).len() ==> fits_width(
                #[trigger] lines_of(wrapped(s, w))[j],
                w,
            ),
{
    lemma_words_shape(s);
    lemma_filled_widths(words(s), w);
}

/// `p` is a paragraph written as one line: words parted by single spaces, no other
/// whitespace, at most `w` characters.
pub open spec fn is_plain_line(p: Seq<char>, w: nat) -> bool {
    &&& 0 < p.len() <= w
    &&& !is_ws(p.last())
    &&& forall|i: int|
        0 <= i < p.len() && is_ws(#[trigger] p[i]) ==> p[i] == ' ' && i > 0 && !is_ws(p[i - 1])
}

proof fn lemma_plain_prefix(p1: Seq<char>, p2: Seq<char>, w: nat, k: int)
    requires
        is_plain_line(p1, w),
        is_plain_line(p2, w),
        1 <= k <= p1.len() + 2 + p2.len(),
        !is_ws((p1 + seq!['\n', '\n'] + p2)[k - 1]),
    ensures
        ({
            let t = p1 + seq!['\n', '\n'] + p2;
            let ws = words(t.take(k));
            let start = if k <= p1.len() { 0 } else { p1.len() + 2 };
            &&& ws.len() > 0
            &&& filled(ws, w) == t.take(k)
            &&& last_line_len(ws, w) == k - start
            &&& ws.len() > 1 && !ws.last().1 ==> last_line_len(ws.drop_last(), w) + 1
                + ws.last().0.len() <= w
        }),
    decreases k,
{
    let t = p1 + seq!['\n', '\n'] + p2;
    let n1 = p1.len() as int;
    let c = t[k - 1];
    let q = t.take(k);
    assert(q.drop_last() =~= t.take(k - 1));
    assert(q.last() == c);
    assert(k <= n1 ==> t[k - 1] == p1[k - 1]);
    assert(k > n1 + 2 ==> t[k - 1] == p2[k - 1 - n1 - 2]);
    assert(k - 1 != n1 && k - 1 != n1 + 1);
    if k == 1 {
        assert(t.take(0) =~= Seq::<char>::empty());
        assert(words(Seq::<char>::empty()) =~= Seq::<Word>::empty());
        assert(words(q) == Seq::<Word>::empty().push((seq![c], false)));
        let ws = words(q);
        assert(ws.drop_last() =~= Seq::<Word>::empty());
        assert(filled(ws.drop_last(), w) =~= Seq::<char>::empty());
        assert(q =~= seq![c]);
        assert(filled(ws, w) =~= q);
    } else {
        let b = t[k - 2];
        if !is_ws(b) {
            lemma_plain_prefix(p1, p2, w, k - 1);
            let r = words(t.take(k - 1));
            assert(words(q) == r.update(r.len() - 1, (r.last().0.push(c), r.last().1)));
            let ws = words(q);
            assert(ws.drop_last() =~= r.drop_last());
            assert(ws.last().0 == r.last().0.push(c));
            assert(filled(ws, w) =~= filled(r, w).push(c));
        } else if k - 1 == n1 + 2 {
            assert(t[n1 - 1] == p1[n1 - 1]);
            lemma_plain_prefix(p1, p2, w, n1);
            let x = t.take(n1);
            assert(t.take(k - 2) =~= x.push('\n'));
            assert(t.take(k - 1) =~= x.push('\n').push('\n'));
            assert(x.push('\n').drop_last() =~= x);
            assert(x.push('\n').push('\n').drop_last() =~= x.push('\n'));
            assert(!gap_has_empty_line(x));
            assert(words(x.push('\n')) == words(x));
            assert(closes_empty_line(x.push('\n').push('\n')));
            let r = words(x);
            assert(words(q) == r.push((seq![c], true)));
            assert(words(q).drop_last() =~= r);
            assert(filled(words(q), w) =~= q);
        } else {
            assert(k > n1 + 2 ==> t[k - 2] == p2[k - 2 - n1 - 2]);
            assert(k <= n1 ==> t[k - 2] == p1[k - 2]);
            assert(b == ' ');
            assert(k >= 3);
            assert(k <= n1 ==> t[k - 3] == p1[k - 3]);
            assert(k > n1 + 2 ==> t[k - 3] == p2[k - 3 - n1 - 2]);
            assert(!is_ws(t[k - 3]));
            lemma_plain_prefix(p1, p2, w, k - 2);
            let x = t.take(k - 2);
            assert(t.take(k - 1) =~= x.push(' '));
            assert(x.push(' ').drop_last() =~= x);
            assert(!gap_has_empty_line(x));
            assert(!closes_empty_line(x.push(' ')));
            let r = words(x);
            assert(words(q) == r.push((seq![c], false)));
            assert(words(q).drop_last() =~= r);
            assert(filled(words(q), w) =~= q);
        }
    }
}

/// Two paragraphs, each a plain line of at most `w` characters, parted by one blank line,
/// re-flow to themselves.
pub proof fn lemma_plain_paragraphs_unchanged(p1: Seq<char>, p2: Seq<char>, w: nat)
    requires
        is_plain_line(p1, w),
        is_plain_line(p2, w),
    ensures
        wrapped(p1 + seq!['\n', '\n'] + p2, w) == p1 + seq!['\n', '\n'] + p2,
{
    let t = p1 + seq!['\n', '\n'] + p2;
    let k = t.len() as int;
    assert(t[k - 1] == p2.last());
    lemma_plain_prefix(p1, p2, w, k);
    assert(t.take(k) =~= t);
}

/// The words of a list of executable words.
pub open spec fn words_view(v: Seq<(Vec<char>, bool)>) -> Seq<Word> {
    v.map_values(|t: (Vec<char>, bool)| (t.0@, t.1))
}

/// The words of `s`, each with its paragraph-break flag.
pub fn split_words(s: &Vec<char>) -> (r: Vec<(Vec<char>, bool)>)
    ensures
        words_view(r@) == words(s@),
{
    let mut out: Vec<(Vec<char>, bool)> = Vec::new();
    let mut gap: bool = false;
    let mut i: usize = 0;
    while i < s.len()
        invariant
            i <= s@.len(),
            words_view(out@) == words(s@.take(i as int)),
            gap == gap_has_empty_line(s@.take(i as int)),
            i > 0 && !is_ws(s@[i - 1]) ==> out@.len() > 0,
        decreases s@.len() - i,
    {
        let c = s[i];
        let ghost p = s@.take(i as int);
        assert(s@.take(i + 1).drop_last() =~= p);
        if is_whitespace(c) {
            let closes = c == '\n' && i >= 1 && s[i - 1] == '\n';
            let ghost q = s@.take(i + 1);
            assert(closes == closes_empty_line(q));
            gap = gap || closes;
        } else if i > 0 && !is_whitespace(s[i - 1]) {
            let ghost before = out@;
            match out.pop() {
                Some(last) => {
                    let (mut wd, b) = last;
                    wd.push(c);
                    out.push((wd, b));
                    assert(words_view(out@) =~= words_view(before).update(
                        before.len() - 1,
                        (words_view(before).last().0.push(c), words_view(before).last().1),
                    ));
                },
                None => {},
            }
            gap = false;
        } else {
            let b = out.len() > 0 && gap;
            let ghost before = out@;
            let mut wd: Vec<char> = Vec::new();
            wd.push(c);
            out.push((wd, b));
            assert(words_view(out@) =~= words_view(before).push((seq![c], b)));
            gap = false;
        }
        i = i + 1;
    }
    assert(s@.take(s@.len() as int) =~= s@);
    out
}

/// Appends the characters of `b` to `out`.
pub fn append_chars(out: &mut Vec<char>, b: &Vec<char>)
    ensures
        final(out)@ == old(out)@ + b@,
{
    let mut i: usize = 0;
    while i < b.len()
        invariant
            i <= b@.len(),
            out@ == old(out)@ + b@.take(i as int),
        decreases b@.len() - i,
    {
        out.push(b[i]);
        assert(b@.take(i + 1) =~= b@.take(i as int).push(b@[i as int]));
        i = i + 1;
    }
    assert(b@.take(b@.len() as int) =~= b@);
}

/// The words `ws` filled greedily into lines of width `w`.
pub fn fill_words(ws: &Vec<(Vec<char>, bool)>, w: usize) -> (r: Vec<char>)
    ensures
        r@ == filled(words_view(ws@), w as nat),
{
    let ghost v = words_view(ws@);
    let mut out: Vec<char> = Vec::new();
    let mut line: usize = 0;
    let mut k: usize = 0;
    while k < ws.len()
        invariant
            k <= ws@.len(),
            v == words_view(ws@),
            out@ == filled(v.take(k as int), w as nat),
            line == last_line_len(v.take(k as int), w as nat),
        decreases ws@.len() - k,
    {
        let wd = &ws[k].0;
        let brk = ws[k].1;
        let wl = wd.len();
        let ghost t = v.take(k + 1);
        assert(t.drop_last() =~= v.take(k as int));
        assert(t.last() == (wd@, brk));
        let fits = wl < w && line <= w - wl - 1;
        if k == 0 {
            line = wl;
        } else if brk {
            out.push('\n');
            out.push('\n');
            assert(sep_before_last(t, w as nat) =~= seq!['\n', '\n']);
            line = wl;
        } else if fits {
            out.push(' ');
            assert(sep_before_last(t, w as nat) =~= seq![' ']);
            line = line + 1 + wl;
        } else {
            out.push('\n');
            assert(sep_before_last(t, w as nat) =~= seq!['\n']);
            line = wl;
        }
        append_chars(&mut out, wd);
        assert(out@ =~= filled(t.drop_last(), w as nat) + sep_before_last(t, w as nat) + wd@);
        k = k + 1;
    }
    assert(v.take(ws@.len() as int) =~= v);
    out
}

/// `s` re-flowed at width `w`, as characters.
pub fn wrap_chars(s: &Vec<char>, w: usize) -> (r: Vec<char>)
    ensures
        r@ == wrapped(s@, w as nat),
{
    let ws = split_words(s);
    fill_words(&ws, w)
}

/// `text` re-flowed at width `max_width`: paragraphs are parted only by an empty line (two
/// newlines in a row); the words of each paragraph are filled greedily into lines of at most
/// `max_width` characters, a word longer than that standing alone on its line. One blank line
/// parts the paragraphs of the result, however many empty lines parted them in `text`.
pub fn wrap_text(text: &str, max_width: usize) -> (r: String)
    ensures
        r@ == wrapped(text@, max_width as nat),
{
    let s = chars_of(text);
    let r = wrap_chars(&s, max_width);
    string_of(&r)
}

} // verus!
