use vstd::prelude::*;
use vstd::std_specs::iter::IteratorSpec;
use vstd::string::StrSliceExecFns;

verus! {

/// A character that Unicode classes as White_Space (what `char::is_whitespace` tests).
pub open spec fn is_ws(c: char) -> bool {
    c == '\t' || c == '\n' || c == '\x0B' || c == '\x0C' || c == '\r' || c == ' '
        || c == '\u{85}' || c == '\u{A0}' || c == '\u{1680}'
        || ('\u{2000}' <= c && c <= '\u{200A}')
        || c == '\u{2028}' || c == '\u{2029}' || c == '\u{202F}' || c == '\u{205F}'
        || c == '\u{3000}'
}

pub fn is_whitespace(c: char) -> (r: bool)
    ensures
        r == is_ws(c),
{
    c == '\t' || c == '\n' || c == '\x0B' || c == '\x0C' || c == '\r' || c == ' '
        || c == '\u{85}' || c == '\u{A0}' || c == '\u{1680}'
        || ('\u{2000}' <= c && c <= '\u{200A}')
        || c == '\u{2028}' || c == '\u{2029}' || c == '\u{202F}' || c == '\u{205F}'
        || c == '\u{3000}'
}


/// `s` without its leading whitespace.
pub open spec fn trim_start(s: Seq<char>) -> Seq<char>
    decreases s.len(),
{
    if s.len() > 0 && is_ws(s[0]) {
        trim_start(s.drop_first())
    } else {
        s
    }
}

/// `s` without its trailing whitespace.
pub open spec fn trim_end(s: Seq<char>) -> Seq<char>
    decreases s.len(),
{
    if s.len() > 0 && is_ws(s.last()) {
        trim_end(s.drop_last())
    } else {
        s
    }
}

/// `s` without whitespace at either end.
pub open spec fn trim(s: Seq<char>) -> Seq<char> {
    trim_end(trim_start(s))
}

/// `s` with the carriage return of each CRLF line end dropped.
pub open spec fn lf_only(s: Seq<char>) -> Seq<char>
    decreases s.len(),
{
    if s.len() == 0 {
        seq![]
    } else if s.len() >= 2 && s[0] == '\r' && s[1] == '\n' {
        lf_only(s.drop_first())
    } else {
        seq![s[0]] + lf_only(s.drop_first())
    }
}

/// Dropping carriage returns keeps a text of whitespace made of whitespace.
pub proof fn lemma_lf_only_chars(s: Seq<char>)
    requires
        forall|j: int| 0 <= j < s.len() ==> is_ws(#[trigger] s[j]),
    ensures
        forall|j: int| 0 <= j < lf_only(s).len() ==> is_ws(#[trigger] lf_only(s)[j]),
    decreases s.len(),
{
    if s.len() > 0 {
        let d = s.drop_first();
        assert forall|j: int| 0 <= j < d.len() implies is_ws(#[trigger] d[j]) by {
            assert(d[j] == s[j + 1]);
        }
        lemma_lf_only_chars(d);
        assert(is_ws(s[0]));
        if !(s.len() >= 2 && s[0] == '\r' && s[1] == '\n') {
            let r = lf_only(s);
            assert(r == seq![s[0]] + lf_only(d));
            assert forall|j: int| 0 <= j < r.len() implies is_ws(#[trigger] r[j]) by {
                if j > 0 {
                    assert(r[j] == lf_only(d)[j - 1]);
                }
            }
        }
    }
}

/// `s` begins with `p`.
pub open spec fn starts_with(s: Seq<char>, p: Seq<char>) -> bool {
    p.len() <= s.len() && s.subrange(0, p.len() as int) == p
}

/// `s` ends with `p`.
pub open spec fn ends_with(s: Seq<char>, p: Seq<char>) -> bool {
    p.len() <= s.len() && s.subrange(s.len() - p.len(), s.len() as int) == p
}

/// Number of characters before the first newline of `s` (all of them where it has none).
pub open spec fn first_line_len(s: Seq<char>) -> nat
    decreases s.len(),
{
    if s.len() == 0 || s[0] == '\n' {
        0
    } else {
        1 + first_line_len(s.drop_first())
    }
}

/// The lines of `s`: the pieces between its newlines (an empty text is one empty line).
pub open spec fn lines_of(s: Seq<char>) -> Seq<Seq<char>>
    decreases s.len(),
{
    if s.len() == 0 {
        seq![seq![]]
    } else {
        let r = lines_of(s.drop_last());
        if s.last() == '\n' {
            r.push(seq![])
        } else {
            r.update(r.len() - 1, r.last().push(s.last()))
        }
    }
}

pub proof fn lemma_lines_nonempty(s: Seq<char>)
    ensures
        lines_of(s).len() > 0,
    decreases s.len(),
{
    if s.len() > 0 {
        lemma_lines_nonempty(s.drop_last());
    }
}

pub proof fn lemma_lines_append(a: Seq<char>, b: Seq<char>)
    requires
        forall|j: int| 0 <= j < b.len() ==> #[trigger] b[j] != '\n',
    ensures
        lines_of(a + b) == lines_of(a).update(
            lines_of(a).len() - 1,
            lines_of(a).last() + b,
        ),
    decreases b.len(),
{
    lemma_lines_nonempty(a);
    if b.len() == 0 {
        assert(a + b =~= a);
        assert(lines_of(a).last() + b =~= lines_of(a).last());
        assert(lines_of(a).update(lines_of(a).len() - 1, lines_of(a).last()) =~= lines_of(a));
    } else {
        let b0 = b.drop_last();
        lemma_lines_append(a, b0);
        assert((a + b).drop_last() =~= a + b0);
        assert(b[b.len() - 1] != '\n');
        let la = lines_of(a);
        assert((la.last() + b0).push(b.last()) =~= la.last() + b);
        assert(la.update(la.len() - 1, la.last() + b0).update(la.len() - 1, la.last() + b)
            =~= la.update(la.len() - 1, la.last() + b));
    }
}

pub proof fn lemma_lines_concat(a: Seq<char>, b: Seq<char>)
    ensures
        lines_of(a + b) == lines_of(a).drop_last() + seq![lines_of(a).last() + lines_of(b)[0]]
            + lines_of(b).skip(1),
    decreases b.len(),
{
    lemma_lines_nonempty(a);
    lemma_lines_nonempty(b);
    let la = lines_of(a);
    if b.len() == 0 {
        assert(a + b =~= a);
        assert(lines_of(b) =~= seq![Seq::<char>::empty()]);
        assert(la.last() + Seq::<char>::empty() =~= la.last());
        assert(la.drop_last() + seq![la.last()] + lines_of(b).skip(1) =~= la);
    } else {
        let b0 = b.drop_last();
        let c = b.last();
        lemma_lines_concat(a, b0);
        lemma_lines_nonempty(b0);
        assert((a + b).drop_last() =~= a + b0);
        let lb0 = lines_of(b0);
        let lb = lines_of(b);
        let mid0 = la.last() + lb0[0];
        if c == '\n' {
            assert(lb == lb0.push(seq![]));
            assert(lb[0] == lb0[0]);
            assert(lb.skip(1) =~= lb0.skip(1).push(seq![]));
            assert((la.drop_last() + seq![mid0] + lb0.skip(1)).push(seq![])
                =~= la.drop_last() + seq![mid0] + lb.skip(1));
        } else {
            assert(lb == lb0.update(lb0.len() - 1, lb0.last().push(c)));
            if lb0.len() == 1 {
                assert(lb[0] =~= lb0[0].push(c));
                assert(mid0.push(c) =~= la.last() + lb[0]);
                assert(lb.skip(1) =~= lb0.skip(1));
                let x = la.drop_last() + seq![mid0] + lb0.skip(1);
                assert(x.update(x.len() - 1, x.last().push(c))
                    =~= la.drop_last() + seq![la.last() + lb[0]] + lb.skip(1));
            } else {
                assert(lb[0] == lb0[0]);
                assert(lb.skip(1) =~= lb0.skip(1).update(lb0.len() - 2, lb0.last().push(c)));
                let x = la.drop_last() + seq![mid0] + lb0.skip(1);
                assert(x.update(x.len() - 1, x.last().push(c))
                    =~= la.drop_last() + seq![mid0] + lb.skip(1));
            }
        }
    }
}

/// The lines of `s` as a reader counts them: a newline, or a carriage return and a newline,
/// ends a line, and nothing after the last newline makes no further line (an empty text has
/// none).
pub open spec fn text_lines(s: Seq<char>) -> Seq<Seq<char>> {
    let l = lines_of(s);
    let ended = l.drop_last().map_values(|x: Seq<char>| without_cr(x));
    if l.last().len() == 0 {
        ended
    } else {
        ended.push(l.last())
    }
}

/// A line without the carriage return of its CRLF line end.
pub open spec fn without_cr(l: Seq<char>) -> Seq<char> {
    if l.len() > 0 && l.last() == '\r' {
        l.drop_last()
    } else {
        l
    }
}

/// The characters of each line.
pub open spec fn lines_view(v: Seq<Vec<char>>) -> Seq<Seq<char>> {
    v.map_values(|l: Vec<char>| l@)
}

/// `s` holds no character but whitespace.
pub open spec fn is_blank(s: Seq<char>) -> bool {
    trim(s).len() == 0
}

proof fn lemma_trim_start_shape(s: Seq<char>)
    ensures
        trim_start(s).len() <= s.len(),
        trim_start(s) == s.subrange(s.len() - trim_start(s).len(), s.len() as int),
        trim_start(s).len() > 0 ==> !is_ws(trim_start(s)[0]),
    decreases s.len(),
{
    if s.len() > 0 && is_ws(s[0]) {
        lemma_trim_start_shape(s.drop_first());
        assert(s.drop_first().subrange(s.len() - 1 - trim_start(s).len(), s.len() - 1)
            =~= s.subrange(s.len() - trim_start(s).len(), s.len() as int));
    } else {
        assert(s.subrange(0, s.len() as int) =~= s);
    }
}

pub proof fn lemma_trim_end_shape(s: Seq<char>)
    ensures
        trim_end(s).len() <= s.len(),
        trim_end(s) == s.subrange(0, trim_end(s).len() as int),
        trim_end(s).len() > 0 ==> !is_ws(trim_end(s).last()),
    decreases s.len(),
{
    if s.len() > 0 && is_ws(s.last()) {
        lemma_trim_end_shape(s.drop_last());
        assert(s.drop_last().subrange(0, trim_end(s).len() as int)
            =~= s.subrange(0, trim_end(s).len() as int));
    } else {
        assert(s.subrange(0, s.len() as int) =~= s);
    }
}

/// Trimming a trimmed text changes nothing.
pub proof fn lemma_trim_idempotent(s: Seq<char>)
    ensures
        trim(trim(s)) == trim(s),
{
    let z = trim_start(s);
    let y = trim(s);
    lemma_trim_start_shape(s);
    lemma_trim_end_shape(z);
    if y.len() > 0 {
        assert(y[0] == z[0]);
    }
    assert(trim_start(y) == y);
    assert(trim_end(y) == y);
}

/// The characters `s[lo..hi]`, copied.
pub fn copy_range(s: &Vec<char>, lo: usize, hi: usize) -> (r: Vec<char>)
    requires
        lo <= hi <= s@.len(),
    ensures
        r@ == s@.subrange(lo as int, hi as int),
{
    let mut r: Vec<char> = Vec::new();
    let mut i: usize = lo;
    while i < hi
        invariant
            lo <= i <= hi <= s@.len(),
            r@ == s@.subrange(lo as int, i as int),
        decreases hi - i,
    {
        r.push(s[i]);
        assert(r@ =~= s@.subrange(lo as int, i + 1));
        i = i + 1;
    }
    r
}

/// Position of the first non-whitespace character of `s[lo..]` (or `s.len()`).
fn skip_ws_forward(s: &Vec<char>, lo: usize) -> (i: usize)
    requires
        lo <= s@.len(),
    ensures
        lo <= i <= s@.len(),
        trim_start(s@.subrange(lo as int, s@.len() as int)) == s@.subrange(i as int, s@.len() as int),
{
    let mut i: usize = lo;
    while i < s.len() && is_whitespace(s[i])
        invariant
            lo <= i <= s@.len(),
            trim_start(s@.subrange(lo as int, s@.len() as int)) == trim_start(s@.subrange(i as int, s@.len() as int)),
        decreases s@.len() - i,
    {
        assert(s@.subrange(i as int, s@.len() as int).drop_first() =~= s@.subrange(i + 1, s@.len() as int));
        i = i + 1;
    }
    i
}

/// End of `s[..hi]` once its trailing whitespace is dropped.
fn skip_ws_backward(s: &Vec<char>, hi: usize) -> (j: usize)
    requires
        hi <= s@.len(),
    ensures
        j <= hi,
        trim_end(s@.subrange(0, hi as int)) == s@.subrange(0, j as int),
{
    let mut j: usize = hi;
    while j > 0 && is_whitespace(s[j - 1])
        invariant
            j <= hi <= s@.len(),
            trim_end(s@.subrange(0, hi as int)) == trim_end(s@.subrange(0, j as int)),
        decreases j,
    {
        assert(s@.subrange(0, j as int).drop_last() =~= s@.subrange(0, j - 1));
        j = j - 1;
    }
    j
}

/// `s` with whitespace dropped at both ends.
pub fn trim_chars(s: &Vec<char>) -> (r: Vec<char>)
    ensures
        r@ == trim(s@),
{
    let i = skip_ws_forward(s, 0);
    assert(s@.subrange(0, s@.len() as int) =~= s@);
    let t = copy_range(s, i, s.len());
    let j = skip_ws_backward(&t, t.len());
    assert(t@.subrange(0, t@.len() as int) =~= t@);
    copy_range(&t, 0, j)
}

/// `s` with trailing whitespace dropped.
pub fn trim_end_chars(s: &Vec<char>) -> (r: Vec<char>)
    ensures
        r@ == trim_end(s@),
{
    let j = skip_ws_backward(s, s.len());
    assert(s@.subrange(0, s@.len() as int) =~= s@);
    copy_range(s, 0, j)
}

/// Index of the first newline in `s[lo..]`, or `s.len()` where there is none.
pub fn find_newline(s: &Vec<char>, lo: usize) -> (i: usize)
    requires
        lo <= s@.len(),
    ensures
        i == lo + first_line_len(s@.subrange(lo as int, s@.len() as int)),
        i <= s@.len(),
        i < s@.len() ==> s@[i as int] == '\n',
        forall|k: int| lo <= k < i ==> s@[k] != '\n',
{
    let mut i: usize = lo;
    while i < s.len() && s[i] != '\n'
        invariant
            lo <= i <= s@.len(),
            lo + first_line_len(s@.subrange(lo as int, s@.len() as int))
                == i + first_line_len(s@.subrange(i as int, s@.len() as int)),
            forall|k: int| lo <= k < i ==> s@[k] != '\n',
        decreases s@.len() - i,
    {
        assert(s@.subrange(i as int, s@.len() as int).drop_first() =~= s@.subrange(i + 1, s@.len() as int));
        i = i + 1;
    }
    i
}

/// The lines of `s`, as `text_lines` counts them.
pub fn split_lines(s: &Vec<char>) -> (r: Vec<Vec<char>>)
    ensures
        lines_view(r@) == text_lines(s@),
{
    let mut lines: Vec<Vec<char>> = Vec::new();
    let mut cur: Vec<char> = Vec::new();
    let mut i: usize = 0;
    assert(lines_of(s@.take(0)) =~= seq![Seq::<char>::empty()]);
    assert(lines_view(lines@) =~= lines_of(s@.take(0)).drop_last().map_values(
        |x: Seq<char>| without_cr(x),
    ));
    while i < s.len()
        invariant
            i <= s@.len(),
            lines_of(s@.take(i as int)).len() > 0,
            lines_view(lines@) == lines_of(s@.take(i as int)).drop_last().map_values(
                |x: Seq<char>| without_cr(x),
            ),
            cur@ == lines_of(s@.take(i as int)).last(),
        decreases s@.len() - i,
    {
        let c = s[i];
        assert(s@.take(i + 1).drop_last() =~= s@.take(i as int));
        let ghost l = lines_of(s@.take(i as int));
        let ghost l2 = lines_of(s@.take(i + 1));
        let ghost done = lines_view(lines@);
        if c == '\n' {
            let mut ended = cur;
            let n = ended.len();
            if n > 0 && ended[n - 1] == '\r' {
                ended.pop();
            }
            assert(ended@ == without_cr(l.last()));
            lines.push(ended);
            cur = Vec::new();
            assert(l2 == l.push(seq![]));
            assert(l2.drop_last() =~= l);
            assert(lines_view(lines@) =~= done.push(without_cr(l.last())));
            assert(l.map_values(|x: Seq<char>| without_cr(x)) =~= l.drop_last().map_values(
                |x: Seq<char>| without_cr(x),
            ).push(without_cr(l.last())));
        } else {
            cur.push(c);
            assert(l2 == l.update(l.len() - 1, l.last().push(c)));
            assert(l2.drop_last() =~= l.drop_last());
            assert(lines_view(lines@) =~= done);
        }
        i = i + 1;
    }
    assert(s@.take(s@.len() as int) =~= s@);
    let ghost l = lines_of(s@);
    if cur.len() > 0 {
        let ghost done = lines_view(lines@);
        lines.push(cur);
        assert(lines_view(lines@) =~= done.push(l.last()));
    }
    lines
}

/// Whether `s` holds no character but whitespace.
pub fn is_blank_text(s: &str) -> (r: bool)
    ensures
        r == is_blank(s@),
{
    let t = chars_of(s);
    let u = trim_chars(&t);
    u.len() == 0
}

/// `s` with the carriage return of each CRLF line end dropped.
pub fn lf_only_chars(s: &Vec<char>) -> (r: Vec<char>)
    ensures
        r@ == lf_only(s@),
{
    let mut out: Vec<char> = Vec::new();
    let mut i: usize = 0;
    let n = s.len();
    assert(s@.subrange(0, n as int) =~= s@);
    while i < n
        invariant
            n == s@.len(),
            i <= n,
            lf_only(s@) == out@ + lf_only(s@.subrange(i as int, n as int)),
        decreases n - i,
    {
        let ghost rest = s@.subrange(i as int, n as int);
        assert(rest.drop_first() =~= s@.subrange(i + 1, n as int));
        if s[i] == '\r' && i + 1 < n && s[i + 1] == '\n' {
        } else {
            let ghost prev = out@;
            out.push(s[i]);
            assert(out@ + lf_only(rest.drop_first()) =~= prev + (seq![rest[0]] + lf_only(
                rest.drop_first(),
            )));
        }
        i = i + 1;
    }
    assert(s@.subrange(n as int, n as int) =~= Seq::<char>::empty());
    assert(out@ + Seq::<char>::empty() =~= out@);
    out
}

/// The characters of `s`, in order.
pub fn chars_of(s: &str) -> (r: Vec<char>)
    ensures
        r@ == s@,
{
    broadcast use vstd::string::group_string_axioms;
    let mut it = s.chars();
    let mut r: Vec<char> = Vec::new();
    loop
        invariant
            r@ + it.remaining() == s@,
        decreases s@.len() - r@.len(),
    {
        match it.next() {
            Some(c) => {
                r.push(c);
            },
            None => {
                assert(r@ =~= s@);
                return r;
            },
        }
    }
}

/// `a` holds exactly the characters of `lit`.
pub fn equals_str(a: &Vec<char>, lit: &str) -> (r: bool)
    ensures
        r == (a@ == lit@),
{
    let n = lit.unicode_len();
    if a.len() != n {
        return false;
    }
    let mut i: usize = 0;
    while i < n
        invariant
            n == lit@.len(),
            a@.len() == n,
            i <= n,
            forall|j: int| 0 <= j < i ==> a@[j] == lit@[j],
        decreases n - i,
    {
        if a[i] != lit.get_char(i) {
            return false;
        }
        i = i + 1;
    }
    assert(a@ =~= lit@);
    true
}

/// `a` begins with the characters of `lit`.
pub fn starts_with_str(a: &Vec<char>, lit: &str) -> (r: bool)
    ensures
        r == starts_with(a@, lit@),
{
    let n = lit.unicode_len();
    if a.len() < n {
        return false;
    }
    let mut i: usize = 0;
    while i < n
        invariant
            n == lit@.len(),
            n <= a@.len(),
            i <= n,
            forall|j: int| 0 <= j < i ==> a@[j] == lit@[j],
        decreases n - i,
    {
        if a[i] != lit.get_char(i) {
            assert(a@.subrange(0, n as int)[i as int] != lit@[i as int]);
            return false;
        }
        i = i + 1;
    }
    assert(a@.subrange(0, n as int) =~= lit@);
    true
}

/// Appends the characters of `lit` to `out`.
pub fn push_str(out: &mut Vec<char>, lit: &str)
    ensures
        final(out)@ == old(out)@ + lit@,
{
    let n = lit.unicode_len();
    let mut i: usize = 0;
    while i < n
        invariant
            n == lit@.len(),
            i <= n,
            out@ == old(out)@ + lit@.take(i as int),
        decreases n - i,
    {
        out.push(lit.get_char(i));
        assert(lit@.take(i + 1) =~= lit@.take(i as int).push(lit@[i as int]));
        i = i + 1;
    }
    assert(lit@.take(n as int) =~= lit@);
}

/// Relies on std's `String: FromIterator<char>`: the string holds the characters in order.
#[verifier::external_body]
pub(crate) fn string_of(v: &Vec<char>) -> (r: String)
    ensures
        r@ == v@,
{
    v.iter().collect()
}

} // verus!
