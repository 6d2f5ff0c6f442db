use vstd::prelude::*;

use crate::text::{
    chars_of, copy_range, find_newline, first_line_len, lemma_trim_idempotent, starts_with,
    ends_with, string_of, trim, trim_chars,
};

verus! {

/// The markdown code-fence marker: three backticks.
pub open spec fn fence() -> Seq<char> {
    seq!['`', '`', '`']
}

/// Drops a language-tag line that follows an opening fence: the first line, when a newline
/// ends it, it holds no space and it is shorter than 20 characters. An empty first line (the
/// text begins with a newline) is such a line.
pub open spec fn without_tag_line(b: Seq<char>) -> Seq<char> {
    let n = first_line_len(b);
    if n < b.len() && n < 20 && !b.subrange(0, n as int).contains(' ') {
        b.subrange(n as int + 1, b.len() as int)
    } else {
        b
    }
}

/// Generated text with any enclosing markdown fence removed: the text is trimmed; where it
/// opens with a fence, that fence goes, a closing fence goes too, then a tag line, and what
/// is left is trimmed again.
pub open spec fn fence_stripped(t: Seq<char>) -> Seq<char> {
    let m = trim(t);
    if starts_with(m, fence()) {
        let a = m.subrange(3, m.len() as int);
        let b = if ends_with(a, fence()) {
            a.subrange(0, a.len() - 3)
        } else {
            a
        };
        trim(without_tag_line(b))
    } else {
        m
    }
}

/// Text that does not open with a fence, once trimmed, is only trimmed.
pub proof fn lemma_strip_without_fence(t: Seq<char>)
    requires
        !starts_with(trim(t), fence()),
    ensures
        fence_stripped(t) == trim(t),
{
}

/// Stripping twice gives what stripping once gives, wherever the stripped text does not
/// itself open with a fence (as it does for a fence nested in another).
pub proof fn lemma_strip_idempotent(t: Seq<char>)
    requires
        !starts_with(fence_stripped(t), fence()),
    ensures
        fence_stripped(fence_stripped(t)) == fence_stripped(t),
{
    let m = trim(t);
    if starts_with(m, fence()) {
        let a = m.subrange(3, m.len() as int);
        let b = if ends_with(a, fence()) {
            a.subrange(0, a.len() - 3)
        } else {
            a
        };
        lemma_trim_idempotent(without_tag_line(b));
    } else {
        lemma_trim_idempotent(t);
    }
}

fn is_fence_at(s: &Vec<char>, i: usize) -> (r: bool)
    requires
        i + 3 <= s@.len(),
    ensures
        r == (s@.subrange(i as int, i + 3) == fence()),
{
    let len = s.len();
    assert(i + 3 <= len);
    let r = s[i] == '`' && s[i + 1] == '`' && s[i + 2] == '`';
    if r {
        assert(s@.subrange(i as int, i + 3) =~= fence());
    } else {
        assert(s@.subrange(i as int, i + 3) != fence()) by {
            if s@.subrange(i as int, i + 3) == fence() {
                assert(s@.subrange(i as int, i + 3)[0] == fence()[0]);
                assert(s@.subrange(i as int, i + 3)[1] == fence()[1]);
                assert(s@.subrange(i as int, i + 3)[2] == fence()[2]);
            }
        }
    }
    r
}

fn without_tag_line_chars(b: &Vec<char>) -> (r: Vec<char>)
    ensures
        r@ == without_tag_line(b@),
{
    let n = find_newline(b, 0);
    assert(b@.subrange(0, b@.len() as int) =~= b@);
    if n < b.len() && n < 20 {
        let mut k: usize = 0;
        while k < n
            invariant
                n < b@.len(),
                n < 20,
                n == first_line_len(b@),
                k <= n,
                forall|j: int| 0 <= j < k ==> b@[j] != ' ',
            decreases n - k,
        {
            if b[k] == ' ' {
                assert(b@.subrange(0, n as int)[k as int] == ' ');
                assert(b@.subrange(0, n as int).contains(' '));
                assert(b@.subrange(0, b@.len() as int) =~= b@);
                return copy_range(b, 0, b.len());
            }
            k = k + 1;
        }
        assert(!b@.subrange(0, n as int).contains(' ')) by {
            if b@.subrange(0, n as int).contains(' ') {
                let j = choose|j: int| 0 <= j < n && b@.subrange(0, n as int)[j] == ' ';
                assert(b@[j] == ' ');
            }
        }
        copy_range(b, n + 1, b.len())
    } else {
        copy_range(b, 0, b.len())
    }
}

/// Generated text with its enclosing fence removed, as characters.
pub fn strip_fence_chars(t: &Vec<char>) -> (r: Vec<char>)
    ensures
        r@ == fence_stripped(t@),
{
    let m = trim_chars(t);
    if m.len() >= 3 && is_fence_at(&m, 0) {
        let a = copy_range(&m, 3, m.len());
        let b = if a.len() >= 3 && is_fence_at(&a, a.len() - 3) {
            copy_range(&a, 0, a.len() - 3)
        } else {
            a
        };
        let c = without_tag_line_chars(&b);
        trim_chars(&c)
    } else {
        m
    }
}

/// Raw generated text with any enclosing markdown fence (and its language tag) removed, and
/// trimmed.
pub fn strip_code_fence(raw: &str) -> (r: String)
    ensures
        r@ == fence_stripped(raw@),
{
    let t = chars_of(raw);
    let r = strip_fence_chars(&t);
    string_of(&r)
}

} // verus!
