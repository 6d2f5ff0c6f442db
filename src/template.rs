use vstd::prelude::*;

use crate::text::{
    chars_of, lines_view, push_str, split_lines, string_of, text_lines, trim, trim_chars,
};
use crate::wrap::append_chars;

verus! {

/// What the text generator is asked, ahead of the diff.
pub const GENERATION_PROMPT: &'static str = "Generate a git commit message for the following changes. Follow these rules strictly:
1. First line is the subject: max 50 characters, imperative mood, no period at end
2. Second line must be blank
3. Body paragraphs start on line 3: wrap all lines at 72 characters
4. The body should explain WHAT changed and WHY (not how)

Output only the commit message, nothing else:

";

/// The whole prompt for a diff: the instructions, then the diff.
pub fn commit_prompt(diff: &str) -> (r: String)
    ensures
        r@ == GENERATION_PROMPT@ + diff@,
{
    let mut out: Vec<char> = Vec::new();
    push_str(&mut out, GENERATION_PROMPT);
    let d = chars_of(diff);
    append_chars(&mut out, &d);
    string_of(&out)
}

/// The sign-off trailer for a committer, from the configured name and e-mail (each trimmed).
pub open spec fn signoff_text(name: Seq<char>, email: Seq<char>) -> Seq<char> {
    "Signed-off-by: "@ + trim(name) + " <"@ + trim(email) + ">\n"@
}

/// The sign-off trailer for the configured `name` and `email`, as the version-control tool
/// printed them.
pub fn signoff_line(name: &str, email: &str) -> (r: String)
    ensures
        r@ == signoff_text(name@, email@),
{
    let mut out: Vec<char> = Vec::new();
    push_str(&mut out, "Signed-off-by: ");
    let n = trim_chars(&chars_of(name));
    append_chars(&mut out, &n);
    push_str(&mut out, " <");
    let e = trim_chars(&chars_of(email));
    append_chars(&mut out, &e);
    push_str(&mut out, ">\n");
    string_of(&out)
}

/// Each line made a comment: `# `, the line, a newline.
pub open spec fn commented(ls: Seq<Seq<char>>) -> Seq<char>
    decreases ls.len(),
{
    if ls.len() == 0 {
        seq![]
    } else {
        commented(ls.drop_last()) + "# "@ + ls.last() + "\n"@
    }
}

/// The branch named in the guidance: the tool's answer trimmed, or `detached HEAD` where it
/// gave none.
pub open spec fn branch_label(branch: Option<Seq<char>>) -> Seq<char> {
    match branch {
        Some(b) => trim(b),
        None => "detached HEAD"@,
    }
}

/// The comment block that guides the editing: how comments and an empty message are treated,
/// the branch, and each line of the short status.
pub open spec fn guidance_text(branch: Option<Seq<char>>, status: Seq<char>) -> Seq<char> {
    "\n# Please enter the commit message for your changes. Lines starting\n"@
        + "# with '#' will be ignored, and an empty message aborts the commit.\n"@ + "#\n"@
        + "# On branch "@ + branch_label(branch) + "\n"@ + "# Changes to be committed:\n"@
        + commented(text_lines(status))
}

/// The characters of an optional string.
pub open spec fn opt_view(o: Option<String>) -> Option<Seq<char>> {
    match o {
        Some(s) => Some(s@),
        None => None,
    }
}

/// The guidance comments for the current `branch` (`None` where the tool could not tell it)
/// and the short `status` listing.
pub fn guidance_block(branch: Option<String>, status: &str) -> (r: String)
    ensures
        r@ == guidance_text(opt_view(branch), status@),
{
    let mut out: Vec<char> = Vec::new();
    push_str(&mut out, "\n# Please enter the commit message for your changes. Lines starting\n");
    push_str(&mut out, "# with '#' will be ignored, and an empty message aborts the commit.\n");
    push_str(&mut out, "#\n");
    push_str(&mut out, "# On branch ");
    match branch {
        Some(b) => {
            let t = trim_chars(&chars_of(b.as_str()));
            append_chars(&mut out, &t);
        },
        None => {
            push_str(&mut out, "detached HEAD");
        },
    }
    push_str(&mut out, "\n");
    push_str(&mut out, "# Changes to be committed:\n");
    let ghost head = out@;
    let lines = split_lines(&chars_of(status));
    let ghost lv = lines_view(lines@);
    let mut k: usize = 0;
    while k < lines.len()
        invariant
            k <= lines@.len(),
            lv == lines_view(lines@),
            out@ == head + commented(lv.take(k as int)),
        decreases lines@.len() - k,
    {
        assert(lv.take(k + 1).drop_last() =~= lv.take(k as int));
        push_str(&mut out, "# ");
        append_chars(&mut out, &lines[k]);
        push_str(&mut out, "\n");
        assert(out@ =~= head + commented(lv.take(k + 1)));
        k = k + 1;
    }
    assert(lv.take(lines@.len() as int) =~= lv);
    string_of(&out)
}

/// The text of the file handed to the editor: the message; a blank line and the sign-off
/// trailer, where there is one; then the guidance comments, where there are any.
pub open spec fn commit_file(
    message: Seq<char>,
    signoff: Option<Seq<char>>,
    guidance: Option<Seq<char>>,
) -> Seq<char> {
    message + match signoff {
        Some(s) => "\n\n"@ + s,
        None => seq![],
    } + match guidance {
        Some(g) => g,
        None => seq![],
    }
}

/// The text of the file handed to the editor.
pub fn commit_file_text(message: &str, signoff: Option<String>, guidance: Option<String>) -> (r:
    String)
    ensures
        r@ == commit_file(message@, opt_view(signoff), opt_view(guidance)),
{
    let mut out = chars_of(message);
    match signoff {
        Some(s) => {
            push_str(&mut out, "\n\n");
            append_chars(&mut out, &chars_of(s.as_str()));
        },
        None => {},
    }
    match guidance {
        Some(g) => {
            append_chars(&mut out, &chars_of(g.as_str()));
        },
        None => {},
    }
    string_of(&out)
}

/// A line that the editor's user sees as a comment: it begins with `#`.
pub open spec fn is_comment(l: Seq<char>) -> bool {
    l.len() > 0 && l[0] == '#'
}

/// The lines of `ls` that are not comments, in order.
pub open spec fn kept_lines(ls: Seq<Seq<char>>) -> Seq<Seq<char>>
    decreases ls.len(),
{
    if ls.len() == 0 {
        seq![]
    } else if is_comment(ls.last()) {
        kept_lines(ls.drop_last())
    } else {
        kept_lines(ls.drop_last()).push(ls.last())
    }
}

/// The lines of `ls` joined with newlines between them.
pub open spec fn joined(ls: Seq<Seq<char>>) -> Seq<char>
    decreases ls.len(),
{
    if ls.len() == 0 {
        seq![]
    } else if ls.len() == 1 {
        ls[0]
    } else {
        joined(ls.drop_last()) + "\n"@ + ls.last()
    }
}

/// The message that an edited file holds: its lines but the comments, joined, trimmed.
pub open spec fn edited_message(s: Seq<char>) -> Seq<char> {
    trim(joined(kept_lines(text_lines(s))))
}

/// The message in the edited file `edited`: comment lines dropped, the rest trimmed. An empty
/// result means the user emptied the message.
pub fn strip_comments(edited: &str) -> (r: String)
    ensures
        r@ == edited_message(edited@),
{
    let lines = split_lines(&chars_of(edited));
    let ghost lv = lines_view(lines@);
    let mut out: Vec<char> = Vec::new();
    let mut any = false;
    let mut k: usize = 0;
    while k < lines.len()
        invariant
            k <= lines@.len(),
            lv == lines_view(lines@),
            out@ == joined(kept_lines(lv.take(k as int))),
            any == (kept_lines(lv.take(k as int)).len() > 0),
        decreases lines@.len() - k,
    {
        let l = &lines[k];
        let ghost t = lv.take(k + 1);
        assert(t.drop_last() =~= lv.take(k as int));
        assert(t.last() == l@);
        let ghost kept = kept_lines(lv.take(k as int));
        if l.len() > 0 && l[0] == '#' {
        } else {
            assert(kept_lines(t) == kept.push(l@));
            assert(kept.push(l@).drop_last() =~= kept);
            if any {
                push_str(&mut out, "\n");
            } else {
                assert(kept.push(l@) =~= seq![l@]);
            }
            append_chars(&mut out, l);
            any = true;
        }
        k = k + 1;
    }
    assert(lv.take(lines@.len() as int) =~= lv);
    string_of(&trim_chars(&out))
}

/// The editor to run: the first of the configured editors that is set (`GIT_EDITOR`, then
/// `VISUAL`, then `EDITOR`), else `fallback`.
pub fn choose_editor(
    git_editor: Option<String>,
    visual: Option<String>,
    editor: Option<String>,
    fallback: &str,
) -> (r: String)
    ensures
        r@ == match (git_editor, visual, editor) {
            (Some(g), _, _) => g@,
            (None, Some(v), _) => v@,
            (None, None, Some(e)) => e@,
            (None, None, None) => fallback@,
        },
{
    match git_editor {
        Some(g) => g,
        None => match visual {
            Some(v) => v,
            None => match editor {
                Some(e) => e,
                None => string_of(&chars_of(fallback)),
            },
        },
    }
}

} // verus!
