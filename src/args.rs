use vstd::prelude::*;

use crate::text::{chars_of, equals_str, starts_with, starts_with_str};

verus! {

/// What a command line asks of the tool. An amend is a variant of generation: the message
/// is generated from the commit being amended, never bypassed for it.
#[derive(Clone, Copy, Debug, PartialEq, Eq, Structural)]
pub struct Invocation {
    /// The user supplies the message (or asks for help): commit with the arguments as given.
    pub bypass: bool,
    /// `-a` / `--all`: tracked changes that are not staged go into the commit too.
    pub include_all: bool,
    /// `-s` / `--signoff`: a sign-off trailer is added to the message.
    pub signoff: bool,
    /// `--amend`: the commit being amended is described.
    pub amend: bool,
}

/// A flag that bypasses generation by itself: help, version, a fixup or squash, or a flag
/// that names the message's source with its value inline (`--flag=value`).
pub open spec fn bypasses_alone(a: Seq<char>) -> bool {
    ||| a == "--fixup"@
    ||| a == "--squash"@
    ||| a == "--help"@
    ||| a == "-h"@
    ||| a == "--version"@
    ||| starts_with(a, "--fixup="@)
    ||| starts_with(a, "--squash="@)
    ||| starts_with(a, "--message="@)
    ||| starts_with(a, "--file="@)
    ||| starts_with(a, "--reuse-message="@)
    ||| starts_with(a, "--reedit-message="@)
}

/// A flag that names the message's source in the argument after it.
pub open spec fn takes_next_value(a: Seq<char>) -> bool {
    ||| a == "-m"@
    ||| a == "-F"@
    ||| a == "-C"@
    ||| a == "-c"@
    ||| a == "--message"@
    ||| a == "--file"@
    ||| a == "--reuse-message"@
    ||| a == "--reedit-message"@
}

/// The argument at `i` bypasses generation: by itself, or as a flag whose value follows it.
pub open spec fn bypasses_at(args: Seq<Seq<char>>, i: int) -> bool {
    bypasses_alone(args[i]) || (takes_next_value(args[i]) && i + 1 < args.len())
}

/// Some argument is `short` or `long`.
pub open spec fn has_flag(args: Seq<Seq<char>>, short: Seq<char>, long: Seq<char>) -> bool {
    exists|i: int| 0 <= i < args.len() && (args[i] == short || args[i] == long)
}

/// Some argument is `flag`.
pub open spec fn has_arg(args: Seq<Seq<char>>, flag: Seq<char>) -> bool {
    exists|i: int| 0 <= i < args.len() && args[i] == flag
}

/// The characters of each argument.
pub open spec fn args_view(args: Seq<String>) -> Seq<Seq<char>> {
    args.map_values(|a: String| a@)
}

fn bypasses(a: &Vec<char>, has_next: bool) -> (r: bool)
    ensures
        r == (bypasses_alone(a@) || (takes_next_value(a@) && has_next)),
{
    let alone = equals_str(a, "--fixup") || equals_str(a, "--squash") || equals_str(a, "--help")
        || equals_str(a, "-h") || equals_str(a, "--version") || starts_with_str(a, "--fixup=")
        || starts_with_str(a, "--squash=") || starts_with_str(a, "--message=")
        || starts_with_str(a, "--file=") || starts_with_str(a, "--reuse-message=")
        || starts_with_str(a, "--reedit-message=");
    let valued = equals_str(a, "-m") || equals_str(a, "-F") || equals_str(a, "-C")
        || equals_str(a, "-c") || equals_str(a, "--message") || equals_str(a, "--file")
        || equals_str(a, "--reuse-message") || equals_str(a, "--reedit-message");
    alone || (valued && has_next)
}

/// Classifies the arguments given to the tool (without the program's name).
pub fn classify_args(args: &Vec<String>) -> (r: Invocation)
    ensures
        r.bypass == exists|i: int| 0 <= i < args@.len() && bypasses_at(args_view(args@), i),
        r.include_all == has_flag(args_view(args@), "-a"@, "--all"@),
        r.signoff == has_flag(args_view(args@), "-s"@, "--signoff"@),
        r.amend == has_arg(args_view(args@), "--amend"@),
{
    let ghost v = args_view(args@);
    let mut r = Invocation { bypass: false, include_all: false, signoff: false, amend: false };
    let mut i: usize = 0;
    while i < args.len()
        invariant
            i <= args@.len(),
            v == args_view(args@),
            v.len() == args@.len(),
            r.bypass == exists|k: int| 0 <= k < i && bypasses_at(v, k),
            r.include_all == exists|k: int| 0 <= k < i && (v[k] == "-a"@ || v[k] == "--all"@),
            r.signoff == exists|k: int| 0 <= k < i && (v[k] == "-s"@ || v[k] == "--signoff"@),
            r.amend == exists|k: int| 0 <= k < i && v[k] == "--amend"@,
        decreases args@.len() - i,
    {
        let a = chars_of(args[i].as_str());
        assert(a@ == v[i as int]);
        let b = bypasses(&a, i + 1 < args.len());
        assert(b == bypasses_at(v, i as int));
        if b {
            r.bypass = true;
        } else {
            assert forall|k: int| 0 <= k < i + 1 && bypasses_at(v, k) implies k < i by {}
        }
        if equals_str(&a, "-a") || equals_str(&a, "--all") {
            r.include_all = true;
        }
        if equals_str(&a, "-s") || equals_str(&a, "--signoff") {
            r.signoff = true;
        }
        if equals_str(&a, "--amend") {
            r.amend = true;
        }
        i = i + 1;
    }
    r
}

} // verus!
