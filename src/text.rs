use vstd::prelude::*;
use vstd::string::StringExecFns;

verus! {

/// Relies on `String::push`: appends the character at the end.
#[verifier::external_body]
pub(crate) fn push_char(s: &mut String, c: char)
    ensures
        final(s)@ == old(s)@.push(c),
{
    s.push(c)
}

/// `label` followed by the characters of `tail`.
pub fn joined(label: &str, tail: &Vec<char>) -> (r: String)
    ensures
        r@ == label@ + tail@,
{
    let mut r = String::from_str(label);
    let mut k: usize = 0;
    while k < tail.len()
        invariant
            k <= tail@.len(),
            r@ == label@ + tail@.take(k as int),
        decreases tail@.len() - k,
    {
        push_char(&mut r, tail[k]);
        assert(tail@.take(k + 1) =~= tail@.take(k as int).push(tail@[k as int]));
        k = k + 1;
    }
    assert(tail@.take(tail@.len() as int) =~= tail@);
    r
}

/// The help text of the command-line program: its two subcommands.
pub open spec fn usage_text() -> Seq<char> {
    "Usage: ./prefix-tree <SUBCOMMAND>\nSUBCOMMANDS\n    dot               Dump the Trie into a Graphviz dot file.\n    complete <prefix> Suggest prefix autocompletion based on the Trie\n"@
}

/// The help text of the command-line program.
pub fn usage() -> (r: String)
    ensures
        r@ == usage_text(),
{
    String::from_str(
        "Usage: ./prefix-tree <SUBCOMMAND>\nSUBCOMMANDS\n    dot               Dump the Trie into a Graphviz dot file.\n    complete <prefix> Suggest prefix autocompletion based on the Trie\n",
    )
}

} // verus!
