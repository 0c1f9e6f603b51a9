use vstd::prelude::*;
use vstd::string::*;
use crate::explorer::Explorer;

verus! {

/// What a shell argument becomes after shell-like expansion: a leading `~`
/// turns into `home`, and each variable into the value that `variable`
/// gives for it under `focused` and `input`.
pub uninterp spec fn expanded_arg(
    arg: Seq<char>,
    home: Option<Seq<char>>,
    focused: Option<Seq<char>>,
    input: Option<Seq<char>>,
) -> Seq<char>;

pub open spec fn opt_view(o: Option<String>) -> Option<Seq<char>> {
    match o {
        Some(s) => Some(s@),
        None => None,
    }
}

/// A command ready to run: the program and its expanded arguments.
pub struct ShCommand {
    pub command: String,
    pub args: Vec<String>,
}

/// Whether `a` and `b` hold the same characters.
fn same_text(a: &str, b: &str) -> (r: bool)
    ensures
        r == (a@ == b@),
{
    let la = a.unicode_len();
    let lb = b.unicode_len();
    if la != lb {
        return false;
    }
    let mut i: usize = 0;
    while i < la
        invariant
            la == a@.len(),
            lb == b@.len(),
            la == lb,
            i <= la,
            forall|k: int| 0 <= k < i ==> a@[k] == b@[k],
        decreases la - i,
    {
        if a.get_char(i) != b.get_char(i) {
            return false;
        }
        i = i + 1;
    }
    assert(a@ =~= b@);
    true
}

fn clone_opt(o: &Option<String>) -> (r: Option<String>)
    ensures
        opt_view(r) == opt_view(*o),
{
    match o {
        Some(s) => Some(s.clone()),
        None => None,
    }
}

/// The value of variable `name` in a shell argument: the focused path for
/// `FOCUSED`, the text captured by a prompt for `INPUT`, and none for any
/// other name.
pub fn variable(name: &str, focused: &Option<String>, input: &Option<String>) -> (r: Option<
    String,
>)
    ensures
        name@ == "FOCUSED"@ ==> opt_view(r) == opt_view(*focused),
        name@ == "INPUT"@ ==> opt_view(r) == opt_view(*input),
        name@ != "FOCUSED"@ && name@ != "INPUT"@ ==> r is None,
{
    proof {
        reveal_strlit("FOCUSED");
        reveal_strlit("INPUT");
        assert("FOCUSED"@.len() != "INPUT"@.len());
    }
    if same_text(name, "FOCUSED") {
        clone_opt(focused)
    } else if same_text(name, "INPUT") {
        clone_opt(input)
    } else {
        None
    }
}

/// Relies on shellexpand::full_with_context_no_errors: the expansion depends
/// on the argument, the home directory and the variable values alone, and an
/// argument with no `$` and no leading `~` comes back as it was.
#[verifier::external_body]
fn expand_arg(arg: &String, home: &Option<String>, focused: &Option<String>, input: &Option<
    String,
>) -> (r: String)
    ensures
        r@ == expanded_arg(arg@, opt_view(*home), opt_view(*focused), opt_view(*input)),
        !arg@.contains('$') && !(arg@.len() > 0 && arg@[0] == '~') ==> r@ == arg@,
{
    shellexpand::full_with_context_no_errors(
        arg,
        || home.as_ref(),
        |name: &str| variable(name, focused, input),
    ).into_owned()
}

/// Prepares a shell action: expands each argument with the user's home
/// directory `home`, the explorer's focused path (none in an empty tree) and
/// the text `input` that a prompt captured, if any.
pub fn handle_sh(
    explorer: &Explorer,
    command: String,
    args: Vec<String>,
    home: Option<String>,
    input: Option<String>,
) -> (r: ShCommand)
    requires
        explorer.wf(),
    ensures
        r.command == command,
        r.args@.len() == args@.len(),
        forall|i: int|
            0 <= i < args@.len() ==> (#[trigger] r.args@[i])@ == expanded_arg(
                args@[i]@,
                opt_view(home),
                if explorer@.entries.len() > 0 {
                    Some(explorer@.entries[explorer@.selected].path@)
                } else {
                    None
                },
                opt_view(input),
            ),
{
    let focused = if explorer.len() > 0 {
        Some(explorer.focused_path())
    } else {
        None
    };
    let mut out: Vec<String> = Vec::new();
    let mut i: usize = 0;
    while i < args.len()
        invariant
            i <= args@.len(),
            out@.len() == i,
            opt_view(focused) == (if explorer@.entries.len() > 0 {
                Some(explorer@.entries[explorer@.selected].path@)
            } else {
                None
            }),
            forall|k: int|
                0 <= k < i ==> (#[trigger] out@[k])@ == expanded_arg(
                    args@[k]@,
                    opt_view(home),
                    opt_view(focused),
                    opt_view(input),
                ),
        decreases args@.len() - i,
    {
        let a = expand_arg(&args[i], &home, &focused, &input);
        out.push(a);
        i = i + 1;
    }
    ShCommand { command, args: out }
}

} // verus!
