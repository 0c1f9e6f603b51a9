use vstd::prelude::*;

verus! {

/// Whether glob `pattern` matches `name`; a pattern that fails to parse or
/// to compile matches nothing.
pub uninterp spec fn glob_match(pattern: Seq<char>, name: Seq<char>) -> bool;

/// Relies on globset's `Glob::new`, `GlobSetBuilder::add`,
/// `GlobSetBuilder::build` and `GlobSet::is_match`: whether the pattern,
/// parsed and compiled into a set of one glob, matches the name; a parse or
/// build error (a pattern too large or too deeply nested) is returned, not
/// raised, and reads as no match. The answer depends on the two strings
/// alone.
#[verifier::external_body]
fn glob_is_match(pattern: &String, name: &String) -> (r: bool)
    ensures
        r == glob_match(pattern@, name@),
{
    let glob = match globset::Glob::new(pattern) {
        Ok(glob) => glob,
        Err(_) => return false,
    };
    match globset::GlobSetBuilder::new().add(glob).build() {
        Ok(set) => set.is_match(name),
        Err(_) => false,
    }
}

/// The index of the first pattern of `patterns` that matches file name
/// `name`: the style rules are tried in their order.
pub fn find_match(patterns: &Vec<String>, name: &String) -> (r: Option<usize>)
    ensures
        r matches Some(i) ==> i < patterns@.len() && glob_match(patterns@[i as int]@, name@)
            && forall|k: int| 0 <= k < i ==> !glob_match(#[trigger] patterns@[k]@, name@),
        r is None ==> forall|k: int|
            0 <= k < patterns@.len() ==> !glob_match(#[trigger] patterns@[k]@, name@),
{
    let mut i: usize = 0;
    while i < patterns.len()
        invariant
            i <= patterns@.len(),
            forall|k: int| 0 <= k < i ==> !glob_match(#[trigger] patterns@[k]@, name@),
        decreases patterns@.len() - i,
    {
        if glob_is_match(&patterns[i], name) {
            return Some(i);
        }
        i = i + 1;
    }
    None
}

} // verus!
