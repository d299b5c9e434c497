use std::path::PathBuf;
use vstd::prelude::*;
use vstd::string::StringExecFns;

verus! {

#[verifier::external_type_specification]
#[verifier::external_body]
pub struct ExPathBuf(PathBuf);

/// `std::path::Path::join`: the path of the entry `name` of the directory
/// `dir`. How a path is written depends on the platform, so nothing is
/// said of the result.
#[verifier::external_body]
fn join(dir: &PathBuf, name: &str) -> PathBuf {
    dir.join(name)
}

/// `file` came from joining the directory `dir` with an entry of the name
/// `name`. This records what was handed to the join and no more: the join
/// promises nothing, so nothing follows of the path itself.
pub closed spec fn joins(dir: PathBuf, name: Seq<char>, file: PathBuf) -> bool {
    exists|entry: &str| entry@ == name && #[trigger] call_ensures(join, (&dir, entry), file)
}

/// The path of the entry `name` of the directory `dir`, as the platform
/// writes it. The contract says which directory and which name were
/// joined; of the path it says nothing.
pub fn entry_path(dir: &PathBuf, name: &str) -> (file: PathBuf)
    ensures
        joins(*dir, name@, file),
{
    join(dir, name)
}

/// The name of a file of the index `identifier`: the identifier, then the
/// suffix that tells the files of an index apart.
pub fn file_name(identifier: &str, suffix: &str) -> (name: String)
    ensures
        name@ == identifier@ + suffix@,
{
    let mut name = identifier.to_owned();
    name.append(suffix);
    name
}

} // verus!
