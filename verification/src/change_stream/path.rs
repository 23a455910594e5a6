//! Where the files of a change stream lie.
use vstd::prelude::*;

verus! {

/// The change log of the heap file at `path`.
#[must_use]
pub fn heap_change_log_path(path: &str) -> (log: String)
    ensures
        log@ == path@ + ".change"@,
{
    let mut log: String = String::new();
    log.append(path);
    log.append(".change");
    assert(log@ =~= path@ + ".change"@);
    log
}

/// The path of `name` in the directory `root`: a separator stands between
/// them, unless the root is empty or ends with one.
pub open spec fn joined(root: Seq<char>, name: Seq<char>) -> Seq<char> {
    if root.len() == 0 || root.last() == '/' {
        root + name
    } else {
        root + seq!['/'] + name
    }
}

/// The change log of the log-structured storage in the directory `root`.
#[must_use]
pub fn lsm_change_log_path(root: &str) -> (log: String)
    ensures
        log@ == joined(root@, "change.nbcl"@),
{
    let mut log: String = String::new();
    log.append(root);
    assert(log@ =~= root@);
    let length: usize = root.unicode_len();
    if length != 0 && root.get_char(length - 1) != '/' {
        proof {
            reveal_strlit("/");
        }
        log.append("/");
        assert("/"@ =~= seq!['/']);
    }
    log.append("change.nbcl");
    log
}

/// The file that guards the enabled change log at `path`.
#[must_use]
pub fn change_stream_guard_path(path: &str) -> (guard: String)
    ensures
        guard@ == path@ + ".active"@,
{
    let mut guard: String = String::new();
    guard.append(path);
    guard.append(".active");
    assert(guard@ =~= path@ + ".active"@);
    guard
}

} // verus!
