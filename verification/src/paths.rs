//! Store locations, modelled as plain path strings: the global store under
//! the configured home directory, and the project store under the `.codex`
//! directory of a repository root that an outside lookup discovered.
//! The caller performs the lookup and all file access.
use vstd::prelude::*;
use vstd::string::StringExecFns;

verus! {

/// The global store: the fixed file name under the home directory.
pub open spec fn global_memories_path_spec(codex_home: Seq<char>) -> Seq<char> {
    codex_home + "/memories.md"@
}

/// The project store: the same file name under the project-level dot
/// directory at the repository root.
pub open spec fn repo_memories_path_spec(repo_root: Seq<char>) -> Seq<char> {
    repo_root + "/.codex/memories.md"@
}

/// The project store's path when a repository root was found, nothing
/// otherwise.
pub open spec fn repo_path_opt(root: Option<Seq<char>>) -> Option<Seq<char>> {
    match root {
        Some(s) => Some(repo_memories_path_spec(s)),
        None => None,
    }
}

/// The project-scoped store location for a discovered repository root.
pub fn repo_memories_path(repo_root: &Option<String>) -> (r: Option<String>)
    ensures
        r.deep_view() == repo_path_opt(repo_root.deep_view()),
{
    match repo_root {
        Some(root) => {
            let mut p = String::new();
            p.append(root.as_str());
            p.append("/.codex/memories.md");
            Some(p)
        },
        None => None,
    }
}

/// The read set: the global store first, then the project store when a
/// repository root was found and its path differs from the global one.
pub open spec fn memory_paths_spec(home: Seq<char>, root: Option<Seq<char>>) -> Seq<Seq<char>> {
    let g = global_memories_path_spec(home);
    match root {
        Some(s) => if repo_memories_path_spec(s) != g {
            seq![g, repo_memories_path_spec(s)]
        } else {
            seq![g]
        },
        None => seq![g],
    }
}

/// The store paths a reader consults, in read order.
pub fn memory_paths(codex_home: &str, repo_root: &Option<String>) -> (r: Vec<String>)
    ensures
        r.deep_view() == memory_paths_spec(codex_home@, repo_root.deep_view()),
{
    let mut g = String::new();
    g.append(codex_home);
    g.append("/memories.md");
    let ghost gv = g@;
    let mut r: Vec<String> = Vec::new();
    match repo_root {
        Some(root) => {
            let mut p = String::new();
            p.append(root.as_str());
            p.append("/.codex/memories.md");
            let ghost pv = p@;
            let differs = !(p == g);
            r.push(g);
            if differs {
                r.push(p);
                assert(r.deep_view() =~~= seq![gv, pv]);
            } else {
                assert(r.deep_view() =~~= seq![gv]);
            }
        },
        None => {
            r.push(g);
            assert(r.deep_view() =~~= seq![gv]);
        },
    }
    r
}

/// The write target: the project store when a repository root was found,
/// else the global store.
pub open spec fn memory_write_path_spec(home: Seq<char>, root: Option<Seq<char>>) -> Seq<char> {
    match root {
        Some(s) => repo_memories_path_spec(s),
        None => global_memories_path_spec(home),
    }
}

/// Where a new batch of notes is appended.
pub fn memory_write_path(codex_home: &str, repo_root: &Option<String>) -> (r: String)
    ensures
        r@ == memory_write_path_spec(codex_home@, repo_root.deep_view()),
{
    match repo_root {
        Some(root) => {
            let mut p = String::new();
            p.append(root.as_str());
            p.append("/.codex/memories.md");
            p
        },
        None => {
            let mut g = String::new();
            g.append(codex_home);
            g.append("/memories.md");
            g
        },
    }
}

} // verus!
