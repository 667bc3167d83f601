//! The immutable configuration the pipeline runs against, and destination
//! path resolution: a source path's position under its watched root is
//! mirrored under the backup root.
use vstd::prelude::*;
use crate::text::{suffix_text, copy_text, append_text};

verus! {

/// The already-parsed configuration: the backup destination root, the ordered
/// watched source roots, and the rescan interval in seconds. Reading and
/// validating the on-disk configuration file is the surrounding process's
/// concern; the pipeline consumes the parsed values.
pub struct Config {
    pub backup_path: Vec<char>,
    pub watch_paths: Vec<Vec<char>>,
    pub fs_refresh_timeout_secs: u64,
}

/// The watched roots as mathematical sequences.
pub open spec fn spec_roots(cfg: Config) -> Seq<Seq<char>> {
    Seq::new(cfg.watch_paths@.len(), |i: int| cfg.watch_paths@[i]@)
}

/// Whether `path` lies at or under the directory `root`: `root` itself, or
/// `root` followed by a `/`-separated remainder.
pub open spec fn under_root(root: Seq<char>, path: Seq<char>) -> bool {
    &&& root.len() <= path.len()
    &&& path.take(root.len() as int) == root
    &&& (path.len() == root.len() || path[root.len() as int] == '/')
}

/// The first watched root (searching from position `i`) that `path` lies
/// under, if any.
pub open spec fn first_root_from(roots: Seq<Seq<char>>, path: Seq<char>, i: int) -> Option<int>
    decreases roots.len() - i,
{
    if i < 0 || i >= roots.len() {
        Option::None
    } else if under_root(roots[i], path) {
        Option::Some(i)
    } else {
        first_root_from(roots, path, i + 1)
    }
}

/// The first watched root that `path` lies under, if any.
pub open spec fn spec_first_root(cfg: Config, path: Seq<char>) -> Option<int> {
    first_root_from(spec_roots(cfg), path, 0)
}

/// The destination a source path mirrors to: the backup root followed by the
/// path's remainder below its watched root. `None` when the path lies under
/// no watched root.
pub open spec fn spec_resolve(cfg: Config, path: Seq<char>) -> Option<Seq<char>> {
    match spec_first_root(cfg, path) {
        Option::Some(i) => Option::Some(
            cfg.backup_path@ + path.skip(spec_roots(cfg)[i].len() as int),
        ),
        Option::None => Option::None,
    }
}

impl Config {
    /// Whether `path` lies at or under the watched root at index `i`.
    fn path_under_root(&self, i: usize, path: &Vec<char>) -> (r: bool)
        requires
            i < self.watch_paths@.len(),
        ensures
            r == under_root(spec_roots(*self)[i as int], path@),
    {
        let root = &self.watch_paths[i];
        if root.len() > path.len() {
            return false;
        }
        let n = root.len();
        let mut k: usize = 0;
        while k < n
            invariant
                k <= n,
                i < self.watch_paths@.len(),
                root@ == spec_roots(*self)[i as int],
                n == root@.len(),
                n <= path@.len(),
                forall|t: int| 0 <= t < k ==> path@[t] == root@[t],
            decreases n - k,
        {
            if path[k] != root[k] {
                proof {
                    assert(path@.take(n as int)[k as int] == path@[k as int]);
                }
                return false;
            }
            k = k + 1;
        }
        proof {
            assert(path@.take(n as int) =~= root@);
        }
        if path.len() == n {
            true
        } else {
            path[n] == '/'
        }
    }

    /// Resolves the destination path a source path mirrors to, or `None` when
    /// the path lies under no watched root.
    pub fn resolve_dest(&self, path: &Vec<char>) -> (r: Option<Vec<char>>)
        ensures
            match r {
                Option::Some(d) => spec_resolve(*self, path@) == Option::Some(d@),
                Option::None => spec_resolve(*self, path@) == Option::<Seq<char>>::None,
            },
    {
        let n = self.watch_paths.len();
        let mut i: usize = 0;
        while i < n
            invariant
                i <= n,
                n == spec_roots(*self).len(),
                spec_first_root(*self, path@) == first_root_from(spec_roots(*self), path@, i as int),
            decreases n - i,
        {
            if self.path_under_root(i, path) {
                let root_len = self.watch_paths[i].len();
                let mut dest = copy_text(&self.backup_path);
                let rest = suffix_text(path, root_len);
                append_text(&mut dest, &rest);
                proof {
                    assert(first_root_from(spec_roots(*self), path@, i as int) == Option::Some(i as int));
                    assert(dest@ == self.backup_path@ + path@.skip(spec_roots(*self)[i as int].len() as int));
                }
                return Option::Some(dest);
            }
            i = i + 1;
        }
        Option::None
    }
}

} // verus!
