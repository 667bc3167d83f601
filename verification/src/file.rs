//! The file handler: turns an intent into the concrete destination-tree
//! operations to perform. Executing them — copying bytes, removing files,
//! creating directories — is filesystem work the surrounding process does;
//! which operations run, on which paths, and in which order is decided and
//! verified here.
use vstd::prelude::*;
use crate::intent::{Intent, IntentKind, IntentModel};
use crate::text::copy_text;

verus! {

/// One concrete operation against the destination tree.
pub enum FileOp {
    /// Create this directory (and its missing parents).
    EnsureDir(Vec<char>),
    /// Copy the source file's bytes over the destination path.
    CopyFile(Vec<char>, Vec<char>),
    /// Remove the destination path.
    RemoveFile(Vec<char>),
}

/// The mathematical model of a file operation.
pub enum FileOpModel {
    EnsureDir(Seq<char>),
    CopyFile(Seq<char>, Seq<char>),
    RemoveFile(Seq<char>),
}

impl View for FileOp {
    type V = FileOpModel;

    open spec fn view(&self) -> FileOpModel {
        match self {
            FileOp::EnsureDir(d) => FileOpModel::EnsureDir(d@),
            FileOp::CopyFile(s, d) => FileOpModel::CopyFile(s@, d@),
            FileOp::RemoveFile(d) => FileOpModel::RemoveFile(d@),
        }
    }
}

/// The models of a sequence of file operations.
pub open spec fn op_models(v: Seq<FileOp>) -> Seq<FileOpModel> {
    v.map_values(|op: FileOp| op@)
}

/// How many characters of `s` belong to its parent directory: everything
/// before the last `/`, or nothing when `s` holds no `/`.
pub open spec fn parent_len(s: Seq<char>) -> int
    decreases s.len(),
{
    if s.len() == 0 {
        0
    } else if s[s.len() - 1] == '/' {
        s.len() - 1
    } else {
        parent_len(s.take(s.len() - 1))
    }
}

/// The parent directory of a path: its characters before the last `/`.
pub open spec fn spec_parent(s: Seq<char>) -> Seq<char> {
    s.take(parent_len(s))
}

/// `parent_len` is a valid cut of `s`.
pub proof fn lemma_parent_len_bounds(s: Seq<char>)
    ensures
        0 <= parent_len(s) <= s.len(),
    decreases s.len(),
{
    if s.len() != 0 && s[s.len() - 1] != '/' {
        lemma_parent_len_bounds(s.take(s.len() - 1));
    }
}

/// The operations that execute an intent: a copy first makes sure the
/// destination's parent directory exists, then copies the bytes; a delete
/// removes the destination file; a directory intent creates the destination
/// directory itself.
pub open spec fn spec_plan(m: IntentModel) -> Seq<FileOpModel> {
    match m.kind {
        IntentKind::CopyUpdate(_) => seq![
            FileOpModel::EnsureDir(spec_parent(m.dest)),
            FileOpModel::CopyFile(m.source, m.dest),
        ],
        IntentKind::Delete => seq![FileOpModel::RemoveFile(m.dest)],
        IntentKind::CreateDir => seq![FileOpModel::EnsureDir(m.dest)],
    }
}

/// Executes backup operations against the destination tree — or rather,
/// plans them: the surrounding process performs each planned operation and
/// reports success or failure back to the intent handler.
pub struct FileHandler {}

impl FileHandler {
    pub fn new() -> FileHandler {
        FileHandler {}
    }

    /// The parent directory of `path`: its characters before the last `/`.
    pub fn parent_dir(path: &Vec<char>) -> (r: Vec<char>)
        ensures
            r@ == spec_parent(path@),
    {
        proof {
            lemma_parent_len_bounds(path@);
        }
        let n = path.len();
        proof {
            assert(path@.take(n as int) =~= path@);
        }
        let mut j: usize = n;
        while j > 0
            invariant
                j <= n,
                n == path@.len(),
                parent_len(path@) == parent_len(path@.take(j as int)),
                forall|t: int| j <= t < n ==> path@[t] != '/',
            decreases j,
        {
            if path[j - 1] == '/' {
                proof {
                    assert(path@.take(j as int)[j - 1] == path@[j - 1]);
                    assert(parent_len(path@.take(j as int)) == j - 1);
                }
                let mut r: Vec<char> = Vec::new();
                let mut t: usize = 0;
                while t < j - 1
                    invariant
                        t <= j - 1,
                        j <= n,
                        n == path@.len(),
                        r@ == path@.take((j - 1) as int).take(t as int),
                    decreases j - 1 - t,
                {
                    r.push(path[t]);
                    proof {
                        assert(r@ =~= path@.take((j - 1) as int).take((t + 1) as int));
                    }
                    t = t + 1;
                }
                proof {
                    assert(path@.take((j - 1) as int).take((j - 1) as int) =~= path@.take((j - 1) as int));
                }
                return r;
            }
            proof {
                let tj = path@.take(j as int);
                assert(tj[j - 1] == path@[j - 1]);
                assert(tj.take(j - 1) =~= path@.take(j - 1));
            }
            j = j - 1;
        }
        proof {
            assert(path@.take(0) =~= Seq::<char>::empty());
            assert(parent_len(path@) == 0);
            assert(spec_parent(path@) =~= Seq::<char>::empty());
        }
        Vec::new()
    }

    /// Plans the destination-tree operations that execute `intent`, in order.
    pub fn plan(&self, intent: &Intent) -> (r: Vec<FileOp>)
        ensures
            op_models(r@) == spec_plan(intent@),
    {
        let mut r: Vec<FileOp> = Vec::new();
        match &intent.kind {
            IntentKind::CopyUpdate(_) => {
                r.push(FileOp::EnsureDir(Self::parent_dir(&intent.dest)));
                r.push(FileOp::CopyFile(copy_text(&intent.source), copy_text(&intent.dest)));
            }
            IntentKind::Delete => {
                r.push(FileOp::RemoveFile(copy_text(&intent.dest)));
            }
            IntentKind::CreateDir => {
                r.push(FileOp::EnsureDir(copy_text(&intent.dest)));
            }
        }
        proof {
            assert(op_models(r@) =~= spec_plan(intent@));
        }
        r
    }
}

} // verus!
