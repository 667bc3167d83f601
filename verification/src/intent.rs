//! Intents — resolved, not-yet-executed backup operations — and the
//! `IntentList`, the ordered queue that holds at most one pending intent per
//! source path and coalesces a newer observation into an older unexecuted one.
use vstd::prelude::*;
use crate::types::Signature;
use crate::text::text_eq;
use vstd::pervasive::VecAdditionalExecFns;

verus! {

/// The operation an intent requests against the destination tree.
#[derive(Clone, Copy, PartialEq, Eq, Structural, Debug)]
pub enum IntentKind {
    /// Copy the source file's bytes over the destination path (create or
    /// update); the signature is the one observed on the source file.
    CopyUpdate(Signature),
    /// Remove the destination path.
    Delete,
    /// Create the destination directory.
    CreateDir,
}

/// A resolved backup operation for one source path.
pub struct Intent {
    pub kind: IntentKind,
    pub source: Vec<char>,
    pub dest: Vec<char>,
}

/// The mathematical model of an intent.
pub struct IntentModel {
    pub kind: IntentKind,
    pub source: Seq<char>,
    pub dest: Seq<char>,
}

impl View for Intent {
    type V = IntentModel;

    open spec fn view(&self) -> IntentModel {
        IntentModel { kind: self.kind, source: self.source@, dest: self.dest@ }
    }
}

/// Whether some intent in `s` is for the source path `p`.
pub open spec fn has_path(s: Seq<IntentModel>, p: Seq<char>) -> bool {
    exists|i: int| 0 <= i < s.len() && s[i].source == p
}

/// The index of the intent for source path `p` (unique when `list_wf` holds).
pub open spec fn index_of_path(s: Seq<IntentModel>, p: Seq<char>) -> int {
    choose|i: int| 0 <= i < s.len() && s[i].source == p
}

/// Well-formedness: no two pending intents share a source path.
pub open spec fn list_wf(s: Seq<IntentModel>) -> bool {
    forall|i: int, j: int| 0 <= i < j < s.len() ==> s[i].source != s[j].source
}

/// The effect of pushing an intent: a pending intent for the same path is
/// superseded in place (its queue position is kept), otherwise the intent is
/// appended.
pub open spec fn spec_push(s: Seq<IntentModel>, m: IntentModel) -> Seq<IntentModel> {
    if has_path(s, m.source) {
        s.update(index_of_path(s, m.source), m)
    } else {
        s.push(m)
    }
}

/// An ordered, deduplicating queue of pending intents, keyed by source path:
/// at most one pending intent per path, in the order first observed.
pub struct IntentList {
    pub items: Vec<Intent>,
}

/// The models of a sequence of intents.
pub open spec fn intent_models(v: Seq<Intent>) -> Seq<IntentModel> {
    v.map_values(|it: Intent| it@)
}

impl View for IntentList {
    type V = Seq<IntentModel>;

    open spec fn view(&self) -> Seq<IntentModel> {
        intent_models(self.items@)
    }
}

impl IntentList {
    /// An empty queue.
    pub fn new() -> (r: IntentList)
        ensures
            r@ == Seq::<IntentModel>::empty(),
    {
        let r = IntentList { items: Vec::new() };
        proof {
            assert(r@ =~= Seq::<IntentModel>::empty());
        }
        r
    }

    /// How many intents are pending.
    pub fn len(&self) -> (r: usize)
        ensures
            r == self@.len(),
    {
        self.items.len()
    }

    /// Inserts `intent`, or coalesces it with the pending intent for the same
    /// path: the newer operation wins, the queue position is kept.
    pub fn push(&mut self, intent: Intent)
        requires
            list_wf(old(self)@),
        ensures
            final(self)@ == spec_push(old(self)@, intent@),
            list_wf(final(self)@),
    {
        let n = self.items.len();
        let mut i: usize = 0;
        while i < n
            invariant
                i <= n,
                n == self@.len(),
                list_wf(self@),
                *self == *old(self),
                forall|k: int| 0 <= k < i ==> self@[k].source != intent@.source,
            decreases n - i,
        {
            if text_eq(&self.items[i].source, &intent.source) {
                proof {
                    assert(self@[i as int].source == intent@.source);
                    assert(has_path(self@, intent@.source));
                    let j = index_of_path(self@, intent@.source);
                    assert(0 <= j < self@.len() && self@[j].source == intent@.source);
                    assert(j == i as int);
                }
                self.items.set(i, intent);
                proof {
                    assert(self@ =~= spec_push(old(self)@, intent@));
                }
                return;
            }
            i = i + 1;
        }
        proof {
            assert(!has_path(self@, intent@.source));
        }
        self.items.push(intent);
        proof {
            assert(self@ =~= old(self)@.push(intent@));
        }
    }

    /// Hands out every pending intent, in the order first observed, and
    /// leaves the queue empty: a one-shot drain.
    pub fn drain(&mut self) -> (r: Vec<Intent>)
        ensures
            intent_models(r@) == old(self)@,
            final(self)@ == Seq::<IntentModel>::empty(),
    {
        let mut taken: Vec<Intent> = Vec::new();
        core::mem::swap(&mut taken, &mut self.items);
        proof {
            assert(self@ =~= Seq::<IntentModel>::empty());
        }
        taken
    }
}

/// Law (coalescing): a newer intent supersedes an older unexecuted one for
/// the same path. In particular, pushing a create-intent and then a
/// delete-intent for one path before a drain leaves the queue exactly as if
/// only the delete-intent had been pushed: a single pending delete for that
/// path.
pub proof fn lemma_push_supersedes(s: Seq<IntentModel>, a: IntentModel, b: IntentModel)
    requires
        list_wf(s),
        a.source == b.source,
    ensures
        spec_push(spec_push(s, a), b) =~= spec_push(s, b),
{
    if has_path(s, a.source) {
        let i = index_of_path(s, a.source);
        assert(0 <= i < s.len() && s[i].source == a.source);
        let t = s.update(i, a);
        assert(t[i].source == b.source);
        assert(has_path(t, b.source));
        let j = index_of_path(t, b.source);
        assert(0 <= j < t.len() && t[j].source == b.source);
        assert(j == i) by {
            if j != i {
                assert(t[j] == s[j]);
            }
        }
        let k = index_of_path(s, b.source);
        assert(0 <= k < s.len() && s[k].source == b.source);
        assert(k == i);
    } else {
        let t = s.push(a);
        assert(t[s.len() as int].source == b.source);
        assert(has_path(t, b.source));
        let j = index_of_path(t, b.source);
        assert(0 <= j < t.len() && t[j].source == b.source);
        assert(j == s.len() as int) by {
            if j < s.len() {
                assert(t[j] == s[j]);
                assert(has_path(s, a.source));
            }
        }
        assert(!has_path(s, b.source));
    }
}

/// Law (per-path serialization): a well-formed queue never holds two intents
/// for one path, so a drain hands out at most one operation per path and the
/// pipeline never has two operations for a path in flight from one drain.
pub proof fn lemma_at_most_one_per_path(s: Seq<IntentModel>, i: int, j: int)
    requires
        list_wf(s),
        0 <= i < s.len(),
        0 <= j < s.len(),
        i != j,
    ensures
        s[i].source != s[j].source,
{
}

} // verus!
