//! The journal: the durable record of the last successfully backed-up state
//! of every tracked source path, with dirty-tracking. Mutation happens in
//! memory; persistence is an explicit snapshot (see `snapshot`), written by
//! the surrounding process and acknowledged with `mark_flushed`.
use vstd::prelude::*;
use crate::types::Signature;
use crate::text::text_eq;
use crate::text::copy_text;

verus! {

/// What the journal records for one tracked source path: the signature the
/// last successful backup operation saw, and the destination path it wrote.
pub struct JournalEntry {
    pub sig: Signature,
    pub dest: Vec<char>,
}

/// The mathematical model of one journal record.
pub struct EntryModel {
    pub path: Seq<char>,
    pub sig: Signature,
    pub dest: Seq<char>,
}

/// Whether some record in `s` is for the source path `p`.
pub open spec fn has_entry(s: Seq<EntryModel>, p: Seq<char>) -> bool {
    exists|i: int| 0 <= i < s.len() && s[i].path == p
}

/// The index of the record for path `p` (unique when `journal_wf` holds).
pub open spec fn index_of_entry(s: Seq<EntryModel>, p: Seq<char>) -> int {
    choose|i: int| 0 <= i < s.len() && s[i].path == p
}

/// Well-formedness: each tracked path has exactly one record.
pub open spec fn journal_wf(s: Seq<EntryModel>) -> bool {
    forall|i: int, j: int| 0 <= i < j < s.len() ==> s[i].path != s[j].path
}

/// The effect of recording a successful copy: the record for the path is
/// replaced in place, or appended when the path is new.
pub open spec fn spec_upsert(s: Seq<EntryModel>, m: EntryModel) -> Seq<EntryModel> {
    if has_entry(s, m.path) {
        s.update(index_of_entry(s, m.path), m)
    } else {
        s.push(m)
    }
}

/// The effect of recording a successful delete: the record for the path is
/// removed; absent, the journal is unchanged.
pub open spec fn spec_remove(s: Seq<EntryModel>, p: Seq<char>) -> Seq<EntryModel> {
    if has_entry(s, p) {
        s.remove(index_of_entry(s, p))
    } else {
        s
    }
}

/// The signature and destination recorded for `p`, if any.
pub open spec fn spec_lookup(s: Seq<EntryModel>, p: Seq<char>) -> Option<(Signature, Seq<char>)> {
    if has_entry(s, p) {
        Option::Some(
            (s[index_of_entry(s, p)].sig, s[index_of_entry(s, p)].dest),
        )
    } else {
        Option::None
    }
}

/// Whether the journal records exactly this signature and destination for `p`.
pub open spec fn spec_entry_matches(s: Seq<EntryModel>, p: Seq<char>, sig: Signature, dest: Seq<char>) -> bool {
    spec_lookup(s, p) == Option::Some((sig, dest))
}

/// After a copy is recorded, the journal holds exactly the recorded
/// signature and destination for the path.
pub proof fn lemma_lookup_after_upsert(s: Seq<EntryModel>, m: EntryModel)
    requires
        journal_wf(s),
    ensures
        spec_lookup(spec_upsert(s, m), m.path) == Option::Some((m.sig, m.dest)),
{
    let t = spec_upsert(s, m);
    if has_entry(s, m.path) {
        let i = index_of_entry(s, m.path);
        assert(0 <= i < s.len() && s[i].path == m.path);
        assert(t[i] == m);
        assert(has_entry(t, m.path));
        let j = index_of_entry(t, m.path);
        assert(0 <= j < t.len() && t[j].path == m.path);
        assert(j == i) by {
            if j != i {
                assert(t[j] == s[j]);
            }
        }
    } else {
        assert(t[s.len() as int] == m);
        assert(has_entry(t, m.path));
        let j = index_of_entry(t, m.path);
        assert(0 <= j < t.len() && t[j].path == m.path);
        assert(j == s.len() as int) by {
            if j < s.len() {
                assert(t[j] == s[j]);
                assert(has_entry(s, m.path));
            }
        }
    }
}

/// After a delete is recorded, the journal no longer tracks the path.
pub proof fn lemma_lookup_after_remove(s: Seq<EntryModel>, p: Seq<char>)
    requires
        journal_wf(s),
    ensures
        !has_entry(spec_remove(s, p), p),
{
    if has_entry(s, p) {
        let i = index_of_entry(s, p);
        assert(0 <= i < s.len() && s[i].path == p);
        let t = s.remove(i);
        if has_entry(t, p) {
            let j = index_of_entry(t, p);
            assert(0 <= j < t.len() && t[j].path == p);
            let oj = if j < i { j } else { j + 1 };
            assert(t[j] == s[oj]);
            assert(s[oj].path == p && s[i].path == p && oj != i);
            assert(false);
        }
    }
}

/// Recording one path leaves every other path's record untouched.
pub proof fn lemma_lookup_after_upsert_other(s: Seq<EntryModel>, m: EntryModel, p: Seq<char>)
    requires
        journal_wf(s),
        p != m.path,
    ensures
        spec_lookup(spec_upsert(s, m), p) == spec_lookup(s, p),
{
    let t = spec_upsert(s, m);
    if has_entry(s, m.path) {
        let i = index_of_entry(s, m.path);
        assert(0 <= i < s.len() && s[i].path == m.path);
        assert(forall|w: int| 0 <= w < t.len() && w != i ==> t[w] == s[w]);
        if has_entry(s, p) {
            let q = index_of_entry(s, p);
            assert(0 <= q < s.len() && s[q].path == p);
            assert(q != i);
            assert(t[q] == s[q]);
            assert(has_entry(t, p));
            let q2 = index_of_entry(t, p);
            assert(0 <= q2 < t.len() && t[q2].path == p);
            assert(q2 != i);
            assert(t[q2] == s[q2]);
            assert(q2 == q);
        } else {
            if has_entry(t, p) {
                let q2 = index_of_entry(t, p);
                assert(0 <= q2 < t.len() && t[q2].path == p);
                assert(q2 != i);
                assert(t[q2] == s[q2]);
                assert(has_entry(s, p));
            }
        }
    } else {
        assert(forall|w: int| 0 <= w < s.len() ==> t[w] == s[w]);
        if has_entry(s, p) {
            let q = index_of_entry(s, p);
            assert(t[q] == s[q]);
            assert(has_entry(t, p));
            let q2 = index_of_entry(t, p);
            assert(0 <= q2 < t.len() && t[q2].path == p);
            assert(q2 != s.len() as int);
            assert(t[q2] == s[q2]);
            assert(q2 == q);
        } else {
            if has_entry(t, p) {
                let q2 = index_of_entry(t, p);
                assert(0 <= q2 < t.len() && t[q2].path == p);
                assert(q2 != s.len() as int);
                assert(t[q2] == s[q2]);
                assert(has_entry(s, p));
            }
        }
    }
}

/// Removing one path leaves every other path's record untouched.
pub proof fn lemma_lookup_after_remove_other(s: Seq<EntryModel>, rp: Seq<char>, p: Seq<char>)
    requires
        journal_wf(s),
        p != rp,
    ensures
        spec_lookup(spec_remove(s, rp), p) == spec_lookup(s, p),
{
    if has_entry(s, rp) {
        let i = index_of_entry(s, rp);
        assert(0 <= i < s.len() && s[i].path == rp);
        let t = s.remove(i);
        assert(forall|w: int| 0 <= w < t.len() ==> t[w] == (if w < i { s[w] } else { s[w + 1] }));
        if has_entry(s, p) {
            let q = index_of_entry(s, p);
            assert(0 <= q < s.len() && s[q].path == p);
            assert(q != i);
            let tq = if q < i { q } else { q - 1 };
            assert(t[tq] == s[q]);
            assert(has_entry(t, p));
            let q2 = index_of_entry(t, p);
            assert(0 <= q2 < t.len() && t[q2].path == p);
            let oq2 = if q2 < i { q2 } else { q2 + 1 };
            assert(t[q2] == s[oq2]);
            assert(oq2 == q);
            assert(t[q2] == s[q]);
        } else {
            if has_entry(t, p) {
                let q2 = index_of_entry(t, p);
                assert(0 <= q2 < t.len() && t[q2].path == p);
                let oq2 = if q2 < i { q2 } else { q2 + 1 };
                assert(t[q2] == s[oq2]);
                assert(has_entry(s, p));
            }
        }
    }
}

/// Recording a copy keeps the one-record-per-path invariant.
pub proof fn lemma_upsert_wf(s: Seq<EntryModel>, m: EntryModel)
    requires
        journal_wf(s),
    ensures
        journal_wf(spec_upsert(s, m)),
{
    let t = spec_upsert(s, m);
    if has_entry(s, m.path) {
        let i = index_of_entry(s, m.path);
        assert(0 <= i < s.len() && s[i].path == m.path);
        assert forall|a: int, b: int| 0 <= a < b < t.len() implies t[a].path != t[b].path by {
            assert(t[a] == if a == i { m } else { s[a] });
            assert(t[b] == if b == i { m } else { s[b] });
        }
    } else {
        assert forall|a: int, b: int| 0 <= a < b < t.len() implies t[a].path != t[b].path by {
            if b == s.len() as int {
                assert(t[a] == s[a]);
                assert(t[b] == m);
                if s[a].path == m.path {
                    assert(has_entry(s, m.path));
                }
            } else {
                assert(t[a] == s[a] && t[b] == s[b]);
            }
        }
    }
}

/// Dropping a record keeps the one-record-per-path invariant.
pub proof fn lemma_remove_wf(s: Seq<EntryModel>, p: Seq<char>)
    requires
        journal_wf(s),
    ensures
        journal_wf(spec_remove(s, p)),
{
    if has_entry(s, p) {
        let i = index_of_entry(s, p);
        assert(0 <= i < s.len() && s[i].path == p);
        let t = s.remove(i);
        assert forall|a: int, b: int| 0 <= a < b < t.len() implies t[a].path != t[b].path by {
            let oa = if a < i { a } else { a + 1 };
            let ob = if b < i { b } else { b + 1 };
            assert(t[a] == s[oa]);
            assert(t[b] == s[ob]);
        }
    }
}

/// The in-memory journal: the tracked records in the order first recorded,
/// and the dirty flag, set by any mutation and cleared only when a snapshot
/// write has been acknowledged.
pub struct Journal {
    pub entries: Vec<(Vec<char>, JournalEntry)>,
    pub dirty: bool,
}

/// The models of a sequence of stored records.
pub open spec fn entry_models(v: Seq<(Vec<char>, JournalEntry)>) -> Seq<EntryModel> {
    v.map_values(
        |e: (Vec<char>, JournalEntry)| EntryModel { path: e.0@, sig: e.1.sig, dest: e.1.dest@ },
    )
}

impl View for Journal {
    type V = Seq<EntryModel>;

    open spec fn view(&self) -> Seq<EntryModel> {
        entry_models(self.entries@)
    }
}

impl Journal {
    /// An empty, clean journal.
    pub fn new() -> (r: Journal)
        ensures
            r@ == Seq::<EntryModel>::empty(),
            !r.dirty,
            journal_wf(r@),
    {
        let r = Journal { entries: Vec::new(), dirty: false };
        proof {
            assert(r@ =~= Seq::<EntryModel>::empty());
        }
        r
    }

    /// How many paths the journal tracks.
    pub fn num_entries(&self) -> (r: usize)
        ensures
            r == self@.len(),
    {
        self.entries.len()
    }

    /// True iff a mutation has happened since the last acknowledged flush.
    pub fn is_dirty(&self) -> (r: bool)
        ensures
            r == self.dirty,
    {
        self.dirty
    }

    /// The position of the record for `p`, if the journal tracks it.
    fn find(&self, p: &Vec<char>) -> (r: Option<usize>)
        requires
            journal_wf(self@),
        ensures
            match r {
                Option::Some(i) => i < self@.len() && self@[i as int].path == p@
                    && has_entry(self@, p@) && index_of_entry(self@, p@) == i,
                Option::None => !has_entry(self@, p@),
            },
    {
        let n = self.entries.len();
        let mut i: usize = 0;
        while i < n
            invariant
                i <= n,
                n == self@.len(),
                journal_wf(self@),
                forall|k: int| 0 <= k < i ==> self@[k].path != p@,
            decreases n - i,
        {
            if text_eq(&self.entries[i].0, p) {
                proof {
                    assert(self@[i as int].path == p@);
                    assert(has_entry(self@, p@));
                    let j = index_of_entry(self@, p@);
                    assert(0 <= j < self@.len() && self@[j].path == p@);
                    assert(j == i as int) by {
                        if j < i as int {
                            assert(self@[j].path != p@);
                        }
                        if j > i as int {
                            assert(self@[i as int].path != self@[j].path);
                        }
                    }
                }
                return Option::Some(i);
            }
            i = i + 1;
        }
        Option::None
    }

    /// Whether the journal tracks `p`.
    pub fn contains_path(&self, p: &Vec<char>) -> (r: bool)
        requires
            journal_wf(self@),
        ensures
            r == has_entry(self@, p@),
    {
        match self.find(p) {
            Option::Some(_) => true,
            Option::None => false,
        }
    }

    /// Whether the record for `p` holds exactly this signature and
    /// destination.
    pub fn entry_matches(&self, p: &Vec<char>, sig: &Signature, dest: &Vec<char>) -> (r: bool)
        requires
            journal_wf(self@),
        ensures
            r == spec_entry_matches(self@, p@, *sig, dest@),
    {
        match self.find(p) {
            Option::Some(i) => {
                let e = &self.entries[i].1;
                e.sig.size == sig.size && e.sig.mtime == sig.mtime && text_eq(&e.dest, dest)
            }
            Option::None => false,
        }
    }

    /// The destination recorded for `p`, if the journal tracks it.
    pub fn dest_of(&self, p: &Vec<char>) -> (r: Option<Vec<char>>)
        requires
            journal_wf(self@),
        ensures
            match r {
                Option::Some(d) => spec_lookup(self@, p@) matches Option::Some(l) && l.1 == d@,
                Option::None => !has_entry(self@, p@),
            },
    {
        match self.find(p) {
            Option::Some(i) => Option::Some(copy_text(&self.entries[i].1.dest)),
            Option::None => Option::None,
        }
    }

    /// Records the last backed-up signature and destination for a path and
    /// marks the journal dirty.
    pub fn upsert(&mut self, path: Vec<char>, entry: JournalEntry)
        requires
            journal_wf(old(self)@),
        ensures
            final(self)@ == spec_upsert(
                old(self)@,
                EntryModel { path: path@, sig: entry.sig, dest: entry.dest@ },
            ),
            journal_wf(final(self)@),
            final(self).dirty,
    {
        let ghost m = EntryModel { path: path@, sig: entry.sig, dest: entry.dest@ };
        let found = self.find(&path);
        match found {
            Option::Some(i) => {
                self.entries.set(i, (path, entry));
                self.dirty = true;
                proof {
                    assert(self@ =~= old(self)@.update(index_of_entry(old(self)@, m.path), m));
                }
            }
            Option::None => {
                self.entries.push((path, entry));
                self.dirty = true;
                proof {
                    assert(self@ =~= old(self)@.push(m));
                }
            }
        }
    }

    /// Drops the record for a path; marks the journal dirty iff a record was
    /// actually removed.
    pub fn remove(&mut self, path: &Vec<char>)
        requires
            journal_wf(old(self)@),
        ensures
            final(self)@ == spec_remove(old(self)@, path@),
            journal_wf(final(self)@),
            final(self).dirty == (old(self).dirty || has_entry(old(self)@, path@)),
    {
        let found = self.find(path);
        match found {
            Option::Some(i) => {
                self.entries.remove(i);
                self.dirty = true;
                proof {
                    let i0 = index_of_entry(old(self)@, path@);
                    assert(self@ =~= old(self)@.remove(i0));
                    assert forall|a: int, b: int|
                        0 <= a < b < self@.len() implies self@[a].path != self@[b].path by {
                        let oa = if a < i0 { a } else { a + 1 };
                        let ob = if b < i0 { b } else { b + 1 };
                        assert(self@[a] == old(self)@[oa]);
                        assert(self@[b] == old(self)@[ob]);
                    }
                }
            }
            Option::None => {}
        }
    }

    /// Clears the dirty flag once the surrounding process has written the
    /// snapshot durably; reports how many records the snapshot holds.
    pub fn mark_flushed(&mut self) -> (r: usize)
        ensures
            final(self)@ == old(self)@,
            !final(self).dirty,
            r == old(self)@.len(),
    {
        self.dirty = false;
        self.entries.len()
    }
}

} // verus!
