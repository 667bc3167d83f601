//! Reconciliation: compare a full walk of the watched trees against the
//! journal and synthesize the observations that repair the drift. The walk
//! itself is filesystem work the surrounding process does; which
//! discrepancies exist, and which observations they become, is decided and
//! verified here. Each observation is then routed through the same
//! `IntentHandler::handle_change` as a live event.
use vstd::prelude::*;
use crate::config::{Config, spec_resolve};
use crate::journal::{EntryModel, Journal, journal_wf, spec_entry_matches};
use crate::text::{copy_text, text_eq};
use crate::types::{FsState, Signature};

verus! {

/// The model of one file the walk found: its path and current signature.
pub open spec fn listing_models(v: Seq<(Vec<char>, Signature)>) -> Seq<(Seq<char>, Signature)> {
    v.map_values(|e: (Vec<char>, Signature)| (e.0@, e.1))
}

/// The models of the synthesized observations.
pub open spec fn obs_models(v: Seq<(Vec<char>, FsState)>) -> Seq<(Seq<char>, FsState)> {
    v.map_values(|e: (Vec<char>, FsState)| (e.0@, e.1))
}

/// Whether the walk found a file at path `p`.
pub open spec fn listing_has(l: Seq<(Seq<char>, Signature)>, p: Seq<char>) -> bool {
    exists|i: int| 0 <= i < l.len() && l[i].0 == p
}

/// Whether a found file disagrees with the journal: it resolves to a
/// destination and the journal does not record exactly its signature and
/// that destination. Files under no watched root are not ours and never
/// discrepant.
pub open spec fn scan_discrepant(cfg: Config, j: Seq<EntryModel>, e: (Seq<char>, Signature)) -> bool {
    match spec_resolve(cfg, e.0) {
        Option::Some(d) => !spec_entry_matches(j, e.0, e.1, d),
        Option::None => false,
    }
}

/// The observations for the found files that disagree with the journal, in
/// walk order: each such file as now observed.
pub open spec fn spec_scan_obs(cfg: Config, j: Seq<EntryModel>, l: Seq<(Seq<char>, Signature)>) -> Seq<(Seq<char>, FsState)>
    decreases l.len(),
{
    if l.len() == 0 {
        Seq::<(Seq<char>, FsState)>::empty()
    } else {
        spec_scan_obs(cfg, j, l.drop_last()) + if scan_discrepant(cfg, j, l.last()) {
            seq![(l.last().0, FsState::File(l.last().1))]
        } else {
            Seq::<(Seq<char>, FsState)>::empty()
        }
    }
}

/// The observations for the journal records whose paths the walk did not
/// find, in journal order: each such path as missing.
pub open spec fn spec_gone_obs(j: Seq<EntryModel>, l: Seq<(Seq<char>, Signature)>) -> Seq<(Seq<char>, FsState)>
    decreases j.len(),
{
    if j.len() == 0 {
        Seq::<(Seq<char>, FsState)>::empty()
    } else {
        spec_gone_obs(j.drop_last(), l) + if !listing_has(l, j.last().path) {
            seq![(j.last().path, FsState::Missing)]
        } else {
            Seq::<(Seq<char>, FsState)>::empty()
        }
    }
}

/// The observations a rescan synthesizes: first the found files that
/// disagree with the journal, then the journal records whose paths are gone.
pub open spec fn spec_rescan(cfg: Config, j: Seq<EntryModel>, l: Seq<(Seq<char>, Signature)>) -> Seq<(Seq<char>, FsState)> {
    spec_scan_obs(cfg, j, l) + spec_gone_obs(j, l)
}

/// Law (crash-consistency, detection — found files): every file the walk
/// found whose journal record disagrees with its current state is
/// synthesized as an observation of that file, so a journal left stale by a
/// crash between execution and flush is caught up by the next rescan.
pub proof fn lemma_rescan_covers_file(cfg: Config, j: Seq<EntryModel>, l: Seq<(Seq<char>, Signature)>, i: int)
    requires
        0 <= i < l.len(),
        scan_discrepant(cfg, j, l[i]),
    ensures
        spec_rescan(cfg, j, l).contains((l[i].0, FsState::File(l[i].1))),
{
    lemma_scan_obs_covers(cfg, j, l, i);
    let x = (l[i].0, FsState::File(l[i].1));
    let w = choose|w: int| 0 <= w < spec_scan_obs(cfg, j, l).len() && spec_scan_obs(cfg, j, l)[w] == x;
    assert(spec_rescan(cfg, j, l)[w] == x);
}

proof fn lemma_scan_obs_covers(cfg: Config, j: Seq<EntryModel>, l: Seq<(Seq<char>, Signature)>, i: int)
    requires
        0 <= i < l.len(),
        scan_discrepant(cfg, j, l[i]),
    ensures
        spec_scan_obs(cfg, j, l).contains((l[i].0, FsState::File(l[i].1))),
    decreases l.len(),
{
    let x = (l[i].0, FsState::File(l[i].1));
    if i == l.len() - 1 {
        assert(l.last() == l[i]);
        let part = spec_scan_obs(cfg, j, l.drop_last());
        assert(spec_scan_obs(cfg, j, l)[part.len() as int] == x);
    } else {
        assert(l.drop_last()[i] == l[i]);
        lemma_scan_obs_covers(cfg, j, l.drop_last(), i);
        let part = spec_scan_obs(cfg, j, l.drop_last());
        let w = choose|w: int| 0 <= w < part.len() && part[w] == x;
        assert(spec_scan_obs(cfg, j, l)[w] == x);
    }
}

/// Law (crash-consistency, detection — vanished paths): every journal record
/// whose path the walk no longer found is synthesized as a missing-path
/// observation, so a deletion that outran the journal is caught up by the
/// next rescan.
pub proof fn lemma_rescan_covers_gone(cfg: Config, j: Seq<EntryModel>, l: Seq<(Seq<char>, Signature)>, i: int)
    requires
        0 <= i < j.len(),
        !listing_has(l, j[i].path),
    ensures
        spec_rescan(cfg, j, l).contains((j[i].path, FsState::Missing)),
{
    lemma_gone_obs_covers(j, l, i);
    let x = (j[i].path, FsState::Missing);
    let part = spec_scan_obs(cfg, j, l);
    let w = choose|w: int| 0 <= w < spec_gone_obs(j, l).len() && spec_gone_obs(j, l)[w] == x;
    assert(spec_rescan(cfg, j, l)[part.len() + w] == x);
}

proof fn lemma_gone_obs_covers(j: Seq<EntryModel>, l: Seq<(Seq<char>, Signature)>, i: int)
    requires
        0 <= i < j.len(),
        !listing_has(l, j[i].path),
    ensures
        spec_gone_obs(j, l).contains((j[i].path, FsState::Missing)),
    decreases j.len(),
{
    let x = (j[i].path, FsState::Missing);
    if i == j.len() - 1 {
        assert(j.last() == j[i]);
        let part = spec_gone_obs(j.drop_last(), l);
        assert(spec_gone_obs(j, l)[part.len() as int] == x);
    } else {
        assert(j.drop_last()[i] == j[i]);
        lemma_gone_obs_covers(j.drop_last(), l, i);
        let part = spec_gone_obs(j.drop_last(), l);
        let w = choose|w: int| 0 <= w < part.len() && part[w] == x;
        assert(spec_gone_obs(j, l)[w] == x);
    }
}

proof fn lemma_scan_obs_elems(cfg: Config, j: Seq<EntryModel>, l: Seq<(Seq<char>, Signature)>)
    ensures
        forall|w: int| 0 <= w < spec_scan_obs(cfg, j, l).len() ==> exists|i: int|
            0 <= i < l.len() && #[trigger] spec_scan_obs(cfg, j, l)[w] == (l[i].0, FsState::File(l[i].1))
                && scan_discrepant(cfg, j, l[i]),
    decreases l.len(),
{
    if l.len() > 0 {
        lemma_scan_obs_elems(cfg, j, l.drop_last());
        let part = spec_scan_obs(cfg, j, l.drop_last());
        assert forall|w: int| 0 <= w < spec_scan_obs(cfg, j, l).len() implies exists|i: int|
            0 <= i < l.len() && #[trigger] spec_scan_obs(cfg, j, l)[w] == (l[i].0, FsState::File(l[i].1))
                && scan_discrepant(cfg, j, l[i]) by {
            if w < part.len() {
                let i = choose|i: int|
                    0 <= i < l.drop_last().len() && part[w] == (l.drop_last()[i].0, FsState::File(
                        l.drop_last()[i].1,
                    )) && scan_discrepant(cfg, j, l.drop_last()[i]);
                assert(l.drop_last()[i] == l[i]);
                assert(spec_scan_obs(cfg, j, l)[w] == part[w]);
                assert(0 <= i < l.len() && spec_scan_obs(cfg, j, l)[w] == (l[i].0, FsState::File(l[i].1))
                    && scan_discrepant(cfg, j, l[i]));
            } else {
                let i = l.len() - 1;
                assert(scan_discrepant(cfg, j, l[i]));
                assert(spec_scan_obs(cfg, j, l)[w] == (l[i].0, FsState::File(l[i].1)));
            }
        }
    }
}

proof fn lemma_gone_obs_elems(j: Seq<EntryModel>, l: Seq<(Seq<char>, Signature)>)
    ensures
        forall|w: int| 0 <= w < spec_gone_obs(j, l).len() ==> exists|i: int|
            0 <= i < j.len() && #[trigger] spec_gone_obs(j, l)[w] == (j[i].path, FsState::Missing)
                && !listing_has(l, j[i].path),
    decreases j.len(),
{
    if j.len() > 0 {
        lemma_gone_obs_elems(j.drop_last(), l);
        let part = spec_gone_obs(j.drop_last(), l);
        assert forall|w: int| 0 <= w < spec_gone_obs(j, l).len() implies exists|i: int|
            0 <= i < j.len() && #[trigger] spec_gone_obs(j, l)[w] == (j[i].path, FsState::Missing)
                && !listing_has(l, j[i].path) by {
            if w < part.len() {
                let i = choose|i: int|
                    0 <= i < j.drop_last().len() && part[w] == (j.drop_last()[i].path, FsState::Missing)
                        && !listing_has(l, j.drop_last()[i].path);
                assert(j.drop_last()[i] == j[i]);
                assert(spec_gone_obs(j, l)[w] == part[w]);
                assert(0 <= i < j.len() && spec_gone_obs(j, l)[w] == (j[i].path, FsState::Missing)
                    && !listing_has(l, j[i].path));
            } else {
                let i = j.len() - 1;
                assert(!listing_has(l, j[i].path));
                assert(spec_gone_obs(j, l)[w] == (j[i].path, FsState::Missing));
            }
        }
    }
}

/// The observations a rescan synthesizes name each path at most once: the
/// found-file part follows the walk (one entry per path), the vanished part
/// follows the journal (one record per path), and no path is in both.
pub proof fn lemma_rescan_obs_distinct(cfg: Config, j: Seq<EntryModel>, l: Seq<(Seq<char>, Signature)>)
    requires
        journal_wf(j),
        forall|a: int, b: int| 0 <= a < b < l.len() ==> (#[trigger] l[a]).0 != (#[trigger] l[b]).0,
    ensures
        forall|a: int, b: int| 0 <= a < b < spec_rescan(cfg, j, l).len() ==>
            (#[trigger] spec_rescan(cfg, j, l)[a]).0 != (#[trigger] spec_rescan(cfg, j, l)[b]).0,
{
    lemma_scan_obs_elems(cfg, j, l);
    lemma_gone_obs_elems(j, l);
    lemma_scan_obs_distinct(cfg, j, l);
    lemma_gone_obs_distinct(j, l);
    let s = spec_scan_obs(cfg, j, l);
    let g = spec_gone_obs(j, l);
    let r = spec_rescan(cfg, j, l);
    assert forall|a: int, b: int| 0 <= a < b < r.len() implies (#[trigger] r[a]).0 != (#[trigger] r[b]).0 by {
        if b < s.len() {
            assert(r[a] == s[a] && r[b] == s[b]);
        } else if a >= s.len() {
            assert(r[a] == g[a - s.len()] && r[b] == g[b - s.len()]);
        } else {
            assert(r[a] == s[a] && r[b] == g[b - s.len()]);
            let ia = choose|i: int|
                0 <= i < l.len() && s[a] == (l[i].0, FsState::File(l[i].1)) && scan_discrepant(cfg, j, l[i]);
            let ib = choose|i: int|
                0 <= i < j.len() && g[b - s.len()] == (j[i].path, FsState::Missing)
                    && !listing_has(l, j[i].path);
            if r[a].0 == r[b].0 {
                assert(listing_has(l, j[ib].path)) by {
                    assert(l[ia].0 == j[ib].path);
                }
            }
        }
    }
}

proof fn lemma_scan_obs_distinct(cfg: Config, j: Seq<EntryModel>, l: Seq<(Seq<char>, Signature)>)
    requires
        forall|a: int, b: int| 0 <= a < b < l.len() ==> (#[trigger] l[a]).0 != (#[trigger] l[b]).0,
    ensures
        forall|a: int, b: int| 0 <= a < b < spec_scan_obs(cfg, j, l).len() ==>
            (#[trigger] spec_scan_obs(cfg, j, l)[a]).0 != (#[trigger] spec_scan_obs(cfg, j, l)[b]).0,
    decreases l.len(),
{
    if l.len() > 0 {
        assert(forall|a: int, b: int| 0 <= a < b < l.drop_last().len() ==>
            (#[trigger] l.drop_last()[a]).0 != (#[trigger] l.drop_last()[b]).0);
        lemma_scan_obs_distinct(cfg, j, l.drop_last());
        lemma_scan_obs_elems(cfg, j, l.drop_last());
        let part = spec_scan_obs(cfg, j, l.drop_last());
        let whole = spec_scan_obs(cfg, j, l);
        assert forall|a: int, b: int| 0 <= a < b < whole.len() implies
            (#[trigger] whole[a]).0 != (#[trigger] whole[b]).0 by {
            if b < part.len() {
                assert(whole[a] == part[a] && whole[b] == part[b]);
            } else {
                assert(whole[b] == (l.last().0, FsState::File(l.last().1)));
                assert(whole[a] == part[a]);
                let i = choose|i: int|
                    0 <= i < l.drop_last().len() && part[a] == (l.drop_last()[i].0, FsState::File(
                        l.drop_last()[i].1,
                    )) && scan_discrepant(cfg, j, l.drop_last()[i]);
                assert(l[i].0 != l[l.len() - 1].0);
            }
        }
    }
}

proof fn lemma_gone_obs_distinct(j: Seq<EntryModel>, l: Seq<(Seq<char>, Signature)>)
    requires
        journal_wf(j),
    ensures
        forall|a: int, b: int| 0 <= a < b < spec_gone_obs(j, l).len() ==>
            (#[trigger] spec_gone_obs(j, l)[a]).0 != (#[trigger] spec_gone_obs(j, l)[b]).0,
    decreases j.len(),
{
    if j.len() > 0 {
        assert(forall|a: int, b: int| 0 <= a < b < j.drop_last().len() ==>
            j.drop_last()[a].path != j.drop_last()[b].path);
        lemma_gone_obs_distinct(j.drop_last(), l);
        lemma_gone_obs_elems(j.drop_last(), l);
        let part = spec_gone_obs(j.drop_last(), l);
        let whole = spec_gone_obs(j, l);
        assert forall|a: int, b: int| 0 <= a < b < whole.len() implies
            (#[trigger] whole[a]).0 != (#[trigger] whole[b]).0 by {
            if b < part.len() {
                assert(whole[a] == part[a] && whole[b] == part[b]);
            } else {
                assert(whole[b] == (j.last().path, FsState::Missing));
                assert(whole[a] == part[a]);
                let i = choose|i: int|
                    0 <= i < j.drop_last().len() && part[a] == (j.drop_last()[i].path, FsState::Missing)
                        && !listing_has(l, j.drop_last()[i].path);
                assert(j[i].path != j[j.len() - 1].path);
            }
        }
    }
}

/// Law (crash-consistency): after a crash between execution and flush the
/// reloaded journal is merely stale. One full rescan — synthesize the
/// observations, route each through the handler, record each completion —
/// brings the record of every file the walk found to exactly its live
/// signature and resolved destination, whatever the stale journal held.
pub proof fn lemma_rescan_converges_file(cfg: Config, j: Seq<EntryModel>, l: Seq<(Seq<char>, Signature)>, i: int)
    requires
        journal_wf(j),
        forall|a: int, b: int| 0 <= a < b < l.len() ==> (#[trigger] l[a]).0 != (#[trigger] l[b]).0,
        0 <= i < l.len(),
        spec_resolve(cfg, l[i].0) is Some,
    ensures
        crate::journal::spec_lookup(
            crate::handler::spec_process(cfg, j, spec_rescan(cfg, j, l)),
            l[i].0,
        ) == Option::Some((l[i].1, spec_resolve(cfg, l[i].0)->Some_0)),
{
    let r = spec_rescan(cfg, j, l);
    lemma_rescan_obs_distinct(cfg, j, l);
    if scan_discrepant(cfg, j, l[i]) {
        lemma_rescan_covers_file(cfg, j, l, i);
        let w = choose|w: int| 0 <= w < r.len() && r[w] == (l[i].0, FsState::File(l[i].1));
        crate::handler::lemma_process_pointwise(cfg, j, r, w);
    } else {
        // the journal already records the live state, and no synthesized
        // observation names this path, so processing leaves it untouched
        lemma_scan_obs_elems(cfg, j, l);
        lemma_gone_obs_elems(j, l);
        let s = spec_scan_obs(cfg, j, l);
        let g = spec_gone_obs(j, l);
        assert forall|a: int| 0 <= a < r.len() implies (#[trigger] r[a]).0 != l[i].0 by {
            if a < s.len() {
                assert(r[a] == s[a]);
                let ia = choose|w: int|
                    0 <= w < l.len() && s[a] == (l[w].0, FsState::File(l[w].1)) && scan_discrepant(cfg, j, l[w]);
                if l[ia].0 == l[i].0 {
                    assert(ia == i) by {
                        if ia < i {
                            assert(l[ia].0 != l[i].0);
                        }
                        if ia > i {
                            assert(l[i].0 != l[ia].0);
                        }
                    }
                }
            } else {
                assert(r[a] == g[a - s.len()]);
                let ia = choose|w: int|
                    0 <= w < j.len() && g[a - s.len()] == (j[w].path, FsState::Missing)
                        && !listing_has(l, j[w].path);
                if j[ia].path == l[i].0 {
                    assert(listing_has(l, j[ia].path));
                }
            }
        }
        crate::handler::lemma_process_frame(cfg, j, r, l[i].0);
    }
}

/// Law (crash-consistency, deletions): the same single rescan drops the
/// journal record of every resolvable path the walk no longer found.
pub proof fn lemma_rescan_converges_gone(cfg: Config, j: Seq<EntryModel>, l: Seq<(Seq<char>, Signature)>, i: int)
    requires
        journal_wf(j),
        forall|a: int, b: int| 0 <= a < b < l.len() ==> (#[trigger] l[a]).0 != (#[trigger] l[b]).0,
        0 <= i < j.len(),
        !listing_has(l, j[i].path),
        spec_resolve(cfg, j[i].path) is Some,
    ensures
        !crate::journal::has_entry(
            crate::handler::spec_process(cfg, j, spec_rescan(cfg, j, l)),
            j[i].path,
        ),
{
    let r = spec_rescan(cfg, j, l);
    lemma_rescan_obs_distinct(cfg, j, l);
    lemma_rescan_covers_gone(cfg, j, l, i);
    let w = choose|w: int| 0 <= w < r.len() && r[w] == (j[i].path, FsState::Missing);
    crate::handler::lemma_process_pointwise(cfg, j, r, w);
}

/// Whether the walk listing holds an entry for path `p`.
fn listing_contains(listing: &Vec<(Vec<char>, Signature)>, p: &Vec<char>) -> (r: bool)
    ensures
        r == listing_has(listing_models(listing@), p@),
{
    let n = listing.len();
    let mut i: usize = 0;
    while i < n
        invariant
            i <= n,
            n == listing@.len(),
            forall|k: int| 0 <= k < i ==> listing_models(listing@)[k].0 != p@,
        decreases n - i,
    {
        if text_eq(&listing[i].0, p) {
            proof {
                assert(listing_models(listing@)[i as int].0 == p@);
            }
            return true;
        }
        i = i + 1;
    }
    false
}

/// Walks the comparison a rescan makes: every found file against its journal
/// record, every journal record against the walk. The synthesized
/// observations come back in a stable order — changed and new files in walk
/// order, then vanished paths in journal order — ready to be routed through
/// `IntentHandler::handle_change` one by one.
pub fn rescan_observations(cfg: &Config, journal: &Journal, listing: &Vec<(Vec<char>, Signature)>) -> (obs: Vec<(Vec<char>, FsState)>)
    requires
        journal_wf(journal@),
    ensures
        obs_models(obs@) == spec_rescan(*cfg, journal@, listing_models(listing@)),
{
    let mut obs: Vec<(Vec<char>, FsState)> = Vec::new();

    let n = listing.len();
    let mut i: usize = 0;
    proof {
        assert(listing_models(listing@).take(0) =~= Seq::<(Seq<char>, Signature)>::empty());
        assert(obs_models(obs@) =~= spec_scan_obs(*cfg, journal@, listing_models(listing@).take(0)));
    }
    while i < n
        invariant
            i <= n,
            n == listing@.len(),
            journal_wf(journal@),
            obs_models(obs@) == spec_scan_obs(*cfg, journal@, listing_models(listing@).take(i as int)),
        decreases n - i,
    {
        let ghost l = listing_models(listing@);
        let p = &listing[i].0;
        let sig = listing[i].1;
        let ghost prev = obs_models(obs@);
        proof {
            assert(l[i as int] == (listing@[i as int].0@, listing@[i as int].1));
        }
        match cfg.resolve_dest(p) {
            Option::Some(d) => {
                if !journal.entry_matches(p, &sig, &d) {
                    obs.push((copy_text(p), FsState::File(sig)));
                    proof {
                        assert(scan_discrepant(*cfg, journal@, l[i as int]));
                        assert(obs_models(obs@) =~= prev.push((l[i as int].0, FsState::File(l[i as int].1))));
                    }
                } else {
                    proof {
                        assert(!scan_discrepant(*cfg, journal@, l[i as int]));
                        assert(obs_models(obs@) =~= prev);
                    }
                }
            }
            Option::None => {
                proof {
                    assert(!scan_discrepant(*cfg, journal@, l[i as int]));
                    assert(obs_models(obs@) =~= prev);
                }
            }
        }
        proof {
            assert(l.take((i + 1) as int).drop_last() =~= l.take(i as int));
            assert(l.take((i + 1) as int).last() == l[i as int]);
            assert(obs_models(obs@) =~= spec_scan_obs(*cfg, journal@, l.take((i + 1) as int)));
        }
        i = i + 1;
    }
    proof {
        assert(listing_models(listing@).take(n as int) =~= listing_models(listing@));
    }

    let ghost first_part = obs_models(obs@);
    let m = journal.num_entries();
    let mut k: usize = 0;
    proof {
        assert(journal@.take(0) =~= Seq::<EntryModel>::empty());
        assert(obs_models(obs@) =~= first_part + spec_gone_obs(
            journal@.take(0),
            listing_models(listing@),
        ));
    }
    while k < m
        invariant
            k <= m,
            m == journal@.len(),
            first_part == spec_scan_obs(*cfg, journal@, listing_models(listing@)),
            obs_models(obs@) == first_part + spec_gone_obs(
                journal@.take(k as int),
                listing_models(listing@),
            ),
        decreases m - k,
    {
        let ghost l = listing_models(listing@);
        let path = &journal.entries[k].0;
        let ghost prev = obs_models(obs@);
        proof {
            assert(journal@[k as int].path == journal.entries@[k as int].0@);
        }
        if !listing_contains(listing, path) {
            obs.push((copy_text(path), FsState::Missing));
            proof {
                assert(!listing_has(l, journal@[k as int].path));
                assert(obs_models(obs@) =~= prev.push((journal@[k as int].path, FsState::Missing)));
            }
        } else {
            proof {
                assert(listing_has(l, journal@[k as int].path));
                assert(obs_models(obs@) =~= prev);
            }
        }
        proof {
            assert(journal@.take((k + 1) as int).drop_last() =~= journal@.take(k as int));
            assert(journal@.take((k + 1) as int).last() == journal@[k as int]);
            assert(obs_models(obs@) =~= first_part + spec_gone_obs(journal@.take((k + 1) as int), l));
        }
        k = k + 1;
    }
    proof {
        assert(journal@.take(m as int) =~= journal@);
        assert(obs_models(obs@) =~= spec_rescan(*cfg, journal@, listing_models(listing@)));
    }
    obs
}

} // verus!
