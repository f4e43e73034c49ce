//! The table of active watches: which script each inotify watch runs.

use vstd::prelude::*;
use std::collections::HashMap;

use nix::sys::inotify::{Inotify, WatchDescriptor};
use vstd::std_specs::hash::spec_hash_map_iter;
use vstd::std_specs::iter::IteratorSpec;

verus! {

broadcast use vstd::std_specs::hash::group_hash_axioms;

/// One active watch: its descriptor and the script its events run.
pub struct WatchEntry {
    pub wd: WatchDescriptor,
    pub script: Vec<u8>,
}

/// The inotify instance and the watches added to it. Watches are keyed by
/// the raw number of their descriptor (`WatchDescriptor::as_raw`).
///
/// After a watched object is moved, deleted or unmounted its entry stays
/// in the table, but the kernel reports no further events for it; events
/// queued before that are still handled.
pub struct InotifyState {
    pub inotify_fd: Inotify,
    pub wd_to_script: HashMap<i32, WatchEntry>,
}

impl InotifyState {
    /// The script of each active watch, by watch number.
    pub open spec fn scripts(&self) -> Map<i32, Seq<u8>> {
        self.wd_to_script@.map_values(|e: WatchEntry| e.script@)
    }

    /// The descriptor and the script of each active watch, by watch number.
    pub open spec fn watches(&self) -> Map<i32, (WatchDescriptor, Seq<u8>)> {
        self.wd_to_script@.map_values(|e: WatchEntry| (e.wd, e.script@))
    }

    /// A state with no watches on the given inotify instance.
    pub fn new(inotify_fd: Inotify) -> (state: InotifyState)
        ensures
            state.inotify_fd == inotify_fd,
            state.wd_to_script@ == Map::<i32, WatchEntry>::empty(),
    {
        InotifyState { inotify_fd, wd_to_script: HashMap::new() }
    }

    /// Records that the watch `wd`, numbered `key`, runs `script`; a watch
    /// already recorded under that number is replaced (the kernel hands out
    /// the same descriptor again when an object is watched twice).
    pub fn record_watch(&mut self, key: i32, wd: WatchDescriptor, script: Vec<u8>)
        ensures
            final(self).inotify_fd == old(self).inotify_fd,
            final(self).wd_to_script@ == old(self).wd_to_script@.insert(key, WatchEntry { wd, script }),
            final(self).watches() == old(self).watches().insert(key, (wd, script@)),
    {
        let ghost s = script@;
        self.wd_to_script.insert(key, WatchEntry { wd, script });
        assert(self.watches() =~= old(self).watches().insert(key, (wd, s)));
    }

    /// Records the watches that a fill added: `outcomes[i]` is what adding
    /// a watch for `requests[i]` gave, the number and descriptor of the
    /// watch, or `None` when adding it failed (a missing outcome counts as a
    /// failure). Each added watch runs the script of its request; a later
    /// watch with the number of an earlier one replaces it; failures record
    /// nothing.
    pub fn record_fill(&mut self, requests: &Vec<WatchRequest>, outcomes: Vec<Option<(i32, WatchDescriptor)>>)
        ensures
            final(self).inotify_fd == old(self).inotify_fd,
            final(self).watches() == record_all(old(self).watches(), fill_successes(requests_view(requests@), outcomes@)),
    {
        let ghost reqs = requests_view(requests@);
        let n = requests.len();
        let mut i: usize = 0;
        assert(reqs.take(0) =~= Seq::<(Seq<u8>, u32, Seq<u8>)>::empty());
        while i < n
            invariant
                n == requests@.len(),
                reqs == requests_view(requests@),
                i <= n,
                self.inotify_fd == old(self).inotify_fd,
                self.watches() == record_all(old(self).watches(), fill_successes(reqs.take(i as int), outcomes@)),
            decreases n - i,
        {
            assert(reqs.take(i + 1).drop_last() == reqs.take(i as int));
            assert(reqs.take(i + 1).last() == reqs[i as int]);
            let ghost prev = fill_successes(reqs.take(i as int), outcomes@);
            let outcome = if i < outcomes.len() { outcomes[i] } else { None };
            assert(outcome == outcome_at(outcomes@, i as int));
            match outcome {
                Some((key, wd)) => {
                    let copy = requests[i].script.clone();
                    assert(copy@ =~= reqs[i as int].2);
                    self.record_watch(key, wd, copy);
                    let ghost next = prev.push((key, (wd, reqs[i as int].2)));
                    assert(fill_successes(reqs.take(i + 1), outcomes@) == next);
                    assert(next.drop_last() =~= prev);
                    assert(record_all(old(self).watches(), next)
                        == record_all(old(self).watches(), prev).insert(key, (wd, reqs[i as int].2)));
                },
                None => {
                    assert(fill_successes(reqs.take(i + 1), outcomes@) == prev);
                },
            }
            i = i + 1;
        }
        assert(reqs.take(n as int) == reqs);
    }

    /// The script of the watch numbered `key`, if there is such a watch.
    pub fn script_for(&self, key: i32) -> (script: Option<&Vec<u8>>)
        ensures
            match script {
                Some(s) => self.wd_to_script@.contains_key(key) && s@ == self.scripts()[key],
                None => !self.wd_to_script@.contains_key(key),
            },
    {
        match self.wd_to_script.get(&key) {
            Some(e) => Some(&e.script),
            None => None,
        }
    }

    /// The number of active watches.
    pub fn watch_count(&self) -> (count: usize)
        ensures
            count == self.wd_to_script@.len(),
    {
        self.wd_to_script.len()
    }

    /// Forgets every watch, and gives back the number and descriptor of
    /// each, one pair per watch, so that each can be removed from the
    /// inotify instance.
    pub fn del_watches(&mut self) -> (removed: Vec<(i32, WatchDescriptor)>)
        ensures
            final(self).inotify_fd == old(self).inotify_fd,
            final(self).wd_to_script@ == Map::<i32, WatchEntry>::empty(),
            removed@.len() == old(self).wd_to_script@.len(),
            removed@.map_values(|p: (i32, WatchDescriptor)| p.0).no_duplicates(),
            removed@.map_values(|p: (i32, WatchDescriptor)| p.0).to_set() == old(self).wd_to_script@.dom(),
            forall|i: int| 0 <= i < removed@.len() ==> {
                &&& old(self).wd_to_script@.contains_key(#[trigger] removed@[i].0)
                &&& old(self).wd_to_script@[removed@[i].0].wd == removed@[i].1
            },
    {
        let mut removed: Vec<(i32, WatchDescriptor)> = Vec::new();
        let ghost m = self.wd_to_script@;
        let ghost all = spec_hash_map_iter(&self.wd_to_script).remaining();
        let iter = self.wd_to_script.iter();
        assert(all.no_duplicates());
        for pair in it: iter
            invariant
                it.seq() == all,
                removed@.len() == it.index(),
                forall|i: int| 0 <= i < it.index() ==> {
                    &&& (#[trigger] removed@[i]).0 == *it.seq()[i].0
                    &&& removed@[i].1 == (*it.seq()[i].1).wd
                },
        {
            let (key, entry) = pair;
            removed.push((*key, entry.wd));
        }
        proof {
            let keys = removed@.map_values(|p: (i32, WatchDescriptor)| p.0);
            assert(all.len() == m.dom().len());
            assert forall|i: int, j: int| 0 <= i < keys.len() && 0 <= j < keys.len() && i != j
                implies keys[i] != keys[j] by {
                if keys[i] == keys[j] {
                    assert(m[*all[i].0] == *all[i].1);
                    assert(m[*all[j].0] == *all[j].1);
                    assert(all[i] == all[j]);
                }
            }
            assert forall|k: i32| #[trigger] m.dom().contains(k) implies keys.contains(k) by {
                assert(all.contains((&k, &m[k])));
                let i = choose|i: int| 0 <= i < all.len() && all[i] == (&k, &m[k]);
                assert(keys[i] == k);
            }
            assert(keys.to_set() =~= m.dom());
        }
        self.wd_to_script.clear();
        removed
    }
}

/// One watch to add: the object, the mask and the script its events run.
pub struct WatchRequest {
    pub target: Vec<u8>,
    pub mask: u32,
    pub script: Vec<u8>,
}

/// The object, mask and script of each request.
pub open spec fn requests_view(requests: Seq<WatchRequest>) -> Seq<(Seq<u8>, u32, Seq<u8>)> {
    requests.map_values(|r: WatchRequest| (r.target@, r.mask, r.script@))
}

/// The outcome of adding the watch of request `i`; `None`, a failure, when
/// there is none.
pub open spec fn outcome_at(outcomes: Seq<Option<(i32, WatchDescriptor)>>, i: int) -> Option<(i32, WatchDescriptor)> {
    if 0 <= i < outcomes.len() {
        outcomes[i]
    } else {
        None
    }
}

/// The watches a fill records: one per request whose watch could be added,
/// in order, each running the script of its request.
pub open spec fn fill_successes(
    requests: Seq<(Seq<u8>, u32, Seq<u8>)>,
    outcomes: Seq<Option<(i32, WatchDescriptor)>>,
) -> Seq<(i32, (WatchDescriptor, Seq<u8>))>
    decreases requests.len(),
{
    if requests.len() == 0 {
        Seq::empty()
    } else {
        let rest = fill_successes(requests.drop_last(), outcomes);
        match outcome_at(outcomes, requests.len() - 1) {
            Some((key, wd)) => rest.push((key, (wd, requests.last().2))),
            None => rest,
        }
    }
}

/// Adding the watch of request `i` succeeded and gave the number `key`.
pub open spec fn succeeded_as(outcomes: Seq<Option<(i32, WatchDescriptor)>>, i: int, key: i32) -> bool {
    outcome_at(outcomes, i) matches Some(p) && p.0 == key
}

/// One of the first `n` requests gave a watch numbered `key`.
pub open spec fn succeeded_before(outcomes: Seq<Option<(i32, WatchDescriptor)>>, n: int, key: i32) -> bool {
    exists|i: int| 0 <= i < n && #[trigger] succeeded_as(outcomes, i, key)
}

/// The watch table after recording the watches `added`, in order, into
/// `table` with [`InotifyState::record_watch`].
pub open spec fn record_all(
    table: Map<i32, (WatchDescriptor, Seq<u8>)>,
    added: Seq<(i32, (WatchDescriptor, Seq<u8>))>,
) -> Map<i32, (WatchDescriptor, Seq<u8>)>
    decreases added.len(),
{
    if added.len() == 0 {
        table
    } else {
        record_all(table, added.drop_last()).insert(added.last().0, added.last().1)
    }
}

/// The numbers of a list of watches.
pub open spec fn watch_keys(added: Seq<(i32, (WatchDescriptor, Seq<u8>))>) -> Seq<i32> {
    added.map_values(|p: (i32, (WatchDescriptor, Seq<u8>))| p.0)
}

/// Law: recording watches only adds to the table and a later watch with the
/// number of an earlier one decides its script. Every number already in the
/// table stays; the numbers afterwards are the old ones and the new ones; a
/// number not among the new watches keeps its old watch; each new number
/// holds the last watch recorded under it; and the table grows by the
/// number of new distinct numbers it did not hold yet.
pub proof fn law_recording_only_adds_and_later_wins(
    table: Map<i32, (WatchDescriptor, Seq<u8>)>,
    added: Seq<(i32, (WatchDescriptor, Seq<u8>))>,
)
    requires
        table.dom().finite(),
    ensures
        record_all(table, added).dom() == table.dom().union(watch_keys(added).to_set()),
        forall|k: i32| #[trigger] table.contains_key(k) ==> record_all(table, added).contains_key(k),
        forall|k: i32| #[trigger] table.contains_key(k) && !watch_keys(added).contains(k)
            ==> record_all(table, added)[k] == table[k],
        forall|i: int| 0 <= i < added.len() && (forall|j: int| i < j < added.len() ==> added[j].0 != added[i].0)
            ==> record_all(table, added)[(#[trigger] added[i]).0] == added[i].1,
        record_all(table, added).len() == table.len() + watch_keys(added).to_set().difference(table.dom()).len(),
    decreases added.len(),
{
    let keys = watch_keys(added);
    let r = record_all(table, added);
    if added.len() == 0 {
        assert(keys.to_set() =~= Set::<i32>::empty());
        assert(table.dom().union(keys.to_set()) =~= table.dom());
        assert(keys.to_set().difference(table.dom()) =~= Set::<i32>::empty());
    } else {
        let init = added.drop_last();
        let last = added.last();
        let ik = watch_keys(init);
        law_recording_only_adds_and_later_wins(table, init);
        let before = record_all(table, init);
        assert(keys =~= ik.push(last.0));
        assert forall|x: i32| keys.contains(x) <==> (ik.contains(x) || x == last.0) by {
            if keys.contains(x) {
                let k = choose|k: int| 0 <= k < keys.len() && keys[k] == x;
                if k < ik.len() {
                    assert(ik[k] == x);
                }
            }
            if ik.contains(x) {
                let k = choose|k: int| 0 <= k < ik.len() && ik[k] == x;
                assert(keys[k] == x);
            }
            if x == last.0 {
                assert(keys[keys.len() - 1] == x);
            }
        }
        assert(keys.to_set() =~= ik.to_set().insert(last.0));
        assert(r.dom() =~= table.dom().union(keys.to_set()));
        assert forall|k: i32| #[trigger] table.contains_key(k) && !keys.contains(k) implies r[k] == table[k] by {
            assert(!ik.contains(k));
        }
        assert forall|i: int| 0 <= i < added.len() && (forall|j: int| i < j < added.len() ==> added[j].0 != added[i].0)
            implies r[(#[trigger] added[i]).0] == added[i].1 by {
            if i < added.len() - 1 {
                assert(added[i] == init[i]);
                assert(added[added.len() - 1].0 != added[i].0);
                assert forall|j: int| i < j < init.len() implies init[j].0 != init[i].0 by {
                    assert(init[j] == added[j]);
                }
            }
        }
        let nb = ik.to_set().difference(table.dom());
        let na = keys.to_set().difference(table.dom());
        assert(before.dom().finite());
        if before.contains_key(last.0) {
            assert(na =~= nb) by {
                if !table.contains_key(last.0) {
                    assert(ik.to_set().contains(last.0));
                }
            }
            assert(r.dom() =~= before.dom());
        } else {
            assert(!table.contains_key(last.0));
            assert(!ik.to_set().contains(last.0));
            assert(na =~= nb.insert(last.0));
            assert(nb.finite()) by {
                assert(nb.subset_of(before.dom()));
                vstd::set_lib::lemma_set_subset_finite(before.dom(), nb);
            }
        }
    }
}

/// Law: a fill leaves the table that its requests and their outcomes
/// determine. A number is in the table afterwards when, and only when, it
/// was there before or adding one of the requests gave it; a number that
/// no request gave keeps its old watch; and a number holds the watch, with
/// the request's script, of the last request that gave it. A failed
/// request records nothing and does not stop the others from being
/// recorded.
pub proof fn law_fill_builds_the_table(
    table: Map<i32, (WatchDescriptor, Seq<u8>)>,
    requests: Seq<(Seq<u8>, u32, Seq<u8>)>,
    outcomes: Seq<Option<(i32, WatchDescriptor)>>,
)
    ensures
        forall|k: i32| #[trigger] record_all(table, fill_successes(requests, outcomes)).contains_key(k)
            <==> (table.contains_key(k) || succeeded_before(outcomes, requests.len() as int, k)),
        forall|k: i32| #[trigger] table.contains_key(k) && !succeeded_before(outcomes, requests.len() as int, k)
            ==> record_all(table, fill_successes(requests, outcomes))[k] == table[k],
        forall|i: int| 0 <= i < requests.len() && (#[trigger] outcome_at(outcomes, i)) is Some
            && (forall|j: int| i < j < requests.len() ==> !#[trigger] succeeded_as(outcomes, j, outcome_at(outcomes, i).unwrap().0))
            ==> record_all(table, fill_successes(requests, outcomes))[outcome_at(outcomes, i).unwrap().0]
                == (outcome_at(outcomes, i).unwrap().1, requests[i].2),
    decreases requests.len(),
{
    let n = requests.len() as int;
    if n == 0 {
        assert forall|k: i32| !succeeded_before(outcomes, 0, k) by {}
    } else {
        let init = requests.drop_last();
        law_fill_builds_the_table(table, init, outcomes);
        let prev = fill_successes(init, outcomes);
        let before = record_all(table, prev);
        let after = record_all(table, fill_successes(requests, outcomes));
        assert forall|k: i32| succeeded_before(outcomes, n, k)
            <==> (succeeded_before(outcomes, n - 1, k) || succeeded_as(outcomes, n - 1, k)) by {
            if succeeded_before(outcomes, n, k) && !succeeded_as(outcomes, n - 1, k) {
                let i = choose|i: int| 0 <= i < n && #[trigger] succeeded_as(outcomes, i, k);
                assert(succeeded_as(outcomes, i, k));
            }
            if succeeded_before(outcomes, n - 1, k) {
                let i = choose|i: int| 0 <= i < n - 1 && #[trigger] succeeded_as(outcomes, i, k);
                assert(succeeded_as(outcomes, i, k));
            }
            if succeeded_as(outcomes, n - 1, k) {
                assert(succeeded_as(outcomes, n - 1, k));
            }
        }
        match outcome_at(outcomes, n - 1) {
            Some((k0, wd0)) => {
                let next = prev.push((k0, (wd0, requests.last().2)));
                assert(fill_successes(requests, outcomes) == next);
                assert(next.drop_last() =~= prev);
                assert(after == before.insert(k0, (wd0, requests.last().2)));
                assert(succeeded_as(outcomes, n - 1, k0));
                assert forall|i: int| 0 <= i < n && (#[trigger] outcome_at(outcomes, i)) is Some
                    && (forall|j: int| i < j < n ==> !#[trigger] succeeded_as(outcomes, j, outcome_at(outcomes, i).unwrap().0))
                    implies after[outcome_at(outcomes, i).unwrap().0] == (outcome_at(outcomes, i).unwrap().1, requests[i].2) by {
                    let k = outcome_at(outcomes, i).unwrap().0;
                    if i < n - 1 {
                        assert(!succeeded_as(outcomes, n - 1, k));
                        assert(init[i] == requests[i]);
                        assert forall|j: int| i < j < n - 1 implies !#[trigger] succeeded_as(outcomes, j, k) by {
                            assert(!succeeded_as(outcomes, j, k));
                        }
                    }
                }
            },
            None => {
                assert(fill_successes(requests, outcomes) == prev);
                assert forall|k: i32| !#[trigger] succeeded_as(outcomes, n - 1, k) by {}
                assert forall|i: int| 0 <= i < n && (#[trigger] outcome_at(outcomes, i)) is Some
                    && (forall|j: int| i < j < n ==> !#[trigger] succeeded_as(outcomes, j, outcome_at(outcomes, i).unwrap().0))
                    implies after[outcome_at(outcomes, i).unwrap().0] == (outcome_at(outcomes, i).unwrap().1, requests[i].2) by {
                    let k = outcome_at(outcomes, i).unwrap().0;
                    assert(i < n - 1);
                    assert(init[i] == requests[i]);
                    assert forall|j: int| i < j < n - 1 implies !#[trigger] succeeded_as(outcomes, j, k) by {
                        assert(!succeeded_as(outcomes, j, k));
                    }
                }
            },
        }
    }
}

} // verus!
