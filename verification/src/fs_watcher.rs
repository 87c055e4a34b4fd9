//! Normalizes raw OS change notifications into a deduplicated batch of
//! dirty paths. Bursts for the same path within the debounce window collapse
//! into one entry; an overflow signal (the OS may have dropped events)
//! distrusts the batch entirely and asks for a full rescan of every root.

use vstd::prelude::*;
use crate::path::FsPath;

verus! {

/// One raw notification: which path, and when it arrived.
pub struct RawEvent {
    pub path: FsPath,
    pub timestamp: u64,
}

/// The watcher's configuration: how long a burst may be coalesced.
pub struct FilesystemWatcher {
    pub debounce_window: u64,
}

/// `s` with every later duplicate dropped: the order of first occurrence.
pub open spec fn dedup_paths(s: Seq<Seq<Seq<char>>>) -> Seq<Seq<Seq<char>>>
    decreases s.len(),
{
    if s.len() == 0 {
        s
    } else if dedup_paths(s.drop_last()).contains(s.last()) {
        dedup_paths(s.drop_last())
    } else {
        dedup_paths(s.drop_last()).push(s.last())
    }
}

/// Whether `paths` holds `p`.
pub fn contains_path(paths: &Vec<FsPath>, p: &FsPath) -> (r: bool)
    ensures
        r == paths.deep_view().contains(p@),
{
    let n = paths.len();
    for i in 0..n
        invariant
            n == paths.len(),
            forall|j: int| 0 <= j < i ==> paths.deep_view()[j] != p@,
    {
        if paths[i].path_eq(p) {
            proof {
                assert(paths.deep_view()[i as int] == p@);
            }
            return true;
        }
    }
    false
}

impl FilesystemWatcher {
    pub fn new(debounce_window: u64) -> (r: FilesystemWatcher)
        ensures
            r.debounce_window == debounce_window,
    {
        FilesystemWatcher { debounce_window }
    }

    /// Two notifications for the same path belong to one burst when they
    /// fall within the debounce window of each other.
    pub fn same_burst(&self, earlier: u64, later: u64) -> (r: bool)
        requires
            earlier <= later,
        ensures
            r == (later - earlier <= self.debounce_window),
    {
        later - earlier <= self.debounce_window
    }

    /// Coalesce one debounced batch. On overflow, the dirty set is not to
    /// be trusted: every root is dirty. Otherwise each path appears once,
    /// in order of its first notification.
    pub fn coalesce(&self, events: &Vec<RawEvent>, overflow: bool, roots: &Vec<FsPath>) -> (r:
        Vec<FsPath>)
        ensures
            overflow ==> r.deep_view() == roots.deep_view(),
            !overflow ==> r.deep_view() == dedup_paths(event_paths(events@)),
    {
        if overflow {
            let mut out: Vec<FsPath> = Vec::new();
            let n = roots.len();
            for i in 0..n
                invariant
                    n == roots.len(),
                    out.deep_view().len() == i,
                    forall|j: int| 0 <= j < i ==> out.deep_view()[j] == roots.deep_view()[j],
            {
                out.push(roots[i].clone());
                proof {
                    assert(out.deep_view().last() == roots.deep_view()[i as int]);
                }
            }
            proof {
                assert(out.deep_view() =~= roots.deep_view());
            }
            return out;
        }
        let mut out: Vec<FsPath> = Vec::new();
        let n = events.len();
        proof {
            lemma_event_paths_len(events@);
        }
        for i in 0..n
            invariant
                n == events@.len(),
                out.deep_view() =~= dedup_paths(event_paths(events@).take(i as int)),
        {
            proof {
                lemma_event_paths_index(events@, i as int);
                assert(event_paths(events@).take(i + 1).drop_last() =~= event_paths(
                    events@,
                ).take(i as int));
                assert(event_paths(events@).take(i + 1).last() == event_paths(events@)[i as int]);
            }
            if !contains_path(&out, &events[i].path) {
                let ghost prev = out.deep_view();
                out.push(events[i].path.clone());
                proof {
                    assert(out.deep_view() =~= prev.push(event_paths(events@)[i as int]));
                }
            }
        }
        proof {
            assert(event_paths(events@).take(n as int) =~= event_paths(events@));
        }
        out
    }
}

pub open spec fn event_paths(events: Seq<RawEvent>) -> Seq<Seq<Seq<char>>>
    decreases events,
{
    if events.len() == 0 {
        Seq::empty()
    } else {
        event_paths(events.drop_last()).push(events.last().path@)
    }
}

pub proof fn lemma_event_paths_index(events: Seq<RawEvent>, i: int)
    requires
        0 <= i < events.len(),
    ensures
        event_paths(events).len() == events.len(),
        event_paths(events)[i] == events[i].path@,
    decreases events,
{
    if events.len() > 0 {
        lemma_event_paths_len(events.drop_last());
        if i < events.len() - 1 {
            lemma_event_paths_index(events.drop_last(), i);
            assert(events.drop_last()[i] == events[i]);
        }
    }
}

pub proof fn lemma_event_paths_len(events: Seq<RawEvent>)
    ensures
        event_paths(events).len() == events.len(),
    decreases events,
{
    if events.len() > 0 {
        lemma_event_paths_len(events.drop_last());
    }
}

/// Deduplication is idempotent: a batch that is already coalesced stays as
/// it is, so delivering a batch through the watcher twice cannot split or
/// reorder it.
pub proof fn lemma_dedup_idempotent(s: Seq<Seq<Seq<char>>>)
    ensures
        dedup_paths(dedup_paths(s)) == dedup_paths(s),
    decreases s.len(),
{
    lemma_dedup_no_duplicates(s);
    lemma_dedup_of_unique(dedup_paths(s));
}

/// After deduplication no path occurs twice.
pub proof fn lemma_dedup_no_duplicates(s: Seq<Seq<Seq<char>>>)
    ensures
        forall|i: int, j: int| 0 <= i < j < dedup_paths(s).len()
            ==> dedup_paths(s)[i] != dedup_paths(s)[j],
    decreases s.len(),
{
    if s.len() > 0 {
        lemma_dedup_no_duplicates(s.drop_last());
        let d = dedup_paths(s.drop_last());
        if !d.contains(s.last()) {
            assert forall|i: int, j: int| 0 <= i < j < d.push(s.last()).len() implies d.push(
                s.last(),
            )[i] != d.push(s.last())[j] by {
                if j < d.len() {
                    assert(d.push(s.last())[i] == d[i]);
                    assert(d.push(s.last())[j] == d[j]);
                } else {
                    assert(d.push(s.last())[i] == d[i]);
                    assert(!d.contains(d[i]) ==> false);
                }
            }
        }
    }
}

/// A sequence without duplicates deduplicates to itself.
pub proof fn lemma_dedup_of_unique(s: Seq<Seq<Seq<char>>>)
    requires
        forall|i: int, j: int| 0 <= i < j < s.len() ==> s[i] != s[j],
    ensures
        dedup_paths(s) == s,
    decreases s.len(),
{
    if s.len() > 0 {
        assert forall|i: int, j: int| 0 <= i < j < s.drop_last().len() implies s.drop_last()[i]
            != s.drop_last()[j] by {
            assert(s.drop_last()[i] == s[i]);
            assert(s.drop_last()[j] == s[j]);
        }
        lemma_dedup_of_unique(s.drop_last());
        if s.drop_last().contains(s.last()) {
            let w = choose|w: int| 0 <= w < s.drop_last().len() && s.drop_last()[w] == s.last();
            assert(s[w] == s[s.len() - 1]);
            assert(false);
        }
        assert(dedup_paths(s) =~= s);
    }
}

} // verus!
