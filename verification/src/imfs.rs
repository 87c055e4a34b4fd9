//! The in-memory mirror of the watched directory subtrees: the single source
//! of truth for what disk currently looks like. Mutation happens only through
//! `apply_event`, which replaces a whole observed subtree; the observation is
//! what a fresh re-query of the real filesystem reported, so applying the
//! same observation twice leaves the mirror unchanged.

use vstd::prelude::*;
use crate::path::{FsPath, is_prefix_of};

verus! {

/// One mirrored entry: a file's bytes, or a directory's child paths.
pub enum ImfsItem {
    File { contents: Vec<u8> },
    Directory { children: Vec<FsPath> },
}

/// The mathematical value of a mirrored entry.
pub enum IView {
    File(Seq<u8>),
    Directory(Seq<Seq<Seq<char>>>),
}

pub open spec fn item_view(item: ImfsItem) -> IView {
    match item {
        ImfsItem::File { contents } => IView::File(contents@),
        ImfsItem::Directory { children } => IView::Directory(children.deep_view()),
    }
}

impl View for ImfsItem {
    type V = IView;

    open spec fn view(&self) -> IView {
        item_view(*self)
    }
}

/// What one re-query of the real filesystem reported for a path: gone, a
/// file with these bytes, or a directory listing with, per child name, its
/// own recursive observation.
pub enum FsObservation {
    Absent,
    File { contents: Vec<u8> },
    Directory { children: Vec<(String, FsObservation)> },
}

/// The mathematical value of an observation.
pub enum ObsView {
    Absent,
    File(Seq<u8>),
    Directory(Seq<(Seq<char>, ObsView)>),
}

pub open spec fn obs_view(o: FsObservation) -> ObsView
    decreases o,
{
    match o {
        FsObservation::Absent => ObsView::Absent,
        FsObservation::File { contents } => ObsView::File(contents@),
        FsObservation::Directory { children } => ObsView::Directory(obs_views(children@)),
    }
}

pub open spec fn obs_views(cs: Seq<(String, FsObservation)>) -> Seq<(Seq<char>, ObsView)>
    decreases cs,
{
    if cs.len() == 0 {
        Seq::empty()
    } else {
        obs_views(cs.drop_last()).push((cs.last().0@, obs_view(cs.last().1)))
    }
}

pub proof fn lemma_obs_views_index(cs: Seq<(String, FsObservation)>, i: int)
    requires
        0 <= i < cs.len(),
    ensures
        obs_views(cs).len() == cs.len(),
        obs_views(cs)[i] == (cs[i].0@, obs_view(cs[i].1)),
    decreases cs,
{
    if cs.len() > 0 {
        lemma_obs_views_len(cs.drop_last());
        if i < cs.len() - 1 {
            lemma_obs_views_index(cs.drop_last(), i);
            assert(cs.drop_last()[i] == cs[i]);
        }
    }
}

pub proof fn lemma_obs_views_len(cs: Seq<(String, FsObservation)>)
    ensures
        obs_views(cs).len() == cs.len(),
    decreases cs,
{
    if cs.len() > 0 {
        lemma_obs_views_len(cs.drop_last());
    }
}


/// The number of observation nodes, used as a termination measure when
/// walking an observation.
pub open spec fn obs_size(o: FsObservation) -> nat
    decreases o,
{
    match o {
        FsObservation::Absent => 1,
        FsObservation::File { contents } => 1,
        FsObservation::Directory { children } => 1 + obs_list_size(children@),
    }
}

pub open spec fn obs_list_size(cs: Seq<(String, FsObservation)>) -> nat
    decreases cs,
{
    if cs.len() == 0 {
        0
    } else {
        obs_list_size(cs.drop_last()) + obs_size(cs.last().1)
    }
}

pub proof fn lemma_obs_list_size_ge(cs: Seq<(String, FsObservation)>, j: int)
    requires
        0 <= j < cs.len(),
    ensures
        obs_size(cs[j].1) <= obs_list_size(cs),
    decreases cs,
{
    if j < cs.len() - 1 {
        lemma_obs_list_size_ge(cs.drop_last(), j);
        assert(cs.drop_last()[j] == cs[j]);
    }
}

impl View for FsObservation {
    type V = ObsView;

    open spec fn view(&self) -> ObsView {
        obs_view(*self)
    }
}

/// The mirror entries an observation denotes, in depth-first order: the
/// observed path itself (unless absent), then, for a directory, each child's
/// entries in listing order. A directory's stored child set is exactly its
/// observed child names resolved against the base path.
pub open spec fn mirror_of(base: Seq<Seq<char>>, o: ObsView) -> Seq<(Seq<Seq<char>>, IView)>
    decreases o,
{
    match o {
        ObsView::Absent => Seq::empty(),
        ObsView::File(bytes) => seq![(base, IView::File(bytes))],
        ObsView::Directory(cs) => seq![(base, IView::Directory(child_keys(base, cs)))]
            + mirror_list(base, cs),
    }
}

pub open spec fn child_keys(base: Seq<Seq<char>>, cs: Seq<(Seq<char>, ObsView)>) -> Seq<
    Seq<Seq<char>>,
> {
    cs.map_values(|c: (Seq<char>, ObsView)| base.push(c.0))
}

pub open spec fn mirror_list(base: Seq<Seq<char>>, cs: Seq<(Seq<char>, ObsView)>) -> Seq<
    (Seq<Seq<char>>, IView),
>
    decreases cs,
{
    if cs.len() == 0 {
        Seq::empty()
    } else {
        mirror_of(base.push(cs.first().0), cs.first().1) + mirror_list(base, cs.drop_first())
    }
}

pub proof fn lemma_mirror_list_snoc(
    base: Seq<Seq<char>>,
    cs: Seq<(Seq<char>, ObsView)>,
    c: (Seq<char>, ObsView),
)
    ensures
        mirror_list(base, cs.push(c)) == mirror_list(base, cs) + mirror_of(base.push(c.0), c.1),
    decreases cs.len(),
{
    reveal_with_fuel(mirror_list, 3);
    if cs.len() == 0 {
        assert(cs.push(c).drop_first() =~= Seq::<(Seq<char>, ObsView)>::empty());
        assert(cs.push(c).first() == c);
        assert(mirror_list(base, cs.push(c)) =~= mirror_list(base, cs) + mirror_of(
            base.push(c.0),
            c.1,
        ));
    } else {
        assert(cs.push(c).first() == cs.first());
        assert(cs.push(c).drop_first() =~= cs.drop_first().push(c));
        lemma_mirror_list_snoc(base, cs.drop_first(), c);
        assert(mirror_list(base, cs.push(c)) =~= mirror_list(base, cs) + mirror_of(
            base.push(c.0),
            c.1,
        ));
    }
}

/// The entries of `items` whose path does not lie at or under `base`.
pub open spec fn keep_outside(
    items: Seq<(Seq<Seq<char>>, IView)>,
    base: Seq<Seq<char>>,
) -> Seq<(Seq<Seq<char>>, IView)>
    decreases items.len(),
{
    if items.len() == 0 {
        items
    } else if is_prefix_of(base, items.last().0) {
        keep_outside(items.drop_last(), base)
    } else {
        keep_outside(items.drop_last(), base).push(items.last())
    }
}

/// The paths of the entries of `items` at or under `base`, in storage order.
pub open spec fn sub_keys(
    items: Seq<(Seq<Seq<char>>, IView)>,
    base: Seq<Seq<char>>,
) -> Seq<Seq<Seq<char>>>
    decreases items.len(),
{
    if items.len() == 0 {
        Seq::empty()
    } else if is_prefix_of(base, items.last().0) {
        sub_keys(items.drop_last(), base).push(items.last().0)
    } else {
        sub_keys(items.drop_last(), base)
    }
}

pub open spec fn keys_of(items: Seq<(Seq<Seq<char>>, IView)>) -> Seq<Seq<Seq<char>>> {
    items.map_values(|e: (Seq<Seq<char>>, IView)| e.0)
}

/// The first entry bound to `p`, if any.
pub open spec fn lookup_path(items: Seq<(Seq<Seq<char>>, IView)>, p: Seq<Seq<char>>) -> Option<
    IView,
>
    decreases items.len(),
{
    if items.len() == 0 {
        None
    } else if items[0].0 == p {
        Some(items[0].1)
    } else {
        lookup_path(items.drop_first(), p)
    }
}

/// The mathematical value of the mirror.
pub struct ImfsView {
    pub roots: Seq<Seq<Seq<char>>>,
    pub items: Seq<(Seq<Seq<char>>, IView)>,
}

/// The in-memory filesystem mirror.
pub struct Imfs {
    pub roots: Vec<FsPath>,
    pub items: Vec<(FsPath, ImfsItem)>,
}

pub open spec fn entry_views(items: Seq<(FsPath, ImfsItem)>) -> Seq<(Seq<Seq<char>>, IView)>
    decreases items,
{
    if items.len() == 0 {
        Seq::empty()
    } else {
        entry_views(items.drop_last()).push((items.last().0@, items.last().1@))
    }
}

pub proof fn lemma_entry_views_index(items: Seq<(FsPath, ImfsItem)>, i: int)
    requires
        0 <= i < items.len(),
    ensures
        entry_views(items).len() == items.len(),
        entry_views(items)[i] == (items[i].0@, items[i].1@),
    decreases items,
{
    if items.len() > 0 {
        lemma_entry_views_len(items.drop_last());
        if i < items.len() - 1 {
            lemma_entry_views_index(items.drop_last(), i);
            assert(items.drop_last()[i] == items[i]);
        }
    }
}

pub proof fn lemma_entry_views_len(items: Seq<(FsPath, ImfsItem)>)
    ensures
        entry_views(items).len() == items.len(),
    decreases items,
{
    if items.len() > 0 {
        lemma_entry_views_len(items.drop_last());
    }
}

impl View for Imfs {
    type V = ImfsView;

    open spec fn view(&self) -> ImfsView {
        ImfsView { roots: self.roots.deep_view(), items: entry_views(self.items@) }
    }
}

pub fn clone_bytes(a: &Vec<u8>) -> (r: Vec<u8>)
    ensures
        r@ == a@,
{
    let mut r: Vec<u8> = Vec::new();
    let n = a.len();
    for i in 0..n
        invariant
            n == a.len(),
            r@ =~= a@.take(i as int),
    {
        r.push(a[i]);
        assert(r@ =~= a@.take(i + 1));
    }
    assert(r@ =~= a@);
    r
}

pub fn clone_paths(a: &Vec<FsPath>) -> (r: Vec<FsPath>)
    ensures
        r.deep_view() == a.deep_view(),
{
    let mut r: Vec<FsPath> = Vec::new();
    let n = a.len();
    for i in 0..n
        invariant
            n == a.len(),
            r.deep_view().len() == i,
            forall|j: int| 0 <= j < i ==> r.deep_view()[j] == a.deep_view()[j],
    {
        r.push(a[i].clone());
        assert(r.deep_view().last() == a.deep_view()[i as int]);
    }
    assert(r.deep_view() =~= a.deep_view());
    r
}

impl Clone for ImfsItem {
    fn clone(&self) -> (r: ImfsItem)
        ensures
            r@ == self@,
    {
        match self {
            ImfsItem::File { contents } => ImfsItem::File { contents: clone_bytes(contents) },
            ImfsItem::Directory { children } => ImfsItem::Directory {
                children: clone_paths(children),
            },
        }
    }
}

impl Imfs {
    /// An empty mirror: no roots, no entries.
    pub fn new() -> (r: Imfs)
        ensures
            r@.roots == Seq::<Seq<Seq<char>>>::empty(),
            r@.items == Seq::<(Seq<Seq<char>>, IView)>::empty(),
    {
        let r = Imfs { roots: Vec::new(), items: Vec::new() };
        proof {
            assert(r@.roots =~= Seq::<Seq<Seq<char>>>::empty());
        }
        r
    }

    /// The watched roots.
    pub fn get_roots(&self) -> (r: &Vec<FsPath>)
        ensures
            r.deep_view() == self@.roots,
    {
        &self.roots
    }

    /// The mirrored entry at `path`, if any.
    pub fn get(&self, path: &FsPath) -> (r: Option<&ImfsItem>)
        ensures
            match r {
                Some(item) => lookup_path(self@.items, path@) == Some(item@),
                None => lookup_path(self@.items, path@) is None,
            },
    {
        let n = self.items.len();
        proof {
            lemma_entry_views_len(self.items@);
        }
        for i in 0..n
            invariant
                n == self.items.len(),
                self@.items.len() == n,
                forall|j: int| 0 <= j < i ==> self@.items[j].0 != path@,
        {
            proof {
                lemma_entry_views_index(self.items@, i as int);
            }
            if self.items[i].0.path_eq(path) {
                proof {
                    lemma_lookup_path_first(self@.items, path@, i as int);
                }
                return Some(&self.items[i].1);
            }
        }
        proof {
            lemma_lookup_path_miss(self@.items, path@);
        }
        None
    }

    /// Begin watching a new root; its content arrives with the first event.
    pub fn add_root(&mut self, path: &FsPath)
        ensures
            final(self)@.roots == old(self)@.roots.push(path@),
            final(self)@.items == old(self)@.items,
    {
        self.roots.push(path.clone());
        proof {
            assert(self.roots.deep_view() =~= old(self).roots.deep_view().push(path@));
        }
    }

    /// Replace the mirrored subtree at `path` with what a fresh re-query of
    /// the real filesystem reported there. Everything at or under `path` is
    /// purged; the observation's entries take their place. Applying the same
    /// observation again changes nothing. Returns every path that was, or
    /// now is, inside the replaced subtree: a superset of the paths whose
    /// entry changed, for downstream incremental rebuild.
    pub fn apply_event(&mut self, path: &FsPath, observed: &FsObservation) -> (affected: Vec<
        FsPath,
    >)
        ensures
            final(self)@.items == keep_outside(old(self)@.items, path@) + mirror_of(
                path@,
                observed@,
            ),
            final(self)@.roots == old(self)@.roots,
            affected.deep_view() == sub_keys(old(self)@.items, path@) + keys_of(
                mirror_of(path@, observed@),
            ),
    {
        let ghost items0 = self@.items;
        let mut retained: Vec<(FsPath, ImfsItem)> = Vec::new();
        let mut affected: Vec<FsPath> = Vec::new();
        let n = self.items.len();
        proof {
            lemma_entry_views_len(self.items@);
        }
        for i in 0..n
            invariant
                n == self.items.len(),
                items0 == entry_views(self.items@),
                items0.len() == n,
                entry_views(retained@) =~= keep_outside(items0.take(i as int), path@),
                affected.deep_view() =~= sub_keys(items0.take(i as int), path@),
        {
            proof {
                lemma_entry_views_index(self.items@, i as int);
                assert(items0.take(i + 1).drop_last() =~= items0.take(i as int));
                assert(items0.take(i + 1).last() == items0[i as int]);
            }
            let key = &self.items[i].0;
            if key.starts_with(path) {
                let ghost prev = affected.deep_view();
                affected.push(key.clone());
                proof {
                    assert(affected.deep_view() =~= prev.push(items0[i as int].0));
                }
            } else {
                let ghost prev = retained@;
                let entry = (key.clone(), self.items[i].1.clone());
                retained.push(entry);
                proof {
                    assert(retained@.drop_last() =~= prev);
                    assert(entry_views(retained@) =~= entry_views(prev).push(
                        items0[i as int],
                    ));
                }
            }
        }
        proof {
            assert(items0.take(n as int) =~= items0);
        }
        self.items = retained;
        self.insert_observed(path, observed, &mut affected);
        proof {
            assert(affected.deep_view() =~= sub_keys(items0, path@) + keys_of(
                mirror_of(path@, observed@),
            ));
        }
        affected
    }

    /// Append the entries an observation denotes, depth first.
    fn insert_observed(&mut self, base: &FsPath, observed: &FsObservation, affected: &mut Vec<
        FsPath,
    >)
        ensures
            final(self)@.items == old(self)@.items + mirror_of(base@, observed@),
            final(self)@.roots == old(self)@.roots,
            final(affected).deep_view() == old(affected).deep_view() + keys_of(
                mirror_of(base@, observed@),
            ),
        decreases *observed,
    {
        let ghost items0 = self@.items;
        let ghost aff0 = affected.deep_view();
        match observed {
            FsObservation::Absent => {
                proof {
                    assert(self@.items =~= items0 + mirror_of(base@, observed@));
                    assert(affected.deep_view() =~= aff0 + keys_of(mirror_of(base@, observed@)));
                }
            },
            FsObservation::File { contents } => {
                let entry = (base.clone(), ImfsItem::File { contents: clone_bytes(contents) });
                self.items.push(entry);
                affected.push(base.clone());
                proof {
                    assert(self.items@.drop_last() =~= old(self).items@);
                    assert(entry_views(self.items@) =~= items0 + mirror_of(base@, observed@));
                    assert(affected.deep_view() =~= aff0 + keys_of(mirror_of(base@, observed@)));
                }
            },
            FsObservation::Directory { children } => {
                let m = children.len();
                let mut child_paths: Vec<FsPath> = Vec::new();
                proof {
                    lemma_obs_views_len(children@);
                }
                for j in 0..m
                    invariant
                        m == children.len(),
                        child_paths.deep_view() =~= child_keys(
                            base@,
                            obs_views(children@),
                        ).take(j as int),
                    decreases m - j,
                {
                    proof {
                        lemma_obs_views_index(children@, j as int);
                    }
                    let cp = base.join(&children[j].0);
                    let ghost prev = child_paths.deep_view();
                    child_paths.push(cp);
                    proof {
                        assert(child_paths.deep_view() =~= prev.push(
                            base@.push(obs_views(children@)[j as int].0),
                        ));
                        assert(child_paths.deep_view() =~= child_keys(
                            base@,
                            obs_views(children@),
                        ).take(j + 1));
                    }
                }
                proof {
                    lemma_obs_views_len(children@);
                    assert(child_keys(base@, obs_views(children@)).take(m as int) =~= child_keys(
                        base@,
                        obs_views(children@),
                    ));
                }
                let entry = (base.clone(), ImfsItem::Directory { children: child_paths });
                self.items.push(entry);
                affected.push(base.clone());
                let ghost items1 = self@.items;
                let ghost aff1 = affected.deep_view();
                proof {
                    assert(self.items@.drop_last() =~= old(self).items@);
                    assert(items1 =~= items0 + seq![
                        (base@, IView::Directory(child_keys(base@, obs_views(children@)))),
                    ]);
                    assert(aff1 =~= aff0.push(base@));
                }
                for j in 0..m
                    invariant
                        m == children.len(),
                        *observed == (FsObservation::Directory { children: *children }),
                        self@.items =~= items1 + mirror_list(
                            base@,
                            obs_views(children@).take(j as int),
                        ),
                        self@.roots == old(self)@.roots,
                        affected.deep_view() =~= aff1 + keys_of(
                            mirror_list(base@, obs_views(children@).take(j as int)),
                        ),
                    decreases m - j,
                {
                    proof {
                        lemma_obs_views_index(children@, j as int);
                    }
                    let cp = base.join(&children[j].0);
                    let ghost before_items = self@.items;
                    let ghost cv = obs_views(children@)[j as int];
                    proof {
                        lemma_obs_list_size_ge(children@, j as int);
                        assert(obs_size(*observed) == 1 + obs_list_size(children@));
                        assert(obs_size(children@[j as int].1) < obs_size(*observed));
                    }
                    self.insert_observed(&cp, &children[j].1, affected);
                    proof {
                        lemma_mirror_list_snoc(
                            base@,
                            obs_views(children@).take(j as int),
                            cv,
                        );
                        assert(obs_views(children@).take(j as int).push(cv) =~= obs_views(
                            children@,
                        ).take(j + 1));
                        assert(keys_of(before_items) + keys_of(mirror_of(base@.push(cv.0), cv.1))
                            =~= keys_of(before_items + mirror_of(base@.push(cv.0), cv.1)));
                        assert(self@.items =~= items1 + mirror_list(
                            base@,
                            obs_views(children@).take(j + 1),
                        ));
                        assert(keys_of(
                            mirror_list(base@, obs_views(children@).take(j as int)),
                        ) + keys_of(mirror_of(base@.push(cv.0), cv.1)) =~= keys_of(
                            mirror_list(base@, obs_views(children@).take(j + 1)),
                        ));
                        assert(affected.deep_view() =~= aff1 + keys_of(
                            mirror_list(base@, obs_views(children@).take(j + 1)),
                        ));
                    }
                }
                proof {
                    assert(obs_views(children@).take(m as int) =~= obs_views(children@));
                    assert(self@.items =~= items0 + mirror_of(base@, observed@));
                    assert(keys_of(mirror_of(base@, observed@)) =~= seq![base@] + keys_of(
                        mirror_list(base@, obs_views(children@)),
                    ));
                    assert(affected.deep_view() =~= aff0 + keys_of(mirror_of(base@, observed@)));
                }
            },
        }
    }
}

pub proof fn lemma_lookup_path_first(
    items: Seq<(Seq<Seq<char>>, IView)>,
    p: Seq<Seq<char>>,
    i: int,
)
    requires
        0 <= i < items.len(),
        items[i].0 == p,
        forall|j: int| 0 <= j < i ==> items[j].0 != p,
    ensures
        lookup_path(items, p) == Some(items[i].1),
    decreases items.len(),
{
    if i > 0 {
        assert forall|j: int| 0 <= j < i - 1 implies items.drop_first()[j].0 != p by {
            assert(items.drop_first()[j] == items[j + 1]);
        }
        assert(items.drop_first()[i - 1] == items[i]);
        lemma_lookup_path_first(items.drop_first(), p, i - 1);
    }
}

pub proof fn lemma_lookup_path_miss(items: Seq<(Seq<Seq<char>>, IView)>, p: Seq<Seq<char>>)
    requires
        forall|j: int| 0 <= j < items.len() ==> items[j].0 != p,
    ensures
        lookup_path(items, p) is None,
    decreases items.len(),
{
    if items.len() > 0 {
        assert forall|j: int| 0 <= j < items.len() - 1 implies items.drop_first()[j].0 != p by {
            assert(items.drop_first()[j] == items[j + 1]);
        }
        lemma_lookup_path_miss(items.drop_first(), p);
    }
}

/// Replacing a subtree is idempotent: a second application of the same
/// observation at the same path leaves the mirror's entries unchanged.
pub proof fn lemma_apply_event_idempotent(
    items: Seq<(Seq<Seq<char>>, IView)>,
    base: Seq<Seq<char>>,
    o: ObsView,
)
    ensures
        keep_outside(keep_outside(items, base) + mirror_of(base, o), base) + mirror_of(base, o)
            == keep_outside(items, base) + mirror_of(base, o),
{
    lemma_keep_outside_concat(keep_outside(items, base), mirror_of(base, o), base);
    lemma_keep_outside_idem(items, base);
    lemma_mirror_keys_prefixed(base, o);
    lemma_keep_outside_all_prefixed(mirror_of(base, o), base);
    assert(keep_outside(keep_outside(items, base) + mirror_of(base, o), base) =~= keep_outside(
        items,
        base,
    ));
}

pub proof fn lemma_keep_outside_concat(
    x: Seq<(Seq<Seq<char>>, IView)>,
    y: Seq<(Seq<Seq<char>>, IView)>,
    base: Seq<Seq<char>>,
)
    ensures
        keep_outside(x + y, base) == keep_outside(x, base) + keep_outside(y, base),
    decreases y.len(),
{
    if y.len() == 0 {
        assert(x + y =~= x);
        assert(keep_outside(x, base) + keep_outside(y, base) =~= keep_outside(x, base));
    } else {
        assert((x + y).drop_last() =~= x + y.drop_last());
        assert((x + y).last() == y.last());
        lemma_keep_outside_concat(x, y.drop_last(), base);
        if is_prefix_of(base, y.last().0) {
        } else {
            assert(keep_outside(x, base) + keep_outside(y.drop_last(), base).push(y.last()) =~= (
            keep_outside(x, base) + keep_outside(y.drop_last(), base)).push(y.last()));
        }
    }
}

/// No entry survives `keep_outside` with a key under `base`.
pub proof fn lemma_keep_outside_idem(items: Seq<(Seq<Seq<char>>, IView)>, base: Seq<Seq<char>>)
    ensures
        keep_outside(keep_outside(items, base), base) == keep_outside(items, base),
    decreases items.len(),
{
    if items.len() > 0 {
        lemma_keep_outside_idem(items.drop_last(), base);
        if !is_prefix_of(base, items.last().0) {
            let s = keep_outside(items.drop_last(), base);
            assert(keep_outside(items, base) == s.push(items.last()));
            assert(s.push(items.last()).drop_last() =~= s);
            assert(s.push(items.last()).last() == items.last());
            assert(keep_outside(s.push(items.last()), base) == keep_outside(s, base).push(
                items.last(),
            ));
        }
    }
}

/// Every entry a mirror denotes lies at or under its base path.
pub proof fn lemma_mirror_keys_prefixed(base: Seq<Seq<char>>, o: ObsView)
    ensures
        forall|i: int| 0 <= i < mirror_of(base, o).len()
            ==> is_prefix_of(base, #[trigger] mirror_of(base, o)[i].0),
    decreases o,
{
    match o {
        ObsView::Absent => {
            assert(mirror_of(base, o).len() == 0);
        },
        ObsView::File(bytes) => {
            assert(base.subrange(0, base.len() as int) =~= base);
            assert(mirror_of(base, o)[0].0 == base);
        },
        ObsView::Directory(cs) => {
            assert(base.subrange(0, base.len() as int) =~= base);
            lemma_mirror_list_keys_prefixed(base, cs);
            let head = seq![(base, IView::Directory(child_keys(base, cs)))];
            assert forall|i: int| 0 <= i < mirror_of(base, o).len() implies is_prefix_of(
                base,
                #[trigger] mirror_of(base, o)[i].0,
            ) by {
                if i == 0 {
                    assert(mirror_of(base, o)[0].0 == base);
                } else {
                    assert(mirror_of(base, o)[i] == mirror_list(base, cs)[i - 1]);
                }
            }
        },
    }
}

pub proof fn lemma_mirror_list_keys_prefixed(base: Seq<Seq<char>>, cs: Seq<(Seq<char>, ObsView)>)
    ensures
        forall|i: int| 0 <= i < mirror_list(base, cs).len()
            ==> is_prefix_of(base, #[trigger] mirror_list(base, cs)[i].0),
    decreases cs,
{
    if cs.len() > 0 {
        let head = mirror_of(base.push(cs.first().0), cs.first().1);
        lemma_mirror_keys_prefixed(base.push(cs.first().0), cs.first().1);
        lemma_mirror_list_keys_prefixed(base, cs.drop_first());
        assert forall|i: int| 0 <= i < mirror_list(base, cs).len() implies is_prefix_of(
            base,
            #[trigger] mirror_list(base, cs)[i].0,
        ) by {
            if i < head.len() {
                assert(mirror_list(base, cs)[i] == head[i]);
                assert(is_prefix_of(base.push(cs.first().0), head[i].0));
                assert(head[i].0.subrange(0, base.len() as int) =~= base);
            } else {
                assert(mirror_list(base, cs)[i] == mirror_list(base, cs.drop_first())[i
                    - head.len()]);
            }
        }
    }
}

/// `keep_outside` erases a sequence whose keys all lie under `base`.
pub proof fn lemma_keep_outside_all_prefixed(
    items: Seq<(Seq<Seq<char>>, IView)>,
    base: Seq<Seq<char>>,
)
    requires
        forall|i: int| 0 <= i < items.len() ==> is_prefix_of(base, #[trigger] items[i].0),
    ensures
        keep_outside(items, base) == Seq::<(Seq<Seq<char>>, IView)>::empty(),
    decreases items.len(),
{
    if items.len() > 0 {
        lemma_keep_outside_all_prefixed(items.drop_last(), base);
    }
}

} // verus!
