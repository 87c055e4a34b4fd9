//! The bidirectional bridge between filesystem paths and stable instance
//! identities: at most one live id per path. The reconciler consults it to
//! decide whether a snapshot node derived from a path continues an existing
//! identity or starts a fresh one.

use vstd::prelude::*;
use crate::path::FsPath;

verus! {

/// Path-to-identity bindings.
pub struct PathTable {
    pub entries: Vec<(FsPath, u64)>,
}

pub open spec fn binding_views(entries: Seq<(FsPath, u64)>) -> Seq<(Seq<Seq<char>>, u64)>
    decreases entries,
{
    if entries.len() == 0 {
        Seq::empty()
    } else {
        binding_views(entries.drop_last()).push((entries.last().0@, entries.last().1))
    }
}

pub proof fn lemma_binding_views_index(entries: Seq<(FsPath, u64)>, i: int)
    requires
        0 <= i < entries.len(),
    ensures
        binding_views(entries).len() == entries.len(),
        binding_views(entries)[i] == (entries[i].0@, entries[i].1),
    decreases entries,
{
    if entries.len() > 0 {
        lemma_binding_views_len(entries.drop_last());
        if i < entries.len() - 1 {
            lemma_binding_views_index(entries.drop_last(), i);
            assert(entries.drop_last()[i] == entries[i]);
        }
    }
}

pub proof fn lemma_binding_views_len(entries: Seq<(FsPath, u64)>)
    ensures
        binding_views(entries).len() == entries.len(),
    decreases entries,
{
    if entries.len() > 0 {
        lemma_binding_views_len(entries.drop_last());
    }
}

/// The id bound to `p`, if any: the first matching binding.
pub open spec fn binding_of(bs: Seq<(Seq<Seq<char>>, u64)>, p: Seq<Seq<char>>) -> Option<u64>
    decreases bs.len(),
{
    if bs.len() == 0 {
        None
    } else if bs[0].0 == p {
        Some(bs[0].1)
    } else {
        binding_of(bs.drop_first(), p)
    }
}

/// `bs` without any binding for `p`.
pub open spec fn without_binding(bs: Seq<(Seq<Seq<char>>, u64)>, p: Seq<Seq<char>>) -> Seq<
    (Seq<Seq<char>>, u64),
>
    decreases bs.len(),
{
    if bs.len() == 0 {
        bs
    } else if bs.last().0 == p {
        without_binding(bs.drop_last(), p)
    } else {
        without_binding(bs.drop_last(), p).push(bs.last())
    }
}

impl View for PathTable {
    type V = Seq<(Seq<Seq<char>>, u64)>;

    open spec fn view(&self) -> Seq<(Seq<Seq<char>>, u64)> {
        binding_views(self.entries@)
    }
}

impl PathTable {
    pub fn new() -> (r: PathTable)
        ensures
            r@ == Seq::<(Seq<Seq<char>>, u64)>::empty(),
    {
        PathTable { entries: Vec::new() }
    }

    /// The id bound to `path`, if any.
    pub fn lookup(&self, path: &FsPath) -> (r: Option<u64>)
        ensures
            r == binding_of(self@, path@),
    {
        let n = self.entries.len();
        proof {
            lemma_binding_views_len(self.entries@);
        }
        for i in 0..n
            invariant
                n == self.entries.len(),
                self@.len() == n,
                forall|j: int| 0 <= j < i ==> self@[j].0 != path@,
        {
            proof {
                lemma_binding_views_index(self.entries@, i as int);
            }
            if self.entries[i].0.path_eq(path) {
                proof {
                    lemma_binding_of_first(self@, path@, i as int);
                }
                return Some(self.entries[i].1);
            }
        }
        proof {
            lemma_binding_of_miss(self@, path@);
        }
        None
    }

    /// Bind `path` to `id`, displacing any binding the path had: afterwards
    /// the table holds exactly one binding for the path.
    pub fn bind(&mut self, path: &FsPath, id: u64)
        ensures
            final(self)@ == without_binding(old(self)@, path@).push((path@, id)),
    {
        self.unbind(path);
        let ghost cleaned = self.entries@;
        self.entries.push((path.clone(), id));
        proof {
            assert(self.entries@.drop_last() =~= cleaned);
            assert(binding_views(self.entries@) =~= without_binding(old(self)@, path@).push(
                (path@, id),
            ));
        }
    }

    /// Drop every binding of `path`.
    pub fn unbind(&mut self, path: &FsPath)
        ensures
            final(self)@ == without_binding(old(self)@, path@),
    {
        let ghost bs0 = self@;
        let mut kept: Vec<(FsPath, u64)> = Vec::new();
        let n = self.entries.len();
        proof {
            lemma_binding_views_len(self.entries@);
        }
        for i in 0..n
            invariant
                n == self.entries.len(),
                bs0 == binding_views(self.entries@),
                bs0.len() == n,
                binding_views(kept@) =~= without_binding(bs0.take(i as int), path@),
        {
            proof {
                lemma_binding_views_index(self.entries@, i as int);
                assert(bs0.take(i + 1).drop_last() =~= bs0.take(i as int));
                assert(bs0.take(i + 1).last() == bs0[i as int]);
            }
            if !self.entries[i].0.path_eq(path) {
                let ghost prev = kept@;
                kept.push((self.entries[i].0.clone(), self.entries[i].1));
                proof {
                    assert(kept@.drop_last() =~= prev);
                    assert(binding_views(kept@) =~= binding_views(prev).push(bs0[i as int]));
                }
            }
        }
        proof {
            assert(bs0.take(n as int) =~= bs0);
        }
        self.entries = kept;
    }
}

pub proof fn lemma_binding_of_first(bs: Seq<(Seq<Seq<char>>, u64)>, p: Seq<Seq<char>>, i: int)
    requires
        0 <= i < bs.len(),
        bs[i].0 == p,
        forall|j: int| 0 <= j < i ==> bs[j].0 != p,
    ensures
        binding_of(bs, p) == Some(bs[i].1),
    decreases bs.len(),
{
    if i > 0 {
        assert forall|j: int| 0 <= j < i - 1 implies bs.drop_first()[j].0 != p by {
            assert(bs.drop_first()[j] == bs[j + 1]);
        }
        assert(bs.drop_first()[i - 1] == bs[i]);
        lemma_binding_of_first(bs.drop_first(), p, i - 1);
    }
}

pub proof fn lemma_binding_of_miss(bs: Seq<(Seq<Seq<char>>, u64)>, p: Seq<Seq<char>>)
    requires
        forall|j: int| 0 <= j < bs.len() ==> bs[j].0 != p,
    ensures
        binding_of(bs, p) is None,
    decreases bs.len(),
{
    if bs.len() > 0 {
        assert forall|j: int| 0 <= j < bs.len() - 1 implies bs.drop_first()[j].0 != p by {
            assert(bs.drop_first()[j] == bs[j + 1]);
        }
        lemma_binding_of_miss(bs.drop_first(), p);
    }
}

/// After a bind, the path resolves to the new id: the displaced binding is
/// gone and the fresh one is found.
pub proof fn lemma_bind_then_lookup(bs: Seq<(Seq<Seq<char>>, u64)>, p: Seq<Seq<char>>, id: u64)
    ensures
        binding_of(without_binding(bs, p).push((p, id)), p) == Some(id),
{
    lemma_without_binding_removes(bs, p);
    let cleaned = without_binding(bs, p);
    lemma_binding_of_first(cleaned.push((p, id)), p, cleaned.len() as int);
}

/// `without_binding` keeps exactly the bindings of other paths.
pub proof fn lemma_without_binding_removes(bs: Seq<(Seq<Seq<char>>, u64)>, p: Seq<Seq<char>>)
    ensures
        forall|j: int| 0 <= j < without_binding(bs, p).len()
            ==> #[trigger] without_binding(bs, p)[j].0 != p,
    decreases bs.len(),
{
    if bs.len() > 0 {
        lemma_without_binding_removes(bs.drop_last(), p);
        if bs.last().0 != p {
            let w = without_binding(bs.drop_last(), p);
            assert forall|j: int| 0 <= j < without_binding(bs, p).len()
                implies #[trigger] without_binding(bs, p)[j].0 != p by {
                if j < w.len() {
                    assert(without_binding(bs, p)[j] == w[j]);
                }
            }
        }
    }
}

} // verus!
