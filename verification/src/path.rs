//! Canonicalized filesystem paths, stored as their components.

use vstd::prelude::*;

verus! {

broadcast use vstd::std_specs::vec::vec_clone_deep_view_proof;

/// A canonicalized absolute path. Equality is path identity: two paths are
/// the same exactly when their component sequences are the same.
#[derive(Debug)]
pub struct FsPath {
    pub components: Vec<String>,
}

impl View for FsPath {
    type V = Seq<Seq<char>>;

    open spec fn view(&self) -> Seq<Seq<char>> {
        self.components.deep_view()
    }
}

impl DeepView for FsPath {
    type V = Seq<Seq<char>>;

    open spec fn deep_view(&self) -> Seq<Seq<char>> {
        self.view()
    }
}

impl Clone for FsPath {
    fn clone(&self) -> (r: FsPath)
        ensures
            r@ == self@,
    {
        FsPath { components: self.components.clone() }
    }
}

impl FsPath {
    /// Path identity: component sequences are equal.
    pub fn path_eq(&self, other: &FsPath) -> (r: bool)
        ensures
            r <==> self@ == other@,
    {
        if self.components.len() != other.components.len() {
            assert(self@.len() != other@.len());
            return false;
        }
        let n = self.components.len();
        for i in 0..n
            invariant
                n == self.components.len() == other.components.len(),
                forall|j: int| 0 <= j < i ==> self@[j] == other@[j],
        {
            if self.components[i] != other.components[i] {
                assert(self@[i as int] != other@[i as int]);
                return false;
            }
        }
        assert(self@ =~= other@);
        true
    }

    /// The path extended by one more component.
    pub fn join(&self, name: &String) -> (r: FsPath)
        ensures
            r@ == self@.push(name@),
    {
        let mut components = self.components.clone();
        components.push(name.clone());
        let r = FsPath { components };
        assert(r@ =~= self@.push(name@));
        r
    }

    /// Whether `self` is `other` or lies underneath it.
    pub fn starts_with(&self, other: &FsPath) -> (r: bool)
        ensures
            r <==> is_prefix_of(other@, self@),
    {
        if self.components.len() < other.components.len() {
            return false;
        }
        let n = other.components.len();
        for i in 0..n
            invariant
                n == other.components.len() <= self.components.len(),
                forall|j: int| 0 <= j < i ==> self@[j] == other@[j],
        {
            if self.components[i] != other.components[i] {
                assert(self@[i as int] != other@[i as int]);
                return false;
            }
        }
        assert(self@.subrange(0, n as int) =~= other@);
        true
    }

    /// The last component, for a non-empty path.
    pub fn file_name(&self) -> (r: &String)
        requires
            self@.len() > 0,
        ensures
            r@ == self@.last(),
    {
        &self.components[self.components.len() - 1]
    }
}

/// `p` is a prefix of `q`: `q` equals `p` or lies underneath it.
pub open spec fn is_prefix_of(p: Seq<Seq<char>>, q: Seq<Seq<char>>) -> bool {
    p.len() <= q.len() && q.subrange(0, p.len() as int) == p
}

} // verus!
