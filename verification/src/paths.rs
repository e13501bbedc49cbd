use vstd::prelude::*;

verus! {

/// A filesystem path, kept as the sequence of name segments below the root.
/// The empty sequence stands for the root itself; appending a segment steps
/// one directory down.  Mathematically a path is a `Seq<Seq<char>>`.
#[derive(Debug)]
pub struct RepoPath {
    pub segs: Vec<String>,
}

impl View for RepoPath {
    type V = Seq<Seq<char>>;

    open spec fn view(&self) -> Seq<Seq<char>> {
        Seq::new(self.segs@.len(), |i: int| self.segs@[i]@)
    }
}

impl RepoPath {
    /// The root path: no segments.
    pub fn new() -> (r: RepoPath)
        ensures
            r@ == Seq::<Seq<char>>::empty(),
    {
        let r = RepoPath { segs: Vec::new() };
        proof {
            assert(r@ =~= Seq::<Seq<char>>::empty());
        }
        r
    }

    /// Wrap an explicit segment vector.
    pub fn from_segs(segs: Vec<String>) -> (r: RepoPath)
        ensures
            r@ == Seq::new(segs@.len(), |i: int| segs@[i]@),
    {
        RepoPath { segs }
    }

    pub fn len(&self) -> (n: usize)
        ensures
            n == self@.len(),
    {
        self.segs.len()
    }

    /// An independent copy of the same path.
    pub fn dup(&self) -> (r: RepoPath)
        ensures
            r@ == self@,
    {
        let mut segs: Vec<String> = Vec::new();
        let mut i: usize = 0;
        while i < self.segs.len()
            invariant
                i <= self.segs@.len(),
                segs@.len() == i as int,
                forall|j: int| 0 <= j < i as int ==> segs@[j]@ == self.segs@[j]@,
            decreases self.segs@.len() - i as int,
        {
            segs.push(self.segs[i].clone());
            i = i + 1;
        }
        let r = RepoPath { segs };
        proof {
            assert(r@ =~= self@);
        }
        r
    }

    /// Extend the path downward by one segment.
    pub fn push_seg(&mut self, name: &str)
        ensures
            final(self)@ == old(self)@.push(name@),
    {
        self.segs.push(String::from_str(name));
        proof {
            assert(self@ =~= old(self)@.push(name@));
        }
    }

    /// The path one segment below `self`.
    pub fn child(&self, name: &str) -> (r: RepoPath)
        ensures
            r@ == self@.push(name@),
    {
        let mut r = self.dup();
        r.push_seg(name);
        r
    }

    /// Step up to the parent directory; at the root there is nothing to drop.
    pub fn pop_seg(&mut self)
        requires
            old(self)@.len() > 0,
        ensures
            final(self)@ == old(self)@.drop_last(),
    {
        self.segs.pop();
        proof {
            assert(self@ =~= old(self)@.drop_last());
        }
    }

    pub fn path_eq(&self, other: &RepoPath) -> (r: bool)
        ensures
            r == (self@ == other@),
    {
        if self.segs.len() != other.segs.len() {
            proof {
                assert(self@.len() != other@.len());
            }
            return false;
        }
        let mut i: usize = 0;
        while i < self.segs.len()
            invariant
                i <= self.segs@.len(),
                self.segs@.len() == other.segs@.len(),
                forall|j: int| 0 <= j < i as int ==> self.segs@[j]@ == other.segs@[j]@,
            decreases self.segs@.len() - i as int,
        {
            if !self.segs[i].eq(&other.segs[i]) {
                proof {
                    assert(self@[i as int] != other@[i as int]);
                }
                return false;
            }
            i = i + 1;
        }
        proof {
            assert(self@ =~= other@);
        }
        true
    }

    /// Whether `self` names an ancestor of `other` (or `other` itself).
    pub fn is_prefix(&self, other: &RepoPath) -> (r: bool)
        ensures
            r == self@.is_prefix_of(other@),
    {
        if self.segs.len() > other.segs.len() {
            return false;
        }
        let mut i: usize = 0;
        while i < self.segs.len()
            invariant
                i <= self.segs@.len(),
                self.segs@.len() <= other.segs@.len(),
                forall|j: int| 0 <= j < i as int ==> self.segs@[j]@ == other.segs@[j]@,
            decreases self.segs@.len() - i as int,
        {
            if !self.segs[i].eq(&other.segs[i]) {
                proof {
                    assert(self@[i as int] != other@[i as int]);
                    assert(!self@.is_prefix_of(other@));
                }
                return false;
            }
            i = i + 1;
        }
        proof {
            assert(self@ =~= other@.subrange(0, self@.len() as int));
        }
        true
    }
}

} // verus!
