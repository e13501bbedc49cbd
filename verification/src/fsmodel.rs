use vstd::prelude::*;

use crate::paths::RepoPath;

verus! {

// ---------------------------------------------------------------------------
// A model of the slice of the filesystem the repository logic works on: a
// finite mapping from paths to entries.  A directory entry carries nothing;
// a file entry carries its text.  Mathematically the model is a
// `Map<Seq<Seq<char>>, Option<Seq<char>>>`, where a key bound to `None` is a
// directory and one bound to `Some(text)` is a file with that content.  The
// root path (no segments) always counts as an existing directory and is
// never a key.
// ---------------------------------------------------------------------------

pub enum FsEntry {
    Dir,
    File(String),
}

impl View for FsEntry {
    type V = Option<Seq<char>>;

    open spec fn view(&self) -> Option<Seq<char>> {
        match self {
            FsEntry::Dir => None,
            FsEntry::File(text) => Some(text@),
        }
    }
}

pub struct Fs {
    pub entries: Vec<(RepoPath, FsEntry)>,
}

pub open spec fn map_of(es: Seq<(RepoPath, FsEntry)>) -> Map<Seq<Seq<char>>, Option<Seq<char>>>
    decreases es.len(),
{
    if es.len() == 0 {
        Map::empty()
    } else {
        map_of(es.drop_last()).insert(es.last().0@, es.last().1@)
    }
}

impl View for Fs {
    type V = Map<Seq<Seq<char>>, Option<Seq<char>>>;

    open spec fn view(&self) -> Map<Seq<Seq<char>>, Option<Seq<char>>> {
        map_of(self.entries@)
    }
}

/// Whether `p` names something present in `m` (the root always is).
pub open spec fn fs_exists(m: Map<Seq<Seq<char>>, Option<Seq<char>>>, p: Seq<Seq<char>>) -> bool {
    p.len() == 0 || m.contains_key(p)
}

/// Whether `p` names an existing directory in `m`.
pub open spec fn fs_is_dir(m: Map<Seq<Seq<char>>, Option<Seq<char>>>, p: Seq<Seq<char>>) -> bool {
    p.len() == 0 || (m.contains_key(p) && m[p] is None)
}

/// Whether some entry of `m` lies strictly below `p`.
pub open spec fn fs_has_child(m: Map<Seq<Seq<char>>, Option<Seq<char>>>, p: Seq<Seq<char>>) -> bool {
    exists|k: Seq<Seq<char>>| m.contains_key(k) && p.is_prefix_of(k) && k.len() > p.len()
}

/// `m` with `p` and every missing ancestor of it added as directories;
/// entries already present, of either kind, are left as they are.
pub open spec fn add_dirs(
    m: Map<Seq<Seq<char>>, Option<Seq<char>>>,
    p: Seq<Seq<char>>,
) -> Map<Seq<Seq<char>>, Option<Seq<char>>>
    decreases p.len(),
{
    if p.len() == 0 {
        m
    } else {
        let m1 = add_dirs(m, p.drop_last());
        if m1.contains_key(p) {
            m1
        } else {
            m1.insert(p, None)
        }
    }
}

proof fn lemma_map_of_key_has_index(es: Seq<(RepoPath, FsEntry)>, k: Seq<Seq<char>>)
    requires
        map_of(es).contains_key(k),
    ensures
        exists|j: int| 0 <= j < es.len() && es[j].0@ == k,
    decreases es.len(),
{
    if es.len() == 0 {
        assert(false);
    } else if es.last().0@ == k {
        assert(es[es.len() - 1].0@ == k);
    } else {
        lemma_map_of_key_has_index(es.drop_last(), k);
        let j = choose|j: int| 0 <= j < es.drop_last().len() && es.drop_last()[j].0@ == k;
        assert(es[j].0@ == k);
    }
}

impl Fs {
    /// An empty model: nothing on disk but the root.
    pub fn new() -> (r: Fs)
        ensures
            r@ == Map::<Seq<Seq<char>>, Option<Seq<char>>>::empty(),
    {
        Fs { entries: Vec::new() }
    }

    /// The entry at `p`, if any.
    pub fn lookup(&self, p: &RepoPath) -> (r: Option<&FsEntry>)
        ensures
            match r {
                Some(e) => self@.contains_key(p@) && self@[p@] == e@,
                None => !self@.contains_key(p@),
            },
    {
        let ghost es = self.entries@;
        let mut best: Option<usize> = None;
        let mut i: usize = 0;
        proof {
            assert(es.take(0) =~= Seq::<(RepoPath, FsEntry)>::empty());
        }
        while i < self.entries.len()
            invariant
                i <= es.len(),
                es == self.entries@,
                match best {
                    Some(b) => b < i && es[b as int].0@ == p@ && map_of(es.take(i as int)).contains_key(p@)
                        && map_of(es.take(i as int))[p@] == es[b as int].1@,
                    None => !map_of(es.take(i as int)).contains_key(p@),
                },
            decreases es.len() - i as int,
        {
            proof {
                assert(es.take(i as int + 1).drop_last() =~= es.take(i as int));
                assert(es.take(i as int + 1).last() == es[i as int]);
            }
            if self.entries[i].0.path_eq(p) {
                best = Some(i);
            }
            i = i + 1;
        }
        proof {
            assert(es.take(es.len() as int) =~= es);
        }
        match best {
            Some(b) => Some(&self.entries[b].1),
            None => None,
        }
    }

    pub fn contains(&self, p: &RepoPath) -> (r: bool)
        ensures
            r == self@.contains_key(p@),
    {
        match self.lookup(p) {
            Some(_) => true,
            None => false,
        }
    }

    pub fn exists_at(&self, p: &RepoPath) -> (r: bool)
        ensures
            r == fs_exists(self@, p@),
    {
        if p.len() == 0 {
            true
        } else {
            self.contains(p)
        }
    }

    pub fn is_dir_at(&self, p: &RepoPath) -> (r: bool)
        ensures
            r == fs_is_dir(self@, p@),
    {
        if p.len() == 0 {
            return true;
        }
        match self.lookup(p) {
            Some(e) => match e {
                FsEntry::Dir => true,
                FsEntry::File(_) => false,
            },
            None => false,
        }
    }

    /// The text of the file at `p`, if a file is there.
    pub fn file_at(&self, p: &RepoPath) -> (r: Option<&String>)
        ensures
            match r {
                Some(text) => self@.contains_key(p@) && self@[p@] == Some(text@),
                None => !(self@.contains_key(p@) && self@[p@] is Some),
            },
    {
        match self.lookup(p) {
            Some(e) => match e {
                FsEntry::Dir => None,
                FsEntry::File(text) => Some(text),
            },
            None => None,
        }
    }

    /// Write the file at `p`, replacing whatever entry was there.
    pub fn set_file(&mut self, p: &RepoPath, content: String)
        ensures
            final(self)@ == old(self)@.insert(p@, Some(content@)),
    {
        let ghost c = content@;
        let pc = p.dup();
        self.entries.push((pc, FsEntry::File(content)));
        proof {
            assert(self.entries@.drop_last() =~= old(self).entries@);
            assert(self.entries@.last().0@ == p@);
            assert(self.entries@.last().1@ == Some(c));
        }
    }

    /// Create the leaf directory `p`, replacing whatever entry was there.
    pub fn mkdir_leaf(&mut self, p: &RepoPath)
        ensures
            final(self)@ == old(self)@.insert(p@, None),
    {
        let pc = p.dup();
        self.entries.push((pc, FsEntry::Dir));
        proof {
            assert(self.entries@.drop_last() =~= old(self).entries@);
            assert(self.entries@.last().0@ == p@);
        }
    }

    /// Create the directory `p` and all missing ancestors, idempotently.
    pub fn mkdir_all(&mut self, p: &RepoPath)
        ensures
            final(self)@ == add_dirs(old(self)@, p@),
    {
        let mut cur = RepoPath::new();
        let mut i: usize = 0;
        proof {
            assert(p@.take(0) =~= Seq::<Seq<char>>::empty());
            assert(cur@ =~= p@.take(0));
        }
        while i < p.segs.len()
            invariant
                i <= p@.len(),
                p@.len() == p.segs@.len(),
                cur@ == p@.take(i as int),
                self@ == add_dirs(old(self)@, p@.take(i as int)),
            decreases p.segs@.len() - i as int,
        {
            cur.push_seg(p.segs[i].as_str());
            proof {
                assert(p@[i as int] == p.segs@[i as int]@);
                assert(cur@ =~= p@.take(i as int + 1));
                assert(p@.take(i as int + 1).drop_last() =~= p@.take(i as int));
                assert(p@.take(i as int + 1).len() > 0);
            }
            if !self.contains(&cur) {
                let ghost pre = self.entries@;
                let pc = cur.dup();
                self.entries.push((pc, FsEntry::Dir));
                proof {
                    assert(self.entries@.drop_last() =~= pre);
                    assert(self.entries@.last().0@ == cur@);
                }
            }
            proof {
                assert(self@ == add_dirs(old(self)@, p@.take(i as int + 1)));
            }
            i = i + 1;
        }
        proof {
            assert(p@.take(p.segs@.len() as int) =~= p@);
        }
    }

    /// Whether anything lies strictly below `p`.
    pub fn dir_has_entries(&self, p: &RepoPath) -> (r: bool)
        ensures
            r == fs_has_child(self@, p@),
    {
        let ghost es = self.entries@;
        let mut j: usize = 0;
        while j < self.entries.len()
            invariant
                j <= es.len(),
                es == self.entries@,
                forall|jj: int|
                    0 <= jj < j ==> !(p@.is_prefix_of(#[trigger] es[jj].0@) && es[jj].0@.len()
                        > p@.len()),
            decreases es.len() - j as int,
        {
            if p.is_prefix(&self.entries[j].0) && self.entries[j].0.len() > p.len() {
                proof {
                    lemma_map_of_index_contained(es, j as int);
                }
                return true;
            }
            j = j + 1;
        }
        proof {
            assert forall|k: Seq<Seq<char>>| self@.contains_key(k) implies !(p@.is_prefix_of(k)
                && k.len() > p@.len()) by {
                lemma_map_of_key_has_index(es, k);
            };
        }
        false
    }
}

proof fn lemma_map_of_index_contained(es: Seq<(RepoPath, FsEntry)>, j: int)
    requires
        0 <= j < es.len(),
    ensures
        map_of(es).contains_key(es[j].0@),
    decreases es.len(),
{
    if j == es.len() - 1 {
    } else {
        lemma_map_of_index_contained(es.drop_last(), j);
        assert(es.drop_last()[j] == es[j]);
    }
}

} // verus!
