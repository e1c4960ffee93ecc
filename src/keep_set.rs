use vstd::prelude::*;

use crate::path::{join_member, member_path};

verus! {

/// The set of canonical paths that tracked content expects on disk.
pub type KeepSet = PathSet;

/// A set of canonical paths, each held once.
pub struct PathSet {
    paths: Vec<String>,
}

/// The paths named by `members`, each taken relative to `base`; the first
/// field of a member (the id of the container listing it) plays no part.
pub open spec fn members_spec(base: Seq<char>, members: Seq<(String, String)>) -> Set<Seq<char>> {
    Set::new(|p: Seq<char>| exists|i: int| 0 <= i < members.len() && p == member_path(base, #[trigger] members[i].1@))
}

impl View for PathSet {
    type V = Set<Seq<char>>;

    closed spec fn view(&self) -> Set<Seq<char>> {
        Set::new(|p: Seq<char>| exists|i: int| 0 <= i < self.paths@.len() && p == #[trigger] self.paths@[i]@)
    }
}

impl PathSet {
    /// No path is held twice.
    pub closed spec fn wf(&self) -> bool {
        forall|i: int, j: int|
            0 <= i < j < self.paths@.len() ==> #[trigger] self.paths@[i]@ != #[trigger] self.paths@[j]@
    }

    /// The empty set.
    pub fn new() -> (r: PathSet)
        ensures
            r.wf(),
            r@ == Set::<Seq<char>>::empty(),
    {
        let r = PathSet { paths: Vec::new() };
        assert(r@ =~= Set::<Seq<char>>::empty());
        r
    }

    /// Whether `path` is in the set.
    pub fn contains(&self, path: &String) -> (r: bool)
        requires
            self.wf(),
        ensures
            r == self@.contains(path@),
    {
        let mut i: usize = 0;
        while i < self.paths.len()
            invariant
                i <= self.paths@.len(),
                forall|k: int| 0 <= k < i ==> self.paths@[k]@ != path@,
            decreases self.paths@.len() - i,
        {
            if self.paths[i] == *path {
                return true;
            }
            i = i + 1;
        }
        false
    }

    /// Whether every path of `paths` is in the set.
    pub fn contains_all(&self, paths: &Vec<String>) -> (r: bool)
        requires
            self.wf(),
        ensures
            r == forall|i: int| 0 <= i < paths@.len() ==> self@.contains(#[trigger] paths@[i]@),
    {
        let mut i: usize = 0;
        while i < paths.len()
            invariant
                i <= paths@.len(),
                self.wf(),
                forall|k: int| 0 <= k < i ==> self@.contains(#[trigger] paths@[k]@),
            decreases paths@.len() - i,
        {
            if !self.contains(&paths[i]) {
                return false;
            }
            i = i + 1;
        }
        true
    }

    /// Adds `path`; a path already present is left as it is.
    pub fn insert(&mut self, path: String)
        requires
            old(self).wf(),
        ensures
            final(self).wf(),
            final(self)@ == old(self)@.insert(path@),
    {
        let ghost before = self.paths@;
        if !self.contains(&path) {
            let ghost v = path@;
            self.paths.push(path);
            assert forall|q: Seq<char>| #[trigger] self@.contains(q) <==> old(self)@.insert(v).contains(q) by {
                if q == v {
                    assert(self.paths@[before.len() as int]@ == v);
                }
                if old(self)@.contains(q) {
                    let k = choose|k: int| 0 <= k < before.len() && q == #[trigger] before[k]@;
                    assert(self.paths@[k] == before[k]);
                }
                if self@.contains(q) && q != v {
                    let k = choose|k: int| 0 <= k < self.paths@.len() && q == #[trigger] self.paths@[k]@;
                    assert(before[k] == self.paths@[k]);
                }
            }
            assert(self@ =~= old(self)@.insert(v));
        } else {
            assert(self@ =~= old(self)@.insert(path@));
        }
    }

    /// The keep-set of the members listed by tracked containers, each member
    /// name taken relative to `base`. Members naming the same path collapse
    /// into one.
    pub fn build(base: &str, members: &Vec<(String, String)>) -> (r: PathSet)
        ensures
            r.wf(),
            r@ == members_spec(base@, members@),
    {
        let mut r = PathSet::new();
        let mut i: usize = 0;
        while i < members.len()
            invariant
                i <= members@.len(),
                r.wf(),
                r@ == members_spec(base@, members@.subrange(0, i as int)),
            decreases members@.len() - i,
        {
            let p = join_member(base, members[i].1.as_str());
            r.insert(p);
            proof {
                let next = members@.subrange(0, i + 1);
                assert forall|q: Seq<char>| #[trigger] members_spec(base@, next).contains(q)
                    <==> r@.contains(q) by {
                    if members_spec(base@, next).contains(q) {
                        let k = choose|k: int| 0 <= k < next.len() && q == member_path(base@, #[trigger] next[k].1@);
                        if k < i {
                            assert(members@.subrange(0, i as int)[k] == next[k]);
                        }
                    }
                    if r@.contains(q) && q != member_path(base@, members@[i as int].1@) {
                        let prev = members@.subrange(0, i as int);
                        let k = choose|k: int| 0 <= k < prev.len() && q == member_path(base@, #[trigger] prev[k].1@);
                        assert(next[k] == prev[k]);
                    }
                    if q == member_path(base@, members@[i as int].1@) {
                        assert(next[i as int] == members@[i as int]);
                    }
                }
                assert(members_spec(base@, next) =~= r@);
            }
            i = i + 1;
        }
        assert(members@.subrange(0, members@.len() as int) =~= members@);
        r
    }
}

} // verus!
