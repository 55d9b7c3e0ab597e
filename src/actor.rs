//! Actions that actors take.
use vstd::prelude::*;
use crate::grid::Pos;

verus! {

/// Try to move a single tile from the current position.
#[derive(Debug)]
pub struct Move1(pub Pos);

/// Follow a path, one step per turn.
#[derive(Debug)]
pub struct FollowPath {
    path: Vec<Pos>,
}

impl FollowPath {
    /// The steps still to take, the next one first.
    pub closed spec fn steps(&self) -> Seq<Pos> {
        self.path@.reverse()
    }

    /// Follow `path`, given from the first step to the target; `None` when it is
    /// empty, as when no path was found.
    pub fn try_new(path: Vec<Pos>) -> (r: Option<FollowPath>)
        ensures
            match r {
                None => path@.len() == 0,
                Some(f) => f.steps() == path@,
            },
    {
        if path.len() == 0 {
            return None;
        }
        let mut rev: Vec<Pos> = Vec::new();
        let mut i: usize = path.len();
        while i > 0
            invariant
                i <= path@.len(),
                rev@.len() == path@.len() - i,
                forall|j: int| 0 <= j < rev@.len() ==> rev@[j] == path@[path@.len() - 1 - j],
            decreases i,
        {
            i -= 1;
            rev.push(path[i]);
        }
        let r = FollowPath { path: rev };
        proof {
            assert(r.path@.reverse() =~= path@);
        }
        Some(r)
    }

    /// Whether any step is left.
    pub fn retain(&self) -> (r: bool)
        ensures
            r == (self.steps().len() > 0),
    {
        self.path.len() > 0
    }

    /// Takes the next step off the path.
    pub fn next_step(&mut self) -> (r: Option<Pos>)
        ensures
            old(self).steps().len() == 0 ==> r is None && final(self).steps() == old(self).steps(),
            old(self).steps().len() > 0 ==> r == Some(old(self).steps()[0]) && final(self).steps()
                == old(self).steps().subrange(1, old(self).steps().len() as int),
    {
        let r = self.path.pop();
        proof {
            if old(self).path@.len() > 0 {
                assert(self.path@.reverse() =~= old(self).path@.reverse().subrange(
                    1,
                    old(self).path@.len() as int,
                ));
            }
        }
        r
    }
}

} // verus!
