//! Account records.

use vstd::prelude::*;

verus! {

/// An account record. The recommended-problem ids form a set: a valid
/// record holds each id at most once.
#[derive(Clone, Debug)]
pub struct User {
    pub id: i32,
    pub name: String,
    pub pass: String,
    pub recommended_ids: Vec<i32>,
}

impl User {
    /// A valid user record: the recommended ids hold no duplicates.
    pub open spec fn wf(self) -> bool {
        self.recommended_ids@.no_duplicates()
    }

    /// Whether this user currently recommends the problem with this id.
    pub fn has_recommended(&self, id: i32) -> (r: bool)
        ensures
            r == self.recommended_ids@.contains(id),
    {
        let n = self.recommended_ids.len();
        let mut i: usize = 0;
        while i < n
            invariant
                0 <= i <= n == self.recommended_ids@.len(),
                forall|k: int| 0 <= k < i ==> self.recommended_ids@[k] != id,
            decreases n - i,
        {
            if self.recommended_ids[i] == id {
                return true;
            }
            i = i + 1;
        }
        false
    }
}

} // verus!
