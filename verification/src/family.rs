use vstd::prelude::*;
use vstd::slice::slice_index_get;

verus! {

/// A family: a group of people who must never be assigned to give a gift
/// to one of their own. `people` is the family's remaining roster; names
/// are removed from its end as they are placed into an assignment.
/// `first` marks the family that contributed the very first placed name;
/// it raises the family's priority among equals so the first-placed family
/// is not also stranded as the last one.
#[derive(Debug)]
pub struct Family {
    pub people: Vec<String>,
    pub first: bool,
}

impl Family {
    /// The remaining roster, as a sequence of names.
    pub open spec fn names(&self) -> Seq<Seq<char>> {
        self.people@.map_values(|s: String| s@)
    }

    /// How many people remain in the roster.
    pub open spec fn size(&self) -> int {
        self.people@.len() as int
    }

    /// A family comes before another when its roster is smaller, or when the
    /// rosters are equal in size and only the other carries the `first` mark.
    pub open spec fn prio_lt(self, other: Family) -> bool {
        ||| self.size() < other.size()
        ||| (self.size() == other.size() && !self.first && other.first)
    }

    /// Builds a family from borrowed names, copying each into an owned string.
    pub fn new(people: Vec<&str>) -> (f: Family)
        ensures
            f.people@.len() == people@.len(),
            forall|i: int| 0 <= i < people@.len() ==> f.people@[i]@ == people@[i]@,
            !f.first,
    {
        let mut owned: Vec<String> = Vec::new();
        let mut i: usize = 0;
        while i < people.len()
            invariant
                i <= people@.len(),
                owned@.len() == i,
                forall|k: int| 0 <= k < i ==> owned@[k]@ == people@[k]@,
            decreases people@.len() - i,
        {
            owned.push(people[i].to_owned());
            i += 1;
        }
        Family { people: owned, first: false }
    }

    /// Builds a family from a borrowed slice of names.
    pub fn new2(people: &[&str]) -> (f: Family)
        ensures
            f.people@.len() == people@.len(),
            forall|i: int| 0 <= i < people@.len() ==> f.people@[i]@ == people@[i]@,
            !f.first,
    {
        let mut owned: Vec<String> = Vec::new();
        let mut i: usize = 0;
        while i < people.len()
            invariant
                i <= people@.len(),
                owned@.len() == i,
                forall|k: int| 0 <= k < i ==> owned@[k]@ == people@[k]@,
            decreases people@.len() - i,
        {
            owned.push((*slice_index_get(people, i)).to_owned());
            i += 1;
        }
        Family { people: owned, first: false }
    }
}

/// Whether `a` comes strictly before `b` in priority; the executable
/// counterpart of [`Family::prio_lt`].
pub(crate) fn prio_less(a: &Family, b: &Family) -> (r: bool)
    ensures
        r == a.prio_lt(*b),
{
    a.people.len() < b.people.len() || (a.people.len() == b.people.len() && !a.first && b.first)
}

impl PartialEq for Family {
    /// Two families are equal when their rosters spell the same names in the
    /// same order and their `first` marks agree.
    fn eq(&self, other: &Family) -> (r: bool) {
        if self.first != other.first || self.people.len() != other.people.len() {
            return false;
        }
        let mut i: usize = 0;
        while i < self.people.len()
            invariant
                i <= self.people@.len(),
                self.people@.len() == other.people@.len(),
                self.first == other.first,
                forall|k: int| 0 <= k < i ==> self.people@[k]@ == other.people@[k]@,
            decreases self.people@.len() - i,
        {
            if !(self.people[i] == other.people[i]) {
                return false;
            }
            i += 1;
        }
        true
    }
}

impl vstd::std_specs::cmp::PartialEqSpecImpl for Family {
    open spec fn obeys_eq_spec() -> bool {
        true
    }

    open spec fn eq_spec(&self, other: &Family) -> bool {
        &&& self.first == other.first
        &&& self.people@.len() == other.people@.len()
        &&& forall|k: int| 0 <= k < self.people@.len() ==> self.people@[k]@ == other.people@[k]@
    }
}

} // verus!
