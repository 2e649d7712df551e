//! A finite set of names.
use vstd::prelude::*;

verus! {

pub open spec fn name_views(v: Seq<String>) -> Seq<Seq<char>> {
    v.map_values(|s: String| s@)
}

/// A finite set of names, kept as a list.
pub struct NameSet {
    names: Vec<String>,
}

impl NameSet {
    pub closed spec fn view(&self) -> Set<Seq<char>> {
        name_views(self.names@).to_set()
    }

    pub fn new() -> (r: Self)
        ensures
            r.view() == Set::<Seq<char>>::empty(),
    {
        let r = NameSet { names: Vec::new() };
        assert(name_views(r.names@).to_set() =~= Set::<Seq<char>>::empty());
        r
    }

    pub fn contains(&self, name: &str) -> (r: bool)
        ensures
            r == self.view().contains(name@),
    {
        let key = name.to_owned();
        let mut i: usize = 0;
        while i < self.names.len()
            invariant
                i <= self.names@.len(),
                key@ == name@,
                forall|j: int| 0 <= j < i ==> self.names@[j]@ != name@,
            decreases self.names@.len() - i,
        {
            if self.names[i] == key {
                assert(name_views(self.names@)[i as int] == name@);
                return true;
            }
            i += 1;
        }
        proof {
            if name_views(self.names@).to_set().contains(name@) {
                let j = choose|j: int| 0 <= j < name_views(self.names@).len() && name_views(self.names@)[j] == name@;
                assert(self.names@[j]@ == name@);
            }
        }
        false
    }

    pub fn insert(&mut self, name: &str)
        ensures
            final(self).view() == old(self).view().insert(name@),
    {
        let ghost before = self.names@;
        self.names.push(name.to_owned());
        assert(name_views(self.names@) =~= name_views(before).push(name@));
        assert(name_views(self.names@).to_set() =~= name_views(before).to_set().insert(name@)) by {
            assert forall|x: Seq<char>| name_views(self.names@).to_set().contains(x) implies
                name_views(before).to_set().insert(name@).contains(x) by {
                let j = choose|j: int| 0 <= j < name_views(self.names@).len() && name_views(self.names@)[j] == x;
                if j < before.len() {
                    assert(name_views(before)[j] == x);
                }
            }
            assert forall|x: Seq<char>| name_views(before).to_set().insert(name@).contains(x) implies
                name_views(self.names@).to_set().contains(x) by {
                if x == name@ {
                    assert(name_views(self.names@)[before.len() as int] == x);
                } else {
                    let j = choose|j: int| 0 <= j < name_views(before).len() && name_views(before)[j] == x;
                    assert(name_views(self.names@)[j] == x);
                }
            }
        }
    }

    /// A copy of this set.
    pub fn duplicate(&self) -> (r: Self)
        ensures
            r.view() == self.view(),
    {
        let mut names: Vec<String> = Vec::new();
        let mut i: usize = 0;
        while i < self.names.len()
            invariant
                i <= self.names@.len(),
                name_views(names@) == name_views(self.names@).subrange(0, i as int),
            decreases self.names@.len() - i,
        {
            let ghost b = names@;
            names.push(self.names[i].clone());
            assert(name_views(names@) =~= name_views(b).push(self.names@[i as int]@));
            i += 1;
            assert(name_views(names@) =~= name_views(self.names@).subrange(0, i as int));
        }
        assert(name_views(names@) =~= name_views(self.names@));
        NameSet { names }
    }

    /// Whether some name of this set is in `other`; if so, one such name.
    pub fn find_common(&self, other: &NameSet) -> (r: Option<String>)
        ensures
            r is None <==> self.view().disjoint(other.view()),
            r matches Some(n) ==> self.view().contains(n@) && other.view().contains(n@),
    {
        let mut i: usize = 0;
        while i < self.names.len()
            invariant
                i <= self.names@.len(),
                forall|j: int| 0 <= j < i ==> !other.view().contains(#[trigger] self.names@[j]@),
            decreases self.names@.len() - i,
        {
            if other.contains(self.names[i].as_str()) {
                assert(name_views(self.names@)[i as int] == self.names@[i as int]@);
                return Some(self.names[i].clone());
            }
            i += 1;
        }
        proof {
            assert forall|x: Seq<char>| self.view().contains(x) implies !other.view().contains(x) by {
                let j = choose|j: int| 0 <= j < name_views(self.names@).len() && name_views(self.names@)[j] == x;
                assert(self.names@[j]@ == x);
            }
        }
        None
    }
}

} // verus!
