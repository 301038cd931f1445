//! A hierarchy of terms: each term with its child terms, and the root terms.
use vstd::prelude::*;

use std::collections::HashMap;

verus! {

broadcast use vstd::std_specs::hash::group_hash_axioms;

/// Terms arranged in a forest: each term's children in order of addition,
/// and the roots in order of addition.
pub struct Hierarchy {
    children: HashMap<u64, Vec<u64>>,
    roots: Vec<u64>,
}

impl Hierarchy {
    /// The child terms of each term.
    pub closed spec fn children_view(&self) -> Map<u64, Seq<u64>> {
        self.children@.map_values(|v: Vec<u64>| v@)
    }

    /// The root terms.
    pub closed spec fn roots_view(&self) -> Seq<u64> {
        self.roots@
    }

    /// An empty hierarchy.
    pub fn new() -> (r: Self)
        ensures
            r.children_view() == Map::<u64, Seq<u64>>::empty(),
            r.roots_view() == Seq::<u64>::empty(),
    {
        let r = Hierarchy { children: HashMap::new(), roots: Vec::new() };
        assert(r.children_view() =~= Map::<u64, Seq<u64>>::empty());
        r
    }

    /// Adds `term` under `parent`, or as a root. The term must be new and
    /// the parent already added.
    pub fn add_element(&mut self, term: u64, parent: Option<u64>)
        requires
            !old(self).children_view().contains_key(term),
            parent is Some ==> old(self).children_view().contains_key(parent->Some_0),
        ensures
            parent is None ==> final(self).children_view() == old(self).children_view().insert(term, Seq::<u64>::empty())
                && final(self).roots_view() == old(self).roots_view().push(term),
            parent is Some ==> final(self).children_view() == old(self).children_view().insert(term, Seq::<u64>::empty()).insert(
                parent->Some_0,
                old(self).children_view()[parent->Some_0].push(term),
            ) && final(self).roots_view() == old(self).roots_view(),
    {
        let ghost old_view = self.children_view();
        self.children.insert(term, Vec::new());
        match parent {
            Some(p) => {
                let ghost mid = self.children@;
                let siblings = self.children.remove(&p);
                match siblings {
                    Some(mut list) => {
                        let ghost before = list@;
                        list.push(term);
                        self.children.insert(p, list);
                        proof {
                            assert(before == old_view[p]);
                            assert(self.children_view() =~= old_view.insert(term, Seq::<u64>::empty()).insert(p, old_view[p].push(term)));
                        }
                    },
                    None => {
                        assert(mid.contains_key(p));
                    },
                }
            },
            None => {
                self.roots.push(term);
                assert(self.children_view() =~= old_view.insert(term, Seq::<u64>::empty()));
            },
        }
    }

    /// The child terms of `term`, if it has been added.
    pub fn get_child_terms(&self, term: u64) -> (r: Option<&[u64]>)
        ensures
            self.children_view().contains_key(term) ==> r is Some && r->Some_0@ == self.children_view()[term],
            !self.children_view().contains_key(term) ==> r is None,
    {
        match self.children.get(&term) {
            Some(node) => Some(node.as_slice()),
            None => None,
        }
    }

    /// The root terms.
    pub fn get_root_terms(&self) -> (r: &[u64])
        ensures
            r@ == self.roots_view(),
    {
        self.roots.as_slice()
    }
}

} // verus!
