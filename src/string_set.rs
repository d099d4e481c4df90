//! A set of strings kept in ascending order, so that walking it is
//! deterministic.
use vstd::prelude::*;

use crate::text::{lex_lt, locate, strictly_sorted, views};

verus! {

/// Strings in strictly ascending lexicographic order.
#[derive(Debug)]
pub struct StringSet {
    items: Vec<String>,
}

impl View for StringSet {
    type V = Set<Seq<char>>;

    closed spec fn view(&self) -> Set<Seq<char>> {
        views(self.items@).to_set()
    }
}

/// Inserting `k` at its place `i` in a strictly sorted sequence keeps it
/// sorted.
pub proof fn lemma_insert_sorted(k: Seq<Seq<char>>, i: int, x: Seq<char>)
    requires
        strictly_sorted(k),
        0 <= i <= k.len(),
        forall|j: int| 0 <= j < i ==> lex_lt(#[trigger] k[j], x),
        forall|j: int| i <= j < k.len() ==> lex_lt(x, #[trigger] k[j]),
    ensures
        strictly_sorted(k.insert(i, x)),
{
    let n = k.insert(i, x);
    assert forall|a: int, b: int| 0 <= a < b < n.len() implies lex_lt(#[trigger] n[a], #[trigger] n[b]) by {
        if a < i && b < i {
            assert(lex_lt(k[a], k[b]));
        } else if a < i && b == i {
        } else if a < i {
            assert(lex_lt(k[a], k[b - 1]));
        } else if a == i {
            assert(lex_lt(x, k[b - 1]));
        } else {
            assert(lex_lt(k[a - 1], k[b - 1]));
        }
    }
}

/// The views of `v` after inserting `s` at `i`.
pub proof fn lemma_views_insert(v: Seq<String>, i: int, s: String)
    requires
        0 <= i <= v.len(),
    ensures
        views(v.insert(i, s)) == views(v).insert(i, s@),
{
    assert(views(v.insert(i, s)) =~= views(v).insert(i, s@));
}

impl StringSet {
    /// The strings in the order in which `items` hands them out.
    pub closed spec fn ordered(&self) -> Seq<Seq<char>> {
        views(self.items@)
    }

    pub closed spec fn wf(&self) -> bool {
        strictly_sorted(views(self.items@))
    }

    /// The order is ascending and the set is what `ordered` holds.
    pub proof fn lemma_ordered(&self)
        requires
            self.wf(),
        ensures
            strictly_sorted(self.ordered()),
            self.ordered().to_set() == self@,
            self.ordered().len() == self@.len(),
    {
        crate::text::lemma_strictly_sorted_no_duplicates(self.ordered());
        self.ordered().unique_seq_to_set();
    }

    pub fn new() -> (r: StringSet)
        ensures
            r.wf(),
            r@ == Set::<Seq<char>>::empty(),
    {
        let r = StringSet { items: Vec::new() };
        assert(views(r.items@) =~= Seq::<Seq<char>>::empty());
        r
    }

    /// Adds `name`; a string already present is not added twice.
    pub fn insert(&mut self, name: String)
        requires
            old(self).wf(),
        ensures
            final(self).wf(),
            final(self)@ == old(self)@.insert(name@),
    {
        let (found, i) = locate(&self.items, name.as_str());
        if found {
            proof {
                assert(views(self.items@)[i as int] == name@);
                assert(self@.contains(name@));
                assert(self@.insert(name@) =~= self@);
            }
        } else {
            proof {
                assert forall|j: int| 0 <= j < i implies lex_lt(#[trigger] views(self.items@)[j], name@) by {
                    assert(views(self.items@)[j] == self.items@[j]@);
                }
                assert forall|j: int| i <= j < views(self.items@).len() implies lex_lt(name@, #[trigger] views(self.items@)[j]) by {
                    assert(views(self.items@)[j] == self.items@[j]@);
                }
                lemma_insert_sorted(views(self.items@), i as int, name@);
                lemma_views_insert(self.items@, i as int, name);
            }
            let ghost before = views(self.items@);
            self.items.insert(i, name);
            proof {
                let after = views(self.items@);
                assert(after == before.insert(i as int, name@));
                assert(after.to_set() =~= before.to_set().insert(name@)) by {
                    assert forall|x: Seq<char>| after.contains(x) <==> before.contains(x) || x == name@ by {
                        if after.contains(x) {
                            let j = choose|j: int| 0 <= j < after.len() && after[j] == x;
                            if j < i {
                                assert(before[j] == x);
                            } else if j > i {
                                assert(before[j - 1] == x);
                            }
                        }
                        if before.contains(x) {
                            let j = choose|j: int| 0 <= j < before.len() && before[j] == x;
                            if j < i {
                                assert(after[j] == x);
                            } else {
                                assert(after[j + 1] == x);
                            }
                        }
                        if x == name@ {
                            assert(after[i as int] == x);
                        }
                    }
                }
            }
        }
    }

    pub fn contains(&self, name: &str) -> (r: bool)
        requires
            self.wf(),
        ensures
            r == self@.contains(name@),
    {
        let (found, i) = locate(&self.items, name);
        proof {
            if found {
                assert(views(self.items@)[i as int] == name@);
            } else if self@.contains(name@) {
                let j = choose|j: int| 0 <= j < views(self.items@).len() && views(self.items@)[j] == name@;
                assert(views(self.items@)[j] == self.items@[j]@);
                crate::text::lemma_lex_irreflexive(name@);
            }
        }
        found
    }

    /// Number of strings.
    pub fn len(&self) -> (r: usize)
        requires
            self.wf(),
        ensures
            r == self@.len(),
            r == self.ordered().len(),
    {
        proof {
            self.lemma_ordered();
        }
        self.items.len()
    }

    pub fn is_empty(&self) -> (r: bool)
        requires
            self.wf(),
        ensures
            r == (self@.len() == 0),
    {
        self.len() == 0
    }

    /// The strings in ascending order.
    pub fn items(&self) -> (r: &Vec<String>)
        ensures
            views(r@) == self.ordered(),
    {
        &self.items
    }
}

} // verus!
