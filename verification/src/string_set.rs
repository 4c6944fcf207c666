//! Ordered sets of strings.

use vstd::prelude::*;
use crate::order;
use crate::order::Order;
use crate::text;

verus! {

/// Each string of the sequence comes before all that follow it.
pub open spec fn ascending(s: Seq<Seq<char>>) -> bool {
    forall|i: int, j: int|
        0 <= i < j < s.len() ==> order::str_lt(#[trigger] s[i], #[trigger] s[j])
}

/// `s` lists the elements of `set`, each once, in ascending order.
pub open spec fn lists(s: Seq<Seq<char>>, set: Set<Seq<char>>) -> bool {
    ascending(s) && s.to_set() == set
}

/// The elements of a finite set in ascending order.
pub open spec fn listing(set: Set<Seq<char>>) -> Seq<Seq<char>> {
    choose|s: Seq<Seq<char>>| lists(s, set)
}

/// A set of strings, kept as a vector in ascending order without repetitions.
pub struct StringSet {
    items: Vec<String>,
}

impl View for StringSet {
    type V = Set<Seq<char>>;

    open spec fn view(&self) -> Set<Seq<char>> {
        self.elements().to_set()
    }
}

impl StringSet {
    /// The elements in the order in which they are kept.
    pub closed spec fn elements(&self) -> Seq<Seq<char>> {
        text::texts(self.items@)
    }

    /// The elements are kept in ascending order, none of them twice.
    pub open spec fn wf(&self) -> bool {
        ascending(self.elements())
    }

    pub fn new() -> (set: Self)
        ensures
            set.wf(),
            set@ == Set::<Seq<char>>::empty(),
    {
        let set = StringSet { items: Vec::new() };
        assert(set@ =~= Set::<Seq<char>>::empty());
        set
    }

    /// Finds the position of `s`, or the position at which it would have to be inserted.
    pub fn find(&self, s: &str) -> (position: Result<usize, usize>)
        requires
            self.wf(),
        ensures
            match position {
                Ok(i) => i < self.elements().len() && self.elements()[i as int] == s@,
                Err(i) => {
                    &&& i <= self.elements().len()
                    &&& forall|j: int|
                        0 <= j < i ==> order::str_lt(#[trigger] self.elements()[j], s@)
                    &&& forall|j: int|
                        i <= j < self.elements().len() ==> order::str_lt(
                            s@,
                            #[trigger] self.elements()[j],
                        )
                },
            },
            position is Ok <==> self@.contains(s@),
    {
        let ghost elements = self.elements();
        let mut low: usize = 0;
        let mut high: usize = self.items.len();
        while low < high
            invariant
                elements == text::texts(self.items@),
                elements == self.elements(),
                ascending(elements),
                low <= high <= self.items.len(),
                forall|j: int| 0 <= j < low ==> order::str_lt(#[trigger] elements[j], s@),
                forall|j: int|
                    high <= j < elements.len() ==> order::str_lt(s@, #[trigger] elements[j]),
            decreases high - low,
        {
            let middle: usize = low + (high - low) / 2;
            match order::compare_str(self.items[middle].as_str(), s) {
                Order::Equal => {
                    assert(elements[middle as int] == s@);
                    return Ok(middle);
                },
                Order::Less => {
                    assert forall|j: int| 0 <= j < middle + 1 implies order::str_lt(
                        #[trigger] elements[j],
                        s@,
                    ) by {
                        if j < middle {
                            order::lemma_str_lt_transitive(
                                elements[j],
                                elements[middle as int],
                                s@,
                            );
                        }
                    }
                    low = middle + 1;
                },
                Order::Greater => {
                    assert forall|j: int| middle <= j < elements.len() implies order::str_lt(
                        s@,
                        #[trigger] elements[j],
                    ) by {
                        if middle < j {
                            order::lemma_str_lt_transitive(
                                s@,
                                elements[middle as int],
                                elements[j],
                            );
                        }
                    }
                    high = middle;
                },
            }
        }
        proof {
            if elements.contains(s@) {
                let j = choose|j: int| 0 <= j < elements.len() && elements[j] == s@;
                order::lemma_str_lt_irreflexive(s@);
            }
        }
        Err(low)
    }

    /// Whether `s` is in the set.
    pub fn contains(&self, s: &str) -> (yes: bool)
        requires
            self.wf(),
        ensures
            yes == self@.contains(s@),
    {
        match self.find(s) {
            Ok(_) => true,
            Err(_) => false,
        }
    }

    /// Adds `s`. Returns whether it was not in the set before.
    pub fn insert(&mut self, s: String) -> (added: bool)
        requires
            old(self).wf(),
        ensures
            final(self).wf(),
            final(self)@ == old(self)@.insert(s@),
            added == !old(self)@.contains(s@),
            added ==> exists|i: int|
                {
                    &&& 0 <= i <= old(self).elements().len()
                    &&& #[trigger] old(self).elements().insert(i, s@) == final(self).elements()
                },
            !added ==> *final(self) == *old(self),
    {
        match self.find(s.as_str()) {
            Ok(_) => {
                assert(self@ =~= old(self)@.insert(s@));
                false
            },
            Err(i) => {
                self.insert_at(i, s);
                true
            },
        }
    }

    /// Adds `s`, which is not in the set yet, at the position that belongs to it.
    pub fn insert_at(&mut self, i: usize, s: String)
        requires
            old(self).wf(),
            i <= old(self).elements().len(),
            forall|j: int|
                0 <= j < i ==> order::str_lt(#[trigger] old(self).elements()[j], s@),
            forall|j: int|
                i <= j < old(self).elements().len() ==> order::str_lt(
                    s@,
                    #[trigger] old(self).elements()[j],
                ),
        ensures
            final(self).wf(),
            final(self).elements() == old(self).elements().insert(i as int, s@),
            final(self)@ == old(self)@.insert(s@),
    {
        let ghost before = self.elements();
        let ghost name = s@;
        self.items.insert(i, s);
        proof {
            assert(self.elements() =~= before.insert(i as int, name));
            lemma_to_set_insert(before, i as int, name);
        }
    }

    /// Removes the element at position `i`.
    pub fn remove_at(&mut self, i: usize)
        requires
            old(self).wf(),
            i < old(self).elements().len(),
        ensures
            final(self).wf(),
            final(self).elements() == old(self).elements().remove(i as int),
            final(self)@ == old(self)@.remove(old(self).elements()[i as int]),
    {
        let ghost before = self.elements();
        let _ = self.items.remove(i);
        proof {
            assert(self.elements() =~= before.remove(i as int));
            lemma_to_set_remove(before, i as int);
        }
    }

    /// Removes `s`. Returns whether it was in the set.
    pub fn remove(&mut self, s: &str) -> (removed: bool)
        requires
            old(self).wf(),
        ensures
            final(self).wf(),
            final(self)@ == old(self)@.remove(s@),
            removed == old(self)@.contains(s@),
    {
        match self.find(s) {
            Ok(i) => {
                self.remove_at(i);
                true
            },
            Err(_) => {
                assert(self@ =~= old(self)@.remove(s@));
                false
            },
        }
    }

    /// Number of elements.
    pub fn len(&self) -> (n: usize)
        requires
            self.wf(),
        ensures
            n == self.elements().len(),
            self@.finite(),
            n == self@.len(),
    {
        proof {
            lemma_ascending_no_duplicates(self.elements());
            self.elements().unique_seq_to_set();
        }
        self.items.len()
    }

    /// Whether the set has no element.
    pub fn is_empty(&self) -> (yes: bool)
        ensures
            yes == (self.elements().len() == 0),
            yes == (self@ == Set::<Seq<char>>::empty()),
    {
        proof {
            if self.elements().len() > 0 {
                assert(self@.contains(self.elements()[0]));
            } else {
                assert(self@ =~= Set::<Seq<char>>::empty());
            }
        }
        self.items.len() == 0
    }

    /// The element at position `i` in ascending order.
    pub fn get(&self, i: usize) -> (s: &String)
        requires
            i < self.elements().len(),
        ensures
            s@ == self.elements()[i as int],
    {
        &self.items[i]
    }

    /// The elements in ascending order.
    pub fn to_vec(&self) -> (v: Vec<String>)
        ensures
            text::texts(v@) == self.elements(),
    {
        let mut v: Vec<String> = Vec::new();
        let mut i: usize = 0;
        while i < self.items.len()
            invariant
                i <= self.items.len(),
                text::texts(v@) == self.elements().take(i as int),
            decreases self.items.len() - i,
        {
            let ghost before = text::texts(v@);
            v.push(self.items[i].clone());
            assert(text::texts(v@) =~= before.push(self.elements()[i as int]));
            i += 1;
            assert(text::texts(v@) =~= self.elements().take(i as int));
        }
        assert(self.elements().take(i as int) =~= self.elements());
        v
    }

    /// A second set with the same elements.
    pub fn duplicate(&self) -> (set: StringSet)
        ensures
            set.elements() == self.elements(),
    {
        StringSet { items: self.to_vec() }
    }

    /// The elements that are not in `other`, in ascending order.
    pub fn difference(&self, other: &StringSet) -> (v: Vec<String>)
        requires
            self.wf(),
            other.wf(),
        ensures
            lists(text::texts(v@), self@.difference(other@)),
    {
        let mut v: Vec<String> = Vec::new();
        let mut i: usize = 0;
        let ghost elements = self.elements();
        assert(text::texts(v@).to_set() =~= elements.take(0).to_set().difference(other@));
        while i < self.items.len()
            invariant
                self.wf(),
                other.wf(),
                elements == self.elements(),
                elements == text::texts(self.items@),
                i <= self.items.len(),
                lists(
                    text::texts(v@),
                    elements.take(i as int).to_set().difference(other@),
                ),
            decreases self.items.len() - i,
        {
            let ghost before = text::texts(v@);
            let ghost element = elements[i as int];
            proof {
                let done = elements.take(i as int);
                assert forall|k: int| 0 <= k < before.len() implies order::str_lt(
                    #[trigger] before[k],
                    element,
                ) by {
                    assert(before.to_set().contains(before[k]));
                    let j = choose|j: int| 0 <= j < done.len() && done[j] == before[k];
                    assert(done[j] == elements[j]);
                }
                assert(elements.take(i + 1) =~= done.insert(i as int, element));
                lemma_to_set_insert(done, i as int, element);
            }
            if !other.contains(self.items[i].as_str()) {
                v.push(self.items[i].clone());
                proof {
                    assert(text::texts(v@) =~= before.insert(before.len() as int, element));
                    lemma_to_set_insert(before, before.len() as int, element);
                }
            }
            i += 1;
            assert(text::texts(v@).to_set() =~= elements.take(i as int).to_set().difference(
                other@,
            ));
        }
        assert(elements.take(i as int) =~= elements);
        v
    }
}

pub proof fn lemma_to_set_insert(s: Seq<Seq<char>>, i: int, x: Seq<char>)
    requires
        0 <= i <= s.len(),
    ensures
        s.insert(i, x).to_set() == s.to_set().insert(x),
{
    let t = s.insert(i, x);
    assert(t[i] == x);
    assert forall|y: Seq<char>| s.contains(y) implies t.contains(y) by {
        let k = choose|k: int| 0 <= k < s.len() && s[k] == y;
        assert(t[if k < i { k } else { k + 1 }] == y);
    }
    assert(t.to_set() =~= s.to_set().insert(x));
}

pub proof fn lemma_to_set_remove(s: Seq<Seq<char>>, i: int)
    requires
        0 <= i < s.len(),
        ascending(s),
    ensures
        ascending(s.remove(i)),
        s.remove(i).to_set() == s.to_set().remove(s[i]),
{
    let t = s.remove(i);
    lemma_ascending_no_duplicates(s);
    assert forall|y: Seq<char>| s.contains(y) && y != s[i] implies t.contains(y) by {
        let k = choose|k: int| 0 <= k < s.len() && s[k] == y;
        assert(t[if k < i { k } else { k - 1 }] == y);
    }
    assert(t.to_set() =~= s.to_set().remove(s[i]));
}

pub proof fn lemma_ascending_no_duplicates(s: Seq<Seq<char>>)
    requires
        ascending(s),
    ensures
        s.no_duplicates(),
{
    assert forall|i: int, j: int| 0 <= i < j < s.len() implies s[i] != s[j] by {
        order::lemma_str_lt_asymmetric(s[i], s[j]);
    }
}

pub proof fn lemma_ascending_skip(s: Seq<Seq<char>>, k: int)
    requires
        ascending(s),
        0 <= k <= s.len(),
    ensures
        ascending(s.skip(k)),
{
}

/// A set has only one listing in ascending order.
pub proof fn law_listing_is_unique(a: Seq<Seq<char>>, b: Seq<Seq<char>>, set: Set<Seq<char>>)
    requires
        lists(a, set),
        lists(b, set),
    ensures
        a == b,
    decreases a.len(),
{
    if a.len() == 0 || b.len() == 0 {
        if a.len() > 0 {
            assert(set.contains(a[0]));
        }
        if b.len() > 0 {
            assert(set.contains(b[0]));
        }
        assert(a =~= b);
    } else {
        let x = a.last();
        let y = b.last();
        assert(set.contains(x) && set.contains(y));
        let i = choose|i: int| 0 <= i < b.len() && b[i] == x;
        let j = choose|j: int| 0 <= j < a.len() && a[j] == y;
        if x != y {
            order::lemma_str_lt_asymmetric(x, y);
        }
        lemma_to_set_remove(a, a.len() - 1);
        lemma_to_set_remove(b, b.len() - 1);
        assert(a.remove(a.len() - 1) =~= a.drop_last());
        assert(b.remove(b.len() - 1) =~= b.drop_last());
        law_listing_is_unique(a.drop_last(), b.drop_last(), set.remove(x));
        assert(a =~= a.drop_last().push(x));
        assert(b =~= b.drop_last().push(x));
    }
}

/// What lists a set is its listing.
pub proof fn lemma_is_listing(s: Seq<Seq<char>>, set: Set<Seq<char>>)
    requires
        lists(s, set),
    ensures
        listing(set) == s,
{
    law_listing_is_unique(listing(set), s, set);
}

/// A listing with one more element in its place.
proof fn lemma_insert_into_listing(s: Seq<Seq<char>>, x: Seq<char>) -> (t: Seq<Seq<char>>)
    requires
        ascending(s),
        !s.contains(x),
    ensures
        lists(t, s.to_set().insert(x)),
    decreases s.len(),
{
    if s.len() == 0 || order::str_lt(s.last(), x) {
        assert forall|i: int| 0 <= i < s.len() implies order::str_lt(#[trigger] s[i], x) by {
            if i < s.len() - 1 {
                order::lemma_str_lt_transitive(s[i], s[s.len() - 1], x);
            }
        }
        lemma_to_set_insert(s, s.len() as int, x);
        assert(s.push(x) =~= s.insert(s.len() as int, x));
        s.push(x)
    } else {
        let last = s[s.len() - 1];
        let before = s.drop_last();
        assert(s.contains(last));
        order::lemma_str_lt_total(last, x);
        assert(!before.contains(x)) by {
            if before.contains(x) {
                let k = choose|k: int| 0 <= k < before.len() && before[k] == x;
                assert(s[k] == x);
            }
        }
        let front = lemma_insert_into_listing(before, x);
        assert forall|i: int| 0 <= i < front.len() implies order::str_lt(
            #[trigger] front[i],
            last,
        ) by {
            assert(front.to_set().contains(front[i]));
            if front[i] != x {
                let k = choose|k: int| 0 <= k < before.len() && before[k] == front[i];
                assert(s[k] == front[i]);
            }
        }
        lemma_to_set_insert(front, front.len() as int, last);
        lemma_to_set_insert(before, before.len() as int, last);
        assert(front.push(last) =~= front.insert(front.len() as int, last));
        assert(s =~= before.insert(before.len() as int, last));
        assert(front.push(last).to_set() =~= s.to_set().insert(x));
        front.push(last)
    }
}

/// Every finite set has a listing in ascending order.
pub proof fn law_finite_set_has_a_listing(set: Set<Seq<char>>)
    requires
        set.finite(),
    ensures
        lists(listing(set), set),
    decreases set.len(),
{
    if set == Set::<Seq<char>>::empty() {
        let none = Seq::<Seq<char>>::empty();
        assert(none.to_set() =~= set);
        assert(lists(none, set));
    } else {
        let x = set.choose();
        assert(set.contains(x)) by {
            if forall|y: Seq<char>| !set.contains(y) {
                assert(set =~= Set::<Seq<char>>::empty());
            }
        }
        let rest = set.remove(x);
        law_finite_set_has_a_listing(rest);
        let before = listing(rest);
        if before.contains(x) {
            assert(before.to_set().contains(x));
        }
        let t = lemma_insert_into_listing(before, x);
        assert(rest.insert(x) =~= set);
        assert(lists(t, set));
    }
}

/// What lists a set holds each of its elements once, and nothing else, a smaller one before
/// a greater one.
pub proof fn law_listing_holds_each_element_once(s: Seq<Seq<char>>, set: Set<Seq<char>>)
    requires
        lists(s, set),
    ensures
        s.no_duplicates(),
        forall|x: Seq<char>| s.contains(x) <==> set.contains(x),
        forall|i: int, j: int|
            0 <= i < j < s.len() ==> order::str_lt(#[trigger] s[i], #[trigger] s[j]),
{
    lemma_ascending_no_duplicates(s);
    assert forall|x: Seq<char>| s.contains(x) <==> set.contains(x) by {
        assert(s.to_set().contains(x) <==> s.contains(x));
    }
}

} // verus!
