//! A table of named values, kept in the order in which the names came.
//!
//! Its model is a sequence of name-value pairs in which no name occurs twice.
use crate::text;
use vstd::prelude::*;

verus! {

/// Name-value pairs, in order.
pub type Pairs<T> = Seq<(Seq<char>, T)>;

/// The names of the pairs, in order.
pub open spec fn names<T>(pairs: Pairs<T>) -> Seq<Seq<char>> {
    pairs.map_values(|p: (Seq<char>, T)| p.0)
}

/// The values of the pairs, in order.
pub open spec fn values<T>(pairs: Pairs<T>) -> Seq<T> {
    pairs.map_values(|p: (Seq<char>, T)| p.1)
}

/// The place of the first pair with the given name, or the number of pairs.
pub open spec fn place<T>(pairs: Pairs<T>, name: Seq<char>) -> nat
    decreases pairs.len(),
{
    if pairs.len() == 0 || pairs[0].0 == name {
        0
    } else {
        1 + place(pairs.skip(1), name)
    }
}

/// The value of the given name.
pub open spec fn lookup<T>(pairs: Pairs<T>, name: Seq<char>) -> Option<T> {
    if place(pairs, name) < pairs.len() {
        Some(pairs[place(pairs, name) as int].1)
    } else {
        None
    }
}

/// The pairs with `name` bound to `value`: in place where the name is known,
/// else at the end.
pub open spec fn inserted<T>(pairs: Pairs<T>, name: Seq<char>, value: T) -> Pairs<T> {
    if place(pairs, name) < pairs.len() {
        pairs.update(place(pairs, name) as int, (name, value))
    } else {
        pairs.push((name, value))
    }
}

/// The pairs without the one of the given name.
pub open spec fn removed<T>(pairs: Pairs<T>, name: Seq<char>) -> Pairs<T> {
    if place(pairs, name) < pairs.len() {
        pairs.remove(place(pairs, name) as int)
    } else {
        pairs
    }
}

/// Whether no name occurs twice.
pub open spec fn distinct<T>(pairs: Pairs<T>) -> bool {
    forall|i: int, j: int| 0 <= i < j < pairs.len() ==> #[trigger] pairs[i].0 != #[trigger] pairs[j].0
}

/// What `place` finds.
pub proof fn lemma_place<T>(pairs: Pairs<T>, name: Seq<char>)
    ensures
        place(pairs, name) <= pairs.len(),
        place(pairs, name) < pairs.len() ==> pairs[place(pairs, name) as int].0 == name,
        forall|i: int| 0 <= i < place(pairs, name) ==> (#[trigger] pairs[i]).0 != name,
    decreases pairs.len(),
{
    if pairs.len() > 0 && pairs[0].0 != name {
        lemma_place(pairs.skip(1), name);
        let k = place(pairs.skip(1), name);
        assert forall|i: int| 0 <= i < 1 + k implies (#[trigger] pairs[i]).0 != name by {
            if i > 0 {
                assert(pairs.skip(1)[i - 1] == pairs[i]);
            }
        }
    }
}

/// A place before which the name does not occur is the first.
pub proof fn lemma_place_is<T>(pairs: Pairs<T>, name: Seq<char>, k: int)
    requires
        0 <= k <= pairs.len(),
        k < pairs.len() ==> pairs[k].0 == name,
        forall|i: int| 0 <= i < k ==> (#[trigger] pairs[i]).0 != name,
    ensures
        place(pairs, name) == k,
{
    lemma_place(pairs, name);
    let p = place(pairs, name) as int;
    if p < k {
        assert(pairs[p].0 != name);
    }
    if k < p {
        assert(pairs[k].0 != name);
    }
}

/// Reading a name after binding it gives the value bound, and binding one name
/// leaves the others as they were.
pub proof fn law_insert_then_lookup<T>(
    pairs: Pairs<T>,
    name: Seq<char>,
    value: T,
    other: Seq<char>,
)
    ensures
        lookup(inserted(pairs, name, value), name) == Some(value),
        other != name ==> lookup(inserted(pairs, name, value), other) == lookup(pairs, other),
        distinct(pairs) ==> distinct(inserted(pairs, name, value)),
{
    lemma_place(pairs, name);
    lemma_place(pairs, other);
    let after = inserted(pairs, name, value);
    let p = place(pairs, name) as int;
    lemma_place_is(after, name, p);
    if other != name {
        let q = place(pairs, other) as int;
        if q < pairs.len() {
            assert forall|i: int| 0 <= i < q implies (#[trigger] after[i]).0 != other by {
                assert(pairs[i].0 != other);
            }
            assert(after[q] == pairs[q]);
            lemma_place_is(after, other, q);
        } else {
            assert forall|i: int| 0 <= i < after.len() implies (#[trigger] after[i]).0 != other by {
                if i < pairs.len() {
                    assert(pairs[i].0 != other);
                }
            }
            lemma_place_is(after, other, after.len() as int);
        }
    }
    if distinct(pairs) {
        assert forall|i: int, j: int| 0 <= i < j < after.len() implies #[trigger] after[i].0
            != #[trigger] after[j].0 by {
            if i < pairs.len() {
                assert(after[i].0 == pairs[i].0);
            }
            if j < pairs.len() {
                assert(after[j].0 == pairs[j].0);
            }
        }
    }
}

/// A removed name is gone, and the others are as they were.
pub proof fn law_remove_then_lookup<T>(pairs: Pairs<T>, name: Seq<char>, other: Seq<char>)
    requires
        distinct(pairs),
    ensures
        lookup(removed(pairs, name), name) is None,
        other != name ==> lookup(removed(pairs, name), other) == lookup(pairs, other),
        distinct(removed(pairs, name)),
{
    lemma_place(pairs, name);
    lemma_place(pairs, other);
    let after = removed(pairs, name);
    let p = place(pairs, name) as int;
    if p < pairs.len() {
        assert forall|i: int| 0 <= i < after.len() implies (#[trigger] after[i]).0 != name by {
            let k = if i < p { i } else { i + 1 };
            assert(after[i] == pairs[k]);
            if k < p {
                assert(pairs[k].0 != pairs[p].0);
            } else {
                assert(pairs[p].0 != pairs[k].0);
            }
        }
        lemma_place_is(after, name, after.len() as int);
        if other != name {
            let q = place(pairs, other) as int;
            let q2 = if q < p { q } else { q - 1 };
            assert forall|i: int| 0 <= i < q2 implies (#[trigger] after[i]).0 != other by {
                let k = if i < p { i } else { i + 1 };
                assert(after[i] == pairs[k]);
                assert(pairs[k].0 != other);
            }
            if q < pairs.len() {
                assert(after[q2] == pairs[q]);
            }
            lemma_place_is(after, other, q2);
        }
        assert forall|i: int, j: int| 0 <= i < j < after.len() implies #[trigger] after[i].0
            != #[trigger] after[j].0 by {
            let ki = if i < p { i } else { i + 1 };
            let kj = if j < p { j } else { j + 1 };
            assert(pairs[ki].0 != pairs[kj].0);
        }
    }
}

/// A table of named values.
#[derive(Debug)]
pub struct Table<V> {
    entries: Vec<(String, V)>,
}

impl<V: View> View for Table<V> {
    type V = Pairs<V::V>;

    closed spec fn view(&self) -> Pairs<V::V> {
        self.entries@.map_values(|e: (String, V)| (e.0@, e.1@))
    }
}

impl<V: View> Table<V> {
    /// An empty table.
    pub fn new() -> (r: Table<V>)
        ensures
            r@ == Seq::<(Seq<char>, V::V)>::empty(),
    {
        let r = Table { entries: Vec::new() };
        assert(r@ =~= seq![]);
        r
    }

    /// How many names are bound.
    pub fn len(&self) -> (r: usize)
        ensures
            r == self@.len(),
    {
        self.entries.len()
    }

    /// The value at a place.
    pub fn value_at(&self, i: usize) -> (r: &V)
        requires
            i < self@.len(),
        ensures
            r@ == self@[i as int].1,
    {
        &self.entries[i].1
    }

    /// The value at a place, to be changed.
    pub fn value_at_mut(&mut self, i: usize) -> (r: &mut V)
        requires
            i < old(self)@.len(),
        ensures
            r@ == old(self)@[i as int].1,
            final(self)@ == old(self)@.update(i as int, (old(self)@[i as int].0, final(r)@)),
    {
        &mut self.entries[i].1
    }

    /// The place of a name.
    pub fn place_of(&self, name: &str) -> (r: Option<usize>)
        ensures
            match r {
                Some(i) => i < self@.len() && i == place(self@, name@) && self@[i as int].0
                    == name@,
                None => place(self@, name@) == self@.len(),
            },
    {
        let mut i: usize = 0;
        while i < self.entries.len()
            invariant
                i <= self.entries.len(),
                forall|j: int| 0 <= j < i ==> (#[trigger] self@[j]).0 != name@,
            decreases self.entries.len() - i,
        {
            if text::same_text(self.entries[i].0.as_str(), name) {
                proof {
                    lemma_place_is(self@, name@, i as int);
                }
                return Some(i);
            }
            i = i + 1;
        }
        proof {
            lemma_place_is(self@, name@, i as int);
        }
        None
    }

    /// The value of a name.
    pub fn get(&self, name: &str) -> (r: Option<&V>)
        ensures
            match r {
                Some(v) => lookup(self@, name@) == Some(v@),
                None => lookup(self@, name@) is None,
            },
    {
        match self.place_of(name) {
            Some(i) => Some(&self.entries[i].1),
            None => None,
        }
    }

    /// Binds a name, in place of what it was bound to before.
    pub fn insert(&mut self, name: String, value: V)
        ensures
            final(self)@ == inserted(old(self)@, name@, value@),
    {
        let ghost before = self@;
        match self.place_of(name.as_str()) {
            Some(i) => {
                self.entries[i] = (name, value);
            },
            None => {
                self.entries.push((name, value));
            },
        }
        assert(self@ =~= inserted(before, name@, value@));
    }

    /// Unbinds a name and gives back what it was bound to.
    pub fn remove(&mut self, name: &str) -> (r: Option<V>)
        ensures
            match r {
                Some(v) => lookup(old(self)@, name@) == Some(v@),
                None => lookup(old(self)@, name@) is None,
            },
            final(self)@ == removed(old(self)@, name@),
    {
        let ghost before = self@;
        match self.place_of(name) {
            Some(i) => {
                let (_, value) = self.entries.remove(i);
                assert(self@ =~= removed(before, name@));
                Some(value)
            },
            None => None,
        }
    }

    /// The names, in order.
    pub fn names(&self) -> (r: Vec<String>)
        ensures
            text::texts(r@) == names(self@),
    {
        let mut out: Vec<String> = Vec::new();
        let mut i: usize = 0;
        while i < self.entries.len()
            invariant
                i <= self.entries.len(),
                text::texts(out@) == names(self@).take(i as int),
            decreases self.entries.len() - i,
        {
            let ghost so_far = text::texts(out@);
            out.push(self.entries[i].0.clone());
            assert(text::texts(out@) =~= so_far.push(self@[i as int].0));
            assert(names(self@).take(i + 1) =~= so_far.push(self@[i as int].0));
            i = i + 1;
        }
        assert(names(self@).take(i as int) =~= names(self@));
        out
    }
}

/// What is looked up is what stands under the name; where no pair has the name,
/// nothing is.
pub proof fn law_lookup_finds_what_is_there<T>(pairs: Pairs<T>, name: Seq<char>)
    requires
        distinct(pairs),
    ensures
        forall|i: int|
            0 <= i < pairs.len() && (#[trigger] pairs[i]).0 == name ==> lookup(pairs, name) == Some(
                pairs[i].1,
            ),
        lookup(pairs, name) is None <==> forall|i: int|
            0 <= i < pairs.len() ==> (#[trigger] pairs[i]).0 != name,
{
    lemma_place(pairs, name);
    let p = place(pairs, name) as int;
    assert forall|i: int| 0 <= i < pairs.len() && (#[trigger] pairs[i]).0 == name implies i
        == p by {
        if p < i {
            assert(pairs[p].0 != pairs[i].0);
        }
    }
}

/// Binding a name keeps the names in the order in which they came: a new name comes
/// last, and a known one stays where it is. Removing one closes the gap.
pub proof fn law_names_keep_their_order<T>(pairs: Pairs<T>, name: Seq<char>, value: T)
    requires
        distinct(pairs),
    ensures
        names(pairs).contains(name) ==> names(inserted(pairs, name, value)) == names(pairs),
        !names(pairs).contains(name) ==> names(inserted(pairs, name, value)) == names(pairs).push(
            name,
        ),
        !names(pairs).contains(name) ==> removed(pairs, name) == pairs,
        forall|i: int|
            0 <= i < pairs.len() && (#[trigger] pairs[i]).0 == name ==> removed(pairs, name)
                == pairs.take(i) + pairs.skip(i + 1),
{
    lemma_place(pairs, name);
    let p = place(pairs, name) as int;
    if names(pairs).contains(name) {
        let i = choose|i: int| 0 <= i < names(pairs).len() && names(pairs)[i] == name;
        assert(pairs[i].0 == name);
        assert(names(inserted(pairs, name, value)) =~= names(pairs));
    } else {
        if p < pairs.len() {
            assert(names(pairs)[p] == name);
        }
        assert(names(inserted(pairs, name, value)) =~= names(pairs).push(name));
    }
    assert forall|i: int| 0 <= i < pairs.len() && (#[trigger] pairs[i]).0 == name implies removed(
        pairs,
        name,
    ) == pairs.take(i) + pairs.skip(i + 1) by {
        if p < i {
            assert(pairs[p].0 != pairs[i].0);
        }
        assert(removed(pairs, name) =~= pairs.take(i) + pairs.skip(i + 1));
    }
}

} // verus!
