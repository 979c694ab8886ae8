//! The set of stored secrets: a map from names to values, kept sorted by name.

use vstd::prelude::*;
use vstd::utf8::encode_utf8;
use vstd::utf8::encode_utf8_decode_utf8;
use crate::bytes_order::{bytes_lt, compare_bytes, lemma_bytes_lt_irreflexive, lemma_bytes_lt_total, lemma_bytes_lt_transitive, Order};
use crate::secret::Secret;

verus! {

/// A listing of named values.
pub type Listing = Seq<(Seq<char>, Seq<char>)>;

/// Names in `l` strictly increase in the byte order of their UTF-8 encoding,
/// the order in which `str` values compare; so no name occurs twice.
pub open spec fn sorted_by_name(l: Listing) -> bool {
    forall|i: int, j: int|
        0 <= i < j < l.len() ==> bytes_lt(
            #[trigger] encode_utf8(l[i].0),
            #[trigger] encode_utf8(l[j].0),
        )
}

/// Some entry of `l` is named `k`.
pub open spec fn has_name(l: Listing, k: Seq<char>) -> bool {
    exists|i: int| 0 <= i < l.len() && (#[trigger] l[i]).0 == k
}

/// The position of an entry of `l` named `k`, when there is one.
pub open spec fn index_of_name(l: Listing, k: Seq<char>) -> int {
    choose|i: int| 0 <= i < l.len() && (#[trigger] l[i]).0 == k
}

/// The map that a listing with distinct names stands for.
pub open spec fn map_of(l: Listing) -> Map<Seq<char>, Seq<char>> {
    Map::new(|k: Seq<char>| has_name(l, k), |k: Seq<char>| l[index_of_name(l, k)].1)
}

/// Different names have different encodings.
pub proof fn lemma_encode_injective(a: Seq<char>, b: Seq<char>)
    ensures
        encode_utf8(a) == encode_utf8(b) ==> a == b,
{
    encode_utf8_decode_utf8(a);
    encode_utf8_decode_utf8(b);
}

/// In a sorted listing, an entry is found under its own name.
pub proof fn lemma_map_of_index(l: Listing, i: int)
    requires
        sorted_by_name(l),
        0 <= i < l.len(),
    ensures
        map_of(l).contains_key(l[i].0),
        map_of(l)[l[i].0] == l[i].1,
{
    let k = l[i].0;
    assert(has_name(l, k));
    let j = index_of_name(l, k);
    if j != i {
        lemma_bytes_lt_irreflexive(encode_utf8(k));
        if j < i {
            assert(bytes_lt(encode_utf8(l[j].0), encode_utf8(l[i].0)));
        } else {
            assert(bytes_lt(encode_utf8(l[i].0), encode_utf8(l[j].0)));
        }
    }
    assert(j == i);
    assert(map_of(l).dom().contains(k));
    assert(map_of(l)[k] == l[j].1);
}

/// Putting `(k, v)` at position `i`, between the names that sort before `k`
/// and those that sort after it, keeps the listing sorted and adds `k` to the map.
proof fn lemma_insert_at(l: Listing, i: int, k: Seq<char>, v: Seq<char>)
    requires
        sorted_by_name(l),
        0 <= i <= l.len(),
        forall|j: int| 0 <= j < i ==> bytes_lt(#[trigger] encode_utf8(l[j].0), encode_utf8(k)),
        i < l.len() ==> bytes_lt(encode_utf8(k), encode_utf8(l[i].0)),
    ensures
        sorted_by_name(l.insert(i, (k, v))),
        map_of(l.insert(i, (k, v))) == map_of(l).insert(k, v),
{
    let l2 = l.insert(i, (k, v));
    assert forall|a: int, b: int| 0 <= a < b < l2.len() implies bytes_lt(
        #[trigger] encode_utf8(l2[a].0),
        #[trigger] encode_utf8(l2[b].0),
    ) by {
        if b > i && i < l.len() {
            if b - 1 > i {
                assert(bytes_lt(encode_utf8(l[i].0), encode_utf8(l[b - 1].0)));
                lemma_bytes_lt_transitive(encode_utf8(k), encode_utf8(l[i].0), encode_utf8(l[b - 1].0));
            }
            if a < i {
                assert(bytes_lt(encode_utf8(l[a].0), encode_utf8(k)));
                if b - 1 > i {
                    lemma_bytes_lt_transitive(encode_utf8(l[a].0), encode_utf8(k), encode_utf8(l[b - 1].0));
                } else {
                    lemma_bytes_lt_transitive(encode_utf8(l[a].0), encode_utf8(k), encode_utf8(l[i].0));
                }
            } else if a > i {
                assert(bytes_lt(encode_utf8(l[a - 1].0), encode_utf8(l[b - 1].0)));
            }
        }
    }
    let m = map_of(l).insert(k, v);
    assert forall|k2: Seq<char>| #![trigger m.dom().contains(k2)] map_of(l2).dom().contains(k2) <==> m.dom().contains(k2) by {
        if has_name(l, k2) {
            let j = index_of_name(l, k2);
            if j < i {
                assert(l2[j].0 == k2);
            } else {
                assert(l2[j + 1].0 == k2);
            }
        }
        if has_name(l2, k2) && k2 != k {
            let j = index_of_name(l2, k2);
            if j < i {
                assert(l[j].0 == k2);
            } else if j > i {
                assert(l[j - 1].0 == k2);
            }
        }
        assert(l2[i].0 == k);
    }
    assert forall|k2: Seq<char>| #[trigger] m.dom().contains(k2) implies map_of(l2)[k2] == m[k2] by {
        if k2 == k {
            lemma_map_of_index(l2, i);
        } else {
            let j = index_of_name(l, k2);
            lemma_map_of_index(l, j);
            if j < i {
                lemma_map_of_index(l2, j);
            } else {
                lemma_map_of_index(l2, j + 1);
            }
        }
    }
    assert(map_of(l2) =~= m);
}

/// Taking out the entry at `i` keeps the listing sorted and drops its name from the map.
proof fn lemma_remove_at(l: Listing, i: int)
    requires
        sorted_by_name(l),
        0 <= i < l.len(),
    ensures
        sorted_by_name(l.remove(i)),
        map_of(l.remove(i)) == map_of(l).remove(l[i].0),
{
    let l2 = l.remove(i);
    let k = l[i].0;
    assert forall|a: int, b: int| 0 <= a < b < l2.len() implies bytes_lt(
        #[trigger] encode_utf8(l2[a].0),
        #[trigger] encode_utf8(l2[b].0),
    ) by {
        let a1 = if a < i { a } else { a + 1 };
        let b1 = if b < i { b } else { b + 1 };
        assert(l2[a] == l[a1] && l2[b] == l[b1]);
        assert(bytes_lt(encode_utf8(l[a1].0), encode_utf8(l[b1].0)));
    }
    let m = map_of(l).remove(k);
    assert forall|k2: Seq<char>| #![trigger m.dom().contains(k2)] map_of(l2).dom().contains(k2) <==> m.dom().contains(k2) by {
        if has_name(l, k2) && k2 != k {
            let j = index_of_name(l, k2);
            if j < i {
                assert(l2[j].0 == k2);
            } else {
                assert(j != i);
                assert(l2[j - 1].0 == k2);
            }
        }
        if has_name(l2, k2) {
            let j = index_of_name(l2, k2);
            let j1 = if j < i { j } else { j + 1 };
            assert(l[j1].0 == k2);
            lemma_bytes_lt_irreflexive(encode_utf8(k));
            if k2 == k {
                if j1 < i {
                    assert(bytes_lt(encode_utf8(l[j1].0), encode_utf8(l[i].0)));
                } else {
                    assert(bytes_lt(encode_utf8(l[i].0), encode_utf8(l[j1].0)));
                }
            }
        }
    }
    assert forall|k2: Seq<char>| #[trigger] m.dom().contains(k2) implies map_of(l2)[k2] == m[k2] by {
        let j = index_of_name(l, k2);
        lemma_map_of_index(l, j);
        if j < i {
            lemma_map_of_index(l2, j);
        } else {
            assert(j != i);
            assert(l2[j - 1] == l[j]);
            lemma_map_of_index(l2, j - 1);
        }
    }
    assert(map_of(l2) =~= m);
}

/// The stored secrets, by name.
pub struct Secrets {
    entries: Vec<(String, Secret)>,
}

impl Secrets {
    /// The entries, sorted by name.
    pub closed spec fn listing(&self) -> Listing {
        Seq::new(self.entries@.len(), |i: int| (self.entries@[i].0@, self.entries@[i].1@))
    }

    #[verifier::type_invariant]
    spec fn sorted(&self) -> bool {
        sorted_by_name(self.listing())
    }
}

impl View for Secrets {
    type V = Map<Seq<char>, Seq<char>>;

    open spec fn view(&self) -> Map<Seq<char>, Seq<char>> {
        map_of(self.listing())
    }
}

impl Secrets {
    /// No secrets.
    pub fn new() -> (s: Secrets)
        ensures
            s@ == Map::<Seq<char>, Seq<char>>::empty(),
    {
        let s = Secrets { entries: Vec::new() };
        assert(s@ =~= Map::<Seq<char>, Seq<char>>::empty());
        s
    }

    /// The number of entries.
    pub fn len(&self) -> (n: usize)
        ensures
            n == self@.dom().len(),
            n == self.listing().len(),
            sorted_by_name(self.listing()),
    {
        proof {
            use_type_invariant(self);
            let l = self.listing();
            let names = Seq::new(l.len(), |i: int| l[i].0);
            assert(names.no_duplicates()) by {
                assert forall|i: int, j: int|
                    0 <= i < names.len() && 0 <= j < names.len() && i != j implies names[i]
                    != names[j] by {
                    if names[i] == names[j] {
                        lemma_bytes_lt_irreflexive(encode_utf8(names[i]));
                        if i < j {
                            assert(bytes_lt(encode_utf8(l[i].0), encode_utf8(l[j].0)));
                        } else {
                            assert(bytes_lt(encode_utf8(l[j].0), encode_utf8(l[i].0)));
                        }
                    }
                }
            }
            names.unique_seq_to_set();
            assert(names.to_set() =~= self@.dom()) by {
                assert forall|k: Seq<char>| names.to_set().contains(k) implies self@.dom().contains(
                    k,
                ) by {
                    let i = choose|i: int| 0 <= i < names.len() && names[i] == k;
                    assert(l[i].0 == k);
                }
                assert forall|k: Seq<char>| self@.dom().contains(k) implies names.to_set().contains(
                    k,
                ) by {
                    let i = choose|i: int| 0 <= i < l.len() && (#[trigger] l[i]).0 == k;
                    assert(names[i] == k);
                }
            }
        }
        self.entries.len()
    }

    /// Whether there are no entries.
    pub fn is_empty(&self) -> (b: bool)
        ensures
            b == (self@ == Map::<Seq<char>, Seq<char>>::empty()),
            sorted_by_name(self.listing()),
    {
        proof {
            use_type_invariant(self);
            if self.entries@.len() > 0 {
                lemma_map_of_index(self.listing(), 0);
                assert(self@.contains_key(self.listing()[0].0));
                assert(!Map::<Seq<char>, Seq<char>>::empty().contains_key(self.listing()[0].0));
            } else {
                assert(self@ =~= Map::<Seq<char>, Seq<char>>::empty());
            }
        }
        self.entries.len() == 0
    }

    /// The entry at `i` in the sorted listing, as (name, value).
    pub fn entry(&self, i: usize) -> (r: (&str, &str))
        requires
            i < self.listing().len(),
        ensures
            (r.0@, r.1@) == self.listing()[i as int],
    {
        let e = &self.entries[i];
        (e.0.as_str(), e.1.expose())
    }

    /// Where `name` stands or would stand: all entries before it sort
    /// before `name`, and the entry at it, if any, does not.
    fn position(&self, name: &str) -> (r: (usize, bool))
        ensures
            r.0 <= self.listing().len(),
            forall|j: int|
                0 <= j < r.0 ==> bytes_lt(
                    #[trigger] encode_utf8(self.listing()[j].0),
                    encode_utf8(name@),
                ),
            r.0 < self.listing().len() ==> !bytes_lt(
                encode_utf8(self.listing()[r.0 as int].0),
                encode_utf8(name@),
            ),
            r.1 <==> (r.0 < self.listing().len() && self.listing()[r.0 as int].0 == name@),
    {
        let key = name.as_bytes();
        let mut i: usize = 0;
        while i < self.entries.len()
            invariant
                i <= self.entries@.len(),
                key@ == encode_utf8(name@),
                forall|j: int|
                    0 <= j < i ==> bytes_lt(
                        #[trigger] encode_utf8(self.listing()[j].0),
                        encode_utf8(name@),
                    ),
            decreases self.entries@.len() - i,
        {
            let here = self.entries[i].0.as_str().as_bytes();
            match compare_bytes(here, key) {
                Order::Less => {},
                Order::Equal => {
                    proof {
                        lemma_encode_injective(self.listing()[i as int].0, name@);
                        lemma_bytes_lt_irreflexive(key@);
                    }
                    return (i, true);
                },
                Order::Greater => {
                    proof {
                        lemma_bytes_lt_total(here@, key@);
                        if self.listing()[i as int].0 == name@ {
                            lemma_bytes_lt_irreflexive(key@);
                        }
                    }
                    return (i, false);
                },
            }
            i = i + 1;
        }
        (i, false)
    }

    /// The value stored under `name`, if any.
    pub fn get(&self, name: &str) -> (r: Option<&str>)
        ensures
            match r {
                Some(v) => self@.contains_key(name@) && v@ == self@[name@],
                None => !self@.contains_key(name@),
            },
    {
        proof {
            use_type_invariant(self);
        }
        let (i, found) = self.position(name);
        if found {
            proof {
                lemma_map_of_index(self.listing(), i as int);
            }
            Some(self.entries[i].1.expose())
        } else {
            proof {
                self.lemma_absent(name@, i as int);
            }
            None
        }
    }

    /// Whether a value is stored under `name`.
    pub fn contains_key(&self, name: &str) -> (b: bool)
        ensures
            b == self@.contains_key(name@),
    {
        self.get(name).is_some()
    }

    /// Stores `value` under `name`, replacing (and wiping) any value stored there.
    pub fn insert(&mut self, name: String, value: Secret)
        ensures
            final(self)@ == old(self)@.insert(name@, value@),
    {
        proof {
            use_type_invariant(&*self);
        }
        let (i, found) = self.position(name.as_str());
        let ghost l = self.listing();
        let ghost k = name@;
        let ghost v = value@;
        let mut entries: Vec<(String, Secret)> = Vec::new();
        std::mem::swap(&mut entries, &mut self.entries);
        if found {
            let (_, mut previous) = entries.remove(i);
            previous.wipe();
            proof {
                lemma_remove_at(l, i as int);
                let l1 = l.remove(i as int);
                assert forall|j: int| 0 <= j < i implies bytes_lt(#[trigger] encode_utf8(l1[j].0), encode_utf8(k)) by {
                    assert(l1[j] == l[j]);
                }
                if (i as int) < l1.len() {
                    assert(l1[i as int] == l[i + 1]);
                    assert(bytes_lt(encode_utf8(l[i as int].0), encode_utf8(l[i + 1].0)));
                }
                lemma_insert_at(l1, i as int, k, v);
                assert(map_of(l1).insert(k, v) =~= map_of(l).insert(k, v));
            }
        } else {
            proof {
                if (i as int) < l.len() {
                    lemma_bytes_lt_total(encode_utf8(k), encode_utf8(l[i as int].0));
                    lemma_encode_injective(k, l[i as int].0);
                }
                lemma_insert_at(l, i as int, k, v);
            }
        }
        entries.insert(i, (name, value));
        assert(Seq::new(entries@.len(), |j: int| (entries@[j].0@, entries@[j].1@)) =~= (if found { l.remove(i as int) } else { l }).insert(i as int, (k, v)));
        self.entries = entries;
    }

    /// Takes out the value stored under `name`, if any.
    pub fn remove(&mut self, name: &str) -> (r: Option<Secret>)
        ensures
            final(self)@ == old(self)@.remove(name@),
            match r {
                Some(v) => old(self)@.contains_key(name@) && v@ == old(self)@[name@],
                None => !old(self)@.contains_key(name@),
            },
    {
        proof {
            use_type_invariant(&*self);
        }
        let (i, found) = self.position(name);
        if !found {
            proof {
                self.lemma_absent(name@, i as int);
                assert(self@.remove(name@) =~= self@);
            }
            return None;
        }
        let ghost l = self.listing();
        proof {
            lemma_map_of_index(l, i as int);
            lemma_remove_at(l, i as int);
        }
        let mut entries: Vec<(String, Secret)> = Vec::new();
        std::mem::swap(&mut entries, &mut self.entries);
        let (_, value) = entries.remove(i);
        assert(Seq::new(entries@.len(), |j: int| (entries@[j].0@, entries@[j].1@)) =~= l.remove(i as int));
        self.entries = entries;
        Some(value)
    }

    /// Wipes every stored value and empties the map.
    pub fn wipe(&mut self)
        ensures
            final(self)@ == Map::<Seq<char>, Seq<char>>::empty(),
    {
        let mut entries: Vec<(String, Secret)> = Vec::new();
        std::mem::swap(&mut entries, &mut self.entries);
        while entries.len() > 0
            decreases entries@.len(),
        {
            let (_, mut value) = entries.pop().unwrap();
            value.wipe();
        }
        assert(self@ =~= Map::<Seq<char>, Seq<char>>::empty());
    }

    proof fn lemma_absent(&self, k: Seq<char>, p: int)
        requires
            sorted_by_name(self.listing()),
            0 <= p <= self.listing().len(),
            forall|j: int|
                0 <= j < p ==> bytes_lt(
                    #[trigger] encode_utf8(self.listing()[j].0),
                    encode_utf8(k),
                ),
            p < self.listing().len() ==> !bytes_lt(
                encode_utf8(self.listing()[p].0),
                encode_utf8(k),
            ),
            !(p < self.listing().len() && self.listing()[p].0 == k),
        ensures
            !self@.contains_key(k),
    {
        let l = self.listing();
        if has_name(l, k) {
            let j = choose|j: int| 0 <= j < l.len() && (#[trigger] l[j]).0 == k;
            lemma_bytes_lt_irreflexive(encode_utf8(k));
            if j > p {
                lemma_encode_injective(l[p].0, k);
                lemma_bytes_lt_total(encode_utf8(l[p].0), encode_utf8(k));
                assert(bytes_lt(encode_utf8(l[p].0), encode_utf8(l[j].0)));
                lemma_bytes_lt_transitive(encode_utf8(k), encode_utf8(l[p].0), encode_utf8(k));
            }
        }
    }
}

} // verus!
