//! The key-value tree that a parse produces, and its mathematical model.
//!
//! A `SectionMap` is a mapping from string keys to `Item`s, stored as a
//! vector of entries with pairwise-distinct keys.  Its abstract value is a
//! `Map<Seq<char>, ItemV>`; when two entries carried the same key the later
//! one would win, and the well-formedness predicate `SectionMap::wf` rules
//! that situation out.

use vstd::prelude::*;

verus! {

/// The error values a parse can end with.  Every failure is fatal to the
/// whole parse call; no partial result is returned.
#[derive(Clone, Copy, Debug, PartialEq, Eq, Structural)]
pub enum ParseError {
    /// Line or input ended inside a `[...]` header before its `]`.
    UnterminatedSectionHeader,
    /// The same key was inserted twice within one body at one nesting level.
    DuplicateKey,
    /// A header path segment names an existing entry that is not a section.
    SectionPathConflict,
}

/// Abstract value of an `Item`: a string, a list of strings, or a mapping.
pub enum ItemV {
    Value(Seq<char>),
    Array(Seq<Seq<char>>),
    Section(Map<Seq<char>, ItemV>),
}

/// One entry of the tree: a plain string value, an array of strings
/// (reserved: the current scanning rules never construct it), or a nested
/// section.
#[derive(Debug)]
pub enum Item {
    Value(String),
    Array(Vec<String>),
    Section(SectionMap),
}

/// A mapping from string keys to items, with pairwise-distinct keys.
#[derive(Debug)]
pub struct SectionMap {
    pub entries: Vec<(String, Item)>,
}

/// Abstract value of an `Item`.
pub open spec fn item_model(it: Item) -> ItemV
    decreases it, 0int, 0int,
{
    match it {
        Item::Value(s) => ItemV::Value(s@),
        Item::Array(v) => ItemV::Array(Seq::new(v@.len(), |i: int| v@[i]@)),
        Item::Section(m) => ItemV::Section(entries_model(m.entries@, m.entries@.len() as int)),
    }
}

/// Abstract value of the first `n` entries of an entry list, as a map.
/// A later entry with the same key wins.
pub open spec fn entries_model(s: Seq<(String, Item)>, n: int) -> Map<Seq<char>, ItemV>
    decreases s, 1int, n,
    when n <= s.len()
{
    if n <= 0 {
        Map::empty()
    } else {
        proof {
            assert(decreases_to!(s => s[n - 1]));
        }
        entries_model(s, n - 1).insert(s[n - 1].0@, item_model(s[n - 1].1))
    }
}

/// The keys of an entry list are pairwise distinct.
pub open spec fn keys_unique(s: Seq<(String, Item)>) -> bool {
    forall|i: int, j: int| 0 <= i < j < s.len() ==> (#[trigger] s[i]).0@ != (#[trigger] s[j]).0@
}

/// Every section reachable from `it` has pairwise-distinct keys.
pub open spec fn item_wf(it: Item) -> bool
    decreases it, 0int, 0int,
{
    match it {
        Item::Value(_) => true,
        Item::Array(_) => true,
        Item::Section(m) => keys_unique(m.entries@) && items_wf(m.entries@,
            m.entries@.len() as int),
    }
}

/// `item_wf` holds of the items of the first `n` entries.
pub open spec fn items_wf(s: Seq<(String, Item)>, n: int) -> bool
    decreases s, 1int, n,
    when n <= s.len()
{
    if n <= 0 {
        true
    } else {
        proof {
            assert(decreases_to!(s => s[n - 1]));
        }
        items_wf(s, n - 1) && item_wf(s[n - 1].1)
    }
}

impl View for Item {
    type V = ItemV;

    open spec fn view(&self) -> ItemV {
        item_model(*self)
    }
}

impl View for SectionMap {
    type V = Map<Seq<char>, ItemV>;

    open spec fn view(&self) -> Map<Seq<char>, ItemV> {
        entries_model(self.entries@, self.entries@.len() as int)
    }
}

impl SectionMap {
    /// Pairwise-distinct keys, here and in every nested section.
    pub open spec fn wf(self) -> bool {
        keys_unique(self.entries@) && items_wf(self.entries@, self.entries@.len() as int)
    }

    /// The empty mapping.
    pub fn new() -> (r: SectionMap)
        ensures
            r@ == Map::<Seq<char>, ItemV>::empty(),
            r.wf(),
            r.entries@.len() == 0,
    {
        SectionMap { entries: Vec::new() }
    }

    /// How many entries the mapping holds.
    pub fn len(&self) -> (r: usize)
        ensures
            r == self.entries@.len(),
            self.wf() ==> r == self@.dom().len(),
    {
        proof {
            if self.wf() {
                lemma_model_len(self.entries@, self.entries@.len() as int);
            }
        }
        self.entries.len()
    }
}

impl SectionMap {
    /// Looks a key up.  When several entries carried the key, the latest
    /// entry is the abstract value, so the scan runs from the back.
    pub fn get(&self, key: &String) -> (r: Option<&Item>)
        ensures
            match r {
                Some(it) => self@.contains_key(key@) && (*it)@ == self@[key@],
                None => !self@.contains_key(key@),
            },
    {
        let n = self.entries.len();
        let mut i: usize = n;
        while i > 0
            invariant
                i <= n,
                n == self.entries@.len(),
                forall|j: int| i <= j < n ==> (#[trigger] self.entries@[j]).0@ != key@,
            decreases i,
        {
            i = i - 1;
            if self.entries[i].0 == *key {
                proof {
                    lemma_model_last_match(self.entries@, n as int, i as int);
                }
                return Some(&self.entries[i].1);
            }
        }
        proof {
            lemma_model_contains(self.entries@, n as int, key@);
        }
        None
    }

    /// Whether a key is present.
    pub fn contains_key(&self, key: &String) -> (r: bool)
        ensures
            r == self@.contains_key(key@),
    {
        match self.get(key) {
            Some(_) => true,
            None => false,
        }
    }

    /// Inserts a pair, replacing the entry an already-present key holds.
    pub fn insert(&mut self, key: String, value: Item)
        requires
            old(self).wf(),
            item_wf(value),
        ensures
            final(self)@ == old(self)@.insert(key@, item_model(value)),
            final(self).wf(),
    {
        proof {
            lemma_items_wf_all(self.entries@, self.entries@.len() as int);
        }
        let ghost s0 = self.entries@;
        let n = self.entries.len();
        let mut i: usize = 0;
        let mut found: bool = false;
        while i < n && !found
            invariant
                i <= n,
                n == self.entries@.len(),
                self.entries@ == s0,
                found ==> i < n && (#[trigger] self.entries@[i as int]).0@ == key@,
                !found ==> forall|j: int|
                    0 <= j < i ==> (#[trigger] self.entries@[j]).0@ != key@,
            decreases n - i + (if found { 0int } else { 1int }),
        {
            if self.entries[i].0 == key {
                found = true;
            } else {
                i = i + 1;
            }
        }
        if found {
            proof {
                lemma_model_remove(self.entries@, i as int);
                lemma_model_contains(s0.remove(i as int), s0.len() as int - 1, key@);
            }
            let _ = self.entries.remove(i);
        } else {
            proof {
                lemma_model_contains(self.entries@, n as int, key@);
            }
        }
        let ghost s1 = self.entries@;
        self.entries.push((key, value));
        proof {
            assert(self.entries@ == s1.push((key, value)));
            assert(entries_model(self.entries@, self.entries@.len() as int)
                == entries_model(s1, s1.len() as int).insert(key@, item_model(value))) by {
                lemma_model_agree(self.entries@, s1, s1.len() as int);
            }
            assert(!entries_model(s1, s1.len() as int).contains_key(key@)) by {
                lemma_model_contains(s1, s1.len() as int, key@);
            }
            assert(final(self)@ =~= old(self)@.insert(key@, item_model(value)));
            lemma_items_wf_all(s1, s1.len() as int);
            lemma_items_wf_all(self.entries@, self.entries@.len() as int);
        }
    }

    /// Takes the entry a key holds out of the mapping.
    pub fn remove(&mut self, key: &String) -> (r: Option<Item>)
        requires
            old(self).wf(),
        ensures
            final(self)@ == old(self)@.remove(key@),
            final(self).wf(),
            match r {
                Some(it) => old(self)@.contains_key(key@) && it@ == old(self)@[key@]
                    && item_wf(it),
                None => !old(self)@.contains_key(key@),
            },
    {
        proof {
            lemma_items_wf_all(self.entries@, self.entries@.len() as int);
        }
        let ghost s0 = self.entries@;
        let n = self.entries.len();
        let mut i: usize = 0;
        while i < n
            invariant
                i <= n,
                n == self.entries@.len(),
                self.entries@ == s0,
                s0 == old(self).entries@,
                keys_unique(s0),
                items_wf(s0, s0.len() as int),
                forall|j: int| 0 <= j < i ==> (#[trigger] self.entries@[j]).0@ != key@,
            decreases n - i,
        {
            if self.entries[i].0 == *key {
                proof {
                    lemma_model_last_match(s0, n as int, i as int);
                    lemma_model_remove(s0, i as int);
                    lemma_items_wf_all(s0, s0.len() as int);
                    lemma_items_wf_all(s0.remove(i as int), s0.len() as int - 1);
                }
                let (_k, v) = self.entries.remove(i);
                return Some(v);
            }
            i = i + 1;
        }
        proof {
            lemma_model_contains(s0, n as int, key@);
            assert(final(self)@ =~= old(self)@.remove(key@));
        }
        None
    }
}

/// Inserts a pair only when the key is absent: within one body, a key
/// that is already present is a fatal `DuplicateKey`.
pub fn try_insert(map: &mut SectionMap, key: String, value: Item) -> (r: Result<(), ParseError>)
    requires
        old(map).wf(),
        item_wf(value),
    ensures
        final(map).wf(),
        match r {
            Ok(_) => !old(map)@.contains_key(key@) && final(map)@ == old(map)@.insert(
                key@,
                item_model(value),
            ),
            Err(e) => e == ParseError::DuplicateKey && old(map)@.contains_key(key@) && final(map)@
                == old(map)@,
        },
{
    if map.contains_key(&key) {
        Err(ParseError::DuplicateKey)
    } else {
        map.insert(key, value);
        Ok(())
    }
}

/// `items_wf(s, n)` says exactly that each of the first `n` items is
/// well-formed.
pub proof fn lemma_items_wf_all(s: Seq<(String, Item)>, n: int)
    requires
        n <= s.len(),
    ensures
        items_wf(s, n) <==> (forall|i: int| 0 <= i < n ==> item_wf((#[trigger] s[i]).1)),
    decreases n,
{
    if n > 0 {
        lemma_items_wf_all(s, n - 1);
    }
}

/// The first `n` entries alone settle `entries_model` and `items_wf`.
pub proof fn lemma_model_agree(s1: Seq<(String, Item)>, s2: Seq<(String, Item)>, n: int)
    requires
        n <= s1.len(),
        n <= s2.len(),
        forall|i: int| 0 <= i < n ==> s1[i] == s2[i],
    ensures
        entries_model(s1, n) == entries_model(s2, n),
        items_wf(s1, n) == items_wf(s2, n),
    decreases n,
{
    if n > 0 {
        lemma_model_agree(s1, s2, n - 1);
    }
}

/// When entry `i` is the last occurrence of its key among the first `n`,
/// it gives the key's abstract value.
pub proof fn lemma_model_last_match(s: Seq<(String, Item)>, n: int, i: int)
    requires
        0 <= i < n <= s.len(),
        forall|j: int| i < j < n ==> (#[trigger] s[j]).0@ != s[i].0@,
    ensures
        entries_model(s, n).contains_key(s[i].0@),
        entries_model(s, n)[s[i].0@] == item_model(s[i].1),
    decreases n,
{
    if i < n - 1 {
        lemma_model_last_match(s, n - 1, i);
    }
}

/// Removing entry `i` of a duplicate-free list removes its key from the
/// model.
pub proof fn lemma_model_remove(s: Seq<(String, Item)>, i: int)
    requires
        0 <= i < s.len(),
        keys_unique(s),
    ensures
        entries_model(s.remove(i), s.len() - 1) == entries_model(s, s.len() as int).remove(
            s[i].0@,
        ),
        keys_unique(s.remove(i)),
        items_wf(s.remove(i), s.len() - 1) <== items_wf(s, s.len() as int),
    decreases s.len(),
{
    let n = s.len() as int;
    let k = s[i].0@;
    lemma_items_wf_all(s, n);
    lemma_items_wf_all(s.remove(i), n - 1);
    if i == n - 1 {
        lemma_model_agree(s.remove(i), s, n - 1);
        lemma_model_contains(s, n - 1, k);
        assert(entries_model(s.remove(i), n - 1) =~= entries_model(s, n).remove(k));
    } else {
        let t = s.drop_last();
        lemma_model_remove(t, i);
        assert(s.remove(i).drop_last() =~= t.remove(i));
        assert(entries_model(s.remove(i), n - 2) == entries_model(t.remove(i), n - 2)) by {
            lemma_model_agree(s.remove(i), t.remove(i), n - 2);
        }
        assert(s.remove(i)[n - 2] == s[n - 1]);
        assert(entries_model(t, n - 1) == entries_model(s, n - 1)) by {
            lemma_model_agree(t, s, n - 1);
        }
        assert(entries_model(s.remove(i), n - 1) =~= entries_model(s, n).remove(k));
    }
}

/// Peeling the first entry off: the model is the first pair's singleton
/// map, overridden by the model of the rest.
pub proof fn lemma_model_front(s: Seq<(String, Item)>, n: int)
    requires
        0 < n <= s.len(),
    ensures
        entries_model(s, n) == Map::<Seq<char>, ItemV>::empty().insert(
            s[0].0@,
            item_model(s[0].1),
        ).union_prefer_right(entries_model(s.drop_first(), n - 1)),
    decreases n,
{
    let single = Map::<Seq<char>, ItemV>::empty().insert(s[0].0@, item_model(s[0].1));
    if n == 1 {
        assert(entries_model(s, 0) == Map::<Seq<char>, ItemV>::empty());
        assert(entries_model(s.drop_first(), 0) == Map::<Seq<char>, ItemV>::empty());
        assert(entries_model(s, 1) =~= single.union_prefer_right(
            entries_model(s.drop_first(), 0),
        ));
    } else {
        lemma_model_front(s, n - 1);
        assert(s.drop_first()[n - 2] == s[n - 1]);
        assert(entries_model(s, n) =~= single.union_prefer_right(
            entries_model(s.drop_first(), n - 1),
        ));
    }
}

/// `entries_model(s, n)` contains `k` exactly when one of the first `n`
/// entries carries that key.
pub proof fn lemma_model_contains(s: Seq<(String, Item)>, n: int, k: Seq<char>)
    requires
        0 <= n <= s.len(),
    ensures
        entries_model(s, n).contains_key(k) <==> exists|i: int|
            0 <= i < n && (#[trigger] s[i]).0@ == k,
    decreases n,
{
    if n > 0 {
        lemma_model_contains(s, n - 1, k);
        if s[n - 1].0@ == k {
            assert(entries_model(s, n).contains_key(k));
        }
    }
}

/// The model is a finite map.
pub proof fn lemma_model_finite(s: Seq<(String, Item)>, n: int)
    requires
        n <= s.len(),
    ensures
        entries_model(s, n).dom().finite(),
    decreases n,
{
    if n > 0 {
        lemma_model_finite(s, n - 1);
    }
}

/// With pairwise-distinct keys, the model has exactly one key per entry.
pub proof fn lemma_model_len(s: Seq<(String, Item)>, n: int)
    requires
        0 <= n <= s.len(),
        keys_unique(s),
    ensures
        entries_model(s, n).dom().finite(),
        entries_model(s, n).dom().len() == n,
    decreases n,
{
    lemma_model_finite(s, n);
    if n > 0 {
        lemma_model_len(s, n - 1);
        lemma_model_contains(s, n - 1, s[n - 1].0@);
        assert(!entries_model(s, n - 1).contains_key(s[n - 1].0@));
        vstd::set::axiom_set_insert_len(entries_model(s, n - 1).dom(), s[n - 1].0@);
        assert(entries_model(s, n).dom() =~= entries_model(s, n - 1).dom().insert(s[n - 1].0@));
    }
}

} // verus!
