//! The tree of values that a property list holds.

use crate::date::Date;
use crate::number::{Integer, Real};
use vstd::prelude::*;
use vstd::std_specs::cmp::PartialEqSpecImpl;

verus! {

/// A property list as mathematics sees it.
pub enum Tree {
    Array(Seq<Tree>),
    Dictionary(Map<Seq<char>, Tree>),
    Boolean(bool),
    Data(Seq<u8>),
    /// Nanoseconds from 1970-01-01T00:00:00Z.
    Date(int),
    /// The binary64 encoding of the number.
    Real(u64),
    Integer(int),
    String(Seq<char>),
}

/// A property list. Two property lists are equal where they stand for the same
/// tree.
#[derive(Debug)]
pub enum Plist {
    Array(Vec<Plist>),
    Dictionary(Dictionary),
    Boolean(bool),
    Data(Vec<u8>),
    Date(Date),
    Real(Real),
    Integer(Integer),
    String(String),
}

/// A mapping from strings to property lists, in which no key occurs twice. Two
/// dictionaries are equal where they are the same mapping, in whatever order
/// their keys came.
#[derive(Debug)]
pub struct Dictionary {
    entries: Vec<(String, Plist)>,
}

/// The mapping that a list of entries spells, a later entry replacing an earlier
/// one with the same key.
pub open spec fn entries_map(entries: Seq<(String, Plist)>) -> Map<Seq<char>, Tree>
    decreases entries,
{
    if entries.len() == 0 {
        Map::empty()
    } else {
        entries_map(entries.drop_last()).insert(entries.last().0@, entries.last().1@)
    }
}

/// The trees that a list of property lists stands for, in order.
pub open spec fn trees(items: Seq<Plist>) -> Seq<Tree>
    decreases items,
{
    if items.len() == 0 {
        Seq::empty()
    } else {
        trees(items.drop_last()).push(items.last()@)
    }
}

impl View for Plist {
    type V = Tree;

    open spec fn view(&self) -> Tree
        decreases self,
    {
        match self {
            Plist::Array(items) => Tree::Array(trees(items@)),
            Plist::Dictionary(dictionary) => Tree::Dictionary(dictionary@),
            Plist::Boolean(b) => Tree::Boolean(*b),
            Plist::Data(bytes) => Tree::Data(bytes@),
            Plist::Date(date) => Tree::Date(date@),
            Plist::Real(number) => Tree::Real(number@),
            Plist::Integer(integer) => Tree::Integer(integer@),
            Plist::String(string) => Tree::String(string@),
        }
    }
}

impl View for Dictionary {
    type V = Map<Seq<char>, Tree>;

    closed spec fn view(&self) -> Map<Seq<char>, Tree>
        decreases self,
    {
        entries_map(self.entries@)
    }
}

/// Whether no key occurs twice in a list of entries.
pub open spec fn keys_distinct(entries: Seq<(String, Plist)>) -> bool {
    forall|i: int, j: int| 0 <= i < j < entries.len() ==> entries[i].0@ != entries[j].0@
}

/// What [`trees`] holds at each place.
pub proof fn lemma_trees(items: Seq<Plist>)
    ensures
        trees(items).len() == items.len(),
        forall|i: int| 0 <= i < items.len() ==> #[trigger] trees(items)[i] == items[i]@,
    decreases items.len(),
{
    if items.len() > 0 {
        lemma_trees(items.drop_last());
        assert(trees(items) == trees(items.drop_last()).push(items.last()@));
    } else {
        assert(trees(items) == Seq::<Tree>::empty());
    }
}

/// What [`entries_map`] holds: the keys of the entries, and under each key the
/// value of the last entry that has it.
pub proof fn lemma_entries_map(entries: Seq<(String, Plist)>)
    ensures
        entries_map(entries).dom().finite(),
        forall|key: Seq<char>| #[trigger]
            entries_map(entries).contains_key(key) <==> exists|i: int|
                0 <= i < entries.len() && #[trigger] entries[i].0@ == key,
        forall|i: int|
            0 <= i < entries.len() && (forall|j: int|
                i < j < entries.len() ==> entries[j].0@ != entries[i].0@) ==> #[trigger] entries_map(
                entries,
            )[entries[i].0@] == entries[i].1@,
    decreases entries.len(),
{
    if entries.len() > 0 {
        let front = entries.drop_last();
        lemma_entries_map(front);
        assert(entries_map(entries) == entries_map(front).insert(
            entries.last().0@,
            entries.last().1@,
        ));
        assert forall|key: Seq<char>| #[trigger]
            entries_map(entries).contains_key(key) implies exists|i: int|
            0 <= i < entries.len() && #[trigger] entries[i].0@ == key by {
            if key == entries.last().0@ {
                assert(entries[entries.len() - 1].0@ == key);
            } else {
                assert(entries_map(front).contains_key(key));
                let i = choose|i: int| 0 <= i < front.len() && #[trigger] front[i].0@ == key;
                assert(entries[i].0@ == key);
            }
        }
        assert forall|key: Seq<char>|
            (exists|i: int|
                0 <= i < entries.len() && #[trigger] entries[i].0@
                    == key) implies #[trigger] entries_map(entries).contains_key(key) by {
            let i = choose|i: int| 0 <= i < entries.len() && #[trigger] entries[i].0@ == key;
            if i < front.len() {
                assert(front[i].0@ == key);
            }
        }
        assert forall|i: int|
            0 <= i < entries.len() && (forall|j: int|
                i < j < entries.len() ==> entries[j].0@
                    != entries[i].0@) implies #[trigger] entries_map(entries)[entries[i].0@]
            == entries[i].1@ by {
            if i < front.len() {
                assert(front[i] == entries[i]);
                assert forall|j: int| i < j < front.len() implies front[j].0@ != front[i].0@ by {
                    assert(front[j] == entries[j]);
                }
                assert(entries[entries.len() - 1].0@ != entries[i].0@);
            }
        }
    }
}

/// Whether two lists of entries have, place by place, the same keys and values
/// that stand for the same trees.
pub open spec fn same_entries(a: Seq<(String, Plist)>, b: Seq<(String, Plist)>) -> bool {
    &&& a.len() == b.len()
    &&& forall|i: int| 0 <= i < a.len() ==> a[i].0@ == b[i].0@ && a[i].1@ == b[i].1@
}

/// Lists of entries that agree place by place spell one mapping.
pub proof fn lemma_same_entries(a: Seq<(String, Plist)>, b: Seq<(String, Plist)>)
    requires
        same_entries(a, b),
    ensures
        entries_map(a) == entries_map(b),
        keys_distinct(a) == keys_distinct(b),
    decreases a.len(),
{
    if a.len() > 0 {
        assert(same_entries(a.drop_last(), b.drop_last())) by {
            assert forall|i: int| 0 <= i < a.len() - 1 implies a.drop_last()[i].0@
                == b.drop_last()[i].0@ && a.drop_last()[i].1@ == b.drop_last()[i].1@ by {
                assert(a.drop_last()[i] == a[i] && b.drop_last()[i] == b[i]);
            }
        }
        lemma_same_entries(a.drop_last(), b.drop_last());
        assert(entries_map(a) == entries_map(a.drop_last()).insert(a.last().0@, a.last().1@));
        assert(entries_map(b) == entries_map(b.drop_last()).insert(b.last().0@, b.last().1@));
        assert(a.last().0@ == b.last().0@ && a.last().1@ == b.last().1@) by {
            assert(a[a.len() - 1].0@ == b[a.len() - 1].0@);
        }
    }
    if keys_distinct(a) {
        assert forall|i: int, j: int| 0 <= i < j < b.len() implies b[i].0@ != b[j].0@ by {
            assert(a[i].0@ != a[j].0@);
        }
    }
    if keys_distinct(b) {
        assert forall|i: int, j: int| 0 <= i < j < a.len() implies a[i].0@ != a[j].0@ by {
            assert(b[i].0@ != b[j].0@);
        }
    }
}

/// The place of `key` among `entries`, if it is there.
fn find_key(entries: &Vec<(String, Plist)>, key: &String) -> (r: Option<usize>)
    ensures
        match r {
            Some(i) => i < entries@.len() && entries@[i as int].0@ == key@,
            None => forall|i: int| 0 <= i < entries@.len() ==> entries@[i].0@ != key@,
        },
{
    let mut i: usize = 0;
    while i < entries.len()
        invariant
            i <= entries@.len(),
            forall|j: int| 0 <= j < i ==> entries@[j].0@ != key@,
        decreases entries@.len() - i,
    {
        if entries[i].0 == *key {
            return Some(i);
        }
        i += 1;
    }
    None
}

/// Whether two lists of bytes hold the same bytes.
fn same_bytes(a: &Vec<u8>, b: &Vec<u8>) -> (r: bool)
    ensures
        r == (a@ == b@),
{
    if a.len() != b.len() {
        return false;
    }
    let mut i: usize = 0;
    while i < a.len()
        invariant
            i <= a@.len(),
            a@.len() == b@.len(),
            forall|j: int| 0 <= j < i ==> a@[j] == b@[j],
        decreases a@.len() - i,
    {
        if a[i] != b[i] {
            return false;
        }
        i += 1;
    }
    assert(a@ =~= b@);
    true
}

/// Whether two lists of property lists stand for the same trees, place by
/// place.
fn same_items(a: &Vec<Plist>, b: &Vec<Plist>) -> (r: bool)
    ensures
        r == (trees(a@) == trees(b@)),
    decreases a,
{
    proof {
        lemma_trees(a@);
        lemma_trees(b@);
    }
    if a.len() != b.len() {
        return false;
    }
    let mut i: usize = 0;
    while i < a.len()
        invariant
            i <= a@.len(),
            a@.len() == b@.len(),
            trees(a@).len() == a@.len(),
            trees(b@).len() == b@.len(),
            forall|j: int| 0 <= j < a@.len() ==> #[trigger] trees(a@)[j] == a@[j]@,
            forall|j: int| 0 <= j < b@.len() ==> #[trigger] trees(b@)[j] == b@[j]@,
            forall|j: int| 0 <= j < i ==> a@[j]@ == b@[j]@,
        decreases a@.len() - i,
    {
        if !a[i].same_value(&b[i]) {
            assert(trees(a@)[i as int] != trees(b@)[i as int]);
            return false;
        }
        i += 1;
    }
    assert(trees(a@) =~= trees(b@));
    true
}

/// Whether two lists of entries, each without a key that occurs twice, spell
/// the same mapping.
fn same_pairs(a: &Vec<(String, Plist)>, b: &Vec<(String, Plist)>) -> (r: bool)
    requires
        keys_distinct(a@),
        keys_distinct(b@),
    ensures
        r == (entries_map(a@) == entries_map(b@)),
    decreases a,
{
    let ghost left = entries_map(a@);
    let ghost right = entries_map(b@);
    proof {
        lemma_entries_map(a@);
        lemma_entries_map(b@);
        lemma_distinct_len(a@);
        lemma_distinct_len(b@);
    }
    if a.len() != b.len() {
        return false;
    }
    let mut i: usize = 0;
    while i < a.len()
        invariant
            i <= a@.len(),
            left == entries_map(a@),
            right == entries_map(b@),
            forall|key: Seq<char>| #[trigger]
                right.contains_key(key) <==> exists|j: int|
                    0 <= j < b@.len() && #[trigger] b@[j].0@ == key,
            forall|j: int| 0 <= j < a@.len() ==> #[trigger] left.contains_key(a@[j].0@),
            forall|j: int| 0 <= j < a@.len() ==> #[trigger] left[a@[j].0@] == a@[j].1@,
            forall|j: int| 0 <= j < b@.len() ==> #[trigger] right[b@[j].0@] == b@[j].1@,
            forall|j: int|
                0 <= j < i ==> right.contains_key(#[trigger] a@[j].0@) && right[a@[j].0@]
                    == a@[j].1@,
        decreases a@.len() - i,
    {
        match find_key(b, &a[i].0) {
            None => {
                assert(left.contains_key(a@[i as int].0@));
                assert(!right.contains_key(a@[i as int].0@));
                return false;
            },
            Some(j) => {
                if !a[i].1.same_value(&b[j].1) {
                    assert(left[a@[i as int].0@] == a@[i as int].1@);
                    assert(right[b@[j as int].0@] == b@[j as int].1@);
                    return false;
                }
                assert(right.contains_key(a@[i as int].0@));
            },
        }
        i += 1;
    }
    proof {
        assert forall|key: Seq<char>| left.contains_key(key) implies right.contains_key(key)
            && left[key] == right[key] by {
            let j = choose|j: int| 0 <= j < a@.len() && #[trigger] a@[j].0@ == key;
            assert(right.contains_key(a@[j].0@));
        }
        assert(left.dom().subset_of(right.dom()));
        if exists|key: Seq<char>| right.contains_key(key) && !left.contains_key(key) {
            let key = choose|key: Seq<char>| right.contains_key(key) && !left.contains_key(key);
            left.dom().lemma_subset_not_in_lt(right.dom(), key);
        }
        assert(left =~= right);
    }
    true
}

/// A copy of each item, in order.
fn clone_items(items: &Vec<Plist>) -> (copy: Vec<Plist>)
    ensures
        trees(copy@) == trees(items@),
    decreases items,
{
    let mut copy: Vec<Plist> = Vec::new();
    let mut i: usize = 0;
    while i < items.len()
        invariant
            i <= items@.len(),
            copy@.len() == i,
            forall|j: int| 0 <= j < i ==> copy@[j]@ == items@[j]@,
        decreases items@.len() - i,
    {
        copy.push(items[i].duplicate());
        i += 1;
    }
    proof {
        lemma_trees(copy@);
        lemma_trees(items@);
        assert(trees(copy@) =~= trees(items@));
    }
    copy
}

/// A copy of each entry, in order.
fn clone_entries(entries: &Vec<(String, Plist)>) -> (copy: Vec<(String, Plist)>)
    ensures
        same_entries(copy@, entries@),
    decreases entries,
{
    let mut copy: Vec<(String, Plist)> = Vec::new();
    let mut i: usize = 0;
    while i < entries.len()
        invariant
            i <= entries@.len(),
            copy@.len() == i,
            forall|j: int|
                0 <= j < i ==> copy@[j].0@ == entries@[j].0@ && copy@[j].1@ == entries@[j].1@,
        decreases entries@.len() - i,
    {
        let key = entries[i].0.clone();
        let value = entries[i].1.duplicate();
        copy.push((key, value));
        i += 1;
    }
    copy
}

impl Plist {
    /// Whether two property lists stand for the same tree.
    pub fn same_value(&self, other: &Plist) -> (r: bool)
        ensures
            r == (self@ == other@),
        decreases self,
    {
        match self {
            Plist::Array(a) => match other {
                Plist::Array(b) => same_items(a, b),
                _ => false,
            },
            Plist::Dictionary(a) => match other {
                Plist::Dictionary(b) => a.same(b),
                _ => false,
            },
            Plist::Boolean(a) => match other {
                Plist::Boolean(b) => *a == *b,
                _ => false,
            },
            Plist::Data(a) => match other {
                Plist::Data(b) => same_bytes(a, b),
                _ => false,
            },
            Plist::Date(a) => match other {
                Plist::Date(b) => a.same_instant(b),
                _ => false,
            },
            Plist::Real(a) => match other {
                Plist::Real(b) => {
                    proof {
                        if a@ == b@ {
                            Real::lemma_view_injective(*a, *b);
                        }
                    }
                    *a == *b
                },
                _ => false,
            },
            Plist::Integer(a) => match other {
                Plist::Integer(b) => {
                    proof {
                        if a@ == b@ {
                            Integer::lemma_view_injective(*a, *b);
                        }
                    }
                    *a == *b
                },
                _ => false,
            },
            Plist::String(a) => match other {
                Plist::String(b) => *a == *b,
                _ => false,
            },
        }
    }

    /// A copy that stands for the same tree.
    pub fn duplicate(&self) -> (copy: Plist)
        ensures
            copy@ == self@,
        decreases self,
    {
        match self {
            Plist::Array(items) => Plist::Array(clone_items(items)),
            Plist::Dictionary(dictionary) => Plist::Dictionary(dictionary.duplicate()),
            Plist::Boolean(b) => Plist::Boolean(*b),
            Plist::Data(bytes) => Plist::Data(bytes.clone()),
            Plist::Date(date) => Plist::Date(*date),
            Plist::Real(number) => Plist::Real(*number),
            Plist::Integer(integer) => Plist::Integer(*integer),
            Plist::String(string) => Plist::String(string.clone()),
        }
    }
}

impl PartialEq for Plist {
    fn eq(&self, other: &Plist) -> (r: bool) {
        self.same_value(other)
    }
}

impl PartialEqSpecImpl for Plist {
    open spec fn obeys_eq_spec() -> bool {
        true
    }

    open spec fn eq_spec(&self, other: &Plist) -> bool {
        self@ == other@
    }
}

impl PartialEq for Dictionary {
    fn eq(&self, other: &Dictionary) -> (r: bool) {
        self.same(other)
    }
}

impl PartialEqSpecImpl for Dictionary {
    open spec fn obeys_eq_spec() -> bool {
        true
    }

    open spec fn eq_spec(&self, other: &Dictionary) -> bool {
        self@ == other@
    }
}

impl Clone for Plist {
    fn clone(&self) -> (copy: Plist)
        ensures
            copy@ == self@,
    {
        self.duplicate()
    }
}

impl Clone for Dictionary {
    fn clone(&self) -> (copy: Dictionary)
        ensures
            copy@ == self@,
    {
        self.duplicate()
    }
}

impl Dictionary {
    /// A copy that stands for the same mapping.
    pub fn duplicate(&self) -> (copy: Dictionary)
        ensures
            copy@ == self@,
        decreases self,
    {
        proof {
            use_type_invariant(self);
        }
        let entries = clone_entries(&self.entries);
        proof {
            lemma_same_entries(entries@, self.entries@);
        }
        Dictionary { entries }
    }

    #[verifier::type_invariant]
    spec fn no_key_twice(self) -> bool {
        keys_distinct(self.entries@)
    }

    /// A dictionary without entries.
    pub fn new() -> (r: Dictionary)
        ensures
            r@ == Map::<Seq<char>, Tree>::empty(),
    {
        Dictionary { entries: Vec::new() }
    }

    /// The number of keys.
    pub fn len(&self) -> (n: usize)
        ensures
            self@.dom().finite(),
            n == self@.len(),
    {
        proof {
            use_type_invariant(self);
            lemma_distinct_len(self.entries@);
        }
        self.entries.len()
    }

    /// The place of `key` among the entries, if it is there.
    fn position(&self, key: &String) -> (r: Option<usize>)
        ensures
            match r {
                Some(i) => i < self.entries@.len() && self.entries@[i as int].0@ == key@,
                None => forall|i: int| 0 <= i < self.entries@.len() ==> self.entries@[i].0@ != key@,
            },
    {
        find_key(&self.entries, key)
    }

    /// Whether two dictionaries are the same mapping.
    pub fn same(&self, other: &Dictionary) -> (r: bool)
        ensures
            r == (self@ == other@),
        decreases self,
    {
        proof {
            use_type_invariant(self);
            use_type_invariant(other);
        }
        same_pairs(&self.entries, &other.entries)
    }

    /// The value under `key`, if there is one.
    pub fn get(&self, key: &String) -> (r: Option<&Plist>)
        ensures
            self@.contains_key(key@) ==> r is Some && r.unwrap()@ == self@[key@],
            !self@.contains_key(key@) ==> r is None,
    {
        proof {
            use_type_invariant(self);
            lemma_entries_map(self.entries@);
        }
        match self.position(key) {
            Some(i) => Some(&self.entries[i].1),
            None => None,
        }
    }

    /// Whether there is a value under `key`.
    pub fn contains_key(&self, key: &String) -> (r: bool)
        ensures
            r == self@.contains_key(key@),
    {
        proof {
            lemma_entries_map(self.entries@);
        }
        self.position(key).is_some()
    }

    /// Puts `value` under `key`, and hands back what was there before.
    pub fn insert(&mut self, key: String, value: Plist) -> (previous: Option<Plist>)
        ensures
            final(self)@ == old(self)@.insert(key@, value@),
            old(self)@.contains_key(key@) ==> previous is Some && previous.unwrap()@ == old(
                self,
            )@[key@],
            !old(self)@.contains_key(key@) ==> previous is None,
    {
        proof {
            use_type_invariant(&*self);
            lemma_entries_map(self.entries@);
        }
        let ghost before = self.entries@;
        let ghost entry = (key, value);
        let found = self.position(&key);
        let mut entries: Vec<(String, Plist)> = Vec::new();
        std::mem::swap(&mut self.entries, &mut entries);
        let previous = match found {
            Some(i) => {
                let replaced = entries.remove(i);
                entries.insert(i, (key, value));
                proof {
                    let after = entries@;
                    assert(after.len() == before.len());
                    assert forall|j: int| 0 <= j < after.len() implies after[j].0@
                        == #[trigger] before[j].0@ by {}
                    lemma_entries_map(after);
                    assert forall|k: Seq<char>|
                        entries_map(after).contains_key(k) == #[trigger] entries_map(
                            before,
                        ).insert(entry.0@, entry.1@).contains_key(k) by {
                        if entries_map(after).contains_key(k) {
                            let j = choose|j: int|
                                0 <= j < after.len() && #[trigger] after[j].0@ == k;
                            assert(before[j].0@ == k);
                        }
                        if entries_map(before).contains_key(k) {
                            let j = choose|j: int|
                                0 <= j < before.len() && #[trigger] before[j].0@ == k;
                            assert(after[j].0@ == k);
                        }
                        if k == entry.0@ {
                            assert(after[i as int].0@ == k);
                        }
                    }
                    assert forall|k: Seq<char>| #[trigger]
                        entries_map(after).contains_key(k) implies entries_map(after)[k]
                        == entries_map(before).insert(entry.0@, entry.1@)[k] by {
                        let j = choose|j: int| 0 <= j < after.len() && #[trigger] after[j].0@ == k;
                        assert(entries_map(after)[after[j].0@] == after[j].1@);
                        if j != i {
                            assert(after[j] == before[j]);
                            assert(entries_map(before)[before[j].0@] == before[j].1@);
                        }
                    }
                    assert(entries_map(after) =~= entries_map(before).insert(entry.0@, entry.1@));
                    assert(entries_map(before)[before[i as int].0@] == before[i as int].1@);
                    assert forall|a: int, b: int| 0 <= a < b < after.len() implies after[a].0@
                        != after[b].0@ by {
                        assert(before[a].0@ != before[b].0@);
                    }
                }
                Some(replaced.1)
            },
            None => {
                entries.push((key, value));
                proof {
                    assert(entries@.drop_last() =~= before);
                }
                None
            },
        };
        std::mem::swap(&mut self.entries, &mut entries);
        previous
    }

    /// The entries, each key once, in the order in which the keys first came.
    pub fn into_entries(self) -> (entries: Vec<(String, Plist)>)
        ensures
            keys_distinct(entries@),
            entries_map(entries@) == self@,
    {
        proof {
            use_type_invariant(&self);
        }
        self.entries
    }
}

/// A list of entries with distinct keys spells a mapping with as many keys.
pub proof fn lemma_distinct_len(entries: Seq<(String, Plist)>)
    requires
        keys_distinct(entries),
    ensures
        entries_map(entries).dom().finite(),
        entries_map(entries).len() == entries.len(),
    decreases entries.len(),
{
    lemma_entries_map(entries);
    if entries.len() > 0 {
        let front = entries.drop_last();
        assert forall|i: int, j: int| 0 <= i < j < front.len() implies front[i].0@
            != front[j].0@ by {
            assert(front[i] == entries[i] && front[j] == entries[j]);
        }
        lemma_distinct_len(front);
        lemma_entries_map(front);
        assert(entries_map(entries) == entries_map(front).insert(
            entries.last().0@,
            entries.last().1@,
        ));
        if entries_map(front).contains_key(entries.last().0@) {
            let i = choose|i: int|
                0 <= i < front.len() && #[trigger] front[i].0@ == entries.last().0@;
            assert(entries[i].0@ == entries[entries.len() - 1].0@);
        }
    }
}

} // verus!
