//! Insertion-ordered pools: a value gets the next index when it is first
//! seen, and that index for good.
use indexmap::IndexSet;
use vstd::prelude::*;

verus! {

#[verifier::external_type_specification]
#[verifier::external_body]
#[verifier::reject_recursive_types(T)]
#[verifier::reject_recursive_types(S)]
pub struct ExIndexSet<T, S>(IndexSet<T, S>);

/// What an `IndexSet` of strings holds, in the order of insertion.
pub uninterp spec fn string_set_items(set: IndexSet<String>) -> Seq<Seq<char>>;

/// What an `IndexSet` of instruction pointers holds, in the order of insertion.
pub uninterp spec fn frame_set_items(set: IndexSet<u64>) -> Seq<u64>;

/// `IndexSet::new`: a set that holds nothing.
#[verifier::external_body]
fn string_set_new() -> (set: IndexSet<String>)
    ensures
        string_set_items(set).len() == 0,
{
    IndexSet::new()
}

/// `IndexSet::get_full`: the position of the item equal to `value`, or
/// `None` where the set holds no such item.
#[verifier::external_body]
fn string_set_get_full(set: &IndexSet<String>, value: &str) -> (found: Option<usize>)
    ensures
        found matches Some(i) ==> i < string_set_items(*set).len() && string_set_items(
            *set,
        )[i as int] == value@,
        found is None ==> !string_set_items(*set).contains(value@),
{
    set.get_full(value).map(|entry| entry.0)
}

/// `IndexSet::insert_full`: an item that the set holds stays where it is, and
/// its position comes back with `false`; another goes to the end, and its
/// position comes back with `true`.
#[verifier::external_body]
fn string_set_insert_full(set: &mut IndexSet<String>, value: String) -> (placed: (usize, bool))
    ensures
        placed.1 == !string_set_items(*old(set)).contains(value@),
        placed.1 ==> placed.0 == string_set_items(*old(set)).len() && string_set_items(
            *final(set),
        ) == string_set_items(*old(set)).push(value@),
        !placed.1 ==> placed.0 < string_set_items(*old(set)).len() && string_set_items(
            *old(set),
        )[placed.0 as int] == value@ && string_set_items(*final(set)) == string_set_items(
            *old(set),
        ),
{
    set.insert_full(value)
}

/// `IndexSet::new`: a set that holds nothing.
#[verifier::external_body]
fn frame_set_new() -> (set: IndexSet<u64>)
    ensures
        frame_set_items(set).len() == 0,
{
    IndexSet::new()
}

/// `IndexSet::get_full`: the position of the item equal to `value`, or
/// `None` where the set holds no such item.
#[verifier::external_body]
fn frame_set_get_full(set: &IndexSet<u64>, value: u64) -> (found: Option<usize>)
    ensures
        found matches Some(i) ==> i < frame_set_items(*set).len() && frame_set_items(
            *set,
        )[i as int] == value,
        found is None ==> !frame_set_items(*set).contains(value),
{
    set.get_full(&value).map(|entry| entry.0)
}

/// `IndexSet::insert_full`: an item that the set holds stays where it is, and
/// its position comes back with `false`; another goes to the end, and its
/// position comes back with `true`.
#[verifier::external_body]
fn frame_set_insert_full(set: &mut IndexSet<u64>, value: u64) -> (placed: (usize, bool))
    ensures
        placed.1 == !frame_set_items(*old(set)).contains(value),
        placed.1 ==> placed.0 == frame_set_items(*old(set)).len() && frame_set_items(*final(set))
            == frame_set_items(*old(set)).push(value),
        !placed.1 ==> placed.0 < frame_set_items(*old(set)).len() && frame_set_items(
            *old(set),
        )[placed.0 as int] == value && frame_set_items(*final(set)) == frame_set_items(
            *old(set),
        ),
{
    set.insert_full(value)
}

/// No value stands at two positions.
pub open spec fn distinct<T>(items: Seq<T>) -> bool {
    forall|i: int, j: int| 0 <= i < j < items.len() ==> items[i] != items[j]
}

/// The pool after `value` was interned: unchanged where it holds the value,
/// else with the value at the end.
pub open spec fn interned<T>(items: Seq<T>, value: T) -> Seq<T> {
    if items.contains(value) {
        items
    } else {
        items.push(value)
    }
}

/// The index that `value` has once it is interned.
pub open spec fn index_of<T>(items: Seq<T>, value: T) -> int {
    if items.contains(value) {
        choose|i: int| 0 <= i < items.len() && items[i] == value
    } else {
        items.len() as int
    }
}

/// In a pool without duplicates, a position that holds `value` is its index.
pub proof fn lemma_index_of<T>(items: Seq<T>, value: T, i: int)
    requires
        distinct(items),
        0 <= i < items.len(),
        items[i] == value,
    ensures
        index_of(items, value) == i,
{
    let j = choose|j: int| 0 <= j < items.len() && items[j] == value;
    if j < i {
        assert(items[j] != items[i]);
    } else if i < j {
        assert(items[i] != items[j]);
    }
}

/// Interning is idempotent and keeps what it gave out: after `value` was
/// interned it stands at its index, interning it again changes nothing and
/// gives the same index, and every other value keeps its index.
pub proof fn lemma_interning_is_stable<T>(items: Seq<T>, value: T, other: T)
    requires
        distinct(items),
    ensures
        distinct(interned(items, value)),
        0 <= index_of(items, value) < interned(items, value).len(),
        interned(items, value)[index_of(items, value)] == value,
        interned(interned(items, value), value) == interned(items, value),
        index_of(interned(items, value), value) == index_of(items, value),
        items.contains(other) ==> index_of(interned(items, value), other) == index_of(
            items,
            other,
        ),
{
    let after = interned(items, value);
    if !items.contains(value) {
        assert forall|i: int, j: int| 0 <= i < j < after.len() implies after[i] != after[j] by {
            if j == items.len() {
                assert(items[i] == after[i]);
                assert(items.contains(after[i]));
            } else {
                assert(items[i] != items[j]);
            }
        }
        assert(after[items.len() as int] == value);
    }
    let at = index_of(items, value);
    assert(after[at] == value);
    assert(after.contains(value));
    lemma_index_of(after, value, at);
    if items.contains(other) {
        let k = index_of(items, other);
        assert(after[k] == other);
        assert(after.contains(other));
        lemma_index_of(after, other, k);
    }
}

/// The pool of the strings of a ledger.
pub struct StringPool {
    set: IndexSet<String>,
}

impl View for StringPool {
    type V = Seq<Seq<char>>;

    closed spec fn view(&self) -> Seq<Seq<char>> {
        string_set_items(self.set)
    }
}

impl StringPool {
    pub open spec fn wf(&self) -> bool {
        distinct(self@)
    }

    pub fn new() -> (pool: Self)
        ensures
            pool.wf(),
            pool@ == Seq::<Seq<char>>::empty(),
    {
        let pool = StringPool { set: string_set_new() };
        assert(pool@ =~= Seq::<Seq<char>>::empty());
        pool
    }

    /// The index of `value`, where the pool holds it.
    pub fn get_full(&self, value: &str) -> (found: Option<usize>)
        requires
            self.wf(),
        ensures
            match found {
                Some(i) => self@.contains(value@) && i == index_of(self@, value@),
                None => !self@.contains(value@),
            },
    {
        let found = string_set_get_full(&self.set, value);
        proof {
            if let Some(i) = found {
                assert(self@.contains(value@));
                lemma_index_of(self@, value@, i as int);
            }
        }
        found
    }

    /// Interns `value`: its index, and whether it was new.
    pub fn insert_full(&mut self, value: &str) -> (placed: (usize, bool))
        requires
            old(self).wf(),
        ensures
            final(self).wf(),
            final(self)@ == interned(old(self)@, value@),
            placed.0 == index_of(old(self)@, value@),
            placed.1 == !old(self)@.contains(value@),
    {
        let placed = string_set_insert_full(&mut self.set, String::from_str(value));
        proof {
            lemma_interning_is_stable(old(self)@, value@, value@);
            if !placed.1 {
                lemma_index_of(old(self)@, value@, placed.0 as int);
            }
        }
        placed
    }

    pub fn len(&self) -> (n: usize)
        requires
            self.wf(),
        ensures
            n == self@.len(),
    {
        string_set_len(&self.set)
    }
}

/// `IndexSet::len`: the number of items.
#[verifier::external_body]
fn string_set_len(set: &IndexSet<String>) -> (n: usize)
    ensures
        n == string_set_items(*set).len(),
{
    set.len()
}

/// `IndexSet::len`: the number of items.
#[verifier::external_body]
fn frame_set_len(set: &IndexSet<u64>) -> (n: usize)
    ensures
        n == frame_set_items(*set).len(),
{
    set.len()
}

/// The pool of the instruction pointers of a ledger.
pub struct FramePool {
    set: IndexSet<u64>,
}

impl View for FramePool {
    type V = Seq<u64>;

    closed spec fn view(&self) -> Seq<u64> {
        frame_set_items(self.set)
    }
}

impl FramePool {
    pub open spec fn wf(&self) -> bool {
        distinct(self@)
    }

    pub fn new() -> (pool: Self)
        ensures
            pool.wf(),
            pool@ == Seq::<u64>::empty(),
    {
        let pool = FramePool { set: frame_set_new() };
        assert(pool@ =~= Seq::<u64>::empty());
        pool
    }

    /// The index of `value`, where the pool holds it.
    pub fn get_full(&self, value: u64) -> (found: Option<usize>)
        requires
            self.wf(),
        ensures
            match found {
                Some(i) => self@.contains(value) && i == index_of(self@, value),
                None => !self@.contains(value),
            },
    {
        let found = frame_set_get_full(&self.set, value);
        proof {
            if let Some(i) = found {
                assert(self@.contains(value));
                lemma_index_of(self@, value, i as int);
            }
        }
        found
    }

    /// Interns `value`: its index, and whether it was new.
    pub fn insert_full(&mut self, value: u64) -> (placed: (usize, bool))
        requires
            old(self).wf(),
        ensures
            final(self).wf(),
            final(self)@ == interned(old(self)@, value),
            placed.0 == index_of(old(self)@, value),
            placed.1 == !old(self)@.contains(value),
    {
        let placed = frame_set_insert_full(&mut self.set, value);
        proof {
            lemma_interning_is_stable(old(self)@, value, value);
            if !placed.1 {
                lemma_index_of(old(self)@, value, placed.0 as int);
            }
        }
        placed
    }

    pub fn len(&self) -> (n: usize)
        requires
            self.wf(),
        ensures
            n == self@.len(),
    {
        frame_set_len(&self.set)
    }
}

} // verus!
