//! The set of currently-held virtual keys, in insertion order.
//!
//! The set is stored in an `indexmap::IndexSet`, whose contents are modeled
//! as the sequence of keys in insertion order. Each `IndexSet` method the
//! crate relies on has one thin trusted wrapper; the public `PressedKeys`
//! type is verified against those contracts.
use vstd::prelude::*;

verus! {

/// `indexmap`'s insertion-ordered hash set, declared so its values can flow
/// through verified code.
#[verifier::external_type_specification]
#[verifier::external_body]
#[verifier::reject_recursive_types(T)]
#[verifier::reject_recursive_types(S)]
pub struct ExIndexSet<T, S>(indexmap::IndexSet<T, S>);

/// The keys an `IndexSet` holds, in insertion order.
pub uninterp spec fn iset_seq(
    s: indexmap::IndexSet<u32, std::collections::hash_map::RandomState>,
) -> Seq<u32>;

/// Relies on `indexmap::IndexSet::with_capacity`: a new set is empty.
#[verifier::external_body]
fn iset_new() -> (r: indexmap::IndexSet<u32, std::collections::hash_map::RandomState>)
    ensures
        iset_seq(r) == Seq::<u32>::empty(),
{
    indexmap::IndexSet::with_capacity(20)
}

/// Relies on `indexmap::IndexSet::insert`: an already-present key leaves the
/// set unchanged and returns false; otherwise the key is appended in
/// insertion order and the call returns true.
#[verifier::external_body]
fn iset_insert(
    s: &mut indexmap::IndexSet<u32, std::collections::hash_map::RandomState>,
    vk: u32,
) -> (newly: bool)
    ensures
        iset_seq(*old(s)).contains(vk) ==> iset_seq(*final(s)) == iset_seq(*old(s)) && !newly,
        !iset_seq(*old(s)).contains(vk) ==> iset_seq(*final(s)) == iset_seq(*old(s)).push(vk)
            && newly,
{
    s.insert(vk)
}

/// Relies on `indexmap::IndexSet::shift_remove`: the key's first (only)
/// occurrence is removed, the order of the remaining keys is preserved, and
/// the call returns whether the key was present.
#[verifier::external_body]
fn iset_shift_remove(
    s: &mut indexmap::IndexSet<u32, std::collections::hash_map::RandomState>,
    vk: u32,
) -> (was: bool)
    ensures
        iset_seq(*final(s)) == iset_seq(*old(s)).remove_value(vk),
        was == iset_seq(*old(s)).contains(vk),
{
    s.shift_remove(&vk)
}

/// Relies on `indexmap::IndexSet::contains`.
#[verifier::external_body]
fn iset_contains(
    s: &indexmap::IndexSet<u32, std::collections::hash_map::RandomState>,
    vk: u32,
) -> (r: bool)
    ensures
        r == iset_seq(*s).contains(vk),
{
    s.contains(&vk)
}

/// Relies on `indexmap::IndexSet::len`.
#[verifier::external_body]
fn iset_len(s: &indexmap::IndexSet<u32, std::collections::hash_map::RandomState>) -> (r: usize)
    ensures
        r == iset_seq(*s).len(),
{
    s.len()
}

/// Relies on `indexmap::IndexSet::iter`: the keys come out in insertion
/// order.
#[verifier::external_body]
fn iset_to_vec(s: &indexmap::IndexSet<u32, std::collections::hash_map::RandomState>) -> (r: Vec<
    u32,
>)
    ensures
        r@ == iset_seq(*s),
{
    s.iter().copied().collect()
}

/// Relies on `indexmap::IndexSet::clone`: the copy holds the same keys in the
/// same order.
#[verifier::external_body]
fn iset_clone(s: &indexmap::IndexSet<u32, std::collections::hash_map::RandomState>) -> (r:
    indexmap::IndexSet<u32, std::collections::hash_map::RandomState>)
    ensures
        iset_seq(r) == iset_seq(*s),
{
    s.clone()
}

/// The ordered set of currently-held virtual keys. Its view is the sequence
/// of keys in insertion order; a well-formed value holds no key twice.
pub struct PressedKeys {
    set: indexmap::IndexSet<u32, std::collections::hash_map::RandomState>,
}

impl View for PressedKeys {
    type V = Seq<u32>;

    closed spec fn view(&self) -> Seq<u32> {
        iset_seq(self.set)
    }
}

impl PressedKeys {
    /// No key occurs twice. Holds for every value built from `new` by
    /// `insert` and `remove`.
    pub open spec fn wf(&self) -> bool {
        self@.no_duplicates()
    }

    /// Creates an empty set.
    pub fn new() -> (r: Self)
        ensures
            r@ == Seq::<u32>::empty(),
            r.wf(),
    {
        PressedKeys { set: iset_new() }
    }

    /// Inserts a key at the end of the order; a key already held is left
    /// where it is. Returns whether the key was newly inserted.
    pub fn insert(&mut self, vk: u32) -> (newly: bool)
        ensures
            old(self)@.contains(vk) ==> final(self)@ == old(self)@ && !newly,
            !old(self)@.contains(vk) ==> final(self)@ == old(self)@.push(vk) && newly,
            old(self).wf() ==> final(self).wf(),
    {
        proof {
            if old(self).wf() && !old(self)@.contains(vk) {
                lemma_push_no_duplicates(old(self)@, vk);
            }
        }
        iset_insert(&mut self.set, vk)
    }

    /// Removes a key, keeping the order of the remaining keys. Removing an
    /// absent key is allowed and returns false.
    pub fn remove(&mut self, vk: u32) -> (was: bool)
        ensures
            final(self)@ == old(self)@.remove_value(vk),
            was == old(self)@.contains(vk),
            old(self).wf() ==> final(self).wf(),
    {
        proof {
            if old(self).wf() {
                lemma_remove_value_no_duplicates(old(self)@, vk);
            }
        }
        iset_shift_remove(&mut self.set, vk)
    }

    /// Returns whether the key is held.
    pub fn contains(&self, vk: u32) -> (r: bool)
        ensures
            r == self@.contains(vk),
    {
        iset_contains(&self.set, vk)
    }

    /// Returns how many keys are held.
    pub fn len(&self) -> (r: usize)
        ensures
            r == self@.len(),
    {
        iset_len(&self.set)
    }

    /// Returns whether no key is held.
    pub fn is_empty(&self) -> (r: bool)
        ensures
            r == (self@.len() == 0),
    {
        self.len() == 0
    }

    /// Returns the held keys as a vector, in insertion order.
    pub fn to_vec(&self) -> (r: Vec<u32>)
        ensures
            r@ == self@,
    {
        iset_to_vec(&self.set)
    }

    /// Returns an independent copy with the same keys in the same order.
    pub fn snapshot(&self) -> (r: Self)
        ensures
            r@ == self@,
    {
        PressedKeys { set: iset_clone(&self.set) }
    }
}

/// Appending a fresh element keeps a duplicate-free sequence duplicate-free.
pub proof fn lemma_push_no_duplicates(s: Seq<u32>, v: u32)
    requires
        s.no_duplicates(),
        !s.contains(v),
    ensures
        s.push(v).no_duplicates(),
{
    let t = s.push(v);
    assert forall|i: int, j: int| 0 <= i < t.len() && 0 <= j < t.len() && i != j implies t[i]
        != t[j] by {
        if i < s.len() && j < s.len() {
            assert(t[i] == s[i] && t[j] == s[j]);
        } else if i < s.len() {
            assert(t[j] == v && t[i] == s[i] && s.contains(s[i]));
        } else {
            assert(t[i] == v && t[j] == s[j] && s.contains(s[j]));
        }
    }
}

/// Removing one position keeps a duplicate-free sequence duplicate-free.
pub proof fn lemma_remove_no_duplicates(s: Seq<u32>, i: int)
    requires
        s.no_duplicates(),
        0 <= i < s.len(),
    ensures
        s.remove(i).no_duplicates(),
{
    let t = s.remove(i);
    assert forall|p: int, q: int| 0 <= p < t.len() && 0 <= q < t.len() && p != q implies t[p]
        != t[q] by {
        let p0: int = if p < i {
            p
        } else {
            p + 1
        };
        let q0: int = if q < i {
            q
        } else {
            q + 1
        };
        assert(t[p] == s[p0] && t[q] == s[q0]);
    }
}

/// Removing a value keeps a duplicate-free sequence duplicate-free; the value
/// is gone afterwards and no other value's membership changes.
pub proof fn lemma_remove_value_no_duplicates(s: Seq<u32>, v: u32)
    requires
        s.no_duplicates(),
    ensures
        s.remove_value(v).no_duplicates(),
        !s.remove_value(v).contains(v),
        forall|x: u32| x != v ==> (s.remove_value(v).contains(x) == s.contains(x)),
{
    s.index_of_first_ensures(v);
    if s.contains(v) {
        let i = s.index_of_first(v).unwrap();
        lemma_remove_no_duplicates(s, i);
        let t = s.remove(i);
        assert forall|x: u32| t.contains(x) implies s.contains(x) && x != v by {
            let p = choose|p: int| 0 <= p < t.len() && t[p] == x;
            let p0: int = if p < i {
                p
            } else {
                p + 1
            };
            assert(s[p0] == x);
            if x == v {
                assert(s[i] == v && p0 != i);
            }
        }
        assert forall|x: u32| x != v && s.contains(x) implies t.contains(x) by {
            let p0 = choose|p0: int| 0 <= p0 < s.len() && s[p0] == x;
            let p: int = if p0 < i {
                p0
            } else {
                p0 - 1
            };
            assert(p0 != i);
            assert(t[p] == s[p0]);
        }
    }
}

} // verus!
