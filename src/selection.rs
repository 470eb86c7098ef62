use vstd::prelude::*;
use indexmap::IndexSet;

verus! {

#[verifier::external_type_specification]
#[verifier::external_body]
#[verifier::reject_recursive_types(T)]
#[verifier::reject_recursive_types(S)]
pub struct ExIndexSet<T, S>(IndexSet<T, S>);

/// The ids held by a selection, in the order in which they were inserted.
pub uninterp spec fn selection_of(s: IndexSet<u32>) -> Seq<u32>;

/// Relies on `IndexSet::new`: a new set is empty.
#[verifier::external_body]
pub(crate) fn sel_new() -> (r: IndexSet<u32>)
    ensures
        selection_of(r) == Seq::<u32>::empty(),
{
    IndexSet::new()
}

/// Relies on `IndexSet::len`: the number of elements.
#[verifier::external_body]
pub(crate) fn sel_len(s: &IndexSet<u32>) -> (r: usize)
    ensures
        r as int == selection_of(*s).len(),
{
    s.len()
}

/// Relies on `IndexSet::contains`: membership of a value.
#[verifier::external_body]
pub(crate) fn sel_contains(s: &IndexSet<u32>, v: u32) -> (r: bool)
    ensures
        r == selection_of(*s).contains(v),
{
    s.contains(&v)
}

/// Relies on `IndexSet::insert`: a value that is absent goes last in order and
/// `true` comes back; one that is present leaves the set as it was.
#[verifier::external_body]
pub(crate) fn sel_insert(s: &mut IndexSet<u32>, v: u32) -> (r: bool)
    ensures
        r == !selection_of(*old(s)).contains(v),
        selection_of(*final(s)) == (if r {
            selection_of(*old(s)).push(v)
        } else {
            selection_of(*old(s))
        }),
{
    s.insert(v)
}

/// Relies on `IndexSet::shift_remove`: the value is taken out and the others
/// keep their relative order; `true` iff it was there.
#[verifier::external_body]
pub(crate) fn sel_shift_remove(s: &mut IndexSet<u32>, v: u32) -> (r: bool)
    ensures
        r == selection_of(*old(s)).contains(v),
        selection_of(*final(s)) == selection_of(*old(s)).filter(|x: u32| x != v),
{
    s.shift_remove(&v)
}

/// Relies on `IndexSet::clear`: the set becomes empty.
#[verifier::external_body]
pub(crate) fn sel_clear(s: &mut IndexSet<u32>)
    ensures
        selection_of(*final(s)) == Seq::<u32>::empty(),
{
    s.clear()
}

/// Relies on `IndexSet::first`: the earliest inserted value, if any.
#[verifier::external_body]
pub(crate) fn sel_first(s: &IndexSet<u32>) -> (r: Option<u32>)
    ensures
        r == (if selection_of(*s).len() > 0 {
            Some(selection_of(*s)[0])
        } else {
            None::<u32>
        }),
{
    s.first().copied()
}

/// Relies on `IndexSet::last`: the latest inserted value, if any.
#[verifier::external_body]
pub(crate) fn sel_last(s: &IndexSet<u32>) -> (r: Option<u32>)
    ensures
        r == (if selection_of(*s).len() > 0 {
            Some(selection_of(*s).last())
        } else {
            None::<u32>
        }),
{
    s.last().copied()
}

} // verus!
