//! Construction through std's `Default` and `From`.

use vstd::prelude::*;

use super::method::LinkedList;

verus! {

impl<T> Default for LinkedList<T> {
    /// An empty list, as `new` gives.
    fn default() -> (list: Self)
        ensures
            list.well_formed(),
            list@ == Seq::<T>::empty(),
    {
        Self::new()
    }
}

/// Relies on `<Vec<T> as From<[T; N]>>::from`: the vector holds the array's elements, in order.
#[verifier::external_body]
fn vec_from_array<T, const N: usize>(array: [T; N]) -> (v: Vec<T>)
    ensures
        v@ == array@,
{
    Vec::from(array)
}

impl<T, const N: usize> From<[T; N]> for LinkedList<T> {
    /// The list holding the array's elements, the first element of the array at the front.
    fn from(array: [T; N]) -> (list: Self)
        ensures
            list.well_formed(),
            list@ == array@,
    {
        let mut items = vec_from_array(array);
        let mut list = LinkedList::new();
        while items.len() > 0
            invariant
                list.well_formed(),
                items@ + list@ == array@,
            decreases items.len(),
        {
            let ghost before = items@;
            match items.pop() {
                Some(item) => {
                    list.push_front(item);
                    assert(before == items@.push(item));
                    assert(items@ + list@ =~= before + list@.drop_first());
                },
                None => {},
            }
        }
        assert(list@ =~= array@);
        list
    }
}

/// The same contents can sit in many arena layouts, so no single list value is the result of
/// `from`: its own `ensures` above says what it returns.
impl<T, const N: usize> vstd::std_specs::convert::FromSpecImpl<[T; N]> for LinkedList<T> {
    open spec fn obeys_from_spec() -> bool {
        false
    }

    open spec fn from_spec(array: [T; N]) -> Self {
        arbitrary()
    }
}

} // verus!
