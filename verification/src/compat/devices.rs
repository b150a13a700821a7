//! The bounded list of device addresses a bus scan returns.

use vstd::prelude::*;

verus! {

#[verifier::external_type_specification]
#[verifier::external_body]
#[verifier::reject_recursive_types(T)]
pub struct ExHeaplessVec<T, const N: usize>(heapless::Vec<T, N>);

/// The addresses held by a device list, oldest first.
pub uninterp spec fn device_list(v: heapless::Vec<u8, 128>) -> Seq<u8>;

/// An empty device list.
///
/// Calls `heapless::Vec::new`, which makes a vector with no elements.
#[verifier::external_body]
pub(crate) fn device_list_new() -> (v: heapless::Vec<u8, 128>)
    ensures
        device_list(v) == Seq::<u8>::empty(),
{
    heapless::Vec::new()
}

/// Appends an address to a device list.
///
/// Calls `heapless::Vec::push`, which appends the element when fewer than the
/// capacity (128) are held and otherwise hands it back unchanged in `Err`.
#[verifier::external_body]
pub(crate) fn device_list_push(v: &mut heapless::Vec<u8, 128>, x: u8) -> (r: Result<(), u8>)
    ensures
        r is Ok <==> device_list(*old(v)).len() < 128,
        r is Ok ==> device_list(*final(v)) == device_list(*old(v)).push(x),
        r is Err ==> r->Err_0 == x && device_list(*final(v)) == device_list(*old(v)),
{
    v.push(x)
}

/// The addresses of a device list as a slice.
///
/// Calls `heapless::Vec::as_slice`, which views the held elements in order; a
/// list never holds more than its capacity of 128.
#[verifier::external_body]
pub(crate) fn device_list_as_slice(v: &heapless::Vec<u8, 128>) -> (s: &[u8])
    ensures
        s@ == device_list(*v),
        s@.len() <= 128,
{
    v.as_slice()
}

/// Whether a device list holds no address.
///
/// Calls `heapless::Vec::is_empty`, which is true exactly when no element is held.
#[verifier::external_body]
pub(crate) fn device_list_is_empty(v: &heapless::Vec<u8, 128>) -> (r: bool)
    ensures
        r == (device_list(*v).len() == 0),
{
    v.is_empty()
}

} // verus!
