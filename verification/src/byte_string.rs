use bstr::BString;
use vstd::prelude::*;

verus! {

/// Lets `bstr::BString` stand in signatures and fields; its contents are
/// reached only through the items below.
#[verifier::external_type_specification]
#[verifier::external_body]
pub struct ExBString(BString);

/// The bytes that a `bstr::BString` holds.
pub uninterp spec fn bstring_bytes(b: BString) -> Seq<u8>;

/// Calls `bstr::BString::new`, which moves the vector into the byte
/// string unchanged: the result holds exactly the bytes of `bytes`.
#[verifier::external_body]
pub(crate) fn bstring_new(bytes: Vec<u8>) -> (r: BString)
    ensures
        bstring_bytes(r) == bytes@,
{
    BString::new(bytes)
}

/// Calls `<bstr::BString as Deref>::deref` (which hands out the inner
/// `Vec<u8>`) and takes its slice: the slice holds exactly the bytes of `b`.
#[verifier::external_body]
pub(crate) fn bstring_as_slice(b: &BString) -> (r: &[u8])
    ensures
        r@ == bstring_bytes(*b),
{
    b.as_slice()
}

/// Calls `<bstr::BString as Clone>::clone`, which bstr derives: the copy
/// holds the same bytes.
#[verifier::external_body]
pub(crate) fn bstring_clone(b: &BString) -> (r: BString)
    ensures
        bstring_bytes(r) == bstring_bytes(*b),
{
    b.clone()
}

} // verus!
