use vstd::prelude::*;

verus! {

/// The canonical extension that the content classifier associates with a
/// byte buffer, or nothing when no known signature matches. The matching
/// depends on the bytes alone.
pub uninterp spec fn inferred_ext(bytes: Seq<u8>) -> Option<Seq<u8>>;

/// Relies on `infer::get`: it matches the buffer against a fixed table of
/// magic-byte matchers, so whether a type is recognized, and that type's
/// canonical extension, are functions of the bytes alone.
#[verifier::external_body]
pub(crate) fn classify(bytes: &Vec<u8>) -> (r: Option<Vec<u8>>)
    ensures
        match r {
            Some(e) => inferred_ext(bytes@) == Some(e@),
            None => inferred_ext(bytes@) == None::<Seq<u8>>,
        },
{
    infer::get(bytes.as_slice()).map(|kind| kind.extension().as_bytes().to_vec())
}

} // verus!
