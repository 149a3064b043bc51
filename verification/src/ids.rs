//! Process-unique record identifiers, drawn from the `uuid` crate.

use vstd::prelude::*;

verus! {

/// The hyphenated text form of a 128-bit identifier, exactly as the `uuid`
/// crate prints it. It is a function of the identifier value alone.
pub uninterp spec fn id_text(id: u128) -> Seq<char>;

/// Relies on `uuid::Uuid::new_v4` (and `Uuid::as_u128`, a plain conversion):
/// a freshly generated random version-4 identifier. Nothing is promised of
/// the value; callers must treat every outcome as possible, including a
/// collision with an identifier generated earlier.
#[verifier::external_body]
pub(crate) fn fresh_id() -> u128 {
    uuid::Uuid::new_v4().as_u128()
}

/// Relies on `uuid::Uuid::from_u128` (a plain conversion) and on the
/// `Display` impl of `uuid::Uuid`: the lower-case hyphenated form, 36
/// characters long, determined by the identifier value alone.
#[verifier::external_body]
pub(crate) fn render_id(id: u128) -> (r: String)
    ensures
        r@ == id_text(id),
        r@.len() == 36,
{
    uuid::Uuid::from_u128(id).to_string()
}

} // verus!
