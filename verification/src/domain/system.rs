use vstd::prelude::*;
use crate::domain::model::Timestamp;

verus! {

/// The bits that every random (version 4) identifier has in common: the
/// version field and the variant field.
pub open spec fn is_random_id(id: u128) -> bool {
    id & 0x0000_0000_0000_f000_c000_0000_0000_0000u128
        == 0x0000_0000_0000_4000_8000_0000_0000_0000u128
}

/// `uuid::Uuid::new_v4`, read as a 128-bit value by `Uuid::as_u128`: sixteen
/// random bytes of the operating system, in which the version field is set to
/// 4 and the variant field to the bits `10`. Nothing else is known of the
/// value; two calls may even return the same one. The call panics where the
/// operating system hands out no random bytes.
#[verifier::external_body]
pub(crate) fn fresh_id() -> (id: u128)
    ensures
        is_random_id(id),
{
    uuid::Uuid::new_v4().as_u128()
}

/// `chrono::Utc::now`, read by `DateTime::timestamp` and
/// `DateTime::timestamp_subsec_nanos`: the system clock's time. Nothing is
/// promised of the value. The call panics where the system clock stands before
/// 1970.
#[verifier::external_body]
pub(crate) fn now() -> Timestamp {
    let t = chrono::Utc::now();
    Timestamp { seconds: t.timestamp(), nanos: t.timestamp_subsec_nanos() }
}

} // verus!
