use vstd::prelude::*;

verus! {

/// Relies on uuid::Uuid::new_v4 and the simple formatter: the value is
/// random, but its rendering is always 32 lowercase hexadecimal characters,
/// and new_v4 fixes the version nibble, the 13th character, to 4.
#[verifier::external_body]
pub fn generate_uuid() -> (r: String)
    ensures
        r@.len() == 32,
        forall|i: int|
            0 <= i < 32 ==> (('0' <= #[trigger] r@[i] && r@[i] <= '9') || ('a' <= r@[i] && r@[i]
                <= 'f')),
        r@[12] == '4',
{
    let uuid = uuid::Uuid::new_v4();
    uuid.simple().encode_lower(&mut uuid::Uuid::encode_buffer()).to_owned()
}

} // verus!
