//! Names for the scratch files that an editor session works on.
use vstd::prelude::*;

verus! {

/// Relies on `uuid::Uuid::new_v4` and its `Display` impl: a random UUID in
/// hyphenated lower-case form, which is 36 characters of hex digits and dashes.
#[verifier::external_body]
fn random_uuid() -> (r: String)
    ensures
        r@.len() == 36,
        forall|i: int|
            0 <= i < 36 ==> (#[trigger] r@[i] == '-' || ('0' <= r@[i] <= '9') || ('a' <= r@[i]
                <= 'f')),
{
    uuid::Uuid::new_v4().to_string()
}

/// The shell script file named after `id`.
pub fn script_file_name(id: &str) -> (r: String)
    ensures
        r@ == id@ + ".sh"@,
{
    let mut r = String::from_str(id);
    r.append(".sh");
    r
}

/// A fresh, randomly named shell script file.
pub fn new_script_file_name() -> (r: String)
    ensures
        r@.len() == 39,
        r@.skip(36) == ".sh"@,
{
    let id = random_uuid();
    let r = script_file_name(id.as_str());
    proof {
        reveal_strlit(".sh");
        assert(r@.skip(36) =~= ".sh"@);
    }
    r
}

} // verus!
