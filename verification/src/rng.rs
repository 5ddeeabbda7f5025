use vstd::prelude::*;

verus! {

/// Relies on rand::Rng::gen_range over the range 0..n, with rand::thread_rng
/// as the generator: for a non-empty range it returns a value inside it
/// (and panics on an empty one, which the precondition rules out).
#[verifier::external_body]
pub(crate) fn random_below(n: u32) -> (r: u32)
    requires
        n >= 1,
    ensures
        r < n,
{
    rand::Rng::gen_range(&mut rand::thread_rng(), 0..n)
}

/// Relies on std::time::SystemTime::now, read as whole milliseconds since
/// the epoch via duration_since; nothing is assumed of the value.
#[verifier::external_body]
pub(crate) fn now_millis() -> (t: u64) {
    match std::time::SystemTime::now().duration_since(std::time::UNIX_EPOCH) {
        Ok(d) => d.as_millis() as u64,
        Err(_) => 0,
    }
}

} // verus!
