use vstd::prelude::*;
use rand::Rng;

verus! {

/// Relies on `rand::thread_rng` and `rand::Rng::gen_range`: for a non-empty
/// half-open integer range the sampled value lies in that range (an empty
/// range would panic, which the precondition rules out). Nothing is assumed
/// about the distribution.
#[verifier::external_body]
fn rand_below_raw(n: u128) -> (r: u128)
    requires
        n > 0,
    ensures
        r < n,
{
    rand::thread_rng().gen_range(0..n)
}

/// A uniform-ish draw from `0..n`.
pub fn rand_below(n: u128) -> (r: u128)
    requires
        n > 0,
    ensures
        r < n,
{
    rand_below_raw(n)
}

/// A random index into a collection of length `n`.
pub fn rand_index(n: usize) -> (r: usize)
    requires
        n > 0,
    ensures
        r < n,
{
    let r = rand_below_raw(n as u128);
    r as usize
}

/// A random value in thousandths of one, drawn from `0..1000`, used to decide
/// whether an operator with a given probability fires.
pub fn rand_chance() -> (r: u64)
    ensures
        r < 1000,
{
    let r = rand_below_raw(1000);
    r as u64
}

/// A random weight in `-max..max` (thousandths).
pub fn rand_weight(max: i64) -> (r: i64)
    requires
        max >= 1,
    ensures
        -max <= r < max,
{
    let span = (2 * (max as i128)) as u128;
    let draw = rand_below_raw(span);
    let r = (draw as i128) - (max as i128);
    r as i64
}

} // verus!
