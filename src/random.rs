use vstd::prelude::*;

verus! {

/// Relies on `rand::sample` (reservoir sampling over an iterator): asked for
/// one item, it returns one of the items it was given, and none only when it
/// was given none.
#[verifier::external_body]
#[allow(deprecated)]
pub(crate) fn sample_one(items: &Vec<usize>) -> (r: Option<usize>)
    ensures
        r.is_none() <==> items@.len() == 0,
        r matches Some(x) ==> items@.contains(x),
{
    let mut picked = rand::sample(&mut rand::thread_rng(), items.iter().cloned(), 1);
    picked.pop()
}

/// Relies on `rand::Rng::gen_range` on the thread-local generator: a value
/// in `[low, high)`; it panics when `low >= high`.
#[verifier::external_body]
pub(crate) fn uniform_between(low: u64, high: u64) -> (r: u64)
    requires
        low < high,
    ensures
        low <= r < high,
{
    rand::Rng::gen_range(&mut rand::thread_rng(), low, high)
}

} // verus!
