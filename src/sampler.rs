//! Passwords drawn uniformly, with replacement, from a pool.

use crate::pool::{push_char, Pool};
use rand::rngs::ThreadRng;
use rand::Rng;
use vstd::prelude::*;

verus! {

/// A password was asked of a pool that holds no character.
#[derive(Debug, Clone, Copy, PartialEq, Eq)]
pub struct EmptyPoolError;

/// Every character of `password` is one of `pool`.
pub open spec fn drawn_from(password: Seq<char>, pool: Seq<char>) -> bool {
    forall|i: int| 0 <= i < password.len() ==> pool.contains(#[trigger] password[i])
}

/// rand's per-thread generator, carried through unopened.
#[verifier::external_type_specification]
#[verifier::external_body]
pub struct ExThreadRng(ThreadRng);

/// Relies on rand's `thread_rng`: a handle on the generator of this thread.
#[verifier::external_body]
fn new_rng() -> (r: ThreadRng) {
    rand::thread_rng()
}

/// Relies on rand's `Rng::gen_range(low, high)`: a value in `low..high`, which needs
/// `low < high` (it panics otherwise).
#[verifier::external_body]
fn random_index(rng: &mut ThreadRng, bound: usize) -> (r: usize)
    requires
        bound > 0,
    ensures
        r < bound,
{
    rng.gen_range(0, bound)
}

/// Builds the password whose character at each place is the one of `pool` at the
/// position drawn for that place.
pub fn password_from_draws(pool: &Pool, draws: &Vec<usize>) -> (r: String)
    requires
        forall|i: int| 0 <= i < draws@.len() ==> #[trigger] draws@[i] < pool@.len(),
    ensures
        r@.len() == draws@.len(),
        forall|i: int| 0 <= i < draws@.len() ==> r@[i] == pool@[#[trigger] draws@[i] as int],
{
    let mut r = String::new();
    let mut i: usize = 0;
    while i < draws.len()
        invariant
            i <= draws@.len(),
            r@.len() == i,
            forall|k: int| 0 <= k < draws@.len() ==> #[trigger] draws@[k] < pool@.len(),
            forall|k: int| 0 <= k < i ==> r@[k] == pool@[#[trigger] draws@[k] as int],
        decreases draws@.len() - i,
    {
        let ch = pool.get(draws[i]);
        push_char(&mut r, *ch.unwrap());
        i = i + 1;
    }
    r
}

/// Generates a password of `length` characters, each drawn independently and uniformly
/// from `pool`. Fails on an empty pool, whatever the length.
pub fn generate_password(pool: &Pool, length: usize) -> (r: Result<String, EmptyPoolError>)
    ensures
        pool@.len() == 0 <==> r is Err,
        match r {
            Ok(p) => p@.len() == length && drawn_from(p@, pool@),
            Err(_) => true,
        },
{
    if pool.is_empty() {
        return Err(EmptyPoolError);
    }
    let n = pool.len();
    let mut rng = new_rng();
    let mut draws: Vec<usize> = Vec::new();
    let mut i: usize = 0;
    while i < length
        invariant
            n == pool@.len(),
            n > 0,
            i <= length,
            draws@.len() == i,
            forall|k: int| 0 <= k < draws@.len() ==> #[trigger] draws@[k] < n,
        decreases length - i,
    {
        draws.push(random_index(&mut rng, n));
        i = i + 1;
    }
    let p = password_from_draws(pool, &draws);
    assert forall|k: int| 0 <= k < p@.len() implies pool@.contains(#[trigger] p@[k]) by {
        assert(p@[k] == pool@[draws@[k] as int]);
    }
    Ok(p)
}

/// Generates `count` passwords as `generate_password` does, in the order they were
/// drawn. Fails on an empty pool, whatever the length and count.
pub fn generate_n_passwords(pool: &Pool, length: usize, count: usize) -> (r: Result<
    Vec<String>,
    EmptyPoolError,
>)
    ensures
        pool@.len() == 0 <==> r is Err,
        match r {
            Ok(ps) => ps@.len() == count && forall|i: int|
                0 <= i < ps@.len() ==> (#[trigger] ps@[i])@.len() == length && drawn_from(
                    ps@[i]@,
                    pool@,
                ),
            Err(_) => true,
        },
{
    if pool.is_empty() {
        return Err(EmptyPoolError);
    }
    let mut ps: Vec<String> = Vec::new();
    let mut i: usize = 0;
    while i < count
        invariant
            pool@.len() > 0,
            i <= count,
            ps@.len() == i,
            forall|k: int|
                0 <= k < ps@.len() ==> (#[trigger] ps@[k])@.len() == length && drawn_from(
                    ps@[k]@,
                    pool@,
                ),
        decreases count - i,
    {
        match generate_password(pool, length) {
            Ok(p) => ps.push(p),
            Err(e) => return Err(e),
        }
        i = i + 1;
    }
    Ok(ps)
}

} // verus!
