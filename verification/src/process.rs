//! The process-wide random token that distinguishes this process's task
//! records from its peers'.

use rand::RngExt;
use vstd::prelude::*;

verus! {

/// An ASCII letter or digit: the alphabet of process tokens.
pub open spec fn is_token_char(c: char) -> bool {
    (48 <= c as u32 && c as u32 <= 57) || (65 <= c as u32 && c as u32 <= 90) || (97 <= c as u32
        && c as u32 <= 122)
}

/// Relies on rand's `Alphanumeric` distribution: every sampled byte is an
/// ASCII letter or digit (drawn from a-z, A-Z, 0-9), so a token is ten
/// alphanumeric characters and never contains the filename separator `'-'`.
#[verifier::external_body]
pub fn random_process_token() -> (r: String)
    ensures
        r@.len() == 10,
        forall|i: int| 0 <= i < r@.len() ==> is_token_char(#[trigger] r@[i]),
        forall|i: int| 0 <= i < r@.len() ==> #[trigger] r@[i] != '-',
{
    let mut rng = rand::rng();
    let mut s = String::new();
    for _ in 0..10 {
        let b: u8 = rng.sample(rand::distr::Alphanumeric);
        s.push(char::from(b));
    }
    s
}

} // verus!
