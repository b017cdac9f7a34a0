//! The random alphabetic nickname a session registers under.
use vstd::prelude::*;

verus! {

/// Length of the nickname a session registers under.
pub const NICK_LEN: usize = 10;

/// The `k`-th of the 52 ASCII letters, capitals first.
pub open spec fn letter(k: u8) -> u8 {
    if k < 26 {
        (65 + k) as u8
    } else {
        (97 + k - 26) as u8
    }
}

pub open spec fn is_letter(b: u8) -> bool {
    (65 <= b <= 90) || (97 <= b <= 122)
}

/// Relies on rand::Rng::gen_range on the thread-local generator: a value
/// drawn from `0..n` (it panics on an empty range, hence `n > 0`).
#[verifier::external_body]
fn draw_below(n: u8) -> (r: u8)
    requires
        n > 0,
    ensures
        r < n,
{
    rand::Rng::gen_range(&mut rand::thread_rng(), 0..n)
}

/// The letters that the drawn indices stand for.
pub fn nickname_from(draws: &[u8]) -> (r: Vec<u8>)
    requires
        forall|i: int| 0 <= i < draws@.len() ==> draws@[i] < 52,
    ensures
        r@ == draws@.map_values(|k: u8| letter(k)),
{
    let mut out: Vec<u8> = Vec::new();
    let mut i: usize = 0;
    while i < draws.len()
        invariant
            i <= draws@.len(),
            forall|j: int| 0 <= j < draws@.len() ==> draws@[j] < 52,
            out@ == draws@.take(i as int).map_values(|k: u8| letter(k)),
        decreases draws@.len() - i,
    {
        let k = draws[i];
        let b: u8 = if k < 26 {
            65 + k
        } else {
            97 + (k - 26)
        };
        out.push(b);
        proof {
            assert(out@ =~= draws@.take(i + 1).map_values(|k: u8| letter(k)));
        }
        i = i + 1;
    }
    proof {
        assert(draws@.take(i as int) =~= draws@);
    }
    out
}

/// A fresh random nickname of `len` ASCII letters.
pub fn random_nickname(len: usize) -> (r: Vec<u8>)
    ensures
        r@.len() == len,
        forall|i: int| 0 <= i < len ==> is_letter(#[trigger] r@[i]),
{
    let mut draws: Vec<u8> = Vec::new();
    while draws.len() < len
        invariant
            draws@.len() <= len,
            forall|j: int| 0 <= j < draws@.len() ==> draws@[j] < 52,
        decreases len - draws@.len(),
    {
        draws.push(draw_below(52));
    }
    let r = nickname_from(draws.as_slice());
    proof {
        assert forall|i: int| 0 <= i < len implies is_letter(#[trigger] r@[i]) by {
            assert(r@[i] == letter(draws@[i]));
        }
    }
    r
}

} // verus!
