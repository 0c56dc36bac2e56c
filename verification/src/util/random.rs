//! Random keys for benchmarks: strings of a few letters and digits, and
//! numbers.
use rand::distributions::Alphanumeric;
use rand::Rng;
use vstd::prelude::*;

verus! {

#[verifier::external_type_specification]
#[verifier::external_body]
pub struct ExThreadRng(rand::rngs::ThreadRng);

/// The shortest random string.
pub const RANDOM_STRING_MIN: usize = 0;

/// Random strings are shorter than this.
pub const RANDOM_STRING_MAX: usize = 10;

/// A value that can be drawn at random.
pub trait Random: Sized {
    fn gen(rng: &mut rand::rngs::ThreadRng) -> Self;
}

/// An ASCII letter or digit.
pub open spec fn is_alphanumeric(c: char) -> bool {
    ||| 'a' as u32 <= c as u32 <= 'z' as u32
    ||| 'A' as u32 <= c as u32 <= 'Z' as u32
    ||| '0' as u32 <= c as u32 <= '9' as u32
}

/// `Rng::gen_range` over `low..high`: rand documents that it returns a
/// number in that range, and that it panics on an empty one. Which number
/// comes out is left unsaid: it is drawn at random.
#[verifier::external_body]
fn gen_range(rng: &mut rand::rngs::ThreadRng, low: usize, high: usize) -> (r: usize)
    requires
        low < high,
    ensures
        low <= r < high,
{
    rng.gen_range(low..high)
}

/// `Rng::sample` of the distribution `Alphanumeric`, as a `char`: rand
/// documents that it draws from the ASCII letters and digits. Which one
/// comes out is left unsaid: it is drawn at random.
#[verifier::external_body]
fn sample_alphanumeric(rng: &mut rand::rngs::ThreadRng) -> (c: char)
    ensures
        is_alphanumeric(c),
{
    char::from(rng.sample(Alphanumeric))
}

/// `Rng::gen` for a `u64`: any number may come out, so nothing is claimed
/// of it.
#[verifier::external_body]
fn gen_u64(rng: &mut rand::rngs::ThreadRng) -> u64 {
    rng.gen()
}

/// `String::from_iter` over characters: the string of those characters,
/// in order.
#[verifier::external_body]
fn string_from_chars(chars: Vec<char>) -> (s: String)
    ensures
        s@ == chars@,
{
    String::from_iter(chars)
}

/// A string of `length` random ASCII letters and digits.
pub fn alphanumeric_string(rng: &mut rand::rngs::ThreadRng, length: usize) -> (s: String)
    ensures
        s@.len() == length,
        forall|i: int| 0 <= i < s@.len() ==> is_alphanumeric(#[trigger] s@[i]),
{
    let mut chars: Vec<char> = Vec::new();
    while chars.len() < length
        invariant
            chars@.len() <= length,
            forall|i: int| 0 <= i < chars@.len() ==> is_alphanumeric(#[trigger] chars@[i]),
        decreases length - chars@.len(),
    {
        let c = sample_alphanumeric(rng);
        chars.push(c);
    }
    string_from_chars(chars)
}

impl Random for String {
    /// A string of random length in `[RANDOM_STRING_MIN, RANDOM_STRING_MAX)`
    /// whose characters are random ASCII letters and digits: the length is
    /// drawn first, and `alphanumeric_string` makes a string of exactly that
    /// length.
    fn gen(rng: &mut rand::rngs::ThreadRng) -> (s: String)
        ensures
            RANDOM_STRING_MIN <= s@.len() < RANDOM_STRING_MAX,
            forall|i: int| 0 <= i < s@.len() ==> is_alphanumeric(#[trigger] s@[i]),
    {
        let length = gen_range(rng, RANDOM_STRING_MIN, RANDOM_STRING_MAX);
        alphanumeric_string(rng, length)
    }
}

impl Random for u64 {
    /// A random number.
    fn gen(rng: &mut rand::rngs::ThreadRng) -> u64 {
        gen_u64(rng)
    }
}

} // verus!
