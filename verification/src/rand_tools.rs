//! A seed and the deterministic random source that grows from it.

use core::num::ParseIntError;
use core::str::FromStr;
use rand_chacha::rand_core::SeedableRng;
use rand_chacha::ChaCha20Rng;
use vstd::prelude::*;
use vstd::std_specs::convert::FromSpecImpl;

verus! {

/// The error that the standard library gives for a text that is no number.
#[verifier::external_type_specification]
#[verifier::external_body]
pub struct ExParseIntError(ParseIntError);

/// The random source of `rand_chacha`. Nothing is known of what is inside.
#[verifier::external_type_specification]
#[verifier::external_body]
pub struct ExChaCha20Rng(ChaCha20Rng);

/// A seed for a deterministic random source.
#[derive(Debug, Copy, Clone)]
pub struct Seed(pub u64);

/// Whether `c` is one of the ten decimal digits.
pub open spec fn is_digit(c: char) -> bool {
    '0' <= c <= '9'
}

/// The number that the decimal digits `digits` write.
pub open spec fn decimal_value(digits: Seq<char>) -> nat
    decreases digits.len(),
{
    if digits.len() == 0 {
        0
    } else {
        10 * decimal_value(digits.drop_last()) + (digits.last() as u32 - '0' as u32) as nat
    }
}

/// `text` without a plus sign at its front.
pub open spec fn unsigned_part(text: Seq<char>) -> Seq<char> {
    if text.len() > 0 && text[0] == '+' {
        text.drop_first()
    } else {
        text
    }
}

/// Whether `text` writes a number that fits 64 bits: one or more decimal digits,
/// after a plus sign or none, and nothing else.
pub open spec fn writes_u64(text: Seq<char>) -> bool {
    let digits = unsigned_part(text);
    &&& digits.len() > 0
    &&& forall|i: int| 0 <= i < digits.len() ==> is_digit(#[trigger] digits[i])
    &&& decimal_value(digits) <= u64::MAX
}

/// The random source that `rand_chacha` derives from the 64-bit seed `seed`.
pub uninterp spec fn seeded_source(seed: u64) -> ChaCha20Rng;

/// Calls `str::parse::<u64>` of the standard library.
///
/// The standard library documents that the text is expected to be an optional
/// plus sign followed by only digits, and that anything else is an error, as is
/// a number that does not fit: the claim here is that the call succeeds on
/// exactly these texts and then returns the number that the digits write.
#[verifier::external_body]
fn parse_u64(text: &str) -> (result: Result<u64, ParseIntError>)
    ensures
        result is Ok <==> writes_u64(text@),
        result matches Ok(value) ==> value == decimal_value(unsigned_part(text@)),
{
    text.parse::<u64>()
}

/// Calls `ChaCha20Rng::seed_from_u64` of `rand_chacha`, which expands the seed
/// to a key by a fixed arithmetic and starts the generator with it: the claim
/// here is that the source depends on the seed alone.
#[verifier::external_body]
fn chacha_from_seed(seed: u64) -> (source: ChaCha20Rng)
    ensures
        source == seeded_source(seed),
{
    ChaCha20Rng::seed_from_u64(seed)
}

impl Seed {
    /// The seed with the value `v`.
    pub fn from_u64(v: u64) -> (seed: Self)
        ensures
            seed.0 == v,
    {
        Seed(v)
    }
}

impl FromStr for Seed {
    type Err = ParseIntError;

    fn from_str(s: &str) -> (result: Result<Self, Self::Err>)
        ensures
            result is Ok <==> writes_u64(s@),
            result matches Ok(seed) ==> seed.0 == decimal_value(unsigned_part(s@)),
    {
        match parse_u64(s) {
            Ok(value) => Ok(Seed::from_u64(value)),
            Err(error) => Err(error),
        }
    }
}

impl From<u64> for Seed {
    fn from(v: u64) -> (seed: Self) {
        Seed::from_u64(v)
    }
}

impl FromSpecImpl<u64> for Seed {
    open spec fn obeys_from_spec() -> bool {
        true
    }

    open spec fn from_spec(v: u64) -> Self {
        Seed(v)
    }
}

/// The random source for `seed`. Equal seeds give equal sources, which yield
/// the same numbers in the same order.
#[must_use]
pub fn make_seedable_rng(seed: Seed) -> (source: ChaCha20Rng)
    ensures
        source == seeded_source(seed.0),
{
    chacha_from_seed(seed.0)
}

} // verus!
