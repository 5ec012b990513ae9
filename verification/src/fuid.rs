//! The identifier wrapper: a copyable 128-bit value constructed from random
//! UUID bits, integers or base-62 strings, and converted losslessly back.

use vstd::prelude::*;

use crate::base62;
use crate::base62::DecodeError;

verus! {

/// Declares `uuid::Uuid` so identifiers can be converted to and from UUID
/// values; Verus treats such a value as opaque.
#[verifier::external_type_specification]
#[verifier::external_body]
pub struct ExUuid(uuid::Uuid);

/// The 128 bits of a UUID as `uuid::Uuid::as_u128` reads them: the big-endian
/// interpretation of its sixteen bytes, a pure function of the value.
pub uninterp spec fn uuid_bits(u: uuid::Uuid) -> u128;

/// Relies on `uuid::Uuid::as_u128`: returns the UUID's sixteen bytes read as
/// one big-endian 128-bit integer.
pub assume_specification[ uuid::Uuid::as_u128 ](u: &uuid::Uuid) -> (r: u128)
    ensures
        r == uuid_bits(*u),
;

/// Relies on `uuid::Uuid::from_u128`: builds the UUID whose sixteen bytes
/// spell `v` in big-endian order, so that reading the bits back gives `v`.
pub assume_specification[ uuid::Uuid::from_u128 ](v: u128) -> (r: uuid::Uuid)
    ensures
        uuid_bits(r) == v,
;

/// Relies on `uuid::Uuid::new_v4`: draws a random UUID. Nothing is promised
/// of its bits beyond the fixed fields every such UUID carries: version 4 and
/// the RFC 4122 variant.
pub assume_specification[ uuid::Uuid::new_v4 ]() -> (r: uuid::Uuid)
    ensures
        (uuid_bits(r) >> 76) & 0xf == 4,
        (uuid_bits(r) >> 62) & 0x3 == 2,
;

/// A friendly universal identifier (FUID): a 128-bit unsigned integer that
/// spells as base 62. Its view is the wrapped integer; equality, ordering and
/// hashing follow that integer, not the spelling.
#[derive(Clone, Copy, Debug, PartialEq, Eq, Hash, PartialOrd, Ord, Structural)]
pub struct Fuid(u128);

impl View for Fuid {
    type V = u128;

    closed spec fn view(&self) -> u128 {
        self.0
    }
}

impl Fuid {
    /// A new random identifier, carrying the bits of a fresh version-4 UUID.
    pub fn new() -> (r: Fuid)
        ensures
            (r@ >> 76) & 0xf == 4,
            (r@ >> 62) & 0x3 == 2,
    {
        Fuid(uuid::Uuid::new_v4().as_u128())
    }

    /// Reads an identifier from its base-62 spelling, passing any decode
    /// error through unchanged.
    pub fn with_str(s: &str) -> (r: Result<Fuid, DecodeError>)
        ensures
            r matches Ok(f) ==> base62::decode_spec(s@) == Ok::<u128, DecodeError>(f@),
            r matches Err(e) ==> base62::decode_spec(s@) == Err::<u128, DecodeError>(e),
    {
        match base62::decode(s) {
            Ok(n) => Ok(Fuid(n)),
            Err(e) => Err(e),
        }
    }

    /// Builds an identifier from a spelling known to be valid: the fail-fast
    /// counterpart of [`Fuid::with_str`] for literals, with the error path
    /// ruled out up front instead of reported.
    pub fn with_valid_str(s: &str) -> (r: Fuid)
        requires
            base62::decode_spec(s@) is Ok,
        ensures
            base62::decode_spec(s@) == Ok::<u128, DecodeError>(r@),
    {
        match base62::decode(s) {
            Ok(n) => Fuid(n),
            Err(_) => {
                proof {
                    assert(false);
                }
                Fuid(0)
            },
        }
    }

    /// Wraps the given 128-bit integer; every value is a valid identifier.
    pub fn with_u128(i: u128) -> (r: Fuid)
        ensures
            r@ == i,
    {
        Fuid(i)
    }

    /// The wrapped 128-bit integer.
    pub fn as_u128(&self) -> (r: u128)
        ensures
            r == self@,
    {
        self.0
    }

    /// The base-62 spelling of the identifier.
    pub fn to_string(&self) -> (r: String)
        ensures
            r@ == base62::encode_chars(self@ as nat),
    {
        base62::encode(self.0)
    }

    /// An identifier carrying exactly the given UUID's bits.
    pub fn from_uuid(u: uuid::Uuid) -> (r: Fuid)
        ensures
            r@ == uuid_bits(u),
    {
        Fuid(u.as_u128())
    }

    /// The UUID carrying exactly this identifier's bits.
    pub fn to_uuid(&self) -> (r: uuid::Uuid)
        ensures
            uuid_bits(r) == self@,
    {
        uuid::Uuid::from_u128(self.0)
    }
}

/// Two identifiers are equal exactly when they wrap the same integer. With
/// the conversions' contracts this makes every round trip the identity:
/// wrapping `as_u128` again, or `from_uuid` after `to_uuid`, gives back an
/// identifier equal to the first.
pub proof fn lemma_fuid_eq(a: Fuid, b: Fuid)
    ensures
        a == b <==> a@ == b@,
{
}

/// Reading an identifier's spelling back always succeeds and gives back its
/// integer, so parsing undoes printing.
pub proof fn lemma_string_round_trip(f: Fuid)
    ensures
        base62::decode_spec(base62::encode_chars(f@ as nat)) == Ok::<u128, DecodeError>(f@),
{
    base62::lemma_round_trip(f@ as nat);
}

impl From<u128> for Fuid {
    fn from(i: u128) -> Fuid {
        Fuid(i)
    }
}

impl vstd::std_specs::convert::FromSpecImpl<u128> for Fuid {
    open spec fn obeys_from_spec() -> bool {
        true
    }

    closed spec fn from_spec(i: u128) -> Fuid {
        Fuid(i)
    }
}

/// What `Fuid::from` gives for an integer: the identifier wrapping it.
pub broadcast proof fn lemma_fuid_from_spec(i: u128)
    ensures
        (#[trigger] <Fuid as vstd::std_specs::convert::FromSpec<u128>>::from_spec(i))@ == i,
{
}

impl From<Fuid> for u128 {
    fn from(f: Fuid) -> u128 {
        f.0
    }
}

impl vstd::std_specs::convert::FromSpecImpl<Fuid> for u128 {
    open spec fn obeys_from_spec() -> bool {
        true
    }

    open spec fn from_spec(f: Fuid) -> u128 {
        f@
    }
}

impl core::str::FromStr for Fuid {
    type Err = DecodeError;

    fn from_str(s: &str) -> Result<Fuid, DecodeError> {
        Fuid::with_str(s)
    }
}

impl Default for Fuid {
    /// A fresh random identifier, as [`Fuid::new`] draws it: only the fixed
    /// version-4 and variant bits are promised of it.
    fn default() -> (r: Fuid)
        ensures
            (r@ >> 76) & 0xf == 4,
            (r@ >> 62) & 0x3 == 2,
    {
        Fuid::new()
    }
}

} // verus!
