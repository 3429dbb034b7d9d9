use vstd::prelude::*;
use crate::point::fits_i32;

verus! {

/// `v` clamped into `0..=max`.
pub open spec fn clamp(v: int, max: int) -> int {
    if v < 0 {
        0
    } else if v > max {
        max
    } else {
        v
    }
}

/// The health of an actor, which never exceeds its maximum.
#[derive(Debug, Clone, Copy)]
pub struct Health {
    max_health: u32,
    health: u32,
}

impl Health {
    pub closed spec fn spec_max_health(&self) -> int {
        self.max_health as int
    }

    pub closed spec fn spec_health(&self) -> int {
        self.health as int
    }

    /// Health never exceeds the maximum.
    pub open spec fn wf(&self) -> bool {
        0 <= self.spec_health() <= self.spec_max_health()
    }

    /// Full health.
    pub fn new(max_health: u32) -> (r: Health)
        ensures
            r.wf(),
            r.spec_max_health() == max_health,
            r.spec_health() == max_health,
    {
        Health { max_health, health: max_health }
    }

    pub fn get_max_health(&self) -> (r: u32)
        ensures
            r == self.spec_max_health(),
    {
        self.max_health
    }

    /// Adds `addition` (subtracts, where it is negative) to the health, which stays between
    /// zero and the maximum.
    pub fn add_health(&mut self, addition: i32)
        requires
            old(self).wf(),
            old(self).spec_max_health() <= i32::MAX,
            fits_i32(old(self).spec_health() + addition),
        ensures
            final(self).wf(),
            final(self).spec_max_health() == old(self).spec_max_health(),
            final(self).spec_health() == clamp(
                old(self).spec_health() + addition,
                old(self).spec_max_health(),
            ),
    {
        let new_value: i32 = self.health as i32 + addition;
        let max: i32 = self.max_health as i32;
        let floored: i32 = if new_value > 0 { new_value } else { 0 };
        let clamped: i32 = if floored < max { floored } else { max };
        self.health = clamped as u32;
    }
}


/// `v`, read as a uuid, is a random (version 4) uuid of the RFC 4122 variant: its version
/// field (bits 76..80) holds 4 and its variant field (bits 62..64) holds binary 10.
pub open spec fn is_random_uuid(v: u128) -> bool {
    &&& (v >> 76u128) & 0xfu128 == 4u128
    &&& (v >> 62u128) & 0x3u128 == 2u128
}

/// A fresh random id: `uuid::Uuid::new_v4()` read as a number (big-endian, `as_u128`).
/// The random bits come from the system's random source and are not described; the source
/// of `new_v4` sets the version to 4 (`set_version(Version::Random)`) and the variant to
/// RFC 4122 (`set_variant`) on every value, which is what is claimed.
#[verifier::external_body]
fn random_id() -> (r: u128)
    ensures
        is_random_uuid(r),
{
    uuid::Uuid::new_v4().as_u128()
}

/// The id of an actor, unique by chance: a random version 4 uuid.
#[derive(Debug, Clone, Copy, PartialEq, Eq, Structural)]
pub struct ActorID(u128);

impl ActorID {
    pub closed spec fn spec_val(&self) -> u128 {
        self.0
    }

    /// A new random id: a random version 4 uuid.
    pub fn new() -> (r: ActorID)
        ensures
            is_random_uuid(r.spec_val()),
    {
        ActorID(random_id())
    }

    pub fn val(&self) -> (r: u128)
        ensures
            r == self.spec_val(),
    {
        self.0
    }
}

} // verus!
