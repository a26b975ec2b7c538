//! The bound that the Discord model puts on a point in time.

use poise::serenity_prelude::timestamp::InvalidTimestamp;
use poise::serenity_prelude::Timestamp;
use vstd::prelude::*;

verus! {

/// serenity's `InvalidTimestamp`, the error of `Timestamp::from_unix_timestamp`.
/// It is a unit struct and carries no data.
#[verifier::external_type_specification]
#[verifier::external_body]
pub struct ExInvalidTimestamp(InvalidTimestamp);

/// Whether serenity's `Timestamp::from_unix_timestamp` accepts `secs`, a
/// count of seconds since the Unix epoch.  serenity documents only that the
/// call fails "if the value is invalid".  It hands the value to chrono,
/// which refuses what lies outside the dates that it can hold, some 262,000
/// years either side of the common era; nothing but `secs` enters into it.
pub uninterp spec fn unix_timestamp_valid(secs: i64) -> bool;

/// Calls serenity's `Timestamp::from_unix_timestamp` and reads the result
/// back with `Timestamp::unix_timestamp`.
///
/// Trusted: the call succeeds exactly on the values that
/// [`unix_timestamp_valid`] names, and a `Timestamp` built from `secs` whole
/// seconds reports `secs` as its Unix timestamp.
#[verifier::external_body]
pub(crate) fn checked_unix_timestamp(secs: i64) -> (r: Result<i64, InvalidTimestamp>)
    ensures
        r is Ok <==> unix_timestamp_valid(secs),
        r matches Ok(t) ==> t == secs,
{
    match Timestamp::from_unix_timestamp(secs) {
        Ok(t) => Ok(t.unix_timestamp()),
        Err(e) => Err(e),
    }
}

} // verus!
