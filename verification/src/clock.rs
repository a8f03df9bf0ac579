//! The two places where the library touches the clock and the timezone
//! database, both through the chrono crates.

use vstd::prelude::*;

verus! {

/// Whether the timezone table of chrono-tz contains a zone of this name.
pub uninterp spec fn tz_known(name: Seq<char>) -> bool;

/// Whether chrono's calendar can place this many seconds since the epoch.
pub uninterp spec fn epoch_displayable(epoch: int) -> bool;

/// chrono's rendering of the given instant in the named zone.
pub uninterp spec fn zoned_display_of(epoch: int, name: Seq<char>) -> Seq<char>;

/// Relies on chrono::Utc::now for the current wall-clock time in whole
/// seconds since the epoch. Nothing is assumed about the value.
#[verifier::external_body]
pub(crate) fn now_epoch() -> i64 {
    chrono::Utc::now().timestamp()
}

/// Relies on chrono_tz::Tz::from_str, a lookup in a static table, so a
/// function of the name alone that succeeds exactly for known zone names; on
/// chrono::DateTime::from_timestamp, which is None exactly for seconds that
/// chrono's calendar cannot place; and on the Debug rendering of
/// DateTime::with_timezone, which depends on the instant and the zone alone.
#[verifier::external_body]
pub(crate) fn zoned_display(epoch: i64, name: &str) -> (r: Option<String>)
    ensures
        (r is Some) <==> (tz_known(name@) && epoch_displayable(epoch as int)),
        r is Some ==> r->0@ == zoned_display_of(epoch as int, name@),
{
    let tz: chrono_tz::Tz = match name.parse() {
        Ok(tz) => tz,
        Err(_) => return None,
    };
    let utc = match chrono::DateTime::<chrono::Utc>::from_timestamp(epoch, 0) {
        Some(utc) => utc,
        None => return None,
    };
    Some(format!("{:?}", utc.with_timezone(&tz)))
}

} // verus!
