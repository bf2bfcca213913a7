//! Clocks: where timestamps come from, and how they are kept in order.

use crate::error::StoreError;
use std::sync::Arc;
use std::time::{Duration, Instant, SystemTime, SystemTimeError};
use vstd::prelude::*;

verus! {

/// `std::time::SystemTime`, a reading of the system's wall clock.
#[verifier::external_type_specification]
#[verifier::external_body]
pub struct ExSystemTime(std::time::SystemTime);

/// `std::time::SystemTimeError`: a reading lies before the moment that it is
/// measured from.
#[verifier::external_type_specification]
#[verifier::external_body]
pub struct ExSystemTimeError(std::time::SystemTimeError);

/// `std::time::Instant`, a reading of the process's monotonic clock.
#[verifier::external_type_specification]
#[verifier::external_body]
pub struct ExInstant(std::time::Instant);

/// `std::time::SystemTime::now`: the present reading of the wall clock. Nothing
/// is claimed of it.
#[verifier::external_body]
fn wall_clock() -> SystemTime {
    SystemTime::now()
}

/// `std::time::SystemTime::duration_since`: the time from the Unix epoch to a
/// reading, or an error where the reading lies before the epoch. Nothing is
/// claimed of which.
#[verifier::external_body]
fn since_epoch(reading: SystemTime) -> Result<Duration, SystemTimeError> {
    reading.duration_since(std::time::UNIX_EPOCH)
}

/// `std::time::Duration::as_micros`: a duration in whole microseconds. Nothing
/// is claimed of how many.
#[verifier::external_body]
fn in_micros(duration: Duration) -> u128 {
    duration.as_micros()
}

/// `std::time::Duration::as_nanos`: a duration in nanoseconds. Nothing is
/// claimed of how many.
#[verifier::external_body]
fn in_nanos(duration: Duration) -> u128 {
    duration.as_nanos()
}

/// `std::time::Instant::now`: the present reading of the monotonic clock.
/// Nothing is claimed of it.
#[verifier::external_body]
fn monotonic_clock() -> Instant {
    Instant::now()
}

/// `std::time::Instant::elapsed`: the time since a reading of the monotonic
/// clock. Nothing is claimed of it.
#[verifier::external_body]
fn since_instant(reading: &Instant) -> Duration {
    reading.elapsed()
}

/// A count, or the largest `i64` where it exceeds that.
pub fn saturate_i64(count: u128) -> (r: i64)
    ensures
        r == if count <= i64::MAX {
            count as int
        } else {
            i64::MAX as int
        },
{
    if count <= 0x7fff_ffff_ffff_ffff {
        count as i64
    } else {
        i64::MAX
    }
}

/// A count, or the largest `u64` where it exceeds that.
pub fn saturate_u64(count: u128) -> (r: u64)
    ensures
        r == if count <= u64::MAX {
            count as int
        } else {
            u64::MAX as int
        },
{
    if count <= 0xffff_ffff_ffff_ffff {
        count as u64
    } else {
        u64::MAX
    }
}

/// A number held within `i64`.
pub open spec fn clamped(n: int) -> int {
    if n < i64::MIN {
        i64::MIN as int
    } else if n > i64::MAX {
        i64::MAX as int
    } else {
        n
    }
}

/// Microseconds in nanoseconds, held within `i64`.
pub fn micros_to_nanos(micros: i64) -> (r: i64)
    ensures
        r == clamped(micros * 1000),
{
    let nanos: i128 = micros as i128 * 1000;
    if nanos < -0x8000_0000_0000_0000 {
        i64::MIN
    } else if nanos > 0x7fff_ffff_ffff_ffff {
        i64::MAX
    } else {
        nanos as i64
    }
}

/// What one reading of the wall clock gave: the time since the Unix epoch, or
/// that the reading lies before it.
spec fn read_wall(elapsed: Result<Duration, SystemTimeError>) -> bool {
    exists|reading: SystemTime|
        #![trigger call_ensures(since_epoch, (reading,), elapsed)]
        call_ensures(wall_clock, (), reading) && call_ensures(since_epoch, (reading,), elapsed)
}

/// One reading of the wall clock gave so many whole microseconds since the Unix
/// epoch, or none where it lies before it.
pub closed spec fn wall_micros(micros: Option<u128>) -> bool {
    exists|elapsed: Result<Duration, SystemTimeError>| #[trigger]
        read_wall(elapsed) && match (elapsed, micros) {
            (Ok(duration), Some(n)) => call_ensures(in_micros, (duration,), n),
            (Err(_), None) => true,
            _ => false,
        }
}

/// One reading of the wall clock gave so many nanoseconds since the Unix epoch,
/// or none where it lies before it.
pub closed spec fn wall_nanos(nanos: Option<u128>) -> bool {
    exists|elapsed: Result<Duration, SystemTimeError>| #[trigger]
        read_wall(elapsed) && match (elapsed, nanos) {
            (Ok(duration), Some(n)) => call_ensures(in_nanos, (duration,), n),
            (Err(_), None) => true,
            _ => false,
        }
}

/// A count, or zero where there is none.
pub open spec fn or_zero(count: Option<u128>) -> u128 {
    match count {
        Some(n) => n,
        None => 0,
    }
}

/// A count, or a limit where it exceeds that.
pub open spec fn at_most(count: u128, limit: int) -> int {
    if count <= limit {
        count as int
    } else {
        limit
    }
}

/// Microseconds since the Unix epoch: zero before it, and no more than `i64`
/// holds.
fn system_now_us() -> (r: i64)
    ensures
        exists|micros: Option<u128>| #[trigger]
            wall_micros(micros) && r == at_most(or_zero(micros), i64::MAX as int),
{
    let elapsed = since_epoch(wall_clock());
    assert(read_wall(elapsed));
    match elapsed {
        Ok(duration) => {
            let micros: u128 = in_micros(duration);
            assert(wall_micros(Some(micros)));
            saturate_i64(micros)
        },
        Err(_) => {
            assert(wall_micros(None));
            0
        },
    }
}

/// Nanoseconds since the Unix epoch: zero before it.
fn system_now_nanos() -> (r: u128)
    ensures
        exists|nanos: Option<u128>| #[trigger] wall_nanos(nanos) && r == or_zero(nanos),
{
    let elapsed = since_epoch(wall_clock());
    assert(read_wall(elapsed));
    match elapsed {
        Ok(duration) => {
            let nanos: u128 = in_nanos(duration);
            assert(wall_nanos(Some(nanos)));
            nanos
        },
        Err(_) => {
            assert(wall_nanos(None));
            0
        },
    }
}

/// A clock reading in the milliseconds that are stored.
pub fn wall_ms_from_timestamp_us(timestamp_us: i64) -> (r: Result<u64, StoreError>)
    ensures
        match r {
            Ok(ms) => timestamp_us >= 0 && ms == timestamp_us as int / 1000,
            Err(e) => timestamp_us < 0 && (e matches StoreError::InvalidClock {
                timestamp_us: reading,
                reason,
            } && reading == timestamp_us && reason@
                == "timestamp_us must be >= 0 microseconds since Unix epoch"@),
        },
{
    if timestamp_us < 0 {
        return Err(
            StoreError::InvalidClock {
                timestamp_us,
                reason: "timestamp_us must be >= 0 microseconds since Unix epoch".to_owned(),
            },
        );
    }
    Ok(timestamp_us as u64 / 1000)
}

/// A source of timestamps.
///
/// Everything that is stored or reported takes its time from here, so that a
/// test can install a clock of its own.
pub trait Clock: Send + Sync {
    /// Microseconds since the Unix epoch.
    fn now_us(&self) -> i64;

    /// Nanoseconds since the Unix epoch.
    fn now_wall_ns(&self) -> i64;

    /// Monotonic nanoseconds of this process.
    fn now_mono_ns(&self) -> i64;

    /// Marker of the epoch that monotonic time counts from.
    fn process_boot_ns(&self) -> u64;
}

/// The moment that monotonic time counts from. One is captured for the whole
/// process; its marker tells processes apart.
pub struct MonotonicAnchor {
    anchor_instant: Instant,
    anchor_boot_ns: u64,
}

impl MonotonicAnchor {
    /// The marker.
    pub closed spec fn marker(&self) -> u64 {
        self.anchor_boot_ns
    }

    /// The moment is what one reading of the monotonic clock gave.
    pub closed spec fn starts_at_a_reading(&self) -> bool {
        call_ensures(monotonic_clock, (), self.anchor_instant)
    }

    /// One reading of the monotonic clock gave so many nanoseconds since the
    /// moment.
    pub closed spec fn read_since(&self, nanos: u128) -> bool {
        exists|elapsed: Duration|
            #![trigger call_ensures(in_nanos, (elapsed,), nanos)]
            call_ensures(since_instant, (&self.anchor_instant,), elapsed) && call_ensures(
                in_nanos,
                (elapsed,),
                nanos,
            )
    }

    /// Anchors monotonic time at the present moment, with the wall clock's
    /// nanoseconds as the marker.
    pub fn capture() -> (r: MonotonicAnchor)
        ensures
            r.starts_at_a_reading(),
            exists|nanos: Option<u128>| #[trigger]
                wall_nanos(nanos) && r.marker() == at_most(or_zero(nanos), u64::MAX as int),
    {
        let anchor_boot_ns: u64 = saturate_u64(system_now_nanos());
        MonotonicAnchor { anchor_instant: monotonic_clock(), anchor_boot_ns }
    }

    /// The marker.
    pub fn boot_ns(&self) -> (r: u64)
        ensures
            r == self.marker(),
    {
        self.anchor_boot_ns
    }

    /// Nanoseconds since the anchor.
    pub fn now_mono_ns(&self) -> (r: i64)
        ensures
            exists|nanos: u128| #[trigger]
                self.read_since(nanos) && r == at_most(nanos, i64::MAX as int),
    {
        let elapsed = since_instant(&self.anchor_instant);
        let nanos: u128 = in_nanos(elapsed);
        assert(self.read_since(nanos));
        saturate_i64(nanos)
    }
}

/// The system's clocks.
pub struct SystemClock {
    anchor: Arc<MonotonicAnchor>,
}

impl SystemClock {
    /// The anchor of its monotonic time.
    pub closed spec fn anchor(&self) -> MonotonicAnchor {
        *self.anchor
    }

    /// The system's clocks, with monotonic time from an anchor.
    pub fn new(anchor: Arc<MonotonicAnchor>) -> (r: SystemClock)
        ensures
            r.anchor() == *anchor,
    {
        SystemClock { anchor }
    }
}

impl Clock for SystemClock {
    fn now_us(&self) -> (r: i64)
        ensures
            exists|micros: Option<u128>| #[trigger]
                wall_micros(micros) && r == at_most(or_zero(micros), i64::MAX as int),
    {
        system_now_us()
    }

    fn now_wall_ns(&self) -> (r: i64)
        ensures
            exists|nanos: Option<u128>| #[trigger]
                wall_nanos(nanos) && r == at_most(or_zero(nanos), i64::MAX as int),
    {
        saturate_i64(system_now_nanos())
    }

    fn now_mono_ns(&self) -> (r: i64)
        ensures
            exists|nanos: u128| #[trigger]
                self.anchor().read_since(nanos) && r == at_most(nanos, i64::MAX as int),
    {
        assert(self.anchor() == *self.anchor);
        self.anchor.now_mono_ns()
    }

    fn process_boot_ns(&self) -> (r: u64)
        ensures
            r == self.anchor().marker(),
    {
        self.anchor.boot_ns()
    }
}

/// A clock whose wall time comes from a function. The function's readings are
/// handed out as they are, negative ones too; monotonic time is the process's
/// own.
pub struct FnClock<F: Fn() -> i64 + Send + Sync> {
    inner: F,
    anchor: Arc<MonotonicAnchor>,
}

impl<F: Fn() -> i64 + Send + Sync> FnClock<F> {
    #[verifier::type_invariant]
    spec fn callable(&self) -> bool {
        call_requires(self.inner, ())
    }

    /// The function.
    pub closed spec fn source(&self) -> F {
        self.inner
    }

    /// The anchor of its monotonic time.
    pub closed spec fn anchor(&self) -> MonotonicAnchor {
        *self.anchor
    }

    /// A clock that reads `inner`.
    pub fn new(inner: F, anchor: Arc<MonotonicAnchor>) -> (r: FnClock<F>)
        requires
            call_requires(inner, ()),
        ensures
            r.source() == inner,
            r.anchor() == *anchor,
    {
        FnClock { inner, anchor }
    }
}

impl<F: Fn() -> i64 + Send + Sync> Clock for FnClock<F> {
    fn now_us(&self) -> (r: i64)
        ensures
            call_ensures(self.source(), (), r),
    {
        proof {
            use_type_invariant(self);
        }
        (self.inner)()
    }

    fn now_wall_ns(&self) -> (r: i64)
        ensures
            exists|us: i64| #[trigger]
                call_ensures(self.source(), (), us) && r == clamped(us * 1000),
    {
        micros_to_nanos(self.now_us())
    }

    fn now_mono_ns(&self) -> (r: i64)
        ensures
            exists|nanos: u128| #[trigger]
                self.anchor().read_since(nanos) && r == at_most(nanos, i64::MAX as int),
    {
        assert(self.anchor() == *self.anchor);
        self.anchor.now_mono_ns()
    }

    fn process_boot_ns(&self) -> (r: u64)
        ensures
            r == self.anchor().marker(),
    {
        self.anchor.boot_ns()
    }
}

/// The largest of some readings.
pub open spec fn high_water(readings: Seq<i64>) -> i64
    decreases readings.len(),
{
    if readings.len() == 0 {
        i64::MIN
    } else if readings.last() >= high_water(readings.drop_last()) {
        readings.last()
    } else {
        high_water(readings.drop_last())
    }
}

/// A clock that never goes back: a reading smaller than one before it is
/// answered with that one.
pub struct MonotonicClock<C: Clock> {
    inner: C,
    last: i64,
}

impl<C: Clock> MonotonicClock<C> {
    /// The clock that is read.
    pub closed spec fn source(&self) -> C {
        self.inner
    }

    /// The largest reading so far.
    pub closed spec fn last(&self) -> i64 {
        self.last
    }

    /// Puts the guard around a clock.
    pub fn wrap(inner: C) -> (r: MonotonicClock<C>)
        ensures
            r.source() == inner,
            r.last() == high_water(Seq::empty()),
    {
        MonotonicClock { inner, last: i64::MIN }
    }

    /// Takes a reading: the larger of it and the largest before it.
    pub fn observe(&mut self, raw: i64) -> (r: i64)
        ensures
            r == if raw >= old(self).last() {
                raw
            } else {
                old(self).last()
            },
            final(self).last() == r,
            final(self).source() == old(self).source(),
            forall|readings: Seq<i64>| #[trigger]
                high_water(readings) == old(self).last() ==> r == high_water(readings.push(raw)),
    {
        proof {
            assert forall|readings: Seq<i64>| #[trigger]
                high_water(readings) == self.last implies high_water(readings.push(raw)) == (if raw
                >= self.last {
                raw
            } else {
                self.last
            }) by {
                assert(readings.push(raw).drop_last() =~= readings);
            }
        }
        if raw >= self.last {
            self.last = raw;
        }
        self.last
    }

    /// Reads the clock.
    pub fn now_us(&mut self) -> (r: i64)
        ensures
            exists|raw: i64| #[trigger]
                call_ensures(C::now_us, (&old(self).source(),), raw) && r == (if raw >= old(
                    self,
                ).last() {
                    raw
                } else {
                    old(self).last()
                }) && (forall|readings: Seq<i64>| #[trigger]
                    high_water(readings) == old(self).last() ==> r == high_water(
                        readings.push(raw),
                    )),
            final(self).last() == r,
            final(self).source() == old(self).source(),
    {
        let raw: i64 = self.inner.now_us();
        self.observe(raw)
    }

    /// The inner clock's wall time.
    pub fn now_wall_ns(&self) -> (r: i64)
        ensures
            call_ensures(C::now_wall_ns, (&self.source(),), r),
    {
        self.inner.now_wall_ns()
    }

    /// The inner clock's monotonic time.
    pub fn now_mono_ns(&self) -> (r: i64)
        ensures
            call_ensures(C::now_mono_ns, (&self.source(),), r),
    {
        self.inner.now_mono_ns()
    }

    /// The inner clock's marker.
    pub fn process_boot_ns(&self) -> (r: u64)
        ensures
            call_ensures(C::process_boot_ns, (&self.source(),), r),
    {
        self.inner.process_boot_ns()
    }
}

/// What a guard answers to readings that are taken one after another, whoever of
/// those that share it takes them.
pub open spec fn answers(readings: Seq<i64>) -> Seq<i64> {
    Seq::new(readings.len(), |n: int| high_water(readings.take(n + 1)))
}

/// An answer is the largest of the readings so far: none of them is larger, it is
/// one of them, and it is the last where that has not gone back.
pub proof fn law_answer_is_the_largest_reading(readings: Seq<i64>, n: int)
    requires
        0 <= n < readings.len(),
    ensures
        forall|k: int| 0 <= k <= n ==> #[trigger] readings[k] <= answers(readings)[n],
        exists|k: int| 0 <= k <= n && #[trigger] readings[k] == answers(readings)[n],
        (forall|k: int| 0 <= k < n ==> #[trigger] readings[k] <= readings[n])
            ==> answers(readings)[n] == readings[n],
    decreases n,
{
    let so_far = readings.take(n + 1);
    assert(so_far.drop_last() =~= readings.take(n));
    assert(so_far.last() == readings[n]);
    if n > 0 {
        law_answer_is_the_largest_reading(readings, n - 1);
        assert(answers(readings)[n - 1] == high_water(readings.take(n)));
        let k = choose|k: int| 0 <= k <= n - 1 && #[trigger] readings[k] == answers(readings)[n
            - 1];
        assert(readings[k] == answers(readings)[n] || readings[n] == answers(readings)[n]);
    } else {
        assert(high_water(readings.take(0)) == i64::MIN);
        assert(readings[0] == answers(readings)[0]);
    }
}

/// However the readings go, what a guarded clock answers never goes back: the
/// answer after more readings is at least the answer after fewer.
pub proof fn law_never_goes_back(readings: Seq<i64>, i: int, j: int)
    requires
        0 <= i <= j <= readings.len(),
    ensures
        high_water(readings.take(i)) <= high_water(readings.take(j)),
    decreases j - i,
{
    if i < j {
        law_never_goes_back(readings, i, j - 1);
        assert(readings.take(j).drop_last() =~= readings.take(j - 1));
    }
}

/// Microseconds are a thousand nanoseconds each, as far as the result fits; where it
/// does not, it is the bound on that side.
pub proof fn law_micros_are_a_thousand_nanos(micros: i64, r: i64)
    requires
        call_ensures(micros_to_nanos, (micros,), r),
    ensures
        i64::MIN <= micros * 1000 <= i64::MAX ==> r == micros * 1000,
        micros * 1000 < i64::MIN ==> r == i64::MIN,
        micros * 1000 > i64::MAX ==> r == i64::MAX,
{
}

/// A count is held at its limit, and below it left as it is; a reading before the epoch
/// counts as zero.
pub proof fn law_readings_are_held_within_bounds(count: u128, limit: int)
    ensures
        count <= limit ==> at_most(count, limit) == count,
        count > limit ==> at_most(count, limit) == limit,
        or_zero(Some(count)) == count,
        or_zero(None) == 0,
{
}

/// A guard that has taken no reading holds none back.
pub proof fn law_new_guard_holds_nothing_back<C: Clock>(inner: C, r: MonotonicClock<C>)
    requires
        call_ensures(MonotonicClock::<C>::wrap, (inner,), r),
    ensures
        r.last() == i64::MIN,
        r.source() == inner,
{
}

} // verus!
