use vstd::prelude::*;

verus! {

/// Nanoseconds in one second.
pub const NANOS_PER_SECOND: u64 = 1_000_000_000;

/// The point in time at which an operation runs: a block height and the
/// block's time in nanoseconds since the epoch.
#[derive(Clone, Copy, Debug, PartialEq, Eq, Structural)]
pub struct BlockInfo {
    pub height: u64,
    pub time: u64,
}

/// When an entry stops being live: at a block height, at a time (nanoseconds
/// since the epoch), or never.
#[derive(Clone, Copy, Debug, PartialEq, Eq, Structural)]
pub enum Expiration {
    AtHeight(u64),
    AtTime(u64),
    Never,
}

/// A span measured forward from a block: a number of blocks, or of seconds.
#[derive(Clone, Copy, Debug, PartialEq, Eq, Structural)]
pub enum Duration {
    Height(u64),
    Time(u64),
}

/// An expiration has passed once the block reaches its height or its time.
pub open spec fn expired_at(e: Expiration, block: BlockInfo) -> bool {
    match e {
        Expiration::AtHeight(h) => block.height >= h,
        Expiration::AtTime(t) => block.time >= t,
        Expiration::Never => false,
    }
}

/// An entry with no expiration is live forever; otherwise until it expires.
pub open spec fn live_at(e: Option<Expiration>, block: BlockInfo) -> bool {
    match e {
        Some(x) => !expired_at(x, block),
        None => true,
    }
}

/// The duration can be projected from the block without overflow.
pub open spec fn fits_after(d: Duration, block: BlockInfo) -> bool {
    match d {
        Duration::Height(h) => block.height + h <= u64::MAX,
        Duration::Time(s) => block.time + s * NANOS_PER_SECOND <= u64::MAX,
    }
}

/// The expiration that lies the given duration after the block.
pub open spec fn after_spec(d: Duration, block: BlockInfo) -> Expiration
    recommends
        fits_after(d, block),
{
    match d {
        Duration::Height(h) => Expiration::AtHeight((block.height + h) as u64),
        Duration::Time(s) => Expiration::AtTime((block.time + s * NANOS_PER_SECOND) as u64),
    }
}

/// The optional expiration that an optional duration gives from the block.
pub open spec fn expire_from(d: Option<Duration>, block: BlockInfo) -> Option<Expiration> {
    match d {
        Some(x) => Some(after_spec(x, block)),
        None => None,
    }
}

/// `fits_after` holds of the duration, if there is one.
pub open spec fn fits_after_opt(d: Option<Duration>, block: BlockInfo) -> bool {
    match d {
        Some(x) => fits_after(x, block),
        None => true,
    }
}

impl Expiration {
    /// Whether this expiration has passed at the block.
    pub fn is_expired(&self, block: &BlockInfo) -> (r: bool)
        ensures
            r == expired_at(*self, *block),
    {
        match self {
            Expiration::AtHeight(h) => block.height >= *h,
            Expiration::AtTime(t) => block.time >= *t,
            Expiration::Never => false,
        }
    }
}

impl Duration {
    /// The expiration that lies this duration after the block.
    pub fn after(&self, block: &BlockInfo) -> (r: Expiration)
        requires
            fits_after(*self, *block),
        ensures
            r == after_spec(*self, *block),
    {
        match self {
            Duration::Height(h) => Expiration::AtHeight(block.height + *h),
            Duration::Time(s) => {
                assert(*s * NANOS_PER_SECOND <= u64::MAX) by (nonlinear_arith)
                    requires
                        block.time + *s * NANOS_PER_SECOND <= u64::MAX,
                        block.time >= 0,
                ;
                Expiration::AtTime(block.time + *s * NANOS_PER_SECOND)
            },
        }
    }
}

/// Whether an entry with this optional expiration is live at the block.
pub fn is_live(e: &Option<Expiration>, block: &BlockInfo) -> (r: bool)
    ensures
        r == live_at(*e, *block),
{
    match e {
        Some(x) => !x.is_expired(block),
        None => true,
    }
}

} // verus!
