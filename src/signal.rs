//! Coarse classification of a signal strength, and the icon shown for it.

use vstd::prelude::*;

verus! {

/// Qualitative signal buckets, weakest first.
#[derive(Clone, Copy, Debug, PartialEq, Eq, Structural)]
pub enum SignalBucket {
    NoSignal,
    Weak,
    Fair,
    Good,
    Excellent,
}

/// Position of a bucket in the order weakest to strongest.
pub open spec fn bucket_rank(b: SignalBucket) -> nat {
    match b {
        SignalBucket::NoSignal => 0,
        SignalBucket::Weak => 1,
        SignalBucket::Fair => 2,
        SignalBucket::Good => 3,
        SignalBucket::Excellent => 4,
    }
}

/// The bucket of a strength: [0,19], [20,39], [40,59], [60,79], then 80 and above.
pub open spec fn bucket_of(signal: int) -> SignalBucket {
    if signal >= 80 {
        SignalBucket::Excellent
    } else if signal >= 60 {
        SignalBucket::Good
    } else if signal >= 40 {
        SignalBucket::Fair
    } else if signal >= 20 {
        SignalBucket::Weak
    } else {
        SignalBucket::NoSignal
    }
}

/// Symbolic icon name of each bucket.
pub open spec fn icon_name(b: SignalBucket) -> Seq<char> {
    match b {
        SignalBucket::Excellent => "network-wireless-signal-excellent-symbolic"@,
        SignalBucket::Good => "network-wireless-signal-good-symbolic"@,
        SignalBucket::Fair => "network-wireless-signal-ok-symbolic"@,
        SignalBucket::Weak => "network-wireless-signal-weak-symbolic"@,
        SignalBucket::NoSignal => "network-wireless-signal-none-symbolic"@,
    }
}

/// Maps a signal strength to its bucket.
pub fn classify_signal(signal: u8) -> (r: SignalBucket)
    ensures
        r == bucket_of(signal as int),
{
    if signal >= 80 {
        SignalBucket::Excellent
    } else if signal >= 60 {
        SignalBucket::Good
    } else if signal >= 40 {
        SignalBucket::Fair
    } else if signal >= 20 {
        SignalBucket::Weak
    } else {
        SignalBucket::NoSignal
    }
}

/// The icon name that presents a signal strength.
pub fn signal_icon(signal: u8) -> (r: &'static str)
    ensures
        r@ == icon_name(bucket_of(signal as int)),
{
    match classify_signal(signal) {
        SignalBucket::Excellent => "network-wireless-signal-excellent-symbolic",
        SignalBucket::Good => "network-wireless-signal-good-symbolic",
        SignalBucket::Fair => "network-wireless-signal-ok-symbolic",
        SignalBucket::Weak => "network-wireless-signal-weak-symbolic",
        SignalBucket::NoSignal => "network-wireless-signal-none-symbolic",
    }
}

/// A stronger signal never falls into a weaker bucket.
pub proof fn lemma_bucket_monotonic(x: int, y: int)
    requires
        x <= y,
    ensures
        bucket_rank(bucket_of(x)) <= bucket_rank(bucket_of(y)),
{
}

/// The buckets change exactly at 20, 40, 60 and 80.
pub proof fn lemma_bucket_boundaries(x: int)
    requires
        0 <= x <= 100,
    ensures
        bucket_rank(bucket_of(x)) == (if x < 80 { x / 20 } else { 4 }),
{
}

} // verus!
