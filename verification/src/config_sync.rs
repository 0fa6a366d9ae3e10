//! Choosing which device's configuration snapshot to apply.
//!
//! Every device records, beside its configuration snapshot, when it
//! last synced. Applying a peer's shared document is only safe when
//! that peer's record is newer than this device's own — otherwise a
//! stale peer would overwrite freshly pushed configuration. Reading
//! the snapshot directories is I/O and happens outside this crate;
//! the decisions on the records are made here.

use vstd::prelude::*;

verus! {

/// The epoch millisecond an RFC 3339 timestamp denotes, or `None` for
/// text that is not one. Millisecond resolution keeps two device
/// records apart that whole seconds would read as a tie.
pub uninterp spec fn rfc3339_epoch(s: Seq<char>) -> Option<i64>;

/// Relies on chrono's `DateTime::parse_from_rfc3339` and
/// `timestamp_millis`: what they compute depends on the text alone.
#[verifier::external_body]
pub fn parse_rfc3339(ts: &str) -> (r: Option<i64>)
    ensures
        r == rfc3339_epoch(ts@),
{
    chrono::DateTime::parse_from_rfc3339(ts).ok().map(|t| t.timestamp_millis())
}

/// Relies on chrono's `Utc::now`: the clock, as an epoch millisecond;
/// nothing is promised of the value it returns.
#[verifier::external_body]
pub fn now_epoch_millis() -> i64 {
    chrono::Utc::now().timestamp_millis()
}

/// The sync metadata one device records beside its configuration
/// snapshot.
pub struct DeviceSyncInfo {
    pub device: String,
    pub platform: String,
    pub last_sync: String,
}

/// The skills a device has installed, each with where to install it
/// from.
pub struct SkillsList {
    pub skills: Vec<(String, String)>,
}

/// A device another device's records may be applied from: not this
/// device, and carrying a readable sync timestamp.
pub open spec fn eligible(d: DeviceSyncInfo, current: Seq<char>) -> bool {
    d.device@ != current && rfc3339_epoch(d.last_sync@) is Some
}

/// The record's place on the clock, as an epoch millisecond.
pub open spec fn sync_epoch(d: DeviceSyncInfo) -> int {
    rfc3339_epoch(d.last_sync@)->Some_0 as int
}

/// Index `i` holds the most recently synced other device: eligible, no
/// eligible device is newer, and every earlier eligible device is
/// strictly older (the first of several equally recent wins).
pub open spec fn best_device(ds: Seq<DeviceSyncInfo>, current: Seq<char>, i: int) -> bool {
    &&& 0 <= i < ds.len()
    &&& eligible(ds[i], current)
    &&& forall|j: int| 0 <= j < ds.len() && eligible(#[trigger] ds[j], current) ==> sync_epoch(
        ds[j],
    ) <= sync_epoch(ds[i])
    &&& forall|j: int| 0 <= j < i && eligible(#[trigger] ds[j], current) ==> sync_epoch(ds[j])
        < sync_epoch(ds[i])
}

/// The index of the most recently synced other device, if any device
/// besides the current one carries a readable record.
pub fn find_latest_device_index(devices: &Vec<DeviceSyncInfo>, current_device: &str) -> (r: Option<
    usize,
>)
    ensures
        match r {
            Some(i) => best_device(devices@, current_device@, i as int),
            None => forall|j: int| 0 <= j < devices@.len() ==> !eligible(
                #[trigger] devices@[j],
                current_device@,
            ),
        },
{
    let mut best: Option<(usize, i64)> = None;
    let mut i: usize = 0;
    while i < devices.len()
        invariant
            i <= devices@.len(),
            match best {
                Some((bi, bt)) => bi < i && eligible(devices@[bi as int], current_device@)
                    && rfc3339_epoch(devices@[bi as int].last_sync@) == Some(bt) && (forall|j: int|
                    0 <= j < i && eligible(#[trigger] devices@[j], current_device@) ==> sync_epoch(
                    devices@[j],
                ) <= bt as int) && (forall|j: int| 0 <= j < bi && eligible(
                    #[trigger] devices@[j],
                    current_device@,
                ) ==> sync_epoch(devices@[j]) < bt as int),
                None => forall|j: int| 0 <= j < i ==> !eligible(
                    #[trigger] devices@[j],
                    current_device@,
                ),
            },
        decreases devices@.len() - i,
    {
        let d = &devices[i];
        let is_current = crate::text::str_eq(d.device.as_str(), current_device);
        if !is_current {
            match parse_rfc3339(d.last_sync.as_str()) {
                Some(t) => {
                    proof {
                        assert(eligible(devices@[i as int], current_device@));
                    }
                    match best {
                        Some((_bi, bt)) => {
                            if t > bt {
                                best = Some((i, t));
                            }
                        },
                        None => {
                            best = Some((i, t));
                        },
                    }
                },
                None => {
                    proof {
                        assert(!eligible(devices@[i as int], current_device@));
                    }
                },
            }
        } else {
            proof {
                assert(!eligible(devices@[i as int], current_device@));
            }
        }
        i = i + 1;
    }
    match best {
        Some((bi, _bt)) => Some(bi),
        None => None,
    }
}

/// The name of the most recently synced other device.
pub fn find_latest_device_config(devices: &Vec<DeviceSyncInfo>, current_device: &str) -> (r:
    Option<String>)
    ensures
        match r {
            Some(name) => exists|i: int| best_device(devices@, current_device@, i) && name@ == (
            #[trigger] devices@[i]).device@,
            None => forall|j: int| 0 <= j < devices@.len() ==> !eligible(
                #[trigger] devices@[j],
                current_device@,
            ),
        },
{
    match find_latest_device_index(devices, current_device) {
        Some(i) => {
            let name = devices[i].device.clone();
            proof {
                assert(best_device(devices@, current_device@, i as int) && name@ == devices@[
                    i as int].device@);
            }
            Some(name)
        },
        None => None,
    }
}

/// Whether a peer's shared document should be auto-applied: only when
/// the peer's record is strictly newer than this device's own, or when
/// this device has no record at all. This keeps a device from
/// overwriting its own freshly pushed configuration with older data.
pub fn should_auto_apply(latest_other: i64, current: Option<i64>) -> (r: bool)
    ensures
        r == match current {
            Some(c) => latest_other > c,
            None => true,
        },
{
    match current {
        Some(c) => latest_other > c,
        None => true,
    }
}

} // verus!
