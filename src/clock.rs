use vstd::prelude::*;

verus! {

/// Slots as seen by a wall clock in milliseconds: slot `n` starts at
/// `genesis_ms + n * slot_duration_ms`.
pub struct SlotClock {
    pub genesis_ms: u64,
    pub slot_duration_ms: u64,
}

/// The slot that holds the instant `now_ms`, or `None` before genesis.
pub open spec fn slot_at(genesis_ms: u64, slot_duration_ms: u64, now_ms: u64) -> Option<u64>
    recommends
        slot_duration_ms > 0,
{
    if now_ms < genesis_ms {
        None
    } else {
        Some(((now_ms - genesis_ms) / slot_duration_ms as int) as u64)
    }
}

/// The instant at which slot `slot` starts, where it fits in 64 bits.
pub open spec fn slot_start(genesis_ms: u64, slot_duration_ms: u64, slot: u64) -> Option<u64> {
    let start = genesis_ms + slot * slot_duration_ms;
    if start > u64::MAX {
        None
    } else {
        Some(start as u64)
    }
}

impl SlotClock {
    pub fn new(genesis_ms: u64, slot_duration_ms: u64) -> (r: SlotClock)
        requires
            slot_duration_ms > 0,
        ensures
            r.genesis_ms == genesis_ms,
            r.slot_duration_ms == slot_duration_ms,
    {
        SlotClock { genesis_ms, slot_duration_ms }
    }

    /// The slot at the instant `now_ms`, or `None` before genesis.
    pub fn now(&self, now_ms: u64) -> (r: Option<u64>)
        requires
            self.slot_duration_ms > 0,
        ensures
            r == slot_at(self.genesis_ms, self.slot_duration_ms, now_ms),
    {
        if now_ms < self.genesis_ms {
            None
        } else {
            Some((now_ms - self.genesis_ms) / self.slot_duration_ms)
        }
    }

    /// Milliseconds from `now_ms` to the start of `slot`: zero where it has started,
    /// `None` where its start does not fit in 64 bits.
    pub fn duration_to_slot(&self, now_ms: u64, slot: u64) -> (r: Option<u64>)
        ensures
            r == (match slot_start(self.genesis_ms, self.slot_duration_ms, slot) {
                Some(start) => Some(if start > now_ms { (start - now_ms) as u64 } else { 0 }),
                None => None,
            }),
    {
        let offset = match slot.checked_mul(self.slot_duration_ms) {
            Some(o) => o,
            None => {
                proof {
                    assert(self.genesis_ms + slot * self.slot_duration_ms > u64::MAX);
                }
                return None;
            },
        };
        let start = match self.genesis_ms.checked_add(offset) {
            Some(s) => s,
            None => return None,
        };
        if start > now_ms {
            Some(start - now_ms)
        } else {
            Some(0)
        }
    }
}

/// The epoch that holds `slot`.
pub fn epoch_of(slot: u64, slots_per_epoch: u64) -> (r: u64)
    requires
        slots_per_epoch > 0,
    ensures
        r == slot / slots_per_epoch,
{
    slot / slots_per_epoch
}

/// The first slot of `epoch`, where it fits in 64 bits.
pub fn epoch_start_slot(epoch: u64, slots_per_epoch: u64) -> (r: Option<u64>)
    ensures
        r == (if epoch * slots_per_epoch > u64::MAX {
            None
        } else {
            Some((epoch * slots_per_epoch) as u64)
        }),
{
    epoch.checked_mul(slots_per_epoch)
}

} // verus!
