//! The timer: what preempts a thread.

use crate::fdt::{read_cells, Fdt, Property, PropertyView};
use crate::sbi::{set_timer, Call};
use vstd::prelude::*;

verus! {

/// QEMU virt's `timebase-frequency`, used if the device tree does not say.
pub const DEFAULT_HZ: u64 = 10_000_000;

/// How long a thread runs before the timer takes the hart back.
pub const TIMESLICE_MS: u64 = 10;

/// How a deadline is set.
#[derive(Debug, Clone, Copy, PartialEq, Eq, Structural)]
pub enum Arm {
    /// Write the hart's own compare register.
    Compare(u64),
    /// Ask the firmware.
    Firmware(Call),
}

/// What is known of the hart's timer.
#[derive(Debug, Clone, Copy, PartialEq, Eq, Structural)]
pub struct Timer {
    pub hz: u64,
    /// Whether we can arm the timer ourselves instead of asking the firmware.
    pub sstc: bool,
    /// Timer interrupts taken since boot.
    pub ticks: u64,
}

/// The tick rate that the last of some properties to give one gives.
pub open spec fn rate_given(props: Seq<PropertyView>) -> Option<u64>
    decreases props.len(),
{
    if props.len() == 0 {
        None
    } else {
        let p = props.last();
        match crate::fdt::cells_at(p.value, 0, p.value.len() / 4) {
            Some(v) => if p.name == crate::text::bytes_of("timebase-frequency"@) {
                Some(v)
            } else {
                rate_given(props.drop_last())
            },
            None => rate_given(props.drop_last()),
        }
    }
}

/// Whether some properties list the `sstc` extension.
pub open spec fn lists_sstc(props: Seq<PropertyView>) -> bool {
    exists|i: int| 0 <= i < props.len() && #[trigger] says_sstc(props[i])
}

/// Whether a property lists the `sstc` extension: as a whole element of a list,
/// not as a substring of one.
pub open spec fn says_sstc(p: PropertyView) -> bool {
    &&& p.name == crate::text::bytes_of("riscv,isa-extensions"@)
    &&& crate::text::has_element(p.value, crate::text::bytes_of("sstc"@))
}

/// The timer, once the device tree has been read.
pub open spec fn informed(t: Timer, dtb: Seq<u8>) -> Timer {
    if crate::fdt::refused(dtb) is Some {
        t
    } else {
        let props = crate::fdt::properties_of(dtb).0;
        Timer {
            hz: match rate_given(props) {
                Some(hz) => if hz > 0 {
                    hz
                } else {
                    t.hz
                },
                None => t.hz,
            },
            sstc: lists_sstc(props),
            ..t
        }
    }
}

/// As many ticks as there are in a second make a thousand milliseconds, and any
/// other time is counted to the tick below.
pub proof fn a_thousand_milliseconds_are_a_second(t: Timer, ms: u64)
    ensures
        t.ticks_in(1000) == t.hz,
        1000 * t.ticks_in(ms) <= ms * t.hz < 1000 * t.ticks_in(ms) + 1000,
{
    assert(1000 * t.hz / 1000 == t.hz);
}

impl Timer {
    /// A timer about which nothing is known.
    pub fn new() -> (r: Self)
        ensures
            r == (Timer { hz: DEFAULT_HZ, sstc: false, ticks: 0 }),
    {
        Timer { hz: DEFAULT_HZ, sstc: false, ticks: 0 }
    }

    /// How a deadline is set on this hart.
    pub open spec fn armed(self, deadline: u64) -> Arm {
        if self.sstc {
            Arm::Compare(deadline)
        } else {
            Arm::Firmware(Call { eid: crate::sbi::EID_TIME, fid: 0, arg0: deadline, arg1: 0 })
        }
    }

    /// Ticks in some milliseconds.
    pub open spec fn ticks_in(self, ms: u64) -> int {
        ms * self.hz / 1000
    }

    /// Read the ISA extensions and the tick rate out of the device tree.
    pub fn init(&mut self, dtb: &[u8])
        ensures
            *final(self) == informed(*old(self), dtb@),
    {
        let fdt: Fdt = match Fdt::from_ptr(dtb) {
            Ok(f) => f,
            Err(_) => {
                return ;
            },
        };
        let (props, _) = fdt.for_each_property();
        let ghost all = crate::fdt::views(props@);
        let count: usize = props.len();
        let mut hz: Option<u64> = None;
        let mut sstc: bool = false;
        let mut i: usize = 0;
        assert(all.take(0) =~= Seq::<PropertyView>::empty());
        while i < count
            invariant
                i <= count,
                count == props@.len(),
                all == crate::fdt::views(props@),
                hz == rate_given(all.take(i as int)),
                sstc == lists_sstc(all.take(i as int)),
            decreases count - i,
        {
            let p: Property = props[i];
            let ghost seen = all.take(i + 1);
            proof {
                assert(seen.drop_last() =~= all.take(i as int));
                assert(seen.last() == p@);
                assert(all[i as int] == p@);
                assert forall|k: int| 0 <= k < i implies seen[k] == all.take(i as int)[k] by {
                }
                if says_sstc(p@) {
                    assert(says_sstc(seen[i as int]));
                }
                if sstc {
                    let k = choose|k: int| 0 <= k < i && says_sstc(#[trigger] all.take(i as int)[k]);
                    assert(says_sstc(seen[k]));
                }
                if lists_sstc(seen) {
                    let k = choose|k: int| 0 <= k < seen.len() && says_sstc(#[trigger] seen[k]);
                    if k < i {
                        assert(says_sstc(all.take(i as int)[k]));
                    }
                }
            }
            let cells: u64 = (p.value.len() / 4) as u64;
            match read_cells(p.value, 0, cells) {
                Ok(v) => {
                    if crate::text::is(p.name, "timebase-frequency") {
                        hz = Some(v);
                    }
                },
                Err(_) => {},
            }
            if crate::text::is(p.name, "riscv,isa-extensions") && crate::text::lists(
                p.value,
                "sstc",
            ) {
                sstc = true;
            }
            i = i + 1;
        }
        assert(all.take(count as int) =~= all);
        match hz {
            Some(rate) => {
                if rate > 0 {
                    self.hz = rate;
                }
            },
            None => {},
        }
        self.sstc = sstc;
    }

    pub fn timebase_hz(&self) -> (r: u64)
        ensures
            r == self.hz,
    {
        self.hz
    }

    /// Whether we can arm the timer ourselves instead of asking the firmware.
    pub fn has_sstc(&self) -> (r: bool)
        ensures
            r == self.sstc,
    {
        self.sstc
    }

    pub fn ms_to_ticks(&self, ms: u64) -> (r: u64)
        requires
            ms * self.hz <= u64::MAX,
        ensures
            r == self.ticks_in(ms),
    {
        ms * self.hz / 1000
    }

    /// Arm the timer for an absolute deadline.
    pub fn arm(&self, deadline: u64) -> (r: Arm)
        ensures
            r == self.armed(deadline),
    {
        if self.sstc {
            Arm::Compare(deadline)
        } else {
            Arm::Firmware(set_timer(deadline))
        }
    }

    /// Arm the timer one timeslice from `now`.
    pub fn arm_next_tick(&self, now: u64) -> (r: Arm)
        requires
            TIMESLICE_MS * self.hz <= u64::MAX,
            now + self.ticks_in(TIMESLICE_MS) <= u64::MAX,
        ensures
            r == self.armed((now + self.ticks_in(TIMESLICE_MS)) as u64),
    {
        self.arm(now + self.ms_to_ticks(TIMESLICE_MS))
    }

    /// A timer interrupt arrived: count it and arm the next one.
    pub fn on_tick(&mut self, now: u64) -> (r: Arm)
        requires
            TIMESLICE_MS * old(self).hz <= u64::MAX,
            now + old(self).ticks_in(TIMESLICE_MS) <= u64::MAX,
        ensures
            *final(self) == (Timer { ticks: crate::bits::one_more(old(self).ticks), ..*old(self) }),
            r == old(self).armed((now + old(self).ticks_in(TIMESLICE_MS)) as u64),
    {
        self.ticks = crate::bits::increment(self.ticks);
        self.arm_next_tick(now)
    }

    /// Push the deadline out of reach, which is how "no timer" is expressed.
    pub fn disarm(&self) -> (r: Arm)
        ensures
            r == self.armed(u64::MAX),
    {
        self.arm(u64::MAX)
    }
}

} // verus!
