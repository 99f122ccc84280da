use vstd::prelude::*;

use crate::curve::{lookup_spec, valid_curve, Curve};

verus! {

/// Seconds to wait between the end of one cycle and the next sensor read.
pub const POLL_INTERVAL_SECS: u64 = 5;

/// One write of `value` to each unit `0 .. units`, in order of unit.
pub open spec fn all_units(units: u32, value: u32) -> Seq<(u32, u32)> {
    Seq::new(units as nat, |i: int| (i as u32, value))
}

/// The (unit, value) writes of one cycle: none when the curve's target already equals
/// the current output, else the target to every unit.
pub open spec fn cycle_writes(curve: Seq<(u32, u32)>, reading: u32, current: u32, units: u32) -> Seq<
    (u32, u32),
> {
    let target = lookup_spec(curve, reading);
    if target == current {
        Seq::empty()
    } else {
        all_units(units, target)
    }
}

/// Some write in `w` goes to unit `u`.
pub open spec fn writes_to(w: Seq<(u32, u32)>, u: u32) -> bool {
    exists|i: int| 0 <= i < w.len() && (#[trigger] w[i]).0 == u
}

/// What one control cycle decided: the curve's target for the reading, whether it
/// differs from the actuators' current output, and the writes to perform.
pub struct CyclePlan {
    pub target: u32,
    pub changed: bool,
    pub writes: Vec<(u32, u32)>,
}

/// The writes that set every unit `0 .. units` to `value`.
pub fn unit_writes(units: u32, value: u32) -> (r: Vec<(u32, u32)>)
    ensures
        r@ == all_units(units, value),
{
    let mut r: Vec<(u32, u32)> = Vec::new();
    let mut u: u32 = 0;
    while u < units
        invariant
            u <= units,
            r@ == all_units(u, value),
        decreases units - u,
    {
        r.push((u, value));
        u = u + 1;
        assert(r@ =~= all_units(u, value));
    }
    r
}

/// Decides one cycle from the sensor reading, the actuators' current output and the
/// number of actuator units.
pub fn plan_cycle(curve: &Curve, reading: u32, current: u32, units: u32) -> (r: CyclePlan)
    ensures
        r.target == lookup_spec(curve@, reading),
        r.changed == (r.target != current),
        r.writes@ == cycle_writes(curve@, reading, current, units),
{
    let target = curve.lookup(reading);
    if target == current {
        CyclePlan { target, changed: false, writes: Vec::new() }
    } else {
        CyclePlan { target, changed: true, writes: unit_writes(units, target) }
    }
}

/// When the target equals the current output, a cycle writes nothing.
pub proof fn lemma_cycle_idempotent(curve: Seq<(u32, u32)>, reading: u32, current: u32, units: u32)
    requires
        valid_curve(curve),
        lookup_spec(curve, reading) == current,
    ensures
        cycle_writes(curve, reading, current, units).len() == 0,
{
}

/// When the target differs from the current output, a cycle writes the target to
/// every unit, and to each unit exactly once.
pub proof fn lemma_cycle_converges(curve: Seq<(u32, u32)>, reading: u32, current: u32, units: u32)
    requires
        valid_curve(curve),
        lookup_spec(curve, reading) != current,
    ensures
        ({
            let w = cycle_writes(curve, reading, current, units);
            &&& w.len() == units
            &&& forall|i: int| 0 <= i < w.len() ==> (#[trigger] w[i]).1 == lookup_spec(curve, reading)
            &&& forall|u: u32| u < units ==> #[trigger] writes_to(w, u)
            &&& forall|i: int, j: int|
                0 <= i < w.len() && 0 <= j < w.len() && (#[trigger] w[i]).0 == (#[trigger] w[j]).0 ==> i == j
        }),
{
    let w = cycle_writes(curve, reading, current, units);
    assert forall|u: u32| u < units implies #[trigger] writes_to(w, u) by {
        assert(w[u as int].0 == u);
    }
}

} // verus!
