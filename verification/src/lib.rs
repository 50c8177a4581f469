use vstd::prelude::*;

pub mod bits;
pub mod events;

use std::collections::HashMap;

use crate::bits::{Bits, LV};
use crate::events::{GateUpdateEvent, LumpUpdateEvent, PinUpdateEvent};

verus! {

broadcast use vstd::std_specs::hash::group_hash_axioms;

/// Whether a pin is a gate input, a gate output, or bidirectional.
/// Bidirectional pins are reserved: the engine never drives one.
#[allow(non_camel_case_types)]
#[derive(Clone, Copy, Debug, PartialEq, Eq, Structural)]
pub enum PinType {
    IN,
    OUT,
    INOUT,
}

/// The direction a value flows through a bidirectional pin during one
/// gate wakeup: `IN` when that pin sent the wakeup, `OUT` otherwise.
#[allow(non_camel_case_types)]
#[derive(Clone, Copy, Debug, PartialEq, Eq, Structural)]
pub enum FlowDirection {
    IN,
    OUT,
}

/// The logic function of a gate, drawn from the built-in library.
#[derive(Clone, Copy, Debug, PartialEq, Eq, Structural)]
pub enum GateKind {
    And,
    Or,
    Not,
}

/// A typed endpoint of a gate: holds its current value and, for wired
/// pins, the lump it is bound to.
#[derive(Debug)]
pub struct Pin {
    pub id: usize,
    pub gate_id: usize,
    pub lump_id: Option<usize>,
    pub value: Bits,
    pub pin_type: PinType,
}

/// A shared wire joining a set of pins, with the value it currently
/// carries.
#[derive(Debug)]
pub struct Lump {
    pub id: usize,
    pub pin_ids: Vec<usize>,
    pub value: Bits,
}

/// The pin layout of one gate: ordered lists of input, output and
/// bidirectional pin ids, each index-addressable.
#[derive(Debug)]
pub struct GPIOHandler {
    pub gate_id: usize,
    pub in_pins: Vec<usize>,
    pub out_pins: Vec<usize>,
    pub inout_pins: Vec<usize>,
}

/// A combinational logic block: a pin layout plus the pure logic
/// function that reacts to input changes.
#[derive(Debug)]
pub struct GenericGate {
    pub id: usize,
    pub gpio: GPIOHandler,
    pub update_logic: GateKind,
}

/// The snapshot handed to a gate's logic function: the value of every
/// input pin in order, and of every bidirectional pin tagged with its
/// flow direction for this wakeup.
pub struct GateUpdateData {
    pub in_values: Vec<Bits>,
    pub inout_values: Vec<(Bits, FlowDirection)>,
}

/// One output update requested by a gate's logic function: after
/// `delay` time units, the output pin at `out_index` takes `bits`.
pub struct OutputUpdate {
    pub delay: u64,
    pub out_index: usize,
    pub bits: Bits,
}

/// The registry of named gate constructors.
#[derive(Clone, Copy, Debug)]
pub struct ComponentLibrary {}

/// Failure of a pin-to-lump connection: one or both of the named ids
/// does not exist.
#[derive(Clone, Copy, Debug)]
pub struct ConnectError {
    pub pin_id: usize,
    pub lump_id: usize,
    pub pin_missing: bool,
    pub lump_missing: bool,
}

/// Failure of a gate construction: no constructor is registered under
/// the requested name.
#[derive(Debug)]
pub struct GateNameError {
    pub name: String,
}

/// The entity store and event engine: owns every pin, lump and gate,
/// allocates their ids from one counter, and drives the three event
/// queues over the simulation clock.
#[derive(Debug)]
pub struct ComponentManager {
    pub counter: usize,
    pub current_sim_time: u64,
    pub component_library: ComponentLibrary,
    pub pin_update_queue: Vec<PinUpdateEvent>,
    pub gate_update_queue: Vec<GateUpdateEvent>,
    pub lump_update_queue: Vec<LumpUpdateEvent>,
    pub pins: HashMap<usize, Pin>,
    pub lumps: HashMap<usize, Lump>,
    pub gates: HashMap<usize, GenericGate>,
}

/// The two pins have the same identity, wiring and width; only their
/// current values may differ.
pub open spec fn pin_same_shape(a: Pin, b: Pin) -> bool {
    &&& b.id == a.id
    &&& b.gate_id == a.gate_id
    &&& b.lump_id == a.lump_id
    &&& b.pin_type == a.pin_type
    &&& b.value@.len() == a.value@.len()
}

/// The two lumps have the same identity, membership and width; only
/// their current values may differ.
pub open spec fn lump_same_shape(a: Lump, b: Lump) -> bool {
    &&& b.id == a.id
    &&& b.pin_ids@ == a.pin_ids@
    &&& b.value@.len() == a.value@.len()
}

/// `b` has exactly the netlist of `a`: the same gates, the same pins
/// and lumps with the same wiring and widths, and the same id
/// counter. Pin and lump values are free to differ: this is what the
/// engine preserves while it runs.
pub open spec fn same_topology(a: &ComponentManager, b: &ComponentManager) -> bool {
    &&& b.counter == a.counter
    &&& b.component_library == a.component_library
    &&& b.gates@ == a.gates@
    &&& b.pins@.dom() == a.pins@.dom()
    &&& forall|k: usize|
        #[trigger] a.pins@.contains_key(k) ==> pin_same_shape(a.pins@[k], b.pins@[k])
    &&& b.lumps@.dom() == a.lumps@.dom()
    &&& forall|k: usize|
        #[trigger] a.lumps@.contains_key(k) ==> lump_same_shape(a.lumps@[k], b.lumps@[k])
}

/// Every pin of `a` is still present in `b` with the same shape.
pub open spec fn pins_shape_extended(a: &ComponentManager, b: &ComponentManager) -> bool {
    forall|k: usize|
        #[trigger] a.pins@.contains_key(k) ==> b.pins@.contains_key(k) && pin_same_shape(
            a.pins@[k],
            b.pins@[k],
        )
}

/// Every lump of `a` is still present in `b` with the same shape.
pub open spec fn lumps_shape_extended(a: &ComponentManager, b: &ComponentManager) -> bool {
    forall|k: usize|
        #[trigger] a.lumps@.contains_key(k) ==> b.lumps@.contains_key(k) && lump_same_shape(
            a.lumps@[k],
            b.lumps@[k],
        )
}

/// Every gate of `a` is still present in `b`, unchanged.
pub open spec fn gates_extended(a: &ComponentManager, b: &ComponentManager) -> bool {
    forall|k: usize|
        #[trigger] a.gates@.contains_key(k) ==> b.gates@.contains_key(k) && b.gates@[k]
            == a.gates@[k]
}

/// Entity well-formedness carries over to any state that keeps every
/// entity's shape: values may change, entities may be added, but no
/// wiring moves.
pub proof fn lemma_wf_entities_extend(pre: &ComponentManager, post: &ComponentManager)
    requires
        pre.wf_pins(),
        pre.wf_lumps(),
        pre.wf_gates(),
        pins_shape_extended(pre, post),
        lumps_shape_extended(pre, post),
        gates_extended(pre, post),
    ensures
        forall|k: usize| #[trigger] pre.pins@.contains_key(k) ==> post.pin_wf(post.pins@[k]),
        forall|k: usize| #[trigger] pre.lumps@.contains_key(k) ==> post.lump_wf(post.lumps@[k]),
        forall|k: usize| #[trigger] pre.gates@.contains_key(k) ==> post.gate_wf(post.gates@[k]),
{
    assert forall|k: usize| #[trigger] pre.pins@.contains_key(k) implies post.pin_wf(
        post.pins@[k],
    ) by {
        let p0 = pre.pins@[k];
        assert(pre.pin_wf(p0));
        match p0.lump_id {
            Some(l) => {
                assert(pre.lumps@.contains_key(l));
                assert(post.lumps@[l].pin_ids@ == pre.lumps@[l].pin_ids@);
            },
            None => {},
        }
        if p0.pin_type == PinType::IN {
            assert(pre.gates@.contains_key(p0.gate_id));
        }
    }
    assert forall|k: usize| #[trigger] pre.lumps@.contains_key(k) implies post.lump_wf(
        post.lumps@[k],
    ) by {
        let l0 = pre.lumps@[k];
        let l1 = post.lumps@[k];
        assert(pre.lump_wf(l0));
        assert(l1.pin_ids@ == l0.pin_ids@);
        assert forall|i: int| 0 <= i < l1.pin_ids@.len() implies {
            &&& post.pins@.contains_key(#[trigger] l1.pin_ids@[i])
            &&& post.pins@[l1.pin_ids@[i]].lump_id == Some(l1.id)
            &&& post.pins@[l1.pin_ids@[i]].value@.len() == l1.value@.len()
        } by {
            assert(pre.pins@.contains_key(l0.pin_ids@[i]));
        }
        assert forall|i: int, j: int|
            #![trigger l1.pin_ids@[i], l1.pin_ids@[j]]
            0 <= i < l1.pin_ids@.len() && 0 <= j < l1.pin_ids@.len()
                && post.pins@[l1.pin_ids@[i]].pin_type == PinType::OUT
                && post.pins@[l1.pin_ids@[j]].pin_type == PinType::OUT implies i == j by {
            assert(pre.pins@.contains_key(l0.pin_ids@[i]));
            assert(pre.pins@.contains_key(l0.pin_ids@[j]));
            assert(pre.pins@[l0.pin_ids@[i]].pin_type == PinType::OUT);
            assert(pre.pins@[l0.pin_ids@[j]].pin_type == PinType::OUT);
        }
    }
    assert forall|k: usize| #[trigger] pre.gates@.contains_key(k) implies post.gate_wf(
        post.gates@[k],
    ) by {
        let g = pre.gates@[k];
        assert(pre.gate_wf(g));
        assert(post.gates@[k] == g);
        assert forall|i: int| 0 <= i < g.gpio.in_pins@.len() implies #[trigger] post.gate_in_pin_ok(
            g,
            i,
        ) by {
            assert(pre.gate_in_pin_ok(g, i));
            assert(pre.pins@.contains_key(g.gpio.in_pins@[i]));
        }
        assert forall|i: int|
            0 <= i < g.gpio.out_pins@.len() implies #[trigger] post.gate_out_pin_ok(g, i) by {
            assert(pre.gate_out_pin_ok(g, i));
            assert(pre.pins@.contains_key(g.gpio.out_pins@[i]));
        }
    }
}

/// Event well-formedness carries over to any state that keeps every
/// entity's shape and does not advance the clock.
pub proof fn lemma_wf_events_extend(pre: &ComponentManager, post: &ComponentManager)
    requires
        pins_shape_extended(pre, post),
        lumps_shape_extended(pre, post),
        gates_extended(pre, post),
        post.current_sim_time == pre.current_sim_time,
    ensures
        forall|e: PinUpdateEvent| #[trigger] pre.pin_event_wf(e) ==> post.pin_event_wf(e),
        forall|e: GateUpdateEvent| #[trigger] pre.gate_event_wf(e) ==> post.gate_event_wf(e),
        forall|e: LumpUpdateEvent| #[trigger] pre.lump_event_wf(e) ==> post.lump_event_wf(e),
{
    assert forall|e: PinUpdateEvent| #[trigger] pre.pin_event_wf(e) implies post.pin_event_wf(
        e,
    ) by {
        assert(pre.pins@.contains_key(e.target_pin_id));
    }
    assert forall|e: GateUpdateEvent| #[trigger] pre.gate_event_wf(e) implies post.gate_event_wf(
        e,
    ) by {
        assert(pre.gates@.contains_key(e.target_gate_id));
    }
    assert forall|e: LumpUpdateEvent| #[trigger] pre.lump_event_wf(e) implies post.lump_event_wf(
        e,
    ) by {
        assert(pre.lumps@.contains_key(e.target_lump_id));
        assert(pre.pins@.contains_key(e.sender_pin_id));
    }
}

/// An unchanged pin queue stays well formed across any state change
/// that keeps every pin's shape and the clock.
pub proof fn lemma_pin_queue_wf_carry(pre: &ComponentManager, post: &ComponentManager)
    requires
        pre.wf_pin_queue(),
        pins_shape_extended(pre, post),
        post.current_sim_time == pre.current_sim_time,
        post.pin_update_queue@ == pre.pin_update_queue@,
    ensures
        post.wf_pin_queue(),
{
    assert forall|i: int| 0 <= i < post.pin_update_queue@.len() implies post.pin_event_wf(
        #[trigger] post.pin_update_queue@[i],
    ) by {
        assert(pre.pin_event_wf(pre.pin_update_queue@[i]));
        assert(pre.pins@.contains_key(pre.pin_update_queue@[i].target_pin_id));
    }
}

/// An unchanged gate queue stays well formed across any state change
/// that keeps every gate.
pub proof fn lemma_gate_queue_wf_carry(pre: &ComponentManager, post: &ComponentManager)
    requires
        pre.wf_gate_queue(),
        gates_extended(pre, post),
        post.gate_update_queue@ == pre.gate_update_queue@,
    ensures
        post.wf_gate_queue(),
{
    assert forall|i: int| 0 <= i < post.gate_update_queue@.len() implies post.gate_event_wf(
        #[trigger] post.gate_update_queue@[i],
    ) by {
        assert(pre.gate_event_wf(pre.gate_update_queue@[i]));
        assert(pre.gates@.contains_key(pre.gate_update_queue@[i].target_gate_id));
    }
}

/// An unchanged lump queue stays well formed across any state change
/// that keeps every pin's and lump's shape.
pub proof fn lemma_lump_queue_wf_carry(pre: &ComponentManager, post: &ComponentManager)
    requires
        pre.wf_lump_queue(),
        pins_shape_extended(pre, post),
        lumps_shape_extended(pre, post),
        post.lump_update_queue@ == pre.lump_update_queue@,
    ensures
        post.wf_lump_queue(),
{
    assert forall|i: int| 0 <= i < post.lump_update_queue@.len() implies post.lump_event_wf(
        #[trigger] post.lump_update_queue@[i],
    ) by {
        assert(pre.lump_event_wf(pre.lump_update_queue@[i]));
        assert(pre.lumps@.contains_key(pre.lump_update_queue@[i].target_lump_id));
        assert(pre.pins@.contains_key(pre.lump_update_queue@[i].sender_pin_id));
    }
}

/// Well-formedness survives any requeueing that keeps the entities,
/// the clock and the counter, as long as every queued event is well
/// formed against the (unchanged) entities.
pub proof fn lemma_wf_requeue(pre: &ComponentManager, post: &ComponentManager)
    requires
        pre.wf(),
        post.pins == pre.pins,
        post.lumps == pre.lumps,
        post.gates == pre.gates,
        post.counter == pre.counter,
        post.current_sim_time == pre.current_sim_time,
        forall|i: int|
            0 <= i < post.pin_update_queue@.len() ==> pre.pin_event_wf(
                #[trigger] post.pin_update_queue@[i],
            ),
        forall|i: int|
            0 <= i < post.gate_update_queue@.len() ==> pre.gate_event_wf(
                #[trigger] post.gate_update_queue@[i],
            ),
        forall|i: int|
            0 <= i < post.lump_update_queue@.len() ==> pre.lump_event_wf(
                #[trigger] post.lump_update_queue@[i],
            ),
    ensures
        post.wf(),
{
    assert forall|k: usize| #[trigger] post.pins@.contains_key(k) implies post.pin_wf(
        post.pins@[k],
    ) by {
        assert(pre.pin_wf(pre.pins@[k]));
    }
    assert forall|k: usize| #[trigger] post.lumps@.contains_key(k) implies post.lump_wf(
        post.lumps@[k],
    ) by {
        assert(pre.lump_wf(pre.lumps@[k]));
    }
    assert forall|k: usize| #[trigger] post.gates@.contains_key(k) implies post.gate_wf(
        post.gates@[k],
    ) by {
        assert(pre.gate_wf(pre.gates@[k]));
        assert forall|i: int|
            0 <= i < post.gates@[k].gpio.in_pins@.len() implies #[trigger] post.gate_in_pin_ok(
            post.gates@[k],
            i,
        ) by {
            assert(pre.gate_in_pin_ok(pre.gates@[k], i));
        }
        assert forall|i: int|
            0 <= i < post.gates@[k].gpio.out_pins@.len() implies #[trigger] post.gate_out_pin_ok(
            post.gates@[k],
            i,
        ) by {
            assert(pre.gate_out_pin_ok(pre.gates@[k], i));
        }
    }
    assert forall|i: int| 0 <= i < post.pin_update_queue@.len() implies post.pin_event_wf(
        #[trigger] post.pin_update_queue@[i],
    ) by {
        assert(pre.pin_event_wf(post.pin_update_queue@[i]));
    }
    assert forall|i: int| 0 <= i < post.gate_update_queue@.len() implies post.gate_event_wf(
        #[trigger] post.gate_update_queue@[i],
    ) by {
        assert(pre.gate_event_wf(post.gate_update_queue@[i]));
    }
    assert forall|i: int| 0 <= i < post.lump_update_queue@.len() implies post.lump_event_wf(
        #[trigger] post.lump_update_queue@[i],
    ) by {
        assert(pre.lump_event_wf(post.lump_update_queue@[i]));
    }
}

/// `a + b`, capped at the largest representable time.
pub open spec fn sat_add_u64(a: u64, b: u64) -> u64 {
    if a + b <= u64::MAX {
        (a + b) as u64
    } else {
        u64::MAX
    }
}

fn sat_add(a: u64, b: u64) -> (r: u64)
    ensures
        r == sat_add_u64(a, b),
{
    if b <= u64::MAX - a {
        a + b
    } else {
        u64::MAX
    }
}

/// Whether `v` holds `x`.
fn contains_id(v: &Vec<usize>, x: usize) -> (r: bool)
    ensures
        r == v@.contains(x),
{
    let mut i: usize = 0;
    while i < v.len()
        invariant
            i <= v@.len(),
            forall|j: int| 0 <= j < i ==> v@[j] != x,
        decreases v@.len() - i,
    {
        if v[i] == x {
            return true;
        }
        i = i + 1;
    }
    false
}

/// A copy of a vector of ids.
fn copy_ids(v: &Vec<usize>) -> (r: Vec<usize>)
    ensures
        r@ == v@,
{
    let mut r: Vec<usize> = Vec::new();
    let mut i: usize = 0;
    while i < v.len()
        invariant
            i <= v@.len(),
            r@ == v@.subrange(0, i as int),
        decreases v@.len() - i,
    {
        r.push(v[i]);
        i = i + 1;
    }
    proof {
        assert(r@ =~= v@);
    }
    r
}

impl Clone for Pin {
    fn clone(&self) -> (r: Self)
        ensures
            pin_same_shape(*self, r),
            r.value@ == self.value@,
    {
        Pin {
            id: self.id,
            gate_id: self.gate_id,
            lump_id: self.lump_id,
            value: self.value.clone(),
            pin_type: self.pin_type,
        }
    }
}

impl Clone for Lump {
    fn clone(&self) -> (r: Self)
        ensures
            lump_same_shape(*self, r),
            r.value@ == self.value@,
    {
        Lump { id: self.id, pin_ids: copy_ids(&self.pin_ids), value: self.value.clone() }
    }
}

impl Pin {
    /// A fresh pin of width `n`, unbound and initially all-`Z`.
    pub fn new(id: usize, gate_id: usize, n: usize, pin_type: PinType) -> (p: Pin)
        ensures
            p.id == id,
            p.gate_id == gate_id,
            p.lump_id is None,
            p.pin_type == pin_type,
            p.value@.len() == n,
            forall|i: int| 0 <= i < n ==> p.value@[i] == LV::Z,
    {
        Pin { id, gate_id, lump_id: None, value: Bits::new(n), pin_type }
    }

    /// Bind this pin to the given lump.
    pub fn connect(&mut self, lump_id: &usize)
        ensures
            *final(self) == (Pin { lump_id: Some(*lump_id), ..*old(self) }),
    {
        self.lump_id = Some(*lump_id);
    }

    /// Clear this pin's lump binding.
    pub fn disconnect(&mut self)
        ensures
            *final(self) == (Pin { lump_id: None, ..*old(self) }),
    {
        self.lump_id = None;
    }
}

impl Lump {
    /// A fresh lump of width `n` with no member pins, initially
    /// all-`Z`.
    pub fn new(id: usize, n: usize) -> (l: Lump)
        ensures
            l.id == id,
            l.pin_ids@.len() == 0,
            l.value@.len() == n,
            forall|i: int| 0 <= i < n ==> l.value@[i] == LV::Z,
    {
        Lump { id, pin_ids: Vec::new(), value: Bits::new(n) }
    }

    /// Add `pin_id` to the member set if it is not already there.
    pub fn connect(&mut self, pin_id: &usize)
        ensures
            old(self).pin_ids@.contains(*pin_id) ==> *final(self) == *old(self),
            !old(self).pin_ids@.contains(*pin_id) ==> final(self).pin_ids@
                == old(self).pin_ids@.push(*pin_id) && final(self).id == old(self).id
                && final(self).value == old(self).value,
    {
        if !contains_id(&self.pin_ids, *pin_id) {
            self.pin_ids.push(*pin_id);
        }
    }

    /// Remove `pin_id` from the member set if it is there.
    pub fn disconnect(&mut self, pin_id: &usize)
        ensures
            !old(self).pin_ids@.contains(*pin_id) ==> *final(self) == *old(self),
            old(self).pin_ids@.contains(*pin_id) ==> exists|i: int|
                0 <= i < old(self).pin_ids@.len() && old(self).pin_ids@[i] == *pin_id
                    && final(self).pin_ids@ == old(self).pin_ids@.remove(i),
            final(self).id == old(self).id,
            final(self).value == old(self).value,
    {
        let mut i: usize = 0;
        while i < self.pin_ids.len()
            invariant
                i <= self.pin_ids@.len(),
                forall|j: int| 0 <= j < i ==> self.pin_ids@[j] != *pin_id,
                self == old(self),
            decreases self.pin_ids@.len() - i,
        {
            if self.pin_ids[i] == *pin_id {
                self.pin_ids.remove(i);
                return ;
            }
            i = i + 1;
        }
    }
}

/// What a gate of the given kind computes from its input values.
pub open spec fn gate_output(kind: GateKind, ins: Seq<Seq<LV>>) -> Seq<LV> {
    match kind {
        GateKind::And => crate::bits::seq_and(ins[0], ins[1]),
        GateKind::Or => crate::bits::seq_or(ins[0], ins[1]),
        GateKind::Not => crate::bits::seq_not(ins[0]),
    }
}

/// The current values of a gate's input pins, in order.
pub open spec fn ins_of(cm: &ComponentManager, g: GenericGate) -> Seq<Seq<LV>> {
    Seq::new(g.gpio.in_pins@.len(), |i: int| cm.pins@[g.gpio.in_pins@[i]].value@)
}

impl GateKind {
    /// The pure logic function of the built-in gates: combine the
    /// snapshot's input values pointwise and ask for the single
    /// output pin to take the result one time unit from now.
    pub fn run(&self, data: &GateUpdateData) -> (updates: Vec<OutputUpdate>)
        requires
            (*self == GateKind::And || *self == GateKind::Or) ==> data.in_values@.len() == 2
                && data.in_values@[0]@.len() == data.in_values@[1]@.len(),
            *self == GateKind::Not ==> data.in_values@.len() == 1,
        ensures
            updates@.len() == 1,
            updates@[0].delay == 1,
            updates@[0].out_index == 0,
            updates@[0].bits@ == gate_output(
                *self,
                data.in_values@.map_values(|b: Bits| b@),
            ),
    {
        let mut updates: Vec<OutputUpdate> = Vec::new();
        let bits = match self {
            GateKind::And => {
                let a = &data.in_values[0];
                let b = &data.in_values[1];
                a.and(b)
            },
            GateKind::Or => {
                let a = &data.in_values[0];
                let b = &data.in_values[1];
                a.or(b)
            },
            GateKind::Not => {
                let a = &data.in_values[0];
                a.not()
            },
        };
        updates.push(OutputUpdate { delay: 1, out_index: 0, bits });
        proof {
            assert(data.in_values@.map_values(|b: Bits| b@).len() == data.in_values@.len());
            if data.in_values@.len() > 0 {
                assert(data.in_values@.map_values(|b: Bits| b@)[0] == data.in_values@[0]@);
            }
            if data.in_values@.len() > 1 {
                assert(data.in_values@.map_values(|b: Bits| b@)[1] == data.in_values@[1]@);
            }
        }
        updates
    }
}

/// What a pin that took a new value asks the engine to enqueue: a
/// wakeup of its gate, or a broadcast over its lump.
pub enum PinReaction {
    Gate(GateUpdateEvent),
    Lump(LumpUpdateEvent),
}

/// `s` with every occurrence of `x` dropped, order kept.
pub open spec fn filter_ne(s: Seq<usize>, x: usize) -> Seq<usize>
    decreases s.len(),
{
    if s.len() == 0 {
        Seq::empty()
    } else if s[0] == x {
        filter_ne(s.drop_first(), x)
    } else {
        seq![s[0]] + filter_ne(s.drop_first(), x)
    }
}

/// Every element the filter keeps comes from `s` and differs from
/// `x`, and nothing grows.
pub proof fn lemma_filter_ne_props(s: Seq<usize>, x: usize)
    ensures
        filter_ne(s, x).len() <= s.len(),
        forall|j: int|
            0 <= j < filter_ne(s, x).len() ==> s.contains(#[trigger] filter_ne(s, x)[j])
                && filter_ne(s, x)[j] != x,
    decreases s.len(),
{
    if s.len() == 0 {
    } else {
        lemma_filter_ne_props(s.drop_first(), x);
        let t = filter_ne(s, x);
        let t1 = filter_ne(s.drop_first(), x);
        assert forall|j: int| 0 <= j < t.len() implies s.contains(#[trigger] t[j]) && t[j]
            != x by {
            if s[0] == x {
                assert(t[j] == t1[j]);
                assert(s.drop_first().contains(t1[j]));
                let w = choose|w: int|
                    0 <= w < s.drop_first().len() && s.drop_first()[w] == t1[j];
                assert(s[w + 1] == t1[j]);
            } else {
                if j == 0 {
                    assert(t[0] == s[0]);
                } else {
                    assert(t[j] == t1[j - 1]);
                    assert(s.drop_first().contains(t1[j - 1]));
                    let w = choose|w: int|
                        0 <= w < s.drop_first().len() && s.drop_first()[w] == t1[j - 1];
                    assert(s[w + 1] == t1[j - 1]);
                }
            }
        }
    }
}

/// Extending the sequence at its end extends the filter accordingly.
pub proof fn lemma_filter_ne_push(s: Seq<usize>, x: usize, e: usize)
    ensures
        e == x ==> filter_ne(s.push(e), x) == filter_ne(s, x),
        e != x ==> filter_ne(s.push(e), x) == filter_ne(s, x).push(e),
    decreases s.len(),
{
    if s.len() == 0 {
        assert(s.push(e).drop_first() =~= s);
        if e == x {
            assert(filter_ne(s.push(e), x) == filter_ne(s, x));
        } else {
            assert(filter_ne(s.push(e), x) == seq![e] + filter_ne(s, x));
            assert(seq![e] + filter_ne(s, x) =~= filter_ne(s, x).push(e));
        }
    } else {
        assert(s.push(e).drop_first() =~= s.drop_first().push(e));
        lemma_filter_ne_push(s.drop_first(), x, e);
        assert(s.push(e)[0] == s[0]);
        if e == x {
            if s[0] == x {
                assert(filter_ne(s.push(e), x) == filter_ne(s.drop_first().push(e), x));
            } else {
                assert(filter_ne(s.push(e), x) == seq![s[0]] + filter_ne(
                    s.drop_first().push(e),
                    x,
                ));
            }
        } else {
            if s[0] == x {
                assert(filter_ne(s.push(e), x) == filter_ne(s.drop_first().push(e), x));
            } else {
                assert(filter_ne(s.push(e), x) == seq![s[0]] + filter_ne(
                    s.drop_first().push(e),
                    x,
                ));
                assert(seq![s[0]] + filter_ne(s.drop_first(), x).push(e) =~= (seq![s[0]]
                    + filter_ne(s.drop_first(), x)).push(e));
            }
        }
    }
}

/// How much same-timestamp work a pin update aimed at `pid` can still
/// cause: an input pin wakes its gate, whose outputs land strictly in
/// the future; a driven output pin broadcasts over its lump, reaching
/// each member once. The weights strictly cover what each step hands
/// on, which is what makes the event cascade at one timestamp finite.
pub open spec fn target_weight(cm: &ComponentManager, pid: usize) -> nat {
    if !cm.pins@.contains_key(pid) {
        1
    } else {
        let p = cm.pins@[pid];
        match p.pin_type {
            PinType::IN => 2,
            PinType::INOUT => 1,
            PinType::OUT => match p.lump_id {
                None => 1,
                Some(l) => if cm.lumps@.contains_key(l) {
                    2 + 2 * cm.lumps@[l].pin_ids@.len()
                } else {
                    1
                },
            },
        }
    }
}

/// The weight of a queued pin event: only events at the present
/// timestamp carry weight; future ones are out of this drain cycle.
pub open spec fn pin_event_weight(cm: &ComponentManager, e: PinUpdateEvent) -> nat {
    if e.time == cm.current_sim_time {
        target_weight(cm, e.target_pin_id)
    } else {
        0
    }
}

/// The weight of a queued lump broadcast: itself plus one forwarded
/// update per member.
pub open spec fn lump_event_weight(cm: &ComponentManager, e: LumpUpdateEvent) -> nat {
    if cm.lumps@.contains_key(e.target_lump_id) {
        1 + 2 * cm.lumps@[e.target_lump_id].pin_ids@.len()
    } else {
        1
    }
}

/// Total weight of the pin queue.
pub open spec fn pin_queue_phi(cm: &ComponentManager, q: Seq<PinUpdateEvent>) -> nat
    decreases q.len(),
{
    if q.len() == 0 {
        0
    } else {
        pin_event_weight(cm, q[0]) + pin_queue_phi(cm, q.drop_first())
    }
}

/// Total weight of the lump queue.
pub open spec fn lump_queue_phi(cm: &ComponentManager, q: Seq<LumpUpdateEvent>) -> nat
    decreases q.len(),
{
    if q.len() == 0 {
        0
    } else {
        lump_event_weight(cm, q[0]) + lump_queue_phi(cm, q.drop_first())
    }
}

/// Queue weight adds up over concatenation.
pub proof fn lemma_pin_phi_concat(cm: &ComponentManager, a: Seq<PinUpdateEvent>, b: Seq<
    PinUpdateEvent,
>)
    ensures
        pin_queue_phi(cm, a + b) == pin_queue_phi(cm, a) + pin_queue_phi(cm, b),
    decreases a.len(),
{
    if a.len() == 0 {
        assert(a + b =~= b);
    } else {
        assert((a + b).drop_first() =~= a.drop_first() + b);
        assert((a + b)[0] == a[0]);
        lemma_pin_phi_concat(cm, a.drop_first(), b);
    }
}

/// Appending one event adds exactly its weight.
pub proof fn lemma_pin_phi_push(cm: &ComponentManager, q: Seq<PinUpdateEvent>, e: PinUpdateEvent)
    ensures
        pin_queue_phi(cm, q.push(e)) == pin_queue_phi(cm, q) + pin_event_weight(cm, e),
{
    assert(q.push(e) =~= q + seq![e]);
    lemma_pin_phi_concat(cm, q, seq![e]);
    let s1 = seq![e];
    assert(s1.len() == 1 && s1[0] == e);
    assert(s1.drop_first().len() == 0);
    assert(pin_queue_phi(cm, s1.drop_first()) == 0);
    assert(pin_queue_phi(cm, s1) == pin_event_weight(cm, e));
}

/// Removing one event removes exactly its weight.
pub proof fn lemma_pin_phi_remove(cm: &ComponentManager, q: Seq<PinUpdateEvent>, i: int)
    requires
        0 <= i < q.len(),
    ensures
        pin_queue_phi(cm, q) == pin_queue_phi(cm, q.remove(i)) + pin_event_weight(cm, q[i]),
    decreases i,
{
    if i == 0 {
        assert(q.remove(0) =~= q.drop_first());
    } else {
        assert(q.remove(i).drop_first() =~= q.drop_first().remove(i - 1));
        assert(q.remove(i)[0] == q[0]);
        lemma_pin_phi_remove(cm, q.drop_first(), i - 1);
        assert(q.drop_first()[i - 1] == q[i]);
    }
}

/// Removing the head of the lump queue removes exactly its weight.
pub proof fn lemma_lump_phi_head(cm: &ComponentManager, q: Seq<LumpUpdateEvent>)
    requires
        q.len() > 0,
    ensures
        lump_queue_phi(cm, q) == lump_queue_phi(cm, q.drop_first()) + lump_event_weight(cm, q[0]),
{
}

/// Weights read only the netlist and the clock, so they carry over
/// between states of equal topology and time.
pub proof fn lemma_phi_stable(a: &ComponentManager, b: &ComponentManager, q: Seq<PinUpdateEvent>)
    requires
        same_topology(a, b),
        b.current_sim_time == a.current_sim_time,
    ensures
        pin_queue_phi(a, q) == pin_queue_phi(b, q),
    decreases q.len(),
{
    if q.len() > 0 {
        lemma_phi_stable(a, b, q.drop_first());
        lemma_target_weight_stable(a, b, q[0].target_pin_id);
    }
}

/// The weight of one target is the same in two states of equal
/// topology.
pub proof fn lemma_target_weight_stable(a: &ComponentManager, b: &ComponentManager, pid: usize)
    requires
        same_topology(a, b),
    ensures
        target_weight(a, pid) == target_weight(b, pid),
{
    if a.pins@.contains_key(pid) {
        assert(b.pins@.dom() == a.pins@.dom());
        assert(b.pins@.contains_key(pid));
        assert(pin_same_shape(a.pins@[pid], b.pins@[pid]));
        let p = a.pins@[pid];
        match p.pin_type {
            PinType::OUT => {
                match p.lump_id {
                    Some(l) => {
                        if a.lumps@.contains_key(l) {
                            assert(b.lumps@.contains_key(l));
                            assert(lump_same_shape(a.lumps@[l], b.lumps@[l]));
                        } else {
                            assert(!b.lumps@.contains_key(l));
                        }
                    },
                    None => {},
                }
            },
            _ => {},
        }
    } else {
        assert(!b.pins@.contains_key(pid));
    }
}

/// Well-formedness survives an advance of the clock, as long as no
/// queued pin event falls into the past.
pub proof fn lemma_wf_advance(pre: &ComponentManager, post: &ComponentManager)
    requires
        pre.wf(),
        post.pins == pre.pins,
        post.lumps == pre.lumps,
        post.gates == pre.gates,
        post.counter == pre.counter,
        post.pin_update_queue@ == pre.pin_update_queue@,
        post.gate_update_queue@ == pre.gate_update_queue@,
        post.lump_update_queue@ == pre.lump_update_queue@,
        forall|i: int|
            0 <= i < post.pin_update_queue@.len() ==> #[trigger] post.pin_update_queue@[i].time
                >= post.current_sim_time,
    ensures
        post.wf(),
{
    assert forall|k: usize| #[trigger] post.pins@.contains_key(k) implies post.pin_wf(
        post.pins@[k],
    ) by {
        assert(pre.pin_wf(pre.pins@[k]));
    }
    assert forall|k: usize| #[trigger] post.lumps@.contains_key(k) implies post.lump_wf(
        post.lumps@[k],
    ) by {
        assert(pre.lump_wf(pre.lumps@[k]));
    }
    assert forall|k: usize| #[trigger] post.gates@.contains_key(k) implies post.gate_wf(
        post.gates@[k],
    ) by {
        assert(pre.gate_wf(pre.gates@[k]));
        assert forall|i: int|
            0 <= i < post.gates@[k].gpio.in_pins@.len() implies #[trigger] post.gate_in_pin_ok(
            post.gates@[k],
            i,
        ) by {
            assert(pre.gate_in_pin_ok(pre.gates@[k], i));
        }
        assert forall|i: int|
            0 <= i < post.gates@[k].gpio.out_pins@.len() implies #[trigger] post.gate_out_pin_ok(
            post.gates@[k],
            i,
        ) by {
            assert(pre.gate_out_pin_ok(pre.gates@[k], i));
        }
    }
    assert forall|i: int| 0 <= i < post.pin_update_queue@.len() implies post.pin_event_wf(
        #[trigger] post.pin_update_queue@[i],
    ) by {
        assert(pre.pin_event_wf(pre.pin_update_queue@[i]));
    }
    assert forall|i: int| 0 <= i < post.gate_update_queue@.len() implies post.gate_event_wf(
        #[trigger] post.gate_update_queue@[i],
    ) by {
        assert(pre.gate_event_wf(pre.gate_update_queue@[i]));
    }
    assert forall|i: int| 0 <= i < post.lump_update_queue@.len() implies post.lump_event_wf(
        #[trigger] post.lump_update_queue@[i],
    ) by {
        assert(pre.lump_event_wf(pre.lump_update_queue@[i]));
    }
}

/// The index of the first event with the smallest landing time.
fn min_time_index(q: &Vec<PinUpdateEvent>) -> (idx: usize)
    requires
        q@.len() > 0,
    ensures
        idx < q@.len(),
        forall|i: int| 0 <= i < q@.len() ==> q@[idx as int].time <= #[trigger] q@[i].time,
        forall|i: int| 0 <= i < idx ==> q@[idx as int].time < #[trigger] q@[i].time,
{
    let mut idx: usize = 0;
    let mut i: usize = 1;
    while i < q.len()
        invariant
            idx < i <= q@.len(),
            forall|j: int| 0 <= j < i ==> q@[idx as int].time <= #[trigger] q@[j].time,
            forall|j: int| 0 <= j < idx ==> q@[idx as int].time < #[trigger] q@[j].time,
        decreases q@.len() - i,
    {
        if q[i].time < q[idx].time {
            idx = i;
        }
        i = i + 1;
    }
    idx
}

/// The dispatch that waking gate `w.target_gate_id` in state `cm`
/// produces: one update of that gate's single output pin, one time
/// unit ahead, carrying the logic function's result on the in-order
/// input snapshot.
pub open spec fn dispatched_update(
    cm: ComponentManager,
    w: GateUpdateEvent,
    e: PinUpdateEvent,
) -> bool {
    let g = cm.gates@[w.target_gate_id];
    &&& e.time == cm.current_sim_time + 1
    &&& e.target_pin_id == g.gpio.out_pins@[0]
    &&& e.value@ == gate_output(g.update_logic, ins_of(&cm, g))
}

/// Exactly what delivering one pin update does to the store:
/// [`ComponentManager::apply_pin_update`]'s contract as a relation
/// between two states.
pub open spec fn pin_update_applied(
    pre: ComponentManager,
    post: ComponentManager,
    pid: usize,
    v: Seq<LV>,
) -> bool {
    &&& post.current_sim_time == pre.current_sim_time
    &&& post.counter == pre.counter
    &&& post.component_library == pre.component_library
    &&& post.gates == pre.gates
    &&& post.lumps == pre.lumps
    &&& post.pin_update_queue@ == pre.pin_update_queue@
    &&& (pre.pins@[pid].value@ == v ==> post == pre)
    &&& (pre.pins@[pid].value@ != v ==> {
        &&& post.pins@ == pre.pins@.insert(pid, post.pins@[pid])
        &&& pin_same_shape(pre.pins@[pid], post.pins@[pid])
        &&& post.pins@[pid].value@ == v
        &&& (pre.pins@[pid].pin_type == PinType::IN ==> {
            &&& post.gate_update_queue@ == pre.gate_update_queue@.push(
                GateUpdateEvent { sender_pin_id: pid, target_gate_id: pre.pins@[pid].gate_id },
            )
            &&& post.lump_update_queue@ == pre.lump_update_queue@
        })
        &&& (pre.pins@[pid].pin_type == PinType::OUT ==> match pre.pins@[pid].lump_id {
            Some(l) => {
                &&& post.gate_update_queue@ == pre.gate_update_queue@
                &&& post.lump_update_queue@.len() == pre.lump_update_queue@.len() + 1
                &&& post.lump_update_queue@ == pre.lump_update_queue@.push(
                    post.lump_update_queue@.last(),
                )
                &&& post.lump_update_queue@.last().sender_pin_id == pid
                &&& post.lump_update_queue@.last().target_lump_id == l
                &&& post.lump_update_queue@.last().bits@ == v
            },
            None => {
                &&& post.gate_update_queue@ == pre.gate_update_queue@
                &&& post.lump_update_queue@ == pre.lump_update_queue@
            },
        })
    })
}

/// Exactly what draining the wakeup queue does: it is emptied, no
/// entity is touched, and the pin queue gains, per wakeup in
/// order, exactly that wakeup's dispatch — or nothing at the clock's
/// end, where no dispatch can land.
pub open spec fn gate_queue_drained(pre: ComponentManager, post: ComponentManager) -> bool {
    &&& post.gate_update_queue@.len() == 0
    &&& post.pins == pre.pins
    &&& post.lumps == pre.lumps
    &&& post.gates == pre.gates
    &&& post.counter == pre.counter
    &&& post.current_sim_time == pre.current_sim_time
    &&& post.component_library == pre.component_library
    &&& post.lump_update_queue@ == pre.lump_update_queue@
    &&& (forall|i: int|
        0 <= i < pre.pin_update_queue@.len() ==> #[trigger] post.pin_update_queue@[i]
            == pre.pin_update_queue@[i])
    &&& (pre.current_sim_time < u64::MAX ==> {
        &&& post.pin_update_queue@.len() == pre.pin_update_queue@.len()
            + pre.gate_update_queue@.len()
        &&& (forall|j: int|
            0 <= j < pre.gate_update_queue@.len() ==> dispatched_update(
                pre,
                #[trigger] pre.gate_update_queue@[j],
                post.pin_update_queue@[pre.pin_update_queue@.len() + j],
            ))
    })
    &&& (pre.current_sim_time == u64::MAX ==> post.pin_update_queue@ == pre.pin_update_queue@)
}

/// Exactly what delivering one lump broadcast does, the broadcast
/// queue itself aside: an equal value changes nothing, a new value
/// is stored in the target lump and forwarded as zero-delay updates
/// to every member but the sender, in member order.
pub open spec fn lump_update_applied(
    pre: ComponentManager,
    post: ComponentManager,
    e: LumpUpdateEvent,
) -> bool {
    &&& post.pins == pre.pins
    &&& post.gates == pre.gates
    &&& post.counter == pre.counter
    &&& post.current_sim_time == pre.current_sim_time
    &&& post.component_library == pre.component_library
    &&& post.gate_update_queue@ == pre.gate_update_queue@
    &&& (pre.lumps@[e.target_lump_id].value@ == e.bits@ ==> post.lumps == pre.lumps
        && post.pin_update_queue@ == pre.pin_update_queue@)
    &&& (pre.lumps@[e.target_lump_id].value@ != e.bits@ ==> {
        &&& post.lumps@ == pre.lumps@.insert(e.target_lump_id, post.lumps@[e.target_lump_id])
        &&& post.lumps@[e.target_lump_id].id == pre.lumps@[e.target_lump_id].id
        &&& post.lumps@[e.target_lump_id].pin_ids@ == pre.lumps@[e.target_lump_id].pin_ids@
        &&& post.lumps@[e.target_lump_id].value@ == e.bits@
        &&& post.pin_update_queue@.len() == pre.pin_update_queue@.len() + filter_ne(
            pre.lumps@[e.target_lump_id].pin_ids@,
            e.sender_pin_id,
        ).len()
        &&& (forall|j: int|
            0 <= j < pre.pin_update_queue@.len() ==> #[trigger] post.pin_update_queue@[j]
                == pre.pin_update_queue@[j])
        &&& (forall|j: int|
            0 <= j < filter_ne(pre.lumps@[e.target_lump_id].pin_ids@, e.sender_pin_id).len()
                ==> post.pin_update_queue@[pre.pin_update_queue@.len() + j].time
                == pre.current_sim_time && post.pin_update_queue@[pre.pin_update_queue@.len()
                + j].target_pin_id == #[trigger] filter_ne(
                pre.lumps@[e.target_lump_id].pin_ids@,
                e.sender_pin_id,
            )[j] && post.pin_update_queue@[pre.pin_update_queue@.len() + j].value@ == e.bits@)
    })
}

/// One step of the lump drain: the queue's head broadcast leaves the
/// queue and is delivered as [`lump_update_applied`] describes.
pub open spec fn lump_step_popped(pre: ComponentManager, post: ComponentManager) -> bool {
    &&& pre.lump_update_queue@.len() > 0
    &&& post.lump_update_queue@ == pre.lump_update_queue@.drop_first()
    &&& lump_update_applied(pre, post, pre.lump_update_queue@[0])
}

/// `post` results from `pre` by exactly `n` head-of-queue lump
/// deliveries. Deliveries never enqueue further broadcasts, so a run
/// that ends with an empty queue has delivered, in order, exactly
/// the broadcasts that were pending at its start.
pub open spec fn lump_queue_delivered(
    pre: ComponentManager,
    post: ComponentManager,
    n: nat,
) -> bool
    decreases n,
{
    if n == 0 {
        post == pre
    } else {
        exists|mid: ComponentManager|
            #[trigger] lump_step_popped(pre, mid) && lump_queue_delivered(
                mid,
                post,
                (n - 1) as nat,
            )
    }
}

/// Extending a delivery run by one more step.
pub proof fn lemma_lump_delivered_snoc(
    pre: ComponentManager,
    mid: ComponentManager,
    post: ComponentManager,
    n: nat,
)
    requires
        lump_queue_delivered(pre, mid, n),
        lump_step_popped(mid, post),
    ensures
        lump_queue_delivered(pre, post, n + 1),
    decreases n,
{
    if n == 0 {
        assert(mid == pre);
        assert(lump_step_popped(pre, post) && lump_queue_delivered(post, post, 0));
    } else {
        let m1 = choose|m1: ComponentManager|
            #[trigger] lump_step_popped(pre, m1) && lump_queue_delivered(m1, mid, (n - 1) as nat);
        lemma_lump_delivered_snoc(m1, mid, post, (n - 1) as nat);
        assert(lump_step_popped(pre, m1) && lump_queue_delivered(m1, post, n));
    }
}

/// The first due pin update — the earliest-queued event at the
/// present timestamp — leaves the queue, and nothing else moves.
pub open spec fn popped_due(pre: ComponentManager, post: ComponentManager, idx: int) -> bool {
    &&& 0 <= idx < pre.pin_update_queue@.len()
    &&& pre.pin_update_queue@[idx].time == pre.current_sim_time
    &&& (forall|i: int|
        0 <= i < idx ==> #[trigger] pre.pin_update_queue@[i].time != pre.current_sim_time)
    &&& post.pin_update_queue@ == pre.pin_update_queue@.remove(idx)
    &&& post.pins == pre.pins
    &&& post.lumps == pre.lumps
    &&& post.gates == pre.gates
    &&& post.counter == pre.counter
    &&& post.current_sim_time == pre.current_sim_time
    &&& post.component_library == pre.component_library
    &&& post.gate_update_queue@ == pre.gate_update_queue@
    &&& post.lump_update_queue@ == pre.lump_update_queue@
}

/// One full engine step at the present timestamp: the first due pin
/// update is popped and delivered to its pin, then every gate wakeup
/// that raised is dispatched, then every pending lump broadcast is
/// delivered, leaving both secondary queues empty.
pub open spec fn engine_step(pre: ComponentManager, post: ComponentManager) -> bool {
    exists|idx: int, s1: ComponentManager, s2: ComponentManager, s3: ComponentManager, n: nat|
        #![trigger popped_due(pre, s1, idx), gate_queue_drained(s2, s3), lump_queue_delivered(s3, post, n)]
        {
            &&& popped_due(pre, s1, idx)
            &&& pin_update_applied(
                s1,
                s2,
                pre.pin_update_queue@[idx].target_pin_id,
                pre.pin_update_queue@[idx].value@,
            )
            &&& gate_queue_drained(s2, s3)
            &&& lump_queue_delivered(s3, post, n)
            &&& post.lump_update_queue@.len() == 0
            &&& post.gate_update_queue@.len() == 0
        }
}

/// `post` results from `pre` by exactly `n` engine steps.
pub open spec fn engine_reaches(pre: ComponentManager, post: ComponentManager, n: nat) -> bool
    decreases n,
{
    if n == 0 {
        post == pre
    } else {
        exists|mid: ComponentManager|
            #[trigger] engine_step(pre, mid) && engine_reaches(mid, post, (n - 1) as nat)
    }
}

/// Extending a run by one more step.
pub proof fn lemma_engine_reaches_snoc(
    pre: ComponentManager,
    mid: ComponentManager,
    post: ComponentManager,
    n: nat,
)
    requires
        engine_reaches(pre, mid, n),
        engine_step(mid, post),
    ensures
        engine_reaches(pre, post, n + 1),
    decreases n,
{
    if n == 0 {
        assert(mid == pre);
        assert(engine_step(pre, post) && engine_reaches(post, post, 0));
    } else {
        let m1 = choose|m1: ComponentManager|
            #[trigger] engine_step(pre, m1) && engine_reaches(m1, mid, (n - 1) as nat);
        lemma_engine_reaches_snoc(m1, mid, post, (n - 1) as nat);
        assert(engine_step(pre, m1) && engine_reaches(m1, post, n));
    }
}

/// How a processing call hands control back: quiescent with the
/// state exactly as the last step left it, or, when work remains,
/// with the clock advanced to the earliest pending time and nothing
/// else touched.
pub open spec fn engine_returns(mid: ComponentManager, post: ComponentManager) -> bool {
    if mid.pin_update_queue@.len() == 0 {
        post == mid
    } else {
        exists|idx: int|
            #![trigger mid.pin_update_queue@[idx]]
            {
                &&& 0 <= idx < mid.pin_update_queue@.len()
                &&& (forall|i: int|
                    0 <= i < mid.pin_update_queue@.len() ==> mid.pin_update_queue@[idx].time
                        <= #[trigger] mid.pin_update_queue@[i].time)
                &&& mid.pin_update_queue@[idx].time > mid.current_sim_time
                &&& post == (ComponentManager {
                    current_sim_time: mid.pin_update_queue@[idx].time,
                    ..mid
                })
            }
    }
}

/// Broadcast weights read only the netlist, so they carry over
/// between states of equal topology.
pub proof fn lemma_lump_queue_phi_stable(
    a: &ComponentManager,
    b: &ComponentManager,
    q: Seq<LumpUpdateEvent>,
)
    requires
        same_topology(a, b),
    ensures
        lump_queue_phi(a, q) == lump_queue_phi(b, q),
    decreases q.len(),
{
    if q.len() > 0 {
        lemma_lump_queue_phi_stable(a, b, q.drop_first());
        let t = q[0].target_lump_id;
        if a.lumps@.contains_key(t) {
            assert(b.lumps@.contains_key(t));
            assert(lump_same_shape(a.lumps@[t], b.lumps@[t]));
        } else {
            assert(!b.lumps@.contains_key(t));
        }
    }
}

/// Equal topology is transitive.
pub proof fn lemma_same_topology_trans(
    a: &ComponentManager,
    b: &ComponentManager,
    c: &ComponentManager,
)
    requires
        same_topology(a, b),
        same_topology(b, c),
    ensures
        same_topology(a, c),
{
    assert forall|k: usize| #[trigger] a.pins@.contains_key(k) implies pin_same_shape(
        a.pins@[k],
        c.pins@[k],
    ) by {
        assert(b.pins@.contains_key(k));
        assert(pin_same_shape(a.pins@[k], b.pins@[k]));
        assert(pin_same_shape(b.pins@[k], c.pins@[k]));
    }
    assert forall|k: usize| #[trigger] a.lumps@.contains_key(k) implies lump_same_shape(
        a.lumps@[k],
        c.lumps@[k],
    ) by {
        assert(b.lumps@.contains_key(k));
        assert(lump_same_shape(a.lumps@[k], b.lumps@[k]));
        assert(lump_same_shape(b.lumps@[k], c.lumps@[k]));
    }
}

/// A lump broadcast excludes its sender: no update a lump forwards
/// after accepting a value from one of its pins targets that pin.
pub proof fn lemma_broadcast_excludes_sender(members: Seq<usize>, sender: usize)
    ensures
        forall|j: int|
            0 <= j < filter_ne(members, sender).len() ==> #[trigger] filter_ne(members, sender)[j]
                != sender,
{
    lemma_filter_ne_props(members, sender);
}

impl Pin {
    /// Take a new value. Equal values are a no-op: this is the
    /// idempotence gate that damps oscillation, and it applies to
    /// every pin type. A changed input pin asks for a gate wakeup; a
    /// changed output pin asks for a broadcast over its lump, or asks
    /// nothing when unbound. Bidirectional pins are reserved: driving
    /// one to a new value is excluded, only the no-op reaches it.
    pub fn accept_update(&mut self, bits: &Bits) -> (r: Option<PinReaction>)
        requires
            old(self).pin_type == PinType::INOUT ==> old(self).value@ == bits@,
        ensures
            old(self).value@ == bits@ ==> *final(self) == *old(self) && r is None,
            old(self).value@ != bits@ ==> {
                &&& final(self).value@ == bits@
                &&& final(self).id == old(self).id
                &&& final(self).gate_id == old(self).gate_id
                &&& final(self).lump_id == old(self).lump_id
                &&& final(self).pin_type == old(self).pin_type
                &&& (old(self).pin_type == PinType::IN ==> r == Some(
                    PinReaction::Gate(
                        GateUpdateEvent {
                            sender_pin_id: old(self).id,
                            target_gate_id: old(self).gate_id,
                        },
                    ),
                ))
                &&& (old(self).pin_type == PinType::OUT ==> match old(self).lump_id {
                    Some(l) => r matches Some(PinReaction::Lump(e)) && e.sender_pin_id == old(
                        self,
                    ).id && e.target_lump_id == l && e.bits@ == bits@,
                    None => r is None,
                })
            },
    {
        if self.value == *bits {
            return None;
        }
        self.value = bits.clone();
        match self.pin_type {
            PinType::IN => Some(
                PinReaction::Gate(
                    GateUpdateEvent { sender_pin_id: self.id, target_gate_id: self.gate_id },
                ),
            ),
            PinType::OUT => {
                match self.lump_id {
                    Some(lump_id) => Some(
                        PinReaction::Lump(
                            LumpUpdateEvent {
                                sender_pin_id: self.id,
                                target_lump_id: lump_id,
                                bits: self.value.clone(),
                            },
                        ),
                    ),
                    None => None,
                }
            },
            PinType::INOUT => {
                proof {
                    assert(false);
                }
                None
            },
        }
    }
}

impl Lump {
    /// Take a broadcast. An equal value is a no-op. A changed value
    /// is stored and comes back with the ordered list of member pins
    /// to forward it to: every member except the sender.
    pub fn accept_update(&mut self, event: &LumpUpdateEvent) -> (targets: Option<Vec<usize>>)
        ensures
            old(self).value@ == event.bits@ ==> *final(self) == *old(self) && targets is None,
            old(self).value@ != event.bits@ ==> {
                &&& final(self).value@ == event.bits@
                &&& final(self).id == old(self).id
                &&& final(self).pin_ids@ == old(self).pin_ids@
                &&& targets matches Some(v) && v@ == filter_ne(
                    old(self).pin_ids@,
                    event.sender_pin_id,
                )
            },
    {
        if self.value == event.bits {
            return None;
        }
        self.value = event.bits.clone();
        let mut v: Vec<usize> = Vec::new();
        let mut i: usize = 0;
        while i < self.pin_ids.len()
            invariant
                i <= self.pin_ids@.len(),
                v@ == filter_ne(self.pin_ids@.subrange(0, i as int), event.sender_pin_id),
            decreases self.pin_ids@.len() - i,
        {
            proof {
                assert(self.pin_ids@.subrange(0, i + 1 as int) =~= self.pin_ids@.subrange(
                    0,
                    i as int,
                ).push(self.pin_ids@[i as int]));
                lemma_filter_ne_push(
                    self.pin_ids@.subrange(0, i as int),
                    event.sender_pin_id,
                    self.pin_ids@[i as int],
                );
            }
            if self.pin_ids[i] != event.sender_pin_id {
                v.push(self.pin_ids[i]);
            }
            i = i + 1;
        }
        proof {
            assert(self.pin_ids@.subrange(0, self.pin_ids@.len() as int) =~= self.pin_ids@);
        }
        Some(v)
    }
}

impl ComponentManager {
    pub open spec fn has_pin(&self, id: usize) -> bool {
        self.pins@.contains_key(id)
    }

    pub open spec fn pin(&self, id: usize) -> Pin {
        self.pins@[id]
    }

    pub open spec fn has_lump(&self, id: usize) -> bool {
        self.lumps@.contains_key(id)
    }

    pub open spec fn lump(&self, id: usize) -> Lump {
        self.lumps@[id]
    }

    pub open spec fn has_gate(&self, id: usize) -> bool {
        self.gates@.contains_key(id)
    }

    pub open spec fn gate(&self, id: usize) -> GenericGate {
        self.gates@[id]
    }

    /// Every entity record carries the id it is stored under, and no
    /// id exceeds the allocation counter.
    pub open spec fn wf_ids(&self) -> bool {
        &&& forall|k: usize|
            #[trigger] self.pins@.contains_key(k) ==> self.pins@[k].id == k && 0 < k
                <= self.counter
        &&& forall|k: usize|
            #[trigger] self.lumps@.contains_key(k) ==> self.lumps@[k].id == k && 0 < k
                <= self.counter
        &&& forall|k: usize|
            #[trigger] self.gates@.contains_key(k) ==> self.gates@[k].id == k && 0 < k
                <= self.counter
    }

    /// Conditions on one pin record: bidirectional pins do not occur;
    /// a bound pin names a live lump of its own width whose member
    /// set holds it; an input pin names a live gate.
    pub open spec fn pin_wf(&self, p: Pin) -> bool {
        &&& p.pin_type != PinType::INOUT
        &&& match p.lump_id {
            Some(l) => self.lumps@.contains_key(l) && self.lumps@[l].value@.len()
                == p.value@.len() && self.lumps@[l].pin_ids@.contains(p.id),
            None => true,
        }
        &&& p.pin_type == PinType::IN ==> self.gates@.contains_key(p.gate_id)
    }

    pub open spec fn wf_pins(&self) -> bool {
        forall|k: usize| #[trigger] self.pins@.contains_key(k) ==> self.pin_wf(self.pins@[k])
    }

    /// Conditions on one lump record: every member id names a live
    /// pin of the lump's width that is bound back to this lump, the
    /// member list has no duplicates, and at most one member is an
    /// output pin (a wire has one driver).
    pub open spec fn lump_wf(&self, l: Lump) -> bool {
        &&& forall|i: int|
            0 <= i < l.pin_ids@.len() ==> {
                &&& self.pins@.contains_key(#[trigger] l.pin_ids@[i])
                &&& self.pins@[l.pin_ids@[i]].lump_id == Some(l.id)
                &&& self.pins@[l.pin_ids@[i]].value@.len() == l.value@.len()
            }
        &&& forall|i: int, j: int|
            0 <= i < j < l.pin_ids@.len() ==> #[trigger] l.pin_ids@[i] != #[trigger] l.pin_ids@[j]
        &&& forall|i: int, j: int|
            #![trigger l.pin_ids@[i], l.pin_ids@[j]]
            0 <= i < l.pin_ids@.len() && 0 <= j < l.pin_ids@.len() && self.pins@[l.pin_ids@[i]].pin_type
                == PinType::OUT && self.pins@[l.pin_ids@[j]].pin_type == PinType::OUT ==> i == j
    }

    pub open spec fn wf_lumps(&self) -> bool {
        forall|k: usize| #[trigger] self.lumps@.contains_key(k) ==> self.lump_wf(self.lumps@[k])
    }

    /// The pin at index `i` of `g`'s input list is a live input pin
    /// of width 1 belonging to `g`.
    pub open spec fn gate_in_pin_ok(&self, g: GenericGate, i: int) -> bool {
        let p = g.gpio.in_pins@[i];
        &&& self.pins@.contains_key(p)
        &&& self.pins@[p].pin_type == PinType::IN
        &&& self.pins@[p].gate_id == g.id
        &&& self.pins@[p].value@.len() == 1
    }

    /// The pin at index `i` of `g`'s output list is a live output pin
    /// of width 1 belonging to `g`.
    pub open spec fn gate_out_pin_ok(&self, g: GenericGate, i: int) -> bool {
        let p = g.gpio.out_pins@[i];
        &&& self.pins@.contains_key(p)
        &&& self.pins@[p].pin_type == PinType::OUT
        &&& self.pins@[p].gate_id == g.id
        &&& self.pins@[p].value@.len() == 1
    }

    /// Conditions on one gate record: the layout matches its kind
    /// (two inputs and one output for the binary gates, one and one
    /// for the inverter), no bidirectional pins, and every listed pin
    /// is live, correctly typed, of width 1 and owned by this gate.
    pub open spec fn gate_wf(&self, g: GenericGate) -> bool {
        &&& g.gpio.gate_id == g.id
        &&& g.gpio.inout_pins@.len() == 0
        &&& g.gpio.out_pins@.len() == 1
        &&& match g.update_logic {
            GateKind::And => g.gpio.in_pins@.len() == 2,
            GateKind::Or => g.gpio.in_pins@.len() == 2,
            GateKind::Not => g.gpio.in_pins@.len() == 1,
        }
        &&& forall|i: int| 0 <= i < g.gpio.in_pins@.len() ==> #[trigger] self.gate_in_pin_ok(g, i)
        &&& forall|i: int| 0 <= i < g.gpio.out_pins@.len() ==> #[trigger] self.gate_out_pin_ok(g, i)
    }

    pub open spec fn wf_gates(&self) -> bool {
        forall|k: usize| #[trigger] self.gates@.contains_key(k) ==> self.gate_wf(self.gates@[k])
    }

    /// A queued pin event targets a live pin of the event's width and
    /// never lies in the past.
    pub open spec fn pin_event_wf(&self, e: PinUpdateEvent) -> bool {
        &&& self.pins@.contains_key(e.target_pin_id)
        &&& self.pins@[e.target_pin_id].value@.len() == e.value@.len()
        &&& e.time >= self.current_sim_time
    }

    pub open spec fn wf_pin_queue(&self) -> bool {
        forall|i: int|
            0 <= i < self.pin_update_queue@.len() ==> self.pin_event_wf(
                #[trigger] self.pin_update_queue@[i],
            )
    }

    /// A queued gate event targets a live gate.
    pub open spec fn gate_event_wf(&self, e: GateUpdateEvent) -> bool {
        self.gates@.contains_key(e.target_gate_id)
    }

    pub open spec fn wf_gate_queue(&self) -> bool {
        forall|i: int|
            0 <= i < self.gate_update_queue@.len() ==> self.gate_event_wf(
                #[trigger] self.gate_update_queue@[i],
            )
    }

    /// A queued lump event targets a live lump of the event's width,
    /// and its sender is a live output pin bound to that lump.
    pub open spec fn lump_event_wf(&self, e: LumpUpdateEvent) -> bool {
        &&& self.lumps@.contains_key(e.target_lump_id)
        &&& self.lumps@[e.target_lump_id].value@.len() == e.bits@.len()
        &&& self.pins@.contains_key(e.sender_pin_id)
        &&& self.pins@[e.sender_pin_id].pin_type == PinType::OUT
        &&& self.pins@[e.sender_pin_id].lump_id == Some(e.target_lump_id)
    }

    pub open spec fn wf_lump_queue(&self) -> bool {
        forall|i: int|
            0 <= i < self.lump_update_queue@.len() ==> self.lump_event_wf(
                #[trigger] self.lump_update_queue@[i],
            )
    }

    /// Well-formedness of the whole store: consistent ids, a
    /// consistent netlist, and every queued event aimed at a live
    /// entity of the right width.
    pub open spec fn wf(&self) -> bool {
        &&& self.wf_ids()
        &&& self.wf_pins()
        &&& self.wf_lumps()
        &&& self.wf_gates()
        &&& self.wf_pin_queue()
        &&& self.wf_gate_queue()
        &&& self.wf_lump_queue()
    }

    /// Both secondary queues are drained; this holds whenever control
    /// is outside the engine.
    pub open spec fn quiet(&self) -> bool {
        self.gate_update_queue@.len() == 0 && self.lump_update_queue@.len() == 0
    }

    /// An empty store: no entities, no pending events, clock at 0.
    pub fn new() -> (cm: ComponentManager)
        ensures
            cm.wf(),
            cm.quiet(),
            cm.counter == 0,
            cm.current_sim_time == 0,
            cm.pins@ == Map::<usize, Pin>::empty(),
            cm.lumps@ == Map::<usize, Lump>::empty(),
            cm.gates@ == Map::<usize, GenericGate>::empty(),
            cm.pin_update_queue@.len() == 0,
    {
        ComponentManager {
            counter: 0,
            current_sim_time: 0,
            component_library: ComponentLibrary::new(),
            pin_update_queue: Vec::new(),
            gate_update_queue: Vec::new(),
            lump_update_queue: Vec::new(),
            pins: HashMap::new(),
            lumps: HashMap::new(),
            gates: HashMap::new(),
        }
    }

    /// Allocate the next id from the shared counter.
    fn get_id(&mut self) -> (id: usize)
        requires
            old(self).counter < usize::MAX,
        ensures
            id == old(self).counter + 1,
            *final(self) == (ComponentManager { counter: id, ..*old(self) }),
    {
        self.counter = self.counter + 1;
        self.counter
    }

    /// Allocate a fresh pin owned by `gate_id` and store it.
    fn create_pin(&mut self, gate_id: usize, n: usize, pin_type: PinType) -> (id: usize)
        requires
            old(self).counter < usize::MAX,
        ensures
            id == old(self).counter + 1,
            pin_created(old(self), final(self), id, gate_id, n, pin_type),
    {
        let id = self.get_id();
        let p = Pin::new(id, gate_id, n, pin_type);
        self.pins.insert(id, p);
        id
    }

    /// Store a fully constructed gate under its id.
    fn accept_gate(&mut self, gate: GenericGate) -> (id: usize)
        ensures
            id == gate.id,
            final(self).gates@ == old(self).gates@.insert(gate.id, gate),
            final(self).pins == old(self).pins,
            final(self).lumps == old(self).lumps,
            final(self).counter == old(self).counter,
            final(self).current_sim_time == old(self).current_sim_time,
            final(self).component_library == old(self).component_library,
            final(self).pin_update_queue@ == old(self).pin_update_queue@,
            final(self).gate_update_queue@ == old(self).gate_update_queue@,
            final(self).lump_update_queue@ == old(self).lump_update_queue@,
    {
        let id = gate.id;
        self.gates.insert(id, gate);
        id
    }

    /// Store a fully constructed lump under its id.
    fn accept_lump(&mut self, lump: Lump) -> (id: usize)
        ensures
            id == lump.id,
            final(self).lumps@ == old(self).lumps@.insert(lump.id, lump),
            final(self).pins == old(self).pins,
            final(self).gates == old(self).gates,
            final(self).counter == old(self).counter,
            final(self).current_sim_time == old(self).current_sim_time,
            final(self).component_library == old(self).component_library,
            final(self).pin_update_queue@ == old(self).pin_update_queue@,
            final(self).gate_update_queue@ == old(self).gate_update_queue@,
            final(self).lump_update_queue@ == old(self).lump_update_queue@,
    {
        let id = lump.id;
        self.lumps.insert(id, lump);
        id
    }

    /// Create an unconnected lump of width `n` and return its id.
    pub fn create_lump(&mut self, n: usize) -> (id: usize)
        requires
            old(self).wf(),
            old(self).counter < usize::MAX,
        ensures
            final(self).wf(),
            id == old(self).counter + 1,
            final(self).counter == id,
            final(self).lumps@ == old(self).lumps@.insert(id, final(self).lumps@[id]),
            final(self).lumps@.contains_key(id),
            final(self).lumps@[id].id == id,
            final(self).lumps@[id].pin_ids@.len() == 0,
            final(self).lumps@[id].value@.len() == n,
            forall|i: int| 0 <= i < n ==> final(self).lumps@[id].value@[i] == LV::Z,
            final(self).pins == old(self).pins,
            final(self).gates == old(self).gates,
            final(self).current_sim_time == old(self).current_sim_time,
            final(self).component_library == old(self).component_library,
            final(self).pin_update_queue@ == old(self).pin_update_queue@,
            final(self).gate_update_queue@ == old(self).gate_update_queue@,
            final(self).lump_update_queue@ == old(self).lump_update_queue@,
    {
        let id = self.get_id();
        let lump = Lump::new(id, n);
        let r = self.accept_lump(lump);
        proof {
            let pre = *old(self);
            assert(!pre.lumps@.contains_key(id as usize));
            assert(lumps_shape_extended(&pre, self));
            lemma_wf_entities_extend(&pre, self);
            lemma_wf_events_extend(&pre, self);
            assert forall|k: usize| #[trigger] self.lumps@.contains_key(k) implies self.lump_wf(
                self.lumps@[k],
            ) by {
                if k == id {
                    assert(self.lumps@[k].pin_ids@.len() == 0);
                } else {
                    assert(pre.lumps@.contains_key(k));
                }
            }
            lemma_pin_queue_wf_carry(&pre, self);
            lemma_gate_queue_wf_carry(&pre, self);
            lemma_lump_queue_wf_carry(&pre, self);
            assert(self.wf());
        }
        r
    }

    /// The current value of the pin `pin_id`; the id must name a live
    /// pin.
    pub fn get_pin_value(&self, pin_id: &usize) -> (r: Bits)
        requires
            self.has_pin(*pin_id),
        ensures
            r@ == self.pin(*pin_id).value@,
    {
        self.pins.get(pin_id).unwrap().value.clone()
    }

    /// The current value of the lump `lump_id`; the id must name a
    /// live lump.
    pub fn get_lump_value(&self, lump_id: &usize) -> (r: Bits)
        requires
            self.has_lump(*lump_id),
        ensures
            r@ == self.lump(*lump_id).value@,
    {
        self.lumps.get(lump_id).unwrap().value.clone()
    }
}

/// A fresh pin with id `id` was the only change from `pre` to
/// `post`: the counter moved to `id` and the pin map gained the
/// described record.
pub open spec fn pin_created(
    pre: &ComponentManager,
    post: &ComponentManager,
    id: usize,
    gate_id: usize,
    n: usize,
    pt: PinType,
) -> bool {
    &&& id == pre.counter + 1
    &&& post.counter == id
    &&& post.pins@ == pre.pins@.insert(id, post.pins@[id])
    &&& post.pins@.contains_key(id)
    &&& fresh_pin_rec(post.pins@[id], id, gate_id, n, pt)
    &&& post.lumps == pre.lumps
    &&& post.gates == pre.gates
    &&& post.current_sim_time == pre.current_sim_time
    &&& post.component_library == pre.component_library
    &&& post.pin_update_queue@ == pre.pin_update_queue@
    &&& post.gate_update_queue@ == pre.gate_update_queue@
    &&& post.lump_update_queue@ == pre.lump_update_queue@
}

/// `p` is a freshly created pin: carries `id`, belongs to `gate_id`,
/// is unbound, has the given type, and is all-`Z` at width `n`.
pub open spec fn fresh_pin_rec(p: Pin, id: usize, gate_id: usize, n: usize, pt: PinType) -> bool {
    &&& p.id == id
    &&& p.gate_id == gate_id
    &&& p.lump_id is None
    &&& p.pin_type == pt
    &&& p.value@.len() == n
    &&& forall|i: int| 0 <= i < n ==> p.value@[i] == LV::Z
}

/// The number of input pins a gate of this kind owns.
pub open spec fn gate_in_arity(kind: GateKind) -> int {
    match kind {
        GateKind::And => 2,
        GateKind::Or => 2,
        GateKind::Not => 1,
    }
}

/// `g` is a gate of kind `kind` freshly built in `post` out of `pre`:
/// it owns id `gid`, its input pins got the ids right after `gid` and
/// its single output pin the next one, all of width 1, and nothing
/// else of the store moved.
pub open spec fn gate_created(
    pre: &ComponentManager,
    post: &ComponentManager,
    g: GenericGate,
    kind: GateKind,
    gid: usize,
) -> bool {
    let nin = gate_in_arity(kind);
    &&& gid == pre.counter + 1
    &&& g.id == gid
    &&& g.update_logic == kind
    &&& g.gpio.gate_id == gid
    &&& g.gpio.inout_pins@.len() == 0
    &&& g.gpio.in_pins@.len() == nin
    &&& forall|i: int| 0 <= i < nin ==> g.gpio.in_pins@[i] == gid + 1 + i
    &&& g.gpio.out_pins@.len() == 1
    &&& g.gpio.out_pins@[0] == gid + 1 + nin
    &&& post.counter == gid + 1 + nin
    &&& forall|k: usize|
        #[trigger] pre.pins@.contains_key(k) ==> post.pins@.contains_key(k) && post.pins@[k]
            == pre.pins@[k]
    &&& forall|k: usize|
        #[trigger] post.pins@.contains_key(k) ==> pre.pins@.contains_key(k) || (gid < k <= gid + 1
            + nin)
    &&& post.pins@.contains_key((gid + 1) as usize)
    &&& fresh_pin_rec(post.pins@[(gid + 1) as usize], (gid + 1) as usize, gid, 1, PinType::IN)
    &&& nin == 2 ==> post.pins@.contains_key((gid + 2) as usize) && fresh_pin_rec(
        post.pins@[(gid + 2) as usize],
        (gid + 2) as usize,
        gid,
        1,
        PinType::IN,
    )
    &&& post.pins@.contains_key((gid + 1 + nin) as usize)
    &&& fresh_pin_rec(
        post.pins@[(gid + 1 + nin) as usize],
        (gid + 1 + nin) as usize,
        gid,
        1,
        PinType::OUT,
    )
    &&& post.lumps == pre.lumps
    &&& post.gates == pre.gates
    &&& post.current_sim_time == pre.current_sim_time
    &&& post.component_library == pre.component_library
    &&& post.pin_update_queue@ == pre.pin_update_queue@
    &&& post.gate_update_queue@ == pre.gate_update_queue@
    &&& post.lump_update_queue@ == pre.lump_update_queue@
}

/// The outcome of a successful `create_gate`: a gate as described by
/// [`gate_created`], stored in its map under `gid`.
pub open spec fn gate_constructed(
    pre: &ComponentManager,
    post: &ComponentManager,
    kind: GateKind,
    gid: usize,
) -> bool {
    let g = post.gates@[gid];
    &&& post.gates@.contains_key(gid)
    &&& post.gates@ == pre.gates@.insert(gid, g)
    &&& g.id == gid
    &&& g.gpio.gate_id == gid
    &&& g.gpio.inout_pins@.len() == 0
    &&& gid == pre.counter + 1
    &&& post.counter == gid + 1 + gate_in_arity(kind)
    &&& forall|k: usize|
        #[trigger] pre.pins@.contains_key(k) ==> post.pins@.contains_key(k) && post.pins@[k]
            == pre.pins@[k]
    &&& forall|k: usize|
        #[trigger] post.pins@.contains_key(k) ==> pre.pins@.contains_key(k) || (gid < k
            <= post.counter)
    &&& post.pins@.contains_key((gid + 1) as usize)
    &&& fresh_pin_rec(post.pins@[(gid + 1) as usize], (gid + 1) as usize, gid, 1, PinType::IN)
    &&& g.gpio.in_pins@[0] == gid + 1
    &&& gate_in_arity(kind) == 2 ==> post.pins@.contains_key((gid + 2) as usize) && fresh_pin_rec(
        post.pins@[(gid + 2) as usize],
        (gid + 2) as usize,
        gid,
        1,
        PinType::IN,
    ) && g.gpio.in_pins@[1] == gid + 2
    &&& g.gpio.in_pins@.len() == gate_in_arity(kind)
    &&& g.gpio.out_pins@.len() == 1
    &&& g.gpio.out_pins@[0] == gid + 1 + gate_in_arity(kind)
    &&& g.update_logic == kind
    &&& post.pins@.contains_key((gid + 1 + gate_in_arity(kind)) as usize)
    &&& fresh_pin_rec(
        post.pins@[(gid + 1 + gate_in_arity(kind)) as usize],
        (gid + 1 + gate_in_arity(kind)) as usize,
        gid,
        1,
        PinType::OUT,
    )
    &&& post.lumps == pre.lumps
    &&& post.current_sim_time == pre.current_sim_time
    &&& post.component_library == pre.component_library
    &&& post.pin_update_queue@ == pre.pin_update_queue@
    &&& post.gate_update_queue@ == pre.gate_update_queue@
    &&& post.lump_update_queue@ == pre.lump_update_queue@
}

/// From `pre` to `post`, the only change is that pin `pid` and lump
/// `lid` were joined: the pin's binding now names the lump and the
/// lump's member list gained the pin at its end.
pub open spec fn pin_lump_connected(
    pre: &ComponentManager,
    post: &ComponentManager,
    pid: usize,
    lid: usize,
) -> bool {
    &&& post.pins@ == pre.pins@.insert(pid, post.pins@[pid])
    &&& post.pins@.contains_key(pid)
    &&& post.pins@[pid].id == pre.pins@[pid].id
    &&& post.pins@[pid].gate_id == pre.pins@[pid].gate_id
    &&& post.pins@[pid].pin_type == pre.pins@[pid].pin_type
    &&& post.pins@[pid].value@ == pre.pins@[pid].value@
    &&& post.pins@[pid].lump_id == Some(lid)
    &&& post.lumps@ == pre.lumps@.insert(lid, post.lumps@[lid])
    &&& post.lumps@.contains_key(lid)
    &&& post.lumps@[lid].id == pre.lumps@[lid].id
    &&& post.lumps@[lid].value@ == pre.lumps@[lid].value@
    &&& post.lumps@[lid].pin_ids@ == pre.lumps@[lid].pin_ids@.push(pid)
    &&& post.gates == pre.gates
    &&& post.counter == pre.counter
    &&& post.current_sim_time == pre.current_sim_time
    &&& post.component_library == pre.component_library
    &&& post.pin_update_queue@ == pre.pin_update_queue@
    &&& post.gate_update_queue@ == pre.gate_update_queue@
    &&& post.lump_update_queue@ == pre.lump_update_queue@
}

/// From `pre` to `post`, the only change is that pin `pid` and lump
/// `lid` were parted: the pin's binding is cleared and the pin left
/// the lump's member list.
pub open spec fn pin_lump_disconnected(
    pre: &ComponentManager,
    post: &ComponentManager,
    pid: usize,
    lid: usize,
) -> bool {
    &&& post.pins@ == pre.pins@.insert(pid, post.pins@[pid])
    &&& post.pins@.contains_key(pid)
    &&& post.pins@[pid].id == pre.pins@[pid].id
    &&& post.pins@[pid].gate_id == pre.pins@[pid].gate_id
    &&& post.pins@[pid].pin_type == pre.pins@[pid].pin_type
    &&& post.pins@[pid].value@ == pre.pins@[pid].value@
    &&& post.pins@[pid].lump_id is None
    &&& post.lumps@ == pre.lumps@.insert(lid, post.lumps@[lid])
    &&& post.lumps@.contains_key(lid)
    &&& post.lumps@[lid].id == pre.lumps@[lid].id
    &&& post.lumps@[lid].value@ == pre.lumps@[lid].value@
    &&& exists|i: int|
        0 <= i < pre.lumps@[lid].pin_ids@.len() && pre.lumps@[lid].pin_ids@[i] == pid && post.lumps@[lid].pin_ids@
            == pre.lumps@[lid].pin_ids@.remove(i)
    &&& post.gates == pre.gates
    &&& post.counter == pre.counter
    &&& post.current_sim_time == pre.current_sim_time
    &&& post.component_library == pre.component_library
    &&& post.pin_update_queue@ == pre.pin_update_queue@
    &&& post.gate_update_queue@ == pre.gate_update_queue@
    &&& post.lump_update_queue@ == pre.lump_update_queue@
}

impl GPIOHandler {
    /// An empty layout bound to `gate_id`.
    fn new(gate_id: usize) -> (gpio: GPIOHandler)
        ensures
            gpio.gate_id == gate_id,
            gpio.in_pins@.len() == 0,
            gpio.out_pins@.len() == 0,
            gpio.inout_pins@.len() == 0,
    {
        GPIOHandler { gate_id, in_pins: Vec::new(), out_pins: Vec::new(), inout_pins: Vec::new() }
    }

    /// Allocate an input pin of width `n` and append it to the input
    /// list.
    fn add_in(&mut self, n: usize, cm: &mut ComponentManager)
        requires
            old(cm).counter < usize::MAX,
        ensures
            pin_created(
                old(cm),
                final(cm),
                (old(cm).counter + 1) as usize,
                old(self).gate_id,
                n,
                PinType::IN,
            ),
            final(self).in_pins@ == old(self).in_pins@.push((old(cm).counter + 1) as usize),
            final(self).out_pins@ == old(self).out_pins@,
            final(self).inout_pins@ == old(self).inout_pins@,
            final(self).gate_id == old(self).gate_id,
    {
        let id = cm.create_pin(self.gate_id, n, PinType::IN);
        self.in_pins.push(id);
    }

    /// Allocate an output pin of width `n` and append it to the
    /// output list.
    fn add_out(&mut self, n: usize, cm: &mut ComponentManager)
        requires
            old(cm).counter < usize::MAX,
        ensures
            pin_created(
                old(cm),
                final(cm),
                (old(cm).counter + 1) as usize,
                old(self).gate_id,
                n,
                PinType::OUT,
            ),
            final(self).out_pins@ == old(self).out_pins@.push((old(cm).counter + 1) as usize),
            final(self).in_pins@ == old(self).in_pins@,
            final(self).inout_pins@ == old(self).inout_pins@,
            final(self).gate_id == old(self).gate_id,
    {
        let id = cm.create_pin(self.gate_id, n, PinType::OUT);
        self.out_pins.push(id);
    }

    /// Allocate a bidirectional pin of width `n` and append it to the
    /// bidirectional list. Reserved: the built-in library never calls
    /// this, and the engine refuses to drive such a pin.
    #[allow(dead_code)]
    fn add_in_out(&mut self, n: usize, cm: &mut ComponentManager)
        requires
            old(cm).counter < usize::MAX,
        ensures
            pin_created(
                old(cm),
                final(cm),
                (old(cm).counter + 1) as usize,
                old(self).gate_id,
                n,
                PinType::INOUT,
            ),
            final(self).inout_pins@ == old(self).inout_pins@.push((old(cm).counter + 1) as usize),
            final(self).in_pins@ == old(self).in_pins@,
            final(self).out_pins@ == old(self).out_pins@,
            final(self).gate_id == old(self).gate_id,
    {
        let id = cm.create_pin(self.gate_id, n, PinType::INOUT);
        self.inout_pins.push(id);
    }
}

impl GenericGate {
    /// Build a gate of the given kind under the id `id`: create its
    /// pins in order (inputs first, then the output) and record the
    /// logic function.
    fn new(id: usize, update_logic: GateKind, cm: &mut ComponentManager) -> (g: GenericGate)
        requires
            id == old(cm).counter,
            old(cm).counter + 3 <= usize::MAX,
            old(cm).counter > 0,
            forall|k: usize| #[trigger] old(cm).pins@.contains_key(k) ==> k < id,
        ensures
            gate_created(
                &(ComponentManager { counter: (id - 1) as usize, ..*old(cm) }),
                final(cm),
                g,
                update_logic,
                id,
            ),
    {
        let ghost s0 = *old(cm);
        let mut gpio = GPIOHandler::new(id);
        match update_logic {
            GateKind::And | GateKind::Or => {
                gpio.add_in(1, cm);
                let ghost s1 = *cm;
                gpio.add_in(1, cm);
                let ghost s2 = *cm;
                gpio.add_out(1, cm);
                proof {
                    assert forall|k: usize| #[trigger] s0.pins@.contains_key(k) implies
                        cm.pins@.contains_key(k) && cm.pins@[k] == s0.pins@[k] by {
                        assert(k < id);
                        assert(s1.pins@[k] == s0.pins@[k]);
                        assert(s2.pins@[k] == s1.pins@[k]);
                    }
                    assert forall|k: usize| #[trigger] cm.pins@.contains_key(k) implies
                        s0.pins@.contains_key(k) || (id < k <= id + 3) by {
                        if k != id + 3 && k != id + 2 && k != id + 1 {
                            assert(s2.pins@.contains_key(k));
                            assert(s1.pins@.contains_key(k));
                            assert(s0.pins@.contains_key(k));
                        }
                    }
                    assert(cm.pins@[(id + 1) as usize] == s1.pins@[(id + 1) as usize]);
                    assert(cm.pins@[(id + 2) as usize] == s2.pins@[(id + 2) as usize]);
                    assert(gpio.in_pins@ =~= seq![(id + 1) as usize, (id + 2) as usize]);
                    assert(gpio.out_pins@ =~= seq![(id + 3) as usize]);
                }
            },
            GateKind::Not => {
                gpio.add_in(1, cm);
                let ghost s1 = *cm;
                gpio.add_out(1, cm);
                proof {
                    assert forall|k: usize| #[trigger] s0.pins@.contains_key(k) implies
                        cm.pins@.contains_key(k) && cm.pins@[k] == s0.pins@[k] by {
                        assert(k < id);
                        assert(s1.pins@[k] == s0.pins@[k]);
                    }
                    assert forall|k: usize| #[trigger] cm.pins@.contains_key(k) implies
                        s0.pins@.contains_key(k) || (id < k <= id + 2) by {
                        if k != id + 2 && k != id + 1 {
                            assert(s1.pins@.contains_key(k));
                            assert(s0.pins@.contains_key(k));
                        }
                    }
                    assert(cm.pins@[(id + 1) as usize] == s1.pins@[(id + 1) as usize]);
                    assert(gpio.in_pins@ =~= seq![(id + 1) as usize]);
                    assert(gpio.out_pins@ =~= seq![(id + 2) as usize]);
                }
            },
        }
        GenericGate { id, gpio, update_logic }
    }
}

impl ComponentLibrary {
    /// The built-in registry: the gates `and`, `or` and `not`.
    pub fn new() -> (lib: ComponentLibrary) {
        ComponentLibrary {  }
    }

    /// Look the name up and build what it names, allocating a fresh
    /// id and pins in `cm`. Unknown names fail with a descriptive
    /// error and leave the store untouched.
    fn construct_gate(&self, name: &str, cm: &mut ComponentManager) -> (r: Result<
        GenericGate,
        GateNameError,
    >)
        requires
            old(cm).counter + 4 <= usize::MAX,
            forall|k: usize| #[trigger] old(cm).pins@.contains_key(k) ==> k <= old(cm).counter,
        ensures
            name@ == "and"@ ==> (r matches Ok(g) && gate_created(
                old(cm),
                final(cm),
                g,
                GateKind::And,
                (old(cm).counter + 1) as usize,
            )),
            name@ == "or"@ ==> (r matches Ok(g) && gate_created(
                old(cm),
                final(cm),
                g,
                GateKind::Or,
                (old(cm).counter + 1) as usize,
            )),
            name@ == "not"@ ==> (r matches Ok(g) && gate_created(
                old(cm),
                final(cm),
                g,
                GateKind::Not,
                (old(cm).counter + 1) as usize,
            )),
            name@ != "and"@ && name@ != "or"@ && name@ != "not"@ ==> (r matches Err(e) && e.name@
                == name@ && *final(cm) == *old(cm)),
    {
        proof {
            reveal_strlit("and");
            reveal_strlit("or");
            reveal_strlit("not");
            assert("and"@.len() == 3 && "or"@.len() == 2 && "not"@.len() == 3);
            assert("and"@[0] == 'a' && "not"@[0] == 'n');
            assert("and"@ != "or"@ && "and"@ != "not"@ && "or"@ != "not"@);
        }
        let n = name.to_owned();
        let kind: GateKind;
        if n == String::from_str("and") {
            kind = GateKind::And;
        } else if n == String::from_str("or") {
            kind = GateKind::Or;
        } else if n == String::from_str("not") {
            kind = GateKind::Not;
        } else {
            return Err(GateNameError { name: n });
        }
        let ghost pre = *old(cm);
        let id = cm.get_id();
        let ghost mid = *cm;
        let g = GenericGate::new(id, kind, cm);
        proof {
            assert((ComponentManager { counter: (id - 1) as usize, ..mid }) == pre);
            assert(gate_created(&pre, cm, g, kind, id));
        }
        Ok(g)
    }
}

impl ComponentManager {
    /// Build the named gate and store it; its id comes back. Knows
    /// the built-in names `and`, `or` and `not`; any other name fails
    /// with a descriptive error and changes nothing.
    pub fn create_gate(&mut self, name: &str) -> (r: Result<usize, GateNameError>)
        requires
            old(self).wf(),
            old(self).counter + 4 <= usize::MAX,
        ensures
            final(self).wf(),
            name@ == "and"@ ==> (r matches Ok(gid) && gate_constructed(
                old(self),
                final(self),
                GateKind::And,
                gid,
            )),
            name@ == "or"@ ==> (r matches Ok(gid) && gate_constructed(
                old(self),
                final(self),
                GateKind::Or,
                gid,
            )),
            name@ == "not"@ ==> (r matches Ok(gid) && gate_constructed(
                old(self),
                final(self),
                GateKind::Not,
                gid,
            )),
            name@ != "and"@ && name@ != "or"@ && name@ != "not"@ ==> (r matches Err(e) && e.name@
                == name@ && *final(self) == *old(self)),
    {
        let lib = self.component_library;
        match lib.construct_gate(name, self) {
            Ok(gate) => {
                let ghost mid = *self;
                let gid = self.accept_gate(gate);
                proof {
                    self.lemma_create_gate_wf(*old(self), mid, gate, gid);
                }
                Ok(gid)
            },
            Err(e) => Err(e),
        }
    }

    /// After a gate is built out of `pre` and stored, the store is
    /// well formed again and the public construction contract holds.
    proof fn lemma_create_gate_wf(
        &self,
        pre: ComponentManager,
        mid: ComponentManager,
        gate: GenericGate,
        gid: usize,
    )
        requires
            pre.wf(),
            gate_created(&pre, &mid, gate, gate.update_logic, gid),
            self.gates@ == mid.gates@.insert(gate.id, gate),
            self.pins == mid.pins,
            self.lumps == mid.lumps,
            self.counter == mid.counter,
            self.current_sim_time == mid.current_sim_time,
            self.component_library == mid.component_library,
            self.pin_update_queue@ == mid.pin_update_queue@,
            self.gate_update_queue@ == mid.gate_update_queue@,
            self.lump_update_queue@ == mid.lump_update_queue@,
            gid == gate.id,
        ensures
            self.wf(),
            gate_constructed(&pre, self, gate.update_logic, gid),
    {
        let kind = gate.update_logic;
        let nin = gate_in_arity(kind);
        assert(pins_shape_extended(&pre, self));
        assert(lumps_shape_extended(&pre, self));
        assert(gates_extended(&pre, self));
        lemma_wf_entities_extend(&pre, self);
        lemma_wf_events_extend(&pre, self);
        assert forall|k: usize| #[trigger] self.pins@.contains_key(k) implies self.pin_wf(
            self.pins@[k],
        ) by {
            if pre.pins@.contains_key(k) {
            } else {
                assert(gid < k <= gid + 1 + nin);
                assert(fresh_pin_rec(self.pins@[k], k, gid, 1, self.pins@[k].pin_type));
            }
        }
        assert forall|k: usize| #[trigger] self.lumps@.contains_key(k) implies self.lump_wf(
            self.lumps@[k],
        ) by {
            assert(pre.lumps@.contains_key(k));
        }
        assert forall|k: usize| #[trigger] self.gates@.contains_key(k) implies self.gate_wf(
            self.gates@[k],
        ) by {
            if k == gid {
                let g = self.gates@[k];
                assert forall|i: int|
                    0 <= i < g.gpio.in_pins@.len() implies #[trigger] self.gate_in_pin_ok(
                    g,
                    i,
                ) by {
                    assert(g.gpio.in_pins@[i] == gid + 1 + i);
                    assert(fresh_pin_rec(
                        self.pins@[(gid + 1 + i) as usize],
                        (gid + 1 + i) as usize,
                        gid,
                        1,
                        PinType::IN,
                    ));
                }
                assert forall|i: int|
                    0 <= i < g.gpio.out_pins@.len() implies #[trigger] self.gate_out_pin_ok(
                    g,
                    i,
                ) by {
                    assert(g.gpio.out_pins@[0] == gid + 1 + nin);
                    assert(fresh_pin_rec(
                        self.pins@[(gid + 1 + nin) as usize],
                        (gid + 1 + nin) as usize,
                        gid,
                        1,
                        PinType::OUT,
                    ));
                }
            } else {
                assert(pre.gates@.contains_key(k));
            }
        }
        assert forall|k: usize| #[trigger] self.pins@.contains_key(k) implies self.pins@[k].id == k
            && 0 < k <= self.counter by {
            if pre.pins@.contains_key(k) {
                assert(pre.pins@[k].id == k && 0 < k <= pre.counter);
            }
        }
        lemma_pin_queue_wf_carry(&pre, self);
        lemma_gate_queue_wf_carry(&pre, self);
        lemma_lump_queue_wf_carry(&pre, self);
        assert(self.wf());
    }

    /// Deliver a popped pin update to its target pin, and enqueue
    /// whatever the pin asks for. Equal values change nothing at all.
    fn apply_pin_update(&mut self, pin_id: usize, bits: &Bits)
        requires
            old(self).wf(),
            old(self).has_pin(pin_id),
            old(self).pin(pin_id).value@.len() == bits@.len(),
        ensures
            final(self).wf(),
            same_topology(old(self), final(self)),
            pin_update_applied(*old(self), *final(self), pin_id, bits@),
            old(self).pin(pin_id).value@ == bits@ ==> *final(self) == *old(self),
    {
        let is_same = {
            let pv = &self.pins.get(&pin_id).unwrap().value;
            pv == bits
        };
        if is_same {
            return ;
        }
        let mut p = self.pins.get(&pin_id).unwrap().clone();
        proof {
            assert(old(self).pin_wf(old(self).pins@[pin_id]));
        }
        let r = p.accept_update(bits);
        self.pins.insert(pin_id, p);
        match r {
            Some(PinReaction::Gate(e)) => self.schedule_gate_update(e),
            Some(PinReaction::Lump(e)) => self.schedule_lump_update(e),
            None => (),
        }
        proof {
            let pre = *old(self);
            assert(pins_shape_extended(&pre, self));
            assert(lumps_shape_extended(&pre, self));
            assert(gates_extended(&pre, self));
            lemma_wf_entities_extend(&pre, self);
            lemma_wf_events_extend(&pre, self);
            assert forall|k: usize| #[trigger] self.pins@.contains_key(k) implies self.pins@[k].id
                == k && 0 < k <= self.counter by {
                assert(pre.pins@.contains_key(k));
            }
            assert forall|k: usize| #[trigger] self.pins@.contains_key(k) implies self.pin_wf(
                self.pins@[k],
            ) by {
                assert(pre.pins@.contains_key(k));
            }
            lemma_pin_queue_wf_carry(&pre, self);
            assert forall|i: int| 0 <= i
                < self.gate_update_queue@.len() implies self.gate_event_wf(
                #[trigger] self.gate_update_queue@[i],
            ) by {
                if i < pre.gate_update_queue@.len() {
                    assert(pre.gate_event_wf(pre.gate_update_queue@[i]));
                } else {
                    assert(pre.pin_wf(pre.pins@[pin_id]));
                }
            }
            assert forall|i: int| 0 <= i
                < self.lump_update_queue@.len() implies self.lump_event_wf(
                #[trigger] self.lump_update_queue@[i],
            ) by {
                if i < pre.lump_update_queue@.len() {
                    assert(pre.lump_event_wf(pre.lump_update_queue@[i]));
                } else {
                    assert(pre.pin_wf(pre.pins@[pin_id]));
                }
            }
            assert(self.wf());
            assert(self.pins@.dom() =~= pre.pins@.dom());
            assert(same_topology(&pre, self));
        }
    }

    /// Append a gate wakeup to its queue.
    fn schedule_gate_update(&mut self, event: GateUpdateEvent)
        ensures
            final(self).gate_update_queue@ == old(self).gate_update_queue@.push(event),
            final(self).pins == old(self).pins,
            final(self).lumps == old(self).lumps,
            final(self).gates == old(self).gates,
            final(self).counter == old(self).counter,
            final(self).current_sim_time == old(self).current_sim_time,
            final(self).component_library == old(self).component_library,
            final(self).pin_update_queue@ == old(self).pin_update_queue@,
            final(self).lump_update_queue@ == old(self).lump_update_queue@,
    {
        self.gate_update_queue.push(event);
    }

    /// Append a lump broadcast to the lump queue.
    fn schedule_lump_update(&mut self, event: LumpUpdateEvent)
        ensures
            final(self).lump_update_queue@ == old(self).lump_update_queue@.push(event),
            final(self).pins == old(self).pins,
            final(self).lumps == old(self).lumps,
            final(self).gates == old(self).gates,
            final(self).counter == old(self).counter,
            final(self).current_sim_time == old(self).current_sim_time,
            final(self).component_library == old(self).component_library,
            final(self).pin_update_queue@ == old(self).pin_update_queue@,
            final(self).gate_update_queue@ == old(self).gate_update_queue@,
    {
        self.lump_update_queue.push(event);
    }

    /// Schedule a pin update `delay` time units from now. This is the
    /// stimulus entry point, and the engine itself routes every timed
    /// update through it; the landing time saturates at the largest
    /// representable time.
    pub fn schedule_pin_update(&mut self, delay: u64, id: usize, value: Bits)
        requires
            old(self).wf(),
            old(self).has_pin(id),
            old(self).pin(id).value@.len() == value@.len(),
        ensures
            final(self).wf(),
            final(self).pin_update_queue@ == old(self).pin_update_queue@.push(
                PinUpdateEvent {
                    time: sat_add_u64(old(self).current_sim_time, delay),
                    target_pin_id: id,
                    value,
                },
            ),
            final(self).pins == old(self).pins,
            final(self).lumps == old(self).lumps,
            final(self).gates == old(self).gates,
            final(self).counter == old(self).counter,
            final(self).current_sim_time == old(self).current_sim_time,
            final(self).component_library == old(self).component_library,
            final(self).gate_update_queue@ == old(self).gate_update_queue@,
            final(self).lump_update_queue@ == old(self).lump_update_queue@,
    {
        let time = sat_add(self.current_sim_time, delay);
        let pue = PinUpdateEvent { time, target_pin_id: id, value };
        self.pin_update_queue.push(pue);
        proof {
            let pre = *old(self);
            assert(pins_shape_extended(&pre, self));
            assert(lumps_shape_extended(&pre, self));
            assert(gates_extended(&pre, self));
            lemma_wf_entities_extend(&pre, self);
            lemma_wf_events_extend(&pre, self);
            assert forall|i: int| 0 <= i < self.pin_update_queue@.len() implies self.pin_event_wf(
                #[trigger] self.pin_update_queue@[i],
            ) by {
                if i < pre.pin_update_queue@.len() {
                    assert(pre.pin_event_wf(pre.pin_update_queue@[i]));
                } else {
                    assert(self.pin_update_queue@[i] == pue);
                }
            }
            lemma_gate_queue_wf_carry(&pre, self);
            lemma_lump_queue_wf_carry(&pre, self);
            assert(self.wf());
        }
    }

    /// Join a pin and a lump: the pin must be unbound (rebinding
    /// demands a disconnect first) and of the lump's width, and an
    /// output pin may only join a wire that has no driver yet.
    /// Multi-driver wiring is excluded on purpose: conflict
    /// resolution over a wire with several drivers is reserved for a
    /// future design, and without it two drivers broadcasting
    /// disagreeing values can keep a zero-delay cascade oscillating
    /// within one timestamp, which would forfeit the engine's proved
    /// termination. When either id is dead, a descriptive error
    /// names the missing one(s) and nothing changes.
    pub fn connect_pin_to_lump(&mut self, pin_id: &usize, lump_id: &usize) -> (r: Result<
        (),
        ConnectError,
    >)
        requires
            old(self).wf(),
            old(self).has_pin(*pin_id) && old(self).has_lump(*lump_id) ==> {
                &&& old(self).pin(*pin_id).lump_id is None
                &&& old(self).pin(*pin_id).value@.len() == old(self).lump(*lump_id).value@.len()
                &&& (old(self).pin(*pin_id).pin_type == PinType::OUT ==> forall|i: int|
                    0 <= i < old(self).lump(*lump_id).pin_ids@.len() ==> old(self).pin(
                        #[trigger] old(self).lump(*lump_id).pin_ids@[i],
                    ).pin_type != PinType::OUT)
            },
        ensures
            final(self).wf(),
            old(self).has_pin(*pin_id) && old(self).has_lump(*lump_id) ==> r is Ok
                && pin_lump_connected(old(self), final(self), *pin_id, *lump_id),
            !(old(self).has_pin(*pin_id) && old(self).has_lump(*lump_id)) ==> (r matches Err(e)
                && e.pin_id == *pin_id && e.lump_id == *lump_id && e.pin_missing == !old(
                self,
            ).has_pin(*pin_id) && e.lump_missing == !old(self).has_lump(*lump_id) && *final(self)
                == *old(self)),
    {
        let pin_exists = self.pins.contains_key(pin_id);
        let lump_exists = self.lumps.contains_key(lump_id);
        if pin_exists && lump_exists {
            let mut p = self.pins.get(pin_id).unwrap().clone();
            p.connect(lump_id);
            self.pins.insert(*pin_id, p);
            let mut l = self.lumps.get(lump_id).unwrap().clone();
            proof {
                if l.pin_ids@.contains(*pin_id) {
                    let i = choose|i: int| 0 <= i < l.pin_ids@.len() && l.pin_ids@[i] == *pin_id;
                    assert(old(self).lump_wf(old(self).lumps@[*lump_id]));
                    assert(old(self).pins@[old(self).lumps@[*lump_id].pin_ids@[i]].lump_id
                        == Some(*lump_id));
                }
            }
            l.connect(pin_id);
            self.lumps.insert(*lump_id, l);
            proof {
                self.lemma_connect_wf(*old(self), *pin_id, *lump_id);
            }
            Ok(())
        } else {
            Err(
                ConnectError {
                    pin_id: *pin_id,
                    lump_id: *lump_id,
                    pin_missing: !pin_exists,
                    lump_missing: !lump_exists,
                },
            )
        }
    }

    /// After a connect, the store is well formed again.
    proof fn lemma_connect_wf(&self, pre: ComponentManager, pid: usize, lid: usize)
        requires
            pre.wf(),
            pre.has_pin(pid),
            pre.has_lump(lid),
            pre.pin(pid).lump_id is None,
            pre.pin(pid).value@.len() == pre.lump(lid).value@.len(),
            pre.pin(pid).pin_type == PinType::OUT ==> forall|i: int|
                0 <= i < pre.lump(lid).pin_ids@.len() ==> pre.pin(
                    #[trigger] pre.lump(lid).pin_ids@[i],
                ).pin_type != PinType::OUT,
            pin_lump_connected(&pre, self, pid, lid),
        ensures
            self.wf(),
    {
        let post = *self;
        let oldmem = pre.lumps@[lid].pin_ids@;
        let newmem = post.lumps@[lid].pin_ids@;
        assert(newmem == oldmem.push(pid));
        assert(newmem[newmem.len() - 1] == pid);
        // the pin was a member of no lump before
        assert forall|k: usize, i: int|
            pre.lumps@.contains_key(k) && 0 <= i < pre.lumps@[k].pin_ids@.len() implies #[trigger] pre.lumps@[k].pin_ids@[i]
                != pid by {
            assert(pre.lump_wf(pre.lumps@[k]));
            if pre.lumps@[k].pin_ids@[i] == pid {
                assert(pre.pins@[pid].lump_id == Some(k));
            }
        }
        assert forall|k: usize| #[trigger] post.pins@.contains_key(k) implies post.pins@[k].id == k
            && 0 < k <= post.counter by {
            assert(pre.pins@.contains_key(k));
        }
        assert forall|k: usize| #[trigger] post.lumps@.contains_key(k) implies post.lumps@[k].id
            == k && 0 < k <= post.counter by {
            assert(pre.lumps@.contains_key(k));
        }
        assert forall|k: usize| #[trigger] post.gates@.contains_key(k) implies post.gates@[k].id
            == k && 0 < k <= post.counter by {
            assert(pre.gates@.contains_key(k));
        }
        assert forall|k: usize| #[trigger] post.pins@.contains_key(k) implies post.pin_wf(
            post.pins@[k],
        ) by {
            assert(pre.pins@.contains_key(k));
            assert(pre.pin_wf(pre.pins@[k]));
            if k == pid {
                assert(newmem.contains(pid));
            } else {
                let p = pre.pins@[k];
                assert(post.pins@[k] == p);
                match p.lump_id {
                    Some(m) => {
                        assert(pre.lumps@.contains_key(m));
                        if m == lid {
                            let i = choose|i: int|
                                0 <= i < oldmem.len() && oldmem[i] == p.id;
                            assert(newmem[i] == p.id);
                            assert(newmem.contains(p.id));
                        } else {
                            assert(post.lumps@[m] == pre.lumps@[m]);
                        }
                    },
                    None => {},
                }
            }
        }
        assert forall|k: usize| #[trigger] post.lumps@.contains_key(k) implies post.lump_wf(
            post.lumps@[k],
        ) by {
            assert(pre.lumps@.contains_key(k));
            assert(pre.lump_wf(pre.lumps@[k]));
            if k == lid {
                let l1 = post.lumps@[lid];
                assert forall|i: int| 0 <= i < l1.pin_ids@.len() implies {
                    &&& post.pins@.contains_key(#[trigger] l1.pin_ids@[i])
                    &&& post.pins@[l1.pin_ids@[i]].lump_id == Some(l1.id)
                    &&& post.pins@[l1.pin_ids@[i]].value@.len() == l1.value@.len()
                } by {
                    if i < oldmem.len() {
                        assert(l1.pin_ids@[i] == oldmem[i]);
                        assert(oldmem[i] != pid);
                        assert(post.pins@[oldmem[i]] == pre.pins@[oldmem[i]]);
                    } else {
                        assert(l1.pin_ids@[i] == pid);
                    }
                }
                assert forall|i: int, j: int|
                    0 <= i < j < l1.pin_ids@.len() implies #[trigger] l1.pin_ids@[i]
                    != #[trigger] l1.pin_ids@[j] by {
                    if j < oldmem.len() {
                    } else {
                        assert(l1.pin_ids@[j] == pid);
                        assert(oldmem[i] != pid);
                    }
                }
                assert forall|i: int, j: int|
                    #![trigger l1.pin_ids@[i], l1.pin_ids@[j]]
                    0 <= i < l1.pin_ids@.len() && 0 <= j < l1.pin_ids@.len()
                        && post.pins@[l1.pin_ids@[i]].pin_type == PinType::OUT
                        && post.pins@[l1.pin_ids@[j]].pin_type == PinType::OUT implies i == j by {
                    if i != j {
                        let a = if i < j { i } else { j };
                        let b = if i < j { j } else { i };
                        // both indices cannot carry output pins
                        if b < oldmem.len() {
                            assert(pre.pins@[oldmem[a]].pin_type == PinType::OUT);
                            assert(pre.pins@[oldmem[b]].pin_type == PinType::OUT);
                        } else {
                            assert(l1.pin_ids@[b] == pid);
                            assert(post.pins@[pid].pin_type == pre.pins@[pid].pin_type);
                            assert(pre.pins@[pid].pin_type == PinType::OUT);
                            assert(pre.pins@[oldmem[a]].pin_type == PinType::OUT);
                            assert(pre.pin(oldmem[a]).pin_type != PinType::OUT);
                        }
                    }
                }
            } else {
                let l1 = post.lumps@[k];
                assert(l1 == pre.lumps@[k]);
                assert forall|i: int| 0 <= i < l1.pin_ids@.len() implies {
                    &&& post.pins@.contains_key(#[trigger] l1.pin_ids@[i])
                    &&& post.pins@[l1.pin_ids@[i]].lump_id == Some(l1.id)
                    &&& post.pins@[l1.pin_ids@[i]].value@.len() == l1.value@.len()
                } by {
                    assert(l1.pin_ids@[i] != pid);
                    assert(post.pins@[l1.pin_ids@[i]] == pre.pins@[l1.pin_ids@[i]]);
                }
                assert forall|i: int, j: int|
                    #![trigger l1.pin_ids@[i], l1.pin_ids@[j]]
                    0 <= i < l1.pin_ids@.len() && 0 <= j < l1.pin_ids@.len()
                        && post.pins@[l1.pin_ids@[i]].pin_type == PinType::OUT
                        && post.pins@[l1.pin_ids@[j]].pin_type == PinType::OUT implies i == j by {
                    assert(l1.pin_ids@[i] != pid);
                    assert(l1.pin_ids@[j] != pid);
                    assert(pre.pins@[l1.pin_ids@[i]].pin_type == PinType::OUT);
                    assert(pre.pins@[l1.pin_ids@[j]].pin_type == PinType::OUT);
                }
            }
        }
        assert forall|k: usize| #[trigger] post.gates@.contains_key(k) implies post.gate_wf(
            post.gates@[k],
        ) by {
            let g = pre.gates@[k];
            assert(pre.gate_wf(g));
            assert(post.gates@[k] == g);
            assert forall|i: int|
                0 <= i < g.gpio.in_pins@.len() implies #[trigger] post.gate_in_pin_ok(g, i) by {
                assert(pre.gate_in_pin_ok(g, i));
                let q = g.gpio.in_pins@[i];
                assert(pre.pins@.contains_key(q));
            }
            assert forall|i: int|
                0 <= i < g.gpio.out_pins@.len() implies #[trigger] post.gate_out_pin_ok(g, i) by {
                assert(pre.gate_out_pin_ok(g, i));
                let q = g.gpio.out_pins@[i];
                assert(pre.pins@.contains_key(q));
            }
        }
        assert forall|i: int| 0 <= i < post.pin_update_queue@.len() implies post.pin_event_wf(
            #[trigger] post.pin_update_queue@[i],
        ) by {
            assert(pre.pin_event_wf(pre.pin_update_queue@[i]));
            assert(pre.pins@.contains_key(pre.pin_update_queue@[i].target_pin_id));
        }
        assert forall|i: int| 0 <= i < post.gate_update_queue@.len() implies post.gate_event_wf(
            #[trigger] post.gate_update_queue@[i],
        ) by {
            assert(pre.gate_event_wf(pre.gate_update_queue@[i]));
        }
        assert forall|i: int| 0 <= i < post.lump_update_queue@.len() implies post.lump_event_wf(
            #[trigger] post.lump_update_queue@[i],
        ) by {
            assert(pre.lump_event_wf(pre.lump_update_queue@[i]));
            let e = pre.lump_update_queue@[i];
            assert(pre.pins@.contains_key(e.sender_pin_id));
            assert(e.sender_pin_id != pid);
        }
        assert(self.wf());
    }

    /// Part a pin from the lump it is bound to. The call pairs the
    /// pin's unbinding with its removal from the lump's member list;
    /// when either id is dead, nothing changes.
    pub fn disconnect_pin_from_lump(&mut self, pin_id: &usize, lump_id: &usize)
        requires
            old(self).wf(),
            old(self).quiet(),
            old(self).has_pin(*pin_id) && old(self).has_lump(*lump_id) ==> old(self).pin(
                *pin_id,
            ).lump_id == Some(*lump_id),
        ensures
            final(self).wf(),
            final(self).quiet(),
            old(self).has_pin(*pin_id) && old(self).has_lump(*lump_id)
                ==> pin_lump_disconnected(old(self), final(self), *pin_id, *lump_id),
            !(old(self).has_pin(*pin_id) && old(self).has_lump(*lump_id)) ==> *final(self) == *old(
                self,
            ),
    {
        let pin_exists = self.pins.contains_key(pin_id);
        let lump_exists = self.lumps.contains_key(lump_id);
        if pin_exists && lump_exists {
            let mut p = self.pins.get(pin_id).unwrap().clone();
            p.disconnect();
            self.pins.insert(*pin_id, p);
            let mut l = self.lumps.get(lump_id).unwrap().clone();
            proof {
                assert(old(self).lump_wf(old(self).lumps@[*lump_id]));
                assert(old(self).pin_wf(old(self).pins@[*pin_id]));
                assert(l.pin_ids@.contains(*pin_id));
            }
            l.disconnect(pin_id);
            self.lumps.insert(*lump_id, l);
            proof {
                self.lemma_disconnect_wf(*old(self), *pin_id, *lump_id);
            }
        }
    }

    /// After a disconnect, the store is well formed again.
    proof fn lemma_disconnect_wf(&self, pre: ComponentManager, pid: usize, lid: usize)
        requires
            pre.wf(),
            pre.quiet(),
            pre.has_pin(pid),
            pre.has_lump(lid),
            pre.pin(pid).lump_id == Some(lid),
            pin_lump_disconnected(&pre, self, pid, lid),
            self.gate_update_queue@ == pre.gate_update_queue@,
            self.lump_update_queue@ == pre.lump_update_queue@,
        ensures
            self.wf(),
    {
        let post = *self;
        let oldmem = pre.lumps@[lid].pin_ids@;
        let newmem = post.lumps@[lid].pin_ids@;
        let ix = choose|i: int|
            0 <= i < oldmem.len() && oldmem[i] == pid && newmem == oldmem.remove(i);
        assert(newmem == oldmem.remove(ix));
        // a pin is a member of the one lump it is bound to, so `pid`
        // sat nowhere else and occurs only once in `oldmem`
        assert forall|j: int| 0 <= j < newmem.len() implies #[trigger] newmem[j] != pid by {
            assert(pre.lump_wf(pre.lumps@[lid]));
            if j < ix {
                if oldmem[j] == pid {
                    assert(oldmem[j] == oldmem[ix]);
                }
            } else {
                if oldmem[j + 1] == pid {
                    assert(oldmem[j + 1] == oldmem[ix]);
                }
            }
        }
        assert forall|k: usize| #[trigger] post.pins@.contains_key(k) implies post.pins@[k].id == k
            && 0 < k <= post.counter by {
            assert(pre.pins@.contains_key(k));
        }
        assert forall|k: usize| #[trigger] post.lumps@.contains_key(k) implies post.lumps@[k].id
            == k && 0 < k <= post.counter by {
            assert(pre.lumps@.contains_key(k));
        }
        assert forall|k: usize| #[trigger] post.gates@.contains_key(k) implies post.gates@[k].id
            == k && 0 < k <= post.counter by {
            assert(pre.gates@.contains_key(k));
        }
        assert forall|k: usize| #[trigger] post.pins@.contains_key(k) implies post.pin_wf(
            post.pins@[k],
        ) by {
            assert(pre.pins@.contains_key(k));
            assert(pre.pin_wf(pre.pins@[k]));
            if k != pid {
                let p = pre.pins@[k];
                assert(post.pins@[k] == p);
                match p.lump_id {
                    Some(m) => {
                        assert(pre.lumps@.contains_key(m));
                        if m == lid {
                            assert(pre.lump_wf(pre.lumps@[lid]));
                            let i = choose|i: int|
                                0 <= i < oldmem.len() && oldmem[i] == p.id;
                            assert(p.id != pid);
                            assert(i != ix);
                            if i < ix {
                                assert(newmem[i] == p.id);
                            } else {
                                assert(newmem[i - 1] == oldmem[i]);
                            }
                            assert(newmem.contains(p.id));
                        } else {
                            assert(post.lumps@[m] == pre.lumps@[m]);
                        }
                    },
                    None => {},
                }
            }
        }
        assert forall|k: usize| #[trigger] post.lumps@.contains_key(k) implies post.lump_wf(
            post.lumps@[k],
        ) by {
            assert(pre.lumps@.contains_key(k));
            assert(pre.lump_wf(pre.lumps@[k]));
            if k == lid {
                let l1 = post.lumps@[lid];
                assert forall|i: int| 0 <= i < l1.pin_ids@.len() implies {
                    &&& post.pins@.contains_key(#[trigger] l1.pin_ids@[i])
                    &&& post.pins@[l1.pin_ids@[i]].lump_id == Some(l1.id)
                    &&& post.pins@[l1.pin_ids@[i]].value@.len() == l1.value@.len()
                } by {
                    let oi = if i < ix { i } else { i + 1 };
                    assert(l1.pin_ids@[i] == oldmem[oi]);
                    assert(oldmem[oi] != pid);
                    assert(post.pins@[oldmem[oi]] == pre.pins@[oldmem[oi]]);
                }
                assert forall|i: int, j: int|
                    0 <= i < j < l1.pin_ids@.len() implies #[trigger] l1.pin_ids@[i]
                    != #[trigger] l1.pin_ids@[j] by {
                    let oi = if i < ix { i } else { i + 1 };
                    let oj = if j < ix { j } else { j + 1 };
                    assert(l1.pin_ids@[i] == oldmem[oi]);
                    assert(l1.pin_ids@[j] == oldmem[oj]);
                }
                assert forall|i: int, j: int|
                    #![trigger l1.pin_ids@[i], l1.pin_ids@[j]]
                    0 <= i < l1.pin_ids@.len() && 0 <= j < l1.pin_ids@.len()
                        && post.pins@[l1.pin_ids@[i]].pin_type == PinType::OUT
                        && post.pins@[l1.pin_ids@[j]].pin_type == PinType::OUT implies i == j by {
                    let oi = if i < ix { i } else { i + 1 };
                    let oj = if j < ix { j } else { j + 1 };
                    assert(l1.pin_ids@[i] == oldmem[oi]);
                    assert(l1.pin_ids@[j] == oldmem[oj]);
                    assert(oldmem[oi] != pid && oldmem[oj] != pid);
                    assert(pre.pins@[oldmem[oi]].pin_type == PinType::OUT);
                    assert(pre.pins@[oldmem[oj]].pin_type == PinType::OUT);
                }
            } else {
                let l1 = post.lumps@[k];
                assert(l1 == pre.lumps@[k]);
                assert forall|i: int| 0 <= i < l1.pin_ids@.len() implies {
                    &&& post.pins@.contains_key(#[trigger] l1.pin_ids@[i])
                    &&& post.pins@[l1.pin_ids@[i]].lump_id == Some(l1.id)
                    &&& post.pins@[l1.pin_ids@[i]].value@.len() == l1.value@.len()
                } by {
                    assert(l1.pin_ids@[i] != pid);
                    assert(post.pins@[l1.pin_ids@[i]] == pre.pins@[l1.pin_ids@[i]]);
                }
                assert forall|i: int, j: int|
                    #![trigger l1.pin_ids@[i], l1.pin_ids@[j]]
                    0 <= i < l1.pin_ids@.len() && 0 <= j < l1.pin_ids@.len()
                        && post.pins@[l1.pin_ids@[i]].pin_type == PinType::OUT
                        && post.pins@[l1.pin_ids@[j]].pin_type == PinType::OUT implies i == j by {
                    assert(l1.pin_ids@[i] != pid);
                    assert(l1.pin_ids@[j] != pid);
                    assert(pre.pins@[l1.pin_ids@[i]].pin_type == PinType::OUT);
                    assert(pre.pins@[l1.pin_ids@[j]].pin_type == PinType::OUT);
                }
            }
        }
        assert forall|k: usize| #[trigger] post.gates@.contains_key(k) implies post.gate_wf(
            post.gates@[k],
        ) by {
            let g = pre.gates@[k];
            assert(pre.gate_wf(g));
            assert(post.gates@[k] == g);
            assert forall|i: int|
                0 <= i < g.gpio.in_pins@.len() implies #[trigger] post.gate_in_pin_ok(g, i) by {
                assert(pre.gate_in_pin_ok(g, i));
                assert(pre.pins@.contains_key(g.gpio.in_pins@[i]));
            }
            assert forall|i: int|
                0 <= i < g.gpio.out_pins@.len() implies #[trigger] post.gate_out_pin_ok(g, i) by {
                assert(pre.gate_out_pin_ok(g, i));
                assert(pre.pins@.contains_key(g.gpio.out_pins@[i]));
            }
        }
        assert forall|i: int| 0 <= i < post.pin_update_queue@.len() implies post.pin_event_wf(
            #[trigger] post.pin_update_queue@[i],
        ) by {
            assert(pre.pin_event_wf(pre.pin_update_queue@[i]));
            assert(pre.pins@.contains_key(pre.pin_update_queue@[i].target_pin_id));
        }
        assert(self.wf());
    }

    /// The member pin ids of one of a gate's lists, addressed by
    /// index, joined to a lump; convenience over the pin-level
    /// connect.
    pub fn connect_gate_pin_to_lump(
        &mut self,
        gate_id: &usize,
        pin_idx: &usize,
        pin_type: &PinType,
        lump_id: &usize,
    ) -> (r: Result<(), ConnectError>)
        requires
            old(self).wf(),
            old(self).has_gate(*gate_id),
            *pin_idx < old(self).gate_pin_list(*gate_id, *pin_type).len(),
            old(self).has_lump(*lump_id) ==> {
                let pid = old(self).gate_pin_list(*gate_id, *pin_type)[*pin_idx as int];
                &&& old(self).pin(pid).lump_id is None
                &&& old(self).pin(pid).value@.len() == old(self).lump(*lump_id).value@.len()
                &&& (old(self).pin(pid).pin_type == PinType::OUT ==> forall|i: int|
                    0 <= i < old(self).lump(*lump_id).pin_ids@.len() ==> old(self).pin(
                        #[trigger] old(self).lump(*lump_id).pin_ids@[i],
                    ).pin_type != PinType::OUT)
            },
        ensures
            final(self).wf(),
            ({
                let pid = old(self).gate_pin_list(*gate_id, *pin_type)[*pin_idx as int];
                &&& old(self).has_lump(*lump_id) ==> r is Ok && pin_lump_connected(
                    old(self),
                    final(self),
                    pid,
                    *lump_id,
                )
                &&& !old(self).has_lump(*lump_id) ==> (r matches Err(e) && e.pin_id == pid
                    && e.lump_id == *lump_id && !e.pin_missing && e.lump_missing && *final(self)
                    == *old(self))
            }),
    {
        let pins_v = self.get_gate_pins(gate_id, pin_type);
        let pid = pins_v[*pin_idx];
        proof {
            assert(self.gate_wf(self.gates@[*gate_id]));
            let g = self.gates@[*gate_id];
            match *pin_type {
                PinType::IN => {
                    assert(self.gate_in_pin_ok(g, *pin_idx as int));
                },
                PinType::OUT => {
                    assert(self.gate_out_pin_ok(g, *pin_idx as int));
                },
                PinType::INOUT => {
                    assert(g.gpio.inout_pins@.len() == 0);
                },
            }
            assert(self.has_pin(pid));
        }
        self.connect_pin_to_lump(&pid, lump_id)
    }

    /// Wake one gate: snapshot its input values, run its logic
    /// function, and schedule the requested output update one time
    /// unit ahead. At the very end of representable time the update
    /// would not fit on the clock and is dropped.
    fn handle_gate_event(&mut self, event: &GateUpdateEvent)
        requires
            old(self).wf(),
            old(self).gate_event_wf(*event),
        ensures
            final(self).wf(),
            final(self).pins == old(self).pins,
            final(self).lumps == old(self).lumps,
            final(self).gates == old(self).gates,
            final(self).counter == old(self).counter,
            final(self).current_sim_time == old(self).current_sim_time,
            final(self).component_library == old(self).component_library,
            final(self).gate_update_queue@ == old(self).gate_update_queue@,
            final(self).lump_update_queue@ == old(self).lump_update_queue@,
            ({
                let g = old(self).gates@[event.target_gate_id];
                let res = gate_output(g.update_logic, ins_of(old(self), g));
                &&& old(self).current_sim_time < u64::MAX ==> {
                    &&& final(self).pin_update_queue@ == old(self).pin_update_queue@.push(
                        final(self).pin_update_queue@.last(),
                    )
                    &&& final(self).pin_update_queue@.len() == old(self).pin_update_queue@.len()
                        + 1
                    &&& final(self).pin_update_queue@.last().time == old(self).current_sim_time
                        + 1
                    &&& final(self).pin_update_queue@.last().target_pin_id
                        == g.gpio.out_pins@[0]
                    &&& final(self).pin_update_queue@.last().value@ == res
                }
                &&& old(self).current_sim_time == u64::MAX ==> final(self).pin_update_queue@
                    == old(self).pin_update_queue@
            }),
    {
        let gid = event.target_gate_id;
        proof {
            assert(self.gate_wf(self.gates@[gid]));
        }
        let g = self.gates.get(&gid).unwrap();
        let kind = g.update_logic;
        let out0 = g.gpio.out_pins[0];
        let mut in_values: Vec<Bits> = Vec::new();
        let mut i: usize = 0;
        while i < g.gpio.in_pins.len()
            invariant
                self.wf(),
                self.has_gate(gid),
                *g == self.gates@[gid],
                i <= g.gpio.in_pins@.len(),
                in_values@.len() == i,
                forall|j: int|
                    0 <= j < i ==> #[trigger] in_values@[j]@
                        == self.pins@[g.gpio.in_pins@[j]].value@,
            decreases g.gpio.in_pins@.len() - i,
        {
            proof {
                assert(self.gate_wf(self.gates@[gid]));
                assert(self.gate_in_pin_ok(self.gates@[gid], i as int));
            }
            in_values.push(self.get_pin_value(&g.gpio.in_pins[i]));
            i = i + 1;
        }
        let data = GateUpdateData { in_values, inout_values: Vec::new() };
        proof {
            assert(self.gate_wf(self.gates@[gid]));
            match kind {
                GateKind::And | GateKind::Or => {
                    assert(self.gate_in_pin_ok(self.gates@[gid], 0));
                    assert(self.gate_in_pin_ok(self.gates@[gid], 1));
                },
                GateKind::Not => {
                    assert(self.gate_in_pin_ok(self.gates@[gid], 0));
                },
            }
        }
        let mut updates = kind.run(&data);
        let u = updates.remove(0);
        proof {
            assert(data.in_values@.map_values(|b: Bits| b@) =~= ins_of(self, self.gates@[gid]));
            assert(self.gate_out_pin_ok(self.gates@[gid], 0));
        }
        if self.current_sim_time < u64::MAX {
            self.schedule_pin_update(u.delay, out0, u.bits);
        }
    }

    /// Drain every pending gate wakeup, oldest first. Per wakeup, in
    /// order, exactly one output update is appended to the pin queue,
    /// as [`dispatched_update`] describes; every one lands strictly
    /// in the future, so the weight of the present timestamp's pin
    /// queue does not move.
    fn process_gate_events(&mut self)
        requires
            old(self).wf(),
        ensures
            final(self).wf(),
            gate_queue_drained(*old(self), *final(self)),
            final(self).gate_update_queue@.len() == 0,
            final(self).pins == old(self).pins,
            final(self).lumps == old(self).lumps,
            final(self).gates == old(self).gates,
            final(self).counter == old(self).counter,
            final(self).current_sim_time == old(self).current_sim_time,
            final(self).component_library == old(self).component_library,
            final(self).lump_update_queue@ == old(self).lump_update_queue@,
            final(self).pin_update_queue@.len() >= old(self).pin_update_queue@.len(),
            forall|i: int|
                0 <= i < old(self).pin_update_queue@.len()
                    ==> #[trigger] final(self).pin_update_queue@[i]
                    == old(self).pin_update_queue@[i],
            forall|i: int|
                old(self).pin_update_queue@.len() <= i < final(self).pin_update_queue@.len()
                    ==> #[trigger] final(self).pin_update_queue@[i].time
                    > old(self).current_sim_time,
            pin_queue_phi(final(self), final(self).pin_update_queue@) == pin_queue_phi(
                old(self),
                old(self).pin_update_queue@,
            ),
    {
        let ghost pre = *old(self);
        let ghost glen = pre.gate_update_queue@.len() as int;
        let ghost plen = pre.pin_update_queue@.len() as int;
        while self.gate_update_queue.len() > 0
            invariant
                self.wf(),
                glen == pre.gate_update_queue@.len(),
                plen == pre.pin_update_queue@.len(),
                self.pins == pre.pins,
                self.lumps == pre.lumps,
                self.gates == pre.gates,
                self.counter == pre.counter,
                self.current_sim_time == pre.current_sim_time,
                self.component_library == pre.component_library,
                self.lump_update_queue@ == pre.lump_update_queue@,
                self.gate_update_queue@.len() <= glen,
                self.gate_update_queue@ == pre.gate_update_queue@.subrange(
                    glen - self.gate_update_queue@.len(),
                    glen,
                ),
                pre.current_sim_time < u64::MAX ==> self.pin_update_queue@.len() == plen + (glen
                    - self.gate_update_queue@.len()),
                pre.current_sim_time < u64::MAX ==> (forall|k: int|
                    0 <= k < glen - self.gate_update_queue@.len() ==> dispatched_update(
                        pre,
                        #[trigger] pre.gate_update_queue@[k],
                        self.pin_update_queue@[plen + k],
                    )),
                pre.current_sim_time == u64::MAX ==> self.pin_update_queue@
                    == pre.pin_update_queue@,
                self.pin_update_queue@.len() >= plen,
                forall|i: int|
                    0 <= i < plen ==> #[trigger] self.pin_update_queue@[i]
                        == pre.pin_update_queue@[i],
                forall|i: int|
                    plen <= i < self.pin_update_queue@.len()
                        ==> #[trigger] self.pin_update_queue@[i].time > pre.current_sim_time,
                pin_queue_phi(self, self.pin_update_queue@) == pin_queue_phi(
                    &pre,
                    pre.pin_update_queue@,
                ),
            decreases self.gate_update_queue@.len(),
        {
            let ghost before = *self;
            let ghost j = glen - before.gate_update_queue@.len();
            let event = self.gate_update_queue.remove(0);
            proof {
                assert(before.gate_update_queue@[0] == pre.gate_update_queue@[j]);
                assert(event == pre.gate_update_queue@[j]);
                assert(before.gate_event_wf(before.gate_update_queue@[0]));
                assert forall|i: int|
                    0 <= i < self.gate_update_queue@.len() implies before.gate_event_wf(
                    #[trigger] self.gate_update_queue@[i],
                ) by {
                    assert(self.gate_update_queue@[i] == before.gate_update_queue@[i + 1]);
                }
                lemma_wf_requeue(&before, self);
                assert(self.gate_update_queue@ =~= pre.gate_update_queue@.subrange(
                    j + 1,
                    glen,
                ));
            }
            let ghost mid = *self;
            self.handle_gate_event(&event);
            proof {
                assert(same_topology(&before, &mid));
                lemma_phi_stable(&before, &mid, before.pin_update_queue@);
                assert(same_topology(&mid, self));
                lemma_phi_stable(&mid, self, mid.pin_update_queue@);
                let g = mid.gates@[event.target_gate_id];
                assert(g == pre.gates@[event.target_gate_id]);
                assert(ins_of(&mid, g) =~= ins_of(&pre, g));
                if mid.current_sim_time < u64::MAX {
                    let e = self.pin_update_queue@.last();
                    assert(pin_event_weight(self, e) == 0);
                    lemma_pin_phi_push(self, mid.pin_update_queue@, e);
                    assert(e.time == pre.current_sim_time + 1);
                    assert(e.target_pin_id == g.gpio.out_pins@[0]);
                    assert(e.value@ == gate_output(g.update_logic, ins_of(&pre, g)));
                    assert(dispatched_update(pre, pre.gate_update_queue@[j], e));
                    assert(self.pin_update_queue@[plen + j] == e);
                    assert forall|k: int|
                        0 <= k < glen - self.gate_update_queue@.len() implies dispatched_update(
                        pre,
                        #[trigger] pre.gate_update_queue@[k],
                        self.pin_update_queue@[plen + k],
                    ) by {
                        if k < j {
                            assert(self.pin_update_queue@[plen + k]
                                == mid.pin_update_queue@[plen + k]);
                            assert(dispatched_update(
                                pre,
                                pre.gate_update_queue@[k],
                                mid.pin_update_queue@[plen + k],
                            ));
                        }
                    }
                } else {
                    assert(self.pin_update_queue@ == mid.pin_update_queue@);
                }
                assert(pin_queue_phi(self, self.pin_update_queue@) == pin_queue_phi(
                    &pre,
                    pre.pin_update_queue@,
                ));
            }
        }
        proof {
            assert(pre.gate_update_queue@.subrange(glen, glen) =~= self.gate_update_queue@);
            assert(gate_queue_drained(pre, *self));
        }
    }

    /// Pop the oldest pending broadcast and deliver it to its lump.
    /// An equal value changes nothing; a new value is stored and
    /// forwarded to every member pin except the sender, as immediate
    /// (zero-delay) pin updates, in member order.
    fn apply_lump_update(&mut self)
        requires
            old(self).wf(),
            old(self).lump_update_queue@.len() > 0,
        ensures
            final(self).wf(),
            same_topology(old(self), final(self)),
            lump_step_popped(*old(self), *final(self)),
            pin_queue_phi(final(self), final(self).pin_update_queue@) + lump_queue_phi(
                final(self),
                final(self).lump_update_queue@,
            ) + 1 <= pin_queue_phi(old(self), old(self).pin_update_queue@) + lump_queue_phi(
                old(self),
                old(self).lump_update_queue@,
            ),
    {
        let ghost pre = *old(self);
        proof {
            assert(pre.lump_event_wf(pre.lump_update_queue@[0]));
        }
        let event = self.lump_update_queue.remove(0);
        proof {
            assert forall|i: int|
                0 <= i < self.lump_update_queue@.len() implies pre.lump_event_wf(
                #[trigger] self.lump_update_queue@[i],
            ) by {
                assert(self.lump_update_queue@[i] == pre.lump_update_queue@[i + 1]);
            }
            assert forall|i: int| 0 <= i < self.pin_update_queue@.len() implies pre.pin_event_wf(
                #[trigger] self.pin_update_queue@[i],
            ) by {
                assert(pre.pin_event_wf(pre.pin_update_queue@[i]));
            }
            assert forall|i: int| 0 <= i < self.gate_update_queue@.len() implies pre.gate_event_wf(
                #[trigger] self.gate_update_queue@[i],
            ) by {
                assert(pre.gate_event_wf(pre.gate_update_queue@[i]));
            }
            lemma_wf_requeue(&pre, self);
            lemma_lump_phi_head(&pre, pre.lump_update_queue@);
            assert(pre.lump_update_queue@.drop_first() =~= self.lump_update_queue@);
            assert(lump_event_weight(&pre, pre.lump_update_queue@[0]) >= 1);
        }
        let t = event.target_lump_id;
        let is_same = {
            let lv = &self.lumps.get(&t).unwrap().value;
            lv == &event.bits
        };
        if is_same {
            proof {
                assert(same_topology(&pre, self));
                assert(lump_update_applied(pre, *self, event));
                assert(lump_step_popped(pre, *self));
                lemma_phi_stable(&pre, self, pre.pin_update_queue@);
                lemma_lump_queue_phi_stable(&pre, self, self.lump_update_queue@);
            }
            return ;
        }
        let mut l = self.lumps.get(&t).unwrap().clone();
        let targets_opt = l.accept_update(&event);
        self.lumps.insert(t, l);
        proof {
            assert(pins_shape_extended(&pre, self));
            assert(lumps_shape_extended(&pre, self));
            assert(gates_extended(&pre, self));
            lemma_wf_entities_extend(&pre, self);
            lemma_wf_events_extend(&pre, self);
            assert forall|k: usize| #[trigger] self.lumps@.contains_key(k) implies self.lumps@[k].id
                == k && 0 < k <= self.counter by {
                assert(pre.lumps@.contains_key(k));
            }
            assert forall|k: usize| #[trigger] self.lumps@.contains_key(k) implies self.lump_wf(
                self.lumps@[k],
            ) by {
                assert(pre.lumps@.contains_key(k));
            }
            lemma_pin_queue_wf_carry(&pre, self);
            lemma_gate_queue_wf_carry(&pre, self);
            assert forall|i: int| 0 <= i
                < self.lump_update_queue@.len() implies self.lump_event_wf(
                #[trigger] self.lump_update_queue@[i],
            ) by {
                assert(pre.lump_event_wf(pre.lump_update_queue@[i + 1]));
            }
            assert(self.wf());
            assert(self.lumps@.dom() =~= pre.lumps@.dom());
            assert forall|k: usize| #[trigger] pre.lumps@.contains_key(k) implies lump_same_shape(
                pre.lumps@[k],
                self.lumps@[k],
            ) by {
                if k == t {
                    assert(self.lumps@[t].value@.len() == event.bits@.len());
                    assert(pre.lumps@[t].value@.len() == event.bits@.len());
                }
            }
            assert(same_topology(&pre, self));
            lemma_phi_stable(&pre, self, pre.pin_update_queue@);
        }
        let targets = match targets_opt {
            Some(v) => v,
            None => {
                proof {
                    assert(false);
                }
                Vec::new()
            },
        };
        let ghost base = *self;
        let ghost members = pre.lumps@[t].pin_ids@;
        let ghost sender = event.sender_pin_id;
        let ghost flt = filter_ne(members, sender);
        proof {
            assert(targets@ == flt);
            lemma_filter_ne_props(members, sender);
        }
        let mut i: usize = 0;
        while i < targets.len()
            invariant
                self.wf(),
                i <= targets@.len(),
                targets@ == flt,
                flt == filter_ne(members, sender),
                flt.len() <= members.len(),
                forall|j: int|
                    0 <= j < flt.len() ==> members.contains(#[trigger] flt[j]) && flt[j] != sender,
                self.pins == base.pins,
                self.lumps == base.lumps,
                self.gates == base.gates,
                self.counter == base.counter,
                self.current_sim_time == base.current_sim_time,
                self.component_library == base.component_library,
                self.gate_update_queue@ == base.gate_update_queue@,
                self.lump_update_queue@ == base.lump_update_queue@,
                base.lumps@.contains_key(t),
                base.lumps@[t].pin_ids@ == members,
                base.lumps@[t].value@ == event.bits@,
                base.pins@.contains_key(sender),
                base.pins@[sender].pin_type == PinType::OUT,
                base.pins@[sender].lump_id == Some(t),
                self.pin_update_queue@.len() == base.pin_update_queue@.len() + i,
                forall|j: int|
                    0 <= j < base.pin_update_queue@.len() ==> #[trigger] self.pin_update_queue@[j]
                        == base.pin_update_queue@[j],
                forall|j: int|
                    0 <= j < i ==> {
                        let e = #[trigger] self.pin_update_queue@[base.pin_update_queue@.len()
                            + j];
                        &&& e.time == base.current_sim_time
                        &&& e.target_pin_id == flt[j]
                        &&& e.value@ == event.bits@
                    },
                pin_queue_phi(self, self.pin_update_queue@) <= pin_queue_phi(
                    &base,
                    base.pin_update_queue@,
                ) + 2 * i,
            decreases targets@.len() - i,
        {
            let target = targets[i];
            proof {
                assert(members.contains(flt[i as int]));
                assert(self.lump_wf(self.lumps@[t]));
                let it = choose|w: int| 0 <= w < members.len() && members[w] == target;
                assert(self.pins@.contains_key(target));
                assert(self.pin_wf(self.pins@[target]));
                if self.pins@[target].pin_type == PinType::OUT {
                    assert(self.pin_wf(self.pins@[sender]));
                    assert(self.lumps@[t].pin_ids@.contains(sender));
                    let is_ = choose|w: int| 0 <= w < members.len() && members[w] == sender;
                    assert(self.pins@[members[it]].pin_type == PinType::OUT);
                    assert(self.pins@[members[is_]].pin_type == PinType::OUT);
                    assert(it == is_);
                    assert(false);
                }
                assert(self.pins@[target].pin_type == PinType::IN);
                assert(self.pins@[target].value@.len() == self.lumps@[t].value@.len());
            }
            let ghost qbefore = self.pin_update_queue@;
            let ghost ctxbefore = *self;
            self.schedule_pin_update(0, target, event.bits.clone());
            proof {
                let e = self.pin_update_queue@.last();
                assert(e.time == sat_add_u64(base.current_sim_time, 0));
                assert(e.time == base.current_sim_time);
                assert(same_topology(&ctxbefore, self));
                lemma_phi_stable(&ctxbefore, self, qbefore);
                assert(target_weight(self, target) == 2);
                assert(pin_event_weight(self, e) == 2);
                lemma_pin_phi_push(self, qbefore, e);
            }
            i = i + 1;
        }
        proof {
            assert(flt.len() <= members.len());
            assert(pin_queue_phi(self, self.pin_update_queue@) <= pin_queue_phi(
                &base,
                base.pin_update_queue@,
            ) + 2 * members.len());
            assert(lump_event_weight(&pre, event) == 1 + 2 * members.len());
            assert(same_topology(&pre, self));
            lemma_lump_queue_phi_stable(&pre, self, self.lump_update_queue@);
            assert(self.lump_update_queue@ == pre.lump_update_queue@.drop_first());
            assert(lump_update_applied(pre, *self, event));
            assert(lump_step_popped(pre, *self));
        }
    }

    /// Drain every pending broadcast, oldest first, each delivered
    /// exactly as one [`lump_step_popped`] step. The forwarded
    /// updates land at the present timestamp, but each drained
    /// broadcast weighs more than everything it forwards, so the
    /// total weight of pending same-time work shrinks.
    fn process_lump_events(&mut self)
        requires
            old(self).wf(),
        ensures
            final(self).wf(),
            final(self).lump_update_queue@.len() == 0,
            final(self).pins == old(self).pins,
            final(self).gates == old(self).gates,
            final(self).counter == old(self).counter,
            final(self).current_sim_time == old(self).current_sim_time,
            final(self).component_library == old(self).component_library,
            final(self).gate_update_queue@ == old(self).gate_update_queue@,
            same_topology(old(self), final(self)),
            final(self).pin_update_queue@.len() >= old(self).pin_update_queue@.len(),
            forall|i: int|
                0 <= i < old(self).pin_update_queue@.len()
                    ==> #[trigger] final(self).pin_update_queue@[i]
                    == old(self).pin_update_queue@[i],
            exists|n: nat| lump_queue_delivered(*old(self), *final(self), n),
            pin_queue_phi(final(self), final(self).pin_update_queue@) + lump_queue_phi(
                final(self),
                final(self).lump_update_queue@,
            ) <= pin_queue_phi(old(self), old(self).pin_update_queue@) + lump_queue_phi(
                old(self),
                old(self).lump_update_queue@,
            ),
    {
        let ghost pre = *old(self);
        proof {
            assert(lump_queue_delivered(pre, *self, 0));
        }
        while self.lump_update_queue.len() > 0
            invariant
                self.wf(),
                self.pins == pre.pins,
                self.gates == pre.gates,
                self.counter == pre.counter,
                self.current_sim_time == pre.current_sim_time,
                self.component_library == pre.component_library,
                self.gate_update_queue@ == pre.gate_update_queue@,
                same_topology(&pre, self),
                self.pin_update_queue@.len() >= pre.pin_update_queue@.len(),
                forall|i: int|
                    0 <= i < pre.pin_update_queue@.len() ==> #[trigger] self.pin_update_queue@[i]
                        == pre.pin_update_queue@[i],
                exists|n: nat| lump_queue_delivered(pre, *self, n),
                pin_queue_phi(self, self.pin_update_queue@) + lump_queue_phi(
                    self,
                    self.lump_update_queue@,
                ) <= pin_queue_phi(&pre, pre.pin_update_queue@) + lump_queue_phi(
                    &pre,
                    pre.lump_update_queue@,
                ),
            decreases self.lump_update_queue@.len(),
        {
            let ghost before = *self;
            self.apply_lump_update();
            proof {
                lemma_same_topology_trans(&pre, &before, self);
                let n = choose|n: nat| lump_queue_delivered(pre, before, n);
                lemma_lump_delivered_snoc(pre, before, *self, n);
                assert(lump_queue_delivered(pre, *self, n + 1));
            }
        }
        proof {
            assert(lump_queue_phi(self, self.lump_update_queue@) == 0);
        }
    }

    /// The central loop: pop and deliver pin events at the present
    /// timestamp, draining first all gate wakeups and then all lump broadcasts to
    /// exhaustion after each one, until either nothing is scheduled
    /// (quiescence) or the earliest pending event lies in the future;
    /// then the clock advances to it and control returns to the
    /// driver. The clock never moves backwards; a call that finds
    /// nothing scheduled changes nothing at all; and on return both
    /// secondary queues are empty and everything still pending lies
    /// at the (new) present or later. The whole call is recorded in
    /// the contract as a chain of [`engine_step`]s — pop the first
    /// due update, deliver it, run both drains — ending as
    /// [`engine_returns`] describes.
    pub fn process_pin_events(&mut self)
        requires
            old(self).wf(),
            old(self).quiet(),
        ensures
            final(self).wf(),
            final(self).quiet(),
            same_topology(old(self), final(self)),
            final(self).current_sim_time >= old(self).current_sim_time,
            old(self).pin_update_queue@.len() == 0 ==> *final(self) == *old(self),
            forall|i: int|
                0 <= i < final(self).pin_update_queue@.len()
                    ==> #[trigger] final(self).pin_update_queue@[i].time
                    >= final(self).current_sim_time,
            final(self).pin_update_queue@.len() > 0 ==> final(self).current_sim_time
                > old(self).current_sim_time,
            final(self).pin_update_queue@.len() > 0 ==> exists|i: int|
                0 <= i < final(self).pin_update_queue@.len()
                    && #[trigger] final(self).pin_update_queue@[i].time
                    == final(self).current_sim_time,
            forall|i: int|
                0 <= i < old(self).pin_update_queue@.len()
                    && #[trigger] old(self).pin_update_queue@[i].time
                    > old(self).current_sim_time
                    ==> final(self).pin_update_queue@.contains(old(self).pin_update_queue@[i]),
            exists|mid: ComponentManager, n: nat|
                #![trigger engine_reaches(*old(self), mid, n)]
                engine_reaches(*old(self), mid, n) && engine_returns(mid, *final(self)),
    {
        let ghost pre = *old(self);
        proof {
            assert(engine_reaches(pre, *self, 0));
            assert forall|i: int|
                0 <= i < pre.pin_update_queue@.len()
                    && #[trigger] pre.pin_update_queue@[i].time > pre.current_sim_time
                    implies self.pin_update_queue@.contains(pre.pin_update_queue@[i]) by {
                assert(self.pin_update_queue@[i] == pre.pin_update_queue@[i]);
            }
        }
        loop
            invariant
                pre == *old(self),
                self.wf(),
                self.quiet(),
                same_topology(&pre, self),
                self.current_sim_time == pre.current_sim_time,
                pre.pin_update_queue@.len() == 0 ==> *self == pre,
                forall|i: int|
                    0 <= i < pre.pin_update_queue@.len()
                        && #[trigger] pre.pin_update_queue@[i].time > pre.current_sim_time
                        ==> self.pin_update_queue@.contains(pre.pin_update_queue@[i]),
                exists|n: nat| engine_reaches(pre, *self, n),
            decreases pin_queue_phi(self, self.pin_update_queue@),
        {
            if self.pin_update_queue.len() == 0 {
                proof {
                    let n = choose|n: nat| engine_reaches(pre, *self, n);
                    assert(engine_returns(*self, *self));
                    assert(engine_reaches(pre, *self, n) && engine_returns(*self, *self));
                }
                return ;
            }
            let idx = min_time_index(&self.pin_update_queue);
            let t = self.pin_update_queue[idx].time;
            if t > self.current_sim_time {
                let ghost before = *self;
                self.current_sim_time = t;
                proof {
                    assert forall|i: int|
                        0 <= i < self.pin_update_queue@.len()
                            implies #[trigger] self.pin_update_queue@[i].time
                        >= self.current_sim_time by {
                        assert(before.pin_update_queue@[idx as int].time
                            <= before.pin_update_queue@[i].time);
                    }
                    lemma_wf_advance(&before, self);
                    assert(self.pin_update_queue@[idx as int].time == self.current_sim_time);
                    assert(same_topology(&before, self));
                    lemma_same_topology_trans(&pre, &before, self);
                    assert(*self == (ComponentManager { current_sim_time: t, ..before }));
                    assert(0 <= idx < before.pin_update_queue@.len() && (forall|i: int|
                        0 <= i < before.pin_update_queue@.len()
                            ==> before.pin_update_queue@[idx as int].time
                            <= #[trigger] before.pin_update_queue@[i].time)
                        && before.pin_update_queue@[idx as int].time > before.current_sim_time
                        && *self == (ComponentManager {
                        current_sim_time: before.pin_update_queue@[idx as int].time,
                        ..before
                    }));
                    assert(engine_returns(before, *self));
                    let n = choose|n: nat| engine_reaches(pre, before, n);
                    assert(engine_reaches(pre, before, n) && engine_returns(before, *self));
                }
                return ;
            }
            proof {
                assert(self.pin_event_wf(self.pin_update_queue@[idx as int]));
                assert(t == self.current_sim_time);
            }
            let ghost start = *self;
            let event = self.pin_update_queue.remove(idx);
            proof {
                assert forall|i: int|
                    0 <= i < self.pin_update_queue@.len() implies start.pin_event_wf(
                    #[trigger] self.pin_update_queue@[i],
                ) by {
                    if i < idx {
                        assert(self.pin_update_queue@[i] == start.pin_update_queue@[i]);
                    } else {
                        assert(self.pin_update_queue@[i] == start.pin_update_queue@[i + 1]);
                    }
                }
                lemma_wf_requeue(&start, self);
                lemma_pin_phi_remove(&start, start.pin_update_queue@, idx as int);
                assert(pin_event_weight(&start, event) == target_weight(
                    &start,
                    event.target_pin_id,
                ));
                assert(target_weight(&start, event.target_pin_id) >= 1);
            }
            let ghost s1 = *self;
            self.apply_pin_update(event.target_pin_id, &event.value);
            let ghost s2 = *self;
            self.process_gate_events();
            let ghost s3 = *self;
            self.process_lump_events();
            proof {
                self.lemma_pin_step_measure(pre, start, s1, s2, s3, event, idx as int);
                lemma_same_topology_trans(&pre, &start, &s2);
                lemma_same_topology_trans(&pre, &s2, self);
                assert forall|i: int|
                    0 <= i < pre.pin_update_queue@.len()
                        && #[trigger] pre.pin_update_queue@[i].time > pre.current_sim_time
                        implies self.pin_update_queue@.contains(pre.pin_update_queue@[i]) by {
                    let e = pre.pin_update_queue@[i];
                    assert(start.pin_update_queue@.contains(e));
                    let j = choose|j: int|
                        0 <= j < start.pin_update_queue@.len() && start.pin_update_queue@[j] == e;
                    // the popped event sat at the present timestamp, `e` lies beyond it
                    assert(event.time == start.current_sim_time);
                    assert(j != idx);
                    let j2 = if j < idx { j } else { j - 1 };
                    assert(s1.pin_update_queue@[j2] == e);
                    assert(s2.pin_update_queue@[j2] == e);
                    assert(s3.pin_update_queue@[j2] == e);
                    assert(self.pin_update_queue@[j2] == e);
                }
                // the iteration was one full engine step
                assert forall|i: int|
                    0 <= i < idx as int implies #[trigger] start.pin_update_queue@[i].time
                    != start.current_sim_time by {
                    assert(start.pin_update_queue@[idx as int].time
                        < start.pin_update_queue@[i].time);
                }
                assert(popped_due(start, s1, idx as int));
                assert(pin_update_applied(
                    s1,
                    s2,
                    start.pin_update_queue@[idx as int].target_pin_id,
                    start.pin_update_queue@[idx as int].value@,
                ));
                assert(gate_queue_drained(s2, s3));
                let n2 = choose|n2: nat| lump_queue_delivered(s3, *self, n2);
                assert(lump_queue_delivered(s3, *self, n2));
                assert(engine_step(start, *self));
                let n = choose|n: nat| engine_reaches(pre, start, n);
                lemma_engine_reaches_snoc(pre, start, *self, n);
                assert(engine_reaches(pre, *self, n + 1));
            }
        }
    }

    /// Across one delivered pin event and the two drains that follow
    /// it, the pending same-timestamp weight strictly shrinks: what
    /// the pin enqueued weighs less than the popped event did, and
    /// each drain never gains weight.
    proof fn lemma_pin_step_measure(
        &self,
        pre: ComponentManager,
        start: ComponentManager,
        s1: ComponentManager,
        s2: ComponentManager,
        s3: ComponentManager,
        event: PinUpdateEvent,
        idx: int,
    )
        requires
            start.wf(),
            start.quiet(),
            0 <= idx < start.pin_update_queue@.len(),
            event == start.pin_update_queue@[idx],
            event.time == start.current_sim_time,
            // after the pop
            s1 == (ComponentManager {
                pin_update_queue: s1.pin_update_queue,
                ..start
            }),
            s1.pin_update_queue@ == start.pin_update_queue@.remove(idx),
            // after the pin took the value
            s1.wf(),
            same_topology(&s1, &s2),
            s2.current_sim_time == s1.current_sim_time,
            s2.counter == s1.counter,
            s2.gates == s1.gates,
            s2.lumps == s1.lumps,
            s2.pin_update_queue@ == s1.pin_update_queue@,
            s1.pin(event.target_pin_id).value@ == event.value@ ==> s2 == s1,
            s1.pin(event.target_pin_id).value@ != event.value@ ==> {
                &&& (s1.pin(event.target_pin_id).pin_type == PinType::IN ==> {
                    &&& s2.gate_update_queue@ == s1.gate_update_queue@.push(
                        GateUpdateEvent {
                            sender_pin_id: event.target_pin_id,
                            target_gate_id: s1.pin(event.target_pin_id).gate_id,
                        },
                    )
                    &&& s2.lump_update_queue@ == s1.lump_update_queue@
                })
                &&& (s1.pin(event.target_pin_id).pin_type == PinType::OUT ==> match s1.pin(
                    event.target_pin_id,
                ).lump_id {
                    Some(l) => {
                        &&& s2.gate_update_queue@ == s1.gate_update_queue@
                        &&& s2.lump_update_queue@.len() == s1.lump_update_queue@.len() + 1
                        &&& s2.lump_update_queue@ == s1.lump_update_queue@.push(
                            s2.lump_update_queue@.last(),
                        )
                        &&& s2.lump_update_queue@.last().target_lump_id == l
                    },
                    None => {
                        &&& s2.gate_update_queue@ == s1.gate_update_queue@
                        &&& s2.lump_update_queue@ == s1.lump_update_queue@
                    },
                })
            },
            // after all gate wakeups ran
            s3.lumps == s2.lumps,
            s3.counter == s2.counter,
            s3.current_sim_time == s2.current_sim_time,
            s3.pins == s2.pins,
            s3.gates == s2.gates,
            s3.lump_update_queue@ == s2.lump_update_queue@,
            pin_queue_phi(&s3, s3.pin_update_queue@) == pin_queue_phi(&s2, s2.pin_update_queue@),
            // after the lump drain
            self.current_sim_time == s3.current_sim_time,
            same_topology(&s3, self),
            pin_queue_phi(self, self.pin_update_queue@) + lump_queue_phi(
                self,
                self.lump_update_queue@,
            ) <= pin_queue_phi(&s3, s3.pin_update_queue@) + lump_queue_phi(
                &s3,
                s3.lump_update_queue@,
            ),
        ensures
            pin_queue_phi(self, self.pin_update_queue@) < pin_queue_phi(
                &start,
                start.pin_update_queue@,
            ),
    {
        let w = pin_event_weight(&start, event);
        lemma_pin_phi_remove(&start, start.pin_update_queue@, idx);
        assert(same_topology(&start, &s1));
        lemma_phi_stable(&start, &s1, s1.pin_update_queue@);
        assert(pin_queue_phi(&s1, s1.pin_update_queue@) + w == pin_queue_phi(
            &start,
            start.pin_update_queue@,
        ));
        lemma_phi_stable(&s1, &s2, s2.pin_update_queue@);
        let pid = event.target_pin_id;
        if s1.pin(pid).value@ == event.value@ {
            // nothing was enqueued; the drains found empty queues
            assert(lump_queue_phi(&s3, s3.lump_update_queue@) == 0);
            assert(w >= 1);
        } else {
            assert(s1.pin_wf(s1.pins@[pid]));
            match s1.pins@[pid].pin_type {
                PinType::IN => {
                    assert(s3.lump_update_queue@.len() == 0);
                    assert(lump_queue_phi(&s3, s3.lump_update_queue@) == 0);
                    assert(w >= 1);
                },
                PinType::OUT => {
                    match s1.pins@[pid].lump_id {
                        Some(l) => {
                            let ev = s2.lump_update_queue@.last();
                            assert(s1.lump_update_queue@.len() == 0);
                            assert(s2.lump_update_queue@ =~= seq![ev]);
                            assert(s3.lump_update_queue@ == s2.lump_update_queue@);
                            assert(lump_queue_phi(&s3, seq![ev].drop_first()) == 0);
                            assert(lump_queue_phi(&s3, s3.lump_update_queue@)
                                == lump_event_weight(&s3, ev));
                            // the popped event's weight covers the broadcast's
                            assert(s1.lumps@.contains_key(l));
                            assert(same_topology(&s1, &s3));
                            assert(lump_same_shape(s1.lumps@[l], s3.lumps@[l]));
                            assert(lump_event_weight(&s3, ev) == 1 + 2 * s1.lumps@[l].pin_ids@.len());
                            assert(w == 2 + 2 * s1.lumps@[l].pin_ids@.len());
                        },
                        None => {
                            assert(lump_queue_phi(&s3, s3.lump_update_queue@) == 0);
                            assert(w >= 1);
                        },
                    }
                },
                PinType::INOUT => {
                    assert(false);
                },
            }
        }
    }

    /// The ordered list of ids of one of a gate's three pin lists.
    pub open spec fn gate_pin_list(&self, gid: usize, pt: PinType) -> Seq<usize> {
        match pt {
            PinType::IN => self.gates@[gid].gpio.in_pins@,
            PinType::OUT => self.gates@[gid].gpio.out_pins@,
            PinType::INOUT => self.gates@[gid].gpio.inout_pins@,
        }
    }

    /// The ordered pin ids of one of a gate's three lists; the id
    /// must name a live gate.
    pub fn get_gate_pins(&self, gate_id: &usize, pin_type: &PinType) -> (r: Vec<usize>)
        requires
            self.has_gate(*gate_id),
        ensures
            *pin_type == PinType::IN ==> r@ == self.gate(*gate_id).gpio.in_pins@,
            *pin_type == PinType::OUT ==> r@ == self.gate(*gate_id).gpio.out_pins@,
            *pin_type == PinType::INOUT ==> r@ == self.gate(*gate_id).gpio.inout_pins@,
    {
        let gate = self.gates.get(gate_id).unwrap();
        match pin_type {
            PinType::IN => copy_ids(&gate.gpio.in_pins),
            PinType::OUT => copy_ids(&gate.gpio.out_pins),
            PinType::INOUT => copy_ids(&gate.gpio.inout_pins),
        }
    }
}

} // verus!



