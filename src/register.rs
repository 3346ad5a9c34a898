//! A single-slot cell that resolves concurrent writes by sequence number.

use vstd::prelude::*;

use crate::CRDT;

verus! {

/// Portable state of a register: the value it held and the sequence number of that write.
pub struct LWWState<T> {
    pub value: Option<T>,
    pub seq: u64,
}

/// Of two writes, each a value with its sequence number, the one that wins: the
/// second only when its sequence number is strictly greater.
pub open spec fn newer<T>(held: (T, u64), incoming: (T, u64)) -> (T, u64) {
    if incoming.1 > held.1 {
        incoming
    } else {
        held
    }
}

/// A last-write-wins register. A live register always holds a value, and its
/// sequence number starts at 1.
pub struct LWWRegister<T> {
    value: T,
    seq: u64,
}

impl<T> View for LWWRegister<T> {
    type V = (T, u64);

    /// The held value and the sequence number of its write.
    closed spec fn view(&self) -> (T, u64) {
        (self.value, self.seq)
    }
}

impl<T> LWWRegister<T> {
    #[verifier::type_invariant]
    spec fn inv(self) -> bool {
        self.seq >= 1
    }

    /// The value the register holds.
    pub open spec fn spec_value(self) -> T {
        self@.0
    }

    /// The sequence number of the write that produced the held value.
    pub open spec fn spec_seq(self) -> u64 {
        self@.1
    }

    /// The register that `merge` leaves after folding in `incoming`: the incoming
    /// write is adopted, value and sequence number together, only when it is
    /// strictly newer and carries a value.
    pub open spec fn merged(self, incoming: LWWState<T>) -> (T, u64) {
        match incoming.value {
            Some(v) => newer(self@, (v, incoming.seq)),
            None => self@,
        }
    }

    /// Creates a new register that holds `value`.
    pub fn new(value: T) -> (r: Self)
        ensures
            r.spec_value() == value,
            r.spec_seq() == 1,
    {
        LWWRegister { value, seq: 1 }
    }

    /// The value the register currently holds.
    pub fn value(&self) -> (r: &T)
        ensures
            *r == self.spec_value(),
    {
        &self.value
    }

    /// The sequence number of the held value's write.
    pub fn seq(&self) -> (r: u64)
        ensures
            r == self.spec_seq(),
    {
        self.seq
    }

    /// Replaces the held value with `value` and returns the value it displaced.
    pub fn update(&mut self, value: T) -> (displaced: T)
        requires
            old(self).spec_seq() < u64::MAX,
        ensures
            displaced == old(self).spec_value(),
            final(self).spec_value() == value,
            final(self).spec_seq() == old(self).spec_seq() + 1,
    {
        proof {
            use_type_invariant(&*self);
        }
        let mut displaced = value;
        core::mem::swap(&mut self.value, &mut displaced);
        self.seq = self.seq + 1;
        displaced
    }
}

impl<T> From<T> for LWWRegister<T> {
    /// A register that holds `value`, as `new` makes it.
    fn from(value: T) -> (r: Self)
        ensures
            r.spec_value() == value,
            r.spec_seq() == 1,
    {
        LWWRegister { value, seq: 1 }
    }
}

impl<T> vstd::std_specs::convert::FromSpecImpl<T> for LWWRegister<T> {
    open spec fn obeys_from_spec() -> bool {
        true
    }

    closed spec fn from_spec(v: T) -> Self {
        LWWRegister { value: v, seq: 1 }
    }
}

impl<T> CRDT for LWWRegister<T> {
    type State = LWWState<T>;

    open spec fn taken(self) -> LWWState<T> {
        LWWState { value: Some(self.spec_value()), seq: self.spec_seq() }
    }

    open spec fn merge_result(before: Self, incoming: LWWState<T>, after: Self) -> bool {
        after@ == before.merged(incoming)
    }

    /// Adopts the incoming value and sequence number, together, when the incoming
    /// sequence number is strictly greater; otherwise keeps the held write.
    fn merge(&mut self, other: LWWState<T>) {
        proof {
            use_type_invariant(&*self);
        }
        if other.seq > self.seq {
            if let Some(v) = other.value {
                self.value = v;
                self.seq = other.seq;
            }
        }
    }

    /// Hands out the held value with its sequence number.
    fn take(self) -> (r: LWWState<T>) {
        LWWState { value: Some(self.value), seq: self.seq }
    }
}

/// Merging the same portable state a second time changes nothing.
pub proof fn lemma_merge_idempotent<T>(
    r: LWWRegister<T>,
    incoming: LWWState<T>,
    once: LWWRegister<T>,
    twice: LWWRegister<T>,
)
    requires
        LWWRegister::merge_result(r, incoming, once),
        LWWRegister::merge_result(once, incoming, twice),
    ensures
        twice@ == once@,
{
}

/// After a merge the register holds whichever write has the larger sequence number;
/// on equal sequence numbers the receiver's own value stays.
pub proof fn lemma_merge_keeps_newer<T>(
    before: LWWRegister<T>,
    incoming: LWWState<T>,
    after: LWWRegister<T>,
)
    requires
        LWWRegister::merge_result(before, incoming, after),
        incoming.value is Some,
    ensures
        after.spec_value() == if incoming.seq > before.spec_seq() {
            incoming.value->0
        } else {
            before.spec_value()
        },
        after.spec_seq() == if incoming.seq > before.spec_seq() {
            incoming.seq
        } else {
            before.spec_seq()
        },
{
}

/// A register fresh from `new(v)` yields the portable state `{ value: Some(v), seq: 1 }`.
pub proof fn lemma_new_then_take<T>(v: T, r: LWWRegister<T>)
    requires
        r.spec_value() == v,
        r.spec_seq() == 1,
    ensures
        r.taken() == (LWWState { value: Some(v), seq: 1 }),
{
}

} // verus!
