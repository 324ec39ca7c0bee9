use vstd::prelude::*;

use crate::property::Validator;
use crate::property::Value;

verus! {

/// One delivery to an observer: the tag it registered under and the value it
/// was handed.
#[derive(Copy, Clone, PartialEq, Eq, Structural, Debug)]
pub struct Notice {
    pub tag: u64,
    pub value: Value,
}

/// A standalone observable cell, as widgets publish their values: a value, a
/// validator applied to every write, and an ordered list of observers.
/// Observers are registered under a tag; each successful write appends one
/// notice per observer, in registration order, to the cell's notice queue,
/// which the owner drains and delivers.
pub struct Property {
    pub value: Value,
    pub validator: Validator,
    pub observers: Vec<u64>,
    pub notices: Vec<Notice>,
}

/// The notices one write of `value` produces: one per observer, in
/// registration order.
pub open spec fn notices_for(observers: Seq<u64>, value: Value) -> Seq<Notice> {
    observers.map(|k: int, tag: u64| Notice { tag, value })
}

/// How one `set` call relates the cell before it to the cell after it: the
/// stored value is the validator's output, registration is untouched, and the
/// notice queue grows by exactly one notice per observer, in order.
pub open spec fn set_post(pre: Property, post: Property, written: Value) -> bool {
    &&& post.value == pre.validator.spec_validate(written)
    &&& post.validator == pre.validator
    &&& post.observers@ == pre.observers@
    &&& post.notices@ == pre.notices@ + notices_for(pre.observers@, post.value)
}

impl Property {
    /// A cell that stores every written value unchanged.
    pub fn new(initial: Value) -> (r: Property)
        ensures
            r.value == initial,
            r.validator == Validator::Accept,
            r.observers@ == Seq::<u64>::empty(),
            r.notices@ == Seq::<Notice>::empty(),
    {
        Property {
            value: initial,
            validator: Validator::Accept,
            observers: Vec::new(),
            notices: Vec::new(),
        }
    }

    /// A cell with a validator; the initial value is repaired by the
    /// validator before it is stored, so the cell never holds a value that
    /// breaks its invariant.
    pub fn new_validated(initial: Value, validator: Validator) -> (r: Property)
        ensures
            r.value == validator.spec_validate(initial),
            r.validator == validator,
            r.observers@ == Seq::<u64>::empty(),
            r.notices@ == Seq::<Notice>::empty(),
    {
        Property {
            value: validator.validate(initial),
            validator,
            observers: Vec::new(),
            notices: Vec::new(),
        }
    }

    /// The current value.
    pub fn get(&self) -> (r: Value)
        ensures
            r == self.value,
    {
        self.value
    }

    /// Invokes `f` on the current value and returns its result; the cell is
    /// not mutated.
    pub fn with<F: Fn(Value) -> R, R>(&self, f: F) -> (r: R)
        requires
            call_requires(f, (self.value,)),
        ensures
            call_ensures(f, (self.value,), r),
    {
        f(self.value)
    }

    /// Replaces the value with the validator's output for `new_value`, then
    /// queues one notice per registered observer, in registration order, all
    /// carrying the stored value.
    pub fn set(&mut self, new_value: Value)
        ensures
            set_post(*old(self), *final(self), new_value),
    {
        self.value = self.validator.validate(new_value);
        let ghost pre_notices = self.notices@;
        let mut k: usize = 0;
        while k < self.observers.len()
            invariant
                k <= self.observers.len(),
                self.value == old(self).validator.spec_validate(new_value),
                self.validator == old(self).validator,
                self.observers@ == old(self).observers@,
                self.notices@ == pre_notices + notices_for(self.observers@, self.value).take(
                    k as int,
                ),
            decreases self.observers.len() - k,
        {
            let tag = self.observers[k];
            self.notices.push(Notice { tag, value: self.value });
            proof {
                assert(self.notices@ == pre_notices + notices_for(
                    self.observers@,
                    self.value,
                ).take(k as int + 1));
            }
            k += 1;
        }
        proof {
            assert(notices_for(self.observers@, self.value).take(self.observers@.len() as int)
                == notices_for(self.observers@, self.value));
        }
    }

    /// Registers an observer under `tag`: it is handed the current value once
    /// immediately (one notice), then appended to the observer list so every
    /// subsequent write reaches it.
    pub fn observe(&mut self, tag: u64)
        ensures
            final(self).value == old(self).value,
            final(self).validator == old(self).validator,
            final(self).observers@ == old(self).observers@.push(tag),
            final(self).notices@ == old(self).notices@.push(
                Notice { tag, value: old(self).value },
            ),
    {
        self.notices.push(Notice { tag, value: self.value });
        self.observers.push(tag);
    }

    /// Hands the queued notices to the owner for delivery and empties the
    /// queue.
    pub fn take_notices(&mut self) -> (r: Vec<Notice>)
        ensures
            r@ == old(self).notices@,
            final(self).notices@ == Seq::<Notice>::empty(),
            final(self).value == old(self).value,
            final(self).validator == old(self).validator,
            final(self).observers@ == old(self).observers@,
    {
        let mut taken: Vec<Notice> = Vec::new();
        std::mem::swap(&mut taken, &mut self.notices);
        taken
    }
}

/// The value and notices produced by a whole sequence of writes: the value
/// tracks the validator's output for the latest write, and the notice queue
/// accumulates one block of in-order notices per write.
pub open spec fn sequence_notices(validator: Validator, observers: Seq<u64>, writes: Seq<Value>) -> Seq<
    Notice,
>
    decreases writes.len(),
{
    if writes.len() == 0 {
        Seq::empty()
    } else {
        sequence_notices(validator, observers, writes.drop_last()) + notices_for(
            observers,
            validator.spec_validate(writes.last()),
        )
    }
}

/// Law: for every sequence of writes to a cell, the stored value after each
/// write is the validator's output for that write, registration never
/// changes, and the notice queue grows by exactly one in-order notice per
/// registered observer per write.
pub proof fn lemma_write_sequence(states: Seq<Property>, writes: Seq<Value>)
    requires
        states.len() == writes.len() + 1,
        forall|k: int|
            0 <= k < writes.len() ==> set_post(states[k], #[trigger] states[k + 1], writes[k]),
    ensures
        forall|k: int|
            0 <= k < writes.len() ==> #[trigger] states[k + 1].value == states[0].validator.spec_validate(
                writes[k],
            ),
        forall|k: int|
            0 < k <= writes.len() ==> #[trigger] states[k].observers@ == states[0].observers@,
        forall|k: int|
            0 < k <= writes.len() ==> #[trigger] states[k].validator == states[0].validator,
        states.last().notices@ == states[0].notices@ + sequence_notices(
            states[0].validator,
            states[0].observers@,
            writes,
        ),
    decreases writes.len(),
{
    let n = writes.len() as int;
    if n == 0 {
        assert(states.last().notices@ =~= states[0].notices@ + sequence_notices(
            states[0].validator,
            states[0].observers@,
            writes,
        ));
    } else {
        let prev = states.drop_last();
        assert(forall|k: int| 0 <= k < n ==> prev[k] == states[k]);
        lemma_write_sequence(prev, writes.drop_last());
        assert(set_post(states[n - 1], states[n], writes[n - 1]));
        assert(states.last() == states[n]);
        assert(prev.last() == states[n - 1]);
        assert(states[n].notices@ =~= states[0].notices@ + sequence_notices(
            states[0].validator,
            states[0].observers@,
            writes,
        ));
    }
}

} // verus!
