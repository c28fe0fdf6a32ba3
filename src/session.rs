//! Which attribute set a terminal session hands to the device.
//!
//! A session captures the device's attributes once, when it starts, and
//! never overwrites them. Entering raw mode applies an attribute set derived
//! from them; restoring applies the captured set again, as often as asked.
//! The attribute set itself is a value of any `Copy` type.
use vstd::prelude::*;

verus! {

/// The attributes of one terminal session: the set captured at its start and
/// the set that was last applied to the device.
pub struct SessionAttrs<A> {
    original: A,
    applied: A,
    raw: bool,
}

impl<A: Copy> SessionAttrs<A> {
    /// The set captured when the session started.
    pub closed spec fn original_spec(&self) -> A {
        self.original
    }

    /// The set that the device holds now, as far as the session applied it.
    pub closed spec fn applied_spec(&self) -> A {
        self.applied
    }

    /// Whether raw mode is active.
    pub closed spec fn raw_spec(&self) -> bool {
        self.raw
    }

    /// The session just started on a device whose attributes are `captured`.
    pub closed spec fn started(captured: A) -> SessionAttrs<A> {
        SessionAttrs { original: captured, applied: captured, raw: false }
    }

    /// The session after entering raw mode with `raw`.
    pub closed spec fn after_set_raw(self, raw: A) -> SessionAttrs<A> {
        SessionAttrs { original: self.original, applied: raw, raw: true }
    }

    /// The session after restoring the captured attributes.
    pub closed spec fn after_restore(self) -> SessionAttrs<A> {
        SessionAttrs { original: self.original, applied: self.original, raw: false }
    }

    /// Starts a session on a device whose attributes are `captured`.
    pub fn new(captured: A) -> (r: SessionAttrs<A>)
        ensures
            r == SessionAttrs::<A>::started(captured),
            r.original_spec() == captured,
            r.applied_spec() == captured,
            !r.raw_spec(),
    {
        SessionAttrs { original: captured, applied: captured, raw: false }
    }

    /// The set captured when the session started.
    pub fn original(&self) -> (r: A)
        ensures
            r == self.original_spec(),
    {
        self.original
    }

    /// The set that was last applied.
    pub fn applied(&self) -> (r: A)
        ensures
            r == self.applied_spec(),
    {
        self.applied
    }

    /// Whether raw mode is active.
    pub fn is_raw(&self) -> (r: bool)
        ensures
            r == self.raw_spec(),
    {
        self.raw
    }

    /// Enters raw mode with `raw`, the raw set derived from the original one;
    /// returns the set to apply to the device.
    pub fn set_raw_mode(&mut self, raw: A) -> (r: A)
        ensures
            r == raw,
            *final(self) == old(self).after_set_raw(raw),
            final(self).original_spec() == old(self).original_spec(),
            final(self).applied_spec() == raw,
            final(self).raw_spec(),
    {
        self.applied = raw;
        self.raw = true;
        raw
    }

    /// Leaves raw mode; returns the set to apply to the device, which is
    /// always the one captured at the start. Safe to call any number of times.
    pub fn restore_attrs(&mut self) -> (r: A)
        ensures
            r == old(self).original_spec(),
            *final(self) == old(self).after_restore(),
            final(self).original_spec() == old(self).original_spec(),
            final(self).applied_spec() == old(self).original_spec(),
            !final(self).raw_spec(),
    {
        self.applied = self.original;
        self.raw = false;
        self.original
    }
}

/// Raw mode leaves no trace: a session that starts on `captured`, enters raw
/// mode with any set and then restores, has applied `captured` again, and
/// still holds it as its original.
pub proof fn lemma_raw_then_restore<A: Copy>(captured: A, raw: A)
    ensures
        SessionAttrs::<A>::started(captured).after_set_raw(raw).after_restore().applied_spec()
            == captured,
        SessionAttrs::<A>::started(captured).after_set_raw(raw).after_restore().original_spec()
            == captured,
        SessionAttrs::<A>::started(captured).after_set_raw(raw).after_restore()
            == SessionAttrs::<A>::started(captured),
{
}

/// Restoring is idempotent, and no step of a session changes the set that
/// was captured at its start.
pub proof fn lemma_restore_idempotent<A: Copy>(s: SessionAttrs<A>, raw: A)
    ensures
        s.after_restore().after_restore() == s.after_restore(),
        s.after_restore().applied_spec() == s.original_spec(),
        s.after_set_raw(raw).original_spec() == s.original_spec(),
        s.after_restore().original_spec() == s.original_spec(),
{
}

} // verus!
