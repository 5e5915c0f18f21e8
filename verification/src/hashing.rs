//! Hashing with `AHasher`, keeping a record of what was written.
//!
//! The hasher's keys are drawn once per process, so nothing is known of the number it
//! gives. What is known is what went into it: an [`ElementHasher`] records each write, and
//! an [`ElementHash`] that carries a record can only come from [`ElementHasher::finish`],
//! the record being the writes made to that hasher since it was created.
use ahash::AHasher;
use core::hash::Hasher;
use vstd::prelude::*;

verus! {

#[verifier::external_type_specification]
#[verifier::external_body]
pub struct ExAHasher(AHasher);

/// Calls `AHasher::default`. Its keys are drawn once per process, so nothing is
/// claimed of the hasher.
#[verifier::external_body]
fn new_hasher() -> AHasher {
    AHasher::default()
}

/// Calls `Hasher::write_u8` on an `AHasher`; nothing is claimed of the new state.
#[verifier::external_body]
fn hasher_write_u8(h: &mut AHasher, b: u8) {
    h.write_u8(b)
}

/// Calls `Hasher::write` on an `AHasher`; nothing is claimed of the new state.
#[verifier::external_body]
fn hasher_write(h: &mut AHasher, bytes: &[u8]) {
    h.write(bytes)
}

/// Calls `Hasher::finish` on an `AHasher`; the result depends on keys drawn once per
/// process, so nothing is claimed of it.
#[verifier::external_body]
fn hasher_finish(h: &AHasher) -> u64 {
    h.finish()
}

/// A fresh `AHasher` and the writes made to it so far, one entry per call, in order.
pub struct ElementHasher {
    inner: AHasher,
    writes: Ghost<Seq<Seq<u8>>>,
}

impl ElementHasher {
    /// The writes made to this hasher since it was created, one entry per call.
    pub closed spec fn writes(&self) -> Seq<Seq<u8>> {
        self.writes@
    }

    /// A hasher with the default keys and nothing written yet.
    pub fn new() -> (r: ElementHasher)
        ensures
            r.writes() == Seq::<Seq<u8>>::empty(),
    {
        ElementHasher { inner: new_hasher(), writes: Ghost(Seq::empty()) }
    }

    /// Writes one byte.
    pub fn write_u8(&mut self, b: u8)
        ensures
            final(self).writes() == old(self).writes().push(seq![b]),
    {
        hasher_write_u8(&mut self.inner, b);
        self.writes = Ghost(self.writes@.push(seq![b]));
    }

    /// Writes the bytes of `bytes` in one call.
    pub fn write(&mut self, bytes: &[u8])
        ensures
            final(self).writes() == old(self).writes().push(bytes@),
    {
        hasher_write(&mut self.inner, bytes);
        self.writes = Ghost(self.writes@.push(bytes@));
    }

    /// The hash of what was written, with the record of those writes.
    pub fn finish(&self) -> (r: ElementHash)
        ensures
            r.writes() == Some(self.writes()),
    {
        ElementHash { value: hasher_finish(&self.inner), writes: Ghost(Some(self.writes@)) }
    }
}

/// A hash value, and, when it was computed here, the writes it was computed from.
#[derive(Clone, Copy)]
pub struct ElementHash {
    value: u64,
    writes: Ghost<Option<Seq<Seq<u8>>>>,
}

impl ElementHash {
    /// The number.
    pub closed spec fn value(&self) -> u64 {
        self.value
    }

    /// The writes that a fresh default-keyed `AHasher` was given before `finish` returned
    /// this number; `None` for a number given from outside.
    pub closed spec fn writes(&self) -> Option<Seq<Seq<u8>>> {
        self.writes@
    }

    /// A hash value given from outside, with no record of how it was computed.
    pub fn given(value: u64) -> (r: ElementHash)
        ensures
            r.value() == value,
            r.writes() is None,
    {
        ElementHash { value, writes: Ghost(None) }
    }

    /// The number.
    pub fn get(&self) -> (r: u64)
        ensures
            r == self.value(),
    {
        self.value
    }

    /// The same hash value with the same record.
    pub fn duplicate(&self) -> (r: ElementHash)
        ensures
            r.value() == self.value(),
            r.writes() == self.writes(),
    {
        ElementHash { value: self.value, writes: self.writes }
    }
}

} // verus!
