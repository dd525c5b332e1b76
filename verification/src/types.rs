//! Basic vocabulary of the execution core: transaction indices, incarnations,
//! entry flags, the value payload stored per key, and the shared error types.

use vstd::prelude::*;

verus! {

/// Ordinal position of a transaction within a block, 0-based.
pub type TxnIndex = u32;

/// Execution-attempt counter for one transaction index.
pub type Incarnation = u32;

/// Opaque identifier of a value's type layout; only presence and identity of
/// a layout matter to the store.
pub type LayoutId = u64;

/// Key of one versioned slot. `module` records whether the key addresses a
/// module (code) rather than a resource.
#[derive(Clone, Copy, PartialEq, Eq, Structural, Debug)]
pub struct StoreKey {
    pub id: u64,
    pub module: bool,
}

/// Flag carried by every multi-version entry. An `Estimate` entry forces
/// readers above it to abort with a dependency instead of trusting the data.
#[derive(Clone, Copy, PartialEq, Eq, Structural, Debug)]
pub enum Flag {
    Done,
    Estimate,
}

/// Content of one stored value, as the execution core reads it: a numeric
/// counter (the only shape deltas may apply to), or opaque bytes.
#[derive(Debug)]
pub enum ValuePayload {
    Numeric(u128),
    Opaque(Vec<u8>),
}

/// A value recorded by a transaction write. `payload == None` is a deletion.
#[derive(Debug)]
pub struct Value {
    payload: Option<ValuePayload>,
}

/// Mathematical content of a `Value`.
pub enum ValueSpec {
    Deletion,
    Numeric(u128),
    Opaque(Seq<u8>),
}

impl View for Value {
    type V = ValueSpec;

    closed spec fn view(&self) -> ValueSpec {
        match self.payload {
            None => ValueSpec::Deletion,
            Some(ValuePayload::Numeric(v)) => ValueSpec::Numeric(v),
            Some(ValuePayload::Opaque(b)) => ValueSpec::Opaque(b@),
        }
    }
}

/// Byte length a value occupies, as the base-value consistency check sees it.
/// A numeric counter is stored as a fixed-width 16-byte word.
pub open spec fn spec_bytes_len(v: ValueSpec) -> nat {
    match v {
        ValueSpec::Deletion => 0,
        ValueSpec::Numeric(_) => 16,
        ValueSpec::Opaque(b) => b.len(),
    }
}

impl Clone for Value {
    fn clone(&self) -> (res: Self)
        ensures
            res@ == self@,
    {
        match &self.payload {
            None => Value { payload: None },
            Some(ValuePayload::Numeric(v)) => Value { payload: Some(ValuePayload::Numeric(*v)) },
            Some(ValuePayload::Opaque(b)) => {
                let copy: Vec<u8> = clone_bytes(b);
                Value { payload: Some(ValuePayload::Opaque(copy)) }
            },
        }
    }
}

/// Byte-for-byte copy of a buffer.
pub fn clone_bytes(b: &Vec<u8>) -> (res: Vec<u8>)
    ensures
        res@ == b@,
{
    let mut out: Vec<u8> = Vec::new();
    let mut i: usize = 0;
    while i < b.len()
        invariant
            i <= b.len(),
            out@ == b@.take(i as int),
        decreases b.len() - i,
    {
        out.push(b[i]);
        i = i + 1;
    }
    proof {
        assert(out@ =~= b@);
    }
    out
}

impl Value {
    /// A deletion: the key has no value.
    pub fn deletion() -> (r: Value)
        ensures
            r@ == ValueSpec::Deletion,
    {
        Value { payload: None }
    }

    /// A numeric counter value, as aggregators store them.
    pub fn from_u128(v: u128) -> (r: Value)
        ensures
            r@ == ValueSpec::Numeric(v),
    {
        Value { payload: Some(ValuePayload::Numeric(v)) }
    }

    /// An opaque payload that deltas may never be applied to.
    pub fn with_bytes(b: Vec<u8>) -> (r: Value)
        ensures
            r@ == ValueSpec::Opaque(b@),
    {
        Value { payload: Some(ValuePayload::Opaque(b)) }
    }

    /// True when this value records a deletion.
    pub fn is_deletion(&self) -> (r: bool)
        ensures
            r == (self@ is Deletion),
    {
        self.payload.is_none()
    }

    /// The numeric content: `Ok(None)` for a deletion, `Ok(Some(v))` for a
    /// counter, and `Err(())` when the payload is not numeric.
    pub fn as_u128(&self) -> (r: Result<Option<u128>, ()>)
        ensures
            match self@ {
                ValueSpec::Deletion => r == Result::<Option<u128>, ()>::Ok(None::<u128>),
                ValueSpec::Numeric(v) => r == Result::<Option<u128>, ()>::Ok(Some(v)),
                ValueSpec::Opaque(_) => r is Err,
            },
    {
        match &self.payload {
            None => Ok(None),
            Some(ValuePayload::Numeric(v)) => Ok(Some(*v)),
            Some(ValuePayload::Opaque(_)) => Err(()),
        }
    }

    /// The opaque byte payload, when the value holds one.
    pub fn as_opaque_bytes(&self) -> (r: Option<&Vec<u8>>)
        ensures
            match self@ {
                ValueSpec::Opaque(b) => r matches Some(v) && v@ == b,
                _ => r is None,
            },
    {
        match &self.payload {
            Some(ValuePayload::Opaque(b)) => Some(b),
            _ => None,
        }
    }

    /// Byte length of the stored payload; 0 for a deletion.
    pub fn bytes_len(&self) -> (r: usize)
        ensures
            r == spec_bytes_len(self@),
    {
        match &self.payload {
            None => 0,
            Some(ValuePayload::Numeric(_)) => 16,
            Some(ValuePayload::Opaque(b)) => b.len(),
        }
    }
}

/// A value of an independently tracked numeric field: a bounded counter, a
/// snapshot of one, or a value derived from a snapshot.
#[derive(Debug)]
pub enum DelayedFieldValue {
    Aggregator(u128),
    Snapshot(u128),
    Derived(Vec<u8>),
}

/// Mathematical content of a `DelayedFieldValue`.
pub enum DelayedFieldValueSpec {
    Aggregator(u128),
    Snapshot(u128),
    Derived(Seq<u8>),
}

impl View for DelayedFieldValue {
    type V = DelayedFieldValueSpec;

    open spec fn view(&self) -> DelayedFieldValueSpec {
        match self {
            DelayedFieldValue::Aggregator(v) => DelayedFieldValueSpec::Aggregator(*v),
            DelayedFieldValue::Snapshot(v) => DelayedFieldValueSpec::Snapshot(*v),
            DelayedFieldValue::Derived(b) => DelayedFieldValueSpec::Derived(b@),
        }
    }
}

impl Clone for DelayedFieldValue {
    fn clone(&self) -> (res: Self)
        ensures
            res@ == self@,
    {
        match self {
            DelayedFieldValue::Aggregator(v) => DelayedFieldValue::Aggregator(*v),
            DelayedFieldValue::Snapshot(v) => DelayedFieldValue::Snapshot(*v),
            DelayedFieldValue::Derived(b) => DelayedFieldValue::Derived(clone_bytes(b)),
        }
    }
}

/// A breach of the store's internal invariants by a caller: these conditions
/// indicate scheduler or caller bugs and are reported loudly, never swallowed.
#[derive(Clone, Copy, PartialEq, Eq, Structural, Debug)]
pub enum FatalError {
    /// A write carried an incarnation not above the one already recorded.
    IncarnationRegression,
    /// An operation addressed a (key, index) with no entry.
    MissingEntry,
    /// The sentinel base value was re-set with inconsistent data.
    InconsistentBaseValue,
    /// A delta shortcut was re-derived with a different value.
    ShortcutMismatch,
    /// Commit-time materialization found the slot in a state it can never
    /// legally be in.
    InconsistentMaterialization,
    /// A finalized output was finalized a second time.
    DoubleFinalize,
}

/// Generator of delayed-field identifiers, unique within one block's
/// execution: each identifier handed out is strictly above every earlier one.
pub struct DelayedFieldIdGenerator {
    next: u64,
}

impl DelayedFieldIdGenerator {
    /// The identifier the next call of `fresh_id` returns.
    pub closed spec fn spec_next(&self) -> u64 {
        self.next
    }

    /// A generator whose first identifier is `start`. A test double may pick
    /// a recognisable start to catch identifiers that leak unsubstituted.
    pub fn new(start: u64) -> (r: DelayedFieldIdGenerator)
        ensures
            r.spec_next() == start,
    {
        DelayedFieldIdGenerator { next: start }
    }

    /// Hands out the next identifier. Later calls return strictly larger
    /// identifiers, so no two identifiers of one generator collide.
    pub fn fresh_id(&mut self) -> (r: u64)
        requires
            old(self).spec_next() < u64::MAX,
        ensures
            r == old(self).spec_next(),
            final(self).spec_next() == old(self).spec_next() + 1,
    {
        let id = self.next;
        self.next = self.next + 1;
        id
    }
}

} // verus!
