//! Entity identities: address-based `ID`, per-operation `DetId`, and
//! creation-order `SequentialID`.
use vstd::prelude::*;
use vstd::std_specs::cmp::{PartialEqSpecImpl, PartialOrdSpecImpl, PartialOrdSpec};
use std::cmp::Ordering;
use std::marker::PhantomData;
use crate::text::{decimal, lower_hex, push_decimal, push_lower_hex};

verus! {

/// Identity of an entity by its address: `Copy`, hashable and ordered by
/// address.
#[derive(Ord, Hash, Debug)]
pub struct ID<T>(usize, PhantomData<T>);

impl<T> ID<T> {
    /// The address this ID carries.
    pub closed spec fn addr(self) -> usize {
        self.0
    }

    /// Creates the ID of the entity at address `addr`.
    pub fn new(addr: usize) -> (r: ID<T>)
        ensures
            r.addr() == addr,
    {
        ID(addr, PhantomData)
    }

    /// The `0x`-prefixed lower-case hexadecimal address, as `{:p}` writes it.
    pub fn debug_string(&self) -> (r: String)
        ensures
            r@ == "0x"@ + lower_hex(self.addr() as nat),
    {
        let mut s = String::from_str("0x");
        push_lower_hex(&mut s, self.0 as u64);
        s
    }
}

impl<T> Clone for ID<T> {
    fn clone(&self) -> (r: Self)
        ensures
            r == *self,
    {
        ID(self.0, PhantomData)
    }
}

impl<T> Copy for ID<T> {
}

impl<T> PartialEq for ID<T> {
    fn eq(&self, other: &Self) -> (r: bool) {
        self.0 == other.0
    }
}

impl<T> PartialEqSpecImpl for ID<T> {
    open spec fn obeys_eq_spec() -> bool {
        true
    }

    open spec fn eq_spec(&self, other: &Self) -> bool {
        self.addr() == other.addr()
    }
}

impl<T> Eq for ID<T> {
}

impl<T> PartialOrd for ID<T> {
    fn partial_cmp(&self, other: &Self) -> (r: Option<Ordering>) {
        self.0.partial_cmp(&other.0)
    }
}

impl<T> PartialOrdSpecImpl for ID<T> {
    open spec fn obeys_partial_cmp_spec() -> bool {
        true
    }

    open spec fn partial_cmp_spec(&self, other: &Self) -> Option<Ordering> {
        if self.addr() < other.addr() {
            Some(Ordering::Less)
        } else if self.addr() > other.addr() {
            Some(Ordering::Greater)
        } else {
            Some(Ordering::Equal)
        }
    }
}

/// Deterministic identity for boolean operations: a sequential integer issued
/// by a [`DetContext`].
#[derive(Clone, Copy, PartialEq, Eq, Structural, Ord, Hash, Debug)]
pub struct DetId(u64);

impl DetId {
    /// The counter value this ID carries.
    pub closed spec fn val(self) -> u64 {
        self.0
    }

    /// Creates a `DetId` from a raw counter value.
    pub fn from_raw(val: u64) -> (r: Self)
        ensures
            r.val() == val,
    {
        DetId(val)
    }

    /// The raw counter value.
    pub fn raw(&self) -> (r: u64)
        ensures
            r == self.val(),
    {
        self.0
    }

    /// The text `det#` followed by the decimal counter value.
    pub fn debug_string(&self) -> (r: String)
        ensures
            r@ == "det#"@ + decimal(self.val() as nat),
    {
        let mut s = String::from_str("det#");
        push_decimal(&mut s, self.0);
        s
    }
}

/// A `DetId` is its counter value: two IDs are equal exactly when their
/// values are, so equal raw values give equal IDs.
pub proof fn det_ids_are_their_values(a: DetId, b: DetId)
    ensures
        (a == b) <==> (a.val() == b.val()),
{
}

impl PartialOrd for DetId {
    fn partial_cmp(&self, other: &Self) -> (r: Option<Ordering>) {
        self.0.partial_cmp(&other.0)
    }
}

impl PartialOrdSpecImpl for DetId {
    open spec fn obeys_partial_cmp_spec() -> bool {
        true
    }

    open spec fn partial_cmp_spec(&self, other: &Self) -> Option<Ordering> {
        if self.val() < other.val() {
            Some(Ordering::Less)
        } else if self.val() > other.val() {
            Some(Ordering::Greater)
        } else {
            Some(Ordering::Equal)
        }
    }
}

/// The counter value `k` steps after `v` in 64-bit wrapping arithmetic.
pub open spec fn successor_n(v: u64, k: nat) -> u64
    decreases k,
{
    if k == 0 {
        v
    } else {
        wrapping_successor(successor_n(v, (k - 1) as nat))
    }
}

/// The counter value after `n` in 64-bit wrapping arithmetic.
pub open spec fn wrapping_successor(n: u64) -> u64 {
    if n == u64::MAX {
        0
    } else {
        (n + 1) as u64
    }
}

/// Issues deterministic IDs during one boolean operation; fresh contexts
/// always start from 0.
pub struct DetContext {
    counter: u64,
}

impl DetContext {
    /// The number of IDs issued so far, which is also the next raw value.
    pub closed spec fn issued(&self) -> u64 {
        self.counter
    }

    /// Creates a context whose first ID is 0.
    pub fn new() -> (r: Self)
        ensures
            r.issued() == 0,
    {
        DetContext { counter: 0 }
    }

    /// Issues the next ID: the i-th call on a fresh context returns raw value i.
    /// The counter wraps around after `u64::MAX`.
    pub fn next_id(&mut self) -> (r: DetId)
        ensures
            r.val() == old(self).issued(),
            final(self).issued() == wrapping_successor(old(self).issued()),
    {
        let r = DetId(self.counter);
        self.counter = self.counter.wrapping_add(1);
        r
    }
}

impl Default for DetContext {
    fn default() -> (r: Self)
        ensures
            r.issued() == 0,
    {
        Self::new()
    }
}

/// Deterministic, creation-order identity for topology entities, typed by the
/// kind of entity it names.
#[derive(Ord, Hash, Debug)]
pub struct SequentialID<T = ()>(u64, PhantomData<T>);

impl<T> SequentialID<T> {
    /// The counter value this ID carries.
    pub closed spec fn val(self) -> u64 {
        self.0
    }

    /// Creates a `SequentialID` from a raw counter value.
    pub fn new(val: u64) -> (r: Self)
        ensures
            r.val() == val,
    {
        SequentialID(val, PhantomData)
    }

    /// The raw counter value.
    pub fn raw(&self) -> (r: u64)
        ensures
            r == self.val(),
    {
        self.0
    }

    /// The text `seq#` followed by the decimal counter value (the debug form).
    pub fn debug_string(&self) -> (r: String)
        ensures
            r@ == "seq#"@ + decimal(self.val() as nat),
    {
        let mut s = String::from_str("seq#");
        push_decimal(&mut s, self.0);
        s
    }

    /// The display form, the same text as the debug form.
    pub fn display_string(&self) -> (r: String)
        ensures
            r@ == "seq#"@ + decimal(self.val() as nat),
    {
        self.debug_string()
    }
}

impl<T> Clone for SequentialID<T> {
    fn clone(&self) -> (r: Self)
        ensures
            r == *self,
    {
        SequentialID(self.0, PhantomData)
    }
}

impl<T> Copy for SequentialID<T> {
}

impl<T> PartialEq for SequentialID<T> {
    fn eq(&self, other: &Self) -> (r: bool) {
        self.0 == other.0
    }
}

impl<T> PartialEqSpecImpl for SequentialID<T> {
    open spec fn obeys_eq_spec() -> bool {
        true
    }

    open spec fn eq_spec(&self, other: &Self) -> bool {
        self.val() == other.val()
    }
}

impl<T> Eq for SequentialID<T> {
}

impl<T> PartialOrd for SequentialID<T> {
    fn partial_cmp(&self, other: &Self) -> (r: Option<Ordering>) {
        self.0.partial_cmp(&other.0)
    }
}

impl<T> PartialOrdSpecImpl for SequentialID<T> {
    open spec fn obeys_partial_cmp_spec() -> bool {
        true
    }

    open spec fn partial_cmp_spec(&self, other: &Self) -> Option<Ordering> {
        if self.val() < other.val() {
            Some(Ordering::Less)
        } else if self.val() > other.val() {
            Some(Ordering::Greater)
        } else {
            Some(Ordering::Equal)
        }
    }
}

/// The monotonic counter from which topology entities take their
/// `SequentialID`s. It starts at 1; 0 is reserved as "unset".
pub struct IdSequence {
    next: u64,
}

impl IdSequence {
    /// The value the next allocation returns.
    pub closed spec fn value(&self) -> u64 {
        self.next
    }

    /// A counter that starts at 1.
    pub fn new() -> (r: Self)
        ensures
            r.value() == 1,
    {
        IdSequence { next: 1 }
    }

    /// A copy of the counter, to draw from tentatively.
    pub fn snapshot(&self) -> (r: Self)
        ensures
            r.value() == self.value(),
    {
        IdSequence { next: self.next }
    }
}

/// Allocates the next sequential ID: returns the current value and advances
/// the counter by one (wrapping after `u64::MAX`).
pub fn next_sequential_id(seq: &mut IdSequence) -> (r: u64)
    ensures
        r == old(seq).value(),
        final(seq).value() == wrapping_successor(old(seq).value()),
{
    let r = seq.next;
    seq.next = seq.next.wrapping_add(1);
    r
}

/// Resets the counter to 1.
pub fn reset_id_sequence(seq: &mut IdSequence)
    ensures
        final(seq).value() == 1,
{
    seq.next = 1;
}

/// The current counter value, without advancing it.
pub fn current_sequence_value(seq: &IdSequence) -> (r: u64)
    ensures
        r == seq.value(),
{
    seq.next
}

/// IDs that a context issues one after another compare in creation order:
/// the later one is greater, unless the counter wrapped around in between.
pub proof fn det_ids_follow_creation_order(c: DetContext, a: DetId, b: DetId)
    requires
        a.val() == c.issued(),
        b.val() == wrapping_successor(c.issued()),
        c.issued() < u64::MAX,
    ensures
        PartialOrdSpec::partial_cmp_spec(&a, &b) == Some(Ordering::Less),
        PartialOrdSpec::partial_cmp_spec(&b, &a) == Some(Ordering::Greater),
{
}

/// Sequential IDs taken one after another from the counter compare in
/// creation order: the later one is greater, unless the counter wrapped
/// around in between.
pub proof fn sequential_ids_follow_creation_order<T>(seq: IdSequence, a: SequentialID<T>, b: SequentialID<T>)
    requires
        a.val() == seq.value(),
        b.val() == wrapping_successor(seq.value()),
        seq.value() < u64::MAX,
    ensures
        PartialOrdSpec::partial_cmp_spec(&a, &b) == Some(Ordering::Less),
        PartialOrdSpec::partial_cmp_spec(&b, &a) == Some(Ordering::Greater),
{
}

} // verus!
