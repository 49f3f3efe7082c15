use vstd::prelude::*;

verus! {

/// What the store keeps under one key: the payload text and, when the entry
/// expires, the absolute time in milliseconds from which it counts as gone.
#[derive(Clone, Debug, PartialEq)]
pub struct ValueWithExpiry {
    pub value: String,
    pub expiry: Option<u128>,
}

/// The mathematical value of a stored entry.
pub struct StoredValue {
    pub payload: Seq<char>,
    pub expiry: Option<u128>,
}

impl View for ValueWithExpiry {
    type V = StoredValue;

    open spec fn view(&self) -> StoredValue {
        StoredValue { payload: self.value@, expiry: self.expiry }
    }
}

/// An entry is dead once the clock has reached its expiry.
pub open spec fn expired(v: StoredValue, now: u128) -> bool {
    match v.expiry {
        Some(t) => now >= t,
        None => false,
    }
}

impl ValueWithExpiry {
    /// Whether this entry has expired at time `now`.
    pub fn is_expired(&self, now: u128) -> (r: bool)
        ensures
            r == expired(self@, now),
    {
        match self.expiry {
            Some(t) => now >= t,
            None => false,
        }
    }
}

} // verus!
