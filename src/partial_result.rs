//! Output values collected slot by slot, handed out once all are present.
use vstd::prelude::*;
use vstd::pervasive::VecAdditionalExecFns;
use crate::values::Value;

verus! {

/// One optional value per output slot.
#[derive(Debug, PartialEq, Eq)]
pub struct PartialResult {
    pub slots: Vec<Option<Value>>,
}

impl PartialResult {
    /// `n` slots, none of them set.
    pub fn empty(n: usize) -> (r: PartialResult)
        ensures
            r.slots@.len() == n,
            forall|i: int| 0 <= i < n ==> #[trigger] r.slots@[i] is None,
    {
        let mut slots: Vec<Option<Value>> = Vec::new();
        let mut i: usize = 0;
        while i < n
            invariant
                i <= n,
                slots@.len() == i,
                forall|j: int| 0 <= j < i ==> #[trigger] slots@[j] is None,
            decreases n - i,
        {
            slots.push(None);
            i = i + 1;
        }
        PartialResult { slots }
    }

    /// Whether slot `elem` holds a value.
    pub fn is_initialized(&self, elem: usize) -> (b: bool)
        requires
            elem < self.slots@.len(),
        ensures
            b == self.slots@[elem as int] is Some,
    {
        self.slots[elem].is_some()
    }

    pub open spec fn full(&self) -> bool {
        forall|i: int| 0 <= i < self.slots@.len() ==> #[trigger] self.slots@[i] is Some
    }

    /// Whether every slot holds a value.
    pub fn is_fully_initialized(&self) -> (b: bool)
        ensures
            b == self.full(),
    {
        let mut i: usize = 0;
        while i < self.slots.len()
            invariant
                i <= self.slots@.len(),
                forall|j: int| 0 <= j < i ==> #[trigger] self.slots@[j] is Some,
            decreases self.slots@.len() - i,
        {
            if self.slots[i].is_none() {
                return false;
            }
            i = i + 1;
        }
        true
    }

    /// Stores `v` in slot `elem`.
    pub fn set(&mut self, elem: usize, v: Value)
        requires
            elem < old(self).slots@.len(),
        ensures
            final(self).slots@ == old(self).slots@.update(elem as int, Some(v)),
    {
        self.slots.set(elem, Some(v));
    }

    /// Empties slot `elem`.
    pub fn set_uninitialized(&mut self, elem: usize)
        requires
            elem < old(self).slots@.len(),
        ensures
            final(self).slots@ == old(self).slots@.update(elem as int, None),
    {
        self.slots.set(elem, None);
    }

    /// Takes all values out when every slot holds one, leaving every slot
    /// empty; otherwise returns `None` and changes nothing.
    pub fn take(&mut self) -> (r: Option<Vec<Value>>)
        ensures
            old(self).full() ==> (r matches Some(v) && v@.len() == old(self).slots@.len() && (forall|
                i: int,
            | 0 <= i < v@.len() ==> Some(#[trigger] v@[i]) == old(self).slots@[i])),
            old(self).full() ==> final(self).slots@.len() == old(self).slots@.len() && forall|i: int|
                0 <= i < final(self).slots@.len() ==> #[trigger] final(self).slots@[i] is None,
            !old(self).full() ==> r is None && final(self).slots@ == old(self).slots@,
    {
        if !self.is_fully_initialized() {
            return None;
        }
        let n = self.slots.len();
        let mut out: Vec<Value> = Vec::new();
        let mut i: usize = 0;
        while i < n
            invariant
                n == self.slots@.len() == old(self).slots@.len(),
                i <= n,
                out@.len() == i,
                forall|j: int| 0 <= j < i ==> Some(#[trigger] out@[j]) == old(self).slots@[j],
                forall|j: int| 0 <= j < i ==> #[trigger] self.slots@[j] is None,
                forall|j: int| i <= j < n ==> #[trigger] self.slots@[j] == old(self).slots@[j],
                old(self).full(),
            decreases n - i,
        {
            let mut cell: Option<Value> = None;
            self.slots.set_and_swap(i, &mut cell);
            assert(cell == old(self).slots@[i as int]);
            match cell {
                Some(v) => out.push(v),
                None => {
                    assert(old(self).slots@[i as int] is Some);
                },
            }
            i = i + 1;
        }
        Some(out)
    }
}

} // verus!
