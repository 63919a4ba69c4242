use vstd::pervasive::VecAdditionalExecFns;
use vstd::prelude::*;

verus! {

/// Fixed-length store of byte cells; the view is the sequence of cell values.
/// The length is chosen at creation and never changes afterwards.
pub struct Tape {
    data: Vec<u8>,
}

impl View for Tape {
    type V = Seq<u8>;

    closed spec fn view(&self) -> Seq<u8> {
        self.data@
    }
}

impl Tape {
    /// Creates a tape of `length` cells, all zero.
    pub fn new(length: usize) -> (t: Tape)
        ensures
            t@.len() == length,
            forall|i: int| 0 <= i < length ==> t@[i] == 0u8,
    {
        let mut data: Vec<u8> = Vec::new();
        while data.len() < length
            invariant
                data@.len() <= length,
                forall|i: int| 0 <= i < data@.len() ==> data@[i] == 0u8,
            decreases length - data@.len(),
        {
            data.push(0u8);
        }
        Tape { data }
    }

    pub fn len(&self) -> (n: usize)
        ensures
            n == self@.len(),
    {
        self.data.len()
    }

    /// Reads the cell at `index`; yields nothing when the index is off the tape.
    pub fn read(&self, index: usize) -> (r: Option<u8>)
        ensures
            index < self@.len() ==> r == Some(self@[index as int]),
            index >= self@.len() ==> r is None,
    {
        if index < self.data.len() {
            Some(self.data[index])
        } else {
            None
        }
    }

    /// Writes `value` at `index`; fails, changing nothing, when the index is
    /// off the tape.
    pub fn write(&mut self, index: usize, value: u8) -> (r: Result<(), ()>)
        ensures
            index < old(self)@.len() ==> r is Ok && final(self)@ == old(self)@.update(
                index as int,
                value,
            ),
            index >= old(self)@.len() ==> r is Err && final(self)@ == old(self)@,
    {
        if index < self.data.len() {
            self.data.set(index, value);
            Ok(())
        } else {
            Err(())
        }
    }
}

} // verus!
