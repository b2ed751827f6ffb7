//! A dictionary of values indexed by a `usize`, and successor/predecessor
//! search for dictionaries whose values increase monotonically.

use vstd::prelude::*;

verus! {

/// A dictionary of values indexed by a `usize`.
pub trait IndexedDict {
    /// The values, in index order.
    spec fn dict(&self) -> Seq<u64>;

    /// Return the value at the specified index.
    fn get(&self, index: usize) -> (r: u64)
        requires
            index < self.dict().len(),
        ensures
            r == self.dict()[index as int],
    ;

    /// Return true if the dictionary contains the given value.
    fn contains(&self, value: u64) -> (r: bool)
        ensures
            r == self.dict().contains(value),
    ;

    /// Return the length (number of items) of the dictionary.
    fn len(&self) -> (r: usize)
        ensures
            r == self.dict().len(),
    ;

    /// Return true if the dictionary holds no item.
    fn is_empty(&self) -> (r: bool)
        ensures
            r == (self.dict().len() == 0),
    ;
}

/// The values increase monotonically with the index.
pub open spec fn monotone(d: Seq<u64>) -> bool {
    forall|i: int, j: int| 0 <= i <= j < d.len() ==> d[i] <= d[j]
}

/// Successor computation for dictionaries whose values are monotonically
/// increasing: the first value greater than or equal to the given one.
pub trait Successor: IndexedDict {
    /// Return the index of the successor and the successor of the given
    /// value, or `None` if there is no successor.
    fn successor(&self, value: u64) -> (r: Option<(usize, u64)>)
        requires
            monotone(self.dict()),
        ensures
            match r {
                Some(p) => {
                    &&& p.0 < self.dict().len()
                    &&& self.dict()[p.0 as int] == p.1
                    &&& p.1 >= value
                    &&& forall|j: int| 0 <= j < p.0 ==> self.dict()[j] < value
                },
                None => forall|j: int| 0 <= j < self.dict().len() ==> self.dict()[j] < value,
            },
    ;
}

/// Predecessor computation for dictionaries whose values are monotonically
/// increasing: the last value strictly less than the given one.
pub trait Predecessor: IndexedDict {
    /// Return the index of the predecessor and the predecessor of the given
    /// value, or `None` if there is no predecessor.
    fn predecessor(&self, value: u64) -> (r: Option<(usize, u64)>)
        requires
            monotone(self.dict()),
        ensures
            match r {
                Some(p) => {
                    &&& p.0 < self.dict().len()
                    &&& self.dict()[p.0 as int] == p.1
                    &&& p.1 < value
                    &&& forall|j: int|
                        p.0 < j < self.dict().len() ==> self.dict()[j] >= value
                },
                None => forall|j: int| 0 <= j < self.dict().len() ==> self.dict()[j] >= value,
            },
    ;
}

} // verus!
