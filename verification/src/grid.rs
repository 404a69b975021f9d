//! A rectangular store of values with bounds-checked access: the backing
//! representation for a client's mirror of the playing field.

use vstd::prelude::*;

verus! {

/// A rows x cols array of values of one type.
pub struct State<T: Copy> {
    data: Vec<Vec<T>>,
}

impl<T: Copy> State<T> {
    /// The stored rectangle, one inner sequence per row.
    pub closed spec fn view(&self) -> Seq<Seq<T>> {
        self.data@.map_values(|r: Vec<T>| r@)
    }

    /// Builds a rows x cols store with every slot holding `initial`.
    pub fn new(initial: T, rows: usize, cols: usize) -> (r: State<T>)
        ensures
            r@.len() == rows,
            forall|i: int| 0 <= i < rows ==> (#[trigger] r@[i]).len() == cols,
            forall|i: int, j: int|
                0 <= i < rows && 0 <= j < cols ==> #[trigger] r@[i][j] == initial,
    {
        let mut data: Vec<Vec<T>> = Vec::new();
        for i in 0..rows
            invariant
                data@.len() == i,
                forall|a: int| 0 <= a < i ==> (#[trigger] data@[a]@).len() == cols,
                forall|a: int, b: int|
                    0 <= a < i && 0 <= b < cols ==> #[trigger] data@[a]@[b] == initial,
        {
            let mut row: Vec<T> = Vec::new();
            for j in 0..cols
                invariant
                    row@.len() == j,
                    forall|b: int| 0 <= b < j ==> #[trigger] row@[b] == initial,
            {
                row.push(initial);
            }
            data.push(row);
        }
        State { data }
    }

    /// Reads the slot at (row, col); `None` exactly when the position lies
    /// outside the rectangle.
    pub fn get(&self, row: usize, col: usize) -> (r: Option<&T>)
        ensures
            match r {
                Some(v) => row < self@.len() && col < self@[row as int].len()
                    && *v == self@[row as int][col as int],
                None => row >= self@.len() || col >= self@[row as int].len(),
            },
    {
        if row < self.data.len() {
            let inner = &self.data[row];
            if col < inner.len() {
                Some(&inner[col])
            } else {
                None
            }
        } else {
            None
        }
    }

    /// Writes `value` into the slot at (row, col), which must exist.
    pub fn set(&mut self, row: usize, col: usize, value: T)
        requires
            row < old(self)@.len(),
            col < old(self)@[row as int].len(),
        ensures
            final(self)@ == old(self)@.update(
                row as int,
                old(self)@[row as int].update(col as int, value),
            ),
    {
        let inner = &mut self.data[row];
        inner[col] = value;
        proof {
            assert(final(self)@ =~~= old(self)@.update(
                row as int,
                old(self)@[row as int].update(col as int, value),
            ));
        }
    }
}

} // verus!
