//! Results that arrive in any order and are kept in a fixed one.
use vstd::prelude::*;

verus! {

/// A row of places, each empty or filled.
pub struct Slots<T> {
    cells: Vec<Option<T>>,
}

impl<T> View for Slots<T> {
    type V = Seq<Option<T>>;

    closed spec fn view(&self) -> Seq<Option<T>> {
        self.cells@
    }
}

/// The filled places, in order.
pub open spec fn present<T>(cells: Seq<Option<T>>) -> Seq<T>
    decreases cells.len(),
{
    if cells.len() == 0 {
        seq![]
    } else {
        match cells.last() {
            Some(value) => present(cells.drop_last()).push(value),
            None => present(cells.drop_last()),
        }
    }
}

impl<T> Slots<T> {
    /// A row of `count` empty places.
    pub fn new(count: usize) -> (r: Self)
        ensures
            r@.len() == count,
            forall|i: int| 0 <= i < count ==> (#[trigger] r@[i]) is None,
    {
        let mut cells: Vec<Option<T>> = Vec::new();
        let mut i: usize = 0;
        while i < count
            invariant
                i <= count,
                cells@.len() == i,
                forall|t: int| 0 <= t < i ==> (#[trigger] cells@[t]) is None,
            decreases count - i,
        {
            cells.push(None);
            i += 1;
        }
        Slots { cells }
    }

    /// How many places the row has.
    pub fn len(&self) -> (r: usize)
        ensures
            r == self@.len(),
    {
        self.cells.len()
    }

    /// Fills the place `index`.
    pub fn put(&mut self, index: usize, value: T)
        requires
            index < old(self)@.len(),
        ensures
            final(self)@ == old(self)@.update(index as int, Some(value)),
    {
        self.cells.set(index, Some(value));
    }

    /// Whether every place is filled.
    pub fn is_full(&self) -> (r: bool)
        ensures
            r == forall|i: int| 0 <= i < self@.len() ==> (#[trigger] self@[i]) is Some,
    {
        let mut i: usize = 0;
        while i < self.cells.len()
            invariant
                i <= self.cells@.len(),
                forall|t: int| 0 <= t < i ==> (#[trigger] self.cells@[t]) is Some,
            decreases self.cells@.len() - i,
        {
            if self.cells[i].is_none() {
                assert(self@[i as int] is None);
                return false;
            }
            i += 1;
        }
        true
    }

    /// The filled places, in order.
    pub fn into_values(self) -> (r: Vec<T>)
        ensures
            r@ == present(self@),
    {
        let ghost all = self.cells@;
        let mut r: Vec<T> = Vec::new();
        for cell in it: self.cells
            invariant
                it.seq() == all,
                r@ == present(all.take(it.index() as int)),
        {
            proof {
                assert(all.take(it.index() + 1).drop_last() =~= all.take(it.index() as int));
                assert(all.take(it.index() + 1).last() == cell);
            }
            if let Some(value) = cell {
                r.push(value);
            }
        }
        proof {
            assert(all.take(all.len() as int) =~= all);
        }
        r
    }
}

/// A full row hands out what was put into each place, in the order of the
/// places.
pub proof fn full_row_keeps_order<T>(cells: Seq<Option<T>>)
    requires
        forall|i: int| 0 <= i < cells.len() ==> (#[trigger] cells[i]) is Some,
    ensures
        present(cells).len() == cells.len(),
        forall|i: int| 0 <= i < cells.len() ==> Some(#[trigger] present(cells)[i]) == cells[i],
    decreases cells.len(),
{
    if cells.len() > 0 {
        let head = cells.drop_last();
        assert forall|i: int| 0 <= i < head.len() implies (#[trigger] head[i]) is Some by {
            assert(head[i] == cells[i]);
        }
        full_row_keeps_order(head);
        assert forall|i: int| 0 <= i < cells.len() implies Some(#[trigger] present(cells)[i])
            == cells[i] by {
            if i < head.len() {
                assert(present(cells)[i] == present(head)[i]);
            }
        }
    }
}

/// The order in which two different places are filled does not matter.
pub proof fn filling_commutes<T>(cells: Seq<Option<T>>, i: int, x: T, j: int, y: T)
    requires
        0 <= i < cells.len(),
        0 <= j < cells.len(),
        i != j,
    ensures
        cells.update(i, Some(x)).update(j, Some(y)) == cells.update(j, Some(y)).update(i, Some(x)),
{
    assert(cells.update(i, Some(x)).update(j, Some(y)) =~= cells.update(j, Some(y)).update(
        i,
        Some(x),
    ));
}

/// The filled places are kept in their order and empty ones leave no trace.
pub proof fn filled_places_keep_their_order<T>(cells: Seq<Option<T>>)
    ensures
        present(cells) == cells.filter(|cell: Option<T>| cell is Some).map_values(
            |cell: Option<T>| cell->Some_0,
        ),
    decreases cells.len(),
{
    reveal(Seq::filter);
    let all = cells.filter(|cell: Option<T>| cell is Some);
    if cells.len() > 0 {
        filled_places_keep_their_order(cells.drop_last());
        let head = cells.drop_last().filter(|cell: Option<T>| cell is Some);
        if cells.last() is Some {
            assert(all.map_values(|cell: Option<T>| cell->Some_0) =~= head.map_values(
                |cell: Option<T>| cell->Some_0,
            ).push(cells.last()->Some_0));
        }
    } else {
        assert(all.map_values(|cell: Option<T>| cell->Some_0) =~= Seq::<T>::empty());
    }
}

/// Whatever `into_values` returns of a full row are its values, each at its
/// place.
pub proof fn full_rows_come_out_in_order<T>(row: Slots<T>, r: Vec<T>)
    requires
        call_ensures(Slots::<T>::into_values, (row,), r),
        forall|i: int| 0 <= i < row@.len() ==> (#[trigger] row@[i]) is Some,
    ensures
        r@.len() == row@.len(),
        forall|i: int| 0 <= i < row@.len() ==> Some(#[trigger] r@[i]) == row@[i],
{
    full_row_keeps_order(row@);
}

} // verus!
