//! Turning a list of rows into the list of its columns.

use vstd::prelude::*;

verus! {

/// The rows of a nested vector, each as a sequence.
pub open spec fn rows_of<T>(vecs: Seq<Vec<T>>) -> Seq<Seq<T>> {
    Seq::new(vecs.len(), |j: int| vecs[j]@)
}

/// The length of the longest row; 0 where there is no row.
pub open spec fn widest<T>(rows: Seq<Seq<T>>) -> nat
    decreases rows.len(),
{
    if rows.len() == 0 {
        0
    } else if widest(rows.drop_last()) < rows.last().len() {
        rows.last().len()
    } else {
        widest(rows.drop_last())
    }
}

/// What stands at `index` in each row that is long enough to hold it, in the order of the rows.
pub open spec fn column<T>(rows: Seq<Seq<T>>, index: int) -> Seq<T>
    decreases rows.len(),
{
    if rows.len() == 0 {
        Seq::empty()
    } else if 0 <= index < rows.last().len() {
        column(rows.drop_last(), index).push(rows.last()[index])
    } else {
        column(rows.drop_last(), index)
    }
}

/// No row is longer than the widest, and where there is a row, one of them is that long.
pub proof fn lemma_widest_bounds<T>(rows: Seq<Seq<T>>)
    ensures
        forall|j: int| 0 <= j < rows.len() ==> (#[trigger] rows[j]).len() <= widest(rows),
        rows.len() > 0 ==> exists|j: int| 0 <= j < rows.len() && (#[trigger] rows[j]).len() == widest(rows),
    decreases rows.len(),
{
    if rows.len() > 0 {
        let front = rows.drop_last();
        lemma_widest_bounds(front);
        assert forall|j: int| 0 <= j < rows.len() implies (#[trigger] rows[j]).len() <= widest(
            rows,
        ) by {
            if j < front.len() {
                assert(front[j] == rows[j]);
            }
        }
        if widest(front) < rows.last().len() || front.len() == 0 {
            assert(rows[rows.len() - 1].len() == widest(rows));
        } else {
            let j = choose|j: int| 0 <= j < front.len() && (#[trigger] front[j]).len() == widest(front);
            assert(rows[j] == front[j]);
        }
    }
}

/// Where every row has the same length, the columns are the transposed matrix: column `i`
/// has one entry for each row, and its entry `j` is entry `i` of row `j`.
pub proof fn lemma_column_of_matrix<T>(rows: Seq<Seq<T>>, width: nat, index: int)
    requires
        forall|j: int| 0 <= j < rows.len() ==> (#[trigger] rows[j]).len() == width,
        0 <= index < width,
    ensures
        column(rows, index).len() == rows.len(),
        forall|j: int| 0 <= j < rows.len() ==> column(rows, index)[j] == rows[j][index],
        rows.len() > 0 ==> widest(rows) == width,
    decreases rows.len(),
{
    if rows.len() > 0 {
        let front = rows.drop_last();
        assert forall|j: int| 0 <= j < front.len() implies (#[trigger] front[j]).len() == width by {
            assert(front[j] == rows[j]);
        }
        lemma_column_of_matrix(front, width, index);
        assert(rows[rows.len() - 1].len() == width);
        if front.len() == 0 {
            assert(widest(front) == 0);
        }
        assert forall|j: int| 0 <= j < rows.len() implies column(rows, index)[j]
            == rows[j][index] by {
            if j < front.len() {
                assert(front[j] == rows[j]);
            }
        }
    }
}

/// The length of the longest of `vecs`.
fn longest_row<T>(vecs: &Vec<Vec<T>>) -> (width: usize)
    ensures
        width == widest(rows_of(vecs@)),
{
    let mut width: usize = 0;
    let mut j: usize = 0;
    while j < vecs.len()
        invariant
            j <= vecs.len(),
            width == widest(rows_of(vecs@).take(j as int)),
        decreases vecs.len() - j,
    {
        proof {
            let upto = rows_of(vecs@).take(j + 1);
            assert(upto.drop_last() =~= rows_of(vecs@).take(j as int));
            assert(upto.last() == vecs[j as int]@);
        }
        if vecs[j].len() > width {
            width = vecs[j].len();
        }
        j = j + 1;
    }
    assert(rows_of(vecs@).take(vecs.len() as int) =~= rows_of(vecs@));
    width
}

/// Turns rows into columns. Column `i` of the result holds entry `i` of every row that has
/// one, in the order of the rows; there are as many columns as the longest row has entries,
/// and none where there is no row. For rows of one length this is the transposed matrix.
pub fn flip_vectors<T>(vecs: Vec<Vec<T>>) -> (flipped: Vec<Vec<T>>)
    ensures
        flipped.len() == widest(rows_of(vecs@)),
        forall|i: int|
            0 <= i < flipped.len() ==> (#[trigger] flipped[i])@ == column(rows_of(vecs@), i),
{
    let width: usize = longest_row(&vecs);
    let mut flipped: Vec<Vec<T>> = Vec::new();
    while flipped.len() < width
        invariant
            flipped.len() <= width,
            forall|i: int| 0 <= i < flipped.len() ==> (#[trigger] flipped[i])@ == Seq::<T>::empty(),
        decreases width - flipped.len(),
    {
        flipped.push(Vec::new());
    }
    let ghost rows = rows_of(vecs@);
    proof {
        lemma_widest_bounds(rows);
        assert(rows.take(0) =~= Seq::<Seq<T>>::empty());
    }
    for row in outer: vecs
        invariant
            rows == rows_of(outer.seq()),
            width == widest(rows),
            forall|j: int| 0 <= j < rows.len() ==> (#[trigger] rows[j]).len() <= width,
            flipped.len() == width,
            forall|i: int|
                0 <= i < width ==> (#[trigger] flipped[i])@ == column(rows.take(outer.index()), i),
    {
        let ghost done = rows.take(outer.index());
        let ghost current = row@;
        assert(current == rows[outer.index()]);
        let mut index: usize = 0;
        for entry in inner: row
            invariant
                current == inner.seq(),
                index == inner.index(),
                current.len() <= width,
                flipped.len() == width,
                forall|i: int|
                    0 <= i < width ==> (#[trigger] flipped[i])@ == if i < index {
                        column(done, i).push(current[i])
                    } else {
                        column(done, i)
                    },
        {
            flipped[index].push(entry);
            index = index + 1;
        }
        proof {
            let next = rows.take(outer.index() + 1);
            assert(next.drop_last() =~= done);
            assert(next.last() == current);
        }
    }
    assert(rows.take(rows.len() as int) =~= rows);
    flipped
}

} // verus!
