//! Small data utilities: element-wise vector conversion and matrix
//! transposition.

use vstd::prelude::*;
use vstd::std_specs::convert::IntoSpec;

verus! {

/// Convert every element of a vector through `Into`, preserving order and
/// length. For conversions whose `From` follows its specification the
/// elements are pinned exactly.
pub fn convert_vecs<T, U>(v: Vec<T>) -> (r: Vec<U>)
    where T: Into<U>,
    ensures
        r@.len() == v@.len(),
        <T as IntoSpec<U>>::obeys_into_spec()
            ==> forall|i: int| 0 <= i < v@.len()
                ==> #[trigger] r@[i] == <T as IntoSpec<U>>::into_spec(v@[i]),
{
    let ghost orig = v@;
    let mut v = v;
    let mut out: Vec<U> = Vec::new();
    while v.len() > 0
        invariant
            out@.len() + v@.len() == orig.len(),
            v@ == orig.skip(out@.len() as int),
            <T as IntoSpec<U>>::obeys_into_spec()
                ==> forall|i: int| 0 <= i < out@.len()
                    ==> #[trigger] out@[i] == <T as IntoSpec<U>>::into_spec(orig[i]),
        decreases v@.len(),
    {
        let x = v.remove(0);
        let y: U = x.into();
        out.push(y);
        proof {
            assert(v@ =~= orig.skip(out@.len() as int));
        }
    }
    out
}

/// Transpose a non-empty matrix of rows: entry `(i, j)` of the result is
/// entry `(j, i)` of the input. Rows longer than the first are truncated to
/// its length; shorter rows are ruled out, as they have no entry to give.
pub fn transpose<T: Copy>(v: Vec<Vec<T>>) -> (r: Vec<Vec<T>>)
    requires
        v@.len() > 0,
        forall|j: int| 0 <= j < v@.len() ==> (#[trigger] v@[j])@.len() >= v@[0]@.len(),
    ensures
        r@.len() == v@[0]@.len(),
        forall|i: int| 0 <= i < r@.len() ==> (#[trigger] r@[i])@.len() == v@.len(),
        forall|i: int, j: int| 0 <= i < r@.len() && 0 <= j < v@.len()
            ==> #[trigger] r@[i]@[j] == v@[j]@[i],
{
    let len = v[0].len();
    let rows = v.len();
    let mut out: Vec<Vec<T>> = Vec::new();
    let mut i: usize = 0;
    while i < len
        invariant
            len == v@[0]@.len(),
            rows == v@.len() > 0,
            forall|j: int| 0 <= j < v@.len() ==> (#[trigger] v@[j])@.len() >= len,
            i <= len,
            out@.len() == i,
            forall|i2: int| 0 <= i2 < i ==> (#[trigger] out@[i2])@.len() == rows,
            forall|i2: int, j: int| 0 <= i2 < i && 0 <= j < rows
                ==> #[trigger] out@[i2]@[j] == v@[j]@[i2],
        decreases len - i,
    {
        let mut row: Vec<T> = Vec::new();
        let mut j: usize = 0;
        while j < rows
            invariant
                len == v@[0]@.len(),
                rows == v@.len() > 0,
                forall|j2: int| 0 <= j2 < v@.len() ==> (#[trigger] v@[j2])@.len() >= len,
                i < len,
                j <= rows,
                row@.len() == j,
                forall|j2: int| 0 <= j2 < j ==> #[trigger] row@[j2] == v@[j2]@[i as int],
            decreases rows - j,
        {
            let x = v[j][i];
            row.push(x);
            j = j + 1;
        }
        out.push(row);
        i = i + 1;
    }
    out
}

} // verus!
