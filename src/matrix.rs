//! Dense matrices and rectangular views into them.
use vstd::prelude::*;

verus! {

/// A position as (line, column).
pub type Coordinate = (usize, usize);

/// The lines `top_left.0 .. bottom_right.0` and the columns
/// `top_left.1 .. bottom_right.1` of a matrix.
#[derive(Debug, Clone, Copy, PartialEq, Eq)]
pub struct MatrixSlice {
    pub top_left: Coordinate,
    pub bottom_right: Coordinate,
}

impl MatrixSlice {
    /// The top left corner comes before the bottom right one.
    pub open spec fn wf(&self) -> bool {
        self.top_left.0 <= self.bottom_right.0 && self.top_left.1 <= self.bottom_right.1
    }

    /// The whole of a matrix of the given size.
    pub fn new(num_of_lines: usize, num_of_columns: usize) -> (r: Self)
        ensures
            r.wf(),
            r.top_left == (0usize, 0usize),
            r.bottom_right == (num_of_lines, num_of_columns),
    {
        Self { top_left: (0, 0), bottom_right: (num_of_lines, num_of_columns) }
    }

    /// Splits the slice into its four quadrants `(A11, A12, A21, A22)` at the
    /// middle line and column (rounded down).
    pub fn split_4(self) -> (r: (Self, Self, Self, Self))
        requires
            self.wf(),
        ensures
            ({
                let y0 = self.top_left.0;
                let x0 = self.top_left.1;
                let y1 = self.bottom_right.0;
                let x1 = self.bottom_right.1;
                let ym = (y0 + (y1 - y0) / 2) as usize;
                let xm = (x0 + (x1 - x0) / 2) as usize;
                &&& r.0 == MatrixSlice { top_left: (y0, x0), bottom_right: (ym, xm) }
                &&& r.1 == MatrixSlice { top_left: (y0, xm), bottom_right: (ym, x1) }
                &&& r.2 == MatrixSlice { top_left: (ym, x0), bottom_right: (y1, xm) }
                &&& r.3 == MatrixSlice { top_left: (ym, xm), bottom_right: (y1, x1) }
            }),
            r.0.wf() && r.1.wf() && r.2.wf() && r.3.wf(),
    {
        let y0 = self.top_left.0;
        let x0 = self.top_left.1;
        let y1 = self.bottom_right.0;
        let x1 = self.bottom_right.1;

        let half_height = (y1 - y0) / 2;
        let half_width = (x1 - x0) / 2;

        let x_mid = x0 + half_width;
        let y_mid = y0 + half_height;

        (
            // A11
            Self { top_left: (y0, x0), bottom_right: (y_mid, x_mid) },
            // A12
            Self { top_left: (y0, x_mid), bottom_right: (y_mid, x1) },
            // A21
            Self { top_left: (y_mid, x0), bottom_right: (y1, x_mid) },
            // A22
            Self { top_left: (y_mid, x_mid), bottom_right: (y1, x1) },
        )
    }
}

/// A matrix stored line by line.
pub struct Matrix<T> {
    data: Vec<Vec<T>>,
    num_of_lines: usize,
    num_of_columns: usize,
}

impl<T: Copy> Matrix<T> {
    /// The lines of the matrix.
    pub closed spec fn lines(&self) -> Seq<Seq<T>> {
        self.data@.map_values(|l: Vec<T>| l@)
    }

    /// The number of columns.
    pub closed spec fn columns(&self) -> nat {
        self.num_of_columns as nat
    }

    /// Every line has the same number of columns.
    pub open spec fn wf(&self) -> bool {
        forall|i: int| 0 <= i < self.lines().len() ==> (#[trigger] self.lines()[i]).len() == self.columns()
    }

    /// A matrix of the given size filled with `default`.
    pub fn new(num_of_lines: usize, num_of_columns: usize, default: T) -> (r: Self)
        ensures
            r.wf(),
            r.lines().len() == num_of_lines,
            r.columns() == num_of_columns,
            forall|i: int, j: int|
                0 <= i < num_of_lines && 0 <= j < num_of_columns ==> #[trigger] r.lines()[i][j] == default,
    {
        let mut data: Vec<Vec<T>> = Vec::new();
        for i in 0..num_of_lines
            invariant
                data@.len() == i,
                forall|k: int| 0 <= k < i ==> (#[trigger] data@[k])@.len() == num_of_columns,
                forall|k: int, j: int| 0 <= k < i && 0 <= j < num_of_columns ==> #[trigger] data@[k]@[j] == default,
        {
            let mut line: Vec<T> = Vec::new();
            for j in 0..num_of_columns
                invariant
                    line@.len() == j,
                    forall|c: int| 0 <= c < j ==> #[trigger] line@[c] == default,
            {
                line.push(default);
            }
            data.push(line);
        }
        Self { data, num_of_columns, num_of_lines }
    }

    /// The matrix whose lines are `data`, which must all be as long.
    pub fn from_data(data: Vec<Vec<T>>) -> (r: Self)
        requires
            forall|i: int| 0 <= i < data@.len() ==> (#[trigger] data@[i])@.len() == data@[0]@.len(),
        ensures
            r.wf(),
            r.lines() == data@.map_values(|l: Vec<T>| l@),
            r.columns() == (if data@.len() == 0 { 0 } else { data@[0]@.len() }),
    {
        let num_of_lines = data.len();
        let num_of_columns = if num_of_lines == 0 {
            0
        } else {
            data[0].len()
        };
        Self { data, num_of_columns, num_of_lines }
    }

    /// Number of lines.
    pub fn num_of_lines(&self) -> (r: usize)
        ensures
            r == self.lines().len(),
    {
        self.data.len()
    }
}

} // verus!
