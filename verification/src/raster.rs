//! Rasters held in `ndarray` arrays.
//!
//! Each raster type wraps one owned array. What an array holds is named by two
//! functions, its shape and its cells; the functions marked as trusted say what
//! the `ndarray` calls do to them.
use ndarray::{Array2, Array3};
use vstd::prelude::*;

verus! {

/// A length as it counts for the size limit of an array: empty axes are left out.
pub open spec fn axis_weight(n: nat) -> nat {
    if n == 0 {
        1
    } else {
        n
    }
}

/// An array of this shape can be allocated: the product of its non-empty axes and
/// its size in bytes are both at most `isize::MAX`.
pub open spec fn fits2(rows: nat, cols: nat, cell_bytes: nat) -> bool {
    &&& axis_weight(rows) * axis_weight(cols) <= isize::MAX
    &&& rows * cols * cell_bytes <= isize::MAX
}

/// An array of this shape can be allocated.
pub fn can_hold(rows: usize, cols: usize, cell_bytes: usize) -> (r: bool)
    ensures
        r == fits2(rows as nat, cols as nat, cell_bytes as nat),
{
    let a: u128 = if rows == 0 {
        1
    } else {
        rows as u128
    };
    let b: u128 = if cols == 0 {
        1
    } else {
        cols as u128
    };
    assert(a * b <= u64::MAX * u64::MAX && 0 <= a * b) by (nonlinear_arith)
        requires
            0 <= a <= u64::MAX,
            0 <= b <= u64::MAX,
    ;
    let limit: u128 = isize::MAX as u128;
    if a * b > limit {
        return false;
    }
    assert(0 <= rows * cols <= a * b) by (nonlinear_arith)
        requires
            0 <= rows <= a,
            0 <= cols <= b,
    ;
    let cells: u128 = rows as u128 * cols as u128;
    assert(cells * cell_bytes <= u64::MAX * u64::MAX && 0 <= cells * cell_bytes) by (nonlinear_arith)
        requires
            0 <= cells <= u64::MAX,
            0 <= cell_bytes <= u64::MAX,
    ;
    cells * cell_bytes as u128 <= limit
}

/// As `fits2`, for three axes.
pub open spec fn fits3(bands: nat, rows: nat, cols: nat, cell_bytes: nat) -> bool {
    &&& axis_weight(bands) * axis_weight(rows) * axis_weight(cols) <= isize::MAX
    &&& bands * rows * cols * cell_bytes <= isize::MAX
}

/// A stack of spectral bands: band, row, column.
#[verifier::external_body]
#[derive(Debug)]
pub struct BandStack {
    inner: Array3<u16>,
}

/// Bands, rows and columns of the array.
pub uninterp spec fn stack_shape(a: BandStack) -> (nat, nat, nat);

/// The cells of the array by band, row and column.
pub uninterp spec fn stack_cells(a: BandStack) -> Map<(int, int, int), u16>;

/// Trusted: `ndarray::ArrayBase::from_elem` gives an array of the asked shape whose
/// cells all hold the value. It panics only where the shape does not fit.
#[verifier::external_body]
fn stack_from_elem(bands: usize, rows: usize, cols: usize, value: u16) -> (a: BandStack)
    requires
        fits3(bands as nat, rows as nat, cols as nat, 2),
    ensures
        stack_shape(a) == (bands as nat, rows as nat, cols as nat),
        forall|b: int, r: int, c: int|
            0 <= b < bands && 0 <= r < rows && 0 <= c < cols ==> #[trigger] stack_cells(a)[(b, r, c)]
                == value,
{
    BandStack { inner: Array3::from_elem((bands, rows, cols), value) }
}

/// Trusted: `ndarray::ArrayBase::dim` gives the shape. An array that exists fits its
/// limits.
#[verifier::external_body]
fn stack_dim(a: &BandStack) -> (d: (usize, usize, usize))
    ensures
        (d.0 as nat, d.1 as nat, d.2 as nat) == stack_shape(*a),
        fits3(d.0 as nat, d.1 as nat, d.2 as nat, 2),
{
    a.inner.dim()
}

/// Trusted: indexing an `ndarray` array inside its shape reads the cell.
#[verifier::external_body]
fn stack_index(a: &BandStack, band: usize, row: usize, col: usize) -> (value: u16)
    requires
        band < stack_shape(*a).0,
        row < stack_shape(*a).1,
        col < stack_shape(*a).2,
    ensures
        value == stack_cells(*a)[(band as int, row as int, col as int)],
{
    a.inner[[band, row, col]]
}

/// Trusted: assigning through an index of an `ndarray` array inside its shape
/// changes that cell and nothing else.
#[verifier::external_body]
fn stack_index_mut(a: &mut BandStack, band: usize, row: usize, col: usize, value: u16)
    requires
        band < stack_shape(*old(a)).0,
        row < stack_shape(*old(a)).1,
        col < stack_shape(*old(a)).2,
    ensures
        stack_shape(*final(a)) == stack_shape(*old(a)),
        stack_cells(*final(a)) == stack_cells(*old(a)).insert(
            (band as int, row as int, col as int),
            value,
        ),
{
    a.inner[[band, row, col]] = value;
}

impl BandStack {
    /// Number of bands.
    pub open spec fn bands(self) -> nat {
        stack_shape(self).0
    }

    /// Number of rows.
    pub open spec fn rows(self) -> nat {
        stack_shape(self).1
    }

    /// Number of columns.
    pub open spec fn cols(self) -> nat {
        stack_shape(self).2
    }

    /// The cell at a band, row and column.
    pub open spec fn at(self, band: int, row: int, col: int) -> u16 {
        stack_cells(self)[(band, row, col)]
    }

    /// A stack whose cells all hold `value`.
    pub fn filled(bands: usize, rows: usize, cols: usize, value: u16) -> (a: Self)
        requires
            fits3(bands as nat, rows as nat, cols as nat, 2),
        ensures
            a.bands() == bands,
            a.rows() == rows,
            a.cols() == cols,
            forall|b: int, r: int, c: int|
                0 <= b < bands && 0 <= r < rows && 0 <= c < cols ==> #[trigger] a.at(b, r, c) == value,
    {
        let a = stack_from_elem(bands, rows, cols, value);
        assert forall|b: int, r: int, c: int|
            0 <= b < bands && 0 <= r < rows && 0 <= c < cols implies #[trigger] a.at(b, r, c)
            == value by {
            assert(stack_cells(a)[(b, r, c)] == value);
        }
        a
    }

    /// Bands, rows and columns.
    pub fn dim(&self) -> (d: (usize, usize, usize))
        ensures
            d.0 == self.bands(),
            d.1 == self.rows(),
            d.2 == self.cols(),
            fits3(self.bands(), self.rows(), self.cols(), 2),
    {
        stack_dim(self)
    }

    /// Read a cell.
    pub fn get(&self, band: usize, row: usize, col: usize) -> (value: u16)
        requires
            band < self.bands(),
            row < self.rows(),
            col < self.cols(),
        ensures
            value == self.at(band as int, row as int, col as int),
    {
        stack_index(self, band, row, col)
    }

    /// Write a cell; every other cell keeps its value.
    pub fn set(&mut self, band: usize, row: usize, col: usize, value: u16)
        requires
            band < old(self).bands(),
            row < old(self).rows(),
            col < old(self).cols(),
        ensures
            final(self).bands() == old(self).bands(),
            final(self).rows() == old(self).rows(),
            final(self).cols() == old(self).cols(),
            forall|b: int, r: int, c: int|
                #[trigger] final(self).at(b, r, c) == if b == band && r == row && c == col {
                    value
                } else {
                    old(self).at(b, r, c)
                },
    {
        stack_index_mut(self, band, row, col, value);
    }
}

/// One spectral band: row, column.
#[verifier::external_body]
#[derive(Debug)]
pub struct BandGrid {
    inner: Array2<u16>,
}

/// Rows and columns of the array.
pub uninterp spec fn band_shape(a: BandGrid) -> (nat, nat);

/// The cells of the array by row and column.
pub uninterp spec fn band_cells(a: BandGrid) -> Map<(int, int), u16>;

/// Trusted: `ndarray::ArrayBase::from_elem` gives an array of the asked shape whose
/// cells all hold the value. It panics only where the shape does not fit.
#[verifier::external_body]
fn band_from_elem(rows: usize, cols: usize, value: u16) -> (a: BandGrid)
    requires
        fits2(rows as nat, cols as nat, 2),
    ensures
        band_shape(a) == (rows as nat, cols as nat),
        forall|r: int, c: int|
            0 <= r < rows && 0 <= c < cols ==> #[trigger] band_cells(a)[(r, c)] == value,
{
    BandGrid { inner: Array2::from_elem((rows, cols), value) }
}

/// Trusted: `ndarray::ArrayBase::dim` gives the shape. An array that exists fits its
/// limits.
#[verifier::external_body]
fn band_dim(a: &BandGrid) -> (d: (usize, usize))
    ensures
        (d.0 as nat, d.1 as nat) == band_shape(*a),
        fits2(d.0 as nat, d.1 as nat, 2),
{
    a.inner.dim()
}

/// Trusted: indexing an `ndarray` array inside its shape reads the cell.
#[verifier::external_body]
fn band_index(a: &BandGrid, row: usize, col: usize) -> (value: u16)
    requires
        row < band_shape(*a).0,
        col < band_shape(*a).1,
    ensures
        value == band_cells(*a)[(row as int, col as int)],
{
    a.inner[[row, col]]
}

/// Trusted: assigning through an index of an `ndarray` array inside its shape
/// changes that cell and nothing else.
#[verifier::external_body]
fn band_index_mut(a: &mut BandGrid, row: usize, col: usize, value: u16)
    requires
        row < band_shape(*old(a)).0,
        col < band_shape(*old(a)).1,
    ensures
        band_shape(*final(a)) == band_shape(*old(a)),
        band_cells(*final(a)) == band_cells(*old(a)).insert((row as int, col as int), value),
{
    a.inner[[row, col]] = value;
}

/// Trusted: `ndarray::ArrayBase::from_shape_vec` lays the values out row by row, and
/// succeeds where there are as many values as cells and the shape fits.
#[verifier::external_body]
fn band_from_shape_vec(rows: usize, cols: usize, values: Vec<u16>) -> (a: Option<BandGrid>)
    ensures
        a is Some <==> (values@.len() == rows * cols && axis_weight(rows as nat) * axis_weight(
            cols as nat,
        ) <= isize::MAX),
        a matches Some(p) ==> {
            &&& band_shape(p) == (rows as nat, cols as nat)
            &&& forall|r: int, c: int|
                0 <= r < rows && 0 <= c < cols ==> #[trigger] band_cells(p)[(r, c)] == values@[r * cols
                    + c]
        },
{
    match Array2::from_shape_vec((rows, cols), values) {
        Ok(inner) => Some(BandGrid { inner }),
        Err(_) => None,
    }
}

impl BandGrid {
    /// Number of rows.
    pub open spec fn rows(self) -> nat {
        band_shape(self).0
    }

    /// Number of columns.
    pub open spec fn cols(self) -> nat {
        band_shape(self).1
    }

    /// The cell at a row and column.
    pub open spec fn at(self, row: int, col: int) -> u16 {
        band_cells(self)[(row, col)]
    }

    /// A raster whose cells all hold `value`.
    pub fn filled(rows: usize, cols: usize, value: u16) -> (a: Self)
        requires
            fits2(rows as nat, cols as nat, 2),
        ensures
            a.rows() == rows,
            a.cols() == cols,
            forall|r: int, c: int| 0 <= r < rows && 0 <= c < cols ==> #[trigger] a.at(r, c) == value,
    {
        let a = band_from_elem(rows, cols, value);
        assert forall|r: int, c: int| 0 <= r < rows && 0 <= c < cols implies #[trigger] a.at(r, c)
            == value by {
            assert(band_cells(a)[(r, c)] == value);
        }
        a
    }

    /// A raster from values given row by row; `None` where their number does not
    /// match the shape.
    pub fn from_values(rows: usize, cols: usize, values: Vec<u16>) -> (a: Option<Self>)
        ensures
            a is Some <==> (values@.len() == rows * cols && axis_weight(rows as nat) * axis_weight(
                cols as nat,
            ) <= isize::MAX),
            a matches Some(p) ==> {
                &&& p.rows() == rows
                &&& p.cols() == cols
                &&& forall|r: int, c: int|
                    0 <= r < rows && 0 <= c < cols ==> #[trigger] p.at(r, c) == values@[r * cols + c]
            },
    {
        let a = band_from_shape_vec(rows, cols, values);
        if let Some(p) = &a {
            assert forall|r: int, c: int| 0 <= r < rows && 0 <= c < cols implies #[trigger] p.at(r, c)
                == values@[r * cols + c] by {
                assert(band_cells(*p)[(r, c)] == values@[r * cols + c]);
            }
        }
        a
    }

    /// Rows and columns.
    pub fn dim(&self) -> (d: (usize, usize))
        ensures
            d.0 == self.rows(),
            d.1 == self.cols(),
            fits2(self.rows(), self.cols(), 2),
    {
        band_dim(self)
    }

    /// Read a cell.
    pub fn get(&self, row: usize, col: usize) -> (value: u16)
        requires
            row < self.rows(),
            col < self.cols(),
        ensures
            value == self.at(row as int, col as int),
    {
        band_index(self, row, col)
    }

    /// Write a cell; every other cell keeps its value.
    pub fn set(&mut self, row: usize, col: usize, value: u16)
        requires
            row < old(self).rows(),
            col < old(self).cols(),
        ensures
            final(self).rows() == old(self).rows(),
            final(self).cols() == old(self).cols(),
            forall|r: int, c: int|
                #[trigger] final(self).at(r, c) == if r == row && c == col {
                    value
                } else {
                    old(self).at(r, c)
                },
    {
        band_index_mut(self, row, col, value);
    }
}

/// Scene classes (SCL): row, column.
#[verifier::external_body]
#[derive(Debug)]
pub struct ClassGrid {
    inner: Array2<u8>,
}

/// Rows and columns of the array.
pub uninterp spec fn class_shape(a: ClassGrid) -> (nat, nat);

/// The cells of the array by row and column.
pub uninterp spec fn class_cells(a: ClassGrid) -> Map<(int, int), u8>;

/// Trusted: `ndarray::ArrayBase::from_elem` gives an array of the asked shape whose
/// cells all hold the value. It panics only where the shape does not fit.
#[verifier::external_body]
fn class_from_elem(rows: usize, cols: usize, value: u8) -> (a: ClassGrid)
    requires
        fits2(rows as nat, cols as nat, 1),
    ensures
        class_shape(a) == (rows as nat, cols as nat),
        forall|r: int, c: int|
            0 <= r < rows && 0 <= c < cols ==> #[trigger] class_cells(a)[(r, c)] == value,
{
    ClassGrid { inner: Array2::from_elem((rows, cols), value) }
}

/// Trusted: `ndarray::ArrayBase::dim` gives the shape. An array that exists fits its
/// limits.
#[verifier::external_body]
fn class_dim(a: &ClassGrid) -> (d: (usize, usize))
    ensures
        (d.0 as nat, d.1 as nat) == class_shape(*a),
        fits2(d.0 as nat, d.1 as nat, 1),
{
    a.inner.dim()
}

/// Trusted: indexing an `ndarray` array inside its shape reads the cell.
#[verifier::external_body]
fn class_index(a: &ClassGrid, row: usize, col: usize) -> (value: u8)
    requires
        row < class_shape(*a).0,
        col < class_shape(*a).1,
    ensures
        value == class_cells(*a)[(row as int, col as int)],
{
    a.inner[[row, col]]
}

/// Trusted: assigning through an index of an `ndarray` array inside its shape
/// changes that cell and nothing else.
#[verifier::external_body]
fn class_index_mut(a: &mut ClassGrid, row: usize, col: usize, value: u8)
    requires
        row < class_shape(*old(a)).0,
        col < class_shape(*old(a)).1,
    ensures
        class_shape(*final(a)) == class_shape(*old(a)),
        class_cells(*final(a)) == class_cells(*old(a)).insert((row as int, col as int), value),
{
    a.inner[[row, col]] = value;
}

/// Trusted: `ndarray::ArrayBase::from_shape_vec` lays the values out row by row, and
/// succeeds where there are as many values as cells and the shape fits.
#[verifier::external_body]
fn class_from_shape_vec(rows: usize, cols: usize, values: Vec<u8>) -> (a: Option<ClassGrid>)
    ensures
        a is Some <==> (values@.len() == rows * cols && axis_weight(rows as nat) * axis_weight(
            cols as nat,
        ) <= isize::MAX),
        a matches Some(p) ==> {
            &&& class_shape(p) == (rows as nat, cols as nat)
            &&& forall|r: int, c: int|
                0 <= r < rows && 0 <= c < cols ==> #[trigger] class_cells(p)[(r, c)] == values@[r * cols
                    + c]
        },
{
    match Array2::from_shape_vec((rows, cols), values) {
        Ok(inner) => Some(ClassGrid { inner }),
        Err(_) => None,
    }
}

impl ClassGrid {
    /// Number of rows.
    pub open spec fn rows(self) -> nat {
        class_shape(self).0
    }

    /// Number of columns.
    pub open spec fn cols(self) -> nat {
        class_shape(self).1
    }

    /// The cell at a row and column.
    pub open spec fn at(self, row: int, col: int) -> u8 {
        class_cells(self)[(row, col)]
    }

    /// A raster whose cells all hold `value`.
    pub fn filled(rows: usize, cols: usize, value: u8) -> (a: Self)
        requires
            fits2(rows as nat, cols as nat, 1),
        ensures
            a.rows() == rows,
            a.cols() == cols,
            forall|r: int, c: int| 0 <= r < rows && 0 <= c < cols ==> #[trigger] a.at(r, c) == value,
    {
        let a = class_from_elem(rows, cols, value);
        assert forall|r: int, c: int| 0 <= r < rows && 0 <= c < cols implies #[trigger] a.at(r, c)
            == value by {
            assert(class_cells(a)[(r, c)] == value);
        }
        a
    }

    /// A raster from values given row by row; `None` where their number does not
    /// match the shape.
    pub fn from_values(rows: usize, cols: usize, values: Vec<u8>) -> (a: Option<Self>)
        ensures
            a is Some <==> (values@.len() == rows * cols && axis_weight(rows as nat) * axis_weight(
                cols as nat,
            ) <= isize::MAX),
            a matches Some(p) ==> {
                &&& p.rows() == rows
                &&& p.cols() == cols
                &&& forall|r: int, c: int|
                    0 <= r < rows && 0 <= c < cols ==> #[trigger] p.at(r, c) == values@[r * cols + c]
            },
    {
        let a = class_from_shape_vec(rows, cols, values);
        if let Some(p) = &a {
            assert forall|r: int, c: int| 0 <= r < rows && 0 <= c < cols implies #[trigger] p.at(r, c)
                == values@[r * cols + c] by {
                assert(class_cells(*p)[(r, c)] == values@[r * cols + c]);
            }
        }
        a
    }

    /// Rows and columns.
    pub fn dim(&self) -> (d: (usize, usize))
        ensures
            d.0 == self.rows(),
            d.1 == self.cols(),
            fits2(self.rows(), self.cols(), 1),
    {
        class_dim(self)
    }

    /// Read a cell.
    pub fn get(&self, row: usize, col: usize) -> (value: u8)
        requires
            row < self.rows(),
            col < self.cols(),
        ensures
            value == self.at(row as int, col as int),
    {
        class_index(self, row, col)
    }

    /// Write a cell; every other cell keeps its value.
    pub fn set(&mut self, row: usize, col: usize, value: u8)
        requires
            row < old(self).rows(),
            col < old(self).cols(),
        ensures
            final(self).rows() == old(self).rows(),
            final(self).cols() == old(self).cols(),
            forall|r: int, c: int|
                #[trigger] final(self).at(r, c) == if r == row && c == col {
                    value
                } else {
                    old(self).at(r, c)
                },
    {
        class_index_mut(self, row, col, value);
    }
}

/// A pixel mask: row, column.
#[verifier::external_body]
#[derive(Debug)]
pub struct MaskGrid {
    inner: Array2<bool>,
}

/// Rows and columns of the array.
pub uninterp spec fn mask_shape(a: MaskGrid) -> (nat, nat);

/// The cells of the array by row and column.
pub uninterp spec fn mask_cells(a: MaskGrid) -> Map<(int, int), bool>;

/// Trusted: `ndarray::ArrayBase::from_elem` gives an array of the asked shape whose
/// cells all hold the value. It panics only where the shape does not fit.
#[verifier::external_body]
fn mask_from_elem(rows: usize, cols: usize, value: bool) -> (a: MaskGrid)
    requires
        fits2(rows as nat, cols as nat, 1),
    ensures
        mask_shape(a) == (rows as nat, cols as nat),
        forall|r: int, c: int|
            0 <= r < rows && 0 <= c < cols ==> #[trigger] mask_cells(a)[(r, c)] == value,
{
    MaskGrid { inner: Array2::from_elem((rows, cols), value) }
}

/// Trusted: `ndarray::ArrayBase::dim` gives the shape. An array that exists fits its
/// limits.
#[verifier::external_body]
fn mask_dim(a: &MaskGrid) -> (d: (usize, usize))
    ensures
        (d.0 as nat, d.1 as nat) == mask_shape(*a),
        fits2(d.0 as nat, d.1 as nat, 1),
{
    a.inner.dim()
}

/// Trusted: indexing an `ndarray` array inside its shape reads the cell.
#[verifier::external_body]
fn mask_index(a: &MaskGrid, row: usize, col: usize) -> (value: bool)
    requires
        row < mask_shape(*a).0,
        col < mask_shape(*a).1,
    ensures
        value == mask_cells(*a)[(row as int, col as int)],
{
    a.inner[[row, col]]
}

/// Trusted: assigning through an index of an `ndarray` array inside its shape
/// changes that cell and nothing else.
#[verifier::external_body]
fn mask_index_mut(a: &mut MaskGrid, row: usize, col: usize, value: bool)
    requires
        row < mask_shape(*old(a)).0,
        col < mask_shape(*old(a)).1,
    ensures
        mask_shape(*final(a)) == mask_shape(*old(a)),
        mask_cells(*final(a)) == mask_cells(*old(a)).insert((row as int, col as int), value),
{
    a.inner[[row, col]] = value;
}

impl MaskGrid {
    /// Number of rows.
    pub open spec fn rows(self) -> nat {
        mask_shape(self).0
    }

    /// Number of columns.
    pub open spec fn cols(self) -> nat {
        mask_shape(self).1
    }

    /// The cell at a row and column.
    pub open spec fn at(self, row: int, col: int) -> bool {
        mask_cells(self)[(row, col)]
    }

    /// A raster whose cells all hold `value`.
    pub fn filled(rows: usize, cols: usize, value: bool) -> (a: Self)
        requires
            fits2(rows as nat, cols as nat, 1),
        ensures
            a.rows() == rows,
            a.cols() == cols,
            forall|r: int, c: int| 0 <= r < rows && 0 <= c < cols ==> #[trigger] a.at(r, c) == value,
    {
        let a = mask_from_elem(rows, cols, value);
        assert forall|r: int, c: int| 0 <= r < rows && 0 <= c < cols implies #[trigger] a.at(r, c)
            == value by {
            assert(mask_cells(a)[(r, c)] == value);
        }
        a
    }

    /// Rows and columns.
    pub fn dim(&self) -> (d: (usize, usize))
        ensures
            d.0 == self.rows(),
            d.1 == self.cols(),
            fits2(self.rows(), self.cols(), 1),
    {
        mask_dim(self)
    }

    /// Read a cell.
    pub fn get(&self, row: usize, col: usize) -> (value: bool)
        requires
            row < self.rows(),
            col < self.cols(),
        ensures
            value == self.at(row as int, col as int),
    {
        mask_index(self, row, col)
    }

    /// Write a cell; every other cell keeps its value.
    pub fn set(&mut self, row: usize, col: usize, value: bool)
        requires
            row < old(self).rows(),
            col < old(self).cols(),
        ensures
            final(self).rows() == old(self).rows(),
            final(self).cols() == old(self).cols(),
            forall|r: int, c: int|
                #[trigger] final(self).at(r, c) == if r == row && c == col {
                    value
                } else {
                    old(self).at(r, c)
                },
    {
        mask_index_mut(self, row, col, value);
    }
}

/// Vegetation index values, each an exact fraction (numerator, denominator).
#[verifier::external_body]
#[derive(Debug)]
pub struct NdviGrid {
    inner: Array2<(i32, u32)>,
}

/// Rows and columns of the array.
pub uninterp spec fn ndvi_shape(a: NdviGrid) -> (nat, nat);

/// The cells of the array by row and column.
pub uninterp spec fn ndvi_cells(a: NdviGrid) -> Map<(int, int), (i32, u32)>;

/// Trusted: `ndarray::ArrayBase::from_elem` gives an array of the asked shape whose
/// cells all hold the value. It panics only where the shape does not fit.
#[verifier::external_body]
fn ndvi_from_elem(rows: usize, cols: usize, value: (i32, u32)) -> (a: NdviGrid)
    requires
        fits2(rows as nat, cols as nat, 8),
    ensures
        ndvi_shape(a) == (rows as nat, cols as nat),
        forall|r: int, c: int|
            0 <= r < rows && 0 <= c < cols ==> #[trigger] ndvi_cells(a)[(r, c)] == value,
{
    NdviGrid { inner: Array2::from_elem((rows, cols), value) }
}

/// Trusted: `ndarray::ArrayBase::dim` gives the shape. An array that exists fits its
/// limits.
#[verifier::external_body]
fn ndvi_dim(a: &NdviGrid) -> (d: (usize, usize))
    ensures
        (d.0 as nat, d.1 as nat) == ndvi_shape(*a),
        fits2(d.0 as nat, d.1 as nat, 8),
{
    a.inner.dim()
}

/// Trusted: indexing an `ndarray` array inside its shape reads the cell.
#[verifier::external_body]
fn ndvi_index(a: &NdviGrid, row: usize, col: usize) -> (value: (i32, u32))
    requires
        row < ndvi_shape(*a).0,
        col < ndvi_shape(*a).1,
    ensures
        value == ndvi_cells(*a)[(row as int, col as int)],
{
    a.inner[[row, col]]
}

/// Trusted: assigning through an index of an `ndarray` array inside its shape
/// changes that cell and nothing else.
#[verifier::external_body]
fn ndvi_index_mut(a: &mut NdviGrid, row: usize, col: usize, value: (i32, u32))
    requires
        row < ndvi_shape(*old(a)).0,
        col < ndvi_shape(*old(a)).1,
    ensures
        ndvi_shape(*final(a)) == ndvi_shape(*old(a)),
        ndvi_cells(*final(a)) == ndvi_cells(*old(a)).insert((row as int, col as int), value),
{
    a.inner[[row, col]] = value;
}

impl NdviGrid {
    /// Number of rows.
    pub open spec fn rows(self) -> nat {
        ndvi_shape(self).0
    }

    /// Number of columns.
    pub open spec fn cols(self) -> nat {
        ndvi_shape(self).1
    }

    /// The cell at a row and column.
    pub open spec fn at(self, row: int, col: int) -> (i32, u32) {
        ndvi_cells(self)[(row, col)]
    }

    /// A raster whose cells all hold `value`.
    pub fn filled(rows: usize, cols: usize, value: (i32, u32)) -> (a: Self)
        requires
            fits2(rows as nat, cols as nat, 8),
        ensures
            a.rows() == rows,
            a.cols() == cols,
            forall|r: int, c: int| 0 <= r < rows && 0 <= c < cols ==> #[trigger] a.at(r, c) == value,
    {
        let a = ndvi_from_elem(rows, cols, value);
        assert forall|r: int, c: int| 0 <= r < rows && 0 <= c < cols implies #[trigger] a.at(r, c)
            == value by {
            assert(ndvi_cells(a)[(r, c)] == value);
        }
        a
    }

    /// Rows and columns.
    pub fn dim(&self) -> (d: (usize, usize))
        ensures
            d.0 == self.rows(),
            d.1 == self.cols(),
            fits2(self.rows(), self.cols(), 8),
    {
        ndvi_dim(self)
    }

    /// Read a cell.
    pub fn get(&self, row: usize, col: usize) -> (value: (i32, u32))
        requires
            row < self.rows(),
            col < self.cols(),
        ensures
            value == self.at(row as int, col as int),
    {
        ndvi_index(self, row, col)
    }

    /// Write a cell; every other cell keeps its value.
    pub fn set(&mut self, row: usize, col: usize, value: (i32, u32))
        requires
            row < old(self).rows(),
            col < old(self).cols(),
        ensures
            final(self).rows() == old(self).rows(),
            final(self).cols() == old(self).cols(),
            forall|r: int, c: int|
                #[trigger] final(self).at(r, c) == if r == row && c == col {
                    value
                } else {
                    old(self).at(r, c)
                },
    {
        ndvi_index_mut(self, row, col, value);
    }
}

} // verus!
