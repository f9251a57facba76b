//! Row-major matrices of field elements.
use vstd::prelude::*;

verus! {

/// A matrix stored row after row; its height is the number of values over the width.
#[derive(Clone, Debug, PartialEq, Eq)]
pub struct RowMajorMatrix {
    pub values: Vec<u32>,
    pub width: usize,
}

/// The size of a matrix.
#[derive(Copy, Clone, Debug, PartialEq, Eq)]
pub struct Dimensions {
    pub width: usize,
    pub height: usize,
}

impl RowMajorMatrix {
    /// The values fill whole rows of a positive width.
    pub open spec fn wf(&self) -> bool {
        &&& self.width > 0
        &&& self.values@.len() % (self.width as nat) == 0
    }

    pub open spec fn spec_height(&self) -> nat {
        self.values@.len() / (self.width as nat)
    }

    /// Row `i`.
    pub open spec fn spec_row(&self, i: int) -> Seq<u32> {
        self.values@.subrange(i * self.width, i * self.width + self.width)
    }

    pub fn new(values: Vec<u32>, width: usize) -> (r: RowMajorMatrix)
        requires
            width > 0,
            values@.len() % (width as nat) == 0,
        ensures
            r.wf(),
            r.values@ == values@,
            r.width == width,
    {
        RowMajorMatrix { values, width }
    }

    pub fn height(&self) -> (r: usize)
        requires
            self.wf(),
        ensures
            r == self.spec_height(),
    {
        self.values.len() / self.width
    }

    pub fn width(&self) -> (r: usize)
        ensures
            r == self.width,
    {
        self.width
    }

    pub fn dimensions(&self) -> (r: Dimensions)
        requires
            self.wf(),
        ensures
            r.width == self.width,
            r.height == self.spec_height(),
    {
        Dimensions { width: self.width, height: self.height() }
    }

    /// Appends row `i` to `out`.
    pub fn append_row(&self, i: usize, out: &mut Vec<u32>)
        requires
            self.wf(),
            i < self.spec_height(),
        ensures
            final(out)@ == old(out)@ + self.spec_row(i as int),
    {
        proof {
            lemma_row_in_bounds(self, i as int);
        }
        let total = self.values.len();
        let start: usize = i * self.width;
        let mut k: usize = 0;
        let ghost before = out@;
        while k < self.width
            invariant
                self.wf(),
                start == i * self.width,
                start + self.width <= self.values@.len(),
                total == self.values@.len(),
                k <= self.width,
                out@ == before + self.values@.subrange(start as int, start + k),
            decreases self.width - k,
        {
            out.push(self.values[start + k]);
            assert(self.values@.subrange(start as int, start + k + 1) == self.values@.subrange(
                start as int,
                start + k,
            ).push(self.values@[start + k]));
            k = k + 1;
        }
    }

    /// Row `i` as a vector.
    pub fn row(&self, i: usize) -> (r: Vec<u32>)
        requires
            self.wf(),
            i < self.spec_height(),
        ensures
            r@ == self.spec_row(i as int),
    {
        let mut out: Vec<u32> = Vec::new();
        self.append_row(i, &mut out);
        assert(out@ =~= self.spec_row(i as int));
        out
    }

    /// A copy.
    pub fn duplicate(&self) -> (r: RowMajorMatrix)
        ensures
            r.values@ == self.values@,
            r.width == self.width,
    {
        let mut values: Vec<u32> = Vec::new();
        let mut i: usize = 0;
        while i < self.values.len()
            invariant
                i <= self.values@.len(),
                values@ == self.values@.subrange(0, i as int),
            decreases self.values.len() - i,
        {
            values.push(self.values[i]);
            i = i + 1;
        }
        assert(values@ =~= self.values@);
        RowMajorMatrix { values, width: self.width }
    }
}

/// A row of a well-formed matrix lies inside its values.
pub proof fn lemma_row_in_bounds(m: &RowMajorMatrix, i: int)
    requires
        m.wf(),
        0 <= i < m.spec_height(),
    ensures
        i * m.width + m.width <= m.values@.len(),
{
    let w = m.width as int;
    let n = m.values@.len() as int;
    vstd::arithmetic::div_mod::lemma_fundamental_div_mod(n, w);
    let h = n / w;
    assert(i * w + w <= n) by (nonlinear_arith)
        requires
            0 <= i < h,
            w > 0,
            n == w * h,
    ;
}

} // verus!
