//! Three-by-three spatial kernels with integer weights over a common divisor.

use vstd::prelude::*;

verus! {

/// Quotient of `a` by a positive `d`, rounded toward zero.
pub open spec fn div_toward_zero(a: int, d: int) -> int {
    if a >= 0 {
        a / d
    } else {
        -((-a) / d)
    }
}

/// The mathematical content of a [`Kernel`]: three rows of three numerators
/// and the denominator they share. The cell in row 1, column 1 is the centre.
pub struct Stencil {
    pub rows: Seq<Seq<int>>,
    pub divisor: int,
}

impl Stencil {
    /// Three rows of three cells over a positive divisor.
    pub open spec fn wf(self) -> bool {
        &&& self.divisor > 0
        &&& self.rows.len() == 3
        &&& forall|r: int| 0 <= r < 3 ==> (#[trigger] self.rows[r]).len() == 3
    }

    /// The numerator in row `row`, column `col`.
    pub open spec fn weight(self, row: int, col: int) -> int {
        self.rows[row][col]
    }

    /// Every cell weighs one ninth.
    pub open spec fn mean() -> Stencil {
        Stencil { rows: seq![seq![1, 1, 1], seq![1, 1, 1], seq![1, 1, 1]], divisor: 9 }
    }

    /// The discrete Laplacian: four at the centre, minus one at each of the
    /// four direct neighbours, nothing at the corners.
    pub open spec fn laplacian() -> Stencil {
        Stencil { rows: seq![seq![0, -1, 0], seq![-1, 4, -1], seq![0, -1, 0]], divisor: 1 }
    }
}

/// A three-by-three kernel. The weight of a cell is its numerator divided by
/// the kernel's divisor, which is never zero.
#[derive(Clone, Copy, Debug, PartialEq, Eq)]
pub struct Kernel {
    weights: [[i32; 3]; 3],
    divisor: u32,
}

impl View for Kernel {
    type V = Stencil;

    closed spec fn view(&self) -> Stencil {
        Stencil {
            rows: Seq::new(3, |r: int| Seq::new(3, |c: int| self.weights[r][c] as int)),
            divisor: self.divisor as int,
        }
    }
}

impl Kernel {
    #[verifier::type_invariant]
    spec fn positive_divisor(self) -> bool {
        self.divisor > 0
    }

    /// A kernel with the given numerators and divisor; none when the divisor
    /// is zero.
    pub fn new(weights: [[i32; 3]; 3], divisor: u32) -> (k: Option<Kernel>)
        ensures
            k.is_none() <==> divisor == 0,
            k.is_some() ==> {
                &&& k.unwrap()@.wf()
                &&& k.unwrap()@.divisor == divisor
                &&& forall|r: int, c: int|
                    0 <= r < 3 && 0 <= c < 3 ==> #[trigger] k.unwrap()@.weight(r, c)
                        == weights[r][c]
            },
    {
        if divisor == 0 {
            None
        } else {
            Some(Kernel { weights, divisor })
        }
    }

    /// The averaging kernel.
    pub fn mean() -> (k: Kernel)
        ensures
            k@ == Stencil::mean(),
    {
        let k = Kernel { weights: [[1, 1, 1], [1, 1, 1], [1, 1, 1]], divisor: 9 };
        proof {
            assert forall|r: int| 0 <= r < 3 implies #[trigger] k@.rows[r] =~= Stencil::mean().rows[r] by {}
            assert(k@.rows =~= Stencil::mean().rows);
        }
        k
    }

    /// The edge-detecting kernel.
    pub fn laplacian() -> (k: Kernel)
        ensures
            k@ == Stencil::laplacian(),
    {
        let k = Kernel { weights: [[0, -1, 0], [-1, 4, -1], [0, -1, 0]], divisor: 1 };
        proof {
            assert forall|r: int| 0 <= r < 3 implies #[trigger] k@.rows[r]
                =~= Stencil::laplacian().rows[r] by {}
            assert(k@.rows =~= Stencil::laplacian().rows);
        }
        k
    }

    /// The numerator in row `row`, column `col`.
    pub fn weight(&self, row: usize, col: usize) -> (w: i32)
        requires
            row < 3,
            col < 3,
        ensures
            w == self@.weight(row as int, col as int),
    {
        self.weights[row][col]
    }

    /// The divisor shared by the nine cells.
    pub fn divisor(&self) -> (d: u32)
        ensures
            d == self@.divisor,
            self@.wf(),
    {
        proof {
            use_type_invariant(self);
        }
        self.divisor
    }
}

} // verus!
