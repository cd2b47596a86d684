use vstd::prelude::*;

verus! {

/// The lanes of a state, as five rows of five 16-bit words.
pub type Lanes = Seq<Seq<u16>>;

/// The all-zero state.
pub open spec fn zero_lanes() -> Lanes {
    Seq::new(5, |i: int| Seq::new(5, |j: int| 0u16))
}

/// The permutation state: a 5x5 grid of 16-bit lanes.
#[derive(Clone, Copy, PartialEq, Eq)]
pub struct Matrix(pub [[u16; 5]; 5]);

impl View for Matrix {
    type V = Lanes;

    open spec fn view(&self) -> Lanes {
        Seq::new(5, |i: int| self.0[i]@)
    }
}

impl Matrix {
    /// A state whose lanes are all zero.
    pub fn zeros() -> (r: Matrix)
        ensures
            r@ == zero_lanes(),
    {
        let r = Matrix([[0u16; 5]; 5]);
        assert(r@ =~~= zero_lanes());
        r
    }
}

} // verus!
