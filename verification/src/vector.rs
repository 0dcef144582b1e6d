//! The stored vector: an ordered sequence of scalar bit patterns.

use vstd::prelude::*;
use crate::dist::{spec_sqrt32, spec_dot, spec_div32, sqrt32, div32, dot_product};

verus! {

/// A dense vector, each element the IEEE-754 bit pattern of a scalar.
#[derive(Debug)]
pub struct Vector {
    data: Vec<u32>,
}

impl Vector {
    /// The element bit patterns.
    pub closed spec fn view_bits(&self) -> Seq<u32> {
        self.data@
    }

    /// A vector from a slice of bit patterns.
    pub fn new(data: &[u32]) -> (r: Vector)
        ensures
            r.view_bits() == data@,
    {
        let mut v: Vec<u32> = Vec::new();
        let mut i: usize = 0;
        while i < data.len()
            invariant
                0 <= i <= data@.len(),
                v@ == data@.subrange(0, i as int),
            decreases data@.len() - i,
        {
            v.push(data[i]);
            proof {
                assert(v@ =~= data@.subrange(0, i + 1));
            }
            i += 1;
        }
        proof {
            assert(data@.subrange(0, data@.len() as int) =~= data@);
        }
        Vector { data: v }
    }

    /// A vector from an owned list of bit patterns.
    pub fn from_vec(data: Vec<u32>) -> (r: Vector)
        ensures
            r.view_bits() == data@,
    {
        Vector { data }
    }

    /// Number of elements.
    pub fn dimension(&self) -> (r: usize)
        ensures
            r == self.view_bits().len(),
    {
        self.data.len()
    }

    /// The elements as a slice of bit patterns.
    pub fn as_slice(&self) -> (r: &[u32])
        ensures
            r@ == self.view_bits(),
    {
        self.data.as_slice()
    }

    /// Whether the vector has no elements.
    pub fn is_empty(&self) -> (r: bool)
        ensures
            r == (self.view_bits().len() == 0),
    {
        self.data.len() == 0
    }

    /// The Euclidean norm: the square root of the dot product with itself.
    pub fn norm(&self) -> (r: u32)
        ensures
            r == spec_sqrt32(spec_dot(self.view_bits(), self.view_bits())),
    {
        sqrt32(dot_product(self.data.as_slice(), self.data.as_slice()))
    }

    /// Each element divided by the norm; nothing when the norm is a zero.
    pub fn normalized(&self) -> (r: Option<Vector>)
        ensures
            ({
                let nm = spec_sqrt32(spec_dot(self.view_bits(), self.view_bits()));
                match r {
                    Some(v) => (nm != 0 && nm != 0x8000_0000) && v.view_bits().len()
                        == self.view_bits().len() && (forall|i: int|
                        0 <= i < self.view_bits().len() ==> v.view_bits()[i] == spec_div32(
                            #[trigger] self.view_bits()[i],
                            nm,
                        )),
                    None => nm == 0 || nm == 0x8000_0000,
                }
            }),
    {
        let nm = self.norm();
        if nm == 0 || nm == 0x8000_0000 {
            return None;
        }
        let mut out: Vec<u32> = Vec::new();
        let mut i: usize = 0;
        while i < self.data.len()
            invariant
                0 <= i <= self.data@.len(),
                out@.len() == i,
                forall|k: int|
                    0 <= k < i ==> out@[k] == spec_div32(#[trigger] self.data@[k], nm),
            decreases self.data@.len() - i,
        {
            out.push(div32(self.data[i], nm));
            i += 1;
        }
        Some(Vector { data: out })
    }

    /// Consumes the vector and hands back its bit patterns.
    pub fn into_inner(self) -> (r: Vec<u32>)
        ensures
            r@ == self.view_bits(),
    {
        self.data
    }

    /// An element-for-element copy.
    pub fn duplicate(&self) -> (r: Vector)
        ensures
            r.view_bits() == self.view_bits(),
    {
        Vector::new(self.data.as_slice())
    }
}

} // verus!
