//! Tensors are the core primitive of `fused_gpu`.
//!
//! For more information, see [`Tensor`].

use vstd::prelude::*;

use crate::dispatch::backend::MetaId;
use crate::dispatch::{GpuBackend, GpuBuffer, GpuBufferBackend};

verus! {

/// The sizes of dimensions that are given as metadata fields.
pub fn build_dims(shape: &[MetaId], meta: &[u32]) -> (r: Vec<u32>)
    requires
        forall|i: int| 0 <= i < shape@.len() ==> #[trigger] shape@[i] < meta@.len(),
    ensures
        r@ == dims_of(shape@, meta@),
{
    let mut dims: Vec<u32> = Vec::new();
    let mut i: usize = 0;
    while i < shape.len()
        invariant
            i <= shape@.len(),
            forall|j: int| 0 <= j < shape@.len() ==> #[trigger] shape@[j] < meta@.len(),
            dims@ == dims_of(shape@.take(i as int), meta@),
        decreases shape@.len() - i,
    {
        assert(shape@[i as int] < meta@.len());
        dims.push(meta[shape[i]]);
        i += 1;
        assert(dims@ == dims_of(shape@.take(i as int), meta@));
    }
    assert(shape@.take(i as int) == shape@);
    dims
}

/// The sizes of dimensions that are given as metadata fields.
pub open spec fn dims_of(shape: Seq<MetaId>, meta: Seq<u32>) -> Seq<u32> {
    Seq::new(shape.len(), |i: int| meta[shape[i] as int])
}

/// The product of the first dimensions.
pub open spec fn product(dims: Seq<u32>, n: nat) -> nat
    decreases n,
{
    if n == 0 {
        1
    } else {
        product(dims, (n - 1) as nat) * dims[n - 1] as nat
    }
}

/// Whether the products of the first dimensions fit in 32 bits.
pub open spec fn product_fits(dims: Seq<u32>, n: nat) -> bool {
    forall|m: nat| m <= n ==> #[trigger] product(dims, m) <= u32::MAX
}

/// The product of the first dimensions. Nothing, where it does not fit in 32 bits.
pub fn checked_product(dims: &[u32], n: usize) -> (r: Option<u32>)
    requires
        n <= dims@.len(),
    ensures
        match r {
            Some(p) => product_fits(dims@, n as nat) && p == product(dims@, n as nat),
            None => !product_fits(dims@, n as nat),
        },
{
    let mut r: u32 = 1;
    let mut i: usize = 0;
    while i < n
        invariant
            i <= n,
            n <= dims@.len(),
            product_fits(dims@, i as nat),
            r == product(dims@, i as nat),
        decreases n - i,
    {
        let dim: u32 = dims[i];
        proof {
            let next = product(dims@, i as nat + 1);
            assert(next == r as nat * dim as nat);
            assert(0 <= r * dim) by (nonlinear_arith);
            assert forall|m: nat| m <= i + 1 && next <= u32::MAX implies #[trigger] product(
                dims@,
                m,
            ) <= u32::MAX by {
                if m <= i {
                    assert(product(dims@, m) <= u32::MAX);
                }
            }
        }
        match r.checked_mul(dim) {
            Some(p) => {
                r = p;
            },
            None => {
                return None;
            },
        }
        i += 1;
    }
    Some(r)
}

/// Multiplies the first dimensions.
pub fn product_of(dims: &[u32], n: usize) -> (r: u32)
    requires
        n <= dims@.len(),
        product_fits(dims@, n as nat),
    ensures
        r == product(dims@, n as nat),
{
    match checked_product(dims, n) {
        Some(r) => r,
        None => 0,
    }
}

/// How many parts of the given size cover a length.
pub open spec fn parts(length: int, size: int) -> int {
    (length + size - 1) / size
}

fn div_ceil(length: u32, size: u32) -> (r: u32)
    requires
        size > 0,
    ensures
        r == parts(length as int, size as int),
{
    let q: u32 = length / size;
    let rest: u32 = length % size;
    proof {
        let (l, s) = (length as int, size as int);
        vstd::arithmetic::div_mod::lemma_fundamental_div_mod(l, s);
        if rest == 0 {
            assert((l + s - 1) / s == q) by (nonlinear_arith)
                requires
                    s > 0,
                    l == s * q,
            ;
        } else {
            assert((l + s - 1) / s == q + 1) by (nonlinear_arith)
                requires
                    s > 0,
                    l == s * q + rest,
                    0 < rest < s,
            ;
            assert(q < u32::MAX) by (nonlinear_arith)
                requires
                    s > 0,
                    l == s * q + rest,
                    0 < rest < s,
                    l <= u32::MAX,
                    q >= 0,
            ;
        }
    }
    if rest == 0 {
        q
    } else {
        q + 1
    }
}

/// Whether a grid of blocks can be laid over dimensions: there are two at least, the product of the
/// others fits in 32 bits, and no block that is divided by is empty.
pub open spec fn gridable(shape: Seq<u32>, block: [u32; 3]) -> bool {
    &&& shape.len() >= 2
    &&& product_fits(shape, (shape.len() - 2) as nat)
    &&& block[2] > 0
    &&& block[0] == block[1] ==> block[0] > 0
}

/// Whether a grid lays blocks over dimensions: square blocks cover the last two, a block of one
/// column has one row for each of the last, and a block of one row has one column for each of the
/// second to last; all the other dimensions are covered together.
pub open spec fn is_grid(shape: Seq<u32>, block: [u32; 3], grid: [u32; 3]) -> bool {
    let rank = shape.len() as int;
    &&& if block[0] == block[1] {
        &&& grid[0] == parts(shape[rank - 1] as int, block[0] as int)
        &&& grid[1] == parts(shape[rank - 2] as int, block[1] as int)
    } else if block[0] == 1 {
        grid[0] == 1 && grid[1] == shape[rank - 1]
    } else {
        grid[0] == shape[rank - 2] && grid[1] == 1
    }
    &&& grid[2] == parts(product(shape, (rank - 2) as nat) as int, block[2] as int)
}

/// Lays a grid of blocks over dimensions.
pub fn calc_grid(shape: &[u32], block: [u32; 3]) -> (r: [u32; 3])
    requires
        gridable(shape@, block),
    ensures
        is_grid(shape@, block, r),
{
    let rank: usize = shape.len();
    let depth: u32 = div_ceil(product_of(shape, rank - 2), block[2]);
    if block[0] == block[1] {
        [div_ceil(shape[rank - 1], block[0]), div_ceil(shape[rank - 2], block[1]), depth]
    } else if block[0] == 1 {
        [1, shape[rank - 1], depth]
    } else {
        [shape[rank - 2], 1, depth]
    }
}

/// Parts of a size cover a length, and one part fewer does not.
pub proof fn lemma_parts_cover(length: int, size: int)
    requires
        length >= 0,
        size > 0,
    ensures
        parts(length, size) * size >= length,
        length > 0 ==> (parts(length, size) - 1) * size < length,
        parts(length, size) >= 0,
        length == 0 ==> parts(length, size) == 0,
{
    let q = parts(length, size);
    vstd::arithmetic::div_mod::lemma_fundamental_div_mod(length + size - 1, size);
    let rest = (length + size - 1) % size;
    assert(length + size - 1 == size * q + rest);
    assert(q * size >= length && (q - 1) * size < length) by (nonlinear_arith)
        requires
            length + size - 1 == size * q + rest,
            0 <= rest < size,
    ;
    assert(q >= 0) by (nonlinear_arith)
        requires
            length + size - 1 == size * q + rest,
            0 <= rest < size,
            length >= 0,
            size > 0,
    ;
    if length == 0 {
        assert(q == 0) by (nonlinear_arith)
            requires
                size - 1 == size * q + rest,
                0 <= rest < size,
                q >= 0,
        ;
    }
}

/// A grid of square blocks covers all the dimensions, and no row or column of blocks lies outside
/// of them.
pub proof fn lemma_grid_covers(shape: Seq<u32>, block: [u32; 3], grid: [u32; 3])
    requires
        gridable(shape, block),
        block[0] == block[1],
        is_grid(shape, block, grid),
    ensures
        grid[0] * block[0] >= shape[shape.len() - 1],
        grid[1] * block[1] >= shape[shape.len() - 2],
        grid[2] * block[2] >= product(shape, (shape.len() - 2) as nat),
        shape[shape.len() - 1] > 0 ==> (grid[0] - 1) * block[0] < shape[shape.len() - 1],
        shape[shape.len() - 2] > 0 ==> (grid[1] - 1) * block[1] < shape[shape.len() - 2],
{
    let rank = shape.len() as int;
    lemma_parts_cover(shape[rank - 1] as int, block[0] as int);
    lemma_parts_cover(shape[rank - 2] as int, block[1] as int);
    lemma_parts_cover(product(shape, (rank - 2) as nat) as int, block[2] as int);
}

/// The product of dimensions is zero exactly if one of them is.
pub proof fn lemma_product_zero(dims: Seq<u32>, n: nat)
    requires
        n <= dims.len(),
    ensures
        product(dims, n) == 0 <==> exists|i: int| 0 <= i < n && #[trigger] dims[i] == 0,
    decreases n,
{
    if n > 0 {
        lemma_product_zero(dims, (n - 1) as nat);
        let (p, d) = (product(dims, (n - 1) as nat), dims[n - 1] as nat);
        assert(p * d == 0 <==> p == 0 || d == 0) by (nonlinear_arith);
        if d == 0 {
            assert(dims[n - 1] == 0);
        }
    }
}

/// A buffer, and the dimensions of what it holds.
pub struct Tensor<B: GpuBackend> {
    pub shape: Option<Vec<u32>>,
    pub data: GpuBuffer<B>,
}

/// The contents of an optional list.
pub open spec fn shape_of(shape: Option<Vec<u32>>) -> Option<Seq<u32>> {
    match shape {
        Some(dims) => Some(dims@),
        None => None,
    }
}

fn same_dims(a: &Vec<u32>, b: &Vec<u32>) -> (r: bool)
    ensures
        r == (a@ == b@),
{
    if a.len() != b.len() {
        return false;
    }
    let mut i: usize = 0;
    while i < a.len()
        invariant
            i <= a@.len(),
            a@.len() == b@.len(),
            forall|j: int| 0 <= j < i ==> a@[j] == b@[j],
        decreases a@.len() - i,
    {
        if a[i] != b[i] {
            return false;
        }
        i += 1;
    }
    assert(a@ == b@);
    true
}

/// Tensors are equal if they have the same dimensions.
impl<B: GpuBackend> PartialEq for Tensor<B> {
    fn eq(&self, other: &Self) -> (r: bool) {
        match (&self.shape, &other.shape) {
            (Some(a), Some(b)) => same_dims(a, b),
            (None, None) => true,
            _ => false,
        }
    }
}

impl<B: GpuBackend> vstd::std_specs::cmp::PartialEqSpecImpl for Tensor<B> {
    open spec fn obeys_eq_spec() -> bool {
        true
    }

    open spec fn eq_spec(&self, other: &Self) -> bool {
        shape_of(self.shape) == shape_of(other.shape)
    }
}

impl<B: GpuBackend> Eq for Tensor<B> {

}

impl<B: GpuBackend> Clone for Tensor<B> where B::Buffer: Clone {
    fn clone(&self) -> (r: Self)
        ensures
            shape_of(r.shape) == shape_of(self.shape),
            cloned(self.data.inner, r.data.inner),
    {
        let shape = match &self.shape {
            Some(dims) => Some(dims.clone()),
            None => None,
        };
        Self { shape, data: GpuBuffer { inner: self.data.inner.clone() } }
    }
}

impl<B: GpuBackend> Tensor<B> {
    /// Lays a grid of blocks over the dimensions of the tensor.
    #[must_use]
    pub fn calc_grid(&self, block: [u32; 3]) -> (r: [u32; 3])
        requires
            shape_of(self.shape) matches Some(shape) ==> gridable(shape, block),
        ensures
            match shape_of(self.shape) {
                Some(shape) => is_grid(shape, block, r),
                None => r@ == seq![0u32, 0, 0],
            },
    {
        match &self.shape {
            Some(shape) => calc_grid(shape.as_slice(), block),
            None => {
                let none: [u32; 3] = [0, 0, 0];
                assert(none@ == seq![0u32, 0, 0]);
                none
            },
        }
    }

    /// Returns the rank (length of shape) of the tensor.
    ///
    /// To get just the shape, use [`Tensor::dims`].
    #[must_use]
    pub fn rank(&self) -> (r: usize)
        ensures
            r == match shape_of(self.shape) {
                Some(shape) => shape.len(),
                None => 2,
            },
    {
        match &self.shape {
            Some(shape) => shape.len(),
            None => 2,
        }
    }

    /// The number of whole 32-bit elements in the buffer.
    pub open spec fn words(&self) -> nat {
        self.data.inner.bytes() / 4
    }

    /// Returns the dimensions of the tensor as raw `u32`.
    ///
    /// This is a borrowed list with length `self.rank()`.
    ///
    /// # Errors
    ///
    /// A tensor without dimensions gives the length of its data, [`Tensor::len`], instead.
    pub fn dims(&self) -> (r: Result<&Vec<u32>, u32>)
        ensures
            match r {
                Ok(shape) => self.shape == Some(*shape),
                Err(len) => self.shape is None && len == self.words() as u32,
            },
    {
        match &self.shape {
            Some(shape) => Ok(shape),
            None => Err(self.data.size()),
        }
    }

    /// Returns the exact length of the data.
    ///
    /// This will always be equal to `.dims().product()` for a tensor that a context has allocated,
    /// only it uses a much faster method by directly checking the length of the buffer.
    #[must_use]
    pub fn len(&self) -> (r: u32)
        ensures
            r == self.words() as u32,
    {
        self.data.size()
    }

    /// Checks if the length is equal to zero, or data has no elements.
    ///
    /// Logically equivalent to `self.len() == 0`.
    #[must_use]
    pub fn is_empty(&self) -> (r: bool)
        ensures
            r == (self.words() as u32 == 0),
    {
        self.len() == 0
    }
}

} // verus!
