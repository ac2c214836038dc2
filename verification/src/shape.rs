//! Tensor shapes whose dimensions may depend on the batch size.
//!
//! A [`Size`] stands for the number `batch^exp * factor`; a [`Shape`] is a
//! list of sizes and a [`ConcreteShape`] a list of plain numbers.

use crate::text::{decimal_text, push_char, push_decimal, push_text};
use vstd::arithmetic::power::pow;
use vstd::prelude::*;

verus! {

/// The length of one axis: a fixed factor times a power of the batch size.
#[derive(Copy, Clone, Debug, PartialEq, Eq, Hash, Structural)]
pub struct Size {
    batch_exp: u32,
    fixed_factor: usize,
}

/// A list of axis lengths that may depend on the batch size.
#[derive(Clone, Debug, PartialEq, Eq, Hash)]
pub struct Shape {
    pub dims: Vec<Size>,
}

/// A list of axis lengths that are plain numbers.
#[derive(Clone, Debug, PartialEq, Eq, Hash)]
pub struct ConcreteShape {
    pub dims: Vec<usize>,
}

/// `usize::pow` of `std` raises `base` to the power `exp`; it overflows (and
/// then panics or wraps, depending on the build) when the power does not
/// fit, so such arguments are excluded.
pub assume_specification[ usize::pow ](base: usize, exp: u32) -> (r: usize)
    requires
        pow(base as int, exp as nat) <= usize::MAX,
    ensures
        r == pow(base as int, exp as nat),
;

/// The product of the first `n` numbers of `dims`.
pub open spec fn product(dims: Seq<usize>, n: nat) -> nat
    decreases n,
{
    if n == 0 {
        1
    } else {
        product(dims, (n - 1) as nat) * dims[n - 1] as nat
    }
}

/// The sum of two sizes, where one exists: zero is neutral, and otherwise
/// both must carry the same power of the batch size.
pub open spec fn size_sum(a: Size, b: Size) -> Option<Size> {
    if a == Size::spec_zero() {
        Some(b)
    } else if b == Size::spec_zero() {
        Some(a)
    } else if a.exp() != b.exp() {
        None
    } else {
        Some(Size::spec_new(a.exp(), a.factor() + b.factor()))
    }
}

/// The product of two sizes.
pub open spec fn size_product(a: Size, b: Size) -> Size {
    Size::spec_new(a.exp() + b.exp(), a.factor() * b.factor())
}

/// Whether the product of two sizes can be held.
pub open spec fn size_product_fits(a: Size, b: Size) -> bool {
    &&& a.exp() + b.exp() <= u32::MAX
    &&& a.factor() * b.factor() <= usize::MAX
}

/// The product of the first `n` sizes of `dims`, taken from the left and
/// starting at one.
pub open spec fn shape_size(dims: Seq<Size>, n: nat) -> Size
    decreases n,
{
    if n == 0 {
        Size::spec_fixed(1)
    } else {
        size_product(shape_size(dims, (n - 1) as nat), dims[n - 1])
    }
}

/// Whether every step of [`shape_size`] can be held.
pub open spec fn shape_size_fits(dims: Seq<Size>, n: nat) -> bool
    decreases n,
{
    n > 0 ==> {
        &&& shape_size_fits(dims, (n - 1) as nat)
        &&& size_product_fits(shape_size(dims, (n - 1) as nat), dims[n - 1])
    }
}

/// The first `n` axes of `dims` with each axis listed in `axes` replaced by
/// all of `replacement`.
pub open spec fn replaced(dims: Seq<Size>, axes: Seq<usize>, replacement: Seq<Size>, n: nat) -> Seq<
    Size,
>
    decreases n,
{
    if n == 0 {
        Seq::empty()
    } else {
        let head = replaced(dims, axes, replacement, (n - 1) as nat);
        if axes.contains((n - 1) as usize) {
            head + replacement
        } else {
            head.push(dims[n - 1])
        }
    }
}

impl Size {
    /// The size zero.
    pub fn zero() -> (r: Size)
        ensures
            r == Size::spec_zero(),
    {
        Size { batch_exp: 0, fixed_factor: 0 }
    }

    /// The size one.
    pub fn one() -> (r: Size)
        ensures
            r == Size::spec_one(),
    {
        Size { batch_exp: 0, fixed_factor: 1 }
    }

    /// The batch size itself.
    pub fn batch() -> (r: Size)
        ensures
            r == Size::spec_batch(),
    {
        Size { batch_exp: 1, fixed_factor: 1 }
    }

    /// The power of the batch size in this size.
    pub closed spec fn exp(self) -> nat {
        self.batch_exp as nat
    }

    /// The fixed factor of this size.
    pub closed spec fn factor(self) -> nat {
        self.fixed_factor as nat
    }

    /// The size with the given power and factor, both taken as they are.
    pub closed spec fn raw(exp: nat, factor: nat) -> Size {
        Size { batch_exp: exp as u32, fixed_factor: factor as usize }
    }

    /// The size zero.
    pub open spec fn spec_zero() -> Size {
        Size::raw(0, 0)
    }

    /// The size one.
    pub open spec fn spec_one() -> Size {
        Size::raw(0, 1)
    }

    /// The batch size itself.
    pub open spec fn spec_batch() -> Size {
        Size::raw(1, 1)
    }

    /// What [`Size::new`] builds: a zero factor makes the size zero, whatever the power.
    pub open spec fn spec_new(exp: nat, factor: nat) -> Size {
        if factor == 0 {
            Size::spec_zero()
        } else {
            Size::raw(exp, factor)
        }
    }

    /// What [`Size::fixed`] builds.
    pub open spec fn spec_fixed(size: nat) -> Size {
        Size::raw(0, size)
    }

    /// Whether this size does not depend on the batch size.
    pub open spec fn is_fixed(self) -> bool {
        self.exp() == 0
    }

    /// The number this size stands for at the given batch size.
    pub open spec fn value(self, batch_size: nat) -> int {
        pow(batch_size as int, self.exp()) * self.factor()
    }

    /// Sizes are told apart by their power and factor.
    pub broadcast proof fn lemma_raw(exp: nat, factor: nat)
        requires
            exp <= u32::MAX,
            factor <= usize::MAX,
        ensures
            (#[trigger] Size::raw(exp, factor)).exp() == exp,
            Size::raw(exp, factor).factor() == factor,
    {
    }

    /// Two sizes with the same power and factor are the same size.
    pub proof fn lemma_ext(a: Size, b: Size)
        requires
            a.exp() == b.exp(),
            a.factor() == b.factor(),
        ensures
            a == b,
    {
    }

    /// The size `fixed_factor * batch_size ^ batch_exp`; with a factor of zero
    /// the size is zero whatever the exponent.
    pub fn new(batch_exp: u32, fixed_factor: usize) -> (r: Size)
        ensures
            r == Size::spec_new(batch_exp as nat, fixed_factor as nat),
    {
        if fixed_factor == 0 {
            Size::zero()
        } else {
            Size { batch_exp, fixed_factor }
        }
    }

    /// A size that does not depend on the batch size.
    pub fn fixed(size: usize) -> (r: Size)
        ensures
            r == Size::spec_fixed(size as nat),
            r.is_fixed(),
            r.factor() == size,
    {
        Size { batch_exp: 0, fixed_factor: size }
    }

    /// The size for a given batch size.
    pub fn eval(self, batch_size: usize) -> (r: usize)
        requires
            pow(batch_size as int, self.exp()) <= usize::MAX,
            self.value(batch_size as nat) <= usize::MAX,
        ensures
            r == self.value(batch_size as nat),
    {
        let power: usize = batch_size.pow(self.batch_exp);
        power * self.fixed_factor
    }

    /// The size, if it does not depend on the batch size.
    pub fn try_unwrap_fixed(self) -> (r: Option<usize>)
        ensures
            r is Some <==> self.is_fixed(),
            r is Some ==> r->Some_0 == self.factor(),
    {
        if self.batch_exp == 0 {
            Some(self.fixed_factor)
        } else {
            None
        }
    }

    /// The factor of a size that does not depend on the batch size; `what`
    /// only names the size for the caller.
    pub fn unwrap_fixed(self, what: &str) -> (r: usize)
        requires
            self.is_fixed(),
        ensures
            r == self.factor(),
    {
        self.fixed_factor
    }

    /// The factor of a size that does not depend on the batch size, to be
    /// changed in place.
    pub fn unwrap_fixed_mut(&mut self, what: &str) -> (r: &mut usize)
        requires
            old(self).is_fixed(),
        ensures
            *r == old(self).factor(),
            final(self).is_fixed(),
            final(self).factor() == *final(r),
    {
        &mut self.fixed_factor
    }

    /// The sum of two sizes, where it exists and can be held.
    pub fn add(self, rhs: Size) -> (r: Option<Size>)
        requires
            self.factor() + rhs.factor() <= usize::MAX,
        ensures
            r == size_sum(self, rhs),
    {
        if self == Size::zero() {
            return Some(rhs);
        }
        if rhs == Size::zero() {
            return Some(self);
        }
        if self.batch_exp != rhs.batch_exp {
            return None;
        }
        Some(Size::new(self.batch_exp, self.fixed_factor + rhs.fixed_factor))
    }

    /// The product of two sizes.
    pub fn mul(self, rhs: Size) -> (r: Size)
        requires
            size_product_fits(self, rhs),
        ensures
            r == size_product(self, rhs),
    {
        Size::new(self.batch_exp + rhs.batch_exp, self.fixed_factor * rhs.fixed_factor)
    }

    /// The quotient of two sizes, where `rhs` divides this size exactly.
    pub fn div(self, rhs: Size) -> (r: Option<Size>)
        requires
            rhs.factor() != 0,
        ensures
            r is Some <==> self.exp() >= rhs.exp() && self.factor() % rhs.factor() == 0,
            r is Some ==> r->Some_0 == Size::spec_new(
                (self.exp() - rhs.exp()) as nat,
                self.factor() / rhs.factor(),
            ),
    {
        if self.batch_exp < rhs.batch_exp || self.fixed_factor % rhs.fixed_factor != 0 {
            None
        } else {
            Some(Size::new(self.batch_exp - rhs.batch_exp, self.fixed_factor / rhs.fixed_factor))
        }
    }

    /// The sum of a list of sizes from the left, starting at zero; `None` as
    /// soon as two of them cannot be added.
    pub fn sum(sizes: &[Size]) -> (r: Option<Size>)
        requires
            sizes_sum_fits(sizes@, sizes@.len()),
        ensures
            r == sizes_sum(sizes@, sizes@.len()),
    {
        let mut total = Size::zero();
        let mut i: usize = 0;
        while i < sizes.len()
            invariant
                i <= sizes.len(),
                sizes_sum_fits(sizes@, sizes@.len()),
                sizes_sum(sizes@, i as nat) == Some(total),
            decreases sizes.len() - i,
        {
            proof {
                lemma_sizes_sum_fits_prefix(sizes@, sizes@.len(), (i + 1) as nat);
            }
            match total.add(sizes[i]) {
                Some(next) => {
                    total = next;
                },
                None => {
                    proof {
                        lemma_sizes_sum_none(sizes@, (i + 1) as nat, sizes@.len());
                    }
                    return None;
                },
            }
            i += 1;
        }
        Some(total)
    }
}

/// The sum of the first `n` sizes of `sizes`, from the left and starting at
/// zero.
pub open spec fn sizes_sum(sizes: Seq<Size>, n: nat) -> Option<Size>
    decreases n,
{
    if n == 0 {
        Some(Size::spec_zero())
    } else {
        match sizes_sum(sizes, (n - 1) as nat) {
            Some(head) => size_sum(head, sizes[n - 1]),
            None => None,
        }
    }
}

/// Whether every addition of [`sizes_sum`] can be held.
pub open spec fn sizes_sum_fits(sizes: Seq<Size>, n: nat) -> bool
    decreases n,
{
    n > 0 ==> {
        &&& sizes_sum_fits(sizes, (n - 1) as nat)
        &&& (sizes_sum(sizes, (n - 1) as nat) matches Some(head) ==> head.factor() + sizes[n
            - 1].factor() <= usize::MAX)
    }
}

proof fn lemma_sizes_sum_fits_prefix(sizes: Seq<Size>, n: nat, k: nat)
    requires
        sizes_sum_fits(sizes, n),
        k <= n,
    ensures
        sizes_sum_fits(sizes, k),
    decreases n,
{
    if k < n {
        lemma_sizes_sum_fits_prefix(sizes, (n - 1) as nat, k);
    }
}

proof fn lemma_sizes_sum_none(sizes: Seq<Size>, k: nat, n: nat)
    requires
        k <= n,
        sizes_sum(sizes, k) is None,
    ensures
        sizes_sum(sizes, n) is None,
    decreases n,
{
    if k < n {
        lemma_sizes_sum_none(sizes, k, (n - 1) as nat);
    }
}

proof fn lemma_shape_size_fits_prefix(dims: Seq<Size>, n: nat, k: nat)
    requires
        shape_size_fits(dims, n),
        k <= n,
    ensures
        shape_size_fits(dims, k),
    decreases n,
{
    if k < n {
        lemma_shape_size_fits_prefix(dims, (n - 1) as nat, k);
    }
}

proof fn lemma_product_prefix(dims: Seq<usize>, n: nat, k: nat)
    requires
        k <= n,
        product(dims, n) <= usize::MAX,
        forall|i: int| 0 <= i < n ==> dims[i] > 0,
    ensures
        product(dims, k) <= product(dims, n),
    decreases n,
{
    if k < n {
        let head = product(dims, (n - 1) as nat);
        let last = dims[n - 1] as nat;
        assert(head <= head * last) by (nonlinear_arith)
            requires
                last > 0,
        ;
        lemma_product_prefix(dims, (n - 1) as nat, k);
    }
}

proof fn lemma_product_zero(dims: Seq<usize>, k: int, n: nat)
    requires
        0 <= k < n,
        dims[k] == 0,
    ensures
        product(dims, n) == 0,
    decreases n,
{
    if k < n - 1 {
        lemma_product_zero(dims, k, (n - 1) as nat);
        assert(0 * (dims[n - 1] as nat) == 0);
    } else {
        let head = product(dims, (n - 1) as nat);
        assert(head * 0 == 0) by (nonlinear_arith);
    }
}

impl View for Shape {
    type V = Seq<Size>;

    open spec fn view(&self) -> Seq<Size> {
        self.dims@
    }
}

impl View for ConcreteShape {
    type V = Seq<usize>;

    open spec fn view(&self) -> Seq<usize> {
        self.dims@
    }
}

fn copy_sizes(dims: &Vec<Size>, from: usize, to: usize) -> (r: Vec<Size>)
    requires
        from <= to <= dims.len(),
    ensures
        r@ == dims@.subrange(from as int, to as int),
{
    let mut out: Vec<Size> = Vec::new();
    let mut i: usize = from;
    while i < to
        invariant
            from <= i <= to <= dims.len(),
            out@ == dims@.subrange(from as int, i as int),
        decreases to - i,
    {
        out.push(dims[i]);
        i += 1;
    }
    out
}

fn repeated(size: Size, rank: usize) -> (r: Vec<Size>)
    ensures
        r@ == Seq::new(rank as nat, |i: int| size),
{
    let mut out: Vec<Size> = Vec::new();
    let mut i: usize = 0;
    while i < rank
        invariant
            i <= rank,
            out@ == Seq::new(i as nat, |j: int| size),
        decreases rank - i,
    {
        out.push(size);
        i += 1;
    }
    out
}

fn contains_axis(axes: &[usize], axis: usize) -> (r: bool)
    ensures
        r == axes@.contains(axis),
{
    let mut i: usize = 0;
    while i < axes.len()
        invariant
            i <= axes.len(),
            forall|j: int| 0 <= j < i ==> axes@[j] != axis,
        decreases axes.len() - i,
    {
        if axes[i] == axis {
            return true;
        }
        i += 1;
    }
    false
}

impl Shape {
    /// The shape without axes.
    pub fn scalar() -> (r: Shape)
        ensures
            r@ == Seq::<Size>::empty(),
    {
        Shape { dims: Vec::new() }
    }

    /// The shape with the given axes.
    pub fn new(dims: Vec<Size>) -> (r: Shape)
        ensures
            r.dims == dims,
    {
        Shape { dims }
    }

    /// The shape with a single axis.
    pub fn single(size: Size) -> (r: Shape)
        ensures
            r@ == seq![size],
    {
        let mut dims: Vec<Size> = Vec::new();
        dims.push(size);
        Shape { dims }
    }

    /// The shape whose axes have the given sizes, none of which depends on the
    /// batch size.
    pub fn fixed(dims: &[usize]) -> (r: Shape)
        ensures
            r@ == Seq::new(dims@.len(), |i: int| Size::spec_fixed(dims@[i] as nat)),
    {
        let mut out: Vec<Size> = Vec::new();
        let mut i: usize = 0;
        while i < dims.len()
            invariant
                i <= dims.len(),
                out@ == Seq::new(i as nat, |j: int| Size::spec_fixed(dims@[j] as nat)),
            decreases dims.len() - i,
        {
            out.push(Size::fixed(dims[i]));
            i += 1;
        }
        Shape { dims: out }
    }

    /// The shape of `rank` axes of size one.
    pub fn ones(rank: usize) -> (r: Shape)
        ensures
            r@ == Seq::new(rank as nat, |i: int| Size::spec_one()),
    {
        Shape::new(repeated(Size::one(), rank))
    }

    /// The shape of `rank` axes of size zero.
    pub fn zeros(rank: usize) -> (r: Shape)
        ensures
            r@ == Seq::new(rank as nat, |i: int| Size::spec_zero()),
    {
        Shape::new(repeated(Size::zero(), rank))
    }

    /// The number of axes.
    pub fn rank(&self) -> (r: usize)
        ensures
            r == self@.len(),
    {
        self.dims.len()
    }

    /// Whether no axis depends on the batch size.
    pub open spec fn all_fixed(&self) -> bool {
        forall|i: int| 0 <= i < self@.len() ==> (#[trigger] self@[i]).is_fixed()
    }

    /// The factors of the axes.
    pub open spec fn factors(&self) -> Seq<usize> {
        Seq::new(self@.len(), |i: int| self@[i].factor() as usize)
    }

    /// The numbers of the axes at the given batch size.
    pub open spec fn values(&self, batch_size: nat) -> Seq<usize> {
        Seq::new(self@.len(), |i: int| self@[i].value(batch_size) as usize)
    }

    /// The sizes of the axes, if none of them depends on the batch size.
    pub fn as_fixed(&self) -> (r: Option<ConcreteShape>)
        ensures
            r is Some <==> self.all_fixed(),
            r is Some ==> r->Some_0@ == self.factors(),
    {
        let mut out: Vec<usize> = Vec::new();
        let mut i: usize = 0;
        while i < self.dims.len()
            invariant
                i <= self.dims.len(),
                forall|j: int| 0 <= j < i ==> (#[trigger] self@[j]).is_fixed(),
                out@ == Seq::new(i as nat, |j: int| self@[j].factor() as usize),
            decreases self.dims.len() - i,
        {
            match self.dims[i].try_unwrap_fixed() {
                Some(d) => {
                    out.push(d);
                },
                None => {
                    assert(!self@[i as int].is_fixed());
                    return None;
                },
            }
            i += 1;
        }
        Some(ConcreteShape::new(out))
    }

    /// The shape as plain numbers; `what` only names the shape for the caller.
    pub fn unwrap_fixed(&self, what: &str) -> (r: ConcreteShape)
        requires
            self.all_fixed(),
        ensures
            r@ == self.factors(),
    {
        let mut out: Vec<usize> = Vec::new();
        let mut i: usize = 0;
        while i < self.dims.len()
            invariant
                i <= self.dims.len(),
                self.all_fixed(),
                out@ == Seq::new(i as nat, |j: int| self@[j].factor() as usize),
            decreases self.dims.len() - i,
        {
            out.push(self.dims[i].unwrap_fixed(what));
            i += 1;
        }
        ConcreteShape { dims: out }
    }

    /// Whether every axis can be evaluated at the given batch size.
    pub open spec fn eval_fits(&self, batch_size: nat) -> bool {
        forall|i: int|
            0 <= i < self@.len() ==> {
                &&& pow(batch_size as int, (#[trigger] self@[i]).exp()) <= usize::MAX
                &&& self@[i].value(batch_size) <= usize::MAX
            }
    }

    /// The shape for a given batch size.
    pub fn eval(&self, batch_size: usize) -> (r: ConcreteShape)
        requires
            self.eval_fits(batch_size as nat),
        ensures
            r@ == self.values(batch_size as nat),
    {
        let mut out: Vec<usize> = Vec::new();
        let mut i: usize = 0;
        while i < self.dims.len()
            invariant
                i <= self.dims.len(),
                self.eval_fits(batch_size as nat),
                out@ == Seq::new(i as nat, |j: int| self@[j].value(batch_size as nat) as usize),
            decreases self.dims.len() - i,
        {
            assert(self@[i as int].value(batch_size as nat) <= usize::MAX);
            out.push(self.dims[i].eval(batch_size));
            i += 1;
        }
        ConcreteShape { dims: out }
    }

    /// The number of elements: the product of all axes.
    pub fn size(&self) -> (r: Size)
        requires
            shape_size_fits(self@, self@.len()),
        ensures
            r == shape_size(self@, self@.len()),
    {
        let mut total = Size::fixed(1);
        let mut i: usize = 0;
        while i < self.dims.len()
            invariant
                i <= self.dims.len(),
                shape_size_fits(self@, self@.len()),
                total == shape_size(self@, i as nat),
            decreases self.dims.len() - i,
        {
            proof {
                lemma_shape_size_fits_prefix(self@, self@.len(), (i + 1) as nat);
            }
            total = total.mul(self.dims[i]);
            i += 1;
        }
        total
    }

    /// The only axis of a shape of rank one.
    pub fn unwrap_1(&self) -> (r: Size)
        requires
            self@.len() == 1,
        ensures
            r == self@[0],
    {
        self.dims[0]
    }

    /// The axes of a shape of rank two.
    pub fn unwrap_2(&self) -> (r: [Size; 2])
        requires
            self@.len() == 2,
        ensures
            r@ == self@,
    {
        let r = [self.dims[0], self.dims[1]];
        assert(r@ =~= self@);
        r
    }

    /// The axes of a shape of rank three.
    pub fn unwrap_3(&self) -> (r: [Size; 3])
        requires
            self@.len() == 3,
        ensures
            r@ == self@,
    {
        let r = [self.dims[0], self.dims[1], self.dims[2]];
        assert(r@ =~= self@);
        r
    }

    /// The axes of a shape of rank four.
    pub fn unwrap_4(&self) -> (r: [Size; 4])
        requires
            self@.len() == 4,
        ensures
            r@ == self@,
    {
        let r = [self.dims[0], self.dims[1], self.dims[2], self.dims[3]];
        assert(r@ =~= self@);
        r
    }

    /// The axes of this shape followed by those of `other`.
    pub fn concat(self, other: &Shape) -> (r: Shape)
        ensures
            r@ == self@ + other@,
    {
        let mut dims = self.dims;
        let mut i: usize = 0;
        while i < other.dims.len()
            invariant
                i <= other.dims.len(),
                dims@ == self@ + other@.subrange(0, i as int),
            decreases other.dims.len() - i,
        {
            dims.push(other.dims[i]);
            i += 1;
        }
        assert(other@.subrange(0, other@.len() as int) == other@);
        Shape { dims }
    }

    /// The shape with an axis for the batch in front.
    pub fn batched(&self) -> (r: Shape)
        ensures
            r@ == seq![Size::spec_batch()] + self@,
    {
        Shape::single(Size::batch()).concat(self)
    }

    /// The shape with the axis `axis` replaced by the axes of `replacement`.
    pub fn replace(&self, axis: usize, replacement: Shape) -> (r: Shape)
        requires
            axis < self@.len(),
        ensures
            r@ == self@.subrange(0, axis as int) + replacement@ + self@.subrange(
                axis + 1,
                self@.len() as int,
            ),
            r@ == replaced(self@, seq![axis], replacement@, self@.len()),
    {
        let axes = [axis];
        assert(axes@ =~= seq![axis]);
        let rank = self.dims.len();
        let r = self.replace_all(axes.as_slice(), replacement);
        proof {
            assert(self@.len() == rank);
            lemma_replaced_single(self@, axis, replacement@, self@.len());
            assert(self@.subrange(0, self@.len() as int) == self@);
        }
        r
    }

    /// The shape with every axis listed in `axes` replaced by the axes of
    /// `replacement`; the other axes stay as they are and in their order.
    pub fn replace_all(&self, axes: &[usize], replacement: Shape) -> (r: Shape)
        requires
            axes@.no_duplicates(),
            forall|i: int| 0 <= i < axes@.len() ==> axes@[i] < self@.len(),
        ensures
            r@ == replaced(self@, axes@, replacement@, self@.len()),
    {
        let mut dims: Vec<Size> = Vec::new();
        let mut i: usize = 0;
        while i < self.dims.len()
            invariant
                i <= self.dims.len(),
                dims@ == replaced(self@, axes@, replacement@, i as nat),
            decreases self.dims.len() - i,
        {
            if contains_axis(axes, i) {
                let mut j: usize = 0;
                while j < replacement.dims.len()
                    invariant
                        j <= replacement.dims.len(),
                        i < self.dims.len(),
                        dims@ == replaced(self@, axes@, replacement@, i as nat)
                            + replacement@.subrange(0, j as int),
                    decreases replacement.dims.len() - j,
                {
                    dims.push(replacement.dims[j]);
                    j += 1;
                }
                assert(replacement@.subrange(0, replacement@.len() as int) == replacement@);
            } else {
                dims.push(self.dims[i]);
            }
            i += 1;
        }
        Shape::new(dims)
    }

    /// The shape with the axis `axis` kept and every other axis set to `rest`.
    pub fn keep(&self, axis: usize, rest: Size) -> (r: Shape)
        requires
            axis < self@.len(),
        ensures
            r@ == Seq::new(
                self@.len(),
                |i: int|
                    if i == axis {
                        self@[i]
                    } else {
                        rest
                    },
            ),
    {
        let mut dims: Vec<Size> = Vec::new();
        let mut i: usize = 0;
        while i < self.dims.len()
            invariant
                i <= self.dims.len(),
                dims@ == Seq::new(
                    i as nat,
                    |j: int|
                        if j == axis {
                            self@[j]
                        } else {
                            rest
                        },
                ),
            decreases self.dims.len() - i,
        {
            if i != axis {
                dims.push(rest);
            } else {
                dims.push(self.dims[i]);
            }
            i += 1;
        }
        Shape::new(dims)
    }

    /// The shape with the axis `axis`, which has length one, set to `new_size`.
    pub fn repeat_unary(&self, axis: usize, new_size: Size) -> (r: Shape)
        requires
            axis < self@.len(),
            self@[axis as int] == Size::spec_one(),
        ensures
            r@ == self@.update(axis as int, new_size),
    {
        let mut dims = copy_sizes(&self.dims, 0, self.dims.len());
        assert(self@.subrange(0, self@.len() as int) == self@);
        dims.set(axis, new_size);
        Shape::new(dims)
    }

    /// The shape with one more axis of length `size` at position `axis`.
    pub fn insert(&self, axis: usize, size: Size) -> (r: Shape)
        requires
            axis <= self@.len(),
        ensures
            r@ == self@.insert(axis as int, size),
    {
        let mut dims = copy_sizes(&self.dims, 0, self.dims.len());
        assert(self@.subrange(0, self@.len() as int) == self@);
        dims.insert(axis, size);
        Shape::new(dims)
    }

    /// The first `rank` axes and the remaining ones.
    pub fn split(&self, rank: usize) -> (r: (Shape, Shape))
        requires
            rank <= self@.len(),
        ensures
            r.0@ == self@.subrange(0, rank as int),
            r.1@ == self@.subrange(rank as int, self@.len() as int),
    {
        let body = copy_sizes(&self.dims, 0, rank);
        let tail = copy_sizes(&self.dims, rank, self.dims.len());
        (Shape::new(body), Shape::new(tail))
    }
}

proof fn lemma_replaced_single(dims: Seq<Size>, axis: usize, replacement: Seq<Size>, n: nat)
    requires
        n <= dims.len(),
        n <= usize::MAX,
    ensures
        replaced(dims, seq![axis], replacement, n) == if n <= axis {
            dims.subrange(0, n as int)
        } else {
            dims.subrange(0, axis as int) + replacement + dims.subrange(axis + 1, n as int)
        },
    decreases n,
{
    let axes = seq![axis];
    if n > 0 {
        lemma_replaced_single(dims, axis, replacement, (n - 1) as nat);
        let last = (n - 1) as usize;
        if last == axis {
            assert(axes[0] == last);
            assert(axes.contains(last));
            assert(dims.subrange(axis + 1, n as int) == Seq::<Size>::empty());
            assert(replaced(dims, axes, replacement, n) == dims.subrange(0, axis as int)
                + replacement + dims.subrange(axis + 1, n as int));
        } else {
            assert(!axes.contains(last)) by {
                if axes.contains(last) {
                    let k = choose|k: int| 0 <= k < axes.len() && axes[k] == last;
                    assert(axes[k] == axis);
                }
            }
            if n <= axis {
                assert(dims.subrange(0, n as int) == dims.subrange(0, n - 1).push(dims[n - 1]));
            } else {
                assert(dims.subrange(axis + 1, n as int) == dims.subrange(axis + 1, n - 1).push(
                    dims[n - 1],
                ));
                assert(replaced(dims, axes, replacement, n) == dims.subrange(0, axis as int)
                    + replacement + dims.subrange(axis + 1, n as int));
            }
        }
    } else {
        assert(dims.subrange(0, 0) == Seq::<Size>::empty());
    }
}

impl ConcreteShape {
    /// The shape with the given axes.
    pub fn new(dims: Vec<usize>) -> (r: ConcreteShape)
        ensures
            r.dims == dims,
    {
        ConcreteShape { dims }
    }

    /// The number of axes.
    pub fn rank(&self) -> (r: usize)
        ensures
            r == self@.len(),
    {
        self.dims.len()
    }

    /// The number of elements: the product of all axes.
    pub fn size(&self) -> (r: usize)
        requires
            product(self@, self@.len()) <= usize::MAX,
        ensures
            r == product(self@, self@.len()),
    {
        let mut i: usize = 0;
        while i < self.dims.len()
            invariant
                i <= self.dims.len(),
                forall|j: int| 0 <= j < i ==> self@[j] > 0,
            decreases self.dims.len() - i,
        {
            if self.dims[i] == 0 {
                proof {
                    lemma_product_zero(self@, i as int, self@.len());
                }
                return 0;
            }
            i += 1;
        }
        let mut total: usize = 1;
        let mut k: usize = 0;
        while k < self.dims.len()
            invariant
                k <= self.dims.len(),
                product(self@, self@.len()) <= usize::MAX,
                forall|j: int| 0 <= j < self@.len() ==> self@[j] > 0,
                total == product(self@, k as nat),
            decreases self.dims.len() - k,
        {
            proof {
                lemma_product_prefix(self@, self@.len(), (k + 1) as nat);
            }
            total = total * self.dims[k];
            k += 1;
        }
        total
    }

    /// The axes of a shape of rank two.
    pub fn unwrap_2(&self) -> (r: [usize; 2])
        requires
            self@.len() == 2,
        ensures
            r@ == self@,
    {
        let r = [self.dims[0], self.dims[1]];
        assert(r@ =~= self@);
        r
    }

    /// The axes of a shape of rank three.
    pub fn unwrap_3(&self) -> (r: [usize; 3])
        requires
            self@.len() == 3,
        ensures
            r@ == self@,
    {
        let r = [self.dims[0], self.dims[1], self.dims[2]];
        assert(r@ =~= self@);
        r
    }

    /// The axes of a shape of rank four.
    pub fn unwrap_4(&self) -> (r: [usize; 4])
        requires
            self@.len() == 4,
        ensures
            r@ == self@,
    {
        let r = [self.dims[0], self.dims[1], self.dims[2], self.dims[3]];
        assert(r@ =~= self@);
        r
    }
}

/// A size as text: the factor, then `B` for the batch size with its power
/// where that is more than one. A factor of one is left out before `B`.
pub open spec fn size_text(size: Size) -> Seq<char> {
    let factor = decimal_text(size.factor());
    let power = decimal_text(size.exp());
    if size.exp() == 0 {
        factor
    } else if size.exp() == 1 {
        if size.factor() == 1 {
            seq!['B']
        } else {
            factor.push('B')
        }
    } else if size.factor() == 1 {
        seq!['B', '^'] + power
    } else {
        factor + seq!['B', '^'] + power
    }
}

/// The first `n` sizes as text, with ` x ` between them.
pub open spec fn sizes_text(dims: Seq<Size>, n: nat) -> Seq<char>
    decreases n,
{
    if n == 0 {
        Seq::empty()
    } else if n == 1 {
        size_text(dims[0])
    } else {
        sizes_text(dims, (n - 1) as nat) + seq![' ', 'x', ' '] + size_text(dims[n - 1])
    }
}

/// The first `n` numbers as text, with ` x ` between them.
pub open spec fn numbers_text(dims: Seq<usize>, n: nat) -> Seq<char>
    decreases n,
{
    if n == 0 {
        Seq::empty()
    } else if n == 1 {
        decimal_text(dims[0] as nat)
    } else {
        numbers_text(dims, (n - 1) as nat) + seq![' ', 'x', ' '] + decimal_text(dims[n - 1] as nat)
    }
}

fn push_size(out: &mut String, size: Size)
    ensures
        final(out)@ == old(out)@ + size_text(size),
{
    let ghost before = out@;
    if size.batch_exp == 0 {
        push_decimal(out, size.fixed_factor as u64);
    } else {
        if size.fixed_factor != 1 {
            push_decimal(out, size.fixed_factor as u64);
        }
        push_char(out, 'B');
        if size.batch_exp != 1 {
            push_char(out, '^');
            push_decimal(out, size.batch_exp as u64);
        }
        assert(out@ =~= before + size_text(size));
    }
}

impl Size {
    /// The size as text, see [`size_text`].
    pub fn to_text(&self) -> (r: String)
        ensures
            r@ == size_text(*self),
    {
        let mut out = String::new();
        push_size(&mut out, *self);
        assert(Seq::<char>::empty() + size_text(*self) =~= size_text(*self));
        out
    }
}

impl Shape {
    /// The shape as text: its sizes in brackets, with ` x ` between them.
    pub fn to_text(&self) -> (r: String)
        ensures
            r@ == seq!['('] + sizes_text(self@, self@.len()) + seq![')'],
    {
        let mut out = String::new();
        push_char(&mut out, '(');
        let mut i: usize = 0;
        assert(out@ =~= seq!['('] + sizes_text(self@, 0));
        while i < self.dims.len()
            invariant
                i <= self.dims@.len(),
                out@ == seq!['('] + sizes_text(self@, i as nat),
            decreases self.dims@.len() - i,
        {
            if i != 0 {
                push_text(&mut out, " x ");
                proof {
                    reveal_strlit(" x ");
                    assert(" x "@ =~= seq![' ', 'x', ' ']);
                }
            }
            push_size(&mut out, self.dims[i]);
            proof {
                if i == 0 {
                    assert(sizes_text(self@, 0) =~= Seq::<char>::empty());
                    assert(out@ =~= seq!['('] + sizes_text(self@, 1));
                } else {
                    assert(out@ =~= seq!['('] + sizes_text(self@, (i + 1) as nat));
                }
            }
            i += 1;
        }
        push_char(&mut out, ')');
        assert(out@ =~= seq!['('] + sizes_text(self@, self@.len()) + seq![')']);
        out
    }
}

impl ConcreteShape {
    /// The shape as text: its numbers in brackets, with ` x ` between them.
    pub fn to_text(&self) -> (r: String)
        ensures
            r@ == seq!['('] + numbers_text(self@, self@.len()) + seq![')'],
    {
        let mut out = String::new();
        push_char(&mut out, '(');
        let mut i: usize = 0;
        assert(out@ =~= seq!['('] + numbers_text(self@, 0));
        while i < self.dims.len()
            invariant
                i <= self.dims@.len(),
                out@ == seq!['('] + numbers_text(self@, i as nat),
            decreases self.dims@.len() - i,
        {
            if i != 0 {
                push_text(&mut out, " x ");
                proof {
                    reveal_strlit(" x ");
                    assert(" x "@ =~= seq![' ', 'x', ' ']);
                }
            }
            push_decimal(&mut out, self.dims[i] as u64);
            proof {
                if i == 0 {
                    assert(numbers_text(self@, 0) =~= Seq::<char>::empty());
                    assert(out@ =~= seq!['('] + numbers_text(self@, 1));
                } else {
                    assert(out@ =~= seq!['('] + numbers_text(self@, (i + 1) as nat));
                }
            }
            i += 1;
        }
        push_char(&mut out, ')');
        assert(out@ =~= seq!['('] + numbers_text(self@, self@.len()) + seq![')']);
        out
    }
}

} // verus!
