//! Sparse vectors over whole numbers.
//!
//! A vector holds a value for some dimensions and stands for zero in all
//! others. Values are whole numbers; a weight with three decimals is held
//! as its number of thousandths.

use vstd::prelude::*;

verus! {

/// The value of one dimension.
#[derive(Debug, Clone, Copy, PartialEq, Eq)]
pub struct Element {
    pub index: usize,
    pub value: i32,
}

/// A sparse vector: its elements in ascending order of their dimensions,
/// each dimension at most once.
#[derive(Debug)]
pub struct Vector {
    elements: Vec<Element>,
}

impl View for Vector {
    type V = Seq<Element>;

    /// The elements of the vector, in ascending order of their dimensions.
    closed spec fn view(&self) -> Seq<Element> {
        self.elements@
    }
}

/// The dimensions ascend strictly.
pub open spec fn ascending(elems: Seq<Element>) -> bool {
    forall|i: int, j: int| 0 <= i < j < elems.len() ==> (#[trigger] elems[i]).index < (#[trigger] elems[j]).index
}

/// Whether `elems` holds a value for dimension `d`.
pub open spec fn holds(elems: Seq<Element>, d: int) -> bool {
    exists|i: int| 0 <= i < elems.len() && (#[trigger] elems[i]).index == d
}

/// The value that `elems` stands for in dimension `d`: zero where it holds none.
pub open spec fn value_at(elems: Seq<Element>, d: int) -> int
    decreases elems.len(),
{
    if elems.len() == 0 {
        0
    } else if elems.last().index == d {
        elems.last().value as int
    } else {
        value_at(elems.drop_last(), d)
    }
}

/// The sum, over the dimensions below `bound`, of the products of the two values.
pub open spec fn dot_below(a: Seq<Element>, b: Seq<Element>, bound: int) -> int
    decreases bound,
{
    if bound <= 0 {
        0
    } else {
        dot_below(a, b, bound - 1) + value_at(a, bound - 1) * value_at(b, bound - 1)
    }
}

/// The dot product: the sum, over all dimensions, of the products of the two values.
pub open spec fn dot_product(a: Seq<Element>, b: Seq<Element>) -> int {
    dot_below(a, b, usize::MAX + 1)
}

/// The sum of `a` and `b`, held within the range of a value.
pub open spec fn bounded_sum(a: int, b: int) -> int {
    if a + b > i32::MAX {
        i32::MAX as int
    } else if a + b < i32::MIN {
        i32::MIN as int
    } else {
        a + b
    }
}

/// A vector that holds no value for `d` stands for zero there.
pub proof fn lemma_value_absent(elems: Seq<Element>, d: int)
    requires
        !holds(elems, d),
    ensures
        value_at(elems, d) == 0,
    decreases elems.len(),
{
    if elems.len() > 0 {
        assert(elems[elems.len() - 1].index != d);
        assert forall|i: int| 0 <= i < elems.drop_last().len() implies (#[trigger] elems.drop_last()[i]).index != d by {
            assert(elems[i].index != d);
        }
        lemma_value_absent(elems.drop_last(), d);
    }
}

/// A vector stands for the value of its element `k` in that element's dimension.
pub proof fn lemma_value_present(elems: Seq<Element>, k: int)
    requires
        ascending(elems),
        0 <= k < elems.len(),
    ensures
        value_at(elems, elems[k].index as int) == elems[k].value,
    decreases elems.len(),
{
    if k < elems.len() - 1 {
        assert(elems[k].index < elems[elems.len() - 1].index);
        assert forall|i: int, j: int| 0 <= i < j < elems.drop_last().len() implies (
        #[trigger] elems.drop_last()[i]).index < (#[trigger] elems.drop_last()[j]).index by {
            assert(elems[i].index < elems[j].index);
        }
        lemma_value_present(elems.drop_last(), k);
    }
}

/// Dimensions in which one of the two vectors stands for zero add nothing.
pub proof fn lemma_dot_gap(a: Seq<Element>, b: Seq<Element>, lo: int, hi: int)
    requires
        lo <= hi,
        forall|d: int| lo <= d < hi ==> #[trigger] value_at(a, d) == 0 || value_at(b, d) == 0,
    ensures
        dot_below(a, b, hi) == dot_below(a, b, lo),
    decreases hi - lo,
{
    if lo < hi {
        lemma_dot_gap(a, b, lo, hi - 1);
        if hi > 0 {
            assert(value_at(a, hi - 1) == 0 || value_at(b, hi - 1) == 0);
            assert(value_at(a, hi - 1) * value_at(b, hi - 1) == 0) by (nonlinear_arith)
                requires
                    value_at(a, hi - 1) == 0 || value_at(b, hi - 1) == 0,
            ;
        } else {
            assert(dot_below(a, b, hi) == 0);
            assert(dot_below(a, b, lo) == 0);
        }
    }
}

/// The dot product does not depend on the order of its two vectors.
pub proof fn lemma_dot_commutes(a: Seq<Element>, b: Seq<Element>, bound: int)
    ensures
        dot_below(a, b, bound) == dot_below(b, a, bound),
    decreases bound,
{
    if bound > 0 {
        lemma_dot_commutes(a, b, bound - 1);
        assert(value_at(a, bound - 1) * value_at(b, bound - 1) == value_at(b, bound - 1) * value_at(a, bound - 1))
            by (nonlinear_arith);
    }
}

/// The dot product of a vector with itself is not negative.
pub proof fn lemma_dot_self(a: Seq<Element>, bound: int)
    ensures
        dot_below(a, a, bound) >= 0,
    decreases bound,
{
    if bound > 0 {
        lemma_dot_self(a, bound - 1);
        assert(value_at(a, bound - 1) * value_at(a, bound - 1) >= 0) by (nonlinear_arith);
    }
}

/// One more dimension keeps the square of a dot product below the product
/// of the two squares of lengths.
proof fn lemma_bound_step(s: int, a: int, b: int, x: int, y: int)
    requires
        s * s <= a * b,
        a >= 0,
        b >= 0,
    ensures
        (s + x * y) * (s + x * y) <= (a + x * x) * (b + y * y),
{
    let xx = x * x;
    let yy = y * y;
    let xy = x * y;
    let t = a * yy + b * xx - 2 * (s * xy);
    assert(xx >= 0) by (nonlinear_arith)
        requires
            xx == x * x,
    ;
    assert(xy * xy == xx * yy) by (nonlinear_arith)
        requires
            xx == x * x,
            yy == y * y,
            xy == x * y,
    ;
    assert(t >= 0) by {
        if a == 0 {
            assert(s == 0) by (nonlinear_arith)
                requires
                    s * s <= a * b,
                    a == 0,
            ;
            assert(b * xx >= 0) by (nonlinear_arith)
                requires
                    b >= 0,
                    xx >= 0,
            ;
            assert(a * yy == 0) by (nonlinear_arith)
                requires
                    a == 0,
            ;
            assert(s * xy == 0) by (nonlinear_arith)
                requires
                    s == 0,
            ;
        } else {
            let p = a * y;
            let q = s * x;
            let u = p - q;
            assert(u * u == p * p - 2 * (p * q) + q * q) by (nonlinear_arith)
                requires
                    u == p - q,
            ;
            assert(p * p == (a * a) * yy) by (nonlinear_arith)
                requires
                    p == a * y,
                    yy == y * y,
            ;
            assert(q * q == (s * s) * xx) by (nonlinear_arith)
                requires
                    q == s * x,
                    xx == x * x,
            ;
            assert(p * q == (a * s) * xy) by (nonlinear_arith)
                requires
                    p == a * y,
                    q == s * x,
                    xy == x * y,
            ;
            assert(a * t == a * (a * yy) + a * (b * xx) - 2 * (a * (s * xy))) by (nonlinear_arith)
                requires
                    t == a * yy + b * xx - 2 * (s * xy),
            ;
            assert(a * (a * yy) == (a * a) * yy) by (nonlinear_arith);
            assert(a * (b * xx) == (a * b) * xx) by (nonlinear_arith);
            assert(a * (s * xy) == (a * s) * xy) by (nonlinear_arith);
            assert((a * b) * xx - (s * s) * xx == (a * b - s * s) * xx) by (nonlinear_arith);
            assert((a * b - s * s) * xx >= 0) by (nonlinear_arith)
                requires
                    s * s <= a * b,
                    xx >= 0,
            ;
            assert(u * u >= 0) by (nonlinear_arith);
            assert(a * t >= 0);
            assert(t >= 0) by (nonlinear_arith)
                requires
                    a * t >= 0,
                    a > 0,
            ;
        }
    }
    assert((a + xx) * (b + yy) == a * b + a * yy + xx * b + xx * yy) by (nonlinear_arith);
    assert((s + xy) * (s + xy) == s * s + 2 * (s * xy) + xy * xy) by (nonlinear_arith);
    assert(xx * b == b * xx) by (nonlinear_arith);
}

/// The square of a dot product is at most the product of the dot products
/// of the two vectors with themselves.
pub proof fn lemma_dot_bounded(a: Seq<Element>, b: Seq<Element>, bound: int)
    ensures
        dot_below(a, b, bound) * dot_below(a, b, bound) <= dot_below(a, a, bound) * dot_below(b, b, bound),
    decreases bound,
{
    if bound > 0 {
        lemma_dot_bounded(a, b, bound - 1);
        lemma_dot_self(a, bound - 1);
        lemma_dot_self(b, bound - 1);
        lemma_bound_step(
            dot_below(a, b, bound - 1),
            dot_below(a, a, bound - 1),
            dot_below(b, b, bound - 1),
            value_at(a, bound - 1),
            value_at(b, bound - 1),
        );
    } else {
        assert(dot_below(a, b, bound) * dot_below(a, b, bound) == 0) by (nonlinear_arith)
            requires
                dot_below(a, b, bound) == 0,
        ;
        assert(dot_below(a, a, bound) * dot_below(b, b, bound) == 0) by (nonlinear_arith)
            requires
                dot_below(a, a, bound) == 0,
        ;
    }
}

/// The dot product with the vector that holds nothing is zero.
pub proof fn lemma_dot_empty(a: Seq<Element>, b: Seq<Element>, bound: int)
    requires
        a.len() == 0 || b.len() == 0,
    ensures
        dot_below(a, b, bound) == 0,
{
    if bound > 0 {
        lemma_dot_gap(a, b, 0, bound);
    }
}

/// A vector is fixed by what it stands for: two lists of elements in
/// ascending order that hold the same dimensions with the same values are
/// the same list.
pub proof fn lemma_same_values(a: Seq<Element>, b: Seq<Element>)
    requires
        ascending(a),
        ascending(b),
        forall|d: int| holds(a, d) == holds(b, d),
        forall|d: int| holds(a, d) ==> value_at(a, d) == value_at(b, d),
    ensures
        a == b,
    decreases a.len(),
{
    if a.len() == 0 {
        if b.len() > 0 {
            assert(holds(b, b[0].index as int));
            assert(holds(a, b[0].index as int));
        }
        assert(a =~= b);
    } else {
        let la = a.last();
        let n = a.len() - 1;
        assert(holds(a, a[n].index as int));
        assert(holds(b, la.index as int));
        let lb = b.last();
        let m = b.len() - 1;
        assert(holds(b, b[m].index as int));
        assert(holds(a, lb.index as int));
        let j = choose|j: int| 0 <= j < b.len() && (#[trigger] b[j]).index == la.index;
        let i = choose|i: int| 0 <= i < a.len() && (#[trigger] a[i]).index == lb.index;
        if j < m {
            assert(b[j].index < b[m].index);
        }
        if i < n {
            assert(a[i].index < a[n].index);
        }
        assert(la.index == lb.index);
        lemma_value_present(a, n);
        lemma_value_present(b, m);
        assert(la == lb);
        let shorter_a = a.drop_last();
        let shorter_b = b.drop_last();
        assert forall|d: int| holds(shorter_a, d) == holds(shorter_b, d) by {
            if holds(shorter_a, d) {
                let k = choose|k: int| 0 <= k < shorter_a.len() && (#[trigger] shorter_a[k]).index == d;
                assert(a[k].index == d);
                assert(a[k].index < a[n].index);
                assert(holds(b, d));
                let q = choose|q: int| 0 <= q < b.len() && (#[trigger] b[q]).index == d;
                assert(shorter_b[q].index == d);
            }
            if holds(shorter_b, d) {
                let k = choose|k: int| 0 <= k < shorter_b.len() && (#[trigger] shorter_b[k]).index == d;
                assert(b[k].index == d);
                assert(b[k].index < b[m].index);
                assert(holds(a, d));
                let q = choose|q: int| 0 <= q < a.len() && (#[trigger] a[q]).index == d;
                assert(shorter_a[q].index == d);
            }
        }
        assert forall|d: int| holds(shorter_a, d) implies value_at(shorter_a, d) == value_at(shorter_b, d) by {
            let k = choose|k: int| 0 <= k < shorter_a.len() && (#[trigger] shorter_a[k]).index == d;
            assert(a[k].index == d);
            assert(a[k].index < a[n].index);
            assert(holds(a, d));
        }
        assert forall|x: int, y: int| 0 <= x < y < shorter_a.len() implies (#[trigger] shorter_a[x]).index < (
        #[trigger] shorter_a[y]).index by {
            assert(a[x].index < a[y].index);
        }
        assert forall|x: int, y: int| 0 <= x < y < shorter_b.len() implies (#[trigger] shorter_b[x]).index < (
        #[trigger] shorter_b[y]).index by {
            assert(b[x].index < b[y].index);
        }
        lemma_same_values(shorter_a, shorter_b);
        assert(a =~= shorter_a.push(la));
        assert(b =~= shorter_b.push(lb));
    }
}

/// What a vector stands for after an element was put in at its place.
pub proof fn lemma_insert_values(before: Seq<Element>, pos: int, e: Element, d: int)
    requires
        ascending(before),
        0 <= pos <= before.len(),
        ascending(before.insert(pos, e)),
    ensures
        holds(before.insert(pos, e), d) == (holds(before, d) || d == e.index),
        value_at(before.insert(pos, e), d) == if d == e.index {
            e.value as int
        } else {
            value_at(before, d)
        },
{
    let after = before.insert(pos, e);
    assert(after[pos] == e);
    if d == e.index {
        lemma_value_present(after, pos);
    } else if holds(before, d) {
        let k = choose|k: int| 0 <= k < before.len() && (#[trigger] before[k]).index == d;
        let k2 = if k < pos {
            k
        } else {
            k + 1
        };
        assert(after[k2] == before[k]);
        lemma_value_present(before, k);
        lemma_value_present(after, k2);
    } else {
        if holds(after, d) {
            let k = choose|k: int| 0 <= k < after.len() && (#[trigger] after[k]).index == d;
            if k < pos {
                assert(before[k] == after[k]);
            } else {
                assert(k > pos);
                assert(before[k - 1] == after[k]);
            }
        }
        lemma_value_absent(before, d);
        lemma_value_absent(after, d);
    }
}

/// What a vector stands for after the value of its element `pos` was changed.
pub proof fn lemma_update_values(before: Seq<Element>, pos: int, value: i32, d: int)
    requires
        ascending(before),
        0 <= pos < before.len(),
    ensures
        ascending(before.update(pos, Element { index: before[pos].index, value })),
        holds(before.update(pos, Element { index: before[pos].index, value }), d) == holds(before, d),
        value_at(before.update(pos, Element { index: before[pos].index, value }), d) == if d == before[pos].index {
            value as int
        } else {
            value_at(before, d)
        },
{
    let after = before.update(pos, Element { index: before[pos].index, value });
    assert forall|i: int, j: int| 0 <= i < j < after.len() implies (#[trigger] after[i]).index < (#[trigger] after[j]).index by {
        assert(before[i].index < before[j].index);
    }
    if holds(before, d) {
        let k = choose|k: int| 0 <= k < before.len() && (#[trigger] before[k]).index == d;
        assert(after[k].index == d);
        lemma_value_present(before, k);
        lemma_value_present(after, k);
        if k != pos && d == before[pos].index {
            if k < pos {
                assert(before[k].index < before[pos].index);
            } else {
                assert(before[pos].index < before[k].index);
            }
        }
    } else {
        if holds(after, d) {
            let k = choose|k: int| 0 <= k < after.len() && (#[trigger] after[k]).index == d;
            assert(before[k].index == d);
        }
        lemma_value_absent(before, d);
        lemma_value_absent(after, d);
    }
}

proof fn lemma_product_bound(x: i32, y: i32)
    ensures
        -0x4000_0000_0000_0000 <= (x as int) * (y as int) <= 0x4000_0000_0000_0000,
{
    assert(-0x4000_0000_0000_0000 <= (x as int) * (y as int) <= 0x4000_0000_0000_0000) by (nonlinear_arith)
        requires
            -0x8000_0000 <= (x as int) <= 0x7fff_ffff,
            -0x8000_0000 <= (y as int) <= 0x7fff_ffff,
    ;
}

impl Vector {
    /// The dimensions ascend strictly.
    pub open spec fn wf(&self) -> bool {
        ascending(self@)
    }

    /// The dot product of `self` and `other`.
    pub open spec fn dot_spec(&self, other: &Vector) -> int {
        dot_product(self@, other@)
    }

    /// The vector that holds nothing.
    pub fn new() -> (v: Vector)
        ensures
            v@.len() == 0,
            v.wf(),
    {
        Vector { elements: Vec::new() }
    }

    /// The vector that holds `values[i]` in dimension `i`.
    pub fn from(values: Vec<i32>) -> (v: Vector)
        ensures
            v.wf(),
            v@.len() == values@.len(),
            forall|i: int| 0 <= i < values@.len() ==> #[trigger] v@[i] == (Element { index: i as usize, value: values@[i] }),
    {
        let mut elements: Vec<Element> = Vec::new();
        let mut i: usize = 0;
        while i < values.len()
            invariant
                i <= values@.len(),
                elements@.len() == i,
                forall|j: int| 0 <= j < i ==> #[trigger] elements@[j] == (Element { index: j as usize, value: values@[j] }),
            decreases values@.len() - i,
        {
            elements.push(Element { index: i, value: values[i] });
            i += 1;
        }
        Vector { elements }
    }

    /// The number of dimensions that the vector holds a value for.
    pub fn len(&self) -> (len: usize)
        ensures
            len == self@.len(),
    {
        self.elements.len()
    }

    /// The element at position `i`, counted in ascending order of dimensions.
    pub fn element(&self, i: usize) -> (e: Element)
        requires
            i < self@.len(),
        ensures
            e == self@[i as int],
    {
        self.elements[i]
    }

    /// The position of the first element whose dimension is `index` or higher.
    fn position(&self, index: usize) -> (pos: usize)
        requires
            self.wf(),
        ensures
            pos <= self@.len(),
            forall|i: int| 0 <= i < pos ==> (#[trigger] self@[i]).index < index,
            forall|i: int| pos <= i < self@.len() ==> (#[trigger] self@[i]).index >= index,
    {
        let mut pos: usize = 0;
        while pos < self.elements.len() && self.elements[pos].index < index
            invariant
                self.wf(),
                pos <= self@.len(),
                forall|i: int| 0 <= i < pos ==> (#[trigger] self@[i]).index < index,
            decreases self@.len() - pos,
        {
            pos += 1;
        }
        proof {
            if pos < self@.len() {
                assert forall|i: int| pos <= i < self@.len() implies (#[trigger] self@[i]).index >= index by {
                    if i > pos {
                        assert(self@[pos as int].index < self@[i].index);
                    }
                }
            }
        }
        pos
    }

    /// The value held for dimension `index`, if one is held.
    pub fn get(&self, index: usize) -> (value: Option<i32>)
        requires
            self.wf(),
        ensures
            value is Some <==> holds(self@, index as int),
            value matches Some(v) ==> v == value_at(self@, index as int),
    {
        let pos = self.position(index);
        if pos < self.elements.len() && self.elements[pos].index == index {
            proof {
                lemma_value_present(self@, pos as int);
            }
            Some(self.elements[pos].value)
        } else {
            proof {
                if holds(self@, index as int) {
                    let i = choose|i: int| 0 <= i < self@.len() && (#[trigger] self@[i]).index == index;
                    if i > pos {
                        assert(self@[pos as int].index < self@[i].index);
                    }
                }
            }
            None
        }
    }

    /// Puts `value` in dimension `index`, which must hold no value yet.
    pub fn insert(&mut self, index: usize, value: i32)
        requires
            old(self).wf(),
            !holds(old(self)@, index as int),
        ensures
            final(self).wf(),
            exists|pos: int|
                0 <= pos <= old(self)@.len() && final(self)@ == #[trigger] old(self)@.insert(pos, Element { index, value }),
            forall|d: int| holds(final(self)@, d) == (holds(old(self)@, d) || d == index),
            forall|d: int|
                value_at(final(self)@, d) == if d == index {
                    value as int
                } else {
                    value_at(old(self)@, d)
                },
    {
        let pos = self.position(index);
        let ghost before = self@;
        self.elements.insert(pos, Element { index, value });
        proof {
            let after = before.insert(pos as int, Element { index, value });
            assert(self@ == after);
            assert forall|i: int, j: int| 0 <= i < j < after.len() implies (#[trigger] after[i]).index < (
            #[trigger] after[j]).index by {
                if j < pos {
                    assert(before[i].index < before[j].index);
                } else if j == pos {
                    assert(before[i].index < index);
                } else if i < pos {
                    assert(before[i].index < index);
                    assert(before[j - 1].index >= index);
                } else if i == pos {
                    assert(before[j - 1].index >= index);
                    assert(before[j - 1].index != index);
                } else {
                    assert(before[i - 1].index < before[j - 1].index);
                }
            }
            assert forall|d: int| holds(after, d) == (holds(before, d) || d == index) by {
                lemma_insert_values(before, pos as int, Element { index, value }, d);
            }
            assert forall|d: int|
                value_at(after, d) == if d == index {
                    value as int
                } else {
                    value_at(before, d)
                } by {
                lemma_insert_values(before, pos as int, Element { index, value }, d);
            }
        }
    }

    /// Adds `value` to the value of dimension `index`. A dimension that
    /// holds no value yet gets `value`; a sum beyond the range of a value
    /// stops at the end of that range.
    pub fn upsert(&mut self, index: usize, value: i32)
        requires
            old(self).wf(),
        ensures
            final(self).wf(),
            holds(old(self)@, index as int) ==> exists|pos: int|
                0 <= pos < old(self)@.len() && old(self)@[pos].index == index && final(self)@ == #[trigger] old(
                    self,
                )@.update(pos, Element { index, value: bounded_sum(old(self)@[pos].value as int, value as int) as i32 }),
            !holds(old(self)@, index as int) ==> exists|pos: int|
                0 <= pos <= old(self)@.len() && final(self)@ == #[trigger] old(self)@.insert(pos, Element { index, value }),
            forall|d: int| holds(final(self)@, d) == (holds(old(self)@, d) || d == index),
            forall|d: int|
                value_at(final(self)@, d) == if d == index {
                    bounded_sum(value_at(old(self)@, index as int), value as int)
                } else {
                    value_at(old(self)@, d)
                },
    {
        let found = self.get(index);
        match found {
            Some(held) => {
                let pos = self.position(index);
                let ghost before = self@;
                proof {
                    let i = choose|i: int| 0 <= i < before.len() && (#[trigger] before[i]).index == index;
                    if i < pos {
                        assert(before[i].index < index);
                    }
                    if i > pos {
                        assert(before[pos as int].index < before[i].index);
                    }
                    assert(i == pos);
                    lemma_value_present(before, pos as int);
                }
                let sum: i64 = held as i64 + value as i64;
                let bounded: i32 = if sum > i32::MAX as i64 {
                    i32::MAX
                } else if sum < i32::MIN as i64 {
                    i32::MIN
                } else {
                    sum as i32
                };
                self.elements.set(pos, Element { index, value: bounded });
                proof {
                    let after = before.update(pos as int, Element { index, value: bounded });
                    assert(self@ == after);
                    assert(held == before[pos as int].value);
                    assert(bounded as int == bounded_sum(before[pos as int].value as int, value as int));
                    assert(after == before.update(
                        pos as int,
                        Element { index, value: bounded_sum(before[pos as int].value as int, value as int) as i32 },
                    ));
                    assert forall|i: int, j: int| 0 <= i < j < after.len() implies (#[trigger] after[i]).index < (
                    #[trigger] after[j]).index by {
                        assert(before[i].index < before[j].index);
                    }
                    assert forall|d: int| holds(after, d) == (holds(before, d) || d == index) by {
                        lemma_update_values(before, pos as int, bounded, d);
                    }
                    assert forall|d: int|
                        value_at(after, d) == if d == index {
                            bounded_sum(value_at(before, index as int), value as int)
                        } else {
                            value_at(before, d)
                        } by {
                        lemma_update_values(before, pos as int, bounded, d);
                    }
                }
            },
            None => {
                proof {
                    lemma_value_absent(self@, index as int);
                }
                self.insert(index, value);
            },
        }
    }

    /// The dot product of `self` and `other`, found in one pass over the
    /// elements of both.
    pub fn dot(&self, other: &Vector) -> (product: i128)
        requires
            self.wf(),
            other.wf(),
        ensures
            product == self.dot_spec(other),
    {
        let ghost a = self@;
        let ghost b = other@;
        let alen = self.elements.len();
        let blen = other.elements.len();
        let mut i: usize = 0;
        let mut j: usize = 0;
        let mut product: i128 = 0;
        let ghost mut done: int = 0;
        while i < alen && j < blen
            invariant
                a == self@,
                b == other@,
                ascending(a),
                ascending(b),
                alen == a.len(),
                blen == b.len(),
                i <= alen,
                j <= blen,
                0 <= done <= usize::MAX + 1,
                forall|k: int| 0 <= k < i ==> (#[trigger] a[k]).index < done,
                forall|k: int| i <= k < alen ==> (#[trigger] a[k]).index >= done,
                forall|k: int| 0 <= k < j ==> (#[trigger] b[k]).index < done,
                forall|k: int| j <= k < blen ==> (#[trigger] b[k]).index >= done,
                product == dot_below(a, b, done),
                -(i as int) * 0x4000_0000_0000_0000 <= product <= (i as int) * 0x4000_0000_0000_0000,
            decreases (alen - i) + (blen - j),
        {
            let aidx = self.elements[i].index;
            let bidx = other.elements[j].index;
            let ghost low = if aidx < bidx {
                aidx as int
            } else {
                bidx as int
            };
            proof {
                // below the smaller of the two dimensions one of the vectors holds nothing
                assert forall|d: int| done <= d < low implies #[trigger] value_at(a, d) == 0 || value_at(b, d) == 0 by {
                    if holds(a, d) {
                        let k = choose|k: int| 0 <= k < a.len() && (#[trigger] a[k]).index == d;
                        if k >= i {
                            if k > i {
                                assert(a[i as int].index < a[k].index);
                            }
                        }
                    }
                    lemma_value_absent(a, d);
                }
                lemma_dot_gap(a, b, done, low);
                assert(dot_below(a, b, low + 1) == dot_below(a, b, low) + value_at(a, low) * value_at(b, low));
            }
            if aidx < bidx {
                proof {
                    assert(!holds(b, low)) by {
                        if holds(b, low) {
                            let k = choose|k: int| 0 <= k < b.len() && (#[trigger] b[k]).index == low;
                            if k > j {
                                assert(b[j as int].index < b[k].index);
                            }
                        }
                    }
                    lemma_value_absent(b, low);
                    assert(value_at(a, low) * value_at(b, low) == 0) by (nonlinear_arith)
                        requires
                            value_at(b, low) == 0,
                    ;
                    assert forall|k: int| i + 1 <= k < alen implies (#[trigger] a[k]).index >= low + 1 by {
                        assert(a[i as int].index < a[k].index);
                    }
                    done = low + 1;
                    assert((i as int) * 0x4000_0000_0000_0000 <= (i + 1) * 0x4000_0000_0000_0000);
                }
                i += 1;
            } else if aidx > bidx {
                proof {
                    assert(!holds(a, low)) by {
                        if holds(a, low) {
                            let k = choose|k: int| 0 <= k < a.len() && (#[trigger] a[k]).index == low;
                            if k > i {
                                assert(a[i as int].index < a[k].index);
                            }
                        }
                    }
                    lemma_value_absent(a, low);
                    assert(value_at(a, low) * value_at(b, low) == 0) by (nonlinear_arith)
                        requires
                            value_at(a, low) == 0,
                    ;
                    assert forall|k: int| j + 1 <= k < blen implies (#[trigger] b[k]).index >= low + 1 by {
                        assert(b[j as int].index < b[k].index);
                    }
                    done = low + 1;
                }
                j += 1;
            } else {
                let x = self.elements[i].value;
                let y = other.elements[j].value;
                proof {
                    lemma_value_present(a, i as int);
                    lemma_value_present(b, j as int);
                    lemma_product_bound(x, y);
                    assert forall|k: int| i + 1 <= k < alen implies (#[trigger] a[k]).index >= low + 1 by {
                        assert(a[i as int].index < a[k].index);
                    }
                    assert forall|k: int| j + 1 <= k < blen implies (#[trigger] b[k]).index >= low + 1 by {
                        assert(b[j as int].index < b[k].index);
                    }
                    done = low + 1;
                    assert((i + 1) * 0x4000_0000_0000_0000 == (i as int) * 0x4000_0000_0000_0000 + 0x4000_0000_0000_0000);
                    assert((i as int) * 0x4000_0000_0000_0000 <= 0xffff_ffff_ffff_ffff * 0x4000_0000_0000_0000);
                }
                product = product + (x as i128) * (y as i128);
                i += 1;
                j += 1;
            }
        }
        proof {
            assert forall|d: int| done <= d < usize::MAX + 1 implies #[trigger] value_at(a, d) == 0 || value_at(b, d)
                == 0 by {
                if i >= alen {
                    assert(!holds(a, d));
                    lemma_value_absent(a, d);
                } else {
                    assert(!holds(b, d));
                    lemma_value_absent(b, d);
                }
            }
            lemma_dot_gap(a, b, done, usize::MAX + 1);
        }
        product
    }

    /// The square of the length of the vector: its dot product with itself.
    pub fn magnitude_squared(&self) -> (square: i128)
        requires
            self.wf(),
        ensures
            square == self.dot_spec(self),
            square >= 0,
    {
        proof {
            lemma_dot_self(self@, usize::MAX + 1);
        }
        self.dot(self)
    }
}

/// The dot product does not depend on the order of its two vectors.
pub proof fn lemma_dot_is_commutative(a: Vector, b: Vector)
    ensures
        a.dot_spec(&b) == b.dot_spec(&a),
{
    lemma_dot_commutes(a@, b@, usize::MAX + 1);
}

/// The dot product with a vector that holds nothing is zero, on either side.
pub proof fn lemma_dot_with_nothing(a: Vector, b: Vector)
    requires
        a@.len() == 0 || b@.len() == 0,
    ensures
        a.dot_spec(&b) == 0,
        b.dot_spec(&a) == 0,
{
    lemma_dot_empty(a@, b@, usize::MAX + 1);
    lemma_dot_empty(b@, a@, usize::MAX + 1);
}

/// The dot product of a vector with itself is the square of its length and
/// is never negative.
pub proof fn lemma_dot_with_itself(a: Vector)
    ensures
        a.dot_spec(&a) >= 0,
{
    lemma_dot_self(a@, usize::MAX + 1);
}

/// No dot product of a vector is greater, for the length of the other
/// vector, than that with itself: the square of the dot product of two
/// vectors is at most the product of the squares of their lengths.
pub proof fn lemma_dot_at_most_lengths(a: Vector, b: Vector)
    ensures
        a.dot_spec(&b) * a.dot_spec(&b) <= a.dot_spec(&a) * b.dot_spec(&b),
{
    lemma_dot_bounded(a@, b@, usize::MAX + 1);
}

} // verus!
