//! The sizes of the root of a bulk loaded tree of two dimensions.

use vstd::prelude::*;

verus! {

/// The quotient of `a` by `b`, rounded up.
pub open spec fn div_up_spec(a: int, b: int) -> int
    recommends
        b > 0,
{
    (a + b - 1) / b
}

/// What dividing by a number that is at least two, rounding up, does to a
/// number above it.
pub proof fn lemma_div_up_decreases(a: int, b: int)
    requires
        b >= 2,
        a > b,
    ensures
        1 <= div_up_spec(a, b) < a,
{
    assert((a + b - 1) / b < a) by (nonlinear_arith)
        requires
            b >= 2,
            a > b,
    ;
    assert((a + b - 1) / b >= 1) by (nonlinear_arith)
        requires
            b >= 2,
            a > b,
    ;
}

/// The number of children of the root of a tree of `number_of_elements`
/// objects whose nodes hold `max_node_size` children: the number of objects,
/// divided by the node size and rounded up until it fits a node.
pub open spec fn root_size_spec(number_of_elements: int, max_node_size: int) -> int
    decreases number_of_elements,
{
    if max_node_size < 2 || number_of_elements <= max_node_size {
        number_of_elements
    } else {
        proof {
            lemma_div_up_decreases(number_of_elements, max_node_size);
        }
        root_size_spec(div_up_spec(number_of_elements, max_node_size), max_node_size)
    }
}

/// The height of a tree of `number_of_elements` objects whose nodes hold
/// `max_node_size` children: none for no objects, and one more than the
/// height of the tree of its nodes where the objects do not fit one node.
pub open spec fn tree_height_spec(number_of_elements: int, max_node_size: int) -> int
    decreases number_of_elements,
{
    if number_of_elements <= 0 {
        0
    } else if max_node_size < 2 || number_of_elements <= max_node_size {
        1
    } else {
        proof {
            lemma_div_up_decreases(number_of_elements, max_node_size);
        }
        1 + tree_height_spec(div_up_spec(number_of_elements, max_node_size), max_node_size)
    }
}

/// The whole number nearest to the square root of `r`: the `d` with
/// `d * (d - 1) < r <= d * (d + 1)`.
pub open spec fn is_nearest_root(d: int, r: int) -> bool {
    d >= 0 && d * (d - 1) < r <= d * (d + 1)
}

/// How the children of the root of a tree of two dimensions are laid out: in
/// a grid of `dimension_sizes[0]` times `dimension_sizes[1]` cells, and
/// `num_overflow_elements` cells more.
#[derive(Debug)]
pub struct LevelPartitioning {
    pub dimension_sizes: Vec<usize>,
    pub num_overflow_elements: usize,
    pub root_size: usize,
}

impl LevelPartitioning {
    /// The layout of the root for `number_of_elements` objects.
    ///
    /// The first side of the grid is the whole number nearest to the square
    /// root of the root's size, the second what the root's size divided by it
    /// gives; what is left over are the overflow cells.
    pub fn new(number_of_elements: usize, max_node_size: usize, dimensions: usize) -> (r: Self)
        requires
            dimensions == 2,
            number_of_elements >= 1,
            2 <= max_node_size < usize::MAX / 2,
        ensures
            r.root_size == root_size_spec(number_of_elements as int, max_node_size as int),
            r.dimension_sizes@.len() == 2,
            is_nearest_root(r.dimension_sizes@[0] as int, r.root_size as int),
            r.dimension_sizes@[0] >= 1,
            r.dimension_sizes@[1] == r.root_size / r.dimension_sizes@[0],
            r.num_overflow_elements == r.root_size % r.dimension_sizes@[0],
            r.dimension_sizes@[0] * r.dimension_sizes@[1] + r.num_overflow_elements == r.root_size,
    {
        let root_size = Self::calculate_root_size(number_of_elements, max_node_size);
        let d1 = nearest_root(root_size);
        assert(d1 >= 1) by (nonlinear_arith)
            requires
                is_nearest_root(d1 as int, root_size as int),
                root_size >= 1,
        ;
        let d2 = root_size / d1;
        let num_overflow_elements = root_size % d1;
        assert(d1 * d2 + num_overflow_elements == root_size) by (nonlinear_arith)
            requires
                d1 >= 1,
                d2 == root_size / d1,
                num_overflow_elements == root_size % d1,
        ;
        let mut dimension_sizes = Vec::new();
        dimension_sizes.push(d1);
        dimension_sizes.push(d2);
        LevelPartitioning { dimension_sizes, num_overflow_elements, root_size }
    }

    /// The number of children of the root.
    pub fn calculate_root_size(number_of_elements: usize, max_node_size: usize) -> (r: usize)
        requires
            2 <= max_node_size < usize::MAX / 2,
        ensures
            r == root_size_spec(number_of_elements as int, max_node_size as int),
            number_of_elements >= 1 ==> r >= 1,
    {
        let mut remaining = number_of_elements;
        while remaining > max_node_size
            invariant
                2 <= max_node_size < usize::MAX / 2,
                root_size_spec(remaining as int, max_node_size as int) == root_size_spec(
                    number_of_elements as int,
                    max_node_size as int,
                ),
                number_of_elements >= 1 ==> remaining >= 1,
            decreases remaining,
        {
            proof {
                lemma_div_up_decreases(remaining as int, max_node_size as int);
            }
            remaining = div_up(remaining, max_node_size);
        }
        remaining
    }

    /// The height of the tree.
    pub fn calculate_tree_height(number_of_elements: usize, max_node_size: usize) -> (r: usize)
        requires
            2 <= max_node_size < usize::MAX / 2,
        ensures
            r == tree_height_spec(number_of_elements as int, max_node_size as int),
    {
        if number_of_elements == 0 {
            0
        } else {
            let mut remaining = number_of_elements;
            let mut height: usize = 1;
            while remaining > max_node_size
                invariant
                    2 <= max_node_size < usize::MAX / 2,
                    remaining >= 1,
                    1 <= height,
                    height + remaining <= number_of_elements + 1,
                    height - 1 + tree_height_spec(remaining as int, max_node_size as int)
                        == tree_height_spec(number_of_elements as int, max_node_size as int),
                decreases remaining,
            {
                proof {
                    lemma_div_up_decreases(remaining as int, max_node_size as int);
                }
                remaining = div_up(remaining, max_node_size);
                height += 1;
            }
            height
        }
    }
}

/// The quotient of `a` by `b`, rounded up.
pub fn div_up(a: usize, b: usize) -> (r: usize)
    requires
        b > 0,
    ensures
        r == div_up_spec(a as int, b as int),
{
    let q = a / b;
    let m = a % b;
    assert(a == q * b + m && 0 <= m < b) by (nonlinear_arith)
        requires
            q == a / b,
            m == a % b,
            b > 0,
    ;
    if m == 0 {
        assert((q * b + b - 1) / (b as int) == q) by (nonlinear_arith)
            requires
                b > 0,
                q >= 0,
        ;
        q
    } else {
        assert((q * b + m + b - 1) / (b as int) == q + 1) by (nonlinear_arith)
            requires
                b > 0,
                q >= 0,
                0 < m < b,
        ;
        assert(q < usize::MAX) by (nonlinear_arith)
            requires
                a == q * b + m,
                m > 0,
                b > 0,
                a <= usize::MAX,
        ;
        q + 1
    }
}

/// The whole number nearest to the square root of `r`.
pub fn nearest_root(r: usize) -> (d: usize)
    ensures
        is_nearest_root(d as int, r as int) || (r == 0 && d == 0),
{
    if r == 0 {
        return 0;
    }
    let mut d: usize = 1;
    // d * (d - 1) < r holds; stop once r <= d * (d + 1).
    loop
        invariant
            1 <= d,
            d * (d - 1) < r,
            d <= r,
        decreases r - d,
    {
        assert(d < usize::MAX) by (nonlinear_arith)
            requires
                d * (d - 1) < r,
                d >= 1,
                r <= usize::MAX,
                usize::MAX >= 0xffff_ffff,
        ;
        let next = d + 1;
        match d.checked_mul(next) {
            Some(upper) => {
                if r <= upper {
                    return d;
                }
            },
            None => {
                return d;
            },
        }
        assert(d + 1 <= r) by (nonlinear_arith)
            requires
                d * (d + 1) < r,
                d >= 1,
        ;
        assert((d + 1) * ((d + 1) - 1) < r) by (nonlinear_arith)
            requires
                d * (d + 1) < r,
        ;
        d = d + 1;
    }
}

} // verus!
