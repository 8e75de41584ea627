//! Painter's ordering of surface faces: farthest first, so nearer faces are drawn over them.
use vstd::prelude::*;
use vstd::set_lib::lemma_int_range;
use vstd::set_lib::lemma_len_subset;
use vstd::set_lib::lemma_subset_equality;
use vstd::set_lib::set_int_range;

verus! {

/// The sign bit of an IEEE-754 single-precision bit pattern.
pub open spec fn bits_negative(bits: u32) -> bool {
    bits >= 0x8000_0000
}

/// The magnitude field (exponent and mantissa) of a single-precision bit pattern.
pub open spec fn bits_magnitude(bits: u32) -> int {
    (bits % 0x8000_0000) as int
}

/// Whether a single-precision bit pattern is a NaN.
pub open spec fn bits_nan(bits: u32) -> bool {
    bits_magnitude(bits) > 0x7f80_0000
}

/// The magnitude with the sign applied. IEEE-754 orders the magnitude field of a float
/// monotonically, so two non-NaN floats compare exactly as these integers do
/// (`-0.0` and `+0.0` both give zero and compare equal).
pub open spec fn signed_magnitude(bits: u32) -> int {
    if bits_negative(bits) {
        -bits_magnitude(bits)
    } else {
        bits_magnitude(bits)
    }
}

/// The sort key of a depth given by its bit pattern: `2^31 + signed_magnitude`.
pub open spec fn spec_depth_key(bits: u32) -> int {
    0x8000_0000 + signed_magnitude(bits)
}

/// An unsigned key that orders depths as the floats with bit pattern `bits` are ordered.
pub fn depth_key(bits: u32) -> (key: u32)
    ensures
        key == spec_depth_key(bits),
{
    if bits >= 0x8000_0000 {
        0x8000_0000 - (bits - 0x8000_0000)
    } else {
        0x8000_0000 + bits
    }
}

/// The key preserves the order of depths, ties included: for non-NaN bit patterns this is the
/// order of the floats themselves, with `-0.0` and `+0.0` tied. A NaN sorts by its sign:
/// beyond every other depth on its side, so a positive NaN counts as farthest.
pub proof fn lemma_depth_key_monotone(a: u32, b: u32)
    ensures
        spec_depth_key(a) <= spec_depth_key(b) <==> signed_magnitude(a) <= signed_magnitude(b),
        spec_depth_key(a) == spec_depth_key(b) <==> signed_magnitude(a) == signed_magnitude(b),
        bits_nan(b) && !bits_negative(b) && !bits_nan(a) ==> spec_depth_key(a) < spec_depth_key(b),
        bits_nan(a) && bits_negative(a) && !bits_nan(b) ==> spec_depth_key(a) < spec_depth_key(b),
{
}

/// Face `a` is drawn before face `b`: it is farther away, or as far and earlier in the mesh.
pub open spec fn draws_before(keys: Seq<u32>, a: int, b: int) -> bool {
    keys[a] > keys[b] || (keys[a] == keys[b] && a < b)
}

/// Drawing order follows depth: a farther face (greater key) is drawn before a nearer one,
/// and of two faces at equal depth the one earlier in the mesh is drawn first; a nearer face
/// is never drawn before a farther one.
pub broadcast proof fn lemma_draws_before_by_keys(keys: Seq<u32>, a: int, b: int)
    requires
        0 <= a < keys.len(),
        0 <= b < keys.len(),
    ensures
        #[trigger] draws_before(keys, a, b) ==> keys[a] >= keys[b],
        draws_before(keys, a, b) && keys[a] == keys[b] ==> a < b,
        keys[a] > keys[b] ==> draws_before(keys, a, b),
        keys[a] == keys[b] && a < b ==> draws_before(keys, a, b),
{
}

/// In a painter order every face is at least as far as every face drawn after it, and faces
/// at equal depth appear in mesh order.
pub proof fn lemma_painter_order_farthest_first(keys: Seq<u32>, order: Seq<usize>, p: int, q: int)
    requires
        is_painter_order(keys, order),
        0 <= p < q < order.len(),
    ensures
        keys[order[p] as int] >= keys[order[q] as int],
        keys[order[p] as int] == keys[order[q] as int] ==> order[p] < order[q],
{
    assert(draws_before(keys, order[p] as int, order[q] as int));
}

/// `order` lists the faces `0..keys.len()` each once, in drawing order.
pub open spec fn is_painter_order(keys: Seq<u32>, order: Seq<usize>) -> bool {
    &&& order.len() == keys.len()
    &&& forall|p: int| 0 <= p < order.len() ==> #[trigger] order[p] < keys.len()
    &&& forall|p: int, q: int|
        0 <= p < q < order.len() ==> draws_before(keys, #[trigger] order[p] as int, #[trigger] order[q] as int)
}

/// `run` lists faces from `lo..hi`, each strictly before the next in drawing order.
pub open spec fn is_sorted_run(keys: Seq<u32>, run: Seq<usize>, lo: int, hi: int) -> bool {
    &&& forall|p: int| 0 <= p < run.len() ==> lo <= #[trigger] run[p] < hi
    &&& forall|p: int, q: int|
        0 <= p < q < run.len() ==> draws_before(keys, #[trigger] run[p] as int, #[trigger] run[q] as int)
}

/// Whether face `a` is drawn before face `b`.
fn draws_before_exec(keys: &Vec<u32>, a: usize, b: usize) -> (r: bool)
    requires
        a < keys@.len(),
        b < keys@.len(),
    ensures
        r == draws_before(keys@, a as int, b as int),
{
    keys[a] > keys[b] || (keys[a] == keys[b] && a < b)
}

/// Merges two sorted runs of faces, one from `lo..mid` and one from `mid..hi`.
fn merge_runs(keys: &Vec<u32>, left: &Vec<usize>, right: &Vec<usize>, lo: Ghost<int>, mid: Ghost<int>, hi: Ghost<int>) -> (out: Vec<usize>)
    requires
        lo@ <= mid@ <= hi@ <= keys@.len(),
        is_sorted_run(keys@, left@, lo@, mid@),
        is_sorted_run(keys@, right@, mid@, hi@),
        left@.len() + right@.len() <= usize::MAX,
    ensures
        out@.len() == left@.len() + right@.len(),
        is_sorted_run(keys@, out@, lo@, hi@),
{
    let mut out: Vec<usize> = Vec::with_capacity(left.len() + right.len());
    let mut i: usize = 0;
    let mut j: usize = 0;
    while i < left.len() || j < right.len()
        invariant
            lo@ <= mid@ <= hi@ <= keys@.len(),
            is_sorted_run(keys@, left@, lo@, mid@),
            is_sorted_run(keys@, right@, mid@, hi@),
            i <= left@.len(),
            j <= right@.len(),
            out@.len() == i + j,
            is_sorted_run(keys@, out@, lo@, hi@),
            forall|p: int, r: int|
                0 <= p < out@.len() && i <= r < left@.len() ==> draws_before(keys@, #[trigger] out@[p] as int, #[trigger] left@[r] as int),
            forall|p: int, r: int|
                0 <= p < out@.len() && j <= r < right@.len() ==> draws_before(keys@, #[trigger] out@[p] as int, #[trigger] right@[r] as int),
        decreases left@.len() + right@.len() - i - j,
    {
        let take_left = if i == left.len() {
            false
        } else if j == right.len() {
            true
        } else {
            draws_before_exec(keys, left[i], right[j])
        };
        let ghost old_out = out@;
        if take_left {
            let x = left[i];
            proof {
                assert forall|r: int| j <= r < right@.len() implies draws_before(keys@, x as int, #[trigger] right@[r] as int) by {
                    if r > j {
                        assert(draws_before(keys@, right@[j as int] as int, right@[r] as int));
                    }
                }
                assert forall|r: int| i + 1 <= r < left@.len() implies draws_before(keys@, x as int, #[trigger] left@[r] as int) by {
                    assert(draws_before(keys@, left@[i as int] as int, left@[r] as int));
                }
            }
            out.push(x);
            proof {
                assert forall|p: int, q: int| 0 <= p < q < out@.len() implies draws_before(keys@, #[trigger] out@[p] as int, #[trigger] out@[q] as int) by {
                    if q == old_out.len() {
                        assert(out@[p] == old_out[p]);
                        assert(draws_before(keys@, old_out[p] as int, left@[i as int] as int));
                    } else {
                        assert(out@[p] == old_out[p]);
                        assert(out@[q] == old_out[q]);
                    }
                }
            }
            i = i + 1;
        } else {
            let y = right[j];
            proof {
                if i < left@.len() {
                    assert(left@[i as int] < mid@ <= y);
                }
                assert forall|r: int| i <= r < left@.len() implies draws_before(keys@, y as int, #[trigger] left@[r] as int) by {
                    assert(left@[r] < mid@ <= y);
                    if r > i {
                        assert(draws_before(keys@, left@[i as int] as int, left@[r] as int));
                    }
                }
                assert forall|r: int| j + 1 <= r < right@.len() implies draws_before(keys@, y as int, #[trigger] right@[r] as int) by {
                    assert(draws_before(keys@, right@[j as int] as int, right@[r] as int));
                }
            }
            out.push(y);
            proof {
                assert forall|p: int, q: int| 0 <= p < q < out@.len() implies draws_before(keys@, #[trigger] out@[p] as int, #[trigger] out@[q] as int) by {
                    if q == old_out.len() {
                        assert(out@[p] == old_out[p]);
                        assert(draws_before(keys@, old_out[p] as int, right@[j as int] as int));
                    } else {
                        assert(out@[p] == old_out[p]);
                        assert(out@[q] == old_out[q]);
                    }
                }
            }
            j = j + 1;
        }
        proof {
            assert forall|p: int| 0 <= p < old_out.len() implies out@[p] == old_out[p] by {}
        }
    }
    out
}

/// The faces `lo..hi` in drawing order (a top-down merge sort).
fn sort_faces(keys: &Vec<u32>, lo: usize, hi: usize) -> (run: Vec<usize>)
    requires
        lo < hi <= keys@.len(),
    ensures
        run@.len() == hi - lo,
        is_sorted_run(keys@, run@, lo as int, hi as int),
    decreases hi - lo,
{
    if hi - lo == 1 {
        let mut run: Vec<usize> = Vec::new();
        run.push(lo);
        run
    } else {
        let mid = lo + (hi - lo) / 2;
        let left = sort_faces(keys, lo, mid);
        let right = sort_faces(keys, mid, hi);
        merge_runs(keys, &left, &right, Ghost(lo as int), Ghost(mid as int), Ghost(hi as int))
    }
}

/// The order in which to draw faces whose depths have the sort keys `keys`: farthest first,
/// and faces at equal depth in mesh order (a stable descending sort).
pub fn back_to_front(keys: &Vec<u32>) -> (order: Vec<usize>)
    ensures
        is_painter_order(keys@, order@),
        forall|p: int, q: int|
            0 <= p < q < order@.len() ==> keys@[#[trigger] order@[p] as int] >= keys@[#[trigger] order@[q] as int],
        forall|p: int, q: int|
            0 <= p < q < order@.len() && keys@[order@[p] as int] == keys@[order@[q] as int]
                ==> #[trigger] order@[p] < #[trigger] order@[q],
{
    proof {
        broadcast use lemma_draws_before_by_keys;
    }
    if keys.len() == 0 {
        Vec::new()
    } else {
        sort_faces(keys, 0, keys.len())
    }
}

/// A painter order draws every face exactly once: its entries are distinct, and each face
/// `0 <= f < keys.len()` stands at some position.
pub proof fn lemma_painter_order_is_permutation(keys: Seq<u32>, order: Seq<usize>, f: int)
    requires
        is_painter_order(keys, order),
        0 <= f < keys.len(),
    ensures
        order.no_duplicates(),
        exists|p: int| 0 <= p < order.len() && order[p] == f,
{
    let n = keys.len() as int;
    assert(order.no_duplicates()) by {
        assert forall|p: int, q: int|
            0 <= p < order.len() && 0 <= q < order.len() && p != q implies order[p] != order[q] by {
            if p < q {
                assert(draws_before(keys, order[p] as int, order[q] as int));
            } else {
                assert(draws_before(keys, order[q] as int, order[p] as int));
            }
        }
    }
    let s = order.map_values(|x: usize| x as int);
    assert(s.no_duplicates()) by {
        assert forall|p: int, q: int|
            0 <= p < s.len() && 0 <= q < s.len() && p != q implies s[p] != s[q] by {
            assert(order[p] != order[q]);
        }
    }
    s.unique_seq_to_set();
    lemma_int_range(0, n);
    assert(s.to_set().subset_of(set_int_range(0, n))) by {
        assert forall|x: int| s.to_set().contains(x) implies set_int_range(0, n).contains(x) by {
            assert(s.contains(x));
            let p = choose|p: int| 0 <= p < s.len() && s[p] == x;
            assert(order[p] < n);
        }
    }
    lemma_len_subset(s.to_set(), set_int_range(0, n));
    lemma_subset_equality(s.to_set(), set_int_range(0, n));
    assert(set_int_range(0, n).contains(f));
    assert(s.to_set().contains(f));
    assert(s.contains(f));
    let p = choose|p: int| 0 <= p < s.len() && s[p] == f;
    assert(order[p] == f);
}

proof fn lemma_orders_agree_below(keys: Seq<u32>, o1: Seq<usize>, o2: Seq<usize>, p: int)
    requires
        is_painter_order(keys, o1),
        is_painter_order(keys, o2),
        0 <= p <= keys.len(),
    ensures
        forall|q: int| 0 <= q < p ==> o1[q] == o2[q],
    decreases p,
{
    if p > 0 {
        let r = p - 1;
        lemma_orders_agree_below(keys, o1, o2, r);
        let a = o1[r] as int;
        let b = o2[r] as int;
        if a != b {
            lemma_painter_order_is_permutation(keys, o1, b);
            lemma_painter_order_is_permutation(keys, o2, a);
            let qa = choose|q: int| 0 <= q < o2.len() && o2[q] == a;
            let qb = choose|q: int| 0 <= q < o1.len() && o1[q] == b;
            if qa < r {
                assert(o1[qa] == o2[qa]);
            }
            if qb < r {
                assert(o1[qb] == o2[qb]);
            }
            assert(draws_before(keys, b, a));
            assert(draws_before(keys, a, b));
        }
    }
}

/// There is only one painter order for given keys, so the drawing order of the faces is
/// fully determined by their depths and their places in the mesh.
pub proof fn lemma_painter_order_unique(keys: Seq<u32>, o1: Seq<usize>, o2: Seq<usize>)
    requires
        is_painter_order(keys, o1),
        is_painter_order(keys, o2),
    ensures
        o1 == o2,
{
    lemma_orders_agree_below(keys, o1, o2, keys.len() as int);
    assert(o1 =~= o2);
}

} // verus!
