use vstd::prelude::*;

verus! {

/// Octant `idx` with its bit for `axis` flipped: the octant a ray enters when
/// it crosses the node's centre plane across that axis.
pub open spec fn flip_spec(idx: int, axis: int) -> int {
    let bit = if axis == 0 {
        1int
    } else if axis == 1 {
        2int
    } else {
        4int
    };
    if (idx / bit) % 2 == 1 {
        idx - bit
    } else {
        idx + bit
    }
}

/// The octants a ray visits inside a node: it starts in `start` and crosses
/// the centre planes of `axes` in that order.
pub open spec fn walk_spec(start: int, axes: Seq<usize>) -> Seq<int>
    decreases axes.len(),
{
    if axes.len() == 0 {
        seq![start]
    } else {
        let prev = walk_spec(start, axes.drop_last());
        prev.push(flip_spec(prev.last(), axes.last() as int))
    }
}

/// Octants visited by a ray that starts in octant `start` and crosses the
/// centre planes of `axes` (each below 3) in that order.
pub fn octant_walk(start: usize, axes: &Vec<usize>) -> (r: Vec<usize>)
    requires
        start < 8,
        axes@.len() <= 3,
        forall|k: int| 0 <= k < axes@.len() ==> #[trigger] axes@[k] < 3,
    ensures
        r@.len() == axes@.len() + 1,
        forall|k: int| 0 <= k < r@.len() ==> #[trigger] r@[k] as int == walk_spec(start as int, axes@)[k],
        forall|k: int| 0 <= k < r@.len() ==> #[trigger] r@[k] < 8,
{
    let mut out: Vec<usize> = Vec::new();
    out.push(start);
    let mut idx = start;
    let mut k: usize = 0;
    proof {
        assert(axes@.take(0) =~= Seq::<usize>::empty());
    }
    while k < axes.len()
        invariant
            k <= axes@.len() <= 3,
            forall|j: int| 0 <= j < axes@.len() ==> #[trigger] axes@[j] < 3,
            idx < 8,
            out@.len() == k + 1,
            out@.last() == idx,
            forall|j: int| 0 <= j < out@.len() ==> #[trigger] out@[j] as int == walk_spec(start as int, axes@.take(k as int))[j],
            forall|j: int| 0 <= j < out@.len() ==> #[trigger] out@[j] < 8,
            walk_spec(start as int, axes@.take(k as int)).len() == k + 1,
        decreases axes@.len() - k,
    {
        let axis = axes[k];
        let bit: usize = if axis == 0 {
            1
        } else if axis == 1 {
            2
        } else {
            4
        };
        let next = if (idx / bit) % 2 == 1 {
            idx - bit
        } else {
            idx + bit
        };
        proof {
            let prev = axes@.take(k as int);
            let cur = axes@.take(k + 1);
            assert(cur.drop_last() =~= prev);
            assert(cur.last() == axis);
            assert(walk_spec(start as int, prev).last() == idx);
        }
        out.push(next);
        idx = next;
        k = k + 1;
    }
    proof {
        assert(axes@.take(axes@.len() as int) =~= axes@);
    }
    out
}

/// Crossing the centre planes of distinct axes visits distinct octants, so a
/// ray visits at most four octants of a node.
pub proof fn lemma_walk_distinct(start: int, axes: Seq<usize>)
    requires
        0 <= start < 8,
        axes.len() <= 3,
        forall|k: int| 0 <= k < axes.len() ==> #[trigger] axes[k] < 3,
        axes.no_duplicates(),
    ensures
        walk_spec(start, axes).len() == axes.len() + 1,
        walk_spec(start, axes).no_duplicates(),
        forall|k: int| 0 <= k < walk_spec(start, axes).len() ==> 0 <= #[trigger] walk_spec(start, axes)[k] < 8,
{
    lemma_walk_bits(start, axes, 0);
    assert forall|k: int| 0 <= k < walk_spec(start, axes).len() implies 0 <= #[trigger] walk_spec(start, axes)[k] < 8 by {
        lemma_walk_bits(start, axes, k);
    }
    assert forall|i: int, j: int|
        0 <= i < walk_spec(start, axes).len() && 0 <= j < walk_spec(start, axes).len() && i != j implies walk_spec(start, axes)[i]
            != walk_spec(start, axes)[j] by {
        let (lo, hi) = if i < j { (i, j) } else { (j, i) };
        lemma_walk_bits(start, axes, lo);
        lemma_walk_bits(start, axes, hi);
        let a = axes[lo];
        assert(axes.take(hi).contains(a)) by {
            assert(axes.take(hi)[lo] == a);
        }
        assert(!axes.take(lo).contains(a)) by {
            if axes.take(lo).contains(a) {
                let m = choose|m: int| 0 <= m < lo && axes.take(lo)[m] == a;
                assert(axes[m] == axes[lo]);
            }
        }
        assert(bit_of(walk_spec(start, axes)[lo], a as int) != bit_of(walk_spec(start, axes)[hi], a as int));
    }
}

/// Bit of octant `idx` for `axis`: 1 on the positive side.
pub open spec fn bit_of(idx: int, axis: int) -> int {
    let bit = if axis == 0 {
        1int
    } else if axis == 1 {
        2int
    } else {
        4int
    };
    (idx / bit) % 2
}

proof fn lemma_flip(idx: int, a: int, b: int)
    requires
        0 <= idx < 8,
        0 <= a < 3,
        0 <= b < 3,
    ensures
        0 <= flip_spec(idx, a) < 8,
        bit_of(flip_spec(idx, a), b) == if b == a {
            1 - bit_of(idx, b)
        } else {
            bit_of(idx, b)
        },
{
    if idx == 0 {
    } else if idx == 1 {
    } else if idx == 2 {
    } else if idx == 3 {
    } else if idx == 4 {
    } else if idx == 5 {
    } else if idx == 6 {
    } else {
        assert(idx == 7);
    }
}

/// Octant `j` of a walk has flipped, relative to `start`, exactly the bits of
/// the axes crossed before it.
proof fn lemma_walk_bits(start: int, axes: Seq<usize>, j: int)
    requires
        0 <= start < 8,
        forall|k: int| 0 <= k < axes.len() ==> #[trigger] axes[k] < 3,
        axes.no_duplicates(),
        0 <= j <= axes.len(),
    ensures
        walk_spec(start, axes).len() == axes.len() + 1,
        0 <= walk_spec(start, axes)[j] < 8,
        forall|b: int|
            0 <= b < 3 ==> #[trigger] bit_of(walk_spec(start, axes)[j], b) == if axes.take(j).contains(b as usize) {
                1 - bit_of(start, b)
            } else {
                bit_of(start, b)
            },
    decreases axes.len(),
{
    if axes.len() == 0 {
        assert(axes.take(0) =~= Seq::<usize>::empty());
    } else {
        let prev = axes.drop_last();
        assert(prev.no_duplicates()) by {
            assert forall|a: int, b: int| 0 <= a < prev.len() && 0 <= b < prev.len() && a != b implies prev[a] != prev[b] by {
                assert(prev[a] == axes[a] && prev[b] == axes[b]);
            }
        }
        lemma_walk_bits(start, prev, if j < axes.len() { j } else { j - 1 });
        if j < axes.len() {
            assert(axes.take(j) =~= prev.take(j));
        } else {
            let w = walk_spec(start, prev);
            assert(axes.take(j) =~= prev.take(j - 1).push(axes.last()));
            assert forall|b: int| 0 <= b < 3 implies #[trigger] bit_of(walk_spec(start, axes)[j], b) == if axes.take(
                j,
            ).contains(b as usize) {
                1 - bit_of(start, b)
            } else {
                bit_of(start, b)
            } by {
                let t = prev.take(j - 1);
                let bu = b as usize;
                lemma_flip(w[j - 1], axes.last() as int, b);
                if t.contains(bu) {
                    let m = choose|m: int| 0 <= m < t.len() && t[m] == bu;
                    assert(t.push(axes.last())[m] == bu);
                }
                if axes.last() == bu {
                    assert(t.push(axes.last())[t.len() as int] == bu);
                }
                if t.push(axes.last()).contains(bu) {
                    let m = choose|m: int| 0 <= m < t.len() + 1 && t.push(axes.last())[m] == bu;
                    if m < t.len() {
                        assert(t[m] == bu);
                    }
                }
                assert(axes.take(j).contains(bu) == (t.contains(bu) || axes.last() == bu));
                assert(walk_spec(start, axes) == w.push(flip_spec(w.last(), axes.last() as int)));
                assert(w.last() == w[j - 1]);
                assert(walk_spec(start, axes)[j] == flip_spec(w[j - 1], axes.last() as int));
                assert(bit_of(w[j - 1], b) == if t.contains(bu) {
                    1 - bit_of(start, b)
                } else {
                    bit_of(start, b)
                });
                assert(bit_of(flip_spec(w[j - 1], axes.last() as int), b) == if b == axes.last() as int {
                    1 - bit_of(w[j - 1], b)
                } else {
                    bit_of(w[j - 1], b)
                });
                if t.contains(bu) {
                    assert(axes.last() != bu) by {
                        let m = choose|m: int| 0 <= m < t.len() && t[m] == bu;
                        assert(axes[m] == t[m]);
                        assert(m != axes.len() - 1);
                        assert(axes[m] != axes[axes.len() - 1]);
                    }
                }
                assert(bit_of(walk_spec(start, axes)[j], b) == bit_of(flip_spec(w[j - 1], axes.last() as int), b));
            }
        }
    }
}

} // verus!
