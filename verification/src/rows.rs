//! The direction-agnostic row transform all four moves reduce to.
//!
//! Sliding a row to the left is: compact (drop the zeros, keeping the order
//! of the tiles), merge (one left-to-right pass; two equal neighbours become
//! one doubled tile, and the doubled tile is not considered again in the
//! same pass), then pad with zeros back to the row length. The score gained
//! by a pass is the sum of the doubled tiles it created.

use vstd::prelude::*;

verus! {

/// Every tile of the row is small enough that doubling it stays inside
/// `u32`. This is the one machine limit the engine asks of its callers.
pub open spec fn row_in_range(r: Seq<u32>) -> bool {
    forall|k: int| 0 <= k < r.len() ==> r[k] < 0x8000_0000u32
}

/// The row with its zero cells removed, order kept.
pub open spec fn compact_spec(r: Seq<u32>) -> Seq<u32>
    decreases r.len(),
{
    if r.len() == 0 {
        Seq::empty()
    } else if r[0] == 0 {
        compact_spec(r.skip(1))
    } else {
        seq![r[0]] + compact_spec(r.skip(1))
    }
}

/// One left-to-right merge pass: two equal leading tiles become one doubled
/// tile and the pass goes on to the right of the pair, so a freshly doubled
/// tile never merges again within the pass.
pub open spec fn merge_spec(r: Seq<u32>) -> Seq<u32>
    decreases r.len(),
{
    if r.len() >= 2 && r[0] == r[1] {
        seq![(2 * r[0]) as u32] + merge_spec(r.skip(2))
    } else if r.len() >= 1 {
        seq![r[0]] + merge_spec(r.skip(1))
    } else {
        Seq::empty()
    }
}

/// The score a merge pass earns: the sum of the doubled tiles it creates.
pub open spec fn merge_gain(r: Seq<u32>) -> int
    decreases r.len(),
{
    if r.len() >= 2 && r[0] == r[1] {
        2 * r[0] + merge_gain(r.skip(2))
    } else if r.len() >= 1 {
        merge_gain(r.skip(1))
    } else {
        0
    }
}

/// The row extended with zeros on the right up to length `dim`.
pub open spec fn pad_spec(r: Seq<u32>, dim: nat) -> Seq<u32> {
    r + Seq::new((dim - r.len()) as nat, |k: int| 0u32)
}

/// The whole slide-left transform of one row.
pub open spec fn slide_row_spec(r: Seq<u32>, dim: nat) -> Seq<u32> {
    pad_spec(merge_spec(compact_spec(r)), dim)
}

/// Every row of the matrix is within the doubling range.
pub open spec fn grid_in_range(g: Seq<Seq<u32>>) -> bool {
    forall|i: int| 0 <= i < g.len() ==> row_in_range(g[i])
}

/// The score a whole slide pass over the matrix earns: the merges of
/// every row.
pub open spec fn grid_gain(g: Seq<Seq<u32>>) -> int
    decreases g.len(),
{
    if g.len() == 0 {
        0
    } else {
        merge_gain(compact_spec(g[0])) + grid_gain(g.skip(1))
    }
}

/// The sum of the tiles of a row.
pub open spec fn row_sum(r: Seq<u32>) -> int
    decreases r.len(),
{
    if r.len() == 0 {
        0
    } else {
        r[0] + row_sum(r.skip(1))
    }
}

/// Compaction keeps at most as many tiles as it was given.
pub proof fn lemma_compact_len(r: Seq<u32>)
    ensures
        compact_spec(r).len() <= r.len(),
    decreases r.len(),
{
    if r.len() > 0 {
        lemma_compact_len(r.skip(1));
    }
}

/// Compaction leaves no zero tile behind.
pub proof fn lemma_compact_nonzero(r: Seq<u32>)
    ensures
        forall|k: int| 0 <= k < compact_spec(r).len() ==> compact_spec(r)[k] != 0,
    decreases r.len(),
{
    if r.len() > 0 {
        lemma_compact_nonzero(r.skip(1));
        if r[0] == 0 {
            assert(compact_spec(r) == compact_spec(r.skip(1)));
        } else {
            let c = compact_spec(r);
            assert forall|k: int| 0 <= k < c.len() implies c[k] != 0 by {
                if k == 0 {
                    assert(c[0] == r[0]);
                } else {
                    assert(c[k] == compact_spec(r.skip(1))[k - 1]);
                }
            }
        }
    }
}

/// Compaction keeps every tile within range.
pub proof fn lemma_compact_in_range(r: Seq<u32>)
    requires
        row_in_range(r),
    ensures
        row_in_range(compact_spec(r)),
    decreases r.len(),
{
    if r.len() > 0 {
        assert(row_in_range(r.skip(1)));
        lemma_compact_in_range(r.skip(1));
    }
}

/// A merge pass keeps at most as many tiles as it was given.
pub proof fn lemma_merge_len(r: Seq<u32>)
    ensures
        merge_spec(r).len() <= r.len(),
    decreases r.len(),
{
    if r.len() >= 2 && r[0] == r[1] {
        lemma_merge_len(r.skip(2));
    } else if r.len() >= 1 {
        lemma_merge_len(r.skip(1));
    }
}

/// A merge pass of a zero-free, in-range row leaves no zero tile behind.
pub proof fn lemma_merge_nonzero(r: Seq<u32>)
    requires
        row_in_range(r),
        forall|k: int| 0 <= k < r.len() ==> r[k] != 0,
    ensures
        forall|k: int| 0 <= k < merge_spec(r).len() ==> merge_spec(r)[k] != 0,
    decreases r.len(),
{
    let m = merge_spec(r);
    if r.len() >= 2 && r[0] == r[1] {
        assert(row_in_range(r.skip(2)));
        lemma_merge_nonzero(r.skip(2));
        assert forall|k: int| 0 <= k < m.len() implies m[k] != 0 by {
            if k == 0 {
                assert(m[0] == (2 * r[0]) as u32);
            } else {
                assert(m[k] == merge_spec(r.skip(2))[k - 1]);
            }
        }
    } else if r.len() >= 1 {
        assert(row_in_range(r.skip(1)));
        lemma_merge_nonzero(r.skip(1));
        assert forall|k: int| 0 <= k < m.len() implies m[k] != 0 by {
            if k == 0 {
                assert(m[0] == r[0]);
            } else {
                assert(m[k] == merge_spec(r.skip(1))[k - 1]);
            }
        }
    }
}

/// The gain of a merge pass is never negative.
pub proof fn lemma_merge_gain_nonneg(r: Seq<u32>)
    ensures
        merge_gain(r) >= 0,
    decreases r.len(),
{
    if r.len() >= 2 && r[0] == r[1] {
        lemma_merge_gain_nonneg(r.skip(2));
    } else if r.len() >= 1 {
        lemma_merge_gain_nonneg(r.skip(1));
    }
}

/// The sum of a row is never negative.
pub proof fn lemma_row_sum_nonneg(r: Seq<u32>)
    ensures
        row_sum(r) >= 0,
    decreases r.len(),
{
    if r.len() > 0 {
        lemma_row_sum_nonneg(r.skip(1));
    }
}

/// The sum of an in-range row is bounded by its length times the tile bound.
pub proof fn lemma_row_sum_le(r: Seq<u32>)
    requires
        row_in_range(r),
    ensures
        row_sum(r) <= r.len() * 0x8000_0000,
    decreases r.len(),
{
    if r.len() > 0 {
        assert(row_in_range(r.skip(1)));
        lemma_row_sum_le(r.skip(1));
        assert(r.len() * 0x8000_0000 == 0x8000_0000 + (r.len() - 1) * 0x8000_0000)
            by (nonlinear_arith);
    }
}

/// Compaction does not change the sum of a row.
pub proof fn lemma_compact_sum(r: Seq<u32>)
    ensures
        row_sum(compact_spec(r)) == row_sum(r),
    decreases r.len(),
{
    if r.len() > 0 {
        lemma_compact_sum(r.skip(1));
        if r[0] != 0 {
            let c = compact_spec(r);
            assert(c == seq![r[0]] + compact_spec(r.skip(1)));
            assert(c.skip(1) =~= compact_spec(r.skip(1)));
            assert(row_sum(c) == c[0] + row_sum(c.skip(1)));
        }
    }
}

/// A merge pass of an in-range row does not change the sum: two equal
/// tiles become the one tile holding their total.
pub proof fn lemma_merge_sum(r: Seq<u32>)
    requires
        row_in_range(r),
    ensures
        row_sum(merge_spec(r)) == row_sum(r),
    decreases r.len(),
{
    if r.len() >= 2 && r[0] == r[1] {
        assert(row_in_range(r.skip(2)));
        lemma_merge_sum(r.skip(2));
        let m = merge_spec(r);
        assert(m == seq![(2 * r[0]) as u32] + merge_spec(r.skip(2)));
        assert(m.skip(1) =~= merge_spec(r.skip(2)));
        assert(row_sum(m) == m[0] + row_sum(m.skip(1)));
        assert(row_sum(r) == r[0] + row_sum(r.skip(1)));
        assert(r.skip(1).skip(1) =~= r.skip(2));
        assert(row_sum(r.skip(1)) == r.skip(1)[0] + row_sum(r.skip(1).skip(1)));
    } else if r.len() >= 1 {
        assert(row_in_range(r.skip(1)));
        lemma_merge_sum(r.skip(1));
        let m = merge_spec(r);
        assert(m == seq![r[0]] + merge_spec(r.skip(1)));
        assert(m.skip(1) =~= merge_spec(r.skip(1)));
        assert(row_sum(m) == m[0] + row_sum(m.skip(1)));
    }
}

/// A row of zeros sums to zero.
proof fn lemma_zeros_sum(n: nat)
    ensures
        row_sum(Seq::new(n, |k: int| 0u32)) == 0,
    decreases n,
{
    let z = Seq::new(n, |k: int| 0u32);
    if n > 0 {
        lemma_zeros_sum((n - 1) as nat);
        assert(z.skip(1) =~= Seq::new((n - 1) as nat, |k: int| 0u32));
        assert(row_sum(z) == z[0] + row_sum(z.skip(1)));
    }
}

/// Padding with zeros does not change the sum of a row.
pub proof fn lemma_pad_sum(r: Seq<u32>, dim: nat)
    requires
        r.len() <= dim,
    ensures
        row_sum(pad_spec(r, dim)) == row_sum(r),
    decreases r.len(),
{
    if r.len() == 0 {
        lemma_zeros_sum((dim - r.len()) as nat);
        assert(pad_spec(r, dim) =~= Seq::new((dim - r.len()) as nat, |k: int| 0u32));
    } else {
        lemma_pad_sum(r.skip(1), (dim - 1) as nat);
        let p = pad_spec(r, dim);
        assert(p.skip(1) =~= pad_spec(r.skip(1), (dim - 1) as nat));
        assert(row_sum(p) == p[0] + row_sum(p.skip(1)));
    }
}

/// Two neighbouring cells of the row hold the same value.
pub open spec fn has_adjacent_pair(r: Seq<u32>) -> bool {
    exists|k: int| 0 <= k < r.len() - 1 && #[trigger] r[k] == r[k + 1]
}

/// Compaction distributes over concatenation.
pub proof fn lemma_compact_concat(a: Seq<u32>, b: Seq<u32>)
    ensures
        compact_spec(a + b) == compact_spec(a) + compact_spec(b),
    decreases a.len(),
{
    if a.len() == 0 {
        assert(a + b =~= b);
        assert(compact_spec(a) + compact_spec(b) =~= compact_spec(b));
    } else {
        assert((a + b).skip(1) =~= a.skip(1) + b);
        lemma_compact_concat(a.skip(1), b);
        assert((a + b)[0] == a[0]);
        if a[0] != 0 {
            assert(seq![a[0]] + (compact_spec(a.skip(1)) + compact_spec(b)) =~= (seq![a[0]]
                + compact_spec(a.skip(1))) + compact_spec(b));
        }
    }
}

/// A run of zeros compacts to nothing.
pub proof fn lemma_compact_zeros(z: Seq<u32>)
    requires
        forall|k: int| 0 <= k < z.len() ==> z[k] == 0,
    ensures
        compact_spec(z) == Seq::<u32>::empty(),
    decreases z.len(),
{
    if z.len() > 0 {
        assert(forall|k: int| 0 <= k < z.skip(1).len() ==> z.skip(1)[k] == 0);
        lemma_compact_zeros(z.skip(1));
    }
}

/// A row without empty cells is already compact.
pub proof fn lemma_compact_id(r: Seq<u32>)
    requires
        forall|k: int| 0 <= k < r.len() ==> r[k] != 0,
    ensures
        compact_spec(r) == r,
    decreases r.len(),
{
    if r.len() > 0 {
        assert(forall|k: int| 0 <= k < r.skip(1).len() ==> r.skip(1)[k] != 0);
        lemma_compact_id(r.skip(1));
        assert(seq![r[0]] + r.skip(1) =~= r);
    }
}

/// Padding adds nothing that compaction would keep.
pub proof fn lemma_compact_pad(r: Seq<u32>, dim: nat)
    requires
        r.len() <= dim,
    ensures
        compact_spec(pad_spec(r, dim)) == compact_spec(r),
{
    let z = Seq::new((dim - r.len()) as nat, |k: int| 0u32);
    lemma_compact_concat(r, z);
    lemma_compact_zeros(z);
    assert(compact_spec(r) + Seq::<u32>::empty() =~= compact_spec(r));
}

/// A merge pass over a row without equal neighbours changes nothing.
pub proof fn lemma_merge_id(r: Seq<u32>)
    requires
        !has_adjacent_pair(r),
    ensures
        merge_spec(r) == r,
    decreases r.len(),
{
    if r.len() >= 1 {
        assert(!has_adjacent_pair(r.skip(1))) by {
            if has_adjacent_pair(r.skip(1)) {
                let k = choose|k: int|
                    0 <= k < r.skip(1).len() - 1 && #[trigger] r.skip(1)[k] == r.skip(1)[k + 1];
                assert(r[k + 1] == r[k + 2]);
            }
        }
        lemma_merge_id(r.skip(1));
        if r.len() >= 2 {
            assert(r[0] != r[1]);
        }
        assert(seq![r[0]] + r.skip(1) =~= r);
    }
}

/// A merge pass over a row with at least one equal neighbouring pair
/// comes back strictly shorter.
pub proof fn lemma_merge_len_lt(r: Seq<u32>)
    requires
        has_adjacent_pair(r),
    ensures
        merge_spec(r).len() < r.len(),
    decreases r.len(),
{
    if r.len() >= 2 && r[0] == r[1] {
        lemma_merge_len(r.skip(2));
    } else {
        let k = choose|k: int| 0 <= k < r.len() - 1 && #[trigger] r[k] == r[k + 1];
        assert(k >= 1);
        assert(r.skip(1)[k - 1] == r.skip(1)[k]);
        assert(has_adjacent_pair(r.skip(1)));
        lemma_merge_len_lt(r.skip(1));
    }
}

/// A slid row is exactly as long as the target length.
pub proof fn lemma_slide_row_len(r: Seq<u32>, dim: nat)
    requires
        r.len() <= dim,
    ensures
        slide_row_spec(r, dim).len() == dim,
{
    lemma_compact_len(r);
    lemma_merge_len(compact_spec(r));
}

/// Slides one row to the left: compact, merge, pad. Returns the new row and
/// the score gained by the merges of the pass.
pub fn slide_row(row: &Vec<u32>, dim: usize) -> (res: (Vec<u32>, u64))
    requires
        row@.len() == dim,
        dim <= 0xFFFF,
        row_in_range(row@),
    ensures
        res.0@ == slide_row_spec(row@, dim as nat),
        res.0@.len() == dim,
        res.1 == merge_gain(compact_spec(row@)),
        res.1 <= row_sum(row@),
{
    let ghost r = row@;

    // Compact: keep the non-zero tiles in order.
    let mut tight: Vec<u32> = Vec::new();
    let mut i: usize = 0;
    proof {
        assert(r.skip(0) =~= r);
        assert(Seq::<u32>::empty() + compact_spec(r) =~= compact_spec(r));
    }
    while i < row.len()
        invariant
            i <= row.len(),
            row@ == r,
            row@.len() == dim,
            row_in_range(r),
            compact_spec(r) == tight@ + compact_spec(r.skip(i as int)),
            row_in_range(tight@),
            forall|k: int| 0 <= k < tight@.len() ==> tight@[k] != 0,
            tight@.len() <= i,
        decreases row.len() - i,
    {
        let ghost tail = r.skip(i as int);
        proof {
            assert(tail.skip(1) =~= r.skip(i as int + 1));
        }
        if row[i] != 0 {
            let ghost pre = tight@;
            tight.push(row[i]);
            proof {
                assert(compact_spec(tail) == seq![tail[0]] + compact_spec(tail.skip(1)));
                assert((pre + seq![r[i as int]]) + compact_spec(r.skip(i as int + 1)) =~= pre + (
                seq![r[i as int]] + compact_spec(r.skip(i as int + 1))));
                assert(tight@ =~= pre + seq![r[i as int]]);
            }
        }
        i = i + 1;
    }
    proof {
        assert(r.skip(row@.len() as int) =~= Seq::<u32>::empty());
        assert(tight@ + Seq::<u32>::empty() =~= tight@);
    }
    assert(tight@ == compact_spec(r));

    // Merge: one left-to-right pass over the compacted tiles.
    let ghost c = tight@;
    let mut merged: Vec<u32> = Vec::new();
    let mut gained: u64 = 0;
    let mut j: usize = 0;
    proof {
        lemma_merge_gain_nonneg(c);
        lemma_compact_sum(r);
        lemma_row_sum_le(c);
        lemma_compact_len(r);
        assert(c.skip(0) =~= c);
        assert(Seq::<u32>::empty() + merge_spec(c) =~= merge_spec(c));
    }
    while j < tight.len()
        invariant
            j <= tight.len(),
            tight@ == c,
            row_in_range(c),
            c.len() <= dim <= 0xFFFF,
            merge_spec(c) == merged@ + merge_spec(c.skip(j as int)),
            merge_gain(c) == gained + merge_gain(c.skip(j as int)),
            gained + row_sum(c.skip(j as int)) <= row_sum(c),
            row_sum(c) <= c.len() * 0x8000_0000,
            merged@.len() <= j,
        decreases tight.len() - j,
    {
        let ghost tail = c.skip(j as int);
        proof {
            assert(tail.skip(1) =~= c.skip(j as int + 1));
            assert(row_sum(tail) == tail[0] + row_sum(tail.skip(1)));
            lemma_row_sum_nonneg(tail.skip(1));
            lemma_merge_gain_nonneg(tail.skip(1));
            if tail.len() >= 2 {
                assert(tail.skip(2) =~= c.skip(j as int + 2));
                assert(tail.skip(1).skip(1) =~= tail.skip(2));
                assert(row_sum(tail.skip(1)) == tail.skip(1)[0] + row_sum(tail.skip(1).skip(1)));
                assert(tail.skip(1)[0] == tail[1]);
                lemma_row_sum_nonneg(tail.skip(2));
                lemma_merge_gain_nonneg(tail.skip(2));
            }
        }
        if j + 1 < tight.len() && tight[j] == tight[j + 1] {
            let doubled = 2 * tight[j];
            let ghost pre = merged@;
            merged.push(doubled);
            gained = gained + doubled as u64;
            proof {
                assert(merge_spec(tail) == seq![(2 * tail[0]) as u32] + merge_spec(tail.skip(2)));
                assert((pre + seq![(2 * c[j as int]) as u32]) + merge_spec(c.skip(j as int + 2))
                    =~= pre + (seq![(2 * c[j as int]) as u32] + merge_spec(c.skip(j as int + 2))));
                assert(merged@ =~= pre + seq![(2 * c[j as int]) as u32]);
            }
            j = j + 2;
        } else {
            let ghost pre = merged@;
            merged.push(tight[j]);
            proof {
                assert(merge_spec(tail) == seq![tail[0]] + merge_spec(tail.skip(1)));
                assert((pre + seq![c[j as int]]) + merge_spec(c.skip(j as int + 1)) =~= pre + (
                seq![c[j as int]] + merge_spec(c.skip(j as int + 1))));
                assert(merged@ =~= pre + seq![c[j as int]]);
            }
            j = j + 1;
        }
    }
    proof {
        assert(c.skip(c.len() as int) =~= Seq::<u32>::empty());
        assert(merged@ + Seq::<u32>::empty() =~= merged@);
        lemma_row_sum_nonneg(c.skip(c.len() as int));
    }
    assert(merged@ == merge_spec(c));
    assert(gained == merge_gain(c));

    // Pad: zeros on the right back to the row length.
    let ghost m = merged@;
    while merged.len() < dim
        invariant
            m.len() <= merged@.len() <= dim,
            merged@.take(m.len() as int) == m,
            forall|k: int| m.len() <= k < merged@.len() ==> merged@[k] == 0,
        decreases dim - merged.len(),
    {
        let ghost pre = merged@;
        merged.push(0);
        proof {
            assert(merged@.take(m.len() as int) =~= pre.take(m.len() as int));
        }
    }
    proof {
        assert(merged@ =~= pad_spec(m, dim as nat));
    }
    (merged, gained)
}

} // verus!
