use vstd::prelude::*;

verus! {

/// The boolean operation combining the two children of a
/// constructive-solid-geometry node.
#[derive(Debug, Clone, Copy, PartialEq, Eq, Structural)]
pub enum Operation {
    Difference,
    Intersection,
    Union,
}

/// The filtering rule of constructive solid geometry.  A hit is on the
/// boundary of the combined solid exactly when this holds of the operation,
/// of which child the hit belongs to (`lhit` when it is the left one), and of
/// whether the ray is currently inside the left and the right child.
pub open spec fn allowed(op: Operation, lhit: bool, inl: bool, inr: bool) -> bool {
    match op {
        Operation::Difference => (lhit && !inr) || (!lhit && inl),
        Operation::Intersection => (lhit && inr) || (!lhit && inl),
        Operation::Union => (lhit && !inr) || (!lhit && !inl),
    }
}

/// Decide the filtering rule; the contract pins every entry of its truth
/// table.
pub fn intersection_allowed(op: Operation, lhit: bool, inl: bool, inr: bool) -> (r: bool)
    ensures
        r == allowed(op, lhit, inl, inr),
{
    match op {
        Operation::Difference => (lhit && !inr) || (!lhit && inl),
        Operation::Intersection => (lhit && inr) || (!lhit && inl),
        Operation::Union => (lhit && !inr) || (!lhit && !inl),
    }
}

/// How many entries of `s` are true.
pub open spec fn count_true(s: Seq<bool>) -> int
    decreases s.len(),
{
    if s.len() == 0 {
        0int
    } else {
        (if s[0] {
            1int
        } else {
            0int
        }) + count_true(s.drop_first())
    }
}

proof fn lemma_count_true_push(s: Seq<bool>, b: bool)
    ensures
        count_true(s.push(b)) == count_true(s) + (if b {
            1int
        } else {
            0int
        }),
    decreases s.len(),
{
    if s.len() == 0 {
        assert(s.push(b).drop_first() =~= Seq::<bool>::empty());
        assert(count_true(s.push(b)) == (if b {
            1int
        } else {
            0int
        }) + count_true(Seq::<bool>::empty()));
        assert(count_true(s) == 0);
    } else {
        assert(s.push(b).drop_first() =~= s.drop_first().push(b));
        lemma_count_true_push(s.drop_first(), b);
        assert(s.push(b)[0] == s[0]);
        assert(count_true(s.push(b)) == (if s[0] {
            1int
        } else {
            0int
        }) + count_true(s.drop_first().push(b)));
    }
}

/// Whether the ray is inside the left child just before hit `i`: each earlier
/// left hit crosses that child's boundary, so the parity of their count says
/// on which side of it the ray now runs.
pub open spec fn inside_left(lhit: Seq<bool>, i: int) -> bool {
    count_true(lhit.take(i)) % 2 == 1
}

/// Whether the ray is inside the right child just before hit `i`.
pub open spec fn inside_right(lhit: Seq<bool>, i: int) -> bool {
    (i - count_true(lhit.take(i))) % 2 == 1
}

/// Whether the hit at position `i` of the sorted, merged hit list lies on the
/// boundary of the combined solid.
pub open spec fn kept_at(op: Operation, lhit: Seq<bool>, i: int) -> bool {
    allowed(op, lhit[i], inside_left(lhit, i), inside_right(lhit, i))
}

/// The positions, in ascending order, of the hits among the first `n` that
/// the combined solid keeps.
pub open spec fn kept_prefix(op: Operation, lhit: Seq<bool>, n: int) -> Seq<int>
    decreases n,
{
    if n <= 0 {
        Seq::empty()
    } else if kept_at(op, lhit, n - 1) {
        kept_prefix(op, lhit, n - 1).push(n - 1)
    } else {
        kept_prefix(op, lhit, n - 1)
    }
}

/// Filter a merged, sorted hit list of a constructive-solid-geometry node.
/// `lhit[i]` says whether hit `i` belongs to the left child; the result lists
/// the positions of the hits that lie on the boundary of the combined solid,
/// in order.
pub fn filter_intersections(op: Operation, lhit: &Vec<bool>) -> (kept: Vec<usize>)
    ensures
        kept@.map_values(|k: usize| k as int) == kept_prefix(op, lhit@, lhit@.len() as int),
{
    let mut kept: Vec<usize> = Vec::new();
    let mut inl = false;
    let mut inr = false;
    let mut i: usize = 0;
    while i < lhit.len()
        invariant
            i <= lhit@.len(),
            inl == inside_left(lhit@, i as int),
            inr == inside_right(lhit@, i as int),
            kept@.map_values(|k: usize| k as int) == kept_prefix(op, lhit@, i as int),
        decreases lhit@.len() - i,
    {
        let ghost kept0 = kept@;
        let l = lhit[i];
        if intersection_allowed(op, l, inl, inr) {
            kept.push(i);
            proof {
                assert(kept@.map_values(|k: usize| k as int) =~= kept_prefix(
                    op,
                    lhit@,
                    i as int + 1,
                ));
            }
        } else {
            proof {
                assert(kept@.map_values(|k: usize| k as int) =~= kept_prefix(
                    op,
                    lhit@,
                    i as int + 1,
                ));
            }
        }
        proof {
            assert(lhit@.take(i as int + 1) =~= lhit@.take(i as int).push(lhit@[i as int]));
            lemma_count_true_push(lhit@.take(i as int), lhit@[i as int]);
        }
        if l {
            inl = !inl;
        } else {
            inr = !inr;
        }
        i = i + 1;
    }
    kept
}

} // verus!
