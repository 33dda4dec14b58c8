use vstd::prelude::*;

verus! {

/// Pick the hit: among the hits whose distance is not negative, the one with
/// the least distance, and of equally distant hits the earliest in the list.
///
/// A distance is carried as an order-preserving key, so "least key" below
/// means "least distance"; `nonneg[i]` says whether hit `i` lies on or ahead
/// of the ray's origin.  A hit behind the origin is never picked, and `None`
/// comes back only when no hit is ahead.
pub fn hit_index(keys: &Vec<u64>, nonneg: &Vec<bool>) -> (r: Option<usize>)
    requires
        keys@.len() == nonneg@.len(),
    ensures
        r is None <==> (forall|j: int| 0 <= j < nonneg@.len() ==> !nonneg@[j]),
        r matches Some(b) ==> 0 <= b < keys@.len() && nonneg@[b as int] && (forall|j: int|
            0 <= j < keys@.len() && nonneg@[j] ==> keys@[b as int] <= keys@[j]) && (forall|j: int|
            0 <= j < b ==> nonneg@[j] ==> keys@[j] > keys@[b as int]),
{
    let mut best: Option<usize> = None;
    let mut i: usize = 0;
    while i < keys.len()
        invariant
            keys@.len() == nonneg@.len(),
            i <= keys@.len(),
            best is None <==> (forall|j: int| 0 <= j < i ==> !nonneg@[j]),
            best matches Some(b) ==> 0 <= b < i && nonneg@[b as int] && (forall|j: int|
                0 <= j < i && nonneg@[j] ==> keys@[b as int] <= keys@[j]) && (forall|j: int|
                0 <= j < b ==> nonneg@[j] ==> keys@[j] > keys@[b as int]),
        decreases keys@.len() - i,
    {
        if nonneg[i] {
            match best {
                None => {
                    best = Some(i);
                },
                Some(b) => {
                    if keys[i] < keys[b] {
                        best = Some(i);
                    }
                },
            }
        }
        i = i + 1;
    }
    best
}

/// The position of the first `true` in `s`, or `s.len()` when there is none.
pub open spec fn first_true(s: Seq<bool>) -> int
    decreases s.len(),
{
    if s.len() == 0 {
        0int
    } else if s[0] {
        0int
    } else {
        1 + first_true(s.drop_first())
    }
}

proof fn lemma_first_true_at(s: Seq<bool>, i: int)
    requires
        0 <= i < s.len(),
        s[i],
        forall|j: int| 0 <= j < i ==> !s[j],
    ensures
        first_true(s) == i,
    decreases i,
{
    if i > 0 {
        lemma_first_true_at(s.drop_first(), i - 1);
    }
}

proof fn lemma_first_true_absent(s: Seq<bool>)
    requires
        forall|j: int| 0 <= j < s.len() ==> !s[j],
    ensures
        first_true(s) == s.len(),
    decreases s.len(),
{
    if s.len() > 0 {
        lemma_first_true_absent(s.drop_first());
    }
}

/// The position of the first occurrence of `v` in `s`, or `s.len()` when `s`
/// does not hold it.
pub open spec fn find_first(s: Seq<u64>, v: u64) -> int
    decreases s.len(),
{
    if s.len() == 0 {
        0int
    } else if s[0] == v {
        0int
    } else {
        1 + find_first(s.drop_first(), v)
    }
}

proof fn lemma_find_first_at(s: Seq<u64>, v: u64, i: int)
    requires
        0 <= i < s.len(),
        s[i] == v,
        forall|j: int| 0 <= j < i ==> s[j] != v,
    ensures
        find_first(s, v) == i,
    decreases i,
{
    if i > 0 {
        lemma_find_first_at(s.drop_first(), v, i - 1);
    }
}

proof fn lemma_find_first_absent(s: Seq<u64>, v: u64)
    requires
        forall|j: int| 0 <= j < s.len() ==> s[j] != v,
    ensures
        find_first(s, v) == s.len(),
    decreases s.len(),
{
    if s.len() > 0 {
        lemma_find_first_absent(s.drop_first(), v);
    }
}

/// One step of the containment stack: a hit on an object the ray is already
/// inside pops that object (the ray leaves it); a hit on any other object
/// pushes it (the ray enters it).
pub open spec fn containers_step(stack: Seq<u64>, id: u64) -> Seq<u64> {
    if find_first(stack, id) < stack.len() {
        stack.remove(find_first(stack, id))
    } else {
        stack.push(id)
    }
}

/// The containment stack after the first `n` hits of the sorted list, each
/// hit given by the identity of its object.
pub open spec fn containers_after(ids: Seq<u64>, n: int) -> Seq<u64>
    decreases n,
{
    if n <= 0 {
        Seq::empty()
    } else {
        containers_step(containers_after(ids, n - 1), ids[n - 1])
    }
}

/// The object whose medium surrounds the ray at this stack: the innermost
/// object still entered, or `None` for the surrounding medium.
pub open spec fn top_of(stack: Seq<u64>) -> Option<u64> {
    if stack.len() == 0 {
        None
    } else {
        Some(stack.last())
    }
}

/// The media on the two sides of the hit: the first pair entry is the object
/// containing the ray just before the hit, the second the one just after;
/// `None` stands for the surrounding medium.  `at_hit[i]` says whether hit
/// `i` is at the same distance as the hit under consideration; the list is
/// replayed up to the first such hit.  When no entry of `at_hit` is true,
/// both sides are the surrounding medium.
pub open spec fn refraction_media(ids: Seq<u64>, at_hit: Seq<bool>) -> (Option<u64>, Option<u64>) {
    let h = first_true(at_hit);
    if h < at_hit.len() {
        (top_of(containers_after(ids, h)), top_of(containers_after(ids, h + 1)))
    } else {
        (None, None)
    }
}

/// Replay the sorted hit list up to the hit and read off the two media whose
/// boundary it crosses, maintaining the containment stack of the objects the
/// ray is currently inside.
pub fn refraction_boundaries(ids: &Vec<u64>, at_hit: &Vec<bool>) -> (r: (
    Option<u64>,
    Option<u64>,
))
    requires
        ids@.len() == at_hit@.len(),
    ensures
        r == refraction_media(ids@, at_hit@),
{
    let mut containers: Vec<u64> = Vec::new();
    let mut i: usize = 0;
    while i < ids.len()
        invariant
            ids@.len() == at_hit@.len(),
            i <= ids@.len(),
            containers@ == containers_after(ids@, i as int),
            forall|j: int| 0 <= j < i ==> !at_hit@[j],
        decreases ids@.len() - i,
    {
        let hit_here = at_hit[i];
        let n1: Option<u64> = if hit_here && containers.len() > 0 {
            Some(containers[containers.len() - 1])
        } else {
            None
        };
        let id = ids[i];
        let mut found: Option<usize> = None;
        let mut k: usize = 0;
        while k < containers.len()
            invariant
                k <= containers@.len(),
                found is None ==> forall|j: int| 0 <= j < k ==> containers@[j] != id,
                found matches Some(p) ==> 0 <= p < containers@.len() && containers@[p as int]
                    == id && (forall|j: int| 0 <= j < p ==> containers@[j] != id),
            decreases containers@.len() - k,
        {
            if found.is_none() && containers[k] == id {
                found = Some(k);
            }
            k = k + 1;
        }
        match found {
            Some(p) => {
                proof {
                    lemma_find_first_at(containers@, id, p as int);
                }
                containers.remove(p);
            },
            None => {
                proof {
                    lemma_find_first_absent(containers@, id);
                }
                containers.push(id);
            },
        }
        if hit_here {
            let n2: Option<u64> = if containers.len() > 0 {
                Some(containers[containers.len() - 1])
            } else {
                None
            };
            proof {
                lemma_first_true_at(at_hit@, i as int);
            }
            return (n1, n2);
        }
        i = i + 1;
    }
    proof {
        lemma_first_true_absent(at_hit@);
    }
    (None, None)
}

} // verus!
