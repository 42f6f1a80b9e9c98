//! Cells reachable by walking, step by step, over the cells a walker is
//! allowed to enter.

use vstd::prelude::*;
use crate::field::{neighbor, lemma_neighbor_in_range, Field};

verus! {

/// Cell `i` has a neighbor in direction `dir` that `cur` marks.
pub open spec fn entered_from(w: int, cur: Seq<bool>, i: int, dir: int) -> bool {
    let j = neighbor(w, cur.len() as int, i, dir);
    0 <= j && cur[j]
}

/// One more step: the marked cells, and each allowed cell next to a marked one.
pub open spec fn spread(w: int, allowed: Seq<bool>, cur: Seq<bool>) -> Seq<bool> {
    Seq::new(
        cur.len(),
        |i: int|
            cur[i] || (allowed[i] && (entered_from(w, cur, i, 0) || entered_from(w, cur, i, 1)
                || entered_from(w, cur, i, 2) || entered_from(w, cur, i, 3))),
    )
}

/// The cells reachable from `start` in at most `k` steps, each step into an
/// allowed cell next to the current one, on a board `w` cells wide with
/// `allowed.len()` cells. The start cell itself need not be allowed.
pub open spec fn reach(w: int, allowed: Seq<bool>, start: int, k: nat) -> Seq<bool>
    decreases k,
{
    if k == 0 {
        Seq::new(allowed.len(), |i: int| i == start)
    } else {
        spread(w, allowed, reach(w, allowed, start, (k - 1) as nat))
    }
}

/// Number of marked entries.
pub open spec fn count_true(s: Seq<bool>) -> nat
    decreases s.len(),
{
    if s.len() == 0 {
        0
    } else {
        count_true(s.drop_last()) + if s.last() { 1nat } else { 0nat }
    }
}

pub proof fn lemma_reach_len(w: int, allowed: Seq<bool>, start: int, k: nat)
    ensures
        reach(w, allowed, start, k).len() == allowed.len(),
    decreases k,
{
    if k > 0 {
        lemma_reach_len(w, allowed, start, (k - 1) as nat);
    }
}

/// The start cell is always reached.
pub proof fn lemma_reach_has_start(w: int, allowed: Seq<bool>, start: int, k: nat)
    requires
        0 <= start < allowed.len(),
    ensures
        reach(w, allowed, start, k)[start],
    decreases k,
{
    lemma_reach_len(w, allowed, start, k);
    if k > 0 {
        lemma_reach_has_start(w, allowed, start, (k - 1) as nat);
        lemma_reach_len(w, allowed, start, (k - 1) as nat);
    }
}

/// Once a step adds nothing, no later step does.
pub proof fn lemma_reach_stable(w: int, allowed: Seq<bool>, start: int, k: nat, j: nat)
    requires
        k <= j,
        spread(w, allowed, reach(w, allowed, start, k)) == reach(w, allowed, start, k),
    ensures
        reach(w, allowed, start, j) == reach(w, allowed, start, k),
    decreases j - k,
{
    if k < j {
        lemma_reach_stable(w, allowed, start, k, (j - 1) as nat);
    }
}

pub proof fn lemma_count_prefix(s: Seq<bool>, k: int)
    requires
        0 <= k < s.len(),
    ensures
        count_true(s.subrange(0, k + 1)) == count_true(s.subrange(0, k)) + if s[k] { 1nat } else { 0nat },
{
    assert(s.subrange(0, k + 1).drop_last() =~= s.subrange(0, k));
}

/// A sequence with a marked entry counts at least one.
pub proof fn lemma_count_positive(s: Seq<bool>, i: int)
    requires
        0 <= i < s.len(),
        s[i],
    ensures
        count_true(s) >= 1,
    decreases s.len(),
{
    if i < s.len() - 1 {
        lemma_count_positive(s.drop_last(), i);
    }
}

pub proof fn lemma_count_le_len(s: Seq<bool>)
    ensures
        count_true(s) <= s.len(),
    decreases s.len(),
{
    if s.len() > 0 {
        lemma_count_le_len(s.drop_last());
    }
}

/// Number of entries of `s` that are marked.
pub fn count_marked(s: &Vec<bool>) -> (r: usize)
    ensures
        r == count_true(s@),
{
    let mut r: usize = 0;
    let mut k: usize = 0;
    while k < s.len()
        invariant
            k <= s.len(),
            r == count_true(s@.subrange(0, k as int)),
            r <= k,
        decreases s.len() - k,
    {
        proof {
            lemma_count_prefix(s@, k as int);
        }
        if s[k] {
            r = r + 1;
        }
        k = k + 1;
    }
    assert(s@.subrange(0, s.len() as int) =~= s@);
    r
}

/// The cells of `cur` and the allowed cells next to them.
pub fn spread_once(field: &Field, allowed: &Vec<bool>, cur: &Vec<bool>) -> (r: Vec<bool>)
    requires
        field.wf(),
        allowed.len() == field@.len(),
        cur.len() == field@.len(),
    ensures
        r@ == spread(field@.width, allowed@, cur@),
{
    let n = cur.len();
    let ghost w = field@.width;
    let mut r: Vec<bool> = Vec::new();
    let mut i: usize = 0;
    while i < n
        invariant
            field.wf(),
            n == cur.len(),
            allowed.len() == n,
            field@.len() == n,
            w == field@.width,
            i <= n,
            r.len() == i,
            forall|k: int| 0 <= k < i ==> #[trigger] r@[k] == spread(w, allowed@, cur@)[k],
        decreases n - i,
    {
        let mut v = cur[i];
        if !v && allowed[i] {
            let mut dir: usize = 0;
            while dir < 4
                invariant
                    field.wf(),
                    n == cur.len(),
                    field@.len() == n,
                    w == field@.width,
                    i < n,
                    dir <= 4,
                    v == (exists|d: int| 0 <= d < dir && #[trigger] entered_from(w, cur@, i as int, d)),
                decreases 4 - dir,
            {
                proof {
                    lemma_neighbor_in_range(w, n as int, i as int, dir as int);
                }
                match field.neighbor_of(i, dir) {
                    Some(j) => {
                        if cur[j] {
                            v = true;
                        }
                    },
                    None => {},
                }
                proof {
                    if v {
                        if !(exists|d: int| 0 <= d < dir && #[trigger] entered_from(w, cur@, i as int, d)) {
                            assert(entered_from(w, cur@, i as int, dir as int));
                        }
                    }
                    if (exists|d: int| 0 <= d < dir + 1 && #[trigger] entered_from(w, cur@, i as int, d)) && !v {
                        let d = choose|d: int| 0 <= d < dir + 1 && #[trigger] entered_from(w, cur@, i as int, d);
                        assert(d == dir);
                    }
                }
                dir = dir + 1;
            }
            assert(v == (entered_from(w, cur@, i as int, 0) || entered_from(w, cur@, i as int, 1)
                || entered_from(w, cur@, i as int, 2) || entered_from(w, cur@, i as int, 3)));
        }
        r.push(v);
        i = i + 1;
    }
    assert(r@ =~= spread(w, allowed@, cur@));
    r
}

/// The cells reachable from `start` in at most `steps` steps through allowed cells.
pub fn reach_within(field: &Field, allowed: &Vec<bool>, start: usize, steps: usize) -> (r: Vec<bool>)
    requires
        field.wf(),
        allowed.len() == field@.len(),
        start < field@.len(),
    ensures
        r@ == reach(field@.width, allowed@, start as int, steps as nat),
{
    let n = allowed.len();
    let ghost w = field@.width;
    let mut cur: Vec<bool> = Vec::new();
    let mut i: usize = 0;
    while i < n
        invariant
            i <= n,
            cur.len() == i,
            forall|k: int| 0 <= k < i ==> #[trigger] cur@[k] == (k == start),
        decreases n - i,
    {
        cur.push(i == start);
        i = i + 1;
    }
    assert(cur@ =~= reach(w, allowed@, start as int, 0));
    let mut k: usize = 0;
    while k < steps
        invariant
            field.wf(),
            allowed.len() == n,
            field@.len() == n,
            w == field@.width,
            k <= steps,
            cur@ == reach(w, allowed@, start as int, k as nat),
            cur.len() == n,
        decreases steps - k,
    {
        let next = spread_once(field, allowed, &cur);
        let mut same = true;
        let mut j: usize = 0;
        while j < n
            invariant
                j <= n,
                next.len() == n,
                cur.len() == n,
                same == (forall|q: int| 0 <= q < j ==> #[trigger] next@[q] == cur@[q]),
            decreases n - j,
        {
            if next[j] != cur[j] {
                same = false;
            }
            j = j + 1;
        }
        if same {
            assert(next@ =~= cur@);
            proof {
                lemma_reach_stable(w, allowed@, start as int, k as nat, steps as nat);
            }
            return cur;
        }
        cur = next;
        k = k + 1;
    }
    cur
}

} // verus!
