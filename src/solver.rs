use vstd::prelude::*;
use crate::nonogram::{
    accepts_spec, col_of, lemma_cell_index, meet, row_of, CellState, Constraint, Nonogram,
};

verus! {

/// One full-length placement of a line's runs.
pub type CandidateMask = Vec<CellState>;

/// The placements of one line that are still possible.
pub type CandidateMaskSet = Vec<CandidateMask>;

/// Sum of a sequence of lengths.
pub open spec fn seq_sum(s: Seq<usize>) -> int
    decreases s.len(),
{
    if s.len() == 0 {
        0
    } else {
        seq_sum(s.drop_last()) + s.last()
    }
}

/// Least number of blanks that gap slot `slot` of the slots `0..=last` takes:
/// the outer slots may stay empty, the ones between two runs may not.
pub open spec fn slot_min(slot: int, last: int) -> int {
    if slot == 0 || slot == last {
        0
    } else {
        1
    }
}

/// `t` assigns `blanks` blanks in all to the gap slots `first..=last`, each
/// slot receiving at least its minimum.
pub open spec fn gaps_from(t: Seq<usize>, first: int, last: int, blanks: int) -> bool {
    &&& t.len() == last - first + 1
    &&& seq_sum(t) == blanks
    &&& forall|j: int| 0 <= j < t.len() ==> t[j] >= slot_min(first + j, last)
}

/// `v` is `base` followed by an assignment of `blanks` blanks to the gap
/// slots `first..=last`.
pub open spec fn extends_gaps(v: Seq<usize>, base: Seq<usize>, first: int, last: int, blanks: int) -> bool {
    exists|t: Seq<usize>| #[trigger] gaps_from(t, first, last, blanks) && v == base + t
}

/// `g` is a legal assignment of blanks to the gap slots of a line of
/// `capacity` cells holding the runs `runs`.
pub open spec fn valid_gaps(g: Seq<usize>, runs: Seq<usize>, capacity: int) -> bool {
    gaps_from(g, 0, runs.len() as int, capacity - seq_sum(runs))
}

/// `n` copies of `c`.
pub open spec fn repeat(c: CellState, n: nat) -> Seq<CellState> {
    Seq::new(n, |i: int| c)
}

/// The first `j` gaps and runs laid out: blanks of `g[0]`, run `r[0]`, ...
pub open spec fn mask_prefix(g: Seq<usize>, r: Seq<usize>, j: nat) -> Seq<CellState>
    decreases j,
{
    if j == 0 {
        Seq::empty()
    } else {
        mask_prefix(g, r, (j - 1) as nat) + repeat(CellState::Empty, g[j - 1] as nat) + repeat(
            CellState::Filled,
            r[j - 1] as nat,
        )
    }
}

/// The line that gap lengths `g` and run lengths `r` describe: each gap
/// followed by its run, and the last gap at the end.
pub open spec fn mask_of(g: Seq<usize>, r: Seq<usize>) -> Seq<CellState> {
    mask_prefix(g, r, r.len()) + repeat(CellState::Empty, g[r.len() as int] as nat)
}

/// Every legal placement of `runs` in a line of `capacity` cells is among `ms`.
pub open spec fn covers_all(ms: Seq<CandidateMask>, runs: Seq<usize>, capacity: int) -> bool {
    forall|g: Seq<usize>|
        #[trigger] valid_gaps(g, runs, capacity) ==> exists|i: int|
            0 <= i < ms.len() && (#[trigger] ms[i])@ == mask_of(g, runs)
}

/// Least line length that holds the runs with one blank between neighbours.
pub open spec fn min_len(runs: Seq<usize>) -> int {
    if runs.len() == 0 {
        0
    } else {
        seq_sum(runs) + runs.len() - 1
    }
}

/// `m` is a legal placement of `runs` in a line of `capacity` cells.
pub open spec fn is_placement(m: Seq<CellState>, runs: Seq<usize>, capacity: int) -> bool {
    exists|g: Seq<usize>| #[trigger] valid_gaps(g, runs, capacity) && m == mask_of(g, runs)
}

pub proof fn lemma_sum_nonneg(s: Seq<usize>)
    ensures
        seq_sum(s) >= 0,
    decreases s.len(),
{
    if s.len() > 0 {
        lemma_sum_nonneg(s.drop_last());
    }
}

pub proof fn lemma_sum_concat(a: Seq<usize>, b: Seq<usize>)
    ensures
        seq_sum(a + b) == seq_sum(a) + seq_sum(b),
    decreases b.len(),
{
    if b.len() > 0 {
        assert((a + b).drop_last() =~= a + b.drop_last());
        lemma_sum_concat(a, b.drop_last());
    } else {
        assert(a + b =~= a);
    }
}

pub proof fn lemma_sum_prepend(x: usize, s: Seq<usize>)
    ensures
        seq_sum(seq![x] + s) == x + seq_sum(s),
{
    lemma_sum_concat(seq![x], s);
    assert(seq![x].drop_last() =~= Seq::<usize>::empty());
    assert(seq_sum(Seq::<usize>::empty()) == 0);
    assert(seq_sum(seq![x]) == x);
}

/// The first slot of an assignment of `blanks` blanks gets at most `blanks`.
proof fn lemma_first_gap_bounded(t: Seq<usize>, first: int, last: int, blanks: int)
    requires
        gaps_from(t, first, last, blanks),
        first <= last,
    ensures
        t[0] <= blanks,
{
    let t2 = t.drop_first();
    assert(t =~= seq![t[0]] + t2);
    lemma_sum_prepend(t[0], t2);
    lemma_sum_nonneg(t2);
}

/// Appends to `results` exactly the assignments of `blanks` blanks to the gap
/// slots `slot..=last`, each prefixed by `base`.
fn make_candidates(
    blanks: usize,
    slot: usize,
    last: usize,
    base: Vec<usize>,
    results: &mut Vec<Vec<usize>>,
)
    requires
        slot <= last,
    ensures
        final(results)@.len() >= old(results)@.len(),
        forall|j: int| 0 <= j < old(results)@.len() ==> final(results)@[j] == old(results)@[j],
        forall|j: int|
            old(results)@.len() <= j < final(results)@.len() ==> extends_gaps(
                #[trigger] final(results)@[j]@,
                base@,
                slot as int,
                last as int,
                blanks as int,
            ),
        forall|t: Seq<usize>|
            #[trigger] gaps_from(t, slot as int, last as int, blanks as int) ==> exists|j: int|
                old(results)@.len() <= j < final(results)@.len() && #[trigger] final(results)@[j]@
                    == base@ + t,
        forall|j1: int, j2: int|
            old(results)@.len() <= j1 < j2 < final(results)@.len() ==> (
            #[trigger] final(results)@[j1])@ != (#[trigger] final(results)@[j2])@,
    decreases last - slot,
{
    let ghost start = results@.len();
    if slot == last {
        let mut next = base.clone();
        next.push(blanks);
        results.push(next);
        proof {
            let t = seq![blanks];
            lemma_sum_prepend(blanks, Seq::empty());
            assert(seq![blanks] + Seq::<usize>::empty() =~= t);
            assert(gaps_from(t, slot as int, last as int, blanks as int));
            assert(results@[start as int]@ =~= base@ + t);
            assert(extends_gaps(results@[start as int]@, base@, slot as int, last as int, blanks as int));
            assert forall|t2: Seq<usize>|
                #[trigger] gaps_from(t2, slot as int, last as int, blanks as int) implies exists|
                j: int,
            |
                start <= j < results@.len() && #[trigger] results@[j]@ == base@ + t2 by {
                lemma_sum_prepend(t2[0], Seq::empty());
                assert(seq![t2[0]] + Seq::<usize>::empty() =~= t2);
                assert(t2 =~= t);
                assert(results@[start as int]@ == base@ + t2);
            }
        }
        return ;
    }
    let min: usize = if slot == 0 {
        0
    } else {
        1
    };
    let mut i: usize = min;
    proof {
        assert forall|t: Seq<usize>|
            #[trigger] gaps_from(t, slot as int, last as int, blanks as int) implies t[0]
            <= blanks by {
            lemma_first_gap_bounded(t, slot as int, last as int, blanks as int);
        }
    }
    while i <= blanks
        invariant_except_break
            forall|j: int|
                start <= j < results@.len() ==> (#[trigger] results@[j])@.len() > base@.len()
                    && results@[j]@[base@.len() as int] < i,
        invariant
            forall|t: Seq<usize>|
                #[trigger] gaps_from(t, slot as int, last as int, blanks as int) ==> t[0] <= blanks,
            slot < last,
            min == slot_min(slot as int, last as int),
            min <= i,
            results@.len() >= start,
            forall|j: int| 0 <= j < start ==> results@[j] == old(results)@[j],
            start == old(results)@.len(),
            forall|j: int|
                start <= j < results@.len() ==> extends_gaps(
                    #[trigger] results@[j]@,
                    base@,
                    slot as int,
                    last as int,
                    blanks as int,
                ),
            forall|t: Seq<usize>|
                #[trigger] gaps_from(t, slot as int, last as int, blanks as int) && t[0] < i
                    ==> exists|j: int| start <= j < results@.len() && #[trigger] results@[j]@ == base@ + t,
            forall|j1: int, j2: int|
                start <= j1 < j2 < results@.len() ==> (#[trigger] results@[j1])@ != (
                #[trigger] results@[j2])@,
        ensures
            forall|j1: int, j2: int|
                start <= j1 < j2 < results@.len() ==> (#[trigger] results@[j1])@ != (
                #[trigger] results@[j2])@,
            results@.len() >= start,
            forall|j: int| 0 <= j < start ==> results@[j] == old(results)@[j],
            forall|j: int|
                start <= j < results@.len() ==> extends_gaps(
                    #[trigger] results@[j]@,
                    base@,
                    slot as int,
                    last as int,
                    blanks as int,
                ),
            forall|t: Seq<usize>|
                #[trigger] gaps_from(t, slot as int, last as int, blanks as int) ==> exists|j: int|
                    start <= j < results@.len() && #[trigger] results@[j]@ == base@ + t,
        decreases blanks - i,
    {
        let ghost mid = results@.len();
        let ghost prev = results@;
        let mut next = base.clone();
        next.push(i);
        make_candidates(blanks - i, slot + 1, last, next, results);
        proof {
            assert forall|j: int| mid <= j < results@.len() implies (#[trigger] results@[j])@.len()
                > base@.len() && results@[j]@[base@.len() as int] == i by {
                assert(extends_gaps(results@[j]@, next@, slot + 1, last as int, blanks - i));
                let t2 = choose|t2: Seq<usize>|
                    #[trigger] gaps_from(t2, slot + 1, last as int, blanks - i) && results@[j]@
                        == next@ + t2;
                assert((next@ + t2)[base@.len() as int] == next@[base@.len() as int]);
            }
            assert forall|j: int| start <= j < mid implies (#[trigger] results@[j])@.len()
                > base@.len() && results@[j]@[base@.len() as int] < i by {
                assert(results@[j] == prev[j]);
            }
            assert forall|j1: int, j2: int|
                start <= j1 < j2 < results@.len() implies (#[trigger] results@[j1])@ != (
                #[trigger] results@[j2])@ by {
                if j2 < mid {
                    assert(results@[j1] == prev[j1]);
                    assert(results@[j2] == prev[j2]);
                } else if j1 < mid {
                    assert(results@[j1] == prev[j1]);
                    assert(results@[j1]@[base@.len() as int] < i);
                    assert(results@[j2]@[base@.len() as int] == i);
                }
            }
            assert forall|j: int| start <= j < results@.len() implies extends_gaps(
                #[trigger] results@[j]@,
                base@,
                slot as int,
                last as int,
                blanks as int,
            ) by {
                if j >= mid {
                    let t2 = choose|t2: Seq<usize>|
                        #[trigger] gaps_from(t2, slot + 1, last as int, blanks - i)
                            && results@[j]@ == next@ + t2;
                    let t = seq![i] + t2;
                    lemma_sum_prepend(i, t2);
                    assert(gaps_from(t, slot as int, last as int, blanks as int));
                    assert(results@[j]@ =~= base@ + t);
                } else {
                    assert(results@[j] == prev[j]);
                }
            }
            assert forall|t: Seq<usize>|
                #[trigger] gaps_from(t, slot as int, last as int, blanks as int) && t[0] < i + 1
                    implies exists|j: int| start <= j < results@.len() && #[trigger] results@[j]@
                    == base@ + t by {
                if t[0] == i {
                    let t2 = t.drop_first();
                    assert(t =~= seq![i] + t2);
                    lemma_sum_prepend(i, t2);
                    assert(gaps_from(t2, slot + 1, last as int, blanks - i));
                    let j = choose|j: int|
                        mid <= j < results@.len() && #[trigger] results@[j]@ == next@ + t2;
                    assert(next@ + t2 =~= base@ + t);
                } else {
                    let j = choose|j: int| start <= j < mid && #[trigger] prev[j]@ == base@ + t;
                    assert(results@[j] == prev[j]);
                }
            }
        }
        if i == blanks {
            break ;
        }
        i = i + 1;
    }
}

/// A line laid out from gap and run lengths is as long as all of them together.
pub proof fn lemma_mask_len(g: Seq<usize>, r: Seq<usize>)
    requires
        g.len() == r.len() + 1,
    ensures
        mask_of(g, r).len() == seq_sum(g) + seq_sum(r),
{
    lemma_mask_prefix_len(g, r, r.len());
    assert(g.take(r.len() as int + 1) =~= g);
    assert(g.take(r.len() as int + 1).drop_last() =~= g.take(r.len() as int));
    assert(r.take(r.len() as int) =~= r);
}

proof fn lemma_mask_prefix_len(g: Seq<usize>, r: Seq<usize>, j: nat)
    requires
        j <= r.len(),
        g.len() == r.len() + 1,
    ensures
        mask_prefix(g, r, j).len() == seq_sum(g.take(j as int)) + seq_sum(r.take(j as int)),
    decreases j,
{
    if j > 0 {
        lemma_mask_prefix_len(g, r, (j - 1) as nat);
        assert(g.take(j as int).drop_last() =~= g.take(j - 1));
        assert(r.take(j as int).drop_last() =~= r.take(j - 1));
    } else {
        assert(g.take(0) =~= Seq::<usize>::empty());
        assert(r.take(0) =~= Seq::<usize>::empty());
    }
}

proof fn lemma_sum_ones(n: nat)
    ensures
        seq_sum(Seq::new(n, |i: int| 1usize)) == n,
    decreases n,
{
    if n > 0 {
        assert(Seq::new(n, |i: int| 1usize).drop_last() =~= Seq::new((n - 1) as nat, |i: int| 1usize));
        lemma_sum_ones((n - 1) as nat);
    }
}

/// With positive runs, a laid-out prefix followed by empty cells determines
/// its gaps and the number of those empty cells.
proof fn lemma_mask_prefix_injective(
    g1: Seq<usize>,
    g2: Seq<usize>,
    r: Seq<usize>,
    j: nat,
    a: nat,
    b: nat,
)
    requires
        g1.len() == r.len() + 1,
        g2.len() == r.len() + 1,
        j <= r.len(),
        forall|i: int| 0 <= i < j ==> r[i] > 0,
        mask_prefix(g1, r, j) + repeat(CellState::Empty, a) == mask_prefix(g2, r, j) + repeat(
            CellState::Empty,
            b,
        ),
    ensures
        a == b,
        forall|i: int| 0 <= i < j ==> g1[i] == g2[i],
    decreases j,
{
    let x1 = mask_prefix(g1, r, j);
    let x2 = mask_prefix(g2, r, j);
    let s1 = x1 + repeat(CellState::Empty, a);
    let s2 = x2 + repeat(CellState::Empty, b);
    if j == 0 {
        assert(s1.len() == a);
        assert(s2.len() == b);
    } else {
        let rl = r[j - 1] as nat;
        let q1 = mask_prefix(g1, r, (j - 1) as nat) + repeat(CellState::Empty, g1[j - 1] as nat);
        let q2 = mask_prefix(g2, r, (j - 1) as nat) + repeat(CellState::Empty, g2[j - 1] as nat);
        assert(x1 == q1 + repeat(CellState::Filled, rl));
        assert(x2 == q2 + repeat(CellState::Filled, rl));
        assert(x1[x1.len() - 1] == CellState::Filled);
        assert(x2[x2.len() - 1] == CellState::Filled);
        if a < b {
            assert(s1[x1.len() - 1] == CellState::Filled);
            assert(s1.len() == s2.len());
            assert(x1.len() - 1 >= x2.len());
            assert(s2[x1.len() - 1] == repeat(CellState::Empty, b)[x1.len() - 1 - x2.len()]);
            assert(s2[x1.len() - 1] == CellState::Empty);
        } else if b < a {
            assert(s2[x2.len() - 1] == CellState::Filled);
            assert(s1.len() == s2.len());
            assert(x2.len() - 1 >= x1.len());
            assert(s1[x2.len() - 1] == repeat(CellState::Empty, a)[x2.len() - 1 - x1.len()]);
            assert(s1[x2.len() - 1] == CellState::Empty);
        }
        assert(a == b);
        assert(s1.len() == s2.len());
        assert(x1.len() == x2.len());
        assert(x1 =~= s1.take(x1.len() as int));
        assert(x2 =~= s2.take(x2.len() as int));
        assert(x1 =~= x2);
        assert(q1 =~= x1.take(x1.len() - rl));
        assert(q2 =~= x2.take(x2.len() - rl));
        lemma_mask_prefix_injective(g1, g2, r, (j - 1) as nat, g1[j - 1] as nat, g2[j - 1] as nat);
    }
}

/// With positive runs, a line determines the gaps it was laid out from.
pub proof fn lemma_mask_injective(g1: Seq<usize>, g2: Seq<usize>, r: Seq<usize>)
    requires
        g1.len() == r.len() + 1,
        g2.len() == r.len() + 1,
        forall|i: int| 0 <= i < r.len() ==> r[i] > 0,
        mask_of(g1, r) == mask_of(g2, r),
    ensures
        g1 == g2,
{
    let k = r.len();
    lemma_mask_prefix_injective(g1, g2, r, k, g1[k as int] as nat, g2[k as int] as nat);
    assert(g1 =~= g2);
}

/// Runs that fit in a line with their separators have a legal placement.
pub proof fn lemma_gaps_exist(runs: Seq<usize>, capacity: int)
    requires
        min_len(runs) <= capacity <= usize::MAX,
    ensures
        exists|g: Seq<usize>| valid_gaps(g, runs, capacity),
{
    let k = runs.len();
    lemma_sum_nonneg(runs);
    let blanks = capacity - seq_sum(runs);
    if k == 0 {
        let g = seq![blanks as usize];
        lemma_sum_prepend(blanks as usize, Seq::empty());
        assert(seq![blanks as usize] + Seq::<usize>::empty() =~= g);
        assert(valid_gaps(g, runs, capacity));
    } else {
        let ones = Seq::new((k - 1) as nat, |i: int| 1usize);
        let g = seq![0usize] + ones + seq![(blanks - (k - 1)) as usize];
        lemma_sum_ones((k - 1) as nat);
        lemma_sum_prepend(0usize, ones);
        lemma_sum_concat(seq![0usize] + ones, seq![(blanks - (k - 1)) as usize]);
        lemma_sum_prepend((blanks - (k - 1)) as usize, Seq::empty());
        assert(seq![(blanks - (k - 1)) as usize] + Seq::<usize>::empty() =~= seq![(blanks - (k - 1)) as usize]);
        assert(forall|j: int| 0 <= j < g.len() ==> g[j] >= slot_min(j, k as int));
        assert(valid_gaps(g, runs, capacity));
    }
}

/// Lays out gap lengths `empty` and run lengths `filled` as one line:
/// `empty[0]` empty cells, `filled[0]` filled cells, ..., `empty[k]` empty cells.
pub fn into_mask(empty: &Vec<usize>, filled: &Constraint) -> (r: CandidateMask)
    requires
        empty@.len() == filled@.len() + 1,
    ensures
        r@ == mask_of(empty@, filled@),
{
    let mut ret: CandidateMask = Vec::new();
    let mut j: usize = 0;
    while j < filled.len()
        invariant
            empty@.len() == filled@.len() + 1,
            j <= filled@.len(),
            ret@ == mask_prefix(empty@, filled@, j as nat),
        decreases filled@.len() - j,
    {
        push_run(&mut ret, CellState::Empty, empty[j]);
        push_run(&mut ret, CellState::Filled, filled[j]);
        j = j + 1;
    }
    push_run(&mut ret, CellState::Empty, empty[j]);
    ret
}

/// Appends `n` copies of `c`.
fn push_run(v: &mut Vec<CellState>, c: CellState, n: usize)
    ensures
        final(v)@ == old(v)@ + repeat(c, n as nat),
{
    let mut i: usize = 0;
    while i < n
        invariant
            i <= n,
            v@ == old(v)@ + repeat(c, i as nat),
        decreases n - i,
    {
        v.push(c);
        i = i + 1;
        assert(v@ =~= old(v)@ + repeat(c, i as nat));
    }
}

/// Why a line's candidates could not be generated.
#[derive(Copy, Clone, Debug, PartialEq, Eq, Structural)]
pub enum GenerateError {
    /// The runs with their separating blanks are longer than the line.
    InfeasibleConstraint,
}

/// The legal placements of `constraint` in a line of `capacity` cells, one
/// for each assignment of blanks to the gaps; `InfeasibleConstraint` when
/// the runs and the blanks between them do not fit.
pub fn candidates(constraint: &Constraint, capacity: usize) -> (r: Result<
    CandidateMaskSet,
    GenerateError,
>)
    ensures
        r.is_err() <==> min_len(constraint@) > capacity,
        r.is_ok() ==> r.unwrap()@.len() > 0,
        r.is_ok() ==> forall|i: int|
            0 <= i < r.unwrap()@.len() ==> (#[trigger] r.unwrap()@[i])@.len() == capacity,
        r.is_ok() ==> forall|i: int|
            0 <= i < r.unwrap()@.len() ==> is_placement(
                (#[trigger] r.unwrap()@[i])@,
                constraint@,
                capacity as int,
            ),
        r.is_ok() ==> covers_all(r.unwrap()@, constraint@, capacity as int),
        r.is_ok() && (forall|i: int| 0 <= i < constraint@.len() ==> #[trigger] constraint@[i] > 0)
            ==> masks(r.unwrap()@).no_duplicates(),
{
    let k = constraint.len();
    let mut occ: usize = 0;
    let mut i: usize = 0;
    while i < k
        invariant
            k == constraint@.len(),
            i <= k,
            occ == seq_sum(constraint@.take(i as int)),
            occ <= capacity,
        decreases k - i,
    {
        assert(constraint@.take(i + 1).drop_last() =~= constraint@.take(i as int));
        if constraint[i] > capacity - occ {
            proof {
                let s = constraint@;
                assert(s =~= s.take(i + 1) + s.skip(i + 1));
                lemma_sum_concat(s.take(i + 1), s.skip(i + 1));
                lemma_sum_nonneg(s.skip(i + 1));
            }
            return Err(GenerateError::InfeasibleConstraint);
        }
        occ = occ + constraint[i];
        i = i + 1;
    }
    assert(constraint@.take(k as int) =~= constraint@);
    if k > 0 && k - 1 > capacity - occ {
        return Err(GenerateError::InfeasibleConstraint);
    }
    let blanks: usize = capacity - occ;
    let mut gaps: Vec<Vec<usize>> = Vec::new();
    make_candidates(blanks, 0, k, Vec::new(), &mut gaps);
    let mut ret: CandidateMaskSet = Vec::new();
    let mut j: usize = 0;
    while j < gaps.len()
        invariant
            k == constraint@.len(),
            occ == seq_sum(constraint@),
            blanks == capacity - occ,
            j <= gaps@.len(),
            ret@.len() == j,
            forall|a: int| 0 <= a < gaps@.len() ==> extends_gaps(
                #[trigger] gaps@[a]@,
                Seq::empty(),
                0,
                k as int,
                blanks as int,
            ),
            forall|a: int| 0 <= a < j ==> (#[trigger] ret@[a])@ == mask_of(gaps@[a]@, constraint@),
            forall|a: int, b: int|
                0 <= a < b < gaps@.len() ==> (#[trigger] gaps@[a])@ != (#[trigger] gaps@[b])@,
        decreases gaps@.len() - j,
    {
        proof {
            assert(extends_gaps(gaps@[j as int]@, Seq::empty(), 0, k as int, blanks as int));
            let t = choose|t: Seq<usize>|
                #[trigger] gaps_from(t, 0, k as int, blanks as int) && gaps@[j as int]@
                    == Seq::<usize>::empty() + t;
            assert(Seq::<usize>::empty() + t =~= t);
        }
        let m = into_mask(&gaps[j], constraint);
        ret.push(m);
        j = j + 1;
    }
    proof {
        assert forall|a: int| 0 <= a < ret@.len() implies (#[trigger] ret@[a])@.len() == capacity
            && is_placement(ret@[a]@, constraint@, capacity as int) by {
            assert(extends_gaps(gaps@[a]@, Seq::empty(), 0, k as int, blanks as int));
            let t = choose|t: Seq<usize>|
                #[trigger] gaps_from(t, 0, k as int, blanks as int) && gaps@[a]@
                    == Seq::<usize>::empty() + t;
            assert(Seq::<usize>::empty() + t =~= t);
            lemma_mask_len(t, constraint@);
            assert(valid_gaps(t, constraint@, capacity as int));
        }
        assert forall|g: Seq<usize>|
            #[trigger] valid_gaps(g, constraint@, capacity as int) implies exists|i: int|
                0 <= i < ret@.len() && (#[trigger] ret@[i])@ == mask_of(g, constraint@) by {
            assert(gaps_from(g, 0, k as int, blanks as int));
            let a = choose|a: int|
                0 <= a < gaps@.len() && #[trigger] gaps@[a]@ == Seq::<usize>::empty() + g;
            assert(Seq::<usize>::empty() + g =~= g);
            assert(ret@[a]@ == mask_of(g, constraint@));
        }
        lemma_gaps_exist(constraint@, capacity as int);
        let g = choose|g: Seq<usize>| valid_gaps(g, constraint@, capacity as int);
        assert(valid_gaps(g, constraint@, capacity as int));
        let i = choose|i: int| 0 <= i < ret@.len() && (#[trigger] ret@[i])@ == mask_of(g, constraint@);
        assert(ret@.len() > 0);
        assert(forall|i: int| 0 <= i < ret@.len() ==> (#[trigger] ret@[i])@.len() == capacity);
        assert(forall|i: int|
                0 <= i < ret@.len() ==> is_placement((#[trigger] ret@[i])@, constraint@, capacity as int));
        assert(min_len(constraint@) <= capacity);
        assert(covers_all(ret@, constraint@, capacity as int));
        if forall|i: int| 0 <= i < constraint@.len() ==> #[trigger] constraint@[i] > 0 {
            assert forall|a: int, b: int|
                0 <= a < masks(ret@).len() && 0 <= b < masks(ret@).len() && a != b implies masks(
                ret@,
            )[a] != masks(ret@)[b] by {
                assert(extends_gaps(gaps@[a]@, Seq::empty(), 0, k as int, blanks as int));
                assert(extends_gaps(gaps@[b]@, Seq::empty(), 0, k as int, blanks as int));
                let ta = choose|t: Seq<usize>|
                    #[trigger] gaps_from(t, 0, k as int, blanks as int) && gaps@[a]@
                        == Seq::<usize>::empty() + t;
                let tb = choose|t: Seq<usize>|
                    #[trigger] gaps_from(t, 0, k as int, blanks as int) && gaps@[b]@
                        == Seq::<usize>::empty() + t;
                assert(Seq::<usize>::empty() + ta =~= ta);
                assert(Seq::<usize>::empty() + tb =~= tb);
                if masks(ret@)[a] == masks(ret@)[b] {
                    lemma_mask_injective(gaps@[a]@, gaps@[b]@, constraint@);
                    if a < b {
                        assert(gaps@[a]@ != gaps@[b]@);
                    } else {
                        assert(gaps@[b]@ != gaps@[a]@);
                    }
                }
            }
        }
    }
    Ok(ret)
}

/// The candidates as plain sequences of cells.
pub open spec fn masks(s: Seq<CandidateMask>) -> Seq<Seq<CellState>> {
    s.map_values(|m: CandidateMask| m@)
}

/// Position `p` of the consensus of the first `n` candidates: their common
/// value there, or `Undecided` where two of them differ.
pub open spec fn consensus_cell(ms: Seq<Seq<CellState>>, n: int, p: int) -> CellState {
    if forall|j: int| 0 <= j < n ==> (#[trigger] ms[j])[p] == ms[0][p] {
        ms[0][p]
    } else {
        CellState::Undecided
    }
}

/// The consensus of a non-empty set of equally long candidates.
pub open spec fn consensus_spec(ms: Seq<Seq<CellState>>) -> Seq<CellState> {
    Seq::new(ms[0].len(), |p: int| consensus_cell(ms, ms.len() as int, p))
}

/// The grid's known cells `known` admit the candidate `cand` at every position.
pub open spec fn fits(known: Seq<CellState>, cand: Seq<CellState>) -> bool {
    &&& known.len() == cand.len()
    &&& forall|p: int| 0 <= p < known.len() ==> accepts_spec(known[p], cand[p])
}

/// The candidates that the known cells admit, in their order.
pub open spec fn filter_spec(ms: Seq<Seq<CellState>>, known: Seq<CellState>) -> Seq<Seq<CellState>> {
    ms.filter(|m: Seq<CellState>| fits(known, m))
}

/// The common part of a non-empty set of equally long candidates: at each
/// position, the value that all of them hold, or `Undecided`.
pub fn find_consensus(cands: &CandidateMaskSet) -> (r: CandidateMask)
    requires
        cands@.len() > 0,
        forall|j: int| 0 <= j < cands@.len() ==> (#[trigger] cands@[j])@.len() == cands@[0]@.len(),
    ensures
        r@ == consensus_spec(masks(cands@)),
{
    let ghost ms = masks(cands@);
    let first = &cands[0];
    let n = first.len();
    let mut ret: CandidateMask = Vec::with_capacity(n);
    let mut p: usize = 0;
    while p < n
        invariant
            n == first@.len(),
            first == cands@[0],
            ms == masks(cands@),
            cands@.len() > 0,
            p <= n,
            ret@.len() == p,
            forall|q: int| 0 <= q < p ==> ret@[q] == consensus_cell(ms, 1, q),
        decreases n - p,
    {
        ret.push(first[p]);
        p = p + 1;
    }
    let mut j: usize = 1;
    while j < cands.len()
        invariant
            ms == masks(cands@),
            cands@.len() > 0,
            forall|j: int| 0 <= j < cands@.len() ==> (#[trigger] cands@[j])@.len() == n,
            n == cands@[0]@.len(),
            1 <= j <= cands@.len(),
            ret@.len() == n,
            forall|q: int| 0 <= q < n ==> ret@[q] == consensus_cell(ms, j as int, q),
        decreases cands@.len() - j,
    {
        let cand = &cands[j];
        let mut q: usize = 0;
        while q < n
            invariant
                ms == masks(cands@),
                cands@.len() > 0,
                cand == cands@[j as int],
                cand@.len() == n,
                n == cands@[0]@.len(),
                1 <= j < cands@.len(),
                q <= n,
                ret@.len() == n,
                forall|k: int| 0 <= k < q ==> ret@[k] == consensus_cell(ms, j + 1, k),
                forall|k: int| q <= k < n ==> ret@[k] == consensus_cell(ms, j as int, k),
            decreases n - q,
        {
            let c = ret[q].consensus_eq(&cand[q]);
            proof {
                let k = q as int;
                assert(ms[j as int] == cand@);
                if forall|i: int| 0 <= i < j ==> (#[trigger] ms[i])[k] == ms[0][k] {
                    if cand@[k] != ms[0][k] {
                        assert(!(forall|i: int| 0 <= i < j + 1 ==> (#[trigger] ms[i])[k] == ms[0][k]));
                    } else {
                        assert(forall|i: int| 0 <= i < j + 1 ==> (#[trigger] ms[i])[k] == ms[0][k]);
                    }
                } else {
                    let w = choose|i: int| 0 <= i < j && (#[trigger] ms[i])[k] != ms[0][k];
                    assert(!(forall|i: int| 0 <= i < j + 1 ==> (#[trigger] ms[i])[k] == ms[0][k]));
                }
            }
            ret.set(q, c);
            q = q + 1;
        }
        j = j + 1;
    }
    proof {
        assert(ret@ =~= consensus_spec(ms));
    }
    ret
}

/// The consensus combinator does not depend on the order of its arguments.
pub proof fn lemma_meet_commutative(a: CellState, b: CellState)
    ensures
        meet(a, b) == meet(b, a),
{
}

/// The consensus combinator does not depend on how a fold groups its steps.
pub proof fn lemma_meet_associative(a: CellState, b: CellState, c: CellState)
    ensures
        meet(meet(a, b), c) == meet(a, meet(b, c)),
{
}

/// `k2` knows at least what `k1` knows: each cell determined in `k1` holds
/// the same value in `k2`.
pub open spec fn refines(k2: Seq<CellState>, k1: Seq<CellState>) -> bool {
    &&& k2.len() == k1.len()
    &&& forall|p: int| 0 <= p < k1.len() && k1[p] != CellState::Undecided ==> k2[p] == k1[p]
}

/// Filtering with more determined known cells keeps a subset: filtering by
/// `k2` is the same as filtering by `k1` and then by `k2`, so each candidate
/// that survives `k2` survives `k1`, and no more of them survive.
pub proof fn lemma_filter_monotone(ms: Seq<Seq<CellState>>, k1: Seq<CellState>, k2: Seq<CellState>)
    requires
        refines(k2, k1),
    ensures
        filter_spec(ms, k2) == filter_spec(filter_spec(ms, k1), k2),
        filter_spec(ms, k2).len() <= filter_spec(ms, k1).len(),
        forall|m: Seq<CellState>|
            #[trigger] filter_spec(ms, k2).contains(m) ==> filter_spec(ms, k1).contains(m),
    decreases ms.len(),
{
    let p1 = |m: Seq<CellState>| fits(k1, m);
    let p2 = |m: Seq<CellState>| fits(k2, m);
    reveal(Seq::filter);
    if ms.len() > 0 {
        let rest = ms.drop_last();
        let x = ms.last();
        lemma_filter_monotone(rest, k1, k2);
        if fits(k2, x) {
            assert forall|p: int| 0 <= p < k1.len() implies accepts_spec(k1[p], x[p]) by {
                assert(accepts_spec(k2[p], x[p]));
            }
            assert(filter_spec(ms, k1) == filter_spec(rest, k1).push(x));
            assert(filter_spec(rest, k1).push(x).drop_last() =~= filter_spec(rest, k1));
        } else if fits(k1, x) {
            assert(filter_spec(ms, k1) == filter_spec(rest, k1).push(x));
            assert(filter_spec(rest, k1).push(x).drop_last() =~= filter_spec(rest, k1));
        }
    }
    filter_spec(ms, k1).lemma_filter_len(p2);
    assert forall|m: Seq<CellState>| #[trigger] filter_spec(ms, k2).contains(m) implies filter_spec(
        ms,
        k1,
    ).contains(m) by {
        filter_spec(ms, k1).lemma_filter_contains_rev(p2, m);
    }
}

/// Whether the candidate `cand` agrees with every known cell of `grid`.
fn can_place(grid: &[CellState], cand: &[CellState]) -> (r: bool)
    ensures
        r == fits(grid@, cand@),
{
    if grid.len() != cand.len() {
        return false;
    }
    let mut p: usize = 0;
    while p < grid.len()
        invariant
            grid@.len() == cand@.len(),
            p <= grid@.len(),
            forall|q: int| 0 <= q < p ==> accepts_spec(grid@[q], cand@[q]),
        decreases grid@.len() - p,
    {
        if !grid[p].accepts(&cand[p]) {
            return false;
        }
        p = p + 1;
    }
    true
}

/// A fresh copy of a line.
fn copy_mask(m: &[CellState]) -> (r: CandidateMask)
    ensures
        r@ == m@,
{
    let mut ret: CandidateMask = Vec::with_capacity(m.len());
    let mut p: usize = 0;
    while p < m.len()
        invariant
            p <= m@.len(),
            ret@ == m@.subrange(0, p as int),
        decreases m@.len() - p,
    {
        ret.push(m[p]);
        p = p + 1;
        assert(ret@ =~= m@.subrange(0, p as int));
    }
    assert(ret@ =~= m@);
    ret
}

/// The candidates that agree with the known cells of the line, in order.
pub fn filter_candidates(cands: &CandidateMaskSet, known: &[CellState]) -> (r: CandidateMaskSet)
    ensures
        masks(r@) == filter_spec(masks(cands@), known@),
{
    let ghost ms = masks(cands@);
    let mut ret: CandidateMaskSet = Vec::new();
    let mut i: usize = 0;
    while i < cands.len()
        invariant
            ms == masks(cands@),
            i <= cands@.len(),
            masks(ret@) == filter_spec(ms.take(i as int), known@),
        decreases cands@.len() - i,
    {
        proof {
            reveal(Seq::filter);
            assert(ms.take(i + 1).drop_last() =~= ms.take(i as int));
            assert(ms.take(i + 1).last() == cands@[i as int]@);
        }
        if can_place(known, cands[i].as_slice()) {
            let m = copy_mask(cands[i].as_slice());
            let ghost before = ret@;
            ret.push(m);
            assert(masks(ret@) =~= masks(before).push(m@));
        }
        i = i + 1;
    }
    assert(ms.take(cands@.len() as int) =~= ms);
    ret
}

/// A row or a column of the grid, by index.
#[derive(Copy, Clone, Debug, PartialEq, Eq, Structural)]
pub enum Line {
    Row(usize),
    Col(usize),
}

/// Which rule a contradiction breaks.
#[derive(Copy, Clone, Debug, PartialEq, Eq, Structural)]
pub enum Violation {
    /// The line's consensus disagrees with a determined cell.
    ConsensusConflict,
    /// No candidate of the line agrees with the grid's known cells.
    NoCandidateLeft,
}

/// How solving ended.
#[derive(Copy, Clone, Debug, PartialEq, Eq, Structural)]
pub enum Outcome {
    /// Every cell is determined.
    Solved,
    /// No further line-local deduction is possible, and some cell is undecided.
    StuckUndetermined,
    /// The line breaks the rule named: the puzzle has no solution.
    Contradiction(Line, Violation),
    /// The line's runs do not fit in it at all.
    Infeasible(Line),
}

/// The cells `s` fill a `width` by `height` grid and meet every row and
/// column constraint.
pub open spec fn is_solution(
    rows: Seq<Constraint>,
    cols: Seq<Constraint>,
    width: nat,
    height: nat,
    s: Seq<CellState>,
) -> bool {
    &&& s.len() == width * height
    &&& forall|y: int|
        0 <= y < height ==> is_placement(#[trigger] row_of(s, width, y), rows[y]@, width as int)
    &&& forall|x: int|
        0 <= x < width ==> is_placement(
            #[trigger] col_of(s, width, height, x),
            cols[x]@,
            height as int,
        )
}

/// Every determined cell of `cells` holds the value that `s` has there.
pub open spec fn agrees(cells: Seq<CellState>, s: Seq<CellState>) -> bool {
    forall|i: int|
        0 <= i < cells.len() && #[trigger] cells[i] != CellState::Undecided ==> cells[i] == s[i]
}

/// Number of undecided cells.
pub open spec fn count_undecided(cells: Seq<CellState>) -> int
    decreases cells.len(),
{
    if cells.len() == 0 {
        0
    } else {
        count_undecided(cells.drop_last()) + if cells.last() == CellState::Undecided {
            1int
        } else {
            0
        }
    }
}

/// Number of candidates over all lines.
pub open spec fn total_len(sets: Seq<CandidateMaskSet>) -> int
    decreases sets.len(),
{
    if sets.len() == 0 {
        0
    } else {
        total_len(sets.drop_last()) + sets.last()@.len()
    }
}

/// Each set of `sets` is a non-empty set of placements of the matching
/// constraint of `cons` in `cap` cells.
pub open spec fn sets_ok(sets: Seq<CandidateMaskSet>, cons: Seq<Constraint>, cap: nat) -> bool {
    &&& sets.len() == cons.len()
    &&& forall|i: int| 0 <= i < sets.len() ==> (#[trigger] sets[i])@.len() > 0
    &&& forall|i: int, j: int|
        0 <= i < sets.len() && 0 <= j < sets[i]@.len() ==> (#[trigger] sets[i]@[j])@.len() == cap
            && is_placement(sets[i]@[j]@, cons[i]@, cap as int)
}

/// Every row and column of every solution is still among the candidates.
pub open spec fn keeps_solutions(
    row_sets: Seq<CandidateMaskSet>,
    col_sets: Seq<CandidateMaskSet>,
    rows: Seq<Constraint>,
    cols: Seq<Constraint>,
    width: nat,
    height: nat,
) -> bool {
    forall|s: Seq<CellState>|
        #[trigger] is_solution(rows, cols, width, height, s) ==> {
            &&& forall|y: int|
                0 <= y < height ==> masks(row_sets[y]@).contains(#[trigger] row_of(s, width, y))
            &&& forall|x: int|
                0 <= x < width ==> masks(col_sets[x]@).contains(
                    #[trigger] col_of(s, width, height, x),
                )
        }
}

/// Every candidate of every row admits the grid's row, and the same for columns.
pub open spec fn all_fit(
    row_sets: Seq<CandidateMaskSet>,
    col_sets: Seq<CandidateMaskSet>,
    cells: Seq<CellState>,
    width: nat,
    height: nat,
) -> bool {
    &&& forall|y: int, j: int|
        0 <= y < row_sets.len() && 0 <= j < row_sets[y]@.len() ==> fits(
            row_of(cells, width, y),
            (#[trigger] row_sets[y]@[j])@,
        )
    &&& forall|x: int, j: int|
        0 <= x < col_sets.len() && 0 <= j < col_sets[x]@.len() ==> fits(
            col_of(cells, width, height, x),
            (#[trigger] col_sets[x]@[j])@,
        )
}

/// The cell in column `x` and row `y` of a `width`-wide row-major grid.
pub open spec fn cell_at(cells: Seq<CellState>, width: nat, x: int, y: int) -> CellState {
    cells[y * width + x]
}

/// Two cells of a `width`-wide grid have the same position only if they are
/// the same cell.
proof fn lemma_index_injective(width: nat, x1: int, y1: int, x2: int, y2: int)
    requires
        0 <= x1 < width,
        0 <= x2 < width,
        0 <= y1,
        0 <= y2,
        y1 * width + x1 == y2 * width + x2,
    ensures
        x1 == x2,
        y1 == y2,
{
    if y1 < y2 {
        assert(y1 * width + width <= y2 * width) by (nonlinear_arith)
            requires
                y1 < y2,
                width >= 0,
        ;
    } else if y2 < y1 {
        assert(y2 * width + width <= y1 * width) by (nonlinear_arith)
            requires
                y2 < y1,
                width >= 0,
        ;
    }
}

/// Two cell states do not contradict each other: one carries no information
/// or both are the same.
pub open spec fn compatible(a: CellState, b: CellState) -> bool {
    a == CellState::Undecided || b == CellState::Undecided || a == b
}

/// At the cell in column `x` and row `y`, two of the grid's value, the row's
/// consensus and the column's consensus are determined and differ.
pub open spec fn cell_conflict(
    row_sets: Seq<CandidateMaskSet>,
    col_sets: Seq<CandidateMaskSet>,
    cells: Seq<CellState>,
    width: nat,
    x: int,
    y: int,
) -> bool {
    let o = cell_at(cells, width, x, y);
    let r = consensus_spec(masks(row_sets[y]@))[x];
    let c = consensus_spec(masks(col_sets[x]@))[y];
    !compatible(o, r) || !compatible(o, c) || !compatible(r, c)
}

/// `f` holds every determined cell of `o` unchanged.
pub open spec fn keeps_determined(o: Seq<CellState>, f: Seq<CellState>) -> bool {
    &&& f.len() == o.len()
    &&& forall|i: int| 0 <= i < o.len() && o[i] != CellState::Undecided ==> #[trigger] f[i] == o[i]
}

/// Each row's consensus, wherever it is determined, is the grid's cell there.
pub open spec fn rows_agree(sets: Seq<CandidateMaskSet>, cells: Seq<CellState>, width: nat) -> bool {
    forall|y: int, p: int|
        0 <= y < sets.len() && 0 <= p < width && #[trigger] consensus_spec(masks(sets[y]@))[p]
            != CellState::Undecided ==> consensus_spec(masks(sets[y]@))[p] == cells[y * width + p]
}

/// Each column's consensus, wherever it is determined, is the grid's cell there.
pub open spec fn cols_agree(sets: Seq<CandidateMaskSet>, cells: Seq<CellState>, width: nat, height: nat) -> bool {
    forall|x: int, p: int|
        0 <= x < sets.len() && 0 <= p < height && #[trigger] consensus_spec(masks(sets[x]@))[p]
            != CellState::Undecided ==> consensus_spec(masks(sets[x]@))[p] == cells[p * width + x]
}

/// Every placement of a row's constraint that the grid's row admits is
/// among that row's candidates.
pub open spec fn rows_complete(
    sets: Seq<CandidateMaskSet>,
    cons: Seq<Constraint>,
    cells: Seq<CellState>,
    width: nat,
) -> bool {
    forall|y: int, m: Seq<CellState>|
        0 <= y < sets.len() && is_placement(m, cons[y]@, width as int) && fits(
            row_of(cells, width, y),
            m,
        ) ==> #[trigger] masks(sets[y]@).contains(m)
}

/// Every placement of a column's constraint that the grid's column admits
/// is among that column's candidates.
pub open spec fn cols_complete(
    sets: Seq<CandidateMaskSet>,
    cons: Seq<Constraint>,
    cells: Seq<CellState>,
    width: nat,
    height: nat,
) -> bool {
    forall|x: int, m: Seq<CellState>|
        0 <= x < sets.len() && is_placement(m, cons[x]@, height as int) && fits(
            col_of(cells, width, height, x),
            m,
        ) ==> #[trigger] masks(sets[x]@).contains(m)
}

/// Row-major position of position `p` along `line` in a `width`-wide grid.
pub open spec fn line_index(line: Line, p: int, width: nat) -> int {
    match line {
        Line::Row(y) => y * width + p,
        Line::Col(x) => p * width + x,
    }
}

/// The cell in column `x` and row `y` lies on `line` at a position where `c`
/// is determined.
pub open spec fn on_line_set(line: Line, c: Seq<CellState>, x: int, y: int) -> bool {
    match line {
        Line::Row(r) => y == r && c[x] != CellState::Undecided,
        Line::Col(k) => x == k && c[y] != CellState::Undecided,
    }
}

/// `line` lies within a `width` by `height` grid.
pub open spec fn line_in(line: Line, width: nat, height: nat) -> bool {
    match line {
        Line::Row(y) => y < height,
        Line::Col(x) => x < width,
    }
}

/// Number of cells along `line`.
pub open spec fn line_len(line: Line, width: nat, height: nat) -> nat {
    match line {
        Line::Row(_) => width,
        Line::Col(_) => height,
    }
}

proof fn lemma_count_update(cells: Seq<CellState>, i: int, c: CellState)
    requires
        0 <= i < cells.len(),
    ensures
        count_undecided(cells.update(i, c)) == count_undecided(cells) - (if cells[i]
            == CellState::Undecided {
            1int
        } else {
            0
        }) + (if c == CellState::Undecided {
            1int
        } else {
            0
        }),
    decreases cells.len(),
{
    let u = cells.update(i, c);
    if i == cells.len() - 1 {
        assert(u.drop_last() =~= cells.drop_last());
    } else {
        assert(u.drop_last() =~= cells.drop_last().update(i, c));
        lemma_count_update(cells.drop_last(), i, c);
    }
}

proof fn lemma_count_nonneg(cells: Seq<CellState>)
    ensures
        count_undecided(cells) >= 0,
    decreases cells.len(),
{
    if cells.len() > 0 {
        lemma_count_nonneg(cells.drop_last());
    }
}

proof fn lemma_total_update(sets: Seq<CandidateMaskSet>, i: int, v: CandidateMaskSet)
    requires
        0 <= i < sets.len(),
    ensures
        total_len(sets.update(i, v)) == total_len(sets) - sets[i]@.len() + v@.len(),
    decreases sets.len(),
{
    let u = sets.update(i, v);
    if i == sets.len() - 1 {
        assert(u.drop_last() =~= sets.drop_last());
    } else {
        assert(u.drop_last() =~= sets.drop_last().update(i, v));
        lemma_total_update(sets.drop_last(), i, v);
    }
}

proof fn lemma_total_nonneg(sets: Seq<CandidateMaskSet>)
    ensures
        total_len(sets) >= 0,
    decreases sets.len(),
{
    if sets.len() > 0 {
        lemma_total_nonneg(sets.drop_last());
    }
}

/// A candidate of a set holds the consensus wherever it is determined.
pub proof fn lemma_consensus_member(ms: Seq<Seq<CellState>>, m: Seq<CellState>, p: int)
    requires
        ms.contains(m),
        0 <= p < ms[0].len(),
        consensus_cell(ms, ms.len() as int, p) != CellState::Undecided,
    ensures
        m[p] == consensus_cell(ms, ms.len() as int, p),
{
    let j = choose|j: int| 0 <= j < ms.len() && ms[j] == m;
    assert(ms[j][p] == ms[0][p]);
}

/// A set that holds every placement holds each given one.
proof fn lemma_covers_contains(ms: Seq<CandidateMask>, runs: Seq<usize>, cap: int, m: Seq<CellState>)
    requires
        covers_all(ms, runs, cap),
        is_placement(m, runs, cap),
    ensures
        masks(ms).contains(m),
{
    let g = choose|g: Seq<usize>| #[trigger] valid_gaps(g, runs, cap) && m == mask_of(g, runs);
    let i = choose|i: int| 0 <= i < ms.len() && (#[trigger] ms[i])@ == mask_of(g, runs);
    assert(masks(ms)[i] == m);
}

/// Writes the determined cells of `c` into `line` of the grid. Reports a
/// conflict where a determined cell differs, and whether an undecided cell
/// became determined.
fn write_line(nono: &mut Nonogram, line: Line, c: &CandidateMask) -> (r: (bool, bool))
    requires
        old(nono).wf(),
        line_in(line, old(nono).spec_width(), old(nono).spec_height()),
        c@.len() == line_len(line, old(nono).spec_width(), old(nono).spec_height()),
        forall|s: Seq<CellState>|
            #[trigger] is_solution(
                old(nono).rows@,
                old(nono).cols@,
                old(nono).spec_width(),
                old(nono).spec_height(),
                s,
            ) ==> agrees(old(nono).cells@, s) && forall|p: int|
                0 <= p < c@.len() && c@[p] != CellState::Undecided ==> #[trigger] s[line_index(
                    line,
                    p,
                    old(nono).spec_width(),
                )] == c@[p],
    ensures
        final(nono).wf(),
        final(nono).width == old(nono).width,
        final(nono).height == old(nono).height,
        final(nono).rows == old(nono).rows,
        final(nono).cols == old(nono).cols,
        keeps_determined(old(nono).cells@, final(nono).cells@),
        !r.1 ==> final(nono).cells@ == old(nono).cells@,
        forall|x: int, y: int|
            0 <= x < old(nono).spec_width() && 0 <= y < old(nono).spec_height() && !on_line_set(
                line,
                c@,
                x,
                y,
            ) ==> #[trigger] cell_at(final(nono).cells@, old(nono).spec_width(), x, y) == cell_at(
                old(nono).cells@,
                old(nono).spec_width(),
                x,
                y,
            ),
        r.0 ==> exists|p: int|
            0 <= p < c@.len() && c@[p] != CellState::Undecided && #[trigger] old(nono).cells@[line_index(
                line,
                p,
                old(nono).spec_width(),
            )] != CellState::Undecided && old(nono).cells@[line_index(
                line,
                p,
                old(nono).spec_width(),
            )] != c@[p] && final(nono).cells@[line_index(line, p, old(nono).spec_width())]
                == old(nono).cells@[line_index(line, p, old(nono).spec_width())],
        !r.0 ==> forall|p: int|
            0 <= p < c@.len() && c@[p] != CellState::Undecided ==> final(nono).cells@[line_index(
                line,
                p,
                old(nono).spec_width(),
            )] == #[trigger] c@[p],
        count_undecided(final(nono).cells@) <= count_undecided(old(nono).cells@),
        r.1 ==> count_undecided(final(nono).cells@) < count_undecided(old(nono).cells@),
        !r.0 ==> forall|s: Seq<CellState>|
            #[trigger] is_solution(
                old(nono).rows@,
                old(nono).cols@,
                old(nono).spec_width(),
                old(nono).spec_height(),
                s,
            ) ==> agrees(final(nono).cells@, s),
        r.0 ==> forall|s: Seq<CellState>|
            !#[trigger] is_solution(
                old(nono).rows@,
                old(nono).cols@,
                old(nono).spec_width(),
                old(nono).spec_height(),
                s,
            ),
{
    let ghost w = nono.spec_width();
    let ghost h = nono.spec_height();
    let ghost rows = nono.rows@;
    let ghost cols = nono.cols@;
    let mut progress = false;
    let mut p: usize = 0;
    assert forall|q: int| 0 <= q < c@.len() implies 0 <= #[trigger] line_index(line, q, w)
        < nono.cells@.len() by {
        match line {
            Line::Row(y) => lemma_cell_index(w, h, q as nat, y as nat),
            Line::Col(x) => lemma_cell_index(w, h, x as nat, q as nat),
        }
    }
    while p < c.len()
        invariant
            nono.wf(),
            nono.width == old(nono).width,
            nono.height == old(nono).height,
            nono.rows == old(nono).rows,
            nono.cols == old(nono).cols,
            w == nono.spec_width(),
            h == nono.spec_height(),
            rows == nono.rows@,
            cols == nono.cols@,
            line_in(line, w, h),
            c@.len() == line_len(line, w, h),
            p <= c@.len(),
            keeps_determined(old(nono).cells@, nono.cells@),
            !progress ==> nono.cells@ == old(nono).cells@,
            forall|q: int|
                0 <= q < c@.len() ==> 0 <= #[trigger] line_index(line, q, w) < nono.cells@.len(),
            forall|q: int|
                p <= q < c@.len() ==> nono.cells@[#[trigger] line_index(line, q, w)]
                    == old(nono).cells@[line_index(line, q, w)],
            forall|x: int, y: int|
                0 <= x < w && 0 <= y < h && !on_line_set(line, c@, x, y) ==> #[trigger] cell_at(
                    nono.cells@,
                    w,
                    x,
                    y,
                ) == cell_at(old(nono).cells@, w, x, y),
            forall|q: int|
                0 <= q < p && c@[q] != CellState::Undecided ==> nono.cells@[line_index(line, q, w)]
                    == #[trigger] c@[q],
            count_undecided(nono.cells@) <= count_undecided(old(nono).cells@),
            progress ==> count_undecided(nono.cells@) < count_undecided(old(nono).cells@),
            forall|s: Seq<CellState>|
                #[trigger] is_solution(rows, cols, w, h, s) ==> agrees(nono.cells@, s) && forall|
                    q: int,
                |
                    0 <= q < c@.len() && c@[q] != CellState::Undecided ==> #[trigger] s[line_index(
                        line,
                        q,
                        w,
                    )] == c@[q],
        decreases c@.len() - p,
    {
        if c[p] != CellState::Undecided {
            let (x, y) = match line {
                Line::Row(y) => (p, y),
                Line::Col(x) => (x, p),
            };
            let cur = nono.get(x, y);
            let ghost i = nono.index_of(x as int, y as int);
            assert(i == line_index(line, p as int, w));
            proof {
                lemma_cell_index(w, h, x as nat, y as nat);
            }
            if cur == CellState::Undecided {
                let ghost before = nono.cells@;
                nono.set(x, y, c[p]);
                proof {
                    assert forall|x2: int, y2: int|
                        0 <= x2 < w && 0 <= y2 < h && !on_line_set(line, c@, x2, y2) implies
                        #[trigger] cell_at(nono.cells@, w, x2, y2) == cell_at(old(nono).cells@, w, x2, y2) by {
                        lemma_cell_index(w, h, x2 as nat, y2 as nat);
                        if y2 * w + x2 == i {
                            lemma_index_injective(w, x2, y2, x as int, y as int);
                        }
                        assert(cell_at(before, w, x2, y2) == cell_at(old(nono).cells@, w, x2, y2));
                    }
                    assert forall|q: int| p + 1 <= q < c@.len() implies nono.cells@[#[trigger] line_index(
                        line,
                        q,
                        w,
                    )] == old(nono).cells@[line_index(line, q, w)] by {
                        assert(before[line_index(line, q, w)] == old(nono).cells@[line_index(line, q, w)]);
                        match line {
                            Line::Row(yy) => {},
                            Line::Col(xx) => {
                                if line_index(line, q, w) == i {
                                    lemma_index_injective(w, xx as int, q, xx as int, p as int);
                                }
                            },
                        }
                    }
                    lemma_count_update(before, i, c@[p as int]);
                    assert forall|s: Seq<CellState>|
                        #[trigger] is_solution(rows, cols, w, h, s) implies agrees(
                            nono.cells@,
                            s,
                        ) by {
                        assert(s[line_index(line, p as int, w)] == c@[p as int]);
                        assert(agrees(before, s));
                    }
                }
                progress = true;
            } else if cur != c[p] {
                proof {
                    assert forall|s: Seq<CellState>|
                        !#[trigger] is_solution(rows, cols, w, h, s) by {
                        if is_solution(rows, cols, w, h, s) {
                            assert(s[line_index(line, p as int, w)] == c@[p as int]);
                            assert(agrees(nono.cells@, s));
                            assert(nono.cells@[i] == s[i]);
                        }
                    }
                }
                return (true, progress);
            }
        }
        p = p + 1;
    }
    (false, progress)
}

/// Whether some cell of the grid is undecided.
fn has_undecided(nono: &Nonogram) -> (r: bool)
    ensures
        r == exists|i: int| 0 <= i < nono.cells@.len() && nono.cells@[i] == CellState::Undecided,
{
    let mut i: usize = 0;
    while i < nono.cells.len()
        invariant
            i <= nono.cells@.len(),
            forall|j: int| 0 <= j < i ==> nono.cells@[j] != CellState::Undecided,
        decreases nono.cells@.len() - i,
    {
        if nono.cells[i] == CellState::Undecided {
            return true;
        }
        i = i + 1;
    }
    false
}

/// A filter that keeps as many elements as it is given keeps them all.
proof fn lemma_filter_full(ms: Seq<Seq<CellState>>, known: Seq<CellState>)
    requires
        filter_spec(ms, known).len() == ms.len(),
    ensures
        filter_spec(ms, known) == ms,
    decreases ms.len(),
{
    reveal(Seq::filter);
    let pred = |m: Seq<CellState>| fits(known, m);
    if ms.len() > 0 {
        ms.drop_last().lemma_filter_len(pred);
        if !fits(known, ms.last()) {
            assert(false);
        }
        lemma_filter_full(ms.drop_last(), known);
        assert(ms.drop_last().push(ms.last()) =~= ms);
    }
}

/// Replaces set `i` of `sets` by the candidates that `known` admits, unless
/// none is left: then `None` and nothing changes. `Some(shrank)` says
/// whether a candidate was dropped.
fn narrow(
    sets: &mut Vec<CandidateMaskSet>,
    i: usize,
    known: &[CellState],
    cons: Ghost<Seq<Constraint>>,
    cap: Ghost<nat>,
) -> (r: Option<bool>)
    requires
        0 <= i < old(sets)@.len(),
        sets_ok(old(sets)@, cons@, cap@),
        known@.len() == cap@,
    ensures
        sets_ok(final(sets)@, cons@, cap@),
        total_len(final(sets)@) <= total_len(old(sets)@),
        r == Some(true) ==> total_len(final(sets)@) < total_len(old(sets)@),
        r.is_none() ==> final(sets)@ == old(sets)@ && forall|m: Seq<CellState>|
            #[trigger] masks(old(sets)@[i as int]@).contains(m) ==> !fits(known@, m),
        r.is_some() ==> masks(final(sets)@[i as int]@) == filter_spec(
            masks(old(sets)@[i as int]@),
            known@,
        ),
        r == Some(false) ==> masks(final(sets)@[i as int]@) == masks(old(sets)@[i as int]@),
        r.is_none() ==> filter_spec(masks(old(sets)@[i as int]@), known@).len() == 0,
        r.is_some() ==> final(sets)@.len() == old(sets)@.len(),
        r.is_some() ==> forall|k: int|
            0 <= k < old(sets)@.len() && k != i ==> #[trigger] final(sets)@[k] == old(sets)@[k],
        r.is_some() ==> forall|m: Seq<CellState>|
            #[trigger] masks(final(sets)@[i as int]@).contains(m) <==> masks(
                old(sets)@[i as int]@,
            ).contains(m) && fits(known@, m),
{
    let ghost old_ms = masks(sets@[i as int]@);
    let ghost pred = |m: Seq<CellState>| fits(known@, m);
    let new = filter_candidates(&sets[i], known);
    proof {
        assert forall|m: Seq<CellState>| #[trigger]
            masks(new@).contains(m) <==> old_ms.contains(m) && fits(known@, m) by {
            if masks(new@).contains(m) {
                old_ms.lemma_filter_contains_rev(pred, m);
                let j = choose|j: int| 0 <= j < masks(new@).len() && masks(new@)[j] == m;
                old_ms.lemma_filter_pred(pred, j);
            }
            if old_ms.contains(m) && fits(known@, m) {
                let j = choose|j: int| 0 <= j < old_ms.len() && old_ms[j] == m;
                old_ms.lemma_filter_contains(pred, j);
            }
        }
        old_ms.lemma_filter_len(pred);
    }
    if new.len() == 0 {
        proof {
            assert forall|m: Seq<CellState>| #[trigger] old_ms.contains(m) implies !fits(
                known@,
                m,
            ) by {
                if fits(known@, m) {
                    assert(masks(new@).contains(m));
                }
            }
        }
        return None;
    }
    let shrank = new.len() < sets[i].len();
    proof {
        if !shrank {
            lemma_filter_full(old_ms, known@);
        }
        lemma_total_update(sets@, i as int, new);
        let s0 = sets@;
        assert forall|j: int| 0 <= j < new@.len() implies (#[trigger] new@[j])@.len() == cap@
            && is_placement(new@[j]@, cons@[i as int]@, cap@ as int) by {
            assert(masks(new@)[j] == new@[j]@);
            assert(masks(new@).contains(new@[j]@));
            let k = choose|k: int| 0 <= k < old_ms.len() && old_ms[k] == new@[j]@;
            assert(s0[i as int]@[k]@ == old_ms[k]);
        }
    }
    sets.set(i, new);
    proof {
        assert forall|a: int, j: int|
            0 <= a < sets@.len() && 0 <= j < sets@[a]@.len() implies (#[trigger] sets@[a]@[j])@.len()
            == cap@ && is_placement(sets@[a]@[j]@, cons@[a]@, cap@ as int) by {
            if a != i {
                assert(sets@[a] == old(sets)@[a]);
            }
        }
    }
    Some(shrank)
}

/// Candidate sets for every row and column of one puzzle, or the first line
/// whose runs do not fit.
pub struct Solver {
    pub rows: Vec<CandidateMaskSet>,
    pub cols: Vec<CandidateMaskSet>,
    pub infeasible: Option<Line>,
}

impl Solver {
    /// The candidate sets are sound for `n`: each set holds placements of its
    /// line's constraint, none is empty, and no solution has been lost.
    pub open spec fn inv(&self, n: &Nonogram) -> bool {
        self.infeasible.is_none() ==> {
            &&& sets_ok(self.rows@, n.rows@, n.spec_width())
            &&& sets_ok(self.cols@, n.cols@, n.spec_height())
            &&& keeps_solutions(
                self.rows@,
                self.cols@,
                n.rows@,
                n.cols@,
                n.spec_width(),
                n.spec_height(),
            )
        }
    }

    /// No line-local deduction is left for `n`: each line's candidates are
    /// exactly the placements of its constraint that the grid's line admits,
    /// and each line's consensus, wherever determined, is already in the grid.
    pub open spec fn at_fixpoint(&self, n: &Nonogram) -> bool {
        let w = n.spec_width();
        let h = n.spec_height();
        &&& forall|y: int, m: Seq<CellState>|
            0 <= y < h ==> (#[trigger] masks(self.rows@[y]@).contains(m) <==> is_placement(
                m,
                n.rows@[y]@,
                w as int,
            ) && fits(row_of(n.cells@, w, y), m))
        &&& forall|x: int, m: Seq<CellState>|
            0 <= x < w ==> (#[trigger] masks(self.cols@[x]@).contains(m) <==> is_placement(
                m,
                n.cols@[x]@,
                h as int,
            ) && fits(col_of(n.cells@, w, h, x), m))
        &&& rows_agree(self.rows@, n.cells@, w)
        &&& cols_agree(self.cols@, n.cells@, w, h)
    }

    /// Generates every row's and every column's candidates, rows first; stops
    /// at the first line whose runs do not fit and records it.
    pub fn new(from: &Nonogram) -> (r: Solver)
        requires
            from.wf(),
        ensures
            r.inv(from),
            r.infeasible.is_none() <==> (forall|y: int|
                0 <= y < from.spec_height() ==> min_len(#[trigger] from.rows@[y]@)
                    <= from.spec_width()) && (forall|x: int|
                0 <= x < from.spec_width() ==> min_len(#[trigger] from.cols@[x]@)
                    <= from.spec_height()),
            r.infeasible.is_none() ==> forall|y: int|
                0 <= y < from.spec_height() ==> covers_all(
                    (#[trigger] r.rows@[y])@,
                    from.rows@[y]@,
                    from.spec_width() as int,
                ),
            r.infeasible.is_none() ==> forall|x: int|
                0 <= x < from.spec_width() ==> covers_all(
                    (#[trigger] r.cols@[x])@,
                    from.cols@[x]@,
                    from.spec_height() as int,
                ),
            r.infeasible matches Some(Line::Row(y)) ==> y < from.spec_height() && min_len(
                from.rows@[y as int]@,
            ) > from.spec_width(),
            r.infeasible matches Some(Line::Col(x)) ==> x < from.spec_width() && min_len(
                from.cols@[x as int]@,
            ) > from.spec_height(),
    {
        let w = from.width();
        let h = from.height();
        let mut rows: Vec<CandidateMaskSet> = Vec::new();
        let mut y: usize = 0;
        while y < h
            invariant
                from.wf(),
                w == from.spec_width(),
                h == from.spec_height(),
                y <= h,
                rows@.len() == y,
                sets_ok(rows@, from.rows@.take(y as int), w as nat),
                forall|k: int| 0 <= k < y ==> covers_all((#[trigger] rows@[k])@, from.rows@[k]@, w as int),
                forall|k: int| 0 <= k < y ==> min_len(#[trigger] from.rows@[k]@) <= w,
            decreases h - y,
        {
            match candidates(&from.rows[y], w) {
                Ok(ms) => {
                    let ghost before = rows@;
                    rows.push(ms);
                    proof {
                        assert(from.rows@.take(y + 1) =~= from.rows@.take(y as int).push(from.rows@[y as int]));
                        assert forall|a: int, j: int|
                            0 <= a < rows@.len() && 0 <= j < rows@[a]@.len() implies (#[trigger] rows@[a]@[j])@.len()
                            == w && is_placement(rows@[a]@[j]@, from.rows@.take(y + 1)[a]@, w as int) by {
                            if a < y {
                                assert(rows@[a] == before[a]);
                            }
                        }
                    }
                },
                Err(_) => {
                    return Solver { rows, cols: Vec::new(), infeasible: Some(Line::Row(y)) };
                },
            }
            y = y + 1;
        }
        let mut cols: Vec<CandidateMaskSet> = Vec::new();
        let mut x: usize = 0;
        while x < w
            invariant
                from.wf(),
                w == from.spec_width(),
                h == from.spec_height(),
                x <= w,
                cols@.len() == x,
                sets_ok(cols@, from.cols@.take(x as int), h as nat),
                rows@.len() == h,
                forall|k: int| 0 <= k < h ==> covers_all((#[trigger] rows@[k])@, from.rows@[k]@, w as int),
                forall|k: int| 0 <= k < x ==> covers_all((#[trigger] cols@[k])@, from.cols@[k]@, h as int),
                forall|k: int| 0 <= k < x ==> min_len(#[trigger] from.cols@[k]@) <= h,
            decreases w - x,
        {
            match candidates(&from.cols[x], h) {
                Ok(ms) => {
                    let ghost before = cols@;
                    cols.push(ms);
                    proof {
                        assert(from.cols@.take(x + 1) =~= from.cols@.take(x as int).push(from.cols@[x as int]));
                        assert forall|a: int, j: int|
                            0 <= a < cols@.len() && 0 <= j < cols@[a]@.len() implies (#[trigger] cols@[a]@[j])@.len()
                            == h && is_placement(cols@[a]@[j]@, from.cols@.take(x + 1)[a]@, h as int) by {
                            if a < x {
                                assert(cols@[a] == before[a]);
                            }
                        }
                    }
                },
                Err(_) => {
                    return Solver { rows, cols, infeasible: Some(Line::Col(x)) };
                },
            }
            x = x + 1;
        }
        proof {
            assert(from.rows@.take(h as int) =~= from.rows@);
            assert(from.cols@.take(w as int) =~= from.cols@);
            assert forall|s: Seq<CellState>|
                #[trigger] is_solution(from.rows@, from.cols@, w as nat, h as nat, s) implies {
                    &&& forall|y: int|
                        0 <= y < h ==> masks(rows@[y]@).contains(#[trigger] row_of(s, w as nat, y))
                    &&& forall|x: int|
                        0 <= x < w ==> masks(cols@[x]@).contains(
                            #[trigger] col_of(s, w as nat, h as nat, x),
                        )
                } by {
                assert forall|y: int| 0 <= y < h implies masks(rows@[y]@).contains(
                    #[trigger] row_of(s, w as nat, y),
                ) by {
                    lemma_covers_contains(rows@[y]@, from.rows@[y]@, w as int, row_of(s, w as nat, y));
                }
                assert forall|x: int| 0 <= x < w implies masks(cols@[x]@).contains(
                    #[trigger] col_of(s, w as nat, h as nat, x),
                ) by {
                    lemma_covers_contains(cols@[x]@, from.cols@[x]@, h as int, col_of(s, w as nat, h as nat, x));
                }
            }
        }
        Solver { rows, cols, infeasible: None }
    }

    /// Writes each row's and then each column's consensus into the grid.
    /// Returns the first line whose consensus contradicts a determined cell,
    /// and whether an undecided cell became determined.
    fn consensus_step(&self, nono: &mut Nonogram) -> (r: (Option<Line>, bool))
        requires
            old(nono).wf(),
            self.infeasible.is_none(),
            self.inv(old(nono)),
            forall|s: Seq<CellState>|
                #[trigger] is_solution(
                    old(nono).rows@,
                    old(nono).cols@,
                    old(nono).spec_width(),
                    old(nono).spec_height(),
                    s,
                ) ==> agrees(old(nono).cells@, s),
        ensures
            final(nono).wf(),
            final(nono).width == old(nono).width,
            final(nono).height == old(nono).height,
            final(nono).rows == old(nono).rows,
            final(nono).cols == old(nono).cols,
            r.0.is_some() <==> exists|x: int, y: int|
                0 <= x < old(nono).spec_width() && 0 <= y < old(nono).spec_height()
                    && #[trigger] cell_conflict(
                    self.rows@,
                    self.cols@,
                    old(nono).cells@,
                    old(nono).spec_width(),
                    x,
                    y,
                ),
            r.0.is_some() ==> exists|x: int, y: int|
                0 <= x < old(nono).spec_width() && 0 <= y < old(nono).spec_height() && (!compatible(
                    #[trigger] cell_at(final(nono).cells@, old(nono).spec_width(), x, y),
                    consensus_spec(masks(self.rows@[y]@))[x],
                ) || !compatible(
                    cell_at(final(nono).cells@, old(nono).spec_width(), x, y),
                    consensus_spec(masks(self.cols@[x]@))[y],
                )),
            keeps_determined(old(nono).cells@, final(nono).cells@),
            !r.1 ==> final(nono).cells@ == old(nono).cells@,
            forall|x: int, y: int|
                0 <= x < old(nono).spec_width() && 0 <= y < old(nono).spec_height()
                    && consensus_spec(masks(self.rows@[y]@))[x] == CellState::Undecided
                    && consensus_spec(masks(self.cols@[x]@))[y] == CellState::Undecided
                    ==> #[trigger] cell_at(final(nono).cells@, old(nono).spec_width(), x, y)
                    == cell_at(old(nono).cells@, old(nono).spec_width(), x, y),
            r.0.is_none() ==> rows_agree(self.rows@, final(nono).cells@, old(nono).spec_width()),
            r.0.is_none() ==> cols_agree(
                self.cols@,
                final(nono).cells@,
                old(nono).spec_width(),
                old(nono).spec_height(),
            ),
            count_undecided(final(nono).cells@) <= count_undecided(old(nono).cells@),
            r.1 ==> count_undecided(final(nono).cells@) < count_undecided(old(nono).cells@),
            r.0.is_none() ==> forall|s: Seq<CellState>|
                #[trigger] is_solution(
                    old(nono).rows@,
                    old(nono).cols@,
                    old(nono).spec_width(),
                    old(nono).spec_height(),
                    s,
                ) ==> agrees(final(nono).cells@, s),
            r.0.is_some() ==> line_in(r.0.unwrap(), old(nono).spec_width(), old(nono).spec_height()),
            r.0.is_some() ==> forall|s: Seq<CellState>|
                !#[trigger] is_solution(
                    old(nono).rows@,
                    old(nono).cols@,
                    old(nono).spec_width(),
                    old(nono).spec_height(),
                    s,
                ),
    {
        let ghost w = nono.spec_width();
        let ghost h = nono.spec_height();
        let ghost rows = nono.rows@;
        let ghost cols = nono.cols@;
        let mut progress = false;
        let mut y: usize = 0;
        while y < nono.height()
            invariant
                nono.wf(),
                nono.width == old(nono).width,
                nono.height == old(nono).height,
                nono.rows == old(nono).rows,
                nono.cols == old(nono).cols,
                w == nono.spec_width(),
                h == nono.spec_height(),
                rows == nono.rows@,
                cols == nono.cols@,
                self.inv(nono),
                self.infeasible.is_none(),
                y <= h,
                forall|a: int, b: int|
                    0 <= a < w && 0 <= b < h && (b >= y || consensus_spec(masks(self.rows@[b]@))[a]
                        == CellState::Undecided) ==> #[trigger] cell_at(nono.cells@, w, a, b)
                        == cell_at(old(nono).cells@, w, a, b),
                keeps_determined(old(nono).cells@, nono.cells@),
                !progress ==> nono.cells@ == old(nono).cells@,
                forall|k: int, p: int|
                    0 <= k < y && 0 <= p < w && #[trigger] consensus_spec(masks(self.rows@[k]@))[p]
                        != CellState::Undecided ==> consensus_spec(masks(self.rows@[k]@))[p]
                        == nono.cells@[k * w + p],
                count_undecided(nono.cells@) <= count_undecided(old(nono).cells@),
                progress ==> count_undecided(nono.cells@) < count_undecided(old(nono).cells@),
                forall|s: Seq<CellState>|
                    #[trigger] is_solution(rows, cols, w, h, s) ==> agrees(nono.cells@, s),
            decreases h - y,
        {
            let c = find_consensus(&self.rows[y]);
            proof {
                let ms = masks(self.rows@[y as int]@);
                assert(ms[0] == self.rows@[y as int]@[0]@);
                assert forall|s: Seq<CellState>| #[trigger] is_solution(rows, cols, w, h, s) implies agrees(
                    nono.cells@,
                    s,
                ) && forall|p: int|
                    0 <= p < c@.len() && c@[p] != CellState::Undecided ==> #[trigger] s[line_index(
                        Line::Row(y),
                        p,
                        w,
                    )] == c@[p] by {
                    assert forall|p: int|
                        0 <= p < c@.len() && c@[p] != CellState::Undecided implies #[trigger] s[line_index(
                            Line::Row(y),
                            p,
                            w,
                        )] == c@[p] by {
                        lemma_cell_index(w, h, w, y as nat);
                        assert(masks(self.rows@[y as int]@).contains(row_of(s, w, y as int)));
                        lemma_consensus_member(ms, row_of(s, w, y as int), p);
                    }
                }
            }
            let ghost before = nono.cells@;
            let (conflict, wrote) = write_line(nono, Line::Row(y), &c);
            proof {
                assert forall|a: int, b: int|
                    0 <= a < w && 0 <= b < h && (b >= y + 1 || consensus_spec(
                        masks(self.rows@[b]@),
                    )[a] == CellState::Undecided) implies #[trigger] cell_at(nono.cells@, w, a, b)
                    == cell_at(old(nono).cells@, w, a, b) by {
                    assert(cell_at(nono.cells@, w, a, b) == cell_at(before, w, a, b));
                }
                assert forall|k: int, p: int|
                    0 <= k < y + 1 && 0 <= p < w && #[trigger] consensus_spec(
                        masks(self.rows@[k]@),
                    )[p] != CellState::Undecided && !conflict implies consensus_spec(
                        masks(self.rows@[k]@),
                    )[p] == nono.cells@[k * w + p] by {
                    lemma_cell_index(w, h, p as nat, k as nat);
                    if k == y {
                        assert(c@[p] == consensus_spec(masks(self.rows@[k]@))[p]);
                        assert(line_index(Line::Row(y), p, w) == k * w + p);
                    } else {
                        assert(before[k * w + p] != CellState::Undecided);
                    }
                }
            }
            if wrote {
                progress = true;
            }
            if conflict {
                proof {
                    let p = choose|p: int|
                        0 <= p < c@.len() && c@[p] != CellState::Undecided && #[trigger] before[line_index(
                            Line::Row(y),
                            p,
                            w,
                        )] != CellState::Undecided && before[line_index(Line::Row(y), p, w)] != c@[p]
                            && nono.cells@[line_index(Line::Row(y), p, w)] == before[line_index(Line::Row(y), p, w)];
                    assert(cell_at(before, w, p, y as int) == cell_at(old(nono).cells@, w, p, y as int));
                    assert(cell_conflict(self.rows@, self.cols@, old(nono).cells@, w, p, y as int));
                    assert(line_index(Line::Row(y), p, w) == y * w + p);
                    assert(!compatible(
                        cell_at(nono.cells@, w, p, y as int),
                        consensus_spec(masks(self.rows@[y as int]@))[p],
                    ));
                }
                return (Some(Line::Row(y)), progress);
            }
            y = y + 1;
        }
        let mut x: usize = 0;
        while x < nono.width()
            invariant
                nono.wf(),
                nono.width == old(nono).width,
                nono.height == old(nono).height,
                nono.rows == old(nono).rows,
                nono.cols == old(nono).cols,
                w == nono.spec_width(),
                h == nono.spec_height(),
                rows == nono.rows@,
                cols == nono.cols@,
                self.inv(nono),
                self.infeasible.is_none(),
                x <= w,
                forall|a: int, b: int|
                    0 <= a < w && 0 <= b < h && consensus_spec(masks(self.rows@[b]@))[a]
                        == CellState::Undecided && (a >= x || consensus_spec(
                        masks(self.cols@[a]@),
                    )[b] == CellState::Undecided) ==> #[trigger] cell_at(nono.cells@, w, a, b)
                        == cell_at(old(nono).cells@, w, a, b),
                keeps_determined(old(nono).cells@, nono.cells@),
                !progress ==> nono.cells@ == old(nono).cells@,
                forall|k: int, p: int|
                    0 <= k < h && 0 <= p < w && #[trigger] consensus_spec(masks(self.rows@[k]@))[p]
                        != CellState::Undecided ==> consensus_spec(masks(self.rows@[k]@))[p]
                        == nono.cells@[k * w + p],
                forall|k: int, p: int|
                    0 <= k < x && 0 <= p < h && #[trigger] consensus_spec(masks(self.cols@[k]@))[p]
                        != CellState::Undecided ==> consensus_spec(masks(self.cols@[k]@))[p]
                        == nono.cells@[p * w + k],
                count_undecided(nono.cells@) <= count_undecided(old(nono).cells@),
                progress ==> count_undecided(nono.cells@) < count_undecided(old(nono).cells@),
                forall|s: Seq<CellState>|
                    #[trigger] is_solution(rows, cols, w, h, s) ==> agrees(nono.cells@, s),
            decreases w - x,
        {
            let c = find_consensus(&self.cols[x]);
            proof {
                let ms = masks(self.cols@[x as int]@);
                assert(ms[0] == self.cols@[x as int]@[0]@);
                assert forall|s: Seq<CellState>| #[trigger] is_solution(rows, cols, w, h, s) implies agrees(
                    nono.cells@,
                    s,
                ) && forall|p: int|
                    0 <= p < c@.len() && c@[p] != CellState::Undecided ==> #[trigger] s[line_index(
                        Line::Col(x),
                        p,
                        w,
                    )] == c@[p] by {
                    assert forall|p: int|
                        0 <= p < c@.len() && c@[p] != CellState::Undecided implies #[trigger] s[line_index(
                            Line::Col(x),
                            p,
                            w,
                        )] == c@[p] by {
                        assert(masks(self.cols@[x as int]@).contains(col_of(s, w, h, x as int)));
                        lemma_consensus_member(ms, col_of(s, w, h, x as int), p);
                    }
                }
            }
            let ghost before = nono.cells@;
            let (conflict, wrote) = write_line(nono, Line::Col(x), &c);
            proof {
                assert forall|a: int, b: int|
                    0 <= a < w && 0 <= b < h && consensus_spec(masks(self.rows@[b]@))[a]
                        == CellState::Undecided && (a >= x + 1 || consensus_spec(
                        masks(self.cols@[a]@),
                    )[b] == CellState::Undecided) implies #[trigger] cell_at(nono.cells@, w, a, b)
                    == cell_at(old(nono).cells@, w, a, b) by {
                    assert(cell_at(nono.cells@, w, a, b) == cell_at(before, w, a, b));
                }
                assert forall|k: int, p: int|
                    0 <= k < x + 1 && 0 <= p < h && #[trigger] consensus_spec(
                        masks(self.cols@[k]@),
                    )[p] != CellState::Undecided && !conflict implies consensus_spec(
                        masks(self.cols@[k]@),
                    )[p] == nono.cells@[p * w + k] by {
                    lemma_cell_index(w, h, k as nat, p as nat);
                    if k == x {
                        assert(c@[p] == consensus_spec(masks(self.cols@[k]@))[p]);
                        assert(line_index(Line::Col(x), p, w) == p * w + k);
                    } else {
                        assert(before[p * w + k] != CellState::Undecided);
                    }
                }
                assert forall|k: int, p: int|
                    0 <= k < h && 0 <= p < w && #[trigger] consensus_spec(
                        masks(self.rows@[k]@),
                    )[p] != CellState::Undecided implies consensus_spec(
                        masks(self.rows@[k]@),
                    )[p] == nono.cells@[k * w + p] by {
                    lemma_cell_index(w, h, p as nat, k as nat);
                    assert(before[k * w + p] != CellState::Undecided);
                }
            }
            if wrote {
                progress = true;
            }
            if conflict {
                proof {
                    let p = choose|p: int|
                        0 <= p < c@.len() && c@[p] != CellState::Undecided && #[trigger] before[line_index(
                            Line::Col(x),
                            p,
                            w,
                        )] != CellState::Undecided && before[line_index(Line::Col(x), p, w)] != c@[p]
                            && nono.cells@[line_index(Line::Col(x), p, w)] == before[line_index(Line::Col(x), p, w)];
                    if consensus_spec(masks(self.rows@[p]@))[x as int] == CellState::Undecided {
                        assert(cell_at(before, w, x as int, p) == cell_at(old(nono).cells@, w, x as int, p));
                    } else {
                        assert(consensus_spec(masks(self.rows@[p]@))[x as int] == before[p * w + x]);
                    }
                    assert(cell_conflict(self.rows@, self.cols@, old(nono).cells@, w, x as int, p));
                    assert(line_index(Line::Col(x), p, w) == p * w + x);
                    assert(!compatible(
                        cell_at(nono.cells@, w, x as int, p),
                        consensus_spec(masks(self.cols@[x as int]@))[p],
                    ));
                }
                return (Some(Line::Col(x)), progress);
            }
            x = x + 1;
        }
        proof {
            assert forall|a: int, b: int| 0 <= a < w && 0 <= b < h implies !#[trigger] cell_conflict(
                self.rows@,
                self.cols@,
                old(nono).cells@,
                w,
                a,
                b,
            ) by {
                lemma_cell_index(w, h, a as nat, b as nat);
                let f = nono.cells@[b * w + a];
                if old(nono).cells@[b * w + a] != CellState::Undecided {
                    assert(f == old(nono).cells@[b * w + a]);
                }
                if consensus_spec(masks(self.rows@[b]@))[a] != CellState::Undecided {
                    assert(f == consensus_spec(masks(self.rows@[b]@))[a]);
                }
                if consensus_spec(masks(self.cols@[a]@))[b] != CellState::Undecided {
                    assert(f == consensus_spec(masks(self.cols@[a]@))[b]);
                }
            }
        }
        (None, progress)
    }

    /// Drops, in every row and then every column, the candidates that the
    /// grid's known cells rule out. Returns the first line left without any
    /// candidate, and whether a candidate was dropped.
    fn filter_step(&mut self, nono: &Nonogram) -> (r: (Option<Line>, bool))
        requires
            nono.wf(),
            old(self).infeasible.is_none(),
            old(self).inv(nono),
            forall|s: Seq<CellState>|
                #[trigger] is_solution(
                    nono.rows@,
                    nono.cols@,
                    nono.spec_width(),
                    nono.spec_height(),
                    s,
                ) ==> agrees(nono.cells@, s),
            rows_complete(old(self).rows@, nono.rows@, nono.cells@, nono.spec_width()),
            cols_complete(
                old(self).cols@,
                nono.cols@,
                nono.cells@,
                nono.spec_width(),
                nono.spec_height(),
            ),
        ensures
            rows_complete(final(self).rows@, nono.rows@, nono.cells@, nono.spec_width()),
            cols_complete(
                final(self).cols@,
                nono.cols@,
                nono.cells@,
                nono.spec_width(),
                nono.spec_height(),
            ),
            forall|y: int, m: Seq<CellState>|
                0 <= y < nono.spec_height() && #[trigger] masks(final(self).rows@[y]@).contains(m)
                    ==> masks(old(self).rows@[y]@).contains(m),
            forall|x: int, m: Seq<CellState>|
                0 <= x < nono.spec_width() && #[trigger] masks(final(self).cols@[x]@).contains(m)
                    ==> masks(old(self).cols@[x]@).contains(m),
            r.0.is_none() ==> forall|y: int|
                0 <= y < nono.spec_height() ==> #[trigger] masks(final(self).rows@[y]@)
                    == filter_spec(
                    masks(old(self).rows@[y]@),
                    row_of(nono.cells@, nono.spec_width(), y),
                ),
            r.0.is_none() ==> forall|x: int|
                0 <= x < nono.spec_width() ==> #[trigger] masks(final(self).cols@[x]@)
                    == filter_spec(
                    masks(old(self).cols@[x]@),
                    col_of(nono.cells@, nono.spec_width(), nono.spec_height(), x),
                ),
            r.0.is_none() && !r.1 ==> forall|y: int|
                0 <= y < nono.spec_height() ==> #[trigger] masks(final(self).rows@[y]@) == masks(
                    old(self).rows@[y]@,
                ),
            r.0.is_none() && !r.1 ==> forall|x: int|
                0 <= x < nono.spec_width() ==> #[trigger] masks(final(self).cols@[x]@) == masks(
                    old(self).cols@[x]@,
                ),
            r.0 matches Some(Line::Row(y)) ==> final(self).rows@[y as int] == old(self).rows@[y as int],
            r.0 matches Some(Line::Col(x)) ==> final(self).cols@[x as int] == old(self).cols@[x as int],
            r.0 matches Some(Line::Row(y)) ==> filter_spec(
                masks(old(self).rows@[y as int]@),
                row_of(nono.cells@, nono.spec_width(), y as int),
            ).len() == 0,
            r.0 matches Some(Line::Col(x)) ==> filter_spec(
                masks(old(self).cols@[x as int]@),
                col_of(nono.cells@, nono.spec_width(), nono.spec_height(), x as int),
            ).len() == 0,
            final(self).infeasible.is_none(),
            final(self).inv(nono),
            total_len(final(self).rows@) + total_len(final(self).cols@) <= total_len(
                old(self).rows@,
            ) + total_len(old(self).cols@),
            r.1 ==> total_len(final(self).rows@) + total_len(final(self).cols@) < total_len(
                old(self).rows@,
            ) + total_len(old(self).cols@),
            r.0.is_none() ==> all_fit(
                final(self).rows@,
                final(self).cols@,
                nono.cells@,
                nono.spec_width(),
                nono.spec_height(),
            ),
            r.0.is_some() ==> line_in(r.0.unwrap(), nono.spec_width(), nono.spec_height()),
            r.0.is_some() ==> forall|s: Seq<CellState>|
                !#[trigger] is_solution(
                    nono.rows@,
                    nono.cols@,
                    nono.spec_width(),
                    nono.spec_height(),
                    s,
                ),
    {
        let ghost w = nono.spec_width();
        let ghost h = nono.spec_height();
        let ghost rows = nono.rows@;
        let ghost cols = nono.cols@;
        let mut progress = false;
        let mut y: usize = 0;
        while y < nono.height()
            invariant
                nono.wf(),
                w == nono.spec_width(),
                h == nono.spec_height(),
                rows == nono.rows@,
                cols == nono.cols@,
                self.inv(nono),
                self.infeasible.is_none(),
                self.cols@ == old(self).cols@,
                y <= h,
                rows_complete(self.rows@, rows, nono.cells@, w),
                forall|k: int, m: Seq<CellState>|
                    0 <= k < h && #[trigger] masks(self.rows@[k]@).contains(m) ==> masks(
                        old(self).rows@[k]@,
                    ).contains(m),
                forall|k: int|
                    0 <= k < y ==> #[trigger] masks(self.rows@[k]@) == filter_spec(
                        masks(old(self).rows@[k]@),
                        row_of(nono.cells@, w, k),
                    ),
                forall|k: int| y <= k < h ==> #[trigger] self.rows@[k] == old(self).rows@[k],
                !progress ==> forall|k: int|
                    0 <= k < y ==> #[trigger] masks(self.rows@[k]@) == masks(old(self).rows@[k]@),
                cols_complete(self.cols@, cols, nono.cells@, w, h),
                total_len(self.rows@) <= total_len(old(self).rows@),
                progress ==> total_len(self.rows@) < total_len(old(self).rows@),
                forall|s: Seq<CellState>|
                    #[trigger] is_solution(rows, cols, w, h, s) ==> agrees(nono.cells@, s),
                forall|k: int, j: int|
                    0 <= k < y && 0 <= j < self.rows@[k]@.len() ==> fits(
                        row_of(nono.cells@, w, k),
                        (#[trigger] self.rows@[k]@[j])@,
                    ),
            decreases h - y,
        {
            let known = nono.row(y).unwrap();
            proof {
                lemma_cell_index(w, h, w, y as nat);
            }
            let ghost before = self.rows@;
            let res = narrow(&mut self.rows, y, known, Ghost(rows), Ghost(w));
            proof {
                assert(known@ == row_of(nono.cells@, w, y as int));
                assert(before[y as int] == old(self).rows@[y as int]);
                assert forall|s: Seq<CellState>|
                    #[trigger] is_solution(rows, cols, w, h, s) implies masks(
                        before[y as int]@,
                    ).contains(row_of(s, w, y as int)) && fits(known@, row_of(s, w, y as int)) by {
                    assert(agrees(nono.cells@, s));
                    assert forall|p: int| 0 <= p < w implies accepts_spec(
                        known@[p],
                        row_of(s, w, y as int)[p],
                    ) by {
                        lemma_cell_index(w, h, p as nat, y as nat);
                        assert(known@[p] == nono.cells@[y * w + p]);
                    }
                }
            }
            match res {
                None => {
                    proof {
                        assert forall|s: Seq<CellState>| !#[trigger] is_solution(rows, cols, w, h, s) by {
                            if is_solution(rows, cols, w, h, s) {
                                assert(masks(before[y as int]@).contains(row_of(s, w, y as int)));
                            }
                        }
                    }
                    return (Some(Line::Row(y)), progress);
                },
                Some(shrank) => {
                    if shrank {
                        progress = true;
                    }
                    proof {
                        assert forall|s: Seq<CellState>|
                            #[trigger] is_solution(rows, cols, w, h, s) implies {
                                &&& forall|k: int|
                                    0 <= k < h ==> masks(self.rows@[k]@).contains(
                                        #[trigger] row_of(s, w, k),
                                    )
                                &&& forall|x: int|
                                    0 <= x < w ==> masks(self.cols@[x]@).contains(
                                        #[trigger] col_of(s, w, h, x),
                                    )
                            } by {
                            assert forall|k: int| 0 <= k < h implies masks(self.rows@[k]@).contains(
                                #[trigger] row_of(s, w, k),
                            ) by {
                                if k != y {
                                    assert(self.rows@[k] == before[k]);
                                } else {
                                    assert(masks(before[y as int]@).contains(row_of(s, w, y as int)));
                                }
                            }
                        }
                        assert forall|k: int, m: Seq<CellState>|
                            0 <= k < h && is_placement(m, rows[k]@, w as int) && fits(
                                row_of(nono.cells@, w, k),
                                m,
                            ) implies #[trigger] masks(self.rows@[k]@).contains(m) by {
                            if k != y {
                                assert(self.rows@[k] == before[k]);
                            }
                        }
                        assert forall|k: int, m: Seq<CellState>|
                            0 <= k < h && #[trigger] masks(self.rows@[k]@).contains(m) implies masks(
                                old(self).rows@[k]@,
                            ).contains(m) by {
                            if k != y {
                                assert(self.rows@[k] == before[k]);
                            }
                        }
                        assert forall|k: int| 0 <= k < y + 1 implies #[trigger] masks(self.rows@[k]@)
                            == filter_spec(
                            masks(old(self).rows@[k]@),
                            row_of(nono.cells@, w, k),
                        ) by {
                            if k != y {
                                assert(self.rows@[k] == before[k]);
                            }
                        }
                        assert forall|k: int| y + 1 <= k < h implies #[trigger] self.rows@[k]
                            == old(self).rows@[k] by {
                            assert(self.rows@[k] == before[k]);
                        }
                        assert(!progress ==> forall|k: int|
                            0 <= k < y + 1 ==> #[trigger] masks(self.rows@[k]@) == masks(
                                old(self).rows@[k]@,
                            )) by {
                            if !progress {
                                assert forall|k: int| 0 <= k < y + 1 implies #[trigger] masks(
                                    self.rows@[k]@,
                                ) == masks(old(self).rows@[k]@) by {
                                    if k != y {
                                        assert(self.rows@[k] == before[k]);
                                    }
                                }
                            }
                        }
                        assert forall|k: int, j: int|
                            0 <= k < y + 1 && 0 <= j < self.rows@[k]@.len() implies fits(
                                row_of(nono.cells@, w, k),
                                (#[trigger] self.rows@[k]@[j])@,
                            ) by {
                            if k != y {
                                assert(self.rows@[k] == before[k]);
                            } else {
                                assert(masks(self.rows@[k]@)[j] == self.rows@[k]@[j]@);
                                assert(masks(self.rows@[k]@).contains(self.rows@[k]@[j]@));
                            }
                        }
                    }
                },
            }
            y = y + 1;
        }
        let ghost mid_rows = self.rows@;
        let mut x: usize = 0;
        while x < nono.width()
            invariant
                nono.wf(),
                w == nono.spec_width(),
                h == nono.spec_height(),
                rows == nono.rows@,
                cols == nono.cols@,
                self.inv(nono),
                self.infeasible.is_none(),
                self.rows@ == mid_rows,
                x <= w,
                rows_complete(self.rows@, rows, nono.cells@, w),
                forall|k: int, m: Seq<CellState>|
                    0 <= k < h && #[trigger] masks(self.rows@[k]@).contains(m) ==> masks(
                        old(self).rows@[k]@,
                    ).contains(m),
                forall|k: int|
                    0 <= k < h ==> #[trigger] masks(self.rows@[k]@) == filter_spec(
                        masks(old(self).rows@[k]@),
                        row_of(nono.cells@, w, k),
                    ),
                cols_complete(self.cols@, cols, nono.cells@, w, h),
                forall|k: int, m: Seq<CellState>|
                    0 <= k < w && #[trigger] masks(self.cols@[k]@).contains(m) ==> masks(
                        old(self).cols@[k]@,
                    ).contains(m),
                forall|k: int|
                    0 <= k < x ==> #[trigger] masks(self.cols@[k]@) == filter_spec(
                        masks(old(self).cols@[k]@),
                        col_of(nono.cells@, w, h, k),
                    ),
                forall|k: int| x <= k < w ==> #[trigger] self.cols@[k] == old(self).cols@[k],
                !progress ==> forall|k: int|
                    0 <= k < h ==> #[trigger] masks(self.rows@[k]@) == masks(old(self).rows@[k]@),
                !progress ==> forall|k: int|
                    0 <= k < x ==> #[trigger] masks(self.cols@[k]@) == masks(old(self).cols@[k]@),
                total_len(self.rows@) <= total_len(old(self).rows@),
                progress ==> total_len(self.rows@) < total_len(old(self).rows@) || total_len(self.cols@)
                    < total_len(old(self).cols@),
                total_len(self.cols@) <= total_len(old(self).cols@),
                forall|s: Seq<CellState>|
                    #[trigger] is_solution(rows, cols, w, h, s) ==> agrees(nono.cells@, s),
                forall|k: int, j: int|
                    0 <= k < h && 0 <= j < self.rows@[k]@.len() ==> fits(
                        row_of(nono.cells@, w, k),
                        (#[trigger] self.rows@[k]@[j])@,
                    ),
                forall|k: int, j: int|
                    0 <= k < x && 0 <= j < self.cols@[k]@.len() ==> fits(
                        col_of(nono.cells@, w, h, k),
                        (#[trigger] self.cols@[k]@[j])@,
                    ),
            decreases w - x,
        {
            let known_vec = nono.column(x).unwrap();
            let known = known_vec.as_slice();
            let ghost before = self.cols@;
            let res = narrow(&mut self.cols, x, known, Ghost(cols), Ghost(h));
            proof {
                assert(known@ == col_of(nono.cells@, w, h, x as int));
                assert(before[x as int] == old(self).cols@[x as int]);
                assert forall|s: Seq<CellState>|
                    #[trigger] is_solution(rows, cols, w, h, s) implies masks(
                        before[x as int]@,
                    ).contains(col_of(s, w, h, x as int)) && fits(known@, col_of(s, w, h, x as int)) by {
                    assert(agrees(nono.cells@, s));
                    assert forall|p: int| 0 <= p < h implies accepts_spec(
                        known@[p],
                        col_of(s, w, h, x as int)[p],
                    ) by {
                        lemma_cell_index(w, h, x as nat, p as nat);
                        assert(known@[p] == nono.cells@[p * w + x]);
                    }
                }
            }
            match res {
                None => {
                    proof {
                        assert forall|s: Seq<CellState>| !#[trigger] is_solution(rows, cols, w, h, s) by {
                            if is_solution(rows, cols, w, h, s) {
                                assert(masks(before[x as int]@).contains(col_of(s, w, h, x as int)));
                            }
                        }
                    }
                    return (Some(Line::Col(x)), progress);
                },
                Some(shrank) => {
                    if shrank {
                        progress = true;
                    }
                    proof {
                        assert forall|s: Seq<CellState>|
                            #[trigger] is_solution(rows, cols, w, h, s) implies {
                                &&& forall|k: int|
                                    0 <= k < h ==> masks(self.rows@[k]@).contains(
                                        #[trigger] row_of(s, w, k),
                                    )
                                &&& forall|c: int|
                                    0 <= c < w ==> masks(self.cols@[c]@).contains(
                                        #[trigger] col_of(s, w, h, c),
                                    )
                            } by {
                            assert forall|c: int| 0 <= c < w implies masks(self.cols@[c]@).contains(
                                #[trigger] col_of(s, w, h, c),
                            ) by {
                                if c != x {
                                    assert(self.cols@[c] == before[c]);
                                } else {
                                    assert(masks(before[x as int]@).contains(col_of(s, w, h, x as int)));
                                }
                            }
                        }
                        assert forall|k: int, m: Seq<CellState>|
                            0 <= k < w && is_placement(m, cols[k]@, h as int) && fits(
                                col_of(nono.cells@, w, h, k),
                                m,
                            ) implies #[trigger] masks(self.cols@[k]@).contains(m) by {
                            if k != x {
                                assert(self.cols@[k] == before[k]);
                            }
                        }
                        assert forall|k: int, m: Seq<CellState>|
                            0 <= k < w && #[trigger] masks(self.cols@[k]@).contains(m) implies masks(
                                old(self).cols@[k]@,
                            ).contains(m) by {
                            if k != x {
                                assert(self.cols@[k] == before[k]);
                            }
                        }
                        assert forall|k: int| 0 <= k < x + 1 implies #[trigger] masks(self.cols@[k]@)
                            == filter_spec(
                            masks(old(self).cols@[k]@),
                            col_of(nono.cells@, w, h, k),
                        ) by {
                            if k != x {
                                assert(self.cols@[k] == before[k]);
                            }
                        }
                        assert forall|k: int| x + 1 <= k < w implies #[trigger] self.cols@[k]
                            == old(self).cols@[k] by {
                            assert(self.cols@[k] == before[k]);
                        }
                        assert(!progress ==> forall|k: int|
                            0 <= k < x + 1 ==> #[trigger] masks(self.cols@[k]@) == masks(
                                old(self).cols@[k]@,
                            )) by {
                            if !progress {
                                assert forall|k: int| 0 <= k < x + 1 implies #[trigger] masks(
                                    self.cols@[k]@,
                                ) == masks(old(self).cols@[k]@) by {
                                    if k != x {
                                        assert(self.cols@[k] == before[k]);
                                    }
                                }
                            }
                        }
                        assert forall|k: int, j: int|
                            0 <= k < x + 1 && 0 <= j < self.cols@[k]@.len() implies fits(
                                col_of(nono.cells@, w, h, k),
                                (#[trigger] self.cols@[k]@[j])@,
                            ) by {
                            if k != x {
                                assert(self.cols@[k] == before[k]);
                            } else {
                                assert(masks(self.cols@[k]@)[j] == self.cols@[k]@[j]@);
                                assert(masks(self.cols@[k]@).contains(self.cols@[k]@[j]@));
                            }
                        }
                    }
                },
            }
            x = x + 1;
        }
        (None, progress)
    }

    /// Solves `nono` as far as line-local deduction goes. The candidate sets
    /// are generated afresh from the constraints and the grid is reset, so a
    /// second solve starts where the first did; then rounds of consensus and
    /// filtering repeat while a round determines a cell or drops a candidate.
    ///
    /// `Solved` leaves the unique solution in the grid. `StuckUndetermined`
    /// leaves some cell undecided, and every solution agrees with the cells
    /// that were determined. Both leave the candidate sets at the fixpoint of
    /// line-local deduction. `Contradiction` means that the puzzle has no
    /// solution. `Infeasible` reports the first line
    /// whose runs do not fit, and then the grid is left as it was.
    pub fn solve(&mut self, nono: &mut Nonogram) -> (r: Outcome)
        requires
            old(nono).wf(),
        ensures
            final(nono).wf(),
            final(nono).width == old(nono).width,
            final(nono).height == old(nono).height,
            final(nono).rows == old(nono).rows,
            final(nono).cols == old(nono).cols,
            final(self).inv(final(nono)),
            (r is Infeasible) <==> final(self).infeasible.is_some(),
            (r is Infeasible) <==> !((forall|y: int|
                0 <= y < old(nono).spec_height() ==> min_len(#[trigger] old(nono).rows@[y]@)
                    <= old(nono).spec_width()) && (forall|x: int|
                0 <= x < old(nono).spec_width() ==> min_len(#[trigger] old(nono).cols@[x]@)
                    <= old(nono).spec_height())),
            r matches Outcome::Infeasible(Line::Row(y)) ==> y < old(nono).spec_height() && min_len(
                old(nono).rows@[y as int]@,
            ) > old(nono).spec_width(),
            r matches Outcome::Infeasible(Line::Col(x)) ==> x < old(nono).spec_width() && min_len(
                old(nono).cols@[x as int]@,
            ) > old(nono).spec_height(),
            r is Infeasible ==> final(nono).cells == old(nono).cells,
            r == Outcome::Solved ==> final(nono).is_solved(),
            r == Outcome::StuckUndetermined ==> final(nono).is_stuck(),
            r == Outcome::Solved || r == Outcome::StuckUndetermined ==> final(self).at_fixpoint(
                final(nono),
            ),
            r is Contradiction ==> line_in(
                r->Contradiction_0,
                old(nono).spec_width(),
                old(nono).spec_height(),
            ) && !final(nono).has_solution(),
            r matches Outcome::Contradiction(_, Violation::ConsensusConflict) ==> exists|x: int, y: int|
                0 <= x < old(nono).spec_width() && 0 <= y < old(nono).spec_height() && (!compatible(
                    #[trigger] cell_at(final(nono).cells@, old(nono).spec_width(), x, y),
                    consensus_spec(masks(final(self).rows@[y]@))[x],
                ) || !compatible(
                    cell_at(final(nono).cells@, old(nono).spec_width(), x, y),
                    consensus_spec(masks(final(self).cols@[x]@))[y],
                )),
            r matches Outcome::Contradiction(Line::Row(y), Violation::NoCandidateLeft) ==> filter_spec(
                masks(final(self).rows@[y as int]@),
                row_of(final(nono).cells@, old(nono).spec_width(), y as int),
            ).len() == 0,
            r matches Outcome::Contradiction(Line::Col(x), Violation::NoCandidateLeft) ==> filter_spec(
                masks(final(self).cols@[x as int]@),
                col_of(
                    final(nono).cells@,
                    old(nono).spec_width(),
                    old(nono).spec_height(),
                    x as int,
                ),
            ).len() == 0,
    {
        *self = Solver::new(nono);
        if let Some(l) = self.infeasible {
            return Outcome::Infeasible(l);
        }
        nono.clear_solution();
        let ghost w = nono.spec_width();
        let ghost h = nono.spec_height();
        let ghost rows = nono.rows@;
        let ghost cols = nono.cols@;
        proof {
            lemma_count_nonneg(nono.cells@);
            lemma_total_nonneg(self.rows@);
            lemma_total_nonneg(self.cols@);
            assert forall|y: int, m: Seq<CellState>|
                0 <= y < self.rows@.len() && is_placement(m, rows[y]@, w as int) && fits(
                    row_of(nono.cells@, w, y),
                    m,
                ) implies #[trigger] masks(self.rows@[y]@).contains(m) by {
                lemma_covers_contains(self.rows@[y]@, rows[y]@, w as int, m);
            }
            assert forall|x: int, m: Seq<CellState>|
                0 <= x < self.cols@.len() && is_placement(m, cols[x]@, h as int) && fits(
                    col_of(nono.cells@, w, h, x),
                    m,
                ) implies #[trigger] masks(self.cols@[x]@).contains(m) by {
                lemma_covers_contains(self.cols@[x]@, cols[x]@, h as int, m);
            }
            assert forall|y: int, j: int|
                0 <= y < self.rows@.len() && 0 <= j < self.rows@[y]@.len() implies fits(
                    row_of(nono.cells@, w, y),
                    (#[trigger] self.rows@[y]@[j])@,
                ) by {
                lemma_cell_index(w, h, w, y as nat);
            }
            assert forall|x: int, j: int|
                0 <= x < self.cols@.len() && 0 <= j < self.cols@[x]@.len() implies fits(
                    col_of(nono.cells@, w, h, x),
                    (#[trigger] self.cols@[x]@[j])@,
                ) by {
                assert forall|p: int| 0 <= p < h implies col_of(nono.cells@, w, h, x)[p]
                    == CellState::Undecided by {
                    lemma_cell_index(w, h, x as nat, p as nat);
                }
            }
        }
        loop
            invariant
                nono.wf(),
                nono.width == old(nono).width,
                nono.height == old(nono).height,
                nono.rows == old(nono).rows,
                nono.cols == old(nono).cols,
                w == nono.spec_width(),
                h == nono.spec_height(),
                rows == nono.rows@,
                cols == nono.cols@,
                self.infeasible.is_none(),
                self.inv(nono),
                forall|s: Seq<CellState>|
                    #[trigger] is_solution(rows, cols, w, h, s) ==> agrees(nono.cells@, s),
                all_fit(self.rows@, self.cols@, nono.cells@, w, h),
                rows_complete(self.rows@, rows, nono.cells@, w),
                cols_complete(self.cols@, cols, nono.cells@, w, h),
                forall|y: int| 0 <= y < h ==> min_len(#[trigger] rows[y]@) <= w,
                forall|x: int| 0 <= x < w ==> min_len(#[trigger] cols[x]@) <= h,
            decreases count_undecided(nono.cells@) + total_len(self.rows@) + total_len(self.cols@),
        {
            if !has_undecided(nono) {
                proof {
                    lemma_solved(self, nono);
                    lemma_determined_agree(self, nono);
                    lemma_at_fixpoint(self, nono);
                }
                return Outcome::Solved;
            }
            let ghost cells0 = nono.cells@;
            let (conflict, wrote) = self.consensus_step(nono);
            if let Some(l) = conflict {
                return Outcome::Contradiction(l, Violation::ConsensusConflict);
            }
            proof {
                assert forall|y: int, m: Seq<CellState>|
                    0 <= y < self.rows@.len() && is_placement(m, rows[y]@, w as int) && fits(
                        row_of(nono.cells@, w, y),
                        m,
                    ) implies #[trigger] masks(self.rows@[y]@).contains(m) by {
                    lemma_cell_index(w, h, w, y as nat);
                    assert forall|p: int| 0 <= p < w implies accepts_spec(
                        row_of(cells0, w, y)[p],
                        m[p],
                    ) by {
                        lemma_cell_index(w, h, p as nat, y as nat);
                        assert(accepts_spec(row_of(nono.cells@, w, y)[p], m[p]));
                    }
                    lemma_cell_index(w, h, w, y as nat);
                }
                assert forall|x: int, m: Seq<CellState>|
                    0 <= x < self.cols@.len() && is_placement(m, cols[x]@, h as int) && fits(
                        col_of(nono.cells@, w, h, x),
                        m,
                    ) implies #[trigger] masks(self.cols@[x]@).contains(m) by {
                    assert forall|p: int| 0 <= p < h implies accepts_spec(
                        col_of(cells0, w, h, x)[p],
                        m[p],
                    ) by {
                        lemma_cell_index(w, h, x as nat, p as nat);
                        assert(accepts_spec(col_of(nono.cells@, w, h, x)[p], m[p]));
                    }
                }
            }
            let ghost before = *self;
            let (empty, dropped) = self.filter_step(nono);
            if let Some(l) = empty {
                return Outcome::Contradiction(l, Violation::NoCandidateLeft);
            }
            if !wrote && !dropped {
                proof {
                    assert forall|y: int, p: int|
                        0 <= y < self.rows@.len() && 0 <= p < w && #[trigger] consensus_spec(
                            masks(self.rows@[y]@),
                        )[p] != CellState::Undecided implies consensus_spec(
                            masks(self.rows@[y]@),
                        )[p] == nono.cells@[y * w + p] by {
                        assert(masks(self.rows@[y]@) == masks(before.rows@[y]@));
                    }
                    assert forall|x: int, p: int|
                        0 <= x < self.cols@.len() && 0 <= p < h && #[trigger] consensus_spec(
                            masks(self.cols@[x]@),
                        )[p] != CellState::Undecided implies consensus_spec(
                            masks(self.cols@[x]@),
                        )[p] == nono.cells@[p * w + x] by {
                        assert(masks(self.cols@[x]@) == masks(before.cols@[x]@));
                    }
                    lemma_at_fixpoint(self, nono);
                }
                if has_undecided(nono) {
                    return Outcome::StuckUndetermined;
                } else {
                    proof {
                        lemma_solved(self, nono);
                    }
                    return Outcome::Solved;
                }
            }
            proof {
                lemma_count_nonneg(nono.cells@);
                lemma_total_nonneg(self.rows@);
                lemma_total_nonneg(self.cols@);
            }
        }
    }
}

/// Two grids of one puzzle that both end solved hold the same cells: a
/// solved grid depends on the constraints alone, whatever it held before.
pub proof fn lemma_solved_cells_unique(a: &Nonogram, b: &Nonogram)
    requires
        a.rows@ == b.rows@,
        a.cols@ == b.cols@,
        a.spec_width() == b.spec_width(),
        a.spec_height() == b.spec_height(),
        a.is_solved(),
        b.is_solved(),
    ensures
        a.cells@ == b.cells@,
{
    assert(a.is_solution_cells(b.cells@));
}

/// A puzzle without a solution, as a contradiction reports, is never solved
/// in another grid of the same puzzle either.
pub proof fn lemma_no_solution_never_solved(a: &Nonogram, b: &Nonogram)
    requires
        a.rows@ == b.rows@,
        a.cols@ == b.cols@,
        a.spec_width() == b.spec_width(),
        a.spec_height() == b.spec_height(),
        !a.has_solution(),
    ensures
        !b.is_solved(),
{
    if b.is_solved() {
        assert(a.is_solution_cells(b.cells@));
    }
}

/// A puzzle with two different solutions is never reported solved.
pub proof fn lemma_ambiguous_never_solved(n: &Nonogram, s1: Seq<CellState>, s2: Seq<CellState>)
    requires
        n.is_solution_cells(s1),
        n.is_solution_cells(s2),
        s1 != s2,
    ensures
        !n.is_solved(),
{
}

/// Candidate sets that are sound, complete and admitted by the grid, and
/// whose consensus is in the grid, are at the fixpoint.
proof fn lemma_at_fixpoint(solver: &Solver, nono: &Nonogram)
    requires
        nono.wf(),
        solver.infeasible.is_none(),
        solver.inv(nono),
        all_fit(solver.rows@, solver.cols@, nono.cells@, nono.spec_width(), nono.spec_height()),
        rows_complete(solver.rows@, nono.rows@, nono.cells@, nono.spec_width()),
        cols_complete(solver.cols@, nono.cols@, nono.cells@, nono.spec_width(), nono.spec_height()),
        rows_agree(solver.rows@, nono.cells@, nono.spec_width()),
        cols_agree(solver.cols@, nono.cells@, nono.spec_width(), nono.spec_height()),
    ensures
        solver.at_fixpoint(nono),
{
    let w = nono.spec_width();
    let h = nono.spec_height();
    assert forall|y: int, m: Seq<CellState>| 0 <= y < h && #[trigger] masks(
        solver.rows@[y]@,
    ).contains(m) implies is_placement(m, nono.rows@[y]@, w as int) && fits(
        row_of(nono.cells@, w, y),
        m,
    ) by {
        let j = choose|j: int| 0 <= j < masks(solver.rows@[y]@).len() && masks(solver.rows@[y]@)[j] == m;
        assert(solver.rows@[y]@[j]@ == m);
    }
    assert forall|x: int, m: Seq<CellState>| 0 <= x < w && #[trigger] masks(
        solver.cols@[x]@,
    ).contains(m) implies is_placement(m, nono.cols@[x]@, h as int) && fits(
        col_of(nono.cells@, w, h, x),
        m,
    ) by {
        let j = choose|j: int| 0 <= j < masks(solver.cols@[x]@).len() && masks(solver.cols@[x]@)[j] == m;
        assert(solver.cols@[x]@[j]@ == m);
    }
}

/// On a grid without undecided cells, every candidate left equals its line,
/// so each line's consensus is the grid's line.
proof fn lemma_determined_agree(solver: &Solver, nono: &Nonogram)
    requires
        nono.wf(),
        solver.infeasible.is_none(),
        solver.inv(nono),
        all_fit(solver.rows@, solver.cols@, nono.cells@, nono.spec_width(), nono.spec_height()),
        forall|i: int| 0 <= i < nono.cells@.len() ==> nono.cells@[i] != CellState::Undecided,
    ensures
        rows_agree(solver.rows@, nono.cells@, nono.spec_width()),
        cols_agree(solver.cols@, nono.cells@, nono.spec_width(), nono.spec_height()),
{
    let w = nono.spec_width();
    let h = nono.spec_height();
    let cells = nono.cells@;
    assert forall|y: int, p: int|
        0 <= y < solver.rows@.len() && 0 <= p < w && #[trigger] consensus_spec(
            masks(solver.rows@[y]@),
        )[p] != CellState::Undecided implies consensus_spec(masks(solver.rows@[y]@))[p]
        == cells[y * w + p] by {
        let ms = masks(solver.rows@[y]@);
        lemma_cell_index(w, h, p as nat, y as nat);
        lemma_cell_index(w, h, w, y as nat);
        assert forall|j: int| 0 <= j < ms.len() implies (#[trigger] ms[j])[p] == cells[y * w + p] by {
            assert(ms[j] == solver.rows@[y]@[j]@);
            assert(fits(row_of(cells, w, y), solver.rows@[y]@[j]@));
            assert(accepts_spec(row_of(cells, w, y)[p], ms[j][p]));
        }
        assert(ms[0][p] == cells[y * w + p]);
    }
    assert forall|x: int, p: int|
        0 <= x < solver.cols@.len() && 0 <= p < h && #[trigger] consensus_spec(
            masks(solver.cols@[x]@),
        )[p] != CellState::Undecided implies consensus_spec(masks(solver.cols@[x]@))[p]
        == cells[p * w + x] by {
        let ms = masks(solver.cols@[x]@);
        lemma_cell_index(w, h, x as nat, p as nat);
        assert forall|j: int| 0 <= j < ms.len() implies (#[trigger] ms[j])[p] == cells[p * w + x] by {
            assert(ms[j] == solver.cols@[x]@[j]@);
            assert(fits(col_of(cells, w, h, x), solver.cols@[x]@[j]@));
            assert(accepts_spec(col_of(cells, w, h, x)[p], ms[j][p]));
        }
        assert(ms[0][p] == cells[p * w + x]);
    }
}

/// A grid with no undecided cell whose every row and column admits all of
/// its remaining candidates is a solution, and the only one.
proof fn lemma_solved(solver: &Solver, nono: &Nonogram)
    requires
        nono.wf(),
        solver.infeasible.is_none(),
        solver.inv(nono),
        forall|s: Seq<CellState>|
            #[trigger] is_solution(
                nono.rows@,
                nono.cols@,
                nono.spec_width(),
                nono.spec_height(),
                s,
            ) ==> agrees(nono.cells@, s),
        all_fit(solver.rows@, solver.cols@, nono.cells@, nono.spec_width(), nono.spec_height()),
        forall|i: int| 0 <= i < nono.cells@.len() ==> nono.cells@[i] != CellState::Undecided,
    ensures
        nono.is_solved(),
{
    let w = nono.spec_width();
    let h = nono.spec_height();
    let cells = nono.cells@;
    assert forall|y: int| 0 <= y < h implies is_placement(
        #[trigger] row_of(cells, w, y),
        nono.rows@[y]@,
        w as int,
    ) by {
        lemma_cell_index(w, h, w, y as nat);
        let m = solver.rows@[y]@[0]@;
        assert(fits(row_of(cells, w, y), m));
        assert forall|p: int| 0 <= p < w implies row_of(cells, w, y)[p] == m[p] by {
            lemma_cell_index(w, h, p as nat, y as nat);
        }
        assert(row_of(cells, w, y) =~= m);
    }
    assert forall|x: int| 0 <= x < w implies is_placement(
        #[trigger] col_of(cells, w, h, x),
        nono.cols@[x]@,
        h as int,
    ) by {
        let m = solver.cols@[x]@[0]@;
        assert(fits(col_of(cells, w, h, x), m));
        assert forall|p: int| 0 <= p < h implies col_of(cells, w, h, x)[p] == m[p] by {
            lemma_cell_index(w, h, x as nat, p as nat);
        }
        assert(col_of(cells, w, h, x) =~= m);
    }
    assert forall|s: Seq<CellState>|
        #[trigger] is_solution(nono.rows@, nono.cols@, w, h, s) implies s == cells by {
        assert(agrees(cells, s));
        assert(s =~= cells);
    }
}

} // verus!
