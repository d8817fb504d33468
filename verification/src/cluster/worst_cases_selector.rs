//! Selection of the worst cases among all the joints of all the clusters of a
//! compartment, ahead of the aggregate: block A keeps one case per distinct
//! load path, block B the envelope per drilled splay, and block B flags what
//! block A already holds.
//!
//! The magnitudes that decide (forces, inclinations) are real numbers: each
//! case carries, per criterion, its rank among all the cases of the slice —
//! an integer that orders the cases exactly as the magnitude does, equal
//! magnitudes having equal ranks.

use vstd::prelude::*;

verus! {

/// What the selection reads of one joint load case.
#[derive(Clone, Copy, Debug, PartialEq, Eq, Structural)]
pub struct CaseKeys {
    /// The front hinge works in reverse (compression).
    pub hinge_reversed: bool,
    /// The crown pin pulls (traction); otherwise it pushes.
    pub traction: bool,
    /// Rank of the orientation force magnitude.
    pub orientation_rank: u64,
    /// Rank of the pivot force magnitude.
    pub pivot_rank: u64,
    /// Rank of the smaller of the two magnitudes (both zones loaded).
    pub two_zones_rank: u64,
    /// Rank of |inclination| × the larger of the two magnitudes.
    pub inclination_rank: u64,
}

/// Number of load-path criteria of block A.
pub const CRITERIA: usize = 6;

/// Label of criterion `k`, in the order in which block A examines them.
pub open spec fn criterion_label_spec(k: int) -> Seq<char> {
    if k == 0 {
        "effort orientation max"@
    } else if k == 1 {
        "effort pivot max"@
    } else if k == 2 {
        "charnière inversée"@
    } else if k == 3 {
        "compression"@
    } else if k == 4 {
        "deux zones chargées"@
    } else {
        "inclinaison extrême"@
    }
}

/// Which cases criterion `k` considers.
pub open spec fn eligible(c: CaseKeys, k: int) -> bool {
    if k == 2 {
        c.hinge_reversed
    } else if k == 3 {
        !c.traction
    } else {
        true
    }
}

/// What criterion `k` maximises.
pub open spec fn key(c: CaseKeys, k: int) -> u64 {
    if k == 0 || k == 3 {
        c.orientation_rank
    } else if k == 1 || k == 2 {
        c.pivot_rank
    } else if k == 4 {
        c.two_zones_rank
    } else {
        c.inclination_rank
    }
}

/// `i` wins criterion `k`: among the eligible cases it has the largest key,
/// and it is the last one to have it.
pub open spec fn is_winner(cases: Seq<CaseKeys>, k: int, i: int) -> bool {
    &&& 0 <= i < cases.len()
    &&& eligible(cases[i], k)
    &&& forall|j: int| 0 <= j < cases.len() && eligible(cases[j], k) ==> key(cases[j], k) <= key(cases[i], k)
    &&& forall|j: int| i < j < cases.len() && eligible(cases[j], k) ==> key(cases[j], k) < key(cases[i], k)
}

pub open spec fn has_eligible(cases: Seq<CaseKeys>, k: int) -> bool {
    exists|i: int| 0 <= i < cases.len() && eligible(cases[i], k)
}

/// The case that wins criterion `k`, if any case is eligible for it.
pub open spec fn winner(cases: Seq<CaseKeys>, k: int) -> Option<int> {
    if has_eligible(cases, k) {
        Some(choose|i: int| is_winner(cases, k, i))
    } else {
        None
    }
}

proof fn lemma_winner_unique(cases: Seq<CaseKeys>, k: int, i: int)
    requires
        is_winner(cases, k, i),
    ensures
        winner(cases, k) == Some(i),
{
    assert(has_eligible(cases, k));
    let w = choose|w: int| is_winner(cases, k, w);
    assert(is_winner(cases, k, w));
    if w < i {
        assert(key(cases[i], k) < key(cases[w], k));
    }
    if i < w {
        assert(key(cases[w], k) < key(cases[i], k));
    }
}

fn criterion_label(k: usize) -> (r: &'static str)
    requires
        k < CRITERIA,
    ensures
        r@ == criterion_label_spec(k as int),
{
    if k == 0 {
        "effort orientation max"
    } else if k == 1 {
        "effort pivot max"
    } else if k == 2 {
        "charnière inversée"
    } else if k == 3 {
        "compression"
    } else if k == 4 {
        "deux zones chargées"
    } else {
        "inclinaison extrême"
    }
}

fn is_eligible(c: &CaseKeys, k: usize) -> (r: bool)
    ensures
        r == eligible(*c, k as int),
{
    if k == 2 {
        c.hinge_reversed
    } else if k == 3 {
        !c.traction
    } else {
        true
    }
}

fn key_of(c: &CaseKeys, k: usize) -> (r: u64)
    ensures
        r == key(*c, k as int),
{
    if k == 0 || k == 3 {
        c.orientation_rank
    } else if k == 1 || k == 2 {
        c.pivot_rank
    } else if k == 4 {
        c.two_zones_rank
    } else {
        c.inclination_rank
    }
}

/// The case that wins criterion `k`.
pub fn criterion_winner(cases: &Vec<CaseKeys>, k: usize) -> (r: Option<usize>)
    ensures
        r matches Some(i) ==> winner(cases@, k as int) == Some(i as int) && is_winner(cases@, k as int, i as int),
        r is None <==> winner(cases@, k as int) is None,
{
    let mut best: Option<usize> = None;
    let mut i: usize = 0;
    while i < cases.len()
        invariant
            i <= cases@.len(),
            best matches Some(b) ==> {
                &&& b < i
                &&& eligible(cases@[b as int], k as int)
                &&& forall|j: int| 0 <= j < i && eligible(cases@[j], k as int) ==> key(cases@[j], k as int) <= key(cases@[b as int], k as int)
                &&& forall|j: int| b < j < i && eligible(cases@[j], k as int) ==> key(cases@[j], k as int) < key(cases@[b as int], k as int)
            },
            best is None ==> forall|j: int| 0 <= j < i ==> !eligible(cases@[j], k as int),
        decreases cases@.len() - i,
    {
        if is_eligible(&cases[i], k) {
            match best {
                None => {
                    best = Some(i);
                },
                Some(b) => {
                    if key_of(&cases[i], k) >= key_of(&cases[b], k) {
                        best = Some(i);
                    }
                },
            }
        }
        i += 1;
    }
    match best {
        Some(b) => {
            proof {
                lemma_winner_unique(cases@, k as int, b as int);
            }
        },
        None => {
            proof {
                assert(!has_eligible(cases@, k as int));
            }
        },
    }
    best
}

/// `i` is the last case with the largest key for criterion `k` among the
/// eligible ones of the first `n`.
spec fn is_best_upto(cases: Seq<CaseKeys>, k: int, n: int, i: int) -> bool {
    &&& 0 <= i < n
    &&& eligible(cases[i], k)
    &&& forall|j: int| 0 <= j < n && eligible(cases[j], k) ==> key(cases[j], k) <= key(cases[i], k)
    &&& forall|j: int| i < j < n && eligible(cases[j], k) ==> key(cases[j], k) < key(cases[i], k)
}

proof fn lemma_best_upto(cases: Seq<CaseKeys>, k: int, n: int) -> (r: Option<int>)
    requires
        0 <= n <= cases.len(),
    ensures
        r matches Some(i) ==> is_best_upto(cases, k, n, i),
        r is None ==> forall|j: int| 0 <= j < n ==> !eligible(cases[j], k),
    decreases n,
{
    if n == 0 {
        None
    } else {
        let prev = lemma_best_upto(cases, k, n - 1);
        if eligible(cases[n - 1], k) {
            match prev {
                None => Some(n - 1),
                Some(b) => if key(cases[n - 1], k) >= key(cases[b], k) {
                    Some(n - 1)
                } else {
                    Some(b)
                },
            }
        } else {
            prev
        }
    }
}

proof fn lemma_winner_exists(cases: Seq<CaseKeys>, k: int)
    ensures
        has_eligible(cases, k) ==> (winner(cases, k) matches Some(w) && is_winner(cases, k, w)),
        !has_eligible(cases, k) ==> winner(cases, k) is None,
{
    let r = lemma_best_upto(cases, k, cases.len() as int);
    if let Some(i) = r {
        assert(is_winner(cases, k, i));
        lemma_winner_unique(cases, k, i);
    }
}

/// Each load path of block A is won by the case with the largest magnitude
/// it names, among the cases it considers, the last such case on a tie:
/// the largest orientation force (of all cases), the largest pivot force (of
/// all cases), the largest pivot force among the cases with the hinge
/// reversed, the largest orientation force among the cases in compression
/// (the crown pin pushing), both zones loaded (the largest smaller force),
/// the extreme inclination. A path has no winner exactly when no case is
/// considered.
pub proof fn each_load_path_is_won_by_its_largest_force(cases: Seq<CaseKeys>)
    ensures
        forall|i: int|
            winner(cases, 0) == Some(i) ==> 0 <= i < cases.len() && (forall|j: int|
                0 <= j < cases.len() ==> cases[j].orientation_rank <= cases[i].orientation_rank) && (forall|j: int|
                i < j < cases.len() ==> cases[j].orientation_rank < cases[i].orientation_rank),
        forall|i: int|
            winner(cases, 1) == Some(i) ==> 0 <= i < cases.len() && (forall|j: int|
                0 <= j < cases.len() ==> cases[j].pivot_rank <= cases[i].pivot_rank) && (forall|j: int|
                i < j < cases.len() ==> cases[j].pivot_rank < cases[i].pivot_rank),
        forall|i: int|
            winner(cases, 2) == Some(i) ==> 0 <= i < cases.len() && cases[i].hinge_reversed && (forall|j: int|
                0 <= j < cases.len() && cases[j].hinge_reversed ==> cases[j].pivot_rank <= cases[i].pivot_rank)
                && (forall|j: int|
                i < j < cases.len() && cases[j].hinge_reversed ==> cases[j].pivot_rank < cases[i].pivot_rank),
        forall|i: int|
            winner(cases, 3) == Some(i) ==> 0 <= i < cases.len() && !cases[i].traction && (forall|j: int|
                0 <= j < cases.len() && !cases[j].traction ==> cases[j].orientation_rank
                    <= cases[i].orientation_rank) && (forall|j: int|
                i < j < cases.len() && !cases[j].traction ==> cases[j].orientation_rank
                    < cases[i].orientation_rank),
        forall|i: int|
            winner(cases, 4) == Some(i) ==> 0 <= i < cases.len() && (forall|j: int|
                0 <= j < cases.len() ==> cases[j].two_zones_rank <= cases[i].two_zones_rank) && (forall|j: int|
                i < j < cases.len() ==> cases[j].two_zones_rank < cases[i].two_zones_rank),
        forall|i: int|
            winner(cases, 5) == Some(i) ==> 0 <= i < cases.len() && (forall|j: int|
                0 <= j < cases.len() ==> cases[j].inclination_rank <= cases[i].inclination_rank) && (forall|j: int|
                i < j < cases.len() ==> cases[j].inclination_rank < cases[i].inclination_rank),
        winner(cases, 0) is None <==> cases.len() == 0,
        winner(cases, 1) is None <==> cases.len() == 0,
        winner(cases, 2) is None <==> forall|j: int| 0 <= j < cases.len() ==> !cases[j].hinge_reversed,
        winner(cases, 3) is None <==> forall|j: int| 0 <= j < cases.len() ==> cases[j].traction,
        winner(cases, 4) is None <==> cases.len() == 0,
        winner(cases, 5) is None <==> cases.len() == 0,
{
    lemma_winner_exists(cases, 0);
    lemma_winner_exists(cases, 1);
    lemma_winner_exists(cases, 2);
    lemma_winner_exists(cases, 3);
    lemma_winner_exists(cases, 4);
    lemma_winner_exists(cases, 5);
    if cases.len() > 0 {
        assert(eligible(cases[0], 0) && eligible(cases[0], 1) && eligible(cases[0], 4) && eligible(cases[0], 5));
    }
    assert(forall|j: int| 0 <= j < cases.len() && cases[j].hinge_reversed ==> eligible(cases[j], 2));
    assert(forall|j: int| 0 <= j < cases.len() && !cases[j].traction ==> eligible(cases[j], 3));
}

/// A case retained in block A, with every load path it wins.
#[derive(Clone, Debug)]
pub struct BlockACase {
    pub labels: Vec<&'static str>,
    pub case_index: usize,
}

pub open spec fn label_views(labels: Seq<&'static str>) -> Seq<Seq<char>> {
    labels.map_values(|l: &'static str| l@)
}

/// Labels, in criterion order, of the first `k` criteria that case `x` wins.
pub open spec fn labels_for(cases: Seq<CaseKeys>, x: int, k: int) -> Seq<Seq<char>>
    decreases k,
{
    if k <= 0 {
        seq![]
    } else {
        let prev = labels_for(cases, x, k - 1);
        if winner(cases, k - 1) == Some(x) {
            prev.push(criterion_label_spec(k - 1))
        } else {
            prev
        }
    }
}

/// Case `x` wins one of the first `k` criteria.
pub open spec fn wins_before(cases: Seq<CaseKeys>, x: int, k: int) -> bool {
    exists|j: int| 0 <= j < k && winner(cases, j) == Some(x)
}

/// The first criterion that case `x` wins.
pub open spec fn first_win(cases: Seq<CaseKeys>, x: int) -> int {
    choose|j: int|
        0 <= j < CRITERIA && winner(cases, j) == Some(x) && forall|i: int|
            0 <= i < j ==> winner(cases, i) != Some(x)
}

proof fn lemma_first_win(cases: Seq<CaseKeys>, x: int, j: int)
    requires
        0 <= j < CRITERIA,
        winner(cases, j) == Some(x),
        forall|i: int| 0 <= i < j ==> winner(cases, i) != Some(x),
    ensures
        first_win(cases, x) == j,
{
    let f = first_win(cases, x);
    assert(0 <= f < CRITERIA && winner(cases, f) == Some(x) && forall|i: int|
        0 <= i < f ==> winner(cases, i) != Some(x));
}

proof fn lemma_labels_for_empty(cases: Seq<CaseKeys>, x: int, k: int)
    requires
        !wins_before(cases, x, k),
    ensures
        labels_for(cases, x, k) == Seq::<Seq<char>>::empty(),
    decreases k,
{
    if k > 0 {
        assert(!wins_before(cases, x, k - 1)) by {
            if wins_before(cases, x, k - 1) {
                let j = choose|j: int| 0 <= j < k - 1 && winner(cases, j) == Some(x);
                assert(0 <= j < k && winner(cases, j) == Some(x));
            }
        }
        lemma_labels_for_empty(cases, x, k - 1);
        assert(winner(cases, k - 1) != Some(x));
    }
}

/// What block A must hold after examining the first `k` criteria.
pub open spec fn block_a_after(cases: Seq<CaseKeys>, out: Seq<BlockACase>, k: int) -> bool {
    &&& forall|p: int, q: int|
        0 <= p < q < out.len() ==> out[p].case_index != out[q].case_index
    &&& forall|p: int|
        0 <= p < out.len() ==> {
            &&& label_views((#[trigger] out[p]).labels@) == labels_for(cases, out[p].case_index as int, k)
            &&& wins_before(cases, out[p].case_index as int, k)
        }
    &&& forall|j: int|
        0 <= j < k && (#[trigger] winner(cases, j)) is Some ==> exists|p: int|
            0 <= p < out.len() && Some(out[p].case_index as int) == winner(cases, j)
    &&& forall|p: int, q: int|
        0 <= p < q < out.len() ==> first_win(cases, out[p].case_index as int) < first_win(
            cases,
            out[q].case_index as int,
        )
}

/// Block A: one case per distinct load path (largest orientation force,
/// largest pivot force, largest pivot force with the hinge reversed, largest
/// orientation force in compression, both zones loaded, extreme inclination),
/// merged when the same case wins several criteria. A criterion no case is
/// eligible for yields nothing.
pub fn select_block_a(cases: &Vec<CaseKeys>) -> (r: Vec<BlockACase>)
    ensures
        block_a_after(cases@, r@, CRITERIA as int),
{
    let mut out: Vec<BlockACase> = Vec::new();
    let mut k: usize = 0;
    while k < CRITERIA
        invariant
            k <= CRITERIA,
            block_a_after(cases@, out@, k as int),
        decreases CRITERIA - k,
    {
        let ghost before = out@;
        let w = criterion_winner(cases, k);
        match w {
            None => {
                proof {
                    assert forall|p: int| 0 <= p < out@.len() implies label_views(
                        (#[trigger] out@[p]).labels@,
                    ) == labels_for(cases@, out@[p].case_index as int, k + 1) && wins_before(
                        cases@,
                        out@[p].case_index as int,
                        k + 1,
                    ) by {
                        let x = out@[p].case_index as int;
                        let j = choose|j: int| 0 <= j < k && winner(cases@, j) == Some(x);
                        assert(0 <= j < k + 1 && winner(cases@, j) == Some(x));
                    }
                }
            },
            Some(idx) => {
                let label = criterion_label(k);
                let mut p: usize = 0;
                let mut found: Option<usize> = None;
                while p < out.len()
                    invariant
                        p <= out@.len(),
                        found matches Some(f) ==> f < out@.len() && out@[f as int].case_index == idx,
                        found is None ==> forall|q: int| 0 <= q < p ==> out@[q].case_index != idx,
                    decreases out@.len() - p,
                {
                    if found.is_none() && out[p].case_index == idx {
                        found = Some(p);
                    }
                    p += 1;
                }
                match found {
                    Some(f) => {
                        let mut e = out.remove(f);
                        e.labels.push(label);
                        out.insert(f, e);
                        proof {
                            assert(out@ =~= before.update(f as int, out@[f as int]));
                            assert forall|q: int| 0 <= q < out@.len() implies label_views(
                                (#[trigger] out@[q]).labels@,
                            ) == labels_for(cases@, out@[q].case_index as int, k + 1)
                                && wins_before(cases@, out@[q].case_index as int, k + 1) by {
                                let x = out@[q].case_index as int;
                                assert(wins_before(cases@, x, k as int));
                                let j = choose|j: int| 0 <= j < k && winner(cases@, j) == Some(x);
                                assert(0 <= j < k + 1 && winner(cases@, j) == Some(x));
                                if q == f {
                                    assert(label_views(out@[q].labels@) =~= label_views(
                                        before[q].labels@,
                                    ).push(criterion_label_spec(k as int)));
                                } else {
                                    assert(out@[q] == before[q]);
                                }
                            }
                            assert forall|j: int|
                                0 <= j < k + 1 && (#[trigger] winner(cases@, j)) is Some implies exists|
                                q: int,
                            | 0 <= q < out@.len() && Some(out@[q].case_index as int) == winner(
                                cases@,
                                j,
                            ) by {
                                if j < k {
                                    let q = choose|q: int|
                                        0 <= q < before.len() && Some(before[q].case_index as int)
                                            == winner(cases@, j);
                                    assert(out@[q].case_index == before[q].case_index);
                                } else {
                                    assert(Some(out@[f as int].case_index as int) == winner(cases@, j));
                                }
                            }
                        }
                    },
                    None => {
                        let mut labels: Vec<&'static str> = Vec::new();
                        labels.push(label);
                        out.push(BlockACase { labels, case_index: idx });
                        proof {
                            let x = idx as int;
                            assert(!wins_before(cases@, x, k as int)) by {
                                if wins_before(cases@, x, k as int) {
                                    let j = choose|j: int| 0 <= j < k && winner(cases@, j) == Some(x);
                                    assert(winner(cases@, j) is Some);
                                    let q = choose|q: int|
                                        0 <= q < before.len() && Some(before[q].case_index as int)
                                            == winner(cases@, j);
                                    assert(before[q].case_index == idx);
                                }
                            }
                            lemma_labels_for_empty(cases@, x, k as int);
                            assert forall|i: int| 0 <= i < k implies winner(cases@, i) != Some(x) by {
                                if winner(cases@, i) == Some(x) {
                                    assert(wins_before(cases@, x, k as int));
                                }
                            }
                            lemma_first_win(cases@, x, k as int);
                            let n = before.len() as int;
                            assert forall|q: int| 0 <= q < out@.len() implies label_views(
                                (#[trigger] out@[q]).labels@,
                            ) == labels_for(cases@, out@[q].case_index as int, k + 1)
                                && wins_before(cases@, out@[q].case_index as int, k + 1) by {
                                if q == n {
                                    assert(label_views(out@[q].labels@) =~= seq![
                                        criterion_label_spec(k as int),
                                    ]);
                                    assert(labels_for(cases@, x, k + 1) =~= seq![
                                        criterion_label_spec(k as int),
                                    ]);
                                    assert(0 <= k < k + 1 && winner(cases@, k as int) == Some(x));
                                } else {
                                    assert(out@[q] == before[q]);
                                    let y = out@[q].case_index as int;
                                    let j = choose|j: int| 0 <= j < k && winner(cases@, j) == Some(y);
                                    assert(0 <= j < k + 1 && winner(cases@, j) == Some(y));
                                }
                            }
                            assert forall|q: int| 0 <= q < n implies first_win(
                                cases@,
                                (#[trigger] out@[q]).case_index as int,
                            ) < k by {
                                let y = out@[q].case_index as int;
                                assert(out@[q] == before[q]);
                                let j = choose|j: int| 0 <= j < k && winner(cases@, j) == Some(y);
                                let f = first_win(cases@, y);
                                assert(0 <= j < CRITERIA && winner(cases@, j) == Some(y));
                                if f >= k {
                                    assert(winner(cases@, j) != Some(y));
                                }
                            }
                            assert forall|j: int|
                                0 <= j < k + 1 && (#[trigger] winner(cases@, j)) is Some implies exists|
                                q: int,
                            | 0 <= q < out@.len() && Some(out@[q].case_index as int) == winner(
                                cases@,
                                j,
                            ) by {
                                if j < k {
                                    let q = choose|q: int|
                                        0 <= q < before.len() && Some(before[q].case_index as int)
                                            == winner(cases@, j);
                                    assert(out@[q].case_index == before[q].case_index);
                                } else {
                                    assert(Some(out@[n].case_index as int) == winner(cases@, j));
                                }
                            }
                        }
                    },
                }
            },
        }
        k += 1;
    }
    out
}

proof fn lemma_labels_without_criterion(cases: Seq<CaseKeys>, x: int, k: int, n: int)
    requires
        0 <= k < CRITERIA,
        winner(cases, k) is None,
        0 <= n <= CRITERIA,
    ensures
        !labels_for(cases, x, n).contains(criterion_label_spec(k)),
    decreases n,
{
    if n > 0 {
        lemma_labels_without_criterion(cases, x, k, n - 1);
        let prev = labels_for(cases, x, n - 1);
        if winner(cases, n - 1) == Some(x) {
            assert(n - 1 != k);
            assert(criterion_label_spec(n - 1) != criterion_label_spec(k)) by {
                reveal_strlit("effort orientation max");
                reveal_strlit("effort pivot max");
                reveal_strlit("charnière inversée");
                reveal_strlit("compression");
                reveal_strlit("deux zones chargées");
                reveal_strlit("inclinaison extrême");
                assert(criterion_label_spec(n - 1).len() != criterion_label_spec(k).len()
                    || criterion_label_spec(n - 1)[0] != criterion_label_spec(k)[0]
                    || criterion_label_spec(n - 1)[7] != criterion_label_spec(k)[7]);
            }
            let s = prev.push(criterion_label_spec(n - 1));
            if s.contains(criterion_label_spec(k)) {
                let j = choose|j: int| 0 <= j < s.len() && s[j] == criterion_label_spec(k);
                if j < prev.len() {
                    assert(prev[j] == criterion_label_spec(k));
                }
            }
        }
    }
}

/// A criterion that no case is eligible for (no joint in compression, no
/// reversed hinge) yields no entry: no case of block A carries its label.
pub proof fn a_criterion_without_candidates_names_no_case(cases: Seq<CaseKeys>, out: Seq<BlockACase>, k: int)
    requires
        block_a_after(cases, out, CRITERIA as int),
        0 <= k < CRITERIA,
        forall|i: int| 0 <= i < cases.len() ==> !eligible(cases[i], k),
    ensures
        forall|p: int| 0 <= p < out.len() ==> !label_views(#[trigger] out[p].labels@).contains(criterion_label_spec(k)),
{
    assert(!has_eligible(cases, k));
    assert forall|p: int| 0 <= p < out.len() implies !label_views(#[trigger] out[p].labels@).contains(criterion_label_spec(k)) by {
        lemma_labels_without_criterion(cases, out[p].case_index as int, k, CRITERIA as int);
    }
}

/// Block A of no case is empty.
pub proof fn block_a_of_no_case_is_empty(cases: Seq<CaseKeys>, out: Seq<BlockACase>)
    requires
        block_a_after(cases, out, CRITERIA as int),
        cases.len() == 0,
    ensures
        out.len() == 0,
{
    if out.len() > 0 {
        let x = out[0].case_index as int;
        assert(wins_before(cases, x, CRITERIA as int));
        let j = choose|j: int| 0 <= j < CRITERIA && winner(cases, j) == Some(x);
        assert(!has_eligible(cases, j));
    }
}

/// What the envelope reads of one joint load case.
#[derive(Clone, Copy, Debug, PartialEq, Eq, Structural)]
pub struct EnvelopeKeys {
    /// The splay, in tenths of a degree, rounded: drilled splays are compared
    /// on this key, never as real numbers.
    pub splay_tenths: i64,
    /// Rank of the larger of the orientation and pivot force magnitudes.
    pub load_rank: u64,
}

/// A case retained in block B: the worst case of one drilled splay.
#[derive(Clone, Copy, Debug, PartialEq, Eq, Structural)]
pub struct BlockBCase {
    pub splay_tenths: i64,
    pub case_index: usize,
    /// Already in block A: same cluster, same joint, hence the same loading.
    pub duplicate: bool,
}

/// Some case among the first `n` is at splay `key`.
pub open spec fn has_splay(cases: Seq<EnvelopeKeys>, n: int, key: i64) -> bool {
    exists|i: int| 0 <= i < n && cases[i].splay_tenths == key
}

/// Among the first `n` cases, `i` is the worst at splay `key`: the largest
/// load, and the first to reach it.
pub open spec fn is_envelope_winner(cases: Seq<EnvelopeKeys>, n: int, key: i64, i: int) -> bool {
    &&& 0 <= i < n
    &&& cases[i].splay_tenths == key
    &&& forall|j: int|
        0 <= j < n && cases[j].splay_tenths == key ==> cases[j].load_rank <= cases[i].load_rank
    &&& forall|j: int|
        0 <= j < i && cases[j].splay_tenths == key ==> cases[j].load_rank < cases[i].load_rank
}

/// The envelope of the first `n` cases: one entry per splay present, in
/// increasing splay order, each holding its worst case.
pub open spec fn is_envelope(cases: Seq<EnvelopeKeys>, n: int, out: Seq<(i64, usize)>) -> bool {
    &&& forall|p: int, q: int| 0 <= p < q < out.len() ==> out[p].0 < out[q].0
    &&& forall|p: int|
        0 <= p < out.len() ==> is_envelope_winner(cases, n, (#[trigger] out[p]).0, out[p].1 as int)
    &&& forall|i: int|
        #![trigger cases[i]]
        0 <= i < n ==> exists|p: int|
            0 <= p < out.len() && (#[trigger] out[p]).0 == cases[i].splay_tenths
}

/// Case `i` is retained in block A.
pub open spec fn in_block_a(block_a: Seq<BlockACase>, i: int) -> bool {
    exists|q: int| 0 <= q < block_a.len() && block_a[q].case_index == i
}

/// Block B, per splay entry.
pub open spec fn block_b_entries(cases: Seq<EnvelopeKeys>, block_a: Seq<BlockACase>, out: Seq<BlockBCase>) -> bool {
    &&& is_envelope(cases, cases.len() as int, out.map_values(|b: BlockBCase| (b.splay_tenths, b.case_index)))
    &&& forall|p: int| 0 <= p < out.len() ==> (#[trigger] out[p]).duplicate == in_block_a(block_a, out[p].case_index as int)
}

#[verifier::rlimit(40)]
#[verifier::spinoff_prover]
fn envelope(cases: &Vec<EnvelopeKeys>) -> (r: Vec<(i64, usize)>)
    ensures
        is_envelope(cases@, cases@.len() as int, r@),
{
    let mut out: Vec<(i64, usize)> = Vec::new();
    let mut i: usize = 0;
    while i < cases.len()
        invariant
            i <= cases@.len(),
            is_envelope(cases@, i as int, out@),
        decreases cases@.len() - i,
    {
        let key = cases[i].splay_tenths;
        let ghost before = out@;
        let mut pos: usize = 0;
        while pos < out.len() && out[pos].0 < key
            invariant
                pos <= out@.len(),
                forall|q: int| 0 <= q < pos ==> out@[q].0 < key,
            decreases out@.len() - pos,
        {
            pos += 1;
        }
        if pos < out.len() && out[pos].0 == key {
            let best = out[pos].1;
            if cases[i].load_rank > cases[best].load_rank {
                out.set(pos, (key, i));
                proof {
                    assert forall|p: int| 0 <= p < out@.len() implies is_envelope_winner(
                        cases@,
                        i + 1,
                        (#[trigger] out@[p]).0,
                        out@[p].1 as int,
                    ) by {
                        if p != pos {
                            assert(out@[p] == before[p]);
                            assert(before[p].0 != key);
                        }
                    }
                    assert forall|j: int| #![trigger cases@[j]] 0 <= j < i + 1 implies exists|p: int|
                        0 <= p < out@.len() && (#[trigger] out@[p]).0 == cases@[j].splay_tenths by {
                        if j < i {
                            let p = choose|p: int|
                                0 <= p < before.len() && (#[trigger] before[p]).0 == cases@[j].splay_tenths;
                            assert(out@[p].0 == before[p].0);
                        } else {
                            assert(out@[pos as int].0 == cases@[j].splay_tenths);
                        }
                    }
                }
            } else {
                proof {
                    assert forall|p: int| 0 <= p < out@.len() implies is_envelope_winner(
                        cases@,
                        i + 1,
                        (#[trigger] out@[p]).0,
                        out@[p].1 as int,
                    ) by {
                        if p != pos {
                            assert(before[p].0 != key);
                        }
                    }
                    assert forall|j: int| #![trigger cases@[j]] 0 <= j < i + 1 implies exists|p: int|
                        0 <= p < out@.len() && (#[trigger] out@[p]).0 == cases@[j].splay_tenths by {
                        if j < i {
                            let p = choose|p: int|
                                0 <= p < before.len() && (#[trigger] before[p]).0 == cases@[j].splay_tenths;
                            assert(out@[p].0 == before[p].0);
                        } else {
                            assert(out@[pos as int].0 == cases@[j].splay_tenths);
                        }
                    }
                }
            }
        } else {
            proof {
                assert(!has_splay(cases@, i as int, key)) by {
                    if has_splay(cases@, i as int, key) {
                        let j = choose|j: int| 0 <= j < i && cases@[j].splay_tenths == key;
                        let p = choose|p: int|
                            0 <= p < before.len() && (#[trigger] before[p]).0 == cases@[j].splay_tenths;
                        if p < pos {
                            assert(before[p].0 < key);
                        } else if p > pos {
                            assert(before[pos as int].0 < before[p].0);
                        }
                    }
                }
            }
            out.insert(pos, (key, i));
            proof {
                assert forall|p: int, q: int| 0 <= p < q < out@.len() implies out@[p].0 < out@[q].0 by {
                    if q < pos {
                        assert(out@[p] == before[p] && out@[q] == before[q]);
                    } else if q == pos {
                        assert(out@[p] == before[p]);
                    } else if p < pos {
                        assert(out@[p] == before[p] && out@[q] == before[q - 1]);
                        if (q - 1) > pos {
                            assert(before[pos as int].0 < before[q - 1].0);
                        }
                    } else if p == pos {
                        assert(out@[q] == before[q - 1]);
                    } else {
                        assert(out@[p] == before[p - 1] && out@[q] == before[q - 1]);
                    }
                }
                assert forall|p: int| 0 <= p < out@.len() implies is_envelope_winner(
                    cases@,
                    i + 1,
                    (#[trigger] out@[p]).0,
                    out@[p].1 as int,
                ) by {
                    if p < pos {
                        assert(out@[p] == before[p]);
                        assert(is_envelope_winner(cases@, i as int, before[p].0, before[p].1 as int));
                    } else if p > pos {
                        assert(out@[p] == before[p - 1]);
                        assert(is_envelope_winner(cases@, i as int, before[p - 1].0, before[p - 1].1 as int));
                    } else {
                        assert forall|j: int| 0 <= j < i + 1 && cases@[j].splay_tenths == key implies j == i by {
                            if j < i {
                                assert(has_splay(cases@, i as int, key));
                            }
                        }
                    }
                }
                assert forall|j: int| #![trigger cases@[j]] 0 <= j < i + 1 implies exists|p: int|
                    0 <= p < out@.len() && (#[trigger] out@[p]).0 == cases@[j].splay_tenths by {
                    if j < i {
                        let p = choose|p: int|
                            0 <= p < before.len() && (#[trigger] before[p]).0 == cases@[j].splay_tenths;
                        if p < pos {
                            assert(out@[p] == before[p]);
                        } else {
                            assert(out@[p + 1] == before[p]);
                        }
                    } else {
                        assert(out@[pos as int].0 == cases@[j].splay_tenths);
                    }
                }
            }
        }
        i += 1;
    }
    out
}

fn in_block_a_exec(block_a: &Vec<BlockACase>, i: usize) -> (r: bool)
    ensures
        r == in_block_a(block_a@, i as int),
{
    let mut q: usize = 0;
    while q < block_a.len()
        invariant
            q <= block_a@.len(),
            forall|k: int| 0 <= k < q ==> block_a@[k].case_index != i,
        decreases block_a@.len() - q,
    {
        if block_a[q].case_index == i {
            return true;
        }
        q += 1;
    }
    false
}

/// Block B: the worst case per drilled splay (the largest of the orientation
/// and pivot forces, the first case to reach it), one entry per splay present,
/// in increasing splay order, each flagged when block A already holds it.
pub fn select_block_b(cases: &Vec<EnvelopeKeys>, block_a: &Vec<BlockACase>) -> (r: Vec<BlockBCase>)
    ensures
        block_b_entries(cases@, block_a@, r@),
{
    let env = envelope(cases);
    let mut out: Vec<BlockBCase> = Vec::new();
    let mut p: usize = 0;
    while p < env.len()
        invariant
            p <= env@.len(),
            out@.len() == p,
            forall|q: int| 0 <= q < p ==> (#[trigger] out@[q]).splay_tenths == env@[q].0 && out@[q].case_index == env@[q].1
                && out@[q].duplicate == in_block_a(block_a@, env@[q].1 as int),
        decreases env@.len() - p,
    {
        let (key, i) = env[p];
        let duplicate = in_block_a_exec(block_a, i);
        out.push(BlockBCase { splay_tenths: key, case_index: i, duplicate });
        p += 1;
    }
    proof {
        let m = out@.map_values(|b: BlockBCase| (b.splay_tenths, b.case_index));
        assert(m =~= env@);
    }
    out
}

} // verus!
