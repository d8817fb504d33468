//! Aggregate of the worst cases over every configuration: impossible clusters
//! are set apart with their reason, never mixed silently with the rest; the
//! joints of the others are bucketed by compartment; and the drilled splays
//! that no retained case covers are named.

use super::model::{ClusterRefs, Compartment};
use super::worst_cases_selector::BlockBCase;
use crate::bumper::BumperModel;
use vstd::prelude::*;
use vstd::string::*;

verus! {

/// A cluster left out of the aggregate, with the reason.
#[derive(Clone, Debug)]
pub struct ImpossibleClusterReport {
    pub cluster_name: String,
    pub reason: String,
}

/// Some bumper of the catalogue is named `id`.
pub open spec fn has_bumper(bumpers: Seq<BumperModel>, id: Seq<char>) -> bool {
    exists|b: int| 0 <= b < bumpers.len() && bumpers[b].id@ == id
}

/// The first bumper of the catalogue named `id`.
pub fn find_bumper(bumpers: &Vec<BumperModel>, id: &String) -> (r: Option<usize>)
    ensures
        r matches Some(b) ==> b < bumpers@.len() && bumpers@[b as int].id@ == id@ && forall|k: int|
            0 <= k < b ==> bumpers@[k].id@ != id@,
        r is None ==> !has_bumper(bumpers@, id@),
{
    let mut i: usize = 0;
    while i < bumpers.len()
        invariant
            i <= bumpers@.len(),
            forall|k: int| 0 <= k < i ==> bumpers@[k].id@ != id@,
        decreases bumpers@.len() - i,
    {
        if bumpers[i].id == *id {
            return Some(i);
        }
        i += 1;
    }
    None
}

/// A joint load case of a solved cluster: the cluster, and the joint number
/// counted from 1 at the top of the cluster.
#[derive(Clone, Copy, Debug, PartialEq, Eq, Structural)]
pub struct CaseRef {
    pub cluster_index: usize,
    pub joint_number: usize,
}

/// How the aggregate sorts the clusters: the load cases of each compartment,
/// and the clusters set apart.
#[derive(Clone, Debug)]
pub struct AggregateOutline {
    pub flown: Vec<CaseRef>,
    pub stacked: Vec<CaseRef>,
    pub impossible_clusters: Vec<ImpossibleClusterReport>,
}

pub open spec fn missing_bumper_message(id: Seq<char>) -> Seq<char> {
    "Bumper \""@ + id + "\" introuvable : un bumper est obligatoire pour chaque grappe."@
}

/// The joints of cluster `c`, numbered from 1.
pub open spec fn joint_cases(c: int, joints: nat) -> Seq<(int, int)> {
    Seq::new(joints, |t: int| (c, t + 1))
}

/// The aggregate after the first `n` clusters: flown cases, stacked cases,
/// and (name, reason) of each cluster set apart — a cluster whose bumper is
/// not in the catalogue, or that the solver refuses.
pub open spec fn outline_spec(
    clusters: Seq<ClusterRefs>,
    bumpers: Seq<BumperModel>,
    solved: Seq<Result<usize, String>>,
    n: int,
) -> (Seq<(int, int)>, Seq<(int, int)>, Seq<(Seq<char>, Seq<char>)>)
    decreases n,
{
    if n <= 0 {
        (seq![], seq![], seq![])
    } else {
        let (f, s, imp) = outline_spec(clusters, bumpers, solved, n - 1);
        let c = clusters[n - 1];
        if !has_bumper(bumpers, c.bumper_model_id@) {
            (f, s, imp.push((c.name@, missing_bumper_message(c.bumper_model_id@))))
        } else {
            match solved[n - 1] {
                Err(reason) => (f, s, imp.push((c.name@, reason@))),
                Ok(joints) => if c.compartment == Compartment::Flown {
                    (f + joint_cases(n - 1, joints as nat), s, imp)
                } else {
                    (f, s + joint_cases(n - 1, joints as nat), imp)
                },
            }
        }
    }
}

pub open spec fn case_views(v: Seq<CaseRef>) -> Seq<(int, int)> {
    v.map_values(|c: CaseRef| (c.cluster_index as int, c.joint_number as int))
}

pub open spec fn report_views(v: Seq<ImpossibleClusterReport>) -> Seq<(Seq<char>, Seq<char>)> {
    v.map_values(|r: ImpossibleClusterReport| (r.cluster_name@, r.reason@))
}

fn push_joints(out: &mut Vec<CaseRef>, c: usize, joints: usize)
    ensures
        case_views(final(out)@) == case_views(old(out)@) + joint_cases(c as int, joints as nat),
{
    let ghost base = case_views(out@);
    let mut t: usize = 0;
    while t < joints
        invariant
            t <= joints,
            case_views(out@) == base + joint_cases(c as int, t as nat),
        decreases joints - t,
    {
        let ghost old_out = out@;
        out.push(CaseRef { cluster_index: c, joint_number: t + 1 });
        proof {
            assert(case_views(out@) =~= case_views(old_out).push((c as int, t + 1)));
            assert(joint_cases(c as int, (t + 1) as nat) =~= joint_cases(c as int, t as nat).push(
                (c as int, t + 1),
            ));
            assert(case_views(out@) =~= base + joint_cases(c as int, (t + 1) as nat));
        }
        t += 1;
    }
}

/// Sorts the clusters for the aggregate. `solved[c]` is what the solver gave
/// for cluster `c` — its joint count, or the reason it is impossible — and is
/// read only when the cluster's bumper is in the catalogue: a reference to no
/// bumper is an impossible configuration to report, never a failure of the
/// whole aggregate.
pub fn aggregate_outline(
    clusters: &Vec<ClusterRefs>,
    bumpers: &Vec<BumperModel>,
    solved: &Vec<Result<usize, String>>,
) -> (r: AggregateOutline)
    requires
        solved@.len() == clusters@.len(),
    ensures
        (case_views(r.flown@), case_views(r.stacked@), report_views(r.impossible_clusters@))
            == outline_spec(clusters@, bumpers@, solved@, clusters@.len() as int),
        forall|i: int|
            0 <= i < clusters@.len() && has_bumper(bumpers@, clusters@[i].bumper_model_id@) && solved@[i] is Err
                ==> #[trigger] report_views(r.impossible_clusters@).contains(
                (clusters@[i].name@, solved@[i]->Err_0@),
            ),
        forall|i: int|
            0 <= i < clusters@.len() && !has_bumper(bumpers@, clusters@[i].bumper_model_id@)
                ==> #[trigger] report_views(r.impossible_clusters@).contains(
                (clusters@[i].name@, missing_bumper_message(clusters@[i].bumper_model_id@)),
            ),
        forall|p: int|
            0 <= p < r.impossible_clusters@.len() ==> comes_from_set_apart(
                clusters@,
                bumpers@,
                solved@,
                clusters@.len() as int,
                #[trigger] report_views(r.impossible_clusters@)[p],
            ),
        r.impossible_clusters@.len() == set_apart_count(clusters@, bumpers@, solved@, clusters@.len() as int),
        forall|i: int, t: int|
            0 <= i < clusters@.len() && has_bumper(bumpers@, clusters@[i].bumper_model_id@) && solved@[i] is Ok
                && clusters@[i].compartment == Compartment::Flown && 1 <= t <= solved@[i]->Ok_0
                ==> #[trigger] case_views(r.flown@).contains((i, t)),
        forall|i: int, t: int|
            0 <= i < clusters@.len() && has_bumper(bumpers@, clusters@[i].bumper_model_id@) && solved@[i] is Ok
                && clusters@[i].compartment == Compartment::Stacked && 1 <= t <= solved@[i]->Ok_0
                ==> #[trigger] case_views(r.stacked@).contains((i, t)),
        forall|p: int|
            0 <= p < r.flown@.len() ==> {
                let i = (#[trigger] r.flown@[p]).cluster_index as int;
                let t = r.flown@[p].joint_number as int;
                &&& 0 <= i < clusters@.len()
                &&& has_bumper(bumpers@, clusters@[i].bumper_model_id@)
                &&& solved@[i] is Ok
                &&& clusters@[i].compartment == Compartment::Flown
                &&& 1 <= t <= solved@[i]->Ok_0
            },
        forall|p: int|
            0 <= p < r.stacked@.len() ==> {
                let i = (#[trigger] r.stacked@[p]).cluster_index as int;
                let t = r.stacked@[p].joint_number as int;
                &&& 0 <= i < clusters@.len()
                &&& has_bumper(bumpers@, clusters@[i].bumper_model_id@)
                &&& solved@[i] is Ok
                &&& clusters@[i].compartment == Compartment::Stacked
                &&& 1 <= t <= solved@[i]->Ok_0
            },
{
    let mut flown: Vec<CaseRef> = Vec::new();
    let mut stacked: Vec<CaseRef> = Vec::new();
    let mut impossible: Vec<ImpossibleClusterReport> = Vec::new();
    let mut i: usize = 0;
    proof {
        assert(case_views(flown@) =~= Seq::<(int, int)>::empty());
        assert(case_views(stacked@) =~= Seq::<(int, int)>::empty());
        assert(report_views(impossible@) =~= Seq::<(Seq<char>, Seq<char>)>::empty());
    }
    while i < clusters.len()
        invariant
            i <= clusters@.len(),
            solved@.len() == clusters@.len(),
            (case_views(flown@), case_views(stacked@), report_views(impossible@)) == outline_spec(
                clusters@,
                bumpers@,
                solved@,
                i as int,
            ),
        decreases clusters@.len() - i,
    {
        let c = &clusters[i];
        let ghost imp0 = report_views(impossible@);
        match find_bumper(bumpers, &c.bumper_model_id) {
            None => {
                let mut reason = String::from_str("Bumper \"");
                reason.append(c.bumper_model_id.as_str());
                reason.append("\" introuvable : un bumper est obligatoire pour chaque grappe.");
                impossible.push(ImpossibleClusterReport { cluster_name: c.name.clone(), reason });
                proof {
                    assert(report_views(impossible@) =~= imp0.push(
                        (c.name@, missing_bumper_message(c.bumper_model_id@)),
                    ));
                }
            },
            Some(_) => {
                match &solved[i] {
                    Err(reason) => {
                        impossible.push(
                            ImpossibleClusterReport {
                                cluster_name: c.name.clone(),
                                reason: reason.clone(),
                            },
                        );
                        proof {
                            assert(report_views(impossible@) =~= imp0.push((c.name@, reason@)));
                        }
                    },
                    Ok(joints) => {
                        match c.compartment {
                            Compartment::Flown => push_joints(&mut flown, i, *joints),
                            Compartment::Stacked => push_joints(&mut stacked, i, *joints),
                        }
                    },
                }
            },
        }
        i += 1;
    }
    proof {
        no_cluster_vanishes_from_the_aggregate(clusters@, bumpers@, solved@, clusters@.len() as int);
        let fv = case_views(flown@);
        let sv = case_views(stacked@);
        assert forall|p: int| 0 <= p < flown@.len() implies {
            let i = (#[trigger] flown@[p]).cluster_index as int;
            let t = flown@[p].joint_number as int;
            &&& 0 <= i < clusters@.len()
            &&& has_bumper(bumpers@, clusters@[i].bumper_model_id@)
            &&& solved@[i] is Ok
            &&& clusters@[i].compartment == Compartment::Flown
            &&& 1 <= t <= solved@[i]->Ok_0
        } by {
            assert(fv[p] == (flown@[p].cluster_index as int, flown@[p].joint_number as int));
        }
        assert forall|p: int| 0 <= p < stacked@.len() implies {
            let i = (#[trigger] stacked@[p]).cluster_index as int;
            let t = stacked@[p].joint_number as int;
            &&& 0 <= i < clusters@.len()
            &&& has_bumper(bumpers@, clusters@[i].bumper_model_id@)
            &&& solved@[i] is Ok
            &&& clusters@[i].compartment == Compartment::Stacked
            &&& 1 <= t <= solved@[i]->Ok_0
        } by {
            assert(sv[p] == (stacked@[p].cluster_index as int, stacked@[p].joint_number as int));
        }
    }
    AggregateOutline { flown, stacked, impossible_clusters: impossible }
}

/// `s` is strictly increasing.
pub open spec fn strictly_increasing(s: Seq<i64>) -> bool {
    forall|p: int, q: int| 0 <= p < q < s.len() ==> s[p] < s[q]
}

/// The drilled splays of the fleet, in tenths of a degree: every key given,
/// each once, in increasing order.
pub fn drilled_splay_keys(keys: &Vec<i64>) -> (r: Vec<i64>)
    ensures
        strictly_increasing(r@),
        forall|k: i64| r@.contains(k) <==> keys@.contains(k),
{
    let mut out: Vec<i64> = Vec::new();
    let mut i: usize = 0;
    while i < keys.len()
        invariant
            i <= keys@.len(),
            strictly_increasing(out@),
            forall|k: i64| out@.contains(k) <==> keys@.take(i as int).contains(k),
        decreases keys@.len() - i,
    {
        let key = keys[i];
        let ghost before = out@;
        let mut pos: usize = 0;
        while pos < out.len() && out[pos] < key
            invariant
                pos <= out@.len(),
                forall|q: int| 0 <= q < pos ==> out@[q] < key,
            decreases out@.len() - pos,
        {
            pos += 1;
        }
        proof {
            assert forall|k: i64| keys@.take(i + 1).contains(k) <==> (keys@.take(i as int).contains(k) || k == key) by {
                let t1 = keys@.take(i + 1);
                let t0 = keys@.take(i as int);
                if t1.contains(k) {
                    let j = choose|j: int| 0 <= j < t1.len() && #[trigger] t1[j] == k;
                    if j < i {
                        assert(t0[j] == k);
                    }
                }
                if t0.contains(k) {
                    let j = choose|j: int| 0 <= j < t0.len() && #[trigger] t0[j] == k;
                    assert(t1[j] == k);
                }
                if k == key {
                    assert(t1[i as int] == k);
                }
            }
        }
        if !(pos < out.len() && out[pos] == key) {
            out.insert(pos, key);
            proof {
                assert forall|p: int, q: int| 0 <= p < q < out@.len() implies out@[p] < out@[q] by {
                    if q < pos {
                        assert(out@[p] == before[p] && out@[q] == before[q]);
                    } else if q == pos {
                        assert(out@[p] == before[p]);
                    } else if p < pos {
                        assert(out@[p] == before[p] && out@[q] == before[q - 1]);
                        if q - 1 > pos {
                            assert(before[pos as int] < before[q - 1]);
                        }
                    } else if p == pos {
                        assert(out@[q] == before[q - 1]);
                    } else {
                        assert(out@[p] == before[p - 1] && out@[q] == before[q - 1]);
                    }
                }
                assert forall|k: i64| out@.contains(k) <==> (before.contains(k) || k == key) by {
                    if out@.contains(k) {
                        let j = choose|j: int| 0 <= j < out@.len() && out@[j] == k;
                        if j < pos {
                            assert(before[j] == k);
                        } else if j > pos {
                            assert(before[j - 1] == k);
                        }
                    }
                    if before.contains(k) {
                        let j = choose|j: int| 0 <= j < before.len() && before[j] == k;
                        if j < pos {
                            assert(out@[j] == k);
                        } else {
                            assert(out@[j + 1] == k);
                        }
                    }
                    if k == key {
                        assert(out@[pos as int] == k);
                    }
                }
                assert forall|k: i64| out@.contains(k) <==> keys@.take(i + 1).contains(k) by {
                    assert(before.contains(k) <==> keys@.take(i as int).contains(k));
                }
            }
        } else {
            proof {
                assert(out@[pos as int] == key);
                assert(out@.contains(key));
                assert(keys@.take(i as int).contains(key));
                assert forall|k: i64| out@.contains(k) <==> keys@.take(i + 1).contains(k) by {
                    assert(out@.contains(k) <==> keys@.take(i as int).contains(k));
                }
            }
        }
        i += 1;
    }
    proof {
        assert(keys@.take(keys@.len() as int) =~= keys@);
    }
    out
}

/// Block B holds an entry at splay `key`.
pub open spec fn covered(block_b: Seq<BlockBCase>, key: i64) -> bool {
    exists|p: int| 0 <= p < block_b.len() && block_b[p].splay_tenths == key
}

/// The drilled splays block B says nothing about, in drilled order.
pub open spec fn uncovered_spec(drilled: Seq<i64>, block_b: Seq<BlockBCase>) -> Seq<i64>
    decreases drilled.len(),
{
    if drilled.len() == 0 {
        seq![]
    } else {
        let rest = uncovered_spec(drilled.drop_last(), block_b);
        if covered(block_b, drilled.last()) {
            rest
        } else {
            rest.push(drilled.last())
        }
    }
}

fn is_covered(block_b: &Vec<BlockBCase>, key: i64) -> (r: bool)
    ensures
        r == covered(block_b@, key),
{
    let mut p: usize = 0;
    while p < block_b.len()
        invariant
            p <= block_b@.len(),
            forall|q: int| 0 <= q < p ==> block_b@[q].splay_tenths != key,
        decreases block_b@.len() - p,
    {
        if block_b[p].splay_tenths == key {
            return true;
        }
        p += 1;
    }
    false
}

/// Drilled holes with no worst case in block B. Not an error, but the
/// envelope is silent on these angles: it sizes nothing for them.
pub fn uncovered_splays(drilled: &Vec<i64>, block_b: &Vec<BlockBCase>) -> (r: Vec<i64>)
    ensures
        r@ == uncovered_spec(drilled@, block_b@),
{
    let mut out: Vec<i64> = Vec::new();
    let mut i: usize = 0;
    while i < drilled.len()
        invariant
            i <= drilled@.len(),
            out@ == uncovered_spec(drilled@.take(i as int), block_b@),
        decreases drilled@.len() - i,
    {
        proof {
            assert(drilled@.take(i + 1).drop_last() =~= drilled@.take(i as int));
            assert(drilled@.take(i + 1).last() == drilled@[i as int]);
        }
        if !is_covered(block_b, drilled[i]) {
            out.push(drilled[i]);
        }
        i += 1;
    }
    proof {
        assert(drilled@.take(drilled@.len() as int) =~= drilled@);
    }
    out
}

proof fn lemma_uncovered_members(drilled: Seq<i64>, block_b: Seq<BlockBCase>, key: i64)
    ensures
        uncovered_spec(drilled, block_b).contains(key) <==> (drilled.contains(key) && !covered(
            block_b,
            key,
        )),
    decreases drilled.len(),
{
    if drilled.len() > 0 {
        let rest = uncovered_spec(drilled.drop_last(), block_b);
        lemma_uncovered_members(drilled.drop_last(), block_b, key);
        if drilled.contains(key) && key != drilled.last() {
            let j = choose|j: int| 0 <= j < drilled.len() && drilled[j] == key;
            assert(drilled.drop_last()[j] == key);
        }
        if drilled.drop_last().contains(key) {
            let j = choose|j: int| 0 <= j < drilled.drop_last().len() && drilled.drop_last()[j] == key;
            assert(drilled[j] == key);
        }
        if !covered(block_b, drilled.last()) {
            let s = rest.push(drilled.last());
            assert(s[rest.len() as int] == drilled.last());
            if s.contains(key) && key != drilled.last() {
                let j = choose|j: int| 0 <= j < s.len() && s[j] == key;
                assert(rest[j] == key);
            }
            if rest.contains(key) {
                let j = choose|j: int| 0 <= j < rest.len() && rest[j] == key;
                assert(s[j] == key);
            }
        }
        assert(drilled[drilled.len() - 1] == drilled.last());
    }
}

/// The envelope names the drilled holes it says nothing about: every drilled
/// splay is either covered by block B or listed as uncovered, never both; and
/// nothing undrilled is listed.
pub proof fn drilled_splays_are_covered_or_named(drilled: Seq<i64>, block_b: Seq<BlockBCase>, key: i64)
    ensures
        drilled.contains(key) ==> (covered(block_b, key) != uncovered_spec(drilled, block_b).contains(key)),
        uncovered_spec(drilled, block_b).contains(key) ==> drilled.contains(key),
{
    lemma_uncovered_members(drilled, block_b, key);
}

/// Widening the drilling widens the list of uncovered splays: with the same
/// block B, every splay uncovered among fewer drilled holes stays uncovered
/// among more.
pub proof fn more_drilling_never_shortens_the_uncovered_list(
    drilled: Seq<i64>,
    wider: Seq<i64>,
    block_b: Seq<BlockBCase>,
    key: i64,
)
    requires
        forall|k: i64| drilled.contains(k) ==> wider.contains(k),
    ensures
        uncovered_spec(drilled, block_b).contains(key) ==> uncovered_spec(wider, block_b).contains(key),
{
    lemma_uncovered_members(drilled, block_b, key);
    lemma_uncovered_members(wider, block_b, key);
}

proof fn lemma_push_contains<A>(s: Seq<A>, x: A, y: A)
    ensures
        s.push(x).contains(y) <==> (s.contains(y) || y == x),
{
    if s.push(x).contains(y) {
        let j = choose|j: int| 0 <= j < s.push(x).len() && s.push(x)[j] == y;
        if j < s.len() {
            assert(s[j] == y);
        }
    }
    if s.contains(y) {
        let j = choose|j: int| 0 <= j < s.len() && s[j] == y;
        assert(s.push(x)[j] == y);
    }
    if y == x {
        assert(s.push(x)[s.len() as int] == y);
    }
}

/// Cluster `i` is set apart: its bumper is not in the catalogue, or the
/// solver refuses it.
pub open spec fn is_set_apart(
    clusters: Seq<ClusterRefs>,
    bumpers: Seq<BumperModel>,
    solved: Seq<Result<usize, String>>,
    i: int,
) -> bool {
    !has_bumper(bumpers, clusters[i].bumper_model_id@) || solved[i] is Err
}

/// `e` is what cluster `i` is set apart with: the missing bumper named, or the
/// solver's reason.
pub open spec fn set_apart_with(
    clusters: Seq<ClusterRefs>,
    bumpers: Seq<BumperModel>,
    solved: Seq<Result<usize, String>>,
    i: int,
    e: (Seq<char>, Seq<char>),
) -> bool {
    ||| !has_bumper(bumpers, clusters[i].bumper_model_id@) && e == (
        clusters[i].name@,
        missing_bumper_message(clusters[i].bumper_model_id@),
    )
    ||| has_bumper(bumpers, clusters[i].bumper_model_id@) && solved[i] is Err && e == (
        clusters[i].name@,
        solved[i]->Err_0@,
    )
}

/// `e` is what one of the first `n` clusters is set apart with.
pub open spec fn comes_from_set_apart(
    clusters: Seq<ClusterRefs>,
    bumpers: Seq<BumperModel>,
    solved: Seq<Result<usize, String>>,
    n: int,
    e: (Seq<char>, Seq<char>),
) -> bool {
    exists|i: int| 0 <= i < n && #[trigger] set_apart_with(clusters, bumpers, solved, i, e)
}

/// How many of the first `n` clusters are set apart.
pub open spec fn set_apart_count(
    clusters: Seq<ClusterRefs>,
    bumpers: Seq<BumperModel>,
    solved: Seq<Result<usize, String>>,
    n: int,
) -> nat
    decreases n,
{
    if n <= 0 {
        0
    } else if is_set_apart(clusters, bumpers, solved, n - 1) {
        set_apart_count(clusters, bumpers, solved, n - 1) + 1
    } else {
        set_apart_count(clusters, bumpers, solved, n - 1)
    }
}

/// No cluster vanishes from the aggregate and none is invented. Over the
/// first `n` clusters: a cluster whose bumper is missing is set apart with
/// the missing bumper named; a cluster with its bumper that the solver
/// refuses is set apart with the solver's reason; every entry set apart is
/// one of these, and there are exactly as many entries as such clusters. The
/// joints of each solved cluster, numbered from 1, are all in the bucket of
/// its compartment, and each bucket holds nothing else.
#[verifier::spinoff_prover]
#[verifier::rlimit(40)]
pub proof fn no_cluster_vanishes_from_the_aggregate(
    clusters: Seq<ClusterRefs>,
    bumpers: Seq<BumperModel>,
    solved: Seq<Result<usize, String>>,
    n: int,
)
    requires
        solved.len() == clusters.len(),
        0 <= n <= clusters.len(),
    ensures
        forall|i: int|
            0 <= i < n && !has_bumper(bumpers, clusters[i].bumper_model_id@) ==> #[trigger] outline_spec(clusters, bumpers, solved, n).2.contains(
                (clusters[i].name@, missing_bumper_message(clusters[i].bumper_model_id@)),
            ),
        forall|i: int|
            0 <= i < n && has_bumper(bumpers, clusters[i].bumper_model_id@) && solved[i] is Err
                ==> #[trigger] outline_spec(clusters, bumpers, solved, n).2.contains((clusters[i].name@, solved[i]->Err_0@)),
        forall|p: int|
            #![trigger outline_spec(clusters, bumpers, solved, n).2[p]]
            0 <= p < outline_spec(clusters, bumpers, solved, n).2.len() ==> comes_from_set_apart(clusters, bumpers, solved, n, outline_spec(clusters, bumpers, solved, n).2[p]),
        outline_spec(clusters, bumpers, solved, n).2.len() == set_apart_count(clusters, bumpers, solved, n),
        forall|i: int, t: int|
            0 <= i < n && has_bumper(bumpers, clusters[i].bumper_model_id@) && solved[i] is Ok
                && clusters[i].compartment == Compartment::Flown && 1 <= t <= solved[i]->Ok_0
                ==> #[trigger] outline_spec(clusters, bumpers, solved, n).0.contains((i, t)),
        forall|i: int, t: int|
            0 <= i < n && has_bumper(bumpers, clusters[i].bumper_model_id@) && solved[i] is Ok
                && clusters[i].compartment == Compartment::Stacked && 1 <= t <= solved[i]->Ok_0
                ==> #[trigger] outline_spec(clusters, bumpers, solved, n).1.contains((i, t)),
        forall|p: int|
            0 <= p < outline_spec(clusters, bumpers, solved, n).0.len() ==> {
                let i = (#[trigger] outline_spec(clusters, bumpers, solved, n).0[p]).0;
                let t = outline_spec(clusters, bumpers, solved, n).0[p].1;
                &&& 0 <= i < n
                &&& has_bumper(bumpers, clusters[i].bumper_model_id@)
                &&& solved[i] is Ok
                &&& clusters[i].compartment == Compartment::Flown
                &&& 1 <= t <= solved[i]->Ok_0
            },
        forall|p: int|
            0 <= p < outline_spec(clusters, bumpers, solved, n).1.len() ==> {
                let i = (#[trigger] outline_spec(clusters, bumpers, solved, n).1[p]).0;
                let t = outline_spec(clusters, bumpers, solved, n).1[p].1;
                &&& 0 <= i < n
                &&& has_bumper(bumpers, clusters[i].bumper_model_id@)
                &&& solved[i] is Ok
                &&& clusters[i].compartment == Compartment::Stacked
                &&& 1 <= t <= solved[i]->Ok_0
            },
    decreases n,
{
    if n > 0 {
        no_cluster_vanishes_from_the_aggregate(clusters, bumpers, solved, n - 1);
        let (f0, s0, imp0) = outline_spec(clusters, bumpers, solved, n - 1);
        let (f, s, imp) = outline_spec(clusters, bumpers, solved, n);
        let c = clusters[n - 1];
        let k = n - 1;
        if !has_bumper(bumpers, c.bumper_model_id@) {
            let x = (c.name@, missing_bumper_message(c.bumper_model_id@));
            assert(f == f0 && s == s0 && imp == imp0.push(x));
            assert forall|y: (Seq<char>, Seq<char>)| imp0.contains(y) implies imp.contains(y) by {
                lemma_push_contains(imp0, x, y);
            }
            lemma_push_contains(imp0, x, x);
            assert forall|p: int| #![trigger imp[p]] 0 <= p < imp.len() implies comes_from_set_apart(clusters, bumpers, solved, n, imp[p]) by {
                if p < imp0.len() {
                    assert(imp[p] == imp0[p]);
                    let w = choose|i: int| 0 <= i < n - 1 && #[trigger] set_apart_with(clusters, bumpers, solved, i, imp0[p]);
                    assert(set_apart_with(clusters, bumpers, solved, w, imp[p]));
                } else {
                    assert(imp[p] == x);
                    assert(set_apart_with(clusters, bumpers, solved, k, imp[p]));
                }
            }
        } else {
            match solved[k] {
                Err(reason) => {
                    let x = (c.name@, reason@);
                    assert(f == f0 && s == s0 && imp == imp0.push(x));
                    assert forall|y: (Seq<char>, Seq<char>)| imp0.contains(y) implies imp.contains(y) by {
                        lemma_push_contains(imp0, x, y);
                    }
                    lemma_push_contains(imp0, x, x);
                    assert forall|p: int| #![trigger imp[p]] 0 <= p < imp.len() implies comes_from_set_apart(clusters, bumpers, solved, n, imp[p]) by {
                        if p < imp0.len() {
                            assert(imp[p] == imp0[p]);
                            let w = choose|i: int| 0 <= i < n - 1 && #[trigger] set_apart_with(clusters, bumpers, solved, i, imp0[p]);
                            assert(set_apart_with(clusters, bumpers, solved, w, imp[p]));
                        } else {
                            assert(imp[p] == x);
                            assert(set_apart_with(clusters, bumpers, solved, k, imp[p]));
                        }
                    }
                },
                Ok(joints) => {
                    let jc = joint_cases(k, joints as nat);
                    assert(imp == imp0);
                    assert forall|p: int| #![trigger imp[p]] 0 <= p < imp.len() implies comes_from_set_apart(clusters, bumpers, solved, n, imp[p]) by {
                        assert(imp0[p] == imp[p]);
                        let w = choose|i: int| 0 <= i < n - 1 && #[trigger] set_apart_with(clusters, bumpers, solved, i, imp0[p]);
                        assert(set_apart_with(clusters, bumpers, solved, w, imp[p]));
                    }
                    if c.compartment == Compartment::Flown {
                        assert(f == f0 + jc && s == s0);
                        assert forall|i: int, t: int|
                            0 <= i < n && has_bumper(bumpers, clusters[i].bumper_model_id@) && solved[i] is Ok
                                && clusters[i].compartment == Compartment::Flown && 1 <= t <= solved[i]->Ok_0
                                implies #[trigger] f.contains((i, t)) by {
                            if i < k {
                                assert(f0.contains((i, t)));
                                let q = choose|q: int| 0 <= q < f0.len() && f0[q] == (i, t);
                                assert(f[q] == (i, t));
                            } else {
                                assert(jc[t - 1] == (i, t));
                                assert(f[f0.len() + t - 1] == (i, t));
                            }
                        }
                        assert forall|p: int| 0 <= p < f.len() implies {
                            let i = (#[trigger] f[p]).0;
                            let t = f[p].1;
                            &&& 0 <= i < n
                            &&& has_bumper(bumpers, clusters[i].bumper_model_id@)
                            &&& solved[i] is Ok
                            &&& clusters[i].compartment == Compartment::Flown
                            &&& 1 <= t <= solved[i]->Ok_0
                        } by {
                            if p < f0.len() {
                                assert(f[p] == f0[p]);
                            } else {
                                assert(f[p] == jc[p - f0.len()]);
                            }
                        }
                    } else {
                        assert(s == s0 + jc && f == f0);
                        assert forall|i: int, t: int|
                            0 <= i < n && has_bumper(bumpers, clusters[i].bumper_model_id@) && solved[i] is Ok
                                && clusters[i].compartment == Compartment::Stacked && 1 <= t <= solved[i]->Ok_0
                                implies #[trigger] s.contains((i, t)) by {
                            if i < k {
                                assert(s0.contains((i, t)));
                                let q = choose|q: int| 0 <= q < s0.len() && s0[q] == (i, t);
                                assert(s[q] == (i, t));
                            } else {
                                assert(jc[t - 1] == (i, t));
                                assert(s[s0.len() + t - 1] == (i, t));
                            }
                        }
                        assert forall|p: int| 0 <= p < s.len() implies {
                            let i = (#[trigger] s[p]).0;
                            let t = s[p].1;
                            &&& 0 <= i < n
                            &&& has_bumper(bumpers, clusters[i].bumper_model_id@)
                            &&& solved[i] is Ok
                            &&& clusters[i].compartment == Compartment::Stacked
                            &&& 1 <= t <= solved[i]->Ok_0
                        } by {
                            if p < s0.len() {
                                assert(s[p] == s0[p]);
                            } else {
                                assert(s[p] == jc[p - s0.len()]);
                            }
                        }
                    }
                },
            }
        }
        assert forall|p: int|
            #![trigger outline_spec(clusters, bumpers, solved, n).2[p]]
            0 <= p < outline_spec(clusters, bumpers, solved, n).2.len() implies comes_from_set_apart(clusters, bumpers, solved, n, outline_spec(clusters, bumpers, solved, n).2[p]) by {
            assert(imp[p] == outline_spec(clusters, bumpers, solved, n).2[p]);
            let w = choose|i: int| 0 <= i < n && #[trigger] set_apart_with(clusters, bumpers, solved, i, imp[p]);
            assert(set_apart_with(clusters, bumpers, solved, w, outline_spec(clusters, bumpers, solved, n).2[p]));
        }
    } else {
        assert(outline_spec(clusters, bumpers, solved, n).2.len() == 0);
    }
}

} // verus!
