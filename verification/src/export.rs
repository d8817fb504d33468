//! Audit export: a self-contained document about a selection of clusters.
//! Only the models the selection really references are exported, and the
//! clusters that do not resolve go to `impossible` with their reason, never
//! omitted silently.

use crate::bumper::{BumperBarModel, BumperModel};
use crate::cluster::aggregate::{find_bumper, has_bumper};
use crate::cluster::model::ClusterRefs;
use crate::persistence::id_views;
use crate::speaker::SpeakerModel;
use vstd::prelude::*;
use vstd::string::*;

verus! {

/// Version of the export format, distinct from the models' schema versions.
pub const EXPORT_SCHEMA_VERSION: u32 = 1;

/// A cluster left out of the computation, with the reason.
#[derive(Clone, Debug)]
pub struct ImpossibleClusterExport {
    pub id: String,
    pub name: String,
    pub reason: String,
}

/// Label of load path `k` of a joint, in the order the checks list them.
pub open spec fn path_label_spec(k: int) -> Seq<char> {
    if k == 0 {
        "couronne"@
    } else if k == 1 {
        "bielle"@
    } else if k == 2 {
        "ancrage"@
    } else if k == 3 {
        "verrou"@
    } else {
        "flexion de barre"@
    }
}

/// `k` governs: the largest utilisation, the last path to reach it.
pub open spec fn is_governing(ranks: Seq<u64>, k: int) -> bool {
    &&& 0 <= k < ranks.len()
    &&& forall|j: int| 0 <= j < ranks.len() ==> ranks[j] <= ranks[k]
    &&& forall|j: int| k < j < ranks.len() ==> ranks[j] < ranks[k]
}

/// The load path that governs a joint, given the rank of each path's
/// utilisation (crown, bielle, anchor, latch, bar bending): its index and its
/// name, so that nobody has to compare five numbers again.
pub fn governing_path(ranks: &Vec<u64>) -> (r: (usize, &'static str))
    requires
        ranks@.len() == 5,
    ensures
        is_governing(ranks@, r.0 as int),
        r.1@ == path_label_spec(r.0 as int),
{
    let mut best: usize = 0;
    let mut k: usize = 1;
    while k < 5
        invariant
            1 <= k <= 5,
            ranks@.len() == 5,
            best < k,
            forall|j: int| 0 <= j < k ==> ranks@[j] <= ranks@[best as int],
            forall|j: int| best < j < k ==> ranks@[j] < ranks@[best as int],
        decreases 5 - k,
    {
        if ranks[k] >= ranks[best] {
            best = k;
        }
        k += 1;
    }
    let label = if best == 0 {
        "couronne"
    } else if best == 1 {
        "bielle"
    } else if best == 2 {
        "ancrage"
    } else if best == 3 {
        "verrou"
    } else {
        "flexion de barre"
    };
    (best, label)
}

/// How the export sorts the selection: the clusters that resolve, by index
/// in the selection, and the others with their reason.
#[derive(Clone, Debug)]
pub struct ExportOutline {
    pub resolved: Vec<usize>,
    pub impossible: Vec<ImpossibleClusterExport>,
}

pub open spec fn export_missing_bumper_message(id: Seq<char>) -> Seq<char> {
    "bumper « "@ + id + " » introuvable"@
}

pub open spec fn export_views(v: Seq<ImpossibleClusterExport>) -> Seq<(Seq<char>, Seq<char>, Seq<char>)> {
    v.map_values(|e: ImpossibleClusterExport| (e.id@, e.name@, e.reason@))
}

/// The export after the first `n` clusters of the selection.
pub open spec fn export_spec(
    selection: Seq<ClusterRefs>,
    bumpers: Seq<BumperModel>,
    solved: Seq<Result<(), String>>,
    n: int,
) -> (Seq<int>, Seq<(Seq<char>, Seq<char>, Seq<char>)>)
    decreases n,
{
    if n <= 0 {
        (seq![], seq![])
    } else {
        let (ok, imp) = export_spec(selection, bumpers, solved, n - 1);
        let c = selection[n - 1];
        if !has_bumper(bumpers, c.bumper_model_id@) {
            (ok, imp.push((c.id@, c.name@, export_missing_bumper_message(c.bumper_model_id@))))
        } else {
            match solved[n - 1] {
                Err(reason) => (ok, imp.push((c.id@, c.name@, reason@))),
                Ok(_) => (ok.push(n - 1), imp),
            }
        }
    }
}

/// Sorts the selection for the export. `solved[c]` is what the solver gave
/// for cluster `c`, read only when its bumper is in the catalogue.
pub fn export_outline(
    selection: &Vec<ClusterRefs>,
    bumpers: &Vec<BumperModel>,
    solved: &Vec<Result<(), String>>,
) -> (r: ExportOutline)
    requires
        solved@.len() == selection@.len(),
    ensures
        (r.resolved@.map_values(|i: usize| i as int), export_views(r.impossible@)) == export_spec(
            selection@,
            bumpers@,
            solved@,
            selection@.len() as int,
        ),
        forall|i: int|
            0 <= i < selection@.len() ==> (#[trigger] r.resolved@.contains(i as usize) <==> (
            has_bumper(bumpers@, selection@[i].bumper_model_id@) && solved@[i] is Ok)),
        forall|p: int, q: int| 0 <= p < q < r.resolved@.len() ==> #[trigger] r.resolved@[p] < #[trigger] r.resolved@[q],
        forall|i: int|
            0 <= i < selection@.len() && !has_bumper(bumpers@, selection@[i].bumper_model_id@)
                ==> #[trigger] export_views(r.impossible@).contains(
                (
                    selection@[i].id@,
                    selection@[i].name@,
                    export_missing_bumper_message(selection@[i].bumper_model_id@),
                ),
            ),
        forall|i: int|
            0 <= i < selection@.len() && has_bumper(bumpers@, selection@[i].bumper_model_id@) && solved@[i] is Err
                ==> #[trigger] export_views(r.impossible@).contains(
                (selection@[i].id@, selection@[i].name@, solved@[i]->Err_0@),
            ),
        forall|p: int|
            0 <= p < r.impossible@.len() ==> comes_from_impossible(
                selection@,
                bumpers@,
                solved@,
                selection@.len() as int,
                #[trigger] export_views(r.impossible@)[p],
            ),
        r.impossible@.len() == impossible_count(selection@, bumpers@, solved@, selection@.len() as int),
{
    let mut resolved: Vec<usize> = Vec::new();
    let mut impossible: Vec<ImpossibleClusterExport> = Vec::new();
    let mut i: usize = 0;
    proof {
        assert(resolved@.map_values(|i: usize| i as int) =~= Seq::<int>::empty());
        assert(export_views(impossible@) =~= Seq::<(Seq<char>, Seq<char>, Seq<char>)>::empty());
    }
    while i < selection.len()
        invariant
            i <= selection@.len(),
            solved@.len() == selection@.len(),
            (resolved@.map_values(|i: usize| i as int), export_views(impossible@)) == export_spec(
                selection@,
                bumpers@,
                solved@,
                i as int,
            ),
        decreases selection@.len() - i,
    {
        let c = &selection[i];
        let ghost imp0 = export_views(impossible@);
        let ghost ok0 = resolved@;
        match find_bumper(bumpers, &c.bumper_model_id) {
            None => {
                let mut reason = String::from_str("bumper « ");
                reason.append(c.bumper_model_id.as_str());
                reason.append(" » introuvable");
                impossible.push(
                    ImpossibleClusterExport { id: c.id.clone(), name: c.name.clone(), reason },
                );
                proof {
                    assert(export_views(impossible@) =~= imp0.push(
                        (c.id@, c.name@, export_missing_bumper_message(c.bumper_model_id@)),
                    ));
                }
            },
            Some(_) => {
                match &solved[i] {
                    Err(reason) => {
                        impossible.push(
                            ImpossibleClusterExport {
                                id: c.id.clone(),
                                name: c.name.clone(),
                                reason: reason.clone(),
                            },
                        );
                        proof {
                            assert(export_views(impossible@) =~= imp0.push((c.id@, c.name@, reason@)));
                        }
                    },
                    Ok(_) => {
                        resolved.push(i);
                        proof {
                            assert(resolved@.map_values(|i: usize| i as int) =~= ok0.map_values(
                                |i: usize| i as int,
                            ).push(i as int));
                        }
                    },
                }
            },
        }
        i += 1;
    }
    proof {
        let n = selection@.len() as int;
        the_export_resolves_exactly_what_resolves(selection@, bumpers@, solved@, n);
        let rv = resolved@.map_values(|i: usize| i as int);
        assert forall|i: int| 0 <= i < n implies (#[trigger] resolved@.contains(i as usize) <==> (
        has_bumper(bumpers@, selection@[i].bumper_model_id@) && solved@[i] is Ok)) by {
            if resolved@.contains(i as usize) {
                let q = choose|q: int| 0 <= q < resolved@.len() && resolved@[q] == i as usize;
                assert(rv[q] == i);
                assert(rv.contains(i));
            }
            if rv.contains(i) {
                let q = choose|q: int| 0 <= q < rv.len() && rv[q] == i;
                assert(resolved@[q] == i as usize);
            }
        }
        assert forall|p: int, q: int| 0 <= p < q < resolved@.len() implies #[trigger] resolved@[p] < #[trigger] resolved@[q] by {
            assert(rv[p] < rv[q]);
        }
    }
    ExportOutline { resolved, impossible }
}

/// The models referenced by a selection, by index in each catalogue.
#[derive(Clone, Debug)]
pub struct Definitions {
    pub speakers: Vec<usize>,
    pub bumpers: Vec<usize>,
    pub bumper_bars: Vec<usize>,
}

/// `r` lists, in increasing order, exactly the indices below `n` for which
/// `keep` holds.
pub open spec fn selects(r: Seq<usize>, n: int, keep: spec_fn(int) -> bool) -> bool {
    &&& forall|p: int, q: int| 0 <= p < q < r.len() ==> r[p] < r[q]
    &&& forall|p: int| 0 <= p < r.len() ==> r[p] < n && keep(r[p] as int)
    &&& forall|i: int| 0 <= i < n && #[trigger] keep(i) ==> r.contains(i as usize)
}

/// Some cluster of the selection mounts speaker model `id`.
pub open spec fn speaker_used(selection: Seq<ClusterRefs>, id: Seq<char>) -> bool {
    exists|c: int, p: int|
        0 <= c < selection.len() && 0 <= p < selection[c].speaker_model_ids@.len()
            && selection[c].speaker_model_ids@[p]@ == id
}

/// Some cluster of the selection uses bumper `id`.
pub open spec fn bumper_used(selection: Seq<ClusterRefs>, id: Seq<char>) -> bool {
    exists|c: int| 0 <= c < selection.len() && selection[c].bumper_model_id@ == id
}

/// Bar `bar` declares a bumper that the selection uses and the catalogue has.
pub open spec fn bar_kept(selection: Seq<ClusterRefs>, bumpers: Seq<BumperModel>, bar: BumperBarModel) -> bool {
    exists|k: int, b: int|
        0 <= k < bar.compatible_bumpers@.len() && 0 <= b < bumpers.len()
            && bumper_used(selection, bumpers[b].id@) && bumpers[b].id@
            == bar.compatible_bumpers@[k].bumper_model_id@
}

fn speaker_used_exec(selection: &Vec<ClusterRefs>, id: &String) -> (r: bool)
    ensures
        r == speaker_used(selection@, id@),
{
    let mut c: usize = 0;
    while c < selection.len()
        invariant
            c <= selection@.len(),
            forall|c2: int, p: int|
                0 <= c2 < c && 0 <= p < selection@[c2].speaker_model_ids@.len()
                    ==> selection@[c2].speaker_model_ids@[p]@ != id@,
        decreases selection@.len() - c,
    {
        let ids = &selection[c].speaker_model_ids;
        let mut p: usize = 0;
        while p < ids.len()
            invariant
                p <= ids@.len(),
                c < selection@.len(),
                *ids == selection@[c as int].speaker_model_ids,
                forall|q: int| 0 <= q < p ==> ids@[q]@ != id@,
            decreases ids@.len() - p,
        {
            if ids[p] == *id {
                proof {
                    assert(0 <= c < selection@.len() && 0 <= p < selection@[c as int].speaker_model_ids@.len()
                        && selection@[c as int].speaker_model_ids@[p as int]@ == id@);
                }
                return true;
            }
            p += 1;
        }
        c += 1;
    }
    false
}

fn bumper_used_exec(selection: &Vec<ClusterRefs>, id: &String) -> (r: bool)
    ensures
        r == bumper_used(selection@, id@),
{
    let mut c: usize = 0;
    while c < selection.len()
        invariant
            c <= selection@.len(),
            forall|c2: int| 0 <= c2 < c ==> selection@[c2].bumper_model_id@ != id@,
        decreases selection@.len() - c,
    {
        if selection[c].bumper_model_id == *id {
            return true;
        }
        c += 1;
    }
    false
}

fn bar_kept_exec(selection: &Vec<ClusterRefs>, bumpers: &Vec<BumperModel>, bar: &BumperBarModel) -> (r: bool)
    ensures
        r == bar_kept(selection@, bumpers@, *bar),
{
    let mut k: usize = 0;
    while k < bar.compatible_bumpers.len()
        invariant
            k <= bar.compatible_bumpers@.len(),
            forall|k2: int, b: int|
                0 <= k2 < k && 0 <= b < bumpers@.len() ==> !(bumper_used(selection@, bumpers@[b].id@)
                    && bumpers@[b].id@ == bar.compatible_bumpers@[k2].bumper_model_id@),
        decreases bar.compatible_bumpers@.len() - k,
    {
        let mut b: usize = 0;
        while b < bumpers.len()
            invariant
                b <= bumpers@.len(),
                k < bar.compatible_bumpers@.len(),
                forall|b2: int|
                    0 <= b2 < b ==> !(bumper_used(selection@, bumpers@[b2].id@) && bumpers@[b2].id@
                        == bar.compatible_bumpers@[k as int].bumper_model_id@),
            decreases bumpers@.len() - b,
        {
            if bumpers[b].id == bar.compatible_bumpers[k].bumper_model_id && bumper_used_exec(
                selection,
                &bumpers[b].id,
            ) {
                return true;
            }
            b += 1;
        }
        k += 1;
    }
    false
}

/// The models referenced by the selection, and they alone. Impossible
/// clusters count too: their models are part of what explains why they fail.
/// A bar is kept as soon as it declares a kept bumper: the solver decides
/// which one actually serves, so the reader gets all of them.
pub fn referenced_definitions(
    selection: &Vec<ClusterRefs>,
    speakers: &Vec<SpeakerModel>,
    bumpers: &Vec<BumperModel>,
    bumper_bars: &Vec<BumperBarModel>,
) -> (r: Definitions)
    ensures
        selects(r.speakers@, speakers@.len() as int, |i: int| speaker_used(selection@, speakers@[i].id@)),
        selects(r.bumpers@, bumpers@.len() as int, |i: int| bumper_used(selection@, bumpers@[i].id@)),
        selects(r.bumper_bars@, bumper_bars@.len() as int, |i: int| bar_kept(selection@, bumpers@, bumper_bars@[i])),
{
    let mut sp: Vec<usize> = Vec::new();
    let mut i: usize = 0;
    while i < speakers.len()
        invariant
            i <= speakers@.len(),
            forall|p: int, q: int| 0 <= p < q < sp@.len() ==> sp@[p] < sp@[q],
            forall|p: int| 0 <= p < sp@.len() ==> sp@[p] < i && speaker_used(selection@, speakers@[sp@[p] as int].id@),
            forall|j: int| 0 <= j < i && speaker_used(selection@, speakers@[j].id@) ==> sp@.contains(j as usize),
        decreases speakers@.len() - i,
    {
        if speaker_used_exec(selection, &speakers[i].id) {
            let ghost before = sp@;
            sp.push(i);
            proof {
                assert forall|j: int| 0 <= j < i + 1 && speaker_used(selection@, speakers@[j].id@) implies sp@.contains(j as usize) by {
                    if j < i {
                        let k = choose|k: int| 0 <= k < before.len() && before[k] == j as usize;
                        assert(sp@[k] == j as usize);
                    } else {
                        assert(sp@[before.len() as int] == j as usize);
                    }
                }
            }
        }
        i += 1;
    }
    let mut bu: Vec<usize> = Vec::new();
    let mut i: usize = 0;
    while i < bumpers.len()
        invariant
            i <= bumpers@.len(),
            forall|p: int, q: int| 0 <= p < q < bu@.len() ==> bu@[p] < bu@[q],
            forall|p: int| 0 <= p < bu@.len() ==> bu@[p] < i && bumper_used(selection@, bumpers@[bu@[p] as int].id@),
            forall|j: int| 0 <= j < i && bumper_used(selection@, bumpers@[j].id@) ==> bu@.contains(j as usize),
        decreases bumpers@.len() - i,
    {
        if bumper_used_exec(selection, &bumpers[i].id) {
            let ghost before = bu@;
            bu.push(i);
            proof {
                assert forall|j: int| 0 <= j < i + 1 && bumper_used(selection@, bumpers@[j].id@) implies bu@.contains(j as usize) by {
                    if j < i {
                        let k = choose|k: int| 0 <= k < before.len() && before[k] == j as usize;
                        assert(bu@[k] == j as usize);
                    } else {
                        assert(bu@[before.len() as int] == j as usize);
                    }
                }
            }
        }
        i += 1;
    }
    let mut ba: Vec<usize> = Vec::new();
    let mut i: usize = 0;
    while i < bumper_bars.len()
        invariant
            i <= bumper_bars@.len(),
            forall|p: int, q: int| 0 <= p < q < ba@.len() ==> ba@[p] < ba@[q],
            forall|p: int| 0 <= p < ba@.len() ==> ba@[p] < i && bar_kept(selection@, bumpers@, bumper_bars@[ba@[p] as int]),
            forall|j: int| 0 <= j < i && bar_kept(selection@, bumpers@, bumper_bars@[j]) ==> ba@.contains(j as usize),
        decreases bumper_bars@.len() - i,
    {
        if bar_kept_exec(selection, bumpers, &bumper_bars[i]) {
            let ghost before = ba@;
            ba.push(i);
            proof {
                assert forall|j: int| 0 <= j < i + 1 && bar_kept(selection@, bumpers@, bumper_bars@[j]) implies ba@.contains(j as usize) by {
                    if j < i {
                        let k = choose|k: int| 0 <= k < before.len() && before[k] == j as usize;
                        assert(ba@[k] == j as usize);
                    } else {
                        assert(ba@[before.len() as int] == j as usize);
                    }
                }
            }
        }
        i += 1;
    }
    Definitions { speakers: sp, bumpers: bu, bumper_bars: ba }
}

proof fn lemma_push_contains<A>(s: Seq<A>, x: A, y: A)
    ensures
        s.push(x).contains(y) <==> (s.contains(y) || y == x),
{
    if s.push(x).contains(y) {
        let j = choose|j: int| 0 <= j < s.push(x).len() && s.push(x)[j] == y;
        if j < s.len() {
            assert(s[j] == y);
        }
    }
    if s.contains(y) {
        let j = choose|j: int| 0 <= j < s.len() && s[j] == y;
        assert(s.push(x)[j] == y);
    }
    if y == x {
        assert(s.push(x)[s.len() as int] == y);
    }
}

/// `e` is what selected cluster `i` is exported as impossible with: the
/// missing bumper named, or the solver's reason.
pub open spec fn exported_impossible_with(
    selection: Seq<ClusterRefs>,
    bumpers: Seq<BumperModel>,
    solved: Seq<Result<(), String>>,
    i: int,
    e: (Seq<char>, Seq<char>, Seq<char>),
) -> bool {
    ||| !has_bumper(bumpers, selection[i].bumper_model_id@) && e == (
        selection[i].id@,
        selection[i].name@,
        export_missing_bumper_message(selection[i].bumper_model_id@),
    )
    ||| has_bumper(bumpers, selection[i].bumper_model_id@) && solved[i] is Err && e == (
        selection[i].id@,
        selection[i].name@,
        solved[i]->Err_0@,
    )
}

/// `e` is what one of the first `n` selected clusters is exported as
/// impossible with.
pub open spec fn comes_from_impossible(
    selection: Seq<ClusterRefs>,
    bumpers: Seq<BumperModel>,
    solved: Seq<Result<(), String>>,
    n: int,
    e: (Seq<char>, Seq<char>, Seq<char>),
) -> bool {
    exists|i: int| 0 <= i < n && #[trigger] exported_impossible_with(selection, bumpers, solved, i, e)
}

/// How many of the first `n` selected clusters are impossible.
pub open spec fn impossible_count(
    selection: Seq<ClusterRefs>,
    bumpers: Seq<BumperModel>,
    solved: Seq<Result<(), String>>,
    n: int,
) -> nat
    decreases n,
{
    if n <= 0 {
        0
    } else if !has_bumper(bumpers, selection[n - 1].bumper_model_id@) || solved[n - 1] is Err {
        impossible_count(selection, bumpers, solved, n - 1) + 1
    } else {
        impossible_count(selection, bumpers, solved, n - 1)
    }
}

/// The export resolves exactly the clusters that resolve, and reports every
/// other one. Over the first `n` selected clusters: a cluster is listed as
/// resolved if and only if its bumper is in the catalogue and the solver
/// accepted it, in selection order; a cluster whose bumper is missing is
/// reported with the missing bumper named, one that the solver refuses with
/// the solver's reason; every report is one of these, and there are exactly
/// as many reports as such clusters.
#[verifier::spinoff_prover]
pub proof fn the_export_resolves_exactly_what_resolves(
    selection: Seq<ClusterRefs>,
    bumpers: Seq<BumperModel>,
    solved: Seq<Result<(), String>>,
    n: int,
)
    requires
        solved.len() == selection.len(),
        0 <= n <= selection.len(),
    ensures
        forall|i: int|
            0 <= i < n ==> (#[trigger] export_spec(selection, bumpers, solved, n).0.contains(i) <==> (
            has_bumper(bumpers, selection[i].bumper_model_id@) && solved[i] is Ok)),
        forall|p: int|
            0 <= p < export_spec(selection, bumpers, solved, n).0.len() ==> {
                let i = #[trigger] export_spec(selection, bumpers, solved, n).0[p];
                &&& 0 <= i < n
                &&& has_bumper(bumpers, selection[i].bumper_model_id@)
                &&& solved[i] is Ok
            },
        forall|p: int, q: int|
            0 <= p < q < export_spec(selection, bumpers, solved, n).0.len() ==> #[trigger] export_spec(
                selection,
                bumpers,
                solved,
                n,
            ).0[p] < #[trigger] export_spec(selection, bumpers, solved, n).0[q],
        forall|i: int|
            0 <= i < n && !has_bumper(bumpers, selection[i].bumper_model_id@) ==> #[trigger] export_spec(
                selection,
                bumpers,
                solved,
                n,
            ).1.contains(
                (
                    selection[i].id@,
                    selection[i].name@,
                    export_missing_bumper_message(selection[i].bumper_model_id@),
                ),
            ),
        forall|i: int|
            0 <= i < n && has_bumper(bumpers, selection[i].bumper_model_id@) && solved[i] is Err
                ==> #[trigger] export_spec(selection, bumpers, solved, n).1.contains(
                (selection[i].id@, selection[i].name@, solved[i]->Err_0@),
            ),
        forall|p: int|
            #![trigger export_spec(selection, bumpers, solved, n).1[p]]
            0 <= p < export_spec(selection, bumpers, solved, n).1.len() ==> comes_from_impossible(
                selection,
                bumpers,
                solved,
                n,
                export_spec(selection, bumpers, solved, n).1[p],
            ),
        export_spec(selection, bumpers, solved, n).1.len() == impossible_count(selection, bumpers, solved, n),
    decreases n,
{
    if n > 0 {
        the_export_resolves_exactly_what_resolves(selection, bumpers, solved, n - 1);
        let (ok0, imp0) = export_spec(selection, bumpers, solved, n - 1);
        let (ok, imp) = export_spec(selection, bumpers, solved, n);
        let c = selection[n - 1];
        let k = n - 1;
        if !has_bumper(bumpers, c.bumper_model_id@) || solved[k] is Err {
            let x = if !has_bumper(bumpers, c.bumper_model_id@) {
                (c.id@, c.name@, export_missing_bumper_message(c.bumper_model_id@))
            } else {
                (c.id@, c.name@, solved[k]->Err_0@)
            };
            assert(ok == ok0 && imp == imp0.push(x));
            assert(exported_impossible_with(selection, bumpers, solved, k, x));
            assert forall|y: (Seq<char>, Seq<char>, Seq<char>)| imp0.contains(y) implies imp.contains(y) by {
                lemma_push_contains(imp0, x, y);
            }
            lemma_push_contains(imp0, x, x);
            assert forall|p: int| #![trigger imp[p]] 0 <= p < imp.len() implies comes_from_impossible(
                selection,
                bumpers,
                solved,
                n,
                imp[p],
            ) by {
                if p < imp0.len() {
                    assert(imp[p] == imp0[p]);
                    let w = choose|i: int| 0 <= i < n - 1 && #[trigger] exported_impossible_with(selection, bumpers, solved, i, imp0[p]);
                    assert(exported_impossible_with(selection, bumpers, solved, w, imp[p]));
                } else {
                    assert(imp[p] == x);
                }
            }
            assert forall|i: int| 0 <= i < n implies (#[trigger] ok.contains(i) <==> (
            has_bumper(bumpers, selection[i].bumper_model_id@) && solved[i] is Ok)) by {
                if i < k {
                    assert(ok0.contains(i) == ok.contains(i));
                } else {
                    if ok.contains(i) {
                        let q = choose|q: int| 0 <= q < ok.len() && ok[q] == i;
                        assert(ok0[q] < n - 1);
                    }
                }
            }
        } else {
            assert(imp == imp0 && ok == ok0.push(k));
            assert forall|p: int| #![trigger imp[p]] 0 <= p < imp.len() implies comes_from_impossible(
                selection,
                bumpers,
                solved,
                n,
                imp[p],
            ) by {
                assert(imp[p] == imp0[p]);
                let w = choose|i: int| 0 <= i < n - 1 && #[trigger] exported_impossible_with(selection, bumpers, solved, i, imp0[p]);
                assert(exported_impossible_with(selection, bumpers, solved, w, imp[p]));
            }
            assert forall|i: int| 0 <= i < n implies (#[trigger] ok.contains(i) <==> (
            has_bumper(bumpers, selection[i].bumper_model_id@) && solved[i] is Ok)) by {
                lemma_push_contains(ok0, k, i);
                if i < k && ok0.contains(i) {
                    assert(ok0.contains(i));
                }
            }
            assert forall|p: int| 0 <= p < ok.len() implies {
                let i = #[trigger] ok[p];
                &&& 0 <= i < n
                &&& has_bumper(bumpers, selection[i].bumper_model_id@)
                &&& solved[i] is Ok
            } by {
                if p < ok0.len() {
                    assert(ok[p] == ok0[p]);
                }
            }
            assert forall|p: int, q: int| 0 <= p < q < ok.len() implies #[trigger] ok[p] < #[trigger] ok[q] by {
                if q < ok0.len() {
                    assert(ok[p] == ok0[p] && ok[q] == ok0[q]);
                } else {
                    assert(ok[p] == ok0[p]);
                }
            }
        }
        assert forall|p: int|
            #![trigger export_spec(selection, bumpers, solved, n).1[p]]
            0 <= p < export_spec(selection, bumpers, solved, n).1.len() implies comes_from_impossible(
                selection,
                bumpers,
                solved,
                n,
                export_spec(selection, bumpers, solved, n).1[p],
            ) by {
            assert(imp[p] == export_spec(selection, bumpers, solved, n).1[p]);
        }
    }
}

} // verus!
