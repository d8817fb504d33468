//! Resolution of a cluster's references: every position names a model of the
//! catalogue, every consecutive pair is declared compatible in the cluster's
//! compartment, and the mandatory bumper is declared compatible with the
//! reference speaker. An unknown reference or an undeclared joint is an
//! impossible configuration, never a silent assembly.

use super::joint::JointInconsistency;
use super::model::{ClusterRefs, Compartment, ImpossibleConfiguration};
use crate::bumper::{BumperBarModel, BumperModel};
use crate::persistence::id_views;
use crate::speaker::SpeakerModel;
use crate::text::{decimal, push_decimal};
use vstd::prelude::*;
use vstd::string::*;

verus! {

/// `m` is the first model of the catalogue named `id`.
pub open spec fn is_first_model(models: Seq<SpeakerModel>, id: Seq<char>, m: int) -> bool {
    &&& 0 <= m < models.len()
    &&& models[m].id@ == id
    &&& forall|k: int| 0 <= k < m ==> models[k].id@ != id
}

/// Some model of the catalogue is named `id`.
pub open spec fn has_model(models: Seq<SpeakerModel>, id: Seq<char>) -> bool {
    exists|m: int| 0 <= m < models.len() && models[m].id@ == id
}

/// The first model named `id`.
pub open spec fn first_model(models: Seq<SpeakerModel>, id: Seq<char>) -> int {
    choose|m: int| is_first_model(models, id, m)
}

pub proof fn lemma_first_model_unique(models: Seq<SpeakerModel>, id: Seq<char>, m: int)
    requires
        is_first_model(models, id, m),
    ensures
        first_model(models, id) == m,
{
    let f = first_model(models, id);
    assert(is_first_model(models, id, f));
    if f < m {
        assert(models[f].id@ != id);
    }
    if m < f {
        assert(models[m].id@ != id);
    }
}

pub open spec fn position_ids(c: ClusterRefs) -> Seq<Seq<char>> {
    id_views(c.speaker_model_ids@)
}

pub open spec fn is_flown(c: ClusterRefs) -> bool {
    c.compartment == Compartment::Flown
}

/// As many positions as joints plus one.
pub open spec fn count_ok(c: ClusterRefs) -> bool {
    c.speaker_model_ids@.len() == c.joint_count + 1
}

/// Position `p` names no model of the catalogue.
pub open spec fn missing_at(models: Seq<SpeakerModel>, c: ClusterRefs, p: int) -> bool {
    0 <= p < position_ids(c).len() && !has_model(models, position_ids(c)[p])
}

pub open spec fn all_found(models: Seq<SpeakerModel>, c: ClusterRefs) -> bool {
    forall|p: int| 0 <= p < position_ids(c).len() ==> has_model(models, #[trigger] position_ids(c)[p])
}

/// The model mounted at position `p`.
pub open spec fn model_at(models: Seq<SpeakerModel>, c: ClusterRefs, p: int) -> SpeakerModel {
    models[first_model(models, position_ids(c)[p])]
}

/// Joint `j` (between positions `j` and `j + 1`) is declared, and allowed in
/// the cluster's compartment, by the first declaration of the upper model for
/// the lower one.
pub open spec fn joint_ok(models: Seq<SpeakerModel>, c: ClusterRefs, j: int) -> bool {
    exists|i: int|
        #![trigger model_at(models, c, j).compatible_below@[i]]
        model_at(models, c, j).is_first_below(position_ids(c)[j + 1], i) && model_at(
            models,
            c,
            j,
        ).compatible_below@[i].allows_spec(is_flown(c))
}

/// The cluster's references resolve.
pub open spec fn resolves(models: Seq<SpeakerModel>, c: ClusterRefs) -> bool {
    &&& count_ok(c)
    &&& all_found(models, c)
    &&& forall|j: int| 0 <= j < c.joint_count ==> joint_ok(models, c, j)
}

pub open spec fn first_missing(models: Seq<SpeakerModel>, c: ClusterRefs) -> int {
    choose|p: int| missing_at(models, c, p) && forall|q: int| 0 <= q < p ==> !missing_at(models, c, q)
}

pub open spec fn bad_joint(models: Seq<SpeakerModel>, c: ClusterRefs, j: int) -> bool {
    0 <= j < c.joint_count && !joint_ok(models, c, j)
}

pub open spec fn first_bad_joint(models: Seq<SpeakerModel>, c: ClusterRefs) -> int {
    choose|j: int| bad_joint(models, c, j) && forall|k: int| 0 <= k < j ==> !bad_joint(models, c, k)
}

pub open spec fn compartment_label(flown: bool) -> Seq<char> {
    if flown {
        "en vol"@
    } else {
        "en stack"@
    }
}

pub open spec fn count_message(speakers: nat, joints: nat) -> Seq<char> {
    "Grappe incohérente : "@ + decimal(speakers) + " enceinte(s) déclarée(s) pour "@ + decimal(
        joints,
    ) + " jonction(s), il en faut exactement "@ + decimal(joints + 1) + "."@
}

pub open spec fn unknown_message(id: Seq<char>) -> Seq<char> {
    "Enceinte \""@ + id + "\" introuvable."@
}

pub open spec fn undeclared_message(lower: Seq<char>, upper: Seq<char>, flown: bool) -> Seq<char> {
    "\""@ + lower + "\" n'est pas déclarée accrochable sous \""@ + upper + "\" "@
        + compartment_label(flown)
        + ". Déclare cette compatibilité dans Équipement et enceinte, ou change d'enceinte à cette position."@
}

/// Why a cluster does not resolve: the first failing check, in order — the
/// count, then the first unknown position, then the first undeclared joint.
pub open spec fn failure_reason(models: Seq<SpeakerModel>, c: ClusterRefs) -> Seq<char> {
    if !count_ok(c) {
        count_message(c.speaker_model_ids@.len(), c.joint_count as nat)
    } else if !all_found(models, c) {
        unknown_message(position_ids(c)[first_missing(models, c)])
    } else {
        let j = first_bad_joint(models, c);
        undeclared_message(
            model_at(models, c, j + 1).name@,
            model_at(models, c, j).name@,
            is_flown(c),
        )
    }
}

/// A resolved chain: for each position the index of its model in the
/// catalogue, and for each joint the index of the declaration that allows it
/// in the upper model's `compatible_below`.
#[derive(Clone, Debug)]
pub struct ResolvedChain {
    pub models: Vec<usize>,
    pub below: Vec<usize>,
}

/// The first model of the catalogue named `id`.
pub fn find_speaker(models: &Vec<SpeakerModel>, id: &String) -> (r: Option<usize>)
    ensures
        r matches Some(m) ==> is_first_model(models@, id@, m as int),
        r is None ==> !has_model(models@, id@),
{
    let mut i: usize = 0;
    while i < models.len()
        invariant
            i <= models@.len(),
            forall|k: int| 0 <= k < i ==> models@[k].id@ != id@,
        decreases models@.len() - i,
    {
        if models[i].id == *id {
            return Some(i);
        }
        i += 1;
    }
    None
}

fn count_error(speakers: usize, joints: usize) -> (r: ImpossibleConfiguration)
    requires
        joints < usize::MAX,
    ensures
        r.reason@ == count_message(speakers as nat, joints as nat),
{
    let mut m = String::from_str("Grappe incohérente : ");
    push_decimal(&mut m, speakers);
    m.append(" enceinte(s) déclarée(s) pour ");
    push_decimal(&mut m, joints);
    m.append(" jonction(s), il en faut exactement ");
    push_decimal(&mut m, joints + 1);
    m.append(".");
    proof {
        assert(m@ =~= count_message(speakers as nat, joints as nat));
    }
    ImpossibleConfiguration { reason: m }
}

fn unknown_error(id: &String) -> (r: ImpossibleConfiguration)
    ensures
        r.reason@ == unknown_message(id@),
{
    let mut m = String::from_str("Enceinte \"");
    m.append(id.as_str());
    m.append("\" introuvable.");
    proof {
        assert(m@ =~= unknown_message(id@));
    }
    ImpossibleConfiguration { reason: m }
}

fn undeclared_error(lower: &String, upper: &String, flown: bool) -> (r: ImpossibleConfiguration)
    ensures
        r.reason@ == undeclared_message(lower@, upper@, flown),
{
    let mut m = String::from_str("\"");
    m.append(lower.as_str());
    m.append("\" n'est pas déclarée accrochable sous \"");
    m.append(upper.as_str());
    m.append("\" ");
    if flown {
        m.append("en vol");
    } else {
        m.append("en stack");
    }
    m.append(
        ". Déclare cette compatibilité dans Équipement et enceinte, ou change d'enceinte à cette position.",
    );
    proof {
        assert(m@ =~= undeclared_message(lower@, upper@, flown));
    }
    ImpossibleConfiguration { reason: m }
}

/// Resolves the chain of a cluster against the catalogue `speaker_models`.
/// Whether each joint's splay is drilled on the upper model is checked next,
/// on the resolved models, by `first_undrilled_joint`.
pub fn resolve_chain(speaker_models: &Vec<SpeakerModel>, cluster: &ClusterRefs) -> (r: Result<
    ResolvedChain,
    ImpossibleConfiguration,
>)
    requires
        cluster.joint_count < usize::MAX,
    ensures
        r is Ok <==> resolves(speaker_models@, *cluster),
        r matches Ok(res) ==> {
            &&& res.models@.len() == cluster.speaker_model_ids@.len()
            &&& forall|p: int|
                0 <= p < res.models@.len() ==> is_first_model(
                    speaker_models@,
                    position_ids(*cluster)[p],
                    #[trigger] res.models@[p] as int,
                )
            &&& res.below@.len() == cluster.joint_count
            &&& forall|j: int|
                0 <= j < res.below@.len() ==> {
                    let upper = speaker_models@[res.models@[j] as int];
                    &&& upper.is_first_below(position_ids(*cluster)[j + 1], #[trigger] res.below@[j] as int)
                    &&& upper.compatible_below@[res.below@[j] as int].allows_spec(is_flown(*cluster))
                }
        },
        r matches Err(e) ==> e.reason@ == failure_reason(speaker_models@, *cluster),
{
    let ghost models = speaker_models@;
    let ghost c = *cluster;
    let n = cluster.speaker_model_ids.len();
    if n != cluster.joint_count + 1 {
        return Err(count_error(n, cluster.joint_count));
    }
    let mut indices: Vec<usize> = Vec::new();
    let mut p: usize = 0;
    while p < n
        invariant
            p <= n,
            n == cluster.speaker_model_ids@.len(),
            n == cluster.joint_count + 1,
            models == speaker_models@,
            c == *cluster,
            indices@.len() == p,
            forall|q: int|
                0 <= q < p ==> is_first_model(models, position_ids(c)[q], #[trigger] indices@[q] as int),
        decreases n - p,
    {
        proof {
            assert(position_ids(c)[p as int] == cluster.speaker_model_ids@[p as int]@);
        }
        match find_speaker(speaker_models, &cluster.speaker_model_ids[p]) {
            Some(m) => {
                indices.push(m);
            },
            None => {
                proof {
                    assert(missing_at(models, c, p as int));
                    assert forall|q: int| 0 <= q < p implies !missing_at(models, c, q) by {
                        assert(is_first_model(models, position_ids(c)[q], indices@[q] as int));
                    }
                    assert(missing_at(models, c, p as int) && forall|q: int|
                        0 <= q < p ==> !missing_at(models, c, q));
                    let f = first_missing(models, c);
                    if f < p {
                        assert(is_first_model(models, position_ids(c)[f], indices@[f] as int));
                    }
                    if f > p {
                        assert(!missing_at(models, c, p as int));
                    }
                    assert(f == p);
                    assert(!all_found(models, c));
                    assert(count_ok(c));
                }
                return Err(unknown_error(&cluster.speaker_model_ids[p]));
            },
        }
        p += 1;
    }
    proof {
        assert forall|q: int| 0 <= q < position_ids(c).len() implies has_model(
            models,
            #[trigger] position_ids(c)[q],
        ) by {
            assert(is_first_model(models, position_ids(c)[q], indices@[q] as int));
        }
        assert forall|q: int| 0 <= q < n implies model_at(models, c, q) == models[indices@[q] as int]
            by {
            lemma_first_model_unique(models, position_ids(c)[q], indices@[q] as int);
        }
    }
    let flown = match cluster.compartment {
        Compartment::Flown => true,
        Compartment::Stacked => false,
    };
    let mut below: Vec<usize> = Vec::new();
    let mut j: usize = 0;
    while j < cluster.joint_count
        invariant
            j <= cluster.joint_count,
            n == cluster.joint_count + 1,
            n == cluster.speaker_model_ids@.len(),
            models == speaker_models@,
            c == *cluster,
            flown == is_flown(c),
            indices@.len() == n,
            all_found(models, c),
            count_ok(c),
            forall|q: int| 0 <= q < n ==> is_first_model(models, position_ids(c)[q], #[trigger] indices@[q] as int),
            forall|q: int| 0 <= q < n ==> #[trigger] model_at(models, c, q) == models[indices@[q] as int],
            below@.len() == j,
            forall|k: int|
                0 <= k < j ==> {
                    let upper = models[indices@[k] as int];
                    &&& upper.is_first_below(position_ids(c)[k + 1], #[trigger] below@[k] as int)
                    &&& upper.compatible_below@[below@[k] as int].allows_spec(flown)
                },
        decreases cluster.joint_count - j,
    {
        let upper = &speaker_models[indices[j]];
        let lower = &speaker_models[indices[j + 1]];
        proof {
            assert(is_first_model(models, position_ids(c)[j + 1], indices@[j + 1] as int));
            assert(model_at(models, c, j as int) == *upper);
            assert(model_at(models, c, j + 1) == *lower);
        }
        let found = upper.below_index(lower.id.as_str());
        let ok = match found {
            Some(i) => upper.compatible_below[i].allows(flown),
            None => false,
        };
        if !ok {
            proof {
                assert(bad_joint(models, c, j as int)) by {
                    if joint_ok(models, c, j as int) {
                        let i1 = choose|i1: int|
                            #![trigger model_at(models, c, j as int).compatible_below@[i1]]
                            model_at(models, c, j as int).is_first_below(position_ids(c)[j + 1], i1)
                                && model_at(models, c, j as int).compatible_below@[i1].allows_spec(
                                is_flown(c),
                            );
                        assert(upper.compatible_below@[i1].speaker_model_id@ == lower.id@);
                        match found {
                            Some(i0) => {
                                if i1 < i0 {
                                    assert(upper.compatible_below@[i1].speaker_model_id@ != lower.id@);
                                }
                                if i0 < i1 {
                                    assert(upper.compatible_below@[i0 as int].speaker_model_id@
                                        != lower.id@);
                                }
                            },
                            None => {},
                        }
                    }
                }
                assert forall|k: int| 0 <= k < j implies !bad_joint(models, c, k) by {
                    assert(models[indices@[k] as int].is_first_below(position_ids(c)[k + 1], below@[k] as int));
                    assert(model_at(models, c, k) == models[indices@[k] as int]);
                    assert(model_at(models, c, k).compatible_below@[below@[k] as int] == models[indices@[k] as int].compatible_below@[below@[k] as int]);
                }
                let f = first_bad_joint(models, c);
                if f < j {
                    assert(!bad_joint(models, c, f));
                }
                assert(f == j);
            }
            return Err(undeclared_error(&lower.name, &upper.name, flown));
        }
        let i = found.unwrap();
        below.push(i);
        j += 1;
    }
    proof {
        assert forall|k: int| 0 <= k < c.joint_count implies joint_ok(models, c, k) by {
            assert(model_at(models, c, k) == models[indices@[k] as int]);
            let i = below@[k] as int;
            assert(model_at(models, c, k).compatible_below@[i] == models[indices@[k] as int].compatible_below@[i]);
        }
    }
    Ok(ResolvedChain { models: indices, below })
}

/// The bumper declares the speaker compatible in the compartment.
pub open spec fn bumper_allows(bumper: BumperModel, speaker_id: Seq<char>, compartment: Compartment) -> bool {
    exists|k: int|
        0 <= k < bumper.compatible_speakers@.len() && bumper.compatible_speakers@[k].speaker_model_id@
            == speaker_id && (if compartment == Compartment::Flown {
            bumper.compatible_speakers@[k].flown
        } else {
            bumper.compatible_speakers@[k].stacked
        })
}

pub open spec fn bumper_refusal(bumper_name: Seq<char>, speaker_name: Seq<char>, flown: bool) -> Seq<char> {
    "Le bumper \""@ + bumper_name + "\" n'est pas déclaré compatible avec l'enceinte \""@
        + speaker_name + "\" "@ + compartment_label(flown)
        + ". Choisis un bumper compatible ou mets à jour sa compatibilité dans Équipement et enceinte."@
}

/// A bumper is mandatory: the cluster's bumper must be declared compatible
/// with the reference speaker in the compartment, otherwise the configuration
/// is impossible — never a silent fallback.
pub fn validate_bumper_compatible(
    bumper_model: &BumperModel,
    speaker_model: &SpeakerModel,
    compartment: Compartment,
) -> (r: Result<(), ImpossibleConfiguration>)
    ensures
        r is Ok <==> bumper_allows(*bumper_model, speaker_model.id@, compartment),
        r matches Err(e) ==> e.reason@ == bumper_refusal(
            bumper_model.name@,
            speaker_model.name@,
            compartment == Compartment::Flown,
        ),
{
    let flown = match compartment {
        Compartment::Flown => true,
        Compartment::Stacked => false,
    };
    let mut k: usize = 0;
    while k < bumper_model.compatible_speakers.len()
        invariant
            k <= bumper_model.compatible_speakers@.len(),
            flown == (compartment == Compartment::Flown),
            forall|j: int|
                0 <= j < k ==> !(bumper_model.compatible_speakers@[j].speaker_model_id@ == speaker_model.id@
                    && (if flown {
                    bumper_model.compatible_speakers@[j].flown
                } else {
                    bumper_model.compatible_speakers@[j].stacked
                })),
        decreases bumper_model.compatible_speakers@.len() - k,
    {
        let c = &bumper_model.compatible_speakers[k];
        let allowed = if flown {
            c.flown
        } else {
            c.stacked
        };
        if c.speaker_model_id == speaker_model.id && allowed {
            return Ok(());
        }
        k += 1;
    }
    let mut m = String::from_str("Le bumper \"");
    m.append(bumper_model.name.as_str());
    m.append("\" n'est pas déclaré compatible avec l'enceinte \"");
    m.append(speaker_model.name.as_str());
    m.append("\" ");
    if flown {
        m.append("en vol");
    } else {
        m.append("en stack");
    }
    m.append(". Choisis un bumper compatible ou mets à jour sa compatibilité dans Équipement et enceinte.");
    proof {
        assert(m@ =~= bumper_refusal(bumper_model.name@, speaker_model.name@, flown));
    }
    Err(ImpossibleConfiguration { reason: m })
}

/// The bar declares `bumper_id` compatible.
pub open spec fn bar_serves(bar: BumperBarModel, bumper_id: Seq<char>) -> bool {
    exists|k: int|
        0 <= k < bar.compatible_bumpers@.len() && bar.compatible_bumpers@[k].bumper_model_id@ == bumper_id
}

fn serves(bar: &BumperBarModel, bumper_id: &String) -> (r: bool)
    ensures
        r == bar_serves(*bar, bumper_id@),
{
    let mut k: usize = 0;
    while k < bar.compatible_bumpers.len()
        invariant
            k <= bar.compatible_bumpers@.len(),
            forall|j: int| 0 <= j < k ==> bar.compatible_bumpers@[j].bumper_model_id@ != bumper_id@,
        decreases bar.compatible_bumpers@.len() - k,
    {
        if bar.compatible_bumpers[k].bumper_model_id == *bumper_id {
            return true;
        }
        k += 1;
    }
    false
}

/// Index of the offset bar that applies to `bumper`: the first bar that
/// declares it.
pub fn bumper_bar_index(bumper_bars: &Vec<BumperBarModel>, bumper: &BumperModel) -> (r: Option<usize>)
    ensures
        r matches Some(i) ==> i < bumper_bars@.len() && bar_serves(bumper_bars@[i as int], bumper.id@)
            && forall|k: int| 0 <= k < i ==> !bar_serves(bumper_bars@[k], bumper.id@),
        r is None ==> forall|k: int| 0 <= k < bumper_bars@.len() ==> !bar_serves(bumper_bars@[k], bumper.id@),
{
    let mut i: usize = 0;
    while i < bumper_bars.len()
        invariant
            i <= bumper_bars@.len(),
            forall|k: int| 0 <= k < i ==> !bar_serves(bumper_bars@[k], bumper.id@),
        decreases bumper_bars@.len() - i,
    {
        if serves(&bumper_bars[i], &bumper.id) {
            return Some(i);
        }
        i += 1;
    }
    None
}

/// The offset bar is never chosen by hand: it derives entirely from the
/// active bumper — the first bar that declares it, if any.
pub fn bumper_bar_for<'a>(bumper_bars: &'a Vec<BumperBarModel>, bumper: &BumperModel) -> (r: Option<&'a BumperBarModel>)
    ensures
        r matches Some(b) ==> exists|i: int|
            0 <= i < bumper_bars@.len() && *b == bumper_bars@[i] && bar_serves(bumper_bars@[i], bumper.id@)
                && forall|k: int| 0 <= k < i ==> !bar_serves(bumper_bars@[k], bumper.id@),
        r is None ==> forall|k: int| 0 <= k < bumper_bars@.len() ==> !bar_serves(bumper_bars@[k], bumper.id@),
{
    match bumper_bar_index(bumper_bars, bumper) {
        Some(i) => Some(&bumper_bars[i]),
        None => None,
    }
}

/// The splays drilled on each joint's upper model.
pub open spec fn grid_views(grids: Seq<Vec<i64>>) -> Seq<Seq<i64>> {
    grids.map_values(|g: Vec<i64>| g@)
}

/// Joint `j` is the first whose splay has no hole on its upper model.
pub open spec fn is_first_undrilled(grids: Seq<Seq<i64>>, splays: Seq<i64>, j: int) -> bool {
    &&& 0 <= j < splays.len()
    &&& !grids[j].contains(splays[j])
    &&& forall|k: int| 0 <= k < j ==> #[trigger] grids[k].contains(splays[k])
}

/// The first joint whose splay is not drilled on the upper model, the one
/// whose crown takes the pin: an angle missing from that grid is not an
/// approximate angle, it has no hole for the pin, and the cluster cannot be
/// assembled. `grids[j]` lists the splays drilled on joint `j`'s upper model
/// and `splays[j]` is joint `j`'s splay, all as integer keys, equal exactly
/// when two splays are the same hole.
pub fn first_undrilled_joint(grids: &Vec<Vec<i64>>, splays: &Vec<i64>) -> (r: Option<usize>)
    requires
        grids@.len() == splays@.len(),
    ensures
        r matches Some(j) ==> is_first_undrilled(grid_views(grids@), splays@, j as int),
        r is None <==> forall|k: int|
            0 <= k < splays@.len() ==> #[trigger] grid_views(grids@)[k].contains(splays@[k]),
{
    let mut j: usize = 0;
    while j < splays.len()
        invariant
            j <= splays@.len(),
            grids@.len() == splays@.len(),
            forall|k: int| 0 <= k < j ==> #[trigger] grid_views(grids@)[k].contains(splays@[k]),
        decreases splays@.len() - j,
    {
        let grid = &grids[j];
        let splay = splays[j];
        let mut found = false;
        let mut h: usize = 0;
        while h < grid.len()
            invariant
                h <= grid@.len(),
                found <==> grid@.take(h as int).contains(splay),
            decreases grid@.len() - h,
        {
            let ghost prev = grid@.take(h as int);
            if grid[h] == splay {
                found = true;
            }
            proof {
                let next = grid@.take(h as int + 1);
                assert(next =~= prev.push(grid@[h as int]));
                if grid@[h as int] == splay {
                    assert(next[h as int] == splay);
                }
                if prev.contains(splay) {
                    let i = choose|i: int| 0 <= i < prev.len() && prev[i] == splay;
                    assert(next[i] == splay);
                }
                if next.contains(splay) {
                    let i = choose|i: int| 0 <= i < next.len() && next[i] == splay;
                    if i < h {
                        assert(prev[i] == splay);
                    }
                }
            }
            h += 1;
        }
        proof {
            assert(grid@.take(grid@.len() as int) =~= grid@);
            assert(grid_views(grids@)[j as int] == grid@);
        }
        if !found {
            return Some(j);
        }
        j += 1;
    }
    None
}

/// Why joint `joint_index` cannot be assembled: its splay, as the message
/// writes it (`splay_label`, whole degrees), has no hole on `upper_name`,
/// whose drilled splays read `grid_label`.
pub open spec fn undrilled_reason(splay_label: Seq<char>, upper_name: Seq<char>, grid_label: Seq<char>) -> Seq<char> {
    "aucun trou à "@ + splay_label + "° sur \""@ + upper_name + "\". Angles percés : "@ + grid_label
        + "."@
}

/// The inconsistency of a joint whose splay is not drilled, to report through
/// `joint_failure` like any joint without solution.
pub fn undrilled_joint(joint_index: usize, splay_label: &str, upper_name: &str, grid_label: &str) -> (r: JointInconsistency)
    ensures
        r.joint_index == joint_index,
        r.reason@ == undrilled_reason(splay_label@, upper_name@, grid_label@),
{
    let mut m = String::from_str("aucun trou à ");
    m.append(splay_label);
    m.append("° sur \"");
    m.append(upper_name);
    m.append("\". Angles percés : ");
    m.append(grid_label);
    m.append(".");
    proof {
        assert(m@ =~= undrilled_reason(splay_label@, upper_name@, grid_label@));
    }
    JointInconsistency { joint_index, reason: m }
}

/// Position of the reference speaker, the one that carries the bumper: the
/// top one when flown, the bottom one when stacked.
pub fn reference_index(compartment: Compartment, speakers: usize) -> (r: usize)
    requires
        speakers > 0,
    ensures
        r == (if compartment == Compartment::Flown {
            0
        } else {
            speakers - 1
        }),
{
    match compartment {
        Compartment::Flown => 0,
        Compartment::Stacked => speakers - 1,
    }
}

} // verus!
