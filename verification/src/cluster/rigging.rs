//! Choice of the flown pick-up points among the holes actually drilled in the
//! bumper and its bar. Which families of holes a request offers, how bar holes
//! are numbered, and — once each hole's outcome is known — which hole or pair
//! the solver keeps: family by family in order of preference, the first whose
//! best choice is acceptable wins, otherwise the best choice over all
//! families.
//!
//! The outcomes (tilt error, heaviest chain) are real numbers: each choice
//! carries its rank among all the choices, an integer that orders them as the
//! outcome does, equal outcomes having equal ranks.

use super::model::{ImpossibleConfiguration, RiggingSupport};
use crate::text::{decimal, push_decimal};
use vstd::prelude::*;
use vstd::string::*;

verus! {

/// Where a group of holes comes from: the bumper, or the bar in one mount.
#[derive(Clone, Copy, Debug, PartialEq, Eq, Structural)]
pub enum GroupKind {
    Bumper,
    Bar { mount_index: usize },
}

/// What the drilling offers, as counts.
#[derive(Clone, Copy, Debug, PartialEq, Eq, Structural)]
pub struct DrillingCounts {
    /// Shackle holes declared on the bumper.
    pub bumper_holes: usize,
    /// Pick-up holes of the offset bar, `None` when no drawn bar serves the
    /// bumper.
    pub bar_holes: Option<usize>,
    /// Ways the bar can be mounted on the bumper.
    pub bar_mounts: usize,
}

/// The bar mounts a request keeps, in mount order.
pub open spec fn bar_groups(mounts: nat, imposed: Option<usize>) -> Seq<GroupKind>
    decreases mounts,
{
    if mounts == 0 {
        seq![]
    } else {
        let m = (mounts - 1) as usize;
        let rest = bar_groups((mounts - 1) as nat, imposed);
        if imposed is None || imposed == Some(m) {
            rest.push(GroupKind::Bar { mount_index: m })
        } else {
            rest
        }
    }
}

/// The groups of holes a request offers, in order of preference: the bumper
/// unless the bar is imposed, then each kept bar mount unless the bumper is
/// imposed — a group without holes being left out.
pub open spec fn offered_spec(
    support: RiggingSupport,
    counts: DrillingCounts,
    imposed: Option<usize>,
) -> Seq<GroupKind> {
    let bumper: Seq<GroupKind> = if support != RiggingSupport::Bar && counts.bumper_holes > 0 {
        seq![GroupKind::Bumper]
    } else {
        seq![]
    };
    let bar_has_holes = match counts.bar_holes {
        Some(h) => h > 0,
        None => false,
    };
    let bar: Seq<GroupKind> = if support != RiggingSupport::Bumper && bar_has_holes {
        bar_groups(counts.bar_mounts as nat, imposed)
    } else {
        seq![]
    };
    bumper + bar
}

/// Why a request offers no hole at all.
pub open spec fn no_hole_reason(support: RiggingSupport, counts: DrillingCounts, bumper_name: Seq<char>) -> Seq<char> {
    if support == RiggingSupport::Bar && counts.bar_holes is None {
        "Aucune barre de déport cotée n'est compatible avec le bumper \""@ + bumper_name + "\"."@
    } else if support == RiggingSupport::Bar {
        "Le montage de barre demandé n'existe pas avec ces perçages."@
    } else {
        "Le bumper \""@ + bumper_name + "\" ne déclare aucun trou d'accroche."@
    }
}

proof fn lemma_bar_groups(mounts: nat, imposed: Option<usize>)
    requires
        mounts <= usize::MAX,
    ensures
        forall|h: int|
            0 <= h < bar_groups(mounts, imposed).len() ==> (#[trigger] bar_groups(mounts, imposed)[h] matches GroupKind::Bar { mount_index } && mount_index < mounts && (imposed is None || imposed == Some(mount_index))),
        forall|m: usize|
            m < mounts ==> (#[trigger] bar_groups(mounts, imposed).contains(GroupKind::Bar { mount_index: m }) <==> (
            imposed is None || imposed == Some(m))),
    decreases mounts,
{
    if mounts > 0 {
        lemma_bar_groups((mounts - 1) as nat, imposed);
        let rest = bar_groups((mounts - 1) as nat, imposed);
        let last = (mounts - 1) as usize;
        let g = GroupKind::Bar { mount_index: last };
        assert forall|m: usize| m < mounts implies (#[trigger] bar_groups(mounts, imposed).contains(GroupKind::Bar { mount_index: m }) <==> (
            imposed is None || imposed == Some(m))) by {
            let x = GroupKind::Bar { mount_index: m };
            if imposed is None || imposed == Some(last) {
                assert(bar_groups(mounts, imposed) == rest.push(g));
                if rest.push(g).contains(x) {
                    let j = choose|j: int| 0 <= j < rest.push(g).len() && rest.push(g)[j] == x;
                    if j < rest.len() {
                        assert(rest[j] == x);
                        assert(rest.contains(x));
                    }
                }
                if m < last {
                    if rest.contains(x) {
                        let j = choose|j: int| 0 <= j < rest.len() && rest[j] == x;
                        assert(rest.push(g)[j] == x);
                    }
                } else {
                    assert(rest.push(g)[rest.len() as int] == x);
                }
            } else {
                assert(bar_groups(mounts, imposed) == rest);
                if m == last {
                    if rest.contains(x) {
                        let j = choose|j: int| 0 <= j < rest.len() && rest[j] == x;
                        assert(rest[j] == x);
                    }
                }
            }
        }
    }
}

/// The groups offered follow the request. The bumper is offered exactly when
/// the request does not impose the bar and the bumper has holes; bar mount
/// `m` exactly when the request does not impose the bumper, the bar has
/// holes, and no other mount is imposed. So an imposed bumper offers only
/// the bumper, and an imposed bar never offers the bumper.
pub proof fn offered_groups_follow_the_request(support: RiggingSupport, counts: DrillingCounts, imposed: Option<usize>)
    ensures
        offered_spec(support, counts, imposed).contains(GroupKind::Bumper) <==> (support != RiggingSupport::Bar
            && counts.bumper_holes > 0),
        forall|m: usize|
            m < counts.bar_mounts ==> (#[trigger] offered_spec(support, counts, imposed).contains(
                GroupKind::Bar { mount_index: m },
            ) <==> (support != RiggingSupport::Bumper && (counts.bar_holes matches Some(n) && n > 0) && (
            imposed is None || imposed == Some(m)))),
        forall|h: int|
            0 <= h < offered_spec(support, counts, imposed).len() ==> (#[trigger] offered_spec(support, counts, imposed)[h]
                == GroupKind::Bumper ==> support != RiggingSupport::Bar && counts.bumper_holes > 0),
        forall|h: int|
            0 <= h < offered_spec(support, counts, imposed).len() ==> (#[trigger] offered_spec(support, counts, imposed)[h]
                matches GroupKind::Bar { mount_index } ==> {
                &&& support != RiggingSupport::Bumper
                &&& (counts.bar_holes matches Some(n) && n > 0)
                &&& mount_index < counts.bar_mounts
                &&& (imposed is None || imposed == Some(mount_index))
            }),
        support == RiggingSupport::Bumper ==> forall|h: int|
            0 <= h < offered_spec(support, counts, imposed).len() ==> #[trigger] offered_spec(support, counts, imposed)[h]
                == GroupKind::Bumper,
        support == RiggingSupport::Bar ==> !offered_spec(support, counts, imposed).contains(GroupKind::Bumper),
{
    let bumper: Seq<GroupKind> = if support != RiggingSupport::Bar && counts.bumper_holes > 0 {
        seq![GroupKind::Bumper]
    } else {
        seq![]
    };
    let bar_has_holes = match counts.bar_holes {
        Some(h) => h > 0,
        None => false,
    };
    let bars = bar_groups(counts.bar_mounts as nat, imposed);
    let bar: Seq<GroupKind> = if support != RiggingSupport::Bumper && bar_has_holes {
        bars
    } else {
        seq![]
    };
    let o = offered_spec(support, counts, imposed);
    assert(o == bumper + bar);
    lemma_bar_groups(counts.bar_mounts as nat, imposed);
    assert forall|h: int| 0 <= h < o.len() implies {
        &&& (o[h] == GroupKind::Bumper ==> h < bumper.len())
        &&& (h < bumper.len() ==> o[h] == GroupKind::Bumper)
        &&& (h >= bumper.len() ==> o[h] == bar[h - bumper.len()] && bar.len() > 0 && bar == bars)
    } by {
        if h >= bumper.len() {
            assert(o[h] == bar[h - bumper.len()]);
            if bar.len() > 0 {
                assert(bar == bars);
                assert(bars[h - bumper.len()] is Bar);
            }
        }
    }
    if o.contains(GroupKind::Bumper) {
        let j = choose|j: int| 0 <= j < o.len() && o[j] == GroupKind::Bumper;
    }
    if support != RiggingSupport::Bar && counts.bumper_holes > 0 {
        assert(o[0] == GroupKind::Bumper);
    }
    assert forall|m: usize| m < counts.bar_mounts implies (#[trigger] o.contains(GroupKind::Bar { mount_index: m }) <==> (
        support != RiggingSupport::Bumper && (counts.bar_holes matches Some(n) && n > 0) && (imposed is None
            || imposed == Some(m)))) by {
        let x = GroupKind::Bar { mount_index: m };
        if o.contains(x) {
            let j = choose|j: int| 0 <= j < o.len() && o[j] == x;
            assert(bar.len() > 0 && bar == bars);
            assert(bars[j - bumper.len()] == x);
            assert(bars.contains(x));
        }
        if support != RiggingSupport::Bumper && bar_has_holes && (imposed is None || imposed == Some(m)) {
            assert(bars.contains(x));
            let j = choose|j: int| 0 <= j < bars.len() && bars[j] == x;
            assert(o[j + bumper.len()] == x);
        }
    }
}

/// The groups of holes offered to a request. A bumper without any hole usable
/// for it is an impossible configuration.
pub fn offered_groups(
    support: RiggingSupport,
    counts: DrillingCounts,
    bar_mount_index: Option<usize>,
    bumper_name: &String,
) -> (r: Result<Vec<GroupKind>, ImpossibleConfiguration>)
    ensures
        r is Ok <==> offered_spec(support, counts, bar_mount_index).len() > 0,
        r matches Ok(g) ==> g@ == offered_spec(support, counts, bar_mount_index),
        r matches Err(e) ==> e.reason@ == no_hole_reason(support, counts, bumper_name@),
        r matches Ok(g) ==> forall|h: int|
            0 <= h < g@.len() ==> (#[trigger] g@[h] == GroupKind::Bumper ==> support != RiggingSupport::Bar
                && counts.bumper_holes > 0),
        r matches Ok(g) ==> forall|h: int|
            0 <= h < g@.len() ==> (#[trigger] g@[h] matches GroupKind::Bar { mount_index } ==> {
                &&& support != RiggingSupport::Bumper
                &&& (counts.bar_holes matches Some(n) && n > 0)
                &&& mount_index < counts.bar_mounts
                &&& (bar_mount_index is None || bar_mount_index == Some(mount_index))
            }),
        r matches Ok(g) ==> (g@.contains(GroupKind::Bumper) <==> (support != RiggingSupport::Bar
            && counts.bumper_holes > 0)),
        r matches Ok(g) ==> forall|m: usize|
            m < counts.bar_mounts ==> (#[trigger] g@.contains(GroupKind::Bar { mount_index: m }) <==> (
            support != RiggingSupport::Bumper && (counts.bar_holes matches Some(n) && n > 0) && (
            bar_mount_index is None || bar_mount_index == Some(m)))),
{
    proof {
        offered_groups_follow_the_request(support, counts, bar_mount_index);
    }
    let mut groups: Vec<GroupKind> = Vec::new();
    if support != RiggingSupport::Bar && counts.bumper_holes > 0 {
        groups.push(GroupKind::Bumper);
    }
    let ghost head = groups@;
    let bar_has_holes = match counts.bar_holes {
        Some(h) => h > 0,
        None => false,
    };
    if support != RiggingSupport::Bumper && bar_has_holes {
        let mut m: usize = 0;
        proof {
            assert(head + bar_groups(0, bar_mount_index) =~= head);
        }
        while m < counts.bar_mounts
            invariant
                m <= counts.bar_mounts,
                groups@ == head + bar_groups(m as nat, bar_mount_index),
            decreases counts.bar_mounts - m,
        {
            let keep = match bar_mount_index {
                Some(i) => i == m,
                None => true,
            };
            if keep {
                groups.push(GroupKind::Bar { mount_index: m });
                proof {
                    assert(groups@ =~= head + bar_groups((m + 1) as nat, bar_mount_index));
                }
            }
            m += 1;
        }
    } else {
        proof {
            assert(groups@ =~= head + Seq::<GroupKind>::empty());
        }
    }
    if groups.len() == 0 {
        let no_bar = match counts.bar_holes {
            Some(_) => false,
            None => true,
        };
        let reason = if support == RiggingSupport::Bar && no_bar {
            let mut m = String::from_str("Aucune barre de déport cotée n'est compatible avec le bumper \"");
            m.append(bumper_name.as_str());
            m.append("\".");
            proof {
                assert(m@ =~= no_hole_reason(support, counts, bumper_name@));
            }
            m
        } else if support == RiggingSupport::Bar {
            String::from_str("Le montage de barre demandé n'existe pas avec ces perçages.")
        } else {
            let mut m = String::from_str("Le bumper \"");
            m.append(bumper_name.as_str());
            m.append("\" ne déclare aucun trou d'accroche.");
            proof {
                assert(m@ =~= no_hole_reason(support, counts, bumper_name@));
            }
            m
        };
        return Err(ImpossibleConfiguration { reason });
    }
    Ok(groups)
}

/// Number of bar hole `i` of `count`, counted from the centre of the bar,
/// positive towards the rear whatever the mounting direction.
pub open spec fn bar_hole_rank_spec(i: int, count: int, flipped: bool) -> int {
    let rank = i - count / 2;
    if flipped {
        -rank
    } else {
        rank
    }
}

pub fn bar_hole_rank(i: usize, count: usize, flipped: bool) -> (r: i64)
    requires
        i < count,
        count <= i64::MAX,
    ensures
        r == bar_hole_rank_spec(i as int, count as int, flipped),
{
    let rank = i as i64 - (count / 2) as i64;
    if flipped {
        -rank
    } else {
        rank
    }
}

/// One possible choice (a hole, or a pair of holes) as the selection reads
/// it: the rank of its outcome (lower is better) and whether the outcome is
/// acceptable on its own (within the tilt tolerance, within every hole's
/// working load limit).
#[derive(Clone, Copy, Debug, PartialEq, Eq, Structural)]
pub struct Choice {
    pub rank: u64,
    pub acceptable: bool,
}

/// The best choice of a group: the lowest rank, the first one to reach it.
pub open spec fn is_group_best(group: Seq<Choice>, c: int) -> bool {
    &&& 0 <= c < group.len()
    &&& forall|k: int| 0 <= k < group.len() ==> group[c].rank <= group[k].rank
    &&& forall|k: int| 0 <= k < c ==> group[c].rank < group[k].rank
}

/// `(g, c)` is what the selection keeps from `groups`: the best choice of the
/// first group whose best is acceptable; if none is, the best of the group
/// bests, the earliest group on a tie.
pub open spec fn is_preferred(groups: Seq<Seq<Choice>>, g: int, c: int) -> bool {
    &&& 0 <= g < groups.len()
    &&& is_group_best(groups[g], c)
    &&& forall|h: int, b: int| 0 <= h < g && is_group_best(groups[h], b) ==> !groups[h][b].acceptable
    &&& (groups[g][c].acceptable || (forall|h: int, b: int|
        0 <= h < groups.len() && is_group_best(groups[h], b) ==> !groups[h][b].acceptable && groups[g][c].rank
            <= groups[h][b].rank && (h < g ==> groups[g][c].rank < groups[h][b].rank)))
}

fn group_best(group: &Vec<Choice>) -> (r: Option<usize>)
    ensures
        r matches Some(c) ==> is_group_best(group@, c as int),
        r is None <==> group@.len() == 0,
{
    if group.len() == 0 {
        return None;
    }
    let mut best: usize = 0;
    let mut k: usize = 1;
    while k < group.len()
        invariant
            1 <= k <= group@.len(),
            best < k,
            forall|j: int| 0 <= j < k ==> group@[best as int].rank <= group@[j].rank,
            forall|j: int| 0 <= j < best ==> group@[best as int].rank < group@[j].rank,
        decreases group@.len() - k,
    {
        if group[k].rank < group[best].rank {
            best = k;
        }
        k += 1;
    }
    Some(best)
}

proof fn lemma_group_best_unique(group: Seq<Choice>, a: int, b: int)
    requires
        is_group_best(group, a),
        is_group_best(group, b),
    ensures
        a == b,
{
    if a < b {
        assert(group[b].rank < group[a].rank);
    }
    if b < a {
        assert(group[a].rank < group[b].rank);
    }
}

/// The choice kept among `groups` (listed in order of preference), as
/// `(group, choice)`; `None` when no group offers any choice.
pub fn pick_preferred(groups: &Vec<Vec<Choice>>) -> (r: Option<(usize, usize)>)
    ensures
        r matches Some((g, c)) ==> is_preferred(groups@.map_values(|v: Vec<Choice>| v@), g as int, c as int),
        r is None <==> forall|h: int| 0 <= h < groups@.len() ==> groups@[h]@.len() == 0,
{
    let ghost gs = groups@.map_values(|v: Vec<Choice>| v@);
    let mut best: Option<(usize, usize)> = None;
    let mut g: usize = 0;
    while g < groups.len()
        invariant
            g <= groups@.len(),
            gs == groups@.map_values(|v: Vec<Choice>| v@),
            forall|h: int, b: int| 0 <= h < g && is_group_best(gs[h], b) ==> !gs[h][b].acceptable,
            best is None ==> forall|h: int| 0 <= h < g ==> gs[h].len() == 0,
            best matches Some((bg, bc)) ==> {
                &&& bg < g
                &&& is_group_best(gs[bg as int], bc as int)
                &&& forall|h: int, b: int|
                    0 <= h < g && is_group_best(gs[h], b) ==> gs[bg as int][bc as int].rank <= gs[h][b].rank
                        && (h < bg ==> gs[bg as int][bc as int].rank < gs[h][b].rank)
            },
        decreases groups@.len() - g,
    {
        proof {
            assert(gs[g as int] == groups@[g as int]@);
        }
        match group_best(&groups[g]) {
            None => {},
            Some(c) => {
                if groups[g][c].acceptable {
                    proof {
                        assert forall|h: int, b: int|
                            0 <= h < groups@.len() && is_group_best(gs[h], b) && h < g implies !gs[h][b].acceptable by {}
                    }
                    return Some((g, c));
                }
                let better = match best {
                    None => true,
                    Some((bg, bc)) => groups[g][c].rank < groups[bg][bc].rank,
                };
                if better {
                    proof {
                        assert forall|h: int, b: int|
                            0 <= h < g + 1 && is_group_best(gs[h], b) implies gs[g as int][c as int].rank <= gs[h][b].rank
                                && (h < g ==> gs[g as int][c as int].rank < gs[h][b].rank) by {
                            if h == g {
                                lemma_group_best_unique(gs[h], b, c as int);
                            }
                        }
                    }
                    best = Some((g, c));
                } else {
                    proof {
                        let (bg, bc) = best.unwrap();
                        assert forall|h: int, b: int|
                            0 <= h < g + 1 && is_group_best(gs[h], b) implies gs[bg as int][bc as int].rank <= gs[h][b].rank
                                && (h < bg ==> gs[bg as int][bc as int].rank < gs[h][b].rank) by {
                            if h == g {
                                lemma_group_best_unique(gs[h], b, c as int);
                            }
                        }
                    }
                }
                proof {
                    assert forall|h: int, b: int| 0 <= h < g + 1 && is_group_best(gs[h], b) implies !gs[h][b].acceptable by {
                        if h == g {
                            lemma_group_best_unique(gs[h], b, c as int);
                        }
                    }
                }
            },
        }
        g += 1;
    }
    proof {
        assert forall|h: int| 0 <= h < groups@.len() implies gs[h] == groups@[h]@ by {}
        if let Some((bg, bc)) = best {
            assert(groups@[bg as int]@.len() > 0);
        } else {
            assert forall|h: int| 0 <= h < groups@.len() implies groups@[h]@.len() == 0 by {
                assert(gs[h].len() == 0);
            }
        }
    }
    best
}

/// How a flown cluster is held, decided before the cluster is assembled.
#[derive(Clone, Copy, Debug, PartialEq, Eq, Structural)]
pub enum PointsPlan {
    /// One motor: the tilt follows from the hole (and from a pull-back, if
    /// there is one).
    Single,
    /// Two motors: the tilt is held by the chain lengths, the holes are chosen
    /// on the load sharing.
    Pair,
}

pub open spec fn points_refusal(points: u8, pull_back_enabled: bool, has_target: bool) -> Option<Seq<char>> {
    if points == 2 && pull_back_enabled {
        Some("Pull-back et accroche 2 points ne se combinent pas : à 2 points, la charge se répartit déjà entre les deux moteurs."@)
    } else if points != 1 && points != 2 {
        Some("Accroche à "@ + decimal(points as nat) + " points non gérée : 1 ou 2 points seulement."@)
    } else if points == 1 && pull_back_enabled && !has_target {
        Some("Le pull-back demande une assiette imposée : c'est elle qu'il aide à tenir, et avec elle que se répartit la charge."@)
    } else {
        None
    }
}

/// What a pick-up plan refuses, stated on the request: two motors with a
/// pull-back (the two motors already share the load), any number of motors
/// but one or two, and a pull-back at one point without an imposed tilt.
/// Everything else is accepted.
pub proof fn what_a_pick_up_plan_refuses(points: u8, pull_back_enabled: bool, has_target: bool)
    ensures
        points_refusal(points, pull_back_enabled, has_target) is None <==> ((points == 2 && !pull_back_enabled) || (
        points == 1 && (!pull_back_enabled || has_target))),
        points == 2 && pull_back_enabled ==> points_refusal(points, pull_back_enabled, has_target) == Some(
            "Pull-back et accroche 2 points ne se combinent pas : à 2 points, la charge se répartit déjà entre les deux moteurs."@,
        ),
{
}

/// One or two motors, as requested — with the requests that cannot be
/// honoured refused: a pull-back with two points, a number of points other
/// than 1 or 2, a pull-back without an imposed tilt.
pub fn plan_points(points: u8, pull_back_enabled: bool, has_target: bool) -> (r: Result<PointsPlan, ImpossibleConfiguration>)
    ensures
        r is Err <==> points_refusal(points, pull_back_enabled, has_target) is Some,
        r matches Err(e) ==> Some(e.reason@) == points_refusal(points, pull_back_enabled, has_target),
        r matches Ok(p) ==> (p == PointsPlan::Pair <==> points == 2),
        points == 2 && pull_back_enabled ==> (r matches Err(e) && e.reason@
            == "Pull-back et accroche 2 points ne se combinent pas : à 2 points, la charge se répartit déjà entre les deux moteurs."@),
        points == 2 && !pull_back_enabled ==> r == Ok::<PointsPlan, ImpossibleConfiguration>(PointsPlan::Pair),
        points != 1 && points != 2 ==> r is Err,
        points == 1 && pull_back_enabled && !has_target ==> r is Err,
        points == 1 && (!pull_back_enabled || has_target) ==> r == Ok::<PointsPlan, ImpossibleConfiguration>(PointsPlan::Single),
{
    proof {
        what_a_pick_up_plan_refuses(points, pull_back_enabled, has_target);
    }
    if points == 2 && pull_back_enabled {
        return Err(
            ImpossibleConfiguration {
                reason: String::from_str(
                    "Pull-back et accroche 2 points ne se combinent pas : à 2 points, la charge se répartit déjà entre les deux moteurs.",
                ),
            },
        );
    }
    if points == 2 {
        return Ok(PointsPlan::Pair);
    }
    if points != 1 {
        let mut m = String::from_str("Accroche à ");
        push_decimal(&mut m, points as usize);
        m.append(" points non gérée : 1 ou 2 points seulement.");
        proof {
            assert(m@ =~= "Accroche à "@ + decimal(points as nat) + " points non gérée : 1 ou 2 points seulement."@);
        }
        return Err(ImpossibleConfiguration { reason: m });
    }
    if pull_back_enabled && !has_target {
        return Err(
            ImpossibleConfiguration {
                reason: String::from_str(
                    "Le pull-back demande une assiette imposée : c'est elle qu'il aide à tenir, et avec elle que se répartit la charge.",
                ),
            },
        );
    }
    Ok(PointsPlan::Single)
}

/// At one point, a pull-back is used when the imposed tilt lies beyond
/// everything the holes allow (`forced`), or when the user enabled it — and
/// only with an imposed tilt.
pub fn uses_pull_back(has_target: bool, forced: bool, pull_back_enabled: bool) -> (r: bool)
    ensures
        r == (has_target && (forced || pull_back_enabled)),
{
    has_target && (forced || pull_back_enabled)
}

} // verus!
