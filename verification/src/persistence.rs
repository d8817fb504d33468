//! Persistence rules: one file per element, filed by family. Shipped
//! catalogue elements belong to the software: they can be neither saved nor
//! deleted from the application, and an update removes exactly what an earlier
//! version installed and this one no longer ships.

use crate::seed::{shipped_asset_ids, shipped_ids, AssetFiles};
use vstd::prelude::*;
use vstd::string::*;

verus! {

/// A persisted family.
#[derive(Clone, Copy, Debug, PartialEq, Eq, Structural)]
pub enum EntityKind {
    Speaker,
    Cluster,
    Bumper,
    BumperBar,
}

impl EntityKind {
    /// Directory of the family under the data directory (same name as in the
    /// shipped assets).
    pub open spec fn dir_name_spec(self) -> Seq<char> {
        match self {
            EntityKind::Speaker => "speakers"@,
            EntityKind::Cluster => "clusters"@,
            EntityKind::Bumper => "bumpers"@,
            EntityKind::BumperBar => "bumper-bars"@,
        }
    }

    /// « Cette enceinte », « Ce bumper »… for messages.
    pub open spec fn this_spec(self) -> Seq<char> {
        match self {
            EntityKind::Speaker => "Cette enceinte"@,
            EntityKind::Cluster => "Cette grappe"@,
            EntityKind::Bumper => "Ce bumper"@,
            EntityKind::BumperBar => "Cette barre"@,
        }
    }

    pub fn dir_name(self) -> (r: &'static str)
        ensures
            r@ == self.dir_name_spec(),
    {
        match self {
            EntityKind::Speaker => "speakers",
            EntityKind::Cluster => "clusters",
            EntityKind::Bumper => "bumpers",
            EntityKind::BumperBar => "bumper-bars",
        }
    }

    pub fn this(self) -> (r: &'static str)
        ensures
            r@ == self.this_spec(),
    {
        match self {
            EntityKind::Speaker => "Cette enceinte",
            EntityKind::Cluster => "Cette grappe",
            EntityKind::Bumper => "Ce bumper",
            EntityKind::BumperBar => "Cette barre",
        }
    }
}

/// The characters of each identifier, in order.
pub open spec fn id_views(ids: Seq<String>) -> Seq<Seq<char>> {
    ids.map_values(|s: String| s@)
}

/// What a version of the software installed in the data directory. Written
/// next to the catalogues and read back at the next launch: it is what tells a
/// shipped element withdrawn by an update from one the user created.
#[derive(Debug)]
pub struct BuiltinIds {
    pub speakers: Vec<String>,
    pub bumpers: Vec<String>,
    pub bumper_bars: Vec<String>,
    pub clusters: Vec<String>,
}

impl Default for BuiltinIds {
    fn default() -> (r: Self)
        ensures
            r.is_empty(),
    {
        BuiltinIds {
            speakers: Vec::new(),
            bumpers: Vec::new(),
            bumper_bars: Vec::new(),
            clusters: Vec::new(),
        }
    }
}

impl BuiltinIds {
    /// The identifiers listed for one family.
    pub open spec fn ids_of(self, kind: EntityKind) -> Seq<Seq<char>> {
        match kind {
            EntityKind::Speaker => id_views(self.speakers@),
            EntityKind::Bumper => id_views(self.bumpers@),
            EntityKind::BumperBar => id_views(self.bumper_bars@),
            EntityKind::Cluster => id_views(self.clusters@),
        }
    }

    /// No family lists anything: what a first installation reads.
    pub open spec fn is_empty(self) -> bool {
        forall|kind: EntityKind| #[trigger] self.ids_of(kind).len() == 0
    }

    fn ids(&self, kind: EntityKind) -> (r: &Vec<String>)
        ensures
            id_views(r@) == self.ids_of(kind),
    {
        match kind {
            EntityKind::Speaker => &self.speakers,
            EntityKind::Bumper => &self.bumpers,
            EntityKind::BumperBar => &self.bumper_bars,
            EntityKind::Cluster => &self.clusters,
        }
    }

    /// Is `id` listed for `kind`?
    pub fn contains(&self, kind: EntityKind, id: &str) -> (r: bool)
        ensures
            r == self.ids_of(kind).contains(id@),
    {
        let ids = self.ids(kind);
        let target = id.to_owned();
        let mut i: usize = 0;
        while i < ids.len()
            invariant
                i <= ids.len(),
                target@ == id@,
                id_views(ids@) == self.ids_of(kind),
                forall|j: int| 0 <= j < i ==> ids@[j]@ != id@,
            decreases ids.len() - i,
        {
            if ids[i] == target {
                proof {
                    assert(self.ids_of(kind)[i as int] == id@);
                }
                return true;
            }
            i += 1;
        }
        proof {
            assert forall|j: int| 0 <= j < self.ids_of(kind).len() implies self.ids_of(kind)[j]
                != id@ by {
                assert(self.ids_of(kind)[j] == ids@[j]@);
            }
        }
        false
    }
}

/// A stale entry: the family and the identifier.
pub open spec fn pair_views(v: Seq<(EntityKind, String)>) -> Seq<(EntityKind, Seq<char>)> {
    v.map_values(|p: (EntityKind, String)| (p.0, p.1@))
}

/// The identifiers of `prev` that `cur` no longer lists, in `prev`'s order,
/// tagged with their family.
pub open spec fn stale_of(kind: EntityKind, prev: Seq<Seq<char>>, cur: Seq<Seq<char>>) -> Seq<
    (EntityKind, Seq<char>),
>
    decreases prev.len(),
{
    if prev.len() == 0 {
        seq![]
    } else {
        let rest = stale_of(kind, prev.drop_last(), cur);
        if cur.contains(prev.last()) {
            rest
        } else {
            rest.push((kind, prev.last()))
        }
    }
}

/// What the synchronisation may remove: family by family (speakers, bumpers,
/// bumper bars, clusters), what `previous` installed and `current` no longer
/// ships.
pub open spec fn stale_spec(previous: BuiltinIds, current: BuiltinIds) -> Seq<
    (EntityKind, Seq<char>),
> {
    stale_of(
        EntityKind::Speaker,
        previous.ids_of(EntityKind::Speaker),
        current.ids_of(EntityKind::Speaker),
    ) + stale_of(
        EntityKind::Bumper,
        previous.ids_of(EntityKind::Bumper),
        current.ids_of(EntityKind::Bumper),
    ) + stale_of(
        EntityKind::BumperBar,
        previous.ids_of(EntityKind::BumperBar),
        current.ids_of(EntityKind::BumperBar),
    ) + stale_of(
        EntityKind::Cluster,
        previous.ids_of(EntityKind::Cluster),
        current.ids_of(EntityKind::Cluster),
    )
}

fn push_stale(
    out: &mut Vec<(EntityKind, String)>,
    kind: EntityKind,
    prev: &Vec<String>,
    current: &BuiltinIds,
)
    ensures
        pair_views(final(out)@) == pair_views(old(out)@) + stale_of(
            kind,
            id_views(prev@),
            current.ids_of(kind),
        ),
{
    let ghost base = pair_views(out@);
    let ghost pv = id_views(prev@);
    let mut i: usize = 0;
    proof {
        assert(pv.take(0) =~= Seq::<Seq<char>>::empty());
        assert(base + stale_of(kind, pv.take(0), current.ids_of(kind)) =~= base);
    }
    while i < prev.len()
        invariant
            i <= prev.len(),
            pv == id_views(prev@),
            pair_views(out@) == base + stale_of(kind, pv.take(i as int), current.ids_of(kind)),
        decreases prev.len() - i,
    {
        let ghost before = pair_views(out@);
        proof {
            assert(pv.take(i as int + 1).drop_last() =~= pv.take(i as int));
            assert(pv.take(i as int + 1).last() == prev@[i as int]@);
        }
        if !current.contains(kind, prev[i].as_str()) {
            out.push((kind, prev[i].clone()));
            proof {
                assert(pair_views(out@) =~= before.push((kind, prev@[i as int]@)));
            }
        }
        i += 1;
    }
    proof {
        assert(pv.take(prev.len() as int) =~= pv);
    }
}

/// What an earlier version installed and this one no longer ships.
///
/// The only list the synchronisation may delete. It is computed against the
/// manifest, never against the directory: an element absent from the manifest
/// was created by the user, and it is not the software's to erase.
pub fn stale_builtins(previous: &BuiltinIds, current: &BuiltinIds) -> (r: Vec<(EntityKind, String)>)
    ensures
        pair_views(r@) == stale_spec(*previous, *current),
{
    let mut out: Vec<(EntityKind, String)> = Vec::new();
    proof {
        assert(pair_views(out@) =~= Seq::<(EntityKind, Seq<char>)>::empty());
    }
    push_stale(&mut out, EntityKind::Speaker, &previous.speakers, current);
    push_stale(&mut out, EntityKind::Bumper, &previous.bumpers, current);
    push_stale(&mut out, EntityKind::BumperBar, &previous.bumper_bars, current);
    push_stale(&mut out, EntityKind::Cluster, &previous.clusters, current);
    proof {
        let e = Seq::<(EntityKind, Seq<char>)>::empty();
        assert(e + stale_of(
            EntityKind::Speaker,
            previous.ids_of(EntityKind::Speaker),
            current.ids_of(EntityKind::Speaker),
        ) =~= stale_of(
            EntityKind::Speaker,
            previous.ids_of(EntityKind::Speaker),
            current.ids_of(EntityKind::Speaker),
        ));
    }
    out
}

/// Identifiers shipped by the running version: those of the asset files the
/// application found in each family's directory.
pub fn builtin_ids(assets: &AssetFiles) -> (r: BuiltinIds)
    ensures
        forall|kind: EntityKind| #[trigger] r.ids_of(kind) == shipped_ids(*assets, kind),
{
    BuiltinIds {
        speakers: shipped_asset_ids(assets, EntityKind::Speaker),
        bumpers: shipped_asset_ids(assets, EntityKind::Bumper),
        bumper_bars: shipped_asset_ids(assets, EntityKind::BumperBar),
        clusters: shipped_asset_ids(assets, EntityKind::Cluster),
    }
}

/// The refusal addressed to the user for a shipped element of `kind`.
pub open spec fn refusal_message(kind: EntityKind) -> Seq<char> {
    kind.this_spec()
        + " fait partie du catalogue livré avec le logiciel : elle ne peut être ni modifiée ni supprimée ici. Duplique-la pour partir de sa configuration."@
}

/// A shipped element is neither saved nor deleted from the application: it
/// belongs to the software, only an update moves it. Refusing explicitly beats
/// writing a file that the next launch would overwrite — a save silently undone
/// is worse than no save at all. `assets` is what the application found in
/// the asset directories.
pub fn refuse_if_builtin(assets: &AssetFiles, kind: EntityKind, id: &str) -> (r: Result<(), String>)
    ensures
        r is Err <==> shipped_ids(*assets, kind).contains(id@),
        r matches Err(m) ==> m@ == refusal_message(kind),
{
    let listed = builtin_ids(assets);
    if listed.contains(kind, id) {
        let mut m = String::from_str(kind.this());
        m.append(
            " fait partie du catalogue livré avec le logiciel : elle ne peut être ni modifiée ni supprimée ici. Duplique-la pour partir de sa configuration.",
        );
        return Err(m);
    }
    Ok(())
}

proof fn lemma_stale_of_members(
    kind: EntityKind,
    prev: Seq<Seq<char>>,
    cur: Seq<Seq<char>>,
    k: EntityKind,
    id: Seq<char>,
)
    ensures
        stale_of(kind, prev, cur).contains((k, id)) <==> (k == kind && prev.contains(id)
            && !cur.contains(id)),
    decreases prev.len(),
{
    if prev.len() > 0 {
        let rest = stale_of(kind, prev.drop_last(), cur);
        lemma_stale_of_members(kind, prev.drop_last(), cur, k, id);
        if prev.contains(id) && id != prev.last() {
            let j = choose|j: int| 0 <= j < prev.len() && prev[j] == id;
            assert(prev.drop_last()[j] == id);
        }
        if prev.drop_last().contains(id) {
            let j = choose|j: int| 0 <= j < prev.drop_last().len() && prev.drop_last()[j] == id;
            assert(prev[j] == id);
        }
        if !cur.contains(prev.last()) {
            let s = rest.push((kind, prev.last()));
            assert(s[rest.len() as int] == (kind, prev.last()));
            if s.contains((k, id)) && (k, id) != (kind, prev.last()) {
                let j = choose|j: int| 0 <= j < s.len() && s[j] == (k, id);
                assert(rest[j] == (k, id));
            }
            if rest.contains((k, id)) {
                let j = choose|j: int| 0 <= j < rest.len() && rest[j] == (k, id);
                assert(s[j] == (k, id));
            }
        }
        assert(prev[prev.len() - 1] == prev.last());
    }
}

proof fn lemma_contains_concat<A>(a: Seq<A>, b: Seq<A>, x: A)
    ensures
        (a + b).contains(x) <==> (a.contains(x) || b.contains(x)),
{
    if (a + b).contains(x) {
        let j = choose|j: int| 0 <= j < (a + b).len() && (a + b)[j] == x;
        if j < a.len() {
            assert(a[j] == x);
        } else {
            assert(b[j - a.len()] == x);
        }
    }
    if a.contains(x) {
        let j = choose|j: int| 0 <= j < a.len() && a[j] == x;
        assert((a + b)[j] == x);
    }
    if b.contains(x) {
        let j = choose|j: int| 0 <= j < b.len() && b[j] == x;
        assert((a + b)[j + a.len()] == x);
    }
}

/// An update removes exactly what it must: an entry is stale if and only if
/// the previous manifest listed it for its family and the current one no
/// longer does. In particular, what the user created (absent from the
/// manifest) is never a candidate for removal.
pub proof fn stale_is_exactly_what_was_withdrawn(
    previous: BuiltinIds,
    current: BuiltinIds,
    kind: EntityKind,
    id: Seq<char>,
)
    ensures
        stale_spec(previous, current).contains((kind, id)) <==> (previous.ids_of(kind).contains(
            id,
        ) && !current.ids_of(kind).contains(id)),
{
    let s0 = stale_of(
        EntityKind::Speaker,
        previous.ids_of(EntityKind::Speaker),
        current.ids_of(EntityKind::Speaker),
    );
    let s1 = stale_of(
        EntityKind::Bumper,
        previous.ids_of(EntityKind::Bumper),
        current.ids_of(EntityKind::Bumper),
    );
    let s2 = stale_of(
        EntityKind::BumperBar,
        previous.ids_of(EntityKind::BumperBar),
        current.ids_of(EntityKind::BumperBar),
    );
    let s3 = stale_of(
        EntityKind::Cluster,
        previous.ids_of(EntityKind::Cluster),
        current.ids_of(EntityKind::Cluster),
    );
    lemma_contains_concat(s0 + s1 + s2, s3, (kind, id));
    lemma_contains_concat(s0 + s1, s2, (kind, id));
    lemma_contains_concat(s0, s1, (kind, id));
    lemma_stale_of_members(
        EntityKind::Speaker,
        previous.ids_of(EntityKind::Speaker),
        current.ids_of(EntityKind::Speaker),
        kind,
        id,
    );
    lemma_stale_of_members(
        EntityKind::Bumper,
        previous.ids_of(EntityKind::Bumper),
        current.ids_of(EntityKind::Bumper),
        kind,
        id,
    );
    lemma_stale_of_members(
        EntityKind::BumperBar,
        previous.ids_of(EntityKind::BumperBar),
        current.ids_of(EntityKind::BumperBar),
        kind,
        id,
    );
    lemma_stale_of_members(
        EntityKind::Cluster,
        previous.ids_of(EntityKind::Cluster),
        current.ids_of(EntityKind::Cluster),
        kind,
        id,
    );
}

/// Relaunching the same version removes nothing.
pub proof fn relaunching_the_same_version_removes_nothing(ids: BuiltinIds)
    ensures
        stale_spec(ids, ids).len() == 0,
{
    let s = stale_spec(ids, ids);
    if s.len() > 0 {
        let (kind, id) = s[0];
        assert(s.contains((kind, id)));
        stale_is_exactly_what_was_withdrawn(ids, ids, kind, id);
    }
}

/// A first installation (no manifest, read as empty) removes nothing, whatever
/// the current version ships.
pub proof fn a_first_install_removes_nothing(previous: BuiltinIds, current: BuiltinIds)
    requires
        previous.is_empty(),
    ensures
        stale_spec(previous, current).len() == 0,
{
    let s = stale_spec(previous, current);
    if s.len() > 0 {
        let (kind, id) = s[0];
        assert(s.contains((kind, id)));
        stale_is_exactly_what_was_withdrawn(previous, current, kind, id);
        assert(previous.ids_of(kind).len() == 0);
    }
}

} // verus!
