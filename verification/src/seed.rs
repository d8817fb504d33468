//! The catalogue shipped with the software: one asset directory per family,
//! one JSON file per element. Which elements ship is what the directories
//! hold — dropping a `.json` file into one is all it takes, there is no second
//! list to keep up to date. The application reads the directories and the
//! files; what is kept, in which order and under which identifier is decided
//! here.

use crate::persistence::{id_views, EntityKind};
use crate::text::{lemma_lex_total, lemma_lex_total_ordering, lemma_lex_transitive, lex_le, str_le};
use vstd::prelude::*;
use vstd::string::*;

verus! {

broadcast use vstd::seq_lib::group_to_multiset_ensures;

/// The extension of an asset file.
pub open spec fn json_suffix() -> Seq<char> {
    seq!['.', 'j', 's', 'o', 'n']
}

/// `name` ends with `.json`.
pub open spec fn ends_with_json(name: Seq<char>) -> bool {
    name.len() >= 5 && name.subrange(name.len() - 5, name.len() as int) == json_suffix()
}

/// A file the listing keeps: its extension is `json`. A name that is only
/// `.json` is a hidden file without extension, and is not kept.
pub open spec fn is_asset_file(name: Seq<char>) -> bool {
    name.len() > 5 && ends_with_json(name)
}

/// The identifier an asset file gives its element: its name with every
/// trailing `.json` removed.
pub open spec fn trim_json(name: Seq<char>) -> Seq<char>
    decreases name.len(),
{
    if ends_with_json(name) {
        trim_json(name.subrange(0, name.len() - 5))
    } else {
        name
    }
}

/// The asset files among `names`, in the order given.
pub open spec fn asset_files(names: Seq<Seq<char>>) -> Seq<Seq<char>>
    decreases names.len(),
{
    if names.len() == 0 {
        seq![]
    } else if is_asset_file(names.last()) {
        asset_files(names.drop_last()).push(names.last())
    } else {
        asset_files(names.drop_last())
    }
}

/// The asset files of a directory whose entries are named `names`, in name
/// order: the order of the listing does not depend on the file system, so two
/// installations show the catalogue in the same order.
pub open spec fn shipped_files_spec(names: Seq<Seq<char>>) -> Seq<Seq<char>> {
    asset_files(names).sort_by(|a: Seq<char>, b: Seq<char>| lex_le(a, b))
}

/// The file names found in each family's asset directory.
#[derive(Debug)]
pub struct AssetFiles {
    pub speakers: Vec<String>,
    pub bumpers: Vec<String>,
    pub bumper_bars: Vec<String>,
    pub clusters: Vec<String>,
}

impl AssetFiles {
    /// The names found for one family.
    pub open spec fn names_of(self, kind: EntityKind) -> Seq<Seq<char>> {
        match kind {
            EntityKind::Speaker => id_views(self.speakers@),
            EntityKind::Bumper => id_views(self.bumpers@),
            EntityKind::BumperBar => id_views(self.bumper_bars@),
            EntityKind::Cluster => id_views(self.clusters@),
        }
    }

    pub fn names(&self, kind: EntityKind) -> (r: &Vec<String>)
        ensures
            id_views(r@) == self.names_of(kind),
    {
        match kind {
            EntityKind::Speaker => &self.speakers,
            EntityKind::Bumper => &self.bumpers,
            EntityKind::BumperBar => &self.bumper_bars,
            EntityKind::Cluster => &self.clusters,
        }
    }
}

/// Identifiers of the shipped elements of one family, in catalogue order.
pub open spec fn shipped_ids(assets: AssetFiles, kind: EntityKind) -> Seq<Seq<char>> {
    shipped_files_spec(assets.names_of(kind)).map_values(|n: Seq<char>| trim_json(n))
}

fn ends_with_json_exec(name: &str) -> (r: bool)
    ensures
        r == ends_with_json(name@),
{
    let n = name.unicode_len();
    if n < 5 {
        return false;
    }
    let r = name.get_char(n - 5) == '.' && name.get_char(n - 4) == 'j' && name.get_char(n - 3) == 's'
        && name.get_char(n - 2) == 'o' && name.get_char(n - 1) == 'n';
    proof {
        let tail = name@.subrange(n - 5, n as int);
        if r {
            assert(tail =~= json_suffix());
        } else {
            if tail == json_suffix() {
                assert(tail[0] == '.' && tail[1] == 'j' && tail[2] == 's' && tail[3] == 'o' && tail[4] == 'n');
            }
        }
    }
    r
}

/// The identifier of the element that the asset file `name` holds.
pub fn asset_id(name: &String) -> (r: String)
    ensures
        r@ == trim_json(name@),
{
    let mut cur: &str = name.as_str();
    while ends_with_json_exec(cur)
        invariant
            trim_json(cur@) == trim_json(name@),
        decreases cur@.len(),
    {
        let n = cur.unicode_len();
        cur = cur.substring_char(0, n - 5);
    }
    cur.to_owned()
}

/// All elements of `s` come in name order.
pub open spec fn in_name_order(s: Seq<Seq<char>>) -> bool {
    forall|i: int, j: int| 0 <= i < j < s.len() ==> lex_le(#[trigger] s[i], #[trigger] s[j])
}

proof fn lemma_insert_in_order(s: Seq<Seq<char>>, p: int, x: Seq<char>)
    requires
        in_name_order(s),
        0 <= p <= s.len(),
        forall|q: int| 0 <= q < p ==> lex_le(#[trigger] s[q], x),
        forall|q: int| p <= q < s.len() ==> lex_le(x, #[trigger] s[q]),
    ensures
        in_name_order(s.insert(p, x)),
{
    let t = s.insert(p, x);
    assert forall|i: int, j: int| 0 <= i < j < t.len() implies lex_le(#[trigger] t[i], #[trigger] t[j]) by {
        if j < p {
            assert(t[i] == s[i] && t[j] == s[j]);
        } else if j == p {
            assert(t[i] == s[i] && t[j] == x);
        } else if i < p {
            assert(t[i] == s[i] && t[j] == s[j - 1]);
        } else if i == p {
            assert(t[i] == x && t[j] == s[j - 1]);
        } else {
            assert(t[i] == s[i - 1] && t[j] == s[j - 1]);
        }
    }
}

/// The asset files among the directory entries `file_names`, in name order.
pub fn shipped_files(file_names: &Vec<String>) -> (r: Vec<String>)
    ensures
        id_views(r@) == shipped_files_spec(id_views(file_names@)),
{
    let ghost names = id_views(file_names@);
    let mut kept: Vec<String> = Vec::new();
    let mut i: usize = 0;
    proof {
        assert(names.take(0) =~= Seq::<Seq<char>>::empty());
        assert(id_views(kept@) =~= Seq::<Seq<char>>::empty());
    }
    while i < file_names.len()
        invariant
            i <= file_names@.len(),
            names == id_views(file_names@),
            id_views(kept@) == asset_files(names.take(i as int)),
        decreases file_names@.len() - i,
    {
        proof {
            assert(names.take(i as int + 1).drop_last() =~= names.take(i as int));
            assert(names.take(i as int + 1).last() == file_names@[i as int]@);
        }
        let name = &file_names[i];
        let n = name.as_str().unicode_len();
        if n > 5 && ends_with_json_exec(name.as_str()) {
            kept.push(name.clone());
            proof {
                assert(id_views(kept@) =~= asset_files(names.take(i as int)).push(file_names@[i as int]@));
            }
        }
        i += 1;
    }
    proof {
        assert(names.take(file_names@.len() as int) =~= names);
    }
    let ghost files = id_views(kept@);
    let mut out: Vec<String> = Vec::new();
    let mut j: usize = 0;
    proof {
        assert(id_views(out@) =~= Seq::<Seq<char>>::empty());
        assert(files.take(0) =~= Seq::<Seq<char>>::empty());
    }
    while j < kept.len()
        invariant
            j <= kept@.len(),
            files == id_views(kept@),
            in_name_order(id_views(out@)),
            id_views(out@).to_multiset() == files.take(j as int).to_multiset(),
        decreases kept@.len() - j,
    {
        let x = &kept[j];
        let mut p: usize = 0;
        while p < out.len() && str_le(out[p].as_str(), x.as_str())
            invariant
                p <= out@.len(),
                forall|q: int| 0 <= q < p ==> lex_le(#[trigger] id_views(out@)[q], x@),
            decreases out@.len() - p,
        {
            p += 1;
        }
        let ghost before = id_views(out@);
        proof {
            assert forall|q: int| p <= q < before.len() implies lex_le(x@, #[trigger] before[q]) by {
                lemma_lex_total(before[p as int], x@);
                if q > p {
                    lemma_lex_transitive(x@, before[p as int], before[q]);
                }
            }
            lemma_insert_in_order(before, p as int, x@);
        }
        out.insert(p, x.clone());
        proof {
            assert(id_views(out@) =~= before.insert(p as int, x@));
            vstd::seq_lib::to_multiset_insert(before, p as int, x@);
            assert(files.take(j as int + 1) =~= files.take(j as int).push(x@));
        }
        j += 1;
    }
    proof {
        assert(files.take(kept@.len() as int) =~= files);
        let leq = |a: Seq<char>, b: Seq<char>| lex_le(a, b);
        lemma_lex_total_ordering();
        files.lemma_sort_by_ensures(leq);
        assert(vstd::relations::sorted_by(id_views(out@), leq)) by {
            assert forall|a: int, b: int| 0 <= a < b < id_views(out@).len() implies #[trigger] leq(
                id_views(out@)[a],
                id_views(out@)[b],
            ) by {}
        }
        vstd::seq_lib::lemma_sorted_unique(id_views(out@), files.sort_by(leq), leq);
    }
    out
}

/// Identifiers of the shipped elements of `kind`, in catalogue order.
pub fn shipped_asset_ids(assets: &AssetFiles, kind: EntityKind) -> (r: Vec<String>)
    ensures
        id_views(r@) == shipped_ids(*assets, kind),
{
    let files = shipped_files(assets.names(kind));
    let ghost fv = id_views(files@);
    let mut ids: Vec<String> = Vec::new();
    let mut i: usize = 0;
    while i < files.len()
        invariant
            i <= files@.len(),
            fv == id_views(files@),
            fv == shipped_files_spec(assets.names_of(kind)),
            id_views(ids@) == fv.take(i as int).map_values(|n: Seq<char>| trim_json(n)),
        decreases files@.len() - i,
    {
        let id = asset_id(&files[i]);
        let ghost before = id_views(ids@);
        ids.push(id);
        proof {
            assert(fv[i as int] == files@[i as int]@);
            assert(id_views(ids@) =~= before.push(trim_json(fv[i as int])));
            assert(id_views(ids@) =~= fv.take(i as int + 1).map_values(|n: Seq<char>| trim_json(n)));
        }
        i += 1;
    }
    proof {
        assert(fv.take(files@.len() as int) =~= fv);
    }
    ids
}

/// An element of the shipped catalogue: its identifier (the asset's file
/// name) and the model read from it. The identifier comes from the file name,
/// not from the JSON: it names the file written in the data directory, so the
/// two cannot diverge.
#[derive(Debug)]
pub struct Builtin<T> {
    pub id: String,
    pub model: T,
}

/// Pairs each shipped identifier of `kind` with the model read from its
/// asset file, in catalogue order.
pub fn builtin_entries<T>(assets: &AssetFiles, kind: EntityKind, models: Vec<T>) -> (r: Vec<Builtin<T>>)
    requires
        models@.len() == shipped_ids(*assets, kind).len(),
    ensures
        r@.len() == models@.len(),
        forall|i: int| 0 <= i < r@.len() ==> (#[trigger] r@[i]).id@ == shipped_ids(*assets, kind)[i]
            && r@[i].model == models@[i],
{
    let ids = shipped_asset_ids(assets, kind);
    let mut models = models;
    let mut out: Vec<Builtin<T>> = Vec::new();
    let ghost given = models@;
    let n = models.len();
    // Built back to front so that each model is moved, never copied.
    let mut rev: Vec<Builtin<T>> = Vec::new();
    while models.len() > 0
        invariant
            models@.len() + rev@.len() == n,
            n == given.len(),
            id_views(ids@) == shipped_ids(*assets, kind),
            n == shipped_ids(*assets, kind).len(),
            models@ == given.take(models@.len() as int),
            forall|j: int|
                0 <= j < rev@.len() ==> (#[trigger] rev@[j]).id@ == shipped_ids(*assets, kind)[n - 1 - j]
                    && rev@[j].model == given[n - 1 - j],
        decreases models@.len(),
    {
        let k = models.len() - 1;
        let m = models.pop().unwrap();
        proof {
            assert(id_views(ids@)[k as int] == ids@[k as int]@);
        }
        rev.push(Builtin { id: ids[k].clone(), model: m });
        proof {
            assert(models@ =~= given.take(models@.len() as int));
        }
    }
    while rev.len() > 0
        invariant
            out@.len() + rev@.len() == n,
            n == shipped_ids(*assets, kind).len(),
            n == given.len(),
            forall|j: int|
                0 <= j < rev@.len() ==> (#[trigger] rev@[j]).id@ == shipped_ids(*assets, kind)[n - 1 - j]
                    && rev@[j].model == given[n - 1 - j],
            forall|j: int|
                0 <= j < out@.len() ==> (#[trigger] out@[j]).id@ == shipped_ids(*assets, kind)[j]
                    && out@[j].model == given[j],
        decreases rev@.len(),
    {
        let b = rev.pop().unwrap();
        out.push(b);
    }
    out
}

/// The shipped speakers, each paired with the model read from its asset
/// (`models`, in asset order).
pub fn builtin_speakers<T>(assets: &AssetFiles, models: Vec<T>) -> (r: Vec<Builtin<T>>)
    requires
        models@.len() == shipped_ids(*assets, EntityKind::Speaker).len(),
    ensures
        r@.len() == models@.len(),
        forall|i: int|
            0 <= i < r@.len() ==> (#[trigger] r@[i]).id@ == shipped_ids(*assets, EntityKind::Speaker)[i]
                && r@[i].model == models@[i],
{
    builtin_entries(assets, EntityKind::Speaker, models)
}

/// The shipped bumpers, each paired with the model read from its asset.
pub fn builtin_bumpers<T>(assets: &AssetFiles, models: Vec<T>) -> (r: Vec<Builtin<T>>)
    requires
        models@.len() == shipped_ids(*assets, EntityKind::Bumper).len(),
    ensures
        r@.len() == models@.len(),
        forall|i: int|
            0 <= i < r@.len() ==> (#[trigger] r@[i]).id@ == shipped_ids(*assets, EntityKind::Bumper)[i]
                && r@[i].model == models@[i],
{
    builtin_entries(assets, EntityKind::Bumper, models)
}

/// The shipped offset bars, each paired with the model read from its asset.
pub fn builtin_bumper_bars<T>(assets: &AssetFiles, models: Vec<T>) -> (r: Vec<Builtin<T>>)
    requires
        models@.len() == shipped_ids(*assets, EntityKind::BumperBar).len(),
    ensures
        r@.len() == models@.len(),
        forall|i: int|
            0 <= i < r@.len() ==> (#[trigger] r@[i]).id@ == shipped_ids(*assets, EntityKind::BumperBar)[i]
                && r@[i].model == models@[i],
{
    builtin_entries(assets, EntityKind::BumperBar, models)
}

/// The shipped example clusters, each paired with the model read from its
/// asset.
pub fn builtin_clusters<T>(assets: &AssetFiles, models: Vec<T>) -> (r: Vec<Builtin<T>>)
    requires
        models@.len() == shipped_ids(*assets, EntityKind::Cluster).len(),
    ensures
        r@.len() == models@.len(),
        forall|i: int|
            0 <= i < r@.len() ==> (#[trigger] r@[i]).id@ == shipped_ids(*assets, EntityKind::Cluster)[i]
                && r@[i].model == models@[i],
{
    builtin_entries(assets, EntityKind::Cluster, models)
}

} // verus!
