pub mod error;
pub mod migration;
pub mod runner;
pub mod schema;

use vstd::prelude::*;

verus! {

pub use crate::error::Error;
pub use crate::migration::Migration;
pub use crate::schema::MigrationEntry;

use crate::migration::{MigrationModel, parse_ok, spec_parse};

/// The mathematical content of a sequence of migrations.
pub open spec fn models(s: Seq<Migration>) -> Seq<MigrationModel> {
    s.map_values(|m: Migration| m.model())
}

/// The versions of a sequence of migrations, in sequence order.
pub open spec fn model_versions(s: Seq<MigrationModel>) -> Seq<int> {
    s.map_values(|m: MigrationModel| m.version)
}

pub open spec fn sorted_by_version(s: Seq<MigrationModel>) -> bool {
    forall|i: int, j: int| 0 <= i < j < s.len() ==> s[i].version <= s[j].version
}

pub open spec fn strictly_sorted(s: Seq<MigrationModel>) -> bool {
    forall|i: int, j: int| 0 <= i < j < s.len() ==> s[i].version < s[j].version
}

pub open spec fn distinct_versions(s: Seq<MigrationModel>) -> bool {
    forall|i: int, j: int| 0 <= i < j < s.len() ==> s[i].version != s[j].version
}

/// The versions that a sorted sequence repeats: one copy of `s[i].version`
/// for every position `i` whose left neighbour carries the same version.
pub open spec fn dup_versions(s: Seq<MigrationModel>) -> Seq<int>
    decreases s.len(),
{
    if s.len() <= 1 {
        Seq::empty()
    } else if s[s.len() - 2].version == s.last().version {
        dup_versions(s.drop_last()).push(s.last().version)
    } else {
        dup_versions(s.drop_last())
    }
}

/// One migration file as the loader hands it over: its filename and the SQL
/// text it holds.
pub struct MigrationFile {
    pub filename: String,
    pub content: String,
}

pub open spec fn all_parse(files: Seq<MigrationFile>) -> bool {
    forall|i: int| 0 <= i < files.len() ==> parse_ok(#[trigger] files[i].filename@)
}

/// What parsing every file yields, in input order.
pub open spec fn parsed_models(files: Seq<MigrationFile>) -> Seq<MigrationModel> {
    files.map_values(|f: MigrationFile| spec_parse(f.filename@, f.content@))
}

/// A loaded, validated set of migrations: sorted ascending by version, with
/// all versions pairwise distinct.
#[derive(Debug)]
pub struct Migrations {
    pub migrations: Vec<Migration>,
}

impl Migrations {
    pub open spec fn model(self) -> Seq<MigrationModel> {
        models(self.migrations@)
    }

    pub open spec fn wf(self) -> bool {
        strictly_sorted(self.model())
    }

    /// Parse, sort and validate a listing of migration files. Succeeds
    /// exactly when every filename parses and no version repeats, and then
    /// holds exactly the parsed migrations, in ascending version order.
    /// A file that does not parse fails the whole load, naming the first
    /// offending filename; repeated versions fail it naming every repeat.
    pub fn from_files(files: &Vec<MigrationFile>) -> (r: Result<Migrations, Error>)
        ensures
            r is Ok <==> all_parse(files@) && distinct_versions(parsed_models(files@)),
            r matches Ok(set) ==> set.wf() && set.model().to_multiset() == parsed_models(
                files@,
            ).to_multiset(),
            r matches Err(Error::MigrationReadError { filename }) ==> exists|i: int|
                0 <= i < files@.len() && !parse_ok(#[trigger] files@[i].filename@) && filename@
                    == files@[i].filename@ && (forall|k: int|
                    0 <= k < i ==> parse_ok(#[trigger] files@[k].filename@)),
            r matches Err(Error::DuplicateMigrations { versions }) ==> {
                &&& all_parse(files@)
                &&& !distinct_versions(parsed_models(files@))
                &&& versions@.len() > 0
                &&& exists|s: Seq<MigrationModel>|
                    {
                        &&& s.to_multiset() == parsed_models(files@).to_multiset()
                        &&& sorted_by_version(s)
                        &&& versions@.map_values(|v: i32| v as int) == dup_versions(s)
                    }
            },
            r is Err ==> (r matches Err(Error::MigrationReadError { .. }) || r matches Err(
                Error::DuplicateMigrations { .. },
            )),
    {
        let mut migs: Vec<Migration> = Vec::new();
        let mut idx: usize = 0;
        while idx < files.len()
            invariant
                idx <= files@.len(),
                forall|k: int| 0 <= k < idx ==> parse_ok(#[trigger] files@[k].filename@),
                models(migs@) =~= parsed_models(files@.take(idx as int)),
            decreases files@.len() - idx,
        {
            let file = &files[idx];
            match Migration::new(file.filename.as_str(), file.content.as_str()) {
                Ok(m) => {
                    proof {
                        assert(models(migs@.push(m)) =~= models(migs@).push(m.model()));
                        assert(parsed_models(files@.take(idx + 1)) =~= parsed_models(
                            files@.take(idx as int),
                        ).push(spec_parse(file.filename@, file.content@)));
                    }
                    migs.push(m);
                },
                Err(e) => {
                    return Err(e);
                },
            }
            idx += 1;
        }
        proof {
            assert(files@.take(files@.len() as int) =~= files@);
        }
        sort_migrations(&mut migs);
        match check_for_duplicates(&migs) {
            Ok(()) => {
                proof {
                    lemma_distinct_transfer(models(migs@), parsed_models(files@));
                }
                Ok(Migrations { migrations: migs })
            },
            Err(e) => {
                proof {
                    lemma_distinct_transfer(models(migs@), parsed_models(files@));
                }
                Err(e)
            },
        }
    }
}

/// Scan a version-sorted collection for repeated versions. Returns `Ok`
/// exactly when all versions are pairwise distinct; otherwise reports every
/// repeated version, once per extra occurrence, in ascending order.
pub fn check_for_duplicates(migrations: &Vec<Migration>) -> (r: Result<(), Error>)
    requires
        sorted_by_version(models(migrations@)),
    ensures
        r is Ok <==> strictly_sorted(models(migrations@)),
        r matches Err(e) ==> e matches Error::DuplicateMigrations { versions }
            && versions@.map_values(|v: i32| v as int) == dup_versions(models(migrations@))
            && versions@.len() > 0,
{
    let ghost whole = models(migrations@);
    if migrations.len() <= 1 {
        return Ok(());
    }
    let mut duplicates: Vec<i32> = Vec::new();
    let mut i: usize = 1;
    while i < migrations.len()
        invariant
            1 <= i <= whole.len(),
            whole == models(migrations@),
            sorted_by_version(whole),
            duplicates@.map_values(|v: i32| v as int) =~= dup_versions(whole.take(i as int)),
            duplicates@.len() == 0 <==> (forall|k: int|
                1 <= k < i && k < whole.len() ==> whole[k - 1].version != #[trigger] whole[k].version),
        decreases whole.len() - i,
    {
        let ghost pre = whole.take(i as int);
        let ghost post = whole.take(i + 1);
        proof {
            assert(post.drop_last() =~= pre);
        }
        if migrations[i].version == migrations[i - 1].version {
            duplicates.push(migrations[i].version);
            proof {
                assert(duplicates@.map_values(|v: i32| v as int) =~= dup_versions(post));
            }
        }
        i += 1;
    }
    proof {
        assert(whole.take(whole.len() as int) =~= whole);
    }
    if duplicates.len() > 0 {
        proof {
            assert(!strictly_sorted(whole));
        }
        return Err(Error::DuplicateMigrations { versions: duplicates });
    }
    proof {
        assert forall|i2: int, j2: int| 0 <= i2 < j2 < whole.len() implies whole[i2].version
            < whole[j2].version by {
            assert(whole[j2 - 1].version != whole[j2].version);
            assert(whole[i2].version <= whole[j2 - 1].version);
            assert(whole[j2 - 1].version <= whole[j2].version);
        }
    }
    Ok(())
}

/// Sort a collection of migrations ascending by version, keeping exactly the
/// same migrations.
fn sort_migrations(v: &mut Vec<Migration>)
    ensures
        sorted_by_version(models(final(v)@)),
        models(final(v)@).to_multiset() == models(old(v)@).to_multiset(),
        model_versions(models(final(v)@)).to_multiset() == model_versions(
            models(old(v)@),
        ).to_multiset(),
{
    broadcast use vstd::seq_lib::to_multiset_remove, vstd::seq_lib::to_multiset_insert, vstd::multiset::group_multiset_axioms, vstd::seq_lib::group_to_multiset_ensures;

    if v.len() <= 1 {
        return ;
    }
    let mut i: usize = 1;
    while i < v.len()
        invariant
            1 <= i <= v@.len(),
            v@.len() == old(v)@.len(),
            sorted_by_version(models(v@).take(i as int)),
            models(v@).to_multiset() == models(old(v)@).to_multiset(),
            model_versions(models(v@)).to_multiset() == model_versions(
                models(old(v)@),
            ).to_multiset(),
        decreases v@.len() - i,
    {
        let ghost before_v = v@;
        let ghost before = models(v@);
        let m = v.remove(i);
        proof {
            lemma_models_remove(before_v, v@, i as int, m);
        }
        let mut j: usize = 0;
        while j < i && v[j].version <= m.version
            invariant
                j <= i,
                i < before.len(),
                v@.len() == before.len() - 1,
                models(v@) =~= before.remove(i as int),
                sorted_by_version(before.take(i as int)),
                forall|k: int| 0 <= k < j ==> models(v@)[k].version <= m.model().version,
            decreases i - j,
        {
            j += 1;
        }
        let ghost removed_v = v@;
        let ghost removed = models(v@);
        v.insert(j, m);
        proof {
            lemma_models_insert(removed_v, v@, j as int, m);
            assert(models(v@) =~= removed.insert(j as int, m.model()));
            let now = models(v@);
            assert forall|a: int, b: int| 0 <= a < b < i + 1 implies now[a].version
                <= now[b].version by {
                assert(before.remove(i as int).take(i as int) =~= before.take(i as int));
                if j < i && b < i + 1 && b > j {
                    assert(removed[j as int].version > m.model().version || b - 1 > j);
                }
            }
            assert(sorted_by_version(now.take(i + 1)));
            assert(before.contains(m.model())) by {
                assert(before[i as int] == m.model());
            }
            vstd::seq_lib::to_multiset_contains(before, m.model());
            assert(now.to_multiset() =~= before.to_multiset());
            let vnow = model_versions(now);
            let vbefore = model_versions(before);
            assert(vbefore.contains(m.model().version)) by {
                assert(vbefore[i as int] == m.model().version);
            }
            vstd::seq_lib::to_multiset_contains(vbefore, m.model().version);
            assert(vnow.to_multiset() =~= vbefore.to_multiset());
        }
        i += 1;
    }
    proof {
        assert(models(v@).take(v@.len() as int) =~= models(v@));
    }
}

/// Removing index `i` from a migration sequence removes the same index from
/// its model sequence.
proof fn lemma_models_remove(before: Seq<Migration>, after: Seq<Migration>, i: int, m: Migration)
    requires
        0 <= i < before.len(),
        after =~= before.remove(i),
        m == before[i],
    ensures
        models(after) =~= models(before).remove(i),
        model_versions(models(after)) =~= model_versions(models(before)).remove(i),
        models(after).to_multiset() == models(before).to_multiset().remove(m.model()),
        model_versions(models(after)).to_multiset() == model_versions(
            models(before),
        ).to_multiset().remove(m.model().version),
{
    broadcast use vstd::seq_lib::to_multiset_remove;

    assert(models(after) =~= models(before).remove(i));
    assert(model_versions(models(after)) =~= model_versions(models(before)).remove(i));
    assert(models(before)[i] == m.model());
    assert(model_versions(models(before))[i] == m.model().version);
}

/// Inserting at index `i` into a migration sequence inserts the model at the
/// same index of the model sequence.
proof fn lemma_models_insert(before: Seq<Migration>, after: Seq<Migration>, i: int, m: Migration)
    requires
        0 <= i <= before.len(),
        after =~= before.insert(i, m),
    ensures
        models(after) =~= models(before).insert(i, m.model()),
        model_versions(models(after)) =~= model_versions(models(before)).insert(
            i,
            m.model().version,
        ),
        models(after).to_multiset() == models(before).to_multiset().insert(m.model()),
        model_versions(models(after)).to_multiset() == model_versions(
            models(before),
        ).to_multiset().insert(m.model().version),
{
    broadcast use vstd::seq_lib::to_multiset_insert;

    assert(models(after) =~= models(before).insert(i, m.model()));
    assert(model_versions(models(after)) =~= model_versions(models(before)).insert(
        i,
        m.model().version,
    ));
}

/// Two migration sequences with the same multiset of versions repeat a
/// version together or not at all.
proof fn lemma_distinct_transfer(a: Seq<MigrationModel>, b: Seq<MigrationModel>)
    requires
        model_versions(a).to_multiset() == model_versions(b).to_multiset(),
    ensures
        distinct_versions(a) <==> distinct_versions(b),
{
    let va = model_versions(a);
    let vb = model_versions(b);
    lemma_distinct_iff_no_dup(a);
    lemma_distinct_iff_no_dup(b);
    if va.no_duplicates() {
        va.lemma_multiset_has_no_duplicates();
        vb.lemma_multiset_has_no_duplicates_conv();
    }
    if vb.no_duplicates() {
        vb.lemma_multiset_has_no_duplicates();
        va.lemma_multiset_has_no_duplicates_conv();
    }
}

/// A migration sequence repeats no version exactly when its version sequence
/// repeats no element.
proof fn lemma_distinct_iff_no_dup(a: Seq<MigrationModel>)
    ensures
        distinct_versions(a) <==> model_versions(a).no_duplicates(),
{
    let va = model_versions(a);
    if distinct_versions(a) {
        assert forall|i: int, j: int|
            0 <= i < va.len() && 0 <= j < va.len() && i != j implies va[i] != va[j] by {
            if i < j {
                assert(a[i].version != a[j].version);
            } else {
                assert(a[j].version != a[i].version);
            }
        }
        assert(va.no_duplicates());
    }
    if va.no_duplicates() {
        assert forall|i: int, j: int| 0 <= i < j < a.len() implies a[i].version
            != a[j].version by {
            assert(va[i] != va[j]);
        }
    }
}

} // verus!
