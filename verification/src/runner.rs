use vstd::prelude::*;
use crate::error::Error;
use crate::migration::{Migration, MigrationModel, sha256_of, spec_entry};
use crate::schema::{EntryModel, MigrationEntry};
use crate::{models, strictly_sorted, Migrations};

verus! {

/// The mathematical content of a sequence of history rows.
pub open spec fn entry_models(s: Seq<MigrationEntry>) -> Seq<EntryModel> {
    s.map_values(|e: MigrationEntry| e.model())
}

/// A history row records the migration faithfully: same name, same digest.
pub open spec fn agrees(m: MigrationModel, e: EntryModel) -> bool {
    e.name == m.name && e.checksum == sha256_of(m.sql)
}

pub open spec fn set_has_version(migs: Seq<MigrationModel>, v: int) -> bool {
    exists|i: int| 0 <= i < migs.len() && (#[trigger] migs[i]).version == v
}

/// `j` is the first history row carrying the version of migration `i`.
pub open spec fn matched_at(
    migs: Seq<MigrationModel>,
    applied: Seq<EntryModel>,
    i: int,
    j: int,
) -> bool {
    &&& 0 <= j < applied.len()
    &&& applied[j].id == migs[i].version
    &&& forall|j2: int| 0 <= j2 < j ==> (#[trigger] applied[j2]).id != migs[i].version
}

/// Migration `i` has a recorded history row that contradicts it.
pub open spec fn bad_at(migs: Seq<MigrationModel>, applied: Seq<EntryModel>, i: int) -> bool {
    exists|j: int| #[trigger] matched_at(migs, applied, i, j) && !agrees(migs[i], applied[j])
}

/// The loaded set and the recorded history agree: every recorded row names a
/// version the set still carries, and no row contradicts its migration.
pub open spec fn reconciles(migs: Seq<MigrationModel>, applied: Seq<EntryModel>) -> bool {
    &&& forall|j: int| 0 <= j < applied.len() ==> set_has_version(
        migs,
        (#[trigger] applied[j]).id,
    )
    &&& forall|i: int| 0 <= i < migs.len() ==> !bad_at(migs, applied, i)
}

/// The names of the recorded rows whose version the loaded set no longer
/// carries, in recorded order.
pub open spec fn missing_names(migs: Seq<MigrationModel>, applied: Seq<EntryModel>) -> Seq<
    Seq<char>,
>
    decreases applied.len(),
{
    if applied.len() == 0 {
        Seq::empty()
    } else {
        let rest = missing_names(migs, applied.drop_last());
        if set_has_version(migs, applied.last().id) {
            rest
        } else {
            rest.push(applied.last().name)
        }
    }
}

/// The full contract of the reconciliation check: `Ok` exactly when set and
/// history reconcile; otherwise the first contradicted migration, a foreign
/// name before a foreign digest, or else every recorded name the set no
/// longer carries.
pub open spec fn check_contract(
    migs: Seq<MigrationModel>,
    app: Seq<EntryModel>,
    r: Result<(), Error>,
) -> bool {
    &&& (r is Ok <==> reconciles(migs, app))
    &&& (r matches Err(Error::MigrationConflict { migration, present }) ==> exists|i: int, j: int|
        {
            &&& 0 <= i < migs.len()
            &&& #[trigger] matched_at(migs, app, i, j)
            &&& app[j].name != migs[i].name
            &&& forall|i2: int| 0 <= i2 < i ==> !bad_at(migs, app, i2)
            &&& migration@ == migs[i].name
            &&& present@ == app[j].name
        })
    &&& (r matches Err(Error::MigrationIntegrityViolation { migration }) ==> exists|
        i: int,
        j: int,
    |
        {
            &&& 0 <= i < migs.len()
            &&& #[trigger] matched_at(migs, app, i, j)
            &&& app[j].name == migs[i].name
            &&& app[j].checksum != sha256_of(migs[i].sql)
            &&& forall|i2: int| 0 <= i2 < i ==> !bad_at(migs, app, i2)
            &&& migration@ == migs[i].name
        })
    &&& (r matches Err(Error::MissingMigrations { names }) ==> {
        &&& (forall|i: int| 0 <= i < migs.len() ==> !bad_at(migs, app, i))
        &&& names@.map_values(|n: String| n@) == missing_names(migs, app)
        &&& names@.len() > 0
    })
    &&& (r is Err ==> (r matches Err(Error::MigrationConflict { .. }) || r matches Err(
        Error::MigrationIntegrityViolation { .. },
    ) || r matches Err(Error::MissingMigrations { .. })))
}

proof fn lemma_matched_unique(
    migs: Seq<MigrationModel>,
    applied: Seq<EntryModel>,
    i: int,
    j1: int,
    j2: int,
)
    requires
        matched_at(migs, applied, i, j1),
        matched_at(migs, applied, i, j2),
    ensures
        j1 == j2,
{
    if j1 < j2 {
        assert(applied[j1].id != migs[i].version);
    }
    if j2 < j1 {
        assert(applied[j2].id != migs[i].version);
    }
}

/// The index of the first history row carrying version `v`, if any.
fn find_entry(applied: &Vec<MigrationEntry>, v: i32) -> (r: Option<usize>)
    ensures
        r matches Some(j) ==> j < applied@.len() && entry_models(applied@)[j as int].id == v as int
            && (forall|j2: int|
            0 <= j2 < j ==> entry_models(applied@)[j2].id != v as int),
        r is None ==> forall|j: int|
            0 <= j < applied@.len() ==> entry_models(applied@)[j].id != v as int,
{
    let mut j: usize = 0;
    while j < applied.len()
        invariant
            j <= applied@.len(),
            forall|j2: int| 0 <= j2 < j ==> entry_models(applied@)[j2].id != v as int,
        decreases applied@.len() - j,
    {
        if applied[j].id == v {
            return Some(j);
        }
        j += 1;
    }
    None
}

/// Whether the loaded set carries version `v`.
fn has_version(migs: &Vec<Migration>, v: i32) -> (r: bool)
    ensures
        r == set_has_version(models(migs@), v as int),
{
    let mut i: usize = 0;
    while i < migs.len()
        invariant
            i <= migs@.len(),
            forall|i2: int| 0 <= i2 < i ==> (#[trigger] models(migs@)[i2]).version != v as int,
        decreases migs@.len() - i,
    {
        if migs[i].version == v {
            proof {
                assert(models(migs@)[i as int].version == v as int);
            }
            return true;
        }
        i += 1;
    }
    false
}

fn bytes_eq(a: &Vec<u8>, b: &Vec<u8>) -> (r: bool)
    ensures
        r == (a@ == b@),
{
    if a.len() != b.len() {
        assert(a@ != b@);
        return false;
    }
    let mut i: usize = 0;
    while i < a.len()
        invariant
            i <= a@.len(),
            a@.len() == b@.len(),
            forall|k: int| 0 <= k < i ==> a@[k] == b@[k],
        decreases a@.len() - i,
    {
        if a[i] != b[i] {
            assert(a@ != b@);
            return false;
        }
        i += 1;
    }
    proof {
        assert(a@ =~= b@);
    }
    true
}

/// Which stage of the run the runner is at.
#[derive(Clone, Copy, PartialEq, Eq, Structural, Debug)]
pub enum Phase {
    /// The history table has not been ensured yet; nothing may run before it.
    Init,
    /// The table exists; the recorded history must reconcile with the loaded
    /// set before anything runs.
    Checking,
    /// The next migration, if any, has not been looked at yet.
    Ready,
    /// The current migration is not recorded; its SQL is being executed.
    Executing,
    /// The current migration executed; its history row is being written.
    Registering,
    /// A collaborator call failed; the run is abandoned.
    Stopped,
}

/// What the database collaborator reported back for the command it was given.
#[derive(Clone, Copy, PartialEq, Eq, Structural, Debug)]
pub enum Event {
    /// The history table now exists.
    TableReady,
    /// The history table could not be created or verified.
    TableFailed,
    /// Answer to a history query: whether the version is recorded.
    Exists { applied: bool },
    /// The history query itself failed.
    ExistsFailed,
    /// The SQL batch executed successfully.
    Executed,
    /// The SQL batch failed.
    ExecuteFailed,
    /// The history row was written.
    Registered,
    /// Writing the history row failed.
    RegisterFailed,
}

/// What the runner asks the database collaborator to do next.
#[derive(Debug)]
pub enum Command {
    /// Create the history table if it is absent.
    EnsureTable,
    /// Load every recorded history row and hand it to `reconcile`.
    LoadHistory,
    /// Ask whether `version` is recorded in the history table.
    QueryExists { version: i32, name: String },
    /// Execute this SQL batch.
    Execute { sql: String },
    /// Record this history row.
    Register { entry: MigrationEntry },
    /// Nothing is left to do.
    Finished,
}

/// How one step left the current migration.
#[derive(Clone, Copy, PartialEq, Eq, Structural, Debug)]
pub enum Progress {
    /// The migration was already recorded and was not re-run.
    Skipped,
    /// The migration ran and was recorded.
    Applied,
    /// The migration needs further commands.
    Working,
}

/// The mathematical state of a runner.
pub ghost struct RunnerModel {
    pub migs: Seq<MigrationModel>,
    pub next: int,
    pub phase: Phase,
}

pub open spec fn wf_state(s: RunnerModel) -> bool {
    &&& 0 <= s.next <= s.migs.len()
    &&& (s.phase == Phase::Executing || s.phase == Phase::Registering) ==> s.next < s.migs.len()
}

/// The events a runner in state `s` can take.
pub open spec fn event_fits(s: RunnerModel, ev: Event) -> bool {
    match s.phase {
        Phase::Init => ev == Event::TableReady || ev == Event::TableFailed,
        Phase::Checking => false,
        Phase::Ready => s.next < s.migs.len() && (ev matches Event::Exists { .. } || ev
            == Event::ExistsFailed),
        Phase::Executing => ev == Event::Executed || ev == Event::ExecuteFailed,
        Phase::Registering => ev == Event::Registered || ev == Event::RegisterFailed,
        Phase::Stopped => false,
    }
}

/// The state one event moves the runner to.
pub open spec fn spec_step(s: RunnerModel, ev: Event) -> RunnerModel {
    match s.phase {
        Phase::Init => match ev {
            Event::TableReady => RunnerModel { phase: Phase::Checking, ..s },
            _ => RunnerModel { phase: Phase::Stopped, ..s },
        },
        Phase::Checking => s,
        Phase::Ready => match ev {
            Event::Exists { applied } => if applied {
                RunnerModel { next: s.next + 1, phase: Phase::Ready, ..s }
            } else {
                RunnerModel { phase: Phase::Executing, ..s }
            },
            _ => RunnerModel { phase: Phase::Stopped, ..s },
        },
        Phase::Executing => match ev {
            Event::Executed => RunnerModel { phase: Phase::Registering, ..s },
            _ => RunnerModel { phase: Phase::Stopped, ..s },
        },
        Phase::Registering => match ev {
            Event::Registered => RunnerModel { next: s.next + 1, phase: Phase::Ready, ..s },
            _ => RunnerModel { phase: Phase::Stopped, ..s },
        },
        Phase::Stopped => s,
    }
}

/// What one event means for the current migration; `None` is a failure.
pub open spec fn step_outcome(s: RunnerModel, ev: Event) -> Option<Progress> {
    match s.phase {
        Phase::Init => match ev {
            Event::TableReady => Some(Progress::Working),
            _ => None,
        },
        Phase::Checking => None,
        Phase::Ready => match ev {
            Event::Exists { applied } => if applied {
                Some(Progress::Skipped)
            } else {
                Some(Progress::Working)
            },
            _ => None,
        },
        Phase::Executing => match ev {
            Event::Executed => Some(Progress::Working),
            _ => None,
        },
        Phase::Registering => match ev {
            Event::Registered => Some(Progress::Applied),
            _ => None,
        },
        Phase::Stopped => None,
    }
}

/// The run is over: either every migration was processed or a failure
/// abandoned it.
pub open spec fn spec_finished(s: RunnerModel) -> bool {
    s.phase == Phase::Stopped || (s.phase == Phase::Ready && s.next == s.migs.len())
}

/// What the runner asks for in state `s`.
pub open spec fn command_matches(s: RunnerModel, c: Command) -> bool {
    match s.phase {
        Phase::Init => c == Command::EnsureTable,
        Phase::Checking => c == Command::LoadHistory,
        Phase::Ready => if s.next == s.migs.len() {
            c == Command::Finished
        } else {
            c matches Command::QueryExists { version, name } && version == s.migs[s.next].version
                && name@ == s.migs[s.next].name
        },
        Phase::Executing => c matches Command::Execute { sql } && sql@ == s.migs[s.next].sql,
        Phase::Registering => c matches Command::Register { entry } && entry.model() == spec_entry(
            s.migs[s.next],
        ),
        Phase::Stopped => c == Command::Finished,
    }
}

/// Walks a validated migration set against the persisted history: first the
/// pre-run reconciliation check, then one migration at a time, in ascending
/// version order, skipping whatever the history already records. The caller
/// performs each `Command` against the database and reports the outcome back
/// as an `Event`; the runner itself takes every decision.
pub struct MigrationRunner {
    pub migrations: Migrations,
    pub next: usize,
    pub phase: Phase,
}

impl MigrationRunner {
    pub open spec fn model(self) -> RunnerModel {
        RunnerModel {
            migs: self.migrations.model(),
            next: self.next as int,
            phase: self.phase,
        }
    }

    pub open spec fn wf(self) -> bool {
        self.migrations.wf() && wf_state(self.model())
    }

    /// A runner over a validated set: the history table comes first, then
    /// the migrations, one at a time.
    pub fn new(migrations: Migrations) -> (r: MigrationRunner)
        requires
            migrations.wf(),
        ensures
            r.wf(),
            r.model() == (RunnerModel {
                migs: migrations.model(),
                next: 0,
                phase: Phase::Init,
            }),
    {
        MigrationRunner { migrations, next: 0, phase: Phase::Init }
    }

    /// Compare the loaded set against the recorded history, before anything
    /// runs. Succeeds exactly when they reconcile; otherwise reports the
    /// first contradicted migration — a foreign name as a conflict, a foreign
    /// digest as an integrity violation — or, when no row is contradicted,
    /// every recorded name whose migration the set no longer carries.
    pub fn check_migrations(&self, applied: &Vec<MigrationEntry>) -> (r: Result<(), Error>)
        ensures
            check_contract(self.migrations.model(), entry_models(applied@), r),
    {
        let ghost migs = self.migrations.model();
        let ghost app = entry_models(applied@);
        let migrations = &self.migrations.migrations;
        let mut i: usize = 0;
        while i < migrations.len()
            invariant
                i <= migs.len(),
                migs == self.migrations.model(),
                migs == models(migrations@),
                app == entry_models(applied@),
                forall|i2: int| 0 <= i2 < i ==> !bad_at(migs, app, i2),
            decreases migs.len() - i,
        {
            let m = &migrations[i];
            match find_entry(applied, m.version) {
                Some(j) => {
                    let e = &applied[j];
                    proof {
                        assert(matched_at(migs, app, i as int, j as int));
                    }
                    if !(m.name == e.name) {
                        let migration = m.name.clone();
                        let present = e.name.clone();
                        proof {
                            assert(app[j as int].name != migs[i as int].name);
                            assert(!agrees(migs[i as int], app[j as int]));
                            assert(bad_at(migs, app, i as int));
                            assert(0 <= (i as int) && (i as int) < migs.len());
                            assert(!reconciles(migs, app));
                            assert(exists|i2: int, j2: int|
                                {
                                    &&& 0 <= i2 < migs.len()
                                    &&& #[trigger] matched_at(migs, app, i2, j2)
                                    &&& app[j2].name != migs[i2].name
                                    &&& forall|i3: int| 0 <= i3 < i2 ==> !bad_at(migs, app, i3)
                                    &&& migration@ == migs[i2].name
                                    &&& present@ == app[j2].name
                                });
                        }
                        return Err(Error::MigrationConflict { migration, present });
                    }
                    let fresh = m.as_entry();
                    if !bytes_eq(&fresh.checksum, &e.checksum) {
                        let migration = m.name.clone();
                        proof {
                            assert(app[j as int].checksum != sha256_of(migs[i as int].sql));
                            assert(!agrees(migs[i as int], app[j as int]));
                            assert(bad_at(migs, app, i as int));
                            assert(0 <= (i as int) && (i as int) < migs.len());
                            assert(!reconciles(migs, app));
                            assert(exists|i2: int, j2: int|
                                {
                                    &&& 0 <= i2 < migs.len()
                                    &&& #[trigger] matched_at(migs, app, i2, j2)
                                    &&& app[j2].name == migs[i2].name
                                    &&& app[j2].checksum != sha256_of(migs[i2].sql)
                                    &&& forall|i3: int| 0 <= i3 < i2 ==> !bad_at(migs, app, i3)
                                    &&& migration@ == migs[i2].name
                                });
                        }
                        return Err(Error::MigrationIntegrityViolation { migration });
                    }
                    proof {
                        assert(agrees(migs[i as int], app[j as int]));
                        assert forall|j2: int|
                            matched_at(migs, app, i as int, j2) implies agrees(
                            migs[i as int],
                            app[j2],
                        ) by {
                            lemma_matched_unique(migs, app, i as int, j as int, j2);
                        }
                        assert(!bad_at(migs, app, i as int));
                    }
                },
                None => {
                    proof {
                        assert forall|j2: int| !matched_at(migs, app, i as int, j2) by {
                            if 0 <= j2 < app.len() {
                                assert(app[j2].id != migs[i as int].version);
                            }
                        }
                        assert(!bad_at(migs, app, i as int));
                    }
                },
            }
            i += 1;
        }
        let mut names: Vec<String> = Vec::new();
        let mut j: usize = 0;
        while j < applied.len()
            invariant
                j <= app.len(),
                migs == models(self.migrations.migrations@),
                app == entry_models(applied@),
                forall|i2: int| 0 <= i2 < migs.len() ==> !bad_at(migs, app, i2),
                names@.map_values(|n: String| n@) =~= missing_names(migs, app.take(j as int)),
                names@.len() == 0 <==> (forall|j2: int|
                    0 <= j2 < j ==> set_has_version(migs, (#[trigger] app[j2]).id)),
            decreases app.len() - j,
        {
            let ghost pre = app.take(j as int);
            let ghost post = app.take(j + 1);
            proof {
                assert(post.drop_last() =~= pre);
                assert(post.last() == app[j as int]);
            }
            if !has_version(&self.migrations.migrations, applied[j].id) {
                names.push(applied[j].name.clone());
                proof {
                    assert(names@.map_values(|n: String| n@) =~= missing_names(migs, post));
                }
            }
            j += 1;
        }
        proof {
            assert(app.take(app.len() as int) =~= app);
        }
        if names.len() > 0 {
            return Err(Error::MissingMigrations { names });
        }
        Ok(())
    }

    /// Whether the run is over: everything processed, or abandoned after a
    /// failure.
    pub fn finished(&self) -> (b: bool)
        requires
            self.wf(),
        ensures
            b == spec_finished(self.model()),
    {
        match self.phase {
            Phase::Stopped => true,
            Phase::Ready => self.next == self.migrations.migrations.len(),
            _ => false,
        }
    }

    /// What the caller must do next against the database.
    pub fn next_command(&self) -> (c: Command)
        requires
            self.wf(),
        ensures
            command_matches(self.model(), c),
    {
        match self.phase {
            Phase::Init => Command::EnsureTable,
            Phase::Checking => Command::LoadHistory,
            Phase::Ready => {
                if self.next == self.migrations.migrations.len() {
                    Command::Finished
                } else {
                    let m = &self.migrations.migrations[self.next];
                    Command::QueryExists { version: m.version, name: m.name.clone() }
                }
            },
            Phase::Executing => {
                let m = &self.migrations.migrations[self.next];
                Command::Execute { sql: m.sql.clone() }
            },
            Phase::Registering => {
                let m = &self.migrations.migrations[self.next];
                Command::Register { entry: m.as_entry() }
            },
            Phase::Stopped => Command::Finished,
        }
    }

    /// Take the collaborator's report on the last command and decide what the
    /// current migration needs: skip it when the history already records it,
    /// register it once it executed, move on once it is registered, and
    /// abandon the run on any failure, naming the migration that failed.
    pub fn handle(&mut self, ev: Event) -> (r: Result<Progress, Error>)
        requires
            old(self).wf(),
            event_fits(old(self).model(), ev),
        ensures
            final(self).wf(),
            final(self).model() == spec_step(old(self).model(), ev),
            final(self).migrations == old(self).migrations,
            r matches Ok(p) ==> step_outcome(old(self).model(), ev) == Some(p),
            r is Ok <==> step_outcome(old(self).model(), ev) is Some,
            r matches Err(e) ==> if old(self).phase == Phase::Init {
                e == Error::MigrationTableInitializationFailure
            } else {
                e matches Error::FailedMigration { migration } && migration@ == old(
                    self,
                ).model().migs[old(self).model().next].name
            },
    {
        match self.phase {
            Phase::Init => match ev {
                Event::TableReady => {
                    self.phase = Phase::Checking;
                    Ok(Progress::Working)
                },
                _ => {
                    self.phase = Phase::Stopped;
                    Err(Error::MigrationTableInitializationFailure)
                },
            },
            Phase::Ready => match ev {
                Event::Exists { applied } => {
                    if applied {
                        let len = self.migrations.migrations.len();
                        proof {
                            assert(self.next < len);
                        }
                        self.next = self.next + 1;
                        Ok(Progress::Skipped)
                    } else {
                        self.phase = Phase::Executing;
                        Ok(Progress::Working)
                    }
                },
                _ => {
                    self.phase = Phase::Stopped;
                    Err(
                        Error::FailedMigration {
                            migration: self.migrations.migrations[self.next].name.clone(),
                        },
                    )
                },
            },
            Phase::Executing => match ev {
                Event::Executed => {
                    self.phase = Phase::Registering;
                    Ok(Progress::Working)
                },
                _ => {
                    self.phase = Phase::Stopped;
                    Err(
                        Error::FailedMigration {
                            migration: self.migrations.migrations[self.next].name.clone(),
                        },
                    )
                },
            },
            Phase::Registering => match ev {
                Event::Registered => {
                    let len = self.migrations.migrations.len();
                    proof {
                        assert(self.next < len);
                    }
                    self.next = self.next + 1;
                    self.phase = Phase::Ready;
                    Ok(Progress::Applied)
                },
                _ => {
                    self.phase = Phase::Stopped;
                    Err(
                        Error::FailedMigration {
                            migration: self.migrations.migrations[self.next].name.clone(),
                        },
                    )
                },
            },
            Phase::Checking => vstd::pervasive::unreached(),
            Phase::Stopped => vstd::pervasive::unreached(),
        }
    }

    /// Hold the recorded history against the loaded set, once the table
    /// exists and before anything runs: on agreement the runner moves on to
    /// the migrations; on any finding it abandons the run, so no SQL can
    /// execute past a failed check.
    pub fn reconcile(&mut self, applied: &Vec<MigrationEntry>) -> (r: Result<(), Error>)
        requires
            old(self).wf(),
            old(self).phase == Phase::Checking,
        ensures
            final(self).wf(),
            final(self).migrations == old(self).migrations,
            final(self).model().next == old(self).model().next,
            check_contract(old(self).migrations.model(), entry_models(applied@), r),
            r is Ok ==> final(self).phase == Phase::Ready,
            r is Err ==> final(self).phase == Phase::Stopped,
    {
        match self.check_migrations(applied) {
            Ok(()) => {
                self.phase = Phase::Ready;
                Ok(())
            },
            Err(e) => {
                self.phase = Phase::Stopped;
                Err(e)
            },
        }
    }
}

/// The state a run of events leaves the machine in.
pub open spec fn run_state(s: RunnerModel, evs: Seq<Event>) -> RunnerModel
    decreases evs.len(),
{
    if evs.len() == 0 {
        s
    } else {
        run_state(spec_step(s, evs.first()), evs.drop_first())
    }
}

/// Every event of the run fits the state it meets.
pub open spec fn run_valid(s: RunnerModel, evs: Seq<Event>) -> bool
    decreases evs.len(),
{
    evs.len() == 0 || (event_fits(s, evs.first()) && run_valid(
        spec_step(s, evs.first()),
        evs.drop_first(),
    ))
}

/// The indices whose SQL the run executes: those whose existence query came
/// back "not recorded".
pub open spec fn run_executes(s: RunnerModel, evs: Seq<Event>) -> Seq<int>
    decreases evs.len(),
{
    if evs.len() == 0 {
        Seq::empty()
    } else {
        let rest = run_executes(spec_step(s, evs.first()), evs.drop_first());
        if s.phase == Phase::Ready && evs.first() == (Event::Exists { applied: false }) {
            seq![s.next] + rest
        } else {
            rest
        }
    }
}

/// The indices whose history row the run writes.
pub open spec fn run_registers(s: RunnerModel, evs: Seq<Event>) -> Seq<int>
    decreases evs.len(),
{
    if evs.len() == 0 {
        Seq::empty()
    } else {
        let rest = run_registers(spec_step(s, evs.first()), evs.drop_first());
        if s.phase == Phase::Registering && evs.first() == Event::Registered {
            seq![s.next] + rest
        } else {
            rest
        }
    }
}

/// The indices the run settles, in trace order: each is appended by exactly
/// the two events that move the runner past a migration — "already recorded"
/// answered to a `Ready` query (a skip), or a successful registration.
pub open spec fn run_processed(s: RunnerModel, evs: Seq<Event>) -> Seq<int>
    decreases evs.len(),
{
    if evs.len() == 0 {
        Seq::empty()
    } else {
        let rest = run_processed(spec_step(s, evs.first()), evs.drop_first());
        if (s.phase == Phase::Ready && evs.first() == (Event::Exists { applied: true })) || (
        s.phase == Phase::Registering && evs.first() == Event::Registered) {
            seq![s.next] + rest
        } else {
            rest
        }
    }
}

proof fn lemma_processed(s: RunnerModel, evs: Seq<Event>)
    requires
        wf_state(s),
        run_valid(s, evs),
    ensures
        run_state(s, evs).migs == s.migs,
        run_state(s, evs).next >= s.next,
        run_processed(s, evs) =~= Seq::new(
            (run_state(s, evs).next - s.next) as nat,
            |i: int| s.next + i,
        ),
    decreases evs.len(),
{
    if evs.len() > 0 {
        let ev = evs.first();
        let s1 = spec_step(s, ev);
        lemma_step_wf(s, ev);
        lemma_processed(s1, evs.drop_first());
        if (s.phase == Phase::Ready && ev == (Event::Exists { applied: true })) || (s.phase
            == Phase::Registering && ev == Event::Registered) {
            assert(s1.next == s.next + 1);
            assert(run_processed(s, evs) =~= seq![s.next] + run_processed(s1, evs.drop_first()));
        } else {
            assert(s1.next == s.next);
            assert(run_processed(s, evs) =~= run_processed(s1, evs.drop_first()));
        }
    }
}

/// Whole-run law: a run that walks the set to completion settled exactly the
/// remaining indices, in ascending order, each exactly once — every
/// migration was either skipped as already recorded, or registered after its
/// SQL executed. A run that stops early settles an ascending prefix and
/// touches nothing past it.
pub proof fn lemma_complete_run(s: RunnerModel, evs: Seq<Event>)
    requires
        wf_state(s),
        run_valid(s, evs),
        run_state(s, evs) == (RunnerModel {
            migs: s.migs,
            next: s.migs.len() as int,
            phase: Phase::Ready,
        }),
    ensures
        run_processed(s, evs) =~= Seq::new((s.migs.len() - s.next) as nat, |i: int| s.next + i),
{
    lemma_processed(s, evs);
}

/// A lower bound on the index of anything the run can still execute.
pub open spec fn exec_floor(s: RunnerModel) -> int {
    match s.phase {
        Phase::Init => s.next,
        Phase::Checking => s.next,
        Phase::Ready => s.next,
        Phase::Executing => s.next + 1,
        Phase::Registering => s.next + 1,
        Phase::Stopped => s.next,
    }
}

proof fn lemma_step_wf(s: RunnerModel, ev: Event)
    requires
        wf_state(s),
        event_fits(s, ev),
    ensures
        wf_state(spec_step(s, ev)),
        spec_step(s, ev).migs == s.migs,
{
}

proof fn lemma_executes_increasing(s: RunnerModel, evs: Seq<Event>)
    requires
        wf_state(s),
        run_valid(s, evs),
    ensures
        forall|k: int|
            0 <= k < run_executes(s, evs).len() ==> exec_floor(s) <= #[trigger] run_executes(
                s,
                evs,
            )[k] < s.migs.len(),
        forall|a: int, b: int|
            0 <= a < b < run_executes(s, evs).len() ==> run_executes(s, evs)[a] < run_executes(
                s,
                evs,
            )[b],
    decreases evs.len(),
{
    if evs.len() > 0 {
        let ev = evs.first();
        let s1 = spec_step(s, ev);
        lemma_step_wf(s, ev);
        lemma_executes_increasing(s1, evs.drop_first());
        let rest = run_executes(s1, evs.drop_first());
        if s1.phase == Phase::Stopped {
            assert(run_valid(s1, evs.drop_first()));
            if evs.drop_first().len() > 0 {
                assert(event_fits(s1, evs.drop_first().first()));
                assert(false);
            }
            assert(rest =~= Seq::<int>::empty());
        } else {
            assert(exec_floor(s1) >= exec_floor(s));
        }
        if s.phase == Phase::Ready && ev == (Event::Exists { applied: false }) {
            assert(run_executes(s, evs) =~= seq![s.next] + rest);
            assert(exec_floor(s1) == s.next + 1);
        } else {
            assert(run_executes(s, evs) =~= rest);
        }
    }
}

/// Ordering law: along any valid run over a validated set, the versions
/// whose SQL the machine executes come out strictly ascending, whatever the
/// history answered.
pub proof fn lemma_apply_order(s: RunnerModel, evs: Seq<Event>, a: int, b: int)
    requires
        wf_state(s),
        strictly_sorted(s.migs),
        run_valid(s, evs),
        0 <= a < b < run_executes(s, evs).len(),
    ensures
        0 <= run_executes(s, evs)[a] < run_executes(s, evs)[b] < s.migs.len(),
        s.migs[run_executes(s, evs)[a]].version < s.migs[run_executes(s, evs)[b]].version,
{
    lemma_executes_increasing(s, evs);
    assert(exec_floor(s) >= 0);
}

/// Idempotence law: when the history already records every remaining
/// migration — every existence query answers "recorded" — the run walks the
/// whole set to completion without executing one statement or writing one
/// history row.
pub proof fn lemma_second_run_all_skips(s: RunnerModel, evs: Seq<Event>)
    requires
        wf_state(s),
        s.phase == Phase::Ready,
        evs.len() == s.migs.len() - s.next,
        forall|k: int| 0 <= k < evs.len() ==> evs[k] == (Event::Exists { applied: true }),
    ensures
        run_valid(s, evs),
        run_state(s, evs) == (RunnerModel {
            migs: s.migs,
            next: s.migs.len() as int,
            phase: Phase::Ready,
        }),
        run_executes(s, evs).len() == 0,
        run_registers(s, evs).len() == 0,
    decreases evs.len(),
{
    if evs.len() == 0 {
        assert(s.next == s.migs.len());
        assert(run_state(s, evs) == s);
        assert(s == (RunnerModel {
            migs: s.migs,
            next: s.migs.len() as int,
            phase: Phase::Ready,
        }));
    } else {
        let ev = evs.first();
        assert(ev == (Event::Exists { applied: true }));
        let s1 = spec_step(s, ev);
        assert(s1 == (RunnerModel { migs: s.migs, next: s.next + 1, phase: Phase::Ready }));
        assert(forall|k: int|
            0 <= k < evs.drop_first().len() ==> #[trigger] evs.drop_first()[k] == evs[k + 1]);
        lemma_second_run_all_skips(s1, evs.drop_first());
    }
}

/// The events of a run that finds nothing recorded and fails nowhere: each
/// remaining migration is queried, executed, and registered in turn.
pub open spec fn fresh_events(k: nat) -> Seq<Event>
    decreases k,
{
    if k == 0 {
        Seq::empty()
    } else {
        seq![Event::Exists { applied: false }, Event::Executed, Event::Registered]
            + fresh_events((k - 1) as nat)
    }
}

/// Round-trip law: against a history that records none of the remaining
/// migrations, with every execution and registration succeeding, the run
/// executes and registers exactly the remaining indices, in order, and walks
/// the set to completion. By `command_matches`, the row registered for index
/// `i` is `spec_entry(s.migs[i])`: the migration's version, name, and the
/// digest of its SQL.
pub proof fn lemma_fresh_run(s: RunnerModel, k: nat)
    requires
        wf_state(s),
        s.phase == Phase::Ready,
        s.next + k == s.migs.len(),
    ensures
        run_valid(s, fresh_events(k)),
        run_state(s, fresh_events(k)) == (RunnerModel {
            migs: s.migs,
            next: s.migs.len() as int,
            phase: Phase::Ready,
        }),
        run_executes(s, fresh_events(k)) =~= Seq::new(k, |i: int| s.next + i),
        run_registers(s, fresh_events(k)) =~= Seq::new(k, |i: int| s.next + i),
    decreases k,
{
    let evs = fresh_events(k);
    if k == 0 {
        assert(run_state(s, evs) == s);
    } else {
        let e0 = Event::Exists { applied: false };
        let tail = fresh_events((k - 1) as nat);
        assert(evs == seq![e0, Event::Executed, Event::Registered] + tail);
        assert(evs.len() == 3 + tail.len()) by {
            lemma_fresh_events_len((k - 1) as nat);
        }
        let r1 = evs.drop_first();
        let r2 = r1.drop_first();
        let r3 = r2.drop_first();
        assert(evs.first() == e0);
        assert(r1.first() == Event::Executed);
        assert(r2.first() == Event::Registered);
        assert(r3 =~= tail);
        let s1 = spec_step(s, e0);
        let s2 = spec_step(s1, Event::Executed);
        let s3 = spec_step(s2, Event::Registered);
        assert(s1 == (RunnerModel { migs: s.migs, next: s.next, phase: Phase::Executing }));
        assert(s2 == (RunnerModel { migs: s.migs, next: s.next, phase: Phase::Registering }));
        assert(s3 == (RunnerModel { migs: s.migs, next: s.next + 1, phase: Phase::Ready }));
        lemma_fresh_run(s3, (k - 1) as nat);
        assert(r3 == tail);
        assert(run_state(s2, r2) == run_state(s3, r3));
        assert(run_state(s1, r1) == run_state(s2, r2));
        assert(run_state(s, evs) == run_state(s1, r1));
        assert(event_fits(s, e0));
        assert(event_fits(s1, Event::Executed));
        assert(event_fits(s2, Event::Registered));
        assert(run_valid(s2, r2));
        assert(run_valid(s1, r1));
        assert(run_valid(s, evs));
        assert(run_executes(s2, r2) =~= run_executes(s3, r3));
        assert(run_executes(s1, r1) =~= run_executes(s2, r2));
        assert(run_executes(s, evs) =~= seq![s.next] + run_executes(s1, r1));
        assert(run_registers(s2, r2) =~= seq![s.next] + run_registers(s3, r3));
        assert(run_registers(s1, r1) =~= run_registers(s2, r2));
        assert(run_registers(s, evs) =~= run_registers(s1, r1));
        assert(run_executes(s, evs) =~= Seq::new(k, |i: int| s.next + i));
        assert(run_registers(s, evs) =~= Seq::new(k, |i: int| s.next + i));
    }
}

proof fn lemma_fresh_events_len(k: nat)
    ensures
        fresh_events(k).len() == 3 * k,
    decreases k,
{
    if k > 0 {
        lemma_fresh_events_len((k - 1) as nat);
    }
}

} // verus!
