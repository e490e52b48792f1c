//! The supervisor: the in-memory table of live programs, its lifecycle
//! state machine, and the registry that makes registrations durable.
//!
//! The supervisor decides; the surrounding process performs. Each method
//! returns what remains to be done — tasks to spawn, tasks to abort, log
//! files to remove — as plain values, and its contract states exactly how
//! the table and the registry change.

use vstd::prelude::*;
use vstd::utf8::decode_utf8;
use vstd::utf8::encode_utf8;
use vstd::utf8::valid_utf8;
use crate::errors::ServerError;
use crate::ids::file_stem;
use crate::ids::generate_random_string;
use crate::ids::is_alphanumeric_char;
use crate::ids::is_prefix_of;
use crate::ids::key_views;
use crate::ids::make_program_id;
use crate::ids::match_count;
use crate::ids::search_id;
use crate::ids::spec_file_stem;
use crate::meta::meta_equiv;
use crate::meta::spec_meta_enc;
use crate::meta::spec_meta_encodes;
use crate::meta::string_views;
use crate::meta::encode_meta;
use crate::meta::ProgramMeta;
use crate::registry::db_contains;
use crate::registry::db_insert;
use crate::registry::db_remove;
use crate::registry::db_view;
use crate::ID_SUFFIX_LEN;
use crate::PROGRAM_STATUS_ERROR;
use crate::PROGRAM_STATUS_FINISHED;
use crate::PROGRAM_STATUS_RUNNING;
use crate::PROGRAM_STATUS_STOPPED;
use crate::PROGRAM_TYPE_CLI;
use crate::PROGRAM_TYPE_HTTP;

verus! {

broadcast use vstd::utf8::encode_utf8_decode_utf8, vstd::utf8::decode_utf8_encode_utf8;

/// In-memory record of one supervised program.
pub struct LiveProgram {
    /// The program id, the key of the live table and of the registry.
    pub id: String,
    /// The program's durable metadata.
    pub meta: ProgramMeta,
    /// Current status code.
    pub status: u32,
    /// The failure the task reported, retained once observed.
    pub error: Option<String>,
}

/// Snapshot of one program, as reported to a listing client.
pub struct Program {
    /// The program id.
    pub id: String,
    /// Artifact path or URL.
    pub path: String,
    /// Program type code.
    pub program_type: u32,
    /// Status code at the time of the snapshot.
    pub status: u32,
    /// Serving address; empty for a batch program.
    pub addr: String,
}

/// What the caller observed of one program's task: whether its handle has
/// finished, and the failure it reported over its one-shot channel, if
/// any.
pub struct TaskEvent {
    /// The task handle reports completion.
    pub finished: bool,
    /// The failure message the task sent, if it failed.
    pub failure: Option<String>,
}

/// A launch the caller must perform: open the program's log file in
/// create-append mode and spawn the engine run for this metadata.
pub struct LaunchTask {
    /// The program id, which names the log file.
    pub id: String,
    /// The metadata to hand to the engine; its type selects the engine.
    pub meta: ProgramMeta,
}

/// One of the four status codes.
pub open spec fn valid_status(s: u32) -> bool {
    s == PROGRAM_STATUS_RUNNING || s == PROGRAM_STATUS_FINISHED || s == PROGRAM_STATUS_ERROR
        || s == PROGRAM_STATUS_STOPPED
}

/// A program type an engine exists for.
pub open spec fn known_program_type(t: u32) -> bool {
    t == PROGRAM_TYPE_CLI || t == PROGRAM_TYPE_HTTP
}

/// The ids of a table, in table order.
pub open spec fn program_ids(t: Seq<LiveProgram>) -> Seq<Seq<char>> {
    t.map_values(|p: LiveProgram| p.id@)
}

/// A freshly launched entry: running, with no retained error.
pub open spec fn is_running_entry(e: LiveProgram, id: Seq<char>, meta: ProgramMeta) -> bool {
    e.id@ == id && meta_equiv(e.meta, meta) && e.status == PROGRAM_STATUS_RUNNING && e.error
        is None
}

/// The table after launching `id` with `meta`: the entry under that id is
/// replaced, or appended when the id is new.
pub open spec fn spec_launched(
    old_t: Seq<LiveProgram>,
    new_t: Seq<LiveProgram>,
    id: Seq<char>,
    meta: ProgramMeta,
) -> bool {
    if exists|j: int| 0 <= j < old_t.len() && (#[trigger] old_t[j].id@) == id {
        let j = choose|j: int| 0 <= j < old_t.len() && (#[trigger] old_t[j].id@) == id;
        &&& new_t.len() == old_t.len()
        &&& forall|i: int| 0 <= i < old_t.len() && i != j ==> new_t[i] == old_t[i]
        &&& is_running_entry(new_t[j], id, meta)
    } else {
        &&& new_t.len() == old_t.len() + 1
        &&& forall|i: int| 0 <= i < old_t.len() ==> new_t[i] == old_t[i]
        &&& is_running_entry(new_t.last(), id, meta)
    }
}

/// A freshly formed id for this path: the path's file stem, a dash, and
/// a random alphanumeric suffix of the fixed length.
pub open spec fn spec_generated_id(path: Seq<char>, id: Seq<char>) -> bool {
    spec_file_stem(path) matches Some(stem) && (exists|sfx: Seq<char>|
        id == stem + "-"@ + sfx && sfx.len() == ID_SUFFIX_LEN && (forall|i: int|
            0 <= i < sfx.len() ==> is_alphanumeric_char(#[trigger] sfx[i])))
}

/// The supervisor's state: the durable registry, the live-program table,
/// and the directory of per-program log files.
pub struct Server {
    /// The durable registry.
    pub db: sled::Db,
    /// The live-program table.
    pub programs: Vec<LiveProgram>,
    /// The directory holding one log file per program id.
    pub logs_dir: String,
}

impl Server {
    /// Structural well-formedness: ids are distinct, statuses are status
    /// codes, and every entry's type has an engine.
    pub open spec fn wf(self) -> bool {
        &&& forall|i: int, j: int|
            0 <= i < j < self.programs@.len() ==> (#[trigger] self.programs@[i].id@) != (
            #[trigger] self.programs@[j].id@)
        &&& forall|i: int|
            0 <= i < self.programs@.len() ==> valid_status(#[trigger] self.programs@[i].status)
        &&& forall|i: int|
            0 <= i < self.programs@.len() ==> known_program_type(
                (#[trigger] self.programs@[i]).meta.program_type,
            )
    }

    /// Registry containment: every live entry is registered. This is the
    /// live-table invariant; every operation preserves it except a delete
    /// whose registry removal fails, after which the caller may retry the
    /// delete.
    pub open spec fn registered(self) -> bool {
        forall|i: int|
            0 <= i < self.programs@.len() ==> db_view(self.db).contains_key(
                encode_utf8((#[trigger] self.programs@[i]).id@),
            )
    }

    /// A new supervisor over an opened registry, with an empty live
    /// table. Rehydration from the registry is a separate step.
    pub fn new(db: sled::Db, logs_dir: String) -> (r: Server)
        ensures
            r.wf(),
            r.registered(),
            r.programs@.len() == 0,
            r.db == db,
            r.logs_dir@ == logs_dir@,
    {
        Server { db, programs: Vec::new(), logs_dir }
    }

    /// The live ids, in table order.
    pub fn get_program_keys(&self) -> (r: Vec<String>)
        ensures
            key_views(r@) == program_ids(self.programs@),
    {
        let mut keys: Vec<String> = Vec::new();
        let mut i: usize = 0;
        while i < self.programs.len()
            invariant
                i <= self.programs@.len(),
                keys@.len() == i as int,
                forall|j: int| 0 <= j < i ==> keys@[j]@ == self.programs@[j].id@,
            decreases self.programs@.len() - i,
        {
            keys.push(self.programs[i].id.clone());
            i = i + 1;
        }
        proof {
            assert(key_views(keys@) =~= program_ids(self.programs@));
        }
        keys
    }

    /// Resolves a user-supplied id prefix against the live table.
    pub fn resolve_id(&self, prefix: &str) -> (r: Result<String, ServerError>)
        ensures
            r is Ok <==> match_count(program_ids(self.programs@), prefix@) == 1,
            r matches Ok(k) ==> is_prefix_of(prefix@, k@) && program_ids(self.programs@).contains(
                k@,
            ),
            r matches Err(e) ==> match e {
                ServerError::NotFound { id: i } => i@ == prefix@ && match_count(
                    program_ids(self.programs@),
                    prefix@,
                ) == 0,
                ServerError::Ambiguous { id: i } => i@ == prefix@ && match_count(
                    program_ids(self.programs@),
                    prefix@,
                ) >= 2,
                _ => false,
            },
    {
        let keys = self.get_program_keys();
        search_id(&keys, prefix)
    }

    /// Launches a program into the live table: the decision half of
    /// spawning. The entry goes in as running with a cleared error; the
    /// caller opens the log file and spawns the engine task for it.
    #[verifier::loop_isolation(false)]
    pub fn run_inner(&mut self, id: &String, meta: ProgramMeta) -> (r: Result<(), ServerError>)
        requires
            old(self).wf(),
        ensures
            final(self).wf(),
            final(self).db == old(self).db,
            final(self).logs_dir == old(self).logs_dir,
            old(self).registered() && db_view(old(self).db).contains_key(encode_utf8(id@))
                ==> final(self).registered(),
            r is Ok <==> known_program_type(meta.program_type),
            r is Ok ==> spec_launched(old(self).programs@, final(self).programs@, id@, meta),
            r matches Err(e) ==> final(self).programs@ == old(self).programs@ && (e matches
            ServerError::UnknownProgramType { program_type: t } && t == meta.program_type),
    {
        if !(meta.program_type == PROGRAM_TYPE_CLI || meta.program_type == PROGRAM_TYPE_HTTP) {
            return Err(ServerError::UnknownProgramType { program_type: meta.program_type });
        }
        let entry = LiveProgram {
            id: id.clone(),
            meta,
            status: PROGRAM_STATUS_RUNNING,
            error: None,
        };
        let n = self.programs.len();
        let mut i: usize = 0;
        while i < n
            invariant
                i <= n,
                self.programs@ == old(self).programs@,
                self.db == old(self).db,
                self.logs_dir == old(self).logs_dir,
                n == self.programs@.len(),
                forall|j: int| 0 <= j < i ==> (#[trigger] self.programs@[j].id@) != id@,
            decreases n - i,
        {
            if self.programs[i].id == *id {
                proof {
                    assert(old(self).programs@[i as int].id@ == id@);
                }
                self.programs.remove(i);
                self.programs.insert(i, entry);
                proof {
                    let old_t = old(self).programs@;
                    let new_t = self.programs@;
                    assert(old_t[i as int].id@ == id@);
                    let j = choose|j: int| 0 <= j < old_t.len() && (#[trigger] old_t[j].id@)
                        == id@;
                    assert(j == i as int) by {
                        if j < i as int {
                            assert(old_t[j].id@ != old_t[i as int].id@);
                        } else if j > i as int {
                            assert(old_t[i as int].id@ != old_t[j].id@);
                        }
                    }
                    assert(new_t =~= old_t.remove(i as int).insert(i as int, new_t[i as int]));
                }
                return Ok(());
            }
            i = i + 1;
        }
        self.programs.push(entry);
        proof {
            let old_t = old(self).programs@;
            assert(forall|j: int| 0 <= j < old_t.len() ==> (#[trigger] old_t[j].id@) != id@);
        }
        Ok(())
    }

    /// Registers a program under a fresh id and launches it: rejects a
    /// registry collision, persists the encoded metadata, and inserts the
    /// live entry. The caller performs the returned launch.
    pub fn update_db_and_run(&mut self, id: String, meta: ProgramMeta) -> (r: Result<
        LaunchTask,
        ServerError,
    >)
        requires
            old(self).wf(),
        ensures
            final(self).wf(),
            final(self).logs_dir == old(self).logs_dir,
            old(self).registered() ==> final(self).registered(),
            r matches Ok(task) ==> {
                &&& task.id@ == id@
                &&& meta_equiv(task.meta, meta)
                &&& known_program_type(meta.program_type)
                &&& !db_view(old(self).db).contains_key(encode_utf8(id@))
                &&& db_view(final(self).db) == db_view(old(self).db).insert(
                    encode_utf8(id@),
                    spec_meta_enc(meta),
                )
                &&& spec_launched(old(self).programs@, final(self).programs@, id@, meta)
            },
            r matches Err(e) ==> final(self).programs@ == old(self).programs@ && match e {
                ServerError::IdCollision { id: i } => i@ == id@ && db_view(old(self).db)
                    .contains_key(encode_utf8(id@)) && final(self).db == old(self).db,
                ServerError::Registry { .. } => db_view(final(self).db).remove(encode_utf8(id@))
                    == db_view(old(self).db).remove(encode_utf8(id@)),
                ServerError::UnknownProgramType { program_type: t } => t == meta.program_type
                    && !known_program_type(meta.program_type) && db_view(final(self).db)
                    == db_view(old(self).db).insert(encode_utf8(id@), spec_meta_enc(meta)),
                _ => false,
            },
    {
        let key = id.as_str().as_bytes_vec();
        match db_contains(&self.db, &key) {
            Ok(true) => {
                return Err(ServerError::IdCollision { id });
            },
            Ok(false) => {},
            Err(message) => {
                return Err(ServerError::Registry { message });
            },
        }
        let encoded = encode_meta(&meta);
        if let Err(message) = db_insert(&mut self.db, &key, &encoded) {
            proof {
                if old(self).registered() {
                    assert forall|i: int| 0 <= i < self.programs@.len() implies db_view(
                        self.db,
                    ).contains_key(encode_utf8((#[trigger] self.programs@[i]).id@)) by {
                        let kk = encode_utf8(self.programs@[i].id@);
                        assert(db_view(old(self).db).contains_key(kk));
                        assert(kk != key@);
                        assert(db_view(self.db).remove(key@).contains_key(kk) == db_view(
                            old(self).db,
                        ).remove(key@).contains_key(kk));
                    }
                }
            }
            return Err(ServerError::Registry { message });
        }
        let task_meta = meta.clone();
        self.run_inner(&id, meta)?;
        Ok(LaunchTask { id, meta: task_meta })
    }

    /// Registers and launches a batch program: derives the id from the
    /// path's file stem plus a random suffix, persists the metadata, and
    /// inserts the running entry. Fails exactly on a path without a file
    /// stem, on an id collision, or on a registry failure.
    pub fn run(&mut self, path: &String, args: Vec<String>) -> (r: Result<LaunchTask, ServerError>)
        requires
            old(self).wf(),
        ensures
            final(self).wf(),
            final(self).logs_dir == old(self).logs_dir,
            old(self).registered() ==> final(self).registered(),
            spec_file_stem(path@) is None <==> r matches Err(ServerError::NoFileStem { .. }),
            r matches Ok(task) ==> {
                &&& task.meta.program_type == PROGRAM_TYPE_CLI
                &&& task.meta.path@ == path@
                &&& task.meta.addr is None
                &&& string_views(task.meta.args@) == string_views(args@)
                &&& spec_generated_id(path@, task.id@)
                &&& db_view(final(self).db) == db_view(old(self).db).insert(
                    encode_utf8(task.id@),
                    spec_meta_enc(task.meta),
                )
                &&& spec_launched(old(self).programs@, final(self).programs@, task.id@, task.meta)
            },
            r matches Err(e) ==> final(self).programs@ == old(self).programs@ && match e {
                ServerError::NoFileStem { path: p } => p@ == path@ && final(self).db == old(
                    self,
                ).db,
                ServerError::IdCollision { id } => spec_generated_id(path@, id@) && db_view(
                    old(self).db,
                ).contains_key(encode_utf8(id@)) && final(self).db == old(self).db,
                ServerError::Registry { .. } => exists|id: Seq<char>|
                    #![trigger encode_utf8(id)]
                    spec_generated_id(path@, id) && db_view(final(self).db).remove(
                        encode_utf8(id),
                    ) == db_view(old(self).db).remove(encode_utf8(id)),
                _ => false,
            },
    {
        let stem = match file_stem(path.as_str()) {
            Some(s) => s,
            None => {
                return Err(ServerError::NoFileStem { path: path.clone() });
            },
        };
        let suffix = generate_random_string(ID_SUFFIX_LEN);
        let id = make_program_id(stem.as_str(), suffix.as_str());
        let meta = ProgramMeta {
            path: path.clone(),
            program_type: PROGRAM_TYPE_CLI,
            addr: None,
            args,
        };
        self.update_db_and_run(id, meta)
    }

    /// Registers and launches an HTTP program serving on `addr`: the same
    /// shape as `run`, with an address and no arguments.
    pub fn serve(&mut self, path: &String, addr: &String) -> (r: Result<LaunchTask, ServerError>)
        requires
            old(self).wf(),
        ensures
            final(self).wf(),
            final(self).logs_dir == old(self).logs_dir,
            old(self).registered() ==> final(self).registered(),
            spec_file_stem(path@) is None <==> r matches Err(ServerError::NoFileStem { .. }),
            r matches Ok(task) ==> {
                &&& task.meta.program_type == PROGRAM_TYPE_HTTP
                &&& task.meta.path@ == path@
                &&& (task.meta.addr matches Some(a) && a@ == addr@)
                &&& task.meta.args@.len() == 0
                &&& spec_generated_id(path@, task.id@)
                &&& db_view(final(self).db) == db_view(old(self).db).insert(
                    encode_utf8(task.id@),
                    spec_meta_enc(task.meta),
                )
                &&& spec_launched(old(self).programs@, final(self).programs@, task.id@, task.meta)
            },
            r matches Err(e) ==> final(self).programs@ == old(self).programs@ && match e {
                ServerError::NoFileStem { path: p } => p@ == path@ && final(self).db == old(
                    self,
                ).db,
                ServerError::IdCollision { id } => spec_generated_id(path@, id@) && db_view(
                    old(self).db,
                ).contains_key(encode_utf8(id@)) && final(self).db == old(self).db,
                ServerError::Registry { .. } => exists|id: Seq<char>|
                    #![trigger encode_utf8(id)]
                    spec_generated_id(path@, id) && db_view(final(self).db).remove(
                        encode_utf8(id),
                    ) == db_view(old(self).db).remove(encode_utf8(id)),
                _ => false,
            },
    {
        let stem = match file_stem(path.as_str()) {
            Some(s) => s,
            None => {
                return Err(ServerError::NoFileStem { path: path.clone() });
            },
        };
        let suffix = generate_random_string(ID_SUFFIX_LEN);
        let id = make_program_id(stem.as_str(), suffix.as_str());
        let meta = ProgramMeta {
            path: path.clone(),
            program_type: PROGRAM_TYPE_HTTP,
            addr: Some(addr.clone()),
            args: Vec::new(),
        };
        self.update_db_and_run(id, meta)
    }
}

/// The status after the listing pass observed one task: a running entry
/// whose task finished becomes failed if the task reported a failure,
/// finished otherwise; every other entry keeps its status.
pub open spec fn spec_observe_status(s: u32, ev: TaskEvent) -> u32 {
    if s == PROGRAM_STATUS_RUNNING && ev.finished {
        if ev.failure is Some {
            PROGRAM_STATUS_ERROR
        } else {
            PROGRAM_STATUS_FINISHED
        }
    } else {
        s
    }
}

impl LiveProgram {
    /// The client-facing snapshot of this entry.
    pub fn snapshot(&self) -> (r: Program)
        ensures
            r.id@ == self.id@,
            r.path@ == self.meta.path@,
            r.program_type == self.meta.program_type,
            r.status == self.status,
            match self.meta.addr {
                Some(a) => r.addr@ == a@,
                None => r.addr@ == Seq::<char>::empty(),
            },
    {
        Program {
            id: self.id.clone(),
            path: self.meta.path.clone(),
            program_type: self.meta.program_type,
            status: self.status,
            addr: match &self.meta.addr {
                Some(a) => a.clone(),
                None => String::new(),
            },
        }
    }
}

impl Server {
    /// Takes the listing snapshot, first observing task completion. This
    /// is the one place where a running program becomes finished or
    /// failed, so after a listing no running entry has a finished task.
    #[verifier::loop_isolation(false)]
    pub fn list(&mut self, events: &Vec<TaskEvent>) -> (r: Vec<Program>)
        requires
            old(self).wf(),
            events@.len() == old(self).programs@.len(),
        ensures
            final(self).wf(),
            final(self).db == old(self).db,
            final(self).logs_dir == old(self).logs_dir,
            old(self).registered() ==> final(self).registered(),
            final(self).programs@.len() == old(self).programs@.len(),
            forall|i: int|
                #![trigger final(self).programs@[i]]
                0 <= i < old(self).programs@.len() ==> {
                    let oldp = old(self).programs@[i];
                    let newp = final(self).programs@[i];
                    let ev = events@[i];
                    &&& newp.id == oldp.id
                    &&& newp.meta == oldp.meta
                    &&& newp.status == spec_observe_status(oldp.status, ev)
                    &&& if oldp.status == PROGRAM_STATUS_RUNNING && ev.finished && ev.failure
                        is Some {
                        newp.error matches Some(m) && (ev.failure matches Some(f) && m@ == f@)
                    } else {
                        newp.error == oldp.error
                    }
                },
            forall|i: int|
                0 <= i < final(self).programs@.len()
                    && (#[trigger] final(self).programs@[i]).status == PROGRAM_STATUS_RUNNING
                    ==> !events@[i].finished,
            r@.len() == final(self).programs@.len(),
            forall|i: int|
                #![trigger r@[i]]
                0 <= i < r@.len() ==> {
                    let p = final(self).programs@[i];
                    let s = r@[i];
                    &&& s.id@ == p.id@
                    &&& s.path@ == p.meta.path@
                    &&& s.program_type == p.meta.program_type
                    &&& s.status == p.status
                    &&& match p.meta.addr {
                        Some(a) => s.addr@ == a@,
                        None => s.addr@ == Seq::<char>::empty(),
                    }
                },
    {
        let n = self.programs.len();
        let mut reply: Vec<Program> = Vec::new();
        let mut i: usize = 0;
        while i < n
            invariant
                i <= n,
                self.programs@.len() == n,
                self.db == old(self).db,
                self.logs_dir == old(self).logs_dir,
                reply@.len() == i as int,
                forall|j: int| i <= j < n ==> self.programs@[j] == old(self).programs@[j],
                forall|j: int|
                    #![trigger self.programs@[j]]
                    0 <= j < i ==> {
                        let oldp = old(self).programs@[j];
                        let newp = self.programs@[j];
                        let ev = events@[j];
                        &&& newp.id == oldp.id
                        &&& newp.meta == oldp.meta
                        &&& newp.status == spec_observe_status(oldp.status, ev)
                        &&& if oldp.status == PROGRAM_STATUS_RUNNING && ev.finished && ev.failure
                            is Some {
                            newp.error matches Some(m) && (ev.failure matches Some(f) && m@ == f@)
                        } else {
                            newp.error == oldp.error
                        }
                    },
                forall|j: int|
                    #![trigger reply@[j]]
                    0 <= j < i ==> {
                        let p = self.programs@[j];
                        let s = reply@[j];
                        &&& s.id@ == p.id@
                        &&& s.path@ == p.meta.path@
                        &&& s.program_type == p.meta.program_type
                        &&& s.status == p.status
                        &&& match p.meta.addr {
                            Some(a) => s.addr@ == a@,
                            None => s.addr@ == Seq::<char>::empty(),
                        }
                    },
            decreases n - i,
        {
            let running = self.programs[i].status == PROGRAM_STATUS_RUNNING;
            if running && events[i].finished {
                let mut e = self.programs.remove(i);
                match &events[i].failure {
                    Some(f) => {
                        e.status = PROGRAM_STATUS_ERROR;
                        e.error = Some(f.clone());
                    },
                    None => {
                        e.status = PROGRAM_STATUS_FINISHED;
                    },
                }
                self.programs.insert(i, e);
            }
            reply.push(self.programs[i].snapshot());
            i = i + 1;
        }
        reply
    }
}

/// The index of the first prefix that does not resolve to exactly one id;
/// the list length when every prefix resolves.
pub open spec fn spec_first_bad(keys: Seq<Seq<char>>, idv: Seq<Seq<char>>) -> int
    decreases idv.len(),
{
    if idv.len() == 0 {
        0
    } else if match_count(keys, idv[0]) != 1 {
        0
    } else {
        1 + spec_first_bad(keys, idv.drop_first())
    }
}

/// The prefix `p` resolves to the id at index `j`.
pub open spec fn resolves_to(keys: Seq<Seq<char>>, p: Seq<char>, j: int) -> bool {
    match_count(keys, p) == 1 && 0 <= j < keys.len() && is_prefix_of(p, keys[j])
}

/// Some prefix among the first `pc` resolves to index `j`.
pub open spec fn spec_hit(keys: Seq<Seq<char>>, idv: Seq<Seq<char>>, pc: int, j: int) -> bool {
    exists|i: int| 0 <= i < pc && resolves_to(keys, #[trigger] idv[i], j)
}

/// An id that matches the prefix makes the count positive.
pub proof fn lemma_one_match(keys: Seq<Seq<char>>, p: Seq<char>, a: int)
    requires
        0 <= a < keys.len(),
        is_prefix_of(p, keys[a]),
    ensures
        match_count(keys, p) >= 1,
    decreases keys.len(),
{
    if a < keys.len() - 1 {
        lemma_one_match(keys.drop_last(), p, a);
    }
}

/// Two ids that match the prefix make the count at least two.
pub proof fn lemma_two_matches(keys: Seq<Seq<char>>, p: Seq<char>, a: int, b: int)
    requires
        0 <= a < b < keys.len(),
        is_prefix_of(p, keys[a]),
        is_prefix_of(p, keys[b]),
    ensures
        match_count(keys, p) >= 2,
    decreases keys.len(),
{
    if b == keys.len() - 1 {
        lemma_one_match(keys.drop_last(), p, a);
    } else {
        lemma_two_matches(keys.drop_last(), p, a, b);
    }
}

/// When exactly one id matches the prefix, two matching indexes are the
/// same index.
pub proof fn lemma_unique_match(keys: Seq<Seq<char>>, p: Seq<char>, a: int, b: int)
    requires
        match_count(keys, p) == 1,
        0 <= a < keys.len(),
        0 <= b < keys.len(),
        is_prefix_of(p, keys[a]),
        is_prefix_of(p, keys[b]),
    ensures
        a == b,
{
    if a < b {
        lemma_two_matches(keys, p, a, b);
    } else if b < a {
        lemma_two_matches(keys, p, b, a);
    }
}

impl Server {
    /// The table index holding a given id.
    #[verifier::loop_isolation(false)]
    fn find_index(&self, key: &String) -> (r: usize)
        requires
            exists|j: int|
                0 <= j < self.programs@.len() && (#[trigger] self.programs@[j].id@) == key@,
        ensures
            r < self.programs@.len(),
            self.programs@[r as int].id@ == key@,
    {
        let n = self.programs.len();
        let mut i: usize = 0;
        while i < n
            invariant
                i <= n,
                forall|j: int| 0 <= j < i ==> (#[trigger] self.programs@[j].id@) != key@,
            decreases n - i,
        {
            if self.programs[i].id == *key {
                return i;
            }
            i = i + 1;
        }
        proof {
            assert(forall|j: int|
                0 <= j < self.programs@.len() ==> (#[trigger] self.programs@[j].id@) != key@);
            assert(false);
        }
        0
    }

    /// Stops programs by id prefix, in order, returning at the first
    /// prefix that does not resolve; earlier stops stay applied. A
    /// resolved program whose task still runs is marked stopped and its
    /// id is returned for the caller to abort; one whose task has already
    /// finished — or was already stopped, finished, or failed — is left
    /// as it is, and the call still succeeds.
    #[verifier::rlimit(100)]
    pub fn stop(&mut self, ids: &Vec<String>, finished: &Vec<bool>) -> (r: (
        Vec<String>,
        Result<(), ServerError>,
    ))
        requires
            old(self).wf(),
            finished@.len() == old(self).programs@.len(),
        ensures
            final(self).wf(),
            final(self).db == old(self).db,
            final(self).logs_dir == old(self).logs_dir,
            old(self).registered() ==> final(self).registered(),
            final(self).programs@.len() == old(self).programs@.len(),
            ({
                let keys = program_ids(old(self).programs@);
                let idv = key_views(ids@);
                let pc = spec_first_bad(keys, idv);
                &&& (r.1 is Ok <==> pc == idv.len())
                &&& (r.1 matches Err(e) ==> pc < idv.len() && match e {
                    ServerError::NotFound { id } => id@ == idv[pc] && match_count(keys, idv[pc])
                        == 0,
                    ServerError::Ambiguous { id } => id@ == idv[pc] && match_count(keys, idv[pc])
                        >= 2,
                    _ => false,
                })
                &&& (forall|j: int|
                    #![trigger final(self).programs@[j]]
                    0 <= j < keys.len() ==> {
                        let oldp = old(self).programs@[j];
                        let newp = final(self).programs@[j];
                        &&& newp.id == oldp.id
                        &&& newp.meta == oldp.meta
                        &&& newp.error == oldp.error
                        &&& newp.status == if spec_hit(keys, idv, pc, j) && !finished@[j] {
                            PROGRAM_STATUS_STOPPED
                        } else {
                            oldp.status
                        }
                    })
                &&& (forall|x: int|
                    0 <= x < r.0@.len() ==> exists|j: int|
                        0 <= j < keys.len() && (#[trigger] r.0@[x])@ == keys[j] && spec_hit(
                            keys,
                            idv,
                            pc,
                            j,
                        ) && !finished@[j])
                &&& (forall|j: int|
                    0 <= j < keys.len() && spec_hit(keys, idv, pc, j) && !finished@[j]
                        ==> exists|x: int| 0 <= x < r.0@.len() && (#[trigger] r.0@[x])@ == keys[j])
            }),
    {
        let ghost keys = program_ids(old(self).programs@);
        let ghost idv = key_views(ids@);
        let keyvec = self.get_program_keys();
        let mut aborts: Vec<String> = Vec::new();
        let n = ids.len();
        let mut i: usize = 0;
        while i < n
            invariant
                i <= n,
                old(self).wf(),
                n == ids@.len(),
                n == idv.len(),
                keys == program_ids(old(self).programs@),
                idv == key_views(ids@),
                finished@.len() == old(self).programs@.len(),
                self.db == old(self).db,
                self.logs_dir == old(self).logs_dir,
                self.programs@.len() == old(self).programs@.len(),
                key_views(keyvec@) == keys,
                forall|ii: int| 0 <= ii < i ==> match_count(keys, #[trigger] idv[ii]) == 1,
                forall|j: int|
                    #![trigger self.programs@[j]]
                    0 <= j < keys.len() ==> {
                        let oldp = old(self).programs@[j];
                        let newp = self.programs@[j];
                        &&& newp.id == oldp.id
                        &&& newp.meta == oldp.meta
                        &&& newp.error == oldp.error
                        &&& newp.status == if spec_hit(keys, idv, i as int, j) && !finished@[j] {
                            PROGRAM_STATUS_STOPPED
                        } else {
                            oldp.status
                        }
                    },
                forall|x: int|
                    0 <= x < aborts@.len() ==> exists|j: int|
                        0 <= j < keys.len() && (#[trigger] aborts@[x])@ == keys[j] && spec_hit(
                            keys,
                            idv,
                            i as int,
                            j,
                        ) && !finished@[j],
                forall|j: int|
                    0 <= j < keys.len() && spec_hit(keys, idv, i as int, j) && !finished@[j]
                        ==> exists|x: int| 0 <= x < aborts@.len() && (#[trigger] aborts@[x])@
                        == keys[j],
            decreases n - i,
        {
            let resolved = match search_id(&keyvec, ids[i].as_str()) {
                Ok(k) => k,
                Err(e) => {
                    proof {
                        lemma_first_bad_is(keys, idv, i as int);
                    }
                    return (aborts, Err(e));
                },
            };
            proof {
                assert(keys.contains(resolved@));
                let jw = choose|j: int| 0 <= j < keys.len() && keys[j] == resolved@;
                assert(self.programs@[jw].id@ == resolved@);
            }
            let j = self.find_index(&resolved);
            proof {
                assert(resolves_to(keys, idv[i as int], j as int));
                assert forall|j2: int|
                    0 <= j2 < keys.len() && resolves_to(keys, idv[i as int], j2) implies j2
                    == j as int by {
                    lemma_unique_match(keys, idv[i as int], j2, j as int);
                }
            }
            proof {
                assert(keys[j as int] == resolved@);
            }
            let ghost ab0 = aborts@;
            if !finished[j] {
                let ghost tbl0 = self.programs@;
                let mut e = self.programs.remove(j);
                e.status = PROGRAM_STATUS_STOPPED;
                self.programs.insert(j, e);
                aborts.push(resolved);
                proof {
                    assert(self.programs@ =~= tbl0.update(j as int, self.programs@[j as int]));
                }
            }
            proof {
                assert forall|j2: int|
                    0 <= j2 < keys.len() && spec_hit(keys, idv, i + 1, j2) implies spec_hit(
                    keys,
                    idv,
                    i as int,
                    j2,
                ) || j2 == j as int by {
                    let iw = choose|iw: int|
                        0 <= iw < i + 1 && resolves_to(keys, #[trigger] idv[iw], j2);
                    if iw == i as int {
                        lemma_unique_match(keys, idv[i as int], j2, j as int);
                    }
                }
                assert(spec_hit(keys, idv, i + 1, j as int));
                assert forall|j2: int|
                    0 <= j2 < keys.len() && spec_hit(keys, idv, i + 1, j2) && !finished@[j2]
                    implies exists|x: int|
                    0 <= x < aborts@.len() && (#[trigger] aborts@[x])@ == keys[j2] by {
                    if spec_hit(keys, idv, i as int, j2) {
                        let x = choose|x: int| 0 <= x < ab0.len() && (#[trigger] ab0[x])@
                            == keys[j2];
                        assert(aborts@[x]@ == keys[j2]);
                    } else {
                        assert(j2 == j as int);
                        assert(aborts@[aborts@.len() - 1]@ == keys[j as int]);
                    }
                }
                assert forall|x: int| 0 <= x < aborts@.len() implies exists|j2: int|
                    0 <= j2 < keys.len() && (#[trigger] aborts@[x])@ == keys[j2] && spec_hit(
                        keys,
                        idv,
                        i + 1,
                        j2,
                    ) && !finished@[j2] by {
                    if x < ab0.len() {
                        let jw = choose|j2: int|
                            0 <= j2 < keys.len() && (#[trigger] ab0[x])@ == keys[j2] && spec_hit(
                                keys,
                                idv,
                                i as int,
                                j2,
                            ) && !finished@[j2];
                        assert(0 <= jw < keys.len() && aborts@[x]@ == keys[jw] && spec_hit(
                            keys,
                            idv,
                            i + 1,
                            jw,
                        ) && !finished@[jw]);
                    } else {
                        assert(aborts@[x]@ == keys[j as int] && spec_hit(keys, idv, i + 1, j as int)
                            && !finished@[j as int]);
                    }
                }
            }
            i = i + 1;
        }
        proof {
            lemma_first_bad_is(keys, idv, n as int);
        }
        (aborts, Ok(()))
    }
}

impl Server {
    /// Restarts programs by id prefix, in order, returning at the first
    /// prefix that does not resolve; earlier restarts stay applied. Each
    /// resolved program is relaunched in place: same id, same metadata,
    /// running again with a cleared error. The caller aborts the old
    /// task of each returned launch and spawns the new one.
    #[verifier::rlimit(100)]
    pub fn restart(&mut self, ids: &Vec<String>) -> (r: (
        Vec<LaunchTask>,
        Result<(), ServerError>,
    ))
        requires
            old(self).wf(),
        ensures
            final(self).wf(),
            final(self).db == old(self).db,
            final(self).logs_dir == old(self).logs_dir,
            old(self).registered() ==> final(self).registered(),
            final(self).programs@.len() == old(self).programs@.len(),
            ({
                let keys = program_ids(old(self).programs@);
                let idv = key_views(ids@);
                let pc = spec_first_bad(keys, idv);
                &&& (r.1 is Ok <==> pc == idv.len())
                &&& (r.1 matches Err(e) ==> pc < idv.len() && match e {
                    ServerError::NotFound { id } => id@ == idv[pc] && match_count(keys, idv[pc])
                        == 0,
                    ServerError::Ambiguous { id } => id@ == idv[pc] && match_count(keys, idv[pc])
                        >= 2,
                    _ => false,
                })
                &&& (forall|j: int|
                    #![trigger final(self).programs@[j]]
                    0 <= j < keys.len() ==> {
                        let oldp = old(self).programs@[j];
                        let newp = final(self).programs@[j];
                        if spec_hit(keys, idv, pc, j) {
                            is_running_entry(newp, keys[j], oldp.meta)
                        } else {
                            newp == oldp
                        }
                    })
                &&& r.0@.len() == pc
                &&& (forall|x: int|
                    0 <= x < pc ==> exists|j: int|
                        resolves_to(keys, idv[x], j) && (#[trigger] r.0@[x]).id@ == keys[j]
                            && meta_equiv(r.0@[x].meta, old(self).programs@[j].meta))
            }),
    {
        let ghost keys = program_ids(old(self).programs@);
        let ghost idv = key_views(ids@);
        let keyvec = self.get_program_keys();
        let mut tasks: Vec<LaunchTask> = Vec::new();
        let n = ids.len();
        let mut i: usize = 0;
        while i < n
            invariant
                i <= n,
                old(self).wf(),
                self.wf(),
                n == ids@.len(),
                n == idv.len(),
                keys == program_ids(old(self).programs@),
                idv == key_views(ids@),
                key_views(keyvec@) == keys,
                self.db == old(self).db,
                self.logs_dir == old(self).logs_dir,
                self.programs@.len() == old(self).programs@.len(),
                old(self).registered() ==> self.registered(),
                tasks@.len() == i as int,
                forall|ii: int| 0 <= ii < i ==> match_count(keys, #[trigger] idv[ii]) == 1,
                forall|j: int|
                    #![trigger self.programs@[j]]
                    0 <= j < keys.len() ==> {
                        let oldp = old(self).programs@[j];
                        let newp = self.programs@[j];
                        if spec_hit(keys, idv, i as int, j) {
                            is_running_entry(newp, keys[j], oldp.meta)
                        } else {
                            newp == oldp
                        }
                    },
                forall|x: int|
                    0 <= x < i ==> exists|j: int|
                        resolves_to(keys, idv[x], j) && (#[trigger] tasks@[x]).id@ == keys[j]
                            && meta_equiv(tasks@[x].meta, old(self).programs@[j].meta),
            decreases n - i,
        {
            let resolved = match search_id(&keyvec, ids[i].as_str()) {
                Ok(k) => k,
                Err(e) => {
                    proof {
                        lemma_first_bad_is(keys, idv, i as int);
                    }
                    return (tasks, Err(e));
                },
            };
            proof {
                assert(keys.contains(resolved@));
                let jw = choose|j: int| 0 <= j < keys.len() && keys[j] == resolved@;
                assert(self.programs@[jw].id@ == resolved@);
            }
            let j = self.find_index(&resolved);
            proof {
                assert(keys[j as int] == resolved@);
                assert(resolves_to(keys, idv[i as int], j as int));
                assert forall|j2: int|
                    0 <= j2 < keys.len() && resolves_to(keys, idv[i as int], j2) implies j2
                    == j as int by {
                    lemma_unique_match(keys, idv[i as int], j2, j as int);
                }
            }
            let meta = self.programs[j].meta.clone();
            let task_meta = meta.clone();
            match self.run_inner(&resolved, meta) {
                Ok(()) => {},
                Err(e) => {
                    proof {
                        assert(false);
                    }
                    return (tasks, Err(e));
                },
            }
            tasks.push(LaunchTask { id: resolved, meta: task_meta });
            proof {
                assert forall|j2: int|
                    0 <= j2 < keys.len() && spec_hit(keys, idv, i + 1, j2) implies spec_hit(
                    keys,
                    idv,
                    i as int,
                    j2,
                ) || j2 == j as int by {
                    let iw = choose|iw: int|
                        0 <= iw < i + 1 && resolves_to(keys, #[trigger] idv[iw], j2);
                    if iw == i as int {
                        lemma_unique_match(keys, idv[i as int], j2, j as int);
                    }
                }
                assert(spec_hit(keys, idv, i + 1, j as int));
            }
            i = i + 1;
        }
        proof {
            lemma_first_bad_is(keys, idv, n as int);
        }
        (tasks, Ok(()))
    }
}

/// The first index whose id the prefix matches.
pub open spec fn match_index(keys: Seq<Seq<char>>, p: Seq<char>) -> int
    decreases keys.len(),
{
    if keys.len() == 0 {
        0
    } else if is_prefix_of(p, keys[0]) {
        0
    } else {
        1 + match_index(keys.drop_first(), p)
    }
}

/// The count splits into the first id's match and the rest.
pub proof fn lemma_match_count_first(keys: Seq<Seq<char>>, p: Seq<char>)
    requires
        keys.len() > 0,
    ensures
        match_count(keys, p) == match_count(keys.drop_first(), p) + (if is_prefix_of(
            p,
            keys[0],
        ) {
            1nat
        } else {
            0nat
        }),
    decreases keys.len(),
{
    if keys.len() == 1 {
        assert(keys.drop_first() =~= Seq::<Seq<char>>::empty());
    } else {
        lemma_match_count_first(keys.drop_last(), p);
        let df = keys.drop_first();
        assert(keys.drop_last().drop_first() =~= df.drop_last());
        assert(df.last() == keys.last());
        assert(keys.drop_last()[0] == keys[0]);
        assert(match_count(df, p) == match_count(df.drop_last(), p) + (if is_prefix_of(
            p,
            df.last(),
        ) {
            1nat
        } else {
            0nat
        }));
        assert(match_count(keys, p) == match_count(keys.drop_last(), p) + (if is_prefix_of(
            p,
            keys.last(),
        ) {
            1nat
        } else {
            0nat
        }));
    }
}

/// With a positive count, the first matching index is a match.
pub proof fn lemma_match_index_valid(keys: Seq<Seq<char>>, p: Seq<char>)
    requires
        match_count(keys, p) >= 1,
    ensures
        0 <= match_index(keys, p) < keys.len(),
        is_prefix_of(p, keys[match_index(keys, p)]),
    decreases keys.len(),
{
    lemma_match_count_first(keys, p);
    if !is_prefix_of(p, keys[0]) {
        lemma_match_index_valid(keys.drop_first(), p);
    }
}

/// Removing a program's id from the table removes the only id a uniquely
/// resolving prefix matches: resolving it again finds nothing.
pub proof fn lemma_deleted_prefix_not_found(keys: Seq<Seq<char>>, p: Seq<char>, j: int)
    requires
        match_count(keys, p) == 1,
        0 <= j < keys.len(),
        is_prefix_of(p, keys[j]),
    ensures
        match_count(keys.remove(j), p) == 0,
    decreases keys.len(),
{
    if j == keys.len() - 1 {
        assert(keys.remove(j) =~= keys.drop_last());
        if match_count(keys.drop_last(), p) >= 1 {
            lemma_match_count_pick(keys.drop_last(), p);
        }
    } else {
        assert(keys.remove(j).drop_last() =~= keys.drop_last().remove(j));
        if is_prefix_of(p, keys.last()) {
            lemma_one_match(keys.drop_last(), p, j);
        } else {
            lemma_deleted_prefix_not_found(keys.drop_last(), p, j);
        }
    }
}

/// A positive count names a matching index.
pub proof fn lemma_match_count_pick(keys: Seq<Seq<char>>, p: Seq<char>)
    requires
        match_count(keys, p) >= 1,
    ensures
        exists|a: int| 0 <= a < keys.len() && is_prefix_of(p, #[trigger] keys[a]),
    decreases keys.len(),
{
    if keys.len() > 0 {
        if is_prefix_of(p, keys.last()) {
            assert(is_prefix_of(p, keys[keys.len() - 1]));
        } else {
            lemma_match_count_pick(keys.drop_last(), p);
            let a = choose|a: int|
                0 <= a < keys.drop_last().len() && is_prefix_of(p, #[trigger] keys.drop_last()[a]);
            assert(is_prefix_of(p, keys[a]));
        }
    }
}

/// The delete model: prefixes are resolved in order against the
/// shrinking table; each resolved program leaves the table, and the
/// first prefix that does not resolve ends the batch, reported with its
/// match count. Earlier removals stay applied.
pub open spec fn spec_delete_model(t: Seq<LiveProgram>, idv: Seq<Seq<char>>) -> (
    Seq<LiveProgram>,
    Seq<Seq<char>>,
    Option<(Seq<char>, nat)>,
)
    decreases idv.len(),
{
    if idv.len() == 0 {
        (t, Seq::empty(), None::<(Seq<char>, nat)>)
    } else {
        let keys = program_ids(t);
        let c = match_count(keys, idv[0]);
        if c == 1 {
            let j = match_index(keys, idv[0]);
            let rec = spec_delete_model(t.remove(j), idv.drop_first());
            (rec.0, seq![keys[j]] + rec.1, rec.2)
        } else {
            (t, Seq::empty(), Some((idv[0], c)))
        }
    }
}

/// The registry keys of a run of deleted ids.
pub open spec fn id_key_set(ds: Seq<Seq<char>>) -> Set<Seq<u8>> {
    Set::new(
        |kk: Seq<u8>|
            exists|x: int| 0 <= x < ds.len() && encode_utf8(#[trigger] ds[x]) == kk,
    )
}

/// Extending a fully applied batch by one prefix applies one more step
/// of the delete model.
proof fn lemma_delete_model_snoc(t: Seq<LiveProgram>, idv: Seq<Seq<char>>, p: Seq<char>)
    requires
        spec_delete_model(t, idv).2 is None,
    ensures
        ({
            let pre = spec_delete_model(t, idv);
            let keys = program_ids(pre.0);
            let c = match_count(keys, p);
            &&& (c == 1 ==> spec_delete_model(t, idv.push(p)) == (
                pre.0.remove(match_index(keys, p)),
                pre.1.push(keys[match_index(keys, p)]),
                None::<(Seq<char>, nat)>,
            ))
            &&& (c != 1 ==> spec_delete_model(t, idv.push(p)) == (pre.0, pre.1, Some((p, c))))
        }),
    decreases idv.len(),
{
    let pre = spec_delete_model(t, idv);
    let keys = program_ids(pre.0);
    let c = match_count(keys, p);
    if idv.len() == 0 {
        assert(idv.push(p)[0] == p);
        assert(idv.push(p).drop_first() =~= idv);
        if c == 1 {
            let j = match_index(keys, p);
            let rec = spec_delete_model(t.remove(j), idv);
            assert(seq![keys[j]] + rec.1 =~= pre.1.push(keys[j]));
        }
    } else {
        let keys0 = program_ids(t);
        let c0 = match_count(keys0, idv[0]);
        assert(c0 == 1);
        let j0 = match_index(keys0, idv[0]);
        assert(idv.push(p)[0] == idv[0]);
        assert(idv.push(p).drop_first() =~= idv.drop_first().push(p));
        lemma_delete_model_snoc(t.remove(j0), idv.drop_first(), p);
        let pre2 = spec_delete_model(t.remove(j0), idv.drop_first());
        assert(pre == (pre2.0, seq![keys0[j0]] + pre2.1, pre2.2));
        if c == 1 {
            let j = match_index(keys, p);
            let rec2 = spec_delete_model(t.remove(j0), idv.drop_first().push(p));
            assert(rec2 == (pre2.0.remove(j), pre2.1.push(keys[j]), None::<(Seq<char>, nat)>));
            assert(seq![keys0[j0]] + pre2.1.push(keys[j]) =~= (seq![keys0[j0]] + pre2.1).push(
                keys[j],
            ));
        } else {
            let rec2 = spec_delete_model(t.remove(j0), idv.drop_first().push(p));
            assert(rec2 == (pre2.0, pre2.1, Some((p, c))));
        }
    }
}

/// The outcome of a delete batch whose first `k` prefixes were applied:
/// the table and the returned ids are the delete model of those
/// prefixes, and the result says how the batch ended — success only
/// with every prefix applied; not-found or ambiguity at the first
/// prefix the model cannot resolve, with the registry holding exactly
/// the old contents minus the deleted keys; a registry failure only
/// right after a successful resolution, with the deleted keys unbound
/// and only the failing program's key left open.
pub open spec fn spec_delete_outcome(
    old_t: Seq<LiveProgram>,
    old_dbm: Map<Seq<u8>, Seq<u8>>,
    idv: Seq<Seq<char>>,
    new_t: Seq<LiveProgram>,
    new_dbm: Map<Seq<u8>, Seq<u8>>,
    r: (Vec<String>, Result<(), ServerError>),
    k: int,
) -> bool {
    let applied = spec_delete_model(old_t, idv.take(k));
    &&& 0 <= k <= idv.len()
    &&& applied.2 is None
    &&& new_t == applied.0
    &&& key_views(r.0@) == applied.1
    &&& match r.1 {
        Ok(_) => k == idv.len() && new_dbm == old_dbm.remove_keys(id_key_set(applied.1)),
        Err(e) => k < idv.len() && match e {
            ServerError::NotFound { id } => id@ == idv[k] && match_count(
                program_ids(applied.0),
                idv[k],
            ) == 0 && new_dbm == old_dbm.remove_keys(id_key_set(applied.1)),
            ServerError::Ambiguous { id } => id@ == idv[k] && match_count(
                program_ids(applied.0),
                idv[k],
            ) >= 2 && new_dbm == old_dbm.remove_keys(id_key_set(applied.1)),
            ServerError::Registry { .. } => {
                let keys = program_ids(applied.0);
                let failing = encode_utf8(keys[match_index(keys, idv[k])]);
                &&& match_count(keys, idv[k]) == 1
                &&& new_dbm.remove(failing) == old_dbm.remove_keys(id_key_set(applied.1)).remove(
                    failing,
                )
                &&& forall|x: int|
                    0 <= x < r.0@.len() ==> !new_dbm.contains_key(
                        encode_utf8((#[trigger] r.0@[x])@),
                    )
            },
            _ => false,
        },
    }
}

impl Server {
    /// Deletes programs by id prefix, in order, returning at the first
    /// prefix that does not resolve or the first registry failure;
    /// earlier deletions stay applied. Each resolved program leaves the
    /// registry and the table, in that order; the returned ids are for
    /// the caller, which aborts their tasks and removes their log files
    /// (a log file already absent is not an error). After a registry
    /// failure the failed program stays in the table, and the delete may
    /// be retried.
    #[verifier::rlimit(100)]
    pub fn delete(&mut self, ids: &Vec<String>) -> (r: (Vec<String>, Result<(), ServerError>))
        requires
            old(self).wf(),
        ensures
            final(self).wf(),
            final(self).logs_dir == old(self).logs_dir,
            old(self).registered() && !(r.1 matches Err(ServerError::Registry { .. }))
                ==> final(self).registered(),
            exists|k: int|
                spec_delete_outcome(
                    old(self).programs@,
                    db_view(old(self).db),
                    key_views(ids@),
                    final(self).programs@,
                    db_view(final(self).db),
                    r,
                    k,
                ),
    {
        let ghost old_t = old(self).programs@;
        let ghost old_dbm = db_view(old(self).db);
        let ghost idv = key_views(ids@);
        let mut deleted: Vec<String> = Vec::new();
        let n = ids.len();
        let mut i: usize = 0;
        proof {
            assert(idv.take(0) =~= Seq::<Seq<char>>::empty());
            assert(key_views(deleted@) =~= Seq::<Seq<char>>::empty());
            assert(id_key_set(key_views(deleted@)) =~= Set::<Seq<u8>>::empty());
            assert(db_view(self.db) =~= db_view(self.db).remove_keys(Set::<Seq<u8>>::empty()));
        }
        while i < n
            invariant
                i <= n,
                old(self).wf(),
                self.wf(),
                n == ids@.len(),
                old_t == old(self).programs@,
                old_dbm == db_view(old(self).db),
                idv == key_views(ids@),
                self.logs_dir == old(self).logs_dir,
                spec_delete_model(old_t, idv.take(i as int)) == (
                    self.programs@,
                    key_views(deleted@),
                    None::<(Seq<char>, nat)>,
                ),
                db_view(self.db) == old_dbm.remove_keys(id_key_set(key_views(deleted@))),
                old(self).registered() ==> self.registered(),
                forall|x: int, y: int|
                    #![trigger deleted@[x], self.programs@[y]]
                    0 <= x < deleted@.len() && 0 <= y < self.programs@.len() ==> (deleted@[x])@
                        != self.programs@[y].id@,
            decreases n - i,
        {
            let ghost tbl0 = self.programs@;
            let ghost keys0 = program_ids(self.programs@);
            proof {
                assert(idv.take(i + 1) =~= idv.take(i as int).push(idv[i as int]));
            }
            let keyvec = self.get_program_keys();
            let resolved = match search_id(&keyvec, ids[i].as_str()) {
                Ok(k) => k,
                Err(e) => {
                    proof {
                        lemma_delete_model_snoc(old_t, idv.take(i as int), idv[i as int]);
                        assert(spec_delete_outcome(
                            old_t,
                            old_dbm,
                            idv,
                            self.programs@,
                            db_view(self.db),
                            (deleted, Err::<(), ServerError>(e)),
                            i as int,
                        ));
                    }
                    return (deleted, Err(e));
                },
            };
            proof {
                assert(keys0.contains(resolved@));
                let jw = choose|j: int| 0 <= j < keys0.len() && keys0[j] == resolved@;
                assert(self.programs@[jw].id@ == resolved@);
            }
            let j = self.find_index(&resolved);
            proof {
                assert(keys0[j as int] == resolved@);
                assert(is_prefix_of(idv[i as int], keys0[j as int]));
                lemma_match_index_valid(keys0, idv[i as int]);
                lemma_unique_match(
                    keys0,
                    idv[i as int],
                    match_index(keys0, idv[i as int]),
                    j as int,
                );
                assert(match_index(keys0, idv[i as int]) == j as int);
            }
            let key = resolved.as_str().as_bytes_vec();
            let ghost ds_old = key_views(deleted@);
            let ghost db_pre = db_view(self.db);
            if let Err(message) = db_remove(&mut self.db, &key) {
                proof {
                    assert(key@ == encode_utf8(resolved@));
                    assert forall|x: int| 0 <= x < deleted@.len() implies !db_view(
                        self.db,
                    ).contains_key(encode_utf8((#[trigger] deleted@[x])@)) by {
                        let kk = encode_utf8(deleted@[x]@);
                        assert(deleted@[x]@ != self.programs@[j as int].id@);
                        assert(kk != key@) by {
                            if kk == key@ {
                                assert(decode_utf8(kk) == deleted@[x]@);
                                assert(decode_utf8(encode_utf8(resolved@)) == resolved@);
                            }
                        }
                        assert(db_view(self.db).contains_key(kk) == db_view(self.db).remove(
                            key@,
                        ).contains_key(kk));
                        assert(db_pre.remove(key@).contains_key(kk) == db_pre.contains_key(kk));
                        assert(encode_utf8(ds_old[x]) == kk);
                        assert(id_key_set(ds_old).contains(kk));
                    }
                    assert(db_view(self.db).remove(key@) =~= old_dbm.remove_keys(
                        id_key_set(ds_old),
                    ).remove(key@));
                    assert(spec_delete_outcome(
                        old_t,
                        old_dbm,
                        idv,
                        self.programs@,
                        db_view(self.db),
                        (deleted, Err::<(), ServerError>(ServerError::Registry { message })),
                        i as int,
                    ));
                }
                return (deleted, Err(ServerError::Registry { message }));
            }
            self.programs.remove(j);
            deleted.push(resolved);
            proof {
                let ds_new = key_views(deleted@);
                assert(self.programs@ =~= tbl0.remove(j as int));
                assert(ds_new =~= ds_old.push(resolved@));
                assert(key@ == encode_utf8(resolved@));
                assert forall|kk: Seq<u8>| #[trigger] id_key_set(ds_new).contains(
                    kk,
                ) implies id_key_set(ds_old).insert(key@).contains(kk) by {
                    let x = choose|x: int|
                        0 <= x < ds_new.len() && encode_utf8(#[trigger] ds_new[x]) == kk;
                    if x < ds_old.len() {
                        assert(encode_utf8(ds_old[x]) == kk);
                    } else {
                        assert(kk == key@);
                    }
                }
                assert forall|kk: Seq<u8>| #[trigger] id_key_set(ds_old).insert(key@).contains(
                    kk,
                ) implies id_key_set(ds_new).contains(kk) by {
                    if kk == key@ {
                        assert(encode_utf8(ds_new[ds_new.len() - 1]) == kk);
                    } else {
                        let x = choose|x: int|
                            0 <= x < ds_old.len() && encode_utf8(#[trigger] ds_old[x]) == kk;
                        assert(encode_utf8(ds_new[x]) == kk);
                    }
                }
                assert(id_key_set(ds_new) =~= id_key_set(ds_old).insert(key@));
                assert(db_view(self.db) == db_pre.remove(key@));
                assert(db_view(self.db) =~= old_dbm.remove_keys(id_key_set(ds_new)));
                lemma_delete_model_snoc(old_t, idv.take(i as int), idv[i as int]);
                assert(spec_delete_model(old_t, idv.take(i + 1)) == (
                    tbl0.remove(j as int),
                    ds_old.push(keys0[j as int]),
                    None::<(Seq<char>, nat)>,
                ));
                assert(ds_old.push(keys0[j as int]) == ds_new);
                assert forall|x: int, y: int|
                    #![trigger deleted@[x], self.programs@[y]]
                    0 <= x < deleted@.len() && 0 <= y < self.programs@.len() implies (
                deleted@[x])@ != self.programs@[y].id@ by {
                    let yy: int = if y < j as int {
                        y
                    } else {
                        y + 1
                    };
                    assert(self.programs@[y] == tbl0[yy]);
                    if x < ds_old.len() {
                        assert(deleted@[x]@ != tbl0[yy].id@);
                    } else {
                        assert(deleted@[x]@ == resolved@ && tbl0[j as int].id@ == resolved@);
                        if yy < j as int {
                            assert(tbl0[yy].id@ != tbl0[j as int].id@);
                        } else {
                            assert(tbl0[j as int].id@ != tbl0[yy].id@);
                        }
                    }
                }
                if old(self).registered() {
                    assert forall|x: int| 0 <= x < self.programs@.len() implies db_view(
                        self.db,
                    ).contains_key(encode_utf8((#[trigger] self.programs@[x]).id@)) by {
                        let e = self.programs@[x];
                        let y: int = if x < j as int {
                            x
                        } else {
                            x + 1
                        };
                        assert(e == tbl0[y]);
                        assert(db_pre.contains_key(encode_utf8(e.id@)));
                        assert(tbl0[j as int].id@ == resolved@);
                        assert(e.id@ != resolved@) by {
                            if y < j as int {
                                assert(tbl0[y].id@ != tbl0[j as int].id@);
                            } else {
                                assert(tbl0[j as int].id@ != tbl0[y].id@);
                            }
                        }
                        assert(encode_utf8(e.id@) != key@) by {
                            if encode_utf8(e.id@) == key@ {
                                assert(decode_utf8(encode_utf8(e.id@)) == e.id@);
                                assert(decode_utf8(encode_utf8(resolved@)) == resolved@);
                            }
                        }
                        assert(db_view(self.db).contains_key(encode_utf8(e.id@)) == db_pre
                            .remove(key@).contains_key(encode_utf8(e.id@)));
                    }
                }
            }
            i = i + 1;
        }
        proof {
            assert(idv.take(n as int) =~= idv);
            assert(spec_delete_outcome(
                old_t,
                old_dbm,
                idv,
                self.programs@,
                db_view(self.db),
                (deleted, Ok::<(), ServerError>(())),
                n as int,
            ));
        }
        (deleted, Ok(()))
    }
}

/// A partially rehydrated table: every entry runs with a cleared error,
/// is registered, and holds the metadata its registry bytes encode. A
/// load that fails part way leaves the table in this state.
pub open spec fn spec_partially_rehydrated(t: Seq<LiveProgram>, dbm: Map<Seq<u8>, Seq<u8>>) -> bool {
    &&& forall|i: int|
        0 <= i < t.len() ==> (#[trigger] t[i]).status == PROGRAM_STATUS_RUNNING && t[i].error
            is None
    &&& forall|i: int| 0 <= i < t.len() ==> dbm.contains_key(encode_utf8((#[trigger] t[i]).id@))
    &&& forall|i: int, m0: ProgramMeta|
        0 <= i < t.len() && #[trigger] spec_meta_encodes(dbm[encode_utf8(t[i].id@)], m0)
            ==> meta_equiv(t[i].meta, m0)
}

/// A rehydrated table: partially rehydrated, and complete — every
/// registry key has its entry.
pub open spec fn spec_rehydrated(t: Seq<LiveProgram>, dbm: Map<Seq<u8>, Seq<u8>>) -> bool {
    &&& spec_partially_rehydrated(t, dbm)
    &&& forall|k: Seq<u8>|
        #[trigger] dbm.contains_key(k) ==> exists|i: int|
            0 <= i < t.len() && encode_utf8(t[i].id@) == k
}

/// A table built from a prefix of the registry's entries is partially
/// rehydrated.
proof fn lemma_partial_rehydration(
    t: Seq<LiveProgram>,
    dbm: Map<Seq<u8>, Seq<u8>>,
    entries: Seq<(Vec<u8>, Vec<u8>)>,
)
    requires
        t.len() <= entries.len(),
        forall|x: int| 0 <= x < t.len() ==> encode_utf8((#[trigger] t[x]).id@) == entries[x].0@,
        forall|x: int|
            0 <= x < t.len() ==> (#[trigger] t[x]).status == PROGRAM_STATUS_RUNNING && t[x].error
                is None,
        forall|x: int, m0: ProgramMeta|
            0 <= x < t.len() && #[trigger] spec_meta_encodes(entries[x].1@, m0) ==> meta_equiv(
                t[x].meta,
                m0,
            ),
        forall|x: int|
            0 <= x < entries.len() ==> dbm.contains_key((#[trigger] entries[x]).0@)
                && dbm[entries[x].0@] == entries[x].1@,
    ensures
        spec_partially_rehydrated(t, dbm),
{
    assert forall|i: int, m0: ProgramMeta|
        0 <= i < t.len() && #[trigger] spec_meta_encodes(
            dbm[encode_utf8(t[i].id@)],
            m0,
        ) implies meta_equiv(t[i].meta, m0) by {
        assert(dbm[encode_utf8(t[i].id@)] == entries[i].1@);
        assert(spec_meta_encodes(entries[i].1@, m0));
    }
}

/// Law of restart persistence: after rehydration, every program whose
/// metadata encoding the registry holds is present in the table, running,
/// with that metadata.
pub proof fn lemma_rehydration_preserves_programs(
    t: Seq<LiveProgram>,
    dbm: Map<Seq<u8>, Seq<u8>>,
    k: Seq<u8>,
    m0: ProgramMeta,
)
    requires
        spec_rehydrated(t, dbm),
        dbm.contains_key(k),
        spec_meta_encodes(dbm[k], m0),
    ensures
        exists|i: int|
            0 <= i < t.len() && encode_utf8((#[trigger] t[i]).id@) == k && t[i].status
                == PROGRAM_STATUS_RUNNING && meta_equiv(t[i].meta, m0),
{
    let i = choose|i: int| 0 <= i < t.len() && encode_utf8(t[i].id@) == k;
    assert(spec_meta_encodes(dbm[encode_utf8(t[i].id@)], m0));
    assert(0 <= i < t.len() && encode_utf8(t[i].id@) == k && t[i].status
        == PROGRAM_STATUS_RUNNING && meta_equiv(t[i].meta, m0));
}

/// Law of the stop no-op: a stop step on a program that is already
/// finished, failed, or stopped leaves the entry exactly as it was. The
/// hypothesis that a finished or failed program has a finished task holds
/// by construction: those statuses are only assigned once the task
/// handle reports completion.
pub proof fn lemma_stop_terminal_noop(oldp: LiveProgram, newp: LiveProgram, hit: bool, fin: bool)
    requires
        newp.id == oldp.id,
        newp.meta == oldp.meta,
        newp.error == oldp.error,
        newp.status == if hit && !fin {
            PROGRAM_STATUS_STOPPED
        } else {
            oldp.status
        },
        valid_status(oldp.status),
        oldp.status != PROGRAM_STATUS_RUNNING,
        (oldp.status == PROGRAM_STATUS_FINISHED || oldp.status == PROGRAM_STATUS_ERROR) ==> fin,
    ensures
        newp == oldp,
{
}

impl Server {
    /// Rebuilds the live table from the registry at daemon startup:
    /// every stored program comes back running with the metadata its
    /// stored bytes encode, and nothing else comes back. The caller
    /// spawns the returned launches.
    #[verifier::loop_isolation(false)]
    #[verifier::rlimit(100)]
    pub fn load_from_db(&mut self) -> (r: Result<Vec<LaunchTask>, ServerError>)
        requires
            old(self).wf(),
            old(self).programs@.len() == 0,
        ensures
            final(self).wf(),
            final(self).db == old(self).db,
            final(self).logs_dir == old(self).logs_dir,
            r is Ok ==> spec_rehydrated(final(self).programs@, db_view(final(self).db))
                && final(self).registered(),
            r matches Ok(tasks) ==> tasks@.len() == final(self).programs@.len() && (forall|x: int|
                0 <= x < tasks@.len() ==> (#[trigger] tasks@[x]).id@
                    == final(self).programs@[x].id@ && meta_equiv(
                    tasks@[x].meta,
                    final(self).programs@[x].meta,
                )),
            r matches Err(e) ==> spec_partially_rehydrated(
                final(self).programs@,
                db_view(final(self).db),
            ) && match e {
                ServerError::Registry { .. } => final(self).programs@ == old(self).programs@,
                ServerError::CorruptKey => exists|k: Seq<u8>|
                    #[trigger] db_view(final(self).db).contains_key(k) && !valid_utf8(k),
                ServerError::CorruptMeta => exists|k: Seq<u8>|
                    #[trigger] db_view(final(self).db).contains_key(k) && !(exists|
                        m: ProgramMeta,
                    | spec_meta_encodes(db_view(final(self).db)[k], m)),
                ServerError::UnknownProgramType { program_type: t } => !known_program_type(t)
                    && (exists|k: Seq<u8>, m: ProgramMeta|
                    db_view(final(self).db).contains_key(k) && #[trigger] spec_meta_encodes(
                        db_view(final(self).db)[k],
                        m,
                    ) && m.program_type == t),
                _ => false,
            },
    {
        let entries = match crate::registry::db_entries(&self.db) {
            Ok(v) => v,
            Err(message) => {
                proof {
                    assert(spec_partially_rehydrated(self.programs@, db_view(self.db)));
                }
                return Err(ServerError::Registry { message });
            },
        };
        let mut tasks: Vec<LaunchTask> = Vec::new();
        let n = entries.len();
        let mut i: usize = 0;
        while i < n
            invariant
                i <= n,
                self.db == old(self).db,
                self.logs_dir == old(self).logs_dir,
                self.wf(),
                self.programs@.len() == i as int,
                tasks@.len() == i as int,
                forall|x: int|
                    0 <= x < i ==> encode_utf8((#[trigger] self.programs@[x]).id@)
                        == entries@[x].0@,
                forall|x: int|
                    0 <= x < i ==> (#[trigger] self.programs@[x]).status == PROGRAM_STATUS_RUNNING
                        && self.programs@[x].error is None,
                forall|x: int|
                    0 <= x < i ==> spec_meta_encodes(
                        entries@[x].1@,
                        (#[trigger] self.programs@[x]).meta,
                    ),
                forall|x: int, m0: ProgramMeta|
                    0 <= x < i && #[trigger] spec_meta_encodes(entries@[x].1@, m0) ==> meta_equiv(
                        self.programs@[x].meta,
                        m0,
                    ),
                forall|x: int|
                    0 <= x < i ==> (#[trigger] tasks@[x]).id@ == self.programs@[x].id@
                        && meta_equiv(tasks@[x].meta, self.programs@[x].meta),
            decreases n - i,
        {
            let pair = &entries[i];
            let kbytes = vstd::slice::slice_to_vec(pair.0.as_slice());
            let id = match crate::meta::utf8_to_string(kbytes) {
                Some(s) => s,
                None => {
                    proof {
                        lemma_partial_rehydration(self.programs@, db_view(self.db), entries@);
                        assert(db_view(self.db).contains_key(entries@[i as int].0@)
                            && !valid_utf8(entries@[i as int].0@));
                    }
                    return Err(ServerError::CorruptKey);
                },
            };
            let vbytes = vstd::slice::slice_to_vec(pair.1.as_slice());
            let meta = match crate::meta::decode_meta(&vbytes) {
                Some(m) => m,
                None => {
                    proof {
                        lemma_partial_rehydration(self.programs@, db_view(self.db), entries@);
                        assert(db_view(self.db).contains_key(entries@[i as int].0@));
                        assert(db_view(self.db)[entries@[i as int].0@] == entries@[i as int].1@);
                        assert forall|m: ProgramMeta| !spec_meta_encodes(
                            entries@[i as int].1@,
                            m,
                        ) by {}
                    }
                    return Err(ServerError::CorruptMeta);
                },
            };
            let task_meta = meta.clone();
            proof {
                assert(encode_utf8(id@) == entries@[i as int].0@);
                assert forall|x: int|
                    0 <= x < i implies (#[trigger] self.programs@[x]).id@ != id@ by {
                    if self.programs@[x].id@ == id@ {
                        assert(entries@[x].0@ == entries@[i as int].0@);
                    }
                }
            }
            match self.run_inner(&id, meta) {
                Ok(()) => {},
                Err(e) => {
                    proof {
                        lemma_partial_rehydration(self.programs@, db_view(self.db), entries@);
                        assert(db_view(self.db).contains_key(entries@[i as int].0@));
                        assert(db_view(self.db)[entries@[i as int].0@] == entries@[i as int].1@);
                    }
                    return Err(e);
                },
            }
            tasks.push(LaunchTask { id, meta: task_meta });
            i = i + 1;
        }
        proof {
            let t = self.programs@;
            let dbm = db_view(self.db);
            assert forall|x: int| 0 <= x < t.len() implies dbm.contains_key(
                encode_utf8((#[trigger] t[x]).id@),
            ) && dbm[encode_utf8(t[x].id@)] == entries@[x].1@ by {
                assert(db_view(self.db).contains_key((entries@[x]).0@));
            }
            assert forall|x: int, m0: ProgramMeta|
                0 <= x < t.len() && #[trigger] spec_meta_encodes(
                    dbm[encode_utf8(t[x].id@)],
                    m0,
                ) implies meta_equiv(t[x].meta, m0) by {
                assert(spec_meta_encodes(entries@[x].1@, m0));
            }
            assert forall|k: Seq<u8>| #[trigger] dbm.contains_key(k) implies exists|x: int|
                0 <= x < t.len() && encode_utf8(t[x].id@) == k by {
                let x = choose|x: int| 0 <= x < entries@.len() && (#[trigger] entries@[x]).0@
                    == k;
                assert(encode_utf8(t[x].id@) == k);
            }
        }
        Ok(tasks)
    }
}

/// A run of resolving prefixes pins the first bad index.
pub proof fn lemma_first_bad_is(keys: Seq<Seq<char>>, idv: Seq<Seq<char>>, k: int)
    requires
        0 <= k <= idv.len(),
        forall|i: int| 0 <= i < k ==> match_count(keys, #[trigger] idv[i]) == 1,
        k < idv.len() ==> match_count(keys, idv[k]) != 1,
    ensures
        spec_first_bad(keys, idv) == k,
    decreases idv.len(),
{
    if idv.len() > 0 {
        if k == 0 {
        } else {
            assert(match_count(keys, idv[0]) == 1);
            lemma_first_bad_is(keys, idv.drop_first(), k - 1);
        }
    }
}

} // verus!
