use wacker::meta::decode_meta;
use wacker::meta::encode_meta;
use wacker::meta::ProgramMeta;
use wacker::server::Server;
use wacker::server::TaskEvent;
use wacker::PROGRAM_STATUS_ERROR;
use wacker::PROGRAM_STATUS_FINISHED;
use wacker::PROGRAM_STATUS_RUNNING;
use wacker::PROGRAM_STATUS_STOPPED;
use wacker::PROGRAM_TYPE_CLI;
use wacker::PROGRAM_TYPE_HTTP;

fn temp_db() -> sled::Db {
    sled::Config::new().temporary(true).open().expect("a temporary database opens")
}

fn fresh_server() -> Server {
    Server::new(temp_db(), String::from("/tmp/wacker-test-logs"))
}

fn running_events(server: &Server) -> Vec<TaskEvent> {
    server
        .get_program_keys()
        .iter()
        .map(|_| TaskEvent { finished: false, failure: None })
        .collect()
}

#[test]
fn run_registers_a_running_program() {
    let mut server = fresh_server();
    let task = server
        .run(&String::from("./tests/wasm/hello.wasm"), vec![])
        .expect("a path with a stem runs");
    assert!(task.id.starts_with("hello-"));
    assert_eq!(task.id.len(), "hello-".len() + 7);
    assert_eq!(task.meta.program_type, PROGRAM_TYPE_CLI);
    assert_eq!(task.meta.path, "./tests/wasm/hello.wasm");
    assert_eq!(task.meta.addr, None);
    let events = running_events(&server);
    let listing = server.list(&events);
    assert_eq!(listing.len(), 1);
    assert_eq!(listing[0].id, task.id);
    assert_eq!(listing[0].status, PROGRAM_STATUS_RUNNING);
    assert_eq!(listing[0].addr, "");
}

#[test]
fn run_keeps_arguments() {
    let mut server = fresh_server();
    let task = server
        .run(
            &String::from("./tests/wasm/cli.wasm"),
            vec![String::from("-a=b"), String::from("-c=d")],
        )
        .expect("a path with a stem runs");
    assert_eq!(task.meta.args, vec![String::from("-a=b"), String::from("-c=d")]);
}

#[test]
fn run_without_file_stem_fails() {
    let mut server = fresh_server();
    let err = server.run(&String::from("/"), vec![]).err().expect("no stem, no id");
    assert_eq!(err.message(), "failed to get file name in path /");
}

#[test]
fn serve_registers_an_http_program() {
    let mut server = fresh_server();
    let task = server
        .serve(&String::from("./tests/wasm/http.wasm"), &String::from("localhost:8080"))
        .expect("a path with a stem serves");
    assert_eq!(task.meta.program_type, PROGRAM_TYPE_HTTP);
    assert_eq!(task.meta.addr, Some(String::from("localhost:8080")));
    let events = running_events(&server);
    let listing = server.list(&events);
    assert_eq!(listing.len(), 1);
    assert_eq!(listing[0].addr, "localhost:8080");
}

#[test]
fn finished_task_without_failure_becomes_finished() {
    let mut server = fresh_server();
    server.run(&String::from("./tests/wasm/hello.wasm"), vec![]).expect("runs");
    let events = vec![TaskEvent { finished: true, failure: None }];
    let listing = server.list(&events);
    assert_eq!(listing[0].status, PROGRAM_STATUS_FINISHED);
}

#[test]
fn finished_task_with_failure_becomes_error() {
    let mut server = fresh_server();
    server.run(&String::from("./tests/wasm/hello.wasm"), vec![]).expect("runs");
    let events = vec![TaskEvent {
        finished: true,
        failure: Some(String::from("wasm trap: out of bounds")),
    }];
    let listing = server.list(&events);
    assert_eq!(listing[0].status, PROGRAM_STATUS_ERROR);
}

#[test]
fn terminal_status_persists_across_listings() {
    let mut server = fresh_server();
    server.run(&String::from("./tests/wasm/hello.wasm"), vec![]).expect("runs");
    server.list(&vec![TaskEvent { finished: true, failure: None }]);
    // Later listings see a finished task again; the status must not move.
    let listing = server.list(&vec![TaskEvent { finished: true, failure: None }]);
    assert_eq!(listing[0].status, PROGRAM_STATUS_FINISHED);
}

#[test]
fn stop_marks_a_running_program_stopped() {
    let mut server = fresh_server();
    let task = server.run(&String::from("./tests/wasm/time.wasm"), vec![]).expect("runs");
    let (aborts, outcome) = server.stop(&vec![String::from("time")], &vec![false]);
    assert!(outcome.is_ok());
    assert_eq!(aborts, vec![task.id]);
    let listing = server.list(&running_events(&server));
    assert_eq!(listing[0].status, PROGRAM_STATUS_STOPPED);
}

#[test]
fn stop_on_stopped_program_is_a_noop_success() {
    let mut server = fresh_server();
    server.run(&String::from("./tests/wasm/time.wasm"), vec![]).expect("runs");
    let (_, first) = server.stop(&vec![String::from("time")], &vec![false]);
    assert!(first.is_ok());
    // The task is gone now; stopping again succeeds and changes nothing.
    let (aborts, second) = server.stop(&vec![String::from("time")], &vec![true]);
    assert!(second.is_ok());
    assert!(aborts.is_empty());
    let listing = server.list(&running_events(&server));
    assert_eq!(listing[0].status, PROGRAM_STATUS_STOPPED);
}

#[test]
fn stop_on_finished_program_is_a_noop_success() {
    let mut server = fresh_server();
    server.run(&String::from("./tests/wasm/hello.wasm"), vec![]).expect("runs");
    server.list(&vec![TaskEvent { finished: true, failure: None }]);
    let (aborts, outcome) = server.stop(&vec![String::from("hello")], &vec![true]);
    assert!(outcome.is_ok());
    assert!(aborts.is_empty());
    let listing = server.list(&vec![TaskEvent { finished: true, failure: None }]);
    assert_eq!(listing[0].status, PROGRAM_STATUS_FINISHED);
}

#[test]
fn stop_unknown_prefix_fails() {
    let mut server = fresh_server();
    server.run(&String::from("./tests/wasm/hello.wasm"), vec![]).expect("runs");
    let (aborts, outcome) = server.stop(&vec![String::from("nope")], &vec![false]);
    assert!(aborts.is_empty());
    assert_eq!(outcome.err().expect("nothing matches").message(), "program nope not found");
}

#[test]
fn restart_relaunches_in_place() {
    let mut server = fresh_server();
    let task = server.run(&String::from("./tests/wasm/hello.wasm"), vec![]).expect("runs");
    server.list(&vec![TaskEvent { finished: true, failure: None }]);
    let (tasks, outcome) = server.restart(&vec![String::from("hello")]);
    assert!(outcome.is_ok());
    assert_eq!(tasks.len(), 1);
    assert_eq!(tasks[0].id, task.id);
    assert_eq!(tasks[0].meta.path, "./tests/wasm/hello.wasm");
    let listing = server.list(&running_events(&server));
    assert_eq!(listing.len(), 1);
    assert_eq!(listing[0].status, PROGRAM_STATUS_RUNNING);
}

#[test]
fn delete_removes_the_program() {
    let mut server = fresh_server();
    server.run(&String::from("./tests/wasm/hello.wasm"), vec![]).expect("runs");
    let (deleted, outcome) = server.delete(&vec![String::from("hello")]);
    assert!(outcome.is_ok());
    assert_eq!(deleted.len(), 1);
    assert!(server.get_program_keys().is_empty());
}

#[test]
fn delete_empty_batch_succeeds() {
    let mut server = fresh_server();
    server.run(&String::from("./tests/wasm/hello.wasm"), vec![]).expect("runs");
    let (deleted, outcome) = server.delete(&vec![]);
    assert!(deleted.is_empty());
    assert!(outcome.is_ok());
    assert_eq!(server.get_program_keys().len(), 1);
}

#[test]
fn stop_empty_batch_succeeds() {
    let mut server = fresh_server();
    server.run(&String::from("./tests/wasm/hello.wasm"), vec![]).expect("runs");
    let (aborts, outcome) = server.stop(&vec![], &vec![false]);
    assert!(aborts.is_empty());
    assert!(outcome.is_ok());
}

#[test]
fn delete_never_existing_prefix_is_not_found() {
    let mut server = fresh_server();
    let (deleted, outcome) = server.delete(&vec![String::from("ghost")]);
    assert!(deleted.is_empty());
    assert_eq!(outcome.err().expect("nothing matches").message(), "program ghost not found");
}

#[test]
fn delete_just_deleted_id_is_not_found() {
    let mut server = fresh_server();
    let task = server.run(&String::from("./tests/wasm/hello.wasm"), vec![]).expect("runs");
    let (_, first) = server.delete(&vec![task.id.clone()]);
    assert!(first.is_ok());
    let (_, second) = server.delete(&vec![task.id.clone()]);
    let message = format!("program {} not found", task.id);
    assert_eq!(second.err().expect("the id is gone").message(), message);
}

#[test]
fn delete_ambiguous_id() {
    let mut server = fresh_server();
    server.run(&String::from("./tests/wasm/hello.wasm"), vec![]).expect("runs");
    server.run(&String::from("./tests/wasm/hello.wasm"), vec![]).expect("runs");
    let (deleted, outcome) = server.delete(&vec![String::from("hello")]);
    assert!(deleted.is_empty());
    assert_eq!(
        outcome.err().expect("two programs match").message(),
        "ambiguous program id hello, more than one program starts with this id"
    );
}

#[test]
fn batch_applies_until_first_failure() {
    let mut server = fresh_server();
    server.run(&String::from("./tests/wasm/hello.wasm"), vec![]).expect("runs");
    server.run(&String::from("./tests/wasm/time.wasm"), vec![]).expect("runs");
    let (aborts, outcome) = server.stop(
        &vec![String::from("hello"), String::from("nope"), String::from("time")],
        &vec![false, false],
    );
    // The first stop is applied; the second prefix fails; the third is
    // never attempted.
    assert_eq!(aborts.len(), 1);
    assert!(aborts[0].starts_with("hello-"));
    assert!(outcome.is_err());
    let listing = server.list(&running_events(&server));
    let stopped: Vec<u32> = listing.iter().map(|p| p.status).collect();
    assert!(stopped.contains(&PROGRAM_STATUS_STOPPED));
    assert!(stopped.contains(&PROGRAM_STATUS_RUNNING));
}

#[test]
fn restart_survives_daemon_restart() {
    let db = temp_db();
    let logs = String::from("/tmp/wacker-test-logs");
    let mut first = Server::new(db.clone(), logs.clone());
    let run_task = first
        .run(&String::from("./tests/wasm/cli.wasm"), vec![String::from("-a=b")])
        .expect("runs");
    let serve_task = first
        .serve(&String::from("./tests/wasm/http.wasm"), &String::from("localhost:8080"))
        .expect("serves");
    // Stop one program: statuses are in-memory only and must reset.
    let (_, stopped) = first.stop(&vec![run_task.id.clone()], &vec![false]);
    assert!(stopped.is_ok());
    drop(first);

    let mut second = Server::new(db, logs);
    let tasks = second.load_from_db().expect("the registry rehydrates");
    assert_eq!(tasks.len(), 2);
    let mut ids: Vec<String> = second.get_program_keys();
    ids.sort();
    let mut expected = vec![run_task.id.clone(), serve_task.id.clone()];
    expected.sort();
    assert_eq!(ids, expected);
    let events = running_events(&second);
    for program in second.list(&events) {
        assert_eq!(program.status, PROGRAM_STATUS_RUNNING);
        if program.id == run_task.id {
            assert_eq!(program.path, "./tests/wasm/cli.wasm");
            assert_eq!(program.program_type, PROGRAM_TYPE_CLI);
        } else {
            assert_eq!(program.id, serve_task.id);
            assert_eq!(program.path, "./tests/wasm/http.wasm");
            assert_eq!(program.program_type, PROGRAM_TYPE_HTTP);
            assert_eq!(program.addr, "localhost:8080");
        }
    }
}

#[test]
fn deleted_programs_stay_deleted_across_restart() {
    let db = temp_db();
    let logs = String::from("/tmp/wacker-test-logs");
    let mut first = Server::new(db.clone(), logs.clone());
    let task = first.run(&String::from("./tests/wasm/hello.wasm"), vec![]).expect("runs");
    let kept = first.run(&String::from("./tests/wasm/time.wasm"), vec![]).expect("runs");
    let (_, outcome) = first.delete(&vec![task.id.clone()]);
    assert!(outcome.is_ok());
    drop(first);

    let mut second = Server::new(db, logs);
    second.load_from_db().expect("the registry rehydrates");
    assert_eq!(second.get_program_keys(), vec![kept.id]);
}

#[test]
fn registry_bytes_decode_to_the_registered_meta() {
    // The registry holds exactly the encoding the supervisor chose.
    let meta = ProgramMeta {
        path: String::from("./tests/wasm/cli.wasm"),
        program_type: PROGRAM_TYPE_CLI,
        addr: None,
        args: vec![String::from("-a=b")],
    };
    let db = temp_db();
    db.insert(b"cli-abc1234".as_slice(), encode_meta(&meta)).expect("the insert lands");
    let stored = db.get(b"cli-abc1234".as_slice()).expect("the read works").expect("present");
    let back = decode_meta(&stored.to_vec()).expect("stored bytes decode");
    assert_eq!(back.path, meta.path);
    assert_eq!(back.args, meta.args);
}
