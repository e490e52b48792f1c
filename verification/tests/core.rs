use wacker::commands::LogsCommand;
use wacker::engine::classify_artifact;
use wacker::engine::component_run_result;
use wacker::engine::core_run_result;
use wacker::engine::error_log_entry;
use wacker::engine::is_remote_path;
use wacker::engine::next_req_id;
use wacker::engine::request_env;
use wacker::engine::request_log_line;
use wacker::engine::select_entry;
use wacker::engine::serving_banner;
use wacker::engine::ArtifactKind;
use wacker::engine::CoreOutcome;
use wacker::engine::EntryPoint;
use wacker::errors::ServerError;
use wacker::ids::file_stem;
use wacker::ids::generate_random_string;
use wacker::ids::make_program_id;
use wacker::ids::search_id;
use wacker::ids::str_has_prefix;
use wacker::logtail::tail_slice;
use wacker::meta::decode_meta;
use wacker::meta::encode_meta;
use wacker::meta::ProgramMeta;
use wacker::numfmt::u32_to_string;
use wacker::numfmt::u64_to_string;
use wacker::paths::get_db_path;
use wacker::paths::get_logs_dir;
use wacker::paths::get_main_dir;
use wacker::paths::get_sock_path;
use wacker::paths::log_file_path;

#[test]
fn test_generate_random_string() {
    assert_eq!(generate_random_string(5).len(), 5);
}

#[test]
fn random_string_is_alphanumeric() {
    let s = generate_random_string(64);
    assert_eq!(s.chars().count(), 64);
    assert!(s.chars().all(|c| c.is_ascii_alphanumeric()));
}

#[test]
fn meta_round_trip_full() {
    let meta = ProgramMeta {
        path: String::from("./tests/wasm/http.wasm"),
        program_type: wacker::PROGRAM_TYPE_HTTP,
        addr: Some(String::from("localhost:8080")),
        args: vec![String::from("-a=b"), String::from("-c=d")],
    };
    let bytes = encode_meta(&meta);
    let back = decode_meta(&bytes).expect("an encoded value decodes");
    assert_eq!(back.path, meta.path);
    assert_eq!(back.program_type, meta.program_type);
    assert_eq!(back.addr, meta.addr);
    assert_eq!(back.args, meta.args);
}

#[test]
fn meta_round_trip_minimal() {
    let meta = ProgramMeta {
        path: String::from("héllo.wasm"),
        program_type: wacker::PROGRAM_TYPE_CLI,
        addr: None,
        args: vec![],
    };
    let bytes = encode_meta(&meta);
    let back = decode_meta(&bytes).expect("an encoded value decodes");
    assert_eq!(back.path, meta.path);
    assert_eq!(back.program_type, meta.program_type);
    assert_eq!(back.addr, None);
    assert!(back.args.is_empty());
}

#[test]
fn meta_encoding_exact_bytes() {
    let meta = ProgramMeta {
        path: String::from("a"),
        program_type: 0,
        addr: None,
        args: vec![],
    };
    let bytes = encode_meta(&meta);
    let expected: Vec<u8> = vec![
        0, 0, 0, 0, // program type
        1, 0, 0, 0, 0, 0, 0, 0, // path length
        97, // path bytes
        0, // no address
        0, 0, 0, 0, 0, 0, 0, 0, // argument count
    ];
    assert_eq!(bytes, expected);
}

#[test]
fn meta_decoding_rejects_garbage() {
    assert!(decode_meta(&vec![]).is_none());
    assert!(decode_meta(&vec![1, 2, 3]).is_none());
    let meta = ProgramMeta {
        path: String::from("a"),
        program_type: 0,
        addr: None,
        args: vec![],
    };
    let mut bytes = encode_meta(&meta);
    bytes.push(0); // a trailing byte is not part of any encoding
    assert!(decode_meta(&bytes).is_none());
}

#[test]
fn search_id_not_found() {
    let keys = vec![String::from("hello-abc1234")];
    let err = search_id(&keys, "world").err().expect("no key matches");
    assert_eq!(err.message(), "program world not found");
}

#[test]
fn search_id_unique_match() {
    let keys = vec![String::from("hello-abc1234"), String::from("time-xyz9876")];
    let id = search_id(&keys, "he").expect("one key matches");
    assert_eq!(id, "hello-abc1234");
}

#[test]
fn search_id_ambiguous() {
    let keys = vec![String::from("hello-abc1234"), String::from("hello-xyz9876")];
    let err = search_id(&keys, "hello").err().expect("two keys match");
    assert_eq!(
        err.message(),
        "ambiguous program id hello, more than one program starts with this id"
    );
}

#[test]
fn str_prefix_cases() {
    assert!(str_has_prefix("hello-abc", "hello"));
    assert!(str_has_prefix("hello", "hello"));
    assert!(!str_has_prefix("hell", "hello"));
    assert!(!str_has_prefix("hallo", "hello"));
    assert!(str_has_prefix("anything", ""));
}

#[test]
fn file_stem_cases() {
    assert_eq!(file_stem("./tests/wasm/hello.wasm"), Some(String::from("hello")));
    assert_eq!(file_stem("foo"), Some(String::from("foo")));
    assert_eq!(file_stem("a.b.c"), Some(String::from("a.b")));
    assert_eq!(file_stem(".bar"), Some(String::from(".bar")));
    assert_eq!(file_stem("dir/"), Some(String::from("dir")));
    assert_eq!(file_stem("archive.tar.gz"), Some(String::from("archive.tar")));
    assert_eq!(file_stem(""), None);
    assert_eq!(file_stem("/"), None);
    assert_eq!(file_stem(".."), None);
    assert_eq!(file_stem("foo/.."), None);
    assert_eq!(file_stem("."), None);
}

#[test]
fn make_program_id_shape() {
    let id = make_program_id("hello", "abc1234");
    assert_eq!(id, "hello-abc1234");
}

#[test]
fn tail_zero_returns_everything() {
    let content = b"one\ntwo\nthree\n".to_vec();
    assert_eq!(tail_slice(&content, 0), content);
}

#[test]
fn tail_larger_than_file_returns_everything() {
    let content = b"one\ntwo\nthree\n".to_vec();
    assert_eq!(tail_slice(&content, 100), content);
}

#[test]
fn tail_selects_last_lines() {
    let content = b"one\ntwo\nthree\n".to_vec();
    assert_eq!(tail_slice(&content, 1), b"three\n".to_vec());
    assert_eq!(tail_slice(&content, 2), b"two\nthree\n".to_vec());
    assert_eq!(tail_slice(&content, 3), content);
}

#[test]
fn tail_counts_unterminated_last_line() {
    let content = b"one\ntwo".to_vec();
    assert_eq!(tail_slice(&content, 1), b"two".to_vec());
    assert_eq!(tail_slice(&content, 2), content);
}

#[test]
fn tail_of_single_greeting_line() {
    let content = b"Hello, world!\n".to_vec();
    assert_eq!(tail_slice(&content, 1), b"Hello, world!\n".to_vec());
}

#[test]
fn tail_of_empty_file() {
    let content: Vec<u8> = vec![];
    assert_eq!(tail_slice(&content, 0), content);
    assert_eq!(tail_slice(&content, 3), content);
}

#[test]
fn decimal_rendering() {
    assert_eq!(u64_to_string(0), "0");
    assert_eq!(u64_to_string(7), "7");
    assert_eq!(u64_to_string(1234567890123), "1234567890123");
    assert_eq!(u64_to_string(u64::MAX), "18446744073709551615");
    assert_eq!(u32_to_string(42), "42");
}

#[test]
fn error_messages_exact() {
    assert_eq!(
        ServerError::NoFileStem { path: String::from("/") }.message(),
        "failed to get file name in path /"
    );
    assert_eq!(
        ServerError::NotFound { id: String::from("x") }.message(),
        "program x not found"
    );
    assert_eq!(
        ServerError::Ambiguous { id: String::from("hello") }.message(),
        "ambiguous program id hello, more than one program starts with this id"
    );
    assert_eq!(
        ServerError::UnknownProgramType { program_type: 42 }.message(),
        "unknown program type 42"
    );
    assert_eq!(
        ServerError::IdCollision { id: String::from("a-b") }.message(),
        "program id a-b already exists"
    );
    assert_eq!(
        ServerError::Registry { message: String::from("io trouble") }.message(),
        "io trouble"
    );
    assert_eq!(ServerError::CorruptKey.message(), "invalid program id in the registry");
    assert_eq!(
        ServerError::CorruptMeta.message(),
        "invalid program metadata in the registry"
    );
}

#[test]
fn path_layout() {
    let main = get_main_dir("/home/me");
    assert_eq!(main, "/home/me/.wacker");
    assert_eq!(get_sock_path(&main), "/home/me/.wacker/wacker.sock");
    assert_eq!(get_logs_dir(&main), "/home/me/.wacker/logs");
    assert_eq!(get_db_path(&main), "/home/me/.wacker/db");
    assert_eq!(log_file_path("/home/me/.wacker/logs", "hello-abc1234"),
        "/home/me/.wacker/logs/hello-abc1234");
}

#[test]
fn artifact_classification() {
    let component = vec![0x00, 0x61, 0x73, 0x6d, 0x0d, 0x00, 0x01, 0x00, 0xff];
    assert!(matches!(classify_artifact(&component), ArtifactKind::Component));
    let core_module = vec![0x00, 0x61, 0x73, 0x6d, 0x01, 0x00, 0x00, 0x00];
    assert!(matches!(classify_artifact(&core_module), ArtifactKind::CoreModule));
    let empty: Vec<u8> = vec![];
    assert!(matches!(classify_artifact(&empty), ArtifactKind::CoreModule));
}

#[test]
fn remote_path_detection() {
    assert!(is_remote_path("http://example.com/app.wasm"));
    assert!(is_remote_path("https://example.com/app.wasm"));
    assert!(!is_remote_path("./local/app.wasm"));
}

#[test]
fn entry_selection() {
    assert!(matches!(select_entry(true, true), Ok(EntryPoint::Start)));
    assert!(matches!(select_entry(true, false), Ok(EntryPoint::Start)));
    assert!(matches!(select_entry(false, true), Ok(EntryPoint::DefaultExport)));
    let err = select_entry(false, false).err().expect("nothing to run");
    assert_eq!(err, "no main function to run");
}

#[test]
fn zero_exit_code_is_success() {
    assert!(core_run_result(CoreOutcome::Completed).is_ok());
    let zero = CoreOutcome::Exited { code: 0, message: String::from("Exited with i32 exit status 0") };
    assert!(core_run_result(zero).is_ok());
    let one = CoreOutcome::Exited { code: 1, message: String::from("Exited with i32 exit status 1") };
    assert_eq!(core_run_result(one).err().expect("nonzero exit fails"),
        "Exited with i32 exit status 1");
    let trap = CoreOutcome::Failed { message: String::from("wasm trap") };
    assert_eq!(core_run_result(trap).err().expect("a trap fails"), "wasm trap");
}

#[test]
fn component_run_messages() {
    assert!(component_run_result(None).is_ok());
    let err = component_run_result(Some(String::from("boom"))).err().expect("a failure fails");
    assert_eq!(err, "call run function error: boom");
}

#[test]
fn log_lines_and_env() {
    assert_eq!(error_log_entry("it broke"), "it broke\n");
    assert_eq!(serving_banner("127.0.0.1:8080"), "Serving HTTP on http://127.0.0.1:8080/\n");
    assert_eq!(
        request_log_line(3, "GET", "/api_path?hello=world"),
        "Request 3 handling GET to /api_path?hello=world\n"
    );
    let (key, value) = request_env(17);
    assert_eq!(key, "REQUEST_ID");
    assert_eq!(value, "17");
}

#[test]
fn request_ids_are_successive() {
    assert_eq!(next_req_id(0), 1);
    assert_eq!(next_req_id(41), 42);
    assert_eq!(next_req_id(u64::MAX), 0);
}

#[test]
fn logs_command_tail_default() {
    let with_tail = LogsCommand { id: String::from("x"), follow: false, tail: Some(5) };
    assert_eq!(with_tail.effective_tail(), 5);
    let without_tail = LogsCommand { id: String::from("x"), follow: true, tail: None };
    assert_eq!(without_tail.effective_tail(), 0);
}
