use sha2::Digest;

use einmo::suite_lock::{acquire_step, lock_file_name, recorded_socket, refusal_message, suite_lock_path, LockStep, SuiteLock};

#[test]
fn lock_file_name_is_the_hex_of_the_first_16_digest_bytes() {
    let digest = sha2::Sha256::digest(b"/home/a/suite");
    let expected: String = digest[..16].iter().map(|b| format!("{b:02x}")).collect();
    assert_eq!(lock_file_name("/home/a/suite"), format!("suite-{expected}.lock"));
    assert_eq!(lock_file_name("/home/a/suite").len(), "suite-".len() + 32 + ".lock".len());
}

#[test]
fn lock_path_is_stable_for_one_canonical_directory() {
    assert_eq!(suite_lock_path("/state", "/home/a/suite"), suite_lock_path("/state", "/home/a/suite"));
}

#[test]
fn lock_path_differs_for_different_suites() {
    assert_ne!(suite_lock_path("/state", "/home/a/suite"), suite_lock_path("/state", "/home/b/suite"));
}

#[test]
fn lock_path_joins_the_state_directory() {
    let name = lock_file_name("/s");
    assert_eq!(suite_lock_path("/state", "/s"), format!("/state/{name}"));
    assert_eq!(suite_lock_path("/state/", "/s"), format!("/state/{name}"));
    assert_eq!(suite_lock_path("", "/s"), name);
}

#[test]
fn recorded_socket_trims_and_rejects_empty_content() {
    assert_eq!(recorded_socket("  /tmp/live.sock\n"), Some("/tmp/live.sock".to_string()));
    assert_eq!(recorded_socket(" \n"), None);
    assert_eq!(recorded_socket(""), None);
}

#[test]
fn acquire_refuses_only_a_live_recorded_socket() {
    assert_eq!(acquire_step(false, None, false), LockStep::Create);
    assert_eq!(acquire_step(true, Some("/tmp/live.sock"), true), LockStep::Refuse);
    assert_eq!(acquire_step(true, Some("/tmp/dead.sock"), false), LockStep::Reclaim);
    assert_eq!(acquire_step(true, None, false), LockStep::Reclaim);
}

#[test]
fn refusal_names_the_suite_and_the_socket() {
    assert_eq!(
        refusal_message("/s", "/tmp/live.sock"),
        "suite /s is already being reviewed by a live server (socket /tmp/live.sock)"
    );
}

#[test]
fn a_held_lock_reports_its_path() {
    assert_eq!(SuiteLock::held_at("/state/suite-00.lock").path(), "/state/suite-00.lock");
}
