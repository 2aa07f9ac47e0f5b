use construct_core::store::bedrock::{is_transient_lock, key_to_remove, next_wait, retry_with, RETRY_DELAYS_MS};

/// The message the Windows runner produced, verbatim: trailing CRLF and all.
const SHARING_VIOLATION: &str = "IO error: C:\\Users\\RUNNER~1\\AppData\\Local\\Temp\\.tmpdyGXl4\\test_level\\db/000007.dbtmp: The process cannot access the file because it is being used by another process.\r\n";

/// Runs `retry_with` over a canned sequence of outcomes, reporting how many
/// attempts it made and how long it asked to wait between them.
fn run(outcomes: &[&'static str]) -> (Result<(), String>, usize, Vec<u64>) {
    let mut attempts = 0;
    let mut waits = Vec::new();
    let outcome = retry_with(
        || {
            let message = outcomes.get(attempts).copied();
            attempts += 1;
            match message {
                Some("") | None => Ok(()),
                Some(m) => Err(m.to_string()),
            }
        },
        &mut |ms| waits.push(ms),
    );
    (outcome, attempts, waits)
}

#[test]
fn a_sharing_violation_is_retried_until_the_open_succeeds() {
    let (outcome, attempts, waits) = run(&[SHARING_VIOLATION, SHARING_VIOLATION, ""]);
    assert!(outcome.is_ok(), "{outcome:?}");
    assert_eq!(attempts, 3);
    assert_eq!(waits, vec![10, 20]);
}

#[test]
fn a_sharing_violation_that_never_clears_gives_up_and_reports_it() {
    let (outcome, attempts, waits) = run(&[SHARING_VIOLATION; 20]);
    assert_eq!(outcome.unwrap_err(), SHARING_VIOLATION);
    assert_eq!(attempts, RETRY_DELAYS_MS.len() + 1);
    assert_eq!(waits, RETRY_DELAYS_MS.to_vec());
}

#[test]
fn an_ordinary_failure_is_not_retried() {
    let (outcome, attempts, waits) = run(&["IO error: db/CURRENT: No such file or directory"]);
    assert!(outcome.is_err());
    assert_eq!(attempts, 1);
    assert!(waits.is_empty());
}

#[test]
fn the_lock_refusal_is_not_retried() {
    let (outcome, attempts, _) = run(&["IO error: This LevelDB database is already in use"]);
    assert!(outcome.is_err());
    assert_eq!(attempts, 1);
}

#[test]
fn an_access_denied_is_transient_and_waits_by_attempt() {
    assert!(is_transient_lock("IO error: db/CURRENT: Access is denied.\r\n"));
    assert!(!is_transient_lock("IO error: This LevelDB database is already in use"));
    assert_eq!(next_wait(0, SHARING_VIOLATION), Some(10));
    assert_eq!(next_wait(4, SHARING_VIOLATION), Some(160));
    assert_eq!(next_wait(5, SHARING_VIOLATION), None);
    assert_eq!(next_wait(0, "IO error: corrupted"), None);
}

#[test]
fn the_first_candidate_found_is_the_one_removed() {
    assert_eq!(key_to_remove(&vec![false, true, true]), Some(1));
    assert_eq!(key_to_remove(&vec![true, true]), Some(0));
    assert_eq!(key_to_remove(&vec![false, false]), None);
    assert_eq!(key_to_remove(&vec![]), None);
}
