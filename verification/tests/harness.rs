//! The kernel's test-harness pieces: the runner, the `Testable` trait,
//! and the emulator exit codes.

use rust_os_playground::test_runner;
use rust_os_playground::QemuExitCode;
use rust_os_playground::Testable;

struct TrivialAssertion;

impl Testable for TrivialAssertion {
    fn run(&self) {
        assert_eq!(1, 1);
    }
}

#[test]
fn trivial_assertion() {
    TrivialAssertion.run();
}

#[test]
fn runner_runs_every_test() {
    let tests = vec![TrivialAssertion, TrivialAssertion, TrivialAssertion];
    assert_eq!(test_runner(&tests), 3);
}

#[test]
fn runner_accepts_an_empty_list() {
    let tests: Vec<TrivialAssertion> = Vec::new();
    assert_eq!(test_runner(&tests), 0);
}

#[test]
fn exit_codes_match_the_debug_exit_device() {
    assert_eq!(QemuExitCode::Success.code(), 0x10);
    assert_eq!(QemuExitCode::Failure.code(), 0x11);
    assert_ne!(QemuExitCode::Success, QemuExitCode::Failure);
}
