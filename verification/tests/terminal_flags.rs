use readpass::terminal::{hidden_lflag, io_result};

// The local-mode bits of Linux's termios.
const ISIG: u64 = 0o1;
const ICANON: u64 = 0o2;
const ECHO: u64 = 0o10;
const ECHOE: u64 = 0o20;
const ECHOK: u64 = 0o40;
const ECHONL: u64 = 0o100;

#[test]
fn hiding_turns_echo_off_and_newline_echo_on() {
    let lflag = ISIG | ICANON | ECHO | ECHOE | ECHOK;
    assert_eq!(hidden_lflag(lflag, ECHO, ECHONL), ISIG | ICANON | ECHOE | ECHOK | ECHONL);
}

#[test]
fn hiding_keeps_other_flags() {
    assert_eq!(hidden_lflag(0, ECHO, ECHONL), ECHONL);
    assert_eq!(hidden_lflag(ECHO | ECHONL, ECHO, ECHONL), ECHONL);
    assert_eq!(hidden_lflag(u64::MAX, ECHO, ECHONL), u64::MAX & !ECHO);
    assert_eq!(hidden_lflag(ICANON | ECHONL, ECHO, ECHONL), ICANON | ECHONL);
}

#[test]
fn hiding_twice_is_hiding_once() {
    for lflag in [0, ECHO, ICANON | ECHO | ECHOE, u64::MAX] {
        let once = hidden_lflag(lflag, ECHO, ECHONL);
        assert_eq!(hidden_lflag(once, ECHO, ECHONL), once);
    }
}

#[test]
fn zero_return_is_success() {
    assert!(io_result(0).is_ok());
}

#[test]
fn nonzero_return_is_an_error() {
    assert!(io_result(-1).is_err());
    assert!(io_result(1).is_err());
}
