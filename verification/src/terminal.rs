use vstd::prelude::*;

verus! {

/// `std::io::Error`, the error that reading from or configuring a terminal reports.
#[verifier::external_type_specification]
#[verifier::external_body]
pub struct ExIoError(std::io::Error);

/// `std::io::Error::last_os_error`: the error that the operating system
/// recorded for the last failed call. What it holds depends on the
/// process's state (errno), so nothing is stated of it.
#[verifier::external_body]
fn last_os_error() -> std::io::Error {
    std::io::Error::last_os_error()
}

/// Turns the return value of a C terminal call into a result: success
/// exactly when the call returned 0, otherwise the operating system's error.
pub fn io_result(ret: i32) -> (result: std::io::Result<()>)
    ensures
        result is Ok <==> ret == 0,
{
    match ret {
        0 => Ok(()),
        _ => Err(last_os_error()),
    }
}

/// The local-mode flags that hide a password as it is typed: the `echo`
/// bits cleared, the `echonl` bits set, every other bit as it was.
pub open spec fn hidden_flags(lflag: u64, echo: u64, echonl: u64) -> u64 {
    (lflag & !echo) | echonl
}

/// Computes the terminal's local-mode flags while a password is read: typed
/// characters are not echoed, but the newline that ends the line still is.
pub fn hidden_lflag(lflag: u64, echo: u64, echonl: u64) -> (hidden: u64)
    ensures
        hidden == hidden_flags(lflag, echo, echonl),
        echo & echonl == 0 ==> hidden & echo == 0,
        hidden & echonl == echonl,
        hidden & !(echo | echonl) == lflag & !(echo | echonl),
{
    let hidden = (lflag & !echo) | echonl;
    assert(echo & echonl == 0 ==> hidden & echo == 0) by (bit_vector)
        requires
            hidden == (lflag & !echo) | echonl,
    ;
    assert(hidden & echonl == echonl) by (bit_vector)
        requires
            hidden == (lflag & !echo) | echonl,
    ;
    assert(hidden & !(echo | echonl) == lflag & !(echo | echonl)) by (bit_vector)
        requires
            hidden == (lflag & !echo) | echonl,
    ;
    hidden
}

/// Hiding the input of a terminal whose input is already hidden changes nothing.
pub proof fn lemma_hidden_flags_idempotent(lflag: u64, echo: u64, echonl: u64)
    ensures
        hidden_flags(hidden_flags(lflag, echo, echonl), echo, echonl) == hidden_flags(
            lflag,
            echo,
            echonl,
        ),
{
    assert((((lflag & !echo) | echonl) & !echo) | echonl == (lflag & !echo) | echonl)
        by (bit_vector);
}

} // verus!
