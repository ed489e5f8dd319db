# readpass

Reads a password from the terminal without echoing it.

- `src/` is the verified library:
  - `line.rs` turns the line that was read into the password: trailing
    carriage returns and line feeds are dropped, and so is everything up to
    the last Ctrl-U. Its contract is an exact specification over the
    characters of the line, with the laws it obeys proved beside it.
  - `terminal.rs` computes the terminal flags that hide what is typed, and
    turns the return value of a C terminal call into an `io::Result`.
- `app/` opens the terminal, switches echo off and back on, reads the line
  (blocking or with tokio) and wraps the password in `zeroize::Zeroizing`.
- `tests/` runs the library on concrete lines and flags.
