use std::io::{self, BufRead, Cursor};

use readpass::line::{password_from_line, CTRL_U};
use zeroize::Zeroizing;

/// Reads the first line of `reader` and turns it into the password, the way
/// the library's callers do.
fn from_bufread(reader: &mut impl BufRead) -> io::Result<Zeroizing<String>> {
    let mut line = Zeroizing::new(String::new());
    reader.read_line(&mut line)?;
    Ok(Zeroizing::new(password_from_line(&line)))
}

fn mock_input_crlf() -> Cursor<&'static [u8]> {
    Cursor::new(&b"A mocked response.\r\nAnother mocked response.\r\n"[..])
}

fn mock_input_lf() -> Cursor<&'static [u8]> {
    Cursor::new(&b"A mocked response.\nAnother mocked response.\n"[..])
}

#[test]
fn can_read_from_redirected_input_many_times() {
    let mut reader_crlf = mock_input_crlf();

    let response = from_bufread(&mut reader_crlf).unwrap();
    assert_eq!(*response, "A mocked response.");
    let response = from_bufread(&mut reader_crlf).unwrap();
    assert_eq!(*response, "Another mocked response.");

    let mut reader_lf = mock_input_lf();
    let response = from_bufread(&mut reader_lf).unwrap();
    assert_eq!(*response, "A mocked response.");
    let response = from_bufread(&mut reader_lf).unwrap();
    assert_eq!(*response, "Another mocked response.");
}

#[test]
fn lib_can_read_from_input_ctrl_u() {
    let s = format!("A mocked response.{}Another mocked response.\n", CTRL_U);
    let mut reader_ctrl_u = Cursor::new(s.as_bytes());
    let response = from_bufread(&mut reader_ctrl_u).unwrap();
    assert_eq!(*response, "Another mocked response.");

    let s = format!("A mocked response.{}\n", CTRL_U);
    let mut reader_ctrl_u_at_end = Cursor::new(s.as_bytes());
    let response = from_bufread(&mut reader_ctrl_u_at_end).unwrap();
    assert_eq!(*response, "");
}

#[test]
fn ctrl_u_is_the_kill_character() {
    assert_eq!(CTRL_U as u32, 21);
}

#[test]
fn trims_every_trailing_line_break() {
    assert_eq!(password_from_line("secret\r\n"), "secret");
    assert_eq!(password_from_line("secret\n\r\n\r"), "secret");
    assert_eq!(password_from_line("secret"), "secret");
    assert_eq!(password_from_line("\r\n"), "");
    assert_eq!(password_from_line(""), "");
}

#[test]
fn keeps_line_breaks_inside_the_password() {
    assert_eq!(password_from_line("se\rcr\net\n"), "se\rcr\net");
    assert_eq!(password_from_line("\rsecret\n"), "\rsecret");
}

#[test]
fn keeps_what_follows_the_last_ctrl_u() {
    assert_eq!(password_from_line("a\u{15}b\u{15}c\n"), "c");
    assert_eq!(password_from_line("\u{15}secret\r\n"), "secret");
    assert_eq!(password_from_line("wrong\u{15}\u{15}\n"), "");
    assert_eq!(password_from_line("\u{15}"), "");
    assert_eq!(password_from_line("old\u{15}new\r\n\n"), "new");
}

#[test]
fn keeps_characters_outside_ascii() {
    assert_eq!(password_from_line("pässwörd✓\n"), "pässwörd✓");
    assert_eq!(password_from_line("日本\u{15}語🔑\r\n"), "語🔑");
    assert_eq!(password_from_line("naïve\u{15}"), "");
}

#[test]
fn typed_password_comes_back_unchanged() {
    for password in ["", "hunter2", "with space", "tab\there", "ünïcödé"] {
        for ending in ["", "\n", "\r\n", "\r", "\n\n\r"] {
            let line = format!("{}{}", password, ending);
            assert_eq!(password_from_line(&line), password);
        }
    }
}

#[test]
fn taking_the_password_twice_changes_nothing() {
    for line in ["a\u{15}b\r\n", "plain\n", "\u{15}\n", "x\ry\n\r", ""] {
        let once = password_from_line(line);
        assert_eq!(password_from_line(&once), once);
    }
}

#[test]
fn password_has_no_ctrl_u_nor_trailing_break() {
    for line in ["a\u{15}b\n\u{15}c\r\n", "\u{15}\r\u{15}\n", "abc\n\n"] {
        let p = password_from_line(line);
        assert!(!p.contains(CTRL_U));
        assert!(!p.ends_with('\n') && !p.ends_with('\r'));
    }
}
