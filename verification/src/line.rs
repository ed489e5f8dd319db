use vstd::prelude::*;

verus! {

/// The "kill line" character: a terminal that receives it discards
/// everything typed on the line before it.
pub const CTRL_U: char = '\u{15}';

/// A carriage return or a line feed.
pub open spec fn is_line_break(c: char) -> bool {
    c == '\r' || c == '\n'
}

/// The text without its trailing run of carriage returns and line feeds.
pub open spec fn trim_line_breaks(s: Seq<char>) -> Seq<char>
    decreases s.len(),
{
    if s.len() > 0 && is_line_break(s.last()) {
        trim_line_breaks(s.drop_last())
    } else {
        s
    }
}

/// What follows the last Ctrl-U of the text, or the whole text when it holds none.
pub open spec fn after_last_ctrl_u(s: Seq<char>) -> Seq<char> {
    match s.index_of_last(CTRL_U) {
        Some(i) => s.subrange(i + 1, s.len() as int),
        None => s,
    }
}

/// The password that a line of input stands for: the line without its
/// trailing line breaks, and without anything up to its last Ctrl-U.
pub open spec fn password_of_line(line: Seq<char>) -> Seq<char> {
    after_last_ctrl_u(trim_line_breaks(line))
}

/// The trailing run of line breaks is exactly what follows position `k`
/// when every character from `k` on is a line break and the one before is not.
pub proof fn lemma_trim_at(s: Seq<char>, k: int)
    requires
        0 <= k <= s.len(),
        forall|j: int| k <= j < s.len() ==> is_line_break(#[trigger] s[j]),
        k > 0 ==> !is_line_break(s[k - 1]),
    ensures
        trim_line_breaks(s) == s.take(k),
    decreases s.len(),
{
    if s.len() > k {
        assert(is_line_break(s[s.len() - 1]));
        lemma_trim_at(s.drop_last(), k);
        assert(s.drop_last().take(k) =~= s.take(k));
    } else {
        assert(s.take(k) =~= s);
    }
}

/// Trimming keeps a prefix of the text, which is empty or ends in something
/// other than a line break, and drops only line breaks.
pub proof fn lemma_trim_prefix(s: Seq<char>)
    ensures
        trim_line_breaks(s).len() <= s.len(),
        trim_line_breaks(s) == s.take(trim_line_breaks(s).len() as int),
        trim_line_breaks(s).len() > 0 ==> !is_line_break(trim_line_breaks(s).last()),
        forall|j: int|
            trim_line_breaks(s).len() <= j < s.len() ==> is_line_break(#[trigger] s[j]),
    decreases s.len(),
{
    if s.len() > 0 && is_line_break(s.last()) {
        lemma_trim_prefix(s.drop_last());
        let k = trim_line_breaks(s).len() as int;
        assert(s.drop_last().take(k) =~= s.take(k));
        assert forall|j: int| k <= j < s.len() implies is_line_break(#[trigger] s[j]) by {
            if j < s.len() - 1 {
                assert(s[j] == s.drop_last()[j]);
            }
        }
    } else {
        assert(s.take(s.len() as int) =~= s);
    }
}

/// What follows the last Ctrl-U is a suffix of the text that holds no Ctrl-U.
pub proof fn lemma_after_last_ctrl_u_suffix(s: Seq<char>)
    ensures
        after_last_ctrl_u(s).len() <= s.len(),
        after_last_ctrl_u(s) == s.subrange(
            s.len() - after_last_ctrl_u(s).len(),
            s.len() as int,
        ),
        !after_last_ctrl_u(s).contains(CTRL_U),
{
    s.index_of_last_ensures(CTRL_U);
    match s.index_of_last(CTRL_U) {
        Some(i) => {
            let r = s.subrange(i + 1, s.len() as int);
            assert forall|j: int| 0 <= j < r.len() implies r[j] != CTRL_U by {
                assert(r[j] == s[i + 1 + j]);
            }
        },
        None => {
            assert(s.subrange(0, s.len() as int) =~= s);
        },
    }
}

/// The password holds no Ctrl-U, and is empty or ends in something other
/// than a line break.
pub proof fn lemma_password_shape(line: Seq<char>)
    ensures
        !password_of_line(line).contains(CTRL_U),
        password_of_line(line).len() > 0 ==> !is_line_break(password_of_line(line).last()),
{
    let t = trim_line_breaks(line);
    lemma_trim_prefix(line);
    lemma_after_last_ctrl_u_suffix(t);
    let p = password_of_line(line);
    if p.len() > 0 {
        assert(p.last() == t.last());
    }
}

/// A password that holds no Ctrl-U and does not end in a line break comes
/// back unchanged from the line that it was typed on, whatever line breaks
/// end that line.
pub proof fn lemma_typed_password_round_trip(password: Seq<char>, ending: Seq<char>)
    requires
        !password.contains(CTRL_U),
        password.len() > 0 ==> !is_line_break(password.last()),
        forall|j: int| 0 <= j < ending.len() ==> is_line_break(#[trigger] ending[j]),
    ensures
        password_of_line(password + ending) == password,
{
    let line = password + ending;
    assert forall|j: int| password.len() <= j < line.len() implies is_line_break(
        #[trigger] line[j],
    ) by {
        assert(line[j] == ending[j - password.len()]);
    }
    lemma_trim_at(line, password.len() as int);
    assert(line.take(password.len() as int) =~= password);
    assert forall|j: int| 0 <= j < password.len() implies #[trigger] password[j] != CTRL_U by {
        if password[j] == CTRL_U {
            assert(password.contains(CTRL_U));
        }
    }
    lemma_no_ctrl_u(password);
}

/// Taking the password of a password changes nothing.
pub proof fn lemma_password_idempotent(line: Seq<char>)
    ensures
        password_of_line(password_of_line(line)) == password_of_line(line),
{
    lemma_password_shape(line);
    lemma_typed_password_round_trip(password_of_line(line), Seq::empty());
    assert(password_of_line(line) + Seq::<char>::empty() =~= password_of_line(line));
}

/// Only carriage returns and line feeds are trimmed: a password typed with
/// any other last character (a space, a tab, ...) and no Ctrl-U comes back
/// exactly as typed, whatever run of `\r` and `\n` ends its line.
pub proof fn lemma_only_cr_and_lf_are_trimmed(password: Seq<char>, ending: Seq<char>)
    requires
        forall|j: int| 0 <= j < password.len() ==> #[trigger] password[j] != '\u{15}',
        password.len() > 0 ==> password.last() != '\r' && password.last() != '\n',
        forall|j: int| 0 <= j < ending.len() ==> #[trigger] ending[j] == '\r' || ending[j] == '\n',
    ensures
        password_of_line(password + ending) == password,
        password_of_line(password + seq!['\n']) == password,
        password_of_line(password + seq!['\r', '\n']) == password,
{
    assert forall|j: int| 0 <= j < ending.len() implies is_line_break(#[trigger] ending[j]) by {}
    if password.contains(CTRL_U) {
        let k = choose|k: int| 0 <= k < password.len() && password[k] == CTRL_U;
        assert(password[k] != CTRL_U);
    }
    lemma_typed_password_round_trip(password, ending);
    let lf = seq!['\n'];
    assert forall|j: int| 0 <= j < lf.len() implies is_line_break(#[trigger] lf[j]) by {}
    lemma_typed_password_round_trip(password, lf);
    let crlf = seq!['\r', '\n'];
    assert forall|j: int| 0 <= j < crlf.len() implies is_line_break(#[trigger] crlf[j]) by {}
    lemma_typed_password_round_trip(password, crlf);
}

/// A Ctrl-U discards everything typed before it: whatever precedes it has no
/// effect on the password, which is the password of what follows it.
pub proof fn lemma_ctrl_u_discards_what_precedes(before: Seq<char>, after: Seq<char>)
    ensures
        password_of_line(before + seq!['\u{15}'] + after) == password_of_line(after),
{
    let line = before + seq!['\u{15}'] + after;
    let b: int = before.len() + 1int;
    lemma_trim_prefix(after);
    let k = trim_line_breaks(after).len() as int;
    let ta = after.take(k);
    assert(line.len() == b + after.len());
    assert forall|j: int| b + k <= j < line.len() implies is_line_break(#[trigger] line[j]) by {
        assert(line[j] == after[j - b]);
    }
    if k > 0 {
        assert(line[b + k - 1] == after[k - 1]);
        assert(after[k - 1] == trim_line_breaks(after).last());
    } else {
        assert(line[b - 1] == CTRL_U);
    }
    lemma_trim_at(line, b + k);
    let t = line.take(b + k);
    assert(t =~= before + seq![CTRL_U] + ta);
    ta.index_of_last_ensures(CTRL_U);
    match ta.index_of_last(CTRL_U) {
        Some(i) => {
            assert(t[b + i] == ta[i]);
            assert forall|j: int| b + i < j < t.len() implies #[trigger] t[j] != CTRL_U by {
                assert(t[j] == ta[j - b]);
            }
            lemma_last_ctrl_u_at(t, b + i);
            assert(t.subrange(b + i + 1, t.len() as int) =~= ta.subrange(i + 1, ta.len() as int));
        },
        None => {
            assert forall|j: int| b - 1 < j < t.len() implies #[trigger] t[j] != CTRL_U by {
                assert(t[j] == ta[j - b]);
                if ta[j - b] == CTRL_U {
                    assert(ta.contains(CTRL_U));
                }
            }
            lemma_last_ctrl_u_at(t, b - 1);
            assert(t.subrange(b, t.len() as int) =~= ta);
        },
    }
}

/// The last Ctrl-U of the text stands at `i` when `i` holds one and nothing after it does.
pub proof fn lemma_last_ctrl_u_at(s: Seq<char>, i: int)
    requires
        0 <= i < s.len(),
        s[i] == CTRL_U,
        forall|j: int| i < j < s.len() ==> #[trigger] s[j] != CTRL_U,
    ensures
        s.index_of_last(CTRL_U) == Some(i),
{
    s.index_of_last_ensures(CTRL_U);
    let k = s.index_of_last(CTRL_U).unwrap();
    assert(s[i] == CTRL_U);
}

/// A text without Ctrl-U has no last Ctrl-U.
pub proof fn lemma_no_ctrl_u(s: Seq<char>)
    requires
        forall|j: int| 0 <= j < s.len() ==> #[trigger] s[j] != CTRL_U,
    ensures
        s.index_of_last(CTRL_U) == None::<int>,
{
    s.index_of_last_ensures(CTRL_U);
}

/// Turns the line that was read into the password it stands for: drops the
/// trailing carriage returns and line feeds, then everything up to and
/// including the last Ctrl-U.
pub fn password_from_line(line: &str) -> (password: String)
    ensures
        password@ == password_of_line(line@),
        !password@.contains(CTRL_U),
        password@.len() > 0 ==> !is_line_break(password@.last()),
{
    let ghost s = line@;
    let n = line.unicode_len();
    // `end`: the length of what was read so far, without its trailing line breaks.
    // `start`: the position just after the last Ctrl-U read so far, or 0.
    let mut end: usize = 0;
    let mut start: usize = 0;
    let mut count: usize = 0;
    for c in it: line.chars()
        invariant
            n as int == s.len(),
            it.seq() == s,
            count as int == it.index(),
            start <= end <= count <= n,
            forall|j: int| end <= j < count ==> is_line_break(#[trigger] s[j]),
            end > 0 ==> !is_line_break(s[end - 1]),
            start == 0 ==> forall|j: int| 0 <= j < count ==> #[trigger] s[j] != CTRL_U,
            start > 0 ==> s[start - 1] == CTRL_U,
            forall|j: int| start <= j < count ==> #[trigger] s[j] != CTRL_U,
    {
        assert(c == s[count as int]);
        if c == CTRL_U {
            start = count + 1;
        }
        if c != '\r' && c != '\n' {
            end = count + 1;
        }
        count = count + 1;
    }
    proof {
        lemma_trim_at(s, end as int);
        let t = s.take(end as int);
        if start > 0 {
            lemma_last_ctrl_u_at(t, start - 1);
        } else {
            lemma_no_ctrl_u(t);
        }
        lemma_password_shape(s);
    }
    line.substring_char(start, end).to_owned()
}

} // verus!
