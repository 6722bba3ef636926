use vstd::prelude::*;
use vstd::string::*;

verus! {

/// The words that `escape_string::split` makes of `s`: split at unescaped
/// ASCII whitespace, backslash escapes resolved; `None` where it fails.
pub uninterp spec fn shell_words(s: Seq<char>) -> Option<Seq<Seq<char>>>;

/// Relies on `escape_string::split`: the words of `s`, or `None` where a
/// backslash ends the text; a text without backslashes always splits.
#[verifier::external_body]
fn split_words(s: &str) -> (r: Option<Vec<String>>)
    ensures
        !s@.contains('\\') ==> r is Some,
        match r {
            Some(v) => shell_words(s@) == Some(v@.map_values(|w: String| w@)),
            None => shell_words(s@) is None,
        },
{
    escape_string::split(s).map(|ws| ws.into_iter().map(|w| w.into_owned()).collect())
}

/// The text of `s` before its first line break.
pub open spec fn first_line(s: Seq<char>) -> Seq<char>
    decreases s.len(),
{
    if s.len() == 0 {
        s
    } else if s[0] == '\n' {
        Seq::empty()
    } else {
        seq![s[0]] + first_line(s.drop_first())
    }
}

/// The command line a request stands for: its first line, behind the
/// program's name.
pub open spec fn request_command(request: Seq<char>) -> Seq<char> {
    "censor "@ + first_line(request)
}

fn first_line_end(s: &str) -> (r: usize)
    ensures
        r <= s@.len(),
        s@.subrange(0, r as int) == first_line(s@),
{
    let len: usize = s.unicode_len();
    let mut i: usize = 0;
    while i < len
        invariant
            len == s@.len(),
            i <= len,
            forall|k: int| 0 <= k < i ==> s@[k] != '\n',
        decreases len - i,
    {
        if s.get_char(i) == '\n' {
            proof {
                lemma_first_line_prefix(s@, i as int);
            }
            return i;
        }
        i += 1;
    }
    proof {
        lemma_first_line_prefix(s@, len as int);
    }
    len
}

proof fn lemma_first_line_prefix(s: Seq<char>, i: int)
    requires
        0 <= i <= s.len(),
        forall|k: int| 0 <= k < i ==> s[k] != '\n',
        i == s.len() || s[i] == '\n',
    ensures
        s.subrange(0, i) == first_line(s),
    decreases s.len(),
{
    if s.len() > 0 {
        if i == 0 {
            assert(s.subrange(0, 0) =~= Seq::<char>::empty());
        } else {
            let t = s.drop_first();
            assert forall|k: int| 0 <= k < i - 1 implies t[k] != '\n' by {
                assert(t[k] == s[k + 1]);
            }
            lemma_first_line_prefix(t, i - 1);
            assert(s.subrange(0, i) =~= seq![s[0]] + t.subrange(0, i - 1));
        }
    } else {
        assert(s.subrange(0, i) =~= s);
    }
}

/// The words of a daemon request: its first line, behind the program's
/// name, split as `escape_string` splits; `None` where that fails.
pub fn command_words(request: &str) -> (r: Option<Vec<String>>)
    ensures
        !first_line(request@).contains('\\') ==> r is Some,
        match r {
            Some(v) => shell_words(request_command(request@)) == Some(v@.map_values(|w: String| w@)),
            None => shell_words(request_command(request@)) is None,
        },
{
    let end = first_line_end(request);
    let line = request.substring_char(0, end);
    let command = String::from_str("censor ").concat(line);
    proof {
        assert(command@ == request_command(request@));
        if !first_line(request@).contains('\\') {
            reveal_strlit("censor ");
            if command@.contains('\\') {
                let k = choose|k: int| 0 <= k < command@.len() && command@[k] == '\\';
                if k >= 7 {
                    assert(first_line(request@)[k - 7] == '\\');
                }
            }
        }
    }
    split_words(command.as_str())
}

} // verus!
