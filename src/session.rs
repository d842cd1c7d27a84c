//! The per-connection session tracker: turns the lines a client sends into
//! raw start/stop reports.
use crate::config::Config;
use crate::debounce::LogMessage;
use crate::text::{split_at_separator, trim, trim_of, SEPARATOR};
use vstd::prelude::*;

verus! {

/// What one line asks for.
pub enum LineAction {
    /// A blank line: the client stopped.
    Stop,
    /// A line that reports nothing: an ignored or empty language.
    Skip,
    /// The client works on `language` in `project`.
    Start { language: String, project: String },
}

/// What one line asks for, over texts.
pub enum LineActionView {
    Stop,
    Skip,
    Start { language: Seq<char>, project: Seq<char> },
}

impl View for LineAction {
    type V = LineActionView;

    open spec fn view(&self) -> LineActionView {
        match self {
            LineAction::Stop => LineActionView::Stop,
            LineAction::Skip => LineActionView::Skip,
            LineAction::Start { language, project } => LineActionView::Start { language: language@, project: project@ },
        }
    }
}

/// The project of a line that names none.
pub open spec fn unknown_project() -> Seq<char> {
    seq!['u', 'n', 'k', 'n', 'o', 'w', 'n']
}

/// Whether `i` is the index of the first separator in `s`.
pub open spec fn first_separator(s: Seq<char>, i: int) -> bool {
    0 <= i < s.len() && s[i] == SEPARATOR && !s.subrange(0, i).contains(SEPARATOR)
}

/// Language and project of a trimmed, non-blank line: split at the first
/// separator, or the whole line with the unknown project.
pub open spec fn split_line(t: Seq<char>) -> (Seq<char>, Seq<char>) {
    if t.contains(SEPARATOR) {
        let i = choose|i: int| first_separator(t, i);
        (t.subrange(0, i), t.subrange(i + 1, t.len() as int))
    } else {
        (t, unknown_project())
    }
}

/// What a trimmed line `t` asks for, with `ignored` the ignored languages.
pub open spec fn trimmed_action(t: Seq<char>, ignored: Set<Seq<char>>) -> LineActionView {
    if t.len() == 0 {
        LineActionView::Stop
    } else {
        let (language, project) = split_line(t);
        if ignored.contains(language) || language.len() == 0 {
            LineActionView::Skip
        } else {
            LineActionView::Start { language, project }
        }
    }
}

/// What `line` asks for, with `ignored` the ignored languages.
pub open spec fn line_action(line: Seq<char>, ignored: Set<Seq<char>>) -> LineActionView {
    trimmed_action(trim_of(line), ignored)
}

/// A split at a first separator is the split that `split_line` names.
proof fn lemma_split_is_first(t: Seq<char>, a: Seq<char>, b: Seq<char>)
    requires
        t == a + seq![SEPARATOR] + b,
        !a.contains(SEPARATOR),
    ensures
        split_line(t) == (a, b),
{
    let k = a.len() as int;
    assert(t[k] == SEPARATOR);
    assert(t.subrange(0, k) =~= a);
    assert(first_separator(t, k));
    let i = choose|i: int| first_separator(t, i);
    if i < k {
        assert(t.subrange(0, k)[i] == SEPARATOR);
    } else if i > k {
        assert(t.subrange(0, i)[k] == SEPARATOR);
    }
    assert(t.subrange(k + 1, t.len() as int) =~= b);
}

/// Reads one line from a client.
pub fn parse_line(line: &str, config: &Config) -> (r: LineAction)
    ensures
        r@ == line_action(line@, config.ignored()),
{
    parse_trimmed(trim(line), config)
}

/// Reads one line from a client, already trimmed.
pub fn parse_trimmed(t: &str, config: &Config) -> (r: LineAction)
    ensures
        r@ == trimmed_action(t@, config.ignored()),
{
    if t.is_empty() {
        return LineAction::Stop;
    }
    let (language, project) = match split_at_separator(t) {
        Some((a, b)) => {
            proof {
                lemma_split_is_first(t@, a@, b@);
            }
            (a.to_owned(), b.to_owned())
        },
        None => {
            let unknown = String::from_str("unknown");
            proof {
                reveal_strlit("unknown");
                assert(unknown@ =~= unknown_project());
            }
            (t.to_owned(), unknown)
        },
    };
    if config.is_ignored(language.as_str()) || language.as_str().is_empty() {
        LineAction::Skip
    } else {
        LineAction::Start { language, project }
    }
}

/// State of one connection: the pair of the last start it reported while a
/// session is open.
pub struct Session {
    last: Option<(usize, usize)>,
}

impl Session {
    pub closed spec fn last(&self) -> Option<(usize, usize)> {
        self.last
    }

    /// A connection with no session open.
    pub fn new() -> (r: Self)
        ensures
            r.last() is None,
    {
        Session { last: None }
    }

    /// Whether the idle timeout applies: only while no session is open.
    pub fn idle_timeout_applies(&self) -> (r: bool)
        ensures
            r == self.last() is None,
    {
        self.last.is_none()
    }

    /// A start of the resolved pair: reported only when it differs from the
    /// pair last reported.
    pub fn start(&mut self, id: u128, time: i64, language: usize, project: usize) -> (r: Option<LogMessage>)
        ensures
            final(self).last() == Some((language, project)),
            old(self).last() == Some((language, project)) ==> r is None,
            old(self).last() != Some((language, project)) ==> r == Some(LogMessage::Start { id, time, language, project }),
    {
        let same = match self.last {
            Some((l, p)) => l == language && p == project,
            None => false,
        };
        self.last = Some((language, project));
        if same {
            None
        } else {
            Some(LogMessage::Start { id, time, language, project })
        }
    }

    /// A stop: a blank line, the idle timeout, or the end of the connection.
    pub fn stop(&mut self, id: u128, time: i64) -> (r: LogMessage)
        ensures
            final(self).last() is None,
            r == (LogMessage::End { id, time }),
    {
        self.last = None;
        LogMessage::End { id, time }
    }
}

} // verus!
