//! The log and the command line below it.
use vstd::prelude::*;
use crate::lines::append;
use crate::text::{
    after_prefix, decimal, decimal_of, from_chars, string_views, strip_prefix, to_chars, trim,
    trimmed,
};
use crate::ui::color::Ink;

verus! {

/// The most lines that the log keeps.
pub const LOG_LINES: usize = 1000;

/// The command line.
#[derive(Clone, Debug)]
pub struct ConsoleState {
    pub input: String,
}

impl ConsoleState {
    /// The state at first.
    pub open spec fn fresh(self) -> bool {
        &&& self.input@.len() == 0
    }
}

impl Default for ConsoleState {
    fn default() -> (s: ConsoleState)
        ensures
            s.fresh(),
    {
        ConsoleState { input: String::new() }
    }
}

impl ConsoleState {
    /// Takes the line that was entered, without white space around it. A blank one stays.
    pub fn submit(&mut self) -> (line: Option<String>)
        ensures
            match line {
                Some(l) => l@ == trimmed(old(self).input@) && l@.len() > 0
                    && final(self).input@.len() == 0,
                None => trimmed(old(self).input@).len() == 0 && *final(self) == *old(self),
            },
    {
        let chars = to_chars(self.input.as_str());
        let text = trim(chars.as_slice());
        if text.len() == 0 {
            return None;
        }
        let line = from_chars(text);
        self.input = String::new();
        Some(line)
    }
}

/// What the log holds.
#[verifier::ext_equal]
pub struct Log {
    pub lines: Seq<Seq<char>>,
    /// The line that came last, and how often in a row.
    pub last: Seq<char>,
    pub repeats: usize,
}

/// The last `n` of a list.
pub open spec fn last_lines(lines: Seq<Seq<char>>, n: int) -> Seq<Seq<char>> {
    if lines.len() > n {
        lines.skip(lines.len() - n)
    } else {
        lines
    }
}

impl Log {
    /// One line more: a repetition is counted behind the line, and the oldest lines go when there
    /// are too many.
    pub open spec fn with(self, line: Seq<char>) -> Log {
        if line == self.last && self.lines.len() > 0 {
            let n = if self.repeats == usize::MAX {
                usize::MAX
            } else {
                (self.repeats + 1) as usize
            };
            Log {
                lines: self.lines.drop_last().push(line + " (x"@ + decimal_of(n as nat) + ")"@),
                repeats: n,
                ..self
            }
        } else {
            Log { lines: last_lines(self.lines.push(line), LOG_LINES as int), last: line, repeats: 1 }
        }
    }
}

/// The latest lines.
#[derive(Debug)]
pub struct LogBuffer {
    lines: Vec<String>,
    last_line: String,
    last_rep: usize,
}

impl LogBuffer {
    pub closed spec fn log(&self) -> Log {
        Log {
            lines: string_views(self.lines@),
            last: self.last_line@,
            repeats: self.last_rep,
        }
    }

    /// There are no more lines than the log keeps.
    pub closed spec fn wf(&self) -> bool {
        self.lines@.len() <= LOG_LINES
    }

    pub fn new() -> (b: LogBuffer)
        ensures
            b.wf(),
            b.log() == (Log { lines: Seq::empty(), last: Seq::empty(), repeats: 0 }),
    {
        let b = LogBuffer { lines: Vec::new(), last_line: String::new(), last_rep: 0 };
        assert(b.log().lines == Seq::<Seq<char>>::empty());
        assert(b.log().last == Seq::<char>::empty());
        b
    }

    pub fn add(&mut self, line: String)
        requires
            old(self).wf(),
        ensures
            final(self).wf(),
            final(self).log() == old(self).log().with(line@),
            final(self).log().lines.len() <= LOG_LINES,
    {
        let ghost before = self.log();
        let n: usize = self.lines.len();
        if line == self.last_line && n > 0 {
            self.last_rep =
            if self.last_rep == usize::MAX {
                usize::MAX
            } else {
                self.last_rep + 1
            };
            let mut text = to_chars(line.as_str());
            append(&mut text, to_chars(" (x").as_slice());
            append(&mut text, to_chars(decimal(self.last_rep as u64).as_str()).as_slice());
            append(&mut text, to_chars(")").as_slice());
            self.lines.set(n - 1, from_chars(text.as_slice()));
            assert(self.log().lines == before.lines.drop_last().push(text@));
            return;
        }
        self.last_line = line.clone();
        self.last_rep = 1;
        self.lines.push(line);
        assert(string_views(self.lines@) == before.lines.push(line@));
        if self.lines.len() > LOG_LINES {
            let oldest = self.lines.remove(0);
            assert(string_views(self.lines@) == before.lines.push(line@).skip(1));
        }
    }

    pub fn lines(&self) -> (lines: &[String])
        ensures
            string_views(lines@) == self.log().lines,
    {
        self.lines.as_slice()
    }
}

/// The colour of a line of the log: commands, confirmations, errors and the rest.
pub open spec fn spec_line_color(line: Seq<char>) -> Ink {
    if after_prefix(line, "> "@) is Some {
        Ink::White
    } else if after_prefix(line, "ok"@) is Some {
        Ink::Green
    } else if after_prefix(line, "error"@) is Some || after_prefix(line, "ALARM"@) is Some {
        Ink::Red
    } else {
        Ink::Dim
    }
}

pub fn line_color(line: &str) -> (ink: Ink)
    ensures
        ink == spec_line_color(line@),
{
    let chars = to_chars(line);
    let s = chars.as_slice();
    if strip_prefix(s, "> ").is_some() {
        Ink::White
    } else if strip_prefix(s, "ok").is_some() {
        Ink::Green
    } else if strip_prefix(s, "error").is_some() || strip_prefix(s, "ALARM").is_some() {
        Ink::Red
    } else {
        Ink::Dim
    }
}

/// A line that comes twice takes no more room than once, and the others stay.
pub proof fn lemma_repeat_takes_no_room(log: Log, line: Seq<char>)
    requires
        log.lines.len() <= LOG_LINES,
    ensures
        log.with(line).with(line).lines.len() == log.with(line).lines.len(),
        log.with(line).with(line).lines.drop_last() == log.with(line).lines.drop_last(),
{
    let once = log.with(line);
    assert(once.lines.len() > 0);
    assert(once.last == line);
}

/// What is not a repetition becomes the last line, and the lines before it stay, but for the
/// oldest where there is no room.
pub proof fn lemma_log_keeps_latest(log: Log, line: Seq<char>)
    requires
        log.lines.len() <= LOG_LINES,
        line != log.last,
    ensures
        log.with(line).lines.last() == line,
        log.with(line).lines.drop_last() == last_lines(log.lines, LOG_LINES - 1),
{
    assert(log.with(line).lines.drop_last() =~= last_lines(log.lines, LOG_LINES - 1));
}

} // verus!
