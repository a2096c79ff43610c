//! Which log records are shown, and how each line begins.
use crate::text::{decimal, push_decimal, push_str};
use vstd::prelude::*;

verus! {

/// Severity of a log record, from the most to the least severe.
#[derive(Debug, Clone, Copy, PartialEq, Eq, Structural)]
pub enum Level {
    Error,
    Warn,
    Info,
    Debug,
    Trace,
}

/// The logger of both programs.
#[derive(Debug)]
pub struct MasterLogger;

/// Whether `s` starts with `prefix`.
pub open spec fn starts_with(s: Seq<char>, prefix: Seq<char>) -> bool {
    prefix.len() <= s.len() && s.take(prefix.len() as int) == prefix
}

/// The colour escape of a level.
pub open spec fn level_color(level: Level) -> Seq<char> {
    match level {
        Level::Trace => "\x1b[36m"@,
        Level::Debug => "\x1b[35m"@,
        Level::Info => "\x1b[32m"@,
        Level::Warn => "\x1b[33m"@,
        Level::Error => "\x1b[31m"@,
    }
}

/// The letter of a level.
pub open spec fn level_letter(level: Level) -> Seq<char> {
    match level {
        Level::Trace => "T"@,
        Level::Debug => "D"@,
        Level::Info => "I"@,
        Level::Warn => "W"@,
        Level::Error => "E"@,
    }
}

/// The start of a log line: the time in the level's colour when it is shown, the level's letter,
/// the target and the line number.
pub open spec fn line_head_text(level: Level, time: Option<u64>, target: Seq<char>, line: u32) -> Seq<
    char,
> {
    let c = level_color(level);
    (match time {
        Some(t) => "{"@ + c + decimal(t as nat) + "\x1b[0m}"@,
        None => Seq::empty(),
    }) + "["@ + c + level_letter(level) + "\x1b[0m]{"@ + c + target + "\x1b[32m:\x1b[93m"@ + decimal(
        line as nat,
    ) + "\x1b[0m}: "@
}

fn prefix_of(s: &str, prefix: &str) -> (r: bool)
    ensures
        r == starts_with(s@, prefix@),
{
    let n = prefix.unicode_len();
    if n > s.unicode_len() {
        return false;
    }
    for i in 0..n
        invariant
            n == prefix@.len() <= s@.len(),
            forall|j: int| 0 <= j < i ==> s@[j] == prefix@[j],
    {
        if s.get_char(i) != prefix.get_char(i) {
            return false;
        }
    }
    assert(s@.take(n as int) =~= prefix@);
    true
}

impl MasterLogger {
    /// Records of the HTTP and TLS libraries and trace records are not shown.
    pub fn enabled(&self, target: &str, level: Level) -> (r: bool)
        ensures
            r == (!starts_with(target@, "hyper_util"@) && !starts_with(target@, "rustls"@) && level
                != Level::Trace),
    {
        if prefix_of(target, "hyper_util") || prefix_of(target, "rustls") {
            return false;
        }
        if level == Level::Trace {
            return false;
        }
        true
    }

    /// The colour escape and the letter of a level.
    pub fn style(level: Level) -> (r: (&'static str, &'static str))
        ensures
            r.0@ == level_color(level),
            r.1@ == level_letter(level),
    {
        match level {
            Level::Trace => ("\x1b[36m", "T"),
            Level::Debug => ("\x1b[35m", "D"),
            Level::Info => ("\x1b[32m", "I"),
            Level::Warn => ("\x1b[33m", "W"),
            Level::Error => ("\x1b[31m", "E"),
        }
    }

    /// The start of a log line, before the message.
    pub fn line_head(&self, level: Level, time: Option<u64>, target: &str, line: u32) -> (r:
        String)
        ensures
            r@ == line_head_text(level, time, target@, line),
    {
        let (c, n) = MasterLogger::style(level);
        let mut s = String::new();
        match time {
            Some(t) => {
                push_str(&mut s, "{");
                push_str(&mut s, c);
                push_decimal(&mut s, t);
                push_str(&mut s, "\x1b[0m}");
            },
            None => {},
        }
        push_str(&mut s, "[");
        push_str(&mut s, c);
        push_str(&mut s, n);
        push_str(&mut s, "\x1b[0m]{");
        push_str(&mut s, c);
        push_str(&mut s, target);
        push_str(&mut s, "\x1b[32m:\x1b[93m");
        push_decimal(&mut s, line as u64);
        push_str(&mut s, "\x1b[0m}: ");
        assert(s@ =~= line_head_text(level, time, target@, line));
        s
    }
}

/// Seconds since the Unix epoch, for log lines.
pub fn now() -> u64 {
    crate::sys_now()
}

} // verus!
