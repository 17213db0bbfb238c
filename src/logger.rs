use vstd::prelude::*;
use vstd::string::*;

verus! {

/// Log verbosity level, ordered from least to most detailed.
#[derive(Debug, Clone, Copy, PartialEq, Eq, Structural)]
pub enum Level {
    Warn,
    Info,
    Verbose,
    Debug,
    Trace,
}

/// The least verbosity (number of `-v` flags) at which a level is shown.
pub open spec fn min_verbosity(level: Level) -> u8 {
    match level {
        Level::Warn => 0,
        Level::Info => 0,
        Level::Verbose => 1,
        Level::Debug => 2,
        Level::Trace => 3,
    }
}

/// The four-letter tag that opens a log line of the given level.
pub open spec fn tag_of(level: Level) -> Seq<char> {
    match level {
        Level::Warn => seq!['W', 'A', 'R', 'N'],
        Level::Info => seq!['I', 'N', 'F', 'O'],
        Level::Verbose => seq!['V', 'E', 'R', 'B'],
        Level::Debug => seq!['D', 'E', 'B', 'G'],
        Level::Trace => seq!['T', 'R', 'C', 'E'],
    }
}

/// The full line `[<tag>] <msg>` written for a message.
pub open spec fn log_line(level: Level, msg: Seq<char>) -> Seq<char> {
    seq!['['] + tag_of(level) + seq![']', ' '] + msg
}

impl Level {
    /// The least verbosity at which this level is shown.
    pub fn min_verbosity(&self) -> (r: u8)
        ensures
            r == min_verbosity(*self),
    {
        match self {
            Level::Warn => 0,
            Level::Info => 0,
            Level::Verbose => 1,
            Level::Debug => 2,
            Level::Trace => 3,
        }
    }

    /// The tag of this level as text.
    pub fn tag(&self) -> (r: &'static str)
        ensures
            r@ == tag_of(*self),
    {
        match self {
            Level::Warn => {
                proof { reveal_strlit("WARN"); }
                "WARN"
            },
            Level::Info => {
                proof { reveal_strlit("INFO"); }
                "INFO"
            },
            Level::Verbose => {
                proof { reveal_strlit("VERB"); }
                "VERB"
            },
            Level::Debug => {
                proof { reveal_strlit("DEBG"); }
                "DEBG"
            },
            Level::Trace => {
                proof { reveal_strlit("TRCE"); }
                "TRCE"
            },
        }
    }
}

/// Verbosity-gated logger. Each method returns the line to write when the
/// message's level is shown at this logger's verbosity, and `None` otherwise;
/// writing the line is left to the caller.
pub struct Logger {
    verbosity: u8,
}

impl Logger {
    /// The verbosity this logger was made with.
    pub closed spec fn verbosity(&self) -> u8 {
        self.verbosity
    }

    pub fn new(verbosity: u8) -> (r: Self)
        ensures
            r.verbosity() == verbosity,
    {
        Logger { verbosity }
    }

    /// Whether messages of `level` are shown.
    pub fn enabled(&self, level: Level) -> (r: bool)
        ensures
            r == (self.verbosity() >= min_verbosity(level)),
    {
        self.verbosity >= level.min_verbosity()
    }

    fn emit(&self, level: Level, msg: &str) -> (r: Option<String>)
        ensures
            r.is_some() == (self.verbosity() >= min_verbosity(level)),
            r.is_some() ==> r.unwrap()@ == log_line(level, msg@),
    {
        if self.enabled(level) {
            let mut line = String::from_str("[");
            line.append(level.tag());
            line.append("] ");
            line.append(msg);
            proof {
                reveal_strlit("[");
                reveal_strlit("] ");
                assert(line@ =~= log_line(level, msg@));
            }
            Some(line)
        } else {
            None
        }
    }

    pub fn warn(&self, msg: &str) -> (r: Option<String>)
        ensures
            r.is_some() == (self.verbosity() >= min_verbosity(Level::Warn)),
            r.is_some() ==> r.unwrap()@ == log_line(Level::Warn, msg@),
    {
        self.emit(Level::Warn, msg)
    }

    pub fn info(&self, msg: &str) -> (r: Option<String>)
        ensures
            r.is_some() == (self.verbosity() >= min_verbosity(Level::Info)),
            r.is_some() ==> r.unwrap()@ == log_line(Level::Info, msg@),
    {
        self.emit(Level::Info, msg)
    }

    pub fn verbose(&self, msg: &str) -> (r: Option<String>)
        ensures
            r.is_some() == (self.verbosity() >= min_verbosity(Level::Verbose)),
            r.is_some() ==> r.unwrap()@ == log_line(Level::Verbose, msg@),
    {
        self.emit(Level::Verbose, msg)
    }

    pub fn debug(&self, msg: &str) -> (r: Option<String>)
        ensures
            r.is_some() == (self.verbosity() >= min_verbosity(Level::Debug)),
            r.is_some() ==> r.unwrap()@ == log_line(Level::Debug, msg@),
    {
        self.emit(Level::Debug, msg)
    }

    pub fn trace(&self, msg: &str) -> (r: Option<String>)
        ensures
            r.is_some() == (self.verbosity() >= min_verbosity(Level::Trace)),
            r.is_some() ==> r.unwrap()@ == log_line(Level::Trace, msg@),
    {
        self.emit(Level::Trace, msg)
    }
}

} // verus!
