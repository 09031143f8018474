use vstd::prelude::*;
use vstd::string::*;

verus! {

/// Severity of a log record, from most to least severe.
#[derive(Clone, Copy, Debug, PartialEq, Eq, Structural)]
pub enum LogLevel {
    Error,
    Warning,
    Info,
    Debug,
    Excessive,
}

impl LogLevel {
    /// Position in the order Error < Warning < Info < Debug < Excessive.
    pub open spec fn rank(self) -> nat {
        match self {
            LogLevel::Error => 0,
            LogLevel::Warning => 1,
            LogLevel::Info => 2,
            LogLevel::Debug => 3,
            LogLevel::Excessive => 4,
        }
    }

    pub fn index(&self) -> (r: u8)
        ensures
            r == self.rank(),
    {
        match self {
            LogLevel::Error => 0,
            LogLevel::Warning => 1,
            LogLevel::Info => 2,
            LogLevel::Debug => 3,
            LogLevel::Excessive => 4,
        }
    }

    /// Whether a record of this level passes a filter set to `limit`.
    pub fn within(&self, limit: LogLevel) -> (r: bool)
        ensures
            r == (self.rank() <= limit.rank()),
    {
        self.index() <= limit.index()
    }

    /// The lower case name of the level.
    pub fn name(&self) -> (r: &'static str)
        ensures
            level_of_name(r@) == Some(*self),
    {
        proof {
            lemma_level_names();
        }
        match self {
            LogLevel::Error => "error",
            LogLevel::Warning => "warning",
            LogLevel::Info => "info",
            LogLevel::Debug => "debug",
            LogLevel::Excessive => "excessive",
        }
    }

    /// Parses a level name, ignoring case.
    pub fn with_str(text: &str) -> (r: Option<LogLevel>)
        ensures
            r == level_of_name(lower_of(text@)),
    {
        let lower = to_lowercase(text);
        match do_parse_log_level(lower.as_str()) {
            Ok(level) => Some(level),
            Err(_) => None,
        }
    }
}

/// The level called `s`, in lower case.
pub open spec fn level_of_name(s: Seq<char>) -> Option<LogLevel> {
    if s == seq!['e', 'r', 'r', 'o', 'r'] {
        Some(LogLevel::Error)
    } else if s == seq!['w', 'a', 'r', 'n', 'i', 'n', 'g'] {
        Some(LogLevel::Warning)
    } else if s == seq!['i', 'n', 'f', 'o'] {
        Some(LogLevel::Info)
    } else if s == seq!['d', 'e', 'b', 'u', 'g'] {
        Some(LogLevel::Debug)
    } else if s == seq!['e', 'x', 'c', 'e', 's', 's', 'i', 'v', 'e'] {
        Some(LogLevel::Excessive)
    } else {
        None
    }
}

proof fn lemma_level_names()
    ensures
        "error"@ == seq!['e', 'r', 'r', 'o', 'r'],
        "warning"@ == seq!['w', 'a', 'r', 'n', 'i', 'n', 'g'],
        "info"@ == seq!['i', 'n', 'f', 'o'],
        "debug"@ == seq!['d', 'e', 'b', 'u', 'g'],
        "excessive"@ == seq!['e', 'x', 'c', 'e', 's', 's', 'i', 'v', 'e'],
{
    reveal_strlit("error");
    reveal_strlit("warning");
    reveal_strlit("info");
    reveal_strlit("debug");
    reveal_strlit("excessive");
    assert("error"@ =~= seq!['e', 'r', 'r', 'o', 'r']);
    assert("warning"@ =~= seq!['w', 'a', 'r', 'n', 'i', 'n', 'g']);
    assert("info"@ =~= seq!['i', 'n', 'f', 'o']);
    assert("debug"@ =~= seq!['d', 'e', 'b', 'u', 'g']);
    assert("excessive"@ =~= seq!['e', 'x', 'c', 'e', 's', 's', 'i', 'v', 'e']);
}

/// What `str::to_lowercase` makes of a string.
pub uninterp spec fn lower_of(s: Seq<char>) -> Seq<char>;

/// Relies on `str::to_lowercase`: the result depends on the characters alone.
#[verifier::external_body]
fn to_lowercase(s: &str) -> (r: String)
    ensures
        r@ == lower_of(s@),
{
    s.to_lowercase()
}

/// Parses a level name exactly as written (lower case).
pub fn do_parse_log_level(level: &str) -> (r: Result<LogLevel, &'static str>)
    ensures
        r is Ok <==> level_of_name(level@) is Some,
        r matches Ok(l) ==> level_of_name(level@) == Some(l),
{
    let s = String::from_str(level);
    proof {
        lemma_level_names();
    }
    if s == String::from_str("error") {
        Ok(LogLevel::Error)
    } else if s == String::from_str("warning") {
        Ok(LogLevel::Warning)
    } else if s == String::from_str("info") {
        Ok(LogLevel::Info)
    } else if s == String::from_str("debug") {
        Ok(LogLevel::Debug)
    } else if s == String::from_str("excessive") {
        Ok(LogLevel::Excessive)
    } else {
        Err("--log-level should be error, warning, info, debug, or excessive")
    }
}

/// The level names, for help messages.
pub fn log_levels() -> (r: &'static str)
    ensures
        r@ == "error, warning, info, debug, or excessive"@,
{
    "error, warning, info, debug, or excessive"
}

} // verus!
