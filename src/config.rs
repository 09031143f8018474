use vstd::prelude::*;
use vstd::string::*;
use crate::logging::{do_parse_log_level, level_of_name, LogLevel};
use crate::sim_time::{ticks_in, Secs};

verus! {

/// Settings of a `Simulation`.
pub struct Config {
    /// When not empty, the file an inspection web server serves at its root.
    pub home_path: String,
    /// The address of that web server.
    pub address: String,
    /// Ticks per second. Defaults to 1_000_000 (microseconds).
    pub time_units: u64,
    /// Simulated time after which the run stops; `None` (the default) for no limit.
    pub max_secs: Option<Secs>,
    /// How many "init k" rounds each active component gets. Defaults to 1.
    pub num_init_stages: u32,
    /// Seed of the components' random number generators; 0 (the default) takes one
    /// from the clock, which makes runs differ.
    pub seed: u32,
    /// Default log level. Defaults to Info.
    pub log_level: LogLevel,
    /// Glob patterns over component names with the level to use where one matches;
    /// the first match wins.
    pub log_levels: Vec<(String, LogLevel)>,
    /// Most characters used for a component path in log output; 0 for no limit.
    /// Defaults to 20.
    pub max_log_path: usize,
    /// Color log output with the escape codes below. Defaults to true.
    pub colorize: bool,
    pub error_escape_code: String,
    pub warning_escape_code: String,
    pub info_escape_code: String,
    pub debug_escape_code: String,
    pub excessive_escape_code: String,
    /// How long a worker may take to answer an event. Defaults to 5000.
    pub worker_timeout_ms: u64,
}

pub open spec fn is_digit(c: char) -> bool {
    48 <= (c as u32) <= 57
}

pub open spec fn digit_value(c: char) -> nat {
    ((c as u32) - 48) as nat
}

/// Reads the first `n` characters of a decimal number such as "12.5". Gives the value of
/// all its digits (125), the power of ten of the digits behind the point (10), whether a
/// point was seen, and the number of digits; `None` where a character is neither a digit
/// nor the first point, or where a number outgrows `u64`.
pub open spec fn scan_decimal(s: Seq<char>, n: nat) -> Option<(nat, nat, bool, nat)>
    decreases n,
{
    if n == 0 || n > s.len() {
        if n == 0 {
            Some((0, 1, false, 0))
        } else {
            None
        }
    } else {
        match scan_decimal(s, (n - 1) as nat) {
            None => None,
            Some((v, d, dot, k)) => {
                let c = s[n - 1];
                if is_digit(c) {
                    let v2 = v * 10 + digit_value(c);
                    let d2 = if dot {
                        d * 10
                    } else {
                        d
                    };
                    if v2 > u64::MAX || d2 > u64::MAX {
                        None
                    } else {
                        Some((v2, d2, dot, k + 1))
                    }
                } else if c == '.' && !dot {
                    Some((v, d, true, k))
                } else {
                    None
                }
            },
        }
    }
}

/// Once a prefix fails to read as a number, every longer prefix fails too.
proof fn lemma_scan_stays_none(s: Seq<char>, i: nat, j: nat)
    requires
        i <= j <= s.len(),
        scan_decimal(s, i) is None,
    ensures
        scan_decimal(s, j) is None,
    decreases j - i,
{
    if j > i {
        lemma_scan_stays_none(s, i, (j - 1) as nat);
    }
}

/// Seconds per unit of a time suffix.
pub open spec fn unit_factor(c: char) -> Option<nat> {
    if c == 's' {
        Some(1)
    } else if c == 'm' {
        Some(60)
    } else if c == 'h' {
        Some(3600)
    } else if c == 'd' {
        Some(86400)
    } else if c == 'w' {
        Some(604800)
    } else {
        None
    }
}

/// The duration that a text such as "1.5h" gives, as (numerator, denominator) seconds:
/// a decimal number with at least one digit followed by one of the suffixes.
pub open spec fn max_secs_of(text: Seq<char>) -> Option<(nat, nat)> {
    if text.len() == 0 {
        None
    } else {
        let body = text.drop_last();
        match scan_decimal(body, body.len()) {
            Some((v, d, _, k)) => match unit_factor(text.last()) {
                Some(f) => if k > 0 && v * f <= u64::MAX {
                    Some((v * f, d))
                } else {
                    None
                },
                None => None,
            },
            None => None,
        }
    }
}

/// Whether `glob::Pattern::new` accepts the text as a pattern.
pub uninterp spec fn valid_glob(p: Seq<char>) -> bool;

/// Relies on `glob::Pattern::new`: whether the text compiles as a glob pattern.
#[verifier::external_body]
fn glob_is_valid(pattern: &str) -> (r: bool)
    ensures
        r == valid_glob(pattern@),
{
    glob::Pattern::new(pattern).is_ok()
}

/// The index of the first ':' at or after `i`, or the length where there is none.
pub open spec fn first_colon(e: Seq<char>, i: int) -> int
    decreases e.len() - i,
{
    if i < 0 || i >= e.len() {
        e.len() as int
    } else if e[i] == ':' {
        i
    } else {
        first_colon(e, i + 1)
    }
}

/// The (pattern, level) that an entry "LEVEL:GLOB" names; `None` where it has no ':', an
/// unknown level or a malformed glob.
pub open spec fn entry_of(e: Seq<char>) -> Option<(Seq<char>, LogLevel)> {
    let c = first_colon(e, 0);
    if c >= e.len() {
        None
    } else {
        match level_of_name(e.subrange(0, c)) {
            Some(l) => if valid_glob(e.subrange(c + 1, e.len() as int)) {
                Some((e.subrange(c + 1, e.len() as int), l))
            } else {
                None
            },
            None => None,
        }
    }
}

/// The index of the first entry of `levels` for `pattern`, or the length.
pub open spec fn find_pattern(levels: Seq<(Seq<char>, LogLevel)>, pattern: Seq<char>, i: int) -> int
    decreases levels.len() - i,
{
    if i < 0 || i >= levels.len() {
        levels.len() as int
    } else if levels[i].0 == pattern {
        i
    } else {
        find_pattern(levels, pattern, i + 1)
    }
}

/// `levels` with `pattern` set to `level`: its entry changed where there is one, else a
/// new entry at the end.
pub open spec fn with_level(levels: Seq<(Seq<char>, LogLevel)>, pattern: Seq<char>, level: LogLevel) -> Seq<(Seq<char>, LogLevel)> {
    let i = find_pattern(levels, pattern, 0);
    if i < levels.len() {
        levels.update(i, (pattern, level))
    } else {
        levels.push((pattern, level))
    }
}

/// The levels after the first `n` entries, or `None` where one of them is malformed.
pub open spec fn levels_after(levels: Seq<(Seq<char>, LogLevel)>, entries: Seq<Seq<char>>, n: nat) -> Option<Seq<(Seq<char>, LogLevel)>>
    decreases n,
{
    if n == 0 || n > entries.len() {
        if n == 0 {
            Some(levels)
        } else {
            None
        }
    } else {
        match levels_after(levels, entries, (n - 1) as nat) {
            Some(l) => match entry_of(entries[n - 1]) {
                Some((p, lv)) => Some(with_level(l, p, lv)),
                None => None,
            },
            None => None,
        }
    }
}

pub open spec fn levels_view(v: Seq<(String, LogLevel)>) -> Seq<(Seq<char>, LogLevel)> {
    v.map_values(|e: (String, LogLevel)| (e.0@, e.1))
}

pub open spec fn texts_view(v: Seq<&str>) -> Seq<Seq<char>> {
    v.map_values(|e: &str| e@)
}

proof fn lemma_levels_stay_none(levels: Seq<(Seq<char>, LogLevel)>, entries: Seq<Seq<char>>, i: nat, j: nat)
    requires
        i <= j <= entries.len(),
        levels_after(levels, entries, i) is None,
    ensures
        levels_after(levels, entries, j) is None,
    decreases j - i,
{
    if j > i {
        lemma_levels_stay_none(levels, entries, i, (j - 1) as nat);
    }
}

/// The index of the first ':' in `e`.
fn colon_index(e: &str) -> (r: usize)
    ensures
        r == first_colon(e@, 0),
{
    let n = e.unicode_len();
    let mut i: usize = 0;
    while i < n
        invariant
            n == e@.len(),
            i <= n,
            first_colon(e@, 0) == first_colon(e@, i as int),
        decreases n - i,
    {
        if e.get_char(i) == ':' {
            return i;
        }
        i += 1;
    }
    i
}

/// Sets `pattern` to `level` in `levels`, as `with_level` says.
fn set_level(levels: &mut Vec<(String, LogLevel)>, pattern: String, level: LogLevel)
    ensures
        levels_view(final(levels)@) == with_level(levels_view(old(levels)@), pattern@, level),
{
    let ghost lv = levels_view(levels@);
    let mut i: usize = 0;
    while i < levels.len()
        invariant
            lv == levels_view(levels@),
            levels@ == old(levels)@,
            i <= levels@.len(),
            find_pattern(lv, pattern@, 0) == find_pattern(lv, pattern@, i as int),
        decreases levels@.len() - i,
    {
        if levels[i].0 == pattern {
            levels.set(i, (pattern, level));
            proof {
                assert(levels_view(levels@) =~= lv.update(i as int, (pattern@, level)));
            }
            return;
        }
        i += 1;
    }
    levels.push((pattern, level));
    proof {
        assert(levels_view(levels@) =~= lv.push((pattern@, level)));
    }
}

/// The first time that a run does not reach.
pub open spec fn max_time_of(config: Config) -> i64 {
    match config.max_secs {
        None => i64::MAX,
        Some(s) => if ticks_in(s, config.time_units as nat) > i64::MAX {
            i64::MAX
        } else {
            ticks_in(s, config.time_units as nat) as i64
        },
    }
}

impl Config {
    pub fn new() -> (r: Config)
        ensures
            r.time_units == 1_000_000,
            r.max_secs is None,
            r.num_init_stages == 1,
            r.seed == 0,
            r.log_level == LogLevel::Info,
            r.log_levels@.len() == 0,
            r.max_log_path == 20,
            r.colorize,
            r.worker_timeout_ms == 5000,
            r.home_path@.len() == 0,
    {
        Config {
            home_path: String::new(),
            address: String::from_str("127.0.0.1:9000"),
            time_units: 1_000_000,
            max_secs: None,
            num_init_stages: 1,
            seed: 0,
            log_level: LogLevel::Info,
            log_levels: Vec::new(),
            max_log_path: 20,
            colorize: true,
            error_escape_code: String::from_str("\x1b[31;1m"),
            warning_escape_code: String::from_str("\x1b[31m"),
            info_escape_code: String::from_str("\x1b[30;1m"),
            debug_escape_code: String::new(),
            excessive_escape_code: String::from_str("\x1b[1;38;5;244m"),
            worker_timeout_ms: 5000,
        }
    }

    /// Sets the log level from its name; returns a message where the name is unknown.
    pub fn parse_log_level(&mut self, level: &str) -> (r: Option<&'static str>)
        ensures
            level_of_name(level@) matches Some(l) ==> r is None && *final(self) == (Config { log_level: l, ..*old(self) }),
            level_of_name(level@) is None ==> r is Some && *final(self) == *old(self),
    {
        match do_parse_log_level(level) {
            Ok(value) => {
                self.log_level = value;
                None
            },
            Err(message) => Some(message),
        }
    }

    /// Sets `max_secs` from a decimal number of seconds, minutes, hours, days or weeks
    /// ("90s", "1.5h", "2w"); returns a message where the text is not of that form.
    /// The number is digits with at most one '.', read exactly as a fraction: no sign,
    /// exponent, infinity or NaN, which a float parser would take ("1e3s" is refused).
    pub fn parse_max_secs(&mut self, text: &str) -> (r: Option<&'static str>)
        ensures
            max_secs_of(text@) matches Some((num, den)) ==> {
                &&& r is None
                &&& final(self).max_secs matches Some(s) && s.numerator() == num && s.denominator() == den
                &&& *final(self) == (Config { max_secs: final(self).max_secs, ..*old(self) })
            },
            max_secs_of(text@) is None ==> r is Some && *final(self) == *old(self),
    {
        let len = text.unicode_len();
        if len == 0 {
            return Some("--max-secs should have a decimal value followed by a suffix");
        }
        let n = len - 1;
        let ghost body = text@.drop_last();
        let mut v: u64 = 0;
        let mut d: u64 = 1;
        let mut dot = false;
        let mut k: u64 = 0;
        let mut i: usize = 0;
        while i < n
            invariant
                n == body.len(),
                len == text@.len(),
                n + 1 == len,
                body == text@.drop_last(),
                d >= 1,
                i <= n,
                k <= i,
                scan_decimal(body, i as nat) == Some((v as nat, d as nat, dot, k as nat)),
            decreases n - i,
        {
            let c = text.get_char(i);
            proof {
                assert(body[i as int] == c);
                if scan_decimal(body, (i + 1) as nat) is None {
                    lemma_scan_stays_none(body, (i + 1) as nat, n as nat);
                }
            }
            if 48 <= (c as u32) && (c as u32) <= 57 {
                let dv = (c as u32 - 48) as u64;
                let v2 = match v.checked_mul(10) {
                    Some(x) => match x.checked_add(dv) {
                        Some(y) => y,
                        None => {
                            return Some("--max-secs should have a decimal value followed by a suffix");
                        },
                    },
                    None => {
                        return Some("--max-secs should have a decimal value followed by a suffix");
                    },
                };
                if dot {
                    match d.checked_mul(10) {
                        Some(x) => {
                            d = x;
                        },
                        None => {
                            return Some("--max-secs should have a decimal value followed by a suffix");
                        },
                    }
                }
                v = v2;
                k = k + 1;
            } else if c == '.' && !dot {
                dot = true;
            } else {
                return Some("--max-secs should have a decimal value followed by a suffix");
            }
            i += 1;
        }
        if k == 0 {
            return Some("--max-secs should have a decimal value followed by a suffix");
        }
        let unit = text.get_char(n);
        let factor: u64 = if unit == 's' {
            1
        } else if unit == 'm' {
            60
        } else if unit == 'h' {
            3600
        } else if unit == 'd' {
            86400
        } else if unit == 'w' {
            604800
        } else {
            return Some("--max-secs should have an s, m, h, d, or w suffix");
        };
        match v.checked_mul(factor) {
            Some(num) => {
                self.max_secs = Some(Secs::new(num, d));
                None
            },
            None => Some("--max-secs should have a decimal value followed by a suffix"),
        }
    }

    /// Adds a log level override for each entry "LEVEL:GLOB", in order; a pattern given
    /// again gets the later level. Returns a message for the first malformed entry.
    pub fn parse_log_levels(&mut self, values: Vec<&str>) -> (r: Option<String>)
        ensures
            levels_after(levels_view(old(self).log_levels@), texts_view(values@), values@.len()) matches Some(l) ==> {
                &&& r is None
                &&& levels_view(final(self).log_levels@) == l
            },
            levels_after(levels_view(old(self).log_levels@), texts_view(values@), values@.len()) is None ==> r is Some,
            *final(self) == (Config { log_levels: final(self).log_levels, ..*old(self) }),
    {
        let ghost l0 = levels_view(self.log_levels@);
        let ghost entries = texts_view(values@);
        let mut i: usize = 0;
        while i < values.len()
            invariant
                entries == texts_view(values@),
                i <= values@.len(),
                levels_after(l0, entries, i as nat) == Some(levels_view(self.log_levels@)),
                l0 == levels_view(old(self).log_levels@),
                *self == (Config { log_levels: self.log_levels, ..*old(self) }),
            decreases values@.len() - i,
        {
            let entry = values[i];
            proof {
                assert(entries[i as int] == entry@);
            }
            let len = entry.unicode_len();
            let c = colon_index(entry);
            if c >= len {
                proof {
                    lemma_levels_stay_none(l0, entries, (i + 1) as nat, values@.len() as nat);
                }
                let mut m = String::from_str("--log=");
                m.append(entry);
                m.append(" should be formatted as LEVEL:GLOB");
                return Some(m);
            }
            let level_text = entry.substring_char(0, c);
            let glob_text = entry.substring_char(c + 1, len);
            match do_parse_log_level(level_text) {
                Ok(level) => {
                    if glob_is_valid(glob_text) {
                        set_level(&mut self.log_levels, String::from_str(glob_text), level);
                    } else {
                        proof {
                            lemma_levels_stay_none(l0, entries, (i + 1) as nat, values@.len() as nat);
                        }
                        let mut m = String::from_str("--log=");
                        m.append(entry);
                        m.append(" has a malformed glob");
                        return Some(m);
                    }
                },
                Err(message) => {
                    proof {
                        lemma_levels_stay_none(l0, entries, (i + 1) as nat, values@.len() as nat);
                    }
                    return Some(String::from_str(message));
                },
            }
            i += 1;
        }
        None
    }

    /// The first time that a run does not reach, in ticks.
    pub fn max_time(&self) -> (r: i64)
        ensures
            r == max_time_of(*self),
    {
        match &self.max_secs {
            None => i64::MAX,
            Some(s) => {
                let den = s.den();
                let num = s.num();
                proof {
                    assert(num as nat * self.time_units as nat <= u64::MAX as nat * u64::MAX as nat) by (nonlinear_arith)
                        requires
                            num <= u64::MAX,
                            self.time_units <= u64::MAX,
                    ;
                }
                let t = (num as u128) * (self.time_units as u128) / (den as u128);
                if t > i64::MAX as u128 {
                    i64::MAX
                } else {
                    t as i64
                }
            },
        }
    }
}

/// The suffixes that a maximum run time may carry, for help messages.
pub fn time_suffixes() -> (r: &'static str)
    ensures
        r@ == "s, m, h, d, or w"@,
{
    "s, m, h, d, or w"
}

} // verus!
