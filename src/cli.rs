//! Command-line settings, and the word-to-boolean rule for flag values.

use vstd::prelude::*;
use vstd::string::*;

verus! {

/// How much to log.
#[derive(Debug, Copy, Clone, PartialEq, Eq, Structural)]
pub enum LogLevel {
    Off,
    Error,
    Warn,
    Info,
    Debug,
    Trace,
}

/// The program's settings.
pub struct Cli {
    /// Read the document from this file instead of standard input.
    pub input_filename: Option<String>,
    pub log_level: LogLevel,
    /// Print the log file's path when the program ends.
    pub print_log_file_path: bool,
    /// Colorize the displayed output.
    pub colorize: bool,
    /// Also parse the document with the built-in parser and print the result.
    pub self_parse_json: bool,
}

/// The lowercase form of a text, as std's `str::to_lowercase` computes it.
pub uninterp spec fn lower_of(s: Seq<char>) -> Seq<char>;

/// Relies on std's `str::to_lowercase`: the result depends on the
/// characters alone.
#[verifier::external_body]
fn lowercase(s: &str) -> (r: String)
    ensures
        r@ == lower_of(s@),
{
    s.to_lowercase()
}

/// The boolean that a flag value names, if any.
pub open spec fn bool_word(s: Seq<char>) -> Option<bool> {
    if s == "true"@ || s == "yes"@ {
        Some(true)
    } else if s == "false"@ || s == "no"@ {
        Some(false)
    } else {
        None
    }
}

pub open spec fn bool_word_error() -> Seq<char> {
    "expected `true` or `false`"@
}

fn same_text(a: &str, b: &str) -> (r: bool)
    ensures
        r == (a@ == b@),
{
    let n = a.unicode_len();
    if n != b.unicode_len() {
        return false;
    }
    let mut i: usize = 0;
    while i < n
        invariant
            n == a@.len(),
            n == b@.len(),
            0 <= i <= n,
            forall|k: int| 0 <= k < i ==> a@[k] == b@[k],
        decreases n - i,
    {
        if a.get_char(i) != b.get_char(i) {
            return false;
        }
        i = i + 1;
    }
    assert(a@ =~= b@);
    true
}

/// Reads an already lowercased flag value: `true`/`yes` or `false`/`no`.
pub fn parse_bool_word(lower: &str) -> (r: Result<bool, &'static str>)
    ensures
        match bool_word(lower@) {
            Some(b) => r == Ok::<bool, &'static str>(b),
            None => match r {
                Ok(_) => false,
                Err(m) => m@ == bool_word_error(),
            },
        },
{
    proof {
        reveal_strlit("expected `true` or `false`");
    }
    if same_text(lower, "true") || same_text(lower, "yes") {
        Ok(true)
    } else if same_text(lower, "false") || same_text(lower, "no") {
        Ok(false)
    } else {
        Err("expected `true` or `false`")
    }
}

/// Reads a flag value as a boolean, ignoring case.
pub fn parse_bool(s: &str) -> (r: Result<bool, &'static str>)
    ensures
        match bool_word(lower_of(s@)) {
            Some(b) => r == Ok::<bool, &'static str>(b),
            None => match r {
                Ok(_) => false,
                Err(m) => m@ == bool_word_error(),
            },
        },
{
    let lower = lowercase(s);
    parse_bool_word(lower.as_str())
}

} // verus!
