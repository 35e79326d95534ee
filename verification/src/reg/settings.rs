//! Behavioural settings, resolved from flags and environment. Precedence:
//! an explicit flag, then the environment variable, then the built-in
//! default.
use crate::reg::error::{Error, Result};
use crate::text::{chars_eq, chars_of, debug_quoted, debug_str, extend_str, string_from_chars, trim, trim_chars};
use vstd::prelude::*;

verus! {

/// The resolved output/behaviour knobs shared across subcommands.
#[derive(Debug, Clone)]
pub struct Settings {
    /// Separator used when displaying key paths.
    pub sep: char,
    /// Emit structured JSON instead of human text.
    pub json: bool,
    /// Verbose output.
    pub verbose: bool,
    /// Suppress non-essential output.
    pub quiet: bool,
    /// Skip confirmation prompts for destructive operations.
    pub assume_yes: bool,
    /// Default target layer for writes (`None` is the base layer).
    pub layer: Option<String>,
}

/// What the command line and the environment say, before precedence.
#[derive(Debug, Clone)]
pub struct SettingsInput {
    pub sep_flag: Option<String>,
    pub sep_env: Option<String>,
    pub json_flag: bool,
    pub json_env: Option<String>,
    pub verbose_flag: bool,
    pub verbose_env: Option<String>,
    pub quiet_flag: bool,
    pub yes_flag: bool,
    pub yes_env: Option<String>,
    pub layer_flag: Option<String>,
    pub layer_env: Option<String>,
}

/// An environment switch is on when it is `1`, `true` or `yes`.
pub open spec fn env_on(v: Option<String>) -> bool {
    match v {
        Some(s) => s@ == "1"@ || s@ == "true"@ || s@ == "yes"@,
        None => false,
    }
}

/// The separator a setting names, if it names one.
pub open spec fn sep_of(s: Seq<char>) -> Option<char> {
    if s == "\\"@ || s == "backslash"@ {
        Some('\\')
    } else if s == "/"@ || s == "slash"@ {
        Some('/')
    } else {
        None
    }
}

/// The separator setting that wins: the flag, else a non-empty variable.
pub open spec fn sep_source(i: SettingsInput) -> Option<Seq<char>> {
    match i.sep_flag {
        Some(s) => Some(s@),
        None => match i.sep_env {
            Some(s) => if s@.len() > 0 {
                Some(s@)
            } else {
                None
            },
            None => None,
        },
    }
}

pub open spec fn bad_sep_text(s: Seq<char>) -> Seq<char> {
    "invalid separator "@ + debug_str(s) + ": expected '/' or '\\'"@
}

fn same(a: &str, b: &str) -> (r: bool)
    ensures
        r == (a@ == b@),
{
    chars_eq(&chars_of(a), &chars_of(b))
}

/// Is an environment switch on?
pub fn env_flag(v: &Option<String>) -> (r: bool)
    ensures
        r == env_on(*v),
{
    match v {
        Some(s) => same(s.as_str(), "1") || same(s.as_str(), "true") || same(s.as_str(), "yes"),
        None => false,
    }
}

/// Parse a separator name: `\` or `backslash`, `/` or `slash`.
pub fn parse_sep(s: &str) -> (r: Result<char>)
    ensures
        sep_of(s@) matches Some(c) ==> r matches Ok(x) && x == c,
        sep_of(s@) is None ==> (r matches Err(Error::Usage(m)) && m@ == bad_sep_text(s@)),
{
    if same(s, "\\") || same(s, "backslash") {
        Ok('\\')
    } else if same(s, "/") || same(s, "slash") {
        Ok('/')
    } else {
        let mut v: Vec<char> = Vec::new();
        extend_str(&mut v, "invalid separator ");
        let q = debug_quoted(s);
        extend_str(&mut v, q.as_str());
        extend_str(&mut v, ": expected '/' or '\\'");
        Err(Error::Usage(string_from_chars(&v)))
    }
}

/// Is a confirmation answer a yes? `y`, `Y`, `yes` or `Yes`, around
/// whitespace.
pub fn is_yes(line: &str) -> (r: bool)
    ensures
        r == (trim(line@) == "y"@ || trim(line@) == "Y"@ || trim(line@) == "yes"@ || trim(line@)
            == "Yes"@),
{
    let t = trim_chars(&chars_of(line));
    chars_eq(&t, &chars_of("y")) || chars_eq(&t, &chars_of("Y")) || chars_eq(&t, &chars_of("yes"))
        || chars_eq(&t, &chars_of("Yes"))
}

impl Settings {
    /// Apply the precedence rules to what the command line and the
    /// environment say.
    pub fn resolve(i: &SettingsInput) -> (r: Result<Settings>)
        ensures
            match sep_source(*i) {
                Some(s) => match sep_of(s) {
                    None => r matches Err(Error::Usage(m)) && m@ == bad_sep_text(s),
                    Some(c) => r matches Ok(x) && x.sep == c,
                },
                None => r matches Ok(x) && x.sep == '\\',
            },
            r matches Ok(x) ==> {
                &&& x.json == (i.json_flag || env_on(i.json_env))
                &&& x.verbose == (i.verbose_flag || env_on(i.verbose_env))
                &&& x.quiet == i.quiet_flag
                &&& x.assume_yes == (i.yes_flag || env_on(i.yes_env))
                &&& match i.layer_flag {
                    Some(l) => x.layer matches Some(y) && y@ == l@,
                    None => match i.layer_env {
                        Some(l) => if l@.len() > 0 {
                            x.layer matches Some(y) && y@ == l@
                        } else {
                            x.layer is None
                        },
                        None => x.layer is None,
                    },
                }
            },
    {
        let sep_text: Option<&str> = match &i.sep_flag {
            Some(s) => Some(s.as_str()),
            None => match &i.sep_env {
                Some(s) => {
                    if !s.as_str().is_empty() {
                        Some(s.as_str())
                    } else {
                        None
                    }
                },
                None => None,
            },
        };
        let sep = match sep_text {
            Some(t) => match parse_sep(t) {
                Ok(c) => c,
                Err(e) => {
                    return Err(e);
                },
            },
            None => '\\',
        };
        let layer = match &i.layer_flag {
            Some(l) => Some(l.clone()),
            None => match &i.layer_env {
                Some(l) => {
                    if !l.as_str().is_empty() {
                        Some(l.clone())
                    } else {
                        None
                    }
                },
                None => None,
            },
        };
        Ok(
            Settings {
                sep,
                json: i.json_flag || env_flag(&i.json_env),
                verbose: i.verbose_flag || env_flag(&i.verbose_env),
                quiet: i.quiet_flag,
                assume_yes: i.yes_flag || env_flag(&i.yes_env),
                layer,
            },
        )
    }

    /// The target layer for a write as the registry interface wants it:
    /// `None` is the base layer.
    pub fn layer_arg(&self) -> (r: Option<&str>)
        ensures
            match self.layer {
                Some(l) => r matches Some(x) && x@ == l@,
                None => r is None,
            },
    {
        match &self.layer {
            Some(l) => Some(l.as_str()),
            None => None,
        }
    }

    /// A human label for the active layer, for echo lines.
    pub fn layer_label(&self) -> (r: &str)
        ensures
            match self.layer {
                Some(l) => r@ == l@,
                None => r@ == "base"@,
            },
    {
        match &self.layer {
            Some(l) => l.as_str(),
            None => "base",
        }
    }
}

} // verus!
