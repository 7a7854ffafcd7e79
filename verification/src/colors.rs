//! Terminal colors that respect `NO_COLOR`, `TERM=dumb` and whether stdout
//! is a terminal: ANSI escape codes when color output is appropriate, empty
//! strings otherwise.
use vstd::prelude::*;

verus! {

/// The escape codes the command line prints with.
pub struct Colors {
    pub bold: &'static str,
    pub dim: &'static str,
    pub reset: &'static str,
    pub cyan: &'static str,
    pub yellow: &'static str,
}

/// Whether color output is wanted: `NO_COLOR` is unset, `TERM` is not
/// `dumb`, and stdout is a terminal.
pub open spec fn should_colorize(no_color: bool, term: Option<Seq<char>>, is_tty: bool) -> bool {
    &&& !no_color
    &&& term != Some("dumb"@)
    &&& is_tty
}

/// The view of an optional text.
pub open spec fn opt_view(t: Option<&str>) -> Option<Seq<char>> {
    match t {
        Some(s) => Some(s@),
        None => None,
    }
}

impl Colors {
    /// Every code is its ANSI escape sequence.
    pub open spec fn is_enabled(&self) -> bool {
        &&& self.bold@ == "\x1b[1m"@
        &&& self.dim@ == "\x1b[2m"@
        &&& self.reset@ == "\x1b[0m"@
        &&& self.cyan@ == "\x1b[36m"@
        &&& self.yellow@ == "\x1b[33m"@
    }

    /// Every code is empty.
    pub open spec fn is_disabled(&self) -> bool {
        &&& self.bold@.len() == 0
        &&& self.dim@.len() == 0
        &&& self.reset@.len() == 0
        &&& self.cyan@.len() == 0
        &&& self.yellow@.len() == 0
    }

    /// The ANSI escape codes.
    pub fn enabled() -> (c: Colors)
        ensures
            c.is_enabled(),
    {
        Colors { bold: "\x1b[1m", dim: "\x1b[2m", reset: "\x1b[0m", cyan: "\x1b[36m", yellow: "\x1b[33m" }
    }

    /// No codes at all.
    pub fn disabled() -> (c: Colors)
        ensures
            c.is_disabled(),
    {
        proof {
            reveal_strlit("");
        }
        Colors { bold: "", dim: "", reset: "", cyan: "", yellow: "" }
    }

    /// The colors for a terminal, given whether `NO_COLOR` is set, the value
    /// of `TERM` and whether the output is a terminal.
    pub fn for_terminal(no_color: bool, term: Option<&str>, is_tty: bool) -> (c: Colors)
        ensures
            should_colorize(no_color, opt_view(term), is_tty) ==> c.is_enabled(),
            !should_colorize(no_color, opt_view(term), is_tty) ==> c.is_disabled(),
    {
        let dumb = match term {
            Some(t) => crate::text::str_eq(t, "dumb"),
            None => false,
        };
        if !no_color && !dumb && is_tty {
            Self::enabled()
        } else {
            Self::disabled()
        }
    }

    /// The colors for stdout, given whether `NO_COLOR` is set and the value
    /// of `TERM`; whether stdout is a terminal is asked of the process.
    pub fn stdout(no_color: bool, term: Option<&str>) -> (c: Colors)
        ensures
            c.is_enabled() || c.is_disabled(),
            (no_color || opt_view(term) == Some("dumb"@)) ==> c.is_disabled(),
    {
        let tty = stdout_is_terminal();
        Self::for_terminal(no_color, term, tty)
    }
}

/// The standard output stream of the process.
#[verifier::external_type_specification]
#[verifier::external_body]
pub struct ExStdout(std::io::Stdout);

/// `std::io::stdout`: a handle to this process's standard output.
#[verifier::external_body]
fn standard_output() -> std::io::Stdout {
    std::io::stdout()
}

/// `std::io::IsTerminal::is_terminal` on a standard output handle; nothing
/// is claimed of the answer.
#[verifier::external_body]
fn is_terminal(out: &std::io::Stdout) -> bool {
    std::io::IsTerminal::is_terminal(out)
}

/// Whether this process's stdout is a terminal.
fn stdout_is_terminal() -> bool {
    let out = standard_output();
    is_terminal(&out)
}

} // verus!
