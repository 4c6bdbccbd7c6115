//! Shell profiles: which shells are known, how each is recognised from
//! a name or a path, which history format each writes, and where its
//! history file lives by default.

use vstd::prelude::*;
use vstd::string::StringExecFns;

use crate::text::{contains_seq, lower_seq, seq_ends_with, trim_seq};
use crate::text::{str_contains_ci, str_ends_with_ci, str_trim};
use crate::Error;

verus! {

/// The shells whose history files can be read.
#[derive(Debug, Clone, Copy, PartialEq, Eq, Structural)]
pub enum ShellType {
    /// The Bourne-again shell.
    Bash,
    /// The Z shell.
    Zsh,
    /// The fish shell.
    Fish,
}

/// The on-disk layouts of a history file.
#[derive(Debug, Clone, Copy, PartialEq, Eq, Structural)]
pub enum HistoryFormat {
    /// One command per line, no timestamps.
    Plain,
    /// Lines of the shape `: <seconds>:<duration>;<command>`.
    ZshExtended,
    /// Lines holding `cmd:` and `when:` markers.
    Fish,
}

/// The shell whose name occurs, ignoring case, in the given string;
/// `bash` is tried first, then `zsh`, then `fish`.
pub open spec fn shell_from_name(s: Seq<char>) -> Option<ShellType> {
    if contains_seq(lower_seq(s), lower_seq("bash"@)) {
        Some(ShellType::Bash)
    } else if contains_seq(lower_seq(s), lower_seq("zsh"@)) {
        Some(ShellType::Zsh)
    } else if contains_seq(lower_seq(s), lower_seq("fish"@)) {
        Some(ShellType::Fish)
    } else {
        None
    }
}

/// The shell whose name ends the given path, after trimming and
/// ignoring case; `bash` is tried first, then `zsh`, then `fish`.
pub open spec fn shell_from_path(s: Seq<char>) -> Option<ShellType> {
    if seq_ends_with(lower_seq(trim_seq(s)), lower_seq("bash"@)) {
        Some(ShellType::Bash)
    } else if seq_ends_with(lower_seq(trim_seq(s)), lower_seq("zsh"@)) {
        Some(ShellType::Zsh)
    } else if seq_ends_with(lower_seq(trim_seq(s)), lower_seq("fish"@)) {
        Some(ShellType::Fish)
    } else {
        None
    }
}

/// The history format each shell writes.
pub open spec fn format_of(st: ShellType) -> HistoryFormat {
    match st {
        ShellType::Bash => HistoryFormat::Plain,
        ShellType::Zsh => HistoryFormat::ZshExtended,
        ShellType::Fish => HistoryFormat::Fish,
    }
}

/// The path of each shell's history file, relative to the home
/// directory and starting with the separator.
pub open spec fn history_suffix(st: ShellType) -> Seq<char> {
    match st {
        ShellType::Bash => "/.bash_history"@,
        ShellType::Zsh => "/.zsh_history"@,
        ShellType::Fish => "/.local/share/fish/fish_history"@,
    }
}

/// The path is some home-directory prefix followed by the shell's
/// history suffix.
pub open spec fn has_history_suffix(p: Seq<char>, st: ShellType) -> bool {
    exists|h: Seq<char>| p == h + history_suffix(st)
}

/// Relies on dirs::home_dir for the home directory lookup; the result
/// depends on the environment, so nothing is claimed of it.
#[verifier::external_body]
fn home_dir_string() -> (r: Option<String>) {
    dirs::home_dir().and_then(|p| p.to_str().map(|s| s.to_string()))
}

impl ShellType {
    /// Recognises a shell from a user-supplied name by case-insensitive
    /// substring containment.
    pub fn from_name(name: &str) -> (r: Option<ShellType>)
        ensures
            r == shell_from_name(name@),
    {
        if str_contains_ci(name, "bash") {
            Some(ShellType::Bash)
        } else if str_contains_ci(name, "zsh") {
            Some(ShellType::Zsh)
        } else if str_contains_ci(name, "fish") {
            Some(ShellType::Fish)
        } else {
            None
        }
    }

    /// Recognises a shell from the trailing component of a path,
    /// ignoring surrounding whitespace and case.
    pub fn from_path(path: &str) -> (r: Option<ShellType>)
        ensures
            r == shell_from_path(path@),
    {
        let t = str_trim(path);
        if str_ends_with_ci(t, "bash") {
            Some(ShellType::Bash)
        } else if str_ends_with_ci(t, "zsh") {
            Some(ShellType::Zsh)
        } else if str_ends_with_ci(t, "fish") {
            Some(ShellType::Fish)
        } else {
            None
        }
    }

    /// The history format this shell writes.
    pub fn history_format(&self) -> (r: HistoryFormat)
        ensures
            r == format_of(*self),
    {
        match self {
            ShellType::Bash => HistoryFormat::Plain,
            ShellType::Zsh => HistoryFormat::ZshExtended,
            ShellType::Fish => HistoryFormat::Fish,
        }
    }

    /// The default history path inside a given home directory.
    pub fn history_path_in(&self, home: &str) -> (r: String)
        ensures
            r@ == home@ + history_suffix(*self),
    {
        let mut p = home.to_owned();
        match self {
            ShellType::Bash => p.append("/.bash_history"),
            ShellType::Zsh => p.append("/.zsh_history"),
            ShellType::Fish => p.append("/.local/share/fish/fish_history"),
        }
        p
    }

    /// The default history path under the current home directory, or an
    /// error when no home directory can be determined.
    pub fn default_history_path(&self) -> (r: Result<String, Error>)
        ensures
            r matches Ok(p) ==> has_history_suffix(p@, *self),
            r matches Err(e) ==> e matches Error::Other(m) && m@
                == "Could not determine home directory"@,
    {
        match home_dir_string() {
            Some(home) => {
                let p = self.history_path_in(home.as_str());
                proof {
                    assert(has_history_suffix(p@, *self)) by {
                        assert(p@ == home@ + history_suffix(*self));
                    }
                }
                Ok(p)
            },
            None => Err(Error::Other("Could not determine home directory".to_owned())),
        }
    }
}

} // verus!
