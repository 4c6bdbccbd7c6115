//! Session configuration: which shell's history to read, and from
//! which file.

use vstd::prelude::*;
use vstd::string::StringExecFns;

use crate::shell::{has_history_suffix, shell_from_name, ShellType};
use crate::Error;

verus! {

/// The resolved configuration of one search session.
#[derive(Debug)]
pub struct Config {
    /// The shell whose history is read.
    pub shell_type: ShellType,
    /// The path of the history file.
    pub history_file: String,
}

impl Config {
    /// Builds a configuration from an optional shell name and an
    /// optional history-file path.  A given name must match a known
    /// shell; without one, the shell detected by the caller is used.
    /// A given path is taken as is; without one, the shell's default
    /// path under the home directory is used.
    pub fn new(shell_type: Option<String>, history_file: Option<String>, detected: ShellType) -> (r:
        Result<Config, Error>)
        ensures
            ({
                let st = match shell_type {
                    Some(n) => shell_from_name(n@),
                    None => Some(detected),
                };
                st is None ==> (r matches Err(e) && e matches Error::ShellDetection(m) && (
                shell_type matches Some(n) ==> m@ == "Unsupported shell type: "@ + n@))
            }),
            ({
                let st = match shell_type {
                    Some(n) => shell_from_name(n@),
                    None => Some(detected),
                };
                st matches Some(s) ==> (history_file matches Some(p) ==> (r matches Ok(c)
                    && c.shell_type == s && c.history_file@ == p@))
            }),
            ({
                let st = match shell_type {
                    Some(n) => shell_from_name(n@),
                    None => Some(detected),
                };
                st matches Some(s) ==> (history_file is None ==> ((r matches Ok(c)
                    && c.shell_type == s && has_history_suffix(c.history_file@, s)) || (r matches Err(e) && e matches Error::Other(m) && m@
                    == "Could not determine home directory"@)))
            }),
    {
        let st = match &shell_type {
            Some(name) => match ShellType::from_name(name.as_str()) {
                Some(s) => s,
                None => {
                    let mut msg = "Unsupported shell type: ".to_owned();
                    msg.append(name.as_str());
                    return Err(Error::ShellDetection(msg));
                },
            },
            None => detected,
        };
        let hf = match history_file {
            Some(p) => p,
            None => match st.default_history_path() {
                Ok(p) => p,
                Err(e) => {
                    return Err(e);
                },
            },
        };
        Ok(Config { shell_type: st, history_file: hf })
    }
}

} // verus!
