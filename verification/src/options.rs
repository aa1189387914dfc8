//! Run options and the process-level decisions of one export run: which
//! backend to use, what commit message and author to pass, and which
//! exit status to report.

use vstd::prelude::*;

use crate::git::GitErrorKind;

verus! {

/// The options of one export run.
pub struct Opt {
    /// Database file to read from.
    pub db_filename: String,
    /// Output directory or git bare repository.
    pub output_dir: String,
    /// Use git even where nothing else asks for it.
    pub git: bool,
    /// Author name for git commits.
    pub git_name: Option<String>,
    /// Author email for git commits.
    pub git_email: Option<String>,
    /// Commit message; a default is used when absent.
    pub git_message: Option<String>,
    /// Show a diff when something changed.
    pub git_diff: bool,
    /// Exit with status 1 when there were changes.
    pub git_diff_exit_code: bool,
}

impl Opt {
    /// The author name given on the command line, if any.
    pub fn git_name(&self) -> (r: Option<&str>)
        ensures
            match r {
                Some(s) => self.git_name matches Some(n) && s@ == n@,
                None => self.git_name is None,
            },
    {
        match &self.git_name {
            Some(s) => Some(s.as_str()),
            None => None,
        }
    }

    /// The author email given on the command line, if any.
    pub fn git_email(&self) -> (r: Option<&str>)
        ensures
            match r {
                Some(s) => self.git_email matches Some(n) && s@ == n@,
                None => self.git_email is None,
            },
    {
        match &self.git_email {
            Some(s) => Some(s.as_str()),
            None => None,
        }
    }

    /// The commit message: the given one, or the default.
    pub fn git_message(&self) -> (r: &str)
        ensures
            match self.git_message {
                Some(m) => r@ == m@,
                None => r@ == "sqlite2dir auto-commit"@,
            },
    {
        match &self.git_message {
            Some(m) => m.as_str(),
            None => "sqlite2dir auto-commit",
        }
    }

    /// Whether git behavior was asked for, explicitly or by any option
    /// that only makes sense with git.
    pub fn use_git(&self) -> (r: bool)
        ensures
            r == (self.git || self.git_diff || self.git_diff_exit_code || self.git_email is Some
                || self.git_name is Some),
    {
        self.git || self.git_diff || self.git_diff_exit_code || self.git_email.is_some()
            || self.git_name.is_some()
    }
}

/// What to do after trying to open the destination as a bare repository.
#[derive(PartialEq, Eq, Structural)]
pub enum Backend {
    /// It opened: export through git.
    Git,
    /// It is missing and git was asked for: create it, then export
    /// through git.
    CreateGit,
    /// It did not open and git was not asked for: export to a plain
    /// directory instead — a deliberate fallback, not a failure.
    Filesystem,
    /// It did not open for another reason and git was asked for: a
    /// fatal configuration error.
    Fail,
}

/// Picks the backend from the outcome of opening the destination
/// (nothing for success, else the failure's kind) and whether git
/// behavior was asked for.
pub fn select_backend(open_failure: Option<GitErrorKind>, use_git: bool) -> (r: Backend)
    ensures
        r == (match open_failure {
            None => Backend::Git,
            Some(k) => if !use_git {
                Backend::Filesystem
            } else if k == GitErrorKind::NotFound {
                Backend::CreateGit
            } else {
                Backend::Fail
            },
        }),
{
    match open_failure {
        None => Backend::Git,
        Some(k) => {
            if !use_git {
                Backend::Filesystem
            } else if k == GitErrorKind::NotFound {
                Backend::CreateGit
            } else {
                Backend::Fail
            }
        },
    }
}

/// The exit status of a run that finished: 1 exactly when exit-code
/// gating was asked for and something changed, else 0.
pub fn run_exit_code(diff_exit_code: bool, changed: bool) -> (r: i32)
    ensures
        r == (if diff_exit_code && changed {
            1int
        } else {
            0int
        }),
{
    if diff_exit_code && changed {
        1
    } else {
        0
    }
}

/// Whether a diff line of the given origin gets its origin marker
/// printed before its content: context, addition and deletion lines do,
/// every other line (headers, binary notices) is printed as it is.
pub fn shows_origin_marker(origin: char) -> (r: bool)
    ensures
        r == (origin == ' ' || origin == '+' || origin == '-'),
{
    origin == ' ' || origin == '+' || origin == '-'
}

/// The exit status of a run that failed: 2 when exit-code gating was
/// asked for (so 1 keeps meaning "changes"), else 1.
pub fn failure_exit_code(diff_exit_code: bool) -> (r: i32)
    ensures
        r == (if diff_exit_code {
            2int
        } else {
            1int
        }),
{
    if diff_exit_code {
        2
    } else {
        1
    }
}

} // verus!
