//! Which directory to scan.
use vstd::prelude::*;
use vstd::string::*;

verus! {

/// Why no directory to scan could be settled on.
#[derive(Debug, PartialEq, Eq)]
pub enum TargetError {
    /// The directory given explicitly does not exist.
    Missing(String),
    /// No directory was given and the working directory lies in no repository.
    NotARepository,
}

impl TargetError {
    /// The text of the error.
    pub open spec fn text(&self) -> Seq<char> {
        match self {
            TargetError::Missing(p) => "Directory does not exist: "@ + p@,
            TargetError::NotARepository =>
                "The current directory is not a git repository. For use outside of git repositories, please provide a directory path."@,
        }
    }

    /// The message shown for the error.
    pub fn message(&self) -> (r: String)
        ensures
            r@ == self.text(),
    {
        match self {
            TargetError::Missing(p) => {
                let mut m = String::from_str("Directory does not exist: ");
                m.append(p.as_str());
                m
            },
            TargetError::NotARepository => String::from_str(
                "The current directory is not a git repository. For use outside of git repositories, please provide a directory path.",
            ),
        }
    }
}

/// Settles the directory to scan. An explicit `path_arg` is taken when it
/// exists (`path_exists`); without one, the top of the repository that holds
/// the working directory (`repo_root`, found by the caller) is taken.
pub fn resolve_target_directory(
    path_arg: Option<String>,
    path_exists: bool,
    repo_root: Option<String>,
) -> (r: Result<String, TargetError>)
    ensures
        match path_arg {
            Some(p) => if path_exists {
                r == Ok::<String, TargetError>(p)
            } else {
                r == Err::<String, TargetError>(TargetError::Missing(p))
            },
            None => match repo_root {
                Some(root) => r == Ok::<String, TargetError>(root),
                None => r == Err::<String, TargetError>(TargetError::NotARepository),
            },
        },
{
    match path_arg {
        Some(p) => {
            if path_exists {
                Ok(p)
            } else {
                Err(TargetError::Missing(p))
            }
        },
        None => match repo_root {
            Some(root) => Ok(root),
            None => Err(TargetError::NotARepository),
        },
    }
}

} // verus!
