//! What the window manager is asked to do when it starts.

use vstd::prelude::*;

verus! {

/// A script to run once, when the window manager starts.
pub struct StartupScript {
    path: String,
}

impl StartupScript {
    /// The command line of the script.
    pub closed spec fn command(&self) -> String {
        self.path
    }

    /// The startup script whose command line is what `s` converts into.
    pub fn new<S: Into<String>>(s: S) -> (script: Self)
        ensures
            call_ensures(<S as Into<String>>::into, (s,), script.command()),
    {
        Self::with_path(s.into())
    }

    /// The startup script whose command line is `path`.
    pub fn with_path(path: String) -> (script: Self)
        ensures
            script.command() == path,
    {
        Self { path }
    }

    /// The command line of the script, as it was given.
    pub fn path(&self) -> (path: &str)
        ensures
            path@ == self.command()@,
    {
        self.path.as_str()
    }
}

} // verus!
