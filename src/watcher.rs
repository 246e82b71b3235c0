//! The configuration of a watch.
use vstd::prelude::*;

verus! {

/// One second in nanoseconds.
pub const SECOND: u64 = 1_000_000_000;

/// Watches for files that match a glob pattern and hands each one, once it
/// has matured, to a processing function. Times are nanoseconds.
pub struct Watcher<F> {
    glob: String,
    /// The function called on each matured file.
    callback: F,
    /// The least time between the starts of two ticks; one second by default.
    check_interval: u64,
    /// Whether files are deleted after they were processed successfully;
    /// `false` by default.
    delete_on_completion: bool,
    /// How long a modification time must stay unchanged before the file is
    /// processed; five seconds by default.
    mature_after: u64,
    /// Whether diagnostics are written; `false` by default.
    verbose: bool,
}

impl<F> Watcher<F> {
    pub closed spec fn glob_spec(&self) -> Seq<char> {
        self.glob@
    }

    pub closed spec fn callback_spec(&self) -> F {
        self.callback
    }

    pub closed spec fn check_interval_spec(&self) -> u64 {
        self.check_interval
    }

    pub closed spec fn delete_spec(&self) -> bool {
        self.delete_on_completion
    }

    pub closed spec fn mature_after_spec(&self) -> u64 {
        self.mature_after
    }

    pub closed spec fn verbose_spec(&self) -> bool {
        self.verbose
    }

    /// A watcher of the files that match `glob`, with the default settings.
    pub fn new(glob: &str, callback: F) -> (r: Self)
        ensures
            r.glob_spec() == glob@,
            r.callback_spec() == callback,
            r.check_interval_spec() == SECOND,
            !r.delete_spec(),
            r.mature_after_spec() == 5 * SECOND,
            !r.verbose_spec(),
    {
        Watcher {
            glob: glob.to_owned(),
            callback,
            check_interval: SECOND,
            delete_on_completion: false,
            mature_after: 5 * SECOND,
            verbose: false,
        }
    }

    /// Sets the least time between the starts of two ticks.
    pub fn check_duration(self, nanos: u64) -> (r: Self)
        ensures
            r.check_interval_spec() == nanos,
            r.glob_spec() == self.glob_spec(),
            r.callback_spec() == self.callback_spec(),
            r.delete_spec() == self.delete_spec(),
            r.mature_after_spec() == self.mature_after_spec(),
            r.verbose_spec() == self.verbose_spec(),
    {
        Watcher { check_interval: nanos, ..self }
    }

    /// Sets whether files are deleted after they were processed successfully.
    pub fn delete_on_completion(self, delete: bool) -> (r: Self)
        ensures
            r.delete_spec() == delete,
            r.glob_spec() == self.glob_spec(),
            r.callback_spec() == self.callback_spec(),
            r.check_interval_spec() == self.check_interval_spec(),
            r.mature_after_spec() == self.mature_after_spec(),
            r.verbose_spec() == self.verbose_spec(),
    {
        Watcher { delete_on_completion: delete, ..self }
    }

    /// Sets whether diagnostics are written.
    pub fn verbose(self, verbose: bool) -> (r: Self)
        ensures
            r.verbose_spec() == verbose,
            r.glob_spec() == self.glob_spec(),
            r.callback_spec() == self.callback_spec(),
            r.check_interval_spec() == self.check_interval_spec(),
            r.delete_spec() == self.delete_spec(),
            r.mature_after_spec() == self.mature_after_spec(),
    {
        Watcher { verbose, ..self }
    }

    /// Sets how long a modification time must stay unchanged before the file
    /// is processed.
    pub fn maturation(self, nanos: u64) -> (r: Self)
        ensures
            r.mature_after_spec() == nanos,
            r.glob_spec() == self.glob_spec(),
            r.callback_spec() == self.callback_spec(),
            r.check_interval_spec() == self.check_interval_spec(),
            r.delete_spec() == self.delete_spec(),
            r.verbose_spec() == self.verbose_spec(),
    {
        Watcher { mature_after: nanos, ..self }
    }

    /// The glob pattern.
    pub fn glob(&self) -> (r: &String)
        ensures
            r@ == self.glob_spec(),
    {
        &self.glob
    }

    /// The processing function.
    pub fn callback(&self) -> (r: &F)
        ensures
            *r == self.callback_spec(),
    {
        &self.callback
    }

    /// The least time between the starts of two ticks.
    pub fn check_interval(&self) -> (r: u64)
        ensures
            r == self.check_interval_spec(),
    {
        self.check_interval
    }

    /// How long a modification time must stay unchanged.
    pub fn mature_after(&self) -> (r: u64)
        ensures
            r == self.mature_after_spec(),
    {
        self.mature_after
    }

    /// Whether files are deleted after they were processed successfully.
    pub fn deletes_on_completion(&self) -> (r: bool)
        ensures
            r == self.delete_spec(),
    {
        self.delete_on_completion
    }

    /// Whether diagnostics are written.
    pub fn is_verbose(&self) -> (r: bool)
        ensures
            r == self.verbose_spec(),
    {
        self.verbose
    }

    /// Whether a file is to be deleted after processing gave `outcome`: only
    /// on success, and only where deletion was asked for. Whether deleting
    /// then works has no bearing on the outcome recorded.
    pub fn deletes_after<T, E>(&self, outcome: &Result<T, E>) -> (r: bool)
        ensures
            r == (self.delete_spec() && outcome is Ok),
    {
        self.delete_on_completion && outcome.is_ok()
    }
}

} // verus!
