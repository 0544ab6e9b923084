//! A small text-search library: a verified line matcher, a verified
//! work-dispatch model (job queue with clean disposal), and a verified
//! directory-walk policy that decides which entries become search jobs.
use vstd::prelude::*;

pub mod report;
pub mod search;
pub mod thread_pool;
pub mod walker;

pub use report::split_by_matches;
pub use report::Span;
pub use search::search;
pub use search::search_case_insensitive;

verus! {

/// Settings for one search invocation, carried by value into every
/// recursive walk step and every submitted job, so that no step can
/// affect its siblings.
pub struct Config {
    /// String to look for.
    pub query: String,
    /// File or directory to search in.
    pub file_path: String,
    /// Directory the search was started from, used to shorten paths on display.
    pub original_path: String,
    /// Match without regard to case.
    pub ignore_case: bool,
    /// Also search entries whose name starts with the hidden marker.
    pub hidden_files: bool,
    /// Search entries that the ignore-rule evaluator would reject.
    pub force_git: bool,
    /// Number of worker threads the caller intends to use.
    pub thread_count: usize,
}

impl Config {
    /// Assembles a configuration from already-parsed argument values.
    pub fn build(
        query: String,
        file_path: String,
        original_path: String,
        ignore_case: bool,
        hidden_files: bool,
        force_git: bool,
        thread_count: usize,
    ) -> (r: Result<Config, &'static str>)
        ensures
            r is Ok,
            r matches Ok(c) ==> {
                &&& c.query == query
                &&& c.file_path == file_path
                &&& c.original_path == original_path
                &&& c.ignore_case == ignore_case
                &&& c.hidden_files == hidden_files
                &&& c.force_git == force_git
                &&& c.thread_count == thread_count
            },
    {
        Ok(Config { query, file_path, original_path, ignore_case, hidden_files, force_git, thread_count })
    }
}

impl Clone for Config {
    fn clone(&self) -> (r: Self)
        ensures
            r == *self,
    {
        Config {
            query: self.query.clone(),
            file_path: self.file_path.clone(),
            original_path: self.original_path.clone(),
            ignore_case: self.ignore_case,
            hidden_files: self.hidden_files,
            force_git: self.force_git,
            thread_count: self.thread_count,
        }
    }
}

} // verus!
