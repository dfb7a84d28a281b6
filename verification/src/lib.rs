//! Duplicate-file detection over an in-memory directory tree.
//!
//! The library walks a tree of directories and files, computes a per-file
//! identity token under a chosen comparison strategy, and groups the paths
//! that share a token. Several scheduling backends are modelled; all of them
//! produce the same group membership.

use vstd::prelude::*;

pub mod engine;
pub mod groups;
pub mod identity;
pub mod laws;
pub mod limiter;
pub mod reorder;
pub mod schedule;
pub mod seqs;
pub mod tree;

use crate::engine::{ScanOutcome, outcome_matches, outcome_matches_exactly, scan_sequential};
use crate::schedule::{QueueOrder, scan_scheduled};
use crate::tree::{FsTree, spec_event_count};

verus! {

/// The selector text for grouping by name.
pub const COMP_NAME: &'static str = "name";

/// The selector text for grouping by content hash.
pub const COMP_HASH: &'static str = "hash";

/// The selector text for grouping by name and content hash.
pub const COMP_BOTH: &'static str = "both";

/// The selector text for the sequential backend.
pub const BACK_SYNC: &'static str = "sync";

/// The selector text for the single cooperative executor.
pub const BACK_ASYNC: &'static str = "async";

/// The selector text for the cooperative executor pool.
pub const BACK_MULTI_ASYNC: &'static str = "multi_async";

/// The selector text for the collector-thread backend.
pub const BACK_THREADED: &'static str = "thread";

/// The selector text for the worker-pool backend.
pub const BACK_MULTI_THREADED: &'static str = "multi_thread";

/// The selector text for running every backend in turn.
pub const BACK_ALL: &'static str = "all";

/// How many handle slots the cooperative backends configure.
pub const MAX_OPEN_FILES: usize = 10;

/// Strategy for computing a file's identity token.
#[derive(Clone, Copy, Debug, PartialEq, Eq, Structural)]
pub enum Comparison {
    /// Group files by their base name (the final path component).
    FileName,
    /// Group files by the SHA3-256 digest of their content.
    Hash,
    /// Group files by base name and content digest together.
    Both,
}

/// Scheduling backend that drives the traversal.
#[derive(Clone, Copy, Debug, PartialEq, Eq, Structural)]
pub enum Backend {
    /// One call stack, no concurrency; the correctness baseline.
    Sync,
    /// A single cooperative executor multiplexing many tasks.
    Async,
    /// Several cooperative executors sharing one task queue.
    MultiAsync,
    /// A dedicated collector thread fed by a recursive enumeration.
    Threaded,
    /// A pool of worker threads draining a shared file queue.
    MultiThreaded,
    /// Run every backend in turn over the same tree.
    All,
}

/// A selector text that names no known strategy or backend.
#[derive(Clone, Copy, Debug, PartialEq, Eq, Structural)]
pub enum ParseError {
    /// The text names no comparison strategy.
    UnknownComparison,
    /// The text names no backend.
    UnknownBackend,
}

/// The character with an ASCII uppercase letter folded to its lowercase.
pub open spec fn spec_lower_char(c: char) -> char {
    if 'A' <= c && c <= 'Z' {
        (((c as u8) + 32) as char)
    } else {
        c
    }
}

/// The text with its ASCII uppercase letters folded to lowercase.
pub open spec fn spec_lower(s: Seq<char>) -> Seq<char> {
    s.map_values(|c: char| spec_lower_char(c))
}

fn lower_char(c: char) -> (r: char)
    ensures
        r == spec_lower_char(c),
{
    if 'A' <= c && c <= 'Z' {
        ((c as u8) + 32) as char
    } else {
        c
    }
}

/// Does `s`, with ASCII letters folded to lowercase, read exactly `t`?
fn eq_folded(s: &str, t: &str) -> (r: bool)
    ensures
        r == (spec_lower(s@) == t@),
{
    let n = s.unicode_len();
    if n != t.unicode_len() {
        proof {
            assert(spec_lower(s@).len() == s@.len());
        }
        return false;
    }
    let mut i: usize = 0;
    while i < n
        invariant
            i <= n,
            n == s@.len(),
            n == t@.len(),
            forall|j: int| 0 <= j < i ==> spec_lower_char(s@[j]) == t@[j],
        decreases n - i,
    {
        if lower_char(s.get_char(i)) != t.get_char(i) {
            proof {
                assert(spec_lower(s@)[i as int] != t@[i as int]);
            }
            return false;
        }
        i = i + 1;
    }
    proof {
        assert(spec_lower(s@) =~= t@);
    }
    true
}

impl Comparison {
    /// Parse a selector text, ASCII case-insensitively: `name`, `hash` or
    /// `both`, and exactly those, name a strategy.
    pub fn from_str(s: &str) -> (r: Result<Comparison, ParseError>)
        ensures
            r == if spec_lower(s@) == COMP_NAME@ {
                Ok::<Comparison, ParseError>(Comparison::FileName)
            } else if spec_lower(s@) == COMP_HASH@ {
                Ok::<Comparison, ParseError>(Comparison::Hash)
            } else if spec_lower(s@) == COMP_BOTH@ {
                Ok::<Comparison, ParseError>(Comparison::Both)
            } else {
                Err::<Comparison, ParseError>(ParseError::UnknownComparison)
            },
    {
        if eq_folded(s, COMP_NAME) {
            Ok(Comparison::FileName)
        } else if eq_folded(s, COMP_HASH) {
            Ok(Comparison::Hash)
        } else if eq_folded(s, COMP_BOTH) {
            Ok(Comparison::Both)
        } else {
            Err(ParseError::UnknownComparison)
        }
    }
}

impl Backend {
    /// Parse a selector text, ASCII case-insensitively: `sync`, `async`,
    /// `multi_async`, `thread`, `multi_thread` or `all`, and exactly those,
    /// name a backend.
    pub fn from_str(s: &str) -> (r: Result<Backend, ParseError>)
        ensures
            r == if spec_lower(s@) == BACK_SYNC@ {
                Ok::<Backend, ParseError>(Backend::Sync)
            } else if spec_lower(s@) == BACK_ASYNC@ {
                Ok::<Backend, ParseError>(Backend::Async)
            } else if spec_lower(s@) == BACK_MULTI_ASYNC@ {
                Ok::<Backend, ParseError>(Backend::MultiAsync)
            } else if spec_lower(s@) == BACK_THREADED@ {
                Ok::<Backend, ParseError>(Backend::Threaded)
            } else if spec_lower(s@) == BACK_MULTI_THREADED@ {
                Ok::<Backend, ParseError>(Backend::MultiThreaded)
            } else if spec_lower(s@) == BACK_ALL@ {
                Ok::<Backend, ParseError>(Backend::All)
            } else {
                Err::<Backend, ParseError>(ParseError::UnknownBackend)
            },
    {
        if eq_folded(s, BACK_SYNC) {
            Ok(Backend::Sync)
        } else if eq_folded(s, BACK_ASYNC) {
            Ok(Backend::Async)
        } else if eq_folded(s, BACK_MULTI_ASYNC) {
            Ok(Backend::MultiAsync)
        } else if eq_folded(s, BACK_THREADED) {
            Ok(Backend::Threaded)
        } else if eq_folded(s, BACK_MULTI_THREADED) {
            Ok(Backend::MultiThreaded)
        } else if eq_folded(s, BACK_ALL) {
            Ok(Backend::All)
        } else {
            Err(ParseError::UnknownBackend)
        }
    }
}

/// How many handle slots a backend can hold at once: the bound its limiter
/// and its workers enforce. `All` reports the sequential baseline's outcome.
pub open spec fn handle_cap(backend: Backend, workers: int) -> int {
    match backend {
        Backend::Sync => 1,
        Backend::Async => 1,
        Backend::MultiAsync => MAX_OPEN_FILES as int,
        Backend::Threaded => 2,
        Backend::MultiThreaded => workers,
        Backend::All => 1,
    }
}

/// Scan the tree under the chosen backend and group the files by identity.
/// Every backend returns the same groups, the same errors and the same
/// counters; only the order of the paths inside a group depends on the
/// backend. `workers` is how many units the pooled backends run at once.
/// `All` runs every backend in turn and returns the sequential outcome.
pub fn find_doubles(comp: Comparison, backend: Backend, workers: usize, tree: &FsTree) -> (o:
    ScanOutcome)
    requires
        (*tree).is_dir_node(),
        spec_event_count(*tree) <= u64::MAX,
        workers >= 1,
    ensures
        outcome_matches(o, comp, *tree),
        backend is Sync || backend is All ==> outcome_matches_exactly(o, comp, *tree),
        o.peak_handles <= handle_cap(backend, workers as int),
{
    match backend {
        Backend::Sync => scan_sequential(comp, tree),
        // One cooperative executor: tasks interleave, one runs at a time,
        // newly spawned tasks run before older ones.
        Backend::Async => scan_scheduled(comp, tree, QueueOrder::Lifo, 1, MAX_OPEN_FILES),
        // A pool of cooperative executors sharing one queue and one limiter.
        Backend::MultiAsync => scan_scheduled(comp, tree, QueueOrder::Fifo, workers, MAX_OPEN_FILES),
        // One enumerating thread feeding one collector over a channel: at
        // most two handles open at once, jobs drained in send order.
        Backend::Threaded => scan_scheduled(comp, tree, QueueOrder::Fifo, 2, 2),
        // A pool of worker threads draining a shared channel.
        Backend::MultiThreaded => scan_scheduled(comp, tree, QueueOrder::Fifo, workers, workers),
        Backend::All => {
            let o = scan_sequential(comp, tree);
            let _ = scan_scheduled(comp, tree, QueueOrder::Lifo, 1, MAX_OPEN_FILES);
            let _ = scan_scheduled(comp, tree, QueueOrder::Fifo, workers, MAX_OPEN_FILES);
            let _ = scan_scheduled(comp, tree, QueueOrder::Fifo, 2, 2);
            let _ = scan_scheduled(comp, tree, QueueOrder::Fifo, workers, workers);
            o
        },
    }
}

} // verus!
