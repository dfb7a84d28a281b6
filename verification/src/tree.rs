//! The in-memory model of a directory tree, and the canonical sequence of
//! visit events that a traversal of such a tree produces.

use vstd::prelude::*;

verus! {

/// What one scan learned about one filesystem entry. Reading the real
/// filesystem happens outside the library; a tree records, per entry, whether
/// each read succeeded, so that the traversal and grouping logic can be
/// stated and checked over plain values.
pub enum FsTree {
    /// A regular file whose content was read.
    File { name: String, content: Vec<u8> },
    /// A regular file whose content could not be read.
    FileUnreadable { name: String },
    /// A directory whose children were listed.
    Dir { name: String, entries: Vec<FsTree> },
    /// A directory whose children could not be listed.
    DirUnreadable { name: String },
    /// An entry whose metadata could not be read, so its kind is unknown.
    Unknown { name: String },
}

/// A path, as the sequence of entry names from the scan root down.
pub type PathModel = Seq<Seq<char>>;

/// One traversal event: a visited entry together with its full path.
pub type Event = (PathModel, FsTree);

impl FsTree {
    /// The entry's own name.
    pub open spec fn name_view(self) -> Seq<char> {
        match self {
            FsTree::File { name, .. } => name@,
            FsTree::FileUnreadable { name } => name@,
            FsTree::Dir { name, .. } => name@,
            FsTree::DirUnreadable { name } => name@,
            FsTree::Unknown { name } => name@,
        }
    }

    /// The entry is a regular file, readable or not.
    pub open spec fn is_file_node(self) -> bool {
        self is File || self is FileUnreadable
    }

    /// The entry is a directory, listable or not.
    pub open spec fn is_dir_node(self) -> bool {
        self is Dir || self is DirUnreadable
    }
}

/// The events a traversal of `t` produces, in depth-first order: the entry
/// itself, then, for a listable directory, the events of its children in
/// order. `prefix` is the path of the entry's parent. Children of an
/// unlistable directory are never visited.
pub open spec fn spec_events(prefix: PathModel, t: FsTree) -> Seq<Event>
    decreases t,
{
    let path = prefix.push(t.name_view());
    match t {
        FsTree::Dir { name, entries } => seq![(path, t)] + spec_events_of(path, entries@),
        _ => seq![(path, t)],
    }
}

/// The events of a sequence of sibling entries, concatenated in order.
/// `prefix` is the path of their common parent directory.
pub open spec fn spec_events_of(prefix: PathModel, es: Seq<FsTree>) -> Seq<Event>
    decreases es,
{
    if es.len() == 0 {
        Seq::empty()
    } else {
        spec_events_of(prefix, es.drop_last()) + spec_events(prefix, es.last())
    }
}

/// The events of a whole scan rooted at `t`.
pub open spec fn scan_events(t: FsTree) -> Seq<Event> {
    spec_events(Seq::empty(), t)
}

/// Sibling events concatenate: the events of two runs of siblings, one after
/// the other, are the events of the first run followed by the second's.
pub proof fn lemma_events_of_concat(prefix: PathModel, a: Seq<FsTree>, b: Seq<FsTree>)
    ensures
        spec_events_of(prefix, a + b) == spec_events_of(prefix, a) + spec_events_of(prefix, b),
    decreases b.len(),
{
    if b.len() == 0 {
        assert(a + b =~= a);
        assert(spec_events_of(prefix, a) + spec_events_of(prefix, b) =~= spec_events_of(
            prefix,
            a,
        ));
    } else {
        lemma_events_of_concat(prefix, a, b.drop_last());
        assert((a + b).drop_last() =~= a + b.drop_last());
        assert((a + b).last() == b.last());
        assert(spec_events_of(prefix, a) + spec_events_of(prefix, b) =~= spec_events_of(prefix, a)
            + spec_events_of(prefix, b.drop_last()) + spec_events(prefix, b.last()));
    }
}

/// One more sibling contributes exactly its own events, at the end.
pub proof fn lemma_events_of_take_succ(prefix: PathModel, es: Seq<FsTree>, j: int)
    requires
        0 <= j < es.len(),
    ensures
        spec_events_of(prefix, es.take(j + 1)) == spec_events_of(prefix, es.take(j))
            + spec_events(prefix, es[j]),
{
    assert(es.take(j + 1).drop_last() =~= es.take(j));
    assert(es.take(j + 1).last() == es[j]);
}

/// How many entries a traversal of `t` visits. It does not depend on where
/// the tree stands, so callers can bound a scan's counters by counting.
pub open spec fn spec_event_count(t: FsTree) -> nat
    decreases t,
{
    match t {
        FsTree::Dir { name, entries } => 1 + spec_event_count_of(entries@),
        _ => 1,
    }
}

/// How many entries traversals of a run of siblings visit, together.
pub open spec fn spec_event_count_of(es: Seq<FsTree>) -> nat
    decreases es,
{
    if es.len() == 0 {
        0
    } else {
        spec_event_count_of(es.drop_last()) + spec_event_count(es.last())
    }
}

/// The visit count is the length of the event sequence, whatever the prefix.
pub proof fn lemma_events_len(prefix: PathModel, t: FsTree)
    ensures
        spec_events(prefix, t).len() == spec_event_count(t),
    decreases t,
{
    match t {
        FsTree::Dir { name, entries } => {
            lemma_events_len_of(prefix.push(name@), entries@);
        },
        _ => {},
    }
}

proof fn lemma_events_len_of(prefix: PathModel, es: Seq<FsTree>)
    ensures
        spec_events_of(prefix, es).len() == spec_event_count_of(es),
    decreases es,
{
    if es.len() > 0 {
        lemma_events_len_of(prefix, es.drop_last());
        lemma_events_len(prefix, es.last());
    }
}

/// Sibling visit counts add up.
proof fn lemma_event_count_of_concat(a: Seq<FsTree>, b: Seq<FsTree>)
    ensures
        spec_event_count_of(a + b) == spec_event_count_of(a) + spec_event_count_of(b),
    decreases b.len(),
{
    if b.len() == 0 {
        assert(a + b =~= a);
    } else {
        lemma_event_count_of_concat(a, b.drop_last());
        assert((a + b).drop_last() =~= a + b.drop_last());
        assert((a + b).last() == b.last());
    }
}

/// Count the entries a traversal of `t` would visit: `None` when the count
/// does not fit the scan's counters, which cannot happen for a tree that
/// fits in memory.
pub fn count_events(t: &FsTree) -> (r: Option<u64>)
    ensures
        r matches Some(n) ==> n == spec_event_count(*t),
        r is None ==> spec_event_count(*t) > u64::MAX,
    decreases *t,
{
    match t {
        FsTree::Dir { entries, .. } => {
            let ghost es = entries@;
            let mut total: u64 = 1;
            let mut i: usize = 0;
            #[verifier::loop_isolation(false)]
            while i < entries.len()
                invariant
                    i <= es.len(),
                    total == 1 + spec_event_count_of(es.take(i as int)),
                decreases es.len() - i,
            {
                proof {
                    assert(es =~= es.take(i + 1) + es.skip(i + 1));
                    lemma_event_count_of_concat(es.take(i + 1), es.skip(i + 1));
                    assert(es.take(i + 1).drop_last() =~= es.take(i as int));
                    assert(es.take(i + 1).last() == es[i as int]);
                }
                let c = match count_events(&entries[i]) {
                    Some(c) => c,
                    None => {
                        return None;
                    },
                };
                total = match total.checked_add(c) {
                    Some(v) => v,
                    None => {
                        return None;
                    },
                };
                i = i + 1;
            }
            proof {
                assert(es.take(es.len() as int) =~= es);
            }
            Some(total)
        },
        _ => Some(1),
    }
}

/// Every event of one sibling's traversal is among the events of the whole
/// run of siblings: no sibling's traversal is lost to another's.
pub proof fn lemma_events_of_child(prefix: PathModel, es: Seq<FsTree>, j: int)
    requires
        0 <= j < es.len(),
    ensures
        forall|k: int|
            0 <= k < spec_events(prefix, es[j]).len() ==> spec_events_of(prefix, es).contains(
                #[trigger] spec_events(prefix, es[j])[k],
            ),
{
    assert(es =~= es.take(j + 1) + es.skip(j + 1));
    lemma_events_of_concat(prefix, es.take(j + 1), es.skip(j + 1));
    lemma_events_of_take_succ(prefix, es, j);
    let a = spec_events_of(prefix, es.take(j));
    let c = spec_events(prefix, es[j]);
    assert forall|k: int| 0 <= k < c.len() implies spec_events_of(prefix, es).contains(
        c[k],
    ) by {
        assert(spec_events_of(prefix, es)[a.len() + k] == c[k]);
    }
}

} // verus!
