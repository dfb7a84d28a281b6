//! The traversal engine: what one scan of a tree produces, and the
//! sequential (single call stack) way of producing it.

use vstd::prelude::*;

use crate::Comparison;
use crate::groups::{DuplicateGroups, spec_append};
use crate::identity::{ScanErrorKind, get_file_id, spec_identity};
use crate::seqs::{lemma_filter_map_concat, lemma_filter_map_len};
use crate::tree::{
    Event, FsTree, PathModel, lemma_events_len, lemma_events_of_concat, lemma_events_of_take_succ,
    scan_events, spec_event_count, spec_events, spec_events_of,
};

verus! {

/// One non-fatal failure met during a scan: the entry's path and why it was
/// skipped or excluded.
pub struct ScanError {
    /// The path of the offending entry.
    pub path: Vec<String>,
    /// Why the entry produced no identity.
    pub kind: ScanErrorKind,
}

/// Everything a scan returns: the group mapping, the per-entry failures, the
/// visit counters, and how many handle slots the run held at its busiest.
pub struct ScanOutcome {
    /// Identity token to the paths that share it.
    pub groups: DuplicateGroups,
    /// The non-fatal failures, each logged exactly once.
    pub errors: Vec<ScanError>,
    /// Regular files visited (readable or not).
    pub files: u64,
    /// Directories visited (listable or not).
    pub dirs: u64,
    /// The most handle slots the scan ever held at once.
    pub peak_handles: usize,
}

/// What a visited entry contributes to the group mapping: the token and path
/// of a successfully identified file, nothing otherwise.
pub open spec fn event_group_entry(comp: Comparison, e: Event) -> Option<(Seq<char>, PathModel)> {
    if e.1.is_file_node() {
        match spec_identity(comp, e.0, e.1) {
            Ok(token) => Some((token, e.0)),
            Err(_) => None,
        }
    } else {
        None
    }
}

/// What a visited entry contributes to the error log: one entry for an
/// unlistable directory, an unstattable entry, or a file whose identity
/// failed; nothing otherwise.
pub open spec fn event_error(comp: Comparison, e: Event) -> Option<(PathModel, ScanErrorKind)> {
    match e.1 {
        FsTree::Dir { .. } => None,
        FsTree::DirUnreadable { .. } => Some((e.0, ScanErrorKind::UnreadableDir)),
        FsTree::Unknown { .. } => Some((e.0, ScanErrorKind::Metadata)),
        _ => match spec_identity(comp, e.0, e.1) {
            Ok(_) => None,
            Err(kind) => Some((e.0, kind)),
        },
    }
}

/// Marks file events, for counting them.
pub open spec fn event_file_mark(e: Event) -> Option<()> {
    if e.1.is_file_node() {
        Some(())
    } else {
        None
    }
}

/// Marks directory events, for counting them.
pub open spec fn event_dir_mark(e: Event) -> Option<()> {
    if e.1.is_dir_node() {
        Some(())
    } else {
        None
    }
}

/// The errors the given events log, in order.
pub open spec fn spec_errs(comp: Comparison, events: Seq<Event>) -> Seq<
    (PathModel, ScanErrorKind),
> {
    events.filter_map(|e: Event| event_error(comp, e))
}

/// How many of the given events visit a regular file.
pub open spec fn spec_file_count(events: Seq<Event>) -> nat {
    events.filter_map(|e: Event| event_file_mark(e)).len()
}

/// How many of the given events visit a directory.
pub open spec fn spec_dir_count(events: Seq<Event>) -> nat {
    events.filter_map(|e: Event| event_dir_mark(e)).len()
}

/// `m` after aggregating one event.
pub open spec fn apply_event(
    m: Map<Seq<char>, Seq<Seq<Seq<char>>>>,
    comp: Comparison,
    e: Event,
) -> Map<Seq<char>, Seq<Seq<Seq<char>>>> {
    match event_group_entry(comp, e) {
        Some((token, path)) => spec_append(m, token, path),
        None => m,
    }
}

/// `m` after aggregating the given events in order.
pub open spec fn groups_after(
    m: Map<Seq<char>, Seq<Seq<Seq<char>>>>,
    comp: Comparison,
    events: Seq<Event>,
) -> Map<Seq<char>, Seq<Seq<Seq<char>>>>
    decreases events.len(),
{
    if events.len() == 0 {
        m
    } else {
        apply_event(groups_after(m, comp, events.drop_last()), comp, events.last())
    }
}

/// The group mapping of a whole scan of `t`: every event aggregated in
/// depth-first order, starting from the empty mapping.
pub open spec fn scan_groups(comp: Comparison, t: FsTree) -> Map<Seq<char>, Seq<Seq<Seq<char>>>> {
    groups_after(Map::empty(), comp, scan_events(t))
}

/// The error log of a whole scan of `t`, in depth-first order.
pub open spec fn scan_errors(comp: Comparison, t: FsTree) -> Seq<(PathModel, ScanErrorKind)> {
    spec_errs(comp, scan_events(t))
}

/// The error log a vector of scan errors stands for.
pub open spec fn errs_view(es: Seq<ScanError>) -> Seq<(PathModel, ScanErrorKind)> {
    es.map_values(|e: ScanError| (e.path.deep_view(), e.kind))
}

/// The outcome agrees with a scan of `t` exactly, event for event in
/// depth-first order: what the sequential baseline produces.
pub open spec fn outcome_matches_exactly(o: ScanOutcome, comp: Comparison, t: FsTree) -> bool {
    &&& o.groups.wf()
    &&& o.groups.as_map() == scan_groups(comp, t)
    &&& errs_view(o.errors@) == scan_errors(comp, t)
    &&& o.files == spec_file_count(scan_events(t))
    &&& o.dirs == spec_dir_count(scan_events(t))
}

/// The outcome agrees with a scan of `t` up to arrival order: the same
/// tokens, each with the same paths as a multiset; the same errors as a
/// multiset; the same counters. Every scheduling backend guarantees this
/// much; only the arrival order within a group may differ between backends.
pub open spec fn outcome_matches(o: ScanOutcome, comp: Comparison, t: FsTree) -> bool {
    &&& o.groups.wf()
    &&& o.groups.as_map().dom() == scan_groups(comp, t).dom()
    &&& forall|token: Seq<char>|
        o.groups.as_map().dom().contains(token) ==> o.groups.as_map()[token].to_multiset()
            == scan_groups(comp, t)[token].to_multiset()
    &&& errs_view(o.errors@).to_multiset() == scan_errors(comp, t).to_multiset()
    &&& o.files == spec_file_count(scan_events(t))
    &&& o.dirs == spec_dir_count(scan_events(t))
}

/// Running diagnostics of one scan: the error log and the visit counters.
pub(crate) struct Diag {
    pub errors: Vec<ScanError>,
    pub files: u64,
    pub dirs: u64,
}

/// A single event aggregates, logs and counts as that one event says.
pub proof fn lemma_single_event(
    m: Map<Seq<char>, Seq<Seq<Seq<char>>>>,
    comp: Comparison,
    e: Event,
)
    ensures
        groups_after(m, comp, seq![e]) == apply_event(m, comp, e),
        spec_errs(comp, seq![e]) == match event_error(comp, e) {
            Some(err) => seq![err],
            None => Seq::<(PathModel, ScanErrorKind)>::empty(),
        },
        spec_file_count(seq![e]) == if e.1.is_file_node() {
            1nat
        } else {
            0nat
        },
        spec_dir_count(seq![e]) == if e.1.is_dir_node() {
            1nat
        } else {
            0nat
        },
{
    assert(seq![e].drop_last() =~= Seq::<Event>::empty());
    assert(groups_after(m, comp, Seq::<Event>::empty()) == m);
    assert(seq![e].last() == e);
    Seq::<Event>::lemma_filter_map_singleton(e, |ev: Event| event_error(comp, ev));
    Seq::<Event>::lemma_filter_map_singleton(e, |ev: Event| event_file_mark(ev));
    Seq::<Event>::lemma_filter_map_singleton(e, |ev: Event| event_dir_mark(ev));
}

/// Aggregating a concatenation aggregates its parts in turn.
pub proof fn lemma_groups_after_concat(
    m: Map<Seq<char>, Seq<Seq<Seq<char>>>>,
    comp: Comparison,
    a: Seq<Event>,
    b: Seq<Event>,
)
    ensures
        groups_after(m, comp, a + b) == groups_after(groups_after(m, comp, a), comp, b),
    decreases b.len(),
{
    if b.len() == 0 {
        assert(a + b =~= a);
    } else {
        lemma_groups_after_concat(m, comp, a, b.drop_last());
        assert((a + b).drop_last() =~= a + b.drop_last());
        assert((a + b).last() == b.last());
    }
}

/// Handle one visited entry: identify a file and record its token or its
/// failure, count a directory and log it when unlistable, log an unknown
/// entry. Children of a directory are not touched here.
pub(crate) fn process_entry(
    comp: Comparison,
    path: Vec<String>,
    node: &FsTree,
    groups: &mut DuplicateGroups,
    diag: &mut Diag,
)
    requires
        old(groups).wf(),
        (*node).is_file_node() ==> old(diag).files < u64::MAX,
        (*node).is_dir_node() ==> old(diag).dirs < u64::MAX,
    ensures
        final(groups).wf(),
        final(groups).as_map() == apply_event(
            old(groups).as_map(),
            comp,
            (path.deep_view(), *node),
        ),
        errs_view(final(diag).errors@) == errs_view(old(diag).errors@) + match event_error(
            comp,
            (path.deep_view(), *node),
        ) {
            Some(err) => seq![err],
            None => Seq::<(PathModel, ScanErrorKind)>::empty(),
        },
        final(diag).files == old(diag).files + if (*node).is_file_node() {
            1int
        } else {
            0int
        },
        final(diag).dirs == old(diag).dirs + if (*node).is_dir_node() {
            1int
        } else {
            0int
        },
{
    let ghost e: Event = (path.deep_view(), *node);
    match node {
        FsTree::File { .. } | FsTree::FileUnreadable { .. } => {
            diag.files = diag.files + 1;
            match get_file_id(comp, &path, node) {
                Ok(token) => {
                    groups.insert(token, path);
                    proof {
                        assert(errs_view(diag.errors@) =~= errs_view(old(diag).errors@));
                    }
                },
                Err(kind) => {
                    diag.errors.push(ScanError { path, kind });
                    proof {
                        assert(errs_view(diag.errors@) =~= errs_view(old(diag).errors@) + seq![
                            (e.0, kind),
                        ]);
                    }
                },
            }
        },
        FsTree::Dir { .. } => {
            diag.dirs = diag.dirs + 1;
            proof {
                assert(errs_view(diag.errors@) =~= errs_view(old(diag).errors@));
            }
        },
        FsTree::DirUnreadable { .. } => {
            diag.dirs = diag.dirs + 1;
            diag.errors.push(ScanError { path, kind: ScanErrorKind::UnreadableDir });
            proof {
                assert(errs_view(diag.errors@) =~= errs_view(old(diag).errors@) + seq![
                    (e.0, ScanErrorKind::UnreadableDir),
                ]);
            }
        },
        FsTree::Unknown { .. } => {
            diag.errors.push(ScanError { path, kind: ScanErrorKind::Metadata });
            proof {
                assert(errs_view(diag.errors@) =~= errs_view(old(diag).errors@) + seq![
                    (e.0, ScanErrorKind::Metadata),
                ]);
            }
        },
    }
}

/// Visit one entry and, depth first, everything below it: the sequential
/// traversal. `prefix` is the path of the entry's parent.
fn visit_entry(
    comp: Comparison,
    prefix: &Vec<String>,
    t: &FsTree,
    groups: &mut DuplicateGroups,
    diag: &mut Diag,
)
    requires
        old(groups).wf(),
        old(diag).files + spec_file_count(spec_events(prefix.deep_view(), *t)) <= u64::MAX,
        old(diag).dirs + spec_dir_count(spec_events(prefix.deep_view(), *t)) <= u64::MAX,
    ensures
        final(groups).wf(),
        final(groups).as_map() == groups_after(
            old(groups).as_map(),
            comp,
            spec_events(prefix.deep_view(), *t),
        ),
        errs_view(final(diag).errors@) == errs_view(old(diag).errors@) + spec_errs(
            comp,
            spec_events(prefix.deep_view(), *t),
        ),
        final(diag).files == old(diag).files + spec_file_count(
            spec_events(prefix.deep_view(), *t),
        ),
        final(diag).dirs == old(diag).dirs + spec_dir_count(spec_events(prefix.deep_view(), *t)),
    decreases *t,
{
    broadcast use vstd::std_specs::vec::vec_clone_deep_view_proof;

    let ghost pre = prefix.deep_view();
    let ghost events = spec_events(pre, *t);
    let ghost own: Event = (pre.push(t.name_view()), *t);
    proof {
        lemma_single_event(old(groups).as_map(), comp, own);
    }
    match t {
        FsTree::Dir { name, entries } => {
            let mut path = prefix.clone();
            path.push(name.clone());
            proof {
                assert(path.deep_view() =~= pre.push((*t).name_view()));
            }
            let ghost cpath = path.deep_view();
            let ghost child_events = spec_events_of(cpath, entries@);
            proof {
                assert(events == seq![own] + child_events);
                lemma_filter_map_concat(seq![own], child_events, |ev: Event| event_file_mark(ev));
                lemma_filter_map_concat(seq![own], child_events, |ev: Event| event_dir_mark(ev));
                lemma_filter_map_concat(seq![own], child_events, |ev: Event| event_error(comp, ev));
            }
            process_entry(comp, path.clone(), t, groups, diag);
            let mut j: usize = 0;
            #[verifier::loop_isolation(false)]
            while j < entries.len()
                invariant
                    groups.wf(),
                    j <= entries@.len(),
                    groups.as_map() == groups_after(
                        old(groups).as_map(),
                        comp,
                        seq![own] + spec_events_of(cpath, entries@.take(j as int)),
                    ),
                    errs_view(diag.errors@) == errs_view(old(diag).errors@) + spec_errs(
                        comp,
                        seq![own] + spec_events_of(cpath, entries@.take(j as int)),
                    ),
                    diag.files == old(diag).files + spec_file_count(
                        seq![own] + spec_events_of(cpath, entries@.take(j as int)),
                    ),
                    diag.dirs == old(diag).dirs + spec_dir_count(
                        seq![own] + spec_events_of(cpath, entries@.take(j as int)),
                    ),
                decreases entries@.len() - j,
            {
                let ghost taken = spec_events_of(cpath, entries@.take(j as int));
                let ghost child_evs = spec_events(cpath, entries@[j as int]);
                proof {
                    // Split the remaining work to bound the counters for the
                    // recursive call.
                    lemma_events_of_take_succ(cpath, entries@, j as int);
                    assert(entries@ =~= entries@.take(j + 1) + entries@.skip(j + 1));
                    lemma_events_of_concat(cpath, entries@.take(j + 1), entries@.skip(j + 1));
                    lemma_filter_map_concat(seq![own], taken, |ev: Event| event_file_mark(ev));
                    lemma_filter_map_concat(seq![own], taken, |ev: Event| event_dir_mark(ev));
                    lemma_filter_map_concat(
                        spec_events_of(cpath, entries@.take(j + 1)),
                        spec_events_of(cpath, entries@.skip(j + 1)),
                        |ev: Event| event_file_mark(ev),
                    );
                    lemma_filter_map_concat(
                        spec_events_of(cpath, entries@.take(j + 1)),
                        spec_events_of(cpath, entries@.skip(j + 1)),
                        |ev: Event| event_dir_mark(ev),
                    );
                    lemma_filter_map_concat(taken, child_evs, |ev: Event| event_file_mark(ev));
                    lemma_filter_map_concat(taken, child_evs, |ev: Event| event_dir_mark(ev));
                    lemma_filter_map_len(child_evs, |ev: Event| event_file_mark(ev));
                }
                visit_entry(comp, &path, &entries[j], groups, diag);
                proof {
                    // Fold the child's events into the accumulated run.
                    lemma_groups_after_concat(
                        old(groups).as_map(),
                        comp,
                        seq![own] + taken,
                        child_evs,
                    );
                    assert((seq![own] + taken) + child_evs =~= seq![own] + spec_events_of(
                        cpath,
                        entries@.take(j + 1),
                    ));
                    lemma_filter_map_concat(seq![own] + taken, child_evs, |ev: Event|
                        event_error(comp, ev));
                    lemma_filter_map_concat(seq![own] + taken, child_evs, |ev: Event|
                        event_file_mark(ev));
                    lemma_filter_map_concat(seq![own] + taken, child_evs, |ev: Event|
                        event_dir_mark(ev));
                }
                j = j + 1;
            }
            proof {
                assert(entries@.take(entries@.len() as int) =~= entries@);
                lemma_groups_after_concat(old(groups).as_map(), comp, seq![own], child_events);
            }
        },
        FsTree::File { name, .. } | FsTree::FileUnreadable { name } | FsTree::DirUnreadable {
            name,
        } | FsTree::Unknown { name } => {
            let mut path = prefix.clone();
            path.push(name.clone());
            proof {
                assert(path.deep_view() =~= pre.push((*t).name_view()));
                assert(events == seq![own]);
            }
            process_entry(comp, path, t, groups, diag);
        },
    }
}

/// Scan `root` on a single call stack, the correctness baseline: events are
/// aggregated exactly in depth-first order, so the path lists follow that
/// order too. One handle operation runs at a time.
pub fn scan_sequential(comp: Comparison, root: &FsTree) -> (o: ScanOutcome)
    requires
        (*root).is_dir_node(),
        spec_event_count(*root) <= u64::MAX,
    ensures
        outcome_matches_exactly(o, comp, *root),
        outcome_matches(o, comp, *root),
        o.peak_handles <= 1,
{
    proof {
        lemma_events_len(Seq::empty(), *root);
        lemma_filter_map_len(scan_events(*root), |ev: Event| event_file_mark(ev));
        lemma_filter_map_len(scan_events(*root), |ev: Event| event_dir_mark(ev));
    }
    let mut groups = DuplicateGroups::new();
    let mut diag = Diag { errors: Vec::new(), files: 0, dirs: 0 };
    let prefix: Vec<String> = Vec::new();
    proof {
        assert(prefix.deep_view() =~= Seq::<Seq<char>>::empty());
    }
    visit_entry(comp, &prefix, root, &mut groups, &mut diag);
    proof {
        assert(errs_view(Seq::<ScanError>::empty()) =~= Seq::<
            (PathModel, ScanErrorKind),
        >::empty());
        assert(errs_view(diag.errors@) =~= scan_errors(comp, *root));
    }
    ScanOutcome {
        groups,
        errors: diag.errors,
        files: diag.files,
        dirs: diag.dirs,
        peak_handles: 1,
    }
}

} // verus!
