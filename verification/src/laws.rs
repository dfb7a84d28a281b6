//! The library's laws: what holds of every scan, proved once and for all
//! rather than observed on examples.

use vstd::prelude::*;

use crate::Comparison;
use crate::engine::{
    ScanOutcome, errs_view, event_error, event_group_entry, groups_after, outcome_matches,
    scan_errors, scan_groups, spec_errs,
};
use crate::identity::{
    ScanErrorKind, lemma_hash_token_no_colon, spec_hash_token, spec_identity,
};
use crate::reorder::{
    has_token, lemma_groups_after_characterized, spec_emissions, token_filter, token_paths,
};
use crate::seqs::lemma_filter_map_member;
use crate::tree::{
    Event, FsTree, PathModel, lemma_events_of_child, scan_events, spec_events,
};

verus! {

/// There is a file event at `p` whose identity came out as `token`.
pub open spec fn file_identified_at(
    comp: Comparison,
    t: FsTree,
    p: PathModel,
    token: Seq<char>,
) -> bool {
    exists|i: int|
        0 <= i < scan_events(t).len() && (#[trigger] scan_events(t)[i]).1.is_file_node()
            && scan_events(t)[i].0 == p && spec_identity(comp, scan_events(t)[i].0, scan_events(t)[i].1)
            == Ok::<Seq<char>, ScanErrorKind>(token)
}

/// Scanning partitions the reachable files: every file event either places
/// its path in the group of its identity token, or leaves exactly its error
/// in the log; and every path in any group came from such a file event. So
/// the union of all paths across all groups is the set of reachable regular
/// files minus those with a logged error.
pub proof fn lemma_scan_partitions_files(comp: Comparison, t: FsTree)
    ensures
        forall|i: int|
            0 <= i < scan_events(t).len() && (#[trigger] scan_events(t)[i]).1.is_file_node()
                ==> match spec_identity(comp, scan_events(t)[i].0, scan_events(t)[i].1) {
                Ok(token) => scan_groups(comp, t).dom().contains(token) && scan_groups(
                    comp,
                    t,
                )[token].contains(scan_events(t)[i].0),
                Err(kind) => scan_errors(comp, t).contains((scan_events(t)[i].0, kind)),
            },
        forall|token: Seq<char>, p: PathModel|
            scan_groups(comp, t).dom().contains(token) && #[trigger] scan_groups(
                comp,
                t,
            )[token].contains(p) ==> file_identified_at(comp, t, p, token),
{
    let events = scan_events(t);
    let ems = spec_emissions(comp, events);
    lemma_groups_after_characterized(Map::empty(), comp, events);
    assert forall|i: int|
        0 <= i < events.len() && (#[trigger] events[i]).1.is_file_node() implies match spec_identity(
        comp,
        events[i].0,
        events[i].1,
    ) {
        Ok(token) => scan_groups(comp, t).dom().contains(token) && scan_groups(
            comp,
            t,
        )[token].contains(events[i].0),
        Err(kind) => scan_errors(comp, t).contains((events[i].0, kind)),
    } by {
        let e = events[i];
        assert(events.contains(e));
        match spec_identity(comp, e.0, e.1) {
            Ok(token) => {
                lemma_filter_map_member(
                    events,
                    |ev: Event| event_group_entry(comp, ev),
                    e,
                    (token, e.0),
                );
                lemma_filter_map_member(ems, token_filter(token), (token, e.0), e.0);
                let k = choose|k: int| 0 <= k < ems.len() && ems[k] == (token, e.0);
                assert(ems[k].0 == token);
                assert(has_token(ems, token));
                assert(scan_groups(comp, t) == groups_after(
                    Map::<Seq<char>, Seq<Seq<Seq<char>>>>::empty(),
                    comp,
                    events,
                ));
                assert(scan_groups(comp, t).dom().contains(token));
                assert(scan_groups(comp, t)[token] == Seq::<PathModel>::empty() + token_paths(
                    ems,
                    token,
                ));
                assert(Seq::<PathModel>::empty() + token_paths(ems, token) =~= token_paths(
                    ems,
                    token,
                ));
                assert(token_paths(ems, token).contains(e.0));
                assert(scan_groups(comp, t)[token].contains(e.0));
            },
            Err(kind) => {
                lemma_filter_map_member(
                    events,
                    |ev: Event| event_error(comp, ev),
                    e,
                    (e.0, kind),
                );
                assert(spec_errs(comp, events).contains((e.0, kind)));
                assert(scan_errors(comp, t).contains((e.0, kind)));
            },
        }
    }
    assert forall|token: Seq<char>, p: PathModel|
        scan_groups(comp, t).dom().contains(token) && #[trigger] scan_groups(
        comp,
        t,
    )[token].contains(p) implies file_identified_at(comp, t, p, token) by {
        let tp = |g: (Seq<char>, PathModel)|
            if g.0 == token {
                Some(g.1)
            } else {
                None
            };
        assert(Seq::<PathModel>::empty() + token_paths(ems, token) =~= token_paths(ems, token));
        assert(token_paths(ems, token).contains(p));
        ems.lemma_filter_map_contains(tp, p);
        let g = choose|g: (Seq<char>, PathModel)| #[trigger] ems.contains(g) && tp(g) == Some(p);
        events.lemma_filter_map_contains(|ev: Event| event_group_entry(comp, ev), g);
        let e = choose|e: Event| #[trigger]
            events.contains(e) && event_group_entry(comp, e) == Some(g);
        let i = choose|i: int| 0 <= i < events.len() && events[i] == e;
        assert(events[i].1.is_file_node());
        assert(events[i].0 == p);
        assert(spec_identity(comp, events[i].0, events[i].1) == Ok::<Seq<char>, ScanErrorKind>(
            token,
        ));
    }
}

/// Any two scans of the same tree under the same strategy have identical
/// group membership: the same tokens, each sharing the same set of paths;
/// the same errors; the same counters. Since every backend's outcome matches
/// the scan, the sequential baseline and every scheduler agree, and only the
/// arrival order inside a group can differ between them.
pub proof fn lemma_schedulers_agree(
    comp: Comparison,
    t: FsTree,
    o1: ScanOutcome,
    o2: ScanOutcome,
)
    requires
        outcome_matches(o1, comp, t),
        outcome_matches(o2, comp, t),
    ensures
        o1.groups.as_map().dom() == o2.groups.as_map().dom(),
        forall|token: Seq<char>|
            #[trigger] o1.groups.as_map().dom().contains(token)
                ==> o1.groups.as_map()[token].to_multiset() == o2.groups.as_map()[
                token
            ].to_multiset(),
        errs_view(o1.errors@).to_multiset() == errs_view(o2.errors@).to_multiset(),
        o1.files == o2.files,
        o1.dirs == o2.dirs,
{
}

/// Re-running an unmodified scan yields the same group membership both
/// times, whatever the backend: each run's outcome matches the one scan of
/// the unchanged tree.
pub proof fn lemma_rescan_same_membership(
    comp: Comparison,
    t: FsTree,
    first: ScanOutcome,
    second: ScanOutcome,
)
    requires
        outcome_matches(first, comp, t),
        outcome_matches(second, comp, t),
    ensures
        first.groups.as_map().dom() == second.groups.as_map().dom(),
        forall|token: Seq<char>|
            #[trigger] first.groups.as_map().dom().contains(token)
                ==> first.groups.as_map()[token].to_multiset() == second.groups.as_map()[
                token
            ].to_multiset(),
        errs_view(first.errors@).to_multiset() == errs_view(second.errors@).to_multiset(),
{
    lemma_schedulers_agree(comp, t, first, second);
}

/// Under `FileName`, the identity reads the base name alone: files with the
/// same final path component get the same token, wherever they live and
/// whatever they hold.
pub proof fn lemma_by_name_groups(p1: PathModel, n1: FsTree, p2: PathModel, n2: FsTree)
    requires
        p1.len() > 0,
        p2.len() > 0,
        p1.last() == p2.last(),
    ensures
        spec_identity(Comparison::FileName, p1, n1) == spec_identity(Comparison::FileName, p2, n2),
{
}

/// Under `Hash`, the identity reads the content alone: byte-identical files
/// get the same token, whatever their names and paths.
pub proof fn lemma_by_hash_groups(
    p1: PathModel,
    name1: String,
    c1: Vec<u8>,
    p2: PathModel,
    name2: String,
    c2: Vec<u8>,
)
    requires
        c1@ == c2@,
    ensures
        spec_identity(Comparison::Hash, p1, FsTree::File { name: name1, content: c1 })
            == spec_identity(Comparison::Hash, p2, FsTree::File { name: name2, content: c2 }),
{
}

/// Two texts joined by a colon decompose uniquely when the second is
/// colon-free: the last colon is the separator.
proof fn lemma_colon_join_injective(a1: Seq<char>, b1: Seq<char>, a2: Seq<char>, b2: Seq<char>)
    requires
        forall|k: int| 0 <= k < b1.len() ==> b1[k] != ':',
        forall|k: int| 0 <= k < b2.len() ==> b2[k] != ':',
        a1 + seq![':'] + b1 == a2 + seq![':'] + b2,
    ensures
        a1 == a2,
        b1 == b2,
{
    let s = a1 + seq![':'] + b1;
    assert(s.len() == a1.len() + 1 + b1.len());
    assert(s.len() == a2.len() + 1 + b2.len());
    if a1.len() < a2.len() {
        assert((a2 + seq![':'] + b2)[a2.len() as int] == ':');
        assert(s =~= (a1 + seq![':']) + b1);
        assert(((a1 + seq![':']) + b1)[a2.len() as int] == b1[a2.len() - a1.len() - 1]);
        assert(false);
    }
    if a2.len() < a1.len() {
        assert(s[a1.len() as int] == ':');
        assert(a2 + seq![':'] + b2 =~= (a2 + seq![':']) + b2);
        assert(((a2 + seq![':']) + b2)[a1.len() as int] == b2[a1.len() - a2.len() - 1]);
        assert(false);
    }
    assert(a1.len() == a2.len());
    assert forall|k: int| 0 <= k < a1.len() implies a1[k] == a2[k] by {
        assert((a1 + seq![':'] + b1)[k] == a1[k]);
        assert((a2 + seq![':'] + b2)[k] == a2[k]);
    }
    assert(a1 =~= a2);
    assert forall|k: int| 0 <= k < b1.len() implies b1[k] == b2[k] by {
        assert((a1 + seq![':'] + b1)[a1.len() + 1 + k] == b1[k]);
        assert((a2 + seq![':'] + b2)[a2.len() + 1 + k] == b2[k]);
    }
    assert(b1 =~= b2);
}

/// Under `Both`, two files share a token exactly when they agree both by
/// name and by content hash: the token decomposes uniquely at its last
/// colon, since a hash token contains none.
pub proof fn lemma_by_both_requires_both(
    p1: PathModel,
    name1: String,
    c1: Vec<u8>,
    p2: PathModel,
    name2: String,
    c2: Vec<u8>,
)
    requires
        p1.len() > 0,
        p2.len() > 0,
    ensures
        spec_identity(Comparison::Both, p1, FsTree::File { name: name1, content: c1 })
            == spec_identity(Comparison::Both, p2, FsTree::File { name: name2, content: c2 })
            <==> (spec_identity(Comparison::FileName, p1, FsTree::File { name: name1, content: c1 })
            == spec_identity(Comparison::FileName, p2, FsTree::File { name: name2, content: c2 })
            && spec_identity(Comparison::Hash, p1, FsTree::File { name: name1, content: c1 })
            == spec_identity(Comparison::Hash, p2, FsTree::File { name: name2, content: c2 })),
{
    let h1 = spec_hash_token(c1@);
    let h2 = spec_hash_token(c2@);
    if p1.last() + seq![':'] + h1 == p2.last() + seq![':'] + h2 {
        lemma_hash_token_no_colon(c1@);
        lemma_hash_token_no_colon(c2@);
        lemma_colon_join_injective(p1.last(), h1, p2.last(), h2);
    }
}

/// An unreadable directory is logged, with its path, and does not block its
/// siblings: every sibling's traversal events still occur in the scan of the
/// parent directory.
pub proof fn lemma_unreadable_dir_nonblocking(
    comp: Comparison,
    prefix: PathModel,
    name: String,
    entries: Vec<FsTree>,
    i: int,
)
    requires
        0 <= i < entries@.len(),
        entries@[i] is DirUnreadable,
    ensures
        spec_errs(
            comp,
            spec_events(prefix, FsTree::Dir { name, entries }),
        ).contains(
            (prefix.push(name@).push(entries@[i].name_view()), ScanErrorKind::UnreadableDir),
        ),
        forall|j: int, k: int|
            0 <= j < entries@.len() && 0 <= k < spec_events(
                prefix.push(name@),
                entries@[j],
            ).len() ==> spec_events(prefix, FsTree::Dir { name, entries }).contains(
                #[trigger] spec_events(prefix.push(name@), entries@[j])[k],
            ),
{
    let d = FsTree::Dir { name, entries };
    let dirpath = prefix.push(name@);
    let events = spec_events(prefix, d);
    let own: Event = (dirpath, d);
    assert(events == seq![own] + crate::tree::spec_events_of(dirpath, entries@));
    assert forall|j: int, k: int|
        0 <= j < entries@.len() && 0 <= k < spec_events(dirpath, entries@[j]).len() implies events
        .contains(#[trigger] spec_events(dirpath, entries@[j])[k]) by {
        lemma_events_of_child(dirpath, entries@, j);
        let ev = spec_events(dirpath, entries@[j])[k];
        let m = choose|m: int|
            0 <= m < crate::tree::spec_events_of(dirpath, entries@).len()
                && crate::tree::spec_events_of(dirpath, entries@)[m] == ev;
        assert(events[1 + m] == ev);
    }
    let bad = entries@[i];
    let badpath = dirpath.push(bad.name_view());
    let badevent: Event = (badpath, bad);
    assert(spec_events(dirpath, bad) == seq![badevent]);
    assert(spec_events(dirpath, bad)[0] == badevent);
    assert(events.contains(badevent));
    assert(event_error(comp, badevent) == Some((badpath, ScanErrorKind::UnreadableDir)));
    lemma_filter_map_member(
        events,
        |ev: Event| event_error(comp, ev),
        badevent,
        (badpath, ScanErrorKind::UnreadableDir),
    );
}

} // verus!
