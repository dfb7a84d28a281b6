//! Why the aggregated mapping does not depend on the order in which events
//! arrive: each group is the filtered projection of the emissions, and a
//! reordering of the events only reorders each group's paths.

use vstd::prelude::*;
use vstd::multiset::group_multiset_axioms;
use vstd::seq_lib::group_to_multiset_ensures;

use crate::Comparison;
use crate::seqs::{lemma_filter_map_concat, lemma_filter_map_permutation};
use crate::tree::{Event, FsTree, PathModel, scan_events};
use crate::engine::{
    event_dir_mark, event_error, event_file_mark, event_group_entry, groups_after, scan_errors,
    scan_groups, spec_dir_count, spec_errs, spec_file_count,
};

verus! {

/// The (token, path) pairs the given events emit, in order.
pub open spec fn spec_emissions(comp: Comparison, events: Seq<Event>) -> Seq<
    (Seq<char>, PathModel),
> {
    events.filter_map(|e: Event| event_group_entry(comp, e))
}

/// Keeps the path of an emission that carries `token`.
pub open spec fn token_filter(token: Seq<char>) -> spec_fn((Seq<char>, PathModel)) -> Option<
    PathModel,
> {
    |g: (Seq<char>, PathModel)|
        if g.0 == token {
            Some(g.1)
        } else {
            None
        }
}

/// The paths emitted for one token, in order.
pub open spec fn token_paths(ems: Seq<(Seq<char>, PathModel)>, token: Seq<char>) -> Seq<
    PathModel,
> {
    ems.filter_map(token_filter(token))
}

/// Some emission carries this token.
pub open spec fn has_token(ems: Seq<(Seq<char>, PathModel)>, token: Seq<char>) -> bool {
    exists|i: int| 0 <= i < ems.len() && ems[i].0 == token
}

/// Aggregation reads only the emissions: a token is mapped exactly when the
/// events emitted it (or it was mapped before), and its path list is what it
/// had before followed by its emitted paths, in emission order.
pub proof fn lemma_groups_after_characterized(
    m: Map<Seq<char>, Seq<Seq<Seq<char>>>>,
    comp: Comparison,
    events: Seq<Event>,
)
    ensures
        forall|token: Seq<char>|
            #[trigger] groups_after(m, comp, events).dom().contains(token) <==> (m.dom().contains(
                token,
            ) || has_token(spec_emissions(comp, events), token)),
        forall|token: Seq<char>|
            #[trigger] groups_after(m, comp, events).dom().contains(token)
                ==> groups_after(m, comp, events)[token] == (if m.dom().contains(token) {
                m[token]
            } else {
                Seq::<PathModel>::empty()
            }) + token_paths(spec_emissions(comp, events), token),
    decreases events.len(),
{
    if events.len() == 0 {
        assert forall|token: Seq<char>| #[trigger]
            groups_after(m, comp, events).dom().contains(token) implies groups_after(
            m,
            comp,
            events,
        )[token] == (if m.dom().contains(token) {
            m[token]
        } else {
            Seq::<PathModel>::empty()
        }) + token_paths(spec_emissions(comp, events), token) by {
            assert(m[token] + Seq::<PathModel>::empty() =~= m[token]);
        }
    } else {
        let e = events.last();
        let rest = events.drop_last();
        lemma_groups_after_characterized(m, comp, rest);
        let prev = groups_after(m, comp, rest);
        let ems_rest = spec_emissions(comp, rest);
        let ems = spec_emissions(comp, events);
        assert forall|token: Seq<char>| #[trigger]
            groups_after(m, comp, events).dom().contains(token) implies groups_after(
            m,
            comp,
            events,
        )[token] == (if m.dom().contains(token) {
            m[token]
        } else {
            Seq::<PathModel>::empty()
        }) + token_paths(ems, token) by {
            let base: Seq<Seq<Seq<char>>> = if m.dom().contains(token) {
                m[token]
            } else {
                Seq::empty()
            };
            match event_group_entry(comp, e) {
                Some(g) => {
                    assert(ems =~= ems_rest + seq![g]);
                    lemma_filter_map_concat(ems_rest, seq![g], token_filter(token));
                    Seq::<(Seq<char>, PathModel)>::lemma_filter_map_singleton(
                        g,
                        token_filter(token),
                    );
                    if g.0 == token {
                        if prev.dom().contains(token) {
                            assert(base + (token_paths(ems_rest, token) + seq![g.1]) =~= (base
                                + token_paths(ems_rest, token)).push(g.1));
                        } else {
                            assert(!has_token(ems_rest, token));
                            assert(token_paths(ems_rest, token) =~= Seq::<PathModel>::empty()) by {
                                if token_paths(ems_rest, token).len() > 0 {
                                    lemma_token_paths_has(ems_rest, token);
                                }
                            }
                            assert(base =~= Seq::<PathModel>::empty());
                            assert(base + (token_paths(ems_rest, token) + seq![g.1]) =~= Seq::<
                                PathModel,
                            >::empty().push(g.1));
                        }
                    } else {
                        assert(token_paths(ems, token) =~= token_paths(ems_rest, token));
                    }
                },
                None => {
                    assert(ems =~= ems_rest);
                },
            }
        }
        assert forall|token: Seq<char>|
            #[trigger] groups_after(m, comp, events).dom().contains(token) <==> (m.dom().contains(
                token,
            ) || has_token(ems, token)) by {
            match event_group_entry(comp, e) {
                Some(g) => {
                    assert(ems =~= ems_rest + seq![g]);
                    if has_token(ems_rest, token) {
                        let i = choose|i: int| 0 <= i < ems_rest.len() && ems_rest[i].0 == token;
                        assert(ems[i].0 == token);
                    }
                    if g.0 == token {
                        assert(ems[ems.len() - 1].0 == token);
                    }
                    if has_token(ems, token) && !has_token(ems_rest, token) && g.0 != token {
                        let i = choose|i: int| 0 <= i < ems.len() && ems[i].0 == token;
                        assert(i < ems_rest.len() && ems_rest[i].0 == token);
                    }
                },
                None => {
                    assert(ems =~= ems_rest);
                },
            }
        }
    }
}

/// A nonempty projection means some emission carried the token.
proof fn lemma_token_paths_has(ems: Seq<(Seq<char>, PathModel)>, token: Seq<char>)
    requires
        token_paths(ems, token).len() > 0,
    ensures
        has_token(ems, token),
    decreases ems.len(),
{
    if ems.len() > 0 {
        if ems.last().0 == token {
            assert(ems[ems.len() - 1].0 == token);
        } else {
            lemma_token_paths_has(ems.drop_last(), token);
            let i = choose|i: int| 0 <= i < ems.drop_last().len() && ems.drop_last()[i].0 == token;
            assert(ems[i].0 == token);
        }
    }
}

/// Whether a token occurs among the emissions is a fact about the emissions
/// as a multiset, so any reordering keeps it.
proof fn lemma_has_token_permutation(
    ems1: Seq<(Seq<char>, PathModel)>,
    ems2: Seq<(Seq<char>, PathModel)>,
    token: Seq<char>,
)
    requires
        ems1.to_multiset() == ems2.to_multiset(),
        has_token(ems1, token),
    ensures
        has_token(ems2, token),
{
    broadcast use group_to_multiset_ensures, group_multiset_axioms;

    let i = choose|i: int| 0 <= i < ems1.len() && ems1[i].0 == token;
    let g = ems1[i];
    assert(ems1.contains(g));
    assert(ems1.to_multiset().count(g) > 0);
    assert(ems2.to_multiset().count(g) > 0);
    assert(ems2.contains(g));
    let k = choose|k: int| 0 <= k < ems2.len() && ems2[k] == g;
    assert(ems2[k].0 == token);
}

/// Any run that visits the events of a scan of `root`, each exactly once and
/// in whatever order, aggregates the same groups (up to the order of each
/// group's paths), logs the same errors (up to order) and counts the same
/// files and directories as the depth-first baseline.
pub proof fn lemma_scan_agrees_up_to_order(comp: Comparison, root: FsTree, visited: Seq<Event>)
    requires
        visited.to_multiset() == scan_events(root).to_multiset(),
    ensures
        groups_after(Map::empty(), comp, visited).dom() == scan_groups(comp, root).dom(),
        forall|token: Seq<char>|
            #[trigger] scan_groups(comp, root).dom().contains(token) ==> groups_after(
                Map::empty(),
                comp,
                visited,
            )[token].to_multiset() == scan_groups(comp, root)[token].to_multiset(),
        spec_errs(comp, visited).to_multiset() == scan_errors(comp, root).to_multiset(),
        spec_file_count(visited) == spec_file_count(scan_events(root)),
        spec_dir_count(visited) == spec_dir_count(scan_events(root)),
{
    broadcast use group_to_multiset_ensures, group_multiset_axioms;

    let canonical = scan_events(root);
    let ems_v = spec_emissions(comp, visited);
    let ems_c = spec_emissions(comp, canonical);
    lemma_filter_map_permutation(visited, canonical, |e: Event| event_group_entry(comp, e));
    lemma_filter_map_permutation(visited, canonical, |e: Event| event_error(comp, e));
    lemma_filter_map_permutation(visited, canonical, |e: Event| event_file_mark(e));
    lemma_filter_map_permutation(visited, canonical, |e: Event| event_dir_mark(e));
    assert(spec_file_count(visited) == visited.filter_map(|e: Event| event_file_mark(e))
        .to_multiset().len());
    assert(spec_file_count(canonical) == canonical.filter_map(|e: Event| event_file_mark(e))
        .to_multiset().len());
    assert(spec_dir_count(visited) == visited.filter_map(|e: Event| event_dir_mark(e))
        .to_multiset().len());
    assert(spec_dir_count(canonical) == canonical.filter_map(|e: Event| event_dir_mark(e))
        .to_multiset().len());
    lemma_groups_after_characterized(Map::empty(), comp, visited);
    lemma_groups_after_characterized(Map::empty(), comp, canonical);
    let mv = groups_after(Map::<Seq<char>, Seq<Seq<Seq<char>>>>::empty(), comp, visited);
    let mc = scan_groups(comp, root);
    assert forall|token: Seq<char>| mv.dom().contains(token) implies mc.dom().contains(token) by {
        lemma_has_token_permutation(ems_v, ems_c, token);
    }
    assert forall|token: Seq<char>| mc.dom().contains(token) implies mv.dom().contains(token) by {
        lemma_has_token_permutation(ems_c, ems_v, token);
    }
    assert(mv.dom() =~= mc.dom());
    assert forall|token: Seq<char>| #[trigger]
        mc.dom().contains(token) implies mv[token].to_multiset() == mc[token].to_multiset() by {
        lemma_filter_map_permutation(ems_v, ems_c, token_filter(token));
        assert(Seq::<PathModel>::empty() + token_paths(ems_v, token) =~= token_paths(
            ems_v,
            token,
        ));
        assert(Seq::<PathModel>::empty() + token_paths(ems_c, token) =~= token_paths(
            ems_c,
            token,
        ));
    }
}

} // verus!
