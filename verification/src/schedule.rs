//! The scheduled traversal engine: a shared queue of pending units drained
//! in rounds, each round running as many units as the worker count and the
//! resource limiter admit. One engine covers every concurrent backend; the
//! queue order and the round width are its parameters.

use vstd::prelude::*;
use vstd::multiset::{Multiset, group_multiset_axioms};
use vstd::seq_lib::group_to_multiset_ensures;

use crate::Comparison;
use crate::engine::{
    Diag, ScanOutcome, apply_event, event_dir_mark, event_error, event_file_mark, groups_after,
    process_entry, spec_dir_count, spec_errs, spec_file_count, errs_view,
};
use crate::groups::DuplicateGroups;
use crate::identity::ScanErrorKind;
use crate::limiter::ResourceLimiter;
use crate::reorder::lemma_scan_agrees_up_to_order;
use crate::seqs::lemma_filter_map_len;
use crate::tree::{
    Event, FsTree, PathModel, lemma_events_len, scan_events, spec_event_count, spec_events,
    spec_events_of,
};

verus! {

/// The order in which pending units leave the shared queue.
#[derive(Clone, Copy, Debug, PartialEq, Eq, Structural)]
pub enum QueueOrder {
    /// First in, first out: units run in the order they were spawned.
    Fifo,
    /// Last in, first out: the most recently spawned unit runs next.
    Lifo,
}

/// One pending unit of work, as the model sees it: the path of the unit's
/// parent and the subtree the unit will visit.
pub type UnitModel = (PathModel, FsTree);

/// The events still owed by the given pending units, all together.
pub open spec fn units_mset(us: Seq<UnitModel>) -> Multiset<Event>
    decreases us.len(),
{
    if us.len() == 0 {
        Multiset::empty()
    } else {
        units_mset(us.drop_last()).add(spec_events(us.last().0, us.last().1).to_multiset())
    }
}

/// One pending unit owes exactly its subtree's events.
proof fn lemma_units_mset_singleton(u: UnitModel)
    ensures
        units_mset(seq![u]) == spec_events(u.0, u.1).to_multiset(),
{
    broadcast use group_multiset_axioms;

    assert(seq![u].drop_last() =~= Seq::<UnitModel>::empty());
    assert(units_mset(Seq::<UnitModel>::empty()).add(spec_events(u.0, u.1).to_multiset())
        =~= spec_events(u.0, u.1).to_multiset());
}

/// What two runs of units owe together is what each owes, added.
proof fn lemma_units_mset_concat(a: Seq<UnitModel>, b: Seq<UnitModel>)
    ensures
        units_mset(a + b) == units_mset(a).add(units_mset(b)),
    decreases b.len(),
{
    broadcast use group_multiset_axioms;

    if b.len() == 0 {
        assert(a + b =~= a);
        assert(units_mset(a).add(units_mset(b)) =~= units_mset(a));
    } else {
        lemma_units_mset_concat(a, b.drop_last());
        assert((a + b).drop_last() =~= a + b.drop_last());
        assert((a + b).last() == b.last());
        assert(units_mset(a + b) =~= units_mset(a).add(units_mset(b)));
    }
}

/// Taking the first pending unit leaves the rest owing the rest.
proof fn lemma_units_mset_pop_first(us: Seq<UnitModel>)
    requires
        us.len() > 0,
    ensures
        units_mset(us) == spec_events(us[0].0, us[0].1).to_multiset().add(
            units_mset(us.drop_first()),
        ),
{
    broadcast use group_multiset_axioms;

    assert(us =~= seq![us[0]] + us.drop_first());
    lemma_units_mset_concat(seq![us[0]], us.drop_first());
    lemma_units_mset_singleton(us[0]);
}

/// One appended event extends the aggregation, the error log and the
/// counters by exactly that event's contribution.
proof fn lemma_push_event(
    m: Map<Seq<char>, Seq<Seq<Seq<char>>>>,
    comp: Comparison,
    events: Seq<Event>,
    e: Event,
)
    ensures
        groups_after(m, comp, events.push(e)) == apply_event(
            groups_after(m, comp, events),
            comp,
            e,
        ),
        spec_errs(comp, events.push(e)) == spec_errs(comp, events) + match event_error(comp, e) {
            Some(err) => seq![err],
            None => Seq::<(PathModel, ScanErrorKind)>::empty(),
        },
        spec_file_count(events.push(e)) == spec_file_count(events) + if e.1.is_file_node() {
            1nat
        } else {
            0nat
        },
        spec_dir_count(events.push(e)) == spec_dir_count(events) + if e.1.is_dir_node() {
            1nat
        } else {
            0nat
        },
{
    assert(events.push(e).drop_last() =~= events);
    assert(events.push(e).last() == e);
    if event_error(comp, e) is None {
        assert(spec_errs(comp, events) + Seq::<(PathModel, ScanErrorKind)>::empty() =~= spec_errs(
            comp,
            events,
        ));
    }
}

/// Scan `root` by draining a shared queue of units in rounds: each round
/// admits up to `workers` units, every one of them holding a limiter slot
/// while it runs, and runs them to completion; a directory unit hands its
/// children to the queue as new units. The group membership, the error log
/// and the counters agree with the sequential baseline; only arrival order
/// within a group may differ.
pub fn scan_scheduled(
    comp: Comparison,
    root: &FsTree,
    order: QueueOrder,
    workers: usize,
    capacity: usize,
) -> (o: ScanOutcome)
    requires
        (*root).is_dir_node(),
        spec_event_count(*root) <= u64::MAX,
        workers >= 1,
        capacity >= 1,
    ensures
        crate::engine::outcome_matches(o, comp, *root),
        o.peak_handles <= capacity,
        o.peak_handles <= workers,
{
    broadcast use vstd::std_specs::vec::vec_clone_deep_view_proof;
    broadcast use group_multiset_axioms;
    broadcast use group_to_multiset_ensures;

    proof {
        lemma_events_len(Seq::<Seq<char>>::empty(), *root);
    }
    let ghost total: Multiset<Event> = scan_events(*root).to_multiset();
    let mut groups = DuplicateGroups::new();
    let mut diag = Diag { errors: Vec::new(), files: 0, dirs: 0 };
    let mut limiter = ResourceLimiter::new(capacity);
    let mut queue: Vec<(Vec<String>, &FsTree)> = Vec::new();
    let root_prefix: Vec<String> = Vec::new();
    queue.push((root_prefix, root));
    let ghost mut pending: Seq<UnitModel> = seq![(Seq::<Seq<char>>::empty(), *root)];
    let ghost mut processed: Seq<Event> = Seq::empty();
    proof {
        assert(queue@[0].0.deep_view() =~= Seq::<Seq<char>>::empty());
        lemma_units_mset_singleton((Seq::<Seq<char>>::empty(), *root));
        assert(processed.to_multiset().add(units_mset(pending)) =~= total);
        assert(errs_view(diag.errors@) =~= spec_errs(comp, processed));
    }
    #[verifier::loop_isolation(false)]
    while queue.len() > 0
        invariant
            pending.len() == queue@.len(),
            forall|i: int|
                0 <= i < pending.len() ==> (#[trigger] pending[i]).0 == queue@[i].0.deep_view()
                    && pending[i].1 == *queue@[i].1,
            processed.to_multiset().add(units_mset(pending)) == total,
            groups.wf(),
            groups.as_map() == groups_after(
                Map::<Seq<char>, Seq<Seq<Seq<char>>>>::empty(),
                comp,
                processed,
            ),
            errs_view(diag.errors@) == spec_errs(comp, processed),
            diag.files == spec_file_count(processed),
            diag.dirs == spec_dir_count(processed),
            limiter.inv(),
            limiter.capacity() == capacity,
            limiter.active() == 0,
            limiter.peak() <= workers,
        decreases units_mset(pending).len(),
    {
        // Admission: take a limiter slot for each unit this round will run,
        // up to the worker count; a unit refused a slot stays suspended in
        // the queue for a later round. The first unit always gets a slot: no
        // slot is held between rounds, and the capacity is at least one.
        let first = limiter.try_acquire();
        assert(first);
        let mut got: usize = 1;
        #[verifier::loop_isolation(false)]
        while got < workers && got < queue.len()
            invariant
                1 <= got <= workers,
                got <= queue@.len(),
                limiter.inv(),
                limiter.capacity() == capacity,
                limiter.active() == got,
                limiter.peak() <= workers,
            decreases workers - got,
        {
            if !limiter.try_acquire() {
                break ;
            }
            got = got + 1;
        }
        let ghost pending_round: Seq<UnitModel> = pending;
        // The round: run the admitted units to completion, one after the
        // other, each releasing its slot when it completes.
        let mut r: usize = 0;
        #[verifier::loop_isolation(false)]
        while r < got
            invariant
                r <= got,
                queue@.len() + r >= got,
                units_mset(pending).len() + r == units_mset(pending_round).len(),
                pending.len() == queue@.len(),
                forall|i: int|
                    0 <= i < pending.len() ==> (#[trigger] pending[i]).0 == queue@[i].0.deep_view()
                        && pending[i].1 == *queue@[i].1,
                processed.to_multiset().add(units_mset(pending)) == total,
                groups.wf(),
                groups.as_map() == groups_after(
                    Map::<Seq<char>, Seq<Seq<Seq<char>>>>::empty(),
                    comp,
                    processed,
                ),
                errs_view(diag.errors@) == spec_errs(comp, processed),
                diag.files == spec_file_count(processed),
                diag.dirs == spec_dir_count(processed),
                limiter.inv(),
                limiter.capacity() == capacity,
                limiter.active() == got - r,
                limiter.peak() <= workers,
            decreases got - r,
        {
            let unit: (Vec<String>, &FsTree) = match order {
                QueueOrder::Fifo => queue.remove(0),
                QueueOrder::Lifo => queue.pop().unwrap(),
            };
            let ghost u: UnitModel = (unit.0.deep_view(), *unit.1);
            let ghost uev = spec_events(u.0, u.1);
            proof {
                match order {
                    QueueOrder::Fifo => {
                        lemma_units_mset_pop_first(pending);
                        pending = pending.drop_first();
                    },
                    QueueOrder::Lifo => {
                        pending = pending.drop_last();
                    },
                }
                assert(processed.to_multiset().add(units_mset(pending)).add(uev.to_multiset())
                    =~= total);
                // Headroom for this unit's own event: every event of the
                // scan fits the counters.
                lemma_filter_map_len(processed, |ev: Event| event_file_mark(ev));
                lemma_filter_map_len(processed, |ev: Event| event_dir_mark(ev));
                assert(processed.len() == processed.to_multiset().len());
                assert(uev.to_multiset().len() == uev.len());
                assert(total.len() == scan_events(*root).len());
                assert(uev.len() >= 1);
                assert(processed.len() + 1 <= total.len());
            }
            let (uprefix, node) = unit;
            match node {
                FsTree::Dir { name, entries } => {
                    let mut path = uprefix;
                    path.push(name.clone());
                    proof {
                        assert(path.deep_view() =~= u.0.push((*node).name_view()));
                    }
                    let ghost own: Event = (path.deep_view(), *node);
                    let ghost cpath = path.deep_view();
                    let ghost child_events = spec_events_of(cpath, entries@);
                    proof {
                        assert(uev == seq![own] + child_events);
                        assert(uev.to_multiset() == seq![own].to_multiset().add(
                            child_events.to_multiset(),
                        )) by {
                            vstd::seq_lib::lemma_multiset_commutative(seq![own], child_events);
                        }
                        assert(seq![own].to_multiset() =~= Multiset::<Event>::empty().insert(own));
                    }
                    process_entry(comp, path.clone(), node, &mut groups, &mut diag);
                    proof {
                        lemma_push_event(
                            Map::<Seq<char>, Seq<Seq<Seq<char>>>>::empty(),
                            comp,
                            processed,
                            own,
                        );
                        let ghost processed0 = processed;
                        processed = processed.push(own);
                        assert(errs_view(diag.errors@) =~= spec_errs(comp, processed));
                        assert(processed0.push(own).to_multiset() =~= processed0.to_multiset()
                            .insert(own));
                    }
                    let ghost pending_base = pending;
                    let mut c: usize = 0;
                    #[verifier::loop_isolation(false)]
                    while c < entries.len()
                        invariant
                            c <= entries@.len(),
                            pending.len() == queue@.len(),
                            forall|i: int|
                                0 <= i < pending.len() ==> (#[trigger] pending[i]).0
                                    == queue@[i].0.deep_view() && pending[i].1 == *queue@[i].1,
                            pending.len() == pending_base.len() + c,
                            units_mset(pending) == units_mset(pending_base).add(
                                spec_events_of(cpath, entries@.take(c as int)).to_multiset(),
                            ),
                        decreases entries@.len() - c,
                    {
                        queue.push((path.clone(), &entries[c]));
                        proof {
                            let child = entries@[c as int];
                            let ghost pending_prev = pending;
                            pending = pending.push((cpath, child));
                            assert(pending.drop_last() =~= pending_prev);
                            assert(pending.last() == (cpath, child));
                            assert(units_mset(pending) == units_mset(pending_prev).add(
                                spec_events(cpath, child).to_multiset(),
                            ));
                            assert(queue@[queue@.len() - 1].0.deep_view() =~= cpath);
                            crate::tree::lemma_events_of_take_succ(cpath, entries@, c as int);
                            vstd::seq_lib::lemma_multiset_commutative(
                                spec_events_of(cpath, entries@.take(c as int)),
                                spec_events(cpath, child),
                            );
                        }
                        c = c + 1;
                    }
                    proof {
                        assert(entries@.take(entries@.len() as int) =~= entries@);
                        assert(processed.to_multiset().add(units_mset(pending)) =~= total);
                    }
                },
                FsTree::File { name, .. } | FsTree::FileUnreadable { name }
                    | FsTree::DirUnreadable { name } | FsTree::Unknown { name } => {
                    let mut path = uprefix;
                    path.push(name.clone());
                    proof {
                        assert(path.deep_view() =~= u.0.push((*node).name_view()));
                    }
                    let ghost own: Event = (path.deep_view(), *node);
                    proof {
                        assert(uev == seq![own]);
                        assert(seq![own].to_multiset() =~= Multiset::<Event>::empty().insert(own));
                    }
                    process_entry(comp, path, node, &mut groups, &mut diag);
                    proof {
                        lemma_push_event(
                            Map::<Seq<char>, Seq<Seq<Seq<char>>>>::empty(),
                            comp,
                            processed,
                            own,
                        );
                        let ghost processed0 = processed;
                        processed = processed.push(own);
                        assert(errs_view(diag.errors@) =~= spec_errs(comp, processed));
                        assert(processed0.push(own).to_multiset() =~= processed0.to_multiset()
                            .insert(own));
                        assert(processed.to_multiset().add(units_mset(pending)) =~= total);
                    }
                },
            }
            limiter.release();
            r = r + 1;
        }
    }
    proof {
        assert(pending.len() == 0);
        assert(units_mset(pending) =~= Multiset::<Event>::empty());
        assert(processed.to_multiset() =~= total);
        lemma_scan_agrees_up_to_order(comp, *root, processed);
    }
    let peak_handles = limiter.peak_held();
    ScanOutcome { groups, errors: diag.errors, files: diag.files, dirs: diag.dirs, peak_handles }
}

} // verus!
