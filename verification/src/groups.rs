//! The duplicate-group mapping: identity token to the paths that share it,
//! in arrival order.

use vstd::prelude::*;

verus! {

/// The result mapping of a scan: each identity token seen, with the paths of
/// the files that produced it, in the order they arrived at the aggregator.
pub struct DuplicateGroups {
    /// One entry per distinct token, in order of first arrival.
    pub groups: Vec<(String, Vec<Vec<String>>)>,
}

/// `m` with `path` appended to the path list of `token`, starting a new list
/// when the token is not yet present.
pub open spec fn spec_append(
    m: Map<Seq<char>, Seq<Seq<Seq<char>>>>,
    token: Seq<char>,
    path: Seq<Seq<char>>,
) -> Map<Seq<char>, Seq<Seq<Seq<char>>>> {
    let prior = if m.dom().contains(token) {
        m[token]
    } else {
        Seq::empty()
    };
    m.insert(token, prior.push(path))
}

impl DuplicateGroups {
    /// Tokens are distinct: each appears in at most one entry.
    pub open spec fn wf(self) -> bool {
        forall|i: int, j: int|
            0 <= i < j < self.groups@.len() ==> self.groups@[i].0@ != self.groups@[j].0@
    }

    /// The mapping the entries stand for.
    pub open spec fn as_map(self) -> Map<Seq<char>, Seq<Seq<Seq<char>>>> {
        Self::entries_map(self.groups@)
    }

    /// The mapping a prefix of entries stands for.
    pub open spec fn entries_map(es: Seq<(String, Vec<Vec<String>>)>) -> Map<
        Seq<char>,
        Seq<Seq<Seq<char>>>,
    >
        decreases es.len(),
    {
        if es.len() == 0 {
            Map::empty()
        } else {
            Self::entries_map(es.drop_last()).insert(es.last().0@, es.last().1.deep_view())
        }
    }

    /// A token is in the mapping exactly when some entry carries it.
    proof fn lemma_entries_map_dom(es: Seq<(String, Vec<Vec<String>>)>, token: Seq<char>)
        ensures
            Self::entries_map(es).dom().contains(token) <==> exists|i: int|
                0 <= i < es.len() && es[i].0@ == token,
        decreases es.len(),
    {
        if es.len() > 0 {
            Self::lemma_entries_map_dom(es.drop_last(), token);
            if Self::entries_map(es).dom().contains(token) {
                if es.last().0@ != token {
                    let i = choose|i: int|
                        0 <= i < es.drop_last().len() && es.drop_last()[i].0@ == token;
                    assert(es[i].0@ == token);
                }
            }
            if exists|i: int| 0 <= i < es.len() && es[i].0@ == token {
                let i = choose|i: int| 0 <= i < es.len() && es[i].0@ == token;
                if i < es.len() - 1 {
                    assert(es.drop_last()[i].0@ == token);
                }
            }
        }
    }

    /// With distinct tokens, the mapping sends each entry's token to that
    /// entry's path list.
    proof fn lemma_entries_map_at(es: Seq<(String, Vec<Vec<String>>)>, i: int)
        requires
            forall|k: int, j: int| 0 <= k < j < es.len() ==> es[k].0@ != es[j].0@,
            0 <= i < es.len(),
        ensures
            Self::entries_map(es).dom().contains(es[i].0@),
            Self::entries_map(es)[es[i].0@] == es[i].1.deep_view(),
        decreases es.len(),
    {
        if i == es.len() - 1 {
        } else {
            Self::lemma_entries_map_at(es.drop_last(), i);
            assert(es.drop_last()[i] == es[i]);
        }
    }

    /// Updating the path list of the entry that carries `token` updates the
    /// mapping at `token` alone.
    proof fn lemma_entries_map_update(
        es: Seq<(String, Vec<Vec<String>>)>,
        i: int,
        fresh: (String, Vec<Vec<String>>),
    )
        requires
            forall|k: int, j: int| 0 <= k < j < es.len() ==> es[k].0@ != es[j].0@,
            0 <= i < es.len(),
            fresh.0@ == es[i].0@,
        ensures
            Self::entries_map(es.update(i, fresh)) == Self::entries_map(es).insert(
                fresh.0@,
                fresh.1.deep_view(),
            ),
        decreases es.len(),
    {
        let es2 = es.update(i, fresh);
        if i == es.len() - 1 {
            assert(es2.drop_last() =~= es.drop_last());
            assert(Self::entries_map(es2) =~= Self::entries_map(es).insert(
                fresh.0@,
                fresh.1.deep_view(),
            ));
        } else {
            assert(es2.drop_last() =~= es.drop_last().update(i, fresh));
            Self::lemma_entries_map_update(es.drop_last(), i, fresh);
            assert(es2.last() == es.last());
            assert(Self::entries_map(es2) =~= Self::entries_map(es).insert(
                fresh.0@,
                fresh.1.deep_view(),
            ));
        }
    }

    /// An empty mapping.
    pub fn new() -> (r: DuplicateGroups)
        ensures
            r.wf(),
            r.as_map() == Map::<Seq<char>, Seq<Seq<Seq<char>>>>::empty(),
            r.groups@.len() == 0,
    {
        DuplicateGroups { groups: Vec::new() }
    }

    /// Record that the file at `path` has identity `token`: append the path
    /// to that token's group, starting the group when the token is new.
    pub fn insert(&mut self, token: String, path: Vec<String>)
        requires
            old(self).wf(),
        ensures
            final(self).wf(),
            final(self).as_map() == spec_append(old(self).as_map(), token@, path.deep_view()),
    {
        let ghost es0 = self.groups@;
        let mut i: usize = 0;
        while i < self.groups.len()
            invariant
                self.groups@ == es0,
                es0 == old(self).groups@,
                i <= es0.len(),
                forall|k: int, j: int| 0 <= k < j < es0.len() ==> es0[k].0@ != es0[j].0@,
                forall|j: int| 0 <= j < i ==> es0[j].0@ != token@,
            decreases es0.len() - i,
        {
            if self.groups[i].0 == token {
                let mut pair = self.groups.remove(i);
                pair.1.push(path);
                proof {
                    Self::lemma_entries_map_at(es0, i as int);
                    assert(pair.1.deep_view() =~= es0[i as int].1.deep_view().push(
                        path.deep_view(),
                    ));
                }
                self.groups.insert(i, pair);
                proof {
                    let es1 = self.groups@;
                    assert(es1 =~= es0.update(i as int, es1[i as int]));
                    Self::lemma_entries_map_update(es0, i as int, es1[i as int]);
                    assert(forall|k: int| 0 <= k < es1.len() ==> es1[k].0 == es0[k].0);
                    assert(Self::entries_map(es1) =~= spec_append(
                        Self::entries_map(es0),
                        token@,
                        path.deep_view(),
                    ));
                }
                return ;
            }
            i = i + 1;
        }
        let mut paths: Vec<Vec<String>> = Vec::new();
        paths.push(path);
        self.groups.push((token, paths));
        proof {
            let es1 = self.groups@;
            assert(es1.drop_last() =~= es0);
            Self::lemma_entries_map_dom(es0, token@);
            assert(paths.deep_view() =~= Seq::<Seq<Seq<char>>>::empty().push(path.deep_view()));
            assert(Self::entries_map(es1) =~= spec_append(
                Self::entries_map(es0),
                token@,
                path.deep_view(),
            ));
        }
    }

    /// The path list recorded for `token`, when the token was seen.
    pub fn get(&self, token: &String) -> (r: Option<&Vec<Vec<String>>>)
        requires
            self.wf(),
        ensures
            match r {
                Some(paths) => self.as_map().dom().contains(token@) && self.as_map()[token@]
                    == paths.deep_view(),
                None => !self.as_map().dom().contains(token@),
            },
    {
        let mut i: usize = 0;
        while i < self.groups.len()
            invariant
                self.wf(),
                i <= self.groups@.len(),
                forall|j: int| 0 <= j < i ==> self.groups@[j].0@ != token@,
            decreases self.groups@.len() - i,
        {
            if self.groups[i].0 == *token {
                proof {
                    Self::lemma_entries_map_at(self.groups@, i as int);
                }
                return Some(&self.groups[i].1);
            }
            i = i + 1;
        }
        proof {
            Self::lemma_entries_map_dom(self.groups@, token@);
        }
        None
    }

    /// How many distinct tokens were seen.
    pub fn len(&self) -> (n: usize)
        ensures
            n == self.groups@.len(),
    {
        self.groups.len()
    }

    /// The duplicate groups alone: each entry whose token is shared by more
    /// than one path, in the order the entries stand.
    pub fn duplicates(&self) -> (r: Vec<(String, Vec<Vec<String>>)>)
        ensures
            r@.map_values(|g: (String, Vec<Vec<String>>)| entry_model(g)) == self.groups@
                .filter_map(|g: (String, Vec<Vec<String>>)| dup_entry_model(g)),
    {
        broadcast use vstd::std_specs::vec::vec_clone_deep_view_proof;

        let mut r: Vec<(String, Vec<Vec<String>>)> = Vec::new();
        let mut i: usize = 0;
        proof {
            assert(r@.map_values(|g: (String, Vec<Vec<String>>)| entry_model(g)) =~= self.groups@
                .take(0).filter_map(|g: (String, Vec<Vec<String>>)| dup_entry_model(g)));
        }
        while i < self.groups.len()
            invariant
                i <= self.groups@.len(),
                r@.map_values(|g: (String, Vec<Vec<String>>)| entry_model(g)) == self.groups@.take(
                    i as int,
                ).filter_map(|g: (String, Vec<Vec<String>>)| dup_entry_model(g)),
            decreases self.groups@.len() - i,
        {
            proof {
                self.groups@.lemma_filter_map_take_succ(
                    |g: (String, Vec<Vec<String>>)| dup_entry_model(g),
                    i as int,
                );
            }
            if self.groups[i].1.len() > 1 {
                let token = self.groups[i].0.clone();
                let paths = self.groups[i].1.clone();
                proof {
                    assert(paths.deep_view() =~= self.groups@[i as int].1.deep_view());
                }
                r.push((token, paths));
                proof {
                    assert(r@.map_values(|g: (String, Vec<Vec<String>>)| entry_model(g))
                        =~= r@.drop_last().map_values(
                        |g: (String, Vec<Vec<String>>)| entry_model(g),
                    ).push(entry_model(r@.last())));
                    assert(entry_model(r@.last()) == entry_model(self.groups@[i as int]));
                    assert(r@.map_values(|g: (String, Vec<Vec<String>>)| entry_model(g))
                        =~= self.groups@.take(i + 1).filter_map(
                        |g: (String, Vec<Vec<String>>)| dup_entry_model(g),
                    ));
                }
            } else {
                proof {
                    assert(r@.map_values(|g: (String, Vec<Vec<String>>)| entry_model(g))
                        =~= self.groups@.take(i + 1).filter_map(
                        |g: (String, Vec<Vec<String>>)| dup_entry_model(g),
                    ));
                }
            }
            i = i + 1;
        }
        proof {
            assert(self.groups@.take(self.groups@.len() as int) =~= self.groups@);
        }
        r
    }
}

/// What one entry stands for: its token and its path list, as values.
pub open spec fn entry_model(g: (String, Vec<Vec<String>>)) -> (Seq<char>, Seq<Seq<Seq<char>>>) {
    (g.0@, g.1.deep_view())
}

/// What one entry contributes to the duplicates: itself when more than one
/// path shares its token, nothing otherwise.
pub open spec fn dup_entry_model(g: (String, Vec<Vec<String>>)) -> Option<
    (Seq<char>, Seq<Seq<Seq<char>>>),
> {
    if g.1.deep_view().len() > 1 {
        Some(entry_model(g))
    } else {
        None
    }
}

} // verus!
