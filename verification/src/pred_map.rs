//! Predecessor lists of a control-flow graph, keyed by block label.
//!
//! The map holds one entry per label that some block branches to; its value
//! lists the labels of the branching blocks, once per branch, in the order in
//! which the blocks (and, within a block, its branch targets) were added.

use vstd::prelude::*;

verus! {

/// The successors of one block that equal `target`, each reported as the
/// block's own `label`.
pub open spec fn hits(succs: Seq<Seq<char>>, target: Seq<char>, label: Seq<char>) -> Seq<
    Seq<char>,
>
    decreases succs.len(),
{
    if succs.len() == 0 {
        seq![]
    } else {
        hits(succs.drop_last(), target, label) + if succs.last() == target {
            seq![label]
        } else {
            seq![]
        }
    }
}

/// Predecessors of `target` in a list of (label, successors) edges.
pub open spec fn preds_of(edges: Seq<(Seq<char>, Seq<Seq<char>>)>, target: Seq<char>) -> Seq<
    Seq<char>,
>
    decreases edges.len(),
{
    if edges.len() == 0 {
        seq![]
    } else {
        preds_of(edges.drop_last(), target) + hits(edges.last().1, target, edges.last().0)
    }
}

/// What a map from each branch target to its predecessor list returns for
/// `target`: nothing when no edge leads there.
pub open spec fn pred_lookup(edges: Seq<(Seq<char>, Seq<Seq<char>>)>, target: Seq<char>) -> Option<
    Seq<Seq<char>>,
> {
    let p = preds_of(edges, target);
    if p.len() > 0 {
        Some(p)
    } else {
        None
    }
}

/// Merge an old entry with new predecessors.
pub open spec fn merged(old: Option<Seq<Seq<char>>>, more: Seq<Seq<char>>) -> Option<
    Seq<Seq<char>>,
> {
    let v = match old {
        Some(v) => v,
        None => seq![],
    } + more;
    if v.len() > 0 {
        Some(v)
    } else {
        None
    }
}

pub open spec fn entry_view(e: (String, Vec<String>)) -> (Seq<char>, Seq<Seq<char>>) {
    (e.0@, e.1@.map_values(|s: String| s@))
}

/// Lookup in a list of entries (the last entry with the key wins; with
/// distinct keys there is at most one).
pub open spec fn lookup_in(es: Seq<(Seq<char>, Seq<Seq<char>>)>, key: Seq<char>) -> Option<
    Seq<Seq<char>>,
>
    decreases es.len(),
{
    if es.len() == 0 {
        None
    } else if es.last().0 == key {
        Some(es.last().1)
    } else {
        lookup_in(es.drop_last(), key)
    }
}

pub open spec fn keys_distinct(es: Seq<(Seq<char>, Seq<Seq<char>>)>) -> bool {
    forall|i: int, j: int| 0 <= i < j < es.len() ==> es[i].0 != es[j].0
}

pub open spec fn values_nonempty(es: Seq<(Seq<char>, Seq<Seq<char>>)>) -> bool {
    forall|i: int| 0 <= i < es.len() ==> (#[trigger] es[i]).1.len() > 0
}

proof fn lemma_lookup_none(es: Seq<(Seq<char>, Seq<Seq<char>>)>, key: Seq<char>)
    requires
        forall|i: int| 0 <= i < es.len() ==> (#[trigger] es[i]).0 != key,
    ensures
        lookup_in(es, key) is None,
    decreases es.len(),
{
    if es.len() > 0 {
        assert(es.last() == es[es.len() - 1]);
        lemma_lookup_none(es.drop_last(), key);
    }
}

proof fn lemma_lookup_at(es: Seq<(Seq<char>, Seq<Seq<char>>)>, m: int)
    requires
        keys_distinct(es),
        0 <= m < es.len(),
    ensures
        lookup_in(es, es[m].0) == Some(es[m].1),
    decreases es.len(),
{
    if m < es.len() - 1 {
        assert(es.last() == es[es.len() - 1]);
        assert(es.drop_last()[m] == es[m]);
        lemma_lookup_at(es.drop_last(), m);
    }
}

proof fn lemma_lookup_update(
    es: Seq<(Seq<char>, Seq<Seq<char>>)>,
    m: int,
    v: Seq<Seq<char>>,
    key: Seq<char>,
)
    requires
        keys_distinct(es),
        0 <= m < es.len(),
    ensures
        lookup_in(es.update(m, (es[m].0, v)), key) == if key == es[m].0 {
            Some(v)
        } else {
            lookup_in(es, key)
        },
    decreases es.len(),
{
    let es2 = es.update(m, (es[m].0, v));
    if m == es.len() - 1 {
        assert(es2.drop_last() =~= es.drop_last());
        if key != es[m].0 {
        } else {
        }
    } else {
        assert(es2.drop_last() =~= es.drop_last().update(m, (es[m].0, v)));
        assert(es2.last() == es.last());
        lemma_lookup_update(es.drop_last(), m, v, key);
    }
}

proof fn lemma_lookup_some_nonempty(es: Seq<(Seq<char>, Seq<Seq<char>>)>, key: Seq<char>)
    requires
        values_nonempty(es),
    ensures
        lookup_in(es, key) matches Some(v) ==> v.len() > 0,
    decreases es.len(),
{
    if es.len() > 0 {
        assert(es.last() == es[es.len() - 1]);
        assert(values_nonempty(es.drop_last())) by {
            assert forall|i: int| 0 <= i < es.drop_last().len() implies (
            #[trigger] es.drop_last()[i]).1.len() > 0 by {
                assert(es.drop_last()[i] == es[i]);
            }
        }
        lemma_lookup_some_nonempty(es.drop_last(), key);
    }
}

/// Predecessor lists keyed by the label of the branch target.
pub struct PredMap {
    entries: Vec<(String, Vec<String>)>,
}

impl PredMap {
    /// The entries as (label, predecessors) pairs of character sequences.
    pub closed spec fn entries_view(&self) -> Seq<(Seq<char>, Seq<Seq<char>>)> {
        self.entries@.map_values(|e: (String, Vec<String>)| entry_view(e))
    }

    /// Keys are distinct and every stored list is non-empty.
    pub closed spec fn wf(&self) -> bool {
        keys_distinct(self.entries_view()) && values_nonempty(self.entries_view())
    }

    /// The predecessor list stored for `key`.
    pub closed spec fn lookup(&self, key: Seq<char>) -> Option<Seq<Seq<char>>> {
        lookup_in(self.entries_view(), key)
    }

    /// An empty map.
    pub fn new() -> (m: PredMap)
        ensures
            m.wf(),
            forall|k: Seq<char>| m.lookup(k) is None,
    {
        let m = PredMap { entries: Vec::new() };
        assert(m.entries_view() =~= Seq::<(Seq<char>, Seq<Seq<char>>)>::empty());
        m
    }

    /// Record that the block labelled `from` branches to `to`.
    pub fn add_edge(&mut self, from: &String, to: &String)
        requires
            old(self).wf(),
        ensures
            final(self).wf(),
            forall|k: Seq<char>|
                #![trigger final(self).lookup(k)]
                final(self).lookup(k) == if k == to@ {
                    Some(
                        match old(self).lookup(k) {
                            Some(v) => v,
                            None => seq![],
                        }.push(from@),
                    )
                } else {
                    old(self).lookup(k)
                },
    {
        let ghost es = self.entries_view();
        let mut m: usize = 0;
        while m < self.entries.len()
            invariant
                m <= self.entries.len(),
                es == self.entries_view(),
                self.entries@.len() == es.len(),
                forall|i: int| 0 <= i < m ==> (#[trigger] es[i]).0 != to@,
                keys_distinct(es),
                values_nonempty(es),
            ensures
                m <= self.entries.len(),
                m < self.entries.len() ==> es[m as int].0 == to@,
                forall|i: int| 0 <= i < m ==> (#[trigger] es[i]).0 != to@,
            decreases self.entries.len() - m,
        {
            assert(es[m as int] == entry_view(self.entries@[m as int]));
            if self.entries[m].0 == *to {
                break;
            }
            assert(es[m as int] == entry_view(self.entries@[m as int]));
            m += 1;
        }
        if m < self.entries.len() {
            assert(es[m as int] == entry_view(self.entries@[m as int]));
            proof {
                lemma_lookup_at(es, m as int);
            }
            let mut e = self.entries.remove(m);
            e.1.push(from.clone());
            let ghost nv = e.1@.map_values(|s: String| s@);
            assert(nv =~= es[m as int].1.push(from@));
            self.entries.insert(m, e);
            assert(self.entries_view() =~= es.update(m as int, (es[m as int].0, nv)));
            proof {
                assert forall|k: Seq<char>| #![trigger self.lookup(k)]
                    self.lookup(k) == if k == to@ {
                        Some(
                            match lookup_in(es, k) {
                                Some(v) => v,
                                None => seq![],
                            }.push(from@),
                        )
                    } else {
                        lookup_in(es, k)
                    } by {
                    lemma_lookup_update(es, m as int, nv, k);
                }
                let es2 = self.entries_view();
                assert forall|i: int, j: int| 0 <= i < j < es2.len() implies es2[i].0
                    != es2[j].0 by {
                    assert(es2[i].0 == es[i].0);
                    assert(es2[j].0 == es[j].0);
                }
                assert forall|i: int| 0 <= i < es2.len() implies (#[trigger] es2[i]).1.len()
                    > 0 by {
                    if i != m {
                        assert(es2[i] == es[i]);
                    }
                }
            }
        } else {
            proof {
                lemma_lookup_none(es, to@);
            }
            let mut v: Vec<String> = Vec::new();
            v.push(from.clone());
            let e = (to.clone(), v);
            self.entries.push(e);
            let ghost nv = e.1@.map_values(|s: String| s@);
            assert(nv =~= seq![from@]);
            assert(self.entries_view() =~= es.push((to@, nv)));
            proof {
                let es2 = self.entries_view();
                assert(es2.drop_last() =~= es);
                assert forall|i: int, j: int| 0 <= i < j < es2.len() implies es2[i].0
                    != es2[j].0 by {
                    if j == es2.len() - 1 {
                        assert(es2[i] == es[i]);
                    } else {
                        assert(es2[i] == es[i]);
                        assert(es2[j] == es[j]);
                    }
                }
                assert forall|i: int| 0 <= i < es2.len() implies (#[trigger] es2[i]).1.len()
                    > 0 by {
                    if i < es.len() {
                        assert(es2[i] == es[i]);
                    }
                }
                assert(seq![from@] =~= Seq::<Seq<char>>::empty().push(from@));
            }
        }
    }

    /// Record every branch of the block labelled `label` to `succs`.
    pub fn add_block(&mut self, label: &String, succs: &Vec<String>)
        requires
            old(self).wf(),
        ensures
            final(self).wf(),
            forall|k: Seq<char>|
                #![trigger final(self).lookup(k)]
                final(self).lookup(k) == merged(
                    old(self).lookup(k),
                    hits(succs@.map_values(|s: String| s@), k, label@),
                ),
    {
        let ghost sv = succs@.map_values(|s: String| s@);
        let ghost start = *self;
        proof {
            assert forall|k: Seq<char>| #![trigger self.lookup(k)]
                self.lookup(k) == merged(start.lookup(k), hits(sv.take(0), k, label@)) by {
                assert(hits(sv.take(0), k, label@) =~= Seq::<Seq<char>>::empty());
                lemma_lookup_some_nonempty(start.entries_view(), k);
                match start.lookup(k) {
                    Some(v) => {
                        assert(v + Seq::<Seq<char>>::empty() =~= v);
                    },
                    None => {},
                }
            }
        }
        let mut j: usize = 0;
        while j < succs.len()
            invariant
                j <= succs.len(),
                sv == succs@.map_values(|s: String| s@),
                self.wf(),
                start.wf(),
                forall|k: Seq<char>|
                    #![trigger self.lookup(k)]
                    self.lookup(k) == merged(start.lookup(k), hits(sv.take(j as int), k, label@)),
            decreases succs.len() - j,
        {
            let ghost before = *self;
            self.add_edge(label, &succs[j]);
            proof {
                assert forall|k: Seq<char>| #![trigger self.lookup(k)]
                    self.lookup(k) == merged(
                        start.lookup(k),
                        hits(sv.take(j + 1), k, label@),
                    ) by {
                    assert(sv.take(j + 1).drop_last() =~= sv.take(j as int));
                    assert(sv.take(j + 1).last() == succs@[j as int]@);
                    assert(before.lookup(k) == merged(
                        start.lookup(k),
                        hits(sv.take(j as int), k, label@),
                    ));
                    let prior = match start.lookup(k) {
                        Some(v) => v,
                        None => seq![],
                    };
                    if k == succs@[j as int]@ {
                        assert(hits(sv.take(j + 1), k, label@) =~= hits(
                            sv.take(j as int),
                            k,
                            label@,
                        ).push(label@));
                        assert(prior + hits(sv.take(j + 1), k, label@) =~= (prior + hits(
                            sv.take(j as int),
                            k,
                            label@,
                        )).push(label@));
                    } else {
                        assert(hits(sv.take(j + 1), k, label@) =~= hits(
                            sv.take(j as int),
                            k,
                            label@,
                        ));
                    }
                }
            }
            j += 1;
        }
        assert(sv.take(succs.len() as int) =~= sv);
    }

    /// The predecessor list stored for `key`.
    pub fn get(&self, key: &[char]) -> (r: Option<&Vec<String>>)
        requires
            self.wf(),
        ensures
            r matches Some(v) ==> self.lookup(key@) == Some(v@.map_values(|s: String| s@)),
            r is None ==> self.lookup(key@) is None,
    {
        let ghost es = self.entries_view();
        let mut m: usize = 0;
        while m < self.entries.len()
            invariant
                m <= self.entries.len(),
                es == self.entries_view(),
                self.entries@.len() == es.len(),
                forall|i: int| 0 <= i < m ==> (#[trigger] es[i]).0 != key@,
                keys_distinct(es),
            decreases self.entries.len() - m,
        {
            assert(es[m as int] == entry_view(self.entries@[m as int]));
            if crate::text::chars_eq(&crate::text::chars_of(self.entries[m].0.as_str()), key) {
                proof {
                    lemma_lookup_at(es, m as int);
                }
                return Some(&self.entries[m].1);
            }
            m += 1;
        }
        proof {
            lemma_lookup_none(es, key@);
        }
        None
    }
}

} // verus!
