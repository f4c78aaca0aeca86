//! Lookup of a merge history by child id.
use crate::types::{ClusterRelation, NumberOfLeaves};
use std::collections::HashMap;
use vstd::prelude::*;

verus! {

/// The lookup that the first `end` relations make: each child id is mapped to
/// the parent and leaf count of the last relation that names it as child.
pub open spec fn index_upto(relations: Seq<ClusterRelation>, end: int) -> Map<
    usize,
    (usize, NumberOfLeaves),
>
    decreases end,
{
    if end <= 0 {
        Map::empty()
    } else {
        index_upto(relations, end - 1).insert(
            relations[end - 1].child,
            (relations[end - 1].parent, relations[end - 1].num_of_leaves),
        )
    }
}

/// Some relation names `id` as its child.
pub open spec fn is_child(relations: Seq<ClusterRelation>, id: usize) -> bool {
    exists|j: int| 0 <= j < relations.len() && (#[trigger] relations[j]).child == id
}

/// Some relation names `id` as its parent.
pub open spec fn is_parent(relations: Seq<ClusterRelation>, id: usize) -> bool {
    exists|j: int| 0 <= j < relations.len() && (#[trigger] relations[j]).parent == id
}

/// The keys of the lookup are the ids that occur as a child.
pub proof fn lemma_index_keys(relations: Seq<ClusterRelation>, end: int, id: usize)
    requires
        0 <= end <= relations.len(),
    ensures
        index_upto(relations, end).contains_key(id) <==> is_child(relations.take(end), id),
    decreases end,
{
    if end > 0 {
        lemma_index_keys(relations, end - 1, id);
        let shorter = relations.take(end - 1);
        let longer = relations.take(end);
        if is_child(shorter, id) {
            let j = choose|j: int| 0 <= j < shorter.len() && (#[trigger] shorter[j]).child == id;
            assert(longer[j].child == id);
        }
        if relations[end - 1].child == id {
            assert(longer[end - 1].child == id);
        }
        if is_child(longer, id) {
            let j = choose|j: int| 0 <= j < longer.len() && (#[trigger] longer[j]).child == id;
            if j < end - 1 {
                assert(shorter[j].child == id);
            }
        }
    }
}

/// For each child id among the first `end` relations, the position of the
/// last relation that names it as child.
pub open spec fn place_upto(relations: Seq<ClusterRelation>, end: int) -> Map<usize, usize>
    decreases end,
{
    if end <= 0 {
        Map::empty()
    } else {
        place_upto(relations, end - 1).insert(relations[end - 1].child, (end - 1) as usize)
    }
}

/// The recorded position of a child id is the last one at which it is named.
pub proof fn lemma_place(relations: Seq<ClusterRelation>, end: int, k: int)
    requires
        0 <= k < end <= relations.len() <= usize::MAX,
    ensures
        place_upto(relations, end).contains_key(relations[k].child),
        k <= place_upto(relations, end)[relations[k].child] < end,
        relations[place_upto(relations, end)[relations[k].child] as int].child == relations[k].child,
    decreases end,
{
    if k < end - 1 {
        lemma_place(relations, end - 1, k);
    }
}

/// A merge history indexed by child id.
pub struct RelationIndex {
    entries: HashMap<usize, (usize, NumberOfLeaves, usize)>,
}

impl View for RelationIndex {
    type V = Map<usize, (usize, NumberOfLeaves)>;

    closed spec fn view(&self) -> Map<usize, (usize, NumberOfLeaves)> {
        Map::new(
            |id: usize| self.entries@.contains_key(id),
            |id: usize| (self.entries@[id].0, self.entries@[id].1),
        )
    }
}

impl RelationIndex {
    /// Where in the list each child id was last named.
    pub closed spec fn places(&self) -> Map<usize, usize> {
        Map::new(|id: usize| self.entries@.contains_key(id), |id: usize| self.entries@[id].2)
    }

    /// Indexes `relations` in one scan. Malformed histories are indexed like
    /// any other: of two relations with one child the later one is kept.
    pub fn new(relations: &Vec<ClusterRelation>) -> (index: RelationIndex)
        ensures
            index@ == index_upto(relations@, relations@.len() as int),
            index.places() == place_upto(relations@, relations@.len() as int),
            forall|id: usize| index@.contains_key(id) <==> is_child(relations@, id),
            forall|id: usize| index.places().contains_key(id) <==> is_child(relations@, id),
    {
        let mut index = RelationIndex { entries: HashMap::new() };
        assert(index@ =~= index_upto(relations@, 0));
        assert(index.places() =~= place_upto(relations@, 0));
        let mut k: usize = 0;
        while k < relations.len()
            invariant
                k <= relations.len(),
                index@ == index_upto(relations@, k as int),
                index.places() == place_upto(relations@, k as int),
            decreases relations.len() - k,
        {
            let relation = relations[k];
            let ghost before = index;
            index.entries.insert(relation.child, (relation.parent, relation.num_of_leaves, k));
            proof {
                assert(index@ =~= before@.insert(
                    relation.child,
                    (relation.parent, relation.num_of_leaves),
                ));
                assert(index.places() =~= before.places().insert(relation.child, k));
            }
            k += 1;
        }
        proof {
            assert(relations@.take(relations@.len() as int) == relations@);
            assert forall|id: usize| index@.contains_key(id) <==> is_child(relations@, id) by {
                lemma_index_keys(relations@, relations@.len() as int, id);
            }
            assert forall|id: usize| index.places().contains_key(id) <==> is_child(
                relations@,
                id,
            ) by {
                assert(index.places().contains_key(id) <==> index@.contains_key(id));
            }
        }
        index
    }

    /// Parent and leaf count last recorded for `child`, if any.
    pub fn get(&self, child: usize) -> (found: Option<(usize, NumberOfLeaves)>)
        ensures
            found == if self@.contains_key(child) {
                Some(self@[child])
            } else {
                None
            },
    {
        match self.entries.get(&child) {
            Some(entry) => Some((entry.0, entry.1)),
            None => None,
        }
    }

    /// Position in the list at which `child` was last named, if any.
    pub fn position(&self, child: usize) -> (found: Option<usize>)
        ensures
            found == if self.places().contains_key(child) {
                Some(self.places()[child])
            } else {
                None
            },
    {
        match self.entries.get(&child) {
            Some(entry) => Some(entry.2),
            None => None,
        }
    }

    /// Whether `id` occurs as a child.
    pub fn contains(&self, id: usize) -> (found: bool)
        ensures
            found == self@.contains_key(id),
    {
        self.entries.contains_key(&id)
    }
}

} // verus!
