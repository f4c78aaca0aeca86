//! The whole analysis of one directory's photographs, from leaf records and
//! merge history to the wire form.
use crate::build_tree::{build_tree, BuildError};
use crate::convert_tree::{bounded, convert_tree, converted};
use crate::history::{is_tree_of, lemma_one_tree, tree_of, unknown_cluster, well_formed};
use crate::to_serde_tree::{to_serde_tree, wired};
use crate::types::{ClusterRelation, Coord, Filepath, NumberOfLeaves, SerdeTree};
use crate::validate_tree::{consistent, validate_tree};
use vstd::prelude::*;

verus! {

/// Fewer geotagged photographs than this give no result.
pub const MIN_LEAVES: usize = 5;

/// Why the analysis of a request failed.
#[derive(Clone, Copy, Debug, PartialEq, Eq, Structural)]
pub enum PipelineError {
    /// The merge history names a cluster that it does not know.
    OutOfRange,
    /// The merge history is no forest over the photographs.
    StructuralViolation,
    /// A cluster of the finished tree stores a leaf count that its children
    /// do not add up to.
    ValidationMismatch,
}

/// Whether `count` photographs are enough to look for clusters.
pub fn enough_leaves(count: usize) -> (enough: bool)
    ensures
        enough == (count >= MIN_LEAVES),
{
    count >= MIN_LEAVES
}

/// The relation by which `parent` absorbs `child` with `count` leaves.
pub open spec fn absorbs(parent: int, child: int, count: int) -> ClusterRelation {
    ClusterRelation {
        parent: parent as usize,
        child: child as usize,
        num_of_leaves: NumberOfLeaves(count as usize),
    }
}

/// The relations by which `parent` absorbs each of `photographs`.
pub open spec fn absorbed_by(parent: int, photographs: Seq<usize>) -> Seq<ClusterRelation> {
    Seq::new(photographs.len(), |i: int| absorbs(parent, photographs[i] as int, 1))
}

/// The merge history of the first `end` of `clusters` over `leaves`
/// photographs: cluster number `k` gets the id `leaves + 1 + k`, is absorbed
/// by the cluster with the id `leaves`, and absorbs its photographs.
pub open spec fn history_upto(leaves: int, clusters: Seq<Vec<usize>>, end: int) -> Seq<
    ClusterRelation,
>
    decreases end,
{
    if end <= 0 {
        Seq::empty()
    } else {
        history_upto(leaves, clusters, end - 1) + seq![
            absorbs(leaves, leaves + end, clusters[end - 1]@.len() as int),
        ] + absorbed_by(leaves + end, clusters[end - 1]@)
    }
}

/// The merge history of one level that stands for a flat clustering: every
/// cluster and every photograph of `noise`, which belongs to none, is
/// absorbed by the cluster with the id `leaves`.
pub open spec fn flat_history(leaves: int, clusters: Seq<Vec<usize>>, noise: Seq<usize>) -> Seq<
    ClusterRelation,
> {
    history_upto(leaves, clusters, clusters.len() as int) + absorbed_by(leaves, noise)
}

fn absorb_all(relations: &mut Vec<ClusterRelation>, parent: usize, photographs: &Vec<usize>)
    ensures
        final(relations)@ == old(relations)@ + absorbed_by(parent as int, photographs@),
{
    let ghost before = relations@;
    let mut i: usize = 0;
    while i < photographs.len()
        invariant
            i <= photographs@.len(),
            relations@ == before + absorbed_by(parent as int, photographs@.take(i as int)),
        decreases photographs.len() - i,
    {
        relations.push(
            ClusterRelation {
                parent,
                child: photographs[i],
                num_of_leaves: NumberOfLeaves(1),
            },
        );
        proof {
            assert(absorbed_by(parent as int, photographs@.take(i + 1)) =~= absorbed_by(
                parent as int,
                photographs@.take(i as int),
            ).push(absorbs(parent as int, photographs@[i as int] as int, 1)));
        }
        i += 1;
    }
    proof {
        assert(photographs@.take(photographs@.len() as int) == photographs@);
        assert(absorbed_by(parent as int, photographs@.take(0)) =~= Seq::empty());
    }
}

/// Writes a flat clustering of `leaves` photographs down as a merge history
/// of one level. `None` where a machine word cannot hold the cluster ids.
pub fn history_of_clusters(leaves: usize, clusters: &Vec<Vec<usize>>, noise: &Vec<usize>) -> (history:
    Option<Vec<ClusterRelation>>)
    ensures
        match history {
            Some(relations) => leaves + clusters@.len() <= usize::MAX && relations@
                == flat_history(leaves as int, clusters@, noise@),
            None => leaves + clusters@.len() > usize::MAX,
        },
{
    if clusters.len() > usize::MAX - leaves {
        return None;
    }
    let mut relations: Vec<ClusterRelation> = Vec::new();
    let mut k: usize = 0;
    while k < clusters.len()
        invariant
            k <= clusters@.len(),
            leaves + clusters@.len() <= usize::MAX,
            relations@ == history_upto(leaves as int, clusters@, k as int),
        decreases clusters.len() - k,
    {
        let cluster = leaves + 1 + k;
        relations.push(
            ClusterRelation {
                parent: leaves,
                child: cluster,
                num_of_leaves: NumberOfLeaves(clusters[k].len()),
            },
        );
        absorb_all(&mut relations, cluster, &clusters[k]);
        proof {
            let before = history_upto(leaves as int, clusters@, k as int);
            let head = absorbs(leaves as int, leaves + k + 1, clusters@[k as int]@.len() as int);
            assert(before.push(head) =~= before + seq![head]);
        }
        k += 1;
    }
    absorb_all(&mut relations, leaves, noise);
    Some(relations)
}

/// Runs reconstruction, conversion, validation and projection in turn.
///
/// With fewer than [`MIN_LEAVES`] photographs the answer is `Ok(None)`,
/// whatever the merge history holds: it is not looked at.
pub fn launch_pipeline_for_directory(
    l: &Vec<(Filepath, Coord)>,
    condensed_tree: &Vec<ClusterRelation>,
) -> (result: Result<Option<SerdeTree>, PipelineError>)
    ensures
        match result {
            Ok(None) => l@.len() < MIN_LEAVES,
            Ok(Some(wire)) => {
                &&& l@.len() >= MIN_LEAVES
                &&& well_formed(condensed_tree@, l@.len())
                &&& is_tree_of(tree_of(condensed_tree@, l@), condensed_tree@, l@)
                &&& consistent(converted(tree_of(condensed_tree@, l@)))
                &&& bounded(converted(tree_of(condensed_tree@, l@)))
                &&& wire@ == wired(converted(tree_of(condensed_tree@, l@)))
            },
            Err(PipelineError::OutOfRange) => {
                &&& l@.len() >= MIN_LEAVES
                &&& unknown_cluster(condensed_tree@, l@.len())
            },
            Err(PipelineError::StructuralViolation) => {
                &&& l@.len() >= MIN_LEAVES
                &&& !unknown_cluster(condensed_tree@, l@.len())
                &&& !well_formed(condensed_tree@, l@.len())
            },
            Err(PipelineError::ValidationMismatch) => {
                &&& l@.len() >= MIN_LEAVES
                &&& well_formed(condensed_tree@, l@.len())
                &&& is_tree_of(tree_of(condensed_tree@, l@), condensed_tree@, l@)
                &&& !consistent(converted(tree_of(condensed_tree@, l@)))
            },
        },
{
    if !enough_leaves(l.len()) {
        return Ok(None);
    }
    let tree = match build_tree(l, condensed_tree) {
        Ok(tree) => tree,
        Err(BuildError::OutOfRange) => {
            return Err(PipelineError::OutOfRange);
        },
        Err(BuildError::StructuralViolation) => {
            return Err(PipelineError::StructuralViolation);
        },
    };
    proof {
        lemma_one_tree(tree@, tree_of(condensed_tree@, l@), condensed_tree@, l@);
    }
    let tree2 = convert_tree(&tree);
    if validate_tree(&tree2).is_err() {
        return Err(PipelineError::ValidationMismatch);
    }
    Ok(Some(to_serde_tree(tree2)))
}

} // verus!
