//! The pipeline does not depend on the order of the walk: the same entries
//! in another order give the same files, and the same files in another
//! order give the same chunks.

use vstd::prelude::*;
use vstd::multiset::*;
use vstd::seq_lib::*;
use crate::processor::{
    all_readable, chunk_of, chunks_of, eligible_paths, walk_failed, ChunkModel, SourceFileModel,
    WalkItemModel,
};

verus! {

/// Whether `h` maps the concatenation of two sequences to the concatenation
/// of what it makes of each.
pub open spec fn distributes<A, B>(h: spec_fn(Seq<A>) -> Seq<B>) -> bool {
    forall|x: Seq<A>, y: Seq<A>| #[trigger] h(x + y) == h(x) + h(y)
}

/// What a distributing function makes of a sequence holds the same items,
/// each as often, however the sequence is rearranged.
pub proof fn lemma_rearranged<A, B>(h: spec_fn(Seq<A>) -> Seq<B>, first: Seq<A>, second: Seq<A>)
    requires
        distributes(h),
        first.to_multiset() == second.to_multiset(),
    ensures
        h(first).to_multiset() == h(second).to_multiset(),
    decreases first.len(),
{
    broadcast use vstd::multiset::group_multiset_axioms;

    to_multiset_len(first);
    to_multiset_len(second);
    if first.len() == 0 {
        assert(first =~= second);
    } else {
        let x = first.last();
        let front = first.drop_last();
        assert(first.contains(x));
        to_multiset_contains(first, x);
        to_multiset_contains(second, x);
        let j = choose|j: int| 0 <= j < second.len() && second[j] == x;
        let left = second.take(j);
        let right = second.skip(j + 1);
        let others = left + right;
        assert(others =~= second.remove(j));
        assert(front =~= first.remove(first.len() - 1));
        to_multiset_remove(first, first.len() - 1);
        to_multiset_remove(second, j);
        lemma_rearranged(h, front, others);
        assert(first =~= front + seq![x]);
        assert(second =~= (left + seq![x]) + right);
        assert(h(first) == h(front) + h(seq![x]));
        assert(h(left + seq![x]) == h(left) + h(seq![x]));
        assert(h(second) == (h(left) + h(seq![x])) + h(right));
        assert(h(others) == h(left) + h(right));
        lemma_multiset_commutative(h(front), h(seq![x]));
        lemma_multiset_commutative(h(left) + h(seq![x]), h(right));
        lemma_multiset_commutative(h(left), h(seq![x]));
        lemma_multiset_commutative(h(left), h(right));
        assert(h(second).to_multiset() =~= h(others).to_multiset().add(h(seq![x]).to_multiset()));
        assert(h(first).to_multiset() =~= h(second).to_multiset());
    }
}

/// The eligible paths of two stretches of a walk, one after the other, are
/// those of the first and then those of the second.
pub proof fn lemma_eligible_paths_distribute(x: Seq<WalkItemModel>, y: Seq<WalkItemModel>)
    ensures
        eligible_paths(x + y) == eligible_paths(x) + eligible_paths(y),
    decreases y.len(),
{
    if y.len() == 0 {
        assert(x + y =~= x);
        assert(eligible_paths(x) + eligible_paths(y) =~= eligible_paths(x));
    } else {
        assert((x + y).drop_last() =~= x + y.drop_last());
        assert((x + y).last() == y.last());
        lemma_eligible_paths_distribute(x, y.drop_last());
        assert(eligible_paths(x + y) =~= eligible_paths(x) + eligible_paths(y));
    }
}

/// Discovery over the same entries in another order selects the same
/// files, each as often, and fails on the one exactly when it fails on the
/// other.
pub proof fn lemma_discovery_ignores_order(first: Seq<WalkItemModel>, second: Seq<WalkItemModel>)
    requires
        first.to_multiset() == second.to_multiset(),
    ensures
        walk_failed(first) == walk_failed(second),
        eligible_paths(first).to_multiset() == eligible_paths(second).to_multiset(),
{
    let h = |items: Seq<WalkItemModel>| eligible_paths(items);
    assert forall|x: Seq<WalkItemModel>, y: Seq<WalkItemModel>| #[trigger] h(x + y) == h(x) + h(
        y,
    ) by {
        lemma_eligible_paths_distribute(x, y);
    }
    lemma_rearranged(h, first, second);
    if walk_failed(first) {
        let i = choose|i: int| 0 <= i < first.len() && #[trigger] first[i] is Failed;
        lemma_shared_item(first, second, i);
    }
    if walk_failed(second) {
        let i = choose|i: int| 0 <= i < second.len() && #[trigger] second[i] is Failed;
        lemma_shared_item(second, first, i);
    }
}

/// Extraction over the same files in another order makes the same chunks,
/// each as often, and fails on the one exactly when it fails on the other.
pub proof fn lemma_extraction_ignores_order(
    first: Seq<SourceFileModel>,
    second: Seq<SourceFileModel>,
)
    requires
        first.to_multiset() == second.to_multiset(),
    ensures
        all_readable(first) == all_readable(second),
        chunks_of(first).to_multiset() == chunks_of(second).to_multiset(),
{
    let h = |files: Seq<SourceFileModel>| chunks_of(files);
    assert forall|x: Seq<SourceFileModel>, y: Seq<SourceFileModel>| #[trigger] h(x + y) == h(x)
        + h(y) by {
        assert(chunks_of(x + y) =~= chunks_of(x) + chunks_of(y));
    }
    lemma_rearranged(h, first, second);
    if !all_readable(first) {
        let i = choose|i: int| 0 <= i < first.len() && !((#[trigger] first[i]).text is Some);
        lemma_shared_item(first, second, i);
    }
    if !all_readable(second) {
        let i = choose|i: int| 0 <= i < second.len() && !((#[trigger] second[i]).text is Some);
        lemma_shared_item(second, first, i);
    }
}

/// An item of one sequence stands somewhere in every rearrangement of it.
proof fn lemma_shared_item<A>(first: Seq<A>, second: Seq<A>, i: int)
    requires
        first.to_multiset() == second.to_multiset(),
        0 <= i < first.len(),
    ensures
        exists|j: int| 0 <= j < second.len() && #[trigger] second[j] == first[i],
{
    assert(first.contains(first[i]));
    to_multiset_contains(first, first[i]);
    to_multiset_contains(second, first[i]);
}

/// Each chunk depends on its own file alone: its path, content and language
/// are those of the chunk that the file would give by itself.
pub proof fn lemma_chunk_depends_on_its_file(files: Seq<SourceFileModel>, i: int)
    requires
        0 <= i < files.len(),
    ensures
        chunks_of(files).len() == files.len(),
        chunks_of(files)[i] == chunk_of(files[i].path, files[i].text.unwrap()),
        chunks_of(files)[i].file_path == files[i].path,
{
}

} // verus!
