//! Partitions of a node set into communities, and their canonical form.

use crate::fx::{map_get, map_insert};
use crate::graph::{CommunityId, NodeId, Partition};
use rustc_hash::FxHashMap;
use vstd::prelude::*;
use vstd::std_specs::btree::increasing_seq;
use vstd::std_specs::cmp::OrdSpec;
use vstd::std_specs::iter::IteratorSpec;

verus! {

/// `entries` lists the pairs of `partition` by ascending node: each entry is
/// a pair of the map, every node of the map has an entry, and the nodes
/// strictly increase along the list.
pub open spec fn is_listing(
    entries: Seq<(NodeId, CommunityId)>,
    partition: Map<NodeId, CommunityId>,
) -> bool {
    &&& forall|i: int, j: int| 0 <= i < j < entries.len() ==> entries[i].0 < entries[j].0
    &&& forall|i: int|
        0 <= i < entries.len() ==> partition.contains_key(#[trigger] entries[i].0)
            && partition[entries[i].0] == entries[i].1
    &&& forall|node: NodeId| #[trigger]
        partition.contains_key(node) ==> exists|i: int|
            0 <= i < entries.len() && #[trigger] entries[i].0 == node
}

/// The listing of `partition`: its pairs by ascending node.
pub open spec fn listing_of(partition: Map<NodeId, CommunityId>) -> Seq<(NodeId, CommunityId)> {
    choose|entries: Seq<(NodeId, CommunityId)>| is_listing(entries, partition)
}

/// A map has one listing only.
pub proof fn lemma_listing_unique(
    first: Seq<(NodeId, CommunityId)>,
    second: Seq<(NodeId, CommunityId)>,
    partition: Map<NodeId, CommunityId>,
)
    requires
        is_listing(first, partition),
        is_listing(second, partition),
    ensures
        first == second,
    decreases first.len(),
{
    if first.len() == 0 {
        if second.len() > 0 {
            assert(partition.contains_key(second[0].0));
        }
        assert(first =~= second);
    } else {
        let top = first.last();
        assert(top == first[first.len() - 1]);
        assert(partition.contains_key(top.0));
        let at = choose|i: int| 0 <= i < second.len() && #[trigger] second[i].0 == top.0;
        let other = second.last();
        assert(other == second[second.len() - 1]);
        assert(partition.contains_key(other.0));
        let back = choose|i: int| 0 <= i < first.len() && #[trigger] first[i].0 == other.0;
        assert(top.0 == other.0) by {
            if at < second.len() - 1 {
                assert(second[at].0 < second[second.len() - 1].0);
            }
            if back < first.len() - 1 {
                assert(first[back].0 < first[first.len() - 1].0);
            }
        }
        let rest = partition.remove(top.0);
        let shorter_first = first.drop_last();
        let shorter_second = second.drop_last();
        assert(is_listing(shorter_first, rest)) by {
            lemma_listing_without_last(first, partition);
        }
        assert(is_listing(shorter_second, rest)) by {
            lemma_listing_without_last(second, partition);
        }
        lemma_listing_unique(shorter_first, shorter_second, rest);
        assert(first =~= shorter_first.push(top));
        assert(second =~= shorter_second.push(other));
    }
}

proof fn lemma_listing_without_last(
    entries: Seq<(NodeId, CommunityId)>,
    partition: Map<NodeId, CommunityId>,
)
    requires
        is_listing(entries, partition),
        entries.len() > 0,
    ensures
        is_listing(entries.drop_last(), partition.remove(entries.last().0)),
{
    let shorter = entries.drop_last();
    let top = entries.last();
    let rest = partition.remove(top.0);
    assert(top == entries[entries.len() - 1]);
    assert forall|i: int| 0 <= i < shorter.len() implies rest.contains_key(
        #[trigger] shorter[i].0,
    ) && rest[shorter[i].0] == shorter[i].1 by {
        assert(shorter[i] == entries[i]);
        assert(entries[i].0 < entries[entries.len() - 1].0);
    }
    assert forall|node: NodeId| #[trigger] rest.contains_key(node) implies exists|i: int|
        0 <= i < shorter.len() && #[trigger] shorter[i].0 == node by {
        assert(partition.contains_key(node));
        let i = choose|i: int| 0 <= i < entries.len() && #[trigger] entries[i].0 == node;
        assert(shorter[i].0 == node);
    }
    assert forall|i: int, j: int| 0 <= i < j < shorter.len() implies shorter[i].0
        < shorter[j].0 by {
        assert(shorter[i] == entries[i]);
        assert(shorter[j] == entries[j]);
    }
}

/// A listing of a map is the listing of the map.
pub proof fn lemma_listing_of(
    entries: Seq<(NodeId, CommunityId)>,
    partition: Map<NodeId, CommunityId>,
)
    requires
        is_listing(entries, partition),
    ensures
        entries == listing_of(partition),
        is_listing(listing_of(partition), partition),
{
    lemma_listing_unique(entries, listing_of(partition), partition);
}

/// The map that holds the pairs of `entries`.
pub open spec fn partition_from(entries: Seq<(NodeId, CommunityId)>) -> Map<NodeId, CommunityId> {
    Map::new(
        |node: NodeId| exists|i: int| 0 <= i < entries.len() && #[trigger] entries[i].0 == node,
        |node: NodeId|
            entries[choose|i: int| 0 <= i < entries.len() && #[trigger] entries[i].0 == node].1,
    )
}

/// A map is the map of its listing.
pub proof fn lemma_partition_from(
    entries: Seq<(NodeId, CommunityId)>,
    partition: Map<NodeId, CommunityId>,
)
    requires
        is_listing(entries, partition),
    ensures
        partition == partition_from(entries),
{
    let built = partition_from(entries);
    assert forall|node: NodeId| partition.contains_key(node) <==> built.contains_key(node) by {
        if built.contains_key(node) {
            let i = choose|i: int| 0 <= i < entries.len() && #[trigger] entries[i].0 == node;
            assert(partition.contains_key(entries[i].0));
        }
    }
    assert forall|node: NodeId| partition.contains_key(node) implies partition[node]
        == built[node] by {
        let i = choose|i: int| 0 <= i < entries.len() && #[trigger] entries[i].0 == node;
        assert(partition[entries[i].0] == entries[i].1);
    }
    assert(partition =~= built);
}

/// The pairs of `partition`, by ascending node.
pub fn partition_entries(partition: &Partition) -> (entries: Vec<(NodeId, CommunityId)>)
    ensures
        is_listing(entries@, partition@),
        entries@ == listing_of(partition@),
        entries@.len() == partition@.dom().len(),
{
    let source = partition.iter();
    let ghost all = source.remaining();
    let ghost keys = all.map_values(|pair: (&NodeId, &CommunityId)| *pair.0);
    assert(increasing_seq(keys));
    let mut entries: Vec<(NodeId, CommunityId)> = Vec::new();
    for pair in pairs: source
        invariant
            pairs.seq() == all,
            entries@.len() == pairs.index(),
            forall|j: int|
                0 <= j < entries@.len() ==> #[trigger] entries@[j] == (*all[j].0, *all[j].1),
    {
        entries.push((*pair.0, *pair.1));
    }
    proof {
        assert forall|i: int, j: int| 0 <= i < j < entries@.len() implies entries@[i].0
            < entries@[j].0 by {
            assert(keys[i] == entries@[i].0);
            assert(keys[j] == entries@[j].0);
            assert(keys[i].cmp_spec(&keys[j]) is Less);
        }
        assert forall|node: NodeId| #[trigger] partition@.contains_key(node) implies exists|i: int|
            0 <= i < entries@.len() && #[trigger] entries@[i].0 == node by {
            let label = partition@[node];
            assert(all.contains((&node, &label)));
            let i = choose|i: int| 0 <= i < all.len() && all[i] == (&node, &label);
            assert(entries@[i].0 == node);
        }
        lemma_listing_of(entries@, partition@);
    }
    entries
}

/// The label of `node`, if it has one.
pub fn label_of(partition: &Partition, node: NodeId) -> (label: Option<CommunityId>)
    ensures
        label == if partition@.contains_key(node) {
            Some(partition@[node])
        } else {
            None
        },
{
    match partition.get(&node) {
        Some(label) => Some(*label),
        None => None,
    }
}

/// Two partitions of the same nodes that put the same nodes together:
/// whatever the labels are called, two nodes share a label in one exactly
/// when they share a label in the other.
pub open spec fn same_grouping(a: Map<NodeId, CommunityId>, b: Map<NodeId, CommunityId>) -> bool {
    &&& a.dom() == b.dom()
    &&& forall|x: NodeId, y: NodeId|
        #![trigger a[x], a[y]]
        #![trigger b[x], b[y]]
        a.contains_key(x) && a.contains_key(y) ==> (a[x] == a[y] <==> b[x] == b[y])
}

/// Some node below `node` carries `label`.
#[verifier::opaque]
pub open spec fn label_used_before(
    partition: Map<NodeId, CommunityId>,
    node: NodeId,
    label: int,
) -> bool {
    exists|earlier: NodeId|
        earlier < node && #[trigger] partition.contains_key(earlier) && partition[earlier] == label
}

/// The labels are `0, 1, 2, ...` in the order in which the communities are
/// first met when the nodes are walked in ascending order: no label is
/// negative, and a node with a label above zero comes after some node with
/// the label just below.
pub open spec fn is_canonical(partition: Map<NodeId, CommunityId>) -> bool {
    forall|node: NodeId| #[trigger]
        partition.contains_key(node) ==> partition[node] >= 0 && (partition[node] > 0
            ==> label_used_before(partition, node, partition[node] - 1))
}

/// `normal` is the canonical relabelling of `partition`.
pub open spec fn is_normal_form_of(
    normal: Map<NodeId, CommunityId>,
    partition: Map<NodeId, CommunityId>,
) -> bool {
    same_grouping(partition, normal) && is_canonical(normal)
}

/// Names a node below `node` that carries `label`, where there is one.
pub proof fn lemma_label_used_before_witness(
    partition: Map<NodeId, CommunityId>,
    node: NodeId,
    label: int,
) -> (earlier: NodeId)
    requires
        label_used_before(partition, node, label),
    ensures
        earlier < node,
        partition.contains_key(earlier),
        partition[earlier] == label,
{
    reveal(label_used_before);
    choose|earlier: NodeId|
        earlier < node && #[trigger] partition.contains_key(earlier) && partition[earlier] == label
}

/// A node below `node` that carries `label` shows that the label is in use
/// before `node`.
pub proof fn lemma_label_used_before_intro(
    partition: Map<NodeId, CommunityId>,
    node: NodeId,
    label: int,
    earlier: NodeId,
)
    requires
        earlier < node,
        partition.contains_key(earlier),
        partition[earlier] == label,
    ensures
        label_used_before(partition, node, label),
{
    reveal(label_used_before);
}

/// In a canonical partition every label from zero up to the label of `node`
/// is in use at `node` or before it.
pub proof fn lemma_canonical_labels_below(
    partition: Map<NodeId, CommunityId>,
    node: NodeId,
    label: CommunityId,
) -> (witness: NodeId)
    requires
        is_canonical(partition),
        partition.contains_key(node),
        0 <= label <= partition[node],
    ensures
        witness <= node,
        partition.contains_key(witness),
        partition[witness] == label,
    decreases partition[node] - label,
{
    if partition[node] == label {
        node
    } else {
        let earlier = lemma_label_used_before_witness(partition, node, partition[node] - 1);
        lemma_canonical_labels_below(partition, earlier, label)
    }
}

/// Where the label of `node` is new at `node` in both of two canonical
/// partitions that agree below `node`, the first does not give it a smaller
/// label than the second.
proof fn lemma_new_label_not_smaller(
    a: Map<NodeId, CommunityId>,
    b: Map<NodeId, CommunityId>,
    node: NodeId,
)
    requires
        is_canonical(a),
        is_canonical(b),
        a.dom() == b.dom(),
        a.contains_key(node),
        forall|k: NodeId| k < node && #[trigger] a.contains_key(k) ==> a[k] == b[k],
        !label_used_before(a, node, a[node] as int),
    ensures
        a[node] >= b[node],
{
    if a[node] < b[node] {
        let below = lemma_label_used_before_witness(b, node, b[node] - 1);
        assert(a.contains_key(below));
        let k = lemma_canonical_labels_below(a, below, a[node]);
        lemma_label_used_before_intro(a, node, a[node] as int, k);
    }
}

/// Two canonical partitions with the same grouping agree on every node up
/// to `bound`.
proof fn lemma_canonical_agree_up_to(
    a: Map<NodeId, CommunityId>,
    b: Map<NodeId, CommunityId>,
    bound: int,
)
    requires
        is_canonical(a),
        is_canonical(b),
        same_grouping(a, b),
        i32::MIN - 1 <= bound <= i32::MAX,
    ensures
        forall|node: NodeId| node <= bound && #[trigger] a.contains_key(node) ==> a[node] == b[node],
    decreases bound - i32::MIN + 1,
{
    if bound >= i32::MIN {
        lemma_canonical_agree_up_to(a, b, bound - 1);
        let node = bound as NodeId;
        if a.contains_key(node) {
            assert(b.contains_key(node));
            if label_used_before(a, node, a[node] as int) {
                let k = lemma_label_used_before_witness(a, node, a[node] as int);
                assert(a[k] == a[node] <==> b[k] == b[node]);
            } else if label_used_before(b, node, b[node] as int) {
                let k = lemma_label_used_before_witness(b, node, b[node] as int);
                assert(a.contains_key(k));
                assert(a[k] == a[node] <==> b[k] == b[node]);
                lemma_label_used_before_intro(a, node, a[node] as int, k);
            } else {
                lemma_new_label_not_smaller(a, b, node);
                assert forall|k: NodeId| k < node && #[trigger] b.contains_key(k) implies b[k]
                    == a[k] by {
                    assert(a.contains_key(k));
                }
                lemma_new_label_not_smaller(b, a, node);
            }
        }
    }
}

/// A grouping has one canonical labelling only: two canonical partitions
/// that put the same nodes together are the same map.
pub proof fn lemma_canonical_unique(a: Map<NodeId, CommunityId>, b: Map<NodeId, CommunityId>)
    requires
        is_canonical(a),
        is_canonical(b),
        same_grouping(a, b),
    ensures
        a == b,
{
    lemma_canonical_agree_up_to(a, b, i32::MAX as int);
    assert(a =~= b);
}

/// Normalization is idempotent: the normal form of a partition that is
/// already canonical is that partition.
pub proof fn lemma_normalize_idempotent(
    partition: Map<NodeId, CommunityId>,
    normal: Map<NodeId, CommunityId>,
)
    requires
        is_canonical(partition),
        is_normal_form_of(normal, partition),
    ensures
        normal == partition,
{
    lemma_canonical_unique(partition, normal);
}

/// Partitions that put the same nodes together have the same normal form,
/// whatever their labels are.
pub proof fn lemma_normal_form_of_same_grouping(
    first: Map<NodeId, CommunityId>,
    second: Map<NodeId, CommunityId>,
    first_normal: Map<NodeId, CommunityId>,
    second_normal: Map<NodeId, CommunityId>,
)
    requires
        same_grouping(first, second),
        is_normal_form_of(first_normal, first),
        is_normal_form_of(second_normal, second),
    ensures
        first_normal == second_normal,
{
    assert(same_grouping(first_normal, second_normal)) by {
        assert forall|x: NodeId, y: NodeId|
            first_normal.contains_key(x) && first_normal.contains_key(y) implies (first_normal[x]
            == first_normal[y] <==> second_normal[x] == second_normal[y]) by {
            assert(first[x] == first[y] <==> first_normal[x] == first_normal[y]);
            assert(first[x] == first[y] <==> second[x] == second[y]);
            assert(second[x] == second[y] <==> second_normal[x] == second_normal[y]);
        }
    }
    lemma_canonical_unique(first_normal, second_normal);
}

/// What holds while the entries are relabelled one by one: `normal` holds
/// the first `done` entries under their new labels, `mapping` takes each old
/// label met so far to its new one, the new labels in use are those below
/// `next`, and `first_use[v]` is the entry at which the new label `v` was
/// given out.
spec fn relabelled(
    entries: Seq<(NodeId, CommunityId)>,
    done: int,
    normal: Map<NodeId, CommunityId>,
    mapping: Map<CommunityId, CommunityId>,
    next: int,
    first_use: Seq<int>,
) -> bool {
    &&& 0 <= next <= done <= entries.len()
    &&& first_use.len() == next
    &&& forall|node: NodeId| #[trigger]
        normal.contains_key(node) ==> done > 0 && node <= entries[done - 1].0
    &&& forall|j: int|
        0 <= j < done ==> normal.contains_key(#[trigger] entries[j].0) && mapping.contains_key(
            entries[j].1,
        ) && normal[entries[j].0] == mapping[entries[j].1]
    &&& forall|label: CommunityId| #[trigger]
        mapping.contains_key(label) ==> 0 <= mapping[label] < next
            && entries[first_use[mapping[label] as int]].1 == label
    &&& forall|v: int|
        0 <= v < next ==> 0 <= #[trigger] first_use[v] < done && mapping.contains_key(
            entries[first_use[v]].1,
        ) && mapping[entries[first_use[v]].1] == v
    &&& forall|v: int| 0 < v < next ==> first_use[v - 1] < #[trigger] first_use[v]
    &&& forall|j: int|
        0 <= j < done ==> first_use[mapping[#[trigger] entries[j].1] as int] <= j
}

/// Relabels the communities as `0, 1, 2, ...` in the order in which they are
/// first met when the nodes are walked in ascending order.
pub fn normalize_community_ids(partition: Partition) -> (normal: Partition)
    requires
        partition@.dom().len() <= i32::MAX,
    ensures
        is_normal_form_of(normal@, partition@),
        is_canonical(partition@) ==> normal@ == partition@,
{
    let entries = partition_entries(&partition);
    let mut normal = Partition::new();
    let mut id_mapping: FxHashMap<CommunityId, CommunityId> = FxHashMap::default();
    let mut next_id: CommunityId = 0;
    let ghost mut first_use: Seq<int> = Seq::empty();
    let mut i: usize = 0;
    while i < entries.len()
        invariant
            is_listing(entries@, partition@),
            entries@.len() <= i32::MAX,
            relabelled(entries@, i as int, normal@, id_mapping@, next_id as int, first_use),
            forall|node: NodeId| #[trigger]
                normal@.contains_key(node) ==> partition@.contains_key(node),
        decreases entries@.len() - i,
    {
        let node = entries[i].0;
        let label = entries[i].1;
        let ghost before = normal@;
        let ghost mapping_before = id_mapping@;
        let ghost first_before = first_use;
        let new_id = match map_get(&id_mapping, label) {
            Some(id) => *id,
            None => {
                let id = next_id;
                map_insert(&mut id_mapping, label, id);
                next_id = next_id + 1;
                proof {
                    first_use = first_use.push(i as int);
                }
                id
            },
        };
        normal.insert(node, new_id);
        proof {
            assert(!before.contains_key(node)) by {
                if before.contains_key(node) {
                    assert(entries@[i - 1].0 < entries@[i as int].0);
                }
            }
            assert forall|j: int| 0 <= j < i implies entries@[j].0 != node by {
                assert(entries@[j].0 < entries@[i as int].0);
            }
            assert forall|v: int| 0 <= v < first_before.len() implies first_use[v]
                == first_before[v] by {}
        }
        i += 1;
    }
    proof {
        assert(normal@.dom() =~= partition@.dom()) by {
            assert forall|n: NodeId| normal@.contains_key(n) <==> partition@.contains_key(n) by {
                if partition@.contains_key(n) {
                    let j = choose|j: int| 0 <= j < entries@.len() && #[trigger] entries@[j].0 == n;
                    assert(normal@.contains_key(entries@[j].0));
                }
            }
        }
        assert forall|x: NodeId, y: NodeId|
            partition@.contains_key(x) && partition@.contains_key(y) implies (partition@[x]
            == partition@[y] <==> normal@[x] == normal@[y]) by {
            let jx = choose|j: int| 0 <= j < entries@.len() && #[trigger] entries@[j].0 == x;
            let jy = choose|j: int| 0 <= j < entries@.len() && #[trigger] entries@[j].0 == y;
            assert(normal@[entries@[jx].0] == id_mapping@[entries@[jx].1]);
            assert(normal@[entries@[jy].0] == id_mapping@[entries@[jy].1]);
        }
        assert forall|node: NodeId| #[trigger] normal@.contains_key(node) implies normal@[node] >= 0
            && (normal@[node] > 0 ==> label_used_before(normal@, node, normal@[node] - 1)) by {
            let j = choose|j: int| 0 <= j < entries@.len() && #[trigger] entries@[j].0 == node;
            assert(normal@[entries@[j].0] == id_mapping@[entries@[j].1]);
            let v = normal@[node] as int;
            if v > 0 {
                let earlier = first_use[v - 1];
                assert(first_use[v - 1] < first_use[v]);
                assert(first_use[id_mapping@[entries@[j].1] as int] <= j);
                assert(normal@[entries@[earlier].0] == v - 1);
                assert(entries@[earlier].0 < entries@[j].0);
                lemma_label_used_before_intro(normal@, node, v - 1, entries@[earlier].0);
            }
        }
        if is_canonical(partition@) {
            lemma_canonical_unique(partition@, normal@);
        }
    }
    normal
}

} // verus!
