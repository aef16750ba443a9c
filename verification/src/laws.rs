//! What holds of every forest that `forest_shape` describes.

use vstd::prelude::*;
use crate::model::CommentView;
use crate::threads::Shape;
use crate::threads::forest_shape;
use crate::threads::forest_view;
use crate::threads::node_view;
use crate::threads::nodes_view;
use crate::threads::has_id;
use crate::threads::lemma_path_fits;
use crate::threads::lemma_replies_unfold;
use crate::threads::lemma_reply_indices_below;
use crate::threads::positions;
use crate::threads::replies;
use crate::threads::reply_indices;
use crate::threads::valid_path;

verus! {

/// The positions of the records in a tree: its own, then those of the trees
/// below it, one tree after the other.
pub open spec fn tree_indices(shape: Shape) -> Seq<int>
    decreases shape, 1int,
{
    seq![shape.index] + forest_indices(shape.replies)
}

/// The positions of the records in a sequence of trees, one tree after the
/// other.
pub open spec fn forest_indices(shapes: Seq<Shape>) -> Seq<int>
    decreases shapes, 0int,
{
    if shapes.len() == 0 {
        Seq::empty()
    } else {
        forest_indices(shapes.drop_last()) + tree_indices(shapes.last())
    }
}

/// The trees stand in input order, every tree is that of a record whose
/// parent is `parent`, and the same holds of the replies below each tree,
/// with the tree's own record as the parent.
pub open spec fn follows_input(
    records: Seq<CommentView>,
    shapes: Seq<Shape>,
    parent: Option<int>,
) -> bool
    decreases shapes,
{
    &&& forall|s: int, t: int|
        0 <= s < t < shapes.len() ==> (#[trigger] shapes[s]).index < (#[trigger] shapes[t]).index
    &&& forall|t: int|
        0 <= t < shapes.len() ==> {
            &&& 0 <= (#[trigger] shapes[t]).index < records.len()
            &&& records[shapes[t].index].parent_id == parent
            &&& follows_input(records, shapes[t].replies, Some(records[shapes[t].index].id))
        }
}

/// The record at position `i` names a parent that is not among the records.
pub open spec fn is_orphan(records: Seq<CommentView>, i: int) -> bool {
    records[i].parent_id matches Some(p) && !has_id(records, p)
}

/// The replies below a comment stand in input order and name the comment as
/// their parent, at every depth.
pub proof fn lemma_replies_follow_input(records: Seq<CommentView>, id: int, path: Seq<int>)
    requires
        valid_path(records, path),
        has_id(records, id),
    ensures
        follows_input(records, replies(records, id, path), Some(id)),
    decreases records.len() - path.len(),
{
    lemma_replies_unfold(records, id, path);
    if !path.contains(id) {
        let longer = path.push(id);
        let indices = reply_indices(records, Some(id));
        let shapes = replies(records, id, path);
        lemma_path_fits(records, longer);
        lemma_reply_indices_below(records, Some(id), records.len());
        assert forall|t: int| 0 <= t < shapes.len() implies {
            &&& 0 <= (#[trigger] shapes[t]).index < records.len()
            &&& records[shapes[t].index].parent_id == Some(id)
            &&& follows_input(records, shapes[t].replies, Some(records[shapes[t].index].id))
        } by {
            let j = indices[t];
            assert(0 <= j < records.len());
            lemma_replies_follow_input(records, records[j].id, longer);
        }
        assert forall|s: int, t: int| 0 <= s < t < shapes.len() implies (#[trigger] shapes[s]).index
            < (#[trigger] shapes[t]).index by {
            assert(indices[s] < indices[t]);
        }
    }
}

/// Stability and parentage, for every input: the roots of the forest are the
/// records without a parent in input order, and below every comment stand
/// replies to that very comment, in input order.
pub proof fn lemma_forest_follows_input(records: Seq<CommentView>)
    ensures
        follows_input(records, forest_shape(records), None),
{
    let roots = reply_indices(records, None);
    let shapes = forest_shape(records);
    lemma_reply_indices_below(records, None, records.len());
    assert(valid_path(records, Seq::<int>::empty()));
    assert forall|t: int| 0 <= t < shapes.len() implies {
        &&& 0 <= (#[trigger] shapes[t]).index < records.len()
        &&& records[shapes[t].index].parent_id == None::<int>
        &&& follows_input(records, shapes[t].replies, Some(records[shapes[t].index].id))
    } by {
        let i = roots[t];
        assert(0 <= i < records.len());
        lemma_replies_follow_input(records, records[i].id, Seq::empty());
    }
    assert forall|s: int, t: int| 0 <= s < t < shapes.len() implies (#[trigger] shapes[s]).index
        < (#[trigger] shapes[t]).index by {
        assert(roots[s] < roots[t]);
    }
}

/// A position is in a sequence of trees exactly if it is in one of them.
pub proof fn lemma_forest_indices_contains(shapes: Seq<Shape>, e: int)
    ensures
        forest_indices(shapes).contains(e) <==> exists|t: int|
            0 <= t < shapes.len() && tree_indices(#[trigger] shapes[t]).contains(e),
    decreases shapes.len(),
{
    if shapes.len() > 0 {
        let front = shapes.drop_last();
        let a = forest_indices(front);
        let b = tree_indices(shapes.last());
        lemma_forest_indices_contains(front, e);
        if forest_indices(shapes).contains(e) {
            let k = choose|k: int| 0 <= k < (a + b).len() && (a + b)[k] == e;
            if k < a.len() {
                assert(a[k] == e);
                assert(a.contains(e));
                let t = choose|t: int| 0 <= t < front.len() && tree_indices(front[t]).contains(e);
                assert(shapes[t] == front[t]);
            } else {
                assert(b[k - a.len()] == e);
                assert(tree_indices(shapes[shapes.len() - 1]).contains(e));
            }
        }
        if exists|t: int| 0 <= t < shapes.len() && tree_indices(#[trigger] shapes[t]).contains(e) {
            let t = choose|t: int|
                0 <= t < shapes.len() && tree_indices(#[trigger] shapes[t]).contains(e);
            if t < front.len() {
                assert(front[t] == shapes[t]);
                assert(a.contains(e));
                let k = choose|k: int| 0 <= k < a.len() && a[k] == e;
                assert((a + b)[k] == e);
            } else {
                let k = choose|k: int| 0 <= k < b.len() && b[k] == e;
                assert((a + b)[a.len() + k] == e);
            }
        }
    }
}

/// Every position in trees that follow the input is that of a record whose
/// parent is the one given, or is some record.
pub proof fn lemma_members_have_parents(
    records: Seq<CommentView>,
    shapes: Seq<Shape>,
    parent: Option<int>,
    e: int,
)
    requires
        follows_input(records, shapes, parent),
        forest_indices(shapes).contains(e),
        parent matches Some(p) ==> has_id(records, p),
    ensures
        0 <= e < records.len(),
        !is_orphan(records, e),
    decreases shapes,
{
    lemma_forest_indices_contains(shapes, e);
    let t = choose|t: int| 0 <= t < shapes.len() && tree_indices(#[trigger] shapes[t]).contains(e);
    let shape = shapes[t];
    let below = forest_indices(shape.replies);
    let k = choose|k: int| 0 <= k < tree_indices(shape).len() && tree_indices(shape)[k] == e;
    if k > 0 {
        assert(below[k - 1] == e);
        assert(has_id(records, records[shape.index].id));
        lemma_members_have_parents(records, shape.replies, Some(records[shape.index].id), e);
    }
}

/// Orphans are left out: a record whose parent is not among the records is
/// nowhere in the forest, neither as a root nor below another comment.
pub proof fn lemma_orphans_left_out(records: Seq<CommentView>, i: int)
    requires
        0 <= i < records.len(),
        is_orphan(records, i),
    ensures
        !forest_indices(forest_shape(records)).contains(i),
{
    lemma_forest_follows_input(records);
    if forest_indices(forest_shape(records)).contains(i) {
        lemma_members_have_parents(records, forest_shape(records), None, i);
    }
}

/// No two records have the same identifier.
pub open spec fn distinct_ids(records: Seq<CommentView>) -> bool {
    forall|i: int, j: int|
        0 <= i < records.len() && 0 <= j < records.len() && i != j ==> (#[trigger] records[i]).id
            != (#[trigger] records[j]).id
}

/// `chain` leads from a record without a parent down to its last position:
/// every position in it is that of a reply to the record before.
pub open spec fn is_chain(records: Seq<CommentView>, chain: Seq<int>) -> bool {
    &&& chain.len() >= 1
    &&& forall|t: int| 0 <= t < chain.len() ==> 0 <= #[trigger] chain[t] < records.len()
    &&& records[chain[0]].parent_id is None
    &&& forall|t: int|
        1 <= t < chain.len() ==> records[#[trigger] chain[t]].parent_id == Some(
            records[chain[t - 1]].id,
        )
}

/// The record at position `i` descends from a record without a parent.
pub open spec fn rooted(records: Seq<CommentView>, i: int) -> bool {
    exists|chain: Seq<int>| is_chain(records, chain) && #[trigger] chain.last() == i
}

/// How many records are orphans.
pub open spec fn orphan_count(records: Seq<CommentView>) -> nat {
    positions(records.len()).filter(|i: int| is_orphan(records, i)).len()
}

/// The identifiers of the records at the positions in `chain`.
pub open spec fn chain_ids(records: Seq<CommentView>, chain: Seq<int>) -> Seq<int> {
    chain.map_values(|i: int| records[i].id)
}

/// `chain` begins with `start`.
pub open spec fn begins_with(chain: Seq<int>, start: Seq<int>) -> bool {
    start.len() <= chain.len() && chain.take(start.len() as int) == start
}

/// With distinct identifiers no position occurs twice in a chain.
proof fn lemma_chain_apart(records: Seq<CommentView>, chain: Seq<int>, s: int, t: int)
    requires
        distinct_ids(records),
        is_chain(records, chain),
        0 <= s < t < chain.len(),
    ensures
        chain[s] != chain[t],
    decreases s,
{
    if s > 0 && chain[s] == chain[t] {
        lemma_chain_apart(records, chain, s - 1, t - 1);
        assert(records[chain[s - 1]].id == records[chain[t - 1]].id);
    }
}

/// With distinct identifiers no identifier occurs twice along a chain: on
/// the way down from a root every comment is met at most once.
pub proof fn lemma_chain_ids_distinct(records: Seq<CommentView>, chain: Seq<int>)
    requires
        distinct_ids(records),
        is_chain(records, chain),
    ensures
        chain.no_duplicates(),
        chain_ids(records, chain).no_duplicates(),
        valid_path(records, chain_ids(records, chain)),
        valid_path(records, chain_ids(records, chain.drop_last())),
        !chain_ids(records, chain.drop_last()).contains(records[chain.last()].id),
{
    let ids = chain_ids(records, chain);
    assert forall|s: int, t: int| 0 <= s < chain.len() && 0 <= t < chain.len() && s != t implies {
        &&& chain[s] != chain[t]
        &&& ids[s] != ids[t]
    } by {
        if s < t {
            lemma_chain_apart(records, chain, s, t);
        } else {
            lemma_chain_apart(records, chain, t, s);
        }
    }
    assert forall|t: int| 0 <= t < ids.len() implies has_id(records, #[trigger] ids[t]) by {
        assert(records[chain[t]].id == ids[t]);
    }
    let front = chain_ids(records, chain.drop_last());
    assert(front =~= ids.drop_last());
    assert forall|t: int| 0 <= t < front.len() implies has_id(records, #[trigger] front[t]) by {
        assert(front[t] == ids[t]);
    }
    if front.contains(records[chain.last()].id) {
        let t = choose|t: int| 0 <= t < front.len() && front[t] == records[chain.last()].id;
        assert(ids[t] == ids[chain.len() - 1]);
    }
}

/// With distinct identifiers there is one way down to a record at most.
proof fn lemma_chain_unique(records: Seq<CommentView>, a: Seq<int>, b: Seq<int>)
    requires
        distinct_ids(records),
        is_chain(records, a),
        is_chain(records, b),
        a.last() == b.last(),
    ensures
        a == b,
    decreases a.len(),
{
    if a.len() == 1 {
        if b.len() > 1 {
            assert(records[b[b.len() - 1]].parent_id is Some);
        }
        assert(a =~= b);
    } else {
        assert(records[a[a.len() - 1]].parent_id is Some);
        if b.len() == 1 {
            assert(false);
        }
        let fa = a.drop_last();
        let fb = b.drop_last();
        assert(records[a[a.len() - 2]].id == records[b[b.len() - 2]].id);
        assert(is_chain(records, fa)) by {
            assert forall|t: int| 1 <= t < fa.len() implies records[#[trigger] fa[t]].parent_id
                == Some(records[fa[t - 1]].id) by {
                assert(fa[t] == a[t]);
            }
        }
        assert(is_chain(records, fb)) by {
            assert forall|t: int| 1 <= t < fb.len() implies records[#[trigger] fb[t]].parent_id
                == Some(records[fb[t - 1]].id) by {
                assert(fb[t] == b[t]);
            }
        }
        lemma_chain_unique(records, fa, fb);
        assert(a =~= fa.push(a.last()));
        assert(b =~= fb.push(b.last()));
    }
}

/// A chain with one more reply at its end is a chain.
proof fn lemma_chain_push(records: Seq<CommentView>, chain: Seq<int>, j: int)
    requires
        is_chain(records, chain),
        0 <= j < records.len(),
        records[j].parent_id == Some(records[chain.last()].id),
    ensures
        is_chain(records, chain.push(j)),
        chain.push(j).drop_last() == chain,
        chain_ids(records, chain) == chain_ids(records, chain.drop_last()).push(
            records[chain.last()].id,
        ),
{
    let longer = chain.push(j);
    assert forall|t: int| 1 <= t < longer.len() implies records[#[trigger] longer[t]].parent_id
        == Some(records[longer[t - 1]].id) by {
        if t < chain.len() {
            assert(longer[t] == chain[t]);
        }
    }
    assert(longer.drop_last() =~= chain);
    assert(chain_ids(records, chain) =~= chain_ids(records, chain.drop_last()).push(
        records[chain.last()].id,
    ));
}

/// Sequences that hold nothing twice and share nothing make a sequence that
/// holds nothing twice.
proof fn lemma_concat_apart(a: Seq<int>, b: Seq<int>)
    requires
        a.no_duplicates(),
        b.no_duplicates(),
        forall|e: int| !(a.contains(e) && b.contains(e)),
    ensures
        (a + b).no_duplicates(),
{
    let c = a + b;
    assert forall|s: int, t: int| 0 <= s < c.len() && 0 <= t < c.len() && s != t implies c[s]
        != c[t] by {
        if s < a.len() && t >= a.len() {
            assert(a.contains(a[s]));
            assert(b.contains(b[t - a.len()]));
        }
        if t < a.len() && s >= a.len() {
            assert(a.contains(a[t]));
            assert(b.contains(b[s - a.len()]));
        }
    }
}

/// Trees that hold nothing twice and share nothing make a forest that holds
/// nothing twice.
proof fn lemma_forest_indices_apart(shapes: Seq<Shape>)
    requires
        forall|t: int| 0 <= t < shapes.len() ==> tree_indices(#[trigger] shapes[t]).no_duplicates(),
        forall|s: int, t: int, e: int|
            0 <= s < t < shapes.len() ==> !(tree_indices(#[trigger] shapes[s]).contains(e)
                && #[trigger] tree_indices(shapes[t]).contains(e)),
    ensures
        forest_indices(shapes).no_duplicates(),
    decreases shapes.len(),
{
    if shapes.len() > 0 {
        let front = shapes.drop_last();
        let last = (shapes.len() - 1) as int;
        assert forall|t: int| 0 <= t < front.len() implies tree_indices(
            #[trigger] front[t],
        ).no_duplicates() by {
            assert(front[t] == shapes[t]);
        }
        assert forall|s: int, t: int, e: int| 0 <= s < t < front.len() implies !(tree_indices(
            #[trigger] front[s],
        ).contains(e) && #[trigger] tree_indices(front[t]).contains(e)) by {
            assert(front[s] == shapes[s]);
            assert(front[t] == shapes[t]);
        }
        lemma_forest_indices_apart(front);
        let a = forest_indices(front);
        let b = tree_indices(shapes.last());
        assert forall|e: int| !(a.contains(e) && b.contains(e)) by {
            if a.contains(e) && b.contains(e) {
                lemma_forest_indices_contains(front, e);
                let s = choose|s: int|
                    0 <= s < front.len() && tree_indices(#[trigger] front[s]).contains(e);
                assert(front[s] == shapes[s]);
                assert(tree_indices(shapes[last]).contains(e));
            }
        }
        assert(tree_indices(shapes[last]).no_duplicates());
        lemma_concat_apart(a, b);
    }
}

/// The tree of the record at the end of `chain`, reached along `chain`.
pub open spec fn subtree(records: Seq<CommentView>, chain: Seq<int>) -> Shape {
    Shape {
        index: chain.last(),
        replies: replies(
            records,
            records[chain.last()].id,
            chain_ids(records, chain.drop_last()),
        ),
    }
}

/// The way down to the record at position `e` goes along `start`.
pub open spec fn descends(records: Seq<CommentView>, start: Seq<int>, e: int) -> bool {
    exists|chain: Seq<int>|
        is_chain(records, chain) && #[trigger] chain.last() == e && begins_with(chain, start)
}

/// With distinct identifiers the tree reached along a chain holds no
/// position twice, and holds exactly the positions to which the way down
/// goes along that chain.
proof fn lemma_subtree_members(records: Seq<CommentView>, chain: Seq<int>)
    requires
        distinct_ids(records),
        is_chain(records, chain),
    ensures
        tree_indices(subtree(records, chain)).no_duplicates(),
        forall|e: int|
            #[trigger] tree_indices(subtree(records, chain)).contains(e) <==> descends(
                records,
                chain,
                e,
            ),
    decreases records.len() - chain.len(),
{
    let i = chain.last();
    let id = records[i].id;
    let above = chain_ids(records, chain.drop_last());
    let len = chain.len() as int;
    lemma_chain_ids_distinct(records, chain);
    assert(has_id(records, id));
    lemma_replies_unfold(records, id, above);
    lemma_reply_indices_below(records, Some(id), records.len());
    let kids = reply_indices(records, Some(id));
    let shapes = replies(records, id, above);
    let tree = subtree(records, chain);
    let below = forest_indices(shapes);
    assert forall|t: int| 0 <= t < shapes.len() implies {
        &&& is_chain(records, chain.push(kids[t]))
        &&& #[trigger] shapes[t] == subtree(records, chain.push(kids[t]))
        &&& tree_indices(shapes[t]).no_duplicates()
        &&& forall|e: int|
            #[trigger] tree_indices(shapes[t]).contains(e) <==> descends(
                records,
                chain.push(kids[t]),
                e,
            )
    } by {
        let j = kids[t];
        let longer = chain.push(j);
        lemma_chain_push(records, chain, j);
        lemma_chain_ids_distinct(records, longer);
        lemma_path_fits(records, chain_ids(records, longer));
        lemma_subtree_members(records, longer);
    }
    // what lies below the record does not hold the record itself
    assert forall|e: int| !(seq![i].contains(e) && below.contains(e)) by {
        if seq![i].contains(e) && below.contains(e) {
            assert(e == i);
            lemma_forest_indices_contains(shapes, e);
            let t = choose|t: int|
                0 <= t < shapes.len() && tree_indices(#[trigger] shapes[t]).contains(e);
            assert(descends(records, chain.push(kids[t]), e));
            let c = choose|c: Seq<int>|
                is_chain(records, c) && #[trigger] c.last() == e && begins_with(
                    c,
                    chain.push(kids[t]),
                );
            assert(c.take(len + 1)[len - 1] == chain.push(kids[t])[len - 1]);
            lemma_chain_apart(records, c, len - 1, c.len() - 1);
        }
    }
    // the trees below share nothing
    assert forall|s: int, t: int, e: int| 0 <= s < t < shapes.len() implies !(tree_indices(
        #[trigger] shapes[s],
    ).contains(e) && #[trigger] tree_indices(shapes[t]).contains(e)) by {
        if tree_indices(shapes[s]).contains(e) && tree_indices(shapes[t]).contains(e) {
            assert(descends(records, chain.push(kids[s]), e));
            assert(descends(records, chain.push(kids[t]), e));
            let a = choose|c: Seq<int>|
                is_chain(records, c) && #[trigger] c.last() == e && begins_with(
                    c,
                    chain.push(kids[s]),
                );
            let b = choose|c: Seq<int>|
                is_chain(records, c) && #[trigger] c.last() == e && begins_with(
                    c,
                    chain.push(kids[t]),
                );
            lemma_chain_unique(records, a, b);
            assert(a.take(len + 1)[len] == chain.push(kids[s])[len]);
            assert(b.take(len + 1)[len] == chain.push(kids[t])[len]);
            assert(kids[s] < kids[t]);
        }
    }
    lemma_forest_indices_apart(shapes);
    assert(seq![i].no_duplicates());
    lemma_concat_apart(seq![i], below);
    assert forall|e: int| #[trigger] tree_indices(tree).contains(e) <==> descends(
        records,
        chain,
        e,
    ) by {
        lemma_forest_indices_contains(shapes, e);
        if tree_indices(tree).contains(e) {
            let k = choose|k: int| 0 <= k < tree_indices(tree).len() && tree_indices(tree)[k] == e;
            if k == 0 {
                assert(chain.take(len) =~= chain);
                assert(begins_with(chain, chain));
            } else {
                assert(below[k - 1] == e);
                let t = choose|t: int|
                    0 <= t < shapes.len() && tree_indices(#[trigger] shapes[t]).contains(e);
                assert(descends(records, chain.push(kids[t]), e));
                let c = choose|c: Seq<int>|
                    is_chain(records, c) && #[trigger] c.last() == e && begins_with(
                        c,
                        chain.push(kids[t]),
                    );
                assert(c.take(len) =~= c.take(len + 1).take(len));
                assert(chain.push(kids[t]).take(len) =~= chain);
                assert(begins_with(c, chain));
            }
        }
        if descends(records, chain, e) {
            let c = choose|c: Seq<int>|
                is_chain(records, c) && #[trigger] c.last() == e && begins_with(c, chain);
            assert(c.take(len)[len - 1] == chain[len - 1]);
            if c.len() == len {
                assert(c.take(len) =~= c);
                assert(tree_indices(tree)[0] == e);
            } else {
                let j = c[len];
                assert(records[j].parent_id == Some(records[c[len - 1]].id));
                assert(kids.contains(j));
                let t = choose|t: int| 0 <= t < kids.len() && kids[t] == j;
                assert(c.take(len + 1) =~= c.take(len).push(j));
                assert(begins_with(c, chain.push(kids[t])));
                assert(descends(records, chain.push(kids[t]), e));
                assert(tree_indices(shapes[t]).contains(e));
                assert(below.contains(e));
                let k = choose|k: int| 0 <= k < below.len() && below[k] == e;
                assert(tree_indices(tree)[k + 1] == e);
            }
        }
    }
}

/// With distinct identifiers, no record is in the forest twice, and a record
/// is in the forest exactly if it descends from a record without a parent.
pub proof fn lemma_each_record_once(records: Seq<CommentView>)
    requires
        distinct_ids(records),
    ensures
        forest_indices(forest_shape(records)).no_duplicates(),
        forall|i: int|
            #[trigger] forest_indices(forest_shape(records)).contains(i) <==> rooted(records, i),
{
    let roots = reply_indices(records, None);
    let shapes = forest_shape(records);
    lemma_reply_indices_below(records, None, records.len());
    assert forall|t: int| 0 <= t < shapes.len() implies {
        &&& is_chain(records, seq![roots[t]])
        &&& #[trigger] shapes[t] == subtree(records, seq![roots[t]])
        &&& tree_indices(shapes[t]).no_duplicates()
        &&& forall|e: int|
            #[trigger] tree_indices(shapes[t]).contains(e) <==> descends(
                records,
                seq![roots[t]],
                e,
            )
    } by {
        let start = seq![roots[t]];
        assert(0 <= roots[t] < records.len());
        assert(chain_ids(records, start.drop_last()) =~= Seq::<int>::empty());
        lemma_subtree_members(records, start);
    }
    assert forall|s: int, t: int, e: int| 0 <= s < t < shapes.len() implies !(tree_indices(
        #[trigger] shapes[s],
    ).contains(e) && #[trigger] tree_indices(shapes[t]).contains(e)) by {
        if tree_indices(shapes[s]).contains(e) && tree_indices(shapes[t]).contains(e) {
            assert(descends(records, seq![roots[s]], e));
            assert(descends(records, seq![roots[t]], e));
            let a = choose|c: Seq<int>|
                is_chain(records, c) && #[trigger] c.last() == e && begins_with(
                    c,
                    seq![roots[s]],
                );
            let b = choose|c: Seq<int>|
                is_chain(records, c) && #[trigger] c.last() == e && begins_with(
                    c,
                    seq![roots[t]],
                );
            lemma_chain_unique(records, a, b);
            assert(a.take(1)[0] == seq![roots[s]][0]);
            assert(b.take(1)[0] == seq![roots[t]][0]);
            assert(roots[s] < roots[t]);
        }
    }
    lemma_forest_indices_apart(shapes);
    assert forall|i: int| #[trigger] forest_indices(shapes).contains(i) <==> rooted(
        records,
        i,
    ) by {
        lemma_forest_indices_contains(shapes, i);
        if forest_indices(shapes).contains(i) {
            let t = choose|t: int|
                0 <= t < shapes.len() && tree_indices(#[trigger] shapes[t]).contains(i);
            assert(descends(records, seq![roots[t]], i));
        }
        if rooted(records, i) {
            let c = choose|c: Seq<int>| is_chain(records, c) && #[trigger] c.last() == i;
            assert(roots.contains(c[0]));
            let t = choose|t: int| 0 <= t < roots.len() && roots[t] == c[0];
            assert(c.take(1) =~= seq![roots[t]]);
            assert(begins_with(c, seq![roots[t]]));
            assert(descends(records, seq![roots[t]], i));
            assert(tree_indices(shapes[t]).contains(i));
        }
    }
}

/// A record that descends from a record without a parent is no orphan.
pub proof fn lemma_rooted_has_parent(records: Seq<CommentView>, i: int)
    requires
        rooted(records, i),
    ensures
        0 <= i < records.len(),
        !is_orphan(records, i),
{
    let c = choose|c: Seq<int>| is_chain(records, c) && #[trigger] c.last() == i;
    if c.len() > 1 {
        assert(records[c[c.len() - 1]].parent_id == Some(records[c[c.len() - 2]].id));
        assert(has_id(records, records[c[c.len() - 2]].id));
    }
}

/// The positions below `k` that pass a test ascend, are exactly those that
/// pass it, and together with those that fail it they are `k`.
proof fn lemma_filtered_positions(pred: spec_fn(int) -> bool, k: nat)
    ensures
        positions(k).filter(pred).no_duplicates(),
        forall|e: int| #[trigger] positions(k).filter(pred).contains(e) <==> 0 <= e < k && pred(e),
        positions(k).filter(pred).len() + positions(k).filter(|i: int| !pred(i)).len() == k,
    decreases k,
{
    reveal(Seq::filter);
    let not = |i: int| !pred(i);
    if k > 0 {
        let before = (k - 1) as nat;
        lemma_filtered_positions(pred, before);
        assert(positions(k).drop_last() =~= positions(before));
        let prev = positions(before).filter(pred);
        let cur = positions(k).filter(pred);
        assert(positions(k).last() == k - 1);
        assert forall|e: int| #[trigger] cur.contains(e) <==> 0 <= e < k && pred(e) by {
            if cur.contains(e) {
                let t = choose|t: int| 0 <= t < cur.len() && cur[t] == e;
                if t < prev.len() {
                    assert(prev[t] == e);
                    assert(prev.contains(e));
                }
            }
            if 0 <= e < k && pred(e) {
                if e < k - 1 {
                    assert(prev.contains(e));
                    let t = choose|t: int| 0 <= t < prev.len() && prev[t] == e;
                    assert(cur[t] == e);
                } else {
                    assert(cur[cur.len() - 1] == e);
                }
            }
        }
        assert forall|s: int, t: int| 0 <= s < cur.len() && 0 <= t < cur.len() && s != t implies cur[s]
            != cur[t] by {
            if s < prev.len() {
                assert(prev.contains(prev[s]));
            }
            if t < prev.len() {
                assert(prev.contains(prev[t]));
            }
        }
    } else {
        assert(positions(0) =~= Seq::<int>::empty());
    }
}

/// The position of a record with the identifier that the record at `i`
/// names as its parent, or `None` where it names none or is an orphan.
pub open spec fn parent_index(records: Seq<CommentView>, i: int) -> Option<int> {
    match records[i].parent_id {
        Some(p) => if has_id(records, p) {
            Some(choose|q: int| 0 <= q < records.len() && records[q].id == p)
        } else {
            None
        },
        None => None,
    }
}

/// The position reached from `i` by going to the parent `steps` times, or
/// `None` where the way up ends before that.
pub open spec fn ancestor(records: Seq<CommentView>, i: int, steps: nat) -> Option<int>
    decreases steps,
{
    if steps == 0 {
        Some(i)
    } else {
        match ancestor(records, i, (steps - 1) as nat) {
            Some(q) => parent_index(records, q),
            None => None,
        }
    }
}

/// No record is reached again by going up from it.
pub open spec fn acyclic(records: Seq<CommentView>) -> bool {
    forall|i: int, steps: nat|
        0 <= i < records.len() && steps >= 1 ==> #[trigger] ancestor(records, i, steps) != Some(i)
}

/// Going up from a record never leads to an orphan.
pub open spec fn nothing_below_orphans(records: Seq<CommentView>) -> bool {
    forall|i: int, steps: nat|
        0 <= i < records.len() && steps >= 1 ==> (#[trigger] ancestor(records, i, steps) matches Some(
            q,
        ) ==> !is_orphan(records, q))
}

/// `walk` goes up: every position in it is that of the parent of the one
/// before.
pub open spec fn goes_up(records: Seq<CommentView>, walk: Seq<int>) -> bool {
    &&& walk.len() >= 1
    &&& forall|t: int| 0 <= t < walk.len() ==> 0 <= #[trigger] walk[t] < records.len()
    &&& forall|t: int|
        1 <= t < walk.len() ==> parent_index(records, walk[t - 1]) == Some(#[trigger] walk[t])
}

/// Along a walk up, each position is an ancestor of those before it.
proof fn lemma_walk_ancestors(records: Seq<CommentView>, walk: Seq<int>, t: int, steps: nat)
    requires
        goes_up(records, walk),
        0 <= t,
        t + steps < walk.len(),
    ensures
        ancestor(records, walk[t], steps) == Some(walk[t + steps]),
    decreases steps,
{
    if steps > 0 {
        lemma_walk_ancestors(records, walk, t, (steps - 1) as nat);
        assert(parent_index(records, walk[t + steps - 1]) == Some(walk[t + steps]));
    }
}

/// Distinct positions are no more than there are records.
proof fn lemma_positions_fit(n: nat, walk: Seq<int>)
    requires
        walk.no_duplicates(),
        forall|t: int| 0 <= t < walk.len() ==> 0 <= #[trigger] walk[t] < n,
    ensures
        walk.len() <= n,
{
    let all = vstd::set_lib::set_int_range(0, n as int);
    vstd::set_lib::lemma_int_range(0, n as int);
    assert forall|x: int| walk.to_set().contains(x) implies all.contains(x) by {
        let t = choose|t: int| 0 <= t < walk.len() && walk[t] == x;
        assert(0 <= walk[t] < n);
    }
    walk.unique_seq_to_set();
    vstd::set_lib::lemma_len_subset(walk.to_set(), all);
}

/// A reply to a record that descends from a root descends from that root.
proof fn lemma_rooted_reply(records: Seq<CommentView>, q: int, j: int)
    requires
        rooted(records, q),
        0 <= j < records.len(),
        records[j].parent_id == Some(records[q].id),
    ensures
        rooted(records, j),
{
    let c = choose|c: Seq<int>| is_chain(records, c) && #[trigger] c.last() == q;
    lemma_chain_push(records, c, j);
    assert(c.push(j).last() == j);
}

/// Where the top of a walk up descends from a root, so does its start.
proof fn lemma_rooted_down(records: Seq<CommentView>, walk: Seq<int>, t: int)
    requires
        goes_up(records, walk),
        rooted(records, walk.last()),
        0 <= t < walk.len(),
    ensures
        rooted(records, walk[t]),
    decreases walk.len() - t,
{
    if t < walk.len() - 1 {
        lemma_rooted_down(records, walk, t + 1);
        assert(parent_index(records, walk[t]) == Some(walk[t + 1]));
        lemma_rooted_reply(records, walk[t + 1], walk[t]);
    }
}

/// A walk up through records without cycles and without orphans on the way
/// ends at a root.
proof fn lemma_walk_ends_at_root(records: Seq<CommentView>, walk: Seq<int>)
    requires
        acyclic(records),
        nothing_below_orphans(records),
        goes_up(records, walk),
        walk.no_duplicates(),
        !is_orphan(records, walk[0]),
    ensures
        rooted(records, walk[0]),
    decreases records.len() - walk.len(),
{
    let top = walk.last();
    let m = (walk.len() - 1) as nat;
    lemma_positions_fit(records.len(), walk);
    lemma_walk_ancestors(records, walk, 0, m);
    if records[top].parent_id is None {
        let c = seq![top];
        assert(is_chain(records, c));
        assert(c.last() == top);
        lemma_rooted_down(records, walk, 0);
    } else {
        if m >= 1 {
            assert(!is_orphan(records, top));
        }
        let q = parent_index(records, top)->0;
        let longer = walk.push(q);
        assert(goes_up(records, longer)) by {
            assert forall|t: int| 1 <= t < longer.len() implies parent_index(
                records,
                longer[t - 1],
            ) == Some(#[trigger] longer[t]) by {
                if t < walk.len() {
                    assert(longer[t] == walk[t]);
                }
            }
        }
        assert(longer.no_duplicates()) by {
            assert forall|t: int| 0 <= t < walk.len() implies walk[t] != q by {
                lemma_walk_ancestors(records, longer, t, (walk.len() - t) as nat);
                assert(ancestor(records, walk[t], (walk.len() - t) as nat) == Some(q));
            }
        }
        lemma_positions_fit(records.len(), longer);
        lemma_walk_ends_at_root(records, longer);
    }
}

/// Without cycles and without replies to orphans, every record that is no
/// orphan descends from a record without a parent.
pub proof fn lemma_acyclic_is_rooted(records: Seq<CommentView>, i: int)
    requires
        acyclic(records),
        nothing_below_orphans(records),
        0 <= i < records.len(),
        !is_orphan(records, i),
    ensures
        rooted(records, i),
{
    let walk = seq![i];
    assert(goes_up(records, walk));
    lemma_walk_ends_at_root(records, walk);
}

/// The count of the forest: with distinct identifiers, without cycles and
/// without replies to orphans, the forest holds as many positions as there
/// are records that are no orphans.
pub proof fn lemma_forest_count(records: Seq<CommentView>)
    requires
        distinct_ids(records),
        acyclic(records),
        nothing_below_orphans(records),
    ensures
        forest_indices(forest_shape(records)).len() == records.len() - orphan_count(records),
{
    let members = forest_indices(forest_shape(records));
    let orphan = |i: int| is_orphan(records, i);
    let kept = positions(records.len()).filter(|i: int| !orphan(i));
    lemma_each_record_once(records);
    lemma_filtered_positions(orphan, records.len());
    lemma_filtered_positions(|i: int| !orphan(i), records.len());
    assert forall|e: int| members.to_set().contains(e) <==> kept.to_set().contains(e) by {
        if members.contains(e) {
            lemma_rooted_has_parent(records, e);
        }
        if kept.contains(e) {
            lemma_acyclic_is_rooted(records, e);
        }
    }
    assert(members.to_set() =~= kept.to_set());
    members.unique_seq_to_set();
    kept.unique_seq_to_set();
}

/// Every record once: with distinct identifiers, without cycles and without
/// replies to orphans, each record that is no orphan is in the forest, no
/// record is in it twice, and no orphan is in it.
pub proof fn lemma_every_record_once_unless_orphan(records: Seq<CommentView>)
    requires
        distinct_ids(records),
        acyclic(records),
        nothing_below_orphans(records),
    ensures
        forest_indices(forest_shape(records)).no_duplicates(),
        forall|i: int|
            0 <= i < records.len() ==> (#[trigger] forest_indices(forest_shape(records)).contains(
                i,
            ) <==> !is_orphan(records, i)),
{
    lemma_each_record_once(records);
    assert forall|i: int| 0 <= i < records.len() implies (#[trigger] forest_indices(
        forest_shape(records),
    ).contains(i) <==> !is_orphan(records, i)) by {
        if forest_indices(forest_shape(records)).contains(i) {
            lemma_rooted_has_parent(records, i);
        }
        if !is_orphan(records, i) {
            lemma_acyclic_is_rooted(records, i);
        }
    }
}

/// How many comments a comment with all its nested replies is.
pub open spec fn count_tree(comment: CommentView) -> nat
    decreases comment, 1int,
{
    match comment.comments {
        Some(replies) => 1 + count_forest(replies),
        None => 1,
    }
}

/// How many comments a sequence of comments with all their nested replies is.
pub open spec fn count_forest(comments: Seq<CommentView>) -> nat
    decreases comments, 0int,
{
    if comments.len() == 0 {
        0
    } else {
        count_forest(comments.drop_last()) + count_tree(comments.last())
    }
}

/// The comments that stand for trees are as many as the positions in the
/// trees.
pub proof fn lemma_count_is_positions(records: Seq<CommentView>, shapes: Seq<Shape>)
    ensures
        count_forest(nodes_view(records, shapes)) == forest_indices(shapes).len(),
    decreases shapes, shapes.len(),
{
    if shapes.len() > 0 {
        let front = shapes.drop_last();
        let last = shapes.last();
        assert(nodes_view(records, shapes).drop_last() =~= nodes_view(records, front));
        assert(nodes_view(records, shapes).last() == node_view(records, last));
        lemma_count_is_positions(records, front);
        lemma_count_is_positions(records, last.replies);
        let shown = nodes_view(records, shapes);
        assert(count_forest(shown) == count_forest(shown.drop_last()) + count_tree(shown.last()));
        assert(node_view(records, last).comments == Some(nodes_view(records, last.replies)));
        assert(count_tree(node_view(records, last)) == 1 + count_forest(
            nodes_view(records, last.replies),
        ));
        assert(tree_indices(last).len() == 1 + forest_indices(last.replies).len());
        assert(forest_indices(shapes).len() == forest_indices(front).len() + tree_indices(
            last,
        ).len());
    } else {
        assert(nodes_view(records, shapes) =~= Seq::<CommentView>::empty());
    }
}

/// The count of the forest, in comments: with distinct identifiers, without
/// cycles and without replies to orphans, the forest holds as many comments
/// as there are records, less the orphans.
pub proof fn lemma_forest_comment_count(records: Seq<CommentView>)
    requires
        distinct_ids(records),
        acyclic(records),
        nothing_below_orphans(records),
    ensures
        count_forest(forest_view(records)) == records.len() - orphan_count(records),
{
    lemma_forest_count(records);
    lemma_count_is_positions(records, forest_shape(records));
}

/// Below a comment whose identifier was met before on the way down from its
/// root there is nothing; below any other comment the same holds with that
/// identifier added to those met.
pub open spec fn cut_at_repeats(records: Seq<CommentView>, shapes: Seq<Shape>, met: Seq<int>) -> bool
    decreases shapes,
{
    forall|t: int|
        0 <= t < shapes.len() ==> if met.contains(records[(#[trigger] shapes[t]).index].id) {
            shapes[t].replies.len() == 0
        } else {
            cut_at_repeats(
                records,
                shapes[t].replies,
                met.push(records[shapes[t].index].id),
            )
        }
}

/// The replies below a comment are cut at repeats.
proof fn lemma_replies_cut(records: Seq<CommentView>, id: int, path: Seq<int>)
    requires
        valid_path(records, path),
        has_id(records, id),
        !path.contains(id),
    ensures
        cut_at_repeats(records, replies(records, id, path), path.push(id)),
    decreases records.len() - path.len(),
{
    let longer = path.push(id);
    let indices = reply_indices(records, Some(id));
    let shapes = replies(records, id, path);
    lemma_replies_unfold(records, id, path);
    lemma_path_fits(records, longer);
    lemma_reply_indices_below(records, Some(id), records.len());
    assert forall|t: int| 0 <= t < shapes.len() implies if longer.contains(
        records[(#[trigger] shapes[t]).index].id,
    ) {
        shapes[t].replies.len() == 0
    } else {
        cut_at_repeats(records, shapes[t].replies, longer.push(records[shapes[t].index].id))
    } by {
        let j = indices[t];
        assert(0 <= j < records.len());
        assert(has_id(records, records[j].id));
        lemma_replies_unfold(records, records[j].id, longer);
        if !longer.contains(records[j].id) {
            lemma_replies_cut(records, records[j].id, longer);
        }
    }
}

/// Cycles are cut, for every input: on the way down from a root no
/// identifier is gone through twice. A comment whose identifier was met
/// before is still shown, with nothing below it.
pub proof fn lemma_forest_cut_at_repeats(records: Seq<CommentView>)
    ensures
        cut_at_repeats(records, forest_shape(records), Seq::empty()),
{
    let roots = reply_indices(records, None);
    let shapes = forest_shape(records);
    lemma_reply_indices_below(records, None, records.len());
    assert forall|t: int| 0 <= t < shapes.len() implies cut_at_repeats(
        records,
        (#[trigger] shapes[t]).replies,
        Seq::<int>::empty().push(records[shapes[t].index].id),
    ) by {
        let i = roots[t];
        assert(0 <= i < records.len());
        assert(has_id(records, records[i].id));
        lemma_replies_cut(records, records[i].id, Seq::empty());
    }
}

/// How many records descend from a record without a parent.
pub open spec fn rooted_count(records: Seq<CommentView>) -> nat {
    positions(records.len()).filter(|i: int| rooted(records, i)).len()
}

/// How many records do not descend from a record without a parent: the
/// orphans, what hangs below them, and what goes round in a cycle.
pub open spec fn unrooted_count(records: Seq<CommentView>) -> nat {
    positions(records.len()).filter(|i: int| !rooted(records, i)).len()
}

/// The count of the forest, for every input with distinct identifiers: the
/// forest holds as many comments as there are records, less those that do
/// not descend from a record without a parent.
pub proof fn lemma_forest_count_of_rooted(records: Seq<CommentView>)
    requires
        distinct_ids(records),
    ensures
        forest_indices(forest_shape(records)).len() == rooted_count(records),
        count_forest(forest_view(records)) == rooted_count(records),
        rooted_count(records) == records.len() - unrooted_count(records),
{
    let members = forest_indices(forest_shape(records));
    let is_rooted = |i: int| rooted(records, i);
    let kept = positions(records.len()).filter(is_rooted);
    lemma_each_record_once(records);
    lemma_filtered_positions(is_rooted, records.len());
    assert forall|e: int| members.to_set().contains(e) <==> kept.to_set().contains(e) by {
        if members.contains(e) {
            lemma_rooted_has_parent(records, e);
        }
    }
    assert(members.to_set() =~= kept.to_set());
    members.unique_seq_to_set();
    kept.unique_seq_to_set();
    lemma_count_is_positions(records, forest_shape(records));
    assert(positions(records.len()).filter(|i: int| !is_rooted(i)) =~= positions(
        records.len(),
    ).filter(|i: int| !rooted(records, i))) by {
        lemma_same_filter(
            positions(records.len()),
            |i: int| !is_rooted(i),
            |i: int| !rooted(records, i),
        );
    }
}

/// Two tests that agree everywhere keep the same elements.
proof fn lemma_same_filter(s: Seq<int>, p: spec_fn(int) -> bool, q: spec_fn(int) -> bool)
    requires
        forall|i: int| #[trigger] p(i) == q(i),
    ensures
        s.filter(p) == s.filter(q),
    decreases s.len(),
{
    reveal(Seq::filter);
    if s.len() > 0 {
        lemma_same_filter(s.drop_last(), p, q);
    }
}

/// The comments under a comment, first the comment itself and then the
/// replies to it, each without what is attached to it.
pub open spec fn tree_comments(comment: CommentView) -> Seq<CommentView>
    decreases comment, 1int,
{
    match comment.comments {
        Some(replies) => seq![comment.bare()] + forest_comments(replies),
        None => seq![comment.bare()],
    }
}

/// The comments in a sequence of comments with their nested replies, one
/// tree after the other.
pub open spec fn forest_comments(comments: Seq<CommentView>) -> Seq<CommentView>
    decreases comments, 0int,
{
    if comments.len() == 0 {
        Seq::empty()
    } else {
        forest_comments(comments.drop_last()) + tree_comments(comments.last())
    }
}

/// The comments that are shown for trees are the records at the positions in
/// the trees, in the same order.
pub proof fn lemma_shown_are_positions(records: Seq<CommentView>, shapes: Seq<Shape>)
    ensures
        forest_comments(nodes_view(records, shapes)) == forest_indices(shapes).map_values(
            |i: int| records[i].bare(),
        ),
    decreases shapes, shapes.len(),
{
    let bare = |i: int| records[i].bare();
    if shapes.len() > 0 {
        let front = shapes.drop_last();
        let last = shapes.last();
        let shown = nodes_view(records, shapes);
        assert(shown.drop_last() =~= nodes_view(records, front));
        assert(shown.last() == node_view(records, last));
        lemma_shown_are_positions(records, front);
        lemma_shown_are_positions(records, last.replies);
        assert(forest_comments(shown) == forest_comments(shown.drop_last()) + tree_comments(
            shown.last(),
        ));
        assert(node_view(records, last).comments == Some(nodes_view(records, last.replies)));
        assert(node_view(records, last).bare() == records[last.index].bare());
        assert(tree_comments(node_view(records, last)) == seq![records[last.index].bare()]
            + forest_comments(nodes_view(records, last.replies)));
        assert(tree_indices(last).map_values(bare) =~= seq![records[last.index].bare()]
            + forest_indices(last.replies).map_values(bare));
        assert(forest_indices(shapes).map_values(bare) =~= forest_indices(front).map_values(bare)
            + tree_indices(last).map_values(bare));
    } else {
        assert(nodes_view(records, shapes) =~= Seq::<CommentView>::empty());
        assert(forest_indices(shapes).map_values(bare) =~= Seq::<CommentView>::empty());
    }
}

/// The comments shown in the forest are the records at the positions of the
/// forest, in the same order: what is proved of the positions holds of the
/// comments that are shown.
pub proof fn lemma_forest_shows_positions(records: Seq<CommentView>)
    ensures
        forest_comments(forest_view(records)) == forest_indices(forest_shape(records)).map_values(
            |i: int| records[i].bare(),
        ),
        count_forest(forest_view(records)) == forest_indices(forest_shape(records)).len(),
{
    lemma_shown_are_positions(records, forest_shape(records));
    lemma_count_is_positions(records, forest_shape(records));
}

} // verus!
