//! Turning a flat sequence of comments into the forest of reply trees.
//!
//! A comment without a parent is a root. The replies to a comment are the
//! comments that name its identifier as their parent, in the order in which
//! they stand in the input. A comment whose parent is not among the input is
//! an orphan: it is left out, and so is everything below it. While going down
//! a chain of replies the identifiers met are remembered; a comment whose
//! identifier was already met on the way down is kept, but nothing is put
//! below it.

use vstd::prelude::*;
use crate::model::Comment;
use crate::model::CommentView;
use crate::model::views;

verus! {

/// The shape of a reply tree: the position of a record in the input, and the
/// trees of the replies to it.
pub struct Shape {
    pub index: int,
    pub replies: Seq<Shape>,
}

/// The positions `0, 1, .., n - 1`.
pub open spec fn positions(n: nat) -> Seq<int> {
    Seq::new(n, |i: int| i)
}

/// The positions below `upto` of the records whose parent is `parent`, in
/// ascending order.
pub open spec fn reply_indices_below(
    records: Seq<CommentView>,
    parent: Option<int>,
    upto: nat,
) -> Seq<int> {
    positions(upto).filter(|i: int| records[i].parent_id == parent)
}

/// The positions of the records whose parent is `parent`, in ascending
/// order: the replies to a comment for `Some(id)`, the roots for `None`.
pub open spec fn reply_indices(records: Seq<CommentView>, parent: Option<int>) -> Seq<int> {
    reply_indices_below(records, parent, records.len())
}

/// Some record has the identifier `id`.
pub open spec fn has_id(records: Seq<CommentView>, id: int) -> bool {
    exists|i: int| 0 <= i < records.len() && #[trigger] records[i].id == id
}

/// `path` can be the identifiers met on the way down from a root: they are
/// identifiers of records, and none occurs twice.
pub open spec fn valid_path(records: Seq<CommentView>, path: Seq<int>) -> bool {
    &&& path.no_duplicates()
    &&& forall|t: int| 0 <= t < path.len() ==> has_id(records, #[trigger] path[t])
}

/// The trees of the replies to a comment with identifier `id`, reached
/// through comments with the identifiers `path`. Where `id` was already met
/// on the way there is nothing below the comment.
pub open spec fn replies(records: Seq<CommentView>, id: int, path: Seq<int>) -> Seq<Shape>
    decreases records.len() - path.len(),
    when valid_path(records, path) && has_id(records, id)
    via replies_terminates
{
    if path.contains(id) {
        Seq::empty()
    } else {
        reply_indices(records, Some(id)).map_values(
            |j: int| Shape { index: j, replies: replies(records, records[j].id, path.push(id)) },
        )
    }
}

#[via_fn]
proof fn replies_terminates(records: Seq<CommentView>, id: int, path: Seq<int>) {
    if !path.contains(id) {
        lemma_path_fits(records, path.push(id));
    }
}

/// The identifiers of the records, in order.
pub open spec fn ids_of(records: Seq<CommentView>) -> Seq<int> {
    records.map_values(|r: CommentView| r.id)
}

/// A path is no longer than the input: its identifiers are distinct, and each
/// belongs to a record.
pub proof fn lemma_path_fits(records: Seq<CommentView>, path: Seq<int>)
    requires
        valid_path(records, path),
    ensures
        path.len() <= records.len(),
{
    let ids = ids_of(records);
    assert forall|x: int| path.to_set().contains(x) implies ids.to_set().contains(x) by {
        let t = choose|t: int| 0 <= t < path.len() && path[t] == x;
        assert(has_id(records, path[t]));
        let i = choose|i: int| 0 <= i < records.len() && records[i].id == x;
        assert(ids[i] == x);
    }
    path.unique_seq_to_set();
    vstd::seq_lib::seq_to_set_is_finite(ids);
    vstd::set_lib::lemma_len_subset(path.to_set(), ids.to_set());
    ids.lemma_cardinality_of_set();
}

/// The shape of the whole forest: one tree for each root, in input order.
pub open spec fn forest_shape(records: Seq<CommentView>) -> Seq<Shape> {
    reply_indices(records, None).map_values(
        |i: int| Shape { index: i, replies: replies(records, records[i].id, Seq::empty()) },
    )
}

/// The comment that stands for a tree: the record at the tree's position,
/// with the comments of the trees below it as its replies.
pub open spec fn node_view(records: Seq<CommentView>, shape: Shape) -> CommentView
    decreases shape, 1int,
{
    records[shape.index].with_replies(nodes_view(records, shape.replies))
}

/// The comments that stand for a sequence of trees.
pub open spec fn nodes_view(records: Seq<CommentView>, shapes: Seq<Shape>) -> Seq<CommentView>
    decreases shapes, 0int,
{
    Seq::new(
        shapes.len(),
        |k: int|
            if 0 <= k < shapes.len() {
                node_view(records, shapes[k])
            } else {
                arbitrary()
            },
    )
}

/// The forest of the records: its roots in input order, each with the
/// replies to it nested below.
pub open spec fn forest_view(records: Seq<CommentView>) -> Seq<CommentView> {
    nodes_view(records, forest_shape(records))
}

/// The identifiers of a path as mathematical integers.
pub open spec fn path_ids(path: Seq<i32>) -> Seq<int> {
    path.map_values(|x: i32| x as int)
}

/// One more position is either taken into the reply positions or not.
pub proof fn lemma_reply_indices_step(records: Seq<CommentView>, parent: Option<int>, k: nat)
    ensures
        reply_indices_below(records, parent, k + 1) == if records[k as int].parent_id == parent {
            reply_indices_below(records, parent, k).push(k as int)
        } else {
            reply_indices_below(records, parent, k)
        },
        reply_indices_below(records, parent, 0) == Seq::<int>::empty(),
{
    reveal(Seq::filter);
    assert(positions(k + 1).drop_last() =~= positions(k));
    assert(positions(0) =~= Seq::<int>::empty());
}

/// The reply positions are positions of records that name the parent, and
/// they ascend.
pub proof fn lemma_reply_indices_below(records: Seq<CommentView>, parent: Option<int>, k: nat)
    ensures
        forall|t: int|
            0 <= t < reply_indices_below(records, parent, k).len() ==> {
                let j = #[trigger] reply_indices_below(records, parent, k)[t];
                0 <= j < k && records[j].parent_id == parent
            },
        forall|s: int, t: int|
            0 <= s < t < reply_indices_below(records, parent, k).len() ==> reply_indices_below(
                records,
                parent,
                k,
            )[s] < reply_indices_below(records, parent, k)[t],
        forall|j: int|
            0 <= j < k && records[j].parent_id == parent ==> reply_indices_below(
                records,
                parent,
                k,
            ).contains(j),
        reply_indices_below(records, parent, k).len() <= k,
    decreases k,
{
    if k > 0 {
        let prev = reply_indices_below(records, parent, (k - 1) as nat);
        let cur = reply_indices_below(records, parent, k);
        lemma_reply_indices_step(records, parent, (k - 1) as nat);
        lemma_reply_indices_below(records, parent, (k - 1) as nat);
        assert(cur == if records[k - 1].parent_id == parent {
            prev.push(k - 1)
        } else {
            prev
        });
        assert forall|j: int| 0 <= j < k && records[j].parent_id == parent implies cur.contains(
            j,
        ) by {
            if j < k - 1 {
                assert(prev.contains(j));
                let t = choose|t: int| 0 <= t < prev.len() && prev[t] == j;
                assert(cur[t] == j);
            } else {
                assert(cur[cur.len() - 1] == j);
            }
        }
    } else {
        lemma_reply_indices_step(records, parent, 0);
    }
}

/// Whether `id` is among the identifiers met on the way down.
fn on_path(path: &Vec<i32>, id: i32) -> (found: bool)
    ensures
        found == path_ids(path@).contains(id as int),
{
    let mut k: usize = 0;
    while k < path.len()
        invariant
            k <= path.len(),
            forall|t: int| 0 <= t < k ==> path_ids(path@)[t] != id as int,
        decreases path.len() - k,
    {
        if path[k] == id {
            assert(path_ids(path@)[k as int] == id as int);
            return true;
        }
        k += 1;
    }
    false
}

/// The replies to `parent` among `comments`: a whole copy of each comment
/// that names the identifier of `parent` as its parent, in input order.
/// `parent` need not be among `comments`, and the post a comment belongs to
/// plays no part.
pub fn children_for_parent(parent: &Comment, comments: &[Comment]) -> (children: Vec<Comment>)
    ensures
        views(children@) == reply_indices(views(comments@), Some(parent.id as int)).map_values(
            |j: int| views(comments@)[j],
        ),
{
    let ghost records = views(comments@);
    let ghost wanted = Some(parent.id as int);
    let mut children: Vec<Comment> = Vec::new();
    let mut k: usize = 0;
    proof {
        lemma_reply_indices_step(records, wanted, 0);
    }
    while k < comments.len()
        invariant
            k <= comments.len(),
            records == views(comments@),
            wanted == Some(parent.id as int),
            views(children@) == reply_indices_below(records, wanted, k as nat).map_values(
                |j: int| records[j],
            ),
        decreases comments.len() - k,
    {
        proof {
            lemma_reply_indices_step(records, wanted, k as nat);
        }
        let ghost before = children@;
        let is_reply = match comments[k].parent_id {
            Some(p) => p == parent.id,
            None => false,
        };
        assert(records[k as int] == comments[k as int]@);
        assert(is_reply == (records[k as int].parent_id == wanted));
        if is_reply {
            let child = comments[k].whole_copy();
            children.push(child);
            assert(views(children@) =~= views(before).push(records[k as int]));
        }
        assert(views(children@) =~= reply_indices_below(records, wanted, (k + 1) as nat).map_values(
            |j: int| records[j],
        ));
        k += 1;
    }
    children
}

/// What is kept of a comment while the replies to one of its replies are
/// put together: its replies still to come, the last one first, those
/// that are done, and the reply that is being worked on.
struct Frame {
    todo: Vec<Comment>,
    done: Vec<Comment>,
    child: Comment,
}

/// `radix` to the power `exponent`.
spec fn power(radix: nat, exponent: nat) -> nat
    decreases exponent,
{
    if exponent == 0 {
        1
    } else {
        radix * power(radix, (exponent - 1) as nat)
    }
}

proof fn lemma_power_positive(radix: nat, exponent: nat)
    requires
        radix > 0,
    ensures
        power(radix, exponent) > 0,
    decreases exponent,
{
    if exponent > 0 {
        lemma_power_positive(radix, (exponent - 1) as nat);
        assert(radix * power(radix, (exponent - 1) as nat) > 0) by (nonlinear_arith)
            requires
                radix > 0,
                power(radix, (exponent - 1) as nat) > 0,
        ;
    }
}

/// The work that the comments kept in `stack` still stand for: a reply to
/// come at one level outweighs all that can come at the levels below it.
spec fn weight(stack: Seq<Frame>, top: int, radix: nat) -> nat
    decreases stack.len(),
{
    if stack.len() == 0 {
        0
    } else {
        weight(stack.drop_last(), top, radix) + (stack.last().todo@.len() + 1) * power(
            radix,
            (top - (stack.len() - 1)) as nat,
        )
    }
}

/// The work that is left when `stack` is kept and `todo` replies are to come
/// at the level below it.
spec fn work_left(stack: Seq<Frame>, todo: nat, top: int, radix: nat) -> nat {
    weight(stack, top, radix) + (todo + 1) * power(radix, (top - stack.len()) as nat)
}

/// The replies to the comment with identifier `id`, reached through `above`,
/// as far as they are put together: `done` holds the first of them with all
/// below them, `todo` the ones to come, the last one first, and where `busy`
/// holds the one between them is being worked on.
spec fn level_ok(
    records: Seq<CommentView>,
    above: Seq<int>,
    id: int,
    done: Seq<Comment>,
    todo: Seq<Comment>,
    busy: bool,
) -> bool {
    let indices = reply_indices(records, Some(id));
    let shapes = replies(records, id, above);
    let started = if busy {
        done.len() + 1
    } else {
        done.len()
    };
    &&& valid_path(records, above)
    &&& has_id(records, id)
    &&& !above.contains(id)
    &&& started + todo.len() == indices.len()
    &&& forall|t: int| 0 <= t < done.len() ==> (#[trigger] done[t])@ == node_view(records, shapes[t])
    &&& forall|u: int|
        0 <= u < todo.len() ==> (#[trigger] todo[u])@ == records[indices[indices.len() - 1 - u]]
}

/// Every comment kept in `stack` is as far as `level_ok` says, and the reply
/// it is busy with is the comment kept next.
spec fn stack_ok(records: Seq<CommentView>, full: Seq<int>, base: int, stack: Seq<Frame>) -> bool {
    forall|l: int|
        0 <= l < stack.len() ==> {
            &&& level_ok(
                records,
                full.take(base + l),
                full[base + l],
                (#[trigger] stack[l]).done@,
                stack[l].todo@,
                true,
            )
            &&& stack[l].child@ == records[reply_indices(
                records,
                Some(full[base + l]),
            )[stack[l].done@.len() as int]]
            &&& full[base + l + 1] == stack[l].child.id as int
        }
}

/// The same comments, the last one first.
fn reversed(comments: Vec<Comment>) -> (turned: Vec<Comment>)
    ensures
        turned@.len() == comments@.len(),
        forall|u: int|
            0 <= u < turned@.len() ==> #[trigger] turned@[u] == comments@[comments@.len() - 1 - u],
{
    let ghost given = comments@;
    let mut rest = comments;
    let mut turned: Vec<Comment> = Vec::new();
    while rest.len() > 0
        invariant
            rest@.len() + turned@.len() == given.len(),
            forall|u: int| 0 <= u < rest@.len() ==> #[trigger] rest@[u] == given[u],
            forall|u: int|
                0 <= u < turned@.len() ==> #[trigger] turned@[u] == given[given.len() - 1 - u],
        decreases rest.len(),
    {
        let last = rest.pop();
        match last {
            Some(c) => {
                turned.push(c);
            },
            None => {},
        }
    }
    turned
}

/// Attaches to `comment` the replies to it among `comments`, each with its
/// own replies attached below. `path` holds the identifiers met on the way
/// down to `comment`; if the identifier of `comment` is among them, nothing
/// is put below it. The way down is kept on a stack of its own, so that a
/// long chain of replies does not use up the call stack.
fn add_children(comment: &mut Comment, comments: &[Comment], path: &mut Vec<i32>)
    requires
        valid_path(views(comments@), path_ids(old(path)@)),
        has_id(views(comments@), old(comment).id as int),
    ensures
        final(path)@ == old(path)@,
        final(comment)@ == old(comment)@.with_replies(
            nodes_view(
                views(comments@),
                replies(views(comments@), old(comment).id as int, path_ids(old(path)@)),
            ),
        ),
{
    let ghost records = views(comments@);
    let ghost root_id = comment.id as int;
    let ghost given = path_ids(path@);
    let ghost base = path@.len() as int;
    let ghost before = comment@;
    let ghost radix = (records.len() + 2) as nat;
    let ghost top = records.len() - base - 1;
    proof {
        lemma_replies_unfold(records, root_id, given);
    }
    if on_path(path, comment.id) {
        comment.comments = Some(Vec::new());
        assert(comment@ =~= before.with_replies(
            nodes_view(records, replies(records, root_id, given)),
        )) by {
            assert(comment@.comments->0 =~= nodes_view(records, replies(records, root_id, given)));
        }
        return ;
    }
    let kids = children_for_parent(comment, comments);
    let mut todo = reversed(kids);
    let mut done: Vec<Comment> = Vec::new();
    let mut stack: Vec<Frame> = Vec::new();
    path.push(comment.id);
    proof {
        let full = path_ids(path@);
        assert(full =~= given.push(root_id));
        assert(full.take(base) =~= given);
        lemma_path_fits(records, full);
        let indices = reply_indices(records, Some(root_id));
        assert(views(kids@).len() == kids@.len());
        assert forall|u: int| 0 <= u < todo@.len() implies (#[trigger] todo@[u])@
            == records[indices[indices.len() - 1 - u]] by {
            assert(views(kids@)[kids@.len() - 1 - u] == records[indices[indices.len() - 1 - u]]);
        }
    }
    loop
        invariant_except_break
            records == views(comments@),
            radix == records.len() + 2,
            top == records.len() - base - 1,
            base == old(path)@.len(),
            given == path_ids(old(path)@),
            root_id == old(comment).id as int,
            before == old(comment)@,
            *comment == *old(comment),
            path@.len() == base + 1 + stack@.len(),
            path@.len() <= records.len(),
            path@.take(base) == old(path)@,
            path_ids(path@)[base] == root_id,
            valid_path(records, path_ids(path@)),
            stack_ok(records, path_ids(path@), base, stack@),
            level_ok(
                records,
                path_ids(path@).take(base + stack@.len()),
                path_ids(path@)[base + stack@.len()],
                done@,
                todo@,
                false,
            ),
        ensures
            path@ == old(path)@,
            comment@ == before.with_replies(
                nodes_view(records, replies(records, root_id, given)),
            ),
        decreases work_left(stack@, todo@.len(), top, radix),
    {
        let ghost start = work_left(stack@, todo@.len(), top, radix);
        let ghost full = path_ids(path@);
        let ghost depth = stack@.len() as int;
        let ghost above = full.take(base + depth);
        let ghost id = full[base + depth];
        let ghost indices = reply_indices(records, Some(id));
        let ghost shapes = replies(records, id, above);
        let ghost count = done@.len() as int;
        let ghost old_stack = stack@;
        let ghost old_todo = todo@;
        let ghost old_done = done@;
        proof {
            lemma_replies_unfold(records, id, above);
            lemma_reply_indices_below(records, Some(id), records.len());
            lemma_power_positive(radix, (top - depth) as nat);
            assert(above.push(id) =~= full);
        }
        match todo.pop() {
            Some(child) => {
                let mut child = child;
                let ghost j = indices[count];
                proof {
                    assert(child == old_todo[old_todo.len() - 1]);
                    assert(child@ == records[j]);
                    assert(0 <= j < records.len());
                    assert(has_id(records, records[j].id));
                    lemma_replies_unfold(records, records[j].id, full);
                    lemma_reply_indices_below(records, Some(records[j].id), records.len());
                }
                if on_path(path, child.id) {
                    child.comments = Some(Vec::new());
                    proof {
                        assert(child@.comments->0 =~= nodes_view(records, shapes[count].replies));
                        assert(child@ =~= node_view(records, shapes[count]));
                    }
                    done.push(child);
                    proof {
                        assert forall|t: int| 0 <= t < done@.len() implies (#[trigger] done@[t])@
                            == node_view(records, shapes[t]) by {
                            if t < count {
                                assert(done@[t] == old_done[t]);
                            }
                        }
                        assert forall|u: int| 0 <= u < todo@.len() implies (#[trigger] todo@[u])@
                            == records[indices[indices.len() - 1 - u]] by {
                            assert(todo@[u] == old_todo[u]);
                        }
                        let high = power(radix, (top - depth) as nat);
                        assert((old_todo.len() + 1) * high > (todo@.len() + 1) * high)
                            by (nonlinear_arith)
                            requires
                                old_todo.len() == todo@.len() + 1,
                                high > 0,
                        ;
                        assert(work_left(stack@, todo@.len(), top, radix) < start);
                    }
                } else {
                    let kids = children_for_parent(&child, comments);
                    let ghost kids_view = kids@;
                    let turned = reversed(kids);
                    path.push(child.id);
                    let ghost longer = path_ids(path@);
                    let ghost below = reply_indices(records, Some(records[j].id));
                    proof {
                        assert(longer =~= full.push(records[j].id));
                        assert(longer.take(base + depth + 1) =~= full);
                        assert(longer.take(base + depth) =~= above);
                        assert(valid_path(records, longer)) by {
                            assert forall|t: int| 0 <= t < longer.len() implies has_id(
                                records,
                                #[trigger] longer[t],
                            ) by {
                                if t < full.len() {
                                    assert(longer[t] == full[t]);
                                }
                            }
                        }
                        lemma_path_fits(records, longer);
                        assert(path@.take(base) =~= old(path)@);
                        assert(views(kids_view).len() == kids_view.len());
                        assert forall|u: int| 0 <= u < turned@.len() implies (#[trigger] turned@[u])@
                            == records[below[below.len() - 1 - u]] by {
                            assert(views(kids_view)[kids_view.len() - 1 - u] == records[below[
                                below.len() - 1 - u]]);
                        }
                    }
                    stack.push(Frame { todo, done, child });
                    todo = turned;
                    done = Vec::new();
                    proof {
                        assert(stack@.drop_last() =~= old_stack);
                        assert forall|l: int| 0 <= l < stack@.len() implies {
                            &&& level_ok(
                                records,
                                longer.take(base + l),
                                longer[base + l],
                                (#[trigger] stack@[l]).done@,
                                stack@[l].todo@,
                                true,
                            )
                            &&& stack@[l].child@ == records[reply_indices(
                                records,
                                Some(longer[base + l]),
                            )[stack@[l].done@.len() as int]]
                            &&& longer[base + l + 1] == stack@[l].child.id as int
                        } by {
                            assert(longer.take(base + l) =~= full.take(base + l));
                            if l < depth {
                                assert(stack@[l] == old_stack[l]);
                                assert(longer[base + l + 1] == full[base + l + 1]);
                            } else {
                                assert(stack@[l].done@ == old_done);
                                assert forall|u: int|
                                    0 <= u < stack@[l].todo@.len() implies (
                                #[trigger] stack@[l].todo@[u])@ == records[indices[indices.len() - 1
                                    - u]] by {
                                    assert(stack@[l].todo@[u] == old_todo[u]);
                                }
                            }
                        }
                        // the work that is left has become less
                        let high = power(radix, (top - depth) as nat);
                        let low = power(radix, (top - depth - 1) as nat);
                        lemma_power_positive(radix, (top - depth - 1) as nat);
                        assert(high == radix * low);
                        assert(weight(stack@, top, radix) == weight(old_stack, top, radix) + (
                        old_todo.len() - 1 + 1) * high);
                        assert(todo@.len() <= records.len());
                        assert((old_todo.len() - 1 + 1) * high + (todo@.len() + 1) * low < (
                        old_todo.len() + 1) * high) by (nonlinear_arith)
                            requires
                                high == radix * low,
                                low > 0,
                                todo@.len() + 1 < radix,
                                old_todo.len() >= 1,
                        ;
                        assert(work_left(stack@, todo@.len(), top, radix) == weight(
                            old_stack,
                            top,
                            radix,
                        ) + (old_todo.len() - 1 + 1) * high + (todo@.len() + 1) * low);
                        assert(start == weight(old_stack, top, radix) + (old_todo.len() + 1)
                            * high);
                        assert(work_left(stack@, todo@.len(), top, radix) < start);
                    }
                }
            },
            None => {
                match stack.pop() {
                    Some(frame) => {
                        let ghost upper = full.take(base + depth - 1);
                        let ghost upper_id = full[base + depth - 1];
                        let ghost siblings = reply_indices(records, Some(upper_id));
                        let ghost upper_shapes = replies(records, upper_id, upper);
                        let ghost at = frame.done@.len() as int;
                        let ghost upper_done = frame.done@;
                        let ghost upper_todo = frame.todo@;
                        let mut finished = frame.child;
                        let ghost unfinished = finished@;
                        proof {
                            assert(frame == old_stack[depth - 1]);
                            assert(upper.push(upper_id) =~= above);
                            lemma_replies_unfold(records, upper_id, upper);
                            lemma_reply_indices_below(records, Some(upper_id), records.len());
                            assert(unfinished == records[siblings[at]]);
                            assert(upper_shapes[at].replies == shapes);
                        }
                        finished.comments = Some(done);
                        proof {
                            assert(finished@.comments->0 =~= nodes_view(records, shapes));
                            assert(finished@ =~= node_view(records, upper_shapes[at]));
                        }
                        path.pop();
                        todo = frame.todo;
                        done = frame.done;
                        done.push(finished);
                        proof {
                            let shorter = path_ids(path@);
                            assert(shorter =~= full.drop_last());
                            assert(shorter.take(base + depth - 1) =~= upper);
                            assert(path@.take(base) =~= old(path)@);
                            assert(stack@ =~= old_stack.drop_last());
                            assert(valid_path(records, shorter)) by {
                                assert forall|t: int| 0 <= t < shorter.len() implies has_id(
                                    records,
                                    #[trigger] shorter[t],
                                ) by {
                                    assert(shorter[t] == full[t]);
                                }
                            }
                            assert forall|t: int| 0 <= t < done@.len() implies (
                            #[trigger] done@[t])@ == node_view(records, upper_shapes[t]) by {
                                if t < at {
                                    assert(done@[t] == upper_done[t]);
                                }
                            }
                            assert forall|l: int| 0 <= l < stack@.len() implies {
                                &&& level_ok(
                                    records,
                                    shorter.take(base + l),
                                    shorter[base + l],
                                    (#[trigger] stack@[l]).done@,
                                    stack@[l].todo@,
                                    true,
                                )
                                &&& stack@[l].child@ == records[reply_indices(
                                    records,
                                    Some(shorter[base + l]),
                                )[stack@[l].done@.len() as int]]
                                &&& shorter[base + l + 1] == stack@[l].child.id as int
                            } by {
                                assert(stack@[l] == old_stack[l]);
                                assert(shorter.take(base + l) =~= full.take(base + l));
                                assert(shorter[base + l + 1] == full[base + l + 1]);
                            }
                            let high = power(radix, (top - depth) as nat);
                            assert(weight(old_stack, top, radix) == weight(stack@, top, radix) + (
                            upper_todo.len() + 1) * power(radix, (top - (depth - 1)) as nat));
                            assert(work_left(stack@, todo@.len(), top, radix) == weight(
                                old_stack,
                                top,
                                radix,
                            ));
                            assert((old_todo.len() + 1) * high == high) by (nonlinear_arith)
                                requires
                                    old_todo.len() == 0,
                            ;
                            assert(start == weight(old_stack, top, radix) + high);
                            assert(work_left(stack@, todo@.len(), top, radix) < start);
                        }
                    },
                    None => {
                        path.pop();
                        comment.comments = Some(done);
                        proof {
                            assert(path@ =~= old(path)@);
                            assert(above =~= given);
                            assert(comment@.comments->0 =~= nodes_view(records, shapes));
                            assert(comment@ =~= before.with_replies(nodes_view(records, shapes)));
                        }
                        break ;
                    },
                }
            },
        }
    }
}

/// The forest of `comments`: a copy of every comment without a parent, in
/// input order, each with the replies to it nested below it. A comment whose
/// parent is not among `comments` is left out with all that hangs below it.
pub fn thread_comments(comments: &[Comment]) -> (forest: Vec<Comment>)
    ensures
        views(forest@) == forest_view(views(comments@)),
{
    let ghost records = views(comments@);
    let ghost roots = reply_indices(records, None);
    let ghost shapes = forest_shape(records);
    let mut forest: Vec<Comment> = Vec::new();
    let mut path: Vec<i32> = Vec::new();
    let mut k: usize = 0;
    let ghost mut found: int = 0;
    proof {
        lemma_reply_indices_step(records, None, 0);
        assert(path_ids(path@) =~= Seq::<int>::empty());
    }
    while k < comments.len()
        invariant
            k <= comments.len(),
            records == views(comments@),
            shapes == forest_shape(records),
            path@.len() == 0,
            found == reply_indices_below(records, None, k as nat).len(),
            forest@.len() == found,
            found <= shapes.len(),
            reply_indices_below(records, None, k as nat) == reply_indices(records, None).take(
                found,
            ),
            forall|t: int|
                0 <= t < found ==> (#[trigger] forest@[t])@ == node_view(records, shapes[t]),
        decreases comments.len() - k,
    {
        proof {
            lemma_reply_indices_step(records, None, k as nat);
            lemma_reply_prefix(records, None, k as nat + 1);
        }
        assert(records[k as int] == comments[k as int]@);
        if comments[k].parent_id.is_none() {
            let mut root = comments[k].bare_copy();
            proof {
                assert(path_ids(path@) =~= Seq::<int>::empty());
                assert(records[k as int].id == root.id as int);
                assert(records[k as int].parent_id is None);
                assert(reply_indices_below(records, None, (k + 1) as nat)[found] == k);
                assert(reply_indices(records, None)[found] == k);
                assert(shapes[found] == Shape {
                    index: k as int,
                    replies: replies(records, records[k as int].id, Seq::empty()),
                });
            }
            add_children(&mut root, comments, &mut path);
            proof {
                assert(root@ =~= node_view(records, shapes[found]));
                found = found + 1;
            }
            forest.push(root);
        }
        k += 1;
    }
    proof {
        assert(reply_indices(records, None).take(found) == reply_indices(records, None));
        assert(views(forest@) =~= nodes_view(records, shapes));
    }
    forest
}

/// What `replies` is, spelled out tree by tree.
pub proof fn lemma_replies_unfold(records: Seq<CommentView>, id: int, path: Seq<int>)
    requires
        valid_path(records, path),
        has_id(records, id),
    ensures
        path.contains(id) ==> replies(records, id, path) == Seq::<Shape>::empty(),
        !path.contains(id) ==> {
            &&& valid_path(records, path.push(id))
            &&& replies(records, id, path).len() == reply_indices(records, Some(id)).len()
            &&& forall|t: int|
                0 <= t < reply_indices(records, Some(id)).len() ==> #[trigger] replies(
                    records,
                    id,
                    path,
                )[t] == (Shape {
                    index: reply_indices(records, Some(id))[t],
                    replies: replies(
                        records,
                        records[reply_indices(records, Some(id))[t]].id,
                        path.push(id),
                    ),
                })
        },
{
    if !path.contains(id) {
        let longer = path.push(id);
        assert forall|t: int| 0 <= t < longer.len() implies has_id(
            records,
            #[trigger] longer[t],
        ) by {
            if t < path.len() {
                assert(longer[t] == path[t]);
            }
        }
        assert(longer.no_duplicates());
        let indices = reply_indices(records, Some(id));
        lemma_reply_indices_below(records, Some(id), records.len());
        let shapes = replies(records, id, path);
        assert(shapes.len() == indices.len());
        assert forall|t: int| 0 <= t < indices.len() implies #[trigger] shapes[t] == (Shape {
            index: indices[t],
            replies: replies(records, records[indices[t]].id, longer),
        }) by {
            let j = indices[t];
            assert(0 <= j < records.len());
            assert(has_id(records, records[j].id));
            assert(shapes[t].index == j);
            assert(shapes[t].replies == replies(records, records[j].id, longer));
        }
    }
}

/// The reply positions below `k` are the first ones of all the reply
/// positions.
pub proof fn lemma_reply_prefix(records: Seq<CommentView>, parent: Option<int>, k: nat)
    requires
        k <= records.len(),
    ensures
        reply_indices_below(records, parent, k) == reply_indices(records, parent).take(
            reply_indices_below(records, parent, k).len() as int,
        ),
        reply_indices_below(records, parent, k).len() <= reply_indices(records, parent).len(),
    decreases records.len() - k,
{
    if k < records.len() {
        lemma_reply_prefix(records, parent, k + 1);
        lemma_reply_indices_step(records, parent, k);
        let next = reply_indices_below(records, parent, k + 1);
        let cur = reply_indices_below(records, parent, k);
        let all = reply_indices(records, parent);
        assert(cur =~= all.take(cur.len() as int));
    } else {
        let all = reply_indices(records, parent);
        assert(all =~= all.take(all.len() as int));
    }
}

} // verus!
