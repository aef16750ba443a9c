use comment_threads::model::Comment;
use comment_threads::threads::children_for_parent;
use comment_threads::threads::thread_comments;

fn record(id: i32, parent: Option<i32>) -> Comment {
    Comment::new(
        id,
        String::from("2024-03-01T12:00:00.000000+0000"),
        format!("author {}", id),
        format!("body {}", id),
        parent,
        1,
    )
}

fn ids(forest: &[Comment]) -> Vec<i32> {
    forest.iter().map(|c| c.id).collect()
}

fn replies(c: &Comment) -> &[Comment] {
    c.comments.as_deref().expect("a threaded comment has its replies set")
}

fn count(forest: &[Comment]) -> usize {
    forest.iter().map(|c| 1 + count(replies(c))).sum()
}

fn flat(forest: &[Comment], out: &mut Vec<i32>) {
    for c in forest {
        out.push(c.id);
        flat(replies(c), out);
    }
}

fn depth(forest: &[Comment]) -> usize {
    forest.iter().map(|c| 1 + depth(replies(c))).max().unwrap_or(0)
}

#[test]
fn chain_with_orphan_gives_one_tree_of_three() {
    let records = vec![record(1, None), record(2, Some(1)), record(3, Some(2)), record(4, Some(99))];
    let forest = thread_comments(&records);
    assert_eq!(ids(&forest), vec![1]);
    assert_eq!(ids(replies(&forest[0])), vec![2]);
    assert_eq!(ids(replies(&replies(&forest[0])[0])), vec![3]);
    assert!(replies(&replies(&replies(&forest[0])[0])[0]).is_empty());
    assert_eq!(count(&forest), 3);
    let mut seen = Vec::new();
    flat(&forest, &mut seen);
    assert!(!seen.contains(&4));
}

#[test]
fn roots_keep_input_order() {
    let records = vec![record(1, None), record(2, None)];
    assert_eq!(ids(&thread_comments(&records)), vec![1, 2]);
    let records = vec![record(2, None), record(1, None)];
    assert_eq!(ids(&thread_comments(&records)), vec![2, 1]);
}

#[test]
fn empty_input_gives_empty_forest() {
    let forest = thread_comments(&[]);
    assert!(forest.is_empty());
}

#[test]
fn siblings_keep_input_order_at_every_depth() {
    let records = vec![
        record(30, Some(10)),
        record(10, None),
        record(20, Some(10)),
        record(5, Some(20)),
        record(40, None),
        record(4, Some(20)),
        record(25, Some(10)),
    ];
    let forest = thread_comments(&records);
    assert_eq!(ids(&forest), vec![10, 40]);
    assert_eq!(ids(replies(&forest[0])), vec![30, 20, 25]);
    assert_eq!(ids(replies(&replies(&forest[0])[1])), vec![5, 4]);
    assert!(replies(&forest[1]).is_empty());
    assert_eq!(count(&forest), 7);
}

#[test]
fn every_record_appears_once_when_all_descend_from_roots() {
    let records = vec![
        record(7, Some(3)),
        record(3, Some(1)),
        record(1, None),
        record(2, None),
        record(9, Some(2)),
        record(8, Some(7)),
    ];
    let forest = thread_comments(&records);
    let mut seen = Vec::new();
    flat(&forest, &mut seen);
    seen.sort();
    assert_eq!(seen, vec![1, 2, 3, 7, 8, 9]);
    assert_eq!(count(&forest), records.len());
}

#[test]
fn orphan_is_not_promoted_and_takes_its_replies_with_it() {
    let records = vec![record(4, Some(99)), record(5, Some(4)), record(1, None)];
    let forest = thread_comments(&records);
    assert_eq!(ids(&forest), vec![1]);
    assert_eq!(count(&forest), 1);
}

#[test]
fn three_cycle_ends_and_is_left_out() {
    let records = vec![record(1, Some(3)), record(2, Some(1)), record(3, Some(2)), record(10, None)];
    let forest = thread_comments(&records);
    assert_eq!(ids(&forest), vec![10]);
    assert_eq!(count(&forest), 1);
}

#[test]
fn self_reply_is_left_out() {
    let records = vec![record(1, Some(1))];
    assert!(thread_comments(&records).is_empty());
}

#[test]
fn repeated_identifier_is_shown_once_more_without_replies() {
    // two records share the identifier 1; the second replies to that identifier
    let records = vec![record(1, None), record(1, Some(1)), record(2, Some(1))];
    let forest = thread_comments(&records);
    assert_eq!(ids(&forest), vec![1]);
    let below = replies(&forest[0]);
    assert_eq!(ids(below), vec![1, 2]);
    assert!(replies(&below[0]).is_empty());
    assert!(replies(&below[1]).is_empty());
    assert_eq!(depth(&forest), 2);
}

#[test]
fn cycle_through_repeated_identifiers_is_cut() {
    // 1 (root) <- 2 <- 1' <- 2 ... : the second record with identifier 1 is a leaf
    let records = vec![record(1, None), record(2, Some(1)), record(1, Some(2))];
    let forest = thread_comments(&records);
    assert_eq!(ids(&forest), vec![1]);
    assert_eq!(ids(replies(&forest[0])), vec![2]);
    let under_two = replies(&replies(&forest[0])[0]);
    assert_eq!(ids(under_two), vec![1]);
    assert!(replies(&under_two[0]).is_empty());
    assert_eq!(depth(&forest), 3);
}

#[test]
fn long_chain_is_nested_link_by_link() {
    let n = 200;
    let mut records = vec![record(0, None)];
    for id in 1..n {
        records.push(record(id, Some(id - 1)));
    }
    let forest = thread_comments(&records);
    assert_eq!(count(&forest), n as usize);
    assert_eq!(depth(&forest), n as usize);
}

#[test]
fn fields_are_carried_over_and_old_nesting_is_dropped() {
    let mut root = record(1, None);
    root.newness = Some(12);
    root.newness_str = Some(String::from("12 seconds ago"));
    root.post_id = 77;
    root.comments = Some(vec![record(50, Some(1))]);
    let records = vec![root, record(2, Some(1))];
    let forest = thread_comments(&records);
    assert_eq!(forest[0].author, "author 1");
    assert_eq!(forest[0].body, "body 1");
    assert_eq!(forest[0].created_at, "2024-03-01T12:00:00.000000+0000");
    assert_eq!(forest[0].newness, Some(12));
    assert_eq!(forest[0].newness_str.as_deref(), Some("12 seconds ago"));
    assert_eq!(forest[0].post_id, 77);
    assert_eq!(forest[0].parent_id, None);
    assert_eq!(ids(replies(&forest[0])), vec![2]);
    assert_eq!(replies(&forest[0])[0].parent_id, Some(1));
}

#[test]
fn posts_are_not_told_apart() {
    let mut other = record(2, Some(1));
    other.post_id = 2;
    let records = vec![record(1, None), other];
    let forest = thread_comments(&records);
    assert_eq!(ids(replies(&forest[0])), vec![2]);
}

#[test]
fn children_for_parent_copies_the_replies_in_order() {
    let records = vec![record(3, Some(1)), record(1, None), record(2, Some(1)), record(4, Some(2))];
    let children = children_for_parent(&records[1], &records);
    assert_eq!(ids(&children), vec![3, 2]);
    assert_eq!(children[0], records[0]);
    assert_eq!(children[1], records[2]);
    assert!(children_for_parent(&records[3], &records).is_empty());
}

#[test]
fn children_for_parent_copies_each_reply_whole() {
    let mut reply = record(2, Some(1));
    reply.newness = Some(5);
    reply.newness_str = Some(String::from("5 seconds ago"));
    reply.post_id = 9;
    reply.comments = Some(vec![record(7, Some(2))]);
    let parent = record(1, None);
    let records = vec![reply, record(3, Some(4))];
    let children = children_for_parent(&parent, &records);
    assert_eq!(children.len(), 1);
    assert_eq!(children[0], records[0]);
    assert_eq!(ids(replies(&children[0])), vec![7]);
    assert_eq!(records.len(), 2);
}

#[test]
fn clone_copies_a_comment_with_all_below_it() {
    let mut c = record(1, None);
    c.comments = Some(vec![record(2, Some(1)), record(3, Some(1))]);
    c.comments.as_mut().unwrap()[0].comments = Some(vec![record(4, Some(2))]);
    let copy = c.clone();
    assert_eq!(copy, c);
    assert_eq!(c.whole_copy(), c);
    assert_eq!(ids(replies(&replies(&copy)[0])), vec![4]);
    assert!(replies(&copy)[1].comments.is_none());
}

#[test]
fn very_long_chain_does_not_exhaust_the_stack() {
    let n = 10_000;
    let mut records = vec![record(0, None)];
    for id in 1..n {
        records.push(record(id, Some(id - 1)));
    }
    let mut forest = thread_comments(&records);
    assert_eq!(forest.len(), 1);
    // go down link by link, taking each comment apart on the way
    let mut next = forest.pop();
    let mut met = 0;
    while let Some(mut c) = next {
        assert_eq!(c.id, met);
        met += 1;
        let mut below = c.comments.take().expect("a threaded comment has its replies set");
        assert!(below.len() <= 1);
        next = below.pop();
    }
    assert_eq!(met, n);
}

#[test]
fn wide_and_deep_forest_is_put_together_in_order() {
    // three roots, each with three replies, each of those with two replies
    let mut records = Vec::new();
    for root in 0..3 {
        records.push(record(100 + root, None));
    }
    for root in 0..3 {
        for reply in 0..3 {
            records.push(record(1000 + 10 * root + reply, Some(100 + root)));
        }
    }
    for root in 0..3 {
        for reply in 0..3 {
            for last in 0..2 {
                records.push(record(
                    10_000 + 100 * root + 10 * reply + last,
                    Some(1000 + 10 * root + reply),
                ));
            }
        }
    }
    let forest = thread_comments(&records);
    assert_eq!(ids(&forest), vec![100, 101, 102]);
    assert_eq!(ids(replies(&forest[1])), vec![1010, 1011, 1012]);
    assert_eq!(ids(replies(&replies(&forest[2])[1])), vec![10_210, 10_211]);
    assert_eq!(count(&forest), records.len());
    let mut seen = Vec::new();
    flat(&forest, &mut seen);
    assert_eq!(&seen[..6], &[100, 1000, 10_000, 10_001, 1001, 10_010]);
}
