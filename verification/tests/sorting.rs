use comment_threads::model::{Comment, CommentForm, Post, User, UserForm};
use comment_threads::recency::Timestamp;
use comment_threads::sort::post_with_comments;
use comment_threads::sort::sort_comments;
use comment_threads::sort::sort_comments_at;
use comment_threads::sort::SortError;
use comment_threads::sort::TIME_FORMAT;

fn written(id: i32, parent: Option<i32>, at: &str) -> Comment {
    Comment::new(id, String::from(at), String::from("ann"), String::from("hello"), parent, 1)
}

fn replies(c: &Comment) -> &[Comment] {
    c.comments.as_deref().expect("a threaded comment has its replies set")
}

// 2024-03-01T12:00:00Z in microseconds since the epoch
const NOON: i64 = 1_709_294_400_000_000;

#[test]
fn ages_are_taken_from_created_at() {
    let records = vec![
        written(1, None, "2024-03-01T12:00:00.000000+0000"),
        written(2, Some(1), "2024-03-01T11:59:15.000000+0000"),
        written(3, Some(2), "2024-03-01T10:30:00.000000+0000"),
        written(4, None, "2024-02-29T11:00:00.000000+0000"),
    ];
    let forest = sort_comments_at(records, Timestamp { micros: NOON }).unwrap();
    assert_eq!(forest.len(), 2);
    assert_eq!(forest[0].newness, Some(0));
    assert_eq!(forest[0].newness_str.as_deref(), Some("0 seconds"));
    let second = &replies(&forest[0])[0];
    assert_eq!(second.newness, Some(45));
    assert_eq!(second.newness_str.as_deref(), Some("45 seconds ago"));
    let third = &replies(second)[0];
    assert_eq!(third.newness, Some(5400));
    assert_eq!(third.newness_str.as_deref(), Some("1 hour ago"));
    assert_eq!(forest[1].newness, Some(90000));
    assert_eq!(forest[1].newness_str.as_deref(), Some("1 day ago"));
}

#[test]
fn offsets_and_fractions_are_read() {
    let records = vec![
        written(1, None, "2024-03-01T14:00:00.000000+0200"),
        written(2, None, "2024-03-01T07:00:00.500000-0500"),
        written(3, None, "2024-03-01T12:00:00.000000+00:00"),
        written(4, None, "2024-03-01T12:00:30.250000+0000"),
    ];
    let forest = sort_comments_at(records, Timestamp { micros: NOON }).unwrap();
    assert_eq!(forest[0].newness, Some(0));
    assert_eq!(forest[1].newness, Some(0));
    assert_eq!(forest[2].newness, Some(0));
    assert_eq!(forest[3].newness, Some(-30));
    assert_eq!(forest[3].newness_str.as_deref(), Some("30 seconds from now"));
}

#[test]
fn first_unreadable_timestamp_is_reported() {
    let records = vec![
        written(1, None, "2024-03-01T12:00:00.000000+0000"),
        written(2, Some(99), "yesterday"),
        written(3, None, "2024-03-01 12:00:00"),
    ];
    match sort_comments_at(records, Timestamp { micros: NOON }) {
        Err(SortError::Timestamp { index, cause }) => {
            assert_eq!(index, 1);
            assert!(!cause.to_string().is_empty());
        }
        Ok(_) => panic!("an unreadable timestamp went through"),
    }
}

#[test]
fn timestamp_without_offset_is_rejected() {
    let records = vec![written(1, None, "2024-03-01T12:00:00.000000")];
    assert!(matches!(
        sort_comments_at(records, Timestamp { micros: NOON }),
        Err(SortError::Timestamp { index: 0, .. })
    ));
}

#[test]
fn annotated_reads_one_comment() {
    let c = written(5, Some(4), "2024-03-01T11:58:00.000000+0000");
    let shown = c.annotated(Timestamp { micros: NOON }).unwrap();
    assert_eq!(shown.newness, Some(120));
    assert_eq!(shown.newness_str.as_deref(), Some("2 minutes ago"));
    assert_eq!(shown.id, 5);
    assert_eq!(shown.parent_id, Some(4));
    assert!(shown.comments.is_none());
    assert!(written(5, None, "").annotated(Timestamp { micros: NOON }).is_err());
}

#[test]
fn with_age_needs_no_text() {
    let c = written(5, None, "not read");
    let shown = c.with_age(Timestamp { micros: 0 }, Timestamp { micros: 3_600_000_000 });
    assert_eq!(shown.newness, Some(3600));
    assert_eq!(shown.newness_str.as_deref(), Some("1 hour ago"));
    assert_eq!(shown.created_at, "not read");
}

#[test]
fn sort_comments_uses_the_clock() {
    let records = vec![
        written(1, None, "2001-01-01T00:00:00.000000+0000"),
        written(2, Some(1), "2001-01-01T00:00:00.000000+0000"),
        written(3, Some(7), "2001-01-01T00:00:00.000000+0000"),
    ];
    let forest = sort_comments(records).unwrap();
    assert_eq!(forest.len(), 1);
    assert_eq!(replies(&forest[0]).len(), 1);
    let age = forest[0].newness.unwrap();
    assert!(age > 20 * 365 * 86_400);
    assert_eq!(replies(&forest[0])[0].newness.map(|a| a >= age), Some(true));
    assert!(forest[0].newness_str.as_deref().unwrap().ends_with(" years ago"));
    assert!(sort_comments(vec![written(1, None, "soon")]).is_err());
    assert!(sort_comments(Vec::new()).unwrap().is_empty());
}

#[test]
fn post_gets_its_discussion() {
    let post = Post {
        id: 1,
        title: String::from("hello"),
        body: String::from("world"),
        author: String::from("me"),
        comments: None,
    };
    let records = vec![
        written(1, None, "2001-01-01T00:00:00.000000+0000"),
        written(2, Some(1), "2001-01-01T00:00:00.000000+0000"),
    ];
    let shown = post_with_comments(post, records).unwrap();
    assert_eq!(shown.id, 1);
    assert_eq!(shown.title, "hello");
    assert_eq!(shown.body, "world");
    assert_eq!(shown.author, "me");
    let forest = shown.comments.unwrap();
    assert_eq!(forest.len(), 1);
    assert_eq!(replies(&forest[0])[0].id, 2);
}

#[test]
fn time_format_is_the_stored_one() {
    assert_eq!(TIME_FORMAT, "%Y-%m-%dT%H:%M:%S%.6f%z");
}

#[test]
fn yolo_says_yolo() {
    assert_eq!(written(1, None, "").yolo(), "yolo");
}

#[test]
fn bare_copy_drops_the_replies_only() {
    let mut c = written(1, Some(2), "2024-03-01T12:00:00.000000+0000");
    c.newness = Some(3);
    c.newness_str = Some(String::from("3 seconds ago"));
    c.comments = Some(vec![written(9, Some(1), "")]);
    let copy = c.bare_copy();
    c.comments = None;
    assert_eq!(copy, c);
}

#[test]
fn body_patch_wraps_the_body() {
    let form = CommentForm {
        author: Some(String::from("ann")),
        post_id: Some(1),
        body: Some(String::from("so it goes")),
        parent_id: None,
    };
    assert_eq!(form.body_patch(), "{\"body\": \"so it goes\"}");
    assert_eq!(CommentForm::default().body_patch(), "{\"body\": \"\"}");
}

#[test]
fn reader_types_hold_their_fields() {
    let user = User { id: 3, name: String::from("ann") };
    let form = UserForm { name: String::from("ann") };
    assert_eq!(user.name, form.name);
    assert_eq!(user.id, 3);
}
