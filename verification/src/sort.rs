//! From stored comments to the discussion as it is shown: every comment gets
//! its age, then the comments are threaded.

use vstd::prelude::*;
use crate::clock::clock_micros;
use crate::clock::parse_micros;
use crate::clock::parsed_micros;
use crate::model::Comment;
use crate::model::CommentView;
use crate::model::Post;
use crate::model::views;
use crate::recency::Timestamp;
use crate::recency::age_label_of;
use crate::recency::age_seconds_of;
use crate::recency::annotate;
use crate::threads::forest_view;
use crate::threads::thread_comments;

verus! {

/// The format in which `created_at` is written: date, `T`, time with six
/// decimals of a second, and the offset from UTC.
pub const TIME_FORMAT: &'static str = "%Y-%m-%dT%H:%M:%S%.6f%z";

/// Why a sequence of comments could not be made into a discussion.
#[derive(Debug)]
pub enum SortError {
    /// The comment at position `index` has a `created_at` that is no date and
    /// time in `TIME_FORMAT`; it is the first such comment.
    Timestamp { index: usize, cause: chrono::ParseError },
}

/// The instant at which a comment was written, in microseconds since the
/// Unix epoch, or `None` where its `created_at` cannot be read.
pub open spec fn created_micros(record: CommentView) -> Option<int> {
    parsed_micros(record.created_at, TIME_FORMAT@)
}

/// A comment with the age it has at `now`, the label of that age, and
/// nothing attached.
pub open spec fn dated(record: CommentView, created: int, now: int) -> CommentView {
    record.bare().with_age(
        age_seconds_of(created, now),
        age_label_of(age_seconds_of(created, now)),
    )
}

/// Every record with the age it has at `now`.
pub open spec fn dated_all(records: Seq<CommentView>, now: int) -> Seq<CommentView> {
    Seq::new(records.len(), |i: int| dated(records[i], created_micros(records[i])->0, now))
}

/// What `sort_comments_at` owes for `records` at `now`: the forest of the
/// dated records where every `created_at` can be read, and otherwise the
/// position of the first one that cannot.
pub open spec fn sorted_at(
    records: Seq<CommentView>,
    now: int,
    outcome: Result<Vec<Comment>, SortError>,
) -> bool {
    match outcome {
        Ok(forest) => {
            &&& forall|i: int| 0 <= i < records.len() ==> created_micros(#[trigger] records[i]) is Some
            &&& views(forest@) == forest_view(dated_all(records, now))
        },
        Err(SortError::Timestamp { index, cause }) => {
            &&& index < records.len()
            &&& created_micros(records[index as int]) is None
            &&& forall|i: int| 0 <= i < index ==> created_micros(#[trigger] records[i]) is Some
        },
    }
}

impl Comment {
    /// A copy of this comment, written at `created` and seen at `now`: with
    /// its age in seconds, the label of that age, and nothing attached.
    pub fn with_age(&self, created: Timestamp, now: Timestamp) -> (c: Comment)
        ensures
            c@ == dated(self@, created@, now@),
    {
        let (age, label) = annotate(created, now);
        let mut c = self.bare_copy();
        c.newness = Some(age);
        c.newness_str = Some(label);
        c
    }

    /// A copy of this comment as seen at `now`, with its age and the label of
    /// that age, or the error of reading `created_at`.
    pub fn annotated(&self, now: Timestamp) -> (r: Result<Comment, chrono::ParseError>)
        ensures
            r matches Ok(c) ==> created_micros(self@) is Some && c@ == dated(
                self@,
                created_micros(self@)->0,
                now@,
            ),
            r is Err ==> created_micros(self@) is None,
    {
        match parse_micros(self.created_at.as_str(), TIME_FORMAT) {
            Ok(micros) => Ok(self.with_age(Timestamp { micros }, now)),
            Err(cause) => Err(cause),
        }
    }
}

/// The discussion made of `comments`, as seen at `now`: every comment gets
/// its age and label, the comments without a parent become the roots in
/// input order, and the replies to each comment are nested below it in input
/// order. Fails at the first comment whose `created_at` cannot be read.
pub fn sort_comments_at(comments: Vec<Comment>, now: Timestamp) -> (r: Result<
    Vec<Comment>,
    SortError,
>)
    ensures
        sorted_at(views(comments@), now@, r),
{
    let ghost records = views(comments@);
    let mut with_ages: Vec<Comment> = Vec::new();
    let mut k: usize = 0;
    while k < comments.len()
        invariant
            k <= comments.len(),
            records == views(comments@),
            with_ages@.len() == k,
            forall|i: int| 0 <= i < k ==> created_micros(#[trigger] records[i]) is Some,
            forall|i: int|
                0 <= i < k ==> (#[trigger] with_ages@[i])@ == dated(
                    records[i],
                    created_micros(records[i])->0,
                    now@,
                ),
        decreases comments.len() - k,
    {
        assert(records[k as int] == comments[k as int]@);
        match comments[k].annotated(now) {
            Ok(c) => {
                with_ages.push(c);
            },
            Err(cause) => {
                return Err(SortError::Timestamp { index: k, cause });
            },
        }
        k += 1;
    }
    assert(views(with_ages@) =~= dated_all(records, now@));
    Ok(thread_comments(with_ages.as_slice()))
}

/// The outcome is what `sort_comments_at` owes for `records` at some moment.
pub open spec fn sorted_sometime(
    records: Seq<CommentView>,
    outcome: Result<Vec<Comment>, SortError>,
) -> bool {
    exists|now: int| sorted_at(records, now, outcome)
}

/// The discussion made of `comments`, as seen at the moment of the call.
/// The moment is whatever the system clock says; the result is what
/// `sort_comments_at` gives for it.
pub fn sort_comments(comments: Vec<Comment>) -> (r: Result<Vec<Comment>, SortError>)
    ensures
        sorted_sometime(views(comments@), r),
{
    let now = Timestamp { micros: clock_micros() };
    let r = sort_comments_at(comments, now);
    assert(sorted_at(views(comments@), now@, r));
    r
}

/// The post with the discussion made of `comments` under it, as seen at the
/// moment of the call.
pub fn post_with_comments(post: Post, comments: Vec<Comment>) -> (r: Result<Post, SortError>)
    ensures
        r matches Ok(shown) ==> {
            &&& shown.comments is Some
            &&& sorted_sometime(views(comments@), Ok(shown.comments->0))
            &&& shown.id == post.id
            &&& shown.title == post.title
            &&& shown.body == post.body
            &&& shown.author == post.author
        },
        r matches Err(e) ==> sorted_sometime(views(comments@), Err(e)),
{
    match sort_comments(comments) {
        Ok(forest) => {
            let mut shown = post;
            shown.comments = Some(forest);
            Ok(shown)
        },
        Err(e) => Err(e),
    }
}

} // verus!
