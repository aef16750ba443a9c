//! Threading of flat comment records into reply trees, with the age of each
//! comment.
//!
//! `sort::sort_comments` takes the comments of a post as they are stored and
//! gives back the discussion as it is shown: the comments without a parent in
//! input order, each with the replies to it nested below, and every comment
//! with its age in seconds and a label such as `3 hours ago`.

pub mod clock;
pub mod laws;
pub mod model;
pub mod recency;
pub mod sort;
pub mod threads;

pub use model::Comment;
pub use model::CommentForm;
pub use model::Post;
pub use model::User;
pub use model::UserForm;
pub use recency::Timestamp;
pub use sort::sort_comments;
pub use sort::sort_comments_at;
pub use sort::SortError;
pub use threads::thread_comments;
