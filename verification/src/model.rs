//! The records the discussion is made of, and their mathematical views.

use vstd::prelude::*;
use vstd::string::*;

verus! {

/// A comment, both as it is stored (flat, `comments` unset) and as it is
/// shown (with its age and with the replies to it nested in `comments`).
#[derive(Debug, PartialEq, Eq)]
pub struct Comment {
    pub id: i32,
    pub created_at: String,
    pub newness: Option<i64>,
    pub newness_str: Option<String>,
    pub author: String,
    pub body: String,
    pub parent_id: Option<i32>,
    pub post_id: i32,
    pub comments: Option<Vec<Comment>>,
}

/// What a `Comment` holds, as plain mathematical values.
pub struct CommentView {
    pub id: int,
    pub created_at: Seq<char>,
    pub newness: Option<int>,
    pub newness_str: Option<Seq<char>>,
    pub author: Seq<char>,
    pub body: Seq<char>,
    pub parent_id: Option<int>,
    pub post_id: int,
    pub comments: Option<Seq<CommentView>>,
}

impl CommentView {
    /// The same comment without replies attached.
    pub open spec fn bare(self) -> CommentView {
        CommentView { comments: None, ..self }
    }

    /// The same comment with `replies` attached.
    pub open spec fn with_replies(self, replies: Seq<CommentView>) -> CommentView {
        CommentView { comments: Some(replies), ..self }
    }

    /// The same comment with the given age and label.
    pub open spec fn with_age(self, age: int, label: Seq<char>) -> CommentView {
        CommentView { newness: Some(age), newness_str: Some(label), ..self }
    }
}

impl View for Comment {
    type V = CommentView;

    open spec fn view(&self) -> CommentView
        decreases self,
    {
        CommentView {
            id: self.id as int,
            created_at: self.created_at@,
            newness: match self.newness {
                Some(n) => Some(n as int),
                None => None,
            },
            newness_str: match self.newness_str {
                Some(s) => Some(s@),
                None => None,
            },
            author: self.author@,
            body: self.body@,
            parent_id: match self.parent_id {
                Some(p) => Some(p as int),
                None => None,
            },
            post_id: self.post_id as int,
            comments: match self.comments {
                Some(v) => Some(
                    Seq::new(
                        v@.len(),
                        |k: int|
                            if 0 <= k < v@.len() {
                                v[k].view()
                            } else {
                                arbitrary()
                            },
                    ),
                ),
                None => None,
            },
        }
    }
}

/// The views of a sequence of comments, in order.
pub open spec fn views(comments: Seq<Comment>) -> Seq<CommentView> {
    Seq::new(comments.len(), |k: int| comments[k]@)
}

fn copy_text(text: &Option<String>) -> (r: Option<String>)
    ensures
        r is Some == text is Some,
        r matches Some(s) ==> s@ == text->0@,
{
    match text {
        Some(s) => Some(s.clone()),
        None => None,
    }
}

/// A copy of every comment in `comments`, each with all that is attached to
/// it.
pub fn copy_all(comments: &Vec<Comment>) -> (copies: Vec<Comment>)
    ensures
        views(copies@) == views(comments@),
    decreases comments, 0int,
{
    let mut copies: Vec<Comment> = Vec::new();
    let mut k: usize = 0;
    while k < comments.len()
        invariant
            k <= comments.len(),
            copies@.len() == k,
            forall|t: int| 0 <= t < k ==> (#[trigger] copies@[t])@ == comments@[t]@,
        decreases comments.len() - k,
    {
        let copy = comments[k].whole_copy();
        copies.push(copy);
        k += 1;
    }
    assert(views(copies@) =~= views(comments@));
    copies
}

impl Comment {
    /// A stored comment: no age yet, no replies attached.
    pub fn new(
        id: i32,
        created_at: String,
        author: String,
        body: String,
        parent_id: Option<i32>,
        post_id: i32,
    ) -> (c: Comment)
        ensures
            c.id == id,
            c.created_at == created_at,
            c.author == author,
            c.body == body,
            c.parent_id == parent_id,
            c.post_id == post_id,
            c.newness is None,
            c.newness_str is None,
            c.comments is None,
    {
        Comment {
            id,
            created_at,
            newness: None,
            newness_str: None,
            author,
            body,
            parent_id,
            post_id,
            comments: None,
        }
    }

    /// The word `yolo`, whatever the comment.
    pub fn yolo(&self) -> (s: String)
        ensures
            s@ == "yolo"@,
    {
        String::from_str("yolo")
    }

    /// A copy of this comment with all that is attached to it.
    pub fn whole_copy(&self) -> (c: Comment)
        ensures
            c@ == self@,
        decreases self, 1int,
    {
        let comments = match &self.comments {
            Some(attached) => Some(copy_all(attached)),
            None => None,
        };
        let c = Comment {
            id: self.id,
            created_at: self.created_at.clone(),
            newness: self.newness,
            newness_str: copy_text(&self.newness_str),
            author: self.author.clone(),
            body: self.body.clone(),
            parent_id: self.parent_id,
            post_id: self.post_id,
            comments,
        };
        proof {
            if self.comments is Some {
                let attached = self.comments->0;
                let copies = c.comments->0;
                let shown = views(attached@);
                assert(views(copies@) == shown);
                assert forall|t: int| 0 <= t < attached@.len() implies (#[trigger] attached@[t])@
                    == shown[t] by {}
                assert forall|t: int| 0 <= t < copies@.len() implies (#[trigger] copies@[t])@
                    == shown[t] by {
                    assert(views(copies@)[t] == copies@[t]@);
                }
                assert(self@.comments->0 =~= shown);
                assert(c@.comments->0 =~= shown);
            }
        }
        c
    }

    /// A copy of this comment without the replies attached to it.
    pub fn bare_copy(&self) -> (c: Comment)
        ensures
            c@ == self@.bare(),
    {
        Comment {
            id: self.id,
            created_at: self.created_at.clone(),
            newness: self.newness,
            newness_str: copy_text(&self.newness_str),
            author: self.author.clone(),
            body: self.body.clone(),
            parent_id: self.parent_id,
            post_id: self.post_id,
            comments: None,
        }
    }
}

impl Clone for Comment {
    /// A copy of this comment with all that is attached to it.
    fn clone(&self) -> (c: Self)
        ensures
            c@ == self@,
    {
        self.whole_copy()
    }
}

/// A post, with the discussion under it once that has been threaded.
#[derive(Debug)]
pub struct Post {
    pub id: i32,
    pub title: String,
    pub body: String,
    pub author: String,
    pub comments: Option<Vec<Comment>>,
}

/// A registered reader.
#[derive(Debug)]
pub struct User {
    pub id: i32,
    pub name: String,
}

/// What the login form carries.
#[derive(Debug)]
pub struct UserForm {
    pub name: String,
}

/// What the comment form carries; every field may be left out.
#[derive(Debug, Default)]
pub struct CommentForm {
    pub author: Option<String>,
    pub post_id: Option<i32>,
    pub body: Option<String>,
    pub parent_id: Option<i32>,
}

impl CommentForm {
    /// The text of the form's body, empty where the form has none.
    pub open spec fn body_text(self) -> Seq<char> {
        match self.body {
            Some(b) => b@,
            None => Seq::empty(),
        }
    }

    /// The JSON object that replaces a stored comment's body by the form's:
    /// the body text between `{"body": "` and `"}`, taken as it stands.
    pub fn body_patch(&self) -> (patch: String)
        ensures
            patch@ == "{\"body\": \""@ + self.body_text() + "\"}"@,
    {
        let mut patch = String::from_str("{\"body\": \"");
        match &self.body {
            Some(b) => patch.append(b.as_str()),
            None => {
                assert(patch@ + Seq::<char>::empty() =~= patch@);
            },
        }
        patch.append("\"}");
        patch
    }
}

} // verus!
