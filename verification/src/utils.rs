//! Request-to-entity extraction helpers and the tag normalization entry
//! point.

use vstd::prelude::*;

use crate::error::Error;
use crate::store::Store;
use crate::tags::join_tags;
use crate::tags::normalized_tags;
use crate::tags::sorted_unique_tokens;
use crate::tags::split_tag_chars;
use crate::time::MAX_TS;

verus! {

/// The polymorphic face of an editable entity: articles and pages both
/// offer insert, update and delete against the store, a canonical URL to
/// redirect to, and a label for the operation log. Each implementation
/// states what its operations do through its `..._post` predicates.
pub trait Editable: Sized {
    /// The identifier the submission carries, absent for a new entity.
    spec fn entity_id(&self) -> Option<i32>;

    /// What a save (insert or update) of this entity asks of the store:
    /// its invariant, and room for the rows the save adds.
    spec fn save_pre(&self, store: Store) -> bool;

    /// What holds after `insert`.
    spec fn insert_post(pre: Store, post: Store, entity: Self, now: i64, r: Result<
        Self,
        Error,
    >) -> bool;

    /// What holds after `update`.
    spec fn update_post(pre: Store, post: Store, entity: Self, now: i64, r: Result<
        Self,
        Error,
    >) -> bool;

    /// What holds after `delete`.
    spec fn delete_post(pre: Store, post: Store, entity: Self, r: Result<(), Error>) -> bool;

    /// The canonical URL of the entity, where a successful save redirects.
    spec fn redirect_url_spec(&self) -> Seq<char>;

    /// The short description of the entity the operation log shows.
    spec fn label_spec(&self) -> Seq<char>;

    fn id(&self) -> (r: Option<i32>)
        ensures
            r == self.entity_id(),
    ;

    fn get_redirect_url(&self) -> (r: String)
        ensures
            r@ == self.redirect_url_spec(),
    ;

    /// A short description of the entity for the operation log.
    fn display_label(&self) -> (r: String)
        ensures
            r@ == self.label_spec(),
    ;

    fn insert(&self, store: &mut Store, now: i64) -> (r: Result<Self, Error>)
        requires
            self.save_pre(*old(store)),
            0 <= now <= MAX_TS,
        ensures
            final(store).wf(),
            Self::insert_post(*old(store), *final(store), *self, now, r),
    ;

    fn update(&self, store: &mut Store, now: i64) -> (r: Result<Self, Error>)
        requires
            self.save_pre(*old(store)),
            0 <= now <= MAX_TS,
        ensures
            final(store).wf(),
            Self::update_post(*old(store), *final(store), *self, now, r),
    ;

    fn delete(&self, store: &mut Store) -> (r: Result<(), Error>)
        requires
            old(store).wf(),
        ensures
            final(store).wf(),
            Self::delete_post(*old(store), *final(store), *self, r),
    ;
}

/// A path parameter, as extracted from the request URL.
pub struct Path<T>(pub T);

/// The optional numeric identifier embedded in an editor route.
pub struct EditorPath {
    pub id: Option<i32>,
}

/// The fields an editor form submits; absent fields default to empty.
pub struct EditorForm {
    pub id: Option<i32>,
    pub title: Option<String>,
    pub tags: Option<String>,
    pub content: Option<String>,
}

/// A submitted entity together with the create-or-update decision.
pub struct Entity<T> {
    pub entity: T,
    pub is_new: bool,
}

/// The identifier in the path, not in the body, decides whether a submission
/// creates a new entity; the form's own identifier is overridden by it.
pub fn resolve_editor_form(form: EditorForm, path_id: Option<i32>) -> (r: (EditorForm, bool))
    ensures
        r.0.id == path_id,
        r.0.title == form.title,
        r.0.tags == form.tags,
        r.0.content == form.content,
        r.1 == path_id is None,
{
    let is_new = path_id.is_none();
    let resolved = EditorForm { id: path_id, ..form };
    (resolved, is_new)
}

/// Normalizes a comma-separated tag list: tokens are trimmed, empty ones
/// dropped, duplicates removed, and the rest sorted and joined with ", ".
pub fn sort_out_tags(tags: &str) -> (r: String)
    ensures
        r@ == normalized_tags(tags@),
{
    let toks = split_tag_chars(tags);
    let sorted = sorted_unique_tokens(&toks);
    join_tags(&sorted)
}

} // verus!
