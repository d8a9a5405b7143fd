//! The content store: the four tables of the blog held as plain rows, with
//! the invariants the persistence layer owes — identifiers increase, tag
//! association rows stay in lockstep with each article's tag string, page
//! titles are unique case-insensitively, and usernames are unique.
//!
//! Every multi-row write of the real database is one atomic operation here;
//! the surrounding application performs the matching SQL transaction.

use vstd::prelude::*;

use crate::models::articles::Article;
use crate::models::pages::Page;
use crate::models::users::User;
use crate::tags::tag_tokens;
use crate::text::lower_of;
use crate::time::MAX_TS;

verus! {

/// One tag association row: a tag name pointing back to its article.
pub struct TagRow {
    pub name: String,
    pub article_id: i32,
}

impl Clone for TagRow {
    fn clone(&self) -> (r: Self)
        ensures
            r == *self,
    {
        TagRow { name: self.name.clone(), article_id: self.article_id }
    }
}

/// The store's four tables, plus the identifiers the next inserted rows
/// will receive.
pub struct Store {
    pub articles: Vec<Article>,
    pub tag_rows: Vec<TagRow>,
    pub pages: Vec<Page>,
    pub users: Vec<User>,
    pub next_article_id: i32,
    pub next_page_id: i32,
}

/// The association rows as plain pairs of tag name and article identifier.
pub open spec fn row_views(rows: Seq<TagRow>) -> Seq<(Seq<char>, i32)> {
    rows.map_values(|r: TagRow| (r.name@, r.article_id))
}

/// The association rows an article's tag string calls for.
pub open spec fn token_rows(tags: Seq<char>, id: i32) -> Seq<(Seq<char>, i32)> {
    tag_tokens(tags).map_values(|t: Seq<char>| (t, id))
}

/// Keeps the association rows of every article but the given one.
pub open spec fn other_rows(id: i32) -> spec_fn((Seq<char>, i32)) -> bool {
    |p: (Seq<char>, i32)| p.1 != id
}

/// Some article of the list carries this identifier and this tag token.
pub open spec fn has_token(arts: Seq<Article>, name: Seq<char>, id: i32) -> bool {
    exists|k: int|
        0 <= k < arts.len() && (#[trigger] arts[k]).id == Some(id) && tag_tokens(
            arts[k].tags@,
        ).contains(name)
}

/// The article rows are well formed: identifiers present, strictly
/// increasing, below the next free identifier, timestamps in range.
pub open spec fn articles_ok(arts: Seq<Article>, next: i32) -> bool {
    &&& forall|i: int| 0 <= i < arts.len() ==> (#[trigger] arts[i]).id is Some
    &&& forall|i: int, j: int|
        0 <= i < j < arts.len() ==> (#[trigger] arts[i]).id->0 < (#[trigger] arts[j]).id->0
    &&& forall|i: int| 0 <= i < arts.len() ==> 1 <= (#[trigger] arts[i]).id->0 < next
    &&& forall|i: int|
        0 <= i < arts.len() ==> 0 <= (#[trigger] arts[i]).created_at <= MAX_TS && 0
            <= arts[i].updated_at <= MAX_TS
    &&& arts.len() < next
    &&& next <= i32::MAX
}

/// Tag rows exist exactly for the tokens of stored articles: the
/// association table and the articles' tag strings are in lockstep.
pub open spec fn lockstep(arts: Seq<Article>, rows: Seq<TagRow>) -> bool {
    &&& forall|name: Seq<char>, id: i32|
        #[trigger] row_views(rows).contains((name, id)) <==> #[trigger] has_token(arts, name, id)
    &&& rows.len() < i32::MAX
}

/// The page rows are well formed, and no two titles collide
/// case-insensitively.
pub open spec fn pages_ok(pages: Seq<Page>, next: i32) -> bool {
    &&& forall|i: int| 0 <= i < pages.len() ==> (#[trigger] pages[i]).id is Some
    &&& forall|i: int, j: int|
        0 <= i < j < pages.len() ==> (#[trigger] pages[i]).id->0 < (#[trigger] pages[j]).id->0
    &&& forall|i: int| 0 <= i < pages.len() ==> 1 <= (#[trigger] pages[i]).id->0 < next
    &&& forall|i: int|
        0 <= i < pages.len() ==> 0 <= (#[trigger] pages[i]).created_at <= MAX_TS && 0
            <= pages[i].updated_at <= MAX_TS
    &&& forall|i: int, j: int|
        0 <= i < j < pages.len() ==> lower_of((#[trigger] pages[i]).title@) != lower_of(
            (#[trigger] pages[j]).title@,
        )
    &&& pages.len() < next
    &&& next <= i32::MAX
}

/// Usernames are unique.
pub open spec fn users_ok(users: Seq<User>) -> bool {
    forall|i: int, j: int|
        0 <= i < j < users.len() ==> (#[trigger] users[i]).username@ != (
        #[trigger] users[j]).username@
}

impl Store {
    /// Some article carries this identifier and this tag token.
    pub open spec fn has_article_token(&self, name: Seq<char>, id: i32) -> bool {
        has_token(self.articles@, name, id)
    }

    /// Some association row carries this tag name and article identifier.
    pub open spec fn has_tag_row(&self, name: Seq<char>, id: i32) -> bool {
        row_views(self.tag_rows@).contains((name, id))
    }

    /// The store's whole invariant.
    pub open spec fn wf(&self) -> bool {
        &&& articles_ok(self.articles@, self.next_article_id)
        &&& lockstep(self.articles@, self.tag_rows@)
        &&& pages_ok(self.pages@, self.next_page_id)
        &&& users_ok(self.users@)
    }

    /// Whether the association table holds a row for this name and article.
    pub fn has_row(&self, name: &String, id: i32) -> (r: bool)
        ensures
            r == self.has_tag_row(name@, id),
    {
        let n = self.tag_rows.len();
        let mut i: usize = 0;
        while i < n
            invariant
                i <= n,
                n == self.tag_rows.len(),
                forall|k: int| 0 <= k < i ==> #[trigger] row_views(self.tag_rows@)[k] != (name@, id),
            decreases n - i,
        {
            proof {
                assert(row_views(self.tag_rows@)[i as int] == (
                    self.tag_rows@[i as int].name@,
                    self.tag_rows@[i as int].article_id,
                ));
            }
            if self.tag_rows[i].article_id == id && self.tag_rows[i].name == *name {
                proof {
                    assert(row_views(self.tag_rows@)[i as int] == (name@, id));
                }
                return true;
            }
            i += 1;
        }
        proof {
            if row_views(self.tag_rows@).contains((name@, id)) {
                let k = choose|k: int|
                    0 <= k < row_views(self.tag_rows@).len() && row_views(self.tag_rows@)[k] == (
                    name@,
                    id,
                );
                assert(false);
            }
        }
        false
    }

    /// Removes every association row of the given article; the part of the
    /// transactional tag rewrite that clears the old rows.
    pub fn clear_tags(&mut self, article_id: i32)
        ensures
            row_views(final(self).tag_rows@) == row_views(old(self).tag_rows@).filter(
                other_rows(article_id),
            ),
            final(self).articles@ == old(self).articles@,
            final(self).pages@ == old(self).pages@,
            final(self).users@ == old(self).users@,
            final(self).next_article_id == old(self).next_article_id,
            final(self).next_page_id == old(self).next_page_id,
            final(self).tag_rows@.len() <= old(self).tag_rows@.len(),
    {
        let ghost pred = other_rows(article_id);
        let mut kept: Vec<TagRow> = Vec::new();
        let mut i: usize = 0;
        let n = self.tag_rows.len();
        proof {
            assert(row_views(self.tag_rows@).take(0) =~= Seq::<(Seq<char>, i32)>::empty());
            reveal_with_fuel(Seq::filter, 1);
            assert(row_views(kept@) =~= row_views(self.tag_rows@).take(0).filter(pred));
        }
        while i < n
            invariant
                i <= n,
                n == self.tag_rows.len(),
                row_views(kept@) == row_views(self.tag_rows@).take(i as int).filter(pred),
                kept@.len() <= i,
                pred == other_rows(article_id),
            decreases n - i,
        {
            let ghost rv = row_views(self.tag_rows@);
            proof {
                assert(rv[i as int] == (
                    self.tag_rows@[i as int].name@,
                    self.tag_rows@[i as int].article_id,
                ));
                assert(rv.take(i + 1).drop_last() =~= rv.take(i as int));
                reveal_with_fuel(Seq::filter, 2);
                assert(rv.take(i + 1).filter(pred) == if pred(rv[i as int]) {
                    rv.take(i as int).filter(pred).push(rv[i as int])
                } else {
                    rv.take(i as int).filter(pred)
                });
            }
            if self.tag_rows[i].article_id != article_id {
                let ghost before = kept@;
                kept.push(self.tag_rows[i].clone());
                proof {
                    assert(row_views(kept@) =~= row_views(before).push(rv[i as int]));
                }
            }
            i += 1;
        }
        proof {
            assert(row_views(self.tag_rows@).take(n as int) =~= row_views(self.tag_rows@));
        }
        self.tag_rows = kept;
    }

    /// Inserts one association row for each tag token of the given string;
    /// the part of the transactional tag rewrite that writes the new rows.
    pub fn insert_tags(&mut self, tags: &str, article_id: i32)
        ensures
            row_views(final(self).tag_rows@) == row_views(old(self).tag_rows@) + token_rows(
                tags@,
                article_id,
            ),
            final(self).articles@ == old(self).articles@,
            final(self).pages@ == old(self).pages@,
            final(self).users@ == old(self).users@,
            final(self).next_article_id == old(self).next_article_id,
            final(self).next_page_id == old(self).next_page_id,
            final(self).tag_rows@.len() == old(self).tag_rows@.len() + tag_tokens(tags@).len(),
    {
        let toks = crate::tags::split_tag_chars(tags);
        let ghost tr = token_rows(tags@, article_id);
        let mut i: usize = 0;
        proof {
            assert(tr.len() == tag_tokens(tags@).len());
            assert(tr.take(0) =~= Seq::<(Seq<char>, i32)>::empty());
            assert(row_views(self.tag_rows@) + tr.take(0) =~= row_views(self.tag_rows@));
        }
        while i < toks.len()
            invariant
                i <= toks.len(),
                toks@.map_values(|t: Vec<char>| t@) == tag_tokens(tags@),
                tr == token_rows(tags@, article_id),
                row_views(self.tag_rows@) == row_views(old(self).tag_rows@) + tr.take(i as int),
                self.tag_rows@.len() == old(self).tag_rows@.len() + i,
                self.articles@ == old(self).articles@,
                self.pages@ == old(self).pages@,
                self.users@ == old(self).users@,
                self.next_article_id == old(self).next_article_id,
                self.next_page_id == old(self).next_page_id,
            decreases toks.len() - i,
        {
            let name = crate::text::chars_to_string(&toks[i]);
            let ghost before = self.tag_rows@;
            self.tag_rows.push(TagRow { name, article_id });
            proof {
                assert(toks@[i as int]@ == tag_tokens(tags@)[i as int]);
                assert(tr[i as int] == (tag_tokens(tags@)[i as int], article_id));
                assert(row_views(self.tag_rows@) =~= row_views(before).push(tr[i as int]));
                assert(row_views(old(self).tag_rows@) + tr.take(i + 1) =~= (row_views(
                    old(self).tag_rows@,
                ) + tr.take(i as int)).push(tr[i as int]));
            }
            i += 1;
        }
        proof {
            assert(tr.take(toks@.len() as int) =~= tr);
        }
    }

    /// An empty store, as the schema bootstrap leaves it.
    pub fn new() -> (s: Store)
        ensures
            s.wf(),
            s.articles@.len() == 0,
            s.tag_rows@.len() == 0,
            s.pages@.len() == 0,
            s.users@.len() == 0,
    {
        Store {
            articles: Vec::new(),
            tag_rows: Vec::new(),
            pages: Vec::new(),
            users: Vec::new(),
            next_article_id: 1,
            next_page_id: 1,
        }
    }
}

/// Both stores hold exactly the same rows and counters.
pub open spec fn same_store(a: Store, b: Store) -> bool {
    &&& a.articles@ == b.articles@
    &&& row_views(a.tag_rows@) == row_views(b.tag_rows@)
    &&& a.pages@ == b.pages@
    &&& a.users@ == b.users@
    &&& a.next_article_id == b.next_article_id
    &&& a.next_page_id == b.next_page_id
}

} // verus!
