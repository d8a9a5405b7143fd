//! Static pages; a page's lowercased title is its public URL slug, so
//! titles are unique case-insensitively.

use vstd::prelude::*;

use crate::error::Error;
use crate::store::row_views;
use crate::store::same_store;
use crate::store::Store;
use crate::text::lower_of;
use crate::text::lowercase;
use crate::utils::Editable;

verus! {

/// A static page; the identifier is absent until the row is persisted.
pub struct Page {
    pub id: Option<i32>,
    pub title: String,
    pub content: String,
    pub created_at: i64,
    pub updated_at: i64,
}

impl Clone for Page {
    fn clone(&self) -> (r: Self)
        ensures
            r == *self,
    {
        Page {
            id: self.id,
            title: self.title.clone(),
            content: self.content.clone(),
            created_at: self.created_at,
            updated_at: self.updated_at,
        }
    }
}

/// The first page carrying the identifier.
pub open spec fn find_page(pages: Seq<Page>, id: i32) -> Option<Page>
    decreases pages.len(),
{
    if pages.len() == 0 {
        None
    } else if pages[0].id == Some(id) {
        Some(pages[0])
    } else {
        find_page(pages.drop_first(), id)
    }
}

/// The position of the page carrying the identifier, or -1.
pub open spec fn page_index(pages: Seq<Page>, id: i32) -> int
    decreases pages.len(),
{
    if pages.len() == 0 {
        -1
    } else if pages[0].id == Some(id) {
        0
    } else {
        let r = page_index(pages.drop_first(), id);
        if r == -1 {
            -1
        } else {
            1 + r
        }
    }
}

pub proof fn lemma_page_index_props(pages: Seq<Page>, id: i32)
    ensures
        page_index(pages, id) >= -1,
        page_index(pages, id) == -1 ==> forall|k: int|
            0 <= k < pages.len() ==> (#[trigger] pages[k]).id != Some(id),
        page_index(pages, id) >= 0 ==> page_index(pages, id) < pages.len() && pages[page_index(
            pages,
            id,
        )].id == Some(id),
    decreases pages.len(),
{
    if pages.len() > 0 && pages[0].id != Some(id) {
        lemma_page_index_props(pages.drop_first(), id);
        if page_index(pages, id) == -1 {
            assert(page_index(pages.drop_first(), id) == -1);
            assert forall|k: int|
                0 <= k < pages.len() implies (#[trigger] pages[k]).id != Some(id) by {
                if k > 0 {
                    assert(pages.drop_first()[k - 1] == pages[k]);
                    assert((#[trigger] pages.drop_first()[k - 1]).id != Some(id));
                }
            }
        } else {
            let r = page_index(pages.drop_first(), id);
            assert(r >= 0);
            assert(r < pages.drop_first().len());
            assert(pages.drop_first()[r] == pages[1 + r]);
        }
    }
}

/// Some page's title collides case-insensitively with the given one.
pub open spec fn title_taken(pages: Seq<Page>, title: Seq<char>) -> bool {
    exists|k: int|
        0 <= k < pages.len() && lower_of((#[trigger] pages[k]).title@) == lower_of(title)
}

/// Some page other than the one with the given identifier holds the title.
pub open spec fn title_taken_by_other(pages: Seq<Page>, title: Seq<char>, id: i32) -> bool {
    exists|k: int|
        0 <= k < pages.len() && lower_of((#[trigger] pages[k]).title@) == lower_of(title)
            && pages[k].id != Some(id)
}

/// The first page whose lowercased title equals the given lowercased form.
pub open spec fn find_page_lower(pages: Seq<Page>, lt: Seq<char>) -> Option<Page>
    decreases pages.len(),
{
    if pages.len() == 0 {
        None
    } else if lower_of(pages[0].title@) == lt {
        Some(pages[0])
    } else {
        find_page_lower(pages.drop_first(), lt)
    }
}

impl Page {
    /// The submitted form as a draft page: the title trimmed, missing
    /// fields defaulted to empty, timestamps left for the store to assign.
    pub fn from_form(form: crate::utils::EditorForm) -> (p: Page)
        ensures
            p.id == form.id,
            p.title@ == crate::text::trimmed(
                match form.title {
                    Some(t) => t@,
                    None => Seq::<char>::empty(),
                },
            ),
            p.content@ == match form.content {
                Some(c) => c@,
                None => Seq::<char>::empty(),
            },
            p.created_at == 0 && p.updated_at == 0,
    {
        let title_raw = match form.title {
            Some(t) => t,
            None => String::new(),
        };
        let t_chars = crate::text::chars_of(title_raw.as_str());
        let t_trim = crate::text::trim_chars(&t_chars);
        let title = crate::text::chars_to_string(&t_trim);
        let content = match form.content {
            Some(c) => c,
            None => String::new(),
        };
        Page { id: form.id, title, content, created_at: 0, updated_at: 0 }
    }

    /// Every page, newest first.
    pub fn get_all(s: &Store) -> (v: Vec<Page>)
        ensures
            v@ == s.pages@.reverse(),
    {
        let n = s.pages.len();
        let mut v: Vec<Page> = Vec::new();
        let mut i: usize = n;
        proof {
            assert(v@ =~= s.pages@.skip(n as int).reverse());
        }
        while i > 0
            invariant
                i <= n,
                n == s.pages.len(),
                v@ == s.pages@.skip(i as int).reverse(),
            decreases i,
        {
            i -= 1;
            v.push(s.pages[i].clone());
            proof {
                assert(v@ =~= s.pages@.skip(i as int).reverse());
            }
        }
        proof {
            assert(s.pages@.skip(0) =~= s.pages@);
        }
        v
    }

    /// Every page title, in ascending lexicographic order.
    pub fn get_all_titles(s: &Store) -> (v: Vec<String>)
        ensures
            v@.map_values(|t: String| t@) == crate::tags::sort_dedup(
                s.pages@.map_values(|p: Page| p.title@),
            ),
            crate::tags::strictly_sorted(v@.map_values(|t: String| t@)),
    {
        let ghost titles = s.pages@.map_values(|p: Page| p.title@);
        let n = s.pages.len();
        let mut toks: Vec<Vec<char>> = Vec::new();
        let mut i: usize = 0;
        proof {
            assert(toks@.map_values(|t: Vec<char>| t@) =~= titles.take(0));
        }
        while i < n
            invariant
                i <= n,
                n == s.pages.len(),
                titles == s.pages@.map_values(|p: Page| p.title@),
                toks@.map_values(|t: Vec<char>| t@) == titles.take(i as int),
            decreases n - i,
        {
            let cs = crate::text::chars_of(s.pages[i].title.as_str());
            let ghost before = toks@;
            toks.push(cs);
            proof {
                assert(toks@.map_values(|t: Vec<char>| t@) =~= before.map_values(
                    |t: Vec<char>| t@,
                ).push(titles[i as int]));
                assert(titles.take(i + 1) =~= titles.take(i as int).push(titles[i as int]));
            }
            i += 1;
        }
        proof {
            assert(titles.take(n as int) =~= titles);
        }
        let sorted = crate::tags::sorted_unique_tokens(&toks);
        let mut v: Vec<String> = Vec::new();
        let mut k: usize = 0;
        let ghost sd = crate::tags::sort_dedup(titles);
        proof {
            assert(v@.map_values(|t: String| t@) =~= sd.take(0));
        }
        while k < sorted.len()
            invariant
                k <= sorted.len(),
                sorted@.map_values(|t: Vec<char>| t@) == sd,
                v@.map_values(|t: String| t@) == sd.take(k as int),
            decreases sorted.len() - k,
        {
            let sstr = crate::text::chars_to_string(&sorted[k]);
            let ghost before = v@;
            v.push(sstr);
            proof {
                assert(sorted@[k as int]@ == sd[k as int]);
                assert(v@.map_values(|t: String| t@) =~= before.map_values(
                    |t: String| t@,
                ).push(sd[k as int]));
                assert(sd.take(k + 1) =~= sd.take(k as int).push(sd[k as int]));
            }
            k += 1;
        }
        proof {
            assert(sd.take(sd.len() as int) =~= sd);
            crate::tags::lemma_sort_dedup(titles);
        }
        v
    }

    /// The page with the identifier, when there is one.
    pub fn get_by_id(s: &Store, id: i32) -> (r: Option<Page>)
        ensures
            r == find_page(s.pages@, id),
    {
        let n = s.pages.len();
        let mut i: usize = 0;
        proof {
            assert(s.pages@.skip(0) =~= s.pages@);
        }
        while i < n
            invariant
                i <= n,
                n == s.pages.len(),
                find_page(s.pages@, id) == find_page(s.pages@.skip(i as int), id),
            decreases n - i,
        {
            let hit = match s.pages[i].id {
                Some(x) => x == id,
                None => false,
            };
            proof {
                assert(s.pages@.skip(i as int)[0] == s.pages@[i as int]);
            }
            if hit {
                return Some(s.pages[i].clone());
            }
            proof {
                assert(s.pages@.skip(i + 1) =~= s.pages@.skip(i as int).drop_first());
            }
            i += 1;
        }
        proof {
            assert(s.pages@.skip(n as int).len() == 0);
        }
        None
    }

    /// The page whose title matches case-insensitively, when there is one.
    pub fn get_by_title(s: &Store, title: &str) -> (r: Option<Page>)
        ensures
            r == find_page_lower(s.pages@, lower_of(title@)),
            r is Some <==> title_taken(s.pages@, title@),
    {
        let lt = lowercase(title);
        let n = s.pages.len();
        let mut i: usize = 0;
        proof {
            assert(s.pages@.skip(0) =~= s.pages@);
        }
        while i < n
            invariant
                i <= n,
                n == s.pages.len(),
                lt@ == lower_of(title@),
                find_page_lower(s.pages@, lower_of(title@)) == find_page_lower(
                    s.pages@.skip(i as int),
                    lower_of(title@),
                ),
                forall|k: int|
                    0 <= k < i ==> lower_of((#[trigger] s.pages@[k]).title@) != lower_of(title@),
            decreases n - i,
        {
            let pl = lowercase(s.pages[i].title.as_str());
            proof {
                assert(s.pages@.skip(i as int)[0] == s.pages@[i as int]);
            }
            if pl == lt {
                return Some(s.pages[i].clone());
            }
            proof {
                assert(s.pages@.skip(i + 1) =~= s.pages@.skip(i as int).drop_first());
            }
            i += 1;
        }
        proof {
            assert(s.pages@.skip(n as int).len() == 0);
            if title_taken(s.pages@, title@) {
                let k = choose|k: int|
                    0 <= k < s.pages@.len() && lower_of((#[trigger] s.pages@[k]).title@)
                        == lower_of(title@);
                assert(false);
            }
        }
        None
    }

    /// Whether some page already holds the title (case-insensitively), and
    /// which one.
    fn check_title_exists(s: &Store, title: &str) -> (r: Option<i32>)
        requires
            s.wf(),
        ensures
            r is None <==> !title_taken(s.pages@, title@),
            r is Some ==> exists|k: int|
                0 <= k < s.pages@.len() && lower_of((#[trigger] s.pages@[k]).title@) == lower_of(
                    title@,
                ) && s.pages@[k].id == Some(r->0),
    {
        let lt = lowercase(title);
        let n = s.pages.len();
        let mut i: usize = 0;
        while i < n
            invariant
                i <= n,
                n == s.pages.len(),
                s.wf(),
                lt@ == lower_of(title@),
                forall|k: int|
                    0 <= k < i ==> lower_of((#[trigger] s.pages@[k]).title@) != lower_of(title@),
            decreases n - i,
        {
            let pl = lowercase(s.pages[i].title.as_str());
            if pl == lt {
                let id = match s.pages[i].id {
                    Some(id) => id,
                    None => {
                        proof {
                            assert((#[trigger] s.pages@[i as int]).id is Some);
                            assert(false);
                        }
                        0
                    },
                };
                proof {
                    assert(lower_of((#[trigger] s.pages@[i as int]).title@) == lower_of(title@)
                        && s.pages@[i as int].id == Some(id));
                }
                return Some(id);
            }
            i += 1;
        }
        proof {
            if title_taken(s.pages@, title@) {
                let k = choose|k: int|
                    0 <= k < s.pages@.len() && lower_of((#[trigger] s.pages@[k]).title@)
                        == lower_of(title@);
                assert(false);
            }
        }
        None
    }
}

proof fn lemma_page_wf_after_insert(pre: Store, post: Store, e: Page, now: i64)
    requires
        pre.wf(),
        pre.next_page_id < i32::MAX,
        0 <= now <= crate::time::MAX_TS,
        !title_taken(pre.pages@, e.title@),
        post.pages@ == pre.pages@.push(
            Page {
                id: Some(pre.next_page_id),
                title: e.title,
                content: e.content,
                created_at: now,
                updated_at: now,
            },
        ),
        post.articles@ == pre.articles@,
        row_views(post.tag_rows@) == row_views(pre.tag_rows@),
        post.tag_rows@.len() == pre.tag_rows@.len(),
        post.users@ == pre.users@,
        post.next_article_id == pre.next_article_id,
        post.next_page_id == pre.next_page_id + 1,
    ensures
        post.wf(),
{
    let n = pre.pages@.len();
    assert(crate::store::pages_ok(post.pages@, post.next_page_id)) by {
        assert(forall|i: int| 0 <= i < n ==> post.pages@[i] == #[trigger] pre.pages@[i]);
        assert forall|i: int, j: int|
            0 <= i < j < post.pages@.len() implies lower_of((#[trigger] post.pages@[i]).title@)
            != lower_of((#[trigger] post.pages@[j]).title@) by {
            if j == n {
                if lower_of(pre.pages@[i].title@) == lower_of(e.title@) {
                    assert(title_taken(pre.pages@, e.title@));
                }
            }
        }
    }
    assert(crate::store::lockstep(post.articles@, post.tag_rows@)) by {
        lemma_lockstep_same_rows(pre, post);
    }
}

/// Lockstep carries over when the articles and the row views are unchanged.
proof fn lemma_lockstep_same_rows(pre: Store, post: Store)
    requires
        crate::store::lockstep(pre.articles@, pre.tag_rows@),
        post.articles@ == pre.articles@,
        row_views(post.tag_rows@) == row_views(pre.tag_rows@),
        post.tag_rows@.len() == pre.tag_rows@.len(),
    ensures
        crate::store::lockstep(post.articles@, post.tag_rows@),
{
    assert forall|name: Seq<char>, id: i32| #[trigger]
        row_views(post.tag_rows@).contains((name, id)) <==> #[trigger] crate::store::has_token(
        post.articles@,
        name,
        id,
    ) by {
        assert(row_views(pre.tag_rows@).contains((name, id)) <==> crate::store::has_token(
            pre.articles@,
            name,
            id,
        ));
    }
}

proof fn lemma_page_wf_after_update(pre: Store, post: Store, e: Page, now: i64, pos: int)
    requires
        pre.wf(),
        0 <= now <= crate::time::MAX_TS,
        e.id is Some,
        !title_taken_by_other(pre.pages@, e.title@, e.id->0),
        0 <= pos < pre.pages@.len(),
        pre.pages@[pos].id == e.id,
        post.pages@ == pre.pages@.update(
            pos,
            Page {
                id: e.id,
                title: e.title,
                content: e.content,
                created_at: pre.pages@[pos].created_at,
                updated_at: now,
            },
        ),
        post.articles@ == pre.articles@,
        row_views(post.tag_rows@) == row_views(pre.tag_rows@),
        post.tag_rows@.len() == pre.tag_rows@.len(),
        post.users@ == pre.users@,
        post.next_article_id == pre.next_article_id,
        post.next_page_id == pre.next_page_id,
    ensures
        post.wf(),
{
    let n = pre.pages@.len();
    assert(crate::store::pages_ok(post.pages@, post.next_page_id)) by {
        assert(forall|i: int|
            0 <= i < n && i != pos ==> post.pages@[i] == #[trigger] pre.pages@[i]);
        assert(forall|i: int|
            0 <= i < n ==> (#[trigger] post.pages@[i]).id == pre.pages@[i].id);
        assert forall|i: int, j: int|
            0 <= i < j < post.pages@.len() implies lower_of((#[trigger] post.pages@[i]).title@)
            != lower_of((#[trigger] post.pages@[j]).title@) by {
            if i == pos || j == pos {
                let other: int = if i == pos {
                    j
                } else {
                    i
                };
                assert(post.pages@[other] == pre.pages@[other]);
                assert(pre.pages@[other].id->0 != pre.pages@[pos].id->0);
                if lower_of(pre.pages@[other].title@) == lower_of(e.title@) {
                    assert((#[trigger] pre.pages@[other]).id != Some(e.id->0));
                    assert(title_taken_by_other(pre.pages@, e.title@, e.id->0));
                }
            }
        }
    }
    lemma_lockstep_same_rows(pre, post);
}

proof fn lemma_page_wf_after_delete(pre: Store, post: Store, e: Page)
    requires
        pre.wf(),
        e.id is Some,
        post.pages@ == if page_index(pre.pages@, e.id->0) >= 0 {
            pre.pages@.remove(page_index(pre.pages@, e.id->0))
        } else {
            pre.pages@
        },
        post.articles@ == pre.articles@,
        row_views(post.tag_rows@) == row_views(pre.tag_rows@),
        post.tag_rows@.len() == pre.tag_rows@.len(),
        post.users@ == pre.users@,
        post.next_article_id == pre.next_article_id,
        post.next_page_id == pre.next_page_id,
    ensures
        post.wf(),
{
    let pos = page_index(pre.pages@, e.id->0);
    let n = pre.pages@.len();
    lemma_page_index_props(pre.pages@, e.id->0);
    assert(crate::store::pages_ok(post.pages@, post.next_page_id)) by {
        if pos >= 0 {
            assert(forall|i: int|
                0 <= i < pos ==> post.pages@[i] == #[trigger] pre.pages@[i]);
            assert(forall|i: int|
                pos <= i < n - 1 ==> post.pages@[i] == #[trigger] pre.pages@[i + 1]);
            assert forall|i: int, j: int|
                0 <= i < j < post.pages@.len() implies ((#[trigger] post.pages@[i]).id->0 < (
            #[trigger] post.pages@[j]).id->0 && lower_of(post.pages@[i].title@) != lower_of(
                post.pages@[j].title@,
            )) by {
                let i2: int = if i < pos {
                    i
                } else {
                    i + 1
                };
                let j2: int = if j < pos {
                    j
                } else {
                    j + 1
                };
                assert(post.pages@[i] == pre.pages@[i2]);
                assert(post.pages@[j] == pre.pages@[j2]);
                assert((#[trigger] pre.pages@[i2]).id->0 < (#[trigger] pre.pages@[j2]).id->0);
                assert(lower_of(pre.pages@[i2].title@) != lower_of(pre.pages@[j2].title@));
            }
        }
    }
    lemma_lockstep_same_rows(pre, post);
}

/// A page may keep its own title: when the submitted title collides only
/// with the page being updated itself, there is no conflict, and the
/// update goes through rather than failing with a title conflict.
pub proof fn lemma_update_own_title_ok(s: Store, p: Page, id: i32)
    requires
        s.wf(),
        p.id == Some(id),
        page_index(s.pages@, id) >= 0,
        lower_of(p.title@) == lower_of(s.pages@[page_index(s.pages@, id)].title@),
    ensures
        !title_taken_by_other(s.pages@, p.title@, id),
{
    let pos = page_index(s.pages@, id);
    lemma_page_index_props(s.pages@, id);
    if title_taken_by_other(s.pages@, p.title@, id) {
        let k = choose|k: int|
            0 <= k < s.pages@.len() && lower_of((#[trigger] s.pages@[k]).title@) == lower_of(
                p.title@,
            ) && s.pages@[k].id != Some(id);
        assert(k != pos);
        assert(lower_of(s.pages@[k].title@) == lower_of(s.pages@[pos].title@));
        assert(false);
    }
}

impl Editable for Page {
    open spec fn entity_id(&self) -> Option<i32> {
        self.id
    }

    open spec fn save_pre(&self, store: Store) -> bool {
        &&& store.wf()
        &&& store.next_page_id < i32::MAX
    }

    open spec fn insert_post(pre: Store, post: Store, entity: Self, now: i64, r: Result<
        Self,
        Error,
    >) -> bool {
        if title_taken(pre.pages@, entity.title@) {
            &&& r == Result::<Page, Error>::Err(Error::PageTitleExists(entity.title))
            &&& same_store(pre, post)
        } else {
            let p = Page {
                id: Some(pre.next_page_id),
                title: entity.title,
                content: entity.content,
                created_at: now,
                updated_at: now,
            };
            &&& r == Result::<Page, Error>::Ok(p)
            &&& post.pages@ == pre.pages@.push(p)
            &&& post.articles@ == pre.articles@
            &&& row_views(post.tag_rows@) == row_views(pre.tag_rows@)
            &&& post.users@ == pre.users@
            &&& post.next_article_id == pre.next_article_id
            &&& post.next_page_id == pre.next_page_id + 1
        }
    }

    open spec fn update_post(pre: Store, post: Store, entity: Self, now: i64, r: Result<
        Self,
        Error,
    >) -> bool {
        match entity.id {
            None => r == Result::<Page, Error>::Err(Error::NotFound) && same_store(pre, post),
            Some(id) => {
                if title_taken_by_other(pre.pages@, entity.title@, id) {
                    &&& r == Result::<Page, Error>::Err(Error::PageTitleExists(entity.title))
                    &&& same_store(pre, post)
                } else {
                    let i = page_index(pre.pages@, id);
                    if i >= 0 {
                        let p = Page {
                            id: Some(id),
                            title: entity.title,
                            content: entity.content,
                            created_at: pre.pages@[i].created_at,
                            updated_at: now,
                        };
                        &&& r == Result::<Page, Error>::Ok(p)
                        &&& post.pages@ == pre.pages@.update(i, p)
                        &&& post.articles@ == pre.articles@
                        &&& row_views(post.tag_rows@) == row_views(pre.tag_rows@)
                        &&& post.users@ == pre.users@
                        &&& post.next_article_id == pre.next_article_id
                        &&& post.next_page_id == pre.next_page_id
                    } else {
                        r == Result::<Page, Error>::Err(Error::NotFound) && same_store(pre, post)
                    }
                }
            },
        }
    }

    open spec fn delete_post(pre: Store, post: Store, entity: Self, r: Result<(), Error>) -> bool {
        match entity.id {
            None => r == Result::<(), Error>::Err(Error::NotFound) && same_store(pre, post),
            Some(id) => {
                let i = page_index(pre.pages@, id);
                &&& r == Result::<(), Error>::Ok(())
                &&& post.pages@ == if i >= 0 {
                    pre.pages@.remove(i)
                } else {
                    pre.pages@
                }
                &&& post.articles@ == pre.articles@
                &&& row_views(post.tag_rows@) == row_views(pre.tag_rows@)
                &&& post.users@ == pre.users@
                &&& post.next_article_id == pre.next_article_id
                &&& post.next_page_id == pre.next_page_id
            },
        }
    }

    open spec fn redirect_url_spec(&self) -> Seq<char> {
        "/"@ + lower_of(self.title@)
    }

    open spec fn label_spec(&self) -> Seq<char> {
        let named = match self.id {
            Some(id) => "page"@ + " "@ + crate::text::dec_int(id as int),
            None => "page"@,
        };
        if self.title@.len() > 0 {
            named + " <"@ + self.title@ + ">"@
        } else {
            named
        }
    }

    fn id(&self) -> (r: Option<i32>) {
        self.id
    }

    fn get_redirect_url(&self) -> (r: String) {
        let mut s = String::new();
        s.append("/");
        let lowered = lowercase(self.title.as_str());
        s.append(lowered.as_str());
        proof {
            assert(Seq::<char>::empty() + "/"@ =~= "/"@);
        }
        s
    }

    fn display_label(&self) -> (r: String) {
        let mut s = String::new();
        s.append("page");
        proof {
            assert(Seq::<char>::empty() + "page"@ =~= "page"@);
        }
        if let Some(id) = self.id {
            s.append(" ");
            let digits = crate::text::i32_to_string(id);
            s.append(digits.as_str());
        }
        if !self.title.as_str().is_empty() {
            s.append(" <");
            s.append(self.title.as_str());
            s.append(">");
        }
        proof {
            assert(s@ =~= self.label_spec());
        }
        s
    }

    fn insert(&self, store: &mut Store, now: i64) -> (r: Result<Self, Error>) {
        if Self::check_title_exists(store, self.title.as_str()).is_some() {
            return Err(Error::PageTitleExists(self.title.clone()));
        }
        let id = store.next_page_id;
        let p = Page {
            id: Some(id),
            title: self.title.clone(),
            content: self.content.clone(),
            created_at: now,
            updated_at: now,
        };
        let out = p.clone();
        store.pages.push(p);
        store.next_page_id = id + 1;
        proof {
            lemma_page_wf_after_insert(*old(store), *store, *self, now);
        }
        Ok(out)
    }

    fn update(&self, store: &mut Store, now: i64) -> (r: Result<Self, Error>) {
        let id = match self.id {
            Some(id) => id,
            None => {
                return Err(Error::NotFound);
            },
        };
        // within the same transaction, the title may be kept by this very
        // page but by no other
        match Self::check_title_exists(store, self.title.as_str()) {
            Some(holder) => {
                if holder != id {
                    proof {
                        let k = choose|k: int|
                            0 <= k < store.pages@.len() && lower_of(
                                (#[trigger] store.pages@[k]).title@,
                            ) == lower_of(self.title@) && store.pages@[k].id == Some(holder);
                        assert(store.pages@[k].id != Some(id));
                        assert(title_taken_by_other(store.pages@, self.title@, id));
                    }
                    return Err(Error::PageTitleExists(self.title.clone()));
                }
                proof {
                    // the one page that holds the title is this very page:
                    // another holder would collide with it case-insensitively
                    if title_taken_by_other(store.pages@, self.title@, id) {
                        let k = choose|k: int|
                            0 <= k < store.pages@.len() && lower_of(
                                (#[trigger] store.pages@[k]).title@,
                            ) == lower_of(self.title@) && store.pages@[k].id != Some(id);
                        let k2 = choose|k2: int|
                            0 <= k2 < store.pages@.len() && lower_of(
                                (#[trigger] store.pages@[k2]).title@,
                            ) == lower_of(self.title@) && store.pages@[k2].id == Some(holder);
                        assert(k != k2);
                        assert(false);
                    }
                }
            },
            None => {
                proof {
                    if title_taken_by_other(store.pages@, self.title@, id) {
                        let k = choose|k: int|
                            0 <= k < store.pages@.len() && lower_of(
                                (#[trigger] store.pages@[k]).title@,
                            ) == lower_of(self.title@) && store.pages@[k].id != Some(id);
                        assert(title_taken(store.pages@, self.title@));
                        assert(false);
                    }
                }
            },
        }
        let pos = match Self::find_position(store, id) {
            Some(pos) => pos,
            None => {
                return Err(Error::NotFound);
            },
        };
        let prior = store.pages.remove(pos);
        let p = Page {
            id: Some(id),
            title: self.title.clone(),
            content: self.content.clone(),
            created_at: prior.created_at,
            updated_at: now,
        };
        let out = p.clone();
        store.pages.insert(pos, p);
        proof {
            assert(store.pages@ =~= old(store).pages@.update(pos as int, out));
            lemma_page_wf_after_update(*old(store), *store, *self, now, pos as int);
        }
        Ok(out)
    }

    fn delete(&self, store: &mut Store) -> (r: Result<(), Error>) {
        let id = match self.id {
            Some(id) => id,
            None => {
                return Err(Error::NotFound);
            },
        };
        if let Some(pos) = Self::find_position(store, id) {
            let _removed = store.pages.remove(pos);
        }
        proof {
            lemma_page_wf_after_delete(*old(store), *store, *self);
        }
        Ok(())
    }
}

impl Page {
    /// Where in the store the page with this identifier sits.
    fn find_position(s: &Store, id: i32) -> (r: Option<usize>)
        ensures
            r is Some ==> r->0 < s.pages@.len() && page_index(s.pages@, id) == r->0 as int
                && s.pages@[r->0 as int].id == Some(id),
            r is None ==> page_index(s.pages@, id) == -1,
    {
        let n = s.pages.len();
        let mut i: usize = 0;
        while i < n
            invariant
                i <= n,
                n == s.pages.len(),
                forall|k: int| 0 <= k < i ==> (#[trigger] s.pages@[k]).id != Some(id),
            decreases n - i,
        {
            let hit = match s.pages[i].id {
                Some(x) => x == id,
                None => false,
            };
            if hit {
                proof {
                    lemma_page_index_first(s.pages@, id, i as int);
                }
                return Some(i);
            }
            i += 1;
        }
        proof {
            lemma_page_index_first(s.pages@, id, n as int);
        }
        None
    }
}

proof fn lemma_page_index_first(pages: Seq<Page>, id: i32, m: int)
    requires
        0 <= m <= pages.len(),
        forall|k: int| 0 <= k < m ==> (#[trigger] pages[k]).id != Some(id),
        m < pages.len() ==> pages[m].id == Some(id),
    ensures
        m < pages.len() ==> page_index(pages, id) == m,
        m == pages.len() ==> page_index(pages, id) == -1,
    decreases pages.len(),
{
    if pages.len() > 0 {
        if m == 0 {
            assert(pages[0].id == Some(id));
        } else {
            assert(pages[0].id != Some(id));
            assert(forall|k: int|
                0 <= k < m - 1 ==> (#[trigger] pages.drop_first()[k]) == pages[k + 1]);
            if m - 1 < pages.drop_first().len() {
                assert(pages.drop_first()[m - 1] == pages[m]);
            }
            lemma_page_index_first(pages.drop_first(), id, m - 1);
        }
    }
}

} // verus!
