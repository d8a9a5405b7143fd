//! Articles: the blog's dated, tagged entries, and the tag listing drawn
//! from their association rows.

use vstd::prelude::*;

use crate::error::Error;
use crate::store::row_views;
use crate::store::same_store;
use crate::store::token_rows;
use crate::store::TagRow;
use crate::store::Store;
use crate::tags::tag_tokens;
use crate::text::dec_int;
use crate::utils::Editable;

verus! {

/// A blog article; the identifier is absent until the row is persisted.
/// The `tags` string is the denormalized source of truth for the article's
/// tag association rows.
pub struct Article {
    pub id: Option<i32>,
    pub title: String,
    pub content: String,
    pub tags: String,
    pub created_at: i64,
    pub updated_at: i64,
}

impl Clone for Article {
    fn clone(&self) -> (r: Self)
        ensures
            r == *self,
    {
        Article {
            id: self.id,
            title: self.title.clone(),
            content: self.content.clone(),
            tags: self.tags.clone(),
            created_at: self.created_at,
            updated_at: self.updated_at,
        }
    }
}

/// A tag name together with how many association rows carry it.
pub struct Tags {
    pub name: String,
    pub num: i32,
}

impl Clone for Tags {
    fn clone(&self) -> (r: Self)
        ensures
            r == *self,
    {
        Tags { name: self.name.clone(), num: self.num }
    }
}

/// The first article carrying the identifier, scanning oldest first.
pub open spec fn find_article(arts: Seq<Article>, id: i32) -> Option<Article>
    decreases arts.len(),
{
    if arts.len() == 0 {
        None
    } else if arts[0].id == Some(id) {
        Some(arts[0])
    } else {
        find_article(arts.drop_first(), id)
    }
}

/// The position of the article carrying the identifier, or -1.
pub open spec fn article_index(arts: Seq<Article>, id: i32) -> int
    decreases arts.len(),
{
    if arts.len() == 0 {
        -1
    } else if arts[0].id == Some(id) {
        0
    } else {
        let r = article_index(arts.drop_first(), id);
        if r == -1 {
            -1
        } else {
            1 + r
        }
    }
}

/// Ties `article_index` to a scan: once the prefix below `m` holds no
/// match, the index is `m` on a hit and -1 when the whole list misses.
pub proof fn lemma_article_index_first(arts: Seq<Article>, id: i32, m: int)
    requires
        0 <= m <= arts.len(),
        forall|k: int| 0 <= k < m ==> (#[trigger] arts[k]).id != Some(id),
        m < arts.len() ==> arts[m].id == Some(id),
    ensures
        m < arts.len() ==> article_index(arts, id) == m && find_article(arts, id) == Some(
            arts[m],
        ),
        m == arts.len() ==> article_index(arts, id) == -1 && find_article(arts, id) is None,
    decreases arts.len(),
{
    if arts.len() > 0 {
        if m == 0 {
            assert(arts[0].id == Some(id));
        } else {
            assert(arts[0].id != Some(id));
            assert(forall|k: int|
                0 <= k < m - 1 ==> (#[trigger] arts.drop_first()[k]) == arts[k + 1]);
            if m - 1 < arts.drop_first().len() {
                assert(arts.drop_first()[m - 1] == arts[m]);
            }
            lemma_article_index_first(arts.drop_first(), id, m - 1);
        }
    }
}

/// Holds the given tag among its tag tokens.
pub open spec fn with_tag(tag: Seq<char>) -> spec_fn(Article) -> bool {
    |a: Article| tag_tokens(a.tags@).contains(tag)
}

/// The slice of `all` a 1-based page shows, `per` entries to the page.
pub open spec fn page_slice(all: Seq<Article>, page: nat, per: nat) -> Seq<Article> {
    let off = (page - 1) * per;
    if off >= all.len() {
        Seq::empty()
    } else if off + per >= all.len() {
        all.subrange(off as int, all.len() as int)
    } else {
        all.subrange(off as int, (off + per) as int)
    }
}

impl Article {
    /// Every article, newest first.
    pub fn get_all(s: &Store) -> (v: Vec<Article>)
        ensures
            v@ == s.articles@.reverse(),
    {
        let n = s.articles.len();
        let mut v: Vec<Article> = Vec::new();
        let mut i: usize = n;
        proof {
            assert(v@ =~= s.articles@.skip(n as int).reverse());
        }
        while i > 0
            invariant
                i <= n,
                n == s.articles.len(),
                v@ == s.articles@.skip(i as int).reverse(),
            decreases i,
        {
            i -= 1;
            v.push(s.articles[i].clone());
            proof {
                assert(v@ =~= s.articles@.skip(i as int).reverse());
            }
        }
        proof {
            assert(s.articles@.skip(0) =~= s.articles@);
        }
        v
    }

    /// The articles shown on a 1-based page, newest first.
    pub fn get_on_page(s: &Store, page: u32, article_per_page: u32) -> (v: Vec<Article>)
        requires
            page >= 1,
        ensures
            v@ == page_slice(s.articles@.reverse(), page as nat, article_per_page as nat),
    {
        let all = Self::get_all(s);
        let n = all.len();
        let pm1: u64 = page as u64 - 1;
        let per64: u64 = article_per_page as u64;
        proof {
            assert(pm1 * per64 <= 0xffff_ffffu64 * 0xffff_ffffu64) by (nonlinear_arith)
                requires
                    pm1 <= 0xffff_ffffu64,
                    per64 <= 0xffff_ffffu64,
            ;
        }
        let off64: u64 = pm1 * per64;
        let ghost allv = s.articles@.reverse();
        if off64 >= n as u64 {
            let v: Vec<Article> = Vec::new();
            proof {
                assert(v@ =~= page_slice(allv, page as nat, article_per_page as nat));
            }
            return v;
        }
        let off: usize = off64 as usize;
        let end: usize = if n - off < article_per_page as usize {
            n
        } else {
            off + article_per_page as usize
        };
        let mut v: Vec<Article> = Vec::new();
        let mut k: usize = off;
        proof {
            assert(v@ =~= allv.subrange(off as int, off as int));
        }
        while k < end
            invariant
                off <= k <= end <= n,
                n == all.len(),
                all@ == allv,
                v@ == allv.subrange(off as int, k as int),
            decreases end - k,
        {
            v.push(all[k].clone());
            proof {
                assert(allv.subrange(off as int, k + 1) =~= allv.subrange(
                    off as int,
                    k as int,
                ).push(allv[k as int]));
            }
            k += 1;
        }
        proof {
            assert(v@ =~= page_slice(allv, page as nat, article_per_page as nat));
        }
        v
    }

    /// How many articles the store holds.
    pub fn get_total_count(s: &Store) -> (n: i32)
        requires
            s.wf(),
        ensures
            n as int == s.articles@.len(),
    {
        proof {
            assert(s.articles@.len() < i32::MAX);
        }
        s.articles.len() as i32
    }

    /// The article with the identifier, when there is one.
    pub fn get_by_id(s: &Store, id: i32) -> (r: Option<Article>)
        ensures
            r == find_article(s.articles@, id),
    {
        let n = s.articles.len();
        let mut i: usize = 0;
        proof {
            assert(s.articles@.skip(0) =~= s.articles@);
        }
        while i < n
            invariant
                i <= n,
                n == s.articles.len(),
                find_article(s.articles@, id) == find_article(s.articles@.skip(i as int), id),
            decreases n - i,
        {
            let matches_id = match s.articles[i].id {
                Some(x) => x == id,
                None => false,
            };
            proof {
                assert(s.articles@.skip(i as int)[0] == s.articles@[i as int]);
            }
            if matches_id {
                return Some(s.articles[i].clone());
            }
            proof {
                assert(s.articles@.skip(i + 1) =~= s.articles@.skip(i as int).drop_first());
            }
            i += 1;
        }
        proof {
            assert(s.articles@.skip(n as int).len() == 0);
        }
        None
    }

    /// The articles whose tag list holds the given tag, newest first; the
    /// lookup goes through the association rows, which the store keeps in
    /// lockstep with the articles' tag strings.
    pub fn get_by_tag(s: &Store, tag: &str) -> (v: Vec<Article>)
        requires
            s.wf(),
        ensures
            v@ == s.articles@.reverse().filter(with_tag(tag@)),
    {
        let tag_string = tag.to_owned();
        let all = Self::get_all(s);
        let ghost allv = s.articles@.reverse();
        let ghost pred = with_tag(tag@);
        let mut v: Vec<Article> = Vec::new();
        let mut i: usize = 0;
        proof {
            assert(allv.take(0) =~= Seq::<Article>::empty());
            reveal_with_fuel(Seq::filter, 1);
            assert(v@ =~= allv.take(0).filter(pred));
        }
        while i < all.len()
            invariant
                i <= all.len(),
                all@ == allv,
                allv == s.articles@.reverse(),
                tag_string@ == tag@,
                s.wf(),
                v@ == allv.take(i as int).filter(pred),
                pred == with_tag(tag@),
            decreases all.len() - i,
        {
            let a = &all[i];
            let matched = match a.id {
                Some(aid) => s.has_row(&tag_string, aid),
                None => false,
            };
            proof {
                // the row lookup answers exactly the token-membership question
                let aidx = s.articles@.len() - 1 - i as int;
                assert(allv[i as int] == s.articles@[aidx]);
                assert(s.articles@[aidx].id is Some);
                let aid = s.articles@[aidx].id->0;
                if s.has_tag_row(tag@, aid) {
                    assert(s.has_article_token(tag@, aid));
                    let k = choose|k: int|
                        0 <= k < s.articles@.len() && (#[trigger] s.articles@[k]).id == Some(aid)
                            && tag_tokens(s.articles@[k].tags@).contains(tag@);
                    if k != aidx {
                        assert(false);
                    }
                }
                if tag_tokens(s.articles@[aidx].tags@).contains(tag@) {
                    assert((#[trigger] s.articles@[aidx]).id == Some(aid) && tag_tokens(
                        s.articles@[aidx].tags@,
                    ).contains(tag@));
                    assert(s.has_article_token(tag@, aid));
                    assert(s.has_tag_row(tag@, aid));
                }
                assert(matched == pred(allv[i as int]));
                assert(allv.take(i + 1).drop_last() =~= allv.take(i as int));
                reveal_with_fuel(Seq::filter, 2);
                assert(allv.take(i + 1).filter(pred) == if pred(allv[i as int]) {
                    allv.take(i as int).filter(pred).push(allv[i as int])
                } else {
                    allv.take(i as int).filter(pred)
                });
            }
            if matched {
                v.push(a.clone());
            }
            i += 1;
        }
        proof {
            assert(allv.take(allv.len() as int) =~= allv);
        }
        v
    }

    /// The latest `updated_at` across all articles, absent when there are
    /// none.
    pub fn get_latest_updated(s: &Store) -> (r: Option<i64>)
        ensures
            r is None <==> s.articles@.len() == 0,
            r is Some ==> (exists|k: int|
                0 <= k < s.articles@.len() && (#[trigger] s.articles@[k]).updated_at == r->0)
                && (forall|k: int|
                0 <= k < s.articles@.len() ==> (#[trigger] s.articles@[k]).updated_at <= r->0),
    {
        let n = s.articles.len();
        if n == 0 {
            return None;
        }
        let mut m: i64 = s.articles[0].updated_at;
        let mut i: usize = 1;
        while i < n
            invariant
                1 <= i <= n,
                n == s.articles.len(),
                exists|k: int|
                    0 <= k < i && (#[trigger] s.articles@[k]).updated_at == m,
                forall|k: int| 0 <= k < i ==> (#[trigger] s.articles@[k]).updated_at <= m,
            decreases n - i,
        {
            if s.articles[i].updated_at > m {
                m = s.articles[i].updated_at;
                proof {
                    assert(s.articles@[i as int].updated_at == m);
                }
            }
            i += 1;
        }
        Some(m)
    }
}

impl Article {
    /// The submitted form as a draft article: the title trimmed, the tag
    /// list normalized, missing fields defaulted to empty, timestamps left
    /// for the store to assign.
    pub fn from_form(form: crate::utils::EditorForm) -> (a: Article)
        ensures
            a.id == form.id,
            a.title@ == crate::text::trimmed(
                match form.title {
                    Some(t) => t@,
                    None => Seq::<char>::empty(),
                },
            ),
            a.tags@ == crate::tags::normalized_tags(
                match form.tags {
                    Some(t) => t@,
                    None => Seq::<char>::empty(),
                },
            ),
            a.content@ == match form.content {
                Some(c) => c@,
                None => Seq::<char>::empty(),
            },
            a.created_at == 0 && a.updated_at == 0,
    {
        let title_raw = match form.title {
            Some(t) => t,
            None => String::new(),
        };
        let t_chars = crate::text::chars_of(title_raw.as_str());
        let t_trim = crate::text::trim_chars(&t_chars);
        let title = crate::text::chars_to_string(&t_trim);
        let tags_raw = match form.tags {
            Some(t) => t,
            None => String::new(),
        };
        let tags = crate::utils::sort_out_tags(tags_raw.as_str());
        let content = match form.content {
            Some(c) => c,
            None => String::new(),
        };
        Article { id: form.id, title, content, tags, created_at: 0, updated_at: 0 }
    }

    /// Where in the store the article with this identifier sits.
    fn find_position(s: &Store, id: i32) -> (r: Option<usize>)
        ensures
            r is Some ==> r->0 < s.articles@.len() && article_index(s.articles@, id)
                == r->0 as int && s.articles@[r->0 as int].id == Some(id),
            r is None ==> article_index(s.articles@, id) == -1,
            find_article(s.articles@, id) == if r is Some {
                Some(s.articles@[r->0 as int])
            } else {
                None::<Article>
            },
    {
        let n = s.articles.len();
        let mut i: usize = 0;
        while i < n
            invariant
                i <= n,
                n == s.articles.len(),
                forall|k: int| 0 <= k < i ==> (#[trigger] s.articles@[k]).id != Some(id),
            decreases n - i,
        {
            let hit = match s.articles[i].id {
                Some(x) => x == id,
                None => false,
            };
            if hit {
                proof {
                    lemma_article_index_first(s.articles@, id, i as int);
                }
                return Some(i);
            }
            i += 1;
        }
        proof {
            lemma_article_index_first(s.articles@, id, n as int);
        }
        None
    }
}

proof fn lemma_article_wf_after_insert(pre: Store, post: Store, e: Article, now: i64)
    requires
        e.save_pre(pre),
        0 <= now <= crate::time::MAX_TS,
        post.articles@ == pre.articles@.push(
            Article {
                id: Some(pre.next_article_id),
                title: e.title,
                content: e.content,
                tags: e.tags,
                created_at: now,
                updated_at: now,
            },
        ),
        row_views(post.tag_rows@) == row_views(pre.tag_rows@) + token_rows(
            e.tags@,
            pre.next_article_id,
        ),
        post.tag_rows@.len() == pre.tag_rows@.len() + tag_tokens(e.tags@).len(),
        post.pages@ == pre.pages@,
        post.users@ == pre.users@,
        post.next_article_id == pre.next_article_id + 1,
        post.next_page_id == pre.next_page_id,
    ensures
        post.wf(),
{
    let aid = pre.next_article_id;
    let a = post.articles@.last();
    let n = pre.articles@.len();
    assert(crate::store::articles_ok(post.articles@, post.next_article_id)) by {
        assert(forall|i: int|
            0 <= i < n ==> post.articles@[i] == #[trigger] pre.articles@[i]);
        assert(post.articles@[n as int] == a);
    }
    let pv = row_views(pre.tag_rows@);
    let tr = token_rows(e.tags@, aid);
    let v = row_views(post.tag_rows@);
    assert forall|name: Seq<char>, id2: i32| #[trigger]
        row_views(post.tag_rows@).contains((name, id2)) <==> #[trigger] crate::store::has_token(
        post.articles@,
        name,
        id2,
    ) by {
        if v.contains((name, id2)) {
            let k = choose|k: int| 0 <= k < v.len() && v[k] == (name, id2);
            if k < pv.len() {
                assert(v[k] == pv[k]);
                assert(pv.contains((name, id2)));
                assert(crate::store::has_token(pre.articles@, name, id2));
                let m = choose|m: int|
                    0 <= m < pre.articles@.len() && (#[trigger] pre.articles@[m]).id == Some(id2)
                        && tag_tokens(pre.articles@[m].tags@).contains(name);
                assert((#[trigger] post.articles@[m]).id == Some(id2) && tag_tokens(
                    post.articles@[m].tags@,
                ).contains(name));
            } else {
                assert(v[k] == tr[k - pv.len()]);
                assert(tr[k - pv.len()] == (tag_tokens(e.tags@)[k - pv.len()], aid));
                assert(id2 == aid);
                assert(tag_tokens(e.tags@).contains(name)) by {
                    assert(tag_tokens(e.tags@)[k - pv.len()] == name);
                }
                assert((#[trigger] post.articles@[n as int]).id == Some(aid) && tag_tokens(
                    post.articles@[n as int].tags@,
                ).contains(name));
            }
        }
        if crate::store::has_token(post.articles@, name, id2) {
            let m = choose|m: int|
                0 <= m < post.articles@.len() && (#[trigger] post.articles@[m]).id == Some(id2)
                    && tag_tokens(post.articles@[m].tags@).contains(name);
            if m < n {
                assert(post.articles@[m] == pre.articles@[m]);
                assert((#[trigger] pre.articles@[m]).id == Some(id2) && tag_tokens(
                    pre.articles@[m].tags@,
                ).contains(name));
                assert(crate::store::has_token(pre.articles@, name, id2));
                assert(pv.contains((name, id2)));
                let k = choose|k: int| 0 <= k < pv.len() && pv[k] == (name, id2);
                assert(v[k] == pv[k]);
                assert(v.contains((name, id2)));
            } else {
                assert(post.articles@[m] == a);
                assert(id2 == aid);
                assert(tag_tokens(e.tags@).contains(name));
                let j = choose|j: int|
                    0 <= j < tag_tokens(e.tags@).len() && tag_tokens(e.tags@)[j] == name;
                assert(tr[j] == (name, aid));
                assert(v[pv.len() + j] == tr[j]);
                assert(v.contains((name, id2)));
            }
        }
    }
    assert(crate::store::lockstep(post.articles@, post.tag_rows@));
}

proof fn lemma_article_wf_after_update(pre: Store, post: Store, e: Article, now: i64, pos: int)
    requires
        e.save_pre(pre),
        0 <= now <= crate::time::MAX_TS,
        e.id is Some,
        pos == article_index(pre.articles@, e.id->0),
        0 <= pos < pre.articles@.len(),
        pre.articles@[pos].id == e.id,
        post.articles@ == pre.articles@.update(
            pos,
            Article {
                id: e.id,
                title: e.title,
                content: e.content,
                tags: e.tags,
                created_at: pre.articles@[pos].created_at,
                updated_at: now,
            },
        ),
        row_views(post.tag_rows@) == row_views(pre.tag_rows@).filter(
            crate::store::other_rows(e.id->0),
        ) + token_rows(e.tags@, e.id->0),
        post.tag_rows@.len() <= pre.tag_rows@.len() + tag_tokens(e.tags@).len(),
        post.pages@ == pre.pages@,
        post.users@ == pre.users@,
        post.next_article_id == pre.next_article_id,
        post.next_page_id == pre.next_page_id,
    ensures
        post.wf(),
{
    let aid = e.id->0;
    let a = post.articles@[pos];
    let n = pre.articles@.len();
    assert(crate::store::articles_ok(post.articles@, post.next_article_id)) by {
        assert(forall|i: int|
            0 <= i < n && i != pos ==> post.articles@[i] == #[trigger] pre.articles@[i]);
        assert(post.articles@[pos].id == pre.articles@[pos].id);
        assert(forall|i: int|
            0 <= i < n ==> (#[trigger] post.articles@[i]).id == pre.articles@[i].id);
    }
    let fpred = crate::store::other_rows(aid);
    let kept = row_views(pre.tag_rows@).filter(fpred);
    let tr = token_rows(e.tags@, aid);
    let v = row_views(post.tag_rows@);
    broadcast use vstd::seq_lib::group_filter_ensures;

    assert forall|name: Seq<char>, id2: i32| #[trigger]
        row_views(post.tag_rows@).contains((name, id2)) <==> #[trigger] crate::store::has_token(
        post.articles@,
        name,
        id2,
    ) by {
        if v.contains((name, id2)) {
            let k = choose|k: int| 0 <= k < v.len() && v[k] == (name, id2);
            if k < kept.len() {
                assert(v[k] == kept[k]);
                assert(fpred(kept[k]));
                assert(id2 != aid);
                assert(row_views(pre.tag_rows@).contains((name, id2))) by {
                    assert(kept.contains((name, id2)));
                    row_views(pre.tag_rows@).lemma_filter_contains_rev(fpred, (name, id2));
                }
                assert(crate::store::has_token(pre.articles@, name, id2));
                let m = choose|m: int|
                    0 <= m < pre.articles@.len() && (#[trigger] pre.articles@[m]).id == Some(id2)
                        && tag_tokens(pre.articles@[m].tags@).contains(name);
                assert(m != pos);
                assert((#[trigger] post.articles@[m]).id == Some(id2) && tag_tokens(
                    post.articles@[m].tags@,
                ).contains(name));
            } else {
                assert(v[k] == tr[k - kept.len()]);
                assert(id2 == aid);
                assert(tag_tokens(e.tags@).contains(name)) by {
                    assert(tag_tokens(e.tags@)[k - kept.len()] == name);
                }
                assert((#[trigger] post.articles@[pos]).id == Some(aid) && tag_tokens(
                    post.articles@[pos].tags@,
                ).contains(name));
            }
        }
        if crate::store::has_token(post.articles@, name, id2) {
            let m = choose|m: int|
                0 <= m < post.articles@.len() && (#[trigger] post.articles@[m]).id == Some(id2)
                    && tag_tokens(post.articles@[m].tags@).contains(name);
            if m != pos {
                assert(post.articles@[m] == pre.articles@[m]);
                assert(id2 != aid) by {
                    assert((#[trigger] pre.articles@[m]).id->0 != pre.articles@[pos].id->0);
                }
                assert((#[trigger] pre.articles@[m]).id == Some(id2) && tag_tokens(
                    pre.articles@[m].tags@,
                ).contains(name));
                assert(crate::store::has_token(pre.articles@, name, id2));
                assert(row_views(pre.tag_rows@).contains((name, id2)));
                let k = choose|k: int|
                    0 <= k < row_views(pre.tag_rows@).len() && row_views(pre.tag_rows@)[k] == (
                    name,
                    id2,
                );
                assert(kept.contains((name, id2))) by {
                    row_views(pre.tag_rows@).lemma_filter_contains(fpred, k);
                }
                let k2 = choose|k2: int| 0 <= k2 < kept.len() && kept[k2] == (name, id2);
                assert(v[k2] == kept[k2]);
                assert(v.contains((name, id2)));
            } else {
                assert(id2 == aid);
                assert(tag_tokens(e.tags@).contains(name));
                let j = choose|j: int|
                    0 <= j < tag_tokens(e.tags@).len() && tag_tokens(e.tags@)[j] == name;
                assert(tr[j] == (name, aid));
                assert(v[kept.len() + j] == tr[j]);
                assert(v.contains((name, id2)));
            }
        }
    }
    assert(post.tag_rows@.len() < i32::MAX);
    assert(crate::store::lockstep(post.articles@, post.tag_rows@));
}

#[verifier::rlimit(60)]
proof fn lemma_article_wf_after_delete(pre: Store, post: Store, e: Article)
    requires
        pre.wf(),
        e.id is Some,
        post.articles@ == if article_index(pre.articles@, e.id->0) >= 0 {
            pre.articles@.remove(article_index(pre.articles@, e.id->0))
        } else {
            pre.articles@
        },
        row_views(post.tag_rows@) == row_views(pre.tag_rows@).filter(
            crate::store::other_rows(e.id->0),
        ),
        post.tag_rows@.len() <= pre.tag_rows@.len(),
        post.pages@ == pre.pages@,
        post.users@ == pre.users@,
        post.next_article_id == pre.next_article_id,
        post.next_page_id == pre.next_page_id,
    ensures
        post.wf(),
{
    let aid = e.id->0;
    let pos = article_index(pre.articles@, aid);
    let n = pre.articles@.len();
    broadcast use vstd::seq_lib::group_filter_ensures;

    if pos >= 0 {
        lemma_article_index_props(pre.articles@, aid);
    } else {
        lemma_article_index_props(pre.articles@, aid);
    }
    assert(crate::store::articles_ok(post.articles@, post.next_article_id)) by {
        if pos >= 0 {
            assert(forall|i: int|
                0 <= i < pos ==> post.articles@[i] == #[trigger] pre.articles@[i]);
            assert(forall|i: int|
                pos <= i < n - 1 ==> post.articles@[i] == #[trigger] pre.articles@[i + 1]);
            assert forall|i: int, j: int|
                0 <= i < j < post.articles@.len() implies (#[trigger] post.articles@[i]).id->0 < (
            #[trigger] post.articles@[j]).id->0 by {
                let i2: int = if i < pos {
                    i
                } else {
                    i + 1
                };
                let j2: int = if j < pos {
                    j
                } else {
                    j + 1
                };
                assert(post.articles@[i] == pre.articles@[i2]);
                assert(post.articles@[j] == pre.articles@[j2]);
                assert((#[trigger] pre.articles@[i2]).id->0 < (#[trigger] pre.articles@[j2]).id
                    ->0);
            }
        }
    }
    let fpred = crate::store::other_rows(aid);
    let v = row_views(post.tag_rows@);
    let pv = row_views(pre.tag_rows@);
    assert forall|name: Seq<char>, id2: i32| #[trigger]
        row_views(post.tag_rows@).contains((name, id2)) <==> #[trigger] crate::store::has_token(
        post.articles@,
        name,
        id2,
    ) by {
        if v.contains((name, id2)) {
            let k = choose|k: int| 0 <= k < v.len() && v[k] == (name, id2);
            assert(fpred(v[k]));
            assert(id2 != aid);
            assert(pv.contains((name, id2))) by {
                pv.lemma_filter_contains_rev(fpred, (name, id2));
            }
            assert(crate::store::has_token(pre.articles@, name, id2));
            let m = choose|m: int|
                0 <= m < pre.articles@.len() && (#[trigger] pre.articles@[m]).id == Some(id2)
                    && tag_tokens(pre.articles@[m].tags@).contains(name);
            if pos >= 0 {
                assert(m != pos);
                let m2: int = if m < pos {
                    m
                } else {
                    m - 1
                };
                assert(post.articles@[m2] == pre.articles@[m]);
                assert((#[trigger] post.articles@[m2]).id == Some(id2) && tag_tokens(
                    post.articles@[m2].tags@,
                ).contains(name));
            } else {
                assert((#[trigger] post.articles@[m]).id == Some(id2) && tag_tokens(
                    post.articles@[m].tags@,
                ).contains(name));
            }
        }
        if crate::store::has_token(post.articles@, name, id2) {
            let m = choose|m: int|
                0 <= m < post.articles@.len() && (#[trigger] post.articles@[m]).id == Some(id2)
                    && tag_tokens(post.articles@[m].tags@).contains(name);
            let m2: int = if pos >= 0 && m >= pos {
                m + 1
            } else {
                m
            };
            assert(post.articles@[m] == pre.articles@[m2]);
            assert((#[trigger] pre.articles@[m2]).id == Some(id2) && tag_tokens(
                pre.articles@[m2].tags@,
            ).contains(name));
            assert(crate::store::has_token(pre.articles@, name, id2));
            assert(pv.contains((name, id2)));
            assert(id2 != aid) by {
                if pos >= 0 {
                    assert(m2 != pos);
                    assert(pre.articles@[m2].id->0 != pre.articles@[pos].id->0);
                } else {
                    // no article carries the deleted identifier at all
                    if id2 == aid {
                        lemma_article_index_props(pre.articles@, aid);
                        assert(pre.articles@[m2].id != Some(aid));
                    }
                }
            }
            let k = choose|k: int| 0 <= k < pv.len() && pv[k] == (name, id2);
            pv.lemma_filter_contains(fpred, k);
            assert(v.contains((name, id2)));
        }
    }
    assert(crate::store::lockstep(post.articles@, post.tag_rows@));
}

/// When the index is -1 no article carries the identifier; otherwise the
/// indexed article does, and no earlier one.
pub proof fn lemma_article_index_props(arts: Seq<Article>, id: i32)
    ensures
        article_index(arts, id) >= -1,
        article_index(arts, id) == -1 ==> forall|k: int|
            0 <= k < arts.len() ==> (#[trigger] arts[k]).id != Some(id),
        article_index(arts, id) >= 0 ==> article_index(arts, id) < arts.len() && arts[article_index(
            arts,
            id,
        )].id == Some(id),
    decreases arts.len(),
{
    if arts.len() > 0 && arts[0].id != Some(id) {
        lemma_article_index_props(arts.drop_first(), id);
        if article_index(arts, id) == -1 {
            assert(article_index(arts.drop_first(), id) == -1);
            assert forall|k: int|
                0 <= k < arts.len() implies (#[trigger] arts[k]).id != Some(id) by {
                if k > 0 {
                    assert(arts.drop_first()[k - 1] == arts[k]);
                    assert((#[trigger] arts.drop_first()[k - 1]).id != Some(id));
                }
            }
        } else {
            let r = article_index(arts.drop_first(), id);
            assert(r >= 0);
            assert(r < arts.drop_first().len());
            assert(arts.drop_first()[r] == arts[1 + r]);
        }
    }
}

/// Keeps the association rows that carry the given tag name.
pub open spec fn rows_named(name: Seq<char>) -> spec_fn((Seq<char>, i32)) -> bool {
    |p: (Seq<char>, i32)| p.0 == name
}

/// How many association rows carry the name.
pub open spec fn tag_count(rows: Seq<(Seq<char>, i32)>, name: Seq<char>) -> int {
    rows.filter(rows_named(name)).len() as int
}

proof fn lemma_filter_none(rows: Seq<(Seq<char>, i32)>, pred: spec_fn((Seq<char>, i32)) -> bool)
    requires
        forall|t: int| 0 <= t < rows.len() ==> !pred(#[trigger] rows[t]),
    ensures
        rows.filter(pred).len() == 0,
    decreases rows.len(),
{
    reveal_with_fuel(Seq::filter, 2);
    if rows.len() > 0 {
        assert(forall|t: int|
            0 <= t < rows.drop_last().len() ==> rows.drop_last()[t] == #[trigger] rows[t]);
        lemma_filter_none(rows.drop_last(), pred);
    }
}

/// Every row's tag name appears in the listing.
pub open spec fn names_cover(rows: Seq<(Seq<char>, i32)>, listing: Seq<Tags>) -> bool {
    forall|k: int|
        0 <= k < rows.len() ==> exists|m: int|
            0 <= m < listing.len() && (#[trigger] listing[m]).name@ == (#[trigger] rows[k]).0
}

/// Every name of the first listing appears in the second.
pub open spec fn listing_covers(a: Seq<Tags>, b: Seq<Tags>) -> bool {
    forall|k: int|
        0 <= k < a.len() ==> exists|m: int|
            0 <= m < b.len() && (#[trigger] b[m]).name@ == (#[trigger] a[k]).name@
}

/// How many rows carry the given name, by a straight scan.
fn count_name(rows: &Vec<TagRow>, name: &String) -> (c: usize)
    ensures
        c as int == tag_count(row_views(rows@), name@),
{
    let ghost rv = row_views(rows@);
    let ghost pred = rows_named(name@);
    let n = rows.len();
    let mut c: usize = 0;
    let mut i: usize = 0;
    proof {
        assert(rv.take(0) =~= Seq::<(Seq<char>, i32)>::empty());
        reveal_with_fuel(Seq::filter, 1);
    }
    while i < n
        invariant
            i <= n,
            n == rows.len(),
            rv == row_views(rows@),
            pred == rows_named(name@),
            c <= i,
            c as int == rv.take(i as int).filter(pred).len(),
        decreases n - i,
    {
        proof {
            assert(rv[i as int] == (rows@[i as int].name@, rows@[i as int].article_id));
            assert(rv.take(i + 1).drop_last() =~= rv.take(i as int));
            reveal_with_fuel(Seq::filter, 2);
            assert(rv.take(i + 1).filter(pred) == if pred(rv[i as int]) {
                rv.take(i as int).filter(pred).push(rv[i as int])
            } else {
                rv.take(i as int).filter(pred)
            });
        }
        if rows[i].name == *name {
            c += 1;
        }
        i += 1;
    }
    proof {
        assert(rv.take(n as int) =~= rv);
    }
    c
}

/// Counts how many association rows carry each name, one entry per name.
fn count_tags(rows: &Vec<TagRow>) -> (acc: Vec<Tags>)
    requires
        row_views(rows@).len() < i32::MAX,
    ensures
        forall|a: int, b: int|
            0 <= a < b < acc@.len() ==> (#[trigger] acc@[a]).name@ != (#[trigger] acc@[b]).name@,
        forall|m: int|
            0 <= m < acc@.len() ==> (#[trigger] acc@[m]).num as int == tag_count(
                row_views(rows@),
                acc@[m].name@,
            ) && acc@[m].num >= 1,
        names_cover(row_views(rows@), acc@),
{
    let ghost rv = row_views(rows@);
    let n = rows.len();
    let mut acc: Vec<Tags> = Vec::new();
    let mut r: usize = 0;
    while r < n
        invariant
            r <= n,
            n == rows.len(),
            rv == row_views(rows@),
            rv.len() < i32::MAX,
            forall|a: int, b: int|
                0 <= a < b < acc@.len() ==> (#[trigger] acc@[a]).name@ != (
                #[trigger] acc@[b]).name@,
            forall|m: int|
                0 <= m < acc@.len() ==> (#[trigger] acc@[m]).num as int == tag_count(
                    rv,
                    acc@[m].name@,
                ) && acc@[m].num >= 1,
            names_cover(rv.take(r as int), acc@),
        decreases n - r,
    {
        let row_name = &rows[r].name;
        let mut j: usize = 0;
        while j < acc.len() && !(acc[j].name == *row_name)
            invariant
                j <= acc.len(),
                r < n,
                n == rows.len(),
                rv == row_views(rows@),
                row_name@ == rows@[r as int].name@,
                forall|m: int| 0 <= m < j ==> (#[trigger] acc@[m]).name@ != row_name@,
            decreases acc.len() - j,
        {
            j += 1;
        }
        if j == acc.len() {
            // a name seen for the first time: count its rows outright
            let c = count_name(rows, row_name);
            proof {
                assert(rv[r as int] == (rows@[r as int].name@, rows@[r as int].article_id));
                assert(rows_named(row_name@)(rv[r as int]));
                rv.lemma_filter_contains(rows_named(row_name@), r as int);
                let w = choose|w: int|
                    0 <= w < rv.filter(rows_named(row_name@)).len() && rv.filter(
                        rows_named(row_name@),
                    )[w] == rv[r as int];
                assert(tag_count(rv, row_name@) >= 1);
                assert(tag_count(rv, row_name@) <= rv.len()) by {
                    rv.lemma_filter_len(rows_named(row_name@));
                }
            }
            let ghost before = acc@;
            acc.push(Tags { name: row_name.clone(), num: c as i32 });
            proof {
                assert(forall|m: int|
                    0 <= m < before.len() ==> #[trigger] acc@[m] == before[m]);
                assert(acc@[before.len() as int].name@ == row_name@);
                assert forall|k: int|
                    0 <= k < rv.take(r + 1).len() implies exists|m: int|
                        0 <= m < acc@.len() && (#[trigger] acc@[m]).name@ == (#[trigger] rv.take(
                        r + 1,
                    )[k]).0 by {
                    assert(rv.take(r + 1)[k] == rv[k]);
                    if k == r as int {
                        assert(acc@[before.len() as int].name@ == rv[k].0);
                    } else {
                        assert(rv.take(r as int)[k] == rv[k]);
                        let m = choose|m: int|
                            0 <= m < before.len() && (#[trigger] before[m]).name@ == rv.take(
                                r as int,
                            )[k].0;
                        assert(acc@[m].name@ == rv[k].0);
                    }
                }
                assert(names_cover(rv.take(r + 1), acc@));
            }
        } else {
            proof {
                // the row's name is already listed, at the scan's stop
                assert(acc@[j as int].name@ == rv[r as int].0);
                assert forall|k: int|
                    0 <= k < rv.take(r + 1).len() implies exists|m: int|
                        0 <= m < acc@.len() && (#[trigger] acc@[m]).name@ == (#[trigger] rv.take(
                        r + 1,
                    )[k]).0 by {
                    assert(rv.take(r + 1)[k] == rv[k]);
                    if k == r as int {
                        assert(acc@[j as int].name@ == rv[k].0);
                    } else {
                        assert(rv.take(r as int)[k] == rv[k]);
                    }
                }
                assert(names_cover(rv.take(r + 1), acc@));
            }
        }
        r += 1;
    }
    proof {
        assert(rv.take(n as int) =~= rv);
        assert(names_cover(rv, acc@));
    }
    acc
}

/// After one sorted insertion the counts stay descending.
proof fn lemma_tags_insert_sorted(bout: Seq<Tags>, aft: Seq<Tags>, e: Tags, jj: int)
    requires
        0 <= jj <= bout.len(),
        aft == bout.insert(jj, e),
        forall|m: int| 0 <= m < jj ==> (#[trigger] bout[m]).num >= e.num,
        jj < bout.len() ==> bout[jj].num < e.num,
        forall|a: int, b: int|
            0 <= a < b < bout.len() ==> (#[trigger] bout[a]).num >= (#[trigger] bout[b]).num,
    ensures
        forall|a: int, b: int|
            0 <= a < b < aft.len() ==> (#[trigger] aft[a]).num >= (#[trigger] aft[b]).num,
{
    bout.insert_ensures(jj, e);
    assert forall|a: int, b: int|
        0 <= a < b < aft.len() implies (#[trigger] aft[a]).num >= (#[trigger] aft[b]).num by {
        if a < jj {
            assert(aft[a] == bout[a]);
            assert(bout[a].num >= e.num);
        } else if a == jj {
            assert(aft[a] == e);
        } else {
            assert(aft[a] == bout[a - 1]);
        }
        if b < jj {
            assert(aft[b] == bout[b]);
        } else if b == jj {
            assert(aft[b] == e);
        } else {
            assert(aft[b] == bout[b - 1]);
        }
        if a == jj && b > jj {
            assert(b - 1 >= jj && b - 1 < bout.len());
            if b - 1 > jj {
                assert(bout[jj].num >= bout[b - 1].num);
            }
        }
        if a < jj && b > jj {
            assert(a < b - 1);
            assert(bout[a].num >= bout[b - 1].num);
        }
    }
}

/// After one sorted insertion every entry still carries its row count.
proof fn lemma_tags_insert_counts(
    bout: Seq<Tags>,
    aft: Seq<Tags>,
    e: Tags,
    jj: int,
    rv: Seq<(Seq<char>, i32)>,
)
    requires
        0 <= jj <= bout.len(),
        aft == bout.insert(jj, e),
        forall|m: int|
            0 <= m < bout.len() ==> (#[trigger] bout[m]).num as int == tag_count(
                rv,
                bout[m].name@,
            ) && bout[m].num >= 1,
        e.num as int == tag_count(rv, e.name@),
        e.num >= 1,
    ensures
        forall|m: int|
            0 <= m < aft.len() ==> (#[trigger] aft[m]).num as int == tag_count(rv, aft[m].name@)
                && aft[m].num >= 1,
{
    bout.insert_ensures(jj, e);
    assert forall|m: int|
        0 <= m < aft.len() implies (#[trigger] aft[m]).num as int == tag_count(rv, aft[m].name@)
            && aft[m].num >= 1 by {
        if m < jj {
            assert(aft[m] == bout[m]);
        } else if m == jj {
            assert(aft[m] == e);
        } else {
            assert(aft[m] == bout[m - 1]);
        }
    }
}

/// After inserting an entry whose name is fresh, names stay distinct.
proof fn lemma_tags_insert_distinct(bout: Seq<Tags>, aft: Seq<Tags>, e: Tags, jj: int)
    requires
        0 <= jj <= bout.len(),
        aft == bout.insert(jj, e),
        forall|a: int, b: int|
            0 <= a < b < bout.len() ==> (#[trigger] bout[a]).name@ != (#[trigger] bout[b]).name@,
        forall|m: int| 0 <= m < bout.len() ==> (#[trigger] bout[m]).name@ != e.name@,
    ensures
        forall|a: int, b: int|
            0 <= a < b < aft.len() ==> (#[trigger] aft[a]).name@ != (#[trigger] aft[b]).name@,
{
    bout.insert_ensures(jj, e);
    assert forall|a: int, b: int|
        0 <= a < b < aft.len() implies (#[trigger] aft[a]).name@ != (#[trigger] aft[b]).name@ by {
        if a == jj || b == jj {
            let other: int = if a == jj {
                b
            } else {
                a
            };
            let o2: int = if other < jj {
                other
            } else {
                other - 1
            };
            assert(aft[other] == bout[o2]);
            assert(aft[jj] == e);
            assert(bout[o2].name@ != e.name@);
        } else {
            let a2: int = if a < jj {
                a
            } else {
                a - 1
            };
            let b2: int = if b < jj {
                b
            } else {
                b - 1
            };
            assert(aft[a] == bout[a2]);
            assert(aft[b] == bout[b2]);
            assert(bout[a2].name@ != bout[b2].name@);
        }
    }
}

/// After one insertion the processed names and the held names still cover
/// each other.
#[verifier::spinoff_prover]
proof fn lemma_tags_insert_members(
    bout: Seq<Tags>,
    aft: Seq<Tags>,
    e: Tags,
    jj: int,
    acc: Seq<Tags>,
    i: int,
)
    requires
        0 <= jj <= bout.len(),
        aft == bout.insert(jj, e),
        0 <= i < acc.len(),
        e.name@ == acc[i].name@,
        listing_covers(acc.take(i), bout),
        listing_covers(bout, acc.take(i)),
    ensures
        listing_covers(acc.take(i + 1), aft),
        listing_covers(aft, acc.take(i + 1)),
{
    bout.insert_ensures(jj, e);
    assert forall|k: int|
        0 <= k < acc.take(i + 1).len() implies exists|m: int|
            0 <= m < aft.len() && (#[trigger] aft[m]).name@ == (#[trigger] acc.take(
                i + 1,
            )[k]).name@ by {
        assert(acc.take(i + 1)[k] == acc[k]);
        if k == i {
            assert(aft[jj].name@ == acc[k].name@);
        } else {
            assert(acc.take(i)[k] == acc[k]);
            let m = choose|m: int|
                0 <= m < bout.len() && (#[trigger] bout[m]).name@ == acc.take(i)[k].name@;
            if m < jj {
                assert(aft[m].name@ == acc[k].name@);
            } else {
                assert(aft[m + 1].name@ == acc[k].name@);
            }
        }
    }
    assert forall|m: int|
        0 <= m < aft.len() implies exists|k: int|
            0 <= k < acc.take(i + 1).len() && (#[trigger] acc.take(i + 1)[k]).name@ == (
            #[trigger] aft[m]).name@ by {
        if m == jj {
            assert(acc.take(i + 1)[i] == acc[i]);
            assert(acc.take(i + 1)[i].name@ == aft[m].name@);
        } else {
            let m2: int = if m < jj {
                m
            } else {
                m - 1
            };
            assert(aft[m] == bout[m2]);
            let k = choose|k: int|
                0 <= k < acc.take(i).len() && (#[trigger] acc.take(i)[k]).name@ == bout[m2].name@;
            assert(acc.take(i + 1)[k] == acc[k]);
            assert(acc.take(i + 1)[k].name@ == aft[m].name@);
        }
    }
}

/// Orders the counted tags by their count, most frequent first, keeping
/// every entry.
#[verifier::rlimit(100)]
#[verifier::spinoff_prover]
fn sort_tags_desc(acc: Vec<Tags>, Ghost(rv): Ghost<Seq<(Seq<char>, i32)>>) -> (out: Vec<Tags>)
    requires
        forall|a: int, b: int|
            0 <= a < b < acc@.len() ==> (#[trigger] acc@[a]).name@ != (#[trigger] acc@[b]).name@,
        forall|m: int|
            0 <= m < acc@.len() ==> (#[trigger] acc@[m]).num as int == tag_count(
                rv,
                acc@[m].name@,
            ) && acc@[m].num >= 1,
    ensures
        forall|a: int, b: int|
            0 <= a < b < out@.len() ==> (#[trigger] out@[a]).num >= (#[trigger] out@[b]).num,
        forall|m: int|
            0 <= m < out@.len() ==> (#[trigger] out@[m]).num as int == tag_count(
                rv,
                out@[m].name@,
            ) && out@[m].num >= 1,
        forall|a: int, b: int|
            0 <= a < b < out@.len() ==> (#[trigger] out@[a]).name@ != (#[trigger] out@[b]).name@,
        listing_covers(acc@, out@),
{
    let mut out: Vec<Tags> = Vec::new();
    let mut i: usize = 0;
    proof {
        assert(acc@.take(0) =~= Seq::<Tags>::empty());
    }
    while i < acc.len()
        invariant
            i <= acc.len(),
            forall|a: int, b: int|
                0 <= a < b < acc@.len() ==> (#[trigger] acc@[a]).name@ != (
                #[trigger] acc@[b]).name@,
            forall|m: int|
                0 <= m < acc@.len() ==> (#[trigger] acc@[m]).num as int == tag_count(
                    rv,
                    acc@[m].name@,
                ) && acc@[m].num >= 1,
            out@.len() == i,
            forall|a: int, b: int|
                0 <= a < b < out@.len() ==> (#[trigger] out@[a]).num >= (#[trigger] out@[b]).num,
            forall|m: int|
                0 <= m < out@.len() ==> (#[trigger] out@[m]).num as int == tag_count(
                    rv,
                    out@[m].name@,
                ) && out@[m].num >= 1,
            forall|a: int, b: int|
                0 <= a < b < out@.len() ==> (#[trigger] out@[a]).name@ != (
                #[trigger] out@[b]).name@,
            listing_covers(acc@.take(i as int), out@),
            listing_covers(out@, acc@.take(i as int)),
        decreases acc.len() - i,
    {
        let e = acc[i].clone();
        let mut j: usize = 0;
        while j < out.len() && out[j].num >= e.num
            invariant
                j <= out.len(),
                forall|m: int| 0 <= m < j ==> (#[trigger] out@[m]).num >= e.num,
            decreases out.len() - j,
        {
            j += 1;
        }
        let ghost bout = out@;
        let ghost jj = j as int;
        proof {
            if jj < bout.len() {
                assert(bout[jj].num < e.num);
            }
        }
        out.insert(j, e);
        proof {
            // the inserted name is fresh among the held ones
            assert forall|m: int|
                0 <= m < bout.len() implies (#[trigger] bout[m]).name@ != e.name@ by {
                let k = choose|k: int|
                    0 <= k < acc@.take(i as int).len() && (#[trigger] acc@.take(
                        i as int,
                    )[k]).name@ == bout[m].name@;
                assert(acc@.take(i as int)[k] == acc@[k]);
                assert(acc@[k].name@ != acc@[i as int].name@);
            }
            lemma_tags_insert_sorted(bout, out@, e, jj);
            lemma_tags_insert_counts(bout, out@, e, jj, rv);
            lemma_tags_insert_distinct(bout, out@, e, jj);
            lemma_tags_insert_members(bout, out@, e, jj, acc@, i as int);
        }
        i += 1;
    }
    proof {
        assert(acc@.take(acc@.len() as int) =~= acc@);
    }
    out
}

impl Tags {
    /// Every tag name that appears in the association table, with the
    /// number of rows that carry it, most frequent first.
    #[verifier::rlimit(100)]
    pub fn get_all_with_count(s: &Store) -> (v: Vec<Tags>)
        requires
            s.wf(),
        ensures
            forall|i: int, j: int|
                0 <= i < j < v@.len() ==> (#[trigger] v@[i]).name@ != (#[trigger] v@[j]).name@,
            forall|i: int|
                0 <= i < v@.len() ==> (#[trigger] v@[i]).num as int == tag_count(
                    row_views(s.tag_rows@),
                    v@[i].name@,
                ) && v@[i].num >= 1,
            forall|i: int, j: int|
                0 <= i < j < v@.len() ==> (#[trigger] v@[i]).num >= (#[trigger] v@[j]).num,
            forall|name: Seq<char>|
                #[trigger] tag_count(row_views(s.tag_rows@), name) >= 1 ==> exists|i: int|
                    0 <= i < v@.len() && (#[trigger] v@[i]).name@ == name,
    {
        let ghost rv = row_views(s.tag_rows@);
        let acc = count_tags(&s.tag_rows);
        let ghost acc_snap = acc@;
        let out = sort_tags_desc(acc, Ghost(rv));
        proof {
            assert forall|name: Seq<char>| #[trigger]
                tag_count(rv, name) >= 1 implies exists|i: int|
                0 <= i < out@.len() && (#[trigger] out@[i]).name@ == name by {
                let f = rv.filter(rows_named(name));
                rv.lemma_filter_pred(rows_named(name), 0);
                assert(f.contains(f[0])) by {
                    assert(f[0] == f[0]);
                }
                rv.lemma_filter_contains_rev(rows_named(name), f[0]);
                let k = choose|k: int| 0 <= k < rv.len() && rv[k] == f[0];
                assert(rv[k].0 == name);
                assert(names_cover(rv, acc_snap));
                let m0 = choose|m0: int|
                    0 <= m0 < acc_snap.len() && (#[trigger] acc_snap[m0]).name@ == rv[k].0;
                assert(listing_covers(acc_snap, out@));
                let m = choose|m: int|
                    0 <= m < out@.len() && (#[trigger] out@[m]).name@ == acc_snap[m0].name@;
                assert(out@[m].name@ == name);
            }
        }
        out
    }
}

/// What creating an article stores: the new row is found again under the
/// identifier the store assigned, and its tag string holds exactly the
/// tokens of the submitted tag list — deduplicated, but none lost and none
/// invented.
pub proof fn lemma_create_article_keeps_tokens(
    pre: Store,
    post: Store,
    form_tags: Seq<char>,
    e: Article,
    now: i64,
    r: Result<Article, Error>,
)
    requires
        e.save_pre(pre),
        e.tags@ == crate::tags::normalized_tags(form_tags),
        Article::insert_post(pre, post, e, now, r),
    ensures
        r is Ok,
        find_article(post.articles@, pre.next_article_id) == Some(r->Ok_0),
        forall|t: Seq<char>|
            tag_tokens(#[trigger] (r->Ok_0).tags@).contains(t) <==> tag_tokens(
                form_tags,
            ).contains(t),
{
    let n = pre.articles@.len();
    let aid = pre.next_article_id;
    assert forall|k: int| 0 <= k < n implies (#[trigger] post.articles@[k]).id != Some(aid) by {
        assert(post.articles@[k] == pre.articles@[k]);
        assert((#[trigger] pre.articles@[k]).id->0 < aid);
    }
    assert(post.articles@[n as int].id == Some(aid));
    lemma_article_index_first(post.articles@, aid, n as int);
    crate::tags::lemma_normalized_tags_tokens(form_tags);
}

impl Editable for Article {
    open spec fn entity_id(&self) -> Option<i32> {
        self.id
    }

    open spec fn save_pre(&self, store: Store) -> bool {
        &&& store.wf()
        &&& store.next_article_id < i32::MAX
        &&& store.tag_rows@.len() + tag_tokens(self.tags@).len() < i32::MAX
    }

    open spec fn insert_post(pre: Store, post: Store, entity: Self, now: i64, r: Result<
        Self,
        Error,
    >) -> bool {
        let a = Article {
            id: Some(pre.next_article_id),
            title: entity.title,
            content: entity.content,
            tags: entity.tags,
            created_at: now,
            updated_at: now,
        };
        &&& r == Result::<Article, Error>::Ok(a)
        &&& post.articles@ == pre.articles@.push(a)
        &&& row_views(post.tag_rows@) == row_views(pre.tag_rows@) + token_rows(
            entity.tags@,
            pre.next_article_id,
        )
        &&& post.pages@ == pre.pages@
        &&& post.users@ == pre.users@
        &&& post.next_article_id == pre.next_article_id + 1
        &&& post.next_page_id == pre.next_page_id
    }

    open spec fn update_post(pre: Store, post: Store, entity: Self, now: i64, r: Result<
        Self,
        Error,
    >) -> bool {
        match entity.id {
            None => r == Result::<Article, Error>::Err(Error::NotFound) && same_store(pre, post),
            Some(id) => {
                let i = article_index(pre.articles@, id);
                if i >= 0 {
                    let a = Article {
                        id: Some(id),
                        title: entity.title,
                        content: entity.content,
                        tags: entity.tags,
                        created_at: pre.articles@[i].created_at,
                        updated_at: now,
                    };
                    &&& r == Result::<Article, Error>::Ok(a)
                    &&& post.articles@ == pre.articles@.update(i, a)
                    &&& row_views(post.tag_rows@) == row_views(pre.tag_rows@).filter(
                        crate::store::other_rows(id),
                    ) + token_rows(entity.tags@, id)
                    &&& post.pages@ == pre.pages@
                    &&& post.users@ == pre.users@
                    &&& post.next_article_id == pre.next_article_id
                    &&& post.next_page_id == pre.next_page_id
                } else {
                    r == Result::<Article, Error>::Err(Error::NotFound) && same_store(pre, post)
                }
            },
        }
    }

    open spec fn delete_post(pre: Store, post: Store, entity: Self, r: Result<(), Error>) -> bool {
        match entity.id {
            None => r == Result::<(), Error>::Err(Error::NotFound) && same_store(pre, post),
            Some(id) => {
                let i = article_index(pre.articles@, id);
                &&& r == Result::<(), Error>::Ok(())
                &&& post.articles@ == if i >= 0 {
                    pre.articles@.remove(i)
                } else {
                    pre.articles@
                }
                &&& row_views(post.tag_rows@) == row_views(pre.tag_rows@).filter(
                    crate::store::other_rows(id),
                )
                &&& post.pages@ == pre.pages@
                &&& post.users@ == pre.users@
                &&& post.next_article_id == pre.next_article_id
                &&& post.next_page_id == pre.next_page_id
            },
        }
    }

    open spec fn redirect_url_spec(&self) -> Seq<char> {
        match self.id {
            Some(id) => "/article/"@ + dec_int(id as int),
            None => "/"@,
        }
    }

    open spec fn label_spec(&self) -> Seq<char> {
        let named = match self.id {
            Some(id) => "article"@ + " "@ + dec_int(id as int),
            None => "article"@,
        };
        let titled = if self.title@.len() > 0 {
            named + " <"@ + self.title@ + ">"@
        } else {
            named
        };
        if self.tags@.len() > 0 {
            titled + " ["@ + self.tags@ + "]"@
        } else {
            titled
        }
    }

    fn id(&self) -> (r: Option<i32>) {
        self.id
    }

    fn get_redirect_url(&self) -> (r: String) {
        match self.id {
            Some(id) => {
                let mut s = crate::text::chars_to_string(&Vec::new());
                let head = "/article/";
                s.append(head);
                let digits = crate::text::i32_to_string(id);
                s.append(digits.as_str());
                proof {
                    assert(Seq::<char>::empty() + head@ =~= head@);
                }
                s
            },
            None => {
                let s = "/";
                s.to_owned()
            },
        }
    }

    fn display_label(&self) -> (r: String) {
        let mut s = String::new();
        s.append("article");
        proof {
            assert(Seq::<char>::empty() + "article"@ =~= "article"@);
        }
        if let Some(id) = self.id {
            s.append(" ");
            let digits = crate::text::i32_to_string(id);
            s.append(digits.as_str());
        }
        if !self.title.as_str().is_empty() {
            s.append(" <");
            s.append(self.title.as_str());
            s.append(">");
        }
        if !self.tags.as_str().is_empty() {
            s.append(" [");
            s.append(self.tags.as_str());
            s.append("]");
        }
        proof {
            assert(s@ =~= self.label_spec());
        }
        s
    }

    fn insert(&self, store: &mut Store, now: i64) -> (r: Result<Self, Error>) {
        let id = store.next_article_id;
        let a = Article {
            id: Some(id),
            title: self.title.clone(),
            content: self.content.clone(),
            tags: self.tags.clone(),
            created_at: now,
            updated_at: now,
        };
        let out = a.clone();
        store.articles.push(a);
        store.next_article_id = id + 1;
        store.insert_tags(&self.tags, id);
        proof {
            lemma_article_wf_after_insert(*old(store), *store, *self, now);
        }
        Ok(out)
    }

    fn update(&self, store: &mut Store, now: i64) -> (r: Result<Self, Error>) {
        let id = match self.id {
            Some(id) => id,
            None => {
                return Err(Error::NotFound);
            },
        };
        let pos = match Self::find_position(store, id) {
            Some(pos) => pos,
            None => {
                return Err(Error::NotFound);
            },
        };
        let prior = store.articles.remove(pos);
        let a = Article {
            id: Some(id),
            title: self.title.clone(),
            content: self.content.clone(),
            tags: self.tags.clone(),
            created_at: prior.created_at,
            updated_at: now,
        };
        let out = a.clone();
        store.articles.insert(pos, a);
        proof {
            assert(store.articles@ =~= old(store).articles@.update(pos as int, out));
        }
        store.clear_tags(id);
        store.insert_tags(&self.tags, id);
        proof {
            lemma_article_wf_after_update(*old(store), *store, *self, now, pos as int);
        }
        Ok(out)
    }

    fn delete(&self, store: &mut Store) -> (r: Result<(), Error>) {
        let id = match self.id {
            Some(id) => id,
            None => {
                return Err(Error::NotFound);
            },
        };
        if let Some(pos) = Self::find_position(store, id) {
            let _removed = store.articles.remove(pos);
        }
        store.clear_tags(id);
        proof {
            lemma_article_wf_after_delete(*old(store), *store, *self);
        }
        Ok(())
    }
}

} // verus!
