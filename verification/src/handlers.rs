//! The decisions behind the HTTP handlers: pagination, the login flow, the
//! password change, the year grouping of article listings, and the generic
//! save and delete dispatch. The surrounding application only moves bytes;
//! every choice is made here.

use vstd::prelude::*;

use crate::auth::auth_ok;
use crate::auth::authenticate;
use crate::auth::generate_password_hash;
use crate::auth::Credentials;
use crate::error::Error;
use crate::models::articles::Article;
use crate::models::users::password_swapped;
use crate::models::users::find_user;
use crate::models::users::User;
use crate::store::same_store;
use crate::store::Store;
use crate::text::lower_of;
use crate::time::MAX_TS;
use crate::utils::Editable;

verus! {

/// The highest 1-based page number: the count divided by the page size,
/// rounded up. A page size of zero mirrors the original's float division:
/// no pages of nothing, every page of anything.
pub open spec fn max_page_of(count: nat, per: nat) -> nat {
    if per == 0 {
        if count == 0 {
            0
        } else {
            0xffff_ffff
        }
    } else {
        (((count + per - 1) as int) / (per as int)) as nat
    }
}

/// What a request for a page of the article listing comes to.
pub enum PageDecision {
    /// The page number is out of range; the not-found page is shown.
    NotFound,
    /// The page exists; the listing shows it out of `max_page` pages.
    Show { max_page: u32 },
}

/// Accepts a 1-based page number against the article count: pages below
/// one are rejected, and so are pages beyond the last non-empty one.
pub fn page_decision(page_num: i32, count: u32, per: u32) -> (r: PageDecision)
    ensures
        r is NotFound <==> (page_num <= 0 || (max_page_of(count as nat, per as nat) != 0
            && page_num as int > max_page_of(count as nat, per as nat))),
        r matches PageDecision::Show { max_page } ==> max_page as nat == max_page_of(
            count as nat,
            per as nat,
        ),
{
    if page_num <= 0 {
        return PageDecision::NotFound;
    }
    if per == 0 {
        let mp: u32 = if count == 0 {
            0
        } else {
            u32::MAX
        };
        if mp != 0 && page_num as u32 > mp {
            return PageDecision::NotFound;
        }
        return PageDecision::Show { max_page: mp };
    }
    let mp64: u64 = (count as u64 + per as u64 - 1) / per as u64;
    proof {
        assert((count as int + per as int - 1) / (per as int) <= count as int)
            by (nonlinear_arith)
            requires
                per as int >= 1,
                count as int >= 0,
        ;
        assert(mp64 as int == (count as int + per as int - 1) / (per as int));
    }
    let mp: u32 = mp64 as u32;
    if mp != 0 && page_num as u32 > mp {
        return PageDecision::NotFound;
    }
    PageDecision::Show { max_page: mp }
}

/// The query parameters of the login page.
pub struct LoginQuery {
    pub next: Option<String>,
}

/// The query parameters of the admin dashboard.
pub struct AdminQuery {
    pub message: Option<String>,
}

/// The query parameters of the password-change page.
pub struct ChangePasswordQuery {
    pub message: Option<String>,
}

/// The fields of the password-change form.
pub struct ChangePasswordForm {
    pub old_password: String,
    pub new_password: String,
}

/// The liveness probe's reply.
pub fn ping() -> (r: &'static str)
    ensures
        r@ == "pong"@,
{
    "pong"
}

/// The URL that carries a human-readable message to a page.
pub fn redirect_with_message(url: &str, message: &str) -> (r: String)
    ensures
        r@ == url@ + "?message="@ + message@,
{
    let mut s = url.to_owned();
    s.append("?message=");
    s.append(message);
    s
}

/// Where an unauthenticated request for a guarded path is sent: the login
/// page, with the requested path preserved for the post-login redirect.
pub fn login_redirect_url(path: &str) -> (r: String)
    ensures
        r@ == "/login?next="@ + path@,
{
    let mut s = String::new();
    s.append("/login?next=");
    s.append(path);
    proof {
        assert(Seq::<char>::empty() + "/login?next="@ =~= "/login?next="@);
    }
    s
}

/// What a login submission comes to.
pub enum LoginOutcome {
    /// No session is created; the browser is sent here.
    Redirect(String),
    /// The user is bound to the session, then the browser is sent on.
    SetSessionAndRedirect { user: User, to: String },
}

/// Decides a login submission: a structurally bad form goes back to the
/// login page; bad credentials go back too, keeping the `next` parameter,
/// and never saying whether the username or the password was wrong; good
/// credentials bind the user and redirect to `next`, or to the dashboard.
pub fn login_decision(s: &Store, form: Option<Credentials>) -> (r: LoginOutcome)
    ensures
        form is None ==> (r matches LoginOutcome::Redirect(u) && u@ == "/login"@),
        form matches Some(c) ==> ({
            &&& auth_ok(s.users@, c.username@, c.password@) ==> (r
                matches LoginOutcome::SetSessionAndRedirect { user, to } && Some(user)
                == find_user(s.users@, c.username@) && to@ == match c.next {
                Some(n) => n@,
                None => "/admin"@,
            })
            &&& !auth_ok(s.users@, c.username@, c.password@) ==> (r
                matches LoginOutcome::Redirect(u) && u@ == match c.next {
                Some(n) => "/login?next="@ + n@,
                None => "/login"@,
            })
        }),
{
    let creds = match form {
        Some(creds) => creds,
        None => {
            return LoginOutcome::Redirect("/login".to_owned());
        },
    };
    match authenticate(s, &creds) {
        Some(user) => {
            let to = match creds.next {
                Some(n) => n,
                None => "/admin".to_owned(),
            };
            LoginOutcome::SetSessionAndRedirect { user, to }
        },
        None => {
            match creds.next {
                Some(n) => {
                    let mut u = String::new();
                    u.append("/login?next=");
                    u.append(n.as_str());
                    proof {
                        assert(Seq::<char>::empty() + "/login?next="@ =~= "/login?next="@);
                    }
                    LoginOutcome::Redirect(u)
                },
                None => LoginOutcome::Redirect("/login".to_owned()),
            }
        },
    }
}

/// Decides a password change. Without a session the browser goes to the
/// login page. The old password is re-verified against the stored hash;
/// failure redirects back with a message and leaves the store untouched.
/// On success the stored hash is swapped — guarded by the very hash the
/// verification saw — and the browser goes to the dashboard.
pub fn change_password_flow(
    s: &mut Store,
    session_username: Option<&String>,
    old_password: &str,
    new_password: &str,
) -> (r: String)
    requires
        old(s).wf(),
    ensures
        final(s).wf(),
        final(s).articles@ == old(s).articles@,
        final(s).tag_rows@ == old(s).tag_rows@,
        final(s).pages@ == old(s).pages@,
        final(s).next_article_id == old(s).next_article_id,
        final(s).next_page_id == old(s).next_page_id,
        session_username is None ==> r@ == "/login"@ && final(s).users@ == old(s).users@,
        session_username matches Some(u) ==> ({
            &&& !auth_ok(old(s).users@, u@, old_password@) ==> ({
                &&& r@ == "/admin/change_password"@ + "?message="@
                    + "Failed to validate the old password, please try again."@
                &&& final(s).users@ == old(s).users@
            })
            &&& auth_ok(old(s).users@, u@, old_password@) ==> r@ == "/admin"@ && (exists|
                h: Seq<char>,
            |
                #[trigger] password_swapped(
                    old(s).users@,
                    final(s).users@,
                    u@,
                    find_user(old(s).users@, u@)->0.password@,
                    h,
                ) && crate::auth::password_verifies(new_password@, h))
        }),
{
    let username = match session_username {
        Some(u) => u,
        None => {
            return "/login".to_owned();
        },
    };
    let creds = Credentials {
        username: username.clone(),
        password: old_password.to_owned(),
        next: None,
    };
    let user = match authenticate(s, &creds) {
        Some(user) => user,
        None => {
            return redirect_with_message(
                "/admin/change_password",
                "Failed to validate the old password, please try again.",
            );
        },
    };
    let new_hash = generate_password_hash(new_password);
    let _ = User::modify_password(s, username.as_str(), user.password.as_str(), new_hash.as_str());
    proof {
        assert(user == find_user(old(s).users@, username@)->0);
    }
    "/admin".to_owned()
}

/// Belongs to the given calendar year.
pub open spec fn of_year(y: i32) -> spec_fn(Article) -> bool {
    |a: Article| crate::time::year_of(a.created_at as int) == y as int
}

/// The articles of one calendar year, in the order they were given.
pub struct YearGroup {
    pub year: i32,
    pub articles: Vec<Article>,
}

/// The groups carve the articles up by calendar year: years strictly
/// descending, each group holding exactly its year's articles in the
/// original order, and no year missing or invented.
pub open spec fn grouped_by_year(arts: Seq<Article>, groups: Seq<YearGroup>) -> bool {
    &&& forall|i: int, j: int|
        0 <= i < j < groups.len() ==> (#[trigger] groups[i]).year > (#[trigger] groups[j]).year
    &&& forall|i: int|
        0 <= i < groups.len() ==> (#[trigger] groups[i]).articles@ == arts.filter(
            of_year(groups[i].year),
        )
    &&& forall|k: int|
        0 <= k < arts.len() ==> exists|i: int|
            0 <= i < groups.len() && (#[trigger] groups[i]).year as int == crate::time::year_of(
                (#[trigger] arts[k]).created_at as int,
            )
    &&& forall|i: int|
        0 <= i < groups.len() ==> exists|k: int|
            0 <= k < arts.len() && crate::time::year_of((#[trigger] arts[k]).created_at as int) == (
            #[trigger] groups[i]).year as int
}

/// Strictly descending: sorted, without duplicates.
pub open spec fn sorted_desc(l: Seq<i32>) -> bool {
    forall|i: int, j: int| 0 <= i < j < l.len() ==> (#[trigger] l[i]) > (#[trigger] l[j])
}

/// Puts a year at its place in a descending list, unless already there.
fn insert_year(years: &mut Vec<i32>, y: i32)
    requires
        sorted_desc(old(years)@),
    ensures
        sorted_desc(final(years)@),
        forall|x: i32|
            final(years)@.contains(x) <==> (old(years)@.contains(x) || x == y),
{
    let mut j: usize = 0;
    while j < years.len() && years[j] > y
        invariant
            j <= years.len(),
            years@ == old(years)@,
            forall|m: int| 0 <= m < j ==> (#[trigger] years@[m]) > y,
        decreases years.len() - j,
    {
        j += 1;
    }
    let ghost jj = j as int;
    let ghost before = years@;
    if j < years.len() && years[j] == y {
        proof {
            assert(years@[jj] == y);
            assert forall|x: i32| years@.contains(x) <==> (before.contains(x) || x == y) by {
                if x == y {
                    assert(years@.contains(y));
                }
            }
        }
        return ;
    }
    proof {
        if jj < before.len() {
            assert(before[jj] < y);
        }
    }
    years.insert(j, y);
    proof {
        before.insert_ensures(jj, y);
        assert forall|p: int, q: int|
            0 <= p < q < years@.len() implies (#[trigger] years@[p]) > (#[trigger] years@[q]) by {
            if p < jj {
                assert(years@[p] == before[p]);
                assert(before[p] > y);
            } else if p == jj {
                assert(years@[p] == y);
            } else {
                assert(years@[p] == before[p - 1]);
            }
            if q < jj {
                assert(years@[q] == before[q]);
            } else if q == jj {
                assert(years@[q] == y);
            } else {
                assert(years@[q] == before[q - 1]);
            }
            if p == jj && q > jj {
                assert(q - 1 >= jj && q - 1 < before.len());
                assert(before[jj] < y);
                if q - 1 > jj {
                    assert(before[jj] > before[q - 1]);
                }
            }
            if p < jj && q > jj {
                assert(p < q - 1);
                assert(before[p] > before[q - 1]);
            }
        }
        assert forall|x: i32|
            years@.contains(x) <==> (before.contains(x) || x == y) by {
            if years@.contains(x) {
                let m = choose|m: int| 0 <= m < years@.len() && years@[m] == x;
                if m < jj {
                    assert(before[m] == x);
                    assert(before.contains(x));
                } else if m > jj {
                    assert(before[m - 1] == x);
                    assert(before.contains(x));
                } else {
                    assert(years@[jj] == y);
                    assert(x == y);
                }
            }
            if before.contains(x) {
                let m = choose|m: int| 0 <= m < before.len() && before[m] == x;
                if m < jj {
                    assert(years@[m] == x);
                } else {
                    assert(years@[m + 1] == x);
                }
                assert(years@.contains(x));
            }
            if x == y {
                assert(years@[jj] == y);
                assert(years@.contains(x));
            }
        }
    }
}

/// The distinct calendar years of the articles, newest first.
fn collect_years(arts: &Vec<Article>) -> (years: Vec<i32>)
    requires
        forall|i: int|
            0 <= i < arts@.len() ==> 0 <= (#[trigger] arts@[i]).created_at <= MAX_TS,
    ensures
        sorted_desc(years@),
        forall|x: i32|
            years@.contains(x) <==> (exists|q: int|
                0 <= q < arts@.len() && crate::time::year_of(
                    (#[trigger] arts@[q]).created_at as int,
                ) == x as int),
        forall|q: int|
            0 <= q < arts@.len() ==> i32::MIN <= crate::time::year_of(
                (#[trigger] arts@[q]).created_at as int,
            ) <= i32::MAX,
{
    let n = arts.len();
    let mut years: Vec<i32> = Vec::new();
    let mut k: usize = 0;
    while k < n
        invariant
            k <= n,
            n == arts.len(),
            forall|i: int|
                0 <= i < arts@.len() ==> 0 <= (#[trigger] arts@[i]).created_at <= MAX_TS,
            sorted_desc(years@),
            forall|x: i32|
                years@.contains(x) <==> (exists|q: int|
                    0 <= q < k && crate::time::year_of((#[trigger] arts@[q]).created_at as int)
                        == x as int),
            forall|q: int|
                0 <= q < k ==> i32::MIN <= crate::time::year_of(
                    (#[trigger] arts@[q]).created_at as int,
                ) <= i32::MAX,
        decreases n - k,
    {
        let ghost before = years@;
        let y = crate::time::timestamp_year(arts[k].created_at);
        insert_year(&mut years, y);
        proof {
            assert forall|x: i32|
                years@.contains(x) <==> (exists|q: int|
                    0 <= q < k + 1 && crate::time::year_of((#[trigger] arts@[q]).created_at as int)
                        == x as int) by {
                if years@.contains(x) {
                    if before.contains(x) {
                    } else {
                        assert(x == y);
                        assert(crate::time::year_of((#[trigger] arts@[k as int]).created_at as int)
                            == x as int);
                    }
                }
                if exists|q: int|
                    0 <= q < k + 1 && crate::time::year_of((#[trigger] arts@[q]).created_at as int)
                        == x as int {
                    let q = choose|q: int|
                        0 <= q < k + 1 && crate::time::year_of(
                            (#[trigger] arts@[q]).created_at as int,
                        ) == x as int;
                    if q < k {
                        assert(before.contains(x));
                    } else {
                        assert(x == y);
                    }
                    assert(years@.contains(x));
                }
            }
        }
        k += 1;
    }
    years
}

/// Splits the articles into their calendar years, newest year first.
#[verifier::rlimit(60)]
pub fn group_articles_by_year(arts: &Vec<Article>) -> (groups: Vec<YearGroup>)
    requires
        forall|i: int|
            0 <= i < arts@.len() ==> 0 <= (#[trigger] arts@[i]).created_at <= MAX_TS,
    ensures
        grouped_by_year(arts@, groups@),
        groups@.len() == 0 <==> arts@.len() == 0,
{
    let n = arts.len();
    let years = collect_years(arts);
    let mut groups: Vec<YearGroup> = Vec::new();
    let mut gi: usize = 0;
    while gi < years.len()
        invariant
            gi <= years.len(),
            n == arts.len(),
            forall|i: int|
                0 <= i < arts@.len() ==> 0 <= (#[trigger] arts@[i]).created_at <= MAX_TS,
            groups@.len() == gi,
            forall|m: int|
                0 <= m < gi ==> (#[trigger] groups@[m]).year == years@[m]
                    && groups@[m].articles@ == arts@.filter(of_year(years@[m])),
        decreases years.len() - gi,
    {
        let y = years[gi];
        let ghost pred = of_year(y);
        let mut grp: Vec<Article> = Vec::new();
        let mut t: usize = 0;
        proof {
            assert(arts@.take(0) =~= Seq::<Article>::empty());
            reveal_with_fuel(Seq::filter, 1);
            assert(grp@ =~= arts@.take(0).filter(pred));
        }
        while t < n
            invariant
                t <= n,
                n == arts.len(),
                forall|i: int|
                    0 <= i < arts@.len() ==> 0 <= (#[trigger] arts@[i]).created_at <= MAX_TS,
                grp@ == arts@.take(t as int).filter(pred),
                pred == of_year(y),
            decreases n - t,
        {
            let ay = crate::time::timestamp_year(arts[t].created_at);
            proof {
                assert(arts@.take(t + 1).drop_last() =~= arts@.take(t as int));
                reveal_with_fuel(Seq::filter, 2);
                assert(arts@.take(t + 1).filter(pred) == if pred(arts@[t as int]) {
                    arts@.take(t as int).filter(pred).push(arts@[t as int])
                } else {
                    arts@.take(t as int).filter(pred)
                });
            }
            if ay == y {
                grp.push(arts[t].clone());
            }
            t += 1;
        }
        proof {
            assert(arts@.take(n as int) =~= arts@);
        }
        groups.push(YearGroup { year: y, articles: grp });
        gi += 1;
    }
    proof {
        assert forall|k2: int|
            0 <= k2 < arts@.len() implies exists|i: int|
                0 <= i < groups@.len() && (#[trigger] groups@[i]).year as int
                    == crate::time::year_of((#[trigger] arts@[k2]).created_at as int) by {
            let x = crate::time::year_of(arts@[k2].created_at as int);
            let xi = x as i32;
            assert(years@.contains(xi));
            let m = choose|m: int| 0 <= m < years@.len() && years@[m] == xi;
            assert((#[trigger] groups@[m]).year == years@[m]);
        }
        assert forall|i: int|
            0 <= i < groups@.len() implies exists|k2: int|
                0 <= k2 < arts@.len() && crate::time::year_of(
                    (#[trigger] arts@[k2]).created_at as int,
                ) == (#[trigger] groups@[i]).year as int by {
            assert(years@.contains(years@[i]));
        }
        if arts@.len() > 0 {
            let x0 = crate::time::year_of(arts@[0].created_at as int) as i32;
            assert(years@.contains(x0));
        }
        if years@.len() > 0 {
            assert(years@.contains(years@[0]));
        }
    }
    groups
}

/// The yearly listing of every article, newest year first.
pub fn articles_by_year(s: &Store) -> (groups: Vec<YearGroup>)
    requires
        s.wf(),
    ensures
        grouped_by_year(s.articles@.reverse(), groups@),
{
    let all = crate::models::articles::Article::get_all(s);
    proof {
        assert forall|i: int|
            0 <= i < all@.len() implies 0 <= (#[trigger] all@[i]).created_at <= MAX_TS by {
            assert(all@[i] == s.articles@[s.articles@.len() - 1 - i]);
        }
    }
    group_articles_by_year(&all)
}

/// The tag listing page: the articles carrying the tag, grouped by year.
/// A tag with no matching article is treated as not found.
pub fn tag_page(s: &Store, tag: &str) -> (r: Option<Vec<YearGroup>>)
    requires
        s.wf(),
    ensures
        r is None <==> s.articles@.reverse().filter(crate::models::articles::with_tag(tag@)).len()
            == 0,
        r matches Some(groups) ==> grouped_by_year(
            s.articles@.reverse().filter(crate::models::articles::with_tag(tag@)),
            groups@,
        ),
{
    let matching = crate::models::articles::Article::get_by_tag(s, tag);
    if matching.len() == 0 {
        return None;
    }
    proof {
        let base = s.articles@.reverse();
        let mv = base.filter(crate::models::articles::with_tag(tag@));
        assert forall|i: int|
            0 <= i < matching@.len() implies 0 <= (#[trigger] matching@[i]).created_at
            <= MAX_TS by {
            assert(mv.contains(mv[i]));
            base.lemma_filter_contains_rev(crate::models::articles::with_tag(tag@), mv[i]);
            let q = choose|q: int| 0 <= q < base.len() && base[q] == mv[i];
            assert(base[q] == s.articles@[s.articles@.len() - 1 - q]);
        }
    }
    Some(group_articles_by_year(&matching))
}

/// What a save or delete of an entity comes to: the URL the browser is
/// sent to afterwards.
pub open spec fn edit_redirect<T: Editable>(entity: T, r: Result<T, Error>, url: Seq<char>) -> bool {
    match r {
        Ok(out) => url == out.redirect_url_spec(),
        Err(Error::PageTitleExists(t)) => url == "/admin"@ + "?message="@
            + "Page with title '"@ + t@ + "' (whose URL is also '/"@ + lower_of(t@)
            + "') already exists."@,
        Err(_) => url == "/admin"@ + "?message="@ + "Failed to save the changes, please try again."@,
    }
}

/// Saves a submitted entity: a new one is inserted, an existing one
/// updated. Success redirects to the entity's canonical URL; a title
/// conflict redirects to the dashboard naming the conflicting title and
/// the slug it occupies; any other failure redirects with a generic
/// message.
pub fn edit_entity<T: Editable>(store: &mut Store, entity: &T, is_new: bool, now: i64) -> (url:
    String)
    requires
        entity.save_pre(*old(store)),
        0 <= now <= MAX_TS,
    ensures
        final(store).wf(),
        is_new ==> exists|res: Result<T, Error>|
            #[trigger] T::insert_post(*old(store), *final(store), *entity, now, res)
                && edit_redirect(*entity, res, url@),
        !is_new ==> exists|res: Result<T, Error>|
            #[trigger] T::update_post(*old(store), *final(store), *entity, now, res)
                && edit_redirect(*entity, res, url@),
{
    let result = if is_new {
        entity.insert(store, now)
    } else {
        entity.update(store, now)
    };
    let ghost gres = result;
    match result {
        Ok(out) => out.get_redirect_url(),
        Err(Error::PageTitleExists(title)) => {
            let mut msg = String::new();
            msg.append("Page with title '");
            msg.append(title.as_str());
            msg.append("' (whose URL is also '/");
            let slug = crate::text::lowercase(title.as_str());
            msg.append(slug.as_str());
            msg.append("') already exists.");
            proof {
                assert(Seq::<char>::empty() + "Page with title '"@ =~= "Page with title '"@);
            }
            let url = redirect_with_message("/admin", msg.as_str());
            proof {
                assert(url@ =~= "/admin"@ + "?message="@ + "Page with title '"@ + title@
                    + "' (whose URL is also '/"@ + lower_of(title@) + "') already exists."@);
            }
            url
        },
        Err(_) => redirect_with_message("/admin", "Failed to save the changes, please try again."),
    }
}

/// Deletes a submitted entity. A submission without an identifier is a
/// no-op: the browser goes straight back to the dashboard and the store is
/// untouched. Otherwise the entity is deleted and the dashboard shown; a
/// failure redirects there with a message.
pub fn delete_entity<T: Editable>(store: &mut Store, entity: &T) -> (url: String)
    requires
        old(store).wf(),
    ensures
        final(store).wf(),
        entity.entity_id() is None ==> same_store(*old(store), *final(store)) && url@ == "/admin"@,
        entity.entity_id() is Some ==> exists|res: Result<(), Error>|
            #[trigger] T::delete_post(*old(store), *final(store), *entity, res) && match res {
                Ok(_) => url@ == "/admin"@,
                Err(_) => url@ == "/admin"@ + "?message="@
                    + "Failed to delete, please try again."@,
            },
{
    if entity.id().is_none() {
        return "/admin".to_owned();
    }
    let result = entity.delete(store);
    let ghost gres = result;
    match result {
        Ok(_) => "/admin".to_owned(),
        Err(_) => redirect_with_message("/admin", "Failed to delete, please try again."),
    }
}

} // verus!