//! The administrator account: a username and a salted password hash.

use vstd::prelude::*;

use crate::error::Error;
use crate::store::Store;

verus! {

pub struct User {
    pub username: String,
    pub password: String,
}

impl Clone for User {
    fn clone(&self) -> (r: Self)
        ensures
            r == *self,
    {
        User { username: self.username.clone(), password: self.password.clone() }
    }
}

impl User {
    /// The session of a user is keyed to the password hash itself, so that
    /// a password change invalidates every session issued before it.
    pub fn session_auth_hash(&self) -> (r: &String)
        ensures
            r@ == self.password@,
    {
        &self.password
    }
}

/// The first user carrying the username.
pub open spec fn find_user(users: Seq<User>, name: Seq<char>) -> Option<User>
    decreases users.len(),
{
    if users.len() == 0 {
        None
    } else if users[0].username@ == name {
        Some(users[0])
    } else {
        find_user(users.drop_first(), name)
    }
}

/// The whole effect of a password change: usernames stay, and each row's
/// hash moves by the compare-and-swap rule.
pub open spec fn password_swapped(
    pre: Seq<User>,
    post: Seq<User>,
    name: Seq<char>,
    old_hash: Seq<char>,
    new_hash: Seq<char>,
) -> bool {
    &&& post.len() == pre.len()
    &&& forall|k: int|
        0 <= k < pre.len() ==> (#[trigger] post[k]).username@ == pre[k].username@
            && post[k].password@ == cas_password(pre[k], name, old_hash, new_hash)
}

/// The row the password change leaves for this stored user: the hash moves
/// to the new one only when username and old hash both matched.
pub open spec fn cas_password(
    u: User,
    name: Seq<char>,
    old_hash: Seq<char>,
    new_hash: Seq<char>,
) -> Seq<char> {
    if u.username@ == name && u.password@ == old_hash {
        new_hash
    } else {
        u.password@
    }
}

impl User {
    /// The user with the username, when there is one.
    pub fn get_by_username(s: &Store, username: &str) -> (r: Option<User>)
        ensures
            r == find_user(s.users@, username@),
            r is None <==> (forall|k: int|
                0 <= k < s.users@.len() ==> (#[trigger] s.users@[k]).username@ != username@),
    {
        let uname = username.to_owned();
        let n = s.users.len();
        let mut i: usize = 0;
        proof {
            assert(s.users@.skip(0) =~= s.users@);
        }
        while i < n
            invariant
                i <= n,
                n == s.users.len(),
                uname@ == username@,
                find_user(s.users@, username@) == find_user(s.users@.skip(i as int), username@),
                forall|k: int|
                    0 <= k < i ==> (#[trigger] s.users@[k]).username@ != username@,
            decreases n - i,
        {
            proof {
                assert(s.users@.skip(i as int)[0] == s.users@[i as int]);
            }
            if s.users[i].username == uname {
                return Some(s.users[i].clone());
            }
            proof {
                assert(s.users@.skip(i + 1) =~= s.users@.skip(i as int).drop_first());
            }
            i += 1;
        }
        proof {
            assert(s.users@.skip(n as int).len() == 0);
        }
        None
    }

    /// Changes the password hash, guarded by a compare-and-swap: a row is
    /// touched only where both the username and the old hash still match.
    /// As in the underlying UPDATE, matching zero rows is not an error.
    pub fn modify_password(s: &mut Store, username: &str, old_password: &str, new_password: &str)
        -> (r: Result<(), Error>)
        requires
            old(s).wf(),
        ensures
            final(s).wf(),
            r is Ok,
            password_swapped(old(s).users@, final(s).users@, username@, old_password@,
                new_password@),
            final(s).articles@ == old(s).articles@,
            final(s).tag_rows@ == old(s).tag_rows@,
            final(s).pages@ == old(s).pages@,
            final(s).next_article_id == old(s).next_article_id,
            final(s).next_page_id == old(s).next_page_id,
    {
        let uname = username.to_owned();
        let old_pw = old_password.to_owned();
        let n = s.users.len();
        let mut updated: Vec<User> = Vec::new();
        let mut i: usize = 0;
        while i < n
            invariant
                i <= n,
                n == s.users.len(),
                uname@ == username@,
                old_pw@ == old_password@,
                updated@.len() == i,
                forall|k: int|
                    0 <= k < i ==> (#[trigger] updated@[k]).username@ == s.users@[k].username@
                        && updated@[k].password@ == cas_password(
                        s.users@[k],
                        username@,
                        old_password@,
                        new_password@,
                    ),
            decreases n - i,
        {
            let u = &s.users[i];
            if u.username == uname && u.password == old_pw {
                updated.push(User { username: u.username.clone(), password: new_password.to_owned() });
            } else {
                updated.push(u.clone());
            }
            i += 1;
        }
        s.users = updated;
        proof {
            assert(crate::store::users_ok(s.users@)) by {
                assert forall|a: int, b: int|
                    0 <= a < b < s.users@.len() implies (#[trigger] s.users@[a]).username@ != (
                #[trigger] s.users@[b]).username@ by {
                    assert((#[trigger] old(s).users@[a]).username@ != (
                    #[trigger] old(s).users@[b]).username@);
                }
            }
        }
        Ok(())
    }

    /// Seeds the user when the username is still free; an existing row is
    /// left alone.
    pub fn insert(s: &mut Store, username: &str, password: &str) -> (r: Result<(), Error>)
        requires
            old(s).wf(),
        ensures
            final(s).wf(),
            r is Ok,
            (exists|k: int|
                0 <= k < old(s).users@.len() && (#[trigger] old(s).users@[k]).username@
                    == username@) ==> final(s).users@ == old(s).users@,
            (forall|k: int|
                0 <= k < old(s).users@.len() ==> (#[trigger] old(s).users@[k]).username@
                    != username@) ==> ({
                &&& final(s).users@.len() == old(s).users@.len() + 1
                &&& final(s).users@.last().username@ == username@
                &&& final(s).users@.last().password@ == password@
                &&& forall|k: int|
                    0 <= k < old(s).users@.len() ==> #[trigger] final(s).users@[k]
                        == old(s).users@[k]
            }),
            final(s).articles@ == old(s).articles@,
            final(s).tag_rows@ == old(s).tag_rows@,
            final(s).pages@ == old(s).pages@,
            final(s).next_article_id == old(s).next_article_id,
            final(s).next_page_id == old(s).next_page_id,
    {
        if Self::get_by_username(s, username).is_some() {
            proof {
                let u = find_user(s.users@, username@);
                lemma_find_user_exists(s.users@, username@);
            }
            return Ok(());
        }
        s.users.push(User { username: username.to_owned(), password: password.to_owned() });
        proof {
            assert(crate::store::users_ok(s.users@)) by {
                let m = old(s).users@.len();
                assert(forall|k: int|
                    0 <= k < m ==> #[trigger] s.users@[k] == old(s).users@[k]);
                assert(s.users@[m as int].username@ == username@);
            }
        }
        Ok(())
    }

    /// Succeeds exactly when some user row exists.
    pub fn try_check_initialization(s: &Store) -> (r: Result<(), Error>)
        ensures
            r is Ok <==> s.users@.len() > 0,
            r is Err ==> r->Err_0 == Error::NotFound,
    {
        if s.users.len() > 0 {
            Ok(())
        } else {
            Err(Error::NotFound)
        }
    }
}

/// A password change guarded by a stale hash is a no-op for that user: the
/// stored hash stays what it was, so the validity of any session — keyed
/// to the hash it was issued under — is exactly what it was before.
pub proof fn lemma_stale_change_keeps_sessions(
    pre: Seq<User>,
    post: Seq<User>,
    name: Seq<char>,
    old_hash: Seq<char>,
    new_hash: Seq<char>,
    k: int,
    session_hash: Seq<char>,
)
    requires
        password_swapped(pre, post, name, old_hash, new_hash),
        0 <= k < pre.len(),
        pre[k].password@ != old_hash,
    ensures
        post[k].password@ == pre[k].password@,
        (session_hash == post[k].password@) <==> (session_hash == pre[k].password@),
{
}

/// Once the swap actually lands, sessions keyed to the old hash are cut
/// off: the stored hash becomes the new one.
pub proof fn lemma_successful_change_invalidates(
    pre: Seq<User>,
    post: Seq<User>,
    name: Seq<char>,
    old_hash: Seq<char>,
    new_hash: Seq<char>,
    k: int,
)
    requires
        password_swapped(pre, post, name, old_hash, new_hash),
        0 <= k < pre.len(),
        pre[k].username@ == name,
        pre[k].password@ == old_hash,
        new_hash != old_hash,
    ensures
        post[k].password@ == new_hash,
        post[k].password@ != old_hash,
{
}

proof fn lemma_find_user_exists(users: Seq<User>, name: Seq<char>)
    ensures
        find_user(users, name) is Some <==> (exists|k: int|
            0 <= k < users.len() && (#[trigger] users[k]).username@ == name),
    decreases users.len(),
{
    if users.len() > 0 {
        if users[0].username@ == name {
            assert((#[trigger] users[0]).username@ == name);
        } else {
            lemma_find_user_exists(users.drop_first(), name);
            if find_user(users, name) is Some {
                let k = choose|k: int|
                    0 <= k < users.drop_first().len() && (
                    #[trigger] users.drop_first()[k]).username@ == name;
                assert((#[trigger] users[k + 1]).username@ == name);
            } else {
                assert forall|k: int|
                    0 <= k < users.len() implies (#[trigger] users[k]).username@ != name by {
                    if k > 0 {
                        assert(users.drop_first()[k - 1] == users[k]);
                        assert((#[trigger] users.drop_first()[k - 1]).username@ != name);
                    }
                }
            }
        }
    }
}

} // verus!
