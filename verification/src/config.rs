//! The process configuration: validated once at startup, then read-only.
//! Loading it from disk is the application shell's business; the checks and
//! the derived connection strings live here.

use vstd::prelude::*;

use crate::error::Error;
use crate::text::dec_str;
use crate::text::push_char;
use crate::text::u64_to_string;

verus! {

pub struct Deploy {
    pub host: String,
    pub port: u16,
}

pub struct Meta {
    pub blog_name: String,
    pub blog_url: String,
    pub blog_author: String,
    pub about_url: Option<String>,
}

pub struct Admin {
    pub username: String,
    pub inactive_expiry_days: Option<i64>,
}

pub struct Style {
    pub article_per_page: u32,
    pub code_syntax_highlight_theme: String,
}

pub struct MySQL {
    pub connection_url: Option<String>,
    pub username: Option<String>,
    pub password: Option<String>,
    pub host: Option<String>,
    pub port: Option<u16>,
    pub database: Option<String>,
}

pub struct Giscus {
    pub enable: bool,
    pub category: String,
    pub category_id: String,
    pub emit_metadata: String,
    pub input_position: String,
    pub lang: String,
    pub loading: String,
    pub mapping: String,
    pub reactions_enabled: String,
    pub repo: String,
    pub repo_id: String,
    pub theme: String,
}

pub struct Analytics {
    pub google: Option<String>,
    pub plausible: Option<String>,
}

pub struct Config {
    pub deploy: Deploy,
    pub meta: Meta,
    pub admin: Admin,
    pub style: Style,
    pub mysql: MySQL,
    pub giscus: Giscus,
    pub analytics: Analytics,
}

/// The deployment section names a host and a non-zero port.
pub open spec fn deploy_ok(c: Config) -> bool {
    c.deploy.host@.len() > 0 && c.deploy.port != 0
}

/// The database section gives either a whole connection URL or every part
/// needed to build one.
pub open spec fn mysql_ok(c: Config) -> bool {
    ||| c.mysql.connection_url is Some
    ||| (c.mysql.username is Some && c.mysql.password is Some && c.mysql.host is Some
        && c.mysql.port is Some && c.mysql.database is Some)
}

/// The URL built from the parts when no whole one is given.
pub open spec fn built_mysql_url(c: Config) -> Seq<char> {
    "mysql://"@ + c.mysql.username->0@ + ":"@ + c.mysql.password->0@ + "@"@ + c.mysql.host->0@
        + ":"@ + dec_str(c.mysql.port->0 as nat) + "/"@ + c.mysql.database->0@
}

impl Config {
    /// Accepts the configuration exactly when the deployment section and
    /// the database section are both complete, and says which one is not.
    pub fn validate(&self) -> (r: Result<(), Error>)
        ensures
            r is Ok <==> deploy_ok(*self) && mysql_ok(*self),
            !deploy_ok(*self) ==> (r matches Result::Err(e) && e matches Error::ConfigValidation(m)
                && m@ == "invalid deployment config, please specify the host and port"@),
            deploy_ok(*self) && !mysql_ok(*self) ==> (r matches Result::Err(e) && e matches Error::ConfigValidation(
                m,
            ) && m@
                == "invalid MySQL config, please specify the connection URL or the username, password, host, port and database"@),
    {
        if self.deploy.host.as_str().is_empty() || self.deploy.port == 0 {
            let m = "invalid deployment config, please specify the host and port";
            return Err(Error::ConfigValidation(m.to_owned()));
        }
        if self.mysql.connection_url.is_none() && (self.mysql.username.is_none()
            || self.mysql.password.is_none() || self.mysql.host.is_none()
            || self.mysql.port.is_none() || self.mysql.database.is_none()) {
            let m =
                "invalid MySQL config, please specify the connection URL or the username, password, host, port and database";
            return Err(Error::ConfigValidation(m.to_owned()));
        }
        Ok(())
    }

    /// The address the server binds, `host:port`.
    pub fn server_url(&self) -> (r: String)
        ensures
            r@ == self.deploy.host@ + seq![':'] + dec_str(self.deploy.port as nat),
    {
        let mut s = self.deploy.host.clone();
        push_char(&mut s, ':');
        let digits = u64_to_string(self.deploy.port as u64);
        s.append(digits.as_str());
        proof {
            assert(self.deploy.host@.push(':') =~= self.deploy.host@ + seq![':']);
        }
        s
    }

    /// The database connection URL: the configured one when given, else one
    /// built from the parts.
    pub fn mysql_connection_url(&self) -> (r: String)
        requires
            mysql_ok(*self),
        ensures
            self.mysql.connection_url is Some ==> r@ == self.mysql.connection_url->0@,
            self.mysql.connection_url is None ==> r@ == built_mysql_url(*self),
    {
        match &self.mysql.connection_url {
            Some(url) => url.clone(),
            None => {
                let mut s = String::new();
                s.append("mysql://");
                s.append(self.mysql.username.as_ref().unwrap().as_str());
                s.append(":");
                s.append(self.mysql.password.as_ref().unwrap().as_str());
                s.append("@");
                s.append(self.mysql.host.as_ref().unwrap().as_str());
                s.append(":");
                let digits = u64_to_string(*self.mysql.port.as_ref().unwrap() as u64);
                s.append(digits.as_str());
                s.append("/");
                s.append(self.mysql.database.as_ref().unwrap().as_str());
                proof {
                    assert(Seq::<char>::empty() + "mysql://"@ =~= "mysql://"@);
                    assert(s@ =~= built_mysql_url(*self));
                }
                s
            },
        }
    }

    pub fn admin_username(&self) -> (r: String)
        ensures
            r@ == self.admin.username@,
    {
        self.admin.username.clone()
    }

    /// The session inactivity expiry in days, thirty when not configured.
    pub fn admin_inactive_expiry_days(&self) -> (r: i64)
        ensures
            r == match self.admin.inactive_expiry_days {
                Some(d) => d,
                None => 30,
            },
    {
        match self.admin.inactive_expiry_days {
            Some(d) => d,
            None => 30,
        }
    }

    pub fn article_per_page(&self) -> (r: u32)
        ensures
            r == self.style.article_per_page,
    {
        self.style.article_per_page
    }

    pub fn code_syntax_highlight_theme(&self) -> (r: String)
        ensures
            r@ == self.style.code_syntax_highlight_theme@,
    {
        self.style.code_syntax_highlight_theme.clone()
    }
}

} // verus!
