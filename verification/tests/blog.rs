use rsomhap::handlers::{page_decision, ping, PageDecision};
use rsomhap::models::articles::Article;
use rsomhap::models::pages::Page;
use rsomhap::models::users::User;
use rsomhap::store::Store;
use rsomhap::utils::{sort_out_tags, Editable, EditorForm};

#[test]
fn test_organize_tags() {
    assert_eq!(
        sort_out_tags("hello,world,foo,bar"),
        "bar, foo, hello, world"
    );
    assert_eq!(
        sort_out_tags("hello,world,foo,bar,"),
        "bar, foo, hello, world"
    );
    assert_eq!(
        sort_out_tags(",hello,world,foo,bar,"),
        "bar, foo, hello, world"
    );
    assert_eq!(
        sort_out_tags(",,,hello,world,foo,bar, ,  ,"),
        "bar, foo, hello, world"
    );
    assert_eq!(
        sort_out_tags("hello,world,world,foo,bar,,foo"),
        "bar, foo, hello, world"
    );
    assert_eq!(sort_out_tags(""), "");
    assert_eq!(sort_out_tags(",,,,"), "");
}

#[test]
fn sort_out_tags_is_idempotent() {
    let once = sort_out_tags("b, a, c, a");
    let twice = sort_out_tags(&once);
    assert_eq!(once, twice);
    assert_eq!(once, "a, b, c");
}

#[test]
fn sort_out_tags_is_order_independent() {
    assert_eq!(sort_out_tags("x,y,z"), sort_out_tags("z,,y , x"));
}

#[test]
fn created_article_keeps_its_tokens() {
    let mut s = Store::new();
    let draft = Article::from_form(EditorForm {
        id: None,
        title: Some("First".to_string()),
        tags: Some("world, hello,hello".to_string()),
        content: Some("body".to_string()),
    });
    let created = draft.insert(&mut s, 1_000).unwrap();
    let id = created.id.unwrap();
    let fetched = Article::get_by_id(&s, id).unwrap();
    assert_eq!(fetched.tags, "hello, world");
}

#[test]
fn page_title_conflict_is_case_insensitive() {
    let mut s = Store::new();
    let about = Page::from_form(EditorForm {
        id: None,
        title: Some("About".to_string()),
        tags: None,
        content: Some("hi".to_string()),
    });
    let first = about.insert(&mut s, 1_000).unwrap();
    let clash = Page::from_form(EditorForm {
        id: None,
        title: Some("about".to_string()),
        tags: None,
        content: Some("again".to_string()),
    });
    match clash.insert(&mut s, 1_001) {
        Err(rsomhap::error::Error::PageTitleExists(t)) => assert_eq!(t, "about"),
        other => panic!("expected a title conflict, got {:?}", other.is_ok()),
    }
    // updating the first page back to its own title succeeds
    let keep = Page {
        id: first.id,
        title: "About".to_string(),
        content: "hi".to_string(),
        created_at: 0,
        updated_at: 0,
    };
    assert!(keep.update(&mut s, 1_002).is_ok());
}

#[test]
fn pagination_bounds() {
    // pageSize 10 and count 25 give three pages
    match page_decision(3, 25, 10) {
        PageDecision::Show { max_page } => assert_eq!(max_page, 3),
        PageDecision::NotFound => panic!("page 3 of 25/10 exists"),
    }
    assert!(matches!(page_decision(4, 25, 10), PageDecision::NotFound));
    assert!(matches!(page_decision(0, 25, 10), PageDecision::NotFound));
    assert!(matches!(page_decision(-1, 25, 10), PageDecision::NotFound));
}

#[test]
fn stale_password_change_leaves_hash() {
    let mut s = Store::new();
    User::insert(&mut s, "admin", "hash-one").unwrap();
    User::modify_password(&mut s, "admin", "wrong-old", "hash-two").unwrap();
    let u = User::get_by_username(&s, "admin").unwrap();
    assert_eq!(u.password, "hash-one");
    User::modify_password(&mut s, "admin", "hash-one", "hash-two").unwrap();
    let u = User::get_by_username(&s, "admin").unwrap();
    assert_eq!(u.password, "hash-two");
}

#[test]
fn login_and_guard_redirects() {
    let mut s = Store::new();
    let admin = "admin";
    let hash = rsomhap::auth::generate_password_hash("secret");
    User::insert(&mut s, admin, &hash).unwrap();
    let creds = rsomhap::auth::Credentials {
        username: "admin".to_string(),
        password: "secret".to_string(),
        next: None,
    };
    match rsomhap::handlers::login_decision(&s, Some(creds)) {
        rsomhap::handlers::LoginOutcome::SetSessionAndRedirect { user, to } => {
            assert_eq!(user.username, "admin");
            assert_eq!(to, "/admin");
        }
        _ => panic!("valid credentials must log in"),
    }
    assert_eq!(
        rsomhap::handlers::login_redirect_url("/admin/change_password"),
        "/login?next=/admin/change_password"
    );
}

#[test]
fn delete_without_id_is_noop() {
    let mut s = Store::new();
    let draft = Article::from_form(EditorForm {
        id: None,
        title: Some("Keep me".to_string()),
        tags: Some("t".to_string()),
        content: Some("body".to_string()),
    });
    draft.insert(&mut s, 1_000).unwrap();
    let no_id = Article {
        id: None,
        title: String::new(),
        content: String::new(),
        tags: String::new(),
        created_at: 0,
        updated_at: 0,
    };
    let url = rsomhap::handlers::delete_entity(&mut s, &no_id);
    assert_eq!(url, "/admin");
    assert_eq!(Article::get_total_count(&s), 1);
}

#[test]
fn image_urls_match_reference_pattern() {
    let text = "intro ![a](one.png) mid ![b](two.jpg) \n ![broken](no-close \n ![c](three.gif)";
    let ours = rsomhap::content::extract_image_urls(text);
    let re = regex::Regex::new(r"\!\[.*?\]\((.*?)\)").unwrap();
    let reference: Vec<String> = re
        .captures_iter(text)
        .map(|c| c.get(1).unwrap().as_str().to_string())
        .collect();
    assert_eq!(ours, reference);
    assert_eq!(ours, vec!["one.png", "two.jpg", "three.gif"]);
}

#[test]
fn lowercase_lookup_finds_page() {
    let mut s = Store::new();
    let p = Page::from_form(EditorForm {
        id: None,
        title: Some("Contact".to_string()),
        tags: None,
        content: Some("mail".to_string()),
    });
    p.insert(&mut s, 1_000).unwrap();
    let found = Page::get_by_title(&s, "CONTACT").unwrap();
    assert_eq!(found.title, "Contact");
    assert!(Page::get_by_title(&s, "missing").is_none());
}

#[test]
fn grouped_years_are_descending() {
    let mut s = Store::new();
    for (title, ts) in [("old", 0i64), ("new", 1_700_000_000i64), ("mid", 900_000_000i64)] {
        let a = Article {
            id: None,
            title: title.to_string(),
            content: String::new(),
            tags: "t".to_string(),
            created_at: 0,
            updated_at: 0,
        };
        let created = a.insert(&mut s, ts).unwrap();
        assert!(created.id.is_some());
    }
    let groups = rsomhap::handlers::articles_by_year(&s);
    let years: Vec<i32> = groups.iter().map(|g| g.year).collect();
    assert_eq!(years, vec![2023, 1998, 1970]);
}

#[test]
fn ping_replies_pong() {
    assert_eq!(ping(), "pong");
}

#[test]
fn changed_password_verifies_afterwards() {
    let mut s = Store::new();
    let hash = rsomhap::auth::generate_password_hash("first");
    User::insert(&mut s, "admin", &hash).unwrap();
    let session_user = "admin".to_string();
    let url = rsomhap::handlers::change_password_flow(&mut s, Some(&session_user), "first", "second");
    assert_eq!(url, "/admin");
    let good = rsomhap::auth::Credentials {
        username: "admin".to_string(),
        password: "second".to_string(),
        next: None,
    };
    assert!(rsomhap::auth::authenticate(&s, &good).is_some());
    let stale = rsomhap::auth::Credentials {
        username: "admin".to_string(),
        password: "first".to_string(),
        next: None,
    };
    assert!(rsomhap::auth::authenticate(&s, &stale).is_none());
}

#[test]
fn pagination_zero_page_size_mirrors_float_division() {
    // the original computed ceil with floats: anything divided by zero
    // pages still shows, nothing divided by zero has no pages
    match page_decision(4, 25, 0) {
        PageDecision::Show { max_page } => assert_eq!(max_page, u32::MAX),
        PageDecision::NotFound => panic!("page size zero never rejects a page of something"),
    }
    match page_decision(1, 0, 0) {
        PageDecision::Show { max_page } => assert_eq!(max_page, 0),
        PageDecision::NotFound => panic!("max page zero is not rejected"),
    }
}

#[test]
fn tag_listing_counts_and_order() {
    let mut s = Store::new();
    for tags in ["shared, rare", "shared", "shared, other"] {
        let a = Article::from_form(EditorForm {
            id: None,
            title: Some("t".to_string()),
            tags: Some(tags.to_string()),
            content: None,
        });
        a.insert(&mut s, 1_000).unwrap();
    }
    let listing = rsomhap::models::articles::Tags::get_all_with_count(&s);
    assert_eq!(listing.len(), 3);
    assert_eq!(listing[0].name, "shared");
    assert_eq!(listing[0].num, 3);
    for w in listing.windows(2) {
        assert!(w[0].num >= w[1].num);
    }
    let names: Vec<&str> = listing.iter().map(|t| t.name.as_str()).collect();
    assert!(names.contains(&"rare") && names.contains(&"other"));
}

#[test]
fn markdown_renders_to_html() {
    let config = rsomhap::config::Config {
        deploy: rsomhap::config::Deploy { host: "localhost".to_string(), port: 8080 },
        meta: rsomhap::config::Meta {
            blog_name: "b".to_string(),
            blog_url: "http://localhost".to_string(),
            blog_author: "a".to_string(),
            about_url: None,
        },
        admin: rsomhap::config::Admin { username: "admin".to_string(), inactive_expiry_days: None },
        style: rsomhap::config::Style {
            article_per_page: 10,
            code_syntax_highlight_theme: "InspiredGitHub".to_string(),
        },
        mysql: rsomhap::config::MySQL {
            connection_url: Some("mysql://u:p@h:3306/d".to_string()),
            username: None,
            password: None,
            host: None,
            port: None,
            database: None,
        },
        giscus: rsomhap::config::Giscus {
            enable: false,
            category: String::new(),
            category_id: String::new(),
            emit_metadata: String::new(),
            input_position: String::new(),
            lang: String::new(),
            loading: String::new(),
            mapping: String::new(),
            reactions_enabled: String::new(),
            repo: String::new(),
            repo_id: String::new(),
            theme: String::new(),
        },
        analytics: rsomhap::config::Analytics { google: None, plausible: None },
    };
    let html = rsomhap::content::md_to_html(&config, "hello *there* ~~gone~~");
    assert_ne!(html, "hello *there* ~~gone~~");
    assert!(html.contains("<em>there</em>"));
    assert!(html.contains("<del>gone</del>"));
}

#[test]
fn display_labels() {
    let a = Article {
        id: Some(7),
        title: "Hi".to_string(),
        content: String::new(),
        tags: "x, y".to_string(),
        created_at: 0,
        updated_at: 0,
    };
    assert_eq!(a.display_label(), "article 7 <Hi> [x, y]");
    let p = Page {
        id: None,
        title: String::new(),
        content: String::new(),
        created_at: 0,
        updated_at: 0,
    };
    assert_eq!(p.display_label(), "page");
}

#[test]
fn picked_image_is_one_of_the_urls() {
    let text = "![a](one.png) and ![b](two.png)";
    let picked = rsomhap::content::pick_random_image(text).unwrap();
    assert!(picked == "one.png" || picked == "two.png");
    assert!(rsomhap::content::pick_random_image("no images here").is_none());
}
