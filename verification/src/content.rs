//! Markdown image references: the URLs of `![alt](url)` occurrences in an
//! article's body, found by a left-to-right scan with lazy matching — the
//! alt text runs to the first `](` that still has a closing parenthesis on
//! the same line, and the URL to the first `)` after it; matches do not
//! overlap, and neither part may span a line break.

use vstd::prelude::*;

use crate::text::chars_of;
use crate::text::chars_to_string;

verus! {

/// The first position at or past `j` holding the character, or the length.
pub open spec fn first_from(s: Seq<char>, j: int, c: char) -> int
    decreases s.len() - j,
    when 0 <= j <= s.len()
{
    if j >= s.len() {
        s.len() as int
    } else if s[j] == c {
        j
    } else {
        first_from(s, j + 1, c)
    }
}

pub proof fn lemma_first_from(s: Seq<char>, j: int, c: char)
    requires
        0 <= j <= s.len(),
    ensures
        j <= first_from(s, j, c) <= s.len(),
        first_from(s, j, c) < s.len() ==> s[first_from(s, j, c)] == c,
        forall|t: int| j <= t < first_from(s, j, c) ==> s[t] != c,
    decreases s.len() - j,
{
    if j < s.len() && s[j] != c {
        lemma_first_from(s, j + 1, c);
    }
}

/// Pins the first occurrence: nothing before `m`, and a hit at `m` when
/// not past the end.
pub proof fn lemma_first_from_at(s: Seq<char>, j: int, c: char, m: int)
    requires
        0 <= j <= m <= s.len(),
        forall|t: int| j <= t < m ==> s[t] != c,
        m < s.len() ==> s[m] == c,
    ensures
        first_from(s, j, c) == m,
    decreases m - j,
{
    if j < m {
        lemma_first_from_at(s, j + 1, c, m);
    }
}

/// A closing parenthesis follows on the same line.
pub open spec fn has_close(s: Seq<char>, k: int) -> bool {
    first_from(s, k, ')') < s.len() && first_from(s, k, ')') < first_from(s, k, '\n')
}

/// Position `k` closes the alt text opened at `i2`: a `](` with the alt
/// text free of line breaks, and a close parenthesis reachable after it.
pub open spec fn bracket_at(s: Seq<char>, i2: int, k: int) -> bool {
    &&& k + 1 < s.len()
    &&& s[k] == ']'
    &&& s[k + 1] == '('
    &&& first_from(s, i2, '\n') >= k
    &&& has_close(s, k + 2)
}

/// The first position at or past `j` that closes the alt text, or the
/// length when none does.
pub open spec fn first_bracket(s: Seq<char>, i2: int, j: int) -> int
    decreases s.len() - j,
    when 0 <= j <= s.len()
{
    if j + 1 >= s.len() {
        s.len() as int
    } else if bracket_at(s, i2, j) {
        j
    } else {
        first_bracket(s, i2, j + 1)
    }
}

pub proof fn lemma_first_bracket(s: Seq<char>, i2: int, j: int)
    requires
        0 <= j <= s.len(),
    ensures
        j <= first_bracket(s, i2, j) <= s.len(),
        first_bracket(s, i2, j) < s.len() ==> bracket_at(s, i2, first_bracket(s, i2, j)),
        forall|t: int| j <= t < first_bracket(s, i2, j) ==> !bracket_at(s, i2, t),
    decreases s.len() - j,
{
    if j + 1 < s.len() && !bracket_at(s, i2, j) {
        lemma_first_bracket(s, i2, j + 1);
    } else if j + 1 >= s.len() {
        assert forall|t: int| j <= t < first_bracket(s, i2, j) implies !bracket_at(s, i2, t) by {
            assert(t + 1 >= s.len());
        }
    }
}

pub proof fn lemma_first_bracket_at(s: Seq<char>, i2: int, j: int, k: int)
    requires
        0 <= j <= k <= s.len(),
        forall|t: int| j <= t < k ==> !bracket_at(s, i2, t),
        k < s.len() ==> bracket_at(s, i2, k),
    ensures
        k < s.len() ==> first_bracket(s, i2, j) == k,
        k == s.len() ==> first_bracket(s, i2, j) == s.len(),
    decreases k - j,
{
    if j < k {
        lemma_first_bracket_at(s, i2, j + 1, k);
    } else if k < s.len() {
        assert(bracket_at(s, i2, k));
        assert(k + 1 < s.len());
    }
}

/// The image reference syntax opens here and can be completed.
pub open spec fn match_at(s: Seq<char>, i: int) -> bool {
    &&& i + 1 < s.len()
    &&& s[i] == '!'
    &&& s[i + 1] == '['
    &&& first_bracket(s, i + 2, i + 2) < s.len()
}

/// The image URLs found scanning from position `i`.
pub open spec fn image_urls_from(s: Seq<char>, i: int) -> Seq<Seq<char>>
    decreases s.len() - i,
    when 0 <= i
{
    if i >= s.len() {
        Seq::empty()
    } else if match_at(s, i) && first_bracket(s, i + 2, i + 2) >= i + 2 && first_from(
        s,
        first_bracket(s, i + 2, i + 2) + 2,
        ')',
    ) >= first_bracket(s, i + 2, i + 2) + 2 && first_from(
        s,
        first_bracket(s, i + 2, i + 2) + 2,
        ')',
    ) < s.len() {
        let k = first_bracket(s, i + 2, i + 2);
        let m = first_from(s, k + 2, ')');
        seq![s.subrange(k + 2, m)] + image_urls_from(s, m + 1)
    } else {
        image_urls_from(s, i + 1)
    }
}

/// The image URLs of the whole text, leftmost first.
pub open spec fn image_urls(s: Seq<char>) -> Seq<Seq<char>> {
    image_urls_from(s, 0)
}

/// Every `![alt](url)` URL in the text, in order of appearance.
pub fn extract_image_urls(content: &str) -> (v: Vec<String>)
    ensures
        v@.map_values(|u: String| u@) == image_urls(content@),
{
    let cs = chars_of(content);
    let ghost s = content@;
    let n = cs.len();
    let mut v: Vec<String> = Vec::new();
    let mut i: usize = 0;
    proof {
        assert(v@.map_values(|u: String| u@) =~= Seq::<Seq<char>>::empty());
        assert(image_urls(s) =~= v@.map_values(|u: String| u@) + image_urls_from(s, 0));
    }
    while i < n
        invariant
            i <= n,
            n == s.len(),
            cs@ == s,
            image_urls(s) == v@.map_values(|u: String| u@) + image_urls_from(s, i as int),
        decreases n - i,
    {
        if cs[i] == '!' && i + 1 < n && cs[i + 1] == '[' {
            // look for the `](` that closes the alt text on this line
            let mut k: usize = i + 2;
            let mut found_k: usize = 0;
            let mut found_m: usize = 0;
            let mut found = false;
            let mut dead = false;
            while n - k > 1
                invariant
                    i + 2 <= k <= n,
                    found ==> k == n,
                    dead ==> k == n,
                    n == s.len(),
                    cs@ == s,
                    !found && !dead ==> forall|t: int|
                        i + 2 <= t < k ==> !(#[trigger] bracket_at(s, i + 2, t)),
                    !found && !dead ==> forall|t: int| i + 2 <= t < k ==> (#[trigger] s[t]) != '\n',
                    found ==> i + 2 <= found_k < n && bracket_at(s, i + 2, found_k as int) && (
                    forall|t: int|
                        i + 2 <= t < found_k ==> !(#[trigger] bracket_at(s, i + 2, t))) && found_k
                        + 2 <= found_m < n && first_from(s, found_k + 2, ')') == found_m,
                    dead ==> forall|t: int|
                        i + 2 <= t < s.len() ==> !(#[trigger] bracket_at(s, i + 2, t)),
                decreases n - k,
            {
                if cs[k] == '\n' {
                    proof {
                        // the line ends before any further candidate
                        lemma_first_from_at(s, i + 2, '\n', k as int);
                        assert forall|t: int|
                            i + 2 <= t < s.len() implies !(#[trigger] bracket_at(s, i + 2, t)) by {
                            if t >= k {
                                assert(first_from(s, i + 2, '\n') == k);
                                if t == k {
                                    assert(s[t] == '\n');
                                }
                            }
                        }
                    }
                    dead = true;
                    k = n;
                } else if cs[k] == ']' && cs[k + 1] == '(' {
                    // lazy URL: take the first close parenthesis on the line
                    let mut m: usize = k + 2;
                    while m < n && cs[m] != ')' && cs[m] != '\n'
                        invariant
                            k + 2 <= m <= n,
                            n == s.len(),
                            cs@ == s,
                            forall|t: int|
                                k + 2 <= t < m ==> (#[trigger] s[t]) != ')' && s[t] != '\n',
                        decreases n - m,
                    {
                        m += 1;
                    }
                    let hit = m < n && cs[m] == ')';
                    if hit {
                        proof {
                            lemma_first_from_at(s, k + 2, ')', m as int);
                            lemma_first_from(s, k + 2, '\n');
                            if first_from(s, k + 2, '\n') <= m as int {
                                assert(s[first_from(s, k + 2, '\n')] == '\n');
                            }
                            assert(has_close(s, k + 2));
                            assert(first_from(s, i + 2, '\n') >= k) by {
                                lemma_first_from(s, i + 2, '\n');
                                if first_from(s, i + 2, '\n') < k {
                                    assert(s[first_from(s, i + 2, '\n')] == '\n');
                                }
                            }
                            assert(bracket_at(s, i + 2, k as int));
                        }
                        found_k = k;
                        found_m = m;
                        found = true;
                        k = n;
                    } else {
                        proof {
                            // no close on this line: this candidate is dead
                            lemma_first_from(s, k + 2, ')');
                            let fp = first_from(s, k + 2, ')');
                            if m < n {
                                // stopped on a line break
                                assert(s[m as int] == '\n');
                                if fp < s.len() {
                                    assert(s[fp] == ')');
                                    assert(fp > m as int);
                                }
                                lemma_first_from_at(s, k + 2, '\n', m as int);
                                assert(first_from(s, k + 2, '\n') == m);
                                assert(!has_close(s, k + 2));
                            } else {
                                // ran off the end
                                if fp < s.len() {
                                    assert(s[fp] == ')');
                                }
                                assert(!has_close(s, k + 2));
                            }
                            assert(!bracket_at(s, i + 2, k as int));
                        }
                        k += 1;
                    }
                } else {
                    proof {
                        assert(!bracket_at(s, i + 2, k as int));
                    }
                    k += 1;
                }
            }
            if found {
                let mut url_chars: Vec<char> = Vec::new();
                let mut t: usize = found_k + 2;
                while t < found_m
                    invariant
                        found_k + 2 <= t <= found_m <= n,
                        n == s.len(),
                        cs@ == s,
                        url_chars@ == s.subrange(found_k + 2, t as int),
                    decreases found_m - t,
                {
                    url_chars.push(cs[t]);
                    proof {
                        assert(s.subrange(found_k + 2, t + 1) =~= s.subrange(
                            found_k + 2,
                            t as int,
                        ).push(s[t as int]));
                    }
                    t += 1;
                }
                let url = chars_to_string(&url_chars);
                let ghost before = v@;
                v.push(url);
                proof {
                    lemma_first_bracket_at(s, i + 2, i + 2, found_k as int);
                    assert(first_bracket(s, i + 2, i + 2) == found_k);
                    assert(match_at(s, i as int));
                    assert(image_urls_from(s, i as int) == seq![
                        s.subrange(found_k + 2, found_m as int),
                    ] + image_urls_from(s, found_m + 1));
                    assert(v@.map_values(|u: String| u@) =~= before.map_values(|u: String| u@)
                        + seq![s.subrange(found_k + 2, found_m as int)]);
                    assert(image_urls(s) =~= v@.map_values(|u: String| u@) + image_urls_from(
                        s,
                        found_m + 1,
                    ));
                }
                i = found_m + 1;
            } else {
                proof {
                    if dead {
                        lemma_first_bracket_at(s, i + 2, i + 2, s.len() as int);
                    } else {
                        // the scan ran to the end without a candidate
                        assert(k + 1 >= n);
                        assert forall|t: int|
                            i + 2 <= t < s.len() implies !(#[trigger] bracket_at(s, i + 2, t)) by {
                            if t < k {
                            } else {
                                assert(t + 1 >= s.len());
                            }
                        }
                        lemma_first_bracket_at(s, i + 2, i + 2, s.len() as int);
                    }
                    assert(first_bracket(s, i + 2, i + 2) == s.len());
                    assert(!match_at(s, i as int));
                    assert(image_urls_from(s, i as int) == image_urls_from(s, i + 1));
                }
                i += 1;
            }
        } else {
            proof {
                assert(!match_at(s, i as int));
                assert(image_urls_from(s, i as int) == image_urls_from(s, i + 1));
            }
            i += 1;
        }
    }
    proof {
        assert(image_urls_from(s, n as int) =~= Seq::<Seq<char>>::empty());
        assert(v@.map_values(|u: String| u@) =~= image_urls(s));
    }
    v
}

/// A theme name that syntect's default theme set holds.
pub open spec fn known_theme(t: Seq<char>) -> bool {
    ||| t == "InspiredGitHub"@
    ||| t == "Solarized (dark)"@
    ||| t == "Solarized (light)"@
    ||| t == "base16-eighties.dark"@
    ||| t == "base16-mocha.dark"@
    ||| t == "base16-ocean.dark"@
    ||| t == "base16-ocean.light"@
}

/// What comrak renders for the markdown under the given highlight theme; a
/// function of the two strings alone.
pub uninterp spec fn html_of(md: Seq<char>, theme: Seq<char>) -> Seq<char>;

/// Relies on `comrak::markdown_to_html_with_plugins` with the syntect
/// code-fence highlighter: deterministic HTML from the markdown and the
/// theme. The theme must be one of syntect's default set: the highlighter
/// indexes the set by name and accepts no other.
#[verifier::external_body]
fn markdown_html(md_content: &str, theme: &str) -> (r: String)
    requires
        known_theme(theme@),
    ensures
        r@ == html_of(md_content@, theme@),
{
    let mut options = comrak::Options::default();
    options.extension.strikethrough = true;
    options.extension.autolink = true;
    options.render.figure_with_caption = true;
    let adapter = comrak::plugins::syntect::SyntectAdapterBuilder::new().theme(theme).build();
    let mut plugins = comrak::options::Plugins::default();
    plugins.render.codefence_syntax_highlighter = Some(&adapter);
    comrak::markdown_to_html_with_plugins(md_content, &options, &plugins)
}

/// Renders markdown to HTML with the configured code highlight theme; the
/// transform the templates apply to every article body.
pub fn md_to_html(config: &crate::config::Config, md_content: &str) -> (r: String)
    requires
        known_theme(config.style.code_syntax_highlight_theme@),
    ensures
        r@ == html_of(md_content@, config.style.code_syntax_highlight_theme@),
{
    let theme = config.code_syntax_highlight_theme();
    markdown_html(md_content, theme.as_str())
}

/// Relies on `rand::thread_rng` and `rand::Rng::gen_range`: a random index
/// below the bound; which one cannot be promised.
#[verifier::external_body]
fn random_below(n: usize) -> (r: usize)
    requires
        n > 0,
    ensures
        r < n,
{
    rand::Rng::gen_range(&mut rand::thread_rng(), 0..n)
}

/// One of the text's image URLs, chosen at random; absent when the text
/// has none.
pub fn pick_random_image(content: &str) -> (r: Option<String>)
    ensures
        r is None <==> image_urls(content@).len() == 0,
        r matches Some(u) ==> image_urls(content@).contains(u@),
{
    let urls = extract_image_urls(content);
    if urls.len() == 0 {
        return None;
    }
    let idx = random_below(urls.len());
    let picked = urls[idx].clone();
    proof {
        assert(image_urls(content@)[idx as int] == urls@.map_values(|u: String| u@)[idx as int]);
    }
    Some(picked)
}

} // verus!
