//! Tag strings: a comma-separated list is split into tokens (trimmed, empty
//! ones dropped), and normalization deduplicates and sorts the tokens before
//! they are joined back with a comma and a space.

use vstd::prelude::*;

use crate::text::is_ws;
use crate::text::is_ws_char;
use crate::text::lex_lt;
use crate::text::trim_back;
use crate::text::trim_chars;
use crate::text::trim_front;
use crate::text::trimmed;

verus! {

/// Position of the first comma, or the length when there is none.
pub open spec fn first_comma(s: Seq<char>) -> nat
    decreases s.len(),
{
    if s.len() == 0 {
        0
    } else if s[0] == ',' {
        0
    } else {
        1 + first_comma(s.drop_first())
    }
}

pub proof fn lemma_first_comma(s: Seq<char>)
    ensures
        first_comma(s) <= s.len(),
        first_comma(s) < s.len() ==> s[first_comma(s) as int] == ',',
        forall|j: int| 0 <= j < first_comma(s) ==> s[j] != ',',
    decreases s.len(),
{
    if s.len() > 0 && s[0] != ',' {
        lemma_first_comma(s.drop_first());
        assert(forall|j: int|
            1 <= j < first_comma(s) ==> s[j] == s.drop_first()[j - 1] && s.drop_first()[j - 1]
                != ',');
    }
}

/// The pieces of the string between its commas, in order.
pub open spec fn split_commas(s: Seq<char>) -> Seq<Seq<char>>
    decreases s.len(),
{
    let i = first_comma(s) as int;
    if 0 <= i && i < s.len() {
        seq![s.take(i)] + split_commas(s.skip(i + 1))
    } else {
        seq![s]
    }
}

/// No character of the sequence is a comma.
pub open spec fn no_comma(s: Seq<char>) -> bool {
    forall|j: int| 0 <= j < s.len() ==> s[j] != ','
}

/// The tag tokens of a comma-separated string: each piece trimmed, empty
/// pieces dropped.
pub open spec fn tag_tokens(s: Seq<char>) -> Seq<Seq<char>> {
    split_commas(s).map_values(|p: Seq<char>| trimmed(p)).filter(|t: Seq<char>| t.len() > 0)
}

proof fn lemma_first_comma_push(s: Seq<char>, c: char)
    ensures
        first_comma(s) < s.len() ==> first_comma(s.push(c)) == first_comma(s),
        first_comma(s) == s.len() && c == ',' ==> first_comma(s.push(c)) == s.len(),
        first_comma(s) == s.len() && c != ',' ==> first_comma(s.push(c)) == s.len() + 1,
    decreases s.len(),
{
    lemma_first_comma(s);
    if s.len() == 0 {
        assert(s.push(c)[0] == c);
        if c != ',' {
            assert(s.push(c).drop_first() =~= Seq::<char>::empty());
            assert(first_comma(Seq::<char>::empty()) == 0);
            assert(first_comma(s.push(c)) == 1);
        }
    } else {
        assert(s.push(c)[0] == s[0]);
        if s[0] != ',' {
            assert(s.push(c).drop_first() =~= s.drop_first().push(c));
            lemma_first_comma_push(s.drop_first(), c);
        }
    }
}

proof fn lemma_split_commas_push(s: Seq<char>, c: char)
    ensures
        split_commas(s).len() >= 1,
        c == ',' ==> split_commas(s.push(c)) == split_commas(s).push(Seq::<char>::empty()),
        c != ',' ==> split_commas(s.push(c)) == split_commas(s).update(
            split_commas(s).len() - 1,
            split_commas(s).last().push(c),
        ),
    decreases s.len(),
{
    lemma_first_comma(s);
    lemma_first_comma_push(s, c);
    let i = first_comma(s) as int;
    let t = s.push(c);
    if i < s.len() {
        // the first piece is unchanged; recurse on the remainder
        assert(t.take(i) =~= s.take(i));
        assert(t.skip(i + 1) =~= s.skip(i + 1).push(c));
        lemma_split_commas_push(s.skip(i + 1), c);
        if c == ',' {
            assert(split_commas(t) =~= split_commas(s).push(Seq::<char>::empty()));
        } else {
            assert(split_commas(s).last() == split_commas(s.skip(i + 1)).last());
            assert(split_commas(t) =~= split_commas(s).update(
                split_commas(s).len() - 1,
                split_commas(s).last().push(c),
            ));
        }
    } else {
        // no comma in s: s is the single piece
        assert(split_commas(s) =~= seq![s]);
        if c == ',' {
            assert(first_comma(t) == s.len());
            assert(t.take(s.len() as int) =~= s);
            assert(t.skip(s.len() as int + 1) =~= Seq::<char>::empty());
            assert(first_comma(Seq::<char>::empty()) == 0);
            assert(split_commas(Seq::<char>::empty()) =~= seq![Seq::<char>::empty()]);
            assert(split_commas(t) =~= seq![s, Seq::<char>::empty()]);
            assert(split_commas(s).push(Seq::<char>::empty()) =~= seq![s, Seq::<char>::empty()]);
        } else {
            assert(first_comma(t) == t.len());
            assert(split_commas(t) =~= seq![s.push(c)]);
            assert(split_commas(s).update(0, s.push(c)) =~= seq![s.push(c)]);
        }
    }
}

proof fn lemma_tag_tokens_flush(pieces: Seq<Seq<char>>, toks: Seq<Seq<char>>, cur: Seq<char>)
    requires
        toks == pieces.map_values(|p: Seq<char>| trimmed(p)).filter(|t: Seq<char>| t.len() > 0),
    ensures
        trimmed(cur).len() > 0 ==> pieces.push(cur).map_values(|p: Seq<char>| trimmed(p)).filter(
            |t: Seq<char>| t.len() > 0,
        ) == toks.push(trimmed(cur)),
        trimmed(cur).len() == 0 ==> pieces.push(cur).map_values(|p: Seq<char>| trimmed(p)).filter(
            |t: Seq<char>| t.len() > 0,
        ) == toks,
{
    let m = pieces.push(cur).map_values(|p: Seq<char>| trimmed(p));
    assert(m =~= pieces.map_values(|p: Seq<char>| trimmed(p)).push(trimmed(cur)));
    reveal_with_fuel(Seq::filter, 2);
    assert(m.drop_last() =~= pieces.map_values(|p: Seq<char>| trimmed(p)));
    assert(m.last() == trimmed(cur));
}

/// The trimmed, non-empty tokens of the comma-separated string, in order.
pub fn split_tag_chars(tags: &str) -> (v: Vec<Vec<char>>)
    ensures
        v@.map_values(|t: Vec<char>| t@) == tag_tokens(tags@),
{
    let all = crate::text::chars_of(tags);
    let n = all.len();
    let mut v: Vec<Vec<char>> = Vec::new();
    let mut cur: Vec<char> = Vec::new();
    let ghost mut done: Seq<Seq<char>> = Seq::empty();
    let mut i: usize = 0;
    proof {
        assert(all@.take(0) =~= Seq::<char>::empty());
        assert(first_comma(all@.take(0)) == 0);
        assert(split_commas(all@.take(0)) =~~= seq![Seq::<char>::empty()]);
        assert(done.push(cur@) =~= split_commas(all@.take(0)));
        assert(v@.map_values(|t: Vec<char>| t@) =~= done.map_values(
            |p: Seq<char>| trimmed(p),
        ).filter(|t: Seq<char>| t.len() > 0));
    }
    while i < n
        invariant
            i <= n,
            n == all.len(),
            split_commas(all@.take(i as int)) == done.push(cur@),
            v@.map_values(|t: Vec<char>| t@) == done.map_values(|p: Seq<char>| trimmed(p)).filter(
                |t: Seq<char>| t.len() > 0,
            ),
        decreases n - i,
    {
        let c = all[i];
        proof {
            assert(all@.take(i + 1) =~= all@.take(i as int).push(all@[i as int]));
            lemma_split_commas_push(all@.take(i as int), c);
        }
        if c == ',' {
            let piece = trim_chars(&cur);
            proof {
                lemma_tag_tokens_flush(done, v@.map_values(|t: Vec<char>| t@), cur@);
            }
            if piece.len() > 0 {
                let ghost oldv = v@;
                v.push(piece);
                proof {
                    assert(v@.map_values(|t: Vec<char>| t@) =~= oldv.map_values(
                        |t: Vec<char>| t@,
                    ).push(trimmed(cur@)));
                }
            }
            proof {
                done = done.push(cur@);
            }
            cur = Vec::new();
            proof {
                assert(split_commas(all@.take(i + 1)) =~= done.push(cur@));
            }
        } else {
            let ghost prev_cur = cur@;
            cur.push(c);
            proof {
                let sp = split_commas(all@.take(i as int));
                assert(sp.len() == done.len() + 1);
                assert(sp.last() == prev_cur);
                assert(sp.update(sp.len() - 1, prev_cur.push(c)) =~= done.push(cur@));
                assert(split_commas(all@.take(i + 1)) =~= done.push(cur@));
            }
        }
        i += 1;
    }
    let piece = trim_chars(&cur);
    proof {
        lemma_tag_tokens_flush(done, v@.map_values(|t: Vec<char>| t@), cur@);
        assert(all@.take(n as int) =~= all@);
    }
    if piece.len() > 0 {
        let ghost oldv = v@;
        v.push(piece);
        proof {
            assert(v@.map_values(|t: Vec<char>| t@) =~= oldv.map_values(|t: Vec<char>| t@).push(
                trimmed(cur@),
            ));
        }
    }
    proof {
        assert(done.push(cur@) =~= split_commas(all@));
    }
    v
}

/// Strictly ascending in the lexicographic order: sorted, and free of
/// duplicates.
pub open spec fn strictly_sorted(l: Seq<Seq<char>>) -> bool {
    forall|i: int, j: int| 0 <= i < j < l.len() ==> lex_lt(l[i], l[j])
}

/// The token put at its place in a sorted list, unless already there.
pub open spec fn insert_tok(t: Seq<char>, l: Seq<Seq<char>>) -> Seq<Seq<char>>
    decreases l.len(),
{
    if l.len() == 0 {
        seq![t]
    } else if lex_lt(t, l[0]) {
        seq![t] + l
    } else if t == l[0] {
        l
    } else {
        seq![l[0]] + insert_tok(t, l.drop_first())
    }
}

/// The list sorted with duplicates dropped, by repeated insertion.
pub open spec fn sort_dedup(l: Seq<Seq<char>>) -> Seq<Seq<char>>
    decreases l.len(),
{
    if l.len() == 0 {
        Seq::empty()
    } else {
        insert_tok(l.last(), sort_dedup(l.drop_last()))
    }
}

pub proof fn lemma_insert_tok(t: Seq<char>, l: Seq<Seq<char>>)
    requires
        strictly_sorted(l),
    ensures
        strictly_sorted(insert_tok(t, l)),
        forall|x: Seq<char>| #[trigger] insert_tok(t, l).contains(x) <==> (x == t || l.contains(
            x,
        )),
    decreases l.len(),
{
    let out = insert_tok(t, l);
    if l.len() == 0 {
        assert forall|x: Seq<char>| out.contains(x) implies (x == t || l.contains(x)) by {
            assert(out[0] == t);
        }
        assert(out.contains(t)) by {
            assert(out[0] == t);
        }
    } else if lex_lt(t, l[0]) {
        assert forall|i: int, j: int| 0 <= i < j < out.len() implies lex_lt(out[i], out[j]) by {
            if i == 0 {
                if j > 1 {
                    crate::text::lemma_lex_lt_transitive(t, l[0], l[j - 1]);
                }
            }
        }
        assert forall|x: Seq<char>| (x == t || l.contains(x)) implies out.contains(x) by {
            if x == t {
                assert(out[0] == t);
            } else {
                let i = choose|i: int| 0 <= i < l.len() && l[i] == x;
                assert(out[i + 1] == x);
            }
        }
        assert forall|x: Seq<char>| out.contains(x) implies (x == t || l.contains(x)) by {
            let i = choose|i: int| 0 <= i < out.len() && out[i] == x;
            if i > 0 {
                assert(l[i - 1] == x);
            }
        }
    } else if t == l[0] {
        assert(l.contains(t)) by {
            assert(l[0] == t);
        }
    } else {
        crate::text::lemma_lex_lt_trichotomy(t, l[0]);
        assert(lex_lt(l[0], t));
        assert(strictly_sorted(l.drop_first())) by {
            assert(forall|i: int, j: int|
                0 <= i < j < l.drop_first().len() ==> l.drop_first()[i] == l[i + 1]
                    && l.drop_first()[j] == l[j + 1]);
        }
        lemma_insert_tok(t, l.drop_first());
        let rest = insert_tok(t, l.drop_first());
        assert(out =~= seq![l[0]] + rest);
        assert forall|i: int, j: int| 0 <= i < j < out.len() implies lex_lt(out[i], out[j]) by {
            if i == 0 {
                // l[0] is below t and below every later element of l
                assert(rest[j - 1] == out[j]);
                assert(rest.contains(out[j]));
                if out[j] == t {
                    assert(lex_lt(out[0], out[j]));
                } else {
                    assert(l.drop_first().contains(out[j]));
                    let k = choose|k: int|
                        0 <= k < l.drop_first().len() && l.drop_first()[k] == out[j];
                    assert(l.drop_first()[k] == l[k + 1]);
                    assert(lex_lt(l[0], l[k + 1]));
                }
            } else {
                assert(rest[i - 1] == out[i] && rest[j - 1] == out[j]);
            }
        }
        assert forall|x: Seq<char>| out.contains(x) implies (x == t || l.contains(x)) by {
            let i = choose|i: int| 0 <= i < out.len() && out[i] == x;
            if i == 0 {
                assert(l[0] == x);
            } else {
                assert(rest[i - 1] == x);
                assert(rest.contains(x));
                if x != t {
                    assert(l.drop_first().contains(x));
                    let k = choose|k: int|
                        0 <= k < l.drop_first().len() && l.drop_first()[k] == x;
                    assert(l.drop_first()[k] == l[k + 1]);
                    assert(l[k + 1] == x);
                }
            }
        }
        assert forall|x: Seq<char>| (x == t || l.contains(x)) implies out.contains(x) by {
            if x == t || (x != l[0] && l.contains(x)) {
                if x == t {
                    assert(rest.contains(x));
                } else {
                    let k = choose|k: int| 0 <= k < l.len() && l[k] == x;
                    assert(k > 0);
                    assert(l.drop_first()[k - 1] == x);
                    assert(l.drop_first().contains(x));
                    assert(rest.contains(x));
                }
                let k = choose|k: int| 0 <= k < rest.len() && rest[k] == x;
                assert(out[k + 1] == x);
            } else {
                assert(out[0] == x);
            }
        }
    }
}

pub proof fn lemma_sort_dedup(l: Seq<Seq<char>>)
    ensures
        strictly_sorted(sort_dedup(l)),
        forall|x: Seq<char>| #[trigger] sort_dedup(l).contains(x) <==> l.contains(x),
    decreases l.len(),
{
    if l.len() > 0 {
        lemma_sort_dedup(l.drop_last());
        lemma_insert_tok(l.last(), sort_dedup(l.drop_last()));
        assert(sort_dedup(l) == insert_tok(l.last(), sort_dedup(l.drop_last())));
        assert forall|x: Seq<char>| sort_dedup(l).contains(x) implies l.contains(x) by {
            if x == l.last() {
                assert(l[l.len() - 1] == x);
            } else {
                assert(l.drop_last().contains(x));
                let k = choose|k: int| 0 <= k < l.drop_last().len() && l.drop_last()[k] == x;
                assert(l[k] == x);
            }
        }
        assert forall|x: Seq<char>| l.contains(x) implies sort_dedup(l).contains(x) by {
            let k = choose|k: int| 0 <= k < l.len() && l[k] == x;
            if k < l.len() - 1 {
                assert(l.drop_last()[k] == x);
                assert(l.drop_last().contains(x));
                assert(sort_dedup(l.drop_last()).contains(x));
            } else {
                assert(x == l.last());
            }
            assert(insert_tok(l.last(), sort_dedup(l.drop_last())).contains(x));
        }
    }
}

/// Two strictly sorted lists with the same members are the same list.
pub proof fn lemma_strictly_sorted_unique(a: Seq<Seq<char>>, b: Seq<Seq<char>>)
    requires
        strictly_sorted(a),
        strictly_sorted(b),
        forall|x: Seq<char>| #[trigger] a.contains(x) <==> #[trigger] b.contains(x),
    ensures
        a == b,
    decreases a.len(),
{
    if a.len() == 0 {
        if b.len() > 0 {
            assert(b.contains(b[0])) by {
                assert(b[0] == b[0]);
            }
            assert(a.contains(b[0]));
            assert(false);
        }
        assert(a =~= b);
    } else if b.len() == 0 {
        assert(a.contains(a[0])) by {
            assert(a[0] == a[0]);
        }
        assert(b.contains(a[0]));
        assert(false);
    } else {
        // the heads are both the least member, hence equal
        assert(a.contains(a[0])) by {
            assert(a[0] == a[0]);
        }
        assert(b.contains(b[0])) by {
            assert(b[0] == b[0]);
        }
        assert(b.contains(a[0]));
        assert(a.contains(b[0]));
        let i = choose|i: int| 0 <= i < b.len() && b[i] == a[0];
        let j = choose|j: int| 0 <= j < a.len() && a[j] == b[0];
        if i > 0 {
            assert(lex_lt(b[0], a[0]));
            if j > 0 {
                assert(lex_lt(a[0], b[0]));
                crate::text::lemma_lex_lt_asymmetric(a[0], b[0]);
            } else {
                crate::text::lemma_lex_lt_irreflexive(a[0]);
            }
        }
        assert(a[0] == b[0]);
        assert(strictly_sorted(a.drop_first())) by {
            assert(forall|p: int, q: int|
                0 <= p < q < a.drop_first().len() ==> a.drop_first()[p] == a[p + 1]
                    && a.drop_first()[q] == a[q + 1]);
        }
        assert(strictly_sorted(b.drop_first())) by {
            assert(forall|p: int, q: int|
                0 <= p < q < b.drop_first().len() ==> b.drop_first()[p] == b[p + 1]
                    && b.drop_first()[q] == b[q + 1]);
        }
        assert forall|x: Seq<char>|
            a.drop_first().contains(x) <==> b.drop_first().contains(x) by {
            lemma_head_not_in_tail(a, x);
            lemma_head_not_in_tail(b, x);
        }
        lemma_strictly_sorted_unique(a.drop_first(), b.drop_first());
        assert(a =~= b) by {
            assert(forall|k: int|
                1 <= k < a.len() ==> a[k] == a.drop_first()[k - 1] && b[k] == b.drop_first()[k
                    - 1]);
        }
    }
}

proof fn lemma_head_not_in_tail(l: Seq<Seq<char>>, x: Seq<char>)
    requires
        strictly_sorted(l),
        l.len() > 0,
    ensures
        l.drop_first().contains(x) <==> (l.contains(x) && x != l[0]),
{
    if l.drop_first().contains(x) {
        let k = choose|k: int| 0 <= k < l.drop_first().len() && l.drop_first()[k] == x;
        assert(l[k + 1] == x);
        assert(lex_lt(l[0], l[k + 1]));
        crate::text::lemma_lex_lt_asymmetric(l[0], x);
    }
    if l.contains(x) && x != l[0] {
        let k = choose|k: int| 0 <= k < l.len() && l[k] == x;
        assert(k > 0);
        assert(l.drop_first()[k - 1] == x);
    }
}

/// The separator written between joined tags.
pub open spec fn tag_sep() -> Seq<char> {
    seq![',', ' ']
}

/// The tokens joined with a comma and a space between each two.
pub open spec fn joined(l: Seq<Seq<char>>) -> Seq<char>
    decreases l.len(),
{
    if l.len() == 0 {
        Seq::empty()
    } else if l.len() == 1 {
        l[0]
    } else {
        l[0] + tag_sep() + joined(l.drop_first())
    }
}

pub proof fn lemma_joined_push(l: Seq<Seq<char>>, t: Seq<char>)
    requires
        l.len() >= 1,
    ensures
        joined(l.push(t)) == joined(l) + tag_sep() + t,
    decreases l.len(),
{
    if l.len() == 1 {
        assert(l.push(t)[0] == l[0]);
        assert(l.push(t).drop_first() =~= seq![t]);
        assert(joined(seq![t]) == t);
        assert(joined(l.push(t)) =~= l[0] + tag_sep() + t);
    } else {
        assert(l.push(t).drop_first() =~= l.drop_first().push(t));
        lemma_joined_push(l.drop_first(), t);
        assert(joined(l.push(t)) =~= l[0] + tag_sep() + (joined(l.drop_first()) + tag_sep() + t));
        assert(l[0] + tag_sep() + (joined(l.drop_first()) + tag_sep() + t) =~= (l[0] + tag_sep()
            + joined(l.drop_first())) + tag_sep() + t);
    }
}

/// The normalized form of a tag string: its tokens, deduplicated, sorted,
/// and joined with a comma and a space.
pub open spec fn normalized_tags(s: Seq<char>) -> Seq<char> {
    joined(sort_dedup(tag_tokens(s)))
}

proof fn lemma_no_comma_first(s: Seq<char>)
    requires
        no_comma(s),
    ensures
        first_comma(s) == s.len(),
{
    lemma_first_comma(s);
    if first_comma(s) < s.len() {
        assert(s[first_comma(s) as int] == ',');
    }
}

proof fn lemma_first_comma_prefix(x: Seq<char>, t: Seq<char>)
    requires
        no_comma(x),
        t.len() > 0,
        t[0] == ',',
    ensures
        first_comma(x + t) == x.len(),
    decreases x.len(),
{
    if x.len() == 0 {
        assert(x + t =~= t);
    } else {
        assert((x + t)[0] == x[0]);
        assert(x[0] != ',');
        assert((x + t).drop_first() =~= x.drop_first() + t);
        assert(no_comma(x.drop_first())) by {
            assert(forall|j: int|
                0 <= j < x.drop_first().len() ==> x.drop_first()[j] == x[j + 1]);
        }
        lemma_first_comma_prefix(x.drop_first(), t);
    }
}

/// Trimming does not add characters: a comma-free string stays comma-free.
proof fn lemma_trim_no_comma(s: Seq<char>)
    requires
        no_comma(s),
    ensures
        no_comma(trimmed(s)),
{
    lemma_trim_front_sub(s);
    lemma_trim_back_sub(trim_front(s));
}

proof fn lemma_trim_front_sub(s: Seq<char>)
    ensures
        forall|j: int|
            0 <= j < trim_front(s).len() ==> s.contains(#[trigger] trim_front(s)[j]),
        trim_front(s).len() > 0 ==> !is_ws_char(trim_front(s)[0]),
    decreases s.len(),
{
    if s.len() > 0 && is_ws_char(s[0]) {
        lemma_trim_front_sub(s.drop_first());
        assert forall|j: int|
            0 <= j < trim_front(s).len() implies s.contains(#[trigger] trim_front(s)[j]) by {
            assert(s.drop_first().contains(trim_front(s)[j]));
            let k = choose|k: int|
                0 <= k < s.drop_first().len() && s.drop_first()[k] == trim_front(s)[j];
            assert(s[k + 1] == trim_front(s)[j]);
        }
    } else {
        assert(forall|j: int| 0 <= j < s.len() ==> s.contains(#[trigger] s[j]));
    }
}

proof fn lemma_trim_back_sub(s: Seq<char>)
    ensures
        forall|j: int| 0 <= j < trim_back(s).len() ==> s.contains(#[trigger] trim_back(s)[j]),
        trim_back(s).len() > 0 ==> !is_ws_char(trim_back(s).last()),
        trim_back(s).len() > 0 && !is_ws_char(s[0]) ==> trim_back(s)[0] == s[0] && !is_ws_char(
            trim_back(s)[0],
        ),
    decreases s.len(),
{
    if s.len() > 0 && is_ws_char(s.last()) {
        lemma_trim_back_sub(s.drop_last());
        assert forall|j: int|
            0 <= j < trim_back(s).len() implies s.contains(#[trigger] trim_back(s)[j]) by {
            assert(s.drop_last().contains(trim_back(s)[j]));
            let k = choose|k: int|
                0 <= k < s.drop_last().len() && s.drop_last()[k] == trim_back(s)[j];
            assert(s[k] == trim_back(s)[j]);
        }
        if trim_back(s).len() > 0 && !is_ws_char(s[0]) {
            assert(s.drop_last()[0] == s[0]);
        }
    } else {
        assert(forall|j: int| 0 <= j < s.len() ==> s.contains(#[trigger] s[j]));
    }
}

/// A string whose ends are already clean is left alone by trimming.
proof fn lemma_trimmed_fixed(s: Seq<char>)
    requires
        s.len() > 0 ==> !is_ws_char(s[0]) && !is_ws_char(s.last()),
    ensures
        trimmed(s) == s,
{
    assert(trim_front(s) == s);
    assert(trim_back(s) == s);
}

/// Trimming twice is trimming once.
proof fn lemma_trimmed_idempotent(s: Seq<char>)
    ensures
        trimmed(trimmed(s)) == trimmed(s),
{
    lemma_trim_front_sub(s);
    lemma_trim_back_sub(trim_front(s));
    let t = trimmed(s);
    if t.len() > 0 {
        assert(!is_ws_char(t.last()));
        assert(!is_ws_char(t[0])) by {
            assert(trim_front(s).len() > 0);
            assert(!is_ws_char(trim_front(s)[0]));
        }
        lemma_trimmed_fixed(t);
    } else {
        assert(trim_front(t) == t);
        assert(trim_back(t) == t);
    }
}

/// A leading space changes no tokens.
proof fn lemma_tokens_cons_space(y: Seq<char>)
    ensures
        tag_tokens(seq![' '] + y) == tag_tokens(y),
{
    let sy = seq![' '] + y;
    assert(sy[0] == ' ');
    assert(sy.drop_first() =~= y);
    assert(first_comma(sy) == 1 + first_comma(y));
    lemma_first_comma(y);
    let fc = first_comma(y) as int;
    if fc < y.len() {
        assert(sy.take(fc + 1) =~= seq![' '] + y.take(fc));
        assert(sy.skip(fc + 2) =~= y.skip(fc + 1));
        assert(split_commas(sy) == seq![seq![' '] + y.take(fc)] + split_commas(y.skip(fc + 1)));
        assert(split_commas(y) == seq![y.take(fc)] + split_commas(y.skip(fc + 1)));
        assert(trimmed(seq![' '] + y.take(fc)) == trimmed(y.take(fc))) by {
            assert((seq![' '] + y.take(fc)).drop_first() =~= y.take(fc));
        }
        assert(split_commas(sy).map_values(|p: Seq<char>| trimmed(p)) =~= split_commas(
            y,
        ).map_values(|p: Seq<char>| trimmed(p)));
    } else {
        assert(split_commas(sy) == seq![sy]);
        assert(split_commas(y) == seq![y]);
        assert(trimmed(sy) == trimmed(y)) by {
            assert(sy.drop_first() =~= y);
        }
        assert(split_commas(sy).map_values(|p: Seq<char>| trimmed(p)) =~= split_commas(
            y,
        ).map_values(|p: Seq<char>| trimmed(p)));
    }
}

/// Joining clean tokens and splitting again gives the tokens back.
proof fn lemma_tokens_of_joined(l: Seq<Seq<char>>)
    requires
        forall|i: int|
            0 <= i < l.len() ==> (#[trigger] l[i]).len() > 0 && trimmed(l[i]) == l[i] && no_comma(
                l[i],
            ),
    ensures
        tag_tokens(joined(l)) == l,
    decreases l.len(),
{
    broadcast use Seq::filter_distributes_over_add;

    if l.len() == 0 {
        assert(joined(l) =~= Seq::<char>::empty());
        lemma_no_comma_first(joined(l));
        assert(split_commas(joined(l)) == seq![joined(l)]);
        assert(trimmed(joined(l)) == joined(l));
        assert(split_commas(joined(l)).map_values(|p: Seq<char>| trimmed(p)) =~= seq![
            Seq::<char>::empty(),
        ]);
        reveal_with_fuel(Seq::filter, 2);
        assert(seq![Seq::<char>::empty()].drop_last() =~= Seq::<Seq<char>>::empty());
        assert(tag_tokens(joined(l)) =~= l);
    } else if l.len() == 1 {
        assert(joined(l) == l[0]);
        lemma_no_comma_first(l[0]);
        assert(split_commas(l[0]) == seq![l[0]]);
        assert(split_commas(l[0]).map_values(|p: Seq<char>| trimmed(p)) =~= seq![l[0]]);
        reveal_with_fuel(Seq::filter, 2);
        assert(seq![l[0]].drop_last() =~= Seq::<Seq<char>>::empty());
        assert(Seq::<Seq<char>>::empty().filter(|t: Seq<char>| t.len() > 0) =~= Seq::<
            Seq<char>,
        >::empty());
        assert(tag_tokens(joined(l)) =~= l);
    } else {
        let rest = l.drop_first();
        let z = seq![' '] + joined(rest);
        assert(joined(l) == l[0] + tag_sep() + joined(rest));
        assert(joined(l) =~= l[0] + (seq![','] + z));
        lemma_first_comma_prefix(l[0], seq![','] + z);
        assert(first_comma(joined(l)) == l[0].len());
        assert(joined(l).take(l[0].len() as int) =~= l[0]);
        assert(joined(l).skip(l[0].len() as int + 1) =~= z);
        assert(split_commas(joined(l)) == seq![l[0]] + split_commas(z));
        // tokens of the whole = l[0] followed by the tokens of the remainder
        assert(split_commas(joined(l)).map_values(|p: Seq<char>| trimmed(p)) =~= seq![l[0]]
            + split_commas(z).map_values(|p: Seq<char>| trimmed(p)));
        assert(tag_tokens(joined(l)) == (seq![l[0]] + split_commas(z).map_values(
            |p: Seq<char>| trimmed(p),
        )).filter(|t: Seq<char>| t.len() > 0));
        assert(tag_tokens(joined(l)) == seq![l[0]].filter(|t: Seq<char>| t.len() > 0)
            + tag_tokens(z));
        assert(seq![l[0]].filter(|t: Seq<char>| t.len() > 0) =~= seq![l[0]]) by {
            reveal_with_fuel(Seq::filter, 2);
            assert(seq![l[0]].drop_last() =~= Seq::<Seq<char>>::empty());
        }
        lemma_tokens_cons_space(joined(rest));
        assert(forall|i: int|
            0 <= i < rest.len() ==> rest[i] == #[trigger] l[i + 1]);
        lemma_tokens_of_joined(rest);
        assert(tag_tokens(joined(l)) =~= seq![l[0]] + rest);
        assert(seq![l[0]] + rest =~= l);
    }
}

proof fn lemma_sort_dedup_of_sorted(l: Seq<Seq<char>>)
    requires
        strictly_sorted(l),
    ensures
        sort_dedup(l) == l,
    decreases l.len(),
{
    if l.len() > 0 {
        let front = l.drop_last();
        assert(strictly_sorted(front)) by {
            assert(forall|p: int, q: int|
                0 <= p < q < front.len() ==> front[p] == l[p] && front[q] == l[q]);
        }
        lemma_sort_dedup_of_sorted(front);
        assert(sort_dedup(l) == insert_tok(l.last(), front));
        lemma_insert_at_end(l.last(), front);
        assert(front.push(l.last()) =~= l);
    }
}

proof fn lemma_insert_at_end(t: Seq<char>, l: Seq<Seq<char>>)
    requires
        forall|i: int| 0 <= i < l.len() ==> lex_lt(#[trigger] l[i], t),
    ensures
        insert_tok(t, l) == l.push(t),
    decreases l.len(),
{
    if l.len() == 0 {
        assert(insert_tok(t, l) =~= l.push(t));
    } else {
        assert(lex_lt(l[0], t));
        crate::text::lemma_lex_lt_asymmetric(l[0], t);
        assert(forall|i: int|
            0 <= i < l.drop_first().len() ==> l.drop_first()[i] == #[trigger] l[i + 1]);
        lemma_insert_at_end(t, l.drop_first());
        assert(insert_tok(t, l) == seq![l[0]] + l.drop_first().push(t));
        assert(seq![l[0]] + l.drop_first().push(t) =~= l.push(t));
    }
}

/// Every token is non-empty, clean of surrounding whitespace, and free of
/// commas.
proof fn lemma_tag_tokens_clean(s: Seq<char>, x: Seq<char>)
    requires
        tag_tokens(s).contains(x),
    ensures
        x.len() > 0,
        trimmed(x) == x,
        no_comma(x),
{
    let m = split_commas(s).map_values(|p: Seq<char>| trimmed(p));
    let i = choose|i: int| 0 <= i < tag_tokens(s).len() && tag_tokens(s)[i] == x;
    assert(tag_tokens(s)[i].len() > 0) by {
        m.lemma_filter_pred(|t: Seq<char>| t.len() > 0, i);
    }
    assert(m.contains(x)) by {
        m.lemma_filter_contains_rev(|t: Seq<char>| t.len() > 0, x);
    }
    let j = choose|j: int| 0 <= j < m.len() && m[j] == x;
    let p = split_commas(s)[j];
    assert(x == trimmed(p));
    lemma_split_commas_no_comma(s, j);
    lemma_trim_no_comma(p);
    lemma_trimmed_idempotent(p);
}

proof fn lemma_split_commas_no_comma(s: Seq<char>, j: int)
    requires
        0 <= j < split_commas(s).len(),
    ensures
        no_comma(split_commas(s)[j]),
    decreases s.len(),
{
    lemma_first_comma(s);
    let i = first_comma(s) as int;
    if i < s.len() {
        if j == 0 {
            assert(split_commas(s)[0] == s.take(i));
            assert(forall|k: int| 0 <= k < i ==> s.take(i)[k] == s[k]);
        } else {
            assert(split_commas(s)[j] == split_commas(s.skip(i + 1))[j - 1]);
            lemma_split_commas_no_comma(s.skip(i + 1), j - 1);
        }
    } else {
        assert(split_commas(s)[0] == s);
    }
}

/// Normalizing is idempotent: the normal form of a normal form is itself.
pub proof fn lemma_normalized_tags_idempotent(s: Seq<char>)
    ensures
        normalized_tags(normalized_tags(s)) == normalized_tags(s),
{
    let toks = tag_tokens(s);
    lemma_sort_dedup(toks);
    let l = sort_dedup(toks);
    assert forall|i: int|
        0 <= i < l.len() implies (#[trigger] l[i]).len() > 0 && trimmed(l[i]) == l[i] && no_comma(
        l[i],
    ) by {
        assert(l.contains(l[i]));
        assert(toks.contains(l[i]));
        lemma_tag_tokens_clean(s, l[i]);
    }
    lemma_tokens_of_joined(l);
    assert(tag_tokens(normalized_tags(s)) == l);
    lemma_sort_dedup_of_sorted(l);
}

/// Normalizing depends only on the set of tokens: two tag strings with the
/// same tokens normalize to the same string.
pub proof fn lemma_normalized_tags_order_independent(a: Seq<char>, b: Seq<char>)
    requires
        forall|x: Seq<char>| #[trigger] tag_tokens(a).contains(x) <==> #[trigger] tag_tokens(
            b,
        ).contains(x),
    ensures
        normalized_tags(a) == normalized_tags(b),
{
    lemma_sort_dedup(tag_tokens(a));
    lemma_sort_dedup(tag_tokens(b));
    assert forall|x: Seq<char>|
        #[trigger] sort_dedup(tag_tokens(a)).contains(x) <==> #[trigger] sort_dedup(
        tag_tokens(b),
    ).contains(x) by {
        assert(sort_dedup(tag_tokens(a)).contains(x) <==> tag_tokens(a).contains(x));
        assert(sort_dedup(tag_tokens(b)).contains(x) <==> tag_tokens(b).contains(x));
    }
    lemma_strictly_sorted_unique(sort_dedup(tag_tokens(a)), sort_dedup(tag_tokens(b)));
}

/// The tokens of the normalized string are exactly the tokens of the input.
pub proof fn lemma_normalized_tags_tokens(s: Seq<char>)
    ensures
        forall|x: Seq<char>|
            #[trigger] tag_tokens(normalized_tags(s)).contains(x) <==> tag_tokens(s).contains(x),
{
    let toks = tag_tokens(s);
    lemma_sort_dedup(toks);
    let l = sort_dedup(toks);
    assert forall|i: int|
        0 <= i < l.len() implies (#[trigger] l[i]).len() > 0 && trimmed(l[i]) == l[i] && no_comma(
        l[i],
    ) by {
        assert(l.contains(l[i]));
        assert(toks.contains(l[i]));
        lemma_tag_tokens_clean(s, l[i]);
    }
    lemma_tokens_of_joined(l);
}

proof fn lemma_sorted_drop_first(l: Seq<Seq<char>>)
    requires
        strictly_sorted(l),
        l.len() > 0,
    ensures
        strictly_sorted(l.drop_first()),
{
    assert(forall|p: int, q: int|
        0 <= p < q < l.drop_first().len() ==> l.drop_first()[p] == l[p + 1] && l.drop_first()[q]
            == l[q + 1]);
}

proof fn lemma_insert_tok_at(t: Seq<char>, l: Seq<Seq<char>>, j: int)
    requires
        strictly_sorted(l),
        0 <= j <= l.len(),
        forall|k: int| 0 <= k < j ==> lex_lt(#[trigger] l[k], t),
        j < l.len() ==> !lex_lt(l[j], t),
    ensures
        j < l.len() && l[j] == t ==> insert_tok(t, l) == l,
        !(j < l.len() && l[j] == t) ==> insert_tok(t, l) == l.take(j) + seq![t] + l.skip(j),
    decreases j,
{
    if j == 0 {
        if l.len() == 0 {
            assert(insert_tok(t, l) =~= l.take(0) + seq![t] + l.skip(0));
        } else if lex_lt(t, l[0]) {
            crate::text::lemma_lex_lt_asymmetric(t, l[0]);
            assert(insert_tok(t, l) =~= l.take(0) + seq![t] + l.skip(0));
        } else {
            crate::text::lemma_lex_lt_trichotomy(t, l[0]);
            assert(t == l[0]);
        }
    } else {
        assert(lex_lt(l[0], t));
        crate::text::lemma_lex_lt_asymmetric(l[0], t);
        lemma_sorted_drop_first(l);
        assert(forall|k: int|
            0 <= k < j - 1 ==> l.drop_first()[k] == l[k + 1] && lex_lt(#[trigger] l[k + 1], t));
        if j - 1 < l.drop_first().len() {
            assert(l.drop_first()[j - 1] == l[j]);
        }
        lemma_insert_tok_at(t, l.drop_first(), j - 1);
        let rest = insert_tok(t, l.drop_first());
        assert(insert_tok(t, l) == seq![l[0]] + rest);
        if j < l.len() && l[j] == t {
            assert(rest == l.drop_first());
            assert(seq![l[0]] + l.drop_first() =~= l);
        } else {
            assert(rest == l.drop_first().take(j - 1) + seq![t] + l.drop_first().skip(j - 1));
            assert(seq![l[0]] + rest =~= l.take(j) + seq![t] + l.skip(j)) by {
                assert(forall|k: int|
                    0 <= k < j - 1 ==> #[trigger] l.drop_first().take(j - 1)[k] == l[k + 1]);
                assert(forall|k: int|
                    0 <= k < l.len() - j ==> #[trigger] l.drop_first().skip(j - 1)[k] == l[k + j]);
                assert(forall|k: int| 0 <= k < j ==> #[trigger] l.take(j)[k] == l[k]);
                assert(forall|k: int| 0 <= k < l.len() - j ==> #[trigger] l.skip(j)[k] == l[k + j]);
            }
        }
    }
}

fn append_chars(out: &mut Vec<char>, piece: &Vec<char>)
    ensures
        final(out)@ == old(out)@ + piece@,
{
    let mut k: usize = 0;
    while k < piece.len()
        invariant
            k <= piece.len(),
            out@ == old(out)@ + piece@.take(k as int),
        decreases piece.len() - k,
    {
        out.push(piece[k]);
        proof {
            assert(old(out)@ + piece@.take(k + 1) =~= (old(out)@ + piece@.take(k as int)).push(
                piece@[k as int],
            ));
        }
        k += 1;
    }
    proof {
        assert(piece@.take(piece@.len() as int) =~= piece@);
        assert(old(out)@ + piece@.take(0) =~= old(out)@);
    }
}

/// The tokens sorted, duplicates dropped.
pub fn sorted_unique_tokens(toks: &Vec<Vec<char>>) -> (out: Vec<Vec<char>>)
    ensures
        out@.map_values(|x: Vec<char>| x@) == sort_dedup(toks@.map_values(|x: Vec<char>| x@)),
{
    let mut acc: Vec<Vec<char>> = Vec::new();
    let mut i: usize = 0;
    proof {
        let l = toks@.map_values(|x: Vec<char>| x@);
        assert(l.take(0) =~= Seq::<Seq<char>>::empty());
        assert(acc@.map_values(|x: Vec<char>| x@) =~= sort_dedup(l.take(0)));
        lemma_sort_dedup(l.take(0));
    }
    while i < toks.len()
        invariant
            i <= toks.len(),
            acc@.map_values(|x: Vec<char>| x@) == sort_dedup(
                toks@.map_values(|x: Vec<char>| x@).take(i as int),
            ),
            strictly_sorted(acc@.map_values(|x: Vec<char>| x@)),
        decreases toks.len() - i,
    {
        let ghost l = toks@.map_values(|x: Vec<char>| x@);
        let ghost accl = acc@.map_values(|x: Vec<char>| x@);
        let t = toks[i].clone();
        proof {
            assert(t@ == l[i as int]);
            assert(l.take(i + 1) =~= l.take(i as int).push(l[i as int]));
            assert(l.take(i + 1).drop_last() =~= l.take(i as int));
            assert(sort_dedup(l.take(i + 1)) == insert_tok(l[i as int], accl));
        }
        let mut j: usize = 0;
        while j < acc.len() && crate::text::lex_lt_vec(&acc[j], &t)
            invariant
                j <= acc.len(),
                accl == acc@.map_values(|x: Vec<char>| x@),
                t@ == l[i as int],
                forall|k: int| 0 <= k < j ==> lex_lt(#[trigger] accl[k], t@),
            decreases acc.len() - j,
        {
            proof {
                assert(accl[j as int] == acc@[j as int]@);
            }
            j += 1;
        }
        proof {
            if j < acc.len() {
                assert(accl[j as int] == acc@[j as int]@);
            }
            lemma_insert_tok_at(t@, accl, j as int);
        }
        if j < acc.len() && !crate::text::lex_lt_vec(&t, &acc[j]) {
            // the token is already present
            proof {
                crate::text::lemma_lex_lt_trichotomy(accl[j as int], t@);
                assert(accl[j as int] == t@);
                assert(insert_tok(t@, accl) == accl);
            }
        } else {
            acc.insert(j, t);
            proof {
                assert(acc@.map_values(|x: Vec<char>| x@) =~= accl.take(j as int) + seq![t@]
                    + accl.skip(j as int));
            }
        }
        proof {
            lemma_sort_dedup(l.take(i + 1));
        }
        i += 1;
    }
    proof {
        assert(toks@.map_values(|x: Vec<char>| x@).take(toks@.len() as int) =~= toks@.map_values(
            |x: Vec<char>| x@,
        ));
    }
    acc
}

/// The tokens joined with a comma and a space.
pub fn join_tags(toks: &Vec<Vec<char>>) -> (s: String)
    ensures
        s@ == joined(toks@.map_values(|x: Vec<char>| x@)),
{
    let mut out: Vec<char> = Vec::new();
    let mut i: usize = 0;
    proof {
        let l = toks@.map_values(|x: Vec<char>| x@);
        assert(l.take(0) =~= Seq::<Seq<char>>::empty());
        assert(out@ =~= joined(l.take(0)));
    }
    while i < toks.len()
        invariant
            i <= toks.len(),
            out@ == joined(toks@.map_values(|x: Vec<char>| x@).take(i as int)),
        decreases toks.len() - i,
    {
        let ghost l = toks@.map_values(|x: Vec<char>| x@);
        let ghost before = out@;
        if i > 0 {
            out.push(',');
            out.push(' ');
        }
        append_chars(&mut out, &toks[i]);
        proof {
            assert(toks@[i as int]@ == l[i as int]);
            assert(l.take(i + 1) =~= l.take(i as int).push(l[i as int]));
            if i == 0 {
                assert(l.take(1).len() == 1);
                assert(l.take(1)[0] == l[0]);
                assert(joined(l.take(1)) == l[0]);
                assert(out@ =~= before + l[0]);
                assert(before.len() == 0);
                assert(out@ =~= l[0]);
            } else {
                lemma_joined_push(l.take(i as int), l[i as int]);
                assert(out@ =~= before.push(',').push(' ') + l[i as int]);
                assert(out@ =~= joined(l.take(i as int)) + tag_sep() + l[i as int]);
            }
        }
        i += 1;
    }
    proof {
        assert(toks@.map_values(|x: Vec<char>| x@).take(toks@.len() as int) =~= toks@.map_values(
            |x: Vec<char>| x@,
        ));
    }
    crate::text::chars_to_string(&out)
}

} // verus!
