use vstd::prelude::*;

use crate::error::PromptedsError;
use crate::models::{Prompt, PromptV, SearchResult, SearchResultV};
use crate::store::{lemma_database_view, Database};
use crate::template::to_chars;

verus! {

// ---------------------------------------------------------------------------
// The token grammar of the full-text view
//
// A token is a maximal run of ASCII letters and digits, compared
// case-insensitively (ASCII folding). A document's tokens are those of the
// prompt's name followed by those of its content. A query is a list of bare
// tokens, all of which must occur in the document for it to match; the score
// is the number of document tokens that occur in the query, so a higher
// score is a better match and results come back best first.
// ---------------------------------------------------------------------------

/// A character that makes up a token: an ASCII letter or digit.
pub open spec fn is_token_char(c: char) -> bool {
    ||| 'a' as u32 <= c as u32 && c as u32 <= 'z' as u32
    ||| 'A' as u32 <= c as u32 && c as u32 <= 'Z' as u32
    ||| '0' as u32 <= c as u32 && c as u32 <= '9' as u32
}

/// ASCII case folding of one character.
pub open spec fn to_lower(c: char) -> char {
    if 'A' as u32 <= c as u32 && c as u32 <= 'Z' as u32 {
        (c as u32 + 32) as char
    } else {
        c
    }
}

/// ASCII case folding of a string.
pub open spec fn lower_seq(s: Seq<char>) -> Seq<char> {
    s.map_values(|c: char| to_lower(c))
}

/// The first index at or after `i` that does not hold a token character.
pub open spec fn token_end(s: Seq<char>, i: int) -> int
    decreases s.len() - i when 0 <= i <= s.len()
{
    if i >= s.len() {
        i
    } else if !is_token_char(s[i]) {
        i
    } else {
        token_end(s, i + 1)
    }
}

pub proof fn lemma_token_end(s: Seq<char>, i: int)
    requires
        0 <= i <= s.len(),
    ensures
        i <= token_end(s, i) <= s.len(),
        forall|j: int| i <= j < token_end(s, i) ==> is_token_char(#[trigger] s[j]),
        token_end(s, i) < s.len() ==> !is_token_char(s[token_end(s, i)]),
    decreases s.len() - i,
{
    if i < s.len() && is_token_char(s[i]) {
        lemma_token_end(s, i + 1);
    }
}

/// The case-folded tokens of `s` from index `i` on, in textual order.
pub open spec fn tokenize(s: Seq<char>, i: int) -> Seq<Seq<char>>
    decreases s.len() - i when 0 <= i <= s.len()
    via tokenize_decreases
{
    if i >= s.len() {
        Seq::empty()
    } else if !is_token_char(s[i]) {
        tokenize(s, i + 1)
    } else {
        seq![lower_seq(s.subrange(i, token_end(s, i)))] + tokenize(s, token_end(s, i))
    }
}

#[via_fn]
proof fn tokenize_decreases(s: Seq<char>, i: int) {
    if 0 <= i < s.len() && is_token_char(s[i]) {
        lemma_token_end(s, i + 1);
        assert(token_end(s, i) == token_end(s, i + 1));
    }
}

/// The tokens of a prompt's searchable text: its name, then its content.
pub open spec fn doc_tokens(p: PromptV) -> Seq<Seq<char>> {
    tokenize(p.name, 0) + tokenize(p.content, 0)
}

/// A prompt matches when every query token occurs among its tokens.
pub open spec fn matches_query(p: PromptV, qts: Seq<Seq<char>>) -> bool {
    forall|k: int| 0 <= k < qts.len() ==> doc_tokens(p).contains(#[trigger] qts[k])
}

/// How many of `tokens` occur in the query.
pub open spec fn count_matching(tokens: Seq<Seq<char>>, qts: Seq<Seq<char>>) -> nat
    decreases tokens.len(),
{
    if tokens.len() == 0 {
        0
    } else {
        (if qts.contains(tokens[0]) {
            1nat
        } else {
            0nat
        }) + count_matching(tokens.drop_first(), qts)
    }
}

/// A prompt's relevance score for a query: the number of its tokens that
/// occur in the query. Higher is better.
pub open spec fn spec_score(p: PromptV, qts: Seq<Seq<char>>) -> nat {
    count_matching(doc_tokens(p), qts)
}

/// The marker pair that highlighting wraps matched tokens in.
pub open spec fn mark_open() -> Seq<char> {
    seq!['<', 'm', 'a', 'r', 'k', '>']
}

pub open spec fn mark_close() -> Seq<char> {
    seq!['<', '/', 'm', 'a', 'r', 'k', '>']
}

/// The content with every token that occurs in the query wrapped in the
/// marker pair; everything else is copied.
pub open spec fn spec_highlight(s: Seq<char>, qts: Seq<Seq<char>>, i: int) -> Seq<char>
    decreases s.len() - i when 0 <= i <= s.len()
    via spec_highlight_decreases
{
    if i >= s.len() {
        Seq::empty()
    } else if !is_token_char(s[i]) {
        seq![s[i]] + spec_highlight(s, qts, i + 1)
    } else {
        let e = token_end(s, i);
        let tok = s.subrange(i, e);
        if qts.contains(lower_seq(tok)) {
            mark_open() + tok + mark_close() + spec_highlight(s, qts, e)
        } else {
            tok + spec_highlight(s, qts, e)
        }
    }
}

#[via_fn]
proof fn spec_highlight_decreases(s: Seq<char>, qts: Seq<Seq<char>>, i: int) {
    if 0 <= i < s.len() && is_token_char(s[i]) {
        lemma_token_end(s, i + 1);
        assert(token_end(s, i) == token_end(s, i + 1));
    }
}

/// The full search hit for one matching prompt.
pub open spec fn spec_result(p: PromptV, qts: Seq<Seq<char>>, highlight: bool) -> SearchResultV {
    SearchResultV {
        prompt: p,
        score: spec_score(p, qts),
        highlighted_content: if highlight {
            Some(spec_highlight(p.content, qts, 0))
        } else {
            None
        },
    }
}

/// The hits for all matching prompts, in store order.
pub open spec fn results_of(ps: Seq<PromptV>, qts: Seq<Seq<char>>, highlight: bool) -> Seq<
    SearchResultV,
>
    decreases ps.len(),
{
    if ps.len() == 0 {
        Seq::empty()
    } else {
        let rest = results_of(ps.drop_first(), qts, highlight);
        if matches_query(ps[0], qts) {
            seq![spec_result(ps[0], qts, highlight)] + rest
        } else {
            rest
        }
    }
}

/// Ordered by score, best (highest) first.
pub open spec fn sorted_desc_results(s: Seq<SearchResultV>) -> bool {
    forall|i: int, j: int| #![trigger s[i], s[j]] 0 <= i < j < s.len() ==> s[i].score >= s[j].score
}

// ---------------------------------------------------------------------------
// Executable tokenizing, matching and highlighting
// ---------------------------------------------------------------------------

fn is_token_char_exec(c: char) -> (b: bool)
    ensures
        b == is_token_char(c),
{
    let u = c as u32;
    (97 <= u && u <= 122) || (65 <= u && u <= 90) || (48 <= u && u <= 57)
}

fn to_lower_exec(c: char) -> (r: char)
    ensures
        r == to_lower(c),
{
    let u = c as u32;
    if 65 <= u && u <= 90 {
        let b = (u + 32) as u8;
        proof {
            assert((u + 32) as u8 == u + 32) by (bit_vector)
                requires
                    65 <= u && u <= 90,
            ;
        }
        b as char
    } else {
        c
    }
}

/// Element-wise equality of two character vectors.
fn chars_eq(a: &Vec<char>, b: &Vec<char>) -> (r: bool)
    ensures
        r == (a@ == b@),
{
    if a.len() != b.len() {
        return false;
    }
    let n = a.len();
    let mut i: usize = 0;
    while i < n
        invariant
            n == a@.len() == b@.len(),
            i <= n,
            forall|k: int| 0 <= k < i ==> a@[k] == b@[k],
        decreases n - i,
    {
        if a[i] != b[i] {
            return false;
        }
        i += 1;
    }
    proof {
        assert(a@ =~= b@);
    }
    true
}

/// Whether some token of `ts` equals `t`.
fn contains_token(ts: &Vec<Vec<char>>, t: &Vec<char>) -> (b: bool)
    ensures
        b == ts.deep_view().contains(t@),
{
    let mut j: usize = 0;
    while j < ts.len()
        invariant
            j <= ts@.len(),
            forall|k: int| 0 <= k < j ==> ts.deep_view()[k] != t@,
        decreases ts@.len() - j,
    {
        proof {
            assert(ts.deep_view()[j as int] =~= ts@[j as int]@);
        }
        if chars_eq(&ts[j], t) {
            return true;
        }
        j += 1;
    }
    proof {
        assert(forall|k: int|
            0 <= k < ts.deep_view().len() ==> ts.deep_view()[k] != t@);
    }
    false
}

/// The case-folded tokens of `s`, in order.
fn tokenize_exec(s: &str) -> (r: Vec<Vec<char>>)
    ensures
        r.deep_view() == tokenize(s@, 0),
{
    let ghost sv = s@;
    let chars = to_chars(s);
    let n = chars.len();
    let mut out: Vec<Vec<char>> = Vec::new();
    proof {
        assert(out.deep_view() =~= Seq::<Seq<char>>::empty());
        assert(Seq::<Seq<char>>::empty() + tokenize(sv, 0) =~= tokenize(sv, 0));
    }
    let mut i: usize = 0;
    while i < n
        invariant
            sv == s@,
            chars@ == sv,
            n == sv.len(),
            i <= n,
            tokenize(sv, 0) == out.deep_view() + tokenize(sv, i as int),
        decreases n - i,
    {
        let ghost out0 = out.deep_view();
        if is_token_char_exec(chars[i]) {
            proof {
                assert(token_end(sv, i as int) == token_end(sv, i as int + 1));
            }
            let mut e = i + 1;
            while e < n && is_token_char_exec(chars[e])
                invariant
                    sv == s@,
                    chars@ == sv,
                    n == sv.len(),
                    i + 1 <= e <= n,
                    token_end(sv, i as int + 1) == token_end(sv, e as int),
                decreases n - e,
            {
                e += 1;
            }
            proof {
                assert(token_end(sv, e as int) == e);
            }
            let mut tok: Vec<char> = Vec::new();
            let mut j = i;
            while j < e
                invariant
                    sv == s@,
                    chars@ == sv,
                    n == sv.len(),
                    i <= j <= e,
                    e <= n,
                    tok@.len() == j - i,
                    forall|k: int| 0 <= k < j - i ==> tok@[k] == to_lower(sv[i + k]),
                decreases e - j,
            {
                let c = to_lower_exec(chars[j]);
                tok.push(c);
                j += 1;
            }
            let ghost tokv = lower_seq(sv.subrange(i as int, e as int));
            proof {
                assert(tok@ =~= tokv);
                assert(tok.deep_view() =~= tok@);
            }
            out.push(tok);
            proof {
                assert(out.deep_view() =~= out0.push(tokv));
                assert(tokenize(sv, i as int) == seq![tokv] + tokenize(sv, e as int));
                assert(out0 + (seq![tokv] + tokenize(sv, e as int)) =~= out.deep_view()
                    + tokenize(sv, e as int));
            }
            i = e;
        } else {
            proof {
                assert(tokenize(sv, i as int) == tokenize(sv, i as int + 1));
            }
            i += 1;
        }
    }
    proof {
        assert(tokenize(sv, n as int) =~= Seq::<Seq<char>>::empty());
        assert(out.deep_view() + Seq::<Seq<char>>::empty() =~= out.deep_view());
    }
    out
}

/// The tokens of a prompt's name followed by those of its content.
fn doc_tokens_exec(p: &Prompt) -> (r: Vec<Vec<char>>)
    ensures
        r.deep_view() == doc_tokens(p@),
{
    let mut a = tokenize_exec(p.name.as_str());
    let mut b = tokenize_exec(p.content.as_str());
    let ghost av = a.deep_view();
    let ghost bv = b.deep_view();
    a.append(&mut b);
    proof {
        assert(a.deep_view() =~= av + bv);
    }
    a
}

/// Whether every query token occurs among the document tokens.
fn matches_exec(doc: &Vec<Vec<char>>, qts: &Vec<Vec<char>>) -> (b: bool)
    ensures
        b == (forall|k: int|
            0 <= k < qts.deep_view().len() ==> doc.deep_view().contains(
                #[trigger] qts.deep_view()[k],
            )),
{
    let mut k: usize = 0;
    while k < qts.len()
        invariant
            k <= qts@.len(),
            forall|a: int| 0 <= a < k ==> doc.deep_view().contains(#[trigger] qts.deep_view()[a]),
        decreases qts@.len() - k,
    {
        proof {
            assert(qts.deep_view()[k as int] =~= qts@[k as int]@);
        }
        if !contains_token(doc, &qts[k]) {
            return false;
        }
        k += 1;
    }
    true
}

/// The number of document tokens that occur in the query.
fn score_of(doc: &Vec<Vec<char>>, qts: &Vec<Vec<char>>) -> (r: usize)
    ensures
        r == count_matching(doc.deep_view(), qts.deep_view()),
{
    let ghost dv = doc.deep_view();
    let ghost qv = qts.deep_view();
    proof {
        assert(dv.skip(0) =~= dv);
    }
    let mut r: usize = 0;
    let mut k: usize = 0;
    while k < doc.len()
        invariant
            dv == doc.deep_view(),
            qv == qts.deep_view(),
            k <= dv.len(),
            r <= k,
            count_matching(dv, qv) == r + count_matching(dv.skip(k as int), qv),
        decreases dv.len() - k,
    {
        proof {
            assert(dv.skip(k as int)[0] == dv[k as int]);
            assert(dv.skip(k as int).drop_first() =~= dv.skip(k as int + 1));
            assert(dv[k as int] =~= doc@[k as int]@);
        }
        if contains_token(qts, &doc[k]) {
            r += 1;
        }
        k += 1;
    }
    proof {
        assert(dv.skip(dv.len() as int) =~= Seq::<Seq<char>>::empty());
    }
    r
}

/// The content with matched tokens wrapped in `<mark>`/`</mark>`.
fn highlight_exec(content: &str, qts: &Vec<Vec<char>>) -> (r: String)
    ensures
        r@ == spec_highlight(content@, qts.deep_view(), 0),
{
    let ghost sv = content@;
    let ghost qv = qts.deep_view();
    let chars = to_chars(content);
    let n = chars.len();
    let mut out = String::new();
    let mut i: usize = 0;
    while i < n
        invariant
            sv == content@,
            qv == qts.deep_view(),
            chars@ == sv,
            n == sv.len(),
            i <= n,
            spec_highlight(sv, qv, 0) == out@ + spec_highlight(sv, qv, i as int),
        decreases n - i,
    {
        let ghost prev = out@;
        if is_token_char_exec(chars[i]) {
            proof {
                assert(token_end(sv, i as int) == token_end(sv, i as int + 1));
            }
            let mut e = i + 1;
            while e < n && is_token_char_exec(chars[e])
                invariant
                    sv == content@,
                    chars@ == sv,
                    n == sv.len(),
                    i + 1 <= e <= n,
                    token_end(sv, i as int + 1) == token_end(sv, e as int),
                decreases n - e,
            {
                e += 1;
            }
            proof {
                assert(token_end(sv, e as int) == e);
            }
            let mut tok: Vec<char> = Vec::new();
            let mut j = i;
            while j < e
                invariant
                    sv == content@,
                    chars@ == sv,
                    n == sv.len(),
                    i <= j <= e,
                    e <= n,
                    tok@.len() == j - i,
                    forall|k: int| 0 <= k < j - i ==> tok@[k] == to_lower(sv[i + k]),
                decreases e - j,
            {
                let c = to_lower_exec(chars[j]);
                tok.push(c);
                j += 1;
            }
            let ghost tokl = lower_seq(sv.subrange(i as int, e as int));
            proof {
                assert(tok@ =~= tokl);
            }
            let marked = contains_token(qts, &tok);
            let piece = content.substring_char(i, e);
            if marked {
                out.append("<mark>");
                out.append(piece);
                out.append("</mark>");
            } else {
                out.append(piece);
            }
            proof {
                reveal_strlit("<mark>");
                reveal_strlit("</mark>");
                assert(("<mark>")@ =~= mark_open());
                assert(("</mark>")@ =~= mark_close());
                assert(piece@ =~= sv.subrange(i as int, e as int));
                let tokc = sv.subrange(i as int, e as int);
                let rest = spec_highlight(sv, qv, e as int);
                if marked {
                    assert(spec_highlight(sv, qv, i as int) == mark_open() + tokc + mark_close()
                        + rest);
                    assert(out@ =~= prev + (mark_open() + tokc + mark_close()));
                    assert(prev + (mark_open() + tokc + mark_close() + rest) =~= (prev + (
                    mark_open() + tokc + mark_close())) + rest);
                } else {
                    assert(spec_highlight(sv, qv, i as int) == tokc + rest);
                    assert(prev + (tokc + rest) =~= (prev + tokc) + rest);
                }
            }
            i = e;
        } else {
            let piece = content.substring_char(i, i + 1);
            out.append(piece);
            proof {
                assert(piece@ =~= seq![sv[i as int]]);
                assert(spec_highlight(sv, qv, i as int) == seq![sv[i as int]] + spec_highlight(
                    sv,
                    qv,
                    i as int + 1,
                ));
                assert(prev + (seq![sv[i as int]] + spec_highlight(sv, qv, i as int + 1)) =~= (
                prev + seq![sv[i as int]]) + spec_highlight(sv, qv, i as int + 1));
            }
            i += 1;
        }
    }
    proof {
        assert(out@ + Seq::<char>::empty() =~= out@);
    }
    out
}

/// Insertion sort of search hits by score, best first.
#[verifier::rlimit(50)]
fn sort_results_by_score(v: Vec<SearchResult>) -> (r: Vec<SearchResult>)
    ensures
        r.deep_view().to_multiset() == v.deep_view().to_multiset(),
        sorted_desc_results(r.deep_view()),
{
    broadcast use vstd::seq_lib::group_to_multiset_ensures;
    broadcast use vstd::multiset::group_multiset_axioms;

    let ghost orig = v.deep_view();
    let mut rest = v;
    let mut out: Vec<SearchResult> = Vec::new();
    proof {
        assert(out.deep_view() =~= Seq::<SearchResultV>::empty());
        assert(out.deep_view().to_multiset().add(rest.deep_view().to_multiset())
            =~= orig.to_multiset());
    }
    while rest.len() > 0
        invariant
            out.deep_view().to_multiset().add(rest.deep_view().to_multiset())
                == orig.to_multiset(),
            sorted_desc_results(out.deep_view()),
        decreases rest.len(),
    {
        broadcast use vstd::seq_lib::group_to_multiset_ensures;
        broadcast use vstd::multiset::group_multiset_axioms;

        let ghost rest0 = rest.deep_view();
        let ghost out0 = out.deep_view();
        let e = match rest.pop() {
            Some(e) => e,
            None => unreached(),
        };
        proof {
            assert(rest0 =~= rest.deep_view().push(e@));
            assert(rest0.to_multiset() == rest.deep_view().to_multiset().insert(e@));
        }
        let mut pos: usize = 0;
        while pos < out.len() && out[pos].score >= e.score
            invariant
                out.deep_view() == out0,
                pos <= out0.len(),
                forall|a: int| 0 <= a < pos ==> (#[trigger] out0[a]).score >= e@.score,
            decreases out0.len() - pos,
        {
            pos += 1;
        }
        proof {
            assert(pos == out0.len() || out0[pos as int].score < e@.score);
        }
        out.insert(pos, e);
        proof {
            assert(out.deep_view() =~= out0.insert(pos as int, e@));
            crate::store::lemma_insert_multiset(out0, pos as int, e@);
            out0.insert_ensures(pos as int, e@);
            let d = out.deep_view();
            assert forall|i: int, j: int|
                #![trigger d[i], d[j]]
                0 <= i < j < d.len() implies d[i].score >= d[j].score by {
                if j < pos {
                } else if j == pos {
                    assert(d[i] == out0[i]);
                } else {
                    assert(d[j] == out0[j - 1]);
                    if i < pos {
                        assert(d[i] == out0[i]);
                        assert(out0[j - 1].score <= out0[i].score);
                    } else if i == pos {
                        assert(out0[pos as int].score < e@.score);
                        assert(out0[j - 1].score <= out0[pos as int].score);
                    } else {
                        assert(d[i] == out0[i - 1]);
                    }
                }
            }
            assert(out.deep_view().to_multiset().add(rest.deep_view().to_multiset())
                =~= orig.to_multiset());
        }
    }
    proof {
        assert(rest.deep_view() =~= Seq::<SearchResultV>::empty());
        assert(out.deep_view().to_multiset().add(Seq::<SearchResultV>::empty().to_multiset())
            =~= out.deep_view().to_multiset());
    }
    out
}

impl Database {
    /// Free-text search over name and content: every query token must occur
    /// in a prompt for it to match; hits carry the complete prompt, its
    /// score (higher is better), and — when asked for — the content with
    /// matches wrapped in `<mark>`/`</mark>`. Hits come back best first, at
    /// most `limit` of them. A query with no tokens at all is invalid and
    /// fails with a storage-layer error; a query that nothing matches
    /// returns the empty list.
    pub fn search_prompts(&self, query: &str, limit: usize, highlight: bool) -> (r: Result<
        Vec<SearchResult>,
        PromptedsError,
    >)
        ensures
            tokenize(query@, 0).len() == 0 ==> r matches Err(PromptedsError::Storage { .. }),
            tokenize(query@, 0).len() > 0 ==> (r matches Ok(v) && (exists|
                entries: Seq<SearchResultV>,
            |
                {
                    &&& (#[trigger] entries.to_multiset()) == results_of(
                        self@.prompts,
                        tokenize(query@, 0),
                        highlight,
                    ).to_multiset()
                    &&& sorted_desc_results(entries)
                    &&& v.deep_view() == (if limit <= entries.len() {
                        entries.take(limit as int)
                    } else {
                        entries
                    })
                })),
    {
        proof {
            lemma_database_view(self);
        }
        let ghost ps = self@.prompts;
        let qts = tokenize_exec(query);
        if qts.len() == 0 {
            return Err(PromptedsError::Storage {
                details: String::from_str("search query holds no tokens"),
            });
        }
        let ghost qv = tokenize(query@, 0);
        let mut found: Vec<SearchResult> = Vec::new();
        proof {
            assert(found.deep_view() =~= Seq::<SearchResultV>::empty());
            assert(ps.skip(0) =~= ps);
            assert(Seq::<SearchResultV>::empty() + results_of(ps, qv, highlight) =~= results_of(
                ps,
                qv,
                highlight,
            ));
        }
        let mut k: usize = 0;
        while k < self.prompts.len()
            invariant
                ps == self@.prompts,
                qv == qts.deep_view(),
                k <= ps.len(),
                results_of(ps, qv, highlight) == found.deep_view() + results_of(
                    ps.skip(k as int),
                    qv,
                    highlight,
                ),
            decreases ps.len() - k,
        {
            let ghost found0 = found.deep_view();
            proof {
                lemma_database_view(self);
                assert(ps.skip(k as int)[0] == ps[k as int]);
                assert(ps.skip(k as int).drop_first() =~= ps.skip(k as int + 1));
            }
            let doc = doc_tokens_exec(&self.prompts[k]);
            if matches_exec(&doc, &qts) {
                let score = score_of(&doc, &qts);
                let highlighted_content: Option<String> = if highlight {
                    Some(highlight_exec(self.prompts[k].content.as_str(), &qts))
                } else {
                    None
                };
                let prompt = self.prompts[k].duplicate();
                let entry = SearchResult { prompt, score, highlighted_content };
                found.push(entry);
                proof {
                    assert(matches_query(ps[k as int], qv));
                    assert(entry@ == spec_result(ps[k as int], qv, highlight));
                    assert(found.deep_view() =~= found0.push(spec_result(
                        ps[k as int],
                        qv,
                        highlight,
                    )));
                    assert(results_of(ps.skip(k as int), qv, highlight) == seq![
                        spec_result(ps[k as int], qv, highlight),
                    ] + results_of(ps.skip(k as int + 1), qv, highlight));
                    assert(found0 + (seq![spec_result(ps[k as int], qv, highlight)] + results_of(
                        ps.skip(k as int + 1),
                        qv,
                        highlight,
                    )) =~= found.deep_view() + results_of(ps.skip(k as int + 1), qv, highlight));
                }
            } else {
                proof {
                    assert(!matches_query(ps[k as int], qv));
                    assert(results_of(ps.skip(k as int), qv, highlight) == results_of(
                        ps.skip(k as int + 1),
                        qv,
                        highlight,
                    ));
                }
            }
            k += 1;
        }
        proof {
            assert(ps.skip(ps.len() as int) =~= Seq::<PromptV>::empty());
            assert(found.deep_view() + Seq::<SearchResultV>::empty() =~= found.deep_view());
        }
        let mut out = sort_results_by_score(found);
        let ghost entries = out.deep_view();
        if limit < out.len() {
            out.truncate(limit);
            proof {
                assert(out.deep_view() =~= entries.take(limit as int));
            }
        }
        Ok(out)
    }
}

// ---------------------------------------------------------------------------
// Laws
// ---------------------------------------------------------------------------

/// Law: a query that no stored prompt matches returns no hits — an empty
/// result, not an error.
pub proof fn lemma_search_no_match(ps: Seq<PromptV>, qts: Seq<Seq<char>>, highlight: bool)
    requires
        forall|j: int| 0 <= j < ps.len() ==> !matches_query(#[trigger] ps[j], qts),
    ensures
        results_of(ps, qts, highlight) == Seq::<SearchResultV>::empty(),
    decreases ps.len(),
{
    if ps.len() == 0 {
        assert(results_of(ps, qts, highlight) =~= Seq::<SearchResultV>::empty());
    } else {
        assert forall|j: int|
            0 <= j < ps.drop_first().len() implies !matches_query(
            #[trigger] ps.drop_first()[j],
            qts,
        ) by {
            assert(ps.drop_first()[j] == ps[j + 1]);
        }
        lemma_search_no_match(ps.drop_first(), qts, highlight);
        assert(!matches_query(ps[0], qts));
    }
}

/// Law: a query that exactly one stored prompt matches returns exactly that
/// prompt's hit.
pub proof fn lemma_search_unique_match(
    ps: Seq<PromptV>,
    qts: Seq<Seq<char>>,
    highlight: bool,
    i: int,
)
    requires
        0 <= i < ps.len(),
        matches_query(ps[i], qts),
        forall|j: int| 0 <= j < ps.len() && j != i ==> !matches_query(#[trigger] ps[j], qts),
    ensures
        results_of(ps, qts, highlight) == seq![spec_result(ps[i], qts, highlight)],
    decreases ps.len(),
{
    let rest = ps.drop_first();
    if i == 0 {
        assert forall|j: int|
            0 <= j < rest.len() implies !matches_query(#[trigger] rest[j], qts) by {
            assert(rest[j] == ps[j + 1]);
        }
        lemma_search_no_match(rest, qts, highlight);
        assert(results_of(ps, qts, highlight) == seq![spec_result(ps[0], qts, highlight)]
            + Seq::<SearchResultV>::empty());
        assert(seq![spec_result(ps[0], qts, highlight)] + Seq::<SearchResultV>::empty()
            =~= seq![spec_result(ps[0], qts, highlight)]);
    } else {
        assert(!matches_query(ps[0], qts));
        assert(rest[i - 1] == ps[i]);
        assert forall|j: int|
            0 <= j < rest.len() && j != i - 1 implies !matches_query(
            #[trigger] rest[j],
            qts,
        ) by {
            assert(rest[j] == ps[j + 1]);
        }
        lemma_search_unique_match(rest, qts, highlight, i - 1);
    }
}

} // verus!
