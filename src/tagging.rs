//! Rule-based tag suggestions from a bookmark's URL and title.
use vstd::prelude::*;

use crate::text::compare_text;

verus! {

/// Confidence of a suggestion taken from the URL's host, in thousandths.
pub const DOMAIN_CONFIDENCE: u32 = 720;

/// Confidence of a suggestion taken from a title word, in thousandths.
pub const KEYWORD_CONFIDENCE: u32 = 600;

/// Shortest title word, in characters, that is suggested.
pub const MIN_KEYWORD_LEN: usize = 4;

/// Where a suggestion came from.
#[derive(Clone, Copy, Debug, PartialEq, Eq, Structural)]
pub enum TagSource {
    Rules,
    Llm,
}

impl TagSource {
    pub fn as_str(&self) -> (r: &'static str)
        ensures
            r@ == (match self {
                TagSource::Rules => "rules"@,
                TagSource::Llm => "llm"@,
            }),
    {
        match self {
            TagSource::Rules => "rules",
            TagSource::Llm => "llm",
        }
    }
}

/// A candidate tag. `confidence` is in thousandths, from 0 to 1000.
#[derive(Clone, Debug, PartialEq, Eq)]
pub struct TagSuggestion {
    pub name: String,
    pub confidence: u32,
    pub source: TagSource,
}

pub open spec fn suggestion_view(s: TagSuggestion) -> (Seq<char>, u32, TagSource) {
    (s.name@, s.confidence, s.source)
}

/// Name for what `str::trim` returns.
pub uninterp spec fn trim_of(s: Seq<char>) -> Seq<char>;

/// Name for what `char::is_alphanumeric` returns.
pub uninterp spec fn alnum(c: char) -> bool;

/// Name for what `str::to_lowercase` returns.
pub uninterp spec fn lower_of(s: Seq<char>) -> Seq<char>;

/// Relies on `str::trim`: the text without leading and trailing whitespace,
/// which depends on the text alone.
#[verifier::external_body]
pub(crate) fn trim(s: &str) -> (r: &str)
    ensures
        r@ == trim_of(s@),
{
    s.trim()
}

/// Relies on `char::is_alphanumeric`, a property of the character alone.
#[verifier::external_body]
fn is_alnum(c: char) -> (r: bool)
    ensures
        r == alnum(c),
{
    c.is_alphanumeric()
}

/// Relies on `str::to_lowercase`, whose result depends on the text alone.
#[verifier::external_body]
fn lowercase(s: &str) -> (r: String)
    ensures
        r@ == lower_of(s@),
{
    s.to_lowercase()
}

pub open spec fn starts_with(s: Seq<char>, p: Seq<char>) -> bool {
    p.len() <= s.len() && s.take(p.len() as int) == p
}

/// `s` with every leading copy of `p` removed.
pub open spec fn strip_all(s: Seq<char>, p: Seq<char>) -> Seq<char>
    decreases s.len(),
{
    if p.len() > 0 && starts_with(s, p) {
        strip_all(s.skip(p.len() as int), p)
    } else {
        s
    }
}

/// Position of the first `/` in `s`, or its length when there is none.
pub open spec fn first_slash(s: Seq<char>) -> int
    decreases s.len(),
{
    if s.len() == 0 {
        0
    } else if s[0] == '/' {
        0
    } else {
        1 + first_slash(s.drop_first())
    }
}

/// The host named by a URL: surrounding whitespace and any leading schemes
/// dropped, cut at the first `/`, any leading `www.` dropped; none if empty.
pub open spec fn domain_of(url: Seq<char>) -> Option<Seq<char>> {
    host_from(trim_of(url))
}

/// The host named by a URL without surrounding whitespace.
pub open spec fn host_from(trimmed: Seq<char>) -> Option<Seq<char>> {
    let bare = strip_all(strip_all(trimmed, "https://"@), "http://"@);
    let host = strip_all(bare.take(first_slash(bare)), "www."@);
    if host.len() == 0 {
        None
    } else {
        Some(host)
    }
}

/// Pieces of `t` between characters that are not alphanumeric, as `str::split`
/// gives them (empty pieces included).
pub open spec fn split_fragments(t: Seq<char>) -> Seq<Seq<char>>
    decreases t.len(),
{
    if t.len() == 0 {
        seq![Seq::<char>::empty()]
    } else {
        let prev = split_fragments(t.drop_last());
        if alnum(t.last()) {
            prev.update(prev.len() - 1, prev.last().push(t.last()))
        } else {
            prev.push(Seq::<char>::empty())
        }
    }
}

pub open spec fn stopword_list() -> Seq<Seq<char>> {
    seq![
        "the"@,
        "and"@,
        "for"@,
        "with"@,
        "that"@,
        "this"@,
        "from"@,
        "into"@,
        "your"@,
        "you"@,
        "are"@,
        "was"@,
        "were"@,
        "have"@,
        "has"@,
        "about"@,
        "http"@,
        "https"@,
    ]
}

pub open spec fn is_stopword(w: Seq<char>) -> bool {
    stopword_list().contains(w)
}

/// Keywords after one more fragment: its lowercase form is added when long
/// enough, not a stopword, and not already there.
pub open spec fn keep_step(prev: Seq<Seq<char>>, frag: Seq<char>) -> Seq<Seq<char>> {
    kept_after(prev, lower_of(frag))
}

/// Keywords after one more lowercase word: it is added when long enough, not
/// a stopword, and not already there.
pub open spec fn kept_after(prev: Seq<Seq<char>>, w: Seq<char>) -> Seq<Seq<char>> {
    if w.len() >= MIN_KEYWORD_LEN && !is_stopword(w) && !prev.contains(w) {
        prev.push(w)
    } else {
        prev
    }
}

pub open spec fn keep_keywords(frags: Seq<Seq<char>>) -> Seq<Seq<char>>
    decreases frags.len(),
{
    if frags.len() == 0 {
        seq![]
    } else {
        keep_step(keep_keywords(frags.drop_last()), frags.last())
    }
}

pub open spec fn keywords_of(title: Seq<char>) -> Seq<Seq<char>> {
    keep_keywords(split_fragments(title))
}

/// Suggestions for a bookmark: the host first, if any, then the title's keywords.
pub open spec fn rule_suggestions(url: Seq<char>, title: Seq<char>) -> Seq<
    (Seq<char>, u32, TagSource),
> {
    let host = match domain_of(url) {
        Some(d) => seq![(d, DOMAIN_CONFIDENCE, TagSource::Rules)],
        None => seq![],
    };
    host + keywords_of(title).map_values(|k: Seq<char>| (k, KEYWORD_CONFIDENCE, TagSource::Rules))
}

fn has_prefix(s: &str, p: &str) -> (r: bool)
    ensures
        r == starts_with(s@, p@),
{
    let ls = s.unicode_len();
    let lp = p.unicode_len();
    if lp > ls {
        return false;
    }
    let mut i: usize = 0;
    while i < lp
        invariant
            lp == p@.len(),
            lp <= ls == s@.len(),
            i <= lp,
            forall|k: int| 0 <= k < i ==> s@[k] == p@[k],
        decreases lp - i,
    {
        if s.get_char(i) != p.get_char(i) {
            assert(s@.take(lp as int)[i as int] != p@[i as int]);
            return false;
        }
        i = i + 1;
    }
    assert(s@.take(lp as int) =~= p@);
    true
}

fn strip_leading<'a>(s: &'a str, p: &str) -> (r: &'a str)
    ensures
        r@ == strip_all(s@, p@),
{
    let lp = p.unicode_len();
    let mut cur = s;
    while lp > 0 && has_prefix(cur, p)
        invariant
            lp == p@.len(),
            strip_all(cur@, p@) == strip_all(s@, p@),
        decreases cur@.len(),
    {
        let n = cur.unicode_len();
        cur = cur.substring_char(lp, n);
    }
    cur
}

fn slash_position(s: &str) -> (r: usize)
    ensures
        r == first_slash(s@),
{
    let n = s.unicode_len();
    let mut i: usize = 0;
    assert(s@.skip(0) =~= s@);
    while i < n && s.get_char(i) != '/'
        invariant
            n == s@.len(),
            i <= n,
            first_slash(s@) == i + first_slash(s@.skip(i as int)),
        decreases n - i,
    {
        proof {
            assert(s@.skip(i as int).drop_first() =~= s@.skip(i + 1));
            assert(s@.skip(i as int)[0] == s@[i as int]);
        }
        i = i + 1;
    }
    proof {
        if i == n {
            assert(s@.skip(i as int).len() == 0);
        } else {
            assert(s@.skip(i as int)[0] == '/');
        }
    }
    i
}

proof fn lemma_first_slash_bound(s: Seq<char>)
    ensures
        0 <= first_slash(s) <= s.len(),
    decreases s.len(),
{
    if s.len() > 0 {
        lemma_first_slash_bound(s.drop_first());
    }
}

/// The host that a URL names, if any.
fn extract_domain(url: &str) -> (r: Option<String>)
    ensures
        r matches Some(d) ==> domain_of(url@) == Some(d@),
        r is None ==> domain_of(url@) is None,
{
    host_from_trimmed(trim(url))
}

/// The host named by a URL already stripped of surrounding whitespace.
pub fn host_from_trimmed(trimmed: &str) -> (r: Option<String>)
    ensures
        r matches Some(d) ==> host_from(trimmed@) == Some(d@),
        r is None ==> host_from(trimmed@) is None,
{
    let no_https = strip_leading(trimmed, "https://");
    let bare = strip_leading(no_https, "http://");
    let cut = slash_position(bare);
    proof {
        lemma_first_slash_bound(bare@);
    }
    let host = strip_leading(bare.substring_char(0, cut), "www.");
    if host.unicode_len() == 0 {
        None
    } else {
        Some(String::from_str(host))
    }
}

pub open spec fn string_views(v: Seq<String>) -> Seq<Seq<char>> {
    v.map_values(|s: String| s@)
}

fn contains_word(list: &Vec<String>, w: &str) -> (r: bool)
    ensures
        r == string_views(list@).contains(w@),
{
    let mut i: usize = 0;
    while i < list.len()
        invariant
            i <= list.len(),
            forall|k: int| 0 <= k < i ==> list@[k]@ != w@,
        decreases list.len() - i,
    {
        if compare_text(list[i].as_str(), w) == 0 {
            assert(string_views(list@)[i as int] == w@);
            return true;
        }
        i = i + 1;
    }
    proof {
        if string_views(list@).contains(w@) {
            let k = choose|k: int| 0 <= k < list.len() && string_views(list@)[k] == w@;
            assert(list@[k]@ == w@);
        }
    }
    false
}

fn keep_fragment(kws: &mut Vec<String>, frag: &str, stopwords: &Vec<String>)
    requires
        string_views(stopwords@) == stopword_list(),
    ensures
        string_views(final(kws)@) == keep_step(string_views(old(kws)@), frag@),
{
    let w = lowercase(frag);
    keep_keyword(kws, w, stopwords);
}

fn keep_keyword(kws: &mut Vec<String>, w: String, stopwords: &Vec<String>)
    requires
        string_views(stopwords@) == stopword_list(),
    ensures
        string_views(final(kws)@) == kept_after(string_views(old(kws)@), w@),
{
    if w.as_str().unicode_len() >= MIN_KEYWORD_LEN && !contains_word(stopwords, w.as_str())
        && !contains_word(kws, w.as_str()) {
        let ghost before = kws@;
        kws.push(w);
        proof {
            assert(string_views(kws@) =~= string_views(before).push(w@));
        }
    }
}

proof fn lemma_split_step(t: Seq<char>, done: Seq<Seq<char>>, start: int, i: int)
    requires
        0 <= start <= i < t.len(),
        split_fragments(t.take(i)) == done.push(t.subrange(start, i)),
    ensures
        alnum(t[i]) ==> split_fragments(t.take(i + 1)) == done.push(t.subrange(start, i + 1)),
        !alnum(t[i]) ==> split_fragments(t.take(i + 1)) == done.push(t.subrange(start, i)).push(
            t.subrange(i + 1, i + 1),
        ),
{
    let u = t.take(i + 1);
    assert(u.drop_last() =~= t.take(i));
    assert(u.last() == t[i]);
    if alnum(t[i]) {
        assert(t.subrange(start, i).push(t[i]) =~= t.subrange(start, i + 1));
        assert(done.push(t.subrange(start, i)).update(done.len() as int, t.subrange(start, i).push(t[i]))
            =~= done.push(t.subrange(start, i + 1)));
    } else {
        assert(t.subrange(i + 1, i + 1) =~= Seq::<char>::empty());
    }
}

/// Keywords of a title, in the order first seen.
fn extract_keywords(title: &str, stopwords: &Vec<String>) -> (r: Vec<String>)
    requires
        string_views(stopwords@) == stopword_list(),
    ensures
        string_views(r@) == keywords_of(title@),
{
    let n = title.unicode_len();
    let mut kws: Vec<String> = Vec::new();
    let ghost mut done: Seq<Seq<char>> = seq![];
    let mut start: usize = 0;
    let mut i: usize = 0;
    proof {
        assert(title@.take(0) =~= Seq::<char>::empty());
        assert(title@.subrange(0, 0) =~= Seq::<char>::empty());
        assert(string_views(kws@) =~= Seq::<Seq<char>>::empty());
    }
    while i < n
        invariant
            n == title@.len(),
            start <= i <= n,
            string_views(stopwords@) == stopword_list(),
            split_fragments(title@.take(i as int)) == done.push(title@.subrange(start as int, i as int)),
            string_views(kws@) == keep_keywords(done),
        decreases n - i,
    {
        let c = title.get_char(i);
        proof {
            lemma_split_step(title@, done, start as int, i as int);
        }
        if !is_alnum(c) {
            let frag = title.substring_char(start, i);
            keep_fragment(&mut kws, frag, stopwords);
            proof {
                assert(done.push(frag@).drop_last() =~= done);
                done = done.push(frag@);
            }
            start = i + 1;
        }
        i = i + 1;
    }
    let frag = title.substring_char(start, n);
    keep_fragment(&mut kws, frag, stopwords);
    proof {
        assert(title@.take(n as int) =~= title@);
        assert(done.push(frag@).drop_last() =~= done);
    }
    kws
}

/// The rule engine: holds the fixed stopword list.
pub struct TaggingRules {
    stopwords: Vec<String>,
}

impl TaggingRules {
    pub closed spec fn wf(&self) -> bool {
        string_views(self.stopwords@) == stopword_list()
    }

    pub fn new() -> (r: Self)
        ensures
            r.wf(),
    {
        let mut stopwords: Vec<String> = Vec::new();
        stopwords.push(String::from_str("the"));
        stopwords.push(String::from_str("and"));
        stopwords.push(String::from_str("for"));
        stopwords.push(String::from_str("with"));
        stopwords.push(String::from_str("that"));
        stopwords.push(String::from_str("this"));
        stopwords.push(String::from_str("from"));
        stopwords.push(String::from_str("into"));
        stopwords.push(String::from_str("your"));
        stopwords.push(String::from_str("you"));
        stopwords.push(String::from_str("are"));
        stopwords.push(String::from_str("was"));
        stopwords.push(String::from_str("were"));
        stopwords.push(String::from_str("have"));
        stopwords.push(String::from_str("has"));
        stopwords.push(String::from_str("about"));
        stopwords.push(String::from_str("http"));
        stopwords.push(String::from_str("https"));
        assert(string_views(stopwords@) =~= stopword_list());
        TaggingRules { stopwords }
    }

    /// Adds a lowercase word to the keywords kept so far, when it is long
    /// enough, not a stopword, and not already kept.
    pub fn keep_word(&self, kept: &mut Vec<String>, word: String)
        requires
            self.wf(),
        ensures
            string_views(final(kept)@) == kept_after(string_views(old(kept)@), word@),
    {
        keep_keyword(kept, word, &self.stopwords);
    }

    /// Suggestions for a bookmark: its host, then its title's keywords.
    pub fn suggest(&self, url: &str, title: &str) -> (r: Vec<TagSuggestion>)
        requires
            self.wf(),
        ensures
            r@.map_values(|s: TagSuggestion| suggestion_view(s)) == rule_suggestions(url@, title@),
    {
        let mut suggestions: Vec<TagSuggestion> = Vec::new();
        let domain = extract_domain(url);
        if let Some(d) = domain {
            suggestions.push(
                TagSuggestion { name: d, confidence: DOMAIN_CONFIDENCE, source: TagSource::Rules },
            );
        }
        let ghost head = suggestions@.map_values(|s: TagSuggestion| suggestion_view(s));
        let keywords = extract_keywords(title, &self.stopwords);
        let ghost kv = keywords_of(title@).map_values(
            |k: Seq<char>| (k, KEYWORD_CONFIDENCE, TagSource::Rules),
        );
        proof {
            assert(head =~= rule_suggestions(url@, title@).take(head.len() as int));
            assert(string_views(keywords@).len() == keywords@.len());
        }
        let mut i: usize = 0;
        while i < keywords.len()
            invariant
                i <= keywords.len(),
                string_views(keywords@) == keywords_of(title@),
                kv == keywords_of(title@).map_values(
                    |k: Seq<char>| (k, KEYWORD_CONFIDENCE, TagSource::Rules),
                ),
                head.len() <= 1,
                rule_suggestions(url@, title@) == head + kv,
                suggestions@.map_values(|s: TagSuggestion| suggestion_view(s)) == head + kv.take(
                    i as int,
                ),
            decreases keywords.len() - i,
        {
            let ghost before = suggestions@;
            let name = keywords[i].clone();
            suggestions.push(
                TagSuggestion { name, confidence: KEYWORD_CONFIDENCE, source: TagSource::Rules },
            );
            proof {
                assert(string_views(keywords@)[i as int] == keywords@[i as int]@);
                assert(kv[i as int] == (keywords@[i as int]@, KEYWORD_CONFIDENCE, TagSource::Rules));
                assert(suggestions@.map_values(|s: TagSuggestion| suggestion_view(s)) =~= before.map_values(
                    |s: TagSuggestion| suggestion_view(s),
                ).push(suggestion_view(suggestions@[before.len() as int])));
                assert(kv.take(i + 1) =~= kv.take(i as int).push(kv[i as int]));
                assert((head + kv.take(i as int)).push(kv[i as int]) =~= head + kv.take(i + 1));
            }
            i = i + 1;
        }
        proof {
            assert(kv.take(kv.len() as int) =~= kv);
        }
        suggestions
    }
}

/// Suggestions as a second stage reports them: confidence scaled by nine tenths
/// and capped, source relabelled.
pub open spec fn rescaled(s: (Seq<char>, u32, TagSource)) -> (Seq<char>, u32, TagSource) {
    let c = (s.1 as int) * (LLM_SCALE_NUM as int) / (LLM_SCALE_DEN as int);
    (s.0, if c < LLM_CONFIDENCE_CAP { c as u32 } else { LLM_CONFIDENCE_CAP }, TagSource::Llm)
}

/// Numerator and denominator of the factor applied to confidences by the second stage.
pub const LLM_SCALE_NUM: u32 = 9;

pub const LLM_SCALE_DEN: u32 = 10;

/// Highest confidence, in thousandths, that the second stage reports.
pub const LLM_CONFIDENCE_CAP: u32 = 950;

/// Relabels rule suggestions as the second stage's, with confidences rescaled.
pub fn rescale_for_llm(suggestions: Vec<TagSuggestion>) -> (r: Vec<TagSuggestion>)
    requires
        forall|k: int| 0 <= k < suggestions.len() ==> suggestions@[k].confidence <= 1000,
    ensures
        r@.map_values(|s: TagSuggestion| suggestion_view(s)) == suggestions@.map_values(
            |s: TagSuggestion| rescaled(suggestion_view(s)),
        ),
{
    let mut out: Vec<TagSuggestion> = Vec::new();
    let mut rest = suggestions;
    let ghost orig = rest@;
    let mut i: usize = 0;
    let n = rest.len();
    while i < n
        invariant
            n == orig.len(),
            i <= n,
            rest@.len() == n - i,
            forall|k: int| 0 <= k < rest@.len() ==> rest@[k] == orig[i + k],
            forall|k: int| 0 <= k < orig.len() ==> orig[k].confidence <= 1000,
            out@.map_values(|s: TagSuggestion| suggestion_view(s)) == orig.take(i as int).map_values(
                |s: TagSuggestion| rescaled(suggestion_view(s)),
            ),
        decreases n - i,
    {
        let s = rest.remove(0);
        let scaled = s.confidence * LLM_SCALE_NUM / LLM_SCALE_DEN;
        let confidence = if scaled < LLM_CONFIDENCE_CAP {
            scaled
        } else {
            LLM_CONFIDENCE_CAP
        };
        let ghost before = out@;
        out.push(TagSuggestion { name: s.name, confidence, source: TagSource::Llm });
        proof {
            assert(s == orig[i as int]);
            assert(orig.take(i + 1) =~= orig.take(i as int).push(orig[i as int]));
            assert(out@.map_values(|s: TagSuggestion| suggestion_view(s)) =~= before.map_values(
                |s: TagSuggestion| suggestion_view(s),
            ).push(suggestion_view(out@[before.len() as int])));
            assert(orig.take(i + 1).map_values(|s: TagSuggestion| rescaled(suggestion_view(s)))
                =~= orig.take(i as int).map_values(|s: TagSuggestion| rescaled(suggestion_view(s))).push(
                rescaled(suggestion_view(orig[i as int]))));
        }
        i = i + 1;
    }
    proof {
        assert(orig.take(n as int) =~= orig);
    }
    out
}

proof fn lemma_strip_all_suffix(s: Seq<char>, p: Seq<char>) -> (k: int)
    ensures
        0 <= k <= s.len(),
        strip_all(s, p) == s.skip(k),
        p.len() > 0 ==> !starts_with(strip_all(s, p), p),
    decreases s.len(),
{
    if p.len() > 0 && starts_with(s, p) {
        let k0 = lemma_strip_all_suffix(s.skip(p.len() as int), p);
        assert(s.skip(p.len() as int).skip(k0) =~= s.skip(p.len() + k0));
        p.len() + k0
    } else {
        assert(s.skip(0) =~= s);
        0
    }
}

proof fn lemma_before_slash(s: Seq<char>)
    ensures
        0 <= first_slash(s) <= s.len(),
        forall|k: int| 0 <= k < first_slash(s) ==> s[k] != '/',
    decreases s.len(),
{
    if s.len() > 0 && s[0] != '/' {
        lemma_before_slash(s.drop_first());
        assert forall|k: int| 0 <= k < first_slash(s) implies s[k] != '/' by {
            if k > 0 {
                assert(s[k] == s.drop_first()[k - 1]);
            }
        }
    }
}

/// A URL that names a host gets exactly one suggestion at the host's
/// confidence, the first; the host holds no `/`, so no scheme, and does not
/// start with `www.`.
pub proof fn lemma_one_domain_suggestion(url: Seq<char>, title: Seq<char>)
    requires
        domain_of(url) is Some,
    ensures
        ({
            let d = domain_of(url)->0;
            let r = rule_suggestions(url, title);
            &&& r[0] == (d, DOMAIN_CONFIDENCE, TagSource::Rules)
            &&& forall|k: int| 1 <= k < r.len() ==> r[k].1 == KEYWORD_CONFIDENCE
            &&& forall|k: int| 0 <= k < d.len() ==> d[k] != '/'
            &&& !starts_with(d, "www."@)
            &&& !starts_with(d, "http://"@)
            &&& !starts_with(d, "https://"@)
        }),
{
    let d = domain_of(url)->0;
    let bare = strip_all(strip_all(trim_of(url), "https://"@), "http://"@);
    let cut = bare.take(first_slash(bare));
    lemma_before_slash(bare);
    reveal_strlit("www.");
    reveal_strlit("http://");
    reveal_strlit("https://");
    let k = lemma_strip_all_suffix(cut, "www."@);
    assert forall|j: int| 0 <= j < d.len() implies d[j] != '/' by {
        assert(d[j] == cut[j + k]);
    }
    if starts_with(d, "http://"@) {
        assert(d.take(7)[5] == '/');
    }
    if starts_with(d, "https://"@) {
        assert(d.take(8)[6] == '/');
    }
}

proof fn lemma_keep_keywords_props(frags: Seq<Seq<char>>)
    ensures
        forall|k: int|
            0 <= k < keep_keywords(frags).len() ==> #[trigger] keep_keywords(frags)[k].len()
                >= MIN_KEYWORD_LEN && !is_stopword(keep_keywords(frags)[k]),
        keep_keywords(frags).no_duplicates(),
    decreases frags.len(),
{
    if frags.len() > 0 {
        lemma_keep_keywords_props(frags.drop_last());
    }
}

/// No keyword suggested for a title is shorter than the minimum, a stopword,
/// or suggested twice.
pub proof fn lemma_keywords_filtered(title: Seq<char>)
    ensures
        forall|k: int|
            0 <= k < keywords_of(title).len() ==> #[trigger] keywords_of(title)[k].len()
                >= MIN_KEYWORD_LEN && !is_stopword(keywords_of(title)[k]),
        keywords_of(title).no_duplicates(),
{
    lemma_keep_keywords_props(split_fragments(title));
}

pub(crate) proof fn lemma_rule_confidences(url: Seq<char>, title: Seq<char>)
    ensures
        forall|k: int|
            0 <= k < rule_suggestions(url, title).len() ==> #[trigger] rule_suggestions(
                url,
                title,
            )[k].1 <= 1000,
{
    let r = rule_suggestions(url, title);
    let host: Seq<(Seq<char>, u32, TagSource)> = match domain_of(url) {
        Some(d) => seq![(d, DOMAIN_CONFIDENCE, TagSource::Rules)],
        None => seq![],
    };
    let kv = keywords_of(title).map_values(
        |k: Seq<char>| (k, KEYWORD_CONFIDENCE, TagSource::Rules),
    );
    assert(r == host + kv);
    assert forall|k: int| 0 <= k < r.len() implies #[trigger] r[k].1 <= 1000 by {
        if k < host.len() {
            assert(r[k] == host[k]);
        } else {
            assert(r[k] == kv[k - host.len()]);
        }
    }
}

} // verus!
