//! Search results, their ranking, and the metadata and content searches.

use vstd::prelude::*;
use crate::index::{ContentEntryView, ContentIndex, SkillIndex, meta_views, names_unique, opt_str};
use crate::snippet::{extract_snippet, snippet_of};
use crate::text::{occurrences, lemma_occurrences_le, count_occurrences, string_of};
use crate::meta::{SkillMeta, SkillView, SubSkillView};
use crate::text::{
    chars_of, contains, contains_seq, lower_chars, lower_of, seqs_of, split_whitespace, split_ws,
};
use crate::order::{
    is_ordered, is_strict, keys_unique, lemma_ins_pos, lemma_sorted_by_elements,
    lemma_sorted_by_keys, lemma_sorted_by_ordered, sorted_by,
};
use crate::score::{Score, lemma_le_total, lemma_le_trans};

verus! {

/// The field a result matched on.
#[derive(Debug, Clone, Copy, PartialEq, Eq, Structural)]
pub enum MatchType {
    /// The skill name.
    Name,
    /// The description.
    Description,
    /// A tag.
    Tags,
    /// A sub-skill trigger.
    Triggers,
    /// A document body.
    Content,
}

impl MatchType {
    /// The fixed relevance weight of the field.
    pub open spec fn weight_spec(self) -> Score {
        match self {
            MatchType::Name => Score { num: 3, den: 1 },
            MatchType::Triggers => Score { num: 5, den: 2 },
            MatchType::Tags => Score { num: 2, den: 1 },
            MatchType::Description => Score { num: 3, den: 2 },
            MatchType::Content => Score { num: 1, den: 1 },
        }
    }

    /// The fixed relevance weight of the field: Name 3, Triggers 2.5, Tags 2,
    /// Description 1.5, Content 1.
    pub fn weight(&self) -> (r: Score)
        ensures
            r == self.weight_spec(),
            r.wf(),
    {
        match self {
            MatchType::Name => Score { num: 3, den: 1 },
            MatchType::Triggers => Score { num: 5, den: 2 },
            MatchType::Tags => Score { num: 2, den: 1 },
            MatchType::Description => Score { num: 3, den: 2 },
            MatchType::Content => Score { num: 1, den: 1 },
        }
    }
}

/// `(num / den) * weight(t)`.
pub open spec fn weighted_spec(num: int, den: int, t: MatchType) -> Score {
    Score { num: (num * t.weight_spec().num) as u128, den: (den * t.weight_spec().den) as u128 }
}

/// The score `(num / den) * weight(t)`.
pub fn weighted(num: u128, den: u128, t: MatchType) -> (r: Score)
    requires
        0 < den,
        num <= u64::MAX,
        den <= u64::MAX,
    ensures
        r == weighted_spec(num as int, den as int, t),
        r.num == num * t.weight_spec().num,
        r.den == den * t.weight_spec().den,
        r.wf(),
{
    let w = t.weight();
    assert(w.num <= 5 && w.den <= 2);
    assert(den * w.den > 0) by (nonlinear_arith)
        requires
            den > 0,
            w.den > 0,
    ;
    assert(num * w.num <= u64::MAX * 5) by (nonlinear_arith)
        requires
            num <= u64::MAX,
            w.num <= 5,
    ;
    assert(den * w.den <= u64::MAX * 2) by (nonlinear_arith)
        requires
            den <= u64::MAX,
            w.den <= 2,
    ;
    Score { num: num * w.num, den: den * w.den }
}

/// What a search result holds.
pub struct ResultView {
    pub domain: Seq<char>,
    pub sub_skill: Option<Seq<char>>,
    pub score: Score,
    pub match_type: MatchType,
    pub snippet: Option<Seq<char>>,
    pub file: Option<Seq<char>>,
}

/// One search hit.
#[derive(Debug)]
pub struct SearchResult {
    /// The skill.
    pub domain: String,
    /// The sub-skill, for content hits within a sub-skill document.
    pub sub_skill: Option<String>,
    /// Relevance.
    pub score: Score,
    /// The field that matched.
    pub match_type: MatchType,
    /// An excerpt around the match.
    pub snippet: Option<String>,
    /// The document, for content hits.
    pub file: Option<String>,
}

impl View for SearchResult {
    type V = ResultView;

    open spec fn view(&self) -> ResultView {
        ResultView {
            domain: self.domain@,
            sub_skill: opt_str(self.sub_skill),
            score: self.score,
            match_type: self.match_type,
            snippet: opt_str(self.snippet),
            file: opt_str(self.file),
        }
    }
}

impl Clone for SearchResult {
    fn clone(&self) -> (r: Self)
        ensures
            r@ == self@,
    {
        SearchResult {
            domain: self.domain.clone(),
            sub_skill: crate::index::copy_opt(&self.sub_skill),
            score: self.score,
            match_type: self.match_type,
            snippet: crate::index::copy_opt(&self.snippet),
            file: crate::index::copy_opt(&self.file),
        }
    }
}

/// The views of a list of results.
pub open spec fn result_views(v: Seq<SearchResult>) -> Seq<ResultView> {
    v.map_values(|r: SearchResult| r@)
}

impl SearchResult {
    pub fn new(domain: String, score: Score, match_type: MatchType) -> (r: Self)
        ensures
            r@ == (ResultView {
                domain: domain@,
                sub_skill: None,
                score,
                match_type,
                snippet: None,
                file: None,
            }),
    {
        SearchResult { domain, sub_skill: None, score, match_type, snippet: None, file: None }
    }

    pub fn with_sub_skill(self, sub_skill: String) -> (r: Self)
        ensures
            r@ == (ResultView { sub_skill: Some(sub_skill@), ..self@ }),
    {
        let mut r = self;
        r.sub_skill = Some(sub_skill);
        r
    }

    pub fn with_snippet(self, snippet: String) -> (r: Self)
        ensures
            r@ == (ResultView { snippet: Some(snippet@), ..self@ }),
    {
        let mut r = self;
        r.snippet = Some(snippet);
        r
    }

    pub fn with_file(self, file: String) -> (r: Self)
        ensures
            r@ == (ResultView { file: Some(file@), ..self@ }),
    {
        let mut r = self;
        r.file = Some(file);
        r
    }

    /// `domain`, or `domain:sub_skill`.
    pub fn display_id(&self) -> (r: String)
        ensures
            r@ == crate::index::key_of(self.domain@, opt_str(self.sub_skill)),
    {
        match &self.sub_skill {
            Some(sub) => vstd::string::StringExecFns::concat(
                vstd::string::StringExecFns::concat(self.domain.clone(), ":"),
                sub.as_str(),
            ),
            None => self.domain.clone(),
        }
    }
}

/// `a` ranks strictly before `b`: its score is higher.
pub open spec fn ranks_before(a: ResultView, b: ResultView) -> bool {
    a.score.wf() && b.score.wf() && b.score.lt_spec(a.score)
}

/// Results ranked by score, highest first, equal scores in input order.
pub open spec fn ranked(s: Seq<ResultView>) -> Seq<ResultView> {
    sorted_by(s, |a: ResultView, b: ResultView| ranks_before(a, b))
}

/// Every score is a proper fraction.
pub open spec fn scores_wf(s: Seq<ResultView>) -> bool {
    forall|i: int| 0 <= i < s.len() ==> (#[trigger] s[i]).score.wf()
}

/// Scores never increase along the sequence.
pub open spec fn scores_non_increasing(s: Seq<ResultView>) -> bool {
    forall|i: int, j: int| 0 <= i < j < s.len() ==> s[j].score.le_spec(s[i].score)
}

proof fn lemma_ranks_before_strict()
    ensures
        is_strict(|a: ResultView, b: ResultView| ranks_before(a, b)),
{
    let prec = |a: ResultView, b: ResultView| ranks_before(a, b);
    assert forall|a: ResultView, b: ResultView, c: ResultView|
        #[trigger] prec(a, b) && #[trigger] prec(b, c) implies prec(a, c) by {
        if !prec(a, c) {
            lemma_le_total(a.score, c.score);
            lemma_le_trans(a.score, c.score, b.score);
        }
    }
}

/// Ranking keeps the results, orders them by score, and keeps distinct
/// domains distinct.
pub proof fn lemma_ranked(s: Seq<ResultView>)
    requires
        scores_wf(s),
    ensures
        ranked(s).len() == s.len(),
        ranked(s).to_multiset() == s.to_multiset(),
        scores_wf(ranked(s)),
        scores_non_increasing(ranked(s)),
        keys_unique(s, |r: ResultView| r.domain) ==> keys_unique(
            ranked(s),
            |r: ResultView| r.domain,
        ),
{
    let prec = |a: ResultView, b: ResultView| ranks_before(a, b);
    lemma_ranks_before_strict();
    lemma_sorted_by_elements(s, prec);
    lemma_sorted_by_ordered(s, prec);
    let out = ranked(s);
    assert forall|i: int| 0 <= i < out.len() implies (#[trigger] out[i]).score.wf() by {
        let j = choose|j: int| 0 <= j < s.len() && out[i] == s[j];
        assert(s[j].score.wf());
    }
    assert forall|i: int, j: int| 0 <= i < j < out.len() implies out[j].score.le_spec(
        out[i].score,
    ) by {
        assert(out[i].score.wf() && out[j].score.wf());
        assert(!prec(out[j], out[i]));
    }
    if keys_unique(s, |r: ResultView| r.domain) {
        lemma_sorted_by_keys(s, prec, |r: ResultView| r.domain);
    }
}

/// Ranks results by score, highest first; equal scores keep their order.
pub fn sort_by_score(results: Vec<SearchResult>) -> (r: Vec<SearchResult>)
    requires
        scores_wf(result_views(results@)),
    ensures
        result_views(r@) == ranked(result_views(results@)),
{
    let ghost prec = |a: ResultView, b: ResultView| ranks_before(a, b);
    let ghost input = result_views(results@);
    let mut out: Vec<SearchResult> = Vec::new();
    let mut rest = results;
    let mut i: usize = 0;
    let n = rest.len();
    proof {
        assert(input.subrange(0, 0) =~= Seq::<ResultView>::empty());
        assert(result_views(out@) =~= ranked(input.subrange(0, 0)));
    }
    while i < n
        invariant
            n == input.len(),
            rest@.len() == n,
            result_views(rest@) == input,
            i <= n,
            scores_wf(input),
            prec == (|a: ResultView, b: ResultView| ranks_before(a, b)),
            scores_wf(result_views(out@)),
            result_views(out@) == sorted_by(input.subrange(0, i as int), prec),
        decreases n - i,
    {
        let x = rest[i].clone();
        proof {
            assert(input[i as int] == rest@[i as int]@);
            assert(x@.score.wf());
        }
        let mut k: usize = 0;
        proof {
            assert forall|j: int| 0 <= j < out@.len() implies (#[trigger] out@[j]).score.wf() by {
                assert(result_views(out@)[j] == out@[j]@);
            }
        }
        while k < out.len() && !out[k].score.lt(&x.score)
            invariant
                k <= out@.len(),
                x@.score.wf(),
                scores_wf(result_views(out@)),
                forall|j: int| 0 <= j < out@.len() ==> (#[trigger] out@[j]).score.wf(),
                prec == (|a: ResultView, b: ResultView| ranks_before(a, b)),
                forall|j: int| 0 <= j < k ==> !prec(x@, result_views(out@)[j]),
            decreases out@.len() - k,
        {
            proof {
                assert(result_views(out@)[k as int] == out@[k as int]@);
            }
            k = k + 1;
        }
        let ghost before = result_views(out@);
        proof {
            if k < out@.len() {
                assert(before[k as int] == out@[k as int]@);
                assert(before[k as int].score.wf());
            }
            lemma_ins_pos(before, x@, prec, k as int);
            let sub = input.subrange(0, i + 1);
            assert(sub.drop_last() =~= input.subrange(0, i as int));
            assert(sub.last() == x@);
        }
        out.insert(k, x);
        proof {
            assert(result_views(out@) =~= before.insert(k as int, x@));
            assert forall|j: int| 0 <= j < result_views(out@).len() implies (#[trigger] result_views(
                out@,
            )[j]).score.wf() by {
                if j < k {
                    assert(result_views(out@)[j] == before[j]);
                } else if j > k {
                    assert(result_views(out@)[j] == before[j - 1]);
                }
            }
        }
        i = i + 1;
    }
    proof {
        assert(input.subrange(0, i as int) =~= input);
    }
    out
}

/// Query options: a result limit, a minimum score, and allow-lists of match
/// types and of domains.
#[derive(Debug)]
pub struct SearchOptions {
    pub limit: Option<usize>,
    pub min_score: Option<Score>,
    pub match_types: Option<Vec<MatchType>>,
    pub domains: Option<Vec<String>>,
}

/// Copies a list of match types.
fn copy_match_types(v: &Vec<MatchType>) -> (r: Vec<MatchType>)
    ensures
        r@ == v@,
{
    let mut out: Vec<MatchType> = Vec::new();
    let mut i: usize = 0;
    while i < v.len()
        invariant
            i <= v@.len(),
            out@ == v@.subrange(0, i as int),
        decreases v@.len() - i,
    {
        out.push(v[i]);
        proof {
            assert(out@ =~= v@.subrange(0, i + 1));
        }
        i = i + 1;
    }
    proof {
        assert(v@.subrange(0, i as int) =~= v@);
    }
    out
}

impl Clone for SearchOptions {
    fn clone(&self) -> (r: Self)
        ensures
            r.limit == self.limit,
            r.min_score == self.min_score,
            r.match_types.is_some() == self.match_types.is_some(),
            r.match_types matches Some(m) ==> m@ == self.match_types.unwrap()@,
            r.domains.is_some() == self.domains.is_some(),
            r.domains matches Some(d) ==> d@ == self.domains.unwrap()@,
    {
        SearchOptions {
            limit: self.limit,
            min_score: self.min_score,
            match_types: match &self.match_types {
                Some(m) => Some(copy_match_types(m)),
                None => None,
            },
            domains: match &self.domains {
                Some(d) => Some(crate::meta::copy_strings(d)),
                None => None,
            },
        }
    }
}

impl Default for SearchOptions {
    fn default() -> (r: Self)
        ensures
            r.limit is None,
            r.min_score is None,
            r.match_types is None,
            r.domains is None,
    {
        SearchOptions { limit: None, min_score: None, match_types: None, domains: None }
    }
}

impl SearchOptions {
    pub open spec fn wf(self) -> bool {
        match self.min_score {
            Some(s) => s.wf(),
            None => true,
        }
    }

    /// Options with only a limit.
    pub fn with_limit(limit: usize) -> (r: Self)
        ensures
            r.limit == Some(limit),
            r.min_score is None,
            r.match_types is None,
            r.domains is None,
    {
        SearchOptions { limit: Some(limit), min_score: None, match_types: None, domains: None }
    }

    /// Sets the minimum score.
    pub fn min_score(self, score: Score) -> (r: Self)
        ensures
            r == (SearchOptions { min_score: Some(score), ..self }),
    {
        let mut r = self;
        r.min_score = Some(score);
        r
    }

    /// Restricts the search to the given domains.
    pub fn domains(self, domains: Vec<String>) -> (r: Self)
        ensures
            r == (SearchOptions { domains: Some(domains), ..self }),
    {
        let mut r = self;
        r.domains = Some(domains);
        r
    }

    /// The domain passes the domain allow-list.
    pub open spec fn allows_domain(self, d: Seq<char>) -> bool {
        match self.domains {
            Some(ds) => crate::meta::strs(ds@).contains(d),
            None => true,
        }
    }

    /// The match type passes the match-type allow-list.
    pub open spec fn allows_type(self, t: MatchType) -> bool {
        match self.match_types {
            Some(ts) => ts@.contains(t),
            None => true,
        }
    }

    /// The score reaches the minimum score.
    pub open spec fn allows_score(self, s: Score) -> bool {
        match self.min_score {
            Some(m) => !s.lt_spec(m),
            None => true,
        }
    }

    pub fn domain_allowed(&self, d: &String) -> (r: bool)
        ensures
            r == self.allows_domain(d@),
    {
        match &self.domains {
            None => true,
            Some(ds) => {
                let mut i: usize = 0;
                while i < ds.len()
                    invariant
                        i <= ds@.len(),
                        self.domains == Some(*ds),
                        forall|j: int| 0 <= j < i ==> ds@[j]@ != d@,
                    decreases ds@.len() - i,
                {
                    if ds[i] == *d {
                        proof {
                            assert(crate::meta::strs(ds@)[i as int] == d@);
                            assert(crate::meta::strs(ds@).contains(d@));
                        }
                        return true;
                    }
                    i = i + 1;
                }
                proof {
                    if crate::meta::strs(ds@).contains(d@) {
                        let j = choose|j: int|
                            0 <= j < ds@.len() && crate::meta::strs(ds@)[j] == d@;
                        assert(ds@[j]@ == d@);
                    }
                }
                false
            },
        }
    }

    pub fn type_allowed(&self, t: MatchType) -> (r: bool)
        ensures
            r == self.allows_type(t),
    {
        match &self.match_types {
            None => true,
            Some(ts) => {
                let mut i: usize = 0;
                while i < ts.len()
                    invariant
                        i <= ts@.len(),
                        self.match_types == Some(*ts),
                        forall|j: int| 0 <= j < i ==> ts@[j] != t,
                    decreases ts@.len() - i,
                {
                    if ts[i] == t {
                        proof {
                            assert(ts@[i as int] == t);
                            assert(ts@.contains(t));
                        }
                        return true;
                    }
                    i = i + 1;
                }
                false
            },
        }
    }

    pub fn score_allowed(&self, s: &Score) -> (r: bool)
        requires
            self.wf(),
            s.wf(),
        ensures
            r == self.allows_score(*s),
    {
        match &self.min_score {
            None => true,
            Some(m) => !s.lt(m),
        }
    }
}

/// The first `limit` elements, or all of them.
pub open spec fn limited<T>(s: Seq<T>, limit: Option<usize>) -> Seq<T> {
    match limit {
        Some(l) => if l < s.len() {
            s.subrange(0, l as int)
        } else {
            s
        },
        None => s,
    }
}

/// More matches than the limit.
pub open spec fn exceeds(total: nat, limit: Option<usize>) -> bool {
    match limit {
        Some(l) => total > l,
        None => false,
    }
}

/// Ranked, possibly truncated results.
#[derive(Debug)]
pub struct SearchResults {
    /// The results, best first.
    pub results: Vec<SearchResult>,
    /// The query as given.
    pub query: String,
    /// The number of matches before truncation.
    pub total_matches: usize,
    /// Whether matches were cut off by the limit.
    pub truncated: bool,
}

/// Ranking then truncation keeps the results ordered by score and the
/// counts consistent.
pub proof fn lemma_limited_ranked(s: Seq<ResultView>, limit: Option<usize>)
    requires
        scores_wf(s),
    ensures
        scores_wf(limited(ranked(s), limit)),
        scores_non_increasing(limited(ranked(s), limit)),
        limited(ranked(s), limit).len() <= s.len(),
        exceeds(s.len(), limit) <==> limited(ranked(s), limit).len() < s.len(),
{
    lemma_ranked(s);
    let l = limited(ranked(s), limit);
    assert forall|i: int| 0 <= i < l.len() implies (#[trigger] l[i]).score.wf() by {
        assert(l[i] == ranked(s)[i]);
    }
}

impl SearchResults {
    /// Ranks `results` by score and keeps the first `limit` of them.
    pub fn new(query: String, results: Vec<SearchResult>, limit: Option<usize>) -> (r: Self)
        requires
            scores_wf(result_views(results@)),
        ensures
            r.query@ == query@,
            r.total_matches == results@.len(),
            r.truncated == exceeds(results@.len(), limit),
            result_views(r.results@) == limited(ranked(result_views(results@)), limit),
            scores_non_increasing(result_views(r.results@)),
            scores_wf(result_views(r.results@)),
            r.total_matches >= r.results@.len(),
    {
        let total_matches = results.len();
        let mut sorted = sort_by_score(results);
        proof {
            lemma_ranked(result_views(results@));
        }
        let truncated = match limit {
            Some(l) => total_matches > l,
            None => false,
        };
        let ghost all = result_views(sorted@);
        match limit {
            Some(l) => {
                sorted.truncate(l);
            },
            None => {},
        }
        proof {
            assert(result_views(sorted@) =~= limited(all, limit));
            lemma_limited_ranked(result_views(results@), limit);
        }
        SearchResults { results: sorted, query, total_matches, truncated }
    }

    pub fn is_empty(&self) -> (r: bool)
        ensures
            r == (self.results@.len() == 0),
    {
        self.results.len() == 0
    }

    pub fn len(&self) -> (r: usize)
        ensures
            r == self.results@.len(),
    {
        self.results.len()
    }

    /// The best result.
    pub fn top(&self) -> (r: Option<&SearchResult>)
        ensures
            self.results@.len() == 0 ==> r is None,
            self.results@.len() > 0 ==> r == Some(&self.results@[0]),
    {
        if self.results.len() == 0 {
            None
        } else {
            Some(&self.results[0])
        }
    }
}

/// The sub-skill entries of a manifest view.
pub open spec fn subs_of(m: SkillView) -> Seq<SubSkillView> {
    match m.sub_skills {
        Some(s) => s,
        None => seq![],
    }
}

/// Some tag, case-folded, contains the query.
pub open spec fn tag_hit(tags: Seq<Seq<char>>, q: Seq<char>) -> bool {
    exists|i: int| 0 <= i < tags.len() && contains_seq(lower_of(tags[i]), q)
}

/// Some trigger of some sub-skill, case-folded, contains the query.
pub open spec fn trigger_hit(subs: Seq<SubSkillView>, q: Seq<char>) -> bool {
    exists|i: int| 0 <= i < subs.len() && tag_hit(subs[i].triggers, q)
}

/// Number of terms that occur in `text`.
pub open spec fn terms_in(terms: Seq<Seq<char>>, text: Seq<char>) -> nat
    decreases terms.len(),
{
    if terms.len() == 0 {
        0
    } else {
        terms_in(terms.drop_last(), text) + if contains_seq(text, terms.last()) {
            1nat
        } else {
            0nat
        }
    }
}

proof fn lemma_terms_in_bound(terms: Seq<Seq<char>>, text: Seq<char>)
    ensures
        terms_in(terms, text) <= terms.len(),
    decreases terms.len(),
{
    if terms.len() > 0 {
        lemma_terms_in_bound(terms.drop_last(), text);
    }
}

pub open spec fn hit(domain: Seq<char>, score: Score, t: MatchType, snippet: Option<Seq<char>>) -> ResultView {
    ResultView { domain, sub_skill: None, score, match_type: t, snippet, file: None }
}

/// How a manifest matches the case-folded query `q` with terms `terms`: the
/// first of exact name, name containing the query, a tag, a trigger, and the
/// description terms that applies.
pub open spec fn skill_match(m: SkillView, q: Seq<char>, terms: Seq<Seq<char>>) -> Option<
    ResultView,
> {
    let name = lower_of(m.name);
    let desc = lower_of(m.description);
    if name == q {
        Some(hit(m.name, weighted_spec(1, 1, MatchType::Name), MatchType::Name, None))
    } else if contains_seq(name, q) {
        Some(hit(m.name, weighted_spec(4, 5, MatchType::Name), MatchType::Name, None))
    } else if tag_hit(m.tags, q) {
        Some(hit(m.name, weighted_spec(9, 10, MatchType::Tags), MatchType::Tags, None))
    } else if trigger_hit(subs_of(m), q) {
        Some(hit(m.name, weighted_spec(9, 10, MatchType::Triggers), MatchType::Triggers, None))
    } else if terms_in(terms, desc) > 0 {
        Some(
            hit(
                m.name,
                weighted_spec(terms_in(terms, desc) as int, terms.len() as int, MatchType::Description),
                MatchType::Description,
                Some(m.description),
            ),
        )
    } else {
        None
    }
}

fn any_contains(items: &Vec<String>, q: &Vec<char>) -> (r: bool)
    ensures
        r == tag_hit(crate::meta::strs(items@), q@),
{
    let mut i: usize = 0;
    while i < items.len()
        invariant
            i <= items@.len(),
            forall|j: int| 0 <= j < i ==> !contains_seq(lower_of(items@[j]@), q@),
        decreases items@.len() - i,
    {
        let l = lower_chars(items[i].as_str());
        if contains(&l, q) {
            proof {
                assert(crate::meta::strs(items@)[i as int] == items@[i as int]@);
            }
            return true;
        }
        i = i + 1;
    }
    proof {
        assert forall|j: int| 0 <= j < items@.len() implies !contains_seq(
            lower_of(crate::meta::strs(items@)[j]),
            q@,
        ) by {
            assert(crate::meta::strs(items@)[j] == items@[j]@);
        }
    }
    false
}

fn count_terms_in(terms: &Vec<Vec<char>>, text: &Vec<char>) -> (r: usize)
    ensures
        r == terms_in(seqs_of(terms@), text@),
{
    let ghost tv = seqs_of(terms@);
    let mut n: usize = 0;
    let mut i: usize = 0;
    proof {
        assert(tv.subrange(0, 0) =~= Seq::<Seq<char>>::empty());
    }
    while i < terms.len()
        invariant
            i <= terms@.len(),
            tv == seqs_of(terms@),
            n == terms_in(tv.subrange(0, i as int), text@),
        decreases terms@.len() - i,
    {
        proof {
            assert(tv.subrange(0, i + 1).drop_last() =~= tv.subrange(0, i as int));
            assert(tv[i as int] == terms@[i as int]@);
            lemma_terms_in_bound(tv.subrange(0, i as int), text@);
        }
        if contains(text, &terms[i]) {
            n = n + 1;
        }
        i = i + 1;
    }
    proof {
        assert(tv.subrange(0, i as int) =~= tv);
    }
    n
}

/// Matches one manifest against the case-folded query and its terms.
fn match_skill(skill: &SkillMeta, query: &Vec<char>, terms: &Vec<Vec<char>>) -> (r: Option<
    SearchResult,
>)
    ensures
        match r {
            Some(x) => skill_match(skill@, query@, seqs_of(terms@)) == Some(x@),
            None => skill_match(skill@, query@, seqs_of(terms@)) is None,
        },
        r matches Some(x) ==> x.score.wf(),
{
    let name = lower_chars(skill.name.as_str());
    let desc = lower_chars(skill.description.as_str());
    if crate::text::same_chars(&name, query) {
        let s = weighted(1, 1, MatchType::Name);
        return Some(SearchResult::new(skill.name.clone(), s, MatchType::Name));
    }
    if contains(&name, query) {
        let s = weighted(4, 5, MatchType::Name);
        return Some(SearchResult::new(skill.name.clone(), s, MatchType::Name));
    }
    if any_contains(&skill.tags, query) {
        let s = weighted(9, 10, MatchType::Tags);
        return Some(SearchResult::new(skill.name.clone(), s, MatchType::Tags));
    }
    match &skill.sub_skills {
        Some(subs) => {
            let mut i: usize = 0;
            while i < subs.len()
                invariant
                    i <= subs@.len(),
                    skill.sub_skills == Some(*subs),
                    lower_of(skill@.name) != query@,
                    !contains_seq(lower_of(skill@.name), query@),
                    !tag_hit(skill@.tags, query@),
                    forall|j: int|
                        0 <= j < i ==> !tag_hit(crate::meta::strs(subs@[j].triggers@), query@),
                decreases subs@.len() - i,
            {
                if any_contains(&subs[i].triggers, query) {
                    proof {
                        assert(subs_of(skill@)[i as int] == subs@[i as int]@);
                        assert(trigger_hit(subs_of(skill@), query@));
                    }
                    let s = weighted(9, 10, MatchType::Triggers);
                    return Some(SearchResult::new(skill.name.clone(), s, MatchType::Triggers));
                }
                i = i + 1;
            }
            proof {
                assert forall|j: int| 0 <= j < subs_of(skill@).len() implies !tag_hit(
                    subs_of(skill@)[j].triggers,
                    query@,
                ) by {
                    assert(subs_of(skill@)[j] == subs@[j]@);
                }
            }
        },
        None => {},
    }
    let k = count_terms_in(terms, &desc);
    if k > 0 {
        proof {
            lemma_terms_in_bound(seqs_of(terms@), desc@);
        }
        let s = weighted(k as u128, terms.len() as u128, MatchType::Description);
        let r = SearchResult::new(skill.name.clone(), s, MatchType::Description).with_snippet(
            skill.description.clone(),
        );
        return Some(r);
    }
    None
}

/// The hits of the manifests, in order, that pass the options' filters.
pub open spec fn skill_hits(
    skills: Seq<SkillView>,
    q: Seq<char>,
    terms: Seq<Seq<char>>,
    opts: SearchOptions,
) -> Seq<ResultView>
    decreases skills.len(),
{
    if skills.len() == 0 {
        seq![]
    } else {
        let prev = skill_hits(skills.drop_last(), q, terms, opts);
        let m = skills.last();
        match skill_match(m, q, terms) {
            Some(r) => if opts.allows_domain(m.name) && opts.allows_type(r.match_type)
                && opts.allows_score(r.score) {
                prev.push(r)
            } else {
                prev
            },
            None => prev,
        }
    }
}

proof fn lemma_skill_hits(
    skills: Seq<SkillView>,
    q: Seq<char>,
    terms: Seq<Seq<char>>,
    opts: SearchOptions,
)
    ensures
        forall|i: int|
            #![trigger skill_hits(skills, q, terms, opts)[i]]
            0 <= i < skill_hits(skills, q, terms, opts).len() ==> exists|j: int|
                0 <= j < skills.len() && skill_hits(skills, q, terms, opts)[i].domain
                    == #[trigger] skills[j].name,
        names_unique(skills) ==> keys_unique(
            skill_hits(skills, q, terms, opts),
            |r: ResultView| r.domain,
        ),
    decreases skills.len(),
{
    if skills.len() > 0 {
        let d = skills.drop_last();
        lemma_skill_hits(d, q, terms, opts);
        let prev = skill_hits(d, q, terms, opts);
        let out = skill_hits(skills, q, terms, opts);
        assert forall|i: int| #![trigger out[i]] 0 <= i < out.len() implies exists|j: int|
            0 <= j < skills.len() && out[i].domain == #[trigger] skills[j].name by {
            if i < prev.len() {
                let j = choose|j: int| 0 <= j < d.len() && prev[i].domain == #[trigger] d[j].name;
                assert(out[i] == prev[i]);
                assert(skills[j] == d[j]);
            } else {
                assert(out[i].domain == skills[skills.len() - 1].name);
            }
        }
        if names_unique(skills) {
            assert(names_unique(d)) by {
                assert forall|i: int, j: int|
                    0 <= i < d.len() && 0 <= j < d.len() && i != j implies d[i].name != d[j].name by {
                    assert(d[i] == skills[i] && d[j] == skills[j]);
                }
            }
            assert forall|i: int, j: int|
                0 <= i < out.len() && 0 <= j < out.len() && i != j implies out[i].domain
                != out[j].domain by {
                if i < prev.len() && j < prev.len() {
                    assert(out[i] == prev[i] && out[j] == prev[j]);
                } else if i < prev.len() {
                    let k = choose|k: int| 0 <= k < d.len() && prev[i].domain == #[trigger] d[k].name;
                    assert(out[i] == prev[i]);
                    assert(skills[k] == d[k]);
                } else if j < prev.len() {
                    let k = choose|k: int| 0 <= k < d.len() && prev[j].domain == #[trigger] d[k].name;
                    assert(out[j] == prev[j]);
                    assert(skills[k] == d[k]);
                }
            }
        }
    }
}

/// The case-folded query and its whitespace-separated terms.
pub open spec fn query_terms(query: Seq<char>) -> Seq<Seq<char>> {
    split_ws(lower_of(query))
}

/// Searches the manifests of `index` by name, tags, triggers and description,
/// then filters, ranks and truncates the hits.
pub fn search_skills(index: &SkillIndex, query: &str, options: &SearchOptions) -> (r:
    SearchResults)
    requires
        options.wf(),
    ensures
        ({
            let hits = skill_hits(index.skill_views(), lower_of(query@), query_terms(query@), *options);
            &&& r.total_matches == hits.len()
            &&& r.truncated == exceeds(hits.len(), options.limit)
            &&& result_views(r.results@) == limited(ranked(hits), options.limit)
        }),
        r.query@ == query@,
        scores_non_increasing(result_views(r.results@)),
        scores_wf(result_views(r.results@)),
        r.total_matches >= r.results@.len(),
        names_unique(index.skill_views()) ==> keys_unique(
            result_views(r.results@),
            |x: ResultView| x.domain,
        ),
{
    let q = lower_chars(query);
    let terms = split_whitespace(&q);
    let ghost tv = seqs_of(terms@);
    let ghost sv = index.skill_views();
    let mut results: Vec<SearchResult> = Vec::new();
    let mut i: usize = 0;
    proof {
        assert(sv.subrange(0, 0) =~= Seq::<SkillView>::empty());
        assert(result_views(results@) =~= Seq::<ResultView>::empty());
    }
    while i < index.skills.len()
        invariant
            i <= index.skills@.len(),
            sv == index.skill_views(),
            tv == seqs_of(terms@),
            options.wf(),
            q@ == lower_of(query@),
            tv == split_ws(q@),
            result_views(results@) == skill_hits(sv.subrange(0, i as int), q@, tv, *options),
            scores_wf(result_views(results@)),
        decreases index.skills@.len() - i,
    {
        let skill = &index.skills[i];
        proof {
            assert(sv[i as int] == skill@);
            assert(sv.subrange(0, i + 1).drop_last() =~= sv.subrange(0, i as int));
            assert(sv.subrange(0, i + 1).last() == skill@);
        }
        let ghost before = result_views(results@);
        match match_skill(skill, &q, &terms) {
            Some(res) => {
                if options.domain_allowed(&skill.name) && options.type_allowed(res.match_type)
                    && options.score_allowed(&res.score) {
                    results.push(res);
                    proof {
                        assert(result_views(results@) =~= before.push(res@));
                    }
                }
            },
            None => {},
        }
        i = i + 1;
    }
    proof {
        assert(sv.subrange(0, i as int) =~= sv);
        lemma_skill_hits(sv, q@, tv, *options);
    }
    let ghost hits = result_views(results@);
    let r = SearchResults::new(crate::text::string_of(&chars_of(query)), results, options.limit);
    proof {
        lemma_ranked(hits);
        if names_unique(sv) {
            let l = limited(ranked(hits), options.limit);
            assert forall|a: int, b: int|
                0 <= a < l.len() && 0 <= b < l.len() && a != b implies l[a].domain != l[b].domain by {
                assert(l[a] == ranked(hits)[a] && l[b] == ranked(hits)[b]);
            }
        }
    }
    r
}

/// Context, in characters, on each side of a content snippet.
pub const SNIPPET_CONTEXT: usize = 50;

/// Occurrences of every case-folded term in `content`, summed.
pub open spec fn total_occurrences(terms: Seq<Seq<char>>, content: Seq<char>) -> nat
    decreases terms.len(),
{
    if terms.len() == 0 {
        0
    } else {
        total_occurrences(terms.drop_last(), content) + occurrences(
            content,
            lower_of(terms.last()),
        )
    }
}

/// `total / max(words, 1)`, times the content weight of 1.
pub open spec fn content_score(total: nat, words: nat) -> Score {
    Score {
        num: total as u128,
        den: if words == 0 {
            1u128
        } else {
            words as u128
        },
    }
}

/// The hit of one content entry, if its terms occur in it.
pub open spec fn content_match(e: ContentEntryView, q: Seq<char>, terms: Seq<Seq<char>>) -> Option<
    ResultView,
> {
    let total = total_occurrences(terms, e.content);
    if total == 0 {
        None
    } else {
        Some(
            ResultView {
                domain: e.domain,
                sub_skill: e.sub_skill,
                score: content_score(total, e.word_count),
                match_type: MatchType::Content,
                snippet: snippet_of(e.content, q, SNIPPET_CONTEXT as int),
                file: Some(e.file),
            },
        )
    }
}

/// The hits of the entries, in order, that pass the options' filters.
pub open spec fn content_hits(
    entries: Seq<ContentEntryView>,
    q: Seq<char>,
    terms: Seq<Seq<char>>,
    opts: SearchOptions,
) -> Seq<ResultView>
    decreases entries.len(),
{
    if entries.len() == 0 {
        seq![]
    } else {
        let prev = content_hits(entries.drop_last(), q, terms, opts);
        let e = entries.last();
        if !opts.allows_domain(e.domain) {
            prev
        } else {
            match content_match(e, q, terms) {
                Some(r) => if opts.allows_score(r.score) {
                    prev.push(r)
                } else {
                    prev
                },
                None => prev,
            }
        }
    }
}

proof fn lemma_total_bound(terms: Seq<Seq<char>>, content: Seq<char>)
    ensures
        total_occurrences(terms, content) <= terms.len() * (content.len() + 1),
    decreases terms.len(),
{
    if terms.len() > 0 {
        lemma_total_bound(terms.drop_last(), content);
        lemma_occurrences_le(content, lower_of(terms.last()));
        assert((terms.len() - 1) * (content.len() + 1) + (content.len() + 1) == terms.len() * (
        content.len() + 1)) by (nonlinear_arith);
    }
}

/// Sums the occurrences of each case-folded term in the content.
fn count_terms(terms: &Vec<Vec<char>>, content: &Vec<char>) -> (r: u128)
    ensures
        r == total_occurrences(seqs_of(terms@), content@),
{
    let ghost tv = seqs_of(terms@);
    let mut total: u128 = 0;
    let mut i: usize = 0;
    let clen = content.len();
    let tlen = terms.len();
    proof {
        assert(tv.subrange(0, 0) =~= Seq::<Seq<char>>::empty());
    }
    while i < terms.len()
        invariant
            i <= terms@.len(),
            tv == seqs_of(terms@),
            clen == content@.len(),
            tlen == terms@.len(),
            total == total_occurrences(tv.subrange(0, i as int), content@),
        decreases terms@.len() - i,
    {
        let t = lower_chars(string_of(&terms[i]).as_str());
        let c = count_occurrences(content, &t);
        proof {
            let sub = tv.subrange(0, i + 1);
            assert(sub.drop_last() =~= tv.subrange(0, i as int));
            assert(tv[i as int] == terms@[i as int]@);
            lemma_total_bound(sub, content@);
            let m = (i + 1) as int;
            let l = (content@.len() + 1) as int;
            assert(m * l <= (usize::MAX as int) * (usize::MAX as int + 1)) by (nonlinear_arith)
                requires
                    m <= usize::MAX,
                    l <= usize::MAX + 1,
                    m >= 0,
                    l >= 0,
            ;
            assert((usize::MAX as int) * (usize::MAX as int + 1) <= u128::MAX) by (nonlinear_arith)
                requires
                    usize::MAX <= u64::MAX,
            ;
        }
        total = total + c;
        i = i + 1;
    }
    proof {
        assert(tv.subrange(0, i as int) =~= tv);
    }
    total
}

/// Searches the content entries for the query's terms, then filters, ranks
/// and truncates the hits.
pub fn search_content(index: &ContentIndex, query: &str, options: &SearchOptions) -> (r:
    SearchResults)
    requires
        options.wf(),
    ensures
        ({
            let hits = content_hits(
                index.entry_views(),
                lower_of(query@),
                query_terms(query@),
                *options,
            );
            &&& r.total_matches == hits.len()
            &&& r.truncated == exceeds(hits.len(), options.limit)
            &&& result_views(r.results@) == limited(ranked(hits), options.limit)
        }),
        r.query@ == query@,
        scores_non_increasing(result_views(r.results@)),
        scores_wf(result_views(r.results@)),
        r.total_matches >= r.results@.len(),
{
    let q = lower_chars(query);
    let q_text = string_of(&q);
    let terms = split_whitespace(&q);
    let ghost tv = seqs_of(terms@);
    let ghost ev = index.entry_views();
    let mut results: Vec<SearchResult> = Vec::new();
    let mut i: usize = 0;
    proof {
        assert(ev.subrange(0, 0) =~= Seq::<ContentEntryView>::empty());
        assert(result_views(results@) =~= Seq::<ResultView>::empty());
    }
    while i < index.entries.len()
        invariant
            i <= index.entries@.len(),
            ev == index.entry_views(),
            tv == seqs_of(terms@),
            options.wf(),
            q@ == lower_of(query@),
            q_text@ == q@,
            tv == split_ws(q@),
            result_views(results@) == content_hits(ev.subrange(0, i as int), q@, tv, *options),
            scores_wf(result_views(results@)),
        decreases index.entries@.len() - i,
    {
        let entry = &index.entries[i];
        proof {
            assert(ev[i as int] == entry@);
            assert(ev.subrange(0, i + 1).drop_last() =~= ev.subrange(0, i as int));
            assert(ev.subrange(0, i + 1).last() == entry@);
        }
        let ghost before = result_views(results@);
        if options.domain_allowed(&entry.domain) {
            let content = chars_of(entry.content.as_str());
            let total = count_terms(&terms, &content);
            if total > 0 {
                let den: u128 = if entry.word_count == 0 {
                    1
                } else {
                    entry.word_count as u128
                };
                let score = Score::new(total, den);
                if options.score_allowed(&score) {
                    let snippet = extract_snippet(entry.content.as_str(), q_text.as_str(), SNIPPET_CONTEXT);
                    let res = SearchResult {
                        domain: entry.domain.clone(),
                        sub_skill: crate::index::copy_opt(&entry.sub_skill),
                        score,
                        match_type: MatchType::Content,
                        snippet,
                        file: Some(entry.file.clone()),
                    };
                    results.push(res);
                    proof {
                        assert(result_views(results@) =~= before.push(res@));
                    }
                }
            }
        }
        i = i + 1;
    }
    proof {
        assert(ev.subrange(0, i as int) =~= ev);
    }
    SearchResults::new(string_of(&chars_of(query)), results, options.limit)
}

/// Results of `b`, in order, added to `a` unless a result for the same domain
/// and sub-skill is already there.
pub open spec fn merged(a: Seq<ResultView>, b: Seq<ResultView>) -> Seq<ResultView>
    decreases b.len(),
{
    if b.len() == 0 {
        a
    } else {
        let m = merged(a, b.drop_last());
        let x = b.last();
        if exists|i: int| 0 <= i < m.len() && m[i].domain == x.domain && m[i].sub_skill == x.sub_skill {
            m
        } else {
            m.push(x)
        }
    }
}

proof fn lemma_merged_wf(a: Seq<ResultView>, b: Seq<ResultView>)
    requires
        scores_wf(a),
        scores_wf(b),
    ensures
        scores_wf(merged(a, b)),
    decreases b.len(),
{
    if b.len() > 0 {
        lemma_merged_wf(a, b.drop_last());
        assert(b.drop_last().len() < b.len());
        let m = merged(a, b.drop_last());
        assert(b.last().score.wf()) by {
            assert(b[b.len() - 1].score.wf());
        }
        assert forall|i: int| 0 <= i < merged(a, b).len() implies (#[trigger] merged(a, b)[i]).score.wf() by {
            if i < m.len() {
                assert(m[i].score.wf());
            }
        }
    }
}

fn same_target(x: &SearchResult, y: &SearchResult) -> (r: bool)
    ensures
        r == (x@.domain == y@.domain && x@.sub_skill == y@.sub_skill),
{
    if x.domain != y.domain {
        return false;
    }
    match (&x.sub_skill, &y.sub_skill) {
        (Some(a), Some(b)) => *a == *b,
        (None, None) => true,
        _ => false,
    }
}

/// Metadata search and content search together: the ranked, truncated
/// metadata hits, then each ranked, truncated content hit for a domain and
/// sub-skill not yet present, ranked and truncated again.
pub fn search_all(
    skills: &SkillIndex,
    content: &ContentIndex,
    query: &str,
    options: &SearchOptions,
) -> (r: SearchResults)
    requires
        options.wf(),
    ensures
        ({
            let a = limited(
                ranked(
                    skill_hits(
                        skills.skill_views(),
                        lower_of(query@),
                        query_terms(query@),
                        *options,
                    ),
                ),
                options.limit,
            );
            let b = limited(
                ranked(
                    content_hits(
                        content.entry_views(),
                        lower_of(query@),
                        query_terms(query@),
                        *options,
                    ),
                ),
                options.limit,
            );
            let all = merged(a, b);
            &&& r.total_matches == all.len()
            &&& r.truncated == exceeds(all.len(), options.limit)
            &&& result_views(r.results@) == limited(ranked(all), options.limit)
        }),
        scores_non_increasing(result_views(r.results@)),
        r.total_matches >= r.results@.len(),
{
    let skill_results = search_skills(skills, query, options);
    let content_results = search_content(content, query, options);
    let mut all = skill_results.results;
    let extra = content_results.results;
    let ghost a = result_views(all@);
    let ghost b = result_views(extra@);
    let mut i: usize = 0;
    proof {
        assert(b.subrange(0, 0) =~= Seq::<ResultView>::empty());
    }
    while i < extra.len()
        invariant
            i <= extra@.len(),
            b == result_views(extra@),
            result_views(all@) == merged(a, b.subrange(0, i as int)),
        decreases extra@.len() - i,
    {
        let x = &extra[i];
        let ghost m = result_views(all@);
        let mut found = false;
        let mut k: usize = 0;
        while k < all.len()
            invariant
                k <= all@.len(),
                m == result_views(all@),
                found == exists|j: int|
                    0 <= j < k && m[j].domain == x@.domain && m[j].sub_skill == x@.sub_skill,
            decreases all@.len() - k,
        {
            proof {
                assert(m[k as int] == all@[k as int]@);
            }
            if same_target(&all[k], x) {
                found = true;
            }
            k = k + 1;
        }
        proof {
            assert(b.subrange(0, i + 1).drop_last() =~= b.subrange(0, i as int));
            assert(b[i as int] == x@);
        }
        if !found {
            all.push(x.clone());
            proof {
                assert(result_views(all@) =~= m.push(x@));
            }
        }
        i = i + 1;
    }
    proof {
        assert(b.subrange(0, i as int) =~= b);
        lemma_merged_wf(a, b);
    }
    SearchResults::new(string_of(&chars_of(query)), all, options.limit)
}

} // verus!
