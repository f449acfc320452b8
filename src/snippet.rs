//! Word-bounded excerpts around the first match of a query.

use vstd::prelude::*;
use vstd::string::StringExecFns;
use crate::text::{
    chars_of, find_seq, first_occurrence, contains_seq, is_ascii_whitespace, is_ascii_ws, lines,
    lines_of, lower_chars, lower_of, seqs_of, slice, string_of, trim, trimmed,
};

verus! {

/// Moves `p` back to the start of the word it stands in.
pub open spec fn word_start(s: Seq<char>, p: int) -> int
    decreases p,
{
    if p <= 0 {
        0
    } else if is_ascii_ws(s[p - 1]) {
        p
    } else {
        word_start(s, p - 1)
    }
}

/// Moves `p` forward to the end of the word it stands in.
pub open spec fn word_end(s: Seq<char>, p: int) -> int
    decreases s.len() - p,
{
    if p >= s.len() {
        s.len() as int
    } else if is_ascii_ws(s[p]) {
        p
    } else {
        word_end(s, p + 1)
    }
}

/// The non-blank lines, each trimmed, joined by single spaces.
pub open spec fn collapse(ls: Seq<Seq<char>>) -> Seq<char>
    decreases ls.len(),
{
    if ls.len() == 0 {
        seq![]
    } else {
        let prev = collapse(ls.drop_last());
        let l = trim(ls.last());
        if l.len() == 0 {
            prev
        } else if prev.len() == 0 {
            l
        } else {
            prev + " "@ + l
        }
    }
}

/// The text the window is cut from: the content itself where case folding
/// keeps its length, so that positions agree, else the folded content.
pub open spec fn snippet_base(content: Seq<char>) -> Seq<char> {
    if lower_of(content).len() == content.len() {
        content
    } else {
        lower_of(content)
    }
}

/// The excerpt for a match at `pos` of a pattern of `n` characters.
pub open spec fn excerpt(base: Seq<char>, pos: int, n: int, context: int) -> Seq<char> {
    let start0 = if pos >= context {
        pos - context
    } else {
        0
    };
    let end0 = if pos + n + context <= base.len() {
        pos + n + context
    } else {
        base.len() as int
    };
    let start = word_start(base, start0);
    let end = word_end(base, end0);
    let pre: Seq<char> = if start > 0 {
        "..."@
    } else {
        seq![]
    };
    let post: Seq<char> = if end < base.len() {
        "..."@
    } else {
        seq![]
    };
    collapse(lines_of(pre + trim(base.subrange(start, end)) + post))
}

proof fn lemma_word_start(s: Seq<char>, p: int)
    requires
        0 <= p <= s.len(),
    ensures
        0 <= word_start(s, p) <= p,
    decreases p,
{
    if p > 0 && !is_ascii_ws(s[p - 1]) {
        lemma_word_start(s, p - 1);
    }
}

proof fn lemma_word_end(s: Seq<char>, p: int)
    requires
        0 <= p <= s.len(),
    ensures
        p <= word_end(s, p) <= s.len(),
    decreases s.len() - p,
{
    if p < s.len() && !is_ascii_ws(s[p]) {
        lemma_word_end(s, p + 1);
    }
}

fn find_word_start(s: &Vec<char>, pos: usize) -> (r: usize)
    requires
        pos <= s@.len(),
    ensures
        r == word_start(s@, pos as int),
{
    if pos == 0 {
        return 0;
    }
    let mut start = pos;
    while start > 0 && !is_ascii_whitespace(s[start - 1])
        invariant
            start <= pos <= s@.len(),
            word_start(s@, start as int) == word_start(s@, pos as int),
        decreases start,
    {
        start = start - 1;
    }
    start
}

fn find_word_end(s: &Vec<char>, pos: usize) -> (r: usize)
    requires
        pos <= s@.len(),
    ensures
        r == word_end(s@, pos as int),
{
    if pos >= s.len() {
        return s.len();
    }
    let mut end = pos;
    while end < s.len() && !is_ascii_whitespace(s[end])
        invariant
            pos <= end <= s@.len(),
            word_end(s@, end as int) == word_end(s@, pos as int),
        decreases s@.len() - end,
    {
        end = end + 1;
    }
    end
}

/// Joins the non-blank trimmed lines of `s` with single spaces.
fn collapse_lines(s: &Vec<char>) -> (r: Vec<char>)
    ensures
        r@ == collapse(lines_of(s@)),
{
    let ls = lines(s);
    let ghost lv = seqs_of(ls@);
    let mut out: Vec<char> = Vec::new();
    let mut i: usize = 0;
    proof {
        assert(lv.subrange(0, 0) =~= Seq::<Seq<char>>::empty());
    }
    while i < ls.len()
        invariant
            i <= ls@.len(),
            lv == seqs_of(ls@),
            out@ == collapse(lv.subrange(0, i as int)),
        decreases ls@.len() - i,
    {
        let l = trimmed(&ls[i]);
        proof {
            assert(lv[i as int] == ls@[i as int]@);
            assert(lv.subrange(0, i + 1).drop_last() =~= lv.subrange(0, i as int));
        }
        if l.len() > 0 {
            let ghost before = out@;
            if out.len() > 0 {
                out.push(' ');
            }
            let mut k: usize = 0;
            let ghost mid = out@;
            while k < l.len()
                invariant
                    k <= l@.len(),
                    out@ == mid + l@.subrange(0, k as int),
                decreases l@.len() - k,
            {
                out.push(l[k]);
                proof {
                    assert(out@ =~= mid + l@.subrange(0, k + 1));
                }
                k = k + 1;
            }
            proof {
                assert(l@.subrange(0, k as int) =~= l@);
                reveal_strlit(" ");
                if before.len() > 0 {
                    assert(out@ =~= before + " "@ + l@);
                } else {
                    assert(out@ =~= l@);
                }
            }
        }
        i = i + 1;
    }
    proof {
        assert(lv.subrange(0, i as int) =~= lv);
    }
    out
}

/// The snippet for `term` in `content` with `context` characters each side.
pub open spec fn snippet_of(content: Seq<char>, term: Seq<char>, context: int) -> Option<Seq<char>> {
    let lc = lower_of(content);
    let lt = lower_of(term);
    if contains_seq(lc, lt) {
        let pos = choose|pos: int| first_occurrence(lc, lt, pos);
        Some(excerpt(snippet_base(content), pos, lt.len() as int, context))
    } else {
        None
    }
}

proof fn lemma_first_occurrence_unique(s: Seq<char>, t: Seq<char>, a: int, b: int)
    requires
        first_occurrence(s, t, a),
        first_occurrence(s, t, b),
    ensures
        a == b,
{
}

/// An excerpt around the first case-insensitive occurrence of `term`: the
/// window reaches `context_chars` characters to each side of the match,
/// widens to whole words, gets `...` at each end that is not the end of the
/// content, and has its line breaks and blank lines collapsed to single
/// spaces. None when the term does not occur.
pub fn extract_snippet(content: &str, term: &str, context_chars: usize) -> (r: Option<String>)
    ensures
        crate::index::opt_str(r) == snippet_of(content@, term@, context_chars as int),
        r is None <==> !contains_seq(lower_of(content@), lower_of(term@)),
        r matches Some(s) ==> exists|pos: int|
            first_occurrence(lower_of(content@), lower_of(term@), pos) && s@ == excerpt(
                snippet_base(content@),
                pos,
                lower_of(term@).len() as int,
                context_chars as int,
            ),
{
    let as_read = chars_of(content);
    let lowered = lower_chars(content);
    let t = lower_chars(term);
    let found = find_seq(&lowered, &t);
    let pos = match found {
        Some(p) => p,
        None => {
            return None;
        },
    };
    let base = if lowered.len() == as_read.len() {
        as_read
    } else {
        lowered
    };
    let n = t.len();
    let start0: usize = if pos >= context_chars {
        pos - context_chars
    } else {
        0
    };
    let end0: usize = if n <= base.len() - pos && context_chars <= base.len() - pos - n {
        pos + n + context_chars
    } else {
        base.len()
    };
    proof {
        lemma_word_start(base@, start0 as int);
        lemma_word_end(base@, end0 as int);
    }
    let start = find_word_start(&base, start0);
    let end = find_word_end(&base, end0);
    let mut snippet: Vec<char> = Vec::new();
    let ghost pre: Seq<char> = if start > 0 {
        "..."@
    } else {
        seq![]
    };
    let ghost post: Seq<char> = if end < base@.len() {
        "..."@
    } else {
        seq![]
    };
    proof {
        reveal_strlit("...");
    }
    if start > 0 {
        snippet.push('.');
        snippet.push('.');
        snippet.push('.');
    }
    let ghost s1 = snippet@;
    let middle = trimmed(&slice(&base, start, end));
    let mut k: usize = 0;
    while k < middle.len()
        invariant
            k <= middle@.len(),
            snippet@ == s1 + middle@.subrange(0, k as int),
        decreases middle@.len() - k,
    {
        snippet.push(middle[k]);
        proof {
            assert(snippet@ =~= s1 + middle@.subrange(0, k + 1));
        }
        k = k + 1;
    }
    proof {
        assert(middle@.subrange(0, k as int) =~= middle@);
    }
    if end < base.len() {
        snippet.push('.');
        snippet.push('.');
        snippet.push('.');
    }
    proof {
        assert(s1 =~= pre);
        assert(snippet@ =~= pre + middle@ + post);
    }
    let out = collapse_lines(&snippet);
    proof {
        let lc = lower_of(content@);
        let lt = lower_of(term@);
        assert(first_occurrence(lc, lt, pos as int));
        let p2 = choose|p: int| first_occurrence(lc, lt, p);
        lemma_first_occurrence_unique(lc, lt, pos as int, p2);
    }
    Some(string_of(&out))
}

/// The snippets of the terms that occur, in the order of the terms.
pub open spec fn snippets_of(content: Seq<char>, terms: Seq<Seq<char>>, context: int) -> Seq<
    Seq<char>,
>
    decreases terms.len(),
{
    if terms.len() == 0 {
        seq![]
    } else {
        let prev = snippets_of(content, terms.drop_last(), context);
        match snippet_of(content, terms.last(), context) {
            Some(x) => prev.push(x),
            None => prev,
        }
    }
}

/// The snippet for each term that occurs, in the order of the terms.
pub fn extract_snippets(content: &str, terms: &Vec<String>, context_chars: usize) -> (r: Vec<
    String,
>)
    ensures
        crate::meta::strs(r@) == snippets_of(
            content@,
            crate::meta::strs(terms@),
            context_chars as int,
        ),
{
    let ghost tv = crate::meta::strs(terms@);
    let mut out: Vec<String> = Vec::new();
    let mut i: usize = 0;
    proof {
        assert(tv.subrange(0, 0) =~= Seq::<Seq<char>>::empty());
        assert(crate::meta::strs(out@) =~= Seq::<Seq<char>>::empty());
    }
    while i < terms.len()
        invariant
            i <= terms@.len(),
            tv == crate::meta::strs(terms@),
            crate::meta::strs(out@) == snippets_of(
                content@,
                tv.subrange(0, i as int),
                context_chars as int,
            ),
        decreases terms@.len() - i,
    {
        proof {
            assert(tv.subrange(0, i + 1).drop_last() =~= tv.subrange(0, i as int));
            assert(tv[i as int] == terms@[i as int]@);
        }
        let ghost before = crate::meta::strs(out@);
        match extract_snippet(content, terms[i].as_str(), context_chars) {
            Some(s) => {
                out.push(s);
                proof {
                    assert(crate::meta::strs(out@) =~= before.push(s@));
                }
            },
            None => {},
        }
        i = i + 1;
    }
    proof {
        assert(tv.subrange(0, i as int) =~= tv);
    }
    out
}

} // verus!
