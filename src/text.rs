//! Character-level text operations over `Seq<char>`, with executable
//! counterparts over `Vec<char>`.

use vstd::prelude::*;
use vstd::std_specs::iter::IteratorSpec;

verus! {

/// Case folding of a whole string, as the standard library performs it.
pub uninterp spec fn lower_of(s: Seq<char>) -> Seq<char>;

/// Relies on `str::to_lowercase`: the result depends on the characters alone,
/// and an empty string stays empty.
#[verifier::external_body]
pub(crate) fn lower(s: &str) -> (r: String)
    ensures
        r@ == lower_of(s@),
        s@.len() == 0 ==> r@.len() == 0,
{
    s.to_lowercase()
}

/// Relies on `String: FromIterator<&char>`: the string holds the characters in order.
#[verifier::external_body]
pub(crate) fn string_of(v: &Vec<char>) -> (r: String)
    ensures
        r@ == v@,
{
    v.iter().collect()
}

/// Copies the characters of a string slice into a vector.
pub fn chars_of(s: &str) -> (r: Vec<char>)
    ensures
        r@ == s@,
{
    broadcast use vstd::string::group_string_axioms;

    let mut out: Vec<char> = Vec::new();
    let mut it = s.chars();
    loop
        invariant
            it.remaining() == s@.subrange(out@.len() as int, s@.len() as int),
            out@ == s@.subrange(0, out@.len() as int),
            out@.len() <= s@.len(),
        ensures
            out@.len() == s@.len(),
            out@ == s@.subrange(0, out@.len() as int),
        decreases s@.len() - out@.len(),
    {
        match it.next() {
            Some(c) => {
                out.push(c);
            },
            None => {
                assert(s@.subrange(out@.len() as int, s@.len() as int).len() == 0);
                break;
            },
        }
    }
    assert(out@ =~= s@);
    out
}

/// Case-folded characters of a string.
pub fn lower_chars(s: &str) -> (r: Vec<char>)
    ensures
        r@ == lower_of(s@),
{
    let l = lower(s);
    chars_of(l.as_str())
}

/// The Unicode `White_Space` property.
pub open spec fn is_ws(c: char) -> bool {
    let u = c as u32;
    (0x09 <= u && u <= 0x0D) || u == 0x20 || u == 0x85 || u == 0xA0 || u == 0x1680 || (0x2000
        <= u && u <= 0x200A) || u == 0x2028 || u == 0x2029 || u == 0x202F || u == 0x205F || u
        == 0x3000
}

/// Whitespace in the ASCII sense: space, tab, line feed, form feed, carriage return.
pub open spec fn is_ascii_ws(c: char) -> bool {
    c == ' ' || c == '\t' || c == '\n' || c == '\x0C' || c == '\r'
}

pub fn is_whitespace(c: char) -> (r: bool)
    ensures
        r == is_ws(c),
{
    let u = c as u32;
    (0x09 <= u && u <= 0x0D) || u == 0x20 || u == 0x85 || u == 0xA0 || u == 0x1680 || (0x2000
        <= u && u <= 0x200A) || u == 0x2028 || u == 0x2029 || u == 0x202F || u == 0x205F || u
        == 0x3000
}

pub fn is_ascii_whitespace(c: char) -> (r: bool)
    ensures
        r == is_ascii_ws(c),
{
    c == ' ' || c == '\t' || c == '\n' || c == '\x0C' || c == '\r'
}

/// `t` occurs in `s` at position `i`.
pub open spec fn occurs_at(s: Seq<char>, t: Seq<char>, i: int) -> bool {
    0 <= i && i + t.len() <= s.len() && s.subrange(i, i + t.len()) == t
}

/// `t` occurs somewhere in `s`.
pub open spec fn contains_seq(s: Seq<char>, t: Seq<char>) -> bool {
    exists|i: int| occurs_at(s, t, i)
}

/// `i` is the first position at which `t` occurs in `s`.
pub open spec fn first_occurrence(s: Seq<char>, t: Seq<char>, i: int) -> bool {
    occurs_at(s, t, i) && forall|j: int| 0 <= j < i ==> !occurs_at(s, t, j)
}

pub fn matches_at(s: &Vec<char>, t: &Vec<char>, i: usize) -> (r: bool)
    ensures
        r == occurs_at(s@, t@, i as int),
{
    if i > s.len() || t.len() > s.len() - i {
        return false;
    }
    let mut k: usize = 0;
    while k < t.len()
        invariant
            s@.len() <= usize::MAX,
            i as int + t@.len() <= s@.len(),
            k <= t@.len(),
            forall|m: int| 0 <= m < k ==> s@[i + m] == t@[m],
        decreases t@.len() - k,
    {
        if s[i + k] != t[k] {
            assert(s@.subrange(i as int, i + t@.len())[k as int] != t@[k as int]);
            return false;
        }
        k = k + 1;
    }
    assert(s@.subrange(i as int, i + t@.len()) =~= t@);
    true
}

/// The two sequences are equal.
pub fn same_chars(a: &Vec<char>, b: &Vec<char>) -> (r: bool)
    ensures
        r == (a@ == b@),
{
    if a.len() != b.len() {
        return false;
    }
    let r = matches_at(a, b, 0);
    proof {
        assert(a@.subrange(0, b@.len() as int) =~= a@);
    }
    r
}

/// The first position at which `t` occurs in `s`, if any.
pub fn find_seq(s: &Vec<char>, t: &Vec<char>) -> (r: Option<usize>)
    ensures
        r matches Some(i) ==> first_occurrence(s@, t@, i as int),
        r is None ==> !contains_seq(s@, t@),
{
    let mut i: usize = 0;
    while i < s.len()
        invariant
            i <= s@.len(),
            forall|j: int| 0 <= j < i ==> !occurs_at(s@, t@, j),
        decreases s@.len() - i,
    {
        if matches_at(s, t, i) {
            return Some(i);
        }
        i = i + 1;
    }
    if matches_at(s, t, i) {
        return Some(i);
    }
    assert forall|j: int| !occurs_at(s@, t@, j) by {
        if 0 <= j && j <= s@.len() {
            assert(j <= i);
        }
    }
    None
}

pub fn contains(s: &Vec<char>, t: &Vec<char>) -> (r: bool)
    ensures
        r == contains_seq(s@, t@),
{
    match find_seq(s, t) {
        Some(_) => true,
        None => false,
    }
}

/// Number of non-overlapping occurrences of `t` in `s`, scanning from the left;
/// an empty pattern matches at every one of the `s.len() + 1` boundaries.
pub open spec fn occurrences(s: Seq<char>, t: Seq<char>) -> nat
    decreases s.len(),
{
    if t.len() == 0 {
        s.len() + 1
    } else if s.len() < t.len() {
        0
    } else if s.subrange(0, t.len() as int) == t {
        1 + occurrences(s.subrange(t.len() as int, s.len() as int), t)
    } else {
        occurrences(s.subrange(1, s.len() as int), t)
    }
}

/// Occurrences never outnumber the boundaries of `s`.
pub proof fn lemma_occurrences_le(s: Seq<char>, t: Seq<char>)
    ensures
        occurrences(s, t) <= s.len() + 1,
{
    if t.len() > 0 {
        lemma_occurrences_bound(s, t);
    }
}

proof fn lemma_occurrences_bound(s: Seq<char>, t: Seq<char>)
    requires
        t.len() > 0,
    ensures
        occurrences(s, t) <= s.len(),
    decreases s.len(),
{
    if s.len() >= t.len() {
        if s.subrange(0, t.len() as int) == t {
            lemma_occurrences_bound(s.subrange(t.len() as int, s.len() as int), t);
        } else {
            lemma_occurrences_bound(s.subrange(1, s.len() as int), t);
        }
    }
}

pub fn count_occurrences(s: &Vec<char>, t: &Vec<char>) -> (r: u128)
    ensures
        r == occurrences(s@, t@),
        t@.len() > 0 ==> r <= s@.len(),
{
    if t.len() == 0 {
        return s.len() as u128 + 1;
    }
    let mut i: usize = 0;
    let mut n: usize = 0;
    proof {
        lemma_occurrences_bound(s@, t@);
        assert(s@.subrange(0, s@.len() as int) =~= s@);
    }
    while i < s.len()
        invariant
            t@.len() > 0,
            i <= s@.len(),
            n + occurrences(s@.subrange(i as int, s@.len() as int), t@) == occurrences(s@, t@),
            occurrences(s@, t@) <= s@.len(),
        decreases s@.len() - i,
    {
        let ghost rest = s@.subrange(i as int, s@.len() as int);
        if matches_at(s, t, i) {
            proof {
                assert(rest.subrange(0, t@.len() as int) =~= s@.subrange(i as int, i + t@.len()));
                assert(rest.subrange(t@.len() as int, rest.len() as int) =~= s@.subrange(
                    i + t@.len(),
                    s@.len() as int,
                ));
                lemma_occurrences_bound(rest.subrange(t@.len() as int, rest.len() as int), t@);
            }
            n = n + 1;
            i = i + t.len();
        } else {
            proof {
                if rest.len() >= t@.len() {
                    assert(rest.subrange(0, t@.len() as int) =~= s@.subrange(
                        i as int,
                        i + t@.len(),
                    ));
                }
                assert(rest.subrange(1, rest.len() as int) =~= s@.subrange(
                    i + 1,
                    s@.len() as int,
                ));
                lemma_occurrences_bound(rest.subrange(1, rest.len() as int), t@);
            }
            i = i + 1;
        }
    }
    proof {
        assert(s@.subrange(i as int, s@.len() as int).len() == 0);
    }
    n as u128
}

/// The character sequences held by a vector of character vectors.
pub open spec fn seqs_of(v: Seq<Vec<char>>) -> Seq<Seq<char>> {
    v.map_values(|w: Vec<char>| w@)
}

/// The maximal runs of non-whitespace characters of `s`, in order.
pub open spec fn split_ws(s: Seq<char>) -> Seq<Seq<char>>
    decreases s.len(),
{
    if s.len() == 0 {
        seq![]
    } else {
        let prev = split_ws(s.drop_last());
        let c = s.last();
        if is_ws(c) {
            prev
        } else if s.len() == 1 || is_ws(s[s.len() - 2]) {
            prev.push(seq![c])
        } else {
            prev.update(prev.len() - 1, prev.last().push(c))
        }
    }
}

/// Number of whitespace-separated words.
pub open spec fn word_count(s: Seq<char>) -> nat {
    split_ws(s).len()
}

pub proof fn lemma_split_ws_len(s: Seq<char>)
    ensures
        split_ws(s).len() <= s.len(),
        s.len() > 0 && !is_ws(s.last()) ==> split_ws(s).len() > 0,
    decreases s.len(),
{
    if s.len() > 0 {
        lemma_split_ws_len(s.drop_last());
    }
}

/// Splits `s` into its whitespace-separated words.
pub fn split_whitespace(s: &Vec<char>) -> (r: Vec<Vec<char>>)
    ensures
        seqs_of(r@) == split_ws(s@),
{
    let mut out: Vec<Vec<char>> = Vec::new();
    let mut i: usize = 0;
    proof {
        assert(s@.subrange(0, 0) =~= Seq::<char>::empty());
        assert(seqs_of(out@) =~= seq![]);
    }
    while i < s.len()
        invariant
            i <= s@.len(),
            seqs_of(out@) == split_ws(s@.subrange(0, i as int)),
        decreases s@.len() - i,
    {
        let c = s[i];
        let ghost pre = s@.subrange(0, i as int);
        let ghost cur = s@.subrange(0, i + 1);
        proof {
            assert(cur.drop_last() =~= pre);
            assert(cur.last() == c);
            lemma_split_ws_len(pre);
        }
        if is_whitespace(c) {
        } else if i == 0 || is_whitespace(s[i - 1]) {
            let mut w: Vec<char> = Vec::new();
            w.push(c);
            proof {
                assert(w@ =~= seq![c]);
            }
            out.push(w);
            proof {
                assert(seqs_of(out@) =~= split_ws(pre).push(seq![c]));
            }
        } else {
            proof {
                assert(pre.last() == s@[i - 1]);
            }
            let ghost before = out@;
            let mut w = out.pop().unwrap();
            w.push(c);
            out.push(w);
            proof {
                let prev = split_ws(pre);
                assert(seqs_of(out@) =~= prev.update(prev.len() - 1, prev.last().push(c)));
            }
        }
        i = i + 1;
    }
    proof {
        assert(s@.subrange(0, i as int) =~= s@);
    }
    out
}

/// `s` with its leading whitespace removed.
pub open spec fn trim_start(s: Seq<char>) -> Seq<char>
    decreases s.len(),
{
    if s.len() > 0 && is_ws(s[0]) {
        trim_start(s.drop_first())
    } else {
        s
    }
}

/// `s` with its trailing whitespace removed.
pub open spec fn trim_end(s: Seq<char>) -> Seq<char>
    decreases s.len(),
{
    if s.len() > 0 && is_ws(s.last()) {
        trim_end(s.drop_last())
    } else {
        s
    }
}

/// `s` with leading and trailing whitespace removed.
pub open spec fn trim(s: Seq<char>) -> Seq<char> {
    trim_end(trim_start(s))
}

proof fn lemma_trim_start_at(s: Seq<char>, a: int)
    requires
        0 <= a <= s.len(),
        forall|j: int| 0 <= j < a ==> is_ws(s[j]),
        a == s.len() || !is_ws(s[a]),
    ensures
        trim_start(s) == s.subrange(a, s.len() as int),
    decreases a,
{
    if a == 0 {
        assert(s.subrange(0, s.len() as int) =~= s);
    } else {
        let t = s.drop_first();
        assert forall|j: int| 0 <= j < a - 1 implies is_ws(t[j]) by {
            assert(t[j] == s[j + 1]);
        }
        lemma_trim_start_at(t, a - 1);
        assert(t.subrange(a - 1, t.len() as int) =~= s.subrange(a, s.len() as int));
    }
}

proof fn lemma_trim_end_at(s: Seq<char>, b: int)
    requires
        0 <= b <= s.len(),
        forall|j: int| b <= j < s.len() ==> is_ws(s[j]),
        b == 0 || !is_ws(s[b - 1]),
    ensures
        trim_end(s) == s.subrange(0, b),
    decreases s.len() - b,
{
    if b == s.len() {
        assert(s.subrange(0, b) =~= s);
    } else {
        let t = s.drop_last();
        assert forall|j: int| b <= j < t.len() implies is_ws(t[j]) by {
            assert(t[j] == s[j]);
        }
        lemma_trim_end_at(t, b);
        assert(t.subrange(0, b) =~= s.subrange(0, b));
    }
}

/// Copies `s[from..to]`.
pub fn slice(s: &Vec<char>, from: usize, to: usize) -> (r: Vec<char>)
    requires
        from <= to <= s@.len(),
    ensures
        r@ == s@.subrange(from as int, to as int),
{
    let mut out: Vec<char> = Vec::new();
    let mut i: usize = from;
    while i < to
        invariant
            from <= i <= to <= s@.len(),
            out@ == s@.subrange(from as int, i as int),
        decreases to - i,
    {
        out.push(s[i]);
        proof {
            assert(out@ =~= s@.subrange(from as int, i + 1));
        }
        i = i + 1;
    }
    out
}

/// Removes leading and trailing whitespace.
pub fn trimmed(s: &Vec<char>) -> (r: Vec<char>)
    ensures
        r@ == trim(s@),
{
    let mut a: usize = 0;
    while a < s.len() && is_whitespace(s[a])
        invariant
            a <= s@.len(),
            forall|j: int| 0 <= j < a ==> is_ws(s@[j]),
        decreases s@.len() - a,
    {
        a = a + 1;
    }
    proof {
        lemma_trim_start_at(s@, a as int);
    }
    let ghost u = s@.subrange(a as int, s@.len() as int);
    let mut b: usize = s.len();
    while b > a && is_whitespace(s[b - 1])
        invariant
            a <= b <= s@.len(),
            forall|j: int| b <= j < s@.len() ==> is_ws(s@[j]),
        decreases b,
    {
        b = b - 1;
    }
    proof {
        assert forall|j: int| b - a <= j < u.len() implies is_ws(u[j]) by {
            assert(u[j] == s@[j + a]);
        }
        if b > a {
            assert(u[b - a - 1] == s@[b - 1]);
        }
        lemma_trim_end_at(u, b - a);
        assert(u.subrange(0, b - a) =~= s@.subrange(a as int, b as int));
    }
    slice(s, a, b)
}

/// The pieces of `s` that each end with, and include, a line feed; the last
/// piece may lack one.
pub open spec fn raw_lines(s: Seq<char>) -> Seq<Seq<char>>
    decreases s.len(),
{
    if s.len() == 0 {
        seq![]
    } else {
        let prev = raw_lines(s.drop_last());
        let c = s.last();
        if prev.len() > 0 && prev.last().last() != '\n' {
            prev.update(prev.len() - 1, prev.last().push(c))
        } else {
            prev.push(seq![c])
        }
    }
}

/// A piece without its line ending (`\n` or `\r\n`).
pub open spec fn strip_eol(p: Seq<char>) -> Seq<char> {
    if p.len() > 0 && p.last() == '\n' {
        let q = p.drop_last();
        if q.len() > 0 && q.last() == '\r' {
            q.drop_last()
        } else {
            q
        }
    } else {
        p
    }
}

/// The lines of `s`: split at line feeds, a line ending of `\r\n` or `\n`
/// removed, and no empty line after a final line ending.
pub open spec fn lines_of(s: Seq<char>) -> Seq<Seq<char>> {
    raw_lines(s).map_values(|p: Seq<char>| strip_eol(p))
}

proof fn lemma_raw_lines_nonempty(s: Seq<char>)
    ensures
        forall|k: int| 0 <= k < raw_lines(s).len() ==> raw_lines(s)[k].len() > 0,
    decreases s.len(),
{
    if s.len() > 0 {
        let prev = raw_lines(s.drop_last());
        lemma_raw_lines_nonempty(s.drop_last());
        if prev.len() > 0 && prev.last().last() != '\n' {
            assert(prev.last().push(s.last()).len() > 0);
        } else {
            assert(seq![s.last()].len() > 0);
        }
        assert forall|k: int| 0 <= k < raw_lines(s).len() implies raw_lines(s)[k].len() > 0 by {
            if k < prev.len() {
                assert(prev[k].len() > 0);
            }
        }
    }
}

/// Removes the line ending of one piece.
fn strip_line_ending(p: &Vec<char>) -> (r: Vec<char>)
    ensures
        r@ == strip_eol(p@),
{
    let n = p.len();
    if n > 0 && p[n - 1] == '\n' {
        if n > 1 && p[n - 2] == '\r' {
            slice(p, 0, n - 2)
        } else {
            slice(p, 0, n - 1)
        }
    } else {
        slice(p, 0, n)
    }
}

/// Splits `s` into lines.
pub fn lines(s: &Vec<char>) -> (r: Vec<Vec<char>>)
    ensures
        seqs_of(r@) == lines_of(s@),
{
    let mut raw: Vec<Vec<char>> = Vec::new();
    let mut i: usize = 0;
    proof {
        assert(s@.subrange(0, 0) =~= Seq::<char>::empty());
        assert(seqs_of(raw@) =~= seq![]);
    }
    while i < s.len()
        invariant
            i <= s@.len(),
            seqs_of(raw@) == raw_lines(s@.subrange(0, i as int)),
        decreases s@.len() - i,
    {
        let c = s[i];
        let ghost pre = s@.subrange(0, i as int);
        proof {
            assert(s@.subrange(0, i + 1).drop_last() =~= pre);
            lemma_raw_lines_nonempty(pre);
        }
        let n = raw.len();
        let open_piece = if n > 0 {
            let m = raw[n - 1].len();
            proof {
                assert(seqs_of(raw@)[n - 1] == raw@[n - 1]@);
            }
            raw[n - 1][m - 1] != '\n'
        } else {
            false
        };
        if open_piece {
            let mut w = raw.pop().unwrap();
            w.push(c);
            raw.push(w);
            proof {
                let prev = raw_lines(pre);
                assert(seqs_of(raw@) =~= prev.update(prev.len() - 1, prev.last().push(c)));
            }
        } else {
            let mut w: Vec<char> = Vec::new();
            w.push(c);
            raw.push(w);
            proof {
                assert(seqs_of(raw@) =~= raw_lines(pre).push(seq![c]));
            }
        }
        i = i + 1;
    }
    proof {
        assert(s@.subrange(0, i as int) =~= s@);
    }
    let mut out: Vec<Vec<char>> = Vec::new();
    let mut k: usize = 0;
    while k < raw.len()
        invariant
            k <= raw@.len(),
            out@.len() == k,
            seqs_of(raw@) == raw_lines(s@),
            seqs_of(out@) == raw_lines(s@).subrange(0, k as int).map_values(
                |p: Seq<char>| strip_eol(p),
            ),
        decreases raw@.len() - k,
    {
        let w = strip_line_ending(&raw[k]);
        let ghost old_out = out@;
        out.push(w);
        proof {
            assert(seqs_of(raw@)[k as int] == raw@[k as int]@);
            let lhs = seqs_of(out@);
            let rhs = raw_lines(s@).subrange(0, k + 1).map_values(|p: Seq<char>| strip_eol(p));
            assert forall|j: int| 0 <= j < k + 1 implies lhs[j] == rhs[j] by {
                if j < k {
                    assert(out@[j] == old_out[j]);
                    assert(seqs_of(old_out)[j] == old_out[j]@);
                    assert(lhs[j] == out@[j]@);
                } else {
                    assert(lhs[j] == w@);
                }
            }
            assert(lhs =~= rhs);
        }
        k = k + 1;
    }
    proof {
        assert(raw_lines(s@).subrange(0, k as int) =~= raw_lines(s@));
    }
    out
}

} // verus!
