//! The metadata collection and the content collection of the index.

use vstd::prelude::*;
use vstd::string::StringExecFns;
use crate::meta::{SkillMeta, SkillView, strs};
use crate::text::{
    chars_of, contains_seq, count_occurrences, lines, lines_of, lower_chars, lower_of,
    occurrences, seqs_of, split_whitespace, string_of, trim, trimmed, word_count,
};

verus! {

/// Relies on `chrono::Utc::now`: the current time, in milliseconds since the
/// Unix epoch. Nothing is promised of its value.
#[verifier::external_body]
pub(crate) fn now_millis() -> (r: i64) {
    chrono::Utc::now().timestamp_millis()
}

/// `s` without its leading `#` characters.
pub open spec fn strip_hashes(s: Seq<char>) -> Seq<char>
    decreases s.len(),
{
    if s.len() > 0 && s[0] == '#' {
        strip_hashes(s.drop_first())
    } else {
        s
    }
}

/// The heading text of each line that starts with `#`: the leading `#`
/// characters removed, then trimmed.
pub open spec fn headings_in(ls: Seq<Seq<char>>) -> Seq<Seq<char>>
    decreases ls.len(),
{
    if ls.len() == 0 {
        seq![]
    } else {
        let prev = headings_in(ls.drop_last());
        let l = ls.last();
        if l.len() > 0 && l[0] == '#' {
            prev.push(trim(strip_hashes(l)))
        } else {
            prev
        }
    }
}

proof fn lemma_strip_hashes_at(s: Seq<char>, a: int)
    requires
        0 <= a <= s.len(),
        forall|j: int| 0 <= j < a ==> s[j] == '#',
        a == s.len() || s[a] != '#',
    ensures
        strip_hashes(s) == s.subrange(a, s.len() as int),
    decreases a,
{
    if a == 0 {
        assert(s.subrange(0, s.len() as int) =~= s);
    } else {
        let t = s.drop_first();
        assert forall|j: int| 0 <= j < a - 1 implies t[j] == '#' by {
            assert(t[j] == s[j + 1]);
        }
        lemma_strip_hashes_at(t, a - 1);
        assert(t.subrange(a - 1, t.len() as int) =~= s.subrange(a, s.len() as int));
    }
}

fn heading_text(l: &Vec<char>) -> (r: Vec<char>)
    ensures
        r@ == trim(strip_hashes(l@)),
{
    let mut a: usize = 0;
    while a < l.len() && l[a] == '#'
        invariant
            a <= l@.len(),
            forall|j: int| 0 <= j < a ==> l@[j] == '#',
        decreases l@.len() - a,
    {
        a = a + 1;
    }
    proof {
        lemma_strip_hashes_at(l@, a as int);
    }
    let rest = crate::text::slice(l, a, l.len());
    trimmed(&rest)
}

/// Extracts the headings of a document.
pub fn extract_headings(content: &Vec<char>) -> (r: Vec<String>)
    ensures
        strs(r@) == headings_in(lines_of(content@)),
{
    let ls = lines(content);
    let ghost lv = seqs_of(ls@);
    let mut out: Vec<String> = Vec::new();
    let mut i: usize = 0;
    proof {
        assert(lv.subrange(0, 0) =~= Seq::<Seq<char>>::empty());
        assert(strs(out@) =~= headings_in(lv.subrange(0, 0)));
    }
    while i < ls.len()
        invariant
            i <= ls@.len(),
            lv == seqs_of(ls@),
            strs(out@) == headings_in(lv.subrange(0, i as int)),
        decreases ls@.len() - i,
    {
        let l = &ls[i];
        proof {
            assert(lv[i as int] == l@);
            assert(lv.subrange(0, i + 1).drop_last() =~= lv.subrange(0, i as int));
        }
        if l.len() > 0 && l[0] == '#' {
            let h = heading_text(l);
            let ghost before = out@;
            out.push(string_of(&h));
            proof {
                assert(strs(out@) =~= strs(before).push(h@));
            }
        }
        i = i + 1;
    }
    proof {
        assert(lv.subrange(0, i as int) =~= lv);
    }
    out
}

/// What a content entry holds.
pub struct ContentEntryView {
    pub domain: Seq<char>,
    pub sub_skill: Option<Seq<char>>,
    pub file: Seq<char>,
    pub content: Seq<char>,
    pub word_count: nat,
    pub headings: Seq<Seq<char>>,
}

/// `domain`, or `domain:sub_skill`.
pub open spec fn key_of(domain: Seq<char>, sub_skill: Option<Seq<char>>) -> Seq<char> {
    match sub_skill {
        Some(s) => domain + ":"@ + s,
        None => domain,
    }
}

/// The name an entry is looked up by: the domain for the primary document,
/// `domain:sub_skill` for a sub-skill, `domain:file` for a reference document.
pub open spec fn entry_key(domain: Seq<char>, sub_skill: Option<Seq<char>>, file: Seq<char>) -> Seq<
    char,
> {
    match sub_skill {
        Some(s) => domain + ":"@ + s,
        None => if file == "SKILL.md"@ {
            domain
        } else {
            domain + ":"@ + file
        },
    }
}

impl ContentEntryView {
    pub open spec fn key(self) -> Seq<char> {
        entry_key(self.domain, self.sub_skill, self.file)
    }

    /// The identity of an entry: the document it indexes.
    pub open spec fn slot(self) -> (Seq<char>, Option<Seq<char>>, Seq<char>) {
        (self.domain, self.sub_skill, self.file)
    }
}

/// One indexed document, held case-folded for matching.
#[derive(Debug)]
pub struct ContentIndexEntry {
    /// The skill the document belongs to.
    pub domain: String,
    /// The sub-skill name, none for the primary document and references.
    pub sub_skill: Option<String>,
    /// Path relative to the skill directory.
    pub file: String,
    /// The case-folded text.
    pub content: String,
    /// Number of whitespace-separated words of the text as read.
    pub word_count: usize,
    /// The headings of the text as read.
    pub headings: Vec<String>,
}

pub open spec fn opt_str(o: Option<String>) -> Option<Seq<char>> {
    match o {
        Some(s) => Some(s@),
        None => None,
    }
}

pub fn copy_opt(o: &Option<String>) -> (r: Option<String>)
    ensures
        opt_str(r) == opt_str(*o),
{
    match o {
        Some(s) => Some(s.clone()),
        None => None,
    }
}

impl View for ContentIndexEntry {
    type V = ContentEntryView;

    open spec fn view(&self) -> ContentEntryView {
        ContentEntryView {
            domain: self.domain@,
            sub_skill: opt_str(self.sub_skill),
            file: self.file@,
            content: self.content@,
            word_count: self.word_count as nat,
            headings: strs(self.headings@),
        }
    }
}

impl Clone for ContentIndexEntry {
    fn clone(&self) -> (r: Self)
        ensures
            r@ == self@,
    {
        ContentIndexEntry {
            domain: self.domain.clone(),
            sub_skill: copy_opt(&self.sub_skill),
            file: self.file.clone(),
            content: self.content.clone(),
            word_count: self.word_count,
            headings: crate::meta::copy_strings(&self.headings),
        }
    }
}

/// The entry that indexing `content` as given yields.
pub open spec fn entry_for(
    domain: Seq<char>,
    sub_skill: Option<Seq<char>>,
    file: Seq<char>,
    content: Seq<char>,
) -> ContentEntryView {
    ContentEntryView {
        domain,
        sub_skill,
        file,
        content: lower_of(content),
        word_count: word_count(content),
        headings: headings_in(lines_of(content)),
    }
}

impl ContentIndexEntry {
    /// Indexes one document: counts its words, extracts its headings and
    /// case-folds its text.
    pub fn new(domain: String, sub_skill: Option<String>, file: String, content: String) -> (r:
        Self)
        ensures
            r@ == entry_for(domain@, opt_str(sub_skill), file@, content@),
    {
        let chars = chars_of(content.as_str());
        let words = split_whitespace(&chars);
        proof {
            crate::text::lemma_split_ws_len(chars@);
        }
        let headings = extract_headings(&chars);
        let lowered = lower_chars(content.as_str());
        ContentIndexEntry {
            domain,
            sub_skill,
            file,
            content: string_of(&lowered),
            word_count: words.len(),
            headings,
        }
    }

    /// Whether the case-folded term occurs in the content.
    pub fn matches(&self, term: &str) -> (r: bool)
        ensures
            r == contains_seq(self.content@, lower_of(term@)),
    {
        let t = lower_chars(term);
        let c = chars_of(self.content.as_str());
        crate::text::contains(&c, &t)
    }

    /// Number of non-overlapping occurrences of the case-folded term.
    pub fn count_matches(&self, term: &str) -> (r: u128)
        ensures
            r == occurrences(self.content@, lower_of(term@)),
    {
        let t = lower_chars(term);
        let c = chars_of(self.content.as_str());
        count_occurrences(&c, &t)
    }

    /// The lookup name of the entry: `domain` for the primary document,
    /// `domain:sub_skill` for a sub-skill, `domain:file` for a reference.
    pub fn key(&self) -> (r: String)
        ensures
            r@ == self@.key(),
    {
        match &self.sub_skill {
            Some(sub) => self.domain.clone().concat(":").concat(sub.as_str()),
            None => {
                if self.file == String::from_str("SKILL.md") {
                    self.domain.clone()
                } else {
                    self.domain.clone().concat(":").concat(self.file.as_str())
                }
            },
        }
    }

    /// The entries index the same document.
    pub fn same_slot(&self, other: &ContentIndexEntry) -> (r: bool)
        ensures
            r == (self@.slot() == other@.slot()),
    {
        if self.domain != other.domain || self.file != other.file {
            return false;
        }
        match (&self.sub_skill, &other.sub_skill) {
            (Some(a), Some(b)) => *a == *b,
            (None, None) => true,
            _ => false,
        }
    }
}

/// The views of a list of manifests.
pub open spec fn meta_views(v: Seq<SkillMeta>) -> Seq<SkillView> {
    v.map_values(|m: SkillMeta| m@)
}

/// The metadata collection: the manifests ordered by name, the problems met
/// while building it, and when it was built.
#[derive(Debug)]
pub struct SkillIndex {
    pub skills: Vec<SkillMeta>,
    pub validation_errors: Vec<String>,
    /// Milliseconds since the Unix epoch.
    pub last_updated: i64,
}

/// No two manifests share a name.
pub open spec fn names_unique(s: Seq<SkillView>) -> bool {
    forall|i: int, j: int| 0 <= i < s.len() && 0 <= j < s.len() && i != j ==> s[i].name != s[j].name
}

/// Index of the first manifest with the given name.
pub open spec fn first_named(s: Seq<SkillView>, name: Seq<char>, i: int) -> bool {
    0 <= i < s.len() && s[i].name == name && forall|j: int| 0 <= j < i ==> s[j].name != name
}

impl SkillIndex {
    pub open spec fn skill_views(self) -> Seq<SkillView> {
        meta_views(self.skills@)
    }

    /// An empty index.
    pub fn new() -> (r: Self)
        ensures
            r.skills@.len() == 0,
            r.validation_errors@.len() == 0,
    {
        SkillIndex { skills: Vec::new(), validation_errors: Vec::new(), last_updated: now_millis() }
    }

    /// An index holding the given manifests and problems.
    pub fn with_skills(skills: Vec<SkillMeta>, errors: Vec<String>) -> (r: Self)
        ensures
            r.skills == skills,
            r.validation_errors == errors,
    {
        SkillIndex { skills, validation_errors: errors, last_updated: now_millis() }
    }

    /// The first manifest with the given name.
    pub fn find(&self, name: &str) -> (r: Option<&SkillMeta>)
        ensures
            r matches Some(m) ==> exists|i: int|
                first_named(self.skill_views(), name@, i) && self.skills@[i] == *m,
            r is None ==> forall|i: int|
                0 <= i < self.skills@.len() ==> self.skills@[i].name@ != name@,
    {
        let target = name.to_owned();
        let mut i: usize = 0;
        while i < self.skills.len()
            invariant
                i <= self.skills@.len(),
                target@ == name@,
                forall|j: int| 0 <= j < i ==> self.skills@[j].name@ != name@,
            decreases self.skills@.len() - i,
        {
            if self.skills[i].name == target {
                proof {
                    assert forall|j: int| 0 <= j < i implies self.skill_views()[j].name != name@ by {
                        assert(self.skill_views()[j] == self.skills@[j]@);
                    }
                    assert(self.skill_views()[i as int] == self.skills@[i as int]@);
                }
                return Some(&self.skills[i]);
            }
            i = i + 1;
        }
        None
    }

    pub fn len(&self) -> (r: usize)
        ensures
            r == self.skills@.len(),
    {
        self.skills.len()
    }

    pub fn is_empty(&self) -> (r: bool)
        ensures
            r == (self.skills@.len() == 0),
    {
        self.skills.len() == 0
    }

    pub fn has_errors(&self) -> (r: bool)
        ensures
            r == (self.validation_errors@.len() > 0),
    {
        self.validation_errors.len() > 0
    }
}

/// The views of a list of content entries.
pub open spec fn entry_views(v: Seq<ContentIndexEntry>) -> Seq<ContentEntryView> {
    v.map_values(|e: ContentIndexEntry| e@)
}

/// No two entries index the same document.
pub open spec fn slots_unique(s: Seq<ContentEntryView>) -> bool {
    forall|i: int, j: int| 0 <= i < s.len() && 0 <= j < s.len() && i != j ==> s[i].slot() != s[j].slot()
}

/// `s` with `e` in place of the entry for the same document, or `e` appended.
pub open spec fn upsert(s: Seq<ContentEntryView>, e: ContentEntryView) -> Seq<ContentEntryView> {
    if exists|i: int| 0 <= i < s.len() && s[i].slot() == e.slot() {
        s.update(choose|i: int| 0 <= i < s.len() && s[i].slot() == e.slot(), e)
    } else {
        s.push(e)
    }
}

/// `s` without the entries of domain `d`, in order.
pub open spec fn without_domain(s: Seq<ContentEntryView>, d: Seq<char>) -> Seq<ContentEntryView>
    decreases s.len(),
{
    if s.len() == 0 {
        seq![]
    } else {
        let prev = without_domain(s.drop_last(), d);
        if s.last().domain == d {
            prev
        } else {
            prev.push(s.last())
        }
    }
}

/// Number of entries of domain `d`.
pub open spec fn domain_count(s: Seq<ContentEntryView>, d: Seq<char>) -> nat
    decreases s.len(),
{
    if s.len() == 0 {
        0
    } else {
        domain_count(s.drop_last(), d) + if s.last().domain == d {
            1nat
        } else {
            0nat
        }
    }
}

pub proof fn lemma_upsert_unique(s: Seq<ContentEntryView>, e: ContentEntryView)
    requires
        slots_unique(s),
    ensures
        slots_unique(upsert(s, e)),
        upsert(s, e).contains(e),
        forall|x: ContentEntryView| #[trigger] s.contains(x) && x.slot() != e.slot() ==> upsert(s, e).contains(x),
        forall|x: ContentEntryView| #[trigger] upsert(s, e).contains(x) ==> x == e || s.contains(x),
{
    if exists|i: int| 0 <= i < s.len() && s[i].slot() == e.slot() {
        let k = choose|i: int| 0 <= i < s.len() && s[i].slot() == e.slot();
        let out = s.update(k, e);
        assert forall|i: int, j: int|
            0 <= i < out.len() && 0 <= j < out.len() && i != j implies out[i].slot() != out[j].slot() by {
            if i == k {
                assert(s[j].slot() != s[k].slot());
            } else if j == k {
                assert(s[i].slot() != s[k].slot());
            }
        }
        assert(out[k] == e);
        assert forall|x: ContentEntryView| #[trigger] s.contains(x) && x.slot() != e.slot() implies out.contains(x) by {
            let i = choose|i: int| 0 <= i < s.len() && s[i] == x;
            assert(i != k);
            assert(out[i] == x);
        }
        assert forall|x: ContentEntryView| #[trigger] out.contains(x) implies x == e || s.contains(x) by {
            let i = choose|i: int| 0 <= i < out.len() && out[i] == x;
            if i != k {
                assert(s[i] == x);
            }
        }
    } else {
        let out = s.push(e);
        assert(out[s.len() as int] == e);
        assert forall|x: ContentEntryView| #[trigger] s.contains(x) && x.slot() != e.slot() implies out.contains(x) by {
            let i = choose|i: int| 0 <= i < s.len() && s[i] == x;
            assert(out[i] == x);
        }
        assert forall|x: ContentEntryView| #[trigger] out.contains(x) implies x == e || s.contains(x) by {
            let i = choose|i: int| 0 <= i < out.len() && out[i] == x;
            if i < s.len() {
                assert(s[i] == x);
            }
        }
    }
}

pub proof fn lemma_without_domain(s: Seq<ContentEntryView>, d: Seq<char>)
    ensures
        forall|i: int|
            #![trigger without_domain(s, d)[i]]
            0 <= i < without_domain(s, d).len() ==> without_domain(s, d)[i].domain != d
                && exists|j: int| 0 <= j < s.len() && without_domain(s, d)[i] == #[trigger] s[j],
        slots_unique(s) ==> slots_unique(without_domain(s, d)),
        forall|j: int| 0 <= j < s.len() && s[j].domain != d ==> without_domain(s, d).contains(s[j]),
    decreases s.len(),
{
    if s.len() > 0 {
        let p = s.drop_last();
        lemma_without_domain(p, d);
        let prev = without_domain(p, d);
        let out = without_domain(s, d);
        assert forall|i: int| #![trigger out[i]] 0 <= i < out.len() implies out[i].domain != d
            && exists|j: int| 0 <= j < s.len() && out[i] == #[trigger] s[j] by {
            if i < prev.len() {
                let j = choose|j: int| 0 <= j < p.len() && prev[i] == #[trigger] p[j];
                assert(out[i] == prev[i]);
                assert(s[j] == p[j]);
            } else {
                assert(out[i] == s[s.len() - 1]);
            }
        }
        if slots_unique(s) {
            assert(slots_unique(p)) by {
                assert forall|i: int, j: int|
                    0 <= i < p.len() && 0 <= j < p.len() && i != j implies p[i].slot() != p[j].slot() by {
                    assert(p[i] == s[i] && p[j] == s[j]);
                }
            }
            assert forall|i: int, j: int|
                0 <= i < out.len() && 0 <= j < out.len() && i != j implies out[i].slot()
                != out[j].slot() by {
                if i < prev.len() && j < prev.len() {
                    assert(out[i] == prev[i] && out[j] == prev[j]);
                } else if i < prev.len() {
                    let k = choose|k: int| 0 <= k < p.len() && prev[i] == #[trigger] p[k];
                    assert(out[i] == prev[i]);
                    assert(s[k] == p[k]);
                } else if j < prev.len() {
                    let k = choose|k: int| 0 <= k < p.len() && prev[j] == #[trigger] p[k];
                    assert(out[j] == prev[j]);
                    assert(s[k] == p[k]);
                }
            }
        }
        assert forall|j: int| 0 <= j < s.len() && s[j].domain != d implies out.contains(s[j]) by {
            if j < p.len() {
                assert(s[j] == p[j]);
                let k = choose|k: int| 0 <= k < prev.len() && prev[k] == p[j];
                assert(out[k] == prev[k]);
            } else {
                assert(out[out.len() - 1] == s[j]);
            }
        }
    }
}

/// The content collection: entries keyed by `domain` or `domain:sub_skill`,
/// keys unique, in order of first insertion.
#[derive(Debug)]
pub struct ContentIndex {
    pub entries: Vec<ContentIndexEntry>,
    /// Milliseconds since the Unix epoch.
    pub last_updated: i64,
}

impl ContentIndex {
    pub open spec fn entry_views(self) -> Seq<ContentEntryView> {
        entry_views(self.entries@)
    }

    pub open spec fn wf(self) -> bool {
        slots_unique(self.entry_views())
    }

    /// An empty collection.
    pub fn new() -> (r: Self)
        ensures
            r.entries@.len() == 0,
            r.wf(),
    {
        ContentIndex { entries: Vec::new(), last_updated: now_millis() }
    }

    /// Position of the entry with the given key.
    fn position(&self, key: &String) -> (r: Option<usize>)
        ensures
            r matches Some(i) ==> i < self.entries@.len() && self.entry_views()[i as int].key()
                == key@,
            r is None ==> forall|i: int|
                0 <= i < self.entries@.len() ==> self.entry_views()[i].key() != key@,
    {
        let mut i: usize = 0;
        while i < self.entries.len()
            invariant
                i <= self.entries@.len(),
                forall|j: int| 0 <= j < i ==> self.entry_views()[j].key() != key@,
            decreases self.entries@.len() - i,
        {
            let k = self.entries[i].key();
            proof {
                assert(self.entry_views()[i as int] == self.entries@[i as int]@);
            }
            if k == *key {
                return Some(i);
            }
            i = i + 1;
        }
        None
    }

    /// Position of the entry for the same document as `entry`.
    fn slot_position(&self, entry: &ContentIndexEntry) -> (r: Option<usize>)
        ensures
            r matches Some(i) ==> i < self.entries@.len() && self.entry_views()[i as int].slot()
                == entry@.slot(),
            r is None ==> forall|i: int|
                0 <= i < self.entries@.len() ==> self.entry_views()[i].slot() != entry@.slot(),
    {
        let mut i: usize = 0;
        while i < self.entries.len()
            invariant
                i <= self.entries@.len(),
                forall|j: int| 0 <= j < i ==> self.entry_views()[j].slot() != entry@.slot(),
            decreases self.entries@.len() - i,
        {
            proof {
                assert(self.entry_views()[i as int] == self.entries@[i as int]@);
            }
            if self.entries[i].same_slot(entry) {
                return Some(i);
            }
            i = i + 1;
        }
        None
    }

    /// Adds an entry, replacing the one for the same document.
    pub fn insert(&mut self, entry: ContentIndexEntry)
        requires
            old(self).wf(),
        ensures
            final(self).wf(),
            final(self).entry_views() == upsert(old(self).entry_views(), entry@),
    {
        let ghost e = entry@;
        let ghost before = self.entry_views();
        match self.slot_position(&entry) {
            Some(i) => {
                self.entries.remove(i);
                self.entries.insert(i, entry);
                proof {
                    let k = choose|j: int| 0 <= j < before.len() && before[j].slot() == e.slot();
                    if k != i {
                        assert(before[k].slot() != before[i as int].slot());
                    }
                    assert(k == i as int);
                    assert(self.entry_views() =~= before.update(i as int, e));
                }
            },
            None => {
                self.entries.push(entry);
                proof {
                    assert(self.entry_views() =~= before.push(e));
                }
            },
        }
        proof {
            lemma_upsert_unique(before, e);
        }
        self.last_updated = now_millis();
    }

    /// The entry with the given key.
    pub fn get(&self, key: &str) -> (r: Option<&ContentIndexEntry>)
        ensures
            r matches Some(e) ==> e@.key() == key@ && self.entries@.contains(*e),
            r is None ==> forall|i: int|
                0 <= i < self.entries@.len() ==> self.entry_views()[i].key() != key@,
    {
        let k = key.to_owned();
        match self.position(&k) {
            Some(i) => {
                proof {
                    assert(self.entry_views()[i as int] == self.entries@[i as int]@);
                }
                Some(&self.entries[i])
            },
            None => None,
        }
    }

    /// The entries of one domain, in order.
    pub fn get_domain_entries(&self, domain: &str) -> (r: Vec<&ContentIndexEntry>)
        ensures
            r@.len() == domain_count(self.entry_views(), domain@),
            forall|i: int| 0 <= i < r@.len() ==> (#[trigger] r@[i]).domain@ == domain@,
    {
        let d = domain.to_owned();
        let ghost ev = self.entry_views();
        let mut out: Vec<&ContentIndexEntry> = Vec::new();
        let mut i: usize = 0;
        proof {
            assert(ev.subrange(0, 0) =~= Seq::<ContentEntryView>::empty());
        }
        while i < self.entries.len()
            invariant
                i <= self.entries@.len(),
                ev == self.entry_views(),
                d@ == domain@,
                out@.len() == domain_count(ev.subrange(0, i as int), domain@),
                forall|j: int| 0 <= j < out@.len() ==> (#[trigger] out@[j]).domain@ == domain@,
            decreases self.entries@.len() - i,
        {
            proof {
                assert(ev.subrange(0, i + 1).drop_last() =~= ev.subrange(0, i as int));
                assert(ev[i as int] == self.entries@[i as int]@);
            }
            if self.entries[i].domain == d {
                out.push(&self.entries[i]);
            }
            i = i + 1;
        }
        proof {
            assert(ev.subrange(0, i as int) =~= ev);
        }
        out
    }

    /// Removes every entry of the domain.
    pub fn remove_domain(&mut self, domain: &str)
        requires
            old(self).wf(),
        ensures
            final(self).wf(),
            final(self).entry_views() == without_domain(old(self).entry_views(), domain@),
            final(self).last_updated == old(self).last_updated,
    {
        let d = domain.to_owned();
        let ghost ev = self.entry_views();
        let mut kept: Vec<ContentIndexEntry> = Vec::new();
        let mut i: usize = 0;
        proof {
            assert(ev.subrange(0, 0) =~= Seq::<ContentEntryView>::empty());
            assert(entry_views(kept@) =~= Seq::<ContentEntryView>::empty());
        }
        while i < self.entries.len()
            invariant
                i <= self.entries@.len(),
                ev == self.entry_views(),
                d@ == domain@,
                entry_views(kept@) == without_domain(ev.subrange(0, i as int), domain@),
            decreases self.entries@.len() - i,
        {
            proof {
                assert(ev.subrange(0, i + 1).drop_last() =~= ev.subrange(0, i as int));
                assert(ev[i as int] == self.entries@[i as int]@);
            }
            if self.entries[i].domain != d {
                let ghost before = entry_views(kept@);
                let e = self.entries[i].clone();
                kept.push(e);
                proof {
                    assert(entry_views(kept@) =~= before.push(ev[i as int]));
                }
            }
            i = i + 1;
        }
        proof {
            assert(ev.subrange(0, i as int) =~= ev);
            lemma_without_domain(ev, domain@);
        }
        self.entries = kept;
    }

    pub fn len(&self) -> (r: usize)
        ensures
            r == self.entries@.len(),
    {
        self.entries.len()
    }

    pub fn is_empty(&self) -> (r: bool)
        ensures
            r == (self.entries@.len() == 0),
    {
        self.entries.len() == 0
    }
}

/// Copies a list of manifests.
pub fn copy_metas(v: &Vec<SkillMeta>) -> (r: Vec<SkillMeta>)
    ensures
        meta_views(r@) == meta_views(v@),
{
    let mut out: Vec<SkillMeta> = Vec::new();
    let mut i: usize = 0;
    while i < v.len()
        invariant
            i <= v@.len(),
            out@.len() == i,
            meta_views(out@) == meta_views(v@.subrange(0, i as int)),
        decreases v@.len() - i,
    {
        let ghost before = out@;
        let c = v[i].clone();
        out.push(c);
        proof {
            let lhs = meta_views(out@);
            let rhs = meta_views(v@.subrange(0, i + 1));
            assert forall|j: int| 0 <= j < i + 1 implies lhs[j] == rhs[j] by {
                if j < i {
                    assert(out@[j] == before[j]);
                    assert(meta_views(before)[j] == before[j]@);
                    assert(meta_views(v@.subrange(0, i as int))[j] == v@[j]@);
                }
            }
            assert(lhs =~= rhs);
        }
        i = i + 1;
    }
    proof {
        assert(v@.subrange(0, i as int) =~= v@);
    }
    out
}

} // verus!
