//! Usage statistics: tool-call and skill-load counters, a bounded log of
//! recent searches, and uptime.

use vstd::prelude::*;
use vstd::string::StringExecFns;
use crate::index::now_millis;
use crate::meta::strs;
use crate::order::{is_strict, lemma_ins_pos, lemma_sorted_by_ordered, sorted_by};
use crate::validation::{decimal, decimal_string};

verus! {

/// How many searches the log keeps.
pub const MAX_SEARCHES: usize = 100;

/// A named counter.
#[derive(Debug)]
pub struct Counter {
    pub name: String,
    pub count: u64,
}

/// What a counter holds.
pub struct CounterView {
    pub name: Seq<char>,
    pub count: u64,
}

impl View for Counter {
    type V = CounterView;

    open spec fn view(&self) -> CounterView {
        CounterView { name: self.name@, count: self.count }
    }
}

impl Clone for Counter {
    fn clone(&self) -> (r: Self)
        ensures
            r@ == self@,
    {
        Counter { name: self.name.clone(), count: self.count }
    }
}

pub open spec fn counter_views(v: Seq<Counter>) -> Seq<CounterView> {
    v.map_values(|c: Counter| c@)
}

/// No two counters share a name.
pub open spec fn names_distinct(s: Seq<CounterView>) -> bool {
    forall|i: int, j: int| 0 <= i < s.len() && 0 <= j < s.len() && i != j ==> s[i].name != s[j].name
}

/// One more for `name`: its counter goes up by one (staying at the largest
/// count once there), or a new counter at one is appended.
pub open spec fn bumped(s: Seq<CounterView>, name: Seq<char>) -> Seq<CounterView> {
    if exists|i: int| 0 <= i < s.len() && s[i].name == name {
        let i = choose|i: int| 0 <= i < s.len() && s[i].name == name;
        s.update(
            i,
            CounterView {
                name,
                count: if s[i].count < u64::MAX {
                    (s[i].count + 1) as u64
                } else {
                    s[i].count
                },
            },
        )
    } else {
        s.push(CounterView { name, count: 1 })
    }
}

/// The count of `name`, zero without a counter.
pub open spec fn count_of(s: Seq<CounterView>, name: Seq<char>) -> nat {
    if exists|i: int| 0 <= i < s.len() && s[i].name == name {
        s[choose|i: int| 0 <= i < s.len() && s[i].name == name].count as nat
    } else {
        0
    }
}

/// All counts added up.
pub open spec fn total(s: Seq<CounterView>) -> nat
    decreases s.len(),
{
    if s.len() == 0 {
        0
    } else {
        total(s.drop_last()) + s.last().count as nat
    }
}

fn bump(v: &mut Vec<Counter>, name: &str)
    requires
        names_distinct(counter_views(old(v)@)),
    ensures
        counter_views(final(v)@) == bumped(counter_views(old(v)@), name@),
        names_distinct(counter_views(final(v)@)),
{
    let target = name.to_owned();
    let ghost s = counter_views(v@);
    let mut i: usize = 0;
    while i < v.len()
        invariant
            i <= v@.len(),
            s == counter_views(v@),
            s == counter_views(old(v)@),
            names_distinct(s),
            target@ == name@,
            forall|j: int| 0 <= j < i ==> s[j].name != name@,
        decreases v@.len() - i,
    {
        proof {
            assert(s[i as int] == v@[i as int]@);
        }
        if v[i].name == target {
            let c = v[i].count;
            let n = if c < u64::MAX {
                c + 1
            } else {
                c
            };
            v.remove(i);
            v.insert(i, Counter { name: target, count: n });
            proof {
                let k = choose|k: int| 0 <= k < s.len() && s[k].name == name@;
                if k != i {
                    assert(s[k].name != s[i as int].name);
                }
                assert(k == i as int);
                assert(s[i as int].count == c);
                let t = s.update(i as int, CounterView { name: name@, count: n });
                assert(counter_views(v@) =~= t);
                assert(bumped(s, name@) == t);
                assert forall|a: int, b: int|
                    0 <= a < t.len() && 0 <= b < t.len() && a != b implies t[a].name != t[b].name by {
                    if a != i && b != i {
                        assert(s[a].name != s[b].name);
                    } else if a == i {
                        assert(s[b].name != s[i as int].name);
                    } else {
                        assert(s[a].name != s[i as int].name);
                    }
                }
            }
            return;
        }
        i = i + 1;
    }
    v.push(Counter { name: target, count: 1 });
    proof {
        let t = s.push(CounterView { name: name@, count: 1 });
        assert(counter_views(v@) =~= t);
        assert forall|a: int, b: int|
            0 <= a < t.len() && 0 <= b < t.len() && a != b implies t[a].name != t[b].name by {
            if a < s.len() && b < s.len() {
                assert(s[a].name != s[b].name);
            }
        }
    }
}

/// One logged search.
#[derive(Debug)]
pub struct SearchEntry {
    pub query: String,
    /// Milliseconds since the Unix epoch.
    pub timestamp: i64,
    pub result_count: usize,
}

impl Clone for SearchEntry {
    fn clone(&self) -> (r: Self)
        ensures
            r.query@ == self.query@,
            r.timestamp == self.timestamp,
            r.result_count == self.result_count,
    {
        SearchEntry { query: self.query.clone(), timestamp: self.timestamp, result_count: self.result_count }
    }
}

impl SearchEntry {
    /// An entry stamped with the current time.
    pub fn new(query: String, result_count: usize) -> (r: Self)
        ensures
            r.query == query,
            r.result_count == result_count,
    {
        SearchEntry { query, timestamp: now_millis(), result_count }
    }
}

/// Counters of a running service.
#[derive(Debug)]
pub struct UsageStats {
    pub tool_calls: Vec<Counter>,
    pub skill_loads: Vec<Counter>,
    pub searches: Vec<SearchEntry>,
    /// Milliseconds since the Unix epoch.
    pub start_time: i64,
}

/// Counters ranked by count, highest first, equal counts in their order.
pub open spec fn ranked_counters(s: Seq<CounterView>) -> Seq<CounterView> {
    sorted_by(s, |a: CounterView, b: CounterView| a.count > b.count)
}

/// Seconds as the largest two units: `42s`, `3m 5s`, `2h 0m`, `1d 4h`.
pub open spec fn uptime_text(secs: nat) -> Seq<char> {
    if secs < 60 {
        decimal(secs) + "s"@
    } else if secs < 3600 {
        decimal(secs / 60) + "m "@ + decimal(secs % 60) + "s"@
    } else if secs < 86400 {
        decimal(secs / 3600) + "h "@ + decimal((secs % 3600) / 60) + "m"@
    } else {
        decimal(secs / 86400) + "d "@ + decimal((secs % 86400) / 3600) + "h"@
    }
}

fn text(s: &str) -> (r: String)
    ensures
        r@ == s@,
{
    String::from_str(s)
}

/// Formats an uptime in seconds.
pub fn format_uptime(secs: u64) -> (r: String)
    ensures
        r@ == uptime_text(secs as nat),
{
    if secs < 60 {
        decimal_string(secs).concat("s")
    } else if secs < 3600 {
        decimal_string(secs / 60).concat("m ").concat(
            decimal_string(secs % 60).as_str(),
        ).concat("s")
    } else if secs < 86400 {
        decimal_string(secs / 3600).concat("h ").concat(
            decimal_string((secs % 3600) / 60).as_str(),
        ).concat("m")
    } else {
        let days = secs / 86400;
        decimal_string(days).concat("d ").concat(
            decimal_string((secs % 86400) / 3600).as_str(),
        ).concat("h")
    }
}

impl UsageStats {
    pub open spec fn wf(self) -> bool {
        &&& names_distinct(counter_views(self.tool_calls@))
        &&& names_distinct(counter_views(self.skill_loads@))
        &&& self.searches@.len() <= MAX_SEARCHES
    }

    /// Empty counters, started now.
    pub fn new() -> (r: Self)
        ensures
            r.wf(),
            r.tool_calls@.len() == 0,
            r.skill_loads@.len() == 0,
            r.searches@.len() == 0,
    {
        UsageStats {
            tool_calls: Vec::new(),
            skill_loads: Vec::new(),
            searches: Vec::new(),
            start_time: now_millis(),
        }
    }

    pub fn record_tool_call(&mut self, tool_name: &str)
        requires
            old(self).wf(),
        ensures
            final(self).wf(),
            counter_views(final(self).tool_calls@) == bumped(
                counter_views(old(self).tool_calls@),
                tool_name@,
            ),
            final(self).skill_loads == old(self).skill_loads,
            final(self).searches == old(self).searches,
    {
        bump(&mut self.tool_calls, tool_name);
    }

    pub fn record_skill_load(&mut self, skill_name: &str)
        requires
            old(self).wf(),
        ensures
            final(self).wf(),
            counter_views(final(self).skill_loads@) == bumped(
                counter_views(old(self).skill_loads@),
                skill_name@,
            ),
            final(self).tool_calls == old(self).tool_calls,
            final(self).searches == old(self).searches,
    {
        bump(&mut self.skill_loads, skill_name);
    }

    /// Logs a search, keeping only the most recent ones.
    pub fn record_search(&mut self, query: String, result_count: usize)
        requires
            old(self).wf(),
        ensures
            final(self).wf(),
            final(self).searches@.len() > 0,
            final(self).searches@.drop_last() == if old(self).searches@.len() + 1 > MAX_SEARCHES {
                old(self).searches@.drop_first()
            } else {
                old(self).searches@
            },
            final(self).searches@.last().query == query,
            final(self).searches@.last().result_count == result_count,
            final(self).tool_calls == old(self).tool_calls,
            final(self).skill_loads == old(self).skill_loads,
    {
        let ghost before = self.searches@;
        self.searches.push(SearchEntry::new(query, result_count));
        if self.searches.len() > MAX_SEARCHES {
            self.searches.remove(0);
            proof {
                assert(self.searches@.drop_last() =~= before.drop_first());
            }
        } else {
            proof {
                assert(self.searches@.drop_last() =~= before);
            }
        }
    }

    /// The count of one tool.
    pub fn tool_count(&self, name: &str) -> (r: u64)
        requires
            self.wf(),
        ensures
            r == count_of(counter_views(self.tool_calls@), name@),
    {
        find_count(&self.tool_calls, name)
    }

    /// The count of one skill.
    pub fn skill_count(&self, name: &str) -> (r: u64)
        requires
            self.wf(),
        ensures
            r == count_of(counter_views(self.skill_loads@), name@),
    {
        find_count(&self.skill_loads, name)
    }

    pub fn total_tool_calls(&self) -> (r: u128)
        ensures
            r == total(counter_views(self.tool_calls@)),
    {
        sum_counts(&self.tool_calls)
    }

    pub fn total_skill_loads(&self) -> (r: u128)
        ensures
            r == total(counter_views(self.skill_loads@)),
    {
        sum_counts(&self.skill_loads)
    }

    /// Whole seconds from the start to `now`; none before the start.
    pub open spec fn uptime_secs(self, now: i64) -> nat {
        if now >= self.start_time {
            ((now as int - self.start_time as int) / 1000) as nat
        } else {
            0
        }
    }

    /// Seconds since the start, at the given time; none before the start.
    pub fn uptime_at(&self, now: i64) -> (r: u64)
        ensures
            r == self.uptime_secs(now),
    {
        if now >= self.start_time {
            let d = (now as i128 - self.start_time as i128) / 1000;
            d as u64
        } else {
            0
        }
    }

    /// Uptime, as text, at whatever time the clock gives.
    pub fn uptime_string(&self) -> (r: String)
        ensures
            exists|now: i64| r@ == uptime_text(#[trigger] self.uptime_secs(now)),
    {
        let now = now_millis();
        let r = format_uptime(self.uptime_at(now));
        proof {
            assert(r@ == uptime_text(self.uptime_secs(now)));
        }
        r
    }

    /// The most used tools, highest count first.
    pub fn top_tools(&self, limit: usize) -> (r: Vec<Counter>)
        ensures
            counter_views(r@) == crate::search::limited(
                ranked_counters(counter_views(self.tool_calls@)),
                Some(limit),
            ),
            forall|i: int, j: int| 0 <= i < j < r@.len() ==> r@[j].count <= r@[i].count,
    {
        top(&self.tool_calls, limit)
    }

    /// The most loaded skills, highest count first.
    pub fn top_skills(&self, limit: usize) -> (r: Vec<Counter>)
        ensures
            counter_views(r@) == crate::search::limited(
                ranked_counters(counter_views(self.skill_loads@)),
                Some(limit),
            ),
            forall|i: int, j: int| 0 <= i < j < r@.len() ==> r@[j].count <= r@[i].count,
    {
        top(&self.skill_loads, limit)
    }

    /// The latest searches, newest first.
    pub fn recent_searches(&self, limit: usize) -> (r: Vec<SearchEntry>)
        ensures
            r@.len() == if limit < self.searches@.len() {
                limit as nat
            } else {
                self.searches@.len()
            },
            forall|i: int|
                0 <= i < r@.len() ==> (#[trigger] r@[i]).query@ == self.searches@[self.searches@.len()
                    - 1 - i].query@,
    {
        let mut out: Vec<SearchEntry> = Vec::new();
        let n = self.searches.len();
        let mut i: usize = 0;
        while i < n && i < limit
            invariant
                n == self.searches@.len(),
                i <= n,
                i <= limit,
                out@.len() == i,
                forall|k: int|
                    0 <= k < i ==> (#[trigger] out@[k]).query@ == self.searches@[n - 1 - k].query@,
            decreases n - i,
        {
            out.push(self.searches[n - 1 - i].clone());
            i = i + 1;
        }
        out
    }
}

fn find_count(v: &Vec<Counter>, name: &str) -> (r: u64)
    requires
        names_distinct(counter_views(v@)),
    ensures
        r == count_of(counter_views(v@), name@),
{
    let target = name.to_owned();
    let ghost s = counter_views(v@);
    let mut i: usize = 0;
    while i < v.len()
        invariant
            i <= v@.len(),
            s == counter_views(v@),
            names_distinct(s),
            target@ == name@,
            forall|j: int| 0 <= j < i ==> s[j].name != name@,
        decreases v@.len() - i,
    {
        proof {
            assert(s[i as int] == v@[i as int]@);
        }
        if v[i].name == target {
            proof {
                let k = choose|k: int| 0 <= k < s.len() && s[k].name == name@;
                if k != i {
                    assert(s[k].name != s[i as int].name);
                }
            }
            return v[i].count;
        }
        i = i + 1;
    }
    0
}

fn sum_counts(v: &Vec<Counter>) -> (r: u128)
    ensures
        r == total(counter_views(v@)),
{
    let ghost s = counter_views(v@);
    let mut t: u128 = 0;
    let mut i: usize = 0;
    let n = v.len();
    proof {
        assert(s.subrange(0, 0) =~= Seq::<CounterView>::empty());
    }
    while i < n
        invariant
            n == v@.len(),
            i <= n,
            s == counter_views(v@),
            t == total(s.subrange(0, i as int)),
            t <= i * (u64::MAX as int),
        decreases n - i,
    {
        proof {
            assert(s.subrange(0, i + 1).drop_last() =~= s.subrange(0, i as int));
            assert(s[i as int] == v@[i as int]@);
            assert((i + 1) * (u64::MAX as int) <= (usize::MAX as int) * (u64::MAX as int)) by (nonlinear_arith)
                requires
                    i + 1 <= usize::MAX,
            ;
            assert((usize::MAX as int) * (u64::MAX as int) <= u128::MAX) by (nonlinear_arith)
                requires
                    usize::MAX <= u64::MAX,
            ;
            assert(i * (u64::MAX as int) + u64::MAX == (i + 1) * (u64::MAX as int)) by (nonlinear_arith);
        }
        t = t + v[i].count as u128;
        i = i + 1;
    }
    proof {
        assert(s.subrange(0, i as int) =~= s);
    }
    t
}

proof fn lemma_count_order_strict()
    ensures
        is_strict(|a: CounterView, b: CounterView| a.count > b.count),
{
}

fn top(v: &Vec<Counter>, limit: usize) -> (r: Vec<Counter>)
    ensures
        counter_views(r@) == crate::search::limited(ranked_counters(counter_views(v@)), Some(limit)),
        forall|i: int, j: int| 0 <= i < j < r@.len() ==> r@[j].count <= r@[i].count,
{
    let ghost prec = |a: CounterView, b: CounterView| a.count > b.count;
    let ghost input = counter_views(v@);
    let mut out: Vec<Counter> = Vec::new();
    let mut i: usize = 0;
    proof {
        assert(input.subrange(0, 0) =~= Seq::<CounterView>::empty());
        assert(counter_views(out@) =~= sorted_by(input.subrange(0, 0), prec));
    }
    while i < v.len()
        invariant
            i <= v@.len(),
            input == counter_views(v@),
            prec == (|a: CounterView, b: CounterView| a.count > b.count),
            counter_views(out@) == sorted_by(input.subrange(0, i as int), prec),
        decreases v@.len() - i,
    {
        let x = v[i].clone();
        proof {
            assert(input[i as int] == v@[i as int]@);
        }
        let mut k: usize = 0;
        while k < out.len() && !(x.count > out[k].count)
            invariant
                k <= out@.len(),
                prec == (|a: CounterView, b: CounterView| a.count > b.count),
                forall|j: int| 0 <= j < k ==> !prec(x@, counter_views(out@)[j]),
            decreases out@.len() - k,
        {
            proof {
                assert(counter_views(out@)[k as int] == out@[k as int]@);
            }
            k = k + 1;
        }
        let ghost before = counter_views(out@);
        proof {
            if k < out@.len() {
                assert(before[k as int] == out@[k as int]@);
            }
            lemma_ins_pos(before, x@, prec, k as int);
            let sub = input.subrange(0, i + 1);
            assert(sub.drop_last() =~= input.subrange(0, i as int));
            assert(sub.last() == x@);
        }
        out.insert(k, x);
        proof {
            assert(counter_views(out@) =~= before.insert(k as int, x@));
        }
        i = i + 1;
    }
    proof {
        assert(input.subrange(0, i as int) =~= input);
    }
    let ghost all = counter_views(out@);
    proof {
        lemma_count_order_strict();
        lemma_sorted_by_ordered(input, prec);
    }
    out.truncate(limit);
    proof {
        assert(counter_views(out@) =~= crate::search::limited(all, Some(limit)));
        assert forall|i: int, j: int| 0 <= i < j < out@.len() implies out@[j].count <= out@[i].count by {
            assert(counter_views(out@)[i] == out@[i]@);
            assert(counter_views(out@)[j] == out@[j]@);
            assert(!prec(all[j], all[i]));
        }
    }
    out
}

} // verus!
