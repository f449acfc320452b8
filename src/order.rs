//! Stable insertion order: the sequence that inserting each element, in turn,
//! before the first element it must precede yields.

use vstd::prelude::*;

verus! {

/// Where `x` goes in `s`: before the first element that `x` must precede.
pub open spec fn ins_pos<T>(s: Seq<T>, x: T, prec: spec_fn(T, T) -> bool) -> int
    decreases s.len(),
{
    if s.len() == 0 {
        0
    } else if prec(x, s[0]) {
        0
    } else {
        1 + ins_pos(s.drop_first(), x, prec)
    }
}

/// `s` stably sorted so that no element stands after one it must precede.
pub open spec fn sorted_by<T>(s: Seq<T>, prec: spec_fn(T, T) -> bool) -> Seq<T>
    decreases s.len(),
{
    if s.len() == 0 {
        s
    } else {
        let p = sorted_by(s.drop_last(), prec);
        p.insert(ins_pos(p, s.last(), prec), s.last())
    }
}

/// No element stands after one that it must precede.
pub open spec fn is_ordered<T>(s: Seq<T>, prec: spec_fn(T, T) -> bool) -> bool {
    forall|i: int, j: int| 0 <= i < j < s.len() ==> !prec(s[j], s[i])
}

/// `prec` is a strict order: transitive and asymmetric.
pub open spec fn is_strict<T>(prec: spec_fn(T, T) -> bool) -> bool {
    &&& forall|a: T, b: T, c: T| #[trigger] prec(a, b) && #[trigger] prec(b, c) ==> prec(a, c)
    &&& forall|a: T, b: T| #[trigger] prec(a, b) ==> !prec(b, a)
}

/// No two elements share a key.
pub open spec fn keys_unique<T, K>(s: Seq<T>, key: spec_fn(T) -> K) -> bool {
    forall|i: int, j: int| 0 <= i < s.len() && 0 <= j < s.len() && i != j ==> key(s[i]) != key(
        s[j],
    )
}

pub proof fn lemma_ins_pos<T>(s: Seq<T>, x: T, prec: spec_fn(T, T) -> bool, i: int)
    requires
        0 <= i <= s.len(),
        forall|j: int| 0 <= j < i ==> !prec(x, s[j]),
        i == s.len() || prec(x, s[i]),
    ensures
        ins_pos(s, x, prec) == i,
    decreases i,
{
    if i > 0 {
        let t = s.drop_first();
        assert forall|j: int| 0 <= j < i - 1 implies !prec(x, t[j]) by {
            assert(t[j] == s[j + 1]);
        }
        lemma_ins_pos(t, x, prec, i - 1);
    }
}

proof fn lemma_ins_pos_props<T>(s: Seq<T>, x: T, prec: spec_fn(T, T) -> bool)
    ensures
        0 <= ins_pos(s, x, prec) <= s.len(),
        forall|j: int| 0 <= j < ins_pos(s, x, prec) ==> !prec(x, s[j]),
        ins_pos(s, x, prec) == s.len() || prec(x, s[ins_pos(s, x, prec)]),
    decreases s.len(),
{
    if s.len() > 0 && !prec(x, s[0]) {
        let t = s.drop_first();
        lemma_ins_pos_props(t, x, prec);
        assert forall|j: int| 0 <= j < ins_pos(s, x, prec) implies !prec(x, s[j]) by {
            if j > 0 {
                assert(s[j] == t[j - 1]);
            }
        }
    }
}

/// Sorting keeps the length, takes every element from the input, and keeps
/// the elements' multiset.
pub proof fn lemma_sorted_by_elements<T>(s: Seq<T>, prec: spec_fn(T, T) -> bool)
    ensures
        sorted_by(s, prec).len() == s.len(),
        sorted_by(s, prec).to_multiset() == s.to_multiset(),
        forall|i: int|
            #![trigger sorted_by(s, prec)[i]]
            0 <= i < s.len() ==> exists|j: int| #![trigger s[j]]
                0 <= j < s.len() && sorted_by(s, prec)[i] == s[j],
    decreases s.len(),
{
    broadcast use vstd::seq_lib::group_to_multiset_ensures;

    if s.len() > 0 {
        let d = s.drop_last();
        let p = sorted_by(d, prec);
        lemma_sorted_by_elements(d, prec);
        lemma_ins_pos_props(p, s.last(), prec);
        let k = ins_pos(p, s.last(), prec);
        let out = p.insert(k, s.last());
        p.insert_ensures(k, s.last());
        assert(s =~= d.push(s.last()));
        vstd::seq_lib::to_multiset_build(d, s.last());
        assert forall|i: int| #![trigger out[i]] 0 <= i < s.len() implies exists|j: int|
            #![trigger s[j]]
            0 <= j < s.len() && out[i] == s[j] by {
            if i < k {
                let j = choose|j: int| 0 <= j < d.len() && p[i] == d[j];
                assert(out[i] == s[j]);
            } else if i == k {
                assert(out[i] == s[s.len() - 1]);
            } else {
                let j = choose|j: int| 0 <= j < d.len() && p[i - 1] == d[j];
                assert(out[i] == s[j]);
            }
        }
    }
}

/// Sorting by a strict order yields an ordered sequence.
pub proof fn lemma_sorted_by_ordered<T>(s: Seq<T>, prec: spec_fn(T, T) -> bool)
    requires
        is_strict(prec),
    ensures
        is_ordered(sorted_by(s, prec), prec),
    decreases s.len(),
{
    if s.len() > 0 {
        let d = s.drop_last();
        let p = sorted_by(d, prec);
        let x = s.last();
        lemma_sorted_by_ordered(d, prec);
        lemma_sorted_by_elements(d, prec);
        lemma_ins_pos_props(p, x, prec);
        let k = ins_pos(p, x, prec);
        let out = p.insert(k, x);
        assert forall|i: int, j: int| 0 <= i < j < out.len() implies !prec(out[j], out[i]) by {
            if j < k {
                assert(out[i] == p[i] && out[j] == p[j]);
            } else if j == k {
                assert(out[i] == p[i]);
            } else if i == k {
                assert(out[j] == p[j - 1]);
                if prec(p[j - 1], x) {
                    assert(prec(x, p[k]));
                    if j - 1 == k {
                        assert(!prec(p[k], x));
                    } else {
                        assert(prec(p[j - 1], p[k]));
                        assert(!prec(p[j - 1], p[k]));
                    }
                }
            } else if i < k {
                assert(out[i] == p[i] && out[j] == p[j - 1]);
            } else {
                assert(out[i] == p[i - 1] && out[j] == p[j - 1]);
            }
        }
    }
}

/// Sorting keeps the keys of the elements apart when the input does.
pub proof fn lemma_sorted_by_keys<T, K>(
    s: Seq<T>,
    prec: spec_fn(T, T) -> bool,
    key: spec_fn(T) -> K,
)
    requires
        keys_unique(s, key),
    ensures
        keys_unique(sorted_by(s, prec), key),
    decreases s.len(),
{
    if s.len() > 0 {
        let d = s.drop_last();
        let p = sorted_by(d, prec);
        let x = s.last();
        assert(keys_unique(d, key)) by {
            assert forall|i: int, j: int|
                0 <= i < d.len() && 0 <= j < d.len() && i != j implies key(d[i]) != key(d[j]) by {
                assert(d[i] == s[i] && d[j] == s[j]);
            }
        }
        lemma_sorted_by_keys(d, prec, key);
        lemma_sorted_by_elements(d, prec);
        lemma_ins_pos_props(p, x, prec);
        let k = ins_pos(p, x, prec);
        let out = p.insert(k, x);
        assert forall|m: int| 0 <= m < p.len() implies key(p[m]) != key(x) by {
            let j = choose|j: int| 0 <= j < d.len() && p[m] == d[j];
            assert(d[j] == s[j]);
            assert(s.len() - 1 != j);
        }
        assert forall|i: int, j: int|
            0 <= i < out.len() && 0 <= j < out.len() && i != j implies key(out[i]) != key(
            out[j],
        ) by {
            if i < k {
                assert(out[i] == p[i]);
            } else if i > k {
                assert(out[i] == p[i - 1]);
            }
            if j < k {
                assert(out[j] == p[j]);
            } else if j > k {
                assert(out[j] == p[j - 1]);
            }
        }
    }
}

/// `a` comes strictly before `b` in lexicographic order of code points,
/// which is the order of their UTF-8 bytes.
pub open spec fn lex_lt(a: Seq<char>, b: Seq<char>) -> bool
    decreases a.len(),
{
    if b.len() == 0 {
        false
    } else if a.len() == 0 {
        true
    } else if (a[0] as u32) < (b[0] as u32) {
        true
    } else if a[0] == b[0] {
        lex_lt(a.drop_first(), b.drop_first())
    } else {
        false
    }
}

pub proof fn lemma_lex_trans(a: Seq<char>, b: Seq<char>, c: Seq<char>)
    requires
        lex_lt(a, b),
        lex_lt(b, c),
    ensures
        lex_lt(a, c),
    decreases a.len(),
{
    if a.len() > 0 && b.len() > 0 && c.len() > 0 && a[0] == b[0] && b[0] == c[0] {
        lemma_lex_trans(a.drop_first(), b.drop_first(), c.drop_first());
    }
}

pub proof fn lemma_lex_asym(a: Seq<char>, b: Seq<char>)
    requires
        lex_lt(a, b),
    ensures
        !lex_lt(b, a),
    decreases a.len(),
{
    if a.len() > 0 && b.len() > 0 && a[0] == b[0] {
        lemma_lex_asym(a.drop_first(), b.drop_first());
    }
}

/// Decides `lex_lt(a, b)`.
pub fn lex_less(a: &Vec<char>, b: &Vec<char>) -> (r: bool)
    ensures
        r == lex_lt(a@, b@),
{
    let mut i: usize = 0;
    proof {
        assert(a@.subrange(0, a@.len() as int) =~= a@);
        assert(b@.subrange(0, b@.len() as int) =~= b@);
    }
    while i < a.len() && i < b.len() && a[i] == b[i]
        invariant
            i <= a@.len(),
            i <= b@.len(),
            lex_lt(a@.subrange(i as int, a@.len() as int), b@.subrange(i as int, b@.len() as int))
                == lex_lt(a@, b@),
        decreases a@.len() - i,
    {
        proof {
            let x = a@.subrange(i as int, a@.len() as int);
            let y = b@.subrange(i as int, b@.len() as int);
            assert(x.drop_first() =~= a@.subrange(i + 1, a@.len() as int));
            assert(y.drop_first() =~= b@.subrange(i + 1, b@.len() as int));
        }
        i = i + 1;
    }
    let ghost x = a@.subrange(i as int, a@.len() as int);
    let ghost y = b@.subrange(i as int, b@.len() as int);
    if i == b.len() {
        false
    } else if i == a.len() {
        true
    } else {
        proof {
            assert(x[0] == a@[i as int]);
            assert(y[0] == b@[i as int]);
        }
        (a[i] as u32) < (b[i] as u32)
    }
}

} // verus!
