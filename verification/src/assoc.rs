//! Ordered text-keyed tables: a `Vec<(String, V)>` kept sorted by key with no key twice,
//! the shape of the engine's maps (the index, the branch list, a commit tree).

use crate::text::{
    lemma_lex_asymmetric, lemma_lex_irreflexive, lemma_lex_transitive, lemma_text_total, str_eq,
    str_less, text_less,
};
use vstd::prelude::*;

verus! {

/// Whether the keys of `s` strictly increase (so no key occurs twice).
pub open spec fn keys_sorted<V>(s: Seq<(String, V)>) -> bool {
    forall|i: int, j: int| 0 <= i < j < s.len() ==> text_less(#[trigger] s[i].0@, #[trigger] s[j].0@)
}

/// The value stored under `k`, if any.
pub open spec fn table_get<V>(s: Seq<(String, V)>, k: Seq<char>) -> Option<V>
    decreases s.len(),
{
    if s.len() == 0 {
        None
    } else if s[0].0@ == k {
        Some(s[0].1)
    } else {
        table_get(s.skip(1), k)
    }
}

/// `s` with `(k, v)` stored: replacing the entry under `k`, or inserted in key order.
pub open spec fn table_put<V>(s: Seq<(String, V)>, k: String, v: V) -> Seq<(String, V)>
    decreases s.len(),
{
    if s.len() == 0 {
        seq![(k, v)]
    } else if s[0].0@ == k@ {
        seq![(k, v)] + s.skip(1)
    } else if text_less(k@, s[0].0@) {
        seq![(k, v)] + s
    } else {
        seq![s[0]] + table_put(s.skip(1), k, v)
    }
}

/// `s` without the entry under `k`.
pub open spec fn table_del<V>(s: Seq<(String, V)>, k: Seq<char>) -> Seq<(String, V)>
    decreases s.len(),
{
    if s.len() == 0 {
        s
    } else if s[0].0@ == k {
        s.skip(1)
    } else {
        seq![s[0]] + table_del(s.skip(1), k)
    }
}

/// Whether `k` is a key of `s`.
pub open spec fn table_has<V>(s: Seq<(String, V)>, k: Seq<char>) -> bool {
    table_get(s, k) is Some
}

pub proof fn lemma_text_less_irreflexive(a: Seq<char>)
    ensures
        !text_less(a, a),
{
    lemma_lex_irreflexive(vstd::utf8::encode_utf8(a));
}

pub proof fn lemma_text_less_transitive(a: Seq<char>, b: Seq<char>, c: Seq<char>)
    requires
        text_less(a, b),
        text_less(b, c),
    ensures
        text_less(a, c),
{
    lemma_lex_transitive(
        vstd::utf8::encode_utf8(a),
        vstd::utf8::encode_utf8(b),
        vstd::utf8::encode_utf8(c),
    );
}

pub proof fn lemma_text_less_asymmetric(a: Seq<char>, b: Seq<char>)
    requires
        text_less(a, b),
    ensures
        !text_less(b, a),
        a != b,
{
    lemma_lex_asymmetric(vstd::utf8::encode_utf8(a), vstd::utf8::encode_utf8(b));
    lemma_text_less_irreflexive(a);
}

/// In a sorted table, an entry's key is found at its own position.
pub proof fn lemma_table_get_at<V>(s: Seq<(String, V)>, i: int)
    requires
        keys_sorted(s),
        0 <= i < s.len(),
    ensures
        table_get(s, s[i].0@) == Some(s[i].1),
    decreases i,
{
    if i > 0 {
        assert(text_less(s[0].0@, s[i].0@));
        lemma_text_less_asymmetric(s[0].0@, s[i].0@);
        let t = s.skip(1);
        assert forall|a: int, b: int| 0 <= a < b < t.len() implies text_less(
            #[trigger] t[a].0@,
            #[trigger] t[b].0@,
        ) by {
            assert(t[a] == s[a + 1] && t[b] == s[b + 1]);
        }
        assert(t[i - 1] == s[i]);
        lemma_table_get_at(t, i - 1);
    }
}

/// A key that no entry carries is not found.
pub proof fn lemma_table_get_absent<V>(s: Seq<(String, V)>, k: Seq<char>)
    requires
        forall|i: int| 0 <= i < s.len() ==> (#[trigger] s[i]).0@ != k,
    ensures
        table_get(s, k) is None,
    decreases s.len(),
{
    if s.len() > 0 {
        let t = s.skip(1);
        assert forall|i: int| 0 <= i < t.len() implies (#[trigger] t[i]).0@ != k by {
            assert(t[i] == s[i + 1]);
        }
        lemma_table_get_absent(t, k);
    }
}

/// A found key is carried by some entry.
pub proof fn lemma_table_get_some<V>(s: Seq<(String, V)>, k: Seq<char>)
    requires
        table_get(s, k) is Some,
    ensures
        exists|i: int| 0 <= i < s.len() && (#[trigger] s[i]).0@ == k && s[i].1 == table_get(s, k)->0,
    decreases s.len(),
{
    if s[0].0@ != k {
        let t = s.skip(1);
        lemma_table_get_some(t, k);
        let i = choose|i: int| 0 <= i < t.len() && (#[trigger] t[i]).0@ == k && t[i].1 == table_get(t, k)->0;
        assert(s[i + 1] == t[i]);
    }
}

/// Position of the entry under `k`.
pub fn table_find<V>(s: &Vec<(String, V)>, k: &str) -> (r: Option<usize>)
    requires
        keys_sorted(s@),
    ensures
        match r {
            Some(i) => i < s.len() && s@[i as int].0@ == k@ && table_get(s@, k@) == Some(
                s@[i as int].1,
            ),
            None => table_get(s@, k@) is None,
        },
{
    let mut i: usize = 0;
    while i < s.len()
        invariant
            i <= s.len(),
            keys_sorted(s@),
            forall|j: int| 0 <= j < i ==> (#[trigger] s@[j]).0@ != k@,
        decreases s.len() - i,
    {
        if str_eq(s[i].0.as_str(), k) {
            proof {
                lemma_table_get_at(s@, i as int);
            }
            return Some(i);
        }
        i = i + 1;
    }
    proof {
        lemma_table_get_absent(s@, k@);
    }
    None
}

proof fn lemma_put_split<V>(s: Seq<(String, V)>, k: String, v: V, i: int)
    requires
        0 <= i <= s.len(),
        forall|j: int| 0 <= j < i ==> text_less((#[trigger] s[j]).0@, k@),
    ensures
        table_put(s, k, v) == s.take(i) + table_put(s.skip(i), k, v),
    decreases i,
{
    if i == 0 {
        assert(s.skip(0) =~= s);
        assert(s.take(0) + table_put(s, k, v) =~= table_put(s, k, v));
    } else {
        let t = s.skip(1);
        assert forall|j: int| 0 <= j < i - 1 implies text_less((#[trigger] t[j]).0@, k@) by {
            assert(t[j] == s[j + 1]);
        }
        lemma_put_split(t, k, v, i - 1);
        lemma_text_less_asymmetric(s[0].0@, k@);
        assert(t.skip(i - 1) =~= s.skip(i));
        assert(s.take(i) =~= seq![s[0]] + t.take(i - 1));
    }
}

/// Store `(k, v)`: replace the entry under `k`, or insert it in key order.
pub fn table_insert<V>(s: &mut Vec<(String, V)>, k: String, v: V)
    requires
        keys_sorted(old(s)@),
    ensures
        final(s)@ == table_put(old(s)@, k, v),
        keys_sorted(final(s)@),
{
    let mut i: usize = 0;
    while i < s.len() && str_less(s[i].0.as_str(), k.as_str())
        invariant
            i <= s.len(),
            s@ == old(s)@,
            keys_sorted(s@),
            forall|j: int| 0 <= j < i ==> text_less((#[trigger] s@[j]).0@, k@),
        decreases s.len() - i,
    {
        i = i + 1;
    }
    proof {
        lemma_put_split(s@, k, v, i as int);
    }
    let ghost old_s = s@;
    if i < s.len() && str_eq(s[i].0.as_str(), k.as_str()) {
        proof {
            let t = old_s.skip(i as int);
            assert(t[0] == old_s[i as int]);
            assert(t.skip(1) =~= old_s.skip(i + 1));
        }
        s.set(i, (k, v));
        proof {
            assert(s@ =~= old_s.take(i as int) + (seq![(k, v)] + old_s.skip(i + 1)));
            assert forall|a: int, b: int| 0 <= a < b < s@.len() implies text_less(
                #[trigger] s@[a].0@,
                #[trigger] s@[b].0@,
            ) by {
                if a != i && b != i {
                    assert(text_less(old_s[a].0@, old_s[b].0@));
                } else if a == i {
                    assert(text_less(old_s[i as int].0@, old_s[b].0@));
                } else {
                    assert(text_less(old_s[a].0@, old_s[i as int].0@));
                }
            }
        }
    } else {
        proof {
            if i < old_s.len() {
                lemma_text_total(old_s[i as int].0@, k@);
                let t = old_s.skip(i as int);
                assert(t[0] == old_s[i as int]);
            } else {
                assert(old_s.skip(i as int) =~= Seq::<(String, V)>::empty());
            }
        }
        s.insert(i, (k, v));
        proof {
            if i < old_s.len() {
                assert(s@ =~= old_s.take(i as int) + (seq![(k, v)] + old_s.skip(i as int)));
            } else {
                assert(s@ =~= old_s.take(i as int) + seq![(k, v)]);
            }
            assert forall|a: int, b: int| 0 <= a < b < s@.len() implies text_less(
                #[trigger] s@[a].0@,
                #[trigger] s@[b].0@,
            ) by {
                if b < i {
                    assert(s@[a] == old_s[a] && s@[b] == old_s[b]);
                } else if b == i {
                    assert(s@[a] == old_s[a]);
                } else if a == i {
                    assert(s@[b] == old_s[b - 1]);
                    if b - 1 > i {
                        assert(text_less(old_s[i as int].0@, old_s[b - 1].0@));
                        lemma_text_less_transitive(k@, old_s[i as int].0@, old_s[b - 1].0@);
                    }
                } else if a < i {
                    assert(s@[a] == old_s[a] && s@[b] == old_s[b - 1]);
                    assert(text_less(old_s[a].0@, old_s[b - 1].0@));
                } else {
                    assert(s@[a] == old_s[a - 1] && s@[b] == old_s[b - 1]);
                }
            }
        }
    }
}

proof fn lemma_del_split<V>(s: Seq<(String, V)>, k: Seq<char>, i: int)
    requires
        0 <= i <= s.len(),
        forall|j: int| 0 <= j < i ==> (#[trigger] s[j]).0@ != k,
    ensures
        table_del(s, k) == s.take(i) + table_del(s.skip(i), k),
    decreases i,
{
    if i == 0 {
        assert(s.skip(0) =~= s);
        assert(s.take(0) + table_del(s, k) =~= table_del(s, k));
    } else {
        let t = s.skip(1);
        assert forall|j: int| 0 <= j < i - 1 implies (#[trigger] t[j]).0@ != k by {
            assert(t[j] == s[j + 1]);
        }
        lemma_del_split(t, k, i - 1);
        assert(t.skip(i - 1) =~= s.skip(i));
        assert(s.take(i) =~= seq![s[0]] + t.take(i - 1));
    }
}

/// Remove the entry under `k`, handing back its value.
pub fn table_remove<V>(s: &mut Vec<(String, V)>, k: &str) -> (r: Option<V>)
    requires
        keys_sorted(old(s)@),
    ensures
        r == table_get(old(s)@, k@),
        final(s)@ == table_del(old(s)@, k@),
        keys_sorted(final(s)@),
{
    let ghost old_s = s@;
    match table_find(s, k) {
        None => {
            proof {
                assert forall|j: int| 0 <= j < old_s.len() implies (#[trigger] old_s[j]).0@
                    != k@ by {
                    if old_s[j].0@ == k@ {
                        lemma_table_get_at(old_s, j);
                    }
                }
                lemma_del_split(old_s, k@, old_s.len() as int);
                assert(old_s.skip(old_s.len() as int) =~= Seq::<(String, V)>::empty());
                assert(old_s.take(old_s.len() as int) =~= old_s);
            }
            None
        },
        Some(i) => {
            proof {
                assert forall|j: int| 0 <= j < i implies (#[trigger] old_s[j]).0@ != k@ by {
                    assert(text_less(old_s[j].0@, old_s[i as int].0@));
                    lemma_text_less_asymmetric(old_s[j].0@, old_s[i as int].0@);
                }
                lemma_del_split(old_s, k@, i as int);
                let t = old_s.skip(i as int);
                assert(t[0] == old_s[i as int]);
                assert(t.skip(1) =~= old_s.skip(i + 1));
            }
            let (_, v) = s.remove(i);
            proof {
                assert(s@ =~= old_s.take(i as int) + old_s.skip(i + 1));
                assert forall|a: int, b: int| 0 <= a < b < s@.len() implies text_less(
                    #[trigger] s@[a].0@,
                    #[trigger] s@[b].0@,
                ) by {
                    if b < i {
                        assert(s@[a] == old_s[a] && s@[b] == old_s[b]);
                    } else if a < i {
                        assert(s@[a] == old_s[a] && s@[b] == old_s[b + 1]);
                    } else {
                        assert(s@[a] == old_s[a + 1] && s@[b] == old_s[b + 1]);
                    }
                }
            }
            Some(v)
        },
    }
}


pub proof fn lemma_sorted_tail<V>(s: Seq<(String, V)>)
    requires
        keys_sorted(s),
        s.len() > 0,
    ensures
        keys_sorted(s.skip(1)),
        forall|i: int| 0 <= i < s.skip(1).len() ==> (#[trigger] s.skip(1)[i]).0@ != s[0].0@,
{
    let t = s.skip(1);
    assert forall|a: int, b: int| 0 <= a < b < t.len() implies text_less(
        #[trigger] t[a].0@,
        #[trigger] t[b].0@,
    ) by {
        assert(t[a] == s[a + 1] && t[b] == s[b + 1]);
    }
    assert forall|i: int| 0 <= i < t.len() implies (#[trigger] t[i]).0@ != s[0].0@ by {
        assert(t[i] == s[i + 1]);
        assert(text_less(s[0].0@, s[i + 1].0@));
        lemma_text_less_asymmetric(s[0].0@, s[i + 1].0@);
    }
}

/// Reading a table after storing `(k, v)`: `k` gives `v`, every other key what it gave before.
pub proof fn lemma_table_get_put<V>(s: Seq<(String, V)>, k: String, v: V, key: Seq<char>)
    ensures
        table_get(table_put(s, k, v), key) == if key == k@ {
            Some(v)
        } else {
            table_get(s, key)
        },
    decreases s.len(),
{
    let p = table_put(s, k, v);
    if s.len() == 0 {
        assert(p.skip(1) =~= Seq::<(String, V)>::empty());
        assert(p.len() == 1);
        assert(p[0] == (k, v));
        if key == k@ {
            assert(table_get(p, key) == Some(v));
        } else {
            assert(table_get(p, key) == table_get(p.skip(1), key));
            assert(table_get(p, key) is None);
        }
    } else if s[0].0@ == k@ {
        assert(p[0] == (k, v));
        assert(p.skip(1) =~= s.skip(1));
    } else if text_less(k@, s[0].0@) {
        assert(p[0] == (k, v));
        assert(p.skip(1) =~= s);
    } else {
        lemma_table_get_put(s.skip(1), k, v, key);
        assert(p[0] == s[0]);
        assert(p.skip(1) =~= table_put(s.skip(1), k, v));
    }
}

/// Reading a sorted table after removing `k`: `k` is gone, every other key unchanged.
pub proof fn lemma_table_get_del<V>(s: Seq<(String, V)>, k: Seq<char>, key: Seq<char>)
    requires
        keys_sorted(s),
    ensures
        table_get(table_del(s, k), key) == if key == k {
            None
        } else {
            table_get(s, key)
        },
    decreases s.len(),
{
    if s.len() > 0 {
        lemma_sorted_tail(s);
        if s[0].0@ == k {
            if key == k {
                lemma_table_get_absent(s.skip(1), k);
            }
        } else {
            lemma_table_get_del(s.skip(1), k, key);
            assert((seq![s[0]] + table_del(s.skip(1), k)).skip(1) =~= table_del(s.skip(1), k));
        }
    }
}

/// Storing into a sorted table keeps it sorted; every key of the result is `k` or a key of `s`.
pub proof fn lemma_put_sorted<V>(s: Seq<(String, V)>, k: String, v: V)
    requires
        keys_sorted(s),
    ensures
        keys_sorted(table_put(s, k, v)),
        forall|i: int|
            0 <= i < table_put(s, k, v).len() ==> (#[trigger] table_put(s, k, v)[i]).0@ == k@ || exists|j: int|
                0 <= j < s.len() && s[j].0@ == table_put(s, k, v)[i].0@,
    decreases s.len(),
{
    let p = table_put(s, k, v);
    if s.len() == 0 {
    } else if s[0].0@ == k@ {
        assert(p =~= seq![(k, v)] + s.skip(1));
        assert forall|i: int| 0 <= i < p.len() implies (#[trigger] p[i]).0@ == k@ || exists|j: int|
            0 <= j < s.len() && s[j].0@ == p[i].0@ by {
            if i > 0 {
                assert(p[i] == s[i]);
            }
        }
        assert forall|a: int, b: int| 0 <= a < b < p.len() implies text_less(#[trigger] p[a].0@, #[trigger] p[b].0@) by {
            assert(p[b] == s[b]);
            if a > 0 {
                assert(p[a] == s[a]);
            } else {
                assert(text_less(s[0].0@, s[b].0@));
            }
        }
    } else if text_less(k@, s[0].0@) {
        assert(p =~= seq![(k, v)] + s);
        assert forall|i: int| 0 <= i < p.len() implies (#[trigger] p[i]).0@ == k@ || exists|j: int|
            0 <= j < s.len() && s[j].0@ == p[i].0@ by {
            if i > 0 {
                assert(p[i] == s[i - 1]);
            }
        }
        assert forall|a: int, b: int| 0 <= a < b < p.len() implies text_less(#[trigger] p[a].0@, #[trigger] p[b].0@) by {
            assert(p[b] == s[b - 1]);
            if a > 0 {
                assert(p[a] == s[a - 1]);
            } else if b > 1 {
                assert(text_less(s[0].0@, s[b - 1].0@));
                lemma_text_less_transitive(k@, s[0].0@, s[b - 1].0@);
            }
        }
    } else {
        let t = s.skip(1);
        lemma_sorted_tail(s);
        lemma_put_sorted(t, k, v);
        let q = table_put(t, k, v);
        assert(p =~= seq![s[0]] + q);
        crate::text::lemma_text_total(s[0].0@, k@);
        assert forall|i: int| 0 <= i < q.len() implies text_less(s[0].0@, (#[trigger] q[i]).0@) by {
            if q[i].0@ != k@ {
                let j = choose|j: int| 0 <= j < t.len() && t[j].0@ == q[i].0@;
                assert(t[j] == s[j + 1]);
            }
        }
        assert forall|i: int| 0 <= i < p.len() implies (#[trigger] p[i]).0@ == k@ || exists|j: int|
            0 <= j < s.len() && s[j].0@ == p[i].0@ by {
            if i > 0 {
                assert(p[i] == q[i - 1]);
                if q[i - 1].0@ != k@ {
                    let j = choose|j: int| 0 <= j < t.len() && t[j].0@ == q[i - 1].0@;
                    assert(t[j] == s[j + 1]);
                }
            }
        }
        assert forall|a: int, b: int| 0 <= a < b < p.len() implies text_less(#[trigger] p[a].0@, #[trigger] p[b].0@) by {
            assert(p[b] == q[b - 1]);
            if a > 0 {
                assert(p[a] == q[a - 1]);
            }
        }
    }
}

/// Removing from a sorted table keeps it sorted; every key of the result is a key of `s`.
pub proof fn lemma_del_sorted<V>(s: Seq<(String, V)>, k: Seq<char>)
    requires
        keys_sorted(s),
    ensures
        keys_sorted(table_del(s, k)),
        forall|i: int|
            0 <= i < table_del(s, k).len() ==> exists|j: int| 0 <= j < s.len() && s[j].0@ == (#[trigger] table_del(s, k)[i]).0@,
    decreases s.len(),
{
    let p = table_del(s, k);
    if s.len() == 0 {
    } else {
        lemma_sorted_tail(s);
        let t = s.skip(1);
        if s[0].0@ == k {
            assert forall|i: int| 0 <= i < p.len() implies exists|j: int| 0 <= j < s.len() && s[j].0@ == (#[trigger] p[i]).0@ by {
                assert(p[i] == s[i + 1]);
            }
        } else {
            lemma_del_sorted(t, k);
            let q = table_del(t, k);
            assert(p =~= seq![s[0]] + q);
            assert forall|i: int| 0 <= i < q.len() implies text_less(s[0].0@, (#[trigger] q[i]).0@) by {
                let j = choose|j: int| 0 <= j < t.len() && t[j].0@ == q[i].0@;
                assert(t[j] == s[j + 1]);
            }
            assert forall|i: int| 0 <= i < p.len() implies exists|j: int| 0 <= j < s.len() && s[j].0@ == (#[trigger] p[i]).0@ by {
                if i > 0 {
                    assert(p[i] == q[i - 1]);
                    let j = choose|j: int| 0 <= j < t.len() && t[j].0@ == q[i - 1].0@;
                    assert(t[j] == s[j + 1]);
                }
            }
            assert forall|a: int, b: int| 0 <= a < b < p.len() implies text_less(#[trigger] p[a].0@, #[trigger] p[b].0@) by {
                assert(p[b] == q[b - 1]);
                if a > 0 {
                    assert(p[a] == q[a - 1]);
                }
            }
        }
    }
}

/// Keeping some entries of a sorted table keeps it sorted.
pub proof fn lemma_filter_sorted<V>(s: Seq<(String, V)>, pred: spec_fn((String, V)) -> bool)
    requires
        keys_sorted(s),
    ensures
        keys_sorted(s.filter(pred)),
    decreases s.len(),
{
    reveal(Seq::filter);
    if s.len() > 0 {
        let d = s.drop_last();
        assert forall|a: int, b: int| 0 <= a < b < d.len() implies text_less(#[trigger] d[a].0@, #[trigger] d[b].0@) by {
            assert(d[a] == s[a] && d[b] == s[b]);
        }
        lemma_filter_sorted(d, pred);
        let f = d.filter(pred);
        if pred(s.last()) {
            let g = s.filter(pred);
            assert(g == f.push(s.last()));
            assert forall|a: int, b: int| 0 <= a < b < g.len() implies text_less(#[trigger] g[a].0@, #[trigger] g[b].0@) by {
                assert(g[a] == f[a]);
                if b < f.len() {
                    assert(g[b] == f[b]);
                } else {
                    assert(f.contains(f[a]));
                    d.lemma_filter_contains_rev(pred, f[a]);
                    let j = choose|j: int| 0 <= j < d.len() && d[j] == f[a];
                    assert(s[j] == d[j]);
                    assert(text_less(s[j].0@, s[s.len() - 1].0@));
                }
            }
        }
    }
}

} // verus!
