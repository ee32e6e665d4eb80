//! Ordering rows by a text key with the row id breaking ties, as
//! `ORDER BY key, id` does.

use vstd::prelude::*;

use crate::text::{chars_eq, chars_lt, seq_lt};

verus! {

/// `(text, id)` keys in lexicographic order of the text, then by id.
pub open spec fn key_lt(a: (Seq<char>, int), b: (Seq<char>, int)) -> bool {
    seq_lt(a.0, b.0) || (a.0 == b.0 && a.1 < b.1)
}

pub proof fn lemma_seq_lt_irreflexive(a: Seq<char>)
    ensures
        !seq_lt(a, a),
    decreases a.len(),
{
    if a.len() > 0 {
        lemma_seq_lt_irreflexive(a.drop_first());
    }
}

pub proof fn lemma_seq_lt_transitive(a: Seq<char>, b: Seq<char>, c: Seq<char>)
    requires
        seq_lt(a, b),
        seq_lt(b, c),
    ensures
        seq_lt(a, c),
    decreases a.len(),
{
    if a.len() > 0 && b.len() > 0 && c.len() > 0 {
        if a[0] == b[0] && b[0] == c[0] {
            lemma_seq_lt_transitive(a.drop_first(), b.drop_first(), c.drop_first());
        }
    }
}

pub proof fn lemma_seq_lt_total(a: Seq<char>, b: Seq<char>)
    ensures
        seq_lt(a, b) || seq_lt(b, a) || a == b,
    decreases a.len(),
{
    if a.len() > 0 && b.len() > 0 {
        if a[0] == b[0] {
            lemma_seq_lt_total(a.drop_first(), b.drop_first());
            if a.drop_first() == b.drop_first() {
                assert(a =~= seq![a[0]] + a.drop_first());
                assert(b =~= seq![b[0]] + b.drop_first());
            }
        } else {
            vstd::utf8::char_u32_cast(a[0], a[0] as u32);
            vstd::utf8::char_u32_cast(b[0], b[0] as u32);
            assert((a[0] as u32) != (b[0] as u32));
        }
    } else if a.len() == 0 && b.len() == 0 {
        assert(a =~= b);
    }
}

pub proof fn lemma_key_lt_transitive(a: (Seq<char>, int), b: (Seq<char>, int), c: (Seq<char>, int))
    requires
        key_lt(a, b),
        key_lt(b, c),
    ensures
        key_lt(a, c),
{
    if seq_lt(a.0, b.0) && seq_lt(b.0, c.0) {
        lemma_seq_lt_transitive(a.0, b.0, c.0);
    }
}

pub proof fn lemma_key_lt_total(a: (Seq<char>, int), b: (Seq<char>, int))
    requires
        a.1 != b.1,
    ensures
        key_lt(a, b) || key_lt(b, a),
{
    lemma_seq_lt_total(a.0, b.0);
}

/// The key of row `i`.
pub open spec fn key_at(keys: Seq<(Vec<char>, i64)>, i: int) -> (Seq<char>, int) {
    (keys[i].0@, keys[i].1 as int)
}

/// Distinct ids among the keys.
pub open spec fn ids_distinct(keys: Seq<(Vec<char>, i64)>) -> bool {
    forall|i: int, j: int| 0 <= i < keys.len() && 0 <= j < keys.len() && i != j ==> keys[i].1
        != keys[j].1
}

/// `p` lists every index of `0..n` once, in increasing key order.
pub open spec fn sorted_perm(keys: Seq<(Vec<char>, i64)>, p: Seq<usize>, n: int) -> bool {
    &&& p.len() == n
    &&& forall|k: int| 0 <= k < p.len() ==> (#[trigger] p[k]) < n
    &&& forall|k: int, l: int|
        0 <= k < l < p.len() ==> key_lt(key_at(keys, p[k] as int), key_at(keys, p[l] as int))
}

pub proof fn lemma_sorted_perm_distinct(keys: Seq<(Vec<char>, i64)>, p: Seq<usize>, n: int)
    requires
        sorted_perm(keys, p, n),
    ensures
        forall|k: int, l: int| 0 <= k < p.len() && 0 <= l < p.len() && k != l ==> p[k] != p[l],
{
    assert forall|k: int, l: int| 0 <= k < p.len() && 0 <= l < p.len() && k != l implies p[k]
        != p[l] by {
        if p[k] == p[l] {
            lemma_seq_lt_irreflexive(key_at(keys, p[k] as int).0);
            if k < l {
                assert(key_lt(key_at(keys, p[k] as int), key_at(keys, p[l] as int)));
            } else {
                assert(key_lt(key_at(keys, p[l] as int), key_at(keys, p[k] as int)));
            }
        }
    }
}

/// Strict order of two keys.
fn key_less(a: &(Vec<char>, i64), b: &(Vec<char>, i64)) -> (r: bool)
    ensures
        r == key_lt((a.0@, a.1 as int), (b.0@, b.1 as int)),
{
    chars_lt(&a.0, &b.0) || (chars_eq(&a.0, &b.0) && a.1 < b.1)
}

/// The indices of `keys` in increasing `(text, id)` order.
pub fn sort_by_key(keys: &Vec<(Vec<char>, i64)>) -> (p: Vec<usize>)
    requires
        ids_distinct(keys@),
    ensures
        sorted_perm(keys@, p@, keys@.len() as int),
        forall|j: int| 0 <= j < keys@.len() ==> #[trigger] p@.contains(j as usize),
{
    let mut p: Vec<usize> = Vec::new();
    let mut i: usize = 0;
    while i < keys.len()
        invariant
            i <= keys.len(),
            ids_distinct(keys@),
            sorted_perm(keys@, p@, i as int),
            forall|j: int| 0 <= j < i ==> #[trigger] p@.contains(j as usize),
        decreases keys.len() - i,
    {
        let mut pos: usize = p.len();
        while pos > 0 && key_less(&keys[i], &keys[p[pos - 1]])
            invariant
                pos <= p.len(),
                p.len() == i,
                i < keys.len(),
                sorted_perm(keys@, p@, i as int),
                forall|k: int|
                    pos <= k < p.len() ==> key_lt(
                        key_at(keys@, i as int),
                        key_at(keys@, #[trigger] p@[k] as int),
                    ),
            decreases pos,
        {
            pos = pos - 1;
        }
        proof {
            if pos > 0 {
                let q = p@[pos - 1] as int;
                assert(q < i);
                assert(keys@[q].1 != keys@[i as int].1);
                lemma_key_lt_total(key_at(keys@, i as int), key_at(keys@, q));
            }
        }
        let ghost old_p = p@;
        p.insert(pos, i);
        proof {
            assert(p@ == old_p.insert(pos as int, i));
            assert forall|j: int| 0 <= j < i + 1 implies #[trigger] p@.contains(j as usize) by {
                if j == i {
                    assert(p@[pos as int] == i);
                } else {
                    assert(old_p.contains(j as usize));
                    let k = choose|k: int| 0 <= k < old_p.len() && old_p[k] == j as usize;
                    if k < pos {
                        assert(p@[k] == j as usize);
                    } else {
                        assert(p@[k + 1] == j as usize);
                    }
                }
            }
            assert forall|k: int, l: int| 0 <= k < l < p@.len() implies key_lt(
                key_at(keys@, p@[k] as int),
                key_at(keys@, p@[l] as int),
            ) by {
                if l < pos {
                    assert(p@[k] == old_p[k] && p@[l] == old_p[l]);
                } else if l == pos {
                    assert(p@[k] == old_p[k]);
                    if k < pos - 1 {
                        lemma_key_lt_transitive(
                            key_at(keys@, old_p[k] as int),
                            key_at(keys@, old_p[pos - 1] as int),
                            key_at(keys@, i as int),
                        );
                    }
                } else if k == pos {
                    assert(p@[l] == old_p[l - 1]);
                } else if k < pos {
                    assert(p@[k] == old_p[k]);
                    assert(p@[l] == old_p[l - 1]);
                } else {
                    assert(p@[k] == old_p[k - 1]);
                    assert(p@[l] == old_p[l - 1]);
                }
            }
        }
        i = i + 1;
    }
    p
}


/// The last `limit` key positions in increasing key order (all of them when
/// `limit` is 0): `ORDER BY key DESC LIMIT limit`, read back oldest first.
pub fn sorted_tail(keys: &Vec<(Vec<char>, i64)>, limit: usize) -> (r: Vec<usize>)
    requires
        ids_distinct(keys@),
    ensures
        r@.len() == (if limit == 0 || keys@.len() <= limit {
            keys@.len() as int
        } else {
            limit as int
        }),
        forall|k: int| 0 <= k < r@.len() ==> (#[trigger] r@[k]) < keys@.len(),
        forall|k: int, l: int|
            0 <= k < l < r@.len() ==> key_lt(key_at(keys@, r@[k] as int), key_at(keys@, r@[l] as int)),
        forall|j: int|
            0 <= j < keys@.len() && !#[trigger] r@.contains(j as usize) ==> r@.len() > 0 && key_lt(
                key_at(keys@, j),
                key_at(keys@, r@[0] as int),
            ),
        limit == 0 || keys@.len() <= limit ==> forall|j: int|
            0 <= j < keys@.len() ==> #[trigger] r@.contains(j as usize),
{
    let p = sort_by_key(keys);
    let n = p.len();
    let start: usize = if limit == 0 || n <= limit {
        0
    } else {
        n - limit
    };
    let mut r: Vec<usize> = Vec::new();
    let mut k = start;
    while k < n
        invariant
            start <= k <= n,
            n == p@.len(),
            n == keys@.len(),
            sorted_perm(keys@, p@, n as int),
            r@ =~= p@.subrange(start as int, k as int),
        decreases n - k,
    {
        r.push(p[k]);
        k = k + 1;
    }
    proof {
        assert(r@ =~= p@.subrange(start as int, n as int));
        lemma_sorted_perm_distinct(keys@, p@, n as int);
        assert forall|j: int|
            0 <= j < keys@.len() && !#[trigger] r@.contains(j as usize) implies r@.len() > 0 && key_lt(
            key_at(keys@, j),
            key_at(keys@, r@[0] as int),
        ) by {
            assert(p@.contains(j as usize));
            let k = choose|k: int| 0 <= k < p@.len() && p@[k] == j as usize;
            if k >= start {
                assert(r@[k - start] == j as usize);
            }
            assert(r@[0] == p@[start as int]);
        }
        if limit == 0 || n <= limit {
            assert forall|j: int| 0 <= j < keys@.len() implies #[trigger] r@.contains(j as usize) by {
                assert(p@.contains(j as usize));
            let k = choose|k: int| 0 <= k < p@.len() && p@[k] == j as usize;
                assert(r@[k] == j as usize);
            }
        }
    }
    r
}


/// Some key has the text `t`.
pub open spec fn text_from_keys(keys: Seq<(Vec<char>, i64)>, t: Seq<char>) -> bool {
    exists|j: int| 0 <= j < keys.len() && (#[trigger] keys[j]).0@ == t
}

/// `out` holds the text `t`.
pub open spec fn has_text(out: Seq<Vec<char>>, t: Seq<char>) -> bool {
    exists|j: int| 0 <= j < out.len() && (#[trigger] out[j])@ == t
}

/// The distinct texts of the keys, in increasing order.
pub fn distinct_texts(keys: &Vec<(Vec<char>, i64)>) -> (r: Vec<Vec<char>>)
    requires
        ids_distinct(keys@),
    ensures
        forall|a: int, b: int| 0 <= a < b < r@.len() ==> seq_lt(r@[a]@, r@[b]@),
        forall|a: int| 0 <= a < r@.len() ==> text_from_keys(keys@, (#[trigger] r@[a])@),
        forall|j: int| 0 <= j < keys@.len() ==> has_text(r@, (#[trigger] keys@[j]).0@),
{
    let p = sort_by_key(keys);
    let mut out: Vec<Vec<char>> = Vec::new();
    let mut k: usize = 0;
    while k < p.len()
        invariant
            k <= p@.len(),
            p@.len() == keys@.len(),
            sorted_perm(keys@, p@, keys@.len() as int),
            forall|a: int, b: int| 0 <= a < b < out@.len() ==> seq_lt(out@[a]@, out@[b]@),
            k > 0 ==> out@.len() > 0 && out@[out@.len() - 1]@ == key_at(keys@, p@[k - 1] as int).0,
            k == 0 ==> out@.len() == 0,
            forall|m: int| 0 <= m < k ==> has_text(out@, key_at(keys@, #[trigger] p@[m] as int).0),
            forall|a: int| 0 <= a < out@.len() ==> text_from_keys(keys@, (#[trigger] out@[a])@),
        decreases p@.len() - k,
    {
        let c = &keys[p[k]].0;
        let ghost before = out@;
        let fresh = if out.len() == 0 {
            true
        } else {
            !chars_eq(&out[out.len() - 1], c)
        };
        if fresh {
            proof {
                if k > 0 {
                    assert(key_lt(key_at(keys@, p@[k - 1] as int), key_at(keys@, p@[k as int] as int)));
                }
            }
            let mut copy: Vec<char> = Vec::new();
            crate::text::push_chars(&mut copy, c);
            out.push(copy);
            proof {
                assert(out@[out@.len() - 1]@ == c@);
                if before.len() > 0 {
                    let last = before[before.len() - 1]@;
                    assert(seq_lt(last, c@));
                    assert forall|a: int, b: int| 0 <= a < b < out@.len() implies seq_lt(
                        out@[a]@,
                        out@[b]@,
                    ) by {
                        if b == out@.len() - 1 {
                            if a < before.len() - 1 {
                                lemma_seq_lt_transitive(before[a]@, last, c@);
                            }
                        } else {
                            assert(out@[a] == before[a] && out@[b] == before[b]);
                        }
                    }
                }
                assert forall|m: int| 0 <= m < k + 1 implies has_text(
                    out@,
                    key_at(keys@, #[trigger] p@[m] as int).0,
                ) by {
                    if m < k {
                        let jj = choose|jj: int|
                            0 <= jj < before.len() && (#[trigger] before[jj])@ == key_at(
                                keys@,
                                p@[m] as int,
                            ).0;
                        assert(out@[jj] == before[jj]);
                    } else {
                        assert(out@[out@.len() - 1]@ == key_at(keys@, p@[m] as int).0);
                    }
                }
                assert forall|a: int| 0 <= a < out@.len() implies text_from_keys(keys@, (#[trigger] out@[a])@) by {
                    if a < before.len() {
                        assert(out@[a] == before[a]);
                    } else {
                        assert(keys@[p@[k as int] as int].0@ == out@[a]@);
                    }
                }
            }
        } else {
            proof {
                assert(has_text(out@, key_at(keys@, p@[k as int] as int).0)) by {
                    assert(out@[out@.len() - 1]@ == c@);
                }
            }
        }
        k = k + 1;
    }
    proof {
        assert forall|j: int| 0 <= j < keys@.len() implies has_text(out@, (#[trigger] keys@[j]).0@) by {
            assert(p@.contains(j as usize));
            let m = choose|m: int| 0 <= m < p@.len() && p@[m] == j as usize;
            assert(has_text(out@, key_at(keys@, p@[m] as int).0));
        }
    }
    out
}

} // verus!
