//! Lexicographic order on strings (by Unicode scalar value, which is the
//! byte order of their UTF-8 encoding) and a stable insertion sort.
use vstd::prelude::*;

verus! {

/// `a` sorts strictly before `b`.
pub open spec fn str_lt(a: Seq<char>, b: Seq<char>) -> bool
    decreases a.len(),
{
    if a.len() == 0 {
        b.len() > 0
    } else if b.len() == 0 {
        false
    } else if a[0] != b[0] {
        (a[0] as int) < (b[0] as int)
    } else {
        str_lt(a.drop_first(), b.drop_first())
    }
}

/// `a` sorts no later than `b`.
pub open spec fn str_le(a: Seq<char>, b: Seq<char>) -> bool {
    !str_lt(b, a)
}

/// The strings are in ascending order.
pub open spec fn sorted_strs(s: Seq<Seq<char>>) -> bool {
    forall|i: int, j: int| 0 <= i < j < s.len() ==> str_le(#[trigger] s[i], #[trigger] s[j])
}

/// The views of a list of strings.
pub open spec fn str_views(v: Seq<String>) -> Seq<Seq<char>> {
    v.map_values(|s: String| s@)
}

/// Exactly one of `a < b`, `a == b`, `b < a` holds.
pub proof fn lemma_str_lt_total(a: Seq<char>, b: Seq<char>)
    ensures
        str_lt(a, b) || a == b || str_lt(b, a),
        !(str_lt(a, b) && str_lt(b, a)),
        !str_lt(a, a),
    decreases a.len(),
{
    if a.len() > 0 {
        lemma_str_lt_total(a.drop_first(), a.drop_first());
    }
    if a.len() > 0 && b.len() > 0 {
        lemma_str_lt_total(a.drop_first(), b.drop_first());
        if a[0] == b[0] && a.drop_first() == b.drop_first() {
            assert(a =~= seq![a[0]] + a.drop_first());
            assert(b =~= seq![b[0]] + b.drop_first());
        }
    } else if a.len() == 0 && b.len() == 0 {
        assert(a =~= b);
    }
}

/// The strict order is transitive.
pub proof fn lemma_str_lt_trans(a: Seq<char>, b: Seq<char>, c: Seq<char>)
    requires
        str_lt(a, b),
        str_lt(b, c),
    ensures
        str_lt(a, c),
    decreases a.len(),
{
    if a.len() > 0 && b.len() > 0 && c.len() > 0 {
        if a[0] == b[0] && b[0] == c[0] {
            lemma_str_lt_trans(a.drop_first(), b.drop_first(), c.drop_first());
        }
    }
}

/// `str_le` is transitive.
pub proof fn lemma_str_le_trans(a: Seq<char>, b: Seq<char>, c: Seq<char>)
    requires
        str_le(a, b),
        str_le(b, c),
    ensures
        str_le(a, c),
{
    lemma_str_lt_total(a, b);
    lemma_str_lt_total(b, c);
    lemma_str_lt_total(a, c);
    if str_lt(c, a) {
        if a == b {
        } else if b == c {
        } else {
            lemma_str_lt_trans(a, b, c);
        }
    }
}

/// Sorting has one outcome: two ascending lists of the same strings, counted
/// with their repetitions, are equal.
pub proof fn lemma_sorted_perm_unique(a: Seq<Seq<char>>, b: Seq<Seq<char>>)
    requires
        sorted_strs(a),
        sorted_strs(b),
        a.to_multiset() == b.to_multiset(),
    ensures
        a == b,
    decreases a.len(),
{
    broadcast use vstd::seq_lib::group_to_multiset_ensures;

    vstd::seq_lib::to_multiset_len(a);
    vstd::seq_lib::to_multiset_len(b);
    if a.len() == 0 {
        assert(a =~= b);
    } else {
        let x = a[0];
        let y = b[0];
        assert(a.contains(x));
        assert(b.to_multiset().count(x) > 0);
        let j = choose|j: int| 0 <= j < b.len() && b[j] == x;
        assert(str_le(y, x)) by {
            if j > 0 {
                assert(str_le(b[0], b[j]));
            } else {
                lemma_str_lt_total(x, x);
            }
        }
        assert(b.contains(y));
        assert(a.to_multiset().count(y) > 0);
        let k = choose|k: int| 0 <= k < a.len() && a[k] == y;
        assert(str_le(x, y)) by {
            if k > 0 {
                assert(str_le(a[0], a[k]));
            } else {
                lemma_str_lt_total(y, y);
            }
        }
        lemma_str_lt_total(x, y);
        assert(x == y);
        vstd::seq_lib::to_multiset_remove(a, 0);
        vstd::seq_lib::to_multiset_remove(b, 0);
        assert(a.remove(0) =~= a.drop_first());
        assert(b.remove(0) =~= b.drop_first());
        let a1 = a.drop_first();
        let b1 = b.drop_first();
        assert(sorted_strs(a1)) by {
            assert forall|i: int, j2: int| 0 <= i < j2 < a1.len() implies str_le(
                #[trigger] a1[i],
                #[trigger] a1[j2],
            ) by {
                assert(str_le(a[i + 1], a[j2 + 1]));
            }
        }
        assert(sorted_strs(b1)) by {
            assert forall|i: int, j2: int| 0 <= i < j2 < b1.len() implies str_le(
                #[trigger] b1[i],
                #[trigger] b1[j2],
            ) by {
                assert(str_le(b[i + 1], b[j2 + 1]));
            }
        }
        lemma_sorted_perm_unique(a1, b1);
        assert(a =~= seq![x] + a1);
        assert(b =~= seq![y] + b1);
    }
}

/// Whether `a` sorts strictly before `b`.
pub fn str_less(a: &str, b: &str) -> (r: bool)
    ensures
        r == str_lt(a@, b@),
{
    let n = a.unicode_len();
    let m = b.unicode_len();
    let mut i: usize = 0;
    assert(a@.subrange(0, n as int) =~= a@);
    assert(b@.subrange(0, m as int) =~= b@);
    while i < n && i < m
        invariant
            n == a@.len(),
            m == b@.len(),
            i <= n,
            i <= m,
            a@.subrange(0, i as int) == b@.subrange(0, i as int),
            str_lt(a@, b@) == str_lt(a@.subrange(i as int, n as int), b@.subrange(i as int, m as int)),
        decreases n - i,
    {
        let ca = a.get_char(i);
        let cb = b.get_char(i);
        let ghost ra = a@.subrange(i as int, n as int);
        let ghost rb = b@.subrange(i as int, m as int);
        assert(ra[0] == ca && rb[0] == cb);
        if ca != cb {
            return (ca as u32) < (cb as u32);
        }
        assert(ra.drop_first() =~= a@.subrange(i + 1, n as int));
        assert(rb.drop_first() =~= b@.subrange(i + 1, m as int));
        assert(a@.subrange(0, i + 1) =~= a@.subrange(0, i as int).push(ca));
        assert(b@.subrange(0, i + 1) =~= b@.subrange(0, i as int).push(cb));
        i = i + 1;
    }
    i == n && i < m
}

/// The strings of `v` in ascending order (equal strings keep their order).
pub fn sort_strings(v: Vec<String>) -> (r: Vec<String>)
    ensures
        sorted_strs(str_views(r@)),
        str_views(r@).to_multiset() == str_views(v@).to_multiset(),
        r@.len() == v@.len(),
{
    let mut out: Vec<String> = Vec::new();
    let mut rest = v;
    let ghost orig = str_views(rest@);
    proof {
        broadcast use vstd::multiset::group_multiset_axioms;

        let e = str_views(out@);
        assert(e.len() == 0);
        vstd::seq_lib::to_multiset_len(e);
        vstd::multiset::lemma_multiset_empty_len(e.to_multiset());
        assert(e.to_multiset().add(str_views(rest@).to_multiset()) =~= orig.to_multiset());
    }
    // Insert the items one by one, taking them from the back of `rest`.
    while rest.len() > 0
        invariant
            sorted_strs(str_views(out@)),
            str_views(out@).to_multiset().add(str_views(rest@).to_multiset()) == orig.to_multiset(),
            out@.len() + rest@.len() == orig.len(),
        decreases rest.len(),
    {
        let ghost rest_before = str_views(rest@);
        let ghost out_before = str_views(out@);
        let x = rest.pop().unwrap();
        proof {
            broadcast use vstd::seq_lib::group_to_multiset_ensures;

            assert(rest_before =~= str_views(rest@).push(x@));
        }
        // Position: after every item that is <= x.
        let mut k: usize = 0;
        while k < out.len() && !str_less(x.as_str(), out[k].as_str())
            invariant
                k <= out@.len(),
                str_views(out@) == out_before,
                forall|j: int| 0 <= j < k ==> str_le(#[trigger] out_before[j], x@),
            decreases out.len() - k,
        {
            proof {
                assert(str_views(out@)[k as int] == out[k as int]@);
            }
            k = k + 1;
        }
        proof {
            if k < out@.len() {
                assert(str_views(out@)[k as int] == out[k as int]@);
                assert(str_lt(x@, out_before[k as int]));
            }
        }
        out.insert(k, x);
        proof {
            let nv = str_views(out@);
            assert(nv =~= out_before.insert(k as int, x@));
            assert forall|i: int, j: int| 0 <= i < j < nv.len() implies str_le(
                #[trigger] nv[i],
                #[trigger] nv[j],
            ) by {
                if j < k {
                } else if i < k && j == k {
                } else if i < k && j > k {
                    assert(nv[j] == out_before[j - 1]);
                    assert(str_le(out_before[i], x@));
                    lemma_str_lt_total(x@, out_before[k as int]);
                    assert(str_le(x@, out_before[k as int]));
                    if k < j - 1 {
                        assert(str_le(out_before[k as int], out_before[j - 1]));
                        lemma_str_le_trans(x@, out_before[k as int], out_before[j - 1]);
                    }
                    lemma_str_le_trans(out_before[i], x@, out_before[j - 1]);
                } else if i == k {
                    assert(nv[j] == out_before[j - 1]);
                    lemma_str_lt_total(x@, out_before[k as int]);
                    assert(str_le(x@, out_before[k as int]));
                    if k < j - 1 {
                        assert(str_le(out_before[k as int], out_before[j - 1]));
                        lemma_str_le_trans(x@, out_before[k as int], out_before[j - 1]);
                    }
                } else {
                    assert(nv[i] == out_before[i - 1]);
                    assert(nv[j] == out_before[j - 1]);
                }
            }
            broadcast use vstd::seq_lib::group_to_multiset_ensures;
            broadcast use vstd::multiset::group_multiset_axioms;

            assert(nv.to_multiset() == out_before.to_multiset().insert(x@));
            assert(rest_before.to_multiset() == str_views(rest@).to_multiset().insert(x@));
            assert(nv.to_multiset().add(str_views(rest@).to_multiset()) =~= out_before.to_multiset().add(
                rest_before.to_multiset(),
            ));
        }
    }
    proof {
        broadcast use vstd::multiset::group_multiset_axioms;

        let e = str_views(rest@);
        assert(e.len() == 0);
        vstd::seq_lib::to_multiset_len(e);
        vstd::multiset::lemma_multiset_empty_len(e.to_multiset());
        assert(str_views(out@).to_multiset() =~= str_views(out@).to_multiset().add(
            str_views(rest@).to_multiset(),
        ));
    }
    out
}

} // verus!
