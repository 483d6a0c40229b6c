//! Lexicographic order on keys, the match predicates of the retrieval
//! modes, and the lemmas that order the pieces of a traversal.

use vstd::prelude::*;

verus! {

/// Strict lexicographic order on character sequences, comparing by raw
/// code point; a proper prefix comes before every extension of it.
pub open spec fn lex_lt(a: Seq<char>, b: Seq<char>) -> bool
    decreases a.len(),
{
    if b.len() == 0 {
        false
    } else if a.len() == 0 {
        true
    } else if (a[0] as u32) < (b[0] as u32) {
        true
    } else if (a[0] as u32) > (b[0] as u32) {
        false
    } else {
        lex_lt(a.skip(1), b.skip(1))
    }
}

/// Keys in strictly ascending lexicographic order: no duplicates and no
/// inversions anywhere in the sequence.
pub open spec fn strictly_sorted(ks: Seq<Seq<char>>) -> bool {
    forall |i: int, j: int| 0 <= i < j < ks.len() ==> lex_lt(#[trigger] ks[i], #[trigger] ks[j])
}

/// The number of positions at which two equally long keys differ.
pub open spec fn hamming(a: Seq<char>, b: Seq<char>) -> nat
    decreases a.len(),
{
    if a.len() == 0 || b.len() == 0 {
        0
    } else {
        (if a[0] == b[0] { 0nat } else { 1nat }) + hamming(a.skip(1), b.skip(1))
    }
}

/// Position-by-position wildcard match: a joker position accepts any
/// character, a literal position only its own.
pub open spec fn wild_match(k: Seq<char>, pat: Seq<char>, joker: char) -> bool {
    k.len() == pat.len()
        && (forall |j: int| 0 <= j < pat.len() ==> pat[j] == joker || k[j] == #[trigger] pat[j])
}

/// Splitting a sequence at any position and gluing it back changes nothing.
pub proof fn lemma_take_skip(k: Seq<char>, n: int)
    requires
        0 <= n <= k.len(),
    ensures
        k =~= k.take(n) + k.skip(n),
{
}

/// Prepending a common prefix does not affect the order of two keys.
pub proof fn lemma_lex_prepend(p: Seq<char>, a: Seq<char>, b: Seq<char>)
    ensures
        lex_lt(p + a, p + b) <==> lex_lt(a, b),
    decreases p.len(),
{
    if p.len() == 0 {
        assert(p + a =~= a);
        assert(p + b =~= b);
    } else {
        assert((p + a).len() > 0 && (p + b).len() > 0);
        assert((p + a)[0] == p[0]);
        assert((p + b)[0] == p[0]);
        assert((p + a).skip(1) =~= p.skip(1) + a);
        assert((p + b).skip(1) =~= p.skip(1) + b);
        lemma_lex_prepend(p.skip(1), a, b);
    }
}

/// Keys sharing a prefix are ordered by their first characters after it.
pub proof fn lemma_lt_by_first(p: Seq<char>, a: Seq<char>, b: Seq<char>)
    requires
        a.len() > p.len(),
        b.len() > p.len(),
        a.take(p.len() as int) == p,
        b.take(p.len() as int) == p,
        (a[p.len() as int] as u32) < (b[p.len() as int] as u32),
    ensures
        lex_lt(a, b),
{
    let n = p.len() as int;
    let ta = a.skip(n);
    let tb = b.skip(n);
    lemma_take_skip(a, n);
    lemma_take_skip(b, n);
    assert(ta[0] == a[n]);
    assert(tb[0] == b[n]);
    assert(lex_lt(ta, tb));
    lemma_lex_prepend(p, ta, tb);
    assert(p + ta == a);
    assert(p + tb == b);
}

/// A proper prefix comes strictly before every key extending it.
pub proof fn lemma_lt_by_prefix(a: Seq<char>, b: Seq<char>)
    requires
        a.len() < b.len(),
        b.take(a.len() as int) == a,
    ensures
        lex_lt(a, b),
{
    let n = a.len() as int;
    lemma_take_skip(b, n);
    let tb = b.skip(n);
    assert(lex_lt(Seq::<char>::empty(), tb));
    lemma_lex_prepend(a, Seq::<char>::empty(), tb);
    assert(a + Seq::<char>::empty() =~= a);
    assert(a + tb == b);
}

/// Three sorted blocks of keys sharing the prefix `p` stay sorted when
/// concatenated, provided their characters right after `p` fall below,
/// at, and above `c` respectively.
pub proof fn lemma_sorted_merge(
    p: Seq<char>,
    c: char,
    xs: Seq<Seq<char>>,
    ms: Seq<Seq<char>>,
    zs: Seq<Seq<char>>,
)
    requires
        strictly_sorted(xs),
        strictly_sorted(ms),
        strictly_sorted(zs),
        forall |i: int| 0 <= i < xs.len() ==> (#[trigger] xs[i]).len() > p.len()
            && xs[i].take(p.len() as int) == p && (xs[i][p.len() as int] as u32) < (c as u32),
        forall |i: int| 0 <= i < ms.len() ==> (#[trigger] ms[i]).len() > p.len()
            && ms[i].take(p.len() as int) == p && ms[i][p.len() as int] == c,
        forall |i: int| 0 <= i < zs.len() ==> (#[trigger] zs[i]).len() > p.len()
            && zs[i].take(p.len() as int) == p && (zs[i][p.len() as int] as u32) > (c as u32),
    ensures
        strictly_sorted(xs + ms + zs),
{
    let all = xs + ms + zs;
    assert forall |i: int, j: int| 0 <= i < j < all.len()
        implies lex_lt(#[trigger] all[i], #[trigger] all[j]) by {
        let a = all[i];
        let b = all[j];
        let nx = xs.len() as int;
        let nm = ms.len() as int;
        if i < nx {
            assert(a == xs[i]);
        } else if i < nx + nm {
            assert(a == ms[i - nx]);
        } else {
            assert(a == zs[i - nx - nm]);
        }
        if j < nx {
            assert(b == xs[j]);
        } else if j < nx + nm {
            assert(b == ms[j - nx]);
        } else {
            assert(b == zs[j - nx - nm]);
        }
        if (a[p.len() as int] as u32) < (b[p.len() as int] as u32) {
            lemma_lt_by_first(p, a, b);
        }
    }
}

/// A block of sorted keys strictly extending the key `h` stays sorted
/// when `h` itself is put in front.
pub proof fn lemma_sorted_cons_prefix(h: Seq<char>, es: Seq<Seq<char>>)
    requires
        strictly_sorted(es),
        forall |i: int| 0 <= i < es.len() ==> (#[trigger] es[i]).len() > h.len()
            && es[i].take(h.len() as int) == h,
    ensures
        strictly_sorted(seq![h] + es),
{
    let all = seq![h] + es;
    assert forall |i: int, j: int| 0 <= i < j < all.len()
        implies lex_lt(#[trigger] all[i], #[trigger] all[j]) by {
        if i == 0 {
            assert(all[0] == h);
            assert(all[j] == es[j - 1]);
            lemma_lt_by_prefix(h, es[j - 1]);
        } else {
            assert(all[i] == es[i - 1]);
            assert(all[j] == es[j - 1]);
        }
    }
}


pub proof fn lemma_lex_irrefl(a: Seq<char>)
    ensures
        !lex_lt(a, a),
    decreases a.len(),
{
    if a.len() > 0 {
        lemma_lex_irrefl(a.skip(1));
    }
}

pub proof fn lemma_lex_trans(a: Seq<char>, b: Seq<char>, c: Seq<char>)
    requires
        lex_lt(a, b),
        lex_lt(b, c),
    ensures
        lex_lt(a, c),
    decreases a.len(),
{
    if a.len() > 0 {
        if !((a[0] as u32) < (b[0] as u32)) && !((b[0] as u32) < (c[0] as u32)) {
            lemma_lex_trans(a.skip(1), b.skip(1), c.skip(1));
        }
    }
}

/// Two strictly ascending key sequences holding the same keys are one
/// and the same; so a traversal's contract — sorted, and containing
/// exactly the qualifying keys — pins its key sequence down from the
/// tree's view alone.
pub proof fn lemma_sorted_unique(x: Seq<Seq<char>>, y: Seq<Seq<char>>)
    requires
        strictly_sorted(x),
        strictly_sorted(y),
        forall |k: Seq<char>| #![trigger x.contains(k)] #![trigger y.contains(k)]
            x.contains(k) <==> y.contains(k),
    ensures
        x == y,
    decreases x.len(),
{
    if x.len() == 0 {
        if y.len() > 0 {
            assert(y.contains(y[0]));
            assert(x.contains(y[0]));
            assert(false);
        }
        assert(x =~= y);
    } else if y.len() == 0 {
        assert(x.contains(x[0]));
        assert(y.contains(x[0]));
        assert(false);
    } else {
        assert(x.contains(x[0]));
        assert(y.contains(y[0]));
        assert(x[0] == y[0]) by {
            assert(y.contains(x[0]));
            assert(x.contains(y[0]));
            let j = choose |j: int| 0 <= j < y.len() && y[j] == x[0];
            let i = choose |i: int| 0 <= i < x.len() && x[i] == y[0];
            if j != 0 && i != 0 {
                assert(lex_lt(y[0], y[j]));
                assert(lex_lt(x[0], x[i]));
                lemma_lex_trans(x[0], y[0], x[0]);
                lemma_lex_irrefl(x[0]);
            }
        }
        let x1 = x.skip(1);
        let y1 = y.skip(1);
        assert forall |i: int, j: int| 0 <= i < j < x1.len()
            implies lex_lt(#[trigger] x1[i], #[trigger] x1[j]) by {
            assert(x1[i] == x[i + 1]);
            assert(x1[j] == x[j + 1]);
        }
        assert forall |i: int, j: int| 0 <= i < j < y1.len()
            implies lex_lt(#[trigger] y1[i], #[trigger] y1[j]) by {
            assert(y1[i] == y[i + 1]);
            assert(y1[j] == y[j + 1]);
        }
        assert forall |k: Seq<char>| #[trigger] x1.contains(k) implies y1.contains(k) by {
            let i = choose |i: int| 0 <= i < x1.len() && x1[i] == k;
            assert(x[i + 1] == k);
            assert(x.contains(k));
            assert(lex_lt(x[0], k));
            assert(y.contains(k));
            let j = choose |j: int| 0 <= j < y.len() && y[j] == k;
            if j == 0 {
                lemma_lex_irrefl(k);
                assert(false);
            }
            assert(y1[j - 1] == k);
        }
        assert forall |k: Seq<char>| #[trigger] y1.contains(k) implies x1.contains(k) by {
            let j = choose |j: int| 0 <= j < y1.len() && y1[j] == k;
            assert(y[j + 1] == k);
            assert(y.contains(k));
            assert(lex_lt(y[0], k));
            assert(x.contains(k));
            let i = choose |i: int| 0 <= i < x.len() && x[i] == k;
            if i == 0 {
                lemma_lex_irrefl(k);
                assert(false);
            }
            assert(x1[i - 1] == k);
        }
        lemma_sorted_unique(x1, y1);
        assert(x =~= y) by {
            assert(x.len() == y.len());
            assert forall |i: int| 0 <= i < x.len() implies x[i] == y[i] by {
                if i > 0 {
                    assert(x[i] == x1[i - 1]);
                    assert(y[i] == y1[i - 1]);
                }
            }
        }
    }
}

}
