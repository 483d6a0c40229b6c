//! The cursor engine: one depth-first collection skeleton shared by the
//! four retrieval modes, and the double-ended cursor over its result.
//!
//! At every node the visiting order is `low` subtree, the node's own
//! value, `equal` subtree, `high` subtree, which yields keys in strictly
//! ascending lexicographic order.  A sieve carried down the tree decides
//! which `equal` edges may be taken and which terminal values qualify:
//! the full mode admits everything, the prefix mode advances only along
//! its prefix, the neighbor mode spends its mismatch budget, and the
//! crossword mode matches its pattern position by position.

use vstd::prelude::*;

use crate::order::hamming;
use crate::order::lemma_sorted_cons_prefix;
use crate::order::lemma_sorted_merge;
use crate::order::strictly_sorted;
use crate::tree::Node;
use crate::tree::lemma_keys_nonempty;
use crate::tree::lemma_node_at;
use crate::tree::lemma_node_dom;
use crate::tree::sub_map;
use crate::tree::wf_opt;

verus! {

/// Which keys a traversal may still yield, carried down the tree.
#[derive(Clone, Copy)]
pub(crate) enum Sieve<'b> {
    /// Every key qualifies.
    All,
    /// Keys that continue the prefix `pref`, already matched up to `pos`.
    Pre { pref: &'b str, pos: usize },
    /// Keys at Hamming distance at most `budget` from the part of the
    /// reference key starting at `pos`.
    Near { refk: &'b str, pos: usize, budget: usize },
    /// Keys matching the pattern from `pos` on, `joker` matching anything.
    Cross { pat: &'b str, pos: usize, joker: char },
}

impl<'b> Sieve<'b> {
    pub(crate) open spec fn inv(self) -> bool {
        match self {
            Sieve::All => true,
            Sieve::Pre { pref, pos } => pos <= pref@.len() && pref@.len() <= usize::MAX,
            Sieve::Near { refk, pos, budget } => pos <= refk@.len() && refk@.len() <= usize::MAX,
            Sieve::Cross { pat, pos, joker } => pos <= pat@.len() && pat@.len() <= usize::MAX,
        }
    }

    /// Whether the sieve has run out of pattern; an exhausted sieve sees
    /// no nonempty suffix at all.
    pub(crate) open spec fn live(self) -> bool {
        match self {
            Sieve::All => true,
            Sieve::Pre { pref, pos } => true,
            Sieve::Near { refk, pos, budget } => pos < refk@.len(),
            Sieve::Cross { pat, pos, joker } => pos < pat@.len(),
        }
    }

    /// Whether a key suffix hanging at the current depth qualifies.
    pub(crate) open spec fn sees(self, t: Seq<char>) -> bool {
        match self {
            Sieve::All => true,
            Sieve::Pre { pref, pos } => t.len() >= pref@.len() - pos
                && (forall |j: int| pos <= j < pref@.len() ==> t[j - pos] == #[trigger] pref@[j]),
            Sieve::Near { refk, pos, budget } => t.len() == refk@.len() - pos
                && hamming(t, refk@.skip(pos as int)) <= budget,
            Sieve::Cross { pat, pos, joker } => t.len() == pat@.len() - pos
                && (forall |j: int| pos <= j < pat@.len()
                    ==> pat@[j] == joker || t[j - pos] == #[trigger] pat@[j]),
        }
    }

    /// The sieve that applies below the `equal` edge of a node carrying
    /// `c`, or nothing if that edge must not be taken.
    pub(crate) open spec fn step_spec(self, c: char) -> Option<Sieve<'b>> {
        match self {
            Sieve::All => Some(Sieve::All),
            Sieve::Pre { pref, pos } => if pos == pref@.len() {
                Some(Sieve::Pre { pref, pos })
            } else if pref@[pos as int] == c {
                Some(Sieve::Pre { pref, pos: (pos + 1) as usize })
            } else {
                None
            },
            Sieve::Near { refk, pos, budget } => if refk@[pos as int] == c {
                Some(Sieve::Near { refk, pos: (pos + 1) as usize, budget })
            } else if budget >= 1 {
                Some(Sieve::Near { refk, pos: (pos + 1) as usize, budget: (budget - 1) as usize })
            } else {
                None
            },
            Sieve::Cross { pat, pos, joker } => if pat@[pos as int] == joker
                || pat@[pos as int] == c {
                Some(Sieve::Cross { pat, pos: (pos + 1) as usize, joker })
            } else {
                None
            },
        }
    }

    /// Whether a value sitting exactly at a node carrying `c` qualifies.
    pub(crate) open spec fn take_spec(self, c: char) -> bool {
        match self {
            Sieve::All => true,
            Sieve::Pre { pref, pos } => pos == pref@.len()
                || (self.step_spec(c) is Some && pos + 1 == pref@.len()),
            Sieve::Near { refk, pos, budget } => self.step_spec(c) is Some
                && pos + 1 == refk@.len(),
            Sieve::Cross { pat, pos, joker } => self.step_spec(c) is Some
                && pos + 1 == pat@.len(),
        }
    }
}

/// How a sieve decomposes over one node: its own single-character key is
/// seen exactly when `take_spec` says so, and a longer key led by `c` is
/// seen exactly when the stepped sieve sees its tail.
pub(crate) proof fn lemma_sieve_bridge<'b>(md: Sieve<'b>, c: char)
    requires
        md.inv(),
        md.live(),
    ensures
        md.sees(seq![c]) <==> md.take_spec(c),
        forall |t: Seq<char>| t.len() > 1 && t[0] == c ==> (#[trigger] md.sees(t)
            <==> (md.step_spec(c) is Some && md.step_spec(c).unwrap().sees(t.skip(1)))),
        md.step_spec(c) is Some ==> md.step_spec(c).unwrap().inv()
            && (md.step_spec(c).unwrap() is Near ==> md is Near)
            && (md.step_spec(c).unwrap() is Cross ==> md is Cross),
{
    let one = seq![c];
    assert(one.len() == 1);
    assert(one[0] == c);
    assert(one.skip(1) =~= Seq::<char>::empty());
    match md {
        Sieve::All => {}
        Sieve::Pre { pref, pos } => {
            if pos == pref@.len() {
            } else {
                if pref@[pos as int] == c {
                    if pos + 1 == pref@.len() {
                        assert forall |j: int| pos <= j < pref@.len()
                            implies one[j - pos] == pref@[j] by {
                            assert(j == pos);
                        }
                        assert(md.sees(one));
                    } else {
                        if md.sees(one) {
                            assert(one.len() >= pref@.len() - pos);
                            assert(false);
                        }
                    }
                } else {
                    if md.sees(one) {
                        assert(one[0] == pref@[pos as int]);
                        assert(false);
                    }
                }
            }
        }
        Sieve::Near { refk, pos, budget } => {
            let rem = refk@.skip(pos as int);
            assert(rem.len() == refk@.len() - pos);
            assert(rem[0] == refk@[pos as int]);
            assert(hamming(one, rem) == (if c == rem[0] { 0nat } else { 1nat })
                + hamming(Seq::<char>::empty(), rem.skip(1)));
            assert(hamming(Seq::<char>::empty(), rem.skip(1)) == 0);
        }
        Sieve::Cross { pat, pos, joker } => {
            if (pat@[pos as int] == joker || pat@[pos as int] == c) && pos + 1 == pat@.len() {
                assert forall |j: int| pos <= j < pat@.len()
                    implies pat@[j] == joker || one[j - pos] == pat@[j] by {
                    assert(j == pos);
                }
                assert(md.sees(one));
            }
            if md.sees(one) {
                assert(pat@[pos as int] == joker || one[0] == pat@[pos as int]);
                assert(1 == pat@.len() - pos);
            }
        }
    }
    assert forall |t: Seq<char>| t.len() > 1 && t[0] == c implies (#[trigger] md.sees(t)
        <==> (md.step_spec(c) is Some && md.step_spec(c).unwrap().sees(t.skip(1)))) by {
        assert(t.skip(1).len() == t.len() - 1);
        match md {
            Sieve::All => {}
            Sieve::Pre { pref, pos } => {
                if pos == pref@.len() {
                    let md2 = Sieve::Pre { pref, pos };
                    assert(md.step_spec(c) == Some(md2));
                    assert(md.sees(t));
                    assert(md2.sees(t.skip(1)));
                } else if pref@[pos as int] == c {
                    let md2 = Sieve::Pre { pref, pos: (pos + 1) as usize };
                    assert(md.step_spec(c) == Some(md2));
                    if md.sees(t) {
                        assert forall |j: int| pos + 1 <= j < pref@.len()
                            implies t.skip(1)[j - (pos + 1)] == pref@[j] by {
                            assert(t.skip(1)[j - pos - 1] == t[j - pos]);
                        }
                        assert(md2.sees(t.skip(1)));
                    }
                    if md2.sees(t.skip(1)) {
                        assert forall |j: int| pos <= j < pref@.len()
                            implies t[j - pos] == pref@[j] by {
                            if j > pos {
                                assert(t.skip(1)[j - pos - 1] == t[j - pos]);
                            }
                        }
                        assert(md.sees(t));
                    }
                } else {
                    assert(md.step_spec(c) is None);
                    if md.sees(t) {
                        assert(t[0] == pref@[pos as int]);
                        assert(false);
                    }
                }
            }
            Sieve::Near { refk, pos, budget } => {
                let rem = refk@.skip(pos as int);
                assert(rem.len() == refk@.len() - pos);
                assert(rem[0] == refk@[pos as int]);
                assert(rem.skip(1) =~= refk@.skip(pos + 1));
                assert(hamming(t, rem) == (if t[0] == rem[0] { 0nat } else { 1nat })
                    + hamming(t.skip(1), rem.skip(1)));
            }
            Sieve::Cross { pat, pos, joker } => {
                if pat@[pos as int] == joker || pat@[pos as int] == c {
                    let md2 = Sieve::Cross { pat, pos: (pos + 1) as usize, joker };
                    assert(md.step_spec(c) == Some(md2));
                    if md.sees(t) {
                        assert forall |j: int| pos + 1 <= j < pat@.len()
                            implies pat@[j] == joker
                                || t.skip(1)[j - (pos + 1)] == pat@[j] by {
                            assert(t.skip(1)[j - pos - 1] == t[j - pos]);
                        }
                        assert(md2.sees(t.skip(1)));
                    }
                    if md2.sees(t.skip(1)) {
                        assert forall |j: int| pos <= j < pat@.len()
                            implies pat@[j] == joker || t[j - pos] == pat@[j] by {
                            if j > pos {
                                assert(t.skip(1)[j - pos - 1] == t[j - pos]);
                            }
                        }
                        assert(md.sees(t));
                    }
                } else {
                    assert(md.step_spec(c) is None);
                    if md.sees(t) {
                        assert(pat@[pos as int] == joker || t[0] == pat@[pos as int]);
                        assert(false);
                    }
                }
            }
        }
    }
}

/// Relies on `String::push`: appends the given character to the string.
#[verifier::external_body]
fn push_char(s: &mut String, c: char)
    ensures
        final(s)@ == old(s)@.push(c),
{
    s.push(c);
}

fn chars_to_string(cs: &Vec<char>) -> (s: String)
    ensures
        s@ == cs@,
{
    let mut s = String::new();
    let mut i: usize = 0;
    while i < cs.len()
        invariant
            i <= cs.len(),
            s@ == cs@.take(i as int),
        decreases cs.len() - i,
    {
        push_char(&mut s, cs[i]);
        proof {
            assert(cs@.take(i + 1) =~= cs@.take(i as int).push(cs@[i as int]));
        }
        i = i + 1;
    }
    proof {
        assert(cs@.take(cs@.len() as int) =~= cs@);
    }
    s
}

fn push_clone(path: &Vec<char>, c: char) -> (out: Vec<char>)
    ensures
        out@ == path@ + seq![c],
{
    let mut out: Vec<char> = Vec::new();
    let mut i: usize = 0;
    while i < path.len()
        invariant
            i <= path.len(),
            out@ == path@.take(i as int),
        decreases path.len() - i,
    {
        out.push(path[i]);
        proof {
            assert(path@.take(i + 1) =~= path@.take(i as int).push(path@[i as int]));
        }
        i = i + 1;
    }
    proof {
        assert(path@.take(path@.len() as int) =~= path@);
    }
    out.push(c);
    out
}

pub(crate) open spec fn entry_keys<V>(es: Seq<(String, &V)>) -> Seq<Seq<char>> {
    es.map_values(|e: (String, &V)| e.0@)
}

/// What a finished collection over a subtree looks like: sorted, every
/// entry a stored and admitted key below `p` paired with its value, and
/// no admitted key missing.
pub(crate) open spec fn part_good<'b, V>(
    es: Seq<(String, &V)>,
    p: Seq<char>,
    m: Map<Seq<char>, V>,
    md: Sieve<'b>,
) -> bool {
    &&& strictly_sorted(entry_keys(es))
    &&& (forall |t: int| #![trigger es[t]] 0 <= t < es.len() ==> {
        let k = es[t].0@;
        &&& k.len() > p.len()
        &&& k.take(p.len() as int) == p
        &&& m.dom().contains(k.skip(p.len() as int))
        &&& md.sees(k.skip(p.len() as int))
        &&& *es[t].1 == m[k.skip(p.len() as int)]
    })
    &&& (forall |q: Seq<char>| #[trigger] m.dom().contains(q) && md.sees(q)
            ==> entry_keys(es).contains(p + q))
}

/// The premises of gluing one node's traversal together: finished
/// collections for `low` and `high`, the own-value entry exactly when it
/// qualifies, and a finished collection for `equal` when the edge may be
/// taken.
pub(crate) open spec fn pre_assemble<'b, V>(
    n: Node<V>,
    p: Seq<char>,
    md: Sieve<'b>,
    e_low: Seq<(String, &V)>,
    e_own: Seq<(String, &V)>,
    e_eq: Seq<(String, &V)>,
    e_high: Seq<(String, &V)>,
) -> bool {
    &&& n.wf()
    &&& md.inv()
    &&& md.live()
    &&& part_good(e_low, p, sub_map(n.low), md)
    &&& part_good(e_high, p, sub_map(n.high), md)
    &&& (md.take_spec(n.ch) && n.value is Some ==> e_own.len() == 1
            && e_own[0].0@ == p + seq![n.ch] && *e_own[0].1 == n.value.unwrap())
    &&& (!(md.take_spec(n.ch) && n.value is Some) ==> e_own == Seq::<(String, &V)>::empty())
    &&& (md.step_spec(n.ch) is Some ==> part_good(
            e_eq,
            p + seq![n.ch],
            sub_map(n.equal),
            md.step_spec(n.ch).unwrap(),
        ))
    &&& (md.step_spec(n.ch) is None ==> e_eq == Seq::<(String, &V)>::empty())
}

/// What holds of the middle block (own value plus `equal` part): every
/// entry extends `p` by a suffix led by `ch` that the node's map stores
/// and the sieve admits.
pub(crate) open spec fn mid_good<'b, V>(
    n: Node<V>,
    p: Seq<char>,
    md: Sieve<'b>,
    e_mid: Seq<(String, &V)>,
) -> bool {
    forall |t: int| #![trigger e_mid[t]] 0 <= t < e_mid.len() ==> {
        let k = e_mid[t].0@;
        &&& k.len() > p.len()
        &&& k.take(p.len() as int) == p
        &&& k[p.len() as int] == n.ch
        &&& n.as_map().dom().contains(k.skip(p.len() as int))
        &&& md.sees(k.skip(p.len() as int))
        &&& *e_mid[t].1 == n.as_map()[k.skip(p.len() as int)]
    }
}

proof fn lemma_assemble_mid<'b, V>(
    n: Node<V>,
    p: Seq<char>,
    md: Sieve<'b>,
    e_low: Seq<(String, &V)>,
    e_own: Seq<(String, &V)>,
    e_eq: Seq<(String, &V)>,
    e_high: Seq<(String, &V)>,
)
    requires
        pre_assemble(n, p, md, e_low, e_own, e_eq, e_high),
    ensures
        mid_good(n, p, md, e_own + e_eq),
{
    let c = n.ch;
    let p2 = p + seq![c];
    let m = n.as_map();
    let step = md.step_spec(c);
    let has_own = md.take_spec(c) && n.value is Some;
    let e_mid = e_own + e_eq;
    lemma_node_dom(n);
    lemma_node_at(n);
    lemma_keys_nonempty(n.equal);
    lemma_sieve_bridge(md, c);
    assert(p2.len() == p.len() + 1);
    assert(p2[p.len() as int] == c);
    assert(p2.take(p.len() as int) =~= p);
    assert forall |t: int| #![trigger e_mid[t]] 0 <= t < e_mid.len() implies {
        let k = e_mid[t].0@;
        &&& k.len() > p.len()
        &&& k.take(p.len() as int) == p
        &&& k[p.len() as int] == c
        &&& m.dom().contains(k.skip(p.len() as int))
        &&& md.sees(k.skip(p.len() as int))
        &&& *e_mid[t].1 == m[k.skip(p.len() as int)]
    } by {
        let k = e_mid[t].0@;
        if has_own && t == 0 {
            assert(e_mid[0] == e_own[0]);
            assert(k == p2);
            assert(k.skip(p.len() as int) =~= seq![c]);
            assert(k.take(p.len() as int) =~= p);
            assert(m.dom().contains(seq![c]));
            assert(m[seq![c]] == n.value.unwrap());
            assert(md.sees(seq![c]));
        } else {
            let j = if has_own { t - 1 } else { t };
            assert(e_mid[t] == e_eq[j]);
            let suf = k.skip(p.len() as int);
            assert(k.len() > p2.len());
            assert(k.take(p2.len() as int) == p2);
            assert(k.take(p.len() as int) =~= p) by {
                assert forall |i: int| 0 <= i < p.len()
                    implies k.take(p.len() as int)[i] == p[i] by {
                    assert(k[i] == k.take(p2.len() as int)[i]);
                }
            }
            assert(k[p.len() as int] == k.take(p2.len() as int)[p.len() as int]);
            assert(suf[0] == k[p.len() as int]);
            assert(suf.len() > 1);
            assert(suf.skip(1) =~= k.skip(p2.len() as int));
            assert(sub_map(n.equal).dom().contains(suf.skip(1)));
            assert(m.dom().contains(suf));
            assert(m[suf] == sub_map(n.equal)[suf.skip(1)]);
            assert(step is Some && step.unwrap().sees(suf.skip(1)));
            assert(md.sees(suf));
        }
    }
}

proof fn lemma_assemble_sorted<'b, V>(
    n: Node<V>,
    p: Seq<char>,
    md: Sieve<'b>,
    e_low: Seq<(String, &V)>,
    e_own: Seq<(String, &V)>,
    e_eq: Seq<(String, &V)>,
    e_high: Seq<(String, &V)>,
)
    requires
        pre_assemble(n, p, md, e_low, e_own, e_eq, e_high),
        mid_good(n, p, md, e_own + e_eq),
    ensures
        strictly_sorted(entry_keys(e_low + e_own + e_eq + e_high)),
{
    let c = n.ch;
    let p2 = p + seq![c];
    let has_own = md.take_spec(c) && n.value is Some;
    let e_mid = e_own + e_eq;
    let kl = entry_keys(e_low);
    let ke = entry_keys(e_eq);
    let km = entry_keys(e_mid);
    let kh = entry_keys(e_high);
    let all = e_low + e_own + e_eq + e_high;
    assert(p2.len() == p.len() + 1);
    assert(all =~= e_low + e_mid + e_high);
    assert(entry_keys(all) =~= kl + km + kh);
    assert(strictly_sorted(km)) by {
        if md.step_spec(c) is Some {
            assert(strictly_sorted(ke));
        } else {
            assert(ke =~= Seq::<Seq<char>>::empty());
        }
        if has_own {
            assert forall |i: int| 0 <= i < ke.len()
                implies (#[trigger] ke[i]).len() > p2.len()
                    && ke[i].take(p2.len() as int) == p2 by {
                assert(e_eq[i] == e_eq[i]);
                assert(ke[i] == e_eq[i].0@);
            }
            lemma_sorted_cons_prefix(p2, ke);
            assert(km =~= seq![p2] + ke);
        } else {
            assert(e_own =~= Seq::<(String, &V)>::empty());
            assert(km =~= ke);
        }
    }
    assert forall |i: int| 0 <= i < kl.len()
        implies (#[trigger] kl[i]).len() > p.len()
            && kl[i].take(p.len() as int) == p
            && (kl[i][p.len() as int] as u32) < (c as u32) by {
        assert(e_low[i] == e_low[i]);
        let k = kl[i];
        assert(k == e_low[i].0@);
        let suf = k.skip(p.len() as int);
        assert(sub_map(n.low).dom().contains(suf));
        assert(suf[0] == k[p.len() as int]);
    }
    assert forall |i: int| 0 <= i < kh.len()
        implies (#[trigger] kh[i]).len() > p.len()
            && kh[i].take(p.len() as int) == p
            && (kh[i][p.len() as int] as u32) > (c as u32) by {
        assert(e_high[i] == e_high[i]);
        let k = kh[i];
        assert(k == e_high[i].0@);
        let suf = k.skip(p.len() as int);
        assert(sub_map(n.high).dom().contains(suf));
        assert(suf[0] == k[p.len() as int]);
    }
    assert forall |i: int| 0 <= i < km.len()
        implies (#[trigger] km[i]).len() > p.len()
            && km[i].take(p.len() as int) == p
            && km[i][p.len() as int] == c by {
        assert(e_mid[i] == e_mid[i]);
        assert(km[i] == e_mid[i].0@);
    }
    lemma_sorted_merge(p, c, kl, km, kh);
}

proof fn lemma_assemble_sound<'b, V>(
    n: Node<V>,
    p: Seq<char>,
    md: Sieve<'b>,
    e_low: Seq<(String, &V)>,
    e_own: Seq<(String, &V)>,
    e_eq: Seq<(String, &V)>,
    e_high: Seq<(String, &V)>,
)
    requires
        pre_assemble(n, p, md, e_low, e_own, e_eq, e_high),
        mid_good(n, p, md, e_own + e_eq),
    ensures
        forall |t: int| #![trigger (e_low + e_own + e_eq + e_high)[t]]
            0 <= t < (e_low + e_own + e_eq + e_high).len() ==> {
            let k = (e_low + e_own + e_eq + e_high)[t].0@;
            &&& k.len() > p.len()
            &&& k.take(p.len() as int) == p
            &&& n.as_map().dom().contains(k.skip(p.len() as int))
            &&& md.sees(k.skip(p.len() as int))
            &&& *(e_low + e_own + e_eq + e_high)[t].1 == n.as_map()[k.skip(p.len() as int)]
        },
{
    let m = n.as_map();
    let e_mid = e_own + e_eq;
    let all = e_low + e_own + e_eq + e_high;
    lemma_node_dom(n);
    lemma_node_at(n);
    assert(all =~= e_low + e_mid + e_high);
    assert forall |t: int| #![trigger all[t]] 0 <= t < all.len() implies {
        let k = all[t].0@;
        &&& k.len() > p.len()
        &&& k.take(p.len() as int) == p
        &&& m.dom().contains(k.skip(p.len() as int))
        &&& md.sees(k.skip(p.len() as int))
        &&& *all[t].1 == m[k.skip(p.len() as int)]
    } by {
        let nl = e_low.len() as int;
        let nm = e_mid.len() as int;
        if t < nl {
            assert(all[t] == e_low[t]);
            let k = e_low[t].0@;
            let suf = k.skip(p.len() as int);
            assert(sub_map(n.low).dom().contains(suf));
            assert(suf[0] == k[p.len() as int]);
            assert(m.dom().contains(suf));
            assert(m[suf] == sub_map(n.low)[suf]);
        } else if t < nl + nm {
            assert(all[t] == e_mid[t - nl]);
        } else {
            assert(all[t] == e_high[t - nl - nm]);
            let k = e_high[t - nl - nm].0@;
            let suf = k.skip(p.len() as int);
            assert(sub_map(n.high).dom().contains(suf));
            assert(suf[0] == k[p.len() as int]);
            assert(m.dom().contains(suf));
            assert(m[suf] == sub_map(n.high)[suf]);
        }
    }
}

proof fn lemma_assemble_complete<'b, V>(
    n: Node<V>,
    p: Seq<char>,
    md: Sieve<'b>,
    e_low: Seq<(String, &V)>,
    e_own: Seq<(String, &V)>,
    e_eq: Seq<(String, &V)>,
    e_high: Seq<(String, &V)>,
)
    requires
        pre_assemble(n, p, md, e_low, e_own, e_eq, e_high),
    ensures
        forall |q: Seq<char>| #[trigger] n.as_map().dom().contains(q) && md.sees(q)
            ==> entry_keys(e_low + e_own + e_eq + e_high).contains(p + q),
{
    let c = n.ch;
    let p2 = p + seq![c];
    let m = n.as_map();
    let step = md.step_spec(c);
    let has_own = md.take_spec(c) && n.value is Some;
    let e_mid = e_own + e_eq;
    let kl = entry_keys(e_low);
    let ke = entry_keys(e_eq);
    let km = entry_keys(e_mid);
    let kh = entry_keys(e_high);
    let all = e_low + e_own + e_eq + e_high;
    lemma_node_dom(n);
    lemma_node_at(n);
    lemma_keys_nonempty(Some(Box::new(n)));
    lemma_sieve_bridge(md, c);
    assert(all =~= e_low + e_mid + e_high);
    assert(entry_keys(all) =~= kl + km + kh);
    assert(km =~= entry_keys(e_own) + ke);
    assert forall |q: Seq<char>| #[trigger] m.dom().contains(q) && md.sees(q)
        implies entry_keys(all).contains(p + q) by {
        assert(sub_map(Some(Box::new(n))) == m);
        assert(q.len() > 0);
        if (q[0] as u32) < (c as u32) {
            assert(sub_map(n.low).dom().contains(q));
            assert(kl.contains(p + q));
            let i = choose |i: int| 0 <= i < kl.len() && kl[i] == p + q;
            assert(entry_keys(all)[i] == p + q);
        } else if (q[0] as u32) > (c as u32) {
            assert(sub_map(n.high).dom().contains(q));
            assert(kh.contains(p + q));
            let i = choose |i: int| 0 <= i < kh.len() && kh[i] == p + q;
            assert(entry_keys(all)[kl.len() + km.len() + i] == p + q);
        } else if q.len() == 1 {
            assert(q =~= seq![c]);
            assert(n.value is Some);
            assert(md.take_spec(c));
            assert(has_own);
            assert(entry_keys(e_own) =~= seq![p2]);
            assert(km[0] == p2);
            assert(p2 =~= p + q);
            assert(entry_keys(all)[e_low.len() as int] == p + q);
        } else {
            assert(sub_map(n.equal).dom().contains(q.skip(1)));
            assert(step is Some && step.unwrap().sees(q.skip(1)));
            assert(ke.contains(p2 + q.skip(1)));
            assert(p2 + q.skip(1) =~= p + q);
            let i = choose |i: int| 0 <= i < ke.len() && ke[i] == p + q;
            let own_n: int = if has_own { 1int } else { 0int };
            assert(km[own_n + i] == p + q);
            assert(entry_keys(all)[e_low.len() + own_n + i] == p + q);
        }
    }
}

/// Gluing the four pieces of one node's traversal — `low` part, own
/// value, `equal` part, `high` part — yields a finished collection for
/// the node itself.
pub(crate) proof fn lemma_assemble<'b, V>(
    n: Node<V>,
    p: Seq<char>,
    md: Sieve<'b>,
    e_low: Seq<(String, &V)>,
    e_own: Seq<(String, &V)>,
    e_eq: Seq<(String, &V)>,
    e_high: Seq<(String, &V)>,
)
    requires
        pre_assemble(n, p, md, e_low, e_own, e_eq, e_high),
    ensures
        part_good(e_low + e_own + e_eq + e_high, p, n.as_map(), md),
{
    lemma_assemble_mid(n, p, md, e_low, e_own, e_eq, e_high);
    lemma_assemble_sorted(n, p, md, e_low, e_own, e_eq, e_high);
    lemma_assemble_sound(n, p, md, e_low, e_own, e_eq, e_high);
    lemma_assemble_complete(n, p, md, e_low, e_own, e_eq, e_high);
}

/// The qualifying (key, value) pairs below `node`, in ascending key
/// order: every yielded key extends `path` by a suffix that the subtree
/// stores and the sieve admits, and none is missed.
fn collect<'a, 'b, V>(
    node: &'a Option<Box<Node<V>>>,
    path: &Vec<char>,
    md: Sieve<'b>,
) -> (out: Vec<(String, &'a V)>)
    requires
        wf_opt(*node),
        md.inv(),
    ensures
        part_good(out@, path@, sub_map(*node), md),
    decreases node,
{
    let ghost p = path@;
    let stop: bool = match md {
        Sieve::All => false,
        Sieve::Pre { .. } => false,
        Sieve::Near { refk, pos, .. } => pos == refk.unicode_len(),
        Sieve::Cross { pat, pos, .. } => pos == pat.unicode_len(),
    };
    if stop {
        let out: Vec<(String, &'a V)> = Vec::new();
        proof {
            lemma_keys_nonempty(*node);
            assert(entry_keys(out@) =~= Seq::<Seq<char>>::empty());
            assert forall |q: Seq<char>|
                #[trigger] sub_map(*node).dom().contains(q) && md.sees(q)
                implies entry_keys(out@).contains(p + q) by {
                assert(q.len() > 0);
                assert(q.len() == 0);
            }
        }
        return out;
    }
    match node {
        None => {
            let out: Vec<(String, &'a V)> = Vec::new();
            proof {
                assert(sub_map(*node) =~= Map::<Seq<char>, V>::empty());
                assert(entry_keys(out@) =~= Seq::<Seq<char>>::empty());
            }
            out
        }
        Some(n) => {
            proof {
                assert((**n).wf());
                assert(sub_map(*node) == (**n).as_map());
            }
            let mut out = collect(&n.low, path, md);
            let ghost e_low = out@;
            let path2 = push_clone(path, n.ch);
            let ghost p2 = path2@;

            // may the `equal` edge be taken, and with which residual sieve?
            let step: Option<Sieve<'b>> = match md {
                Sieve::All => Some(Sieve::All),
                Sieve::Pre { pref, pos } => {
                    if pos == pref.unicode_len() {
                        Some(Sieve::Pre { pref, pos })
                    } else {
                        let pc = pref.get_char(pos);
                        if pc == n.ch {
                            Some(Sieve::Pre { pref, pos: pos + 1 })
                        } else {
                            None
                        }
                    }
                }
                Sieve::Near { refk, pos, budget } => {
                    let rc = refk.get_char(pos);
                    if rc == n.ch {
                        Some(Sieve::Near { refk, pos: pos + 1, budget })
                    } else if budget >= 1 {
                        Some(Sieve::Near { refk, pos: pos + 1, budget: budget - 1 })
                    } else {
                        None
                    }
                }
                Sieve::Cross { pat, pos, joker } => {
                    let pc = pat.get_char(pos);
                    if pc == joker || pc == n.ch {
                        Some(Sieve::Cross { pat, pos: pos + 1, joker })
                    } else {
                        None
                    }
                }
            };
            // does the node's own value qualify?
            let take_value: bool = match md {
                Sieve::All => true,
                Sieve::Pre { pref, pos } => pos == pref.unicode_len()
                    || (step.is_some() && pos + 1 == pref.unicode_len()),
                Sieve::Near { refk, pos, .. } => step.is_some()
                    && pos + 1 == refk.unicode_len(),
                Sieve::Cross { pat, pos, .. } => step.is_some()
                    && pos + 1 == pat.unicode_len(),
            };
            proof {
                assert(step == md.step_spec(n.ch));
                assert(take_value == md.take_spec(n.ch));
            }
            let ghost has_own = take_value && n.value is Some;
            if take_value {
                if let Some(v) = &n.value {
                    let ks = chars_to_string(&path2);
                    out.push((ks, v));
                }
            }
            let ghost e_own = out@.skip(e_low.len() as int);
            let ghost mut e_eq: Seq<(String, &'a V)> = Seq::empty();
            if let Some(md2) = step {
                proof {
                    lemma_sieve_bridge(md, n.ch);
                }
                let mut eq_part = collect(&n.equal, &path2, md2);
                proof {
                    e_eq = eq_part@;
                }
                out.append(&mut eq_part);
            }
            let ghost e_mid = out@.skip(e_low.len() as int);
            let mut hi_part = collect(&n.high, path, md);
            let ghost e_high = hi_part@;
            out.append(&mut hi_part);
            proof {
                assert(e_mid =~= e_own + e_eq);
                if has_own {
                    assert(e_own.len() == 1);
                    assert(e_own[0].0@ == p2);
                    assert(p2 == p + seq![n.ch]);
                } else {
                    assert(e_own =~= Seq::<(String, &'a V)>::empty());
                }
                if step is None {
                    assert(e_eq =~= Seq::<(String, &'a V)>::empty());
                }
                lemma_assemble(**n, p, md, e_low, e_own, e_eq, e_high);
                assert(out@ =~= e_low + e_own + e_eq + e_high);
            }
            out
        }
    }
}


/// The direction in which a cursor is advanced or read.
#[derive(Clone, Copy, PartialEq, Eq)]
pub enum Direction {
    Forward,
    Backward,
}

/// A double-ended cursor over the (key, value) pairs that one retrieval
/// call selected, in ascending key order.  Forward advances consume the
/// range from its low end, backward advances from its high end; the two
/// meet in the middle.  A cursor borrows the tree it came from and must
/// be dropped before the tree is mutated.
pub struct Cursor<'a, V> {
    entries: Vec<(String, &'a V)>,
    front: usize,
    back: usize,
}

impl<'a, V> Cursor<'a, V> {
    /// The keys selected at construction, in ascending order.
    pub closed spec fn keys(self) -> Seq<Seq<char>> {
        entry_keys(self.entries@)
    }

    /// The value stored under each selected key.
    pub closed spec fn vals(self) -> Seq<V> {
        self.entries@.map_values(|e: (String, &'a V)| *e.1)
    }

    /// How many entries the forward end has consumed.
    pub closed spec fn front_at(self) -> int {
        self.front as int
    }

    /// Where the backward end stands; entries from here on are consumed.
    pub closed spec fn back_at(self) -> int {
        self.back as int
    }

    pub open spec fn wf(self) -> bool {
        0 <= self.front_at() <= self.back_at() <= self.keys().len()
            && self.vals().len() == self.keys().len()
    }

    /// Hands out the next value in ascending key order, or nothing once
    /// the two ends have met.
    pub fn next(&mut self) -> (r: Option<&'a V>)
        requires
            old(self).wf(),
        ensures
            final(self).wf(),
            final(self).keys() == old(self).keys(),
            final(self).vals() == old(self).vals(),
            final(self).back_at() == old(self).back_at(),
            old(self).front_at() < old(self).back_at() ==> {
                &&& final(self).front_at() == old(self).front_at() + 1
                &&& (r matches Some(v) && *v == old(self).vals()[old(self).front_at()])
            },
            old(self).front_at() >= old(self).back_at()
                ==> r is None && final(self).front_at() == old(self).front_at(),
    {
        if self.front < self.back {
            let v = self.entries[self.front].1;
            proof {
                assert(self.vals()[self.front as int] == *self.entries@[self.front as int].1);
            }
            self.front = self.front + 1;
            Some(v)
        } else {
            None
        }
    }

    /// Hands out the next value in descending key order, or nothing once
    /// the two ends have met.
    pub fn next_back(&mut self) -> (r: Option<&'a V>)
        requires
            old(self).wf(),
        ensures
            final(self).wf(),
            final(self).keys() == old(self).keys(),
            final(self).vals() == old(self).vals(),
            final(self).front_at() == old(self).front_at(),
            old(self).front_at() < old(self).back_at() ==> {
                &&& final(self).back_at() == old(self).back_at() - 1
                &&& (r matches Some(v) && *v == old(self).vals()[old(self).back_at() - 1])
            },
            old(self).front_at() >= old(self).back_at()
                ==> r is None && final(self).back_at() == old(self).back_at(),
    {
        if self.front < self.back {
            self.back = self.back - 1;
            let v = self.entries[self.back].1;
            proof {
                assert(self.vals()[self.back as int] == *self.entries@[self.back as int].1);
            }
            Some(v)
        } else {
            None
        }
    }

    /// Hands out the next value in the given direction; the two ends
    /// share one range, so a cursor advanced forward can still be read
    /// backward from the same position.
    pub fn advance(&mut self, direction: Direction) -> (r: Option<&'a V>)
        requires
            old(self).wf(),
        ensures
            final(self).wf(),
            final(self).keys() == old(self).keys(),
            final(self).vals() == old(self).vals(),
            old(self).front_at() >= old(self).back_at() ==> r is None
                && final(self).front_at() == old(self).front_at()
                && final(self).back_at() == old(self).back_at(),
            direction is Forward ==> final(self).back_at() == old(self).back_at(),
            direction is Backward ==> final(self).front_at() == old(self).front_at(),
            direction is Forward && old(self).front_at() < old(self).back_at() ==> {
                &&& final(self).front_at() == old(self).front_at() + 1
                &&& (r matches Some(v) && *v == old(self).vals()[old(self).front_at()])
            },
            direction is Backward && old(self).front_at() < old(self).back_at() ==> {
                &&& final(self).back_at() == old(self).back_at() - 1
                &&& (r matches Some(v) && *v == old(self).vals()[old(self).back_at() - 1])
            },
    {
        match direction {
            Direction::Forward => self.next(),
            Direction::Backward => self.next_back(),
        }
    }

    /// The key of the pair most recently handed out in the given
    /// direction; it may only be asked for after such an advance.
    pub fn current_key(&self, direction: Direction) -> (s: String)
        requires
            self.wf(),
            direction is Forward ==> self.front_at() > 0,
            direction is Backward ==> self.back_at() < self.keys().len(),
        ensures
            direction is Forward ==> s@ == self.keys()[self.front_at() - 1],
            direction is Backward ==> s@ == self.keys()[self.back_at()],
    {
        match direction {
            Direction::Forward => self.entries[self.front - 1].0.clone(),
            Direction::Backward => self.entries[self.back].0.clone(),
        }
    }
}

impl<V> crate::tree::Tst<V> {
    /// A cursor over every stored key, in ascending lexicographic order;
    /// advanced backward it yields the exact reverse sequence.
    pub fn visit(&self) -> (c: Cursor<V>)
        requires
            self.wf(),
        ensures
            c.wf(),
            c.front_at() == 0,
            c.back_at() == c.keys().len(),
            strictly_sorted(c.keys()),
            forall |t: int| 0 <= t < c.keys().len()
                ==> self@.dom().contains(#[trigger] c.keys()[t])
                    && c.vals()[t] == self@[c.keys()[t]],
            forall |q: Seq<char>| #[trigger] self@.dom().contains(q) ==> c.keys().contains(q),
    {
        proof {
            crate::tree::lemma_tst_unfold(*self);
        }
        let path: Vec<char> = Vec::new();
        let entries = collect(&self.root, &path, Sieve::All);
        proof {
            let es = entries@;
            assert forall |t: int| 0 <= t < entry_keys(es).len()
                implies self@.dom().contains(#[trigger] entry_keys(es)[t]) by {
                assert(es[t] == es[t]);
                let k = es[t].0@;
                assert(k.skip(0) =~= k);
            }
            assert forall |q: Seq<char>| #[trigger] self@.dom().contains(q)
                implies entry_keys(es).contains(q) by {
                assert(entry_keys(es).contains(path@ + q));
                assert(path@ + q =~= q);
            }
        }
        let n = entries.len();
        let c = Cursor { entries, front: 0, back: n };
        proof {
            assert forall |t: int| 0 <= t < c.keys().len()
                implies c.vals()[t] == self@[c.keys()[t]] by {
                assert(c.entries@[t] == c.entries@[t]);
                let k = c.entries@[t].0@;
                assert(k.skip(0) =~= k);
            }
        }
        c
    }

    /// A cursor over every stored key that continues `prefix`, in
    /// ascending order.  A prefix no stored key continues yields an
    /// immediately exhausted cursor; the empty prefix selects every key.
    pub fn complete(&self, prefix: &str) -> (c: Cursor<V>)
        requires
            self.wf(),
        ensures
            c.wf(),
            c.front_at() == 0,
            c.back_at() == c.keys().len(),
            strictly_sorted(c.keys()),
            forall |t: int| 0 <= t < c.keys().len() ==> {
                let k = #[trigger] c.keys()[t];
                &&& self@.dom().contains(k)
                &&& k.len() >= prefix@.len()
                &&& k.take(prefix@.len() as int) == prefix@
                &&& c.vals()[t] == self@[k]
            },
            forall |q: Seq<char>| #[trigger] self@.dom().contains(q)
                && q.len() >= prefix@.len() && q.take(prefix@.len() as int) == prefix@
                ==> c.keys().contains(q),
    {
        proof {
            crate::tree::lemma_tst_unfold(*self);
        }
        // learn that the prefix length fits in usize, as the sieve expects
        let _len = prefix.unicode_len();
        let ghost md = Sieve::Pre { pref: prefix, pos: 0 };
        let path: Vec<char> = Vec::new();
        let entries = collect(&self.root, &path, Sieve::Pre { pref: prefix, pos: 0 });
        proof {
            let es = entries@;
            assert forall |t: int| #![trigger entry_keys(es)[t]] 0 <= t < entry_keys(es).len() implies {
                let k = entry_keys(es)[t];
                &&& self@.dom().contains(k)
                &&& k.len() >= prefix@.len()
                &&& k.take(prefix@.len() as int) == prefix@
            } by {
                assert(es[t] == es[t]);
                let k = es[t].0@;
                assert(k.skip(0) =~= k);
                assert(md.sees(k));
                assert(k.take(prefix@.len() as int) =~= prefix@) by {
                    assert forall |j: int| 0 <= j < prefix@.len()
                        implies k.take(prefix@.len() as int)[j] == prefix@[j] by {
                        assert(k[j - 0] == prefix@[j]);
                    }
                }
            }
            assert forall |q: Seq<char>| #[trigger] self@.dom().contains(q)
                && q.len() >= prefix@.len() && q.take(prefix@.len() as int) == prefix@
                implies entry_keys(es).contains(q) by {
                assert forall |j: int| 0 <= j < prefix@.len()
                    implies q[j - 0] == prefix@[j] by {
                    assert(q.take(prefix@.len() as int)[j] == q[j]);
                }
                assert(md.sees(q));
                assert(entry_keys(es).contains(path@ + q));
                assert(path@ + q =~= q);
            }
        }
        let n = entries.len();
        let c = Cursor { entries, front: 0, back: n };
        proof {
            assert forall |t: int| 0 <= t < c.keys().len()
                implies c.vals()[t] == self@[c.keys()[t]] by {
                assert(c.entries@[t] == c.entries@[t]);
                let k = c.entries@[t].0@;
                assert(k.skip(0) =~= k);
            }
        }
        c
    }

    /// A cursor over every stored key of the same length as `key` whose
    /// Hamming distance to it is at most `range`, in ascending order.
    pub fn neighbor(&self, key: &str, range: usize) -> (c: Cursor<V>)
        requires
            self.wf(),
        ensures
            c.wf(),
            c.front_at() == 0,
            c.back_at() == c.keys().len(),
            strictly_sorted(c.keys()),
            forall |t: int| 0 <= t < c.keys().len() ==> {
                let k = #[trigger] c.keys()[t];
                &&& self@.dom().contains(k)
                &&& k.len() == key@.len()
                &&& hamming(k, key@) <= range
                &&& c.vals()[t] == self@[k]
            },
            forall |q: Seq<char>| #[trigger] self@.dom().contains(q)
                && q.len() == key@.len() && hamming(q, key@) <= range
                ==> c.keys().contains(q),
    {
        proof {
            crate::tree::lemma_tst_unfold(*self);
        }
        // learn that the key length fits in usize, as the sieve expects
        let _len = key.unicode_len();
        let ghost md = Sieve::Near { refk: key, pos: 0, budget: range };
        let path: Vec<char> = Vec::new();
        let entries = collect(&self.root, &path, Sieve::Near { refk: key, pos: 0, budget: range });
        proof {
            assert(key@.skip(0) =~= key@);
            let es = entries@;
            assert forall |t: int| #![trigger entry_keys(es)[t]] 0 <= t < entry_keys(es).len() implies {
                let k = entry_keys(es)[t];
                &&& self@.dom().contains(k)
                &&& k.len() == key@.len()
                &&& hamming(k, key@) <= range
            } by {
                assert(es[t] == es[t]);
                let k = es[t].0@;
                assert(k.skip(0) =~= k);
                assert(md.sees(k));
            }
            assert forall |q: Seq<char>| #[trigger] self@.dom().contains(q)
                && q.len() == key@.len() && hamming(q, key@) <= range
                implies entry_keys(es).contains(q) by {
                assert(md.sees(q));
                assert(entry_keys(es).contains(path@ + q));
                assert(path@ + q =~= q);
            }
        }
        let n = entries.len();
        let c = Cursor { entries, front: 0, back: n };
        proof {
            assert forall |t: int| 0 <= t < c.keys().len()
                implies c.vals()[t] == self@[c.keys()[t]] by {
                assert(c.entries@[t] == c.entries@[t]);
                let k = c.entries@[t].0@;
                assert(k.skip(0) =~= k);
            }
        }
        c
    }

    /// A cursor over every stored key of the same length as `pattern`
    /// that matches it position by position, `joker` standing for any
    /// character, in ascending order.
    pub fn crossword(&self, pattern: &str, joker: char) -> (c: Cursor<V>)
        requires
            self.wf(),
        ensures
            c.wf(),
            c.front_at() == 0,
            c.back_at() == c.keys().len(),
            strictly_sorted(c.keys()),
            forall |t: int| 0 <= t < c.keys().len() ==> {
                let k = #[trigger] c.keys()[t];
                &&& self@.dom().contains(k)
                &&& crate::order::wild_match(k, pattern@, joker)
                &&& c.vals()[t] == self@[k]
            },
            forall |q: Seq<char>| #[trigger] self@.dom().contains(q)
                && crate::order::wild_match(q, pattern@, joker)
                ==> c.keys().contains(q),
    {
        proof {
            crate::tree::lemma_tst_unfold(*self);
        }
        // learn that the pattern length fits in usize, as the sieve expects
        let _len = pattern.unicode_len();
        let ghost md = Sieve::Cross { pat: pattern, pos: 0, joker };
        let path: Vec<char> = Vec::new();
        let entries = collect(&self.root, &path, Sieve::Cross { pat: pattern, pos: 0, joker });
        proof {
            let es = entries@;
            assert forall |t: int| #![trigger entry_keys(es)[t]] 0 <= t < entry_keys(es).len() implies {
                let k = entry_keys(es)[t];
                &&& self@.dom().contains(k)
                &&& crate::order::wild_match(k, pattern@, joker)
            } by {
                assert(es[t] == es[t]);
                let k = es[t].0@;
                assert(k.skip(0) =~= k);
                assert(md.sees(k));
                assert forall |j: int| 0 <= j < pattern@.len()
                    implies pattern@[j] == joker || k[j] == #[trigger] pattern@[j] by {
                    assert(pattern@[j] == joker || k[j - 0] == pattern@[j]);
                }
            }
            assert forall |q: Seq<char>| #[trigger] self@.dom().contains(q)
                && crate::order::wild_match(q, pattern@, joker)
                implies entry_keys(es).contains(q) by {
                assert forall |j: int| 0 <= j < pattern@.len()
                    implies pattern@[j] == joker || q[j - 0] == #[trigger] pattern@[j] by {
                }
                assert(md.sees(q));
                assert(entry_keys(es).contains(path@ + q));
                assert(path@ + q =~= q);
            }
        }
        let n = entries.len();
        let c = Cursor { entries, front: 0, back: n };
        proof {
            assert forall |t: int| 0 <= t < c.keys().len()
                implies c.vals()[t] == self@[c.keys()[t]] by {
                assert(c.entries@[t] == c.entries@[t]);
                let k = c.entries@[t].0@;
                assert(k.skip(0) =~= k);
            }
        }
        c
    }
}

}
