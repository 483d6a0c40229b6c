//! The tree core: nodes, the key count, and the point operations
//! `insert`, `get`, `remove`, `clear` and `count`.
//!
//! A node branches three ways on one character: `low` and `high` hold the
//! sibling subtrees whose keys differ from `ch` at the current position,
//! `equal` continues every key that carries `ch` here, and `value` is
//! present exactly when some key terminates at this node.  The abstract
//! view of a tree is the map from complete keys (as character sequences)
//! to their stored values.

use vstd::prelude::*;

verus! {

pub(crate) struct Node<V> {
    pub(crate) ch: char,
    pub(crate) value: Option<V>,
    pub(crate) low: Option<Box<Node<V>>>,
    pub(crate) equal: Option<Box<Node<V>>>,
    pub(crate) high: Option<Box<Node<V>>>,
}

/// A ternary search tree mapping string keys to values of type `V`.
///
/// The empty key is never stored: `insert` with an empty key is a no-op
/// that reports the key as absent, and `get` and `remove` treat the empty
/// key as absent.
pub struct Tst<V> {
    pub(crate) root: Option<Box<Node<V>>>,
    pub(crate) live: usize,
}

/// The map held by an optional subtree; keys are relative to this level.
pub(crate) open spec fn sub_map<V>(node: Option<Box<Node<V>>>) -> Map<Seq<char>, V>
    decreases node,
{
    match node {
        None => Map::empty(),
        Some(n) => n.as_map(),
    }
}

/// The number of values held by an optional subtree.
pub(crate) open spec fn sub_count<V>(node: Option<Box<Node<V>>>) -> nat
    decreases node,
{
    match node {
        None => 0,
        Some(n) => n.num_keys(),
    }
}

pub(crate) open spec fn wf_opt<V>(node: Option<Box<Node<V>>>) -> bool
    decreases node,
{
    match node {
        None => true,
        Some(n) => n.wf(),
    }
}

/// Every key of `m`, with `c` pushed on the front.
pub(crate) open spec fn prepend_all<V>(c: char, m: Map<Seq<char>, V>) -> Map<Seq<char>, V> {
    Map::new(
        |k: Seq<char>| k.len() > 0 && k[0] == c && m.dom().contains(k.skip(1)),
        |k: Seq<char>| m[k.skip(1)],
    )
}

impl<V> Node<V> {
    /// The key at which this node's own value (if any) sits.
    pub(crate) open spec fn own_key(self) -> Seq<char> {
        seq![self.ch]
    }

    pub(crate) open spec fn own_map(self) -> Map<Seq<char>, V> {
        match self.value {
            Some(v) => map![self.own_key() => v],
            None => Map::empty(),
        }
    }

    /// The map of this subtree: keys of the `low` and `high` siblings as
    /// they are, keys of the `equal` subtree extended by `ch` in front,
    /// and the single-character key `[ch]` if this node holds a value.
    pub(crate) open spec fn as_map(self) -> Map<Seq<char>, V>
        decreases self,
    {
        sub_map(self.low)
            .union_prefer_right(sub_map(self.high))
            .union_prefer_right(prepend_all(self.ch, sub_map(self.equal)))
            .union_prefer_right(self.own_map())
    }

    pub(crate) open spec fn num_keys(self) -> nat
        decreases self,
    {
        (if self.value is Some { 1nat } else { 0nat })
            + sub_count(self.low) + sub_count(self.equal) + sub_count(self.high)
    }

    /// Well-formedness: keys under `low` start strictly below `ch`, keys
    /// under `high` strictly above, subtrees are themselves well formed,
    /// and no node has an empty subtree (a node with neither a value nor
    /// a descendant holding one would be a dead branch).
    pub(crate) open spec fn wf(self) -> bool
        decreases self,
    {
        &&& (forall |k: Seq<char>| #[trigger] sub_map(self.low).dom().contains(k)
                ==> (k[0] as u32) < (self.ch as u32))
        &&& (forall |k: Seq<char>| #[trigger] sub_map(self.high).dom().contains(k)
                ==> (k[0] as u32) > (self.ch as u32))
        &&& wf_opt(self.low)
        &&& wf_opt(self.equal)
        &&& wf_opt(self.high)
        &&& self.num_keys() > 0
    }
}

/// Every key stored below a node is a nonempty character sequence.
pub(crate) proof fn lemma_keys_nonempty<V>(node: Option<Box<Node<V>>>)
    ensures
        forall |k: Seq<char>| #[trigger] sub_map(node).dom().contains(k) ==> k.len() > 0,
    decreases node,
{
    match node {
        None => {
            assert(sub_map(node) =~= Map::<Seq<char>, V>::empty());
        }
        Some(n) => {
            lemma_keys_nonempty(n.low);
            lemma_keys_nonempty(n.high);
            lemma_keys_nonempty(n.equal);
            assert forall |k: Seq<char>| #[trigger] sub_map(node).dom().contains(k)
                implies k.len() > 0 by {
                assert(sub_map(node) == n.as_map());
                assert(sub_map(n.low).dom().contains(k)
                    || sub_map(n.high).dom().contains(k)
                    || prepend_all(n.ch, sub_map(n.equal)).dom().contains(k)
                    || n.own_map().dom().contains(k));
                if n.own_map().dom().contains(k) {
                    assert(k == n.own_key());
                }
            }
        }
    }
}

/// How membership in a node's map splits over its parts.  No ordering
/// assumption is needed for the domain alone.
pub(crate) proof fn lemma_node_dom<V>(n: Node<V>)
    ensures
        forall |k: Seq<char>| #[trigger] n.as_map().dom().contains(k) <==> (
            sub_map(n.low).dom().contains(k)
            || sub_map(n.high).dom().contains(k)
            || (k.len() == 1 && k[0] == n.ch && n.value is Some)
            || (k.len() > 1 && k[0] == n.ch && sub_map(n.equal).dom().contains(k.skip(1)))
        ),
{
    lemma_keys_nonempty(n.equal);
    assert forall |k: Seq<char>| #[trigger] n.as_map().dom().contains(k) <==> (
            sub_map(n.low).dom().contains(k)
            || sub_map(n.high).dom().contains(k)
            || (k.len() == 1 && k[0] == n.ch && n.value is Some)
            || (k.len() > 1 && k[0] == n.ch && sub_map(n.equal).dom().contains(k.skip(1)))
        ) by {
        if k.len() == 1 && k[0] == n.ch {
            assert(k =~= n.own_key());
        }
        if n.own_map().dom().contains(k) {
            assert(k == n.own_key());
        }
        if prepend_all(n.ch, sub_map(n.equal)).dom().contains(k) {
            assert(k.len() > 1);
        }
    }
}

/// Under well-formedness the parts are disjoint, so the value of each key
/// comes from the unique part that holds it, selected by the comparison
/// of the key's first character with `ch`.
pub(crate) proof fn lemma_node_at<V>(n: Node<V>)
    requires
        n.wf(),
    ensures
        forall |k: Seq<char>| #[trigger] n.as_map().dom().contains(k) ==> k.len() > 0 && (
            if (k[0] as u32) < (n.ch as u32) {
                sub_map(n.low).dom().contains(k) && n.as_map()[k] == sub_map(n.low)[k]
            } else if (k[0] as u32) > (n.ch as u32) {
                sub_map(n.high).dom().contains(k) && n.as_map()[k] == sub_map(n.high)[k]
            } else if k.len() == 1 {
                n.value is Some && n.as_map()[k] == n.value.unwrap()
            } else {
                sub_map(n.equal).dom().contains(k.skip(1))
                    && n.as_map()[k] == sub_map(n.equal)[k.skip(1)]
            }
        ),
{
    lemma_node_dom(n);
    lemma_keys_nonempty(Some(Box::new(n)));
    assert forall |k: Seq<char>| #[trigger] n.as_map().dom().contains(k) implies k.len() > 0 && (
            if (k[0] as u32) < (n.ch as u32) {
                sub_map(n.low).dom().contains(k) && n.as_map()[k] == sub_map(n.low)[k]
            } else if (k[0] as u32) > (n.ch as u32) {
                sub_map(n.high).dom().contains(k) && n.as_map()[k] == sub_map(n.high)[k]
            } else if k.len() == 1 {
                n.value is Some && n.as_map()[k] == n.value.unwrap()
            } else {
                sub_map(n.equal).dom().contains(k.skip(1))
                    && n.as_map()[k] == sub_map(n.equal)[k.skip(1)]
            }
        ) by {
        assert(sub_map(Some(Box::new(n))) == n.as_map());
        if k.len() == 1 && k[0] == n.ch {
            assert(k =~= n.own_key());
        }
        if n.own_map().dom().contains(k) {
            assert(k == n.own_key());
            assert(k[0] == n.ch);
        }
        if (k[0] as u32) != (n.ch as u32) {
            assert(!n.own_map().dom().contains(k));
            assert(!prepend_all(n.ch, sub_map(n.equal)).dom().contains(k));
        }
        if (k[0] as u32) < (n.ch as u32) {
            assert(!sub_map(n.high).dom().contains(k));
        }
    }
}

/// A well-formed tree stores finitely many keys, as many as `count`
/// reports.
pub proof fn lemma_view_finite<V>(t: Tst<V>)
    requires
        t.wf(),
    ensures
        t@.dom().finite(),
        t@.dom().len() <= usize::MAX,
{
}

/// What the tree invariant gives about the representation; stated here
/// because the view and the invariant are opaque outside this module.
pub(crate) proof fn lemma_tst_unfold<V>(t: Tst<V>)
    ensures
        t@ == sub_map(t.root),
        t.wf() ==> wf_opt(t.root) && t@.dom().finite() && t.live == t@.dom().len(),
{
}

impl<V> View for Tst<V> {
    type V = Map<Seq<char>, V>;

    closed spec fn view(&self) -> Map<Seq<char>, V> {
        sub_map(self.root)
    }
}

impl<V> Tst<V> {
    /// The tree invariant: the node structure is well formed, and the
    /// stored key count matches the (finite) domain of the view.
    pub closed spec fn wf(self) -> bool {
        &&& wf_opt(self.root)
        &&& self@.dom().finite()
        &&& self.live == self@.dom().len()
    }

    /// Creates an empty tree.
    pub fn new() -> (t: Self)
        ensures
            t.wf(),
            t@ == Map::<Seq<char>, V>::empty(),
    {
        proof {
            assert(Map::<Seq<char>, V>::empty().dom() =~= Set::empty());
        }
        Tst { root: None, live: 0 }
    }

    /// Discards all keys at once.
    pub fn clear(&mut self)
        ensures
            final(self).wf(),
            final(self)@ == Map::<Seq<char>, V>::empty(),
    {
        proof {
            assert(Map::<Seq<char>, V>::empty().dom() =~= Set::empty());
        }
        self.root = None;
        self.live = 0;
    }

    /// The number of keys currently holding a value.
    pub fn count(&self) -> (n: usize)
        requires
            self.wf(),
        ensures
            n == self@.dom().len(),
    {
        self.live
    }

    /// Looks a key up without changing the tree; an absent key is a
    /// normal result, not an error.
    pub fn get(&self, key: &str) -> (r: Option<&V>)
        requires
            self.wf(),
        ensures
            r == (if self@.dom().contains(key@) { Some(&self@[key@]) } else { None::<&V> }),
    {
        if key.unicode_len() == 0 {
            proof {
                lemma_keys_nonempty(self.root);
            }
            return None;
        }
        let r = get_node(&self.root, key, 0);
        proof {
            assert(key@.skip(0) =~= key@);
        }
        r
    }
}

fn get_node<'a, V>(node: &'a Option<Box<Node<V>>>, key: &str, i: usize) -> (r: Option<&'a V>)
    requires
        wf_opt(*node),
        i < key@.len(),
    ensures
        r == (if sub_map(*node).dom().contains(key@.skip(i as int)) {
            Some(&sub_map(*node)[key@.skip(i as int)])
        } else {
            None::<&V>
        }),
    decreases node,
{
    match node {
        None => {
            proof {
                assert(sub_map(*node) =~= Map::<Seq<char>, V>::empty());
                assert(!sub_map(*node).dom().contains(key@.skip(i as int)));
            }
            None
        }
        Some(n) => {
            let ghost s = key@.skip(i as int);
            proof {
                lemma_node_dom(**n);
                lemma_node_at(**n);
                assert(sub_map(*node) == n.as_map());
                assert(s[0] == key@[i as int]);
            }
            // name the node-level membership of `s` so the lemmas above speak of it
            let ghost in_map = n.as_map().dom().contains(s);
            let c = key.get_char(i);
            if (c as u32) < (n.ch as u32) {
                get_node(&n.low, key, i)
            } else if (c as u32) > (n.ch as u32) {
                get_node(&n.high, key, i)
            } else {
                let len = key.unicode_len();
                if i + 1 == len {
                    proof {
                        if n.value is Some {
                            assert(n.as_map().dom().contains(s)) by {
                                assert(s.len() == 1 && s[0] == n.ch);
                            }
                        }
                    }
                    n.value.as_ref()
                } else {
                    let r = get_node(&n.equal, key, i + 1);
                    proof {
                        assert(key@.skip(i + 1) =~= s.skip(1));
                    }
                    r
                }
            }
        }
    }
}


/// Regardless of ordering, the value at a key of a node's map comes from
/// the rightmost union layer that holds the key.
pub(crate) proof fn lemma_node_layers<V>(n: Node<V>)
    ensures
        forall |k: Seq<char>| #[trigger] n.own_map().dom().contains(k)
            <==> (n.value is Some && k == n.own_key()),
        n.value is Some ==> n.own_map()[n.own_key()] == n.value.unwrap(),
        forall |k: Seq<char>| #[trigger] n.as_map().dom().contains(k) ==> n.as_map()[k] == (
            if n.own_map().dom().contains(k) {
                n.value.unwrap()
            } else if prepend_all(n.ch, sub_map(n.equal)).dom().contains(k) {
                sub_map(n.equal)[k.skip(1)]
            } else if sub_map(n.high).dom().contains(k) {
                sub_map(n.high)[k]
            } else {
                sub_map(n.low)[k]
            }
        ),
{
    assert forall |k: Seq<char>| #[trigger] n.own_map().dom().contains(k)
        implies (n.value is Some && k == n.own_key()) by {
    }
    assert forall |k: Seq<char>| #[trigger] n.as_map().dom().contains(k) implies n.as_map()[k] == (
            if n.own_map().dom().contains(k) {
                n.value.unwrap()
            } else if prepend_all(n.ch, sub_map(n.equal)).dom().contains(k) {
                sub_map(n.equal)[k.skip(1)]
            } else if sub_map(n.high).dom().contains(k) {
                sub_map(n.high)[k]
            } else {
                sub_map(n.low)[k]
            }
        ) by {
        assert(sub_map(n.low).dom().contains(k)
            || sub_map(n.high).dom().contains(k)
            || prepend_all(n.ch, sub_map(n.equal)).dom().contains(k)
            || n.own_map().dom().contains(k));
    }
}

/// Two maps that can differ only at the single key `s`.
pub(crate) open spec fn agree_except<V>(
    a: Map<Seq<char>, V>,
    b: Map<Seq<char>, V>,
    s: Seq<char>,
) -> bool {
    &&& (forall |k: Seq<char>| k != s && #[trigger] a.dom().contains(k)
            ==> b.dom().contains(k) && a[k] == b[k])
    &&& (forall |k: Seq<char>| k != s && #[trigger] b.dom().contains(k)
            ==> a.dom().contains(k) && b[k] == a[k])
}

/// Replacing the `low` subtree of a well-formed node by one that differs
/// only at a key `s` starting below `ch` changes the node's map only at `s`.
pub(crate) proof fn lemma_replace_low<V>(o: Node<V>, n: Node<V>, s: Seq<char>)
    requires
        o.wf(),
        n.ch == o.ch,
        n.value == o.value,
        n.equal == o.equal,
        n.high == o.high,
        wf_opt(n.low),
        s.len() > 0,
        (s[0] as u32) < (o.ch as u32),
        agree_except(sub_map(o.low), sub_map(n.low), s),
    ensures
        n.num_keys() > 0 ==> n.wf(),
        agree_except(o.as_map(), n.as_map(), s),
        n.as_map().dom().contains(s) <==> sub_map(n.low).dom().contains(s),
        sub_map(n.low).dom().contains(s) ==> n.as_map()[s] == sub_map(n.low)[s],
{
    lemma_node_dom(o);
    lemma_node_dom(n);
    lemma_node_layers(o);
    lemma_node_layers(n);
    lemma_keys_nonempty(o.low);
    lemma_keys_nonempty(n.low);
    assert forall |k: Seq<char>| #[trigger] sub_map(n.low).dom().contains(k)
        implies (k[0] as u32) < (n.ch as u32) by {
        if k != s {
            assert(sub_map(o.low).dom().contains(k));
        }
    }
    assert forall |k: Seq<char>| k != s && #[trigger] o.as_map().dom().contains(k)
        implies n.as_map().dom().contains(k) && o.as_map()[k] == n.as_map()[k] by {
        if sub_map(o.low).dom().contains(k) {
            assert(sub_map(n.low).dom().contains(k));
        }
    }
    assert forall |k: Seq<char>| k != s && #[trigger] n.as_map().dom().contains(k)
        implies o.as_map().dom().contains(k) && n.as_map()[k] == o.as_map()[k] by {
        if sub_map(n.low).dom().contains(k) {
            assert(sub_map(o.low).dom().contains(k));
        }
    }
    if sub_map(n.high).dom().contains(s) {
        assert(false);
    }
    if s.len() == 1 && s[0] == n.ch {
        assert(false);
    }
    if s.len() > 1 && s[0] == n.ch {
        assert(false);
    }
}

/// The mirror of `lemma_replace_low` for the `high` subtree.
pub(crate) proof fn lemma_replace_high<V>(o: Node<V>, n: Node<V>, s: Seq<char>)
    requires
        o.wf(),
        n.ch == o.ch,
        n.value == o.value,
        n.equal == o.equal,
        n.low == o.low,
        wf_opt(n.high),
        s.len() > 0,
        (s[0] as u32) > (o.ch as u32),
        agree_except(sub_map(o.high), sub_map(n.high), s),
    ensures
        n.num_keys() > 0 ==> n.wf(),
        agree_except(o.as_map(), n.as_map(), s),
        n.as_map().dom().contains(s) <==> sub_map(n.high).dom().contains(s),
        sub_map(n.high).dom().contains(s) ==> n.as_map()[s] == sub_map(n.high)[s],
{
    lemma_node_dom(o);
    lemma_node_dom(n);
    lemma_node_layers(o);
    lemma_node_layers(n);
    lemma_keys_nonempty(o.high);
    lemma_keys_nonempty(n.high);
    assert forall |k: Seq<char>| #[trigger] sub_map(n.high).dom().contains(k)
        implies (k[0] as u32) > (n.ch as u32) by {
        if k != s {
            assert(sub_map(o.high).dom().contains(k));
        }
    }
    assert forall |k: Seq<char>| k != s && #[trigger] o.as_map().dom().contains(k)
        implies n.as_map().dom().contains(k) && o.as_map()[k] == n.as_map()[k] by {
        if sub_map(o.high).dom().contains(k) {
            assert(sub_map(n.high).dom().contains(k));
        }
    }
    assert forall |k: Seq<char>| k != s && #[trigger] n.as_map().dom().contains(k)
        implies o.as_map().dom().contains(k) && n.as_map()[k] == o.as_map()[k] by {
        if sub_map(n.high).dom().contains(k) {
            assert(sub_map(o.high).dom().contains(k));
        }
    }
    if sub_map(n.low).dom().contains(s) {
        assert(false);
    }
    if s.len() == 1 && s[0] == n.ch {
        assert(false);
    }
    if s.len() > 1 && s[0] == n.ch {
        assert(false);
    }
}

/// Replacing the `equal` subtree by one that differs only at the key
/// `s.skip(1)` changes the node's map only at `s`, for `s` led by `ch`.
pub(crate) proof fn lemma_replace_equal<V>(o: Node<V>, n: Node<V>, s: Seq<char>)
    requires
        o.wf(),
        n.ch == o.ch,
        n.value == o.value,
        n.low == o.low,
        n.high == o.high,
        wf_opt(n.equal),
        s.len() > 1,
        s[0] == o.ch,
        agree_except(sub_map(o.equal), sub_map(n.equal), s.skip(1)),
    ensures
        n.num_keys() > 0 ==> n.wf(),
        agree_except(o.as_map(), n.as_map(), s),
        n.as_map().dom().contains(s) <==> sub_map(n.equal).dom().contains(s.skip(1)),
        sub_map(n.equal).dom().contains(s.skip(1)) ==> n.as_map()[s] == sub_map(n.equal)[s.skip(1)],
{
    lemma_node_dom(o);
    lemma_node_dom(n);
    lemma_node_layers(o);
    lemma_node_layers(n);
    lemma_keys_nonempty(o.equal);
    lemma_keys_nonempty(n.equal);
    assert forall |k: Seq<char>| k != s && k.len() > 1 && k[0] == o.ch
        implies k.skip(1) != s.skip(1) by {
        if k.skip(1) == s.skip(1) {
            assert(k.skip(1).len() == k.len() - 1);
            assert(s.skip(1).len() == s.len() - 1);
            assert(k.len() == s.len());
            assert forall |j: int| 0 <= j < k.len() implies k[j] == s[j] by {
                if j >= 1 {
                    assert(k[j] == k.skip(1)[j - 1]);
                    assert(s[j] == s.skip(1)[j - 1]);
                }
            }
            assert(k =~= s);
        }
    }
    assert forall |k: Seq<char>| k != s && #[trigger] o.as_map().dom().contains(k)
        implies n.as_map().dom().contains(k) && o.as_map()[k] == n.as_map()[k] by {
        if k.len() > 1 && k[0] == o.ch && sub_map(o.equal).dom().contains(k.skip(1)) {
            assert(sub_map(n.equal).dom().contains(k.skip(1)));
        }
    }
    assert forall |k: Seq<char>| k != s && #[trigger] n.as_map().dom().contains(k)
        implies o.as_map().dom().contains(k) && n.as_map()[k] == o.as_map()[k] by {
        if k.len() > 1 && k[0] == o.ch && sub_map(n.equal).dom().contains(k.skip(1)) {
            assert(sub_map(o.equal).dom().contains(k.skip(1)));
        }
    }
    if sub_map(n.low).dom().contains(s) {
        assert(false);
    }
    if sub_map(n.high).dom().contains(s) {
        assert(false);
    }
}

/// Changing only the node's own value slot changes the node's map only at
/// the node's own single-character key.
pub(crate) proof fn lemma_replace_value<V>(o: Node<V>, n: Node<V>)
    requires
        o.wf(),
        n.ch == o.ch,
        n.low == o.low,
        n.equal == o.equal,
        n.high == o.high,
    ensures
        n.num_keys() > 0 ==> n.wf(),
        agree_except(o.as_map(), n.as_map(), seq![o.ch]),
        n.as_map().dom().contains(seq![o.ch]) <==> n.value is Some,
        n.value is Some ==> n.as_map()[seq![o.ch]] == n.value.unwrap(),
{
    lemma_node_dom(o);
    lemma_node_dom(n);
    lemma_node_layers(o);
    lemma_node_layers(n);
    lemma_keys_nonempty(o.equal);
    let ghost s = seq![o.ch];
    assert(s.len() == 1 && s[0] == o.ch);
    assert forall |k: Seq<char>| k != s && #[trigger] o.as_map().dom().contains(k)
        implies n.as_map().dom().contains(k) && o.as_map()[k] == n.as_map()[k] by {
        if k.len() == 1 && k[0] == o.ch {
            assert(k =~= s);
        }
    }
    assert forall |k: Seq<char>| k != s && #[trigger] n.as_map().dom().contains(k)
        implies o.as_map().dom().contains(k) && n.as_map()[k] == o.as_map()[k] by {
        if k.len() == 1 && k[0] == o.ch {
            assert(k =~= s);
        }
    }
    if sub_map(n.low).dom().contains(s) {
        assert(false);
    }
    if sub_map(n.high).dom().contains(s) {
        assert(false);
    }
    if s.len() > 1 {
        assert(false);
    }
}

/// Builds the node chain for the key suffix `key[i..]`, ending in `value`.
fn make_chain<V>(key: &str, i: usize, value: V) -> (n: Box<Node<V>>)
    requires
        i < key@.len(),
    ensures
        n.wf(),
        n.as_map() == Map::<Seq<char>, V>::empty().insert(key@.skip(i as int), value),
    decreases key@.len() - i,
{
    let ghost s = key@.skip(i as int);
    proof {
        assert(s[0] == key@[i as int]);
    }
    let c = key.get_char(i);
    let len = key.unicode_len();
    if i + 1 == len {
        let n = Box::new(Node { ch: c, value: Some(value), low: None, equal: None, high: None });
        proof {
            lemma_node_dom(*n);
            lemma_node_layers(*n);
            assert(s =~= seq![c]);
            assert(sub_map(n.low) =~= Map::<Seq<char>, V>::empty());
            assert(sub_map(n.equal) =~= Map::<Seq<char>, V>::empty());
            assert(sub_map(n.high) =~= Map::<Seq<char>, V>::empty());
            assert(n.as_map() =~= Map::<Seq<char>, V>::empty().insert(s, value));
            assert(n.num_keys() > 0);
        }
        n
    } else {
        let child = make_chain(key, i + 1, value);
        let n = Box::new(Node { ch: c, value: None, low: None, equal: Some(child), high: None });
        proof {
            lemma_node_dom(*n);
            lemma_node_layers(*n);
            let s1 = key@.skip(i + 1);
            assert(s1 =~= s.skip(1));
            assert(sub_map(n.low) =~= Map::<Seq<char>, V>::empty());
            assert(sub_map(n.high) =~= Map::<Seq<char>, V>::empty());
            assert forall |k: Seq<char>| #[trigger] n.as_map().dom().contains(k)
                implies k == s by {
                assert(k.len() > 1 && k[0] == c && sub_map(n.equal).dom().contains(k.skip(1)));
                assert(k.skip(1) == s.skip(1));
                assert(k.len() == s.len());
                assert forall |j: int| 0 <= j < k.len() implies k[j] == s[j] by {
                    if j >= 1 {
                        assert(k[j] == k.skip(1)[j - 1]);
                        assert(s[j] == s.skip(1)[j - 1]);
                    }
                }
                assert(k =~= s);
            }
            assert(n.as_map().dom().contains(s)) by {
                assert(s.len() > 1 && s[0] == n.ch && sub_map(n.equal).dom().contains(s.skip(1)));
            }
            assert(n.as_map()[s] == value);
            assert(n.as_map() =~= Map::<Seq<char>, V>::empty().insert(s, value));
            assert(n.num_keys() > 0);
        }
        n
    }
}

fn insert_node<V>(node: &mut Option<Box<Node<V>>>, key: &str, i: usize, value: V) -> (prev: Option<V>)
    requires
        wf_opt(*old(node)),
        i < key@.len(),
    ensures
        wf_opt(*final(node)),
        sub_map(*final(node)) == sub_map(*old(node)).insert(key@.skip(i as int), value),
        prev == (if sub_map(*old(node)).dom().contains(key@.skip(i as int)) {
            Some(sub_map(*old(node))[key@.skip(i as int)])
        } else {
            None::<V>
        }),
    decreases key@.len() - i, *old(node),
{
    let ghost s = key@.skip(i as int);
    match node.take() {
        None => {
            let chain = make_chain(key, i, value);
            proof {
                assert(sub_map(*old(node)) =~= Map::<Seq<char>, V>::empty());
            }
            let ghost nb = *chain;
            *node = Some(chain);
            proof {
                assert(sub_map(*node) == nb.as_map());
                assert(sub_map(*node) =~= sub_map(*old(node)).insert(s, value));
            }
            None
        }
        Some(mut bn) => {
            let ghost o = *bn;
            proof {
                assert(o.wf());
                lemma_node_dom(o);
                lemma_node_at(o);
                assert(sub_map(*old(node)) == o.as_map());
                assert(s[0] == key@[i as int]);
            }
            let c = key.get_char(i);
            let prev: Option<V>;
            if (c as u32) < (bn.ch as u32) {
                prev = insert_node(&mut bn.low, key, i, value);
                proof {
                    assert(agree_except(sub_map(o.low), sub_map(bn.low), s));
                    lemma_replace_low(o, *bn, s);
                    assert(sub_map(bn.low).dom().contains(s));
                    if bn.low is None {
                        assert(sub_map(bn.low) =~= Map::<Seq<char>, V>::empty());
                        assert(false);
                    }
                    assert(bn.low.unwrap().wf());
                    assert(bn.num_keys() > 0);
                    assert(bn.as_map() =~= o.as_map().insert(s, value));
                }
            } else if (c as u32) > (bn.ch as u32) {
                prev = insert_node(&mut bn.high, key, i, value);
                proof {
                    assert(agree_except(sub_map(o.high), sub_map(bn.high), s));
                    lemma_replace_high(o, *bn, s);
                    assert(sub_map(bn.high).dom().contains(s));
                    if bn.high is None {
                        assert(sub_map(bn.high) =~= Map::<Seq<char>, V>::empty());
                        assert(false);
                    }
                    assert(bn.high.unwrap().wf());
                    assert(bn.num_keys() > 0);
                    assert(bn.as_map() =~= o.as_map().insert(s, value));
                }
            } else {
                let len = key.unicode_len();
                if i + 1 == len {
                    prev = bn.value.take();
                    bn.value = Some(value);
                    proof {
                        assert(s =~= seq![o.ch]);
                        lemma_replace_value(o, *bn);
                        assert(bn.num_keys() > 0);
                        assert(bn.as_map() =~= o.as_map().insert(s, value));
                    }
                } else {
                    prev = insert_node(&mut bn.equal, key, i + 1, value);
                    proof {
                        assert(key@.skip(i + 1) =~= s.skip(1));
                        assert(agree_except(sub_map(o.equal), sub_map(bn.equal), s.skip(1)));
                        lemma_replace_equal(o, *bn, s);
                        assert(sub_map(bn.equal).dom().contains(s.skip(1)));
                        if bn.equal is None {
                            assert(sub_map(bn.equal) =~= Map::<Seq<char>, V>::empty());
                            assert(false);
                        }
                        assert(bn.equal.unwrap().wf());
                        assert(bn.num_keys() > 0);
                        assert(bn.as_map() =~= o.as_map().insert(s, value));
                    }
                }
            }
            let ghost nb = *bn;
            *node = Some(bn);
            proof {
                assert(sub_map(*node) == nb.as_map());
            }
            prev
        }
    }
}

fn remove_node<V>(node: &mut Option<Box<Node<V>>>, key: &str, i: usize) -> (prev: Option<V>)
    requires
        wf_opt(*old(node)),
        i < key@.len(),
    ensures
        wf_opt(*final(node)),
        sub_map(*final(node)) == sub_map(*old(node)).remove(key@.skip(i as int)),
        prev == (if sub_map(*old(node)).dom().contains(key@.skip(i as int)) {
            Some(sub_map(*old(node))[key@.skip(i as int)])
        } else {
            None::<V>
        }),
    decreases *old(node),
{
    let ghost s = key@.skip(i as int);
    match node.take() {
        None => {
            proof {
                assert(sub_map(*old(node)) =~= Map::<Seq<char>, V>::empty());
                assert(sub_map(*node) =~= sub_map(*old(node)).remove(s));
            }
            None
        }
        Some(mut bn) => {
            let ghost o = *bn;
            proof {
                assert(o.wf());
                lemma_node_dom(o);
                lemma_node_at(o);
                assert(sub_map(*old(node)) == o.as_map());
                assert(s[0] == key@[i as int]);
            }
            let c = key.get_char(i);
            let prev: Option<V>;
            if (c as u32) < (bn.ch as u32) {
                prev = remove_node(&mut bn.low, key, i);
                proof {
                    assert(agree_except(sub_map(o.low), sub_map(bn.low), s));
                    lemma_replace_low(o, *bn, s);
                    assert(!sub_map(bn.low).dom().contains(s));
                    assert(bn.as_map() =~= o.as_map().remove(s));
                }
            } else if (c as u32) > (bn.ch as u32) {
                prev = remove_node(&mut bn.high, key, i);
                proof {
                    assert(agree_except(sub_map(o.high), sub_map(bn.high), s));
                    lemma_replace_high(o, *bn, s);
                    assert(!sub_map(bn.high).dom().contains(s));
                    assert(bn.as_map() =~= o.as_map().remove(s));
                }
            } else {
                let len = key.unicode_len();
                if i + 1 == len {
                    prev = bn.value.take();
                    proof {
                        assert(s =~= seq![o.ch]);
                        lemma_replace_value(o, *bn);
                        assert(bn.as_map() =~= o.as_map().remove(s));
                    }
                } else {
                    prev = remove_node(&mut bn.equal, key, i + 1);
                    proof {
                        assert(key@.skip(i + 1) =~= s.skip(1));
                        assert(agree_except(sub_map(o.equal), sub_map(bn.equal), s.skip(1)));
                        lemma_replace_equal(o, *bn, s);
                        assert(!sub_map(bn.equal).dom().contains(s.skip(1)));
                        assert(bn.as_map() =~= o.as_map().remove(s));
                    }
                }
            }
            if bn.value.is_none() && bn.low.is_none() && bn.equal.is_none() && bn.high.is_none() {
                proof {
                    lemma_node_dom(*bn);
                    assert(sub_map(bn.low) =~= Map::<Seq<char>, V>::empty());
                    assert(sub_map(bn.high) =~= Map::<Seq<char>, V>::empty());
                    assert(sub_map(bn.equal) =~= Map::<Seq<char>, V>::empty());
                    assert(bn.as_map() =~= Map::<Seq<char>, V>::empty());
                    assert(sub_map(*node) =~= sub_map(*old(node)).remove(s));
                }
            } else {
                proof {
                    if bn.value is Some {
                        assert(bn.num_keys() > 0);
                    } else if bn.low is Some {
                        assert(bn.low.unwrap().wf());
                        assert(bn.num_keys() > 0);
                    } else if bn.equal is Some {
                        assert(bn.equal.unwrap().wf());
                        assert(bn.num_keys() > 0);
                    } else {
                        assert(bn.high is Some);
                        assert(bn.high.unwrap().wf());
                        assert(bn.num_keys() > 0);
                    }
                    assert(bn.wf());
                }
                let ghost nb = *bn;
                *node = Some(bn);
                proof {
                    assert(sub_map(*node) == nb.as_map());
                }
            }
            prev
        }
    }
}

impl<V> Tst<V> {
    /// Stores `value` under `key` and hands back the value previously
    /// stored there, if any.  The count grows by one exactly when the key
    /// was absent.  An empty key is rejected by doing nothing and
    /// reporting the key as absent.
    pub fn insert(&mut self, key: &str, value: V) -> (prev: Option<V>)
        requires
            old(self).wf(),
            old(self)@.dom().len() < usize::MAX,
        ensures
            final(self).wf(),
            key@.len() == 0 ==> final(self)@ == old(self)@ && prev == None::<V>,
            key@.len() > 0 ==> final(self)@ == old(self)@.insert(key@, value),
            key@.len() > 0 ==> prev == (if old(self)@.dom().contains(key@) {
                Some(old(self)@[key@])
            } else {
                None::<V>
            }),
    {
        let len = key.unicode_len();
        if len == 0 {
            return None;
        }
        let prev = insert_node(&mut self.root, key, 0, value);
        proof {
            assert(key@.skip(0) =~= key@);
            assert(self@ == old(self)@.insert(key@, value));
            assert(self@.dom() =~= old(self)@.dom().insert(key@));
        }
        if prev.is_none() {
            self.live = self.live + 1;
        }
        prev
    }

    /// Deletes `key` and hands back the value it held, if any; afterwards
    /// no node of the path is kept alive without a value or a descendant
    /// holding one.  The count shrinks by one exactly when the key was
    /// present.
    pub fn remove(&mut self, key: &str) -> (prev: Option<V>)
        requires
            old(self).wf(),
        ensures
            final(self).wf(),
            final(self)@ == old(self)@.remove(key@),
            prev == (if old(self)@.dom().contains(key@) {
                Some(old(self)@[key@])
            } else {
                None::<V>
            }),
    {
        let len = key.unicode_len();
        if len == 0 {
            proof {
                lemma_keys_nonempty(self.root);
                assert(!self@.dom().contains(key@));
                assert(self@.remove(key@) =~= self@);
            }
            return None;
        }
        let prev = remove_node(&mut self.root, key, 0);
        proof {
            assert(key@.skip(0) =~= key@);
            assert(self@ == old(self)@.remove(key@));
            assert(self@.dom() =~= old(self)@.dom().remove(key@));
        }
        if prev.is_some() {
            self.live = self.live - 1;
        }
        prev
    }
}

}
