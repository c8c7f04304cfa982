//! A trie of rules keyed by label paths, where a path may start with
//! wildcards. A lookup prefers an exact label over a wildcard at each level
//! and stops at the first stored value, so a rule matches every longer path
//! that extends it.

use vstd::prelude::*;
use vstd::utf8::encode_utf8;
use crate::name::{bytes_equal, split_dots, DnsLabel, DnsName};

verus! {

/// One element of a key path: a label, or a wildcard that matches any label.
#[derive(Debug, PartialEq, Eq, Hash, Clone)]
pub enum RuleTrieKey {
    Label(DnsLabel),
    Wildcard,
}

/// A key as its model.
pub enum KeyView {
    Label(Seq<u8>),
    Wildcard,
}

impl View for RuleTrieKey {
    type V = KeyView;

    open spec fn view(&self) -> KeyView {
        match self {
            RuleTrieKey::Label(l) => KeyView::Label(l@),
            RuleTrieKey::Wildcard => KeyView::Wildcard,
        }
    }
}

impl RuleTrieKey {
    /// A key with the same model.
    pub fn duplicate(&self) -> (r: RuleTrieKey)
        ensures
            r@ == self@,
    {
        match self {
            RuleTrieKey::Label(l) => RuleTrieKey::Label(l.duplicate()),
            RuleTrieKey::Wildcard => RuleTrieKey::Wildcard,
        }
    }

    /// The two keys have the same model.
    pub fn same(&self, other: &RuleTrieKey) -> (r: bool)
        ensures
            r == (self@ == other@),
    {
        match (self, other) {
            (RuleTrieKey::Label(a), RuleTrieKey::Label(b)) => bytes_equal(&a.label, &b.label),
            (RuleTrieKey::Wildcard, RuleTrieKey::Wildcard) => true,
            _ => false,
        }
    }
}

/// The one-byte label `*`.
pub open spec fn star() -> Seq<u8> {
    seq![0x2au8]
}

/// The key path of dot-separated pieces: a piece `*` is a wildcard while
/// every piece before it is `*` too; once a piece is a label, every later
/// `*` is the label `*`.
pub open spec fn key_path(parts: Seq<Seq<u8>>) -> Seq<KeyView> {
    Seq::new(
        parts.len(),
        |i: int|
            if forall|j: int| 0 <= j <= i ==> parts[j] == star() {
                KeyView::Wildcard
            } else {
                KeyView::Label(parts[i])
            },
    )
}

/// A key path, read left to right.
pub struct RuleTrieKeyString {
    keys: Vec<RuleTrieKey>,
}

impl View for RuleTrieKeyString {
    type V = Seq<KeyView>;

    closed spec fn view(&self) -> Seq<KeyView> {
        self.keys@.map_values(|k: RuleTrieKey| k@)
    }
}

impl From<String> for RuleTrieKeyString {
    /// The key path of a dotted text; `RuleTrieKeyString::from_text` states
    /// the result.
    fn from(string: String) -> RuleTrieKeyString {
        RuleTrieKeyString::from_text(string.as_str())
    }
}

impl vstd::std_specs::convert::FromSpecImpl<String> for RuleTrieKeyString {
    open spec fn obeys_from_spec() -> bool {
        false
    }

    open spec fn from_spec(string: String) -> RuleTrieKeyString {
        vstd::pervasive::arbitrary()
    }
}

impl RuleTrieKeyString {
    /// The key path of the pieces of `text` between its dots.
    pub fn from_text(text: &str) -> (r: RuleTrieKeyString)
        ensures
            r@ == key_path(split_dots(encode_utf8(text@))),
    {
        let name = DnsName::from_text(text);
        let ghost parts = name@;
        let mut keys: Vec<RuleTrieKey> = Vec::new();
        let mut concrete = false;
        let mut i: usize = 0;
        while i < name.labels.len()
            invariant
                parts == name@,
                i <= parts.len(),
                keys@.map_values(|k: RuleTrieKey| k@) == key_path(parts).take(i as int),
                concrete == exists|j: int| 0 <= j < i && parts[j] != star(),
            decreases parts.len() - i,
        {
            let l = &name.labels[i];
            assert(parts[i as int] == l@);
            let is_star = l.label.len() == 1 && l.label[0] == 0x2a;
            assert(is_star == (l@ == star())) by {
                if l@ == star() {
                    assert(l@.len() == 1 && l@[0] == 0x2a);
                }
                if is_star {
                    assert(l@ =~= star());
                }
            }
            let ghost before = keys@.map_values(|k: RuleTrieKey| k@);
            let key = if is_star && !concrete {
                RuleTrieKey::Wildcard
            } else {
                concrete = true;
                RuleTrieKey::Label(l.duplicate())
            };
            keys.push(key);
            assert(keys@.map_values(|k: RuleTrieKey| k@) =~= before.push(key@));
            assert(key@ == key_path(parts)[i as int]);
            i = i + 1;
            assert(keys@.map_values(|k: RuleTrieKey| k@) =~= key_path(parts).take(i as int));
        }
        assert(key_path(parts).take(parts.len() as int) =~= key_path(parts));
        RuleTrieKeyString { keys }
    }

    /// The first key and a copy of the rest; `None` for an empty path.
    pub fn left_pop_clone(&self) -> (r: Option<(RuleTrieKey, RuleTrieKeyString)>)
        ensures
            r is None <==> self@.len() == 0,
            r matches Some((k, rest)) ==> k@ == self@[0] && rest@ == self@.drop_first(),
    {
        if self.keys.len() == 0 {
            return None;
        }
        let mut keys: Vec<RuleTrieKey> = Vec::new();
        let mut i: usize = 1;
        while i < self.keys.len()
            invariant
                1 <= i <= self@.len(),
                keys@.map_values(|k: RuleTrieKey| k@) == self@.subrange(1, i as int),
            decreases self@.len() - i,
        {
            let ghost before = keys@.map_values(|k: RuleTrieKey| k@);
            let k = self.keys[i].duplicate();
            keys.push(k);
            assert(keys@.map_values(|k: RuleTrieKey| k@) =~= before.push(k@));
            i = i + 1;
            assert(keys@.map_values(|k: RuleTrieKey| k@) =~= self@.subrange(1, i as int));
        }
        assert(self@.subrange(1, self@.len() as int) =~= self@.drop_first());
        Some((self.keys[0].duplicate(), RuleTrieKeyString { keys }))
    }
}

/// What a key leads to at one level of the trie.
#[derive(Debug, PartialEq, Eq)]
pub enum RuleTrieNode<T> {
    /// A deeper level.
    Continue(RuleTrie<T>),
    /// A stored value: the end of a rule.
    Elem(T),
    /// Nothing; such a node is never created, and blocks inserts through it.
    Empty,
}

impl<T> RuleTrieNode<T> {
    pub fn is_continue(&self) -> (r: bool)
        ensures
            r == (self is Continue),
    {
        match self {
            RuleTrieNode::Continue(_) => true,
            RuleTrieNode::Elem(_) => false,
            RuleTrieNode::Empty => false,
        }
    }

    pub fn is_elem(&self) -> (r: bool)
        ensures
            r == (self is Elem),
    {
        match self {
            RuleTrieNode::Continue(_) => false,
            RuleTrieNode::Elem(_) => true,
            RuleTrieNode::Empty => false,
        }
    }

    pub fn is_none(&self) -> (r: bool)
        ensures
            r == (self is Empty),
    {
        match self {
            RuleTrieNode::Continue(_) => false,
            RuleTrieNode::Elem(_) => false,
            RuleTrieNode::Empty => true,
        }
    }

    /// The deeper level, where this node is one.
    pub fn extract_continue(&self) -> (r: Option<&RuleTrie<T>>)
        ensures
            r is Some <==> self is Continue,
            r matches Some(t) ==> self == RuleTrieNode::Continue(*t),
    {
        match self {
            RuleTrieNode::Continue(trie) => Some(trie),
            RuleTrieNode::Elem(_) => None,
            RuleTrieNode::Empty => None,
        }
    }

    /// The stored value, where this node is one.
    pub fn extract_elem(&self) -> (r: Option<&T>)
        ensures
            r is Some <==> self is Elem,
            r matches Some(v) ==> self == RuleTrieNode::<T>::Elem(*v),
    {
        match self {
            RuleTrieNode::Continue(_) => None,
            RuleTrieNode::Elem(elem) => Some(elem),
            RuleTrieNode::Empty => None,
        }
    }
}

/// The kind of node that a path reaches.
pub enum Slot<T> {
    Branch,
    Leaf(T),
    Blank,
}

/// Why an insert was refused: the path is already taken by a stored value,
/// or runs through one.
#[derive(Debug, Clone, Copy, PartialEq, Eq, Structural)]
pub enum TrieConflict {
    KeyExists,
}

/// The position of the first `k` in `keys`, or -1.
pub open spec fn first_index(keys: Seq<KeyView>, k: KeyView) -> int
    decreases keys.len(),
{
    if keys.len() == 0 {
        -1
    } else if keys[0] == k {
        0
    } else {
        let r = first_index(keys.drop_first(), k);
        if r < 0 {
            -1
        } else {
            r + 1
        }
    }
}

proof fn lemma_first_index_bounds(keys: Seq<KeyView>, k: KeyView)
    ensures
        -1 <= first_index(keys, k) < keys.len(),
        first_index(keys, k) >= 0 ==> keys[first_index(keys, k)] == k,
    decreases keys.len(),
{
    if keys.len() > 0 && keys[0] != k {
        lemma_first_index_bounds(keys.drop_first(), k);
    }
}

proof fn lemma_first_index_push(keys: Seq<KeyView>, x: KeyView, k: KeyView)
    ensures
        first_index(keys.push(x), k) == if first_index(keys, k) >= 0 {
            first_index(keys, k)
        } else if x == k {
            keys.len() as int
        } else {
            -1
        },
    decreases keys.len(),
{
    if keys.len() > 0 {
        assert(keys.push(x)[0] == keys[0]);
        if keys[0] != k {
            assert(keys.push(x).drop_first() =~= keys.drop_first().push(x));
            lemma_first_index_push(keys.drop_first(), x, k);
        }
    } else {
        assert(keys.push(x)[0] == x);
        assert(keys.push(x).drop_first() =~= Seq::<KeyView>::empty());
        assert(first_index(Seq::<KeyView>::empty(), k) == -1);
    }
}

/// A trie of rules: each level maps keys to nodes, held as a list of
/// entries in which, by the invariant `wf`, no key occurs twice.
#[derive(Debug, PartialEq, Eq)]
pub struct RuleTrie<T>(Vec<(RuleTrieKey, RuleTrieNode<T>)>);

impl<T> RuleTrie<T> {
    /// The keys of this level, in order.
    pub closed spec fn keys(self) -> Seq<KeyView> {
        self.0@.map_values(|e: (RuleTrieKey, RuleTrieNode<T>)| e.0@)
    }

    /// The node that `k` leads to at this level.
    pub closed spec fn child(self, k: KeyView) -> Option<RuleTrieNode<T>> {
        let i = first_index(self.keys(), k);
        if i < 0 {
            None
        } else {
            Some(self.0@[i].1)
        }
    }

    /// The kind of node that a non-empty path reaches from this level, or
    /// `None` where the path leads nowhere.
    pub open spec fn at(self, path: Seq<KeyView>) -> Option<Slot<T>>
        decreases path.len(),
    {
        if path.len() == 0 {
            None
        } else {
            match self.child(path[0]) {
                None => None,
                Some(RuleTrieNode::Continue(t)) => if path.len() == 1 {
                    Some(Slot::Branch)
                } else {
                    t.at(path.drop_first())
                },
                Some(RuleTrieNode::Elem(v)) => if path.len() == 1 {
                    Some(Slot::Leaf(v))
                } else {
                    None
                },
                Some(RuleTrieNode::Empty) => if path.len() == 1 {
                    Some(Slot::Blank)
                } else {
                    None
                },
            }
        }
    }

    /// What `get` finds for `keys`: at each level the node of the exact key,
    /// else that of the wildcard; a stored value is found as soon as it is
    /// reached, whatever keys remain.
    pub open spec fn lookup(self, keys: Seq<KeyView>) -> Option<T>
        decreases keys.len(),
    {
        if keys.len() == 0 {
            None
        } else {
            let node = if self.child(keys[0]) is Some {
                self.child(keys[0])
            } else {
                self.child(KeyView::Wildcard)
            };
            match node {
                Some(RuleTrieNode::Continue(t)) => t.lookup(keys.drop_first()),
                Some(RuleTrieNode::Elem(v)) => Some(v),
                _ => None,
            }
        }
    }

    /// Some prefix of `path` reaches a stored value or an empty node.
    pub open spec fn blocked(self, path: Seq<KeyView>) -> bool {
        exists|j: int|
            1 <= j <= path.len() && (#[trigger] self.at(path.take(j))) is Some && !(self.at(
                path.take(j),
            ) matches Some(Slot::Branch))
    }

    /// What `p` reaches after `path` was inserted with `v`: every prefix of
    /// `path` that led nowhere now leads to a branch, and `path` itself to
    /// `v`; all else is as before.
    pub open spec fn at_after_insert(self, path: Seq<KeyView>, v: T, p: Seq<KeyView>) -> Option<Slot<T>> {
        if 1 <= p.len() <= path.len() && p == path.take(p.len() as int) && self.at(p) is None {
            if p.len() == path.len() {
                Some(Slot::Leaf(v))
            } else {
                Some(Slot::Branch)
            }
        } else {
            self.at(p)
        }
    }

    /// `new` is `old` with `path` inserted with `v`.
    pub open spec fn inserted(old: Self, new: Self, path: Seq<KeyView>, v: T) -> bool {
        forall|p: Seq<KeyView>| #[trigger] new.at(p) == old.at_after_insert(path, v, p)
    }

    /// The level that a path of branches leads to; this level for the empty
    /// path.
    pub open spec fn sub(self, path: Seq<KeyView>) -> Option<RuleTrie<T>>
        decreases path.len(),
    {
        if path.len() == 0 {
            Some(self)
        } else {
            match self.child(path[0]) {
                Some(RuleTrieNode::Continue(t)) => t.sub(path.drop_first()),
                _ => None,
            }
        }
    }

    /// No key occurs twice at this level.
    pub open spec fn keys_unique(self) -> bool {
        forall|i: int, j: int| 0 <= i < j < self.keys().len() ==> self.keys()[i] != self.keys()[j]
    }

    /// The trie's invariant: at every level, no key occurs twice, so that
    /// each level is a map from keys to nodes.
    pub open spec fn wf(self) -> bool {
        forall|p: Seq<KeyView>| (#[trigger] self.sub(p)) is Some ==> self.sub(p).unwrap().keys_unique()
    }

    /// An empty trie.
    pub fn new() -> (r: RuleTrie<T>)
        ensures
            forall|p: Seq<KeyView>| #[trigger] r.at(p) is None,
            r.keys().len() == 0,
            r.wf(),
    {
        let r = RuleTrie(Vec::new());
        assert(r.keys() =~= Seq::<KeyView>::empty());
        assert forall|p: Seq<KeyView>| (#[trigger] r.sub(p)) is Some implies r.sub(p).unwrap().keys_unique() by {
            if p.len() > 0 {
                assert(first_index(r.keys(), p[0]) == -1);
            }
        }
        r
    }

    /// The position of the first entry for `k` at this level.
    fn position(&self, k: &RuleTrieKey) -> (r: Option<usize>)
        ensures
            r is None <==> first_index(self.keys(), k@) < 0,
            r matches Some(i) ==> i == first_index(self.keys(), k@) && i < self.0@.len(),
    {
        let ghost keys = self.keys();
        let mut i: usize = 0;
        assert(keys.skip(0) =~= keys);
        while i < self.0.len()
            invariant
                keys == self.keys(),
                i <= keys.len(),
                first_index(keys, k@) == if first_index(keys.skip(i as int), k@) < 0 {
                    -1
                } else {
                    first_index(keys.skip(i as int), k@) + i
                },
            decreases keys.len() - i,
        {
            assert(keys.skip(i as int)[0] == self.0@[i as int].0@);
            if self.0[i].0.same(k) {
                return Some(i);
            }
            assert(keys.skip(i as int).drop_first() =~= keys.skip(i as int + 1));
            i = i + 1;
        }
        None
    }

    /// The value of the first rule that `key` reaches (see `lookup`).
    pub fn get(&self, key: RuleTrieKeyString) -> (r: Option<&T>)
        ensures
            r is None <==> self.lookup(key@) is None,
            r matches Some(v) ==> self.lookup(key@) == Some(*v),
    {
        assert(key@.skip(0) =~= key@);
        self.get_from(&key.keys, 0)
    }

    fn get_from(&self, keys: &Vec<RuleTrieKey>, i: usize) -> (r: Option<&T>)
        requires
            i <= keys@.len(),
        ensures
            r is None <==> self.lookup(path_from(keys@, i as int)) is None,
            r matches Some(v) ==> self.lookup(path_from(keys@, i as int)) == Some(*v),
        decreases keys@.len() - i,
    {
        if i >= keys.len() {
            return None;
        }
        proof {
            lemma_path_from_step(keys@, i as int);
        }
        let j = match self.position(&keys[i]) {
            Some(j) => j,
            None => match self.position(&RuleTrieKey::Wildcard) {
                Some(j) => j,
                None => {
                    return None;
                },
            },
        };
        match &self.0[j].1 {
            RuleTrieNode::Continue(t) => t.get_from(keys, i + 1),
            RuleTrieNode::Elem(v) => Some(v),
            RuleTrieNode::Empty => None,
        }
    }

    /// Stores `value` at the end of the key path `key`. Refused, with the
    /// trie unchanged, where a prefix of the path already ends at a stored
    /// value: a rule is never overwritten. Where the whole path already
    /// leads to deeper rules, nothing is stored and the insert succeeds.
    pub fn insert(&mut self, key: RuleTrieKeyString, value: T) -> (r: Result<(), TrieConflict>)
        requires
            old(self).wf(),
        ensures
            final(self).wf(),
            r is Err <==> old(self).blocked(key@),
            r is Ok ==> Self::inserted(*old(self), *final(self), key@, value),
            r is Err ==> forall|p: Seq<KeyView>| #[trigger] final(self).at(p) == old(self).at(p),
    {
        assert(key@.skip(0) =~= key@);
        self.insert_from(&key.keys, 0, value)
    }

    fn insert_from(&mut self, keys: &Vec<RuleTrieKey>, i: usize, value: T) -> (r: Result<(), TrieConflict>)
        requires
            i <= keys@.len(),
            old(self).wf(),
        ensures
            final(self).wf(),
            r is Err <==> old(self).blocked(path_from(keys@, i as int)),
            r is Ok ==> Self::inserted(*old(self), *final(self), path_from(keys@, i as int), value),
            r is Err ==> forall|p: Seq<KeyView>| #[trigger] final(self).at(p) == old(self).at(p),
        decreases keys@.len() - i,
    {
        let ghost path = path_from(keys@, i as int);
        let ghost old_self = *self;
        if i >= keys.len() {
            assert forall|p: Seq<KeyView>| #[trigger] self.at(p) == old_self.at_after_insert(path, value, p) by {
            }
            return Ok(());
        }
        proof {
            lemma_path_from_step(keys@, i as int);
        }
        let ghost k = keys@[i as int]@;
        let ghost q = path.drop_first();
        match self.position(&keys[i]) {
            Some(j) => {
                proof {
                    lemma_first_index_bounds(self.keys(), k);
                }
                let ghost mut t0: RuleTrie<T> = old_self;
                let ghost mut t1: RuleTrie<T> = old_self;
                let ghost mut descended = false;
                let r = match &mut self.0[j].1 {
                    RuleTrieNode::Continue(t) => {
                        proof {
                            t0 = *t;
                            descended = true;
                            assert(old_self.child(k) == Some(RuleTrieNode::Continue(t0)));
                            lemma_wf_child(old_self, t0, k);
                        }
                        let r = t.insert_from(keys, i + 1, value);
                        proof {
                            t1 = *t;
                            lemma_blocked_through(old_self, t0, path);
                        }
                        r
                    },
                    _ => {
                        proof {
                            assert(path.take(1) =~= seq![k]);
                            assert(old_self.at(path.take(1)) is Some);
                        }
                        Err(TrieConflict::KeyExists)
                    },
                };
                proof {
                    assert(self.keys() =~= old_self.keys());
                    assert forall|p: Seq<KeyView>| p.len() > 0 && p[0] != k implies #[trigger] self.at(p)
                        == old_self.at(p) by {
                        lemma_first_index_bounds(self.keys(), p[0]);
                    }
                    assert(old_self.sub(Seq::empty()) == Some(old_self));
                    assert forall|p: Seq<KeyView>| (#[trigger] self.sub(p)) is Some implies self.sub(
                        p,
                    ).unwrap().keys_unique() by {
                        if p.len() > 0 {
                            lemma_first_index_bounds(self.keys(), p[0]);
                            if p[0] != k || !descended {
                                assert(self.child(p[0]) == old_self.child(p[0]));
                                assert(self.sub(p) == old_self.sub(p));
                            } else {
                                assert(self.sub(p) == t1.sub(p.drop_first()));
                            }
                        }
                    }
                    if descended {
                        assert(old_self.child(k) == Some(RuleTrieNode::Continue(t0)));
                        assert(self.child(k) == Some(RuleTrieNode::Continue(t1)));
                        if r is Ok {
                            assert forall|p: Seq<KeyView>| #[trigger] self.at(p) == old_self.at_after_insert(
                                path,
                                value,
                                p,
                            ) by {
                                if p.len() > 0 {
                                    if p[0] == k {
                                        if p.len() >= 2 {
                                            lemma_prefix_step(path, p);
                                            assert(t1.at(p.drop_first()) == t0.at_after_insert(
                                                q,
                                                value,
                                                p.drop_first(),
                                            ));
                                        }
                                    } else if 1 <= p.len() <= path.len() && p == path.take(p.len() as int) {
                                        assert(p[0] == path[0]);
                                    }
                                }
                            }
                        } else {
                            assert forall|p: Seq<KeyView>| #[trigger] self.at(p) == old_self.at(p) by {
                                if p.len() >= 2 && p[0] == k {
                                    assert(t1.at(p.drop_first()) == t0.at(p.drop_first()));
                                }
                            }
                        }
                    } else {
                        assert(self.0@ =~= old_self.0@);
                        assert forall|p: Seq<KeyView>| #[trigger] self.at(p) == old_self.at(p) by {
                            if p.len() > 0 {
                                assert(self.child(p[0]) == old_self.child(p[0]));
                            }
                        }
                    }
                }
                r
            },
            None => {
                let ghost mut fresh: RuleTrie<T> = old_self;
                let ghost mut built: RuleTrie<T> = old_self;
                let node = if i + 1 == keys.len() {
                    RuleTrieNode::Elem(value)
                } else {
                    let mut t: RuleTrie<T> = RuleTrie::new();
                    proof {
                        fresh = t;
                    }
                    let _ = t.insert_from(keys, i + 1, value);
                    proof {
                        built = t;
                    }
                    RuleTrieNode::Continue(t)
                };
                let ghost n = node;
                let key = keys[i].duplicate();
                self.0.push((key, node));
                proof {
                    assert(self.keys() =~= old_self.keys().push(k));
                    lemma_not_found(old_self.keys(), k);
                    assert(old_self.sub(Seq::empty()) == Some(old_self));
                    assert forall|p: Seq<KeyView>| (#[trigger] self.sub(p)) is Some implies self.sub(
                        p,
                    ).unwrap().keys_unique() by {
                        if p.len() > 0 {
                            lemma_first_index_push(old_self.keys(), k, p[0]);
                            lemma_first_index_bounds(old_self.keys(), p[0]);
                            if p[0] != k {
                                assert(self.child(p[0]) == old_self.child(p[0]));
                                assert(self.sub(p) == old_self.sub(p));
                            } else {
                                assert(self.child(k) == Some(n));
                                if path.len() >= 2 {
                                    assert(self.sub(p) == built.sub(p.drop_first()));
                                }
                            }
                        } else {
                            assert(self.sub(p) == Some(*self));
                        }
                    }
                    assert forall|p: Seq<KeyView>| p.len() > 0 implies #[trigger] self.at(p)
                        == old_self.at_after_insert(path, value, p) by {
                        lemma_first_index_push(old_self.keys(), k, p[0]);
                        lemma_first_index_bounds(old_self.keys(), p[0]);
                        if p[0] == k {
                            assert(self.child(k) == Some(n));
                            assert(old_self.child(k) is None);
                            assert(old_self.at(p) is None);
                            if p.len() >= 2 {
                                if path.len() >= 2 {
                                    lemma_prefix_step(path, p);
                                    assert(n == RuleTrieNode::Continue(built));
                                    assert(fresh.at(p.drop_first()) is None);
                                    assert(built.at(p.drop_first()) == fresh.at_after_insert(
                                        q,
                                        value,
                                        p.drop_first(),
                                    ));
                                }
                            } else {
                                assert(p =~= path.take(1));
                            }
                        } else {
                            assert(self.child(p[0]) == old_self.child(p[0]));
                            if 1 <= p.len() <= path.len() && p == path.take(p.len() as int) {
                                assert(p[0] == path[0]);
                            }
                        }
                    }
                    assert forall|p: Seq<KeyView>| #[trigger] self.at(p) == old_self.at_after_insert(
                        path,
                        value,
                        p,
                    ) by {
                        if p.len() == 0 {
                        }
                    }
                    assert forall|j: int| 1 <= j <= path.len() implies (#[trigger] old_self.at(
                        path.take(j),
                    )) is None by {
                        assert(path.take(j)[0] == k);
                    }
                }
                Ok(())
            },
        }
    }
}

/// Once an insert has stored a value at a key path, inserting that path
/// again is refused. (Where the path already led only to deeper rules, the
/// first insert stores nothing, and so neither insert is refused.)
pub proof fn lemma_duplicate_insert_rejected<T>(t0: RuleTrie<T>, t1: RuleTrie<T>, path: Seq<KeyView>, v: T)
    requires
        path.len() > 0,
        !t0.blocked(path),
        RuleTrie::inserted(t0, t1, path, v),
        t0.at(path) != Some(Slot::<T>::Branch),
    ensures
        t1.blocked(path),
{
    let n = path.len() as int;
    assert(path.take(n) =~= path);
    assert(t0.at(path.take(n)) is None);
    assert(t1.at(path.take(n)) == Some(Slot::Leaf(v)));
}

/// A path that starts like `path` is a prefix of it exactly where its rest
/// is a prefix of the rest of `path`.
proof fn lemma_prefix_step(path: Seq<KeyView>, p: Seq<KeyView>)
    requires
        path.len() >= 1,
        p.len() >= 2,
        p[0] == path[0],
    ensures
        (p.len() <= path.len() && p == path.take(p.len() as int)) == (p.drop_first().len()
            <= path.drop_first().len() && p.drop_first() == path.drop_first().take(
            p.drop_first().len() as int,
        )),
{
    if p.len() <= path.len() {
        if p == path.take(p.len() as int) {
            assert(p.drop_first() =~= path.drop_first().take(p.drop_first().len() as int));
        }
        if p.drop_first() == path.drop_first().take(p.drop_first().len() as int) {
            assert forall|x: int| 0 <= x < p.len() implies p[x] == path.take(p.len() as int)[x] by {
                if x > 0 {
                    assert(p[x] == p.drop_first()[x - 1]);
                    assert(path.drop_first().take(p.drop_first().len() as int)[x - 1] == path[x]);
                }
            }
            assert(p =~= path.take(p.len() as int));
        }
    }
}

/// The models of `keys[i..]`.
pub open spec fn path_from(keys: Seq<RuleTrieKey>, i: int) -> Seq<KeyView> {
    keys.map_values(|k: RuleTrieKey| k@).skip(i)
}

proof fn lemma_path_from_step(keys: Seq<RuleTrieKey>, i: int)
    requires
        0 <= i < keys.len(),
    ensures
        path_from(keys, i).len() == keys.len() - i,
        path_from(keys, i)[0] == keys[i]@,
        path_from(keys, i).drop_first() == path_from(keys, i + 1),
{
    assert(path_from(keys, i).drop_first() =~= path_from(keys, i + 1));
}

/// A key that `first_index` does not find occurs nowhere.
proof fn lemma_not_found(keys: Seq<KeyView>, k: KeyView)
    requires
        first_index(keys, k) < 0,
    ensures
        forall|i: int| 0 <= i < keys.len() ==> keys[i] != k,
    decreases keys.len(),
{
    if keys.len() > 0 {
        lemma_not_found(keys.drop_first(), k);
        assert forall|i: int| 0 <= i < keys.len() implies keys[i] != k by {
            if i > 0 {
                assert(keys[i] == keys.drop_first()[i - 1]);
            }
        }
    }
}

/// The level below a branch of a well-formed trie is well-formed.
proof fn lemma_wf_child<T>(a: RuleTrie<T>, t: RuleTrie<T>, k: KeyView)
    requires
        a.wf(),
        a.child(k) == Some(RuleTrieNode::Continue(t)),
    ensures
        t.wf(),
{
    assert forall|q: Seq<KeyView>| (#[trigger] t.sub(q)) is Some implies t.sub(q).unwrap().keys_unique() by {
        let p = seq![k] + q;
        assert(p[0] == k);
        assert(p.drop_first() =~= q);
        assert(a.sub(p) == t.sub(q));
    }
}

/// Below a branch, a path blocks exactly where its rest blocks in the
/// deeper level.
proof fn lemma_blocked_through<T>(a: RuleTrie<T>, t: RuleTrie<T>, path: Seq<KeyView>)
    requires
        path.len() > 0,
        a.child(path[0]) == Some(RuleTrieNode::Continue(t)),
    ensures
        a.blocked(path) <==> t.blocked(path.drop_first()),
        forall|j: int|
            2 <= j <= path.len() ==> #[trigger] a.at(path.take(j)) == t.at(path.drop_first().take(j - 1)),
{
    let q = path.drop_first();
    assert forall|j: int| 2 <= j <= path.len() implies #[trigger] a.at(path.take(j)) == t.at(q.take(j - 1)) by {
        assert(path.take(j).drop_first() =~= q.take(j - 1));
        assert(path.take(j)[0] == path[0]);
    }
    assert(a.at(path.take(1)) == Some(Slot::<T>::Branch)) by {
        assert(path.take(1)[0] == path[0]);
    }
    if t.blocked(q) {
        let j = choose|j: int|
            1 <= j <= q.len() && (#[trigger] t.at(q.take(j))) is Some && !(t.at(q.take(j)) matches Some(
                Slot::Branch,
            ));
        assert(a.at(path.take(j + 1)) == t.at(q.take(j)));
    }
    if a.blocked(path) {
        let j = choose|j: int|
            1 <= j <= path.len() && (#[trigger] a.at(path.take(j))) is Some && !(a.at(path.take(j)) matches Some(
                Slot::Branch,
            ));
        assert(j >= 2);
        assert(t.at(q.take(j - 1)) == a.at(path.take(j)));
    }
}

} // verus!
