//! The key tree: a hierarchical view of flat, underscore-delimited,
//! case-insensitive keys.
//!
//! A tree is built once from a sequence of key/value pairs: each key is
//! lower-cased, split on `_`, and walked segment by segment from the root,
//! creating children as needed; the final segment's node receives the value
//! (a later pair for the same path overwrites it). Afterwards the tree is
//! only queried: [`Node::get`] resolves a key by the same segmentation rule,
//! and [`Node::flatten`] enumerates the full keys of all leaves.

use vstd::prelude::*;

use crate::text::{clone_string, lower, lower_char, split_on, str_eq, views_of, to_lower, split_str};

verus! {

/// Mathematical model of a tree node: a value and a sequence of named
/// children, in insertion order.
#[verifier::ext_equal]
pub ghost struct NodeView {
    pub value: Seq<char>,
    pub children: Seq<(Seq<char>, NodeView)>,
}

/// A node of the key tree. Each node holds the raw string value assigned to
/// its own path (empty if none was ever set) and its named children.
#[derive(Debug)]
pub struct Node {
    value: String,
    children: Vec<(String, Node)>,
}

/// The models of a sequence of named children, in order.
pub closed spec fn children_view(cs: Seq<(String, Node)>) -> Seq<(Seq<char>, NodeView)>
    decreases cs,
{
    if cs.len() == 0 {
        Seq::empty()
    } else {
        seq![(cs[0].0@, cs[0].1@)] + children_view(cs.drop_first())
    }
}

impl View for Node {
    type V = NodeView;

    closed spec fn view(&self) -> NodeView
        decreases self,
    {
        NodeView { value: self.value@, children: children_view(self.children@) }
    }
}

pub broadcast proof fn lemma_children_view_len(cs: Seq<(String, Node)>)
    ensures
        #[trigger] children_view(cs).len() == cs.len(),
    decreases cs.len(),
{
    if cs.len() > 0 {
        lemma_children_view_len(cs.drop_first());
        assert(children_view(cs) == seq![(cs[0].0@, cs[0].1@)] + children_view(cs.drop_first()));
    } else {
        assert(children_view(cs) == Seq::<(Seq<char>, NodeView)>::empty());
    }
}

pub broadcast proof fn lemma_children_view_index(cs: Seq<(String, Node)>, i: int)
    requires
        0 <= i < cs.len(),
    ensures
        #[trigger] children_view(cs)[i] == (cs[i].0@, cs[i].1@),
    decreases cs.len(),
{
    lemma_children_view_len(cs);
    assert(children_view(cs) == seq![(cs[0].0@, cs[0].1@)] + children_view(cs.drop_first()));
    if i > 0 {
        lemma_children_view_index(cs.drop_first(), i - 1);
        assert(children_view(cs)[i] == children_view(cs.drop_first())[i - 1]);
        assert(cs.drop_first()[i - 1] == cs[i]);
    }
}

/// Resolving `key` against the tree `t`: the key is lower-cased, split on
/// `_`, and the segments walked from `t`.
pub open spec fn spec_get(t: NodeView, key: Seq<char>) -> Option<NodeView> {
    t.get_path(split_on(lower(key), '_'))
}

/// The index of the first child named `name`, or -1 if there is none.
pub open spec fn find_key(cs: Seq<(Seq<char>, NodeView)>, name: Seq<char>) -> int
    decreases cs.len(),
{
    if cs.len() == 0 {
        -1
    } else if cs[0].0 == name {
        0
    } else {
        let r = find_key(cs.drop_first(), name);
        if r < 0 {
            -1
        } else {
            r + 1
        }
    }
}

/// `find_key` returns -1 exactly when no child is named `name`, and otherwise
/// the first index of a child so named.
pub proof fn lemma_find_key(cs: Seq<(Seq<char>, NodeView)>, name: Seq<char>)
    ensures
        find_key(cs, name) == -1 || 0 <= find_key(cs, name) < cs.len(),
        find_key(cs, name) >= 0 ==> cs[find_key(cs, name)].0 == name,
        find_key(cs, name) >= 0 ==> forall|j: int|
            0 <= j < find_key(cs, name) ==> cs[j].0 != name,
        find_key(cs, name) == -1 ==> forall|j: int| 0 <= j < cs.len() ==> cs[j].0 != name,
    decreases cs.len(),
{
    if cs.len() > 0 && cs[0].0 != name {
        lemma_find_key(cs.drop_first(), name);
        if find_key(cs, name) >= 0 {
            assert forall|j: int| 0 <= j < find_key(cs, name) implies cs[j].0 != name by {
                if j > 0 {
                    assert(cs[j] == cs.drop_first()[j - 1]);
                }
            }
        } else {
            assert forall|j: int| 0 <= j < cs.len() implies cs[j].0 != name by {
                if j > 0 {
                    assert(cs[j] == cs.drop_first()[j - 1]);
                }
            }
        }
    }
}

/// No child is named `name` exactly when every index mismatches; this is the
/// quantifier form of `lemma_find_key` for a known index.
pub proof fn lemma_find_key_is(cs: Seq<(Seq<char>, NodeView)>, name: Seq<char>, i: int)
    requires
        0 <= i < cs.len(),
        cs[i].0 == name,
        forall|j: int| 0 <= j < i ==> cs[j].0 != name,
    ensures
        find_key(cs, name) == i,
{
    lemma_find_key(cs, name);
}

impl NodeView {
    /// The node with no value and no children.
    pub open spec fn empty() -> NodeView {
        NodeView { value: Seq::empty(), children: Seq::empty() }
    }

    /// A leaf carries no children (it may or may not carry a value).
    pub open spec fn is_leaf(self) -> bool {
        self.children.len() == 0
    }

    /// A node is empty when it has neither a value nor children.
    pub open spec fn is_empty(self) -> bool {
        self.value.len() == 0 && self.children.len() == 0
    }

    /// The first child named `name`, if any.
    pub open spec fn get_child(self, name: Seq<char>) -> Option<NodeView> {
        let i = find_key(self.children, name);
        if i >= 0 {
            Some(self.children[i].1)
        } else {
            None
        }
    }

    /// The node reached by walking the given segments from `self`.
    pub open spec fn get_path(self, path: Seq<Seq<char>>) -> Option<NodeView>
        decreases path.len(),
    {
        if path.len() == 0 {
            Some(self)
        } else {
            match self.get_child(path[0]) {
                Some(c) => c.get_path(path.drop_first()),
                None => None,
            }
        }
    }

    /// The tree after walking the given segments from `self`, creating
    /// missing children on the way, and setting the final node's value.
    pub open spec fn insert_path(self, path: Seq<Seq<char>>, value: Seq<char>) -> NodeView
        decreases path.len(),
    {
        if path.len() == 0 {
            NodeView { value, children: self.children }
        } else {
            let i = find_key(self.children, path[0]);
            let child = if i >= 0 {
                self.children[i].1
            } else {
                NodeView::empty()
            };
            let child2 = child.insert_path(path.drop_first(), value);
            let children2 = if i >= 0 {
                self.children.update(i, (path[0], child2))
            } else {
                self.children.push((path[0], child2))
            };
            NodeView { value: self.value, children: children2 }
        }
    }
}

/// No two children share a name.
pub open spec fn keys_distinct(cs: Seq<(Seq<char>, NodeView)>) -> bool {
    forall|i: int, j: int| 0 <= i < j < cs.len() ==> cs[i].0 != cs[j].0
}

/// Every child name is already lower-case.
pub open spec fn keys_lower(cs: Seq<(Seq<char>, NodeView)>) -> bool {
    forall|i: int| 0 <= i < cs.len() ==> cs[i].0 == lower(#[trigger] cs[i].0)
}

/// Every child subtree is well formed.
pub open spec fn children_wf(cs: Seq<(Seq<char>, NodeView)>) -> bool
    decreases cs,
{
    cs.len() == 0 || (cs[0].1.wf() && children_wf(cs.drop_first()))
}

impl NodeView {
    /// Well-formedness: throughout the tree, child names are distinct and
    /// lower-case. Construction establishes this; queries need not assume it.
    pub open spec fn wf(self) -> bool
        decreases self,
    {
        keys_distinct(self.children) && keys_lower(self.children) && children_wf(self.children)
    }
}

pub proof fn lemma_children_wf_index(cs: Seq<(Seq<char>, NodeView)>)
    requires
        children_wf(cs),
    ensures
        forall|i: int| 0 <= i < cs.len() ==> (#[trigger] cs[i].1).wf(),
    decreases cs.len(),
{
    if cs.len() > 0 {
        lemma_children_wf_index(cs.drop_first());
        assert forall|i: int| 0 <= i < cs.len() implies (#[trigger] cs[i].1).wf() by {
            if i > 0 {
                assert(cs[i] == cs.drop_first()[i - 1]);
            }
        }
    }
}

pub proof fn lemma_children_wf_all(cs: Seq<(Seq<char>, NodeView)>)
    requires
        forall|i: int| 0 <= i < cs.len() ==> (#[trigger] cs[i].1).wf(),
    ensures
        children_wf(cs),
    decreases cs.len(),
{
    if cs.len() > 0 {
        assert forall|j: int| 0 <= j < cs.drop_first().len() implies (#[trigger] cs.drop_first()[j].1).wf() by {
            assert(cs.drop_first()[j] == cs[j + 1]);
        }
        lemma_children_wf_all(cs.drop_first());
    }
}

impl Node {
    /// A node holding `value`, with no children.
    pub fn new(value: String) -> (r: Node)
        ensures
            r@ == (NodeView { value: value@, children: Seq::<(Seq<char>, NodeView)>::empty() }),
    {
        let r = Node { value, children: Vec::new() };
        proof {
            assert(children_view(r.children@) == Seq::<(Seq<char>, NodeView)>::empty());
        }
        r
    }

    /// The raw string value at this node; empty if none was ever set.
    pub fn value(&self) -> (r: &str)
        ensures
            r@ == self@.value,
    {
        self.value.as_str()
    }

    /// Consumes the node, handing out its raw string value.
    pub fn into_value(self) -> (r: String)
        ensures
            r@ == self@.value,
    {
        let Node { value, children } = self;
        value
    }

    /// True when the node has neither a value nor children.
    pub fn is_empty(&self) -> (r: bool)
        ensures
            r == self@.is_empty(),
    {
        proof {
            lemma_children_view_len(self.children@);
        }
        self.value.as_str().is_empty() && self.children.len() == 0
    }

    /// True when the node has at least one child.
    pub fn has_children(&self) -> (r: bool)
        ensures
            r == !self@.is_leaf(),
    {
        proof {
            lemma_children_view_len(self.children@);
        }
        self.children.len() > 0
    }

    /// The index of the first child named `name`, if any.
    fn find_child(&self, name: &String) -> (r: Option<usize>)
        ensures
            match r {
                Some(j) => find_key(self@.children, name@) == j,
                None => find_key(self@.children, name@) == -1,
            },
    {
        proof {
            lemma_children_view_len(self.children@);
        }
        let mut j: usize = 0;
        while j < self.children.len()
            invariant
                j <= self.children.len(),
                self@.children.len() == self.children@.len(),
                forall|k: int| 0 <= k < j ==> self@.children[k].0 != name@,
            decreases self.children.len() - j,
        {
            proof {
                lemma_children_view_index(self.children@, j as int);
            }
            if self.children[j].0.eq(name) {
                proof {
                    lemma_find_key_is(self@.children, name@, j as int);
                }
                return Some(j);
            }
            j = j + 1;
        }
        proof {
            lemma_find_key(self@.children, name@);
        }
        None
    }

    /// Resolves `key` against the subtree rooted at `self`: the key is
    /// lower-cased and split on `_`, and the segments are walked in order.
    /// Returns the node reached, or `None` as soon as a segment is absent.
    pub fn get<'a>(&'a self, key: &str) -> (r: Option<&'a Node>)
        ensures
            match r {
                Some(n) => spec_get(self@, key@) == Some(n@),
                None => spec_get(self@, key@) is None,
            },
    {
        let lowered = to_lower(key);
        let segs = split_str(lowered.as_str(), '_');
        let ghost path = split_on(lower(key@), '_');
        let mut cur: &Node = self;
        let mut i: usize = 0;
        proof {
            assert(views_of(segs@).skip(0) =~= views_of(segs@));
        }
        while i < segs.len()
            invariant
                i <= segs.len(),
                path == split_on(lower(key@), '_'),
                path == views_of(segs@),
                self@.get_path(path) == cur@.get_path(path.skip(i as int)),
            decreases segs.len() - i,
        {
            let ghost rest = path.skip(i as int);
            proof {
                assert(rest[0] == segs@[i as int]@);
                assert(rest.drop_first() =~= path.skip(i + 1));
            }
            match cur.find_child(&segs[i]) {
                Some(j) => {
                    proof {
                        lemma_find_key(cur@.children, segs@[i as int]@);
                    }
                    cur = &self_child(cur, j).1;
                }
                None => {
                    proof {
                        assert(cur@.get_child(rest[0]) is None);
                        assert(cur@.get_path(rest) is None);
                    }
                    return None;
                }
            }
            i = i + 1;
        }
        proof {
            assert(path.skip(segs@.len() as int) =~= Seq::<Seq<char>>::empty());
        }
        Some(cur)
    }
}

/// Borrows the `j`-th named child entry of `n`.
fn self_child<'a>(n: &'a Node, j: usize) -> (r: &'a (String, Node))
    requires
        j < n@.children.len(),
    ensures
        r.0@ == n@.children[j as int].0,
        r.1@ == n@.children[j as int].1,
{
    proof {
        lemma_children_view_len(n.children@);
        lemma_children_view_index(n.children@, j as int);
    }
    &n.children[j]
}

/// `children_view` maps `push` to `push`.
pub proof fn lemma_children_view_push(cs: Seq<(String, Node)>, e: (String, Node))
    ensures
        children_view(cs.push(e)) == children_view(cs).push((e.0@, e.1@)),
{
    lemma_children_view_len(cs);
    lemma_children_view_len(cs.push(e));
    assert forall|i: int| 0 <= i < cs.push(e).len() implies children_view(cs.push(e))[i]
        == children_view(cs).push((e.0@, e.1@))[i] by {
        lemma_children_view_index(cs.push(e), i);
        if i < cs.len() {
            lemma_children_view_index(cs, i);
        }
    }
    assert(children_view(cs.push(e)) =~= children_view(cs).push((e.0@, e.1@)));
}

/// `children_view` maps `update` to `update`.
pub proof fn lemma_children_view_update(cs: Seq<(String, Node)>, i: int, e: (String, Node))
    requires
        0 <= i < cs.len(),
    ensures
        children_view(cs.update(i, e)) == children_view(cs).update(i, (e.0@, e.1@)),
{
    lemma_children_view_len(cs);
    lemma_children_view_len(cs.update(i, e));
    assert forall|k: int| 0 <= k < cs.update(i, e).len() implies children_view(cs.update(i, e))[k]
        == children_view(cs).update(i, (e.0@, e.1@))[k] by {
        lemma_children_view_index(cs.update(i, e), k);
        if k != i {
            lemma_children_view_index(cs, k);
        }
    }
    assert(children_view(cs.update(i, e)) =~= children_view(cs).update(i, (e.0@, e.1@)));
}

impl Node {
    /// A deep copy, equal to the original in the model.
    pub fn duplicate(&self) -> (r: Node)
        ensures
            r@ == self@,
        decreases self,
    {
        proof {
            lemma_children_view_len(self.children@);
        }
        let mut children: Vec<(String, Node)> = Vec::new();
        let mut j: usize = 0;
        proof {
            assert(self.children@.take(0) =~= Seq::<(String, Node)>::empty());
            assert(children_view(children@) == children_view(self.children@.take(0)));
        }
        while j < self.children.len()
            invariant
                j <= self.children.len(),
                children_view(children@) == children_view(self.children@.take(j as int)),
            decreases self.children.len() - j,
        {
            let name = self.children[j].0.clone();
            let child = self.children[j].1.duplicate();
            let ghost old_children = children@;
            children.push((name, child));
            j = j + 1;
            proof {
                lemma_children_view_push(old_children, (name, child));
                lemma_children_view_push(
                    self.children@.take(j - 1),
                    (self.children@[j - 1].0, self.children@[j - 1].1),
                );
                assert(self.children@.take(j as int) =~= self.children@.take(j - 1).push(
                    self.children@[j - 1],
                ));
            }
        }
        proof {
            assert(self.children@.take(self.children@.len() as int) =~= self.children@);
        }
        Node { value: self.value.clone(), children }
    }

    /// Walks the segments `segs[i..]` from `self`, creating missing children,
    /// and sets the final node's value; hands back the updated tree.
    fn insert_at(self, segs: &Vec<String>, i: usize, value: String) -> (r: Node)
        requires
            i <= segs@.len(),
        ensures
            r@ == self@.insert_path(views_of(segs@).skip(i as int), value@),
        decreases segs@.len() - i,
    {
        let ghost path = views_of(segs@).skip(i as int);
        if i == segs.len() {
            proof {
                assert(path =~= Seq::<Seq<char>>::empty());
            }
            let Node { value: _old_value, children } = self;
            Node { value, children }
        } else {
            proof {
                assert(path[0] == segs@[i as int]@);
                assert(path.drop_first() =~= views_of(segs@).skip(i + 1));
                lemma_children_view_len(self.children@);
            }
            let found = self.find_child(&segs[i]);
            let Node { value: own_value, children: mut cs } = self;
            let ghost old_cs = cs@;
            match found {
                Some(j) => {
                    proof {
                        lemma_find_key(children_view(old_cs), segs@[i as int]@);
                        lemma_children_view_index(old_cs, j as int);
                    }
                    let (name, child) = cs.remove(j);
                    let child2 = child.insert_at(segs, i + 1, value);
                    cs.insert(j, (name, child2));
                    proof {
                        assert(cs@ =~= old_cs.update(j as int, (name, child2)));
                        lemma_children_view_update(old_cs, j as int, (name, child2));
                        assert(name@ == segs@[i as int]@);
                    }
                    Node { value: own_value, children: cs }
                }
                None => {
                    let name = clone_string(&segs[i]);
                    let child = Node::new(String::new()).insert_at(segs, i + 1, value);
                    cs.push((name, child));
                    proof {
                        lemma_children_view_push(old_cs, (name, child));
                        assert(NodeView::empty().insert_path(path.drop_first(), value@)
                            == child@);
                    }
                    Node { value: own_value, children: cs }
                }
            }
        }
    }
}

impl Node {
    /// Structural equality: the same value and the same named children, in
    /// the same order, throughout the tree.
    pub fn deep_eq(&self, other: &Node) -> (r: bool)
        ensures
            r == (self@ == other@),
        decreases self,
    {
        proof {
            lemma_children_view_len(self.children@);
            lemma_children_view_len(other.children@);
        }
        if !str_eq(self.value.as_str(), other.value.as_str()) {
            return false;
        }
        if self.children.len() != other.children.len() {
            return false;
        }
        let mut j: usize = 0;
        while j < self.children.len()
            invariant
                j <= self.children.len(),
                self@.children.len() == self.children@.len(),
                other@.children.len() == other.children@.len(),
                self.children@.len() == other.children@.len(),
                forall|k: int| 0 <= k < j ==> self@.children[k] == other@.children[k],
            decreases self.children.len() - j,
        {
            proof {
                lemma_children_view_index(self.children@, j as int);
                lemma_children_view_index(other.children@, j as int);
            }
            if !str_eq(self.children[j].0.as_str(), other.children[j].0.as_str()) {
                return false;
            }
            if !self.children[j].1.deep_eq(&other.children[j].1) {
                return false;
            }
            j = j + 1;
        }
        proof {
            assert(self@.children =~= other@.children);
        }
        true
    }
}

/// The pairwise views of a sequence of key/value string pairs.
pub open spec fn pair_views(v: Seq<(String, String)>) -> Seq<(Seq<char>, Seq<char>)> {
    Seq::new(v.len(), |i: int| (v[i].0@, v[i].1@))
}

/// Prefix stripping on an already lower-cased key: a key equal to the prefix
/// loses all of it; a key starting with the prefix followed by `_` loses both;
/// any other key is discarded.
pub open spec fn strip_prefix(key: Seq<char>, prefix: Seq<char>) -> Option<Seq<char>> {
    if key == prefix {
        Some(Seq::empty())
    } else if key.len() > prefix.len() && key.take(prefix.len() as int) == prefix && key[
        prefix.len() as int
    ] == '_' {
        Some(key.skip(prefix.len() + 1 as int))
    } else {
        None
    }
}

/// One pair folded into the tree: the key is lower-cased, optionally stripped
/// of the (lower-cased) prefix — discarding the pair if the prefix does not
/// match — split on `_`, and inserted.
pub open spec fn apply_pair(
    node: NodeView,
    key: Seq<char>,
    value: Seq<char>,
    prefix: Option<Seq<char>>,
) -> NodeView {
    match prefix {
        None => node.insert_path(split_on(lower(key), '_'), value),
        Some(p) => match strip_prefix(lower(key), lower(p)) {
            Some(k) => node.insert_path(split_on(k, '_'), value),
            None => node,
        },
    }
}

/// The tree built from the pairs in order, starting from the empty node;
/// a later pair for the same path overwrites the value (last write wins).
pub open spec fn build_pairs(
    pairs: Seq<(Seq<char>, Seq<char>)>,
    prefix: Option<Seq<char>>,
) -> NodeView
    decreases pairs.len(),
{
    if pairs.len() == 0 {
        NodeView::empty()
    } else {
        apply_pair(
            build_pairs(pairs.drop_last(), prefix),
            pairs.last().0,
            pairs.last().1,
            prefix,
        )
    }
}

/// Lower-casing a character twice is the same as once.
pub proof fn lemma_lower_idem(s: Seq<char>)
    ensures
        lower(lower(s)) == lower(s),
{
    assert(lower(lower(s)) =~= lower(s));
}

/// Lower-casing commutes with dropping a prefix.
pub proof fn lemma_lower_skip(s: Seq<char>, m: int)
    requires
        0 <= m <= s.len(),
    ensures
        lower(s.skip(m)) == lower(s).skip(m),
{
    assert(lower(s.skip(m)) =~= lower(s).skip(m));
}

/// A character property that holds throughout the input holds throughout
/// every piece of its split.
pub proof fn lemma_split_on_chars(s: Seq<char>, sep: char, p: spec_fn(char) -> bool)
    requires
        forall|i: int| 0 <= i < s.len() ==> p(s[i]),
    ensures
        forall|k: int, l: int|
            0 <= k < split_on(s, sep).len() && 0 <= l < split_on(s, sep)[k].len() ==> p(
                #[trigger] split_on(s, sep)[k][l],
            ),
    decreases s.len(),
{
    crate::text::lemma_split_on_len(s, sep);
    if s.len() == 0 {
    } else {
        assert(forall|i: int| 0 <= i < s.drop_first().len() ==> p(#[trigger] s.drop_first()[i]));
        lemma_split_on_chars(s.drop_first(), sep, p);
        let rest = split_on(s.drop_first(), sep);
        crate::text::lemma_split_on_len(s.drop_first(), sep);
        if s[0] == sep {
            let whole = seq![Seq::<char>::empty()] + rest;
            assert forall|k: int, l: int|
                0 <= k < whole.len() && 0 <= l < whole[k].len() implies p(#[trigger] whole[k][l]) by {
                assert(whole[k] == rest[k - 1]);
            }
        } else {
            let whole = seq![seq![s[0]] + rest[0]] + rest.drop_first();
            assert forall|k: int, l: int|
                0 <= k < whole.len() && 0 <= l < whole[k].len() implies p(#[trigger] whole[k][l]) by {
                if k == 0 {
                    assert(whole[0] == seq![s[0]] + rest[0]);
                    if l == 0 {
                        assert(whole[0][0] == s[0]);
                    } else {
                        assert(whole[0][l] == rest[0][l - 1]);
                    }
                } else {
                    assert(whole[k] == rest.drop_first()[k - 1]);
                    assert(rest.drop_first()[k - 1] == rest[k]);
                }
            }
        }
    }
}

/// Every piece of the split of an already lower-cased sequence is itself
/// lower-case.
pub proof fn lemma_split_pieces_lower(s: Seq<char>, sep: char)
    requires
        s == lower(s),
    ensures
        forall|k: int|
            0 <= k < split_on(s, sep).len() ==> #[trigger] split_on(s, sep)[k] == lower(
                split_on(s, sep)[k],
            ),
{
    assert forall|c: char| #[trigger] lower_char(lower_char(c)) == lower_char(c) by {}
    assert forall|i: int| 0 <= i < s.len() implies lower_char(#[trigger] s[i]) == s[i] by {
        assert(s[i] == lower(s)[i]);
    }
    lemma_split_on_chars(s, sep, |c: char| lower_char(c) == c);
    assert forall|k: int|
        0 <= k < split_on(s, sep).len() implies #[trigger] split_on(s, sep)[k] == lower(
        split_on(s, sep)[k],
    ) by {
        assert(split_on(s, sep)[k] =~= lower(split_on(s, sep)[k]));
    }
}

/// Inserting a path of lower-case segments preserves well-formedness.
pub proof fn lemma_insert_wf(n: NodeView, path: Seq<Seq<char>>, value: Seq<char>)
    requires
        n.wf(),
        forall|k: int| 0 <= k < path.len() ==> #[trigger] path[k] == lower(path[k]),
    ensures
        n.insert_path(path, value).wf(),
    decreases path.len(),
{
    if path.len() == 0 {
    } else {
        lemma_find_key(n.children, path[0]);
        lemma_children_wf_index(n.children);
        let i = find_key(n.children, path[0]);
        let child = if i >= 0 {
            n.children[i].1
        } else {
            NodeView::empty()
        };
        assert(child.wf());
        assert forall|k: int|
            0 <= k < path.drop_first().len() implies #[trigger] path.drop_first()[k] == lower(
            path.drop_first()[k],
        ) by {
            assert(path.drop_first()[k] == path[k + 1]);
        }
        lemma_insert_wf(child, path.drop_first(), value);
        let child2 = child.insert_path(path.drop_first(), value);
        let result = n.insert_path(path, value);
        if i >= 0 {
            let cs2 = n.children.update(i, (path[0], child2));
            assert(n.children[i].0 == path[0]);
            assert forall|a: int, b: int| 0 <= a < b < cs2.len() implies cs2[a].0 != cs2[b].0 by {
                assert(cs2[a].0 == n.children[a].0);
                assert(cs2[b].0 == n.children[b].0);
            }
            assert forall|a: int| 0 <= a < cs2.len() implies cs2[a].0 == lower(
                #[trigger] cs2[a].0,
            ) by {
                assert(cs2[a].0 == n.children[a].0);
            }
            assert forall|a: int| 0 <= a < cs2.len() implies (#[trigger] cs2[a].1).wf() by {
                if a != i {
                    assert(cs2[a].1 == n.children[a].1);
                }
            }
            lemma_children_wf_all(cs2);
            assert(result.children == cs2);
        } else {
            let cs2 = n.children.push((path[0], child2));
            assert forall|a: int, b: int| 0 <= a < b < cs2.len() implies cs2[a].0 != cs2[b].0 by {
                if b < n.children.len() {
                    assert(cs2[a].0 == n.children[a].0);
                    assert(cs2[b].0 == n.children[b].0);
                } else {
                    assert(cs2[a].0 == n.children[a].0);
                    assert(cs2[b].0 == path[0]);
                }
            }
            assert forall|a: int| 0 <= a < cs2.len() implies cs2[a].0 == lower(
                #[trigger] cs2[a].0,
            ) by {
                if a < n.children.len() {
                    assert(cs2[a].0 == n.children[a].0);
                } else {
                    assert(cs2[a].0 == path[0]);
                }
            }
            assert forall|a: int| 0 <= a < cs2.len() implies (#[trigger] cs2[a].1).wf() by {
                if a < n.children.len() {
                    assert(cs2[a].1 == n.children[a].1);
                }
            }
            lemma_children_wf_all(cs2);
            assert(result.children == cs2);
        }
    }
}

/// The empty node is well formed.
pub proof fn lemma_empty_wf()
    ensures
        NodeView::empty().wf(),
{
    assert(children_wf(Seq::<(Seq<char>, NodeView)>::empty()));
}

/// A built tree is well formed, whatever the pairs and the prefix.
pub proof fn lemma_build_wf(pairs: Seq<(Seq<char>, Seq<char>)>, prefix: Option<Seq<char>>)
    ensures
        build_pairs(pairs, prefix).wf(),
    decreases pairs.len(),
{
    if pairs.len() == 0 {
        lemma_empty_wf();
    } else {
        lemma_build_wf(pairs.drop_last(), prefix);
        let n = build_pairs(pairs.drop_last(), prefix);
        let key = pairs.last().0;
        let value = pairs.last().1;
        match prefix {
            None => {
                lemma_lower_idem(key);
                lemma_split_pieces_lower(lower(key), '_');
                lemma_insert_wf(n, split_on(lower(key), '_'), value);
            }
            Some(p) => {
                match strip_prefix(lower(key), lower(p)) {
                    Some(k) => {
                        lemma_lower_idem(key);
                        if lower(key) == lower(p) {
                            assert(k =~= Seq::<char>::empty());
                            assert(k == lower(k)) by {
                                assert(lower(k) =~= k);
                            }
                        } else {
                            let m = lower(p).len() + 1;
                            lemma_lower_skip(lower(key), m as int);
                            assert(lower(k) == lower(lower(key).skip(m as int)));
                            assert(lower(k) == lower(lower(key)).skip(m as int));
                            assert(k == lower(k));
                        }
                        lemma_split_pieces_lower(k, '_');
                        lemma_insert_wf(n, split_on(k, '_'), value);
                    }
                    None => {}
                }
            }
        }
    }
}

impl Node {
    /// Builds the tree from the pairs in order: each key is lower-cased and
    /// split on `_`, and its value is written at the path so described; a
    /// later pair for the same path overwrites the value.
    pub fn from_pairs(pairs: &Vec<(String, String)>) -> (r: Node)
        ensures
            r@ == build_pairs(pair_views(pairs@), None),
            r@.wf(),
    {
        let mut root = Node::new(String::new());
        let mut j: usize = 0;
        proof {
            assert(pair_views(pairs@).take(0) =~= Seq::<(Seq<char>, Seq<char>)>::empty());
        }
        while j < pairs.len()
            invariant
                j <= pairs@.len(),
                root@ == build_pairs(pair_views(pairs@).take(j as int), None),
            decreases pairs@.len() - j,
        {
            let lowered = to_lower(pairs[j].0.as_str());
            let segs = split_str(lowered.as_str(), '_');
            root = root.insert_at(&segs, 0, pairs[j].1.clone());
            j = j + 1;
            proof {
                let pv = pair_views(pairs@);
                assert(pv.take(j as int).drop_last() =~= pv.take(j - 1));
                assert(pv.take(j as int).last() == pv[j - 1]);
                assert(views_of(segs@).skip(0) =~= views_of(segs@));
            }
        }
        proof {
            assert(pair_views(pairs@).take(pairs@.len() as int) =~= pair_views(pairs@));
            lemma_build_wf(pair_views(pairs@), None);
        }
        root
    }

    /// Builds the tree from the pairs whose (lower-cased) key equals the
    /// lower-cased prefix or starts with it followed by `_`; the matched part
    /// is stripped and the remainder inserted as in [`Node::from_pairs`].
    /// Pairs with any other key contribute nothing.
    pub fn from_pairs_with_prefix(pairs: &Vec<(String, String)>, prefix: &str) -> (r: Node)
        ensures
            r@ == build_pairs(pair_views(pairs@), Some(prefix@)),
            r@.wf(),
    {
        let lowered_prefix = to_lower(prefix);
        let mut root = Node::new(String::new());
        let mut j: usize = 0;
        proof {
            assert(pair_views(pairs@).take(0) =~= Seq::<(Seq<char>, Seq<char>)>::empty());
        }
        while j < pairs.len()
            invariant
                j <= pairs@.len(),
                lowered_prefix@ == lower(prefix@),
                root@ == build_pairs(pair_views(pairs@).take(j as int), Some(prefix@)),
            decreases pairs@.len() - j,
        {
            let lowered = to_lower(pairs[j].0.as_str());
            match strip_key(&lowered, &lowered_prefix) {
                Some(stripped) => {
                    let segs = split_str(stripped.as_str(), '_');
                    root = root.insert_at(&segs, 0, pairs[j].1.clone());
                    proof {
                        assert(views_of(segs@).skip(0) =~= views_of(segs@));
                    }
                }
                None => {},
            }
            j = j + 1;
            proof {
                let pv = pair_views(pairs@);
                assert(pv.take(j as int).drop_last() =~= pv.take(j - 1));
                assert(pv.take(j as int).last() == pv[j - 1]);
            }
        }
        proof {
            assert(pair_views(pairs@).take(pairs@.len() as int) =~= pair_views(pairs@));
            lemma_build_wf(pair_views(pairs@), Some(prefix@));
        }
        root
    }
}

/// Strips the lower-cased prefix from the lower-cased key, as
/// [`strip_prefix`] describes.
fn strip_key(key: &String, prefix: &String) -> (r: Option<String>)
    ensures
        match r {
            Some(s) => strip_prefix(key@, prefix@) == Some(s@),
            None => strip_prefix(key@, prefix@) is None,
        },
{
    if key.eq(prefix) {
        return Some(String::new());
    }
    let n = key.as_str().unicode_len();
    let p = prefix.as_str().unicode_len();
    if n > p {
        let head = key.as_str().substring_char(0, p);
        if String::from_str(head).eq(prefix) {
            proof {
                assert(key@.take(p as int) =~= head@);
            }
            if key.as_str().get_char(p) == '_' {
                let tail = key.as_str().substring_char(p + 1, n);
                proof {
                    assert(tail@ =~= key@.skip(p + 1));
                }
                return Some(String::from_str(tail));
            }
        }
    }
    None
}

/// The full key of a child below the key `prefix`: the prefix and the child's
/// name joined with `_`, or the name alone when the prefix is empty.
pub open spec fn join_key(prefix: Seq<char>, name: Seq<char>) -> Seq<char> {
    if prefix.len() == 0 {
        name
    } else {
        prefix + seq!['_'] + name
    }
}

/// The full keys of all leaves below children `cs` of a node whose own full
/// key is `prefix`: a childless child contributes its full key, any other
/// child the keys of its own leaves.
pub open spec fn flatten_children(
    cs: Seq<(Seq<char>, NodeView)>,
    prefix: Seq<char>,
) -> Set<Seq<char>>
    decreases cs,
{
    if cs.len() == 0 {
        Set::empty()
    } else {
        let key = join_key(prefix, cs[0].0);
        let head = if cs[0].1.is_leaf() {
            set![key]
        } else {
            flatten_children(cs[0].1.children, key)
        };
        head + flatten_children(cs.drop_first(), prefix)
    }
}

impl NodeView {
    /// The set of full keys of all leaves strictly below `self`.
    pub open spec fn flatten_set(self, prefix: Seq<char>) -> Set<Seq<char>> {
        flatten_children(self.children, prefix)
    }
}

/// Pushing onto a sequence inserts into the set of its elements.
proof fn lemma_to_set_push(v: Seq<Seq<char>>, x: Seq<char>)
    ensures
        v.push(x).to_set() == v.to_set().insert(x),
{
    assert forall|a: Seq<char>| #[trigger] v.push(x).contains(a) implies (v.contains(a) || a
        == x) by {
        let i = choose|i: int| 0 <= i < v.push(x).len() && v.push(x)[i] == a;
        if i < v.len() {
            assert(v[i] == a);
        }
    }
    assert forall|a: Seq<char>| #[trigger] v.contains(a) implies v.push(x).contains(a) by {
        let i = choose|i: int| 0 <= i < v.len() && v[i] == a;
        assert(v.push(x)[i] == a);
    }
    assert(v.push(x)[v.len() as int] == x);
    assert(v.push(x).contains(x));
    assert(v.push(x).to_set() =~= v.to_set().insert(x));
}

/// True when some string in `v` views as `s`.
fn contains_string(v: &Vec<String>, s: &String) -> (r: bool)
    ensures
        r == views_of(v@).contains(s@),
{
    let mut k: usize = 0;
    while k < v.len()
        invariant
            k <= v@.len(),
            forall|m: int| 0 <= m < k ==> views_of(v@)[m] != s@,
        decreases v@.len() - k,
    {
        if v[k].eq(s) {
            proof {
                assert(views_of(v@)[k as int] == s@);
            }
            return true;
        }
        k = k + 1;
    }
    proof {
        assert(!views_of(v@).contains(s@)) by {
            if views_of(v@).contains(s@) {
                let i = choose|i: int| 0 <= i < views_of(v@).len() && views_of(v@)[i] == s@;
                assert(views_of(v@)[i] != s@);
            }
        }
    }
    false
}

/// Appends `s` unless an equal string is already present, keeping the vector
/// free of duplicates.
fn push_unique(out: &mut Vec<String>, s: String)
    ensures
        views_of(final(out)@).to_set() == views_of(old(out)@).to_set().insert(s@),
        views_of(old(out)@).no_duplicates() ==> views_of(final(out)@).no_duplicates(),
{
    if contains_string(out, &s) {
        proof {
            assert(views_of(out@).to_set().contains(s@));
            assert(views_of(out@).to_set() =~= views_of(out@).to_set().insert(s@));
        }
    } else {
        let ghost old_v = out@;
        out.push(s);
        proof {
            assert(views_of(out@) =~= views_of(old_v).push(s@));
            lemma_to_set_push(views_of(old_v), s@);
            if views_of(old_v).no_duplicates() {
                let w = views_of(out@);
                assert forall|a: int, b: int|
                    0 <= a < w.len() && 0 <= b < w.len() && a != b implies w[a] != w[b] by {
                    if a < w.len() - 1 && b < w.len() - 1 {
                        assert(w[a] == views_of(old_v)[a]);
                        assert(w[b] == views_of(old_v)[b]);
                    } else {
                        let c = if a < b { a } else { b };
                        assert(w[c] == views_of(old_v)[c]);
                        if views_of(old_v)[c] == s@ {
                            assert(views_of(old_v).contains(s@));
                        }
                    }
                }
                assert(w.no_duplicates());
            }
        }
    }
}

impl Node {
    /// The full keys of all leaves strictly below `self`, each joined onto
    /// `prefix`, without duplicates and in no promised order.
    pub fn flatten(&self, prefix: &str) -> (r: Vec<String>)
        ensures
            views_of(r@).to_set() == self@.flatten_set(prefix@),
            views_of(r@).no_duplicates(),
        decreases self,
    {
        let mut out: Vec<String> = Vec::new();
        proof {
            lemma_children_view_len(self.children@);
            assert(self@.children.skip(0) =~= self@.children);
            assert(views_of(out@).to_set() =~= Set::<Seq<char>>::empty());
            assert(Set::<Seq<char>>::empty() + self@.flatten_set(prefix@) =~= self@.flatten_set(
                prefix@,
            ));
            assert(views_of(out@).no_duplicates());
        }
        let mut j: usize = 0;
        while j < self.children.len()
            invariant
                j <= self.children.len(),
                self.children@.len() == self@.children.len(),
                views_of(out@).to_set() + flatten_children(
                    self@.children.skip(j as int),
                    prefix@,
                ) == self@.flatten_set(prefix@),
                views_of(out@).no_duplicates(),
            decreases self.children.len() - j,
        {
            proof {
                lemma_children_view_index(self.children@, j as int);
                assert(self@.children.skip(j as int).drop_first() =~= self@.children.skip(j + 1));
                assert(self@.children.skip(j as int)[0] == self@.children[j as int]);
            }
            let ghost pre_set = views_of(out@).to_set();
            let ghost name_v = self@.children[j as int].0;
            let ghost child_v = self@.children[j as int].1;
            let key: String;
            if prefix.is_empty() {
                key = clone_string(&self.children[j].0);
            } else {
                let mut k = String::from_str(prefix);
                k.append("_");
                k.append(self.children[j].0.as_str());
                key = k;
                proof {
                    reveal_strlit("_");
                    assert(("_")@ =~= seq!['_']);
                    assert(key@ =~= prefix@ + seq!['_'] + name_v);
                }
            }
            proof {
                assert(key@ == join_key(prefix@, name_v));
            }
            if self.children[j].1.has_children() {
                let sub = self.children[j].1.flatten(key.as_str());
                let mut k: usize = 0;
                proof {
                    assert(views_of(sub@).take(0) =~= Seq::<Seq<char>>::empty());
                    assert(views_of(sub@).take(0).to_set() =~= Set::<Seq<char>>::empty());
                    assert(pre_set + views_of(sub@).take(0).to_set() =~= pre_set);
                }
                while k < sub.len()
                    invariant
                        k <= sub@.len(),
                        views_of(sub@).to_set() == child_v.flatten_set(key@),
                        views_of(out@).to_set() == pre_set + views_of(sub@).take(k as int).to_set(),
                        views_of(out@).no_duplicates(),
                    decreases sub@.len() - k,
                {
                    let s = clone_string(&sub[k]);
                    push_unique(&mut out, s);
                    k = k + 1;
                    proof {
                        assert(views_of(sub@).take(k as int) =~= views_of(sub@).take(k - 1).push(
                            views_of(sub@)[k - 1],
                        ));
                        lemma_to_set_push(views_of(sub@).take(k - 1), views_of(sub@)[k - 1]);
                        assert(pre_set + views_of(sub@).take(k - 1).to_set().insert(
                            views_of(sub@)[k - 1],
                        ) =~= (pre_set + views_of(sub@).take(k - 1).to_set()).insert(
                            views_of(sub@)[k - 1],
                        ));
                    }
                }
                proof {
                    assert(views_of(sub@).take(sub@.len() as int) =~= views_of(sub@));
                    assert(views_of(out@).to_set() == pre_set + child_v.flatten_set(key@));
                }
            } else {
                push_unique(&mut out, key);
                proof {
                    assert(pre_set.insert(join_key(prefix@, name_v)) =~= pre_set + set![
                        join_key(prefix@, name_v),
                    ]);
                }
            }
            j = j + 1;
            proof {
                let head = if child_v.is_leaf() {
                    set![join_key(prefix@, name_v)]
                } else {
                    child_v.flatten_set(key@)
                };
                assert(flatten_children(self@.children.skip(j - 1), prefix@) == head
                    + flatten_children(self@.children.skip(j as int), prefix@));
                assert((pre_set + head) + flatten_children(self@.children.skip(j as int), prefix@)
                    =~= pre_set + (head + flatten_children(self@.children.skip(j as int), prefix@)));
            }
        }
        proof {
            assert(self@.children.skip(self.children@.len() as int) =~= Seq::<(
                Seq<char>,
                NodeView,
            )>::empty());
            assert(views_of(out@).to_set() + flatten_children(
                Seq::<(Seq<char>, NodeView)>::empty(),
                prefix@,
            ) =~= views_of(out@).to_set());
        }
        out
    }
}

/// No character of `name` is an underscore.
pub open spec fn no_sep(name: Seq<char>) -> bool {
    forall|i: int| 0 <= i < name.len() ==> name[i] != '_'
}

/// A child entry whose name is a usable segment: non-empty and free of `_`.
pub open spec fn sane_entry(e: (Seq<char>, NodeView)) -> bool {
    e.0.len() > 0 && no_sep(e.0) && children_sane(e.1.children)
}

/// Every child name in the subtrees below `cs` is non-empty and free of `_`.
pub open spec fn children_sane(cs: Seq<(Seq<char>, NodeView)>) -> bool
    decreases cs,
{
    cs.len() == 0 || ({
        &&& cs[0].0.len() > 0
        &&& no_sep(cs[0].0)
        &&& children_sane(cs[0].1.children)
        &&& children_sane(cs.drop_first())
    })
}

impl NodeView {
    /// Every child name in the tree is non-empty and free of `_`. Building
    /// from keys with no empty and no adjacent, leading or trailing
    /// underscores gives such a tree.
    pub open spec fn sane_segments(self) -> bool {
        children_sane(self.children)
    }
}

pub proof fn lemma_children_sane_index(cs: Seq<(Seq<char>, NodeView)>)
    requires
        children_sane(cs),
    ensures
        forall|i: int| 0 <= i < cs.len() ==> sane_entry(#[trigger] cs[i]),
    decreases cs.len(),
{
    if cs.len() > 0 {
        lemma_children_sane_index(cs.drop_first());
        assert forall|i: int| 0 <= i < cs.len() implies sane_entry(#[trigger] cs[i]) by {
            if i > 0 {
                assert(cs[i] == cs.drop_first()[i - 1]);
            }
        }
    }
}

/// After inserting `value` along `path`, resolving the same path finds a node
/// holding `value`, whatever the tree held before.
pub proof fn lemma_insert_then_get(n: NodeView, path: Seq<Seq<char>>, value: Seq<char>)
    ensures
        ({
            let r = n.insert_path(path, value).get_path(path);
            r matches Some(m) && m.value == value
        }),
    decreases path.len(),
{
    if path.len() > 0 {
        lemma_find_key(n.children, path[0]);
        let i = find_key(n.children, path[0]);
        let child = if i >= 0 {
            n.children[i].1
        } else {
            NodeView::empty()
        };
        let child2 = child.insert_path(path.drop_first(), value);
        let t = n.insert_path(path, value);
        if i >= 0 {
            assert forall|j: int| 0 <= j < i implies t.children[j].0 != path[0] by {
                assert(t.children[j] == n.children[j]);
            }
            assert(t.children[i].0 == path[0]);
            lemma_find_key_is(t.children, path[0], i);
        } else {
            let l = n.children.len() as int;
            assert forall|j: int| 0 <= j < l implies t.children[j].0 != path[0] by {
                assert(t.children[j] == n.children[j]);
            }
            assert(t.children[l].0 == path[0]);
            lemma_find_key_is(t.children, path[0], l);
        }
        assert(t.get_child(path[0]) == Some(child2));
        lemma_insert_then_get(child, path.drop_first(), value);
    }
}

/// Building a tree from the single pair `(k, v)`, where `k` is non-empty and
/// has no underscore, and then resolving `k` the way `get` does, yields a
/// node holding `v`.
pub proof fn lemma_build_single_get(k: Seq<char>, v: Seq<char>)
    requires
        k.len() > 0,
        no_sep(k),
    ensures
        ({
            let t = build_pairs(seq![(k, v)], None);
            let r = t.get_path(split_on(lower(k), '_'));
            r matches Some(n) && n.value == v
        }),
{
    let pairs = seq![(k, v)];
    assert(pairs.drop_last() =~= Seq::<(Seq<char>, Seq<char>)>::empty());
    assert(build_pairs(Seq::<(Seq<char>, Seq<char>)>::empty(), None) == NodeView::empty());
    assert(pairs.last() == (k, v));
    assert(build_pairs(pairs, None) == apply_pair(NodeView::empty(), k, v, None));
    lemma_insert_then_get(NodeView::empty(), split_on(lower(k), '_'), v);
}

/// `find_key` depends only on the child names, not on the subtrees.
proof fn lemma_find_key_same_names(
    cs1: Seq<(Seq<char>, NodeView)>,
    cs2: Seq<(Seq<char>, NodeView)>,
    name: Seq<char>,
)
    requires
        cs1.len() == cs2.len(),
        forall|i: int| 0 <= i < cs1.len() ==> (#[trigger] cs1[i]).0 == cs2[i].0,
    ensures
        find_key(cs1, name) == find_key(cs2, name),
    decreases cs1.len(),
{
    if cs1.len() > 0 {
        assert forall|i: int| 0 <= i < cs1.drop_first().len() implies (#[trigger] cs1.drop_first()[i]).0
            == cs2.drop_first()[i].0 by {
            assert(cs1.drop_first()[i] == cs1[i + 1]);
            assert(cs2.drop_first()[i] == cs2[i + 1]);
        }
        lemma_find_key_same_names(cs1.drop_first(), cs2.drop_first(), name);
    }
}

/// Inserting along one path disturbs no other path: a node reachable before
/// the insertion is still reachable afterwards, with its value unchanged.
pub proof fn lemma_insert_preserves_other(
    t: NodeView,
    p: Seq<Seq<char>>,
    v: Seq<char>,
    q: Seq<Seq<char>>,
)
    requires
        p != q,
        t.get_path(q) is Some,
    ensures
        t.insert_path(p, v).get_path(q) matches Some(n2) && n2.value == t.get_path(
            q,
        ).unwrap().value,
    decreases q.len(),
{
    let t2 = t.insert_path(p, v);
    if p.len() == 0 {
        assert(q.len() > 0) by {
            if q.len() == 0 {
                assert(p =~= q);
            }
        }
        assert(t2.children == t.children);
        assert(t2.get_child(q[0]) == t.get_child(q[0]));
    } else if q.len() == 0 {
        assert(t2.value == t.value);
    } else {
        lemma_find_key(t.children, p[0]);
        lemma_find_key(t.children, q[0]);
        let i = find_key(t.children, p[0]);
        let child = if i >= 0 {
            t.children[i].1
        } else {
            NodeView::empty()
        };
        let child2 = child.insert_path(p.drop_first(), v);
        let j = find_key(t.children, q[0]);
        assert(j >= 0);
        if i >= 0 {
            let cs2 = t.children.update(i, (p[0], child2));
            assert(t2.children == cs2);
            assert(t.children[i].0 == p[0]);
            assert forall|m: int| 0 <= m < cs2.len() implies (#[trigger] cs2[m]).0
                == t.children[m].0 by {}
            lemma_find_key_same_names(cs2, t.children, q[0]);
            assert(find_key(cs2, q[0]) == j);
            if q[0] == p[0] {
                assert(j == i);
                assert(t2.get_child(q[0]) == Some(child2));
                assert(t.get_child(q[0]) == Some(child));
                assert(p.drop_first() != q.drop_first()) by {
                    if p.drop_first() == q.drop_first() {
                        assert(p.len() == q.len());
                        assert forall|m: int| 0 <= m < p.len() implies p[m] == q[m] by {
                            if m > 0 {
                                assert(p.drop_first()[m - 1] == p[m]);
                                assert(q.drop_first()[m - 1] == q[m]);
                            }
                        }
                        assert(p =~= q);
                    }
                }
                lemma_insert_preserves_other(child, p.drop_first(), v, q.drop_first());
            } else {
                assert(j != i);
                assert(cs2[j] == t.children[j]);
                assert(t2.get_child(q[0]) == t.get_child(q[0]));
            }
        } else {
            let cs2 = t.children.push((p[0], child2));
            assert(t2.children == cs2);
            assert(q[0] != p[0]) by {
                if q[0] == p[0] {
                    assert(t.children[j].0 != p[0]);
                }
            }
            assert(cs2[j] == t.children[j]);
            assert forall|m: int| 0 <= m < j implies (#[trigger] cs2[m]).0 != q[0] by {
                assert(cs2[m] == t.children[m]);
            }
            lemma_find_key_is(cs2, q[0], j);
            assert(t2.get_child(q[0]) == t.get_child(q[0]));
        }
    }
}

/// Case folding introduces no underscore.
proof fn lemma_no_sep_lower(k: Seq<char>)
    requires
        no_sep(k),
    ensures
        no_sep(lower(k)),
{
    assert forall|i: int| 0 <= i < lower(k).len() implies lower(k)[i] != '_' by {
        assert(lower(k)[i] == lower_char(k[i]));
    }
}

/// Building from pairs whose keys are non-empty, free of `_`, and pairwise
/// distinct after case folding: each key of the set resolves, the way `get`
/// resolves it, to a node holding that key's own value.
pub proof fn lemma_build_flat_set_get(pairs: Seq<(Seq<char>, Seq<char>)>, i: int)
    requires
        0 <= i < pairs.len(),
        forall|m: int|
            0 <= m < pairs.len() ==> (#[trigger] pairs[m].0).len() > 0 && no_sep(pairs[m].0),
        forall|m: int, n: int|
            0 <= m < n < pairs.len() ==> lower(#[trigger] pairs[m].0) != lower(
                #[trigger] pairs[n].0,
            ),
    ensures
        spec_get(build_pairs(pairs, None), pairs[i].0) matches Some(n) && n.value == pairs[i].1,
    decreases pairs.len(),
{
    let t0 = build_pairs(pairs.drop_last(), None);
    let klast = pairs.last().0;
    let vlast = pairs.last().1;
    assert(build_pairs(pairs, None) == apply_pair(t0, klast, vlast, None));
    if i == pairs.len() - 1 {
        lemma_insert_then_get(t0, split_on(lower(klast), '_'), vlast);
    } else {
        assert(forall|m: int|
            0 <= m < pairs.drop_last().len() ==> #[trigger] pairs.drop_last()[m] == pairs[m]);
        lemma_build_flat_set_get(pairs.drop_last(), i);
        let ki = pairs[i].0;
        lemma_no_sep_lower(ki);
        lemma_no_sep_lower(klast);
        lemma_split_on_whole(lower(ki), '_');
        lemma_split_on_whole(lower(klast), '_');
        assert(lower(ki) != lower(klast));
        assert(split_on(lower(klast), '_') != split_on(lower(ki), '_')) by {
            if seq![lower(klast)] == seq![lower(ki)] {
                assert(seq![lower(klast)][0] == seq![lower(ki)][0]);
            }
        }
        lemma_insert_preserves_other(
            t0,
            split_on(lower(klast), '_'),
            vlast,
            split_on(lower(ki), '_'),
        );
    }
}

/// Resolving the same key against the same tree twice yields equal results:
/// a query is a function of the tree and the key alone, and changes neither.
pub proof fn lemma_get_idempotent(
    t: NodeView,
    key: Seq<char>,
    r1: Option<NodeView>,
    r2: Option<NodeView>,
)
    requires
        r1 == t.get_path(split_on(lower(key), '_')),
        r2 == t.get_path(split_on(lower(key), '_')),
    ensures
        r1 == r2,
{
}

/// Splitting distributes over joining two parts with the separator between.
pub proof fn lemma_split_on_concat(a: Seq<char>, b: Seq<char>, sep: char)
    ensures
        split_on(a + seq![sep] + b, sep) == split_on(a, sep) + split_on(b, sep),
    decreases a.len(),
{
    let s = a + seq![sep] + b;
    crate::text::lemma_split_on_len(a, sep);
    crate::text::lemma_split_on_len(b, sep);
    if a.len() == 0 {
        assert(s[0] == sep);
        assert(s.drop_first() =~= b);
        assert(split_on(s, sep) == seq![Seq::<char>::empty()] + split_on(b, sep));
        assert(split_on(a, sep) == seq![Seq::<char>::empty()]);
    } else {
        lemma_split_on_concat(a.drop_first(), b, sep);
        crate::text::lemma_split_on_len(a.drop_first(), sep);
        assert(s[0] == a[0]);
        assert(s.drop_first() =~= a.drop_first() + seq![sep] + b);
        let rest_s = split_on(s.drop_first(), sep);
        let rest_a = split_on(a.drop_first(), sep);
        if a[0] == sep {
            assert(split_on(s, sep) == seq![Seq::<char>::empty()] + rest_s);
            assert(split_on(a, sep) == seq![Seq::<char>::empty()] + rest_a);
            assert(seq![Seq::<char>::empty()] + (rest_a + split_on(b, sep)) =~= (seq![
                Seq::<char>::empty(),
            ] + rest_a) + split_on(b, sep));
        } else {
            assert(rest_s[0] == rest_a[0]);
            assert(rest_s.drop_first() =~= rest_a.drop_first() + split_on(b, sep));
            assert(split_on(s, sep) == seq![seq![s[0]] + rest_s[0]] + rest_s.drop_first());
            assert(split_on(a, sep) == seq![seq![a[0]] + rest_a[0]] + rest_a.drop_first());
            assert(seq![seq![s[0]] + rest_s[0]] + (rest_a.drop_first() + split_on(b, sep)) =~= (
            seq![seq![a[0]] + rest_a[0]] + rest_a.drop_first()) + split_on(b, sep));
        }
    }
}

/// A sequence free of the separator splits to itself alone.
pub proof fn lemma_split_on_whole(s: Seq<char>, sep: char)
    requires
        forall|i: int| 0 <= i < s.len() ==> s[i] != sep,
    ensures
        split_on(s, sep) == seq![s],
    decreases s.len(),
{
    if s.len() == 0 {
        assert(split_on(s, sep) =~~= seq![s]);
    } else {
        assert(forall|i: int| 0 <= i < s.drop_first().len() ==> s.drop_first()[i] != sep);
        lemma_split_on_whole(s.drop_first(), sep);
        assert(seq![s[0]] + s.drop_first() =~= s);
        assert(split_on(s, sep) =~~= seq![s]);
    }
}

/// No piece of a split contains the separator.
pub proof fn lemma_split_on_no_sep(s: Seq<char>, sep: char)
    ensures
        forall|k: int, l: int|
            0 <= k < split_on(s, sep).len() && 0 <= l < split_on(s, sep)[k].len() ==> #[trigger] split_on(
                s,
                sep,
            )[k][l] != sep,
    decreases s.len(),
{
    crate::text::lemma_split_on_len(s, sep);
    if s.len() > 0 {
        lemma_split_on_no_sep(s.drop_first(), sep);
        let rest = split_on(s.drop_first(), sep);
        crate::text::lemma_split_on_len(s.drop_first(), sep);
        if s[0] == sep {
            let whole = seq![Seq::<char>::empty()] + rest;
            assert forall|k: int, l: int|
                0 <= k < whole.len() && 0 <= l < whole[k].len() implies #[trigger] whole[k][l]
                != sep by {
                assert(whole[k] == rest[k - 1]);
            }
        } else {
            let whole = seq![seq![s[0]] + rest[0]] + rest.drop_first();
            assert forall|k: int, l: int|
                0 <= k < whole.len() && 0 <= l < whole[k].len() implies #[trigger] whole[k][l]
                != sep by {
                if k == 0 {
                    assert(whole[0] == seq![s[0]] + rest[0]);
                    if l > 0 {
                        assert(whole[0][l] == rest[0][l - 1]);
                    }
                } else {
                    assert(whole[k] == rest.drop_first()[k - 1]);
                    assert(rest.drop_first()[k - 1] == rest[k]);
                }
            }
        }
    }
}

pub proof fn lemma_children_sane_all(cs: Seq<(Seq<char>, NodeView)>)
    requires
        forall|i: int| 0 <= i < cs.len() ==> sane_entry(#[trigger] cs[i]),
    ensures
        children_sane(cs),
    decreases cs.len(),
{
    if cs.len() > 0 {
        assert forall|j: int| 0 <= j < cs.drop_first().len() implies sane_entry(
            #[trigger] cs.drop_first()[j],
        ) by {
            assert(cs.drop_first()[j] == cs[j + 1]);
        }
        lemma_children_sane_all(cs.drop_first());
    }
}

/// Inserting a path of non-empty, underscore-free segments keeps every
/// segment name in the tree non-empty and underscore-free.
pub proof fn lemma_insert_sane(n: NodeView, path: Seq<Seq<char>>, value: Seq<char>)
    requires
        n.sane_segments(),
        forall|k: int| 0 <= k < path.len() ==> (#[trigger] path[k]).len() > 0 && no_sep(path[k]),
    ensures
        n.insert_path(path, value).sane_segments(),
    decreases path.len(),
{
    if path.len() > 0 {
        lemma_find_key(n.children, path[0]);
        lemma_children_sane_index(n.children);
        let i = find_key(n.children, path[0]);
        let child = if i >= 0 {
            n.children[i].1
        } else {
            NodeView::empty()
        };
        assert(child.sane_segments());
        assert forall|k: int|
            0 <= k < path.drop_first().len() implies (#[trigger] path.drop_first()[k]).len() > 0
            && no_sep(path.drop_first()[k]) by {
            assert(path.drop_first()[k] == path[k + 1]);
        }
        lemma_insert_sane(child, path.drop_first(), value);
        let child2 = child.insert_path(path.drop_first(), value);
        let result = n.insert_path(path, value);
        if i >= 0 {
            let cs2 = n.children.update(i, (path[0], child2));
            assert forall|a: int| 0 <= a < cs2.len() implies sane_entry(#[trigger] cs2[a]) by {
                if a != i {
                    assert(cs2[a] == n.children[a]);
                }
            }
            lemma_children_sane_all(cs2);
            assert(result.children == cs2);
        } else {
            let cs2 = n.children.push((path[0], child2));
            assert forall|a: int| 0 <= a < cs2.len() implies sane_entry(#[trigger] cs2[a]) by {
                if a < n.children.len() {
                    assert(cs2[a] == n.children[a]);
                }
            }
            lemma_children_sane_all(cs2);
            assert(result.children == cs2);
        }
    }
}

/// A key is usable when its case-folded form splits into non-empty segments:
/// it is non-empty, with no leading, trailing or adjacent underscores.
pub open spec fn usable_key(k: Seq<char>) -> bool {
    forall|j: int|
        0 <= j < split_on(lower(k), '_').len() ==> (#[trigger] split_on(lower(k), '_')[j]).len()
            > 0
}

/// A tree built without a prefix from usable keys has only non-empty,
/// underscore-free segment names.
pub proof fn lemma_build_sane(pairs: Seq<(Seq<char>, Seq<char>)>)
    requires
        forall|m: int| 0 <= m < pairs.len() ==> usable_key(#[trigger] pairs[m].0),
    ensures
        build_pairs(pairs, None).sane_segments(),
    decreases pairs.len(),
{
    if pairs.len() == 0 {
        assert(children_sane(Seq::<(Seq<char>, NodeView)>::empty()));
    } else {
        assert(forall|m: int|
            0 <= m < pairs.drop_last().len() ==> #[trigger] pairs.drop_last()[m] == pairs[m]);
        lemma_build_sane(pairs.drop_last());
        let n = build_pairs(pairs.drop_last(), None);
        let key = pairs.last().0;
        let path = split_on(lower(key), '_');
        lemma_split_on_no_sep(lower(key), '_');
        assert(usable_key(key));
        assert forall|k: int| 0 <= k < path.len() implies (#[trigger] path[k]).len() > 0
            && no_sep(path[k]) by {
            assert(forall|l: int| 0 <= l < path[k].len() ==> #[trigger] path[k][l] != '_');
        }
        lemma_insert_sane(n, path, pairs.last().1);
    }
}

/// Round trip over a built tree: every key that `flatten` emits from a tree
/// built without a prefix from usable keys resolves, by `get`'s segmentation,
/// to the leaf it names.
pub proof fn lemma_build_flatten_get_round_trip(pairs: Seq<(Seq<char>, Seq<char>)>, key: Seq<char>)
    requires
        forall|m: int| 0 <= m < pairs.len() ==> usable_key(#[trigger] pairs[m].0),
        build_pairs(pairs, None).flatten_set(Seq::empty()).contains(key),
    ensures
        spec_get(build_pairs(pairs, None), key) matches Some(n) && n.is_leaf(),
{
    lemma_build_wf(pairs, None);
    lemma_build_sane(pairs);
    lemma_flatten_get_round_trip(build_pairs(pairs, None), key);
}

/// How one child accounts for a key in its parent's flattened key set.
spec fn flatten_entry_has(e: (Seq<char>, NodeView), prefix: Seq<char>, key: Seq<char>) -> bool {
    if e.1.is_leaf() {
        key == join_key(prefix, e.0)
    } else {
        flatten_children(e.1.children, join_key(prefix, e.0)).contains(key)
    }
}

proof fn lemma_flatten_member(cs: Seq<(Seq<char>, NodeView)>, prefix: Seq<char>, key: Seq<char>)
    requires
        flatten_children(cs, prefix).contains(key),
    ensures
        exists|j: int| 0 <= j < cs.len() && flatten_entry_has(#[trigger] cs[j], prefix, key),
    decreases cs.len(),
{
    let head = if cs[0].1.is_leaf() {
        set![join_key(prefix, cs[0].0)]
    } else {
        flatten_children(cs[0].1.children, join_key(prefix, cs[0].0))
    };
    if head.contains(key) {
        assert(flatten_entry_has(cs[0], prefix, key));
    } else {
        lemma_flatten_member(cs.drop_first(), prefix, key);
        let j = choose|j: int|
            0 <= j < cs.drop_first().len() && flatten_entry_has(
                #[trigger] cs.drop_first()[j],
                prefix,
                key,
            );
        assert(cs[j + 1] == cs.drop_first()[j]);
        assert(flatten_entry_has(cs[j + 1], prefix, key));
    }
}

/// What a key in a flattened key set says of the tree: the key extends the
/// prefix by a non-empty lower-case remainder whose segments resolve to a
/// leaf.
spec fn flatten_witness(c: NodeView, prefix: Seq<char>, key: Seq<char>, rest: Seq<char>) -> bool {
    &&& key == join_key(prefix, rest)
    &&& rest.len() > 0
    &&& rest == lower(rest)
    &&& (c.get_path(split_on(rest, '_')) matches Some(n) && n.is_leaf())
}

proof fn lemma_flatten_get_aux(c: NodeView, prefix: Seq<char>, key: Seq<char>)
    requires
        c.wf(),
        c.sane_segments(),
        c.flatten_set(prefix).contains(key),
    ensures
        exists|rest: Seq<char>| flatten_witness(c, prefix, key, rest),
    decreases c,
{
    lemma_flatten_member(c.children, prefix, key);
    let j = choose|j: int|
        0 <= j < c.children.len() && flatten_entry_has(#[trigger] c.children[j], prefix, key);
    lemma_children_wf_index(c.children);
    lemma_children_sane_index(c.children);
    let name = c.children[j].0;
    let child = c.children[j].1;
    assert(name == lower(name));
    assert(name.len() > 0 && no_sep(name));
    lemma_find_key(c.children, name);
    let f = find_key(c.children, name);
    assert(f >= 0) by {
        if f == -1 {
            assert(c.children[j].0 != name);
        }
    }
    assert(f == j) by {
        if f < j {
            assert(c.children[f].0 != c.children[j].0);
        }
    }
    assert(c.get_child(name) == Some(child));
    if child.is_leaf() {
        let rest = name;
        lemma_split_on_whole(rest, '_');
        assert(split_on(rest, '_').drop_first() =~= Seq::<Seq<char>>::empty());
        assert(child.get_path(split_on(rest, '_').drop_first()) == Some(child));
        assert(flatten_witness(c, prefix, key, rest));
    } else {
        let prefix2 = join_key(prefix, name);
        assert(child.wf());
        assert(child.sane_segments());
        lemma_flatten_get_aux(child, prefix2, key);
        let rest2 = choose|rest2: Seq<char>| flatten_witness(child, prefix2, key, rest2);
        let rest = name + seq!['_'] + rest2;
        assert(key == join_key(prefix, rest)) by {
            if prefix.len() == 0 {
                assert(join_key(prefix2, rest2) == name + seq!['_'] + rest2);
            } else {
                assert((prefix + seq!['_'] + name) + seq!['_'] + rest2 =~= prefix + seq!['_'] + (
                name + seq!['_'] + rest2));
            }
        }
        assert(rest == lower(rest)) by {
            assert forall|i: int| 0 <= i < rest.len() implies lower(rest)[i] == rest[i] by {
                if i < name.len() {
                    assert(rest[i] == name[i]);
                    assert(lower(name)[i] == lower_char(name[i]));
                } else if i == name.len() {
                    assert(rest[i] == '_');
                } else {
                    assert(rest[i] == rest2[i - name.len() - 1]);
                    assert(lower(rest2)[i - name.len() - 1] == lower_char(
                        rest2[i - name.len() - 1],
                    ));
                }
            }
            assert(lower(rest) =~= rest);
        }
        lemma_split_on_whole(name, '_');
        lemma_split_on_concat(name, rest2, '_');
        assert(split_on(rest, '_') == seq![name] + split_on(rest2, '_'));
        assert(split_on(rest, '_')[0] == name);
        assert(split_on(rest, '_').drop_first() =~= split_on(rest2, '_'));
        assert(c.get_path(split_on(rest, '_')) == child.get_path(split_on(rest2, '_')));
        assert(flatten_witness(c, prefix, key, rest));
    }
}

/// Round trip between `flatten` and `get`: in a well-formed tree whose
/// segment names are non-empty and free of `_`, every key that `flatten`
/// emits from the root resolves, by `get`'s own segmentation, to the leaf it
/// names.
pub proof fn lemma_flatten_get_round_trip(t: NodeView, key: Seq<char>)
    requires
        t.wf(),
        t.sane_segments(),
        t.flatten_set(Seq::empty()).contains(key),
    ensures
        t.get_path(split_on(lower(key), '_')) matches Some(n) && n.is_leaf(),
{
    lemma_flatten_get_aux(t, Seq::empty(), key);
    let rest = choose|rest: Seq<char>| flatten_witness(t, Seq::empty(), key, rest);
    assert(key == rest);
    assert(lower(key) == key);
}

} // verus!
