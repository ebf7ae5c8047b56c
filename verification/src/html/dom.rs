//! The tree that the parser builds: elements with a name, attributes and
//! children, and runs of text.

use vstd::prelude::*;

use crate::html::text::str_eq;

verus! {

/// A node of the tree.
#[derive(Debug)]
pub enum Node {
    Element(ElementNode),
    Text(TextNode),
}

/// A run of text between two tags.
#[derive(Debug)]
pub struct TextNode {
    pub content: String,
}

/// A tag with what stands between it and the tag that closes it.
#[derive(Debug)]
pub struct ElementNode {
    pub tag_name: String,
    pub attributes: ElementAttributes,
    pub children: ElementChildren,
}

/// The children of an element, in the order of the document.
pub type ElementChildren = Vec<Node>;

/// The attributes of an element: each key once, with its value. The order
/// of the keys means nothing.
#[derive(Debug)]
pub struct ElementAttributes {
    entries: Vec<(String, String)>,
}

/// A tree as a mathematical value.
pub enum NodeView {
    Element { tag_name: Seq<char>, attributes: Map<Seq<char>, Seq<char>>, children: Seq<NodeView> },
    Text { content: Seq<char> },
}

/// The greater of two numbers.
pub open spec fn larger(a: nat, b: nat) -> nat {
    if a >= b {
        a
    } else {
        b
    }
}

impl NodeView {
    /// How many elements stand within one another at the deepest place of
    /// the tree. A text has depth 0, an element without elements in it has
    /// depth 1.
    pub open spec fn depth(self) -> nat
        decreases self,
    {
        match self {
            NodeView::Text { .. } => 0,
            NodeView::Element { children, .. } => 1 + deepest(children),
        }
    }
}

/// The depth of the deepest of the given trees; 0 if there is none.
pub open spec fn deepest(nodes: Seq<NodeView>) -> nat
    decreases nodes,
{
    if nodes.len() == 0 {
        0
    } else {
        larger(nodes[0].depth(), deepest(nodes.drop_first()))
    }
}

impl View for Node {
    type V = NodeView;

    open spec fn view(&self) -> NodeView
        decreases self,
    {
        match self {
            Node::Element(element) => element@,
            Node::Text(text) => text@,
        }
    }
}

impl View for ElementNode {
    type V = NodeView;

    open spec fn view(&self) -> NodeView
        decreases self,
    {
        NodeView::Element {
            tag_name: self.tag_name@,
            attributes: self.attributes@,
            children: Seq::new(
                self.children.len() as nat,
                |i: int|
                    if 0 <= i < self.children.len() {
                        self.children[i]@
                    } else {
                        arbitrary()
                    },
            ),
        }
    }
}

/// The trees of a list of nodes, in the same order.
pub open spec fn nodes_view(nodes: Seq<Node>) -> Seq<NodeView> {
    Seq::new(nodes.len(), |i: int| nodes[i]@)
}

/// An element's view holds its name, its attributes and the views of its
/// children.
pub proof fn lemma_element_view(element: ElementNode)
    ensures
        element@ == (NodeView::Element {
            tag_name: element.tag_name@,
            attributes: element.attributes@,
            children: nodes_view(element.children@),
        }),
        Node::Element(element)@ == element@,
{
    reveal_with_fuel(<ElementNode as View>::view, 2);
    assert(element@->children =~= nodes_view(element.children@));
}

impl View for TextNode {
    type V = NodeView;

    open spec fn view(&self) -> NodeView {
        NodeView::Text { content: self.content@ }
    }
}

impl Clone for TextNode {
    fn clone(&self) -> (copy: TextNode)
        ensures
            copy@ == self@,
    {
        TextNode { content: self.content.clone() }
    }
}

impl Clone for ElementNode {
    fn clone(&self) -> (copy: ElementNode)
        ensures
            copy@ == self@,
        decreases self,
    {
        let mut children: Vec<Node> = Vec::new();
        let mut i: usize = 0;
        while i < self.children.len()
            invariant
                i <= self.children.len(),
                children.len() == i,
                forall|j: int| 0 <= j < i ==> children[j]@ == self.children[j]@,
            decreases self.children.len() - i,
        {
            let child = self.children[i].clone();
            children.push(child);
            i += 1;
        }
        let copy = ElementNode {
            tag_name: self.tag_name.clone(),
            attributes: self.attributes.clone(),
            children,
        };
        proof {
            lemma_element_view(copy);
            lemma_element_view(*self);
            assert(nodes_view(copy.children@) =~= nodes_view(self.children@));
        }
        copy
    }
}

impl Clone for Node {
    fn clone(&self) -> (copy: Node)
        ensures
            copy@ == self@,
        decreases self,
    {
        match self {
            Node::Element(element) => Node::Element(element.clone()),
            Node::Text(text) => Node::Text(text.clone()),
        }
    }
}

/// The map that a list of pairs with distinct keys stands for.
pub open spec fn pairs_to_map(pairs: Seq<(Seq<char>, Seq<char>)>) -> Map<Seq<char>, Seq<char>>
    decreases pairs.len(),
{
    if pairs.len() == 0 {
        Map::empty()
    } else {
        pairs_to_map(pairs.drop_last()).insert(pairs.last().0, pairs.last().1)
    }
}

/// Keys and values of stored entries as sequences of characters.
pub open spec fn pairs_of(entries: Seq<(String, String)>) -> Seq<(Seq<char>, Seq<char>)> {
    Seq::new(entries.len(), |i: int| (entries[i].0@, entries[i].1@))
}

/// No key stands in two places of the list.
pub open spec fn distinct_keys(pairs: Seq<(Seq<char>, Seq<char>)>) -> bool {
    forall|i: int, j: int| 0 <= i < j < pairs.len() ==> pairs[i].0 != pairs[j].0
}

/// The keys of the map are the keys of the pairs.
pub proof fn lemma_pairs_to_map_domain(pairs: Seq<(Seq<char>, Seq<char>)>, key: Seq<char>)
    ensures
        pairs_to_map(pairs).contains_key(key) <==> exists|i: int|
            0 <= i < pairs.len() && pairs[i].0 == key,
    decreases pairs.len(),
{
    if pairs.len() > 0 {
        let front = pairs.drop_last();
        lemma_pairs_to_map_domain(front, key);
        if pairs_to_map(pairs).contains_key(key) {
            if pairs.last().0 == key {
                assert(pairs[pairs.len() - 1].0 == key);
            } else {
                let i = choose|i: int| 0 <= i < front.len() && front[i].0 == key;
                assert(pairs[i].0 == key);
            }
        }
        if exists|i: int| 0 <= i < pairs.len() && pairs[i].0 == key {
            let i = choose|i: int| 0 <= i < pairs.len() && pairs[i].0 == key;
            if i < front.len() {
                assert(front[i].0 == key);
            }
        }
    }
}

/// Where the keys are distinct, each pair is an entry of the map.
pub proof fn lemma_pairs_to_map_entry(pairs: Seq<(Seq<char>, Seq<char>)>, i: int)
    requires
        distinct_keys(pairs),
        0 <= i < pairs.len(),
    ensures
        pairs_to_map(pairs).contains_key(pairs[i].0),
        pairs_to_map(pairs)[pairs[i].0] == pairs[i].1,
    decreases pairs.len(),
{
    let front = pairs.drop_last();
    if i < front.len() {
        assert(distinct_keys(front)) by {
            assert forall|a: int, b: int| 0 <= a < b < front.len() implies front[a].0
                != front[b].0 by {
                assert(pairs[a].0 != pairs[b].0);
            }
        }
        lemma_pairs_to_map_entry(front, i);
        assert(pairs[i].0 != pairs[pairs.len() - 1].0);
    }
}

/// Where the keys are distinct, the map has as many keys as there are pairs.
pub proof fn lemma_pairs_to_map_len(pairs: Seq<(Seq<char>, Seq<char>)>)
    requires
        distinct_keys(pairs),
    ensures
        pairs_to_map(pairs).dom().finite(),
        pairs_to_map(pairs).dom().len() == pairs.len(),
    decreases pairs.len(),
{
    if pairs.len() > 0 {
        let front = pairs.drop_last();
        assert(distinct_keys(front)) by {
            assert forall|a: int, b: int| 0 <= a < b < front.len() implies front[a].0
                != front[b].0 by {
                assert(pairs[a].0 != pairs[b].0);
            }
        }
        lemma_pairs_to_map_len(front);
        lemma_pairs_to_map_domain(front, pairs.last().0);
        if exists|i: int| 0 <= i < front.len() && front[i].0 == pairs.last().0 {
            let i = choose|i: int| 0 <= i < front.len() && front[i].0 == pairs.last().0;
            assert(pairs[i].0 != pairs[pairs.len() - 1].0);
        }
        assert(pairs_to_map(pairs).dom() =~= pairs_to_map(front).dom().insert(pairs.last().0));
    }
}

proof fn lemma_pairs_to_map_update(pairs: Seq<(Seq<char>, Seq<char>)>, i: int, value: Seq<char>)
    requires
        distinct_keys(pairs),
        0 <= i < pairs.len(),
    ensures
        distinct_keys(pairs.update(i, (pairs[i].0, value))),
        pairs_to_map(pairs.update(i, (pairs[i].0, value))) == pairs_to_map(pairs).insert(
            pairs[i].0,
            value,
        ),
    decreases pairs.len(),
{
    let key = pairs[i].0;
    let changed = pairs.update(i, (key, value));
    let front = pairs.drop_last();
    assert(distinct_keys(changed)) by {
        assert forall|a: int, b: int| 0 <= a < b < changed.len() implies changed[a].0
            != changed[b].0 by {
            assert(pairs[a].0 != pairs[b].0);
        }
    }
    if i == pairs.len() - 1 {
        assert(changed.drop_last() =~= front);
        assert(pairs_to_map(changed) =~= pairs_to_map(pairs).insert(key, value));
    } else {
        assert(distinct_keys(front)) by {
            assert forall|a: int, b: int| 0 <= a < b < front.len() implies front[a].0
                != front[b].0 by {
                assert(pairs[a].0 != pairs[b].0);
            }
        }
        lemma_pairs_to_map_update(front, i, value);
        assert(changed.drop_last() =~= front.update(i, (key, value)));
        assert(pairs[i].0 != pairs[pairs.len() - 1].0);
        assert(pairs_to_map(changed) =~= pairs_to_map(pairs).insert(key, value));
    }
}

impl ElementAttributes {
    /// The pairs as they are stored.
    pub closed spec fn pairs(&self) -> Seq<(Seq<char>, Seq<char>)> {
        pairs_of(self.entries@)
    }

    #[verifier::type_invariant]
    spec fn keys_are_distinct(&self) -> bool {
        distinct_keys(self.pairs())
    }

    /// No attributes.
    pub fn new() -> (attributes: ElementAttributes)
        ensures
            attributes@ == Map::<Seq<char>, Seq<char>>::empty(),
    {
        ElementAttributes { entries: Vec::new() }
    }

    /// How many keys there are.
    pub fn len(&self) -> (count: usize)
        ensures
            self@.dom().finite(),
            count == self@.len(),
    {
        proof {
            use_type_invariant(self);
            lemma_pairs_to_map_len(self.pairs());
        }
        self.entries.len()
    }

    /// Whether there is no key at all.
    pub fn is_empty(&self) -> (empty: bool)
        ensures
            empty == (self@ == Map::<Seq<char>, Seq<char>>::empty()),
    {
        proof {
            use_type_invariant(self);
            lemma_pairs_to_map_len(self.pairs());
            if self.entries.len() == 0 {
                assert(self@ =~= Map::<Seq<char>, Seq<char>>::empty());
            }
        }
        self.entries.len() == 0
    }

    /// Where `key` is stored, if it is.
    fn position_of(&self, key: &str) -> (found: Option<usize>)
        ensures
            match found {
                Some(i) => i < self.pairs().len() && self.pairs()[i as int].0 == key@,
                None => forall|i: int| 0 <= i < self.pairs().len() ==> self.pairs()[i].0 != key@,
            },
    {
        let mut i: usize = 0;
        while i < self.entries.len()
            invariant
                i <= self.entries.len(),
                self.pairs().len() == self.entries.len(),
                forall|j: int| 0 <= j < i ==> self.pairs()[j].0 != key@,
            decreases self.entries.len() - i,
        {
            if str_eq(self.entries[i].0.as_str(), key) {
                return Some(i);
            }
            i += 1;
        }
        None
    }

    /// Whether `key` has a value.
    pub fn contains_key(&self, key: &str) -> (present: bool)
        ensures
            present == self@.contains_key(key@),
    {
        proof {
            lemma_pairs_to_map_domain(self.pairs(), key@);
        }
        self.position_of(key).is_some()
    }

    /// The value of `key`, if it has one.
    pub fn get(&self, key: &str) -> (value: Option<&String>)
        ensures
            match value {
                Some(v) => self@.contains_key(key@) && v@ == self@[key@],
                None => !self@.contains_key(key@),
            },
    {
        proof {
            use_type_invariant(self);
            lemma_pairs_to_map_domain(self.pairs(), key@);
        }
        match self.position_of(key) {
            Some(i) => {
                proof {
                    lemma_pairs_to_map_entry(self.pairs(), i as int);
                }
                Some(&self.entries[i].1)
            },
            None => None,
        }
    }

    /// All the attributes, each key once with its value, in no order that
    /// means anything.
    pub fn to_vec(&self) -> (pairs: Vec<(String, String)>)
        ensures
            distinct_keys(pairs_of(pairs@)),
            pairs_to_map(pairs_of(pairs@)) == self@,
            pairs_of(pairs@) == self.pairs(),
    {
        proof {
            use_type_invariant(self);
        }
        let mut pairs: Vec<(String, String)> = Vec::new();
        let mut i: usize = 0;
        while i < self.entries.len()
            invariant
                i <= self.entries.len(),
                pairs.len() == i,
                forall|j: int|
                    0 <= j < i ==> pairs[j].0@ == self.entries[j].0@ && pairs[j].1@
                        == self.entries[j].1@,
            decreases self.entries.len() - i,
        {
            let key = self.entries[i].0.clone();
            let value = self.entries[i].1.clone();
            pairs.push((key, value));
            i += 1;
        }
        assert(pairs_of(pairs@) =~= self.pairs());
        pairs
    }

    /// Gives `key` the value `value`, in place of the one it had, if any.
    pub fn insert(&mut self, key: String, value: String)
        ensures
            final(self)@ == old(self)@.insert(key@, value@),
    {
        proof {
            use_type_invariant(&*self);
        }
        let found = self.position_of(key.as_str());
        let ghost before = self.pairs();
        let mut entries: Vec<(String, String)> = Vec::new();
        std::mem::swap(&mut entries, &mut self.entries);
        match found {
            Some(i) => {
                entries.set(i, (key, value));
                proof {
                    lemma_pairs_to_map_update(before, i as int, value@);
                    assert(pairs_of(entries@) =~= before.update(i as int, (key@, value@)));
                }
            },
            None => {
                entries.push((key, value));
                proof {
                    assert(pairs_of(entries@) =~= before.push((key@, value@)));
                    assert(pairs_of(entries@).drop_last() =~= before);
                }
            },
        }
        self.entries = entries;
    }
}

impl Clone for ElementAttributes {
    fn clone(&self) -> (copy: ElementAttributes)
        ensures
            copy@ == self@,
    {
        ElementAttributes { entries: self.to_vec() }
    }
}

impl View for ElementAttributes {
    type V = Map<Seq<char>, Seq<char>>;

    closed spec fn view(&self) -> Map<Seq<char>, Seq<char>> {
        pairs_to_map(self.pairs())
    }
}

} // verus!
