//! The node tree: elements, text runs and comments, with attribute maps.
use vstd::prelude::*;

verus! {

/// Mathematical model of an attribute list, read in order: a later pair for
/// a key overrides an earlier one.
pub open spec fn to_map(s: Seq<(Seq<char>, Seq<char>)>) -> Map<Seq<char>, Seq<char>>
    decreases s.len(),
{
    if s.len() == 0 {
        Map::empty()
    } else {
        to_map(s.drop_last()).insert(s.last().0, s.last().1)
    }
}

proof fn lemma_to_map_absent(s: Seq<(Seq<char>, Seq<char>)>, k: Seq<char>)
    requires
        forall|j: int| 0 <= j < s.len() ==> s[j].0 != k,
    ensures
        !to_map(s).contains_key(k),
    decreases s.len(),
{
    if s.len() > 0 {
        lemma_to_map_absent(s.drop_last(), k);
    }
}

/// No name occurs in two pairs.
pub open spec fn keys_unique(s: Seq<(Seq<char>, Seq<char>)>) -> bool {
    forall|i: int, j: int| 0 <= i < s.len() && 0 <= j < s.len() && i != j ==> s[i].0 != s[j].0
}

/// No pair after position `i` has the key of position `i`.
pub open spec fn last_with_key(s: Seq<(Seq<char>, Seq<char>)>, i: int) -> bool {
    forall|j: int| i < j < s.len() ==> s[j].0 != s[i].0
}

proof fn lemma_to_map_at(s: Seq<(Seq<char>, Seq<char>)>, i: int)
    requires
        0 <= i < s.len(),
        last_with_key(s, i),
    ensures
        to_map(s).contains_key(s[i].0),
        to_map(s)[s[i].0] == s[i].1,
    decreases s.len(),
{
    if i < s.len() - 1 {
        lemma_to_map_at(s.drop_last(), i);
    }
}

proof fn lemma_to_map_update(s: Seq<(Seq<char>, Seq<char>)>, i: int, v: Seq<char>)
    requires
        0 <= i < s.len(),
        last_with_key(s, i),
    ensures
        to_map(s.update(i, (s[i].0, v))) == to_map(s).insert(s[i].0, v),
    decreases s.len(),
{
    let t = s.update(i, (s[i].0, v));
    if i == s.len() - 1 {
        assert(t.drop_last() =~= s.drop_last());
        assert(to_map(t) =~= to_map(s).insert(s[i].0, v));
    } else {
        assert(t.drop_last() =~= s.drop_last().update(i, (s[i].0, v)));
        lemma_to_map_update(s.drop_last(), i, v);
        assert(s.last().0 != s[i].0);
        assert(to_map(t) =~= to_map(s).insert(s[i].0, v));
    }
}

proof fn lemma_unique_dom_len(s: Seq<(Seq<char>, Seq<char>)>)
    requires
        keys_unique(s),
    ensures
        to_map(s).dom().len() == s.len(),
        to_map(s).dom().finite(),
    decreases s.len(),
{
    if s.len() > 0 {
        let t = s.drop_last();
        assert(keys_unique(t));
        lemma_unique_dom_len(t);
        lemma_to_map_absent(t, s.last().0);
    }
}

/// A mapping from attribute names to values, each name present once.
#[derive(Debug)]
pub struct AttrMap {
    entries: Vec<(String, String)>,
}

impl AttrMap {
    /// The stored pairs, in storage order.
    pub closed spec fn pairs(&self) -> Seq<(Seq<char>, Seq<char>)> {
        self.entries@.map_values(|e: (String, String)| (e.0@, e.1@))
    }

    pub open spec fn view(&self) -> Map<Seq<char>, Seq<char>> {
        to_map(self.pairs())
    }

    /// The stored pairs hold each name once.
    pub open spec fn wf(&self) -> bool {
        keys_unique(self.pairs())
    }

    /// When names are unique, the stored pairs list each entry of the map
    /// exactly once.
    pub proof fn lemma_pairs_list_map(&self)
        requires
            self.wf(),
        ensures
            forall|i: int|
                0 <= i < self.pairs().len() ==> #[trigger] self@.contains_key(self.pairs()[i].0)
                    && self@[self.pairs()[i].0] == self.pairs()[i].1,
            forall|k: Seq<char>|
                #[trigger] self@.contains_key(k) ==> exists|i: int|
                    0 <= i < self.pairs().len() && self.pairs()[i].0 == k,
            self@.dom().len() == self.pairs().len(),
    {
        let p = self.pairs();
        assert forall|i: int| 0 <= i < p.len() implies #[trigger] self@.contains_key(p[i].0)
            && self@[p[i].0] == p[i].1 by {
            lemma_to_map_at(p, i);
        }
        assert forall|k: Seq<char>| #[trigger] self@.contains_key(k) implies exists|i: int|
            0 <= i < p.len() && p[i].0 == k by {
            if forall|j: int| 0 <= j < p.len() ==> p[j].0 != k {
                lemma_to_map_absent(p, k);
            }
        }
        lemma_unique_dom_len(p);
    }

    pub fn new() -> (r: AttrMap)
        ensures
            r@ == Map::<Seq<char>, Seq<char>>::empty(),
            r.pairs().len() == 0,
            r.wf(),
    {
        let r = AttrMap { entries: Vec::new() };
        assert(r.pairs() =~= Seq::empty());
        r
    }

    /// Number of stored names.
    pub fn len(&self) -> (r: usize)
        ensures
            r == self.pairs().len(),
    {
        self.entries.len()
    }

    /// The pair stored at position `i`.
    pub fn pair_at(&self, i: usize) -> (r: (&String, &String))
        requires
            i < self.pairs().len(),
        ensures
            r.0@ == self.pairs()[i as int].0,
            r.1@ == self.pairs()[i as int].1,
    {
        let e = &self.entries[i];
        (&e.0, &e.1)
    }

    /// The last position that holds `name`.
    fn find(&self, name: &String) -> (r: Option<usize>)
        ensures
            match r {
                Some(i) => i < self.pairs().len() && self.pairs()[i as int].0 == name@
                    && last_with_key(self.pairs(), i as int),
                None => forall|j: int| 0 <= j < self.pairs().len() ==> self.pairs()[j].0 != name@,
            },
    {
        let mut i: usize = self.entries.len();
        while i > 0
            invariant
                i <= self.entries.len(),
                forall|j: int| i <= j < self.pairs().len() ==> self.pairs()[j].0 != name@,
            decreases i,
        {
            i = i - 1;
            if self.entries[i].0 == *name {
                return Some(i);
            }
        }
        None
    }

    /// The value stored under `name`, if any.
    pub fn get(&self, name: &String) -> (r: Option<&String>)
        ensures
            r is Some <==> self@.contains_key(name@),
            r matches Some(v) ==> v@ == self@[name@],
    {
        match self.find(name) {
            Some(i) => {
                proof {
                    lemma_to_map_at(self.pairs(), i as int);
                }
                Some(&self.entries[i].1)
            },
            None => {
                proof {
                    lemma_to_map_absent(self.pairs(), name@);
                }
                None
            },
        }
    }

    /// Stores `value` under `name`; a value already stored there is replaced
    /// in place, and a new name is appended.
    pub fn insert(&mut self, name: String, value: String)
        requires
            old(self).wf(),
        ensures
            final(self).wf(),
            final(self)@ == old(self)@.insert(name@, value@),
            (exists|i: int| 0 <= i < old(self).pairs().len() && old(self).pairs()[i].0 == name@)
                ==> exists|i: int|
                0 <= i < old(self).pairs().len() && old(self).pairs()[i].0 == name@
                    && final(self).pairs() == old(self).pairs().update(i, (name@, value@)),
            (forall|i: int| 0 <= i < old(self).pairs().len() ==> old(self).pairs()[i].0 != name@)
                ==> final(self).pairs() == old(self).pairs().push((name@, value@)),
    {
        let ghost old_pairs = self.pairs();
        match self.find(&name) {
            Some(i) => {
                let ghost k = name@;
                proof {
                    lemma_to_map_update(old_pairs, i as int, value@);
                }
                self.entries.set(i, (name, value));
                assert(self.pairs() =~= old_pairs.update(i as int, (k, value@)));
            },
            None => {
                let ghost k = name@;
                let ghost v = value@;
                self.entries.push((name, value));
                assert(self.pairs() =~= old_pairs.push((k, v)));
                assert(self.pairs().drop_last() =~= old_pairs);
            },
        }
    }
}

/// What kind of node a node is, with the data of that kind.
#[derive(Debug)]
pub enum NodeType {
    Element(Element),
    Content(String),
    Comment,
}

#[derive(Debug)]
pub struct Element {
    pub tagname: String,
    pub attributes: AttrMap,
    pub void: bool,
}

#[derive(Debug)]
pub struct Node {
    pub children: Vec<Node>,
    pub nodetype: NodeType,
}

/// Mathematical model of a node's kind.
pub enum KindView {
    Element { tag: Seq<char>, attrs: Map<Seq<char>, Seq<char>>, void: bool },
    Text { text: Seq<char> },
    Comment,
}

/// Mathematical model of a node and its subtree.
pub struct NodeView {
    pub kind: KindView,
    pub children: Seq<NodeView>,
}

impl NodeType {
    pub open spec fn view(&self) -> KindView {
        match self {
            NodeType::Element(e) => KindView::Element {
                tag: e.tagname@,
                attrs: e.attributes@,
                void: e.void,
            },
            NodeType::Content(t) => KindView::Text { text: t@ },
            NodeType::Comment => KindView::Comment,
        }
    }
}

impl Element {
    /// The value of attribute `attr`, or `None` when the element has none.
    pub fn get_attribute(&self, attr: String) -> (r: Option<&String>)
        ensures
            r is Some <==> self.attributes@.contains_key(attr@),
            r matches Some(v) ==> v@ == self.attributes@[attr@],
    {
        self.attributes.get(&attr)
    }
}

/// Models of a sequence of nodes.
pub open spec fn views(v: Seq<Node>) -> Seq<NodeView> {
    v.map_values(|n: Node| n@)
}

impl Node {
    pub open spec fn view(&self) -> NodeView
        decreases self,
    {
        NodeView {
            kind: self.nodetype@,
            children: Seq::new(
                self.children.len() as nat,
                |i: int|
                    if 0 <= i < self.children.len() {
                        proof {
                            broadcast use vstd::std_specs::vec::axiom_vec_index_decreases;
                        }
                        self.children[i]@
                    } else {
                        NodeView { kind: KindView::Comment, children: Seq::empty() }
                    },
            ),
        }
    }

    /// A text node holding `text`.
    pub fn text(text: String) -> (r: Node)
        ensures
            r@ == (NodeView { kind: KindView::Text { text: text@ }, children: Seq::empty() }),
    {
        let r = Node { children: Vec::new(), nodetype: NodeType::Content(text) };
        assert(r@.children =~= Seq::empty());
        r
    }

    /// An element node; a void element is given no children.
    pub fn elem(name: String, attrs: AttrMap, children: Vec<Node>, void: bool) -> (r: Node)
        requires
            void ==> children.len() == 0,
        ensures
            r.children == children,
            r.nodetype == NodeType::Element(
                Element { tagname: name, attributes: attrs, void: void },
            ),
            r@ == (NodeView {
                kind: KindView::Element { tag: name@, attrs: attrs@, void },
                children: views(children@),
            }),
    {
        let ghost cv = views(children@);
        let r = Node {
            children: children,
            nodetype: NodeType::Element(Element { tagname: name, attributes: attrs, void: void }),
        };
        assert(r@.children =~= cv);
        r
    }

    /// A comment node.
    pub fn comment() -> (r: Node)
        ensures
            r@ == (NodeView { kind: KindView::Comment, children: Seq::empty() }),
    {
        let r = Node { children: Vec::new(), nodetype: NodeType::Comment };
        assert(r@.children =~= Seq::empty());
        r
    }
}

/// ` name`, then `="value"` when the value is not empty.
pub open spec fn render_attr(a: (Seq<char>, Seq<char>)) -> Seq<char> {
    seq![' '] + a.0 + if a.1.len() > 0 {
        seq!['=', '"'] + a.1 + seq!['"']
    } else {
        Seq::empty()
    }
}

pub open spec fn render_attrs(p: Seq<(Seq<char>, Seq<char>)>) -> Seq<char>
    decreases p.len(),
{
    if p.len() == 0 {
        Seq::empty()
    } else {
        render_attrs(p.drop_last()) + render_attr(p.last())
    }
}

/// Textual form of a node and its subtree.
pub open spec fn render(n: &Node) -> Seq<char>
    decreases n, n.children.len() + 1,
{
    match n.nodetype {
        NodeType::Content(t) => t@ + seq!['\n'],
        NodeType::Element(e) => {
            let open = seq!['<'] + e.tagname@ + render_attrs(e.attributes.pairs());
            if e.void {
                open + seq![' ', '/', '>', '\n']
            } else {
                open + seq!['>', '\n'] + render_children(n, n.children.len() as int) + seq![
                    '<',
                    '/',
                ] + e.tagname@ + seq!['>', '\n']
            }
        },
        NodeType::Comment => seq!['C', 'o', 'm', 'm', 'e', 'n', 't'],
    }
}

/// Textual forms of the first `k` children of `n`, one after another.
pub open spec fn render_children(n: &Node, k: int) -> Seq<char>
    decreases n, k,
    when 0 <= k <= n.children.len()
{
    if k == 0 {
        Seq::empty()
    } else {
        proof {
            broadcast use vstd::std_specs::vec::axiom_vec_index_decreases;
        }
        render_children(n, k - 1) + render(&n.children[k - 1])
    }
}

fn push_str(out: &mut String, t: &String)
    ensures
        final(out)@ == old(out)@ + t@,
{
    out.append(t.as_str());
}

impl Node {
    /// Textual form of this node and its subtree.
    pub fn serialize(&self) -> (r: String)
        ensures
            r@ == render(self),
        decreases self, self.children.len() + 1,
    {
        let mut out = String::new();
        match &self.nodetype {
            NodeType::Content(t) => {
                push_str(&mut out, t);
                out.push('\n');
            },
            NodeType::Element(e) => {
                out.push('<');
                push_str(&mut out, &e.tagname);
                let n = e.attributes.len();
                let mut i: usize = 0;
                while i < n
                    invariant
                        n == e.attributes.pairs().len(),
                        i <= n,
                        out@ == seq!['<'] + e.tagname@ + render_attrs(
                            e.attributes.pairs().take(i as int),
                        ),
                    decreases n - i,
                {
                    let (name, value) = e.attributes.pair_at(i);
                    let ghost before = out@;
                    out.push(' ');
                    push_str(&mut out, name);
                    if !value.as_str().is_empty() {
                        out.push('=');
                        out.push('"');
                        push_str(&mut out, value);
                        out.push('"');
                    }
                    let ghost taken = e.attributes.pairs().take(i + 1);
                    assert(taken.drop_last() =~= e.attributes.pairs().take(i as int));
                    assert(out@ =~= before + render_attr(taken.last()));
                    i = i + 1;
                }
                assert(e.attributes.pairs().take(n as int) =~= e.attributes.pairs());
                if e.void {
                    out.push(' ');
                    out.push('/');
                    out.push('>');
                    out.push('\n');
                } else {
                    out.push('>');
                    out.push('\n');
                    let ghost head = out@;
                    let mut k: usize = 0;
                    while k < self.children.len()
                        invariant
                            k <= self.children.len(),
                            out@ == head + render_children(self, k as int),
                        decreases self.children.len() - k,
                    {
                        proof {
                            broadcast use vstd::std_specs::vec::axiom_vec_index_decreases;
                        }
                        let c = self.children[k].serialize();
                        push_str(&mut out, &c);
                        k = k + 1;
                        assert(out@ =~= head + render_children(self, k as int));
                    }
                    out.push('<');
                    out.push('/');
                    push_str(&mut out, &e.tagname);
                    out.push('>');
                    out.push('\n');
                }
            },
            NodeType::Comment => {
                out.push('C');
                out.push('o');
                out.push('m');
                out.push('m');
                out.push('e');
                out.push('n');
                out.push('t');
            },
        }
        assert(out@ =~= render(self));
        out
    }
}

} // verus!
