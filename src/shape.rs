//! Properties of every tree that a parse produces.
use vstd::prelude::*;
use crate::dom::{NodeView, KindView};
use crate::htmlparser::{
    Class, at, expect, in_class, lemma_attribute_ends, lemma_attributes_end, lemma_scan, lower_ascii,
    lower_of, scan, spec_attribute, spec_attributes, spec_element, spec_node, spec_nodes, spec_parse,
    spec_string, text_view,
};

verus! {

broadcast use vstd::seq::axiom_seq_index_decreases;

/// `p` holds of `n` and of every node below it.
pub open spec fn all_nodes(n: NodeView, p: spec_fn(NodeView) -> bool) -> bool
    decreases n, 1int,
{
    p(n) && all_in(n.children, p, n.children.len() as int)
}

/// `all_nodes` holds of each of the first `k` nodes of `ns`.
pub open spec fn all_in(ns: Seq<NodeView>, p: spec_fn(NodeView) -> bool, k: int) -> bool
    decreases ns, k,
{
    if k <= 0 || k > ns.len() {
        true
    } else {
        all_in(ns, p, k - 1) && all_nodes(ns[k - 1], p)
    }
}

proof fn lemma_all_in(ns: Seq<NodeView>, p: spec_fn(NodeView) -> bool, k: int)
    requires
        0 <= k <= ns.len(),
    ensures
        all_in(ns, p, k) <==> forall|i: int| 0 <= i < k ==> #[trigger] all_nodes(ns[i], p),
    decreases k,
{
    if k > 0 {
        lemma_all_in(ns, p, k - 1);
        assert(all_in(ns, p, k) == (all_in(ns, p, k - 1) && all_nodes(ns[k - 1], p)));
    }
}

/// A tag name of lowercase ASCII letters and digits.
pub open spec fn is_lower_tag(t: Seq<char>) -> bool {
    forall|k: int| 0 <= k < t.len() ==> ('a' <= #[trigger] t[k] && t[k] <= 'z') || ('0' <= t[k]
        && t[k] <= '9')
}

/// A string that lowering returns for some string.
pub open spec fn is_lowered(t: Seq<char>) -> bool {
    exists|r: Seq<char>| lower_of(r) == t
}

pub open spec fn attrs_lowered(m: Map<Seq<char>, Seq<char>>) -> bool {
    forall|k: Seq<char>| #[trigger] m.contains_key(k) ==> is_lowered(k) && is_lowered(m[k])
}

pub open spec fn has_lower_tag(n: NodeView) -> bool {
    n.kind matches KindView::Element { tag, .. } ==> is_lower_tag(tag)
}

pub open spec fn has_lowered_attrs(n: NodeView) -> bool {
    n.kind matches KindView::Element { attrs, .. } ==> attrs_lowered(attrs)
}

pub open spec fn not_comment(n: NodeView) -> bool {
    !(n.kind is Comment)
}

pub open spec fn void_is_empty(n: NodeView) -> bool {
    n.kind matches KindView::Element { void, .. } ==> (void ==> n.children.len() == 0)
}

pub open spec fn good(n: NodeView) -> bool {
    has_lower_tag(n) && has_lowered_attrs(n) && not_comment(n) && void_is_empty(n)
}

pub open spec fn good_fn() -> spec_fn(NodeView) -> bool {
    |x: NodeView| good(x)
}

pub open spec fn all_good(n: NodeView) -> bool {
    all_nodes(n, good_fn())
}

proof fn lemma_all_nodes_weaken(
    n: NodeView,
    p: spec_fn(NodeView) -> bool,
    q: spec_fn(NodeView) -> bool,
)
    requires
        all_nodes(n, p),
        forall|x: NodeView| #[trigger] p(x) ==> q(x),
    ensures
        all_nodes(n, q),
    decreases n,
{
    lemma_all_in(n.children, p, n.children.len() as int);
    lemma_all_in(n.children, q, n.children.len() as int);
    assert forall|i: int| 0 <= i < n.children.len() implies #[trigger] all_nodes(
        n.children[i],
        q,
    ) by {
        lemma_all_nodes_weaken(n.children[i], p, q);
    }
}

proof fn lemma_lower_ascii_tag(s: Seq<char>, a: int)
    requires
        0 <= a <= s.len(),
    ensures
        is_lower_tag(lower_ascii(s.subrange(a, scan(s, a, Class::TagName)))),
{
    lemma_scan(s, a, Class::TagName);
    let t = s.subrange(a, scan(s, a, Class::TagName));
    assert forall|k: int| 0 <= k < t.len() implies ('a' <= #[trigger] lower_ascii(t)[k]
        && lower_ascii(t)[k] <= 'z') || ('0' <= lower_ascii(t)[k] && lower_ascii(t)[k] <= '9') by {
        assert(in_class(Class::TagName, s[a + k]));
        let c = t[k];
        if 'A' <= c && c <= 'Z' {
            let u = c as u32;
            assert(65 <= u <= 90);
            assert((c as u8) as u32 == u);
        }
    }
}

proof fn lemma_attributes_lowered(s: Seq<char>, i: int, m: Map<Seq<char>, Seq<char>>)
    requires
        0 <= i <= s.len(),
        attrs_lowered(m),
    ensures
        spec_attributes(s, i, m) matches Ok((r, _)) ==> attrs_lowered(r),
    decreases s.len() - i,
{
    let j = scan(s, i, Class::Whitespace);
    lemma_scan(s, i, Class::Whitespace);
    if j < s.len() && !(s[j] == '>' || s[j] == '/') {
        lemma_attribute_ends(s, j);
        if let Ok((k, v, e)) = spec_attribute(s, j) {
            if e > j {
                let n = scan(s, j, Class::AttrName);
                assert(lower_of(s.subrange(j, n)) == k);
                assert(is_lowered(k));
                let w = scan(s, n, Class::Whitespace);
                if s[w] == '=' {
                    let (vr, _) = spec_string(s, scan(s, w + 1, Class::Whitespace))->Ok_0;
                    assert(lower_of(vr) == v);
                } else {
                    assert(lower_of(Seq::<char>::empty()) == v);
                }
                assert(is_lowered(v));
                lemma_attributes_lowered(s, e, m.insert(k, v));
            }
        }
    }
}

proof fn lemma_nodes_good(s: Seq<char>, i: int)
    requires
        0 <= i <= s.len(),
    ensures
        spec_nodes(s, i) matches Ok((ns, _)) ==> forall|k: int|
            0 <= k < ns.len() ==> all_good(#[trigger] ns[k]),
        spec_nodes(s, i) matches Ok((_, e)) ==> i <= e <= s.len(),
    decreases s.len() - i, 2nat,
{
    let j = scan(s, i, Class::Whitespace);
    lemma_scan(s, i, Class::Whitespace);
    if !(j >= s.len() || (at(s, j, '<') && at(s, j + 1, '/'))) {
        lemma_node_good(s, j);
        if let Ok((n, k)) = spec_node(s, j) {
            if j < k <= s.len() {
                lemma_nodes_good(s, k);
                if let Ok((rest, e)) = spec_nodes(s, k) {
                    if !(n.kind is Comment) {
                        let ns = seq![n] + rest;
                        assert forall|x: int| 0 <= x < ns.len() implies all_good(#[trigger] ns[x]) by {
                            if x > 0 {
                                assert(ns[x] == rest[x - 1]);
                            }
                        }
                    }
                }
            }
        }
    }
}

proof fn lemma_node_good(s: Seq<char>, i: int)
    requires
        0 <= i < s.len(),
    ensures
        spec_node(s, i) matches Ok((_, k)) ==> i < k <= s.len(),
        spec_node(s, i) matches Ok((n, _)) ==> n.kind is Comment || all_good(n),
    decreases s.len() - i, 1nat,
{
    if at(s, i, '<') && at(s, i + 1, '!') {
        lemma_scan(s, i + 2, Class::Not('>'));
        assert(scan(s, i, Class::Not('>')) == scan(s, i + 1, Class::Not('>')));
        assert(scan(s, i + 1, Class::Not('>')) == scan(s, i + 2, Class::Not('>')));
    } else if at(s, i, '<') {
        lemma_element_good(s, i);
    } else {
        lemma_scan(s, i + 1, Class::Not('<'));
        let e = scan(s, i, Class::Not('<'));
        let n = text_view(s.subrange(i, e));
        assert(good(n));
        assert(all_good(n));
    }
}

proof fn lemma_element_good(s: Seq<char>, i: int)
    requires
        0 <= i <= s.len(),
    ensures
        spec_element(s, i) matches Ok((n, _)) ==> all_good(n),
        spec_element(s, i) matches Ok((_, f)) ==> i < f <= s.len(),
    decreases s.len() - i, 0nat,
{
    if let Ok(a) = expect(s, i, '<') {
        let t = scan(s, a, Class::TagName);
        lemma_scan(s, a, Class::TagName);
        lemma_lower_ascii_tag(s, a);
        lemma_attributes_lowered(s, t, Map::empty());
        lemma_attributes_end(s, t, Map::empty());
        if let Ok((attrs, b)) = spec_attributes(s, t, Map::empty()) {
            let w = scan(s, b, Class::Whitespace);
            lemma_scan(s, b, Class::Whitespace);
            if w < s.len() && s[w] == '>' {
                lemma_nodes_good(s, w + 1);
                if let Ok((children, c)) = spec_nodes(s, w + 1) {
                    lemma_all_in(children, good_fn(), children.len() as int);
                    if let Ok(c1) = expect(s, c, '<') {
                        if let Ok(c2) = expect(s, c1, '/') {
                            lemma_scan(s, c2, Class::TagName);
                        }
                    }
                }
            }
            if let Ok((n, _)) = spec_element(s, i) {
                assert(good(n));
                assert(all_good(n));
            }
        }
    }
}

proof fn lemma_parse_good(s: Seq<char>)
    ensures
        spec_parse(s) matches Ok(t) ==> all_good(t),
{
    lemma_nodes_good(s, 0);
    if let Ok((nodes, e)) = spec_nodes(s, 0) {
        if e >= s.len() && nodes.len() != 1 {
            let t = spec_parse(s)->Ok_0;
            lemma_all_in(nodes, good_fn(), nodes.len() as int);
            assert(is_lower_tag(seq!['h', 't', 'm', 'l']));
            assert(good(t));
        }
    }
}

pub open spec fn lower_tag_fn() -> spec_fn(NodeView) -> bool {
    |x: NodeView| has_lower_tag(x)
}

pub open spec fn lowered_attrs_fn() -> spec_fn(NodeView) -> bool {
    |x: NodeView| has_lowered_attrs(x)
}

pub open spec fn not_comment_fn() -> spec_fn(NodeView) -> bool {
    |x: NodeView| not_comment(x)
}

pub open spec fn void_is_empty_fn() -> spec_fn(NodeView) -> bool {
    |x: NodeView| void_is_empty(x)
}

/// Every element of a parsed tree has a tag name of lowercase ASCII letters
/// and digits.
pub proof fn law_tag_names_lowercase(s: Seq<char>)
    ensures
        spec_parse(s) matches Ok(t) ==> all_nodes(t, lower_tag_fn()),
{
    lemma_parse_good(s);
    if let Ok(t) = spec_parse(s) {
        lemma_all_nodes_weaken(t, good_fn(), lower_tag_fn());
    }
}

/// Every attribute name and value of a parsed tree is a lowered string.
pub proof fn law_attributes_lowered(s: Seq<char>)
    ensures
        spec_parse(s) matches Ok(t) ==> all_nodes(t, lowered_attrs_fn()),
{
    lemma_parse_good(s);
    if let Ok(t) = spec_parse(s) {
        lemma_all_nodes_weaken(t, good_fn(), lowered_attrs_fn());
    }
}

/// A parsed tree holds no comment node.
pub proof fn law_no_comments(s: Seq<char>)
    ensures
        spec_parse(s) matches Ok(t) ==> all_nodes(t, not_comment_fn()),
{
    lemma_parse_good(s);
    if let Ok(t) = spec_parse(s) {
        lemma_all_nodes_weaken(t, good_fn(), not_comment_fn());
    }
}

/// Every void element of a parsed tree has no children.
pub proof fn law_void_elements_empty(s: Seq<char>)
    ensures
        spec_parse(s) matches Ok(t) ==> all_nodes(t, void_is_empty_fn()),
{
    lemma_parse_good(s);
    if let Ok(t) = spec_parse(s) {
        lemma_all_nodes_weaken(t, good_fn(), void_is_empty_fn());
    }
}

proof fn lemma_nodes_stop(s: Seq<char>, i: int)
    requires
        0 <= i <= s.len(),
    ensures
        spec_nodes(s, i) matches Ok((_, e)) ==> i <= e <= s.len() && (e == s.len() || (at(
            s,
            e,
            '<',
        ) && at(s, e + 1, '/'))),
    decreases s.len() - i,
{
    let j = scan(s, i, Class::Whitespace);
    lemma_scan(s, i, Class::Whitespace);
    if !(j >= s.len() || (at(s, j, '<') && at(s, j + 1, '/'))) {
        lemma_node_good(s, j);
        if let Ok((n, k)) = spec_node(s, j) {
            lemma_nodes_stop(s, k);
        }
    }
}

/// A successful parse reads the whole input: its top-level sibling list
/// runs from the start of the input to its end.
pub proof fn law_parse_reads_all(s: Seq<char>)
    ensures
        spec_parse(s) is Ok ==> (spec_nodes(s, 0) matches Ok((_, e)) && e == s.len()),
{
    lemma_nodes_stop(s, 0);
}

} // verus!
