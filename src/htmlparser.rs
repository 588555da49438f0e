//! Recursive-descent parser from markup text to a node tree.
use vstd::prelude::*;
use crate::dom::{AttrMap, Node, NodeType, NodeView, KindView, views};
use vstd::std_specs::iter::IteratorSpec;
use crate::shape::{
    all_nodes, law_attributes_lowered, law_no_comments, law_tag_names_lowercase,
    law_void_elements_empty, lower_tag_fn, lowered_attrs_fn, not_comment_fn, void_is_empty_fn,
};

verus! {

broadcast use vstd::string::group_string_axioms;

/// What `str::to_lowercase` returns for a string.
pub uninterp spec fn lower_of(s: Seq<char>) -> Seq<char>;

/// Relies on `str::to_lowercase`: the result depends on the characters alone,
/// and the empty string stays empty.
#[verifier::external_body]
fn lowercase(s: &String) -> (r: String)
    ensures
        r@ == lower_of(s@),
        s@.len() == 0 ==> r@.len() == 0,
{
    s.to_lowercase()
}

/// Characters with the Unicode `White_Space` property.
pub open spec fn is_white(c: char) -> bool {
    let u = c as u32;
    (0x09 <= u && u <= 0x0D) || u == 0x20 || u == 0x85 || u == 0xA0 || u == 0x1680 || (0x2000
        <= u && u <= 0x200A) || u == 0x2028 || u == 0x2029 || u == 0x202F || u == 0x205F || u
        == 0x3000
}

/// Characters of the Unicode general category `Cc`.
pub open spec fn is_control(c: char) -> bool {
    let u = c as u32;
    u <= 0x1F || (0x7F <= u && u <= 0x9F)
}

pub open spec fn is_tag_char(c: char) -> bool {
    ('a' <= c && c <= 'z') || ('A' <= c && c <= 'Z') || ('0' <= c && c <= '9')
}

fn white(c: char) -> (r: bool)
    ensures
        r == is_white(c),
{
    let u = c as u32;
    (0x09 <= u && u <= 0x0D) || u == 0x20 || u == 0x85 || u == 0xA0 || u == 0x1680 || (0x2000
        <= u && u <= 0x200A) || u == 0x2028 || u == 0x2029 || u == 0x202F || u == 0x205F || u
        == 0x3000
}

fn control(c: char) -> (r: bool)
    ensures
        r == is_control(c),
{
    let u = c as u32;
    u <= 0x1F || (0x7F <= u && u <= 0x9F)
}

/// The sets of characters that the scanner consumes runs of.
pub enum Class {
    Whitespace,
    TagName,
    AttrName,
    Unquoted,
    /// ASCII letters and digits, `.` and `-`.
    Run,
    Not(char),
}

pub open spec fn in_class(cls: Class, c: char) -> bool {
    match cls {
        Class::Whitespace => is_white(c),
        Class::TagName => is_tag_char(c),
        Class::AttrName => !is_white(c) && !is_control(c) && c != '"' && c != '>' && c != '/' && c
            != '=' && c != '\'' && c != '\0',
        Class::Unquoted => !is_white(c) && c != '"' && c != '<' && c != '>' && c != '=' && c
            != '`' && c != '\'',
        Class::Run => is_tag_char(c) || c == '.' || c == '-',
        Class::Not(x) => c != x,
    }
}

pub(crate) fn matches_class(cls: &Class, c: char) -> (r: bool)
    ensures
        r == in_class(*cls, c),
{
    match cls {
        Class::Whitespace => white(c),
        Class::TagName => ('a' <= c && c <= 'z') || ('A' <= c && c <= 'Z') || ('0' <= c && c
            <= '9'),
        Class::AttrName => !white(c) && !control(c) && c != '"' && c != '>' && c != '/' && c
            != '=' && c != '\'' && c != '\0',
        Class::Unquoted => !white(c) && c != '"' && c != '<' && c != '>' && c != '=' && c != '`'
            && c != '\'',
        Class::Run => ('a' <= c && c <= 'z') || ('A' <= c && c <= 'Z') || ('0' <= c && c <= '9')
            || c == '.' || c == '-',
        Class::Not(x) => c != *x,
    }
}

/// End of the longest run of `cls` characters of `s` that starts at `i`.
pub open spec fn scan(s: Seq<char>, i: int, cls: Class) -> int
    decreases s.len() - i,
{
    if 0 <= i < s.len() && in_class(cls, s[i]) {
        scan(s, i + 1, cls)
    } else {
        i
    }
}

pub proof fn lemma_scan(s: Seq<char>, i: int, cls: Class)
    requires
        0 <= i <= s.len(),
    ensures
        i <= scan(s, i, cls) <= s.len(),
        forall|k: int| i <= k < scan(s, i, cls) ==> in_class(cls, #[trigger] s[k]),
        scan(s, i, cls) < s.len() ==> !in_class(cls, s[scan(s, i, cls)]),
    decreases s.len() - i,
{
    if i < s.len() && in_class(cls, s[i]) {
        lemma_scan(s, i + 1, cls);
    }
}

/// `s` holds `c` at position `i`.
pub open spec fn at(s: Seq<char>, i: int, c: char) -> bool {
    0 <= i < s.len() && s[i] == c
}

/// ASCII letters mapped to lower case, other characters kept.
pub open spec fn lower_ascii(s: Seq<char>) -> Seq<char> {
    s.map_values(|c: char| if 'A' <= c && c <= 'Z' { ((c as u32) + 32) as char } else { c })
}

/// A parse that stopped on input that does not fit the grammar.
#[derive(Debug, Clone, Copy, PartialEq, Eq, Structural)]
pub enum ParseError {
    /// The input ended where a character was required.
    UnexpectedEnd,
    /// A character other than this one stood where it was required.
    Expected(char),
    /// A closing tag names another element than the one it closes.
    MismatchedCloseTag,
    /// After a tag name and attributes came neither `/` nor `>`.
    MalformedTag,
    /// An attribute that consumes no input.
    EmptyAttribute,
    /// Input remains after the top-level nodes, at a closing tag that no
    /// element opened.
    TrailingInput,
}

/// Consuming the character `c` at position `i`.
pub open spec fn expect(s: Seq<char>, i: int, c: char) -> Result<int, ParseError> {
    if i < 0 || i >= s.len() {
        Err(ParseError::UnexpectedEnd)
    } else if s[i] == c {
        Ok(i + 1)
    } else {
        Err(ParseError::Expected(c))
    }
}

pub open spec fn text_view(t: Seq<char>) -> NodeView {
    NodeView { kind: KindView::Text { text: t }, children: Seq::empty() }
}

pub open spec fn comment_view() -> NodeView {
    NodeView { kind: KindView::Comment, children: Seq::empty() }
}

pub open spec fn element_view(
    tag: Seq<char>,
    attrs: Map<Seq<char>, Seq<char>>,
    void: bool,
    children: Seq<NodeView>,
) -> NodeView {
    NodeView { kind: KindView::Element { tag, attrs, void }, children }
}

/// An attribute value at `i`: quoted by `"` or `'`, or a bare run.
pub open spec fn spec_string(s: Seq<char>, i: int) -> Result<(Seq<char>, int), ParseError> {
    if i < 0 || i >= s.len() {
        Err(ParseError::UnexpectedEnd)
    } else if s[i] == '"' || s[i] == '\'' {
        let e = scan(s, i + 1, Class::Not(s[i]));
        match expect(s, e, s[i]) {
            Ok(f) => Ok((s.subrange(i + 1, e), f)),
            Err(x) => Err(x),
        }
    } else {
        let e = scan(s, i, Class::Unquoted);
        Ok((s.subrange(i, e), e))
    }
}

/// One attribute at `i`: its lowered name, its lowered value, and where it ends.
pub open spec fn spec_attribute(s: Seq<char>, i: int) -> Result<
    (Seq<char>, Seq<char>, int),
    ParseError,
> {
    let n = scan(s, i, Class::AttrName);
    let w = scan(s, n, Class::Whitespace);
    if w >= s.len() {
        Err(ParseError::UnexpectedEnd)
    } else if s[w] == '=' {
        match spec_string(s, scan(s, w + 1, Class::Whitespace)) {
            Ok((v, e)) => Ok((lower_of(s.subrange(i, n)), lower_of(v), e)),
            Err(x) => Err(x),
        }
    } else {
        Ok((lower_of(s.subrange(i, n)), lower_of(Seq::empty()), w))
    }
}

pub proof fn lemma_attribute_ends(s: Seq<char>, i: int)
    requires
        0 <= i <= s.len(),
    ensures
        spec_attribute(s, i) matches Ok((_, _, e)) ==> i <= e <= s.len(),
{
    let n = scan(s, i, Class::AttrName);
    lemma_scan(s, i, Class::AttrName);
    let w = scan(s, n, Class::Whitespace);
    lemma_scan(s, n, Class::Whitespace);
    if w < s.len() && s[w] == '=' {
        let v = scan(s, w + 1, Class::Whitespace);
        lemma_scan(s, w + 1, Class::Whitespace);
        if v < s.len() {
            lemma_scan(s, v + 1, Class::Not(s[v]));
            lemma_scan(s, v, Class::Unquoted);
        }
    }
}

/// The attributes of a tag from `i` on, added to `m`, up to the `>` or `/`
/// that ends them.
pub open spec fn spec_attributes(s: Seq<char>, i: int, m: Map<Seq<char>, Seq<char>>) -> Result<
    (Map<Seq<char>, Seq<char>>, int),
    ParseError,
>
    decreases s.len() - i,
    when 0 <= i <= s.len()
{
    let j = scan(s, i, Class::Whitespace);
    proof {
        lemma_scan(s, i, Class::Whitespace);
    }
    if j >= s.len() {
        Err(ParseError::UnexpectedEnd)
    } else if s[j] == '>' || s[j] == '/' {
        Ok((m, j))
    } else {
        match spec_attribute(s, j) {
            Err(x) => Err(x),
            Ok((k, v, e)) => if e <= j {
                Err(ParseError::EmptyAttribute)
            } else {
                proof {
                    lemma_attribute_ends(s, j);
                }
                spec_attributes(s, e, m.insert(k, v))
            },
        }
    }
}

pub proof fn lemma_attributes_end(s: Seq<char>, i: int, m: Map<Seq<char>, Seq<char>>)
    requires
        0 <= i <= s.len(),
    ensures
        spec_attributes(s, i, m) matches Ok((_, e)) ==> i <= e < s.len() && (s[e] == '>' || s[e]
            == '/'),
    decreases s.len() - i,
{
    let j = scan(s, i, Class::Whitespace);
    lemma_scan(s, i, Class::Whitespace);
    if j < s.len() && !(s[j] == '>' || s[j] == '/') {
        lemma_attribute_ends(s, j);
        if let Ok((k, v, e)) = spec_attribute(s, j) {
            if e > j {
                lemma_attributes_end(s, e, m.insert(k, v));
            }
        }
    }
}

/// The sibling nodes from `i` on, up to the end of input or a `</`.
pub open spec fn spec_nodes(s: Seq<char>, i: int) -> Result<(Seq<NodeView>, int), ParseError>
    decreases s.len() - i, 2nat,
    when 0 <= i <= s.len()
{
    let j = scan(s, i, Class::Whitespace);
    proof {
        lemma_scan(s, i, Class::Whitespace);
    }
    if j >= s.len() || (at(s, j, '<') && at(s, j + 1, '/')) {
        Ok((Seq::empty(), j))
    } else {
        match spec_node(s, j) {
            Err(x) => Err(x),
            Ok((n, k)) => if j < k <= s.len() {
                match spec_nodes(s, k) {
                    Err(x) => Err(x),
                    Ok((rest, e)) => Ok(
                        (if n.kind is Comment {
                            rest
                        } else {
                            seq![n] + rest
                        }, e),
                    ),
                }
            } else {
                // never taken: a node consumes at least one character
                Ok((seq![n], k))
            },
        }
    }
}

/// One node at `i`: a comment or declaration, an element, or a text run.
pub open spec fn spec_node(s: Seq<char>, i: int) -> Result<(NodeView, int), ParseError>
    decreases s.len() - i, 1nat,
    when 0 <= i <= s.len()
{
    if at(s, i, '<') && at(s, i + 1, '!') {
        let e = scan(s, i, Class::Not('>'));
        match expect(s, e, '>') {
            Ok(f) => Ok((comment_view(), f)),
            Err(x) => Err(x),
        }
    } else if at(s, i, '<') {
        spec_element(s, i)
    } else {
        let e = scan(s, i, Class::Not('<'));
        Ok((text_view(s.subrange(i, e)), e))
    }
}

/// An element at `i`, from its `<` to the end of its closing tag.
pub open spec fn spec_element(s: Seq<char>, i: int) -> Result<(NodeView, int), ParseError>
    decreases s.len() - i, 0nat,
    when 0 <= i <= s.len()
{
    match expect(s, i, '<') {
        Err(x) => Err(x),
        Ok(a) => {
            let t = scan(s, a, Class::TagName);
            let tag = lower_ascii(s.subrange(a, t));
            proof {
                lemma_scan(s, a, Class::TagName);
            }
            match spec_attributes(s, t, Map::empty()) {
                Err(x) => Err(x),
                Ok((attrs, b)) => {
                    let w = scan(s, b, Class::Whitespace);
                    proof {
                        lemma_attributes_end(s, t, Map::empty());
                        lemma_scan(s, b, Class::Whitespace);
                    }
                    if w >= s.len() {
                        Err(ParseError::UnexpectedEnd)
                    } else if s[w] == '/' {
                        match expect(s, w + 1, '>') {
                            Err(x) => Err(x),
                            Ok(f) => Ok((element_view(tag, attrs, true, Seq::empty()), f)),
                        }
                    } else if s[w] == '>' {
                        match spec_nodes(s, w + 1) {
                            Err(x) => Err(x),
                            Ok((children, c)) => match expect(s, c, '<') {
                                Err(x) => Err(x),
                                Ok(c1) => match expect(s, c1, '/') {
                                    Err(x) => Err(x),
                                    Ok(c2) => {
                                        let e = scan(s, c2, Class::TagName);
                                        if lower_ascii(s.subrange(c2, e)) != tag {
                                            Err(ParseError::MismatchedCloseTag)
                                        } else {
                                            match expect(s, e, '>') {
                                                Err(x) => Err(x),
                                                Ok(f) => Ok(
                                                    (element_view(tag, attrs, false, children), f),
                                                ),
                                            }
                                        }
                                    },
                                },
                            },
                        }
                    } else {
                        Err(ParseError::MalformedTag)
                    }
                },
            }
        },
    }
}

/// The tree of a whole input: its single top-level node, or else its
/// top-level nodes under a synthetic `html` element. The top-level nodes
/// must take up the whole input.
pub open spec fn spec_parse(s: Seq<char>) -> Result<NodeView, ParseError> {
    match spec_nodes(s, 0) {
        Err(x) => Err(x),
        Ok((nodes, e)) => if e < s.len() {
            Err(ParseError::TrailingInput)
        } else if nodes.len() == 1 {
            Ok(nodes[0])
        } else {
            Ok(element_view(seq!['h', 't', 'm', 'l'], Map::empty(), false, nodes))
        },
    }
}

struct Parser {
    pos: usize,
    input: Vec<char>,
}

impl Parser {
    spec fn ok(&self) -> bool {
        self.pos <= self.input.len()
    }

    fn eof(&self) -> (r: bool)
        ensures
            r == (self.pos >= self.input.len()),
    {
        self.pos >= self.input.len()
    }

    /// The character at the cursor, if any; `consume` moves past it.
    fn next_char(&mut self, consume: bool) -> (r: Option<char>)
        requires
            old(self).ok(),
        ensures
            final(self).ok(),
            final(self).input@ == old(self).input@,
            r == (if old(self).pos < old(self).input.len() {
                Some(old(self).input@[old(self).pos as int])
            } else {
                None::<char>
            }),
            final(self).pos == (if consume && old(self).pos < old(self).input.len() {
                old(self).pos + 1
            } else {
                old(self).pos as int
            }),
    {
        if self.pos < self.input.len() {
            let c = self.input[self.pos];
            if consume {
                self.pos = self.pos + 1;
            }
            Some(c)
        } else {
            None
        }
    }

    /// The remaining input starts with `a` followed by `b`.
    fn starts_with(&self, a: char, b: char) -> (r: bool)
        requires
            self.ok(),
        ensures
            r == (at(self.input@, self.pos as int, a) && at(self.input@, self.pos + 1, b)),
    {
        self.input.len() - self.pos > 1 && self.input[self.pos] == a && self.input[self.pos + 1]
            == b
    }

    fn expect(&mut self, c: char) -> (r: Result<(), ParseError>)
        requires
            old(self).ok(),
        ensures
            final(self).ok(),
            final(self).input@ == old(self).input@,
            old(self).pos <= final(self).pos,
            match r {
                Ok(_) => expect(old(self).input@, old(self).pos as int, c) == Ok::<int, ParseError>(
                    final(self).pos as int,
                ),
                Err(e) => expect(old(self).input@, old(self).pos as int, c) == Err::<
                    int,
                    ParseError,
                >(e),
            },
    {
        match self.next_char(true) {
            None => Err(ParseError::UnexpectedEnd),
            Some(x) => if x == c {
                Ok(())
            } else {
                Err(ParseError::Expected(c))
            },
        }
    }

    /// Consumes the longest run of `cls` characters at the cursor and returns it.
    fn consume_while(&mut self, cls: Class) -> (r: String)
        requires
            old(self).ok(),
        ensures
            final(self).ok(),
            final(self).input@ == old(self).input@,
            old(self).pos <= final(self).pos,
            final(self).pos == scan(old(self).input@, old(self).pos as int, cls),
            r@ == old(self).input@.subrange(old(self).pos as int, final(self).pos as int),
    {
        let ghost s = self.input@;
        let ghost start = self.pos as int;
        proof {
            lemma_scan(s, start, cls);
        }
        let mut res = String::new();
        while !self.eof() && matches_class(&cls, self.input[self.pos])
            invariant
                self.input@ == s,
                start <= self.pos <= scan(s, start, cls),
                scan(s, self.pos as int, cls) == scan(s, start, cls),
                res@ == s.subrange(start, self.pos as int),
            decreases self.input.len() - self.pos,
        {
            proof {
                lemma_scan(s, self.pos + 1, cls);
            }
            res.push(self.input[self.pos]);
            self.pos = self.pos + 1;
            assert(res@ =~= s.subrange(start, self.pos as int));
        }
        res
    }

    fn consume_whitespace(&mut self)
        requires
            old(self).ok(),
        ensures
            final(self).ok(),
            final(self).input@ == old(self).input@,
            old(self).pos <= final(self).pos,
            final(self).pos == scan(old(self).input@, old(self).pos as int, Class::Whitespace),
    {
        self.consume_while(Class::Whitespace);
    }

    /// Tag name characters at the cursor, with ASCII letters lowered.
    fn parse_tagname(&mut self) -> (r: String)
        requires
            old(self).ok(),
        ensures
            final(self).ok(),
            final(self).input@ == old(self).input@,
            old(self).pos <= final(self).pos,
            final(self).pos == scan(old(self).input@, old(self).pos as int, Class::TagName),
            r@ == lower_ascii(old(self).input@.subrange(old(self).pos as int, final(self).pos as int)),
    {
        let ghost s = self.input@;
        let ghost start = self.pos as int;
        proof {
            lemma_scan(s, start, Class::TagName);
        }
        let mut res = String::new();
        while self.pos < self.input.len() && matches_class(&Class::TagName, self.input[self.pos])
            invariant
                self.input@ == s,
                start <= self.pos <= scan(s, start, Class::TagName),
                scan(s, self.pos as int, Class::TagName) == scan(s, start, Class::TagName),
                res@ == lower_ascii(s.subrange(start, self.pos as int)),
            decreases self.input.len() - self.pos,
        {
            proof {
                lemma_scan(s, self.pos + 1, Class::TagName);
            }
            let c = self.input[self.pos];
            if 'A' <= c && c <= 'Z' {
                res.push(((c as u8) + 32) as char);
            } else {
                res.push(c);
            }
            self.pos = self.pos + 1;
            assert(res@ =~= lower_ascii(s.subrange(start, self.pos as int)));
        }
        res
    }

    fn parse_attribute_name(&mut self) -> (r: String)
        requires
            old(self).ok(),
        ensures
            final(self).ok(),
            final(self).input@ == old(self).input@,
            old(self).pos <= final(self).pos,
            final(self).pos == scan(old(self).input@, old(self).pos as int, Class::AttrName),
            r@ == old(self).input@.subrange(old(self).pos as int, final(self).pos as int),
    {
        self.consume_while(Class::AttrName)
    }

    fn parse_string(&mut self) -> (r: Result<String, ParseError>)
        requires
            old(self).ok(),
        ensures
            final(self).ok(),
            final(self).input@ == old(self).input@,
            old(self).pos <= final(self).pos,
            match r {
                Ok(v) => spec_string(old(self).input@, old(self).pos as int) == Ok::<
                    (Seq<char>, int),
                    ParseError,
                >((v@, final(self).pos as int)),
                Err(e) => spec_string(old(self).input@, old(self).pos as int) == Err::<
                    (Seq<char>, int),
                    ParseError,
                >(e),
            },
    {
        match self.next_char(false) {
            None => Err(ParseError::UnexpectedEnd),
            Some(quote) => {
                if quote == '"' || quote == '\'' {
                    self.next_char(true);
                    let v = self.consume_while(Class::Not(quote));
                    match self.expect(quote) {
                        Ok(_) => Ok(v),
                        Err(e) => Err(e),
                    }
                } else {
                    Ok(self.consume_while(Class::Unquoted))
                }
            },
        }
    }

    fn parse_attribute(&mut self) -> (r: Result<(String, String), ParseError>)
        requires
            old(self).ok(),
        ensures
            final(self).ok(),
            final(self).input@ == old(self).input@,
            old(self).pos <= final(self).pos,
            match r {
                Ok((k, v)) => spec_attribute(old(self).input@, old(self).pos as int) == Ok::<
                    (Seq<char>, Seq<char>, int),
                    ParseError,
                >((k@, v@, final(self).pos as int)),
                Err(e) => spec_attribute(old(self).input@, old(self).pos as int) == Err::<
                    (Seq<char>, Seq<char>, int),
                    ParseError,
                >(e),
            },
    {
        let name = self.parse_attribute_name();
        self.consume_whitespace();
        match self.next_char(false) {
            None => Err(ParseError::UnexpectedEnd),
            Some(c) => {
                if c == '=' {
                    self.next_char(true);
                    self.consume_whitespace();
                    match self.parse_string() {
                        Ok(v) => Ok((lowercase(&name), lowercase(&v))),
                        Err(e) => Err(e),
                    }
                } else {
                    let v = String::new();
                    Ok((lowercase(&name), lowercase(&v)))
                }
            },
        }
    }

    fn parse_attributes(&mut self) -> (r: Result<AttrMap, ParseError>)
        requires
            old(self).ok(),
        ensures
            final(self).ok(),
            final(self).input@ == old(self).input@,
            old(self).pos <= final(self).pos,
            match r {
                Ok(m) => spec_attributes(old(self).input@, old(self).pos as int, Map::empty())
                    == Ok::<(Map<Seq<char>, Seq<char>>, int), ParseError>(
                    (m@, final(self).pos as int),
                ),
                Err(e) => spec_attributes(old(self).input@, old(self).pos as int, Map::empty())
                    == Err::<(Map<Seq<char>, Seq<char>>, int), ParseError>(e),
            },
    {
        let ghost s = self.input@;
        let ghost start = self.pos as int;
        let mut attributes = AttrMap::new();
        loop
            invariant
                self.ok(),
                self.input@ == s,
                s == old(self).input@,
                start == old(self).pos,
                start <= self.pos,
                attributes.wf(),
                spec_attributes(s, start, Map::empty()) == spec_attributes(
                    s,
                    self.pos as int,
                    attributes@,
                ),
            decreases self.input.len() - self.pos,
        {
            self.consume_whitespace();
            match self.next_char(false) {
                None => {
                    return Err(ParseError::UnexpectedEnd);
                },
                Some(c) => {
                    if c == '>' || c == '/' {
                        return Ok(attributes);
                    }
                },
            }
            let start_of_attribute = self.pos;
            match self.parse_attribute() {
                Err(e) => {
                    return Err(e);
                },
                Ok((name, value)) => {
                    if self.pos <= start_of_attribute {
                        return Err(ParseError::EmptyAttribute);
                    }
                    attributes.insert(name, value);
                },
            }
        }
    }

    fn parse_comment(&mut self) -> (r: Result<Node, ParseError>)
        requires
            old(self).ok(),
        ensures
            final(self).ok(),
            final(self).input@ == old(self).input@,
            old(self).pos <= final(self).pos,
            match r {
                Ok(n) => expect(
                    old(self).input@,
                    scan(old(self).input@, old(self).pos as int, Class::Not('>')),
                    '>',
                ) == Ok::<int, ParseError>(final(self).pos as int) && n@ == comment_view(),
                Err(e) => expect(
                    old(self).input@,
                    scan(old(self).input@, old(self).pos as int, Class::Not('>')),
                    '>',
                ) == Err::<int, ParseError>(e),
            },
    {
        self.consume_while(Class::Not('>'));
        match self.expect('>') {
            Ok(_) => Ok(Node::comment()),
            Err(e) => Err(e),
        }
    }

    fn parse_text(&mut self) -> (r: Node)
        requires
            old(self).ok(),
        ensures
            final(self).ok(),
            final(self).input@ == old(self).input@,
            old(self).pos <= final(self).pos,
            final(self).pos == scan(old(self).input@, old(self).pos as int, Class::Not('<')),
            r@ == text_view(
                old(self).input@.subrange(old(self).pos as int, final(self).pos as int),
            ),
    {
        Node::text(self.consume_while(Class::Not('<')))
    }

    fn parse_element(&mut self) -> (r: Result<Node, ParseError>)
        requires
            old(self).ok(),
        ensures
            final(self).ok(),
            final(self).input@ == old(self).input@,
            old(self).pos <= final(self).pos,
            match r {
                Ok(n) => spec_element(old(self).input@, old(self).pos as int) == Ok::<
                    (NodeView, int),
                    ParseError,
                >((n@, final(self).pos as int)) && old(self).pos < final(self).pos,
                Err(e) => spec_element(old(self).input@, old(self).pos as int) == Err::<
                    (NodeView, int),
                    ParseError,
                >(e),
            },
        decreases self.input.len() - self.pos, 0nat,
    {
        let ghost s = self.input@;
        let ghost start = self.pos as int;
        if let Err(e) = self.expect('<') {
            return Err(e);
        }
        let tagname = self.parse_tagname();
        let attrs = match self.parse_attributes() {
            Err(e) => {
                return Err(e);
            },
            Ok(a) => a,
        };
        self.consume_whitespace();
        match self.next_char(true) {
            None => Err(ParseError::UnexpectedEnd),
            Some(c) => {
                if c == '/' {
                    match self.expect('>') {
                        Err(e) => Err(e),
                        Ok(_) => {
                            let none: Vec<Node> = Vec::new();
                            assert(views(none@) =~= Seq::empty());
                            Ok(Node::elem(tagname, attrs, none, true))
                        },
                    }
                } else if c == '>' {
                    let children = match self.parse_nodes() {
                        Err(e) => {
                            return Err(e);
                        },
                        Ok(ch) => ch,
                    };
                    if let Err(e) = self.expect('<') {
                        return Err(e);
                    }
                    if let Err(e) = self.expect('/') {
                        return Err(e);
                    }
                    let close = self.parse_tagname();
                    if close != tagname {
                        return Err(ParseError::MismatchedCloseTag);
                    }
                    match self.expect('>') {
                        Err(e) => Err(e),
                        Ok(_) => Ok(Node::elem(tagname, attrs, children, false)),
                    }
                } else {
                    Err(ParseError::MalformedTag)
                }
            },
        }
    }

    fn parse_node(&mut self) -> (r: Result<Node, ParseError>)
        requires
            old(self).ok(),
            old(self).pos < old(self).input.len(),
        ensures
            final(self).ok(),
            final(self).input@ == old(self).input@,
            old(self).pos <= final(self).pos,
            match r {
                Ok(n) => spec_node(old(self).input@, old(self).pos as int) == Ok::<
                    (NodeView, int),
                    ParseError,
                >((n@, final(self).pos as int)) && old(self).pos < final(self).pos,
                Err(e) => spec_node(old(self).input@, old(self).pos as int) == Err::<
                    (NodeView, int),
                    ParseError,
                >(e),
            },
        decreases self.input.len() - self.pos, 1nat,
    {
        let ghost s = self.input@;
        let ghost start = self.pos as int;
        if self.starts_with('<', '!') {
            proof {
                lemma_scan(s, start + 2, Class::Not('>'));
                assert(scan(s, start, Class::Not('>')) == scan(s, start + 1, Class::Not('>')));
                assert(scan(s, start + 1, Class::Not('>')) == scan(s, start + 2, Class::Not('>')));
            }
            return self.parse_comment();
        }
        if self.input[self.pos] == '<' {
            self.parse_element()
        } else {
            proof {
                lemma_scan(s, start + 1, Class::Not('<'));
            }
            Ok(self.parse_text())
        }
    }

    /// Sibling nodes up to the end of input or a `</`; comments are left out.
    fn parse_nodes(&mut self) -> (r: Result<Vec<Node>, ParseError>)
        requires
            old(self).ok(),
        ensures
            final(self).ok(),
            final(self).input@ == old(self).input@,
            old(self).pos <= final(self).pos,
            match r {
                Ok(v) => spec_nodes(old(self).input@, old(self).pos as int) == Ok::<
                    (Seq<NodeView>, int),
                    ParseError,
                >((views(v@), final(self).pos as int)),
                Err(e) => spec_nodes(old(self).input@, old(self).pos as int) == Err::<
                    (Seq<NodeView>, int),
                    ParseError,
                >(e),
            },
        decreases self.input.len() - self.pos, 2nat,
    {
        let ghost s = self.input@;
        let ghost start = self.pos as int;
        let mut nodes: Vec<Node> = Vec::new();
        loop
            invariant
                self.ok(),
                self.input@ == s,
                s == old(self).input@,
                start == old(self).pos,
                start <= self.pos,
                spec_nodes(s, start) == prepend(views(nodes@), spec_nodes(s, self.pos as int)),
            decreases self.input.len() - self.pos,
        {
            self.consume_whitespace();
            if self.eof() || self.starts_with('<', '/') {
                assert(views(nodes@) + Seq::empty() =~= views(nodes@));
                return Ok(nodes);
            }
            let ghost j = self.pos as int;
            let node = match self.parse_node() {
                Err(e) => {
                    return Err(e);
                },
                Ok(n) => n,
            };
            let ghost nv = node@;
            let ghost before = views(nodes@);
            match node.nodetype {
                NodeType::Comment => {},
                _ => {
                    nodes.push(node);
                    assert(views(nodes@) =~= before.push(nv));
                },
            }
            proof {
                match spec_nodes(s, self.pos as int) {
                    Ok((rest, e)) => {
                        assert(before + (seq![nv] + rest) =~= before.push(nv) + rest);
                    },
                    Err(x) => {},
                }
            }
        }
    }
}

/// `r` with `prefix` put before the nodes of a success.
pub open spec fn prepend(
    prefix: Seq<NodeView>,
    r: Result<(Seq<NodeView>, int), ParseError>,
) -> Result<(Seq<NodeView>, int), ParseError> {
    match r {
        Ok((rest, e)) => Ok((prefix + rest, e)),
        Err(x) => Err(x),
    }
}

/// The characters of `s`, in order.
pub(crate) fn chars_of(s: &String) -> (r: Vec<char>)
    ensures
        r@ == s@,
{
    let mut it = s.as_str().chars();
    let mut out: Vec<char> = Vec::new();
    loop
        invariant
            out@ + it.remaining() == s@,
            it.obeys_prophetic_iter_laws(),
            it.decrease() is Some,
        decreases it.decrease()->0,
    {
        match it.next() {
            Some(c) => {
                out.push(c);
            },
            None => {
                assert(out@ + it.remaining() =~= out@);
                return out;
            },
        }
    }
}

/// Parses `input` into a tree: its single top-level node, or else its
/// top-level nodes under a synthetic `html` element. Input left after the
/// top-level nodes is an error.
pub fn parse(input: String) -> (r: Result<Node, ParseError>)
    ensures
        match r {
            Ok(n) => spec_parse(input@) == Ok::<NodeView, ParseError>(n@),
            Err(e) => spec_parse(input@) == Err::<NodeView, ParseError>(e),
        },
        r matches Ok(n) ==> all_nodes(n@, lower_tag_fn()) && all_nodes(n@, lowered_attrs_fn())
            && all_nodes(n@, not_comment_fn()) && all_nodes(n@, void_is_empty_fn()),
{
    proof {
        law_tag_names_lowercase(input@);
        law_attributes_lowered(input@);
        law_no_comments(input@);
        law_void_elements_empty(input@);
    }
    let mut parser = Parser { pos: 0, input: chars_of(&input) };
    match parser.parse_nodes() {
        Err(e) => Err(e),
        Ok(mut nodes) => {
            if !parser.eof() {
                Err(ParseError::TrailingInput)
            } else if nodes.len() == 1 {
                Ok(nodes.swap_remove(0))
            } else {
                let html = "html".to_owned();
                proof {
                    reveal_strlit("html");
                    assert(html@ =~= seq!['h', 't', 'm', 'l']);
                }
                Ok(Node::elem(html, AttrMap::new(), nodes, false))
            }
        },
    }
}

} // verus!
