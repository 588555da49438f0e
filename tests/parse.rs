use minihtml::dom::{AttrMap, Element, Node, NodeType};
use minihtml::htmlparser::{parse, ParseError};

fn element(n: &Node) -> &Element {
    match &n.nodetype {
        NodeType::Element(e) => e,
        _ => panic!("not an element"),
    }
}

fn text(n: &Node) -> &str {
    match &n.nodetype {
        NodeType::Content(t) => t.as_str(),
        _ => panic!("not a text node"),
    }
}

fn attr(e: &Element, name: &str) -> Option<String> {
    e.get_attribute(name.to_string()).cloned()
}

fn parsed(s: &str) -> Node {
    parse(s.to_string()).expect("parse failed")
}

#[test]
fn empty_input_gives_empty_html_root() {
    let n = parsed("");
    let e = element(&n);
    assert_eq!(e.tagname, "html");
    assert_eq!(e.attributes.len(), 0);
    assert!(!e.void);
    assert_eq!(n.children.len(), 0);
}

#[test]
fn whitespace_only_input_gives_empty_html_root() {
    let n = parsed("  \n\t ");
    assert_eq!(element(&n).tagname, "html");
    assert_eq!(n.children.len(), 0);
}

#[test]
fn single_text_run_is_the_root() {
    let n = parsed("hello");
    assert_eq!(text(&n), "hello");
    assert_eq!(n.children.len(), 0);
}

#[test]
fn plain_text_is_not_wrapped() {
    let n = parsed("plain text");
    assert_eq!(text(&n), "plain text");
}

#[test]
fn top_level_siblings_are_wrapped_in_html() {
    let n = parsed("<a></a><b></b>");
    let e = element(&n);
    assert_eq!(e.tagname, "html");
    assert_eq!(e.attributes.len(), 0);
    assert_eq!(n.children.len(), 2);
    assert_eq!(element(&n.children[0]).tagname, "a");
    assert_eq!(element(&n.children[1]).tagname, "b");
}

#[test]
fn attribute_without_equals_has_empty_value() {
    let n = parsed("<body ft-expand></body>");
    let e = element(&n);
    assert_eq!(attr(e, "ft-expand"), Some(String::new()));
    assert_eq!(n.serialize(), "<body ft-expand>\n</body>\n");
}

#[test]
fn quoted_and_unquoted_values() {
    let n = parsed("<a d=\"one two\" s='three four' u=five></a>");
    let e = element(&n);
    assert_eq!(attr(e, "d"), Some("one two".to_string()));
    assert_eq!(attr(e, "s"), Some("three four".to_string()));
    assert_eq!(attr(e, "u"), Some("five".to_string()));
    assert_eq!(e.attributes.len(), 3);
}

#[test]
fn unquoted_value_stops_at_whitespace_and_angle() {
    let n = parsed("<a u=ab v=cd/></a>");
    let e = element(&n);
    assert_eq!(attr(e, "u"), Some("ab".to_string()));
    assert_eq!(attr(e, "v"), Some("cd/".to_string()));
    let m = parsed("<a u=ab>x</a>");
    assert_eq!(attr(element(&m), "u"), Some("ab".to_string()));
    assert_eq!(text(&m.children[0]), "x");
}

#[test]
fn html_head_body_document() {
    let n = parsed("<html><head></head><body>hi</body></html>");
    let e = element(&n);
    assert_eq!(e.tagname, "html");
    assert_eq!(n.children.len(), 2);
    let head = &n.children[0];
    assert_eq!(element(head).tagname, "head");
    assert_eq!(head.children.len(), 0);
    let body = &n.children[1];
    assert_eq!(element(body).tagname, "body");
    assert_eq!(body.children.len(), 1);
    assert_eq!(text(&body.children[0]), "hi");
}

const MIXED: &str = "<!doctype html><HTML><hEad iD=\"head\" class=\"TESting\" ></heaD><body ft-expand><img src='img.png' />Some body\n-5.98<!-- comment! --></body></html>";

#[test]
fn doctype_mixed_case_and_comments() {
    let n = parsed(MIXED);
    assert_eq!(element(&n).tagname, "html");
    assert_eq!(n.children.len(), 2);
    let head = &n.children[0];
    let he = element(head);
    assert_eq!(he.tagname, "head");
    assert_eq!(he.attributes.len(), 2);
    assert_eq!(attr(he, "id"), Some("head".to_string()));
    assert_eq!(attr(he, "class"), Some("testing".to_string()));
    assert_eq!(head.children.len(), 0);
    let body = &n.children[1];
    let be = element(body);
    assert_eq!(be.tagname, "body");
    assert_eq!(be.attributes.len(), 1);
    assert_eq!(attr(be, "ft-expand"), Some(String::new()));
    assert_eq!(body.children.len(), 2);
    let img = element(&body.children[0]);
    assert_eq!(img.tagname, "img");
    assert!(img.void);
    assert_eq!(attr(img, "src"), Some("img.png".to_string()));
    assert_eq!(body.children[0].children.len(), 0);
    assert_eq!(text(&body.children[1]), "Some body\n-5.98");
}

#[test]
fn void_child_element() {
    let n = parsed("<a><b/></a>");
    assert_eq!(element(&n).tagname, "a");
    assert!(!element(&n).void);
    assert_eq!(n.children.len(), 1);
    let b = element(&n.children[0]);
    assert_eq!(b.tagname, "b");
    assert!(b.void);
    assert_eq!(n.children[0].children.len(), 0);
}

#[test]
fn mixed_attribute_forms() {
    let n = parsed("<div><a x=1 y='two' z></a></div>");
    let a = element(&n.children[0]);
    assert_eq!(a.attributes.len(), 3);
    assert_eq!(attr(a, "x"), Some("1".to_string()));
    assert_eq!(attr(a, "y"), Some("two".to_string()));
    assert_eq!(attr(a, "z"), Some(String::new()));
    assert_eq!(attr(a, "w"), None);
}

#[test]
fn tag_names_are_lowered() {
    let n = parsed("<DiV9><SPAN></span></dIv9>");
    assert_eq!(element(&n).tagname, "div9");
    assert_eq!(element(&n.children[0]).tagname, "span");
}

#[test]
fn attribute_names_and_values_are_lowered() {
    let n = parsed("<a ID=VaLuE Title=\"ÄBC\"></a>");
    let e = element(&n);
    assert_eq!(attr(e, "id"), Some("value".to_string()));
    assert_eq!(attr(e, "title"), Some("äbc".to_string()));
    assert_eq!(attr(e, "ID"), None);
}

#[test]
fn later_duplicate_attribute_wins() {
    let n = parsed("<a x=1 X=2></a>");
    let e = element(&n);
    assert_eq!(e.attributes.len(), 1);
    assert_eq!(attr(e, "x"), Some("2".to_string()));
}

#[test]
fn comments_are_dropped() {
    let n = parsed("<a><!-- one -->x<!two></a>");
    assert_eq!(n.children.len(), 1);
    assert_eq!(text(&n.children[0]), "x");
    let only = parsed("<!-- only -->");
    assert_eq!(element(&only).tagname, "html");
    assert_eq!(only.children.len(), 0);
}

#[test]
fn unclaimed_close_tag_is_trailing_input() {
    assert_eq!(parse("a</b>c".to_string()).err(), Some(ParseError::TrailingInput));
    assert_eq!(parse("a</b>".to_string()).err(), Some(ParseError::TrailingInput));
    assert_eq!(parse("<a></a></b>".to_string()).err(), Some(ParseError::TrailingInput));
    assert_eq!(parse("</x>".to_string()).err(), Some(ParseError::TrailingInput));
}

#[test]
fn serialize_element_tree() {
    let n = parsed("<a x=1><b/>hi</a>");
    assert_eq!(n.serialize(), "<a x=\"1\">\n<b />\nhi\n</a>\n");
}

#[test]
fn serialize_text_and_comment() {
    assert_eq!(Node::text("abc".to_string()).serialize(), "abc\n");
    let c = Node::comment();
    assert_eq!(c.serialize(), "Comment");
    assert_eq!(c.serialize(), c.serialize());
}

#[test]
fn constructors_build_nodes() {
    let mut attrs = AttrMap::new();
    attrs.insert("k".to_string(), "v".to_string());
    attrs.insert("k".to_string(), "w".to_string());
    let child = Node::text("t".to_string());
    let n = Node::elem("p".to_string(), attrs, vec![child], false);
    let e = element(&n);
    assert_eq!(e.tagname, "p");
    assert_eq!(e.attributes.len(), 1);
    assert_eq!(attr(e, "k"), Some("w".to_string()));
    assert_eq!(n.children.len(), 1);
    assert_eq!(n.serialize(), "<p k=\"w\">\nt\n</p>\n");
    assert!(matches!(Node::comment().nodetype, NodeType::Comment));
}

fn same_shape(a: &Node, b: &Node) -> bool {
    let kinds = match (&a.nodetype, &b.nodetype) {
        (NodeType::Element(x), NodeType::Element(y)) => {
            x.tagname == y.tagname
                && x.void == y.void
                && x.attributes.len() == y.attributes.len()
                && (0..x.attributes.len()).all(|i| {
                    let (k, v) = x.attributes.pair_at(i);
                    y.get_attribute(k.clone()) == Some(v)
                })
        }
        (NodeType::Content(_), NodeType::Content(_)) => true,
        (NodeType::Comment, NodeType::Comment) => true,
        _ => false,
    };
    kinds
        && a.children.len() == b.children.len()
        && a.children.iter().zip(b.children.iter()).all(|(x, y)| same_shape(x, y))
}

#[test]
fn serialized_tree_parses_to_same_shape() {
    for s in [MIXED, "<a x=1 y='two' z><b/>t</a>", "plain text", "", "<a></a><b q=r />"] {
        let first = parsed(s);
        let again = parsed(&first.serialize());
        assert!(same_shape(&first, &again), "{}", s);
    }
}

#[test]
fn error_unexpected_end() {
    assert_eq!(parse("<a".to_string()).err(), Some(ParseError::UnexpectedEnd));
    assert_eq!(parse("<a>x".to_string()).err(), Some(ParseError::UnexpectedEnd));
    assert_eq!(parse("<!-- open".to_string()).err(), Some(ParseError::UnexpectedEnd));
    assert_eq!(parse("<a x='v>".to_string()).err(), Some(ParseError::UnexpectedEnd));
}

#[test]
fn error_expected_character() {
    assert_eq!(parse("<a/x".to_string()).err(), Some(ParseError::Expected('>')));
    assert_eq!(parse("<a></a x>".to_string()).err(), Some(ParseError::Expected('>')));
}

#[test]
fn error_mismatched_close_tag() {
    assert_eq!(parse("<a></b>".to_string()).err(), Some(ParseError::MismatchedCloseTag));
}

#[test]
fn error_empty_attribute() {
    assert_eq!(parse("<a \"x\"></a>".to_string()).err(), Some(ParseError::EmptyAttribute));
}

use minihtml::tokenizer::{tokenize, Token};

#[derive(Debug, PartialEq)]
enum Flat {
    LAngle,
    RAngle,
    LAngleSlash,
    Number(f64),
    Word(String),
}

fn flat(t: Token) -> Flat {
    match t {
        Token::LAngle => Flat::LAngle,
        Token::RAngle => Flat::RAngle,
        Token::LAngleSlash => Flat::LAngleSlash,
        Token::Run(s) => match s.parse::<f64>() {
            Ok(x) => Flat::Number(x),
            Err(_) => Flat::Word(s),
        },
    }
}

#[test]
fn flat_tokenizer_document() {
    let got: Vec<Flat> = tokenize("<html><head> </head><body>-5.98</body></html>".to_string())
        .into_iter()
        .map(flat)
        .collect();
    let w = |s: &str| Flat::Word(s.to_string());
    let want = vec![
        Flat::LAngle,
        w("html"),
        Flat::RAngle,
        Flat::LAngle,
        w("head"),
        Flat::RAngle,
        Flat::LAngleSlash,
        w("head"),
        Flat::RAngle,
        Flat::LAngle,
        w("body"),
        Flat::RAngle,
        Flat::Number(-5.98),
        Flat::LAngleSlash,
        w("body"),
        Flat::RAngle,
        Flat::LAngleSlash,
        w("html"),
        Flat::RAngle,
    ];
    assert_eq!(got, want);
}

#[test]
fn flat_tokenizer_runs_and_skips() {
    let got = tokenize("<body ft-expand x=\"1.5\">!<".to_string());
    assert_eq!(
        got,
        vec![
            Token::LAngle,
            Token::Run("body".to_string()),
            Token::Run("ft-expand".to_string()),
            Token::Run("x".to_string()),
            Token::Run("1.5".to_string()),
            Token::RAngle,
            Token::LAngle,
        ]
    );
    assert_eq!(tokenize(String::new()), vec![]);
}

#[test]
fn serialize_built_void_and_empty_valued_elements() {
    let mut a = AttrMap::new();
    a.insert("src".to_string(), "x".to_string());
    a.insert("src".to_string(), "img.png".to_string());
    let img = Node::elem("img".to_string(), a, vec![], true);
    assert_eq!(img.serialize(), "<img src=\"img.png\" />\n");
    let mut b = AttrMap::new();
    b.insert("ft-expand".to_string(), String::new());
    let body = Node::elem("body".to_string(), b, vec![], false);
    assert_eq!(body.serialize(), "<body ft-expand>\n</body>\n");
    assert!(format!("{:?}", body).contains("ft-expand"));
}
