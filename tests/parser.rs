use markup_parser::tokenizer::tokenizer;
use markup_parser::parser::{build, parser, Element, Node, NodeType, Text};

fn element(tag_name: &str, attributes: Vec<(&str, &str)>, children: Vec<Node>) -> Node {
    Node {
        node_type: NodeType::Element(Element {
            tag_name: tag_name.to_string(),
            attributes: attributes
                .into_iter()
                .map(|(k, v)| (k.to_string(), v.to_string()))
                .collect(),
        }),
        children,
    }
}

fn text(value: &str) -> Node {
    Node {
        node_type: NodeType::Text(Text { value: value.to_string() }),
        children: vec![],
    }
}

fn strings(v: &[&str]) -> Vec<String> {
    v.iter().map(|s| s.to_string()).collect()
}

fn count(n: &Node) -> usize {
    1 + n.children.iter().map(count).sum::<usize>()
}

#[test]
fn test_tokenizer() {
    let html_str = "<h1>Example Domain</h1>";
    let tokens = tokenizer(html_str);
    assert_eq!(tokens, vec!["<h1>", "Example Domain", "</h1>"]);

    let html_str = "<a href=\"https://www.iana.org/domains/example\">More information...</a>";
    let tokens = tokenizer(html_str);
    assert_eq!(
        tokens,
        vec![
            "<a href=\"https://www.iana.org/domains/example\">",
            "More information...",
            "</a>",
        ]
    );

    let html_str =
        "<p><a href=\"https://www.iana.org/domains/example\">More information...</a></p>";
    let tokens = tokenizer(html_str);
    assert_eq!(
        tokens,
        vec![
            "<p>",
            "<a href=\"https://www.iana.org/domains/example\">",
            "More information...",
            "</a>",
            "</p>",
        ]
    );
}

#[test]
fn test_parser() {
    let html_str = "<h1>Example Domain</h1>";
    let node = parser(html_str);
    assert_eq!(
        node,
        element("root", vec![], vec![element("h1", vec![], vec![text("Example Domain")])])
    );

    let html_str = "<a href=\"https://www.iana.org/domains/example\">More information...</a>";
    let node = parser(html_str);
    assert_eq!(
        node,
        element(
            "root",
            vec![],
            vec![element(
                "a",
                vec![("href", "https://www.iana.org/domains/example")],
                vec![text("More information...")]
            )]
        )
    );

    let html_str =
        "<p><a href=\"https://www.iana.org/domains/example\">More information...</a></p>";
    let node = parser(html_str);
    assert_eq!(
        node,
        element(
            "root",
            vec![],
            vec![element(
                "p",
                vec![],
                vec![element(
                    "a",
                    vec![("href", "https://www.iana.org/domains/example")],
                    vec![text("More information...")]
                )]
            )]
        )
    );
}

#[test]
fn nesting_round_trip() {
    let node = parser("<p><a href=\"U\">T</a></p>");
    assert_eq!(
        node,
        element(
            "root",
            vec![],
            vec![element("p", vec![], vec![element("a", vec![("href", "U")], vec![text("T")])])]
        )
    );
}

#[test]
fn attribute_quotes_stripped() {
    let node = parser("<a href=\"https://example.com/x\"></a>");
    assert_eq!(
        node,
        element("root", vec![], vec![element("a", vec![("href", "https://example.com/x")], vec![])])
    );
}

#[test]
fn attribute_without_equals_ignored() {
    let node = parser("<input disabled type=text></input>");
    assert_eq!(
        node,
        element("root", vec![], vec![element("input", vec![("type", "text")], vec![])])
    );
}

#[test]
fn attribute_split_at_first_equals() {
    let node = parser("<a q=x=y></a>");
    assert_eq!(node, element("root", vec![], vec![element("a", vec![("q", "x=y")], vec![])]));
}

#[test]
fn attribute_one_layer_of_quotes() {
    let node = parser("<a k=\"\"v\"\" m=\"w></a>");
    assert_eq!(
        node,
        element("root", vec![], vec![element("a", vec![("k", "\"v\""), ("m", "w")], vec![])])
    );
}

#[test]
fn attribute_repeated_key_keeps_last_value() {
    let node = parser("<a x=1 y=2 x=3></a>");
    assert_eq!(
        node,
        element("root", vec![], vec![element("a", vec![("x", "3"), ("y", "2")], vec![])])
    );
}

#[test]
fn tokenizer_scenario() {
    assert_eq!(tokenizer("<h1>Example Domain</h1>"), strings(&["<h1>", "Example Domain", "</h1>"]));
}

#[test]
fn tokenizer_drops_blank_text_and_trailing_text() {
    assert_eq!(tokenizer("<a>   </a>tail"), strings(&["<a>", "</a>"]));
}

#[test]
fn tokenizer_keeps_text_untrimmed() {
    assert_eq!(tokenizer("<a> x </a>"), strings(&["<a>", " x ", "</a>"]));
}

#[test]
fn tokenizer_empty_input() {
    assert_eq!(tokenizer(""), Vec::<String>::new());
}

#[test]
fn unmatched_closing_tag() {
    assert_eq!(parser("</p>"), element("root", vec![], vec![]));
}

#[test]
fn unclosed_opening_tags() {
    assert_eq!(parser("<div><span>text"), element("root", vec![], vec![]));
    assert_eq!(parser("<div><span>text<"), element("root", vec![], vec![]));
}

#[test]
fn blank_text_token_becomes_empty_text() {
    let node = build(&strings(&["<a>", "   ", "</a>"]));
    assert_eq!(node, element("root", vec![], vec![element("a", vec![], vec![text("")])]));
}

#[test]
fn blank_text_in_markup_is_never_a_token() {
    assert_eq!(parser("<a>   </a>"), element("root", vec![], vec![element("a", vec![], vec![])]));
}

#[test]
fn text_is_trimmed() {
    assert_eq!(
        parser("<a>\n  hello world \t</a>"),
        element("root", vec![], vec![element("a", vec![], vec![text("hello world")])])
    );
}

#[test]
fn bare_text_dropped() {
    assert_eq!(
        parser("loose text<p>x</p>"),
        element("root", vec![], vec![element("p", vec![], vec![text("x")])])
    );
}

#[test]
fn empty_input_gives_bare_root() {
    assert_eq!(parser(""), element("root", vec![], vec![]));
}

#[test]
fn empty_tag_gives_empty_name() {
    assert_eq!(parser("<></>"), element("root", vec![], vec![element("", vec![], vec![])]));
}

#[test]
fn siblings_and_node_count() {
    let node = parser("<div><h1>heading</h1><p>text</p></div><br></br>");
    assert_eq!(
        node,
        element(
            "root",
            vec![],
            vec![
                element(
                    "div",
                    vec![],
                    vec![
                        element("h1", vec![], vec![text("heading")]),
                        element("p", vec![], vec![text("text")])
                    ]
                ),
                element("br", vec![], vec![])
            ]
        )
    );
    assert_eq!(count(&node) - 1, 4 + 2);
}

#[test]
fn closing_tag_name_is_not_matched() {
    assert_eq!(
        parser("<a><b>x</a></b>"),
        element("root", vec![], vec![element("a", vec![], vec![element("b", vec![], vec![text("x")])])])
    );
}

#[test]
fn build_ignores_text_outside_elements() {
    let node = build(&strings(&["top", "<p>", "x", "</p>", "after"]));
    assert_eq!(node, element("root", vec![], vec![element("p", vec![], vec![text("x")])]));
}
