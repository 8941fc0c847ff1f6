use orgize::ast_headline::Headline;
use orgize::config::ParseConfig;
use orgize::headline::headline_node;
use orgize::input::Input;
use orgize::text::chars_of;
use orgize::tree::{GreenElement, GreenNode};

fn render(e: &GreenElement, offset: usize, depth: usize, out: &mut String) -> usize {
    let pad = "  ".repeat(depth);
    match e {
        GreenElement::Token(t) => {
            let end = offset + t.text.len();
            out.push_str(&format!("{}{:?}@{}..{} {:?}\n", pad, t.kind, offset, end, t.text));
            end
        }
        GreenElement::Node(n) => {
            let len: usize = e.to_source().len();
            out.push_str(&format!("{}{:?}@{}..{}\n", pad, n.kind, offset, offset + len));
            let mut o = offset;
            for c in &n.children {
                o = render(c, o, depth + 1, out);
            }
            o
        }
    }
}

fn debug_tree(e: &GreenElement) -> String {
    let mut out = String::new();
    render(e, 0, 0, &mut out);
    out
}

fn parse_headline(text: &str) -> GreenElement {
    let config = ParseConfig::default();
    let chars = chars_of(text);
    let (_, e) = headline_node(Input::new(&chars, &config)).unwrap();
    e
}

fn node(e: &GreenElement) -> &GreenNode {
    match e {
        GreenElement::Node(n) => n,
        GreenElement::Token(_) => panic!("not a node"),
    }
}

fn tag_texts(text: &str) -> Vec<String> {
    let e = parse_headline(text);
    let hdl = Headline::cast(node(&e)).unwrap();
    let tags = hdl.tags().unwrap();
    tags.iter().iter().map(|x| x.text().to_string()).collect()
}

#[test]
fn parse() {
    let e = parse_headline("* foo");
    let _hdl = Headline::cast(node(&e)).unwrap();
    assert_eq!(
        debug_tree(&e),
        "HEADLINE@0..5\n  HEADLINE_STARS@0..1 \"*\"\n  WHITESPACE@1..2 \" \"\n  HEADLINE_TITLE@2..5\n    TEXT@2..5 \"foo\"\n"
    );

    let e = parse_headline("* foo\n\n** bar");
    assert_eq!(
        debug_tree(&e),
        "HEADLINE@0..13\n  HEADLINE_STARS@0..1 \"*\"\n  WHITESPACE@1..2 \" \"\n  HEADLINE_TITLE@2..5\n    TEXT@2..5 \"foo\"\n  NEW_LINE@5..6 \"\\n\"\n  SECTION@6..7\n    PARAGRAPH@6..7\n      BLANK_LINE@6..7 \"\\n\"\n  HEADLINE@7..13\n    HEADLINE_STARS@7..9 \"**\"\n    WHITESPACE@9..10 \" \"\n    HEADLINE_TITLE@10..13\n      TEXT@10..13 \"bar\"\n"
    );

    let e = parse_headline("* TODO foo\nbar\n** baz\n");
    let hdl = Headline::cast(node(&e)).unwrap();
    assert_eq!(hdl.level(), Some(1));
    assert_eq!(hdl.keyword().as_ref().map(|x| x.text()), Some("TODO"));
    assert_eq!(
        debug_tree(&e),
        "HEADLINE@0..22\n  HEADLINE_STARS@0..1 \"*\"\n  WHITESPACE@1..2 \" \"\n  HEADLINE_KEYWORD@2..6 \"TODO\"\n  WHITESPACE@6..7 \" \"\n  HEADLINE_TITLE@7..10\n    TEXT@7..10 \"foo\"\n  NEW_LINE@10..11 \"\\n\"\n  SECTION@11..15\n    PARAGRAPH@11..15\n      TEXT@11..15 \"bar\\n\"\n  HEADLINE@15..22\n    HEADLINE_STARS@15..17 \"**\"\n    WHITESPACE@17..18 \" \"\n    HEADLINE_TITLE@18..21\n      TEXT@18..21 \"baz\"\n    NEW_LINE@21..22 \"\\n\"\n"
    );

    let e = parse_headline("** [#A] foo\n* baz");
    let hdl = Headline::cast(node(&e)).unwrap();
    assert_eq!(hdl.level(), Some(2));
    assert_eq!(
        hdl.priority().unwrap().text_string().unwrap(),
        "A".to_string()
    );
    assert_eq!(
        debug_tree(&e),
        "HEADLINE@0..12\n  HEADLINE_STARS@0..2 \"**\"\n  WHITESPACE@2..3 \" \"\n  HEADLINE_PRIORITY@3..7\n    L_BRACKET@3..4 \"[\"\n    HASH@4..5 \"#\"\n    TEXT@5..6 \"A\"\n    R_BRACKET@6..7 \"]\"\n  WHITESPACE@7..8 \" \"\n  HEADLINE_TITLE@8..11\n    TEXT@8..11 \"foo\"\n  NEW_LINE@11..12 \"\\n\"\n"
    );
}

#[test]
fn issue_15_16() {
    let e = parse_headline("* a ::");
    let hdl = Headline::cast(node(&e)).unwrap();
    let tags = hdl.tags().unwrap();
    assert_eq!(tags.iter().len(), 0);

    assert_eq!(vec!["_".to_string()], tag_texts("* a \t:_:"));
    assert_eq!(vec!["@".to_string()], tag_texts("* a \t :@:"));
    assert_eq!(vec!["#".to_string()], tag_texts("* a :#:"));
    assert_eq!(vec!["%".to_string()], tag_texts("* a\t :%:"));
}

#[test]
fn tags_examples() {
    assert_eq!(tag_texts("* :tag:"), vec!["tag".to_string()]);
    assert_eq!(tag_texts("* [#A] :::::a2%:"), vec!["a2%".to_string()]);
    assert_eq!(
        tag_texts("* TODO :tag:  :a2%:"),
        vec!["tag".to_string(), "a2%".to_string()]
    );
    assert_eq!(
        tag_texts("* title :tag:a2%:"),
        vec!["tag".to_string(), "a2%".to_string()]
    );
}

#[test]
fn non_ascii_tag_stays_in_title() {
    let e = parse_headline("* a :余:");
    let hdl = Headline::cast(node(&e)).unwrap();
    assert!(hdl.tags().is_none());
    assert_eq!(hdl.title().unwrap().to_source(), "a :余:");
}

#[test]
fn tags_need_a_blank_before() {
    let e = parse_headline("* a:b:");
    let hdl = Headline::cast(node(&e)).unwrap();
    assert!(hdl.tags().is_none());
}

#[test]
fn stars_need_a_space() {
    let config = ParseConfig::default();
    let chars = chars_of("*bold*");
    assert!(headline_node(Input::new(&chars, &config)).is_none());
    let chars = chars_of("");
    assert!(headline_node(Input::new(&chars, &config)).is_none());
}

#[test]
fn keyword_must_be_configured() {
    let e = parse_headline("* WAIT foo");
    let hdl = Headline::cast(node(&e)).unwrap();
    assert!(hdl.keyword().is_none());
    assert_eq!(hdl.title().unwrap().to_source(), "WAIT foo");

    let config = ParseConfig::new(vec!["WAIT".to_string()], vec!["DONE".to_string()]);
    let chars = chars_of("* WAIT foo");
    let (_, e) = headline_node(Input::new(&chars, &config)).unwrap();
    let hdl = Headline::cast(node(&e)).unwrap();
    assert_eq!(hdl.keyword().map(|k| k.text()), Some("WAIT"));
}

#[test]
fn priority_any_char() {
    let e = parse_headline("* [#破] x");
    let hdl = Headline::cast(node(&e)).unwrap();
    assert_eq!(hdl.priority().unwrap().text_string(), Some("破".to_string()));
}
