use orgize::ast_headline::{Headline, HeadlinePriority, HeadlineTags, HeadlineTitle, Section};
use orgize::ast_timestamp::{DelayType, RepeaterType, TimeUnit, Timestamp};
use orgize::config::ParseConfig;
use orgize::datetime::DateTime;
use orgize::document::{parse, Org};
use orgize::kind::SyntaxKind;
use orgize::tree::{GreenElement, GreenNode};

const TS_KINDS: [SyntaxKind; 3] = [
    SyntaxKind::TIMESTAMP_ACTIVE,
    SyntaxKind::TIMESTAMP_INACTIVE,
    SyntaxKind::TIMESTAMP_DIARY,
];

fn token_len_sum(e: &GreenElement) -> usize {
    match e {
        GreenElement::Token(t) => t.text.len(),
        GreenElement::Node(n) => n.children.iter().map(token_len_sum).sum(),
    }
}

fn count_kind(e: &GreenElement, k: SyntaxKind) -> usize {
    match e {
        GreenElement::Token(t) => usize::from(t.kind == k),
        GreenElement::Node(n) => {
            usize::from(n.kind == k) + n.children.iter().map(|c| count_kind(c, k)).sum::<usize>()
        }
    }
}

fn first_headline(org: &Org) -> Headline<'_> {
    org.first_node(&[SyntaxKind::HEADLINE])
        .and_then(Headline::cast)
        .unwrap()
}

fn first_timestamp(org: &Org) -> Timestamp<'_> {
    org.first_node(&TS_KINDS).and_then(Timestamp::cast).unwrap()
}

fn dt(year: i32, month: u32, day: u32, hour: u32, minute: u32) -> DateTime {
    DateTime { year, month, day, hour, minute }
}

const SAMPLES: [&str; 9] = [
    "",
    "* foo",
    "\n\nintro\n\n* TODO [#B] title :a:b:\n  body <2020-01-01 Wed>\n\n** child\r\n*** deep\n* next",
    "  \r\n\t\n",
    "**bold** is not a headline\n*also not\n* yes",
    "[2000-01-01 +1w] and <%%(diary)> ok",
    "* 破 :tag:\n内容\n",
    "*\n**\n*",
    "x\r* y\r\n",
];

#[test]
fn round_trip() {
    for s in SAMPLES {
        assert_eq!(Org::parse(s).to_source(), s);
        assert_eq!(parse(s, &ParseConfig::default()).to_source(), s);
    }
}

#[test]
fn byte_coverage() {
    for s in SAMPLES {
        let org = Org::parse(s);
        let total: usize = org.green.children.iter().map(token_len_sum).sum();
        assert_eq!(total, s.len());
    }
}

#[test]
fn kind_discipline() {
    let org = Org::parse("* TODO [#A] t :x:\n<2000-01-01 Sat>");
    let root: &GreenNode = &org.green;
    assert!(Headline::cast(root).is_none());
    assert!(Timestamp::cast(root).is_none());
    assert!(Section::cast(root).is_none());
    let h = org.first_node(&[SyntaxKind::HEADLINE]).unwrap();
    assert!(Headline::cast(h).is_some());
    assert!(HeadlineTags::cast(h).is_none());
    assert!(HeadlinePriority::cast(h).is_none());
    assert!(HeadlineTitle::cast(h).is_none());
    let t = org.first_node(&TS_KINDS).unwrap();
    assert!(Timestamp::cast(t).is_some());
    assert!(Headline::cast(t).is_none());
}

#[test]
fn headline_nesting() {
    let org = Org::parse("** a\n*** b\n**** c\n** d\n* e\n*** f\n** g\n");
    let doc = org.document();
    let tops = doc.headlines();
    let levels: Vec<Option<usize>> = tops.iter().map(|h| h.level()).collect();
    assert_eq!(levels, vec![Some(2), Some(2), Some(1)]);
    fn check(h: &Headline) {
        for c in h.headlines() {
            assert!(c.level().unwrap() > h.level().unwrap());
            check(&c);
        }
    }
    for h in &tops {
        check(h);
    }
    let e = &tops[2];
    let kids: Vec<Option<usize>> = e.headlines().iter().map(|h| h.level()).collect();
    assert_eq!(kids, vec![Some(3), Some(2)]);
}

#[test]
fn tag_alphabet() {
    let org = Org::parse("* t :ab_1:@x:#y%:\n* u \t :A: :B:");
    for h in org.document().headlines() {
        let tags = h.tags().unwrap();
        for t in tags.iter() {
            assert!(t
                .text()
                .bytes()
                .all(|c| c.is_ascii_alphanumeric() || b"_@#%".contains(&c)));
        }
    }
}

#[test]
fn timestamp_idempotence() {
    for t in [
        "[2000-01-01 +1w]",
        "<2003-09-16 Tue 09:39>--<2003-09-16 Tue 10:39>",
        "[2003-09-16 Tue 09:39-10:39]",
        "<%%(org-calendar-holiday)>",
        "[2000-01-01 .+10d +1w]",
        "[2000-01-01 01:00-02:00 --10m]",
    ] {
        let org = Org::parse(t);
        let total: usize = org
            .green
            .children
            .iter()
            .map(|c| TS_KINDS.iter().map(|k| count_kind(c, *k)).sum::<usize>())
            .sum();
        assert_eq!(total, 1, "{t}");
        assert_eq!(first_timestamp(&org).to_source(), t);
    }
}

#[test]
fn scenario_single_headline() {
    let org = Org::parse("* foo");
    let doc = org.document();
    let hs = doc.headlines();
    assert_eq!(hs.len(), 1);
    let h = &hs[0];
    assert_eq!(h.level(), Some(1));
    assert_eq!(h.title().unwrap().to_source(), "foo");
    assert!(h.keyword().is_none());
    assert!(h.tags().is_none());
}

#[test]
fn scenario_keyword_section_child() {
    let s = "* TODO foo\nbar\n** baz\n";
    let org = Org::parse(s);
    let h = first_headline(&org);
    assert_eq!(h.level(), Some(1));
    assert_eq!(h.keyword().map(|k| k.text()), Some("TODO"));
    assert_eq!(h.section().unwrap().to_source(), "bar\n");
    let kids = h.headlines();
    assert_eq!(kids.len(), 1);
    assert_eq!(kids[0].level(), Some(2));
    assert_eq!(kids[0].title().unwrap().to_source(), "baz");
    assert_eq!(org.to_source(), s);
}

#[test]
fn scenario_priority_and_siblings() {
    let org = Org::parse("** [#A] foo\n* baz");
    let hs = org.document().headlines();
    assert_eq!(hs.len(), 2);
    assert_eq!(hs[0].level(), Some(2));
    assert_eq!(hs[0].priority().unwrap().text_string(), Some("A".to_string()));
    assert_eq!(hs[0].title().unwrap().to_source(), "foo");
    assert_eq!(hs[1].level(), Some(1));
    assert_eq!(hs[1].title().unwrap().to_source(), "baz");
}

#[test]
fn scenario_single_tag() {
    let org = Org::parse("* a \t:_:");
    let h = first_headline(&org);
    let tags: Vec<String> = h.tags().unwrap().iter().iter().map(|t| t.text().to_string()).collect();
    assert_eq!(tags, vec!["_".to_string()]);
}

#[test]
fn scenario_repeater() {
    let org = Org::parse("[2000-01-01 +1w]");
    let t = first_timestamp(&org);
    assert!(t.is_inactive());
    assert!(!t.is_active());
    assert!(!t.is_diary());
    assert_eq!(t.repeater_type(), Some(RepeaterType::Cumulate));
    assert_eq!(t.repeater_value(), Some(1));
    assert_eq!(t.repeater_unit(), Some(TimeUnit::Week));
    assert_eq!(t.warning_type(), None);
    assert_eq!(t.warning_value(), None);
    assert_eq!(t.warning_unit(), None);
}

#[test]
fn scenario_active_range() {
    let org = Org::parse("<2003-09-16 Tue 09:39>--<2003-09-16 Tue 10:39>");
    let t = first_timestamp(&org);
    assert!(t.is_active());
    assert!(t.is_range());
    assert_eq!(t.start_to_chrono(), Some(dt(2003, 9, 16, 9, 39)));
    assert_eq!(t.end_to_chrono(), Some(dt(2003, 9, 16, 10, 39)));
}

#[test]
fn scenario_commented() {
    let org = Org::parse("* COMMENT hello");
    assert!(first_headline(&org).is_commented());
    let org = Org::parse("* COMMENT");
    assert!(first_headline(&org).is_commented());
    let org = Org::parse("* hello");
    assert!(!first_headline(&org).is_commented());
    let org = Org::parse("* COMMENTS");
    assert!(!first_headline(&org).is_commented());
}

#[test]
fn scenario_archived() {
    let org = Org::parse("* hello :ARCHIVE:");
    assert!(first_headline(&org).is_archived());
    let org = Org::parse("* hello :ARCHIVED:");
    assert!(!first_headline(&org).is_archived());
}

#[test]
fn timestamp_accessors() {
    let t = |s: &str| Org::parse(s);
    let o = t("<2003-09-16 Tue 09:39-10:39>");
    let ts = first_timestamp(&o);
    assert!(ts.is_active());
    assert!(ts.is_range());
    assert_eq!(ts.start_to_chrono(), Some(dt(2003, 9, 16, 9, 39)));
    assert_eq!(ts.end_to_chrono(), Some(dt(2003, 9, 16, 10, 39)));

    let o = t("[2003-09-16 Tue 09:39]");
    let ts = first_timestamp(&o);
    assert!(ts.is_inactive());
    assert!(!ts.is_range());

    let o = t("[2003-09-16 Tue 09:39]--[2003-09-16 Tue 10:39]");
    assert!(first_timestamp(&o).is_range());

    let o = t("<%%(org-calendar-holiday)>");
    assert!(first_timestamp(&o).is_diary());

    let o = t("[2000-01-01 .+10d +1w]");
    let ts = first_timestamp(&o);
    assert_eq!(ts.repeater_type(), Some(RepeaterType::Restart));
    assert_eq!(ts.repeater_value(), Some(10));
    assert_eq!(ts.repeater_unit(), Some(TimeUnit::Day));

    let o = t("[2000-01-01 --1y]");
    let ts = first_timestamp(&o);
    assert_eq!(ts.repeater_type(), None);
    assert_eq!(ts.repeater_value(), None);
    assert_eq!(ts.repeater_unit(), None);
    assert_eq!(ts.warning_type(), Some(DelayType::First));
    assert_eq!(ts.warning_unit(), Some(TimeUnit::Year));

    let o = t("[2000-01-01 -3y]");
    let ts = first_timestamp(&o);
    assert_eq!(ts.warning_type(), Some(DelayType::All));
    assert_eq!(ts.warning_value(), Some(3));
    assert_eq!(ts.warning_unit(), Some(TimeUnit::Year));

    let o = t("[2000-01-01]--[2000-01-02 -5w]");
    let ts = first_timestamp(&o);
    assert_eq!(ts.warning_type(), Some(DelayType::All));
    assert_eq!(ts.warning_value(), Some(5));
    assert_eq!(ts.warning_unit(), Some(TimeUnit::Week));

    let o = t("[2000-01-01 01:00-02:00 --10m]");
    let ts = first_timestamp(&o);
    assert_eq!(ts.warning_type(), Some(DelayType::First));
    assert_eq!(ts.warning_value(), Some(10));
    assert_eq!(ts.warning_unit(), Some(TimeUnit::Month));

    let o = t("[2000-01-01 ++2h]");
    let ts = first_timestamp(&o);
    assert_eq!(ts.repeater_type(), Some(RepeaterType::CatchUp));
    assert_eq!(ts.repeater_unit(), Some(TimeUnit::Hour));
}

#[test]
fn invalid_dates_are_absent() {
    let o = Org::parse("[2003-13-00 Tue 09:39-10:39]");
    assert!(first_timestamp(&o).start_to_chrono().is_none());
    let o = Org::parse("[2001-02-29 Thu 09:39]");
    assert!(first_timestamp(&o).start_to_chrono().is_none());
    let o = Org::parse("[2004-02-29 Sun 23:59]");
    assert_eq!(first_timestamp(&o).start_to_chrono(), Some(dt(2004, 2, 29, 23, 59)));
    let o = Org::parse("[2004-02-28 Sat 24:00]");
    assert!(first_timestamp(&o).start_to_chrono().is_none());
    let o = Org::parse("[2004-02-28 Sat]");
    assert!(first_timestamp(&o).start_to_chrono().is_none());
}

#[test]
fn huge_repeater_value_is_absent() {
    let o = Org::parse("[2000-01-01 +99999999999d]");
    let ts = first_timestamp(&o);
    assert_eq!(ts.repeater_value(), None);
    assert_eq!(ts.repeater_unit(), Some(TimeUnit::Day));
}

#[test]
fn zeroth_section_and_blank_lines() {
    let org = Org::parse("\n\nintro\n* h");
    let doc = org.document();
    assert_eq!(orgize::ast::blank_lines(doc.syntax), 2);
    assert_eq!(doc.section().unwrap().to_source(), "intro\n");
    assert_eq!(doc.headlines().len(), 1);
    let last = orgize::ast::last_child(doc.syntax, SyntaxKind::HEADLINE).unwrap();
    assert_eq!(Headline::cast(last).unwrap().to_source(), "* h");
    let bl = orgize::ast::last_token(doc.syntax, SyntaxKind::BLANK_LINE).unwrap();
    assert_eq!(bl.text(), "\n");
}

#[test]
fn timestamp_in_title() {
    let org = Org::parse("* meet <2020-02-02 Sun 10:00>");
    let t = first_timestamp(&org);
    assert_eq!(t.start_to_chrono(), Some(dt(2020, 2, 2, 10, 0)));
    assert_eq!(first_headline(&org).title().unwrap().to_source(), "meet <2020-02-02 Sun 10:00>");
}

#[test]
fn planning_line() {
    let s = "* TODO task\n  SCHEDULED: <2004-12-25 Sat> DEADLINE: <2004-12-31 Fri 10:00>\nbody\n";
    let org = Org::parse(s);
    assert_eq!(org.to_source(), s);
    let h = first_headline(&org);
    assert!(h.planning().is_some());
    assert_eq!(
        h.scheduled().unwrap().to_source(),
        "<2004-12-25 Sat>"
    );
    assert_eq!(
        h.deadline().unwrap().end_to_chrono(),
        Some(dt(2004, 12, 31, 10, 0))
    );
    assert!(h.closed().is_none());
    assert_eq!(h.section().unwrap().to_source(), "body\n");
}

#[test]
fn planning_needs_keyword_first() {
    let s = "* task\nsee SCHEDULED: <2004-12-25 Sat>\n";
    let org = Org::parse(s);
    let h = first_headline(&org);
    assert!(h.planning().is_none());
    assert!(h.scheduled().is_none());
    assert_eq!(h.section().unwrap().to_source(), "see SCHEDULED: <2004-12-25 Sat>\n");
}

#[test]
fn property_drawer() {
    let s = "* h\n:PROPERTIES:\n:ID: abc\n:Key+: v w\n:EMPTY:\n:end:\ntext\n";
    let org = Org::parse(s);
    assert_eq!(org.to_source(), s);
    let h = first_headline(&org);
    let props = h.properties().unwrap();
    let items = props.iter();
    assert_eq!(items.len(), 3);
    assert_eq!(items[0].key().unwrap().text(), "ID");
    assert_eq!(items[0].value().unwrap().text(), "abc");
    assert_eq!(items[1].key().unwrap().text(), "Key");
    assert_eq!(items[1].value().unwrap().text(), "v w");
    assert_eq!(items[2].key().unwrap().text(), "EMPTY");
    assert!(items[2].value().is_none());
    assert_eq!(h.section().unwrap().to_source(), "text\n");
}

#[test]
fn unterminated_drawer_is_paragraph() {
    let s = "* h\n:PROPERTIES:\n:ID: abc\n* next\n";
    let org = Org::parse(s);
    assert_eq!(org.to_source(), s);
    let h = first_headline(&org);
    assert!(h.properties().is_none());
    assert_eq!(h.section().unwrap().to_source(), ":PROPERTIES:\n:ID: abc\n");
}

fn first_source(org: &Org, k: SyntaxKind) -> Option<String> {
    org.first_node(&[k]).map(|n| n.to_source())
}

#[test]
fn inline_objects() {
    let s = "see [[https://orgmode.org][Org]] and <<<radio>>> and <<target>>, {{{macro(a,b)}}}, @@html:<b>@@ and [fn:1].\n";
    let org = Org::parse(s);
    assert_eq!(org.to_source(), s);
    assert_eq!(first_source(&org, SyntaxKind::LINK).unwrap(), "[[https://orgmode.org][Org]]");
    assert_eq!(first_source(&org, SyntaxKind::RADIO_TARGET).unwrap(), "<<<radio>>>");
    assert_eq!(first_source(&org, SyntaxKind::TARGET).unwrap(), "<<target>>");
    assert_eq!(first_source(&org, SyntaxKind::MACRO).unwrap(), "{{{macro(a,b)}}}");
    assert_eq!(first_source(&org, SyntaxKind::SNIPPET).unwrap(), "@@html:<b>@@");
    assert_eq!(first_source(&org, SyntaxKind::FOOTNOTE_REFERENCE).unwrap(), "[fn:1]");
}

#[test]
fn unclosed_objects_stay_text() {
    let s = "[[broken and <<open and {{{x and @@y\n";
    let org = Org::parse(s);
    assert_eq!(org.to_source(), s);
    assert!(first_source(&org, SyntaxKind::LINK).is_none());
    assert!(first_source(&org, SyntaxKind::TARGET).is_none());
    assert!(first_source(&org, SyntaxKind::MACRO).is_none());
    assert!(first_source(&org, SyntaxKind::SNIPPET).is_none());
}

fn section_kinds(s: &str) -> Vec<SyntaxKind> {
    let org = Org::parse(s);
    assert_eq!(org.to_source(), s);
    let sec = org.document().section().unwrap();
    sec.syntax.children.iter().map(|c| c.kind()).collect()
}

#[test]
fn section_elements() {
    assert_eq!(
        section_kinds("#+TITLE: x\npara\n\n- a\n- b\n  more\n| t |\n| u |\n: fixed\n-----\n# note\nCLOCK: [2000-01-01 Sat]\n"),
        vec![SyntaxKind::KEYWORD, SyntaxKind::PARAGRAPH, SyntaxKind::LIST, SyntaxKind::TABLE, SyntaxKind::FIXED_WIDTH, SyntaxKind::RULE, SyntaxKind::COMMENT, SyntaxKind::CLOCK]
    );
    assert_eq!(
        section_kinds("#+begin_src rust\nfn main() {}\n\n#+end_src\ntext\n"),
        vec![SyntaxKind::SRC_BLOCK, SyntaxKind::PARAGRAPH]
    );
    assert_eq!(
        section_kinds("#+BEGIN_QUOTE\nq\n#+END_QUOTE\n\n"),
        vec![SyntaxKind::QUOTE_BLOCK]
    );
    assert_eq!(
        section_kinds(":LOGBOOK:\nx\n:END:\n[fn:1] note\n"),
        vec![SyntaxKind::DRAWER, SyntaxKind::FOOTNOTE_DEFINITION]
    );
    assert_eq!(section_kinds("#+BEGIN_SRC\nno end\n"), vec![SyntaxKind::PARAGRAPH]);
    assert_eq!(section_kinds("1. one\n2) two\n"), vec![SyntaxKind::LIST]);
}

#[test]
fn paragraphs_split_at_blank_lines() {
    let org = Org::parse("a\nb\n\n\nc\n");
    let sec = org.document().section().unwrap();
    let parts: Vec<String> = sec.syntax.children.iter().map(|c| c.to_source()).collect();
    assert_eq!(parts, vec!["a\nb\n\n\n".to_string(), "c\n".to_string()]);
    assert_eq!(orgize::ast::blank_lines(match &sec.syntax.children[0] {
        GreenElement::Node(n) => n,
        GreenElement::Token(_) => panic!(),
    }), 2);
}

#[test]
fn filter_token_picks_tokens() {
    let org = Org::parse("* a :x:");
    let tags = first_headline(&org).tags().unwrap();
    let colons = tags
        .syntax
        .children
        .iter()
        .filter_map(|e| orgize::ast::filter_token(SyntaxKind::COLON, e))
        .count();
    assert_eq!(colons, 2);
}

#[test]
fn depth_first_order() {
    let org = Org::parse("* a <2000-01-01 Sat>\n");
    let kinds: Vec<SyntaxKind> = org
        .green
        .children
        .iter()
        .flat_map(|c| orgize::ast::descendants(c).into_iter().map(|e| e.kind()))
        .collect();
    assert_eq!(kinds[0], SyntaxKind::HEADLINE);
    assert_eq!(kinds[1], SyntaxKind::HEADLINE_STARS);
    assert_eq!(kinds[2], SyntaxKind::WHITESPACE);
    assert_eq!(kinds[3], SyntaxKind::HEADLINE_TITLE);
    assert_eq!(kinds[4], SyntaxKind::TEXT);
    assert_eq!(kinds[5], SyntaxKind::TIMESTAMP_ACTIVE);
    assert_eq!(kinds[6], SyntaxKind::L_ANGLE);
    assert_eq!(*kinds.last().unwrap(), SyntaxKind::NEW_LINE);
}
