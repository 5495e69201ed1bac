use extractor::model::{Attribute, Dom, NodeData, NodeId, QualName};
use extractor::query::{collect_tagged, get_tag_name, query_by_tagname};
use extractor::text::{
    get_children_text_content, get_text_children_count, get_text_content, get_text_len,
    is_substantial, SUBSTANTIAL_LEN,
};

fn element(dom: &mut Dom, parent: NodeId, tag: &str) -> NodeId {
    dom.append(parent, NodeData::Element { name: QualName::plain(tag), attrs: vec![] }).unwrap()
}

fn text(dom: &mut Dom, parent: NodeId, contents: &str) -> NodeId {
    dom.append(parent, NodeData::Text { contents: contents.to_string() }).unwrap()
}

#[test]
fn query_finds_nested_matches_in_document_order() {
    let mut dom = Dom::new();
    let outer = element(&mut dom, 0, "div");
    let first = element(&mut dom, outer, "p");
    let inner = element(&mut dom, outer, "div");
    let second = element(&mut dom, inner, "p");
    let third = element(&mut dom, 0, "p");

    let mut divs = vec![];
    assert!(query_by_tagname(&dom, 0, "div", &mut divs));
    assert_eq!(divs, vec![outer, inner]);

    let mut paragraphs = vec![];
    assert!(query_by_tagname(&dom, 0, "p", &mut paragraphs));
    assert_eq!(paragraphs, vec![first, second, third]);

    let mut below_outer = vec![];
    assert!(query_by_tagname(&dom, outer, "p", &mut below_outer));
    assert_eq!(below_outer, vec![first, second]);
}

#[test]
fn query_does_not_report_the_start_node() {
    let mut dom = Dom::new();
    let outer = element(&mut dom, 0, "div");
    let mut found = vec![];
    assert!(!query_by_tagname(&dom, outer, "div", &mut found));
    assert!(found.is_empty());
}

#[test]
fn query_without_match_is_empty_and_false() {
    let mut dom = Dom::new();
    let body = element(&mut dom, 0, "body");
    text(&mut dom, body, "table");
    let mut found = vec![];
    assert_eq!(query_by_tagname(&dom, 0, "table", &mut found), false);
    assert_eq!(found, Vec::<NodeId>::new());
}

#[test]
fn query_flag_tells_whether_anything_is_held() {
    let mut dom = Dom::new();
    let body = element(&mut dom, 0, "body");
    let mut found = vec![body];
    assert!(query_by_tagname(&dom, 0, "table", &mut found));
    assert_eq!(found, vec![body]);
    for tag in ["body", "p", ""] {
        let mut nodes = vec![];
        let flag = query_by_tagname(&dom, 0, tag, &mut nodes);
        assert_eq!(flag, !nodes.is_empty());
        for id in nodes {
            assert_eq!(get_tag_name(&dom, id).unwrap(), tag);
        }
    }
}

#[test]
fn query_ignores_case_on_both_sides() {
    let mut dom = Dom::new();
    let upper = element(&mut dom, 0, "DIV");
    let mixed = element(&mut dom, upper, "Div");
    let lower = element(&mut dom, mixed, "div");
    for tag in ["div", "DIV", "dIv"] {
        let mut found = vec![];
        assert!(query_by_tagname(&dom, 0, tag, &mut found));
        assert_eq!(found, vec![upper, mixed, lower]);
    }
}

#[test]
fn collect_tagged_takes_the_tag_as_given() {
    let mut dom = Dom::new();
    let upper = element(&mut dom, 0, "DIV");
    let mut found = vec![];
    collect_tagged(&dom, 0, "div", &mut found);
    assert_eq!(found, vec![upper]);
    let mut none = vec![];
    collect_tagged(&dom, 0, "DIV", &mut none);
    assert!(none.is_empty());
}

#[test]
fn query_walks_through_elements_only() {
    let mut dom = Dom::new();
    let comment = dom.append(0, NodeData::Other).unwrap();
    element(&mut dom, comment, "p");
    let mut found = vec![];
    assert!(!query_by_tagname(&dom, 0, "p", &mut found));
}

#[test]
fn query_on_a_missing_node_finds_nothing() {
    let dom = Dom::new();
    let mut found = vec![];
    assert!(!query_by_tagname(&dom, 7, "p", &mut found));
    assert!(found.is_empty());
}

#[test]
fn tag_name_of_each_kind_of_node() {
    let mut dom = Dom::new();
    let section = element(&mut dom, 0, "SECTION");
    let words = text(&mut dom, section, "words");
    let other = dom.append(section, NodeData::Other).unwrap();
    assert_eq!(get_tag_name(&dom, 0), Some("document".to_string()));
    assert_eq!(get_tag_name(&dom, section), Some("section".to_string()));
    assert_eq!(get_tag_name(&dom, words), None);
    assert_eq!(get_tag_name(&dom, other), None);
    assert_eq!(get_tag_name(&dom, 99), None);
}

#[test]
fn text_content_trims_each_piece_and_joins_without_separator() {
    let mut dom = Dom::new();
    let p = element(&mut dom, 0, "p");
    text(&mut dom, p, "  Hello, ");
    let b = element(&mut dom, p, "b");
    text(&mut dom, b, "\n world \t");
    text(&mut dom, p, " ! ");
    let mut out = String::new();
    get_text_content(&dom, p, &mut out);
    assert_eq!(out, "Hello,world!");
}

#[test]
fn text_content_of_blank_text_is_untitled() {
    let mut dom = Dom::new();
    let title = element(&mut dom, 0, "title");
    text(&mut dom, title, "   ");
    text(&mut dom, title, "\n\t\u{a0}");
    let inner = element(&mut dom, title, "span");
    text(&mut dom, inner, " ");
    let mut out = String::new();
    get_text_content(&dom, title, &mut out);
    assert_eq!(out, "Untitled");
}

#[test]
fn text_content_of_a_childless_node_is_untitled() {
    let mut dom = Dom::new();
    let title = element(&mut dom, 0, "title");
    let mut out = String::new();
    get_text_content(&dom, title, &mut out);
    assert_eq!(out, "Untitled");
    let mut missing = String::new();
    get_text_content(&dom, 42, &mut missing);
    assert_eq!(missing, "Untitled");
}

#[test]
fn text_content_falls_back_only_after_the_whole_walk() {
    let mut dom = Dom::new();
    let title = element(&mut dom, 0, "title");
    element(&mut dom, title, "span");
    dom.append(title, NodeData::Other).unwrap();
    text(&mut dom, title, "Real title");
    let mut out = String::new();
    get_text_content(&dom, title, &mut out);
    assert_eq!(out, "Real title");
}

#[test]
fn text_content_appends_to_what_is_there() {
    let mut dom = Dom::new();
    let p = element(&mut dom, 0, "p");
    text(&mut dom, p, " tail ");
    let mut out = String::from("head:");
    get_text_content(&dom, p, &mut out);
    assert_eq!(out, "head:tail");
    let empty = element(&mut dom, 0, "p");
    let mut kept = String::from("head:");
    get_text_content(&dom, empty, &mut kept);
    assert_eq!(kept, "head:");
}

#[test]
fn children_text_shallow_and_deep() {
    let mut dom = Dom::new();
    let p = element(&mut dom, 0, "p");
    text(&mut dom, p, " a ");
    let b = element(&mut dom, p, "b");
    text(&mut dom, b, " b ");
    let i = element(&mut dom, b, "i");
    text(&mut dom, i, " c ");
    text(&mut dom, p, " d ");

    let mut shallow = String::new();
    get_children_text_content(&dom, p, &mut shallow, false);
    assert_eq!(shallow, "ad");

    let mut deep = String::new();
    get_children_text_content(&dom, p, &mut deep, true);
    assert_eq!(deep, "abcd");
}

#[test]
fn children_text_has_no_fallback() {
    let mut dom = Dom::new();
    let p = element(&mut dom, 0, "p");
    text(&mut dom, p, "   ");
    let mut out = String::new();
    get_children_text_content(&dom, p, &mut out, true);
    assert_eq!(out, "");
    let empty = element(&mut dom, 0, "p");
    get_children_text_content(&dom, empty, &mut out, false);
    assert_eq!(out, "");
    get_children_text_content(&dom, 1000, &mut out, true);
    assert_eq!(out, "");
}

#[test]
fn children_text_skips_what_is_no_element() {
    let mut dom = Dom::new();
    let p = element(&mut dom, 0, "p");
    let other = dom.append(p, NodeData::Other).unwrap();
    text(&mut dom, other, "hidden");
    text(&mut dom, p, "shown");
    let mut deep = String::new();
    get_children_text_content(&dom, p, &mut deep, true);
    assert_eq!(deep, "shown");
    let mut all = String::new();
    get_text_content(&dom, p, &mut all);
    assert_eq!(all, "hiddenshown");
}

#[test]
fn text_len_counts_raw_bytes() {
    let mut dom = Dom::new();
    let p = element(&mut dom, 0, "p");
    text(&mut dom, p, "  ab  ");
    let b = element(&mut dom, p, "b");
    text(&mut dom, b, "\u{e9}t\u{e9}");
    text(&mut dom, b, "\n");
    assert_eq!(get_text_len(&dom, b), 6);
    assert_eq!(get_text_len(&dom, p), 12);
    assert_eq!(get_text_len(&dom, 0), 12);
}

#[test]
fn text_len_of_blank_text_is_its_raw_length() {
    let mut dom = Dom::new();
    let p = element(&mut dom, 0, "p");
    text(&mut dom, p, " \t\n ");
    assert_eq!(get_text_len(&dom, p), 4);
    let mut trimmed = String::new();
    get_children_text_content(&dom, p, &mut trimmed, true);
    assert_eq!(trimmed.len(), 0);
}

#[test]
fn text_len_of_nothing_is_zero() {
    let mut dom = Dom::new();
    let p = element(&mut dom, 0, "p");
    let words = text(&mut dom, p, "words");
    let empty = element(&mut dom, 0, "div");
    assert_eq!(get_text_len(&dom, empty), 0);
    assert_eq!(get_text_len(&dom, words), 0);
    assert_eq!(get_text_len(&dom, 500), 0);
}

#[test]
fn text_len_is_at_least_the_trimmed_text() {
    let mut dom = Dom::new();
    let article = element(&mut dom, 0, "article");
    text(&mut dom, article, "  lead  ");
    let p = element(&mut dom, article, "p");
    text(&mut dom, p, "\tbody text\n");
    let em = element(&mut dom, p, "em");
    text(&mut dom, em, " \u{4e2d}\u{6587} ");
    dom.append(article, NodeData::Other).unwrap();
    for id in 0..dom.len() {
        let mut trimmed = String::new();
        get_children_text_content(&dom, id, &mut trimmed, true);
        assert!(get_text_len(&dom, id) >= trimmed.len());
    }
    assert_eq!(get_text_len(&dom, article), 8 + 11 + 8);
}

#[test]
fn substantial_count_looks_at_text_children_only() {
    let mut dom = Dom::new();
    let div = element(&mut dom, 0, "div");
    text(&mut dom, div, "This sentence is certainly long enough.");
    let p = element(&mut dom, div, "p");
    text(&mut dom, p, "thirty characters of text here");
    text(&mut dom, div, "short");
    text(&mut dom, div, "Another piece of text that is long.");
    assert_eq!(get_text_children_count(&dom, div), 2);
    assert_eq!(get_text_children_count(&dom, p), 1);
    assert_eq!(get_text_children_count(&dom, 0), 0);
}

#[test]
fn substantial_count_measures_the_trimmed_text() {
    let mut dom = Dom::new();
    let div = element(&mut dom, 0, "div");
    text(&mut dom, div, "12345678901234567890");
    text(&mut dom, div, "1234567890123456789");
    text(&mut dom, div, "   1234567890123456789        ");
    text(&mut dom, div, "  12345678901234567890  ");
    text(&mut dom, div, "                              ");
    assert_eq!(get_text_children_count(&dom, div), 2);
}

#[test]
fn substantial_count_of_nothing_is_zero() {
    let mut dom = Dom::new();
    let div = element(&mut dom, 0, "div");
    assert_eq!(get_text_children_count(&dom, div), 0);
    assert_eq!(get_text_children_count(&dom, 77), 0);
}

#[test]
fn substantial_threshold() {
    assert_eq!(SUBSTANTIAL_LEN, 20);
    assert!(!is_substantial(""));
    assert!(!is_substantial("1234567890123456789"));
    assert!(is_substantial("12345678901234567890"));
    assert!(is_substantial("\u{e9}\u{e9}\u{e9}\u{e9}\u{e9}\u{e9}\u{e9}\u{e9}\u{e9}\u{e9}"));
}

#[test]
fn building_a_document() {
    let mut dom = Dom::new();
    assert_eq!(dom.len(), 1);
    assert_eq!(dom.document(), 0);
    assert!(dom.node(1).is_none());
    let p = element(&mut dom, 0, "p");
    assert_eq!(p, 1);
    let t = text(&mut dom, p, "x");
    assert_eq!(t, 2);
    assert_eq!(dom.node(0).unwrap().children, vec![p]);
    assert_eq!(dom.node(p).unwrap().children, vec![t]);
    assert!(dom.append(9, NodeData::Other).is_none());
    assert_eq!(dom.len(), 3);
    let floating = dom.create(NodeData::Element {
        name: QualName::plain("aside"),
        attrs: vec![Attribute { name: QualName::plain("id"), value: "x".to_string() }],
    });
    assert_eq!(floating, 3);
    assert_eq!(dom.len(), 4);
    for id in 0..dom.len() {
        assert!(!dom.node(id).unwrap().children.contains(&floating));
    }
}

fn is_unicode_white_space(code: u32) -> bool {
    matches!(
        code,
        0x0009..=0x000D
            | 0x0020
            | 0x0085
            | 0x00A0
            | 0x1680
            | 0x2000..=0x200A
            | 0x2028
            | 0x2029
            | 0x202F
            | 0x205F
            | 0x3000
    )
}

#[test]
fn trimming_removes_exactly_the_unicode_white_space() {
    for code in 0..0x11000u32 {
        let c = match char::from_u32(code) {
            Some(c) => c,
            None => continue,
        };
        let mut dom = Dom::new();
        let p = element(&mut dom, 0, "p");
        let mut contents = String::new();
        contents.push(c);
        contents.push('x');
        contents.push(c);
        text(&mut dom, p, &contents);
        let mut out = String::new();
        get_children_text_content(&dom, p, &mut out, false);
        if is_unicode_white_space(code) {
            assert_eq!(out, "x", "U+{:04X} is white space", code);
        } else {
            assert_eq!(out, contents, "U+{:04X} is no white space", code);
        }
    }
}

#[test]
fn text_content_of_a_single_letter() {
    let mut dom = Dom::new();
    let p = element(&mut dom, 0, "p");
    text(&mut dom, p, "a");
    let mut out = String::new();
    get_text_content(&dom, p, &mut out);
    assert_eq!(out, "a");
}
