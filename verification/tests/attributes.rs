use extractor::attr::{
    find_attr, get_attr, get_attr_by_name, get_attrs, is_listed, set_attr, try_set_attr,
};
use extractor::factory::create_element;
use extractor::img::{fix_img_path, is_rewritable, put_img_path};
use extractor::model::{Attribute, Dom, NodeData, NodeId, QualName};
use extractor::parse::parse_from;
use extractor::query::query_by_tagname;
use url::Url;

fn attribute(name: &str, value: &str) -> Attribute {
    Attribute { name: QualName::plain(name), value: value.to_string() }
}

fn attrs_of(dom: &Dom, id: NodeId) -> Vec<(String, String)> {
    match &dom.node(id).unwrap().data {
        NodeData::Element { attrs, .. } => {
            attrs.iter().map(|a| (a.name.local.clone(), a.value.clone())).collect()
        }
        _ => vec![],
    }
}

fn pair(name: &str, value: &str) -> (String, String) {
    (name.to_string(), value.to_string())
}

#[test]
fn attrs_scenario_for_a_heading() {
    let dom = parse_from(b"<h1 id=\"header\" class=\"header_type1\">Hello, world!</h1>").unwrap();
    let mut nodes = vec![];
    assert!(query_by_tagname(&dom, dom.document(), "h1", &mut nodes));
    match &dom.node(nodes[0]).unwrap().data {
        NodeData::Element { attrs, .. } => {
            let map = get_attrs(vec!["id", "class"], attrs);
            assert_eq!(map.len(), 2);
            assert_eq!(map.get("id").unwrap(), "header");
            assert_eq!(map.get("class").unwrap(), "header_type1");
        }
        _ => panic!("a heading is an element"),
    }
}

#[test]
fn get_attr_answers_with_the_first_occurrence() {
    let attrs = vec![attribute("a", "1"), attribute("b", "2"), attribute("a", "3")];
    assert_eq!(get_attr("a", &attrs), Some("1".to_string()));
    assert_eq!(get_attr("b", &attrs), Some("2".to_string()));
    assert_eq!(get_attr("c", &attrs), None);
    assert_eq!(get_attr("A", &attrs), None);
    assert_eq!(get_attr("a", &vec![]), None);
    assert_eq!(find_attr("a", &attrs), Some(0));
    assert_eq!(find_attr("b", &attrs), Some(1));
    assert_eq!(find_attr("c", &attrs), None);
}

#[test]
fn get_attr_goes_by_local_name_alone() {
    let attrs = vec![Attribute {
        name: QualName {
            prefix: Some("xlink".to_string()),
            ns: "http://www.w3.org/1999/xlink".to_string(),
            local: "href".to_string(),
        },
        value: "#a".to_string(),
    }];
    assert_eq!(get_attr("href", &attrs), Some("#a".to_string()));
    assert_eq!(get_attr("xlink:href", &attrs), None);
}

#[test]
fn get_attrs_answers_with_the_last_occurrence() {
    let attrs = vec![
        attribute("a", "1"),
        attribute("b", "2"),
        attribute("a", "3"),
        attribute("c", "4"),
    ];
    let map = get_attrs(vec!["a", "c", "z"], &attrs);
    assert_eq!(map.len(), 2);
    assert_eq!(map.get("a").unwrap(), "3");
    assert_eq!(map.get("c").unwrap(), "4");
    assert!(map.get("b").is_none());
    assert!(map.get("z").is_none());
}

#[test]
fn get_attrs_of_nothing_is_empty() {
    let attrs = vec![attribute("a", "1")];
    assert_eq!(get_attrs(vec![], &attrs).len(), 0);
    assert_eq!(get_attrs(vec!["a"], &vec![]).len(), 0);
    assert!(is_listed(&vec!["a", "b"], "b"));
    assert!(!is_listed(&vec!["a", "b"], "c"));
    assert!(!is_listed(&vec![], "a"));
}

#[test]
fn get_attr_by_name_reads_elements_only() {
    let mut dom = Dom::new();
    let img = create_element(&mut dom, "img", vec![attribute("src", "a.png")]);
    let words = dom.append(0, NodeData::Text { contents: "src".to_string() }).unwrap();
    assert_eq!(get_attr_by_name(&dom, img, "src"), Some("a.png".to_string()));
    assert_eq!(get_attr_by_name(&dom, img, "alt"), None);
    assert_eq!(get_attr_by_name(&dom, words, "src"), None);
    assert_eq!(get_attr_by_name(&dom, 0, "src"), None);
    assert_eq!(get_attr_by_name(&dom, 64, "src"), None);
}

#[test]
fn set_attr_overwrites_in_place() {
    let mut dom = Dom::new();
    let name = QualName {
        prefix: Some("x".to_string()),
        ns: "urn:x".to_string(),
        local: "b".to_string(),
    };
    let attrs =
        vec![attribute("a", "1"), Attribute { name, value: "2".to_string() }, attribute("c", "3")];
    let node = create_element(&mut dom, "div", attrs);
    set_attr(&mut dom, node, "b", "new");
    assert_eq!(attrs_of(&dom, node), vec![pair("a", "1"), pair("b", "new"), pair("c", "3")]);
    match &dom.node(node).unwrap().data {
        NodeData::Element { attrs, .. } => {
            assert_eq!(attrs[1].name.prefix, Some("x".to_string()));
            assert_eq!(attrs[1].name.ns, "urn:x");
        }
        _ => panic!("the node is an element"),
    }
}

#[test]
fn set_attr_appends_a_plain_attribute() {
    let mut dom = Dom::new();
    let node = create_element(&mut dom, "div", vec![attribute("a", "1")]);
    set_attr(&mut dom, node, "b", "2");
    assert_eq!(attrs_of(&dom, node), vec![pair("a", "1"), pair("b", "2")]);
    match &dom.node(node).unwrap().data {
        NodeData::Element { attrs, .. } => {
            assert_eq!(attrs[1].name.prefix, None);
            assert_eq!(attrs[1].name.ns, "");
        }
        _ => panic!("the node is an element"),
    }
    assert_eq!(get_attr_by_name(&dom, node, "b"), Some("2".to_string()));
}

#[test]
fn set_attr_twice_is_set_attr_once() {
    let mut dom = Dom::new();
    let node = create_element(&mut dom, "div", vec![attribute("a", "1")]);
    set_attr(&mut dom, node, "k", "v");
    let once = attrs_of(&dom, node);
    set_attr(&mut dom, node, "k", "v");
    assert_eq!(attrs_of(&dom, node), once);
    assert_eq!(once.iter().filter(|(name, _)| name == "k").count(), 1);
    set_attr(&mut dom, node, "a", "9");
    set_attr(&mut dom, node, "a", "9");
    assert_eq!(attrs_of(&dom, node), vec![pair("a", "9"), pair("k", "v")]);
}

#[test]
fn set_attr_touches_the_first_of_several() {
    let mut dom = Dom::new();
    let node = create_element(&mut dom, "div", vec![attribute("a", "1"), attribute("a", "2")]);
    set_attr(&mut dom, node, "a", "x");
    assert_eq!(attrs_of(&dom, node), vec![pair("a", "x"), pair("a", "2")]);
}

#[test]
fn set_attr_leaves_other_nodes_alone() {
    let mut dom = Dom::new();
    let words = dom.append(0, NodeData::Text { contents: "t".to_string() }).unwrap();
    let other = dom.append(0, NodeData::Other).unwrap();
    set_attr(&mut dom, words, "a", "1");
    set_attr(&mut dom, other, "a", "1");
    set_attr(&mut dom, 0, "a", "1");
    set_attr(&mut dom, 12, "a", "1");
    assert_eq!(dom.len(), 3);
    assert!(matches!(dom.node(0).unwrap().data, NodeData::Document));
    assert!(matches!(dom.node(other).unwrap().data, NodeData::Other));
    match &dom.node(words).unwrap().data {
        NodeData::Text { contents } => assert_eq!(contents, "t"),
        _ => panic!("the text node stays a text node"),
    }
}

#[test]
fn try_set_attr_tells_whether_it_wrote() {
    let mut dom = Dom::new();
    let node = create_element(&mut dom, "div", vec![]);
    let words = dom.append(0, NodeData::Text { contents: "t".to_string() }).unwrap();
    assert!(try_set_attr(&mut dom, node, "a", "1"));
    assert!(try_set_attr(&mut dom, node, "a", "2"));
    assert_eq!(attrs_of(&dom, node), vec![pair("a", "2")]);
    assert!(!try_set_attr(&mut dom, words, "a", "1"));
    assert!(!try_set_attr(&mut dom, 0, "a", "1"));
    assert!(!try_set_attr(&mut dom, 40, "a", "1"));
}

#[test]
fn set_attr_keeps_the_children() {
    let mut dom = Dom::new();
    let div = dom
        .append(0, NodeData::Element { name: QualName::plain("div"), attrs: vec![] })
        .unwrap();
    let child = dom.append(div, NodeData::Text { contents: "t".to_string() }).unwrap();
    set_attr(&mut dom, div, "id", "x");
    assert_eq!(dom.node(div).unwrap().children, vec![child]);
    assert_eq!(dom.node(0).unwrap().children, vec![div]);
}

#[test]
fn create_element_is_detached_and_childless() {
    let mut dom = Dom::new();
    let node = create_element(&mut dom, "section", vec![attribute("id", "main")]);
    assert_eq!(node, 1);
    let made = dom.node(node).unwrap();
    assert!(made.children.is_empty());
    match &made.data {
        NodeData::Element { name, attrs } => {
            assert_eq!(name.local, "section");
            assert_eq!(name.ns, "");
            assert_eq!(name.prefix, None);
            assert_eq!(attrs.len(), 1);
            assert_eq!(attrs[0].value, "main");
        }
        _ => panic!("an element was asked for"),
    }
    assert!(dom.node(0).unwrap().children.is_empty());
}

#[test]
fn fix_img_path_without_src_is_false() {
    let base = Url::parse("https://site.test/").unwrap();
    let mut dom = Dom::new();
    let img = create_element(&mut dom, "img", vec![attribute("alt", "x")]);
    let words = dom.append(0, NodeData::Text { contents: "src".to_string() }).unwrap();
    assert_eq!(fix_img_path(&mut dom, img, &base), false);
    assert_eq!(attrs_of(&dom, img), vec![pair("alt", "x")]);
    assert_eq!(fix_img_path(&mut dom, words, &base), false);
    assert_eq!(fix_img_path(&mut dom, 0, &base), false);
    assert_eq!(fix_img_path(&mut dom, 31, &base), false);
}

#[test]
fn fix_img_path_leaves_protocol_relative_and_http_sources() {
    let base = Url::parse("https://site.test/").unwrap();
    let mut dom = Dom::new();
    let cdn = create_element(&mut dom, "img", vec![attribute("src", "//cdn.example.com/a.png")]);
    let http = create_element(&mut dom, "img", vec![attribute("src", "http://Old.test/./a.png")]);
    assert_eq!(fix_img_path(&mut dom, cdn, &base), true);
    assert_eq!(attrs_of(&dom, cdn), vec![pair("src", "//cdn.example.com/a.png")]);
    assert_eq!(fix_img_path(&mut dom, http, &base), true);
    assert_eq!(attrs_of(&dom, http), vec![pair("src", "http://Old.test/./a.png")]);
}

#[test]
fn fix_img_path_leaves_sources_without_scheme() {
    let base = Url::parse("https://site.test/dir/page.html").unwrap();
    let mut dom = Dom::new();
    let bare = create_element(&mut dom, "img", vec![attribute("src", "images/a.png")]);
    let rooted = create_element(&mut dom, "img", vec![attribute("src", "/a.png")]);
    assert_eq!(fix_img_path(&mut dom, bare, &base), true);
    assert_eq!(attrs_of(&dom, bare), vec![pair("src", "images/a.png")]);
    assert_eq!(fix_img_path(&mut dom, rooted, &base), true);
    assert_eq!(attrs_of(&dom, rooted), vec![pair("src", "/a.png")]);
}

#[test]
fn fix_img_path_resolves_https_sources() {
    let base = Url::parse("https://site.test/").unwrap();
    let mut dom = Dom::new();
    let plain =
        create_element(&mut dom, "img", vec![attribute("src", "https://old.test/rel/a.png")]);
    assert_eq!(fix_img_path(&mut dom, plain, &base), true);
    assert_eq!(attrs_of(&dom, plain), vec![pair("src", "https://old.test/rel/a.png")]);

    let dotted = create_element(
        &mut dom,
        "img",
        vec![attribute("alt", "x"), attribute("src", "https://OLD.test/rel/../img/./a.png")],
    );
    assert_eq!(fix_img_path(&mut dom, dotted, &base), true);
    assert_eq!(
        attrs_of(&dom, dotted),
        vec![pair("alt", "x"), pair("src", "https://old.test/img/a.png")]
    );
    assert_eq!(fix_img_path(&mut dom, dotted, &base), true);
    assert_eq!(
        attrs_of(&dom, dotted),
        vec![pair("alt", "x"), pair("src", "https://old.test/img/a.png")]
    );
}

#[test]
fn fix_img_path_keeps_a_source_that_does_not_resolve() {
    let base = Url::parse("https://site.test/").unwrap();
    let mut dom = Dom::new();
    let broken = create_element(&mut dom, "img", vec![attribute("src", "https://exa mple.com/a")]);
    assert!(base.join("https://exa mple.com/a").is_err());
    assert_eq!(fix_img_path(&mut dom, broken, &base), true);
    assert_eq!(attrs_of(&dom, broken), vec![pair("src", "https://exa mple.com/a")]);
}

#[test]
fn fix_img_path_reads_the_first_src() {
    let base = Url::parse("https://site.test/").unwrap();
    let mut dom = Dom::new();
    let img = create_element(
        &mut dom,
        "img",
        vec![attribute("src", "//cdn.test/a.png"), attribute("src", "https://A.test/b.png")],
    );
    assert_eq!(fix_img_path(&mut dom, img, &base), true);
    assert_eq!(
        attrs_of(&dom, img),
        vec![pair("src", "//cdn.test/a.png"), pair("src", "https://A.test/b.png")]
    );
}

#[test]
fn rewritable_sources_start_with_https() {
    assert!(is_rewritable("https://a.test/x"));
    assert!(is_rewritable("https://"));
    assert!(!is_rewritable("http://a.test/x"));
    assert!(!is_rewritable("//a.test/x"));
    assert!(!is_rewritable("a.png"));
    assert!(!is_rewritable("HTTPS://a.test/x"));
    assert!(!is_rewritable(" https://a.test/x"));
    assert!(!is_rewritable("https:/"));
    assert!(!is_rewritable(""));
}

#[test]
fn put_img_path_writes_what_it_is_given() {
    let mut dom = Dom::new();
    let img = create_element(&mut dom, "img", vec![attribute("src", "a.png")]);
    put_img_path(&mut dom, img, None);
    assert_eq!(attrs_of(&dom, img), vec![pair("src", "a.png")]);
    put_img_path(&mut dom, img, Some("https://site.test/a.png".to_string()));
    assert_eq!(attrs_of(&dom, img), vec![pair("src", "https://site.test/a.png")]);
}
