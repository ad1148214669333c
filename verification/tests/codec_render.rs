use htmlbuilder::codec::escape_ascii;
use htmlbuilder::codec::un_escape_ascii;
use htmlbuilder::tree::Arena;
use htmlbuilder::tree::Element;

#[test]
fn escape_replaces_the_five_reserved_characters() {
    assert_eq!(escape_ascii("\"'&<>"), "&quot;&apos;&amp;&lt;&gt;");
    assert_eq!(escape_ascii("a&b"), "a&amp;b");
    assert_eq!(escape_ascii("plain text"), "plain text");
    assert_eq!(escape_ascii(""), "");
}

#[test]
fn escape_does_not_double_escape_in_one_pass() {
    assert_eq!(escape_ascii("&lt;"), "&amp;lt;");
}

#[test]
fn unescape_restores_known_entities() {
    assert_eq!(un_escape_ascii("&quot;&apos;&amp;&lt;&gt;"), "\"'&<>");
    assert_eq!(un_escape_ascii("a&amp;b"), "a&b");
}

#[test]
fn unescape_degrades_unknown_entities_to_ampersand() {
    assert_eq!(un_escape_ascii("&nbsp;x"), "&x");
    assert_eq!(un_escape_ascii("&;x"), "&x");
}

#[test]
fn unescape_consumes_to_end_when_no_semicolon_follows() {
    assert_eq!(un_escape_ascii("a&xyz"), "a&");
    assert_eq!(un_escape_ascii("a&amp"), "a&");
    assert_eq!(un_escape_ascii("a&"), "a&");
}

#[test]
fn escape_then_unescape_round_trips() {
    let samples = ["", "a&b", "<div class=\"x\">", "it's & that's", "内容<>&"];
    for s in samples {
        assert_eq!(un_escape_ascii(&escape_ascii(s)), s);
    }
}

#[test]
fn raw_mode_round_trip() {
    let mut arena = Arena::new();
    let n = Element::new(&mut arena, "pre", "a&b");
    assert_eq!(n.render(&arena, ""), "<pre>a&amp;b</pre>");
    let n = n.pre(&mut arena, true);
    assert_eq!(n.render(&arena, ""), "<pre>a&b</pre>");
}

#[test]
fn raw_mode_off_leaves_stored_data_untouched() {
    let mut arena = Arena::new();
    let n = Element::new(&mut arena, "pre", "a&b").pre(&mut arena, true);
    let n = n.pre(&mut arena, false);
    assert_eq!(n.render(&arena, ""), "<pre>a&b</pre>");
}

#[test]
fn render_div_with_attribute_and_escaped_content() {
    let mut arena = Arena::new();
    let root = Element::new(&mut arena, "div", "<x>");
    root.set_attr(&mut arena, "id", "main");
    assert_eq!(root.render(&arena, ""), "<div id=\"main\">&lt;x&gt;</div>");
}

#[test]
fn render_void_element_has_no_closing_tag() {
    let mut arena = Arena::new();
    let meta = Element::new(&mut arena, "meta", "").onetag(&mut arena, true);
    assert_eq!(meta.render(&arena, "\n"), "<meta>\n");
}

#[test]
fn render_empty_tag_passes_content_through() {
    let mut arena = Arena::new();
    let n = Element::new(&mut arena, "", "hello");
    n.set_attr(&mut arena, "ignored", "yes");
    let child = Element::new(&mut arena, "b", "x");
    n.add(&mut arena, child);
    assert_eq!(n.render(&arena, "\n"), "hello");
    assert_eq!(n.render(&arena, ""), "hello");
}

#[test]
fn render_with_children_and_separator() {
    let mut arena = Arena::new();
    let ul = Element::new(&mut arena, "ul", "");
    let li1 = Element::new(&mut arena, "li", "1");
    let li2 = Element::new(&mut arena, "li", "2");
    ul.add(&mut arena, li1);
    ul.add(&mut arena, li2);
    assert_eq!(ul.render(&arena, "\n"), "<ul>\n<li>1</li>\n<li>2</li>\n</ul>");
    assert_eq!(ul.render(&arena, ""), "<ul><li>1</li><li>2</li></ul>");
}

#[test]
fn set_attr_overwrites_in_place_and_escapes() {
    let mut arena = Arena::new();
    let n = Element::new(&mut arena, "a", "");
    n.set_attr(&mut arena, "href", "x");
    n.set_attr(&mut arena, "rel", "next");
    n.set_attr(&mut arena, "href", "a<b");
    assert_eq!(n.render(&arena, ""), "<a href=\"a&lt;b\" rel=\"next\"></a>");
}

#[test]
fn configcnt_respects_raw_mode() {
    let mut arena = Arena::new();
    let n = Element::new(&mut arena, "p", "");
    n.configcnt(&mut arena, "a<b");
    assert_eq!(n.render(&arena, ""), "<p>a&lt;b</p>");
    let n = n.pre(&mut arena, true);
    n.configcnt(&mut arena, "a<b");
    assert_eq!(n.render(&arena, ""), "<p>a<b</p>");
}

#[test]
fn kws_replaces_all_attributes() {
    let mut arena = Arena::new();
    let n = Element::new(&mut arena, "a", "").attrs(&mut arena, &[("id", "x"), ("class", "y")]);
    n.configkws(&mut arena, vec![("target".to_string(), "_self".to_string())]);
    assert_eq!(n.render(&arena, ""), "<a target=\"_self\"></a>");
}

#[test]
fn debug_dump_shows_tag_parent_content_attrs_and_child_count() {
    let mut arena = Arena::new();
    let a = Element::new(&mut arena, "div", "");
    assert_eq!(a.debug_string(&arena), "Element[\"div\"]\n  parent: None\n");
    let b = Element::new(&mut arena, "p", "hi");
    b.set_attr(&mut arena, "id", "m");
    a.add(&mut arena, b.clone());
    assert_eq!(
        b.debug_string(&arena),
        "Element[\"p\"]\n  parent: HAS\n  content: \"hi\"\n  kws: id=\"m\"\n"
    );
    for i in 0..12 {
        let c = Element::new(&mut arena, "i", &i.to_string());
        b.add(&mut arena, c);
    }
    assert_eq!(
        b.debug_string(&arena),
        "Element[\"p\"]\n  parent: HAS\n  content: \"hi\"\n  kws: id=\"m\"\n  children<12>\n"
    );
}
