use htmlbuilder::tree::Arena;
use htmlbuilder::tree::Element;

#[test]
fn it_works() {
    let mut arena = Arena::new();
    let root = Element::new(&mut arena, "html", "");

    let title = Element::new(&mut arena, "title", "My Page");
    let meta = Element::new(&mut arena, "meta", "").kws(
        &mut arena,
        vec![("charset".to_string(), "utf-8".to_string())],
    );
    let head = Element::new(&mut arena, "head", "")
        .add_with(&mut arena, title)
        .add_with(&mut arena, meta);
    root.add(&mut arena, head);

    let body = Element::new(&mut arena, "body", "");
    root.add(&mut arena, body.clone());

    let div = Element::new(&mut arena, "div", "");
    body.add(&mut arena, div.clone());
    div.set_attrs(&mut arena, &[("id", "main"), ("class", "container<>")]);
    div.configcnt(&mut arena, "&<html><div>content内容&");

    if let Some(parent) = div.parent(&arena) {
        println!("{}", parent.render(&arena, "\n"));
    }

    let h1 = Element::new(&mut arena, "h1", "rusthtmlbuilder");
    div.add(&mut arena, h1);

    let ul = Element::new(&mut arena, "ul", "");
    div.add(&mut arena, ul.clone());

    for i in 0..10 {
        let li = Element::new(&mut arena, "li", &i.to_string());
        ul.add(&mut arena, li);
    }

    {
        let children_count = ul.children(&arena).len();
        if children_count >= 2 {
            ul.remove_child(&mut arena, children_count - 2);
        }
    }

    let text = Element::new(&mut arena, "", "content内容，只要标签名为空即可");
    div.add(&mut arena, text);

    let result = root.render(&arena, "\n");
    println!("{}", result);
}

#[test]
fn test_eq() {
    let mut arena = Arena::new();
    let a = Element::new(&mut arena, "div", "");
    let b = Element::new(&mut arena, "div", "");
    assert_ne!(a, b);

    let a = Element::new(&mut arena, "div", "");
    let b = a.clone();
    assert_eq!(a, b);
}

#[test]
fn test_debug() {
    let mut arena = Arena::new();
    let a = Element::new(&mut arena, "div", "");
    println!("{}", a.debug_string(&arena));

    let b = Element::new(&mut arena, "div", "content");
    b.set_attr(&mut arena, "id", "main");
    a.add(&mut arena, b.clone());
    println!("{}", a.debug_string(&arena));

    let c = Element::new(&mut arena, "ul", "");
    for i in 0..10 {
        let li = Element::new(&mut arena, "li", &i.to_string());
        c.add(&mut arena, li);
    }
    b.add(&mut arena, c.clone());
    println!("{}", b.debug_string(&arena));
    println!("{}", c.debug_string(&arena));

    println!("{}", a.render(&arena, "\n"));
}

#[test]
fn test_attrs() {
    let mut arena = Arena::new();
    let a = Element::new(&mut arena, "a", "content").attrs(
        &mut arena,
        &[("id", "main"), ("class", "test")],
    );
    println!("{}", a.debug_string(&arena));
    a.set_attrs(
        &mut arena,
        &[("href", "https://www.rust-lang.org/"), ("target", "_blank")],
    );
    println!("{}", a.debug_string(&arena));
    a.configkws(
        &mut arena,
        vec![
            ("href".to_string(), "https://www.rust-lang.org/zh-CN/".to_string()),
            ("target".to_string(), "_self".to_string()),
        ],
    );
    println!("{}", a.debug_string(&arena));
}

#[test]
fn test_delete() {
    let mut arena = Arena::new();
    let a = Element::new(&mut arena, "div", "");
    let b = Element::new(&mut arena, "div", "");
    let c = Element::new(&mut arena, "div", "");
    a.add(&mut arena, b.clone());
    a.add(&mut arena, c.clone());
    assert_eq!(a.children(&arena).len(), 2);
    assert_eq!(a.remove_child(&mut arena, 1), Some(c.clone()));
    assert_eq!(a.children(&arena).len(), 1);
    assert_eq!(a.remove_child(&mut arena, 0), Some(b.clone()));
    assert_eq!(a.children(&arena).len(), 0);
    assert_eq!(a.remove_child(&mut arena, 0), None);
    a.add(&mut arena, b.clone());
    a.add(&mut arena, c.clone());
    assert_eq!(a.remove_child_by_ref(&mut arena, &b), true);
    assert_eq!(a.remove_child_by_ref(&mut arena, &b), false);
    a.remove_all_children(&mut arena);
    assert_eq!(a.children(&arena).len(), 0);
}

#[test]
fn attach_sets_parent_and_order() {
    let mut arena = Arena::new();
    let p = Element::new(&mut arena, "div", "");
    let x = Element::new(&mut arena, "span", "");
    let y = Element::new(&mut arena, "em", "");
    assert!(p.add(&mut arena, x));
    assert!(p.add(&mut arena, y));
    assert_eq!(x.parent(&arena), Some(p));
    assert_eq!(y.parent(&arena), Some(p));
    assert_eq!(p.children(&arena), vec![x, y]);
}

#[test]
fn attach_rejects_second_parent() {
    let mut arena = Arena::new();
    let p1 = Element::new(&mut arena, "div", "");
    let p2 = Element::new(&mut arena, "div", "");
    let x = Element::new(&mut arena, "span", "");
    assert!(p1.add(&mut arena, x));
    assert!(!p2.add(&mut arena, x));
    assert_eq!(x.parent(&arena), Some(p1));
    assert_eq!(p2.children(&arena).len(), 0);
}

#[test]
fn attach_rejects_cycles() {
    let mut arena = Arena::new();
    let a = Element::new(&mut arena, "a", "");
    let b = Element::new(&mut arena, "b", "");
    let c = Element::new(&mut arena, "c", "");
    assert!(!a.add(&mut arena, a), "a node cannot be its own child");
    assert!(a.add(&mut arena, b));
    assert!(b.add(&mut arena, c));
    assert!(!c.add(&mut arena, a), "an ancestor cannot become a descendant");
    assert_eq!(a.parent(&arena), None);
}

#[test]
fn detach_then_reattach() {
    let mut arena = Arena::new();
    let p1 = Element::new(&mut arena, "div", "");
    let p2 = Element::new(&mut arena, "div", "");
    let x = Element::new(&mut arena, "span", "");
    assert!(p1.add(&mut arena, x));
    assert!(p1.remove_child_by_ref(&mut arena, &x));
    assert_eq!(x.parent(&arena), None);
    assert!(p2.add(&mut arena, x));
    assert_eq!(x.parent(&arena), Some(p2));
}
