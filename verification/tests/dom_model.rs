use oxihtml::dom::{
    append_child, detach, ensure_template_contents, insert_before, set_attr, Attr, Namespace,
    NodeData, QualName,
};

fn qname(local: &str) -> QualName {
    QualName {
        ns: Namespace::Html,
        local: local.to_string(),
    }
}

#[test]
fn append_and_insert_before_order_children() {
    let mut doc = oxihtml::dom::Document::new_empty();
    let a = doc.create_element(qname("a"));
    let b = doc.create_element(qname("b"));
    let c = doc.create_element(qname("c"));
    append_child(&mut doc.arena, doc.root, a);
    append_child(&mut doc.arena, doc.root, c);
    insert_before(&mut doc.arena, doc.root, b, Some(c));
    assert_eq!(doc.arena[doc.root].children, vec![a, b, c]);
    assert_eq!(doc.arena[b].parent, Some(doc.root));

    // an absent reference behaves exactly like append
    let d = doc.create_element(qname("d"));
    insert_before(&mut doc.arena, doc.root, d, Some(999));
    assert_eq!(doc.arena[doc.root].children, vec![a, b, c, d]);
    let e = doc.create_element(qname("e"));
    insert_before(&mut doc.arena, doc.root, e, None);
    assert_eq!(doc.arena[doc.root].children, vec![a, b, c, d, e]);
}

#[test]
fn detach_keeps_node_and_descendants() {
    let mut doc = oxihtml::dom::Document::new_empty();
    let a = doc.create_element(qname("a"));
    let b = doc.create_element(qname("b"));
    append_child(&mut doc.arena, doc.root, a);
    append_child(&mut doc.arena, a, b);
    detach(&mut doc.arena, a);
    assert_eq!(doc.arena[doc.root].children, Vec::<usize>::new());
    assert_eq!(doc.arena[a].parent, None);
    // the detached node keeps its own children and stays reattachable
    assert_eq!(doc.arena[a].children, vec![b]);
    append_child(&mut doc.arena, doc.root, a);
    assert_eq!(doc.arena[doc.root].children, vec![a]);
    // detaching an unattached node is a no-op
    let lone = doc.create_text("x".to_string());
    detach(&mut doc.arena, lone);
    assert_eq!(doc.arena[lone].parent, None);
}

#[test]
fn set_attr_overwrites_by_qualified_name_and_keeps_order() {
    let mut doc = oxihtml::dom::Document::new_empty();
    let div = doc.create_element(qname("div"));
    set_attr(
        &mut doc.arena,
        div,
        Attr {
            name: qname("id"),
            value: "one".to_string(),
        },
    );
    set_attr(
        &mut doc.arena,
        div,
        Attr {
            name: qname("class"),
            value: "x".to_string(),
        },
    );
    set_attr(
        &mut doc.arena,
        div,
        Attr {
            name: qname("id"),
            value: "two".to_string(),
        },
    );
    match &doc.arena[div].data {
        NodeData::Element { attrs, .. } => {
            assert_eq!(attrs.len(), 2);
            assert_eq!(attrs[0].name.local, "id");
            assert_eq!(attrs[0].value, "two");
            assert_eq!(attrs[1].name.local, "class");
        }
        _ => panic!("expected element"),
    }
    // a different namespace is a different qualified name
    set_attr(
        &mut doc.arena,
        div,
        Attr {
            name: QualName {
                ns: Namespace::Svg,
                local: "id".to_string(),
            },
            value: "three".to_string(),
        },
    );
    match &doc.arena[div].data {
        NodeData::Element { attrs, .. } => assert_eq!(attrs.len(), 3),
        _ => panic!("expected element"),
    }
    // a non-element is left unchanged
    let t = doc.create_text("x".to_string());
    set_attr(
        &mut doc.arena,
        t,
        Attr {
            name: qname("id"),
            value: "v".to_string(),
        },
    );
    assert!(matches!(doc.arena[t].data, NodeData::Text(_)));
}

#[test]
fn ensure_template_contents_is_idempotent() {
    let mut doc = oxihtml::dom::Document::new_empty();
    let template = doc.create_element(qname("template"));
    let first = ensure_template_contents(&mut doc.arena, template);
    let second = ensure_template_contents(&mut doc.arena, template);
    assert_eq!(first, second);
    assert!(matches!(doc.arena[first].data, NodeData::DocumentFragment));
    // on a non-element the call returns the node's own identity
    let t = doc.create_text("x".to_string());
    assert_eq!(ensure_template_contents(&mut doc.arena, t), t);
}

#[test]
fn fragment_arena_mirrors_document_arena() {
    let mut frag = oxihtml::dom::DocumentFragment::new_empty();
    assert!(matches!(frag.arena[frag.root].data, NodeData::DocumentFragment));
    let e = frag.create_element(qname("span"));
    let t = frag.create_text("hello".to_string());
    let c = frag.create_comment("note".to_string());
    append_child(&mut frag.arena, frag.root, e);
    append_child(&mut frag.arena, e, t);
    append_child(&mut frag.arena, frag.root, c);
    assert_eq!(
        oxihtml::serialize::to_test_format(&frag.arena, frag.root),
        "| <span>\n|   \"hello\"\n| <!-- note -->"
    );
}
