use oxihtml::dom::{
    append_child, ensure_template_contents, set_attr, Attr, Doctype, Namespace, NodeData, QualName,
};
use oxihtml::serialize::{normalize_tree_text, to_test_format};

fn qname(ns: Namespace, local: &str) -> QualName {
    QualName {
        ns,
        local: local.to_string(),
    }
}

#[test]
fn test_format_serializes_doctype() {
    let mut doc = oxihtml::dom::Document::new_empty();
    let dt = doc.create_doctype(Doctype {
        name: "html".to_string(),
        public_id: String::new(),
        system_id: String::new(),
    });
    append_child(&mut doc.arena, doc.root, dt);
    assert_eq!(to_test_format(&doc.arena, doc.root), "| <!DOCTYPE html>");
}

#[test]
fn test_format_serializes_doctype_with_public_and_system_ids() {
    let mut doc = oxihtml::dom::Document::new_empty();
    let dt = doc.create_doctype(Doctype {
        name: "html".to_string(),
        public_id: "pub".to_string(),
        system_id: "sys".to_string(),
    });
    append_child(&mut doc.arena, doc.root, dt);
    assert_eq!(
        to_test_format(&doc.arena, doc.root),
        "| <!DOCTYPE html \"pub\" \"sys\">"
    );
}

#[test]
fn test_format_serializes_template_contents() {
    let mut doc = oxihtml::dom::Document::new_empty();
    let template = doc.create_element(qname(Namespace::Html, "template"));
    append_child(&mut doc.arena, doc.root, template);

    let contents = ensure_template_contents(&mut doc.arena, template);
    assert!(matches!(doc.arena[contents].data, NodeData::DocumentFragment));

    let p = doc.create_element(qname(Namespace::Html, "p"));
    let text = doc.create_text("hi".to_string());
    append_child(&mut doc.arena, p, text);
    append_child(&mut doc.arena, contents, p);

    assert_eq!(
        to_test_format(&doc.arena, doc.root),
        "| <template>\n|   content\n|     <p>\n|       \"hi\""
    );
}

#[test]
fn test_format_sorts_attributes_deterministically() {
    let mut doc = oxihtml::dom::Document::new_empty();
    let div = doc.create_element(qname(Namespace::Html, "div"));
    append_child(&mut doc.arena, doc.root, div);

    set_attr(
        &mut doc.arena,
        div,
        Attr {
            name: qname(Namespace::Html, "b"),
            value: "2".to_string(),
        },
    );
    set_attr(
        &mut doc.arena,
        div,
        Attr {
            name: qname(Namespace::Html, "a"),
            value: "1".to_string(),
        },
    );

    assert_eq!(
        to_test_format(&doc.arena, doc.root),
        "| <div>\n|   a=\"1\"\n|   b=\"2\""
    );
}

#[test]
fn test_format_template_without_contents_serializes_children() {
    let mut doc = oxihtml::dom::Document::new_empty();
    let template = doc.create_element(qname(Namespace::Html, "template"));
    append_child(&mut doc.arena, doc.root, template);
    let p = doc.create_element(qname(Namespace::Html, "p"));
    append_child(&mut doc.arena, template, p);

    let out = to_test_format(&doc.arena, doc.root);
    assert_eq!(out, "| <template>\n|   <p>");
    assert!(!out.contains("content"));
}

#[test]
fn test_format_attribute_order_is_utf16_code_unit_order() {
    // mixed scripts: 'b' < 'a' fails byte order, and the astral-plane
    // name sorts by its surrogate pair, after the BMP code points
    let mut doc = oxihtml::dom::Document::new_empty();
    let div = doc.create_element(qname(Namespace::Html, "div"));
    append_child(&mut doc.arena, doc.root, div);
    for (name, value) in [("b", "2"), ("a", "1"), ("B", "3"), ("\u{FF21}", "4"), ("\u{1F600}", "5")] {
        set_attr(
            &mut doc.arena,
            div,
            Attr {
                name: qname(Namespace::Html, name),
                value: value.to_string(),
            },
        );
    }
    // UTF-16 order: the astral-plane name sorts by its high surrogate
    // (0xD83D), before U+FF21 — code-point order would say otherwise
    assert_eq!(
        to_test_format(&doc.arena, doc.root),
        "| <div>\n|   B=\"3\"\n|   a=\"1\"\n|   b=\"2\"\n|   \u{1F600}=\"5\"\n|   \u{FF21}=\"4\""
    );
}

#[test]
fn test_format_namespace_prefixes_and_other() {
    let mut doc = oxihtml::dom::Document::new_empty();
    let svg = doc.create_element(qname(Namespace::Svg, "svg"));
    append_child(&mut doc.arena, doc.root, svg);
    let math = doc.create_element(qname(Namespace::MathMl, "mi"));
    append_child(&mut doc.arena, doc.root, math);
    let xlink = doc.create_element(qname(Namespace::Other("xlink".to_string()), "href"));
    append_child(&mut doc.arena, doc.root, xlink);
    let plain = doc.create_element(qname(Namespace::Other("zzz".to_string()), "thing"));
    append_child(&mut doc.arena, doc.root, plain);

    assert_eq!(
        to_test_format(&doc.arena, doc.root),
        "| <svg svg>\n| <math mi>\n| <xlink href>\n| <thing>"
    );
}

#[test]
fn test_format_comment_and_text() {
    let mut doc = oxihtml::dom::Document::new_empty();
    let c = doc.create_comment("note".to_string());
    append_child(&mut doc.arena, doc.root, c);
    let t = doc.create_text("words".to_string());
    append_child(&mut doc.arena, doc.root, t);
    assert_eq!(
        to_test_format(&doc.arena, doc.root),
        "| <!-- note -->\n| \"words\""
    );
}

#[test]
fn normalize_tree_text_strips_blank_edges_and_trailing_spaces() {
    assert_eq!(normalize_tree_text("\n\n| <a>  \n|   x\t\n\n"), "| <a>\n|   x");
    assert_eq!(normalize_tree_text("   "), "");
    assert_eq!(normalize_tree_text("one"), "one");
    assert_eq!(normalize_tree_text("a\r\nb"), "a\nb");
}

#[test]
fn test_format_template_with_attributes_and_no_contents() {
    let mut doc = oxihtml::dom::Document::new_empty();
    let template = doc.create_element(qname(Namespace::Html, "template"));
    append_child(&mut doc.arena, doc.root, template);
    set_attr(
        &mut doc.arena,
        template,
        Attr {
            name: qname(Namespace::Html, "b"),
            value: "2".to_string(),
        },
    );
    set_attr(
        &mut doc.arena,
        template,
        Attr {
            name: qname(Namespace::Html, "a"),
            value: "1".to_string(),
        },
    );
    assert_eq!(
        to_test_format(&doc.arena, doc.root),
        "| <template>\n|   a=\"1\"\n|   b=\"2\""
    );
}
