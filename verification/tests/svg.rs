//! SVG document scenarios.
use mlmd_core::strmap::StrMap;
use mlmd_core::svg::{arrow_attrs, attrs, escape_xml, string_less, SvgBuilder, ARROWHEAD_MARKER};

#[test]
fn test_svg_document_tags() {
    let svg = SvgBuilder::new(800, 600);
    let out = svg.to_string();
    assert!(out.contains("<svg"));
    assert!(out.contains("</svg>"));
    assert!(out.contains("xmlns=\"http://www.w3.org/2000/svg\""));
    assert!(out.contains("viewBox"));
}

#[test]
fn test_path() {
    let mut svg = SvgBuilder::new(800, 600);
    svg.path("M 0 0 L 100 100", None);
    let out = svg.to_string();
    assert!(out.contains("<path"));
    assert!(out.contains("M 0 0 L 100 100"));
}

#[test]
fn empty_document_is_exact() {
    let svg = SvgBuilder::new(10, 20);
    let expected = format!(
        "<svg xmlns=\"http://www.w3.org/2000/svg\" viewBox=\"0 0 10 20\" width=\"10\" height=\"20\">\n{}\n\n</svg>",
        ARROWHEAD_MARKER
    );
    assert_eq!(svg.to_string(), expected);
}

#[test]
fn path_with_sorted_escaped_attributes() {
    let mut opts = StrMap::new();
    opts.insert("stroke".to_string(), "blue".to_string());
    opts.insert("data-label".to_string(), "a < b".to_string());
    opts.insert("fill".to_string(), "red".to_string());
    let mut svg = SvgBuilder::new(100, 100);
    svg.path("M0 0", Some(opts));
    let out = svg.to_string();
    assert!(out.contains("<path d=\"M0 0\" data-label=\"a &lt; b\" fill=\"red\" stroke=\"blue\" />"));
}

#[test]
fn group_nesting_renders_ids_and_transforms() {
    let mut svg = SvgBuilder::new(800, 600);
    svg.group("layer1", None, |g| {
        g.path("M 1 1", None);
        g.group("layer2", Some("translate(10,10)"), |g2| {
            g2.path("M 2 2", None);
        });
    });
    let out = svg.to_string();
    assert!(out.contains(
        "<g id=\"layer1\">\n<path d=\"M 1 1\" />\n<g id=\"layer2\" transform=\"translate(10,10)\">\n<path d=\"M 2 2\" />\n</g>\n</g>"
    ));
}

#[test]
fn method_chaining_keeps_order() {
    let mut svg = SvgBuilder::new(5, 5);
    svg.path("A", None).path("B", None);
    let out = svg.to_string();
    let a = out.find("d=\"A\"").unwrap();
    let b = out.find("d=\"B\"").unwrap();
    assert!(a < b);
}

#[test]
fn escape_xml_all_specials() {
    assert_eq!(escape_xml("a<b>&\"c'"), "a&lt;b&gt;&amp;&quot;c&#39;");
    assert_eq!(escape_xml("plain"), "plain");
}

#[test]
fn attrs_none_is_empty() {
    assert_eq!(attrs(None), "");
}

#[test]
fn string_order_is_by_code_point() {
    assert!(string_less("a", "b"));
    assert!(string_less("ab", "abc"));
    assert!(!string_less("abc", "ab"));
    assert!(!string_less("x", "x"));
    assert!(string_less("Z", "a"));
}

#[test]
fn arrow_defaults_fill_missing_names() {
    let mut opts = StrMap::new();
    opts.insert("stroke".to_string(), "red".to_string());
    let m = arrow_attrs(Some(opts));
    assert_eq!(m.get("stroke").unwrap(), "red");
    assert_eq!(m.get("stroke-width").unwrap(), "2");
    assert_eq!(m.get("fill").unwrap(), "none");
    assert_eq!(m.get("marker-end").unwrap(), "url(#arrowhead)");
    assert_eq!(
        attrs(Some(&m)),
        " fill=\"none\" marker-end=\"url(#arrowhead)\" stroke=\"red\" stroke-width=\"2\""
    );
}

#[test]
fn escaped_text_has_no_markup() {
    for s in ["<g id='x'>", "\"quoted\" & 'single'", "a > b < c", "plain"] {
        let e = escape_xml(s);
        assert!(!e.contains('<') && !e.contains('>') && !e.contains('"') && !e.contains('\''));
    }
}
