use csvim::xml::{
    find_attribute, insert_attribute, is_alpha, is_digit, is_name_char, is_start_name_char,
    is_utf8_continuation, is_white_space, parse_attribute, parse_name, parse_raw_text, parse_text,
    Attribute, Component, Document, Loc, Reader, XMLError,
};

fn parse(text: &str) -> Result<Document, XMLError> {
    Document::from_data(text.as_bytes().to_vec())
}

fn element(c: &Component) -> (&str, &Vec<Attribute>, &Vec<Component>) {
    match c {
        Component::Element { name, attributes, children } => (name.as_str(), attributes, children),
        _ => panic!("not an element"),
    }
}

#[test]
fn self_closed_element() {
    let doc = parse("<x/>").unwrap();
    assert_eq!(doc.children.len(), 1);
    let (name, attributes, children) = element(&doc.children[0]);
    assert_eq!(name, "x");
    assert!(attributes.is_empty());
    assert!(children.is_empty());
}

#[test]
fn nested_elements_in_document_order() {
    let doc = parse("<a><b>one</b><c/><b>two</b></a><d></d>").unwrap();
    assert_eq!(doc.children.len(), 2);
    let (name, _, children) = element(&doc.children[0]);
    assert_eq!(name, "a");
    assert_eq!(children.len(), 3);
    assert_eq!(element(&children[0]).0, "b");
    assert_eq!(element(&children[1]).0, "c");
    assert_eq!(element(&children[2]).0, "b");
    assert!(matches!(
        &element(&children[2]).2[0],
        Component::Text { value, is_cdata: false } if value == "two"
    ));
    assert_eq!(element(&doc.children[1]).0, "d");
}

#[test]
fn attributes_with_both_quotes_and_spaces() {
    let doc = parse("<a x = \"1\" y='2'\n z=\"it's\"/>").unwrap();
    let c = &doc.children[0];
    assert_eq!(c.attribute("x").map(|s| s.as_str()), Some("1"));
    assert_eq!(c.attribute("y").map(|s| s.as_str()), Some("2"));
    assert_eq!(c.attribute("z").map(|s| s.as_str()), Some("it's"));
    assert_eq!(c.attribute("w"), None);
}

#[test]
fn the_last_of_two_attributes_with_one_name_wins() {
    let doc = parse("<a k=\"1\" j=\"x\" k=\"2\"/>").unwrap();
    let (_, attributes, _) = element(&doc.children[0]);
    assert_eq!(attributes.len(), 2);
    assert_eq!(doc.children[0].attribute("k").map(|s| s.as_str()), Some("2"));
    assert_eq!(doc.children[0].attribute("j").map(|s| s.as_str()), Some("x"));
}

#[test]
fn entities_in_text_and_attributes() {
    let doc = parse("<a v=\"&lt;&amp;&gt;\">&quot;x&apos; &unknown; &amp</a>").unwrap();
    let c = &doc.children[0];
    assert_eq!(c.attribute("v").map(|s| s.as_str()), Some("<&>"));
    assert_eq!(c.first_text().map(|s| s.as_str()), Some("\"x' &unknown; &amp"));
}

#[test]
fn declaration_with_all_attributes() {
    let doc = parse("<?xml version='1.1' encoding='UTF-16' standalone='no' ?><a/>").unwrap();
    assert!(matches!(
        &doc.children[0],
        Component::Declaration { version, encoding, standalone: false }
            if version == "1.1" && encoding == "UTF-16"
    ));
    let doc = parse("<?xml version=\"1.0\" standalone=\"yes\"?>").unwrap();
    assert!(matches!(
        &doc.children[0],
        Component::Declaration { version, encoding, standalone: true }
            if version == "1.0" && encoding == "UTF-8"
    ));
}

#[test]
fn declaration_that_is_not_accepted() {
    assert!(matches!(
        parse("<?xml ?>"),
        Err(XMLError::Expecting { what: "'version' attribute in xml declation", loc: Loc { line: 1, column: 7 } })
    ));
    assert!(matches!(
        parse("<?xml encoding='x'?>"),
        Err(XMLError::Expecting { what: "'version' attribute in xml declation", loc: Loc { line: 1, column: 7 } })
    ));
    assert!(matches!(
        parse("<?xml version='1' other='x'?>"),
        Err(XMLError::Expecting { what: "'encoding' or 'standalone' attribute in xml declation", .. })
    ));
    assert!(matches!(
        parse("<?xml version='1' encoding='x' version='2'?>"),
        Err(XMLError::Expecting { what: "'standalone' attribute in xml declation", .. })
    ));
    assert!(matches!(
        parse("<?xml version='1' encoding='x' standalone='yes' more='1'?>"),
        Err(XMLError::Invalid { what: "too many attributes in xml declation", .. })
    ));
    assert!(matches!(
        parse("<?xml version='1' standalone='yes' encoding='x'?>"),
        Err(XMLError::Invalid { what: "too many attributes in xml declation", .. })
    ));
    assert!(matches!(
        parse("<?php ?>"),
        Err(XMLError::Invalid { what: "invalid declaration, expecting 'xml'", loc: Loc { line: 1, column: 3 } })
    ));
    assert!(matches!(
        parse("<a/><?xml version='1'?>"),
        Err(XMLError::Invalid { .. })
    ));
    assert!(matches!(
        parse("<?xml version='1'"),
        Err(XMLError::EndOfFile { when: "reading tag and its attributes" })
    ));
}

#[test]
fn comment_cdata_and_section() {
    let doc = parse("<!DOCTYPE a [x]><!-- a < b --><a><![CDATA[<b>&amp;</b>]]></a>").unwrap();
    assert_eq!(doc.children.len(), 3);
    assert!(matches!(&doc.children[0], Component::Other(text) if text == "DOCTYPE a [x]"));
    assert!(matches!(&doc.children[1], Component::Comment(text) if text == " a < b "));
    let (_, _, children) = element(&doc.children[2]);
    assert!(matches!(
        &children[0],
        Component::Text { value, is_cdata: true } if value == "<b>&amp;</b>"
    ));
}

#[test]
fn entities_are_expanded_in_comments_only() {
    let doc = parse("<!ENTITY lt '&lt;'><!--&lt;--><a><![CDATA[&lt;]]>&lt;</a>").unwrap();
    assert!(matches!(&doc.children[0], Component::Other(text) if text == "ENTITY lt '&lt;'"));
    assert!(matches!(&doc.children[1], Component::Comment(text) if text == "<"));
    let (_, _, children) = element(&doc.children[2]);
    assert!(matches!(&children[0], Component::Text { value, is_cdata: true } if value == "&lt;"));
    assert!(matches!(&children[1], Component::Text { value, is_cdata: false } if value == "<"));
    assert!(matches!(
        parse("<![CDATA[ never closed ]]"),
        Err(XMLError::EndOfFile { when: "parsing a text the marker was not found" })
    ));
    assert!(matches!(
        Document::from_data(b"<!\xff>".to_vec()),
        Err(XMLError::Invalid { what: "a text that is not UTF-8", loc: Loc { line: 1, column: 4 } })
    ));
}

#[test]
fn white_space_between_components() {
    let doc = parse("  \n<a>\n  <b/>  text \n</a>\n\n").unwrap();
    assert_eq!(doc.children.len(), 1);
    let (_, _, children) = element(&doc.children[0]);
    assert_eq!(children.len(), 2);
    assert!(matches!(
        &children[1],
        Component::Text { value, is_cdata: false } if value == "text \n"
    ));
    assert_eq!(parse("").unwrap().children.len(), 0);
    assert_eq!(parse(" \n\t").unwrap().children.len(), 0);
}

#[test]
fn names() {
    let doc = parse("<ns:a-b.c_1 x:y='1'/><_z9/><\u{e9}l\u{e9}ment/>").unwrap();
    assert_eq!(element(&doc.children[0]).0, "ns:a-b.c_1");
    assert_eq!(doc.children[0].attribute("x:y").map(|s| s.as_str()), Some("1"));
    assert_eq!(element(&doc.children[1]).0, "_z9");
    assert_eq!(element(&doc.children[2]).0, "\u{e9}l\u{e9}ment");
}

#[test]
fn end_tag_must_match_the_open_element() {
    assert!(matches!(
        parse("<a>\n  <b></a>"),
        Err(XMLError::Invalid { what: "unmatched tag end", loc: Loc { line: 2, column: 6 } })
    ));
    assert!(matches!(
        parse("</a>"),
        Err(XMLError::Invalid { what: "unexpected tag end found", loc: Loc { line: 1, column: 1 } })
    ));
    assert!(matches!(
        parse("<a></a></a>"),
        Err(XMLError::Invalid { what: "unexpected tag end found", .. })
    ));
    assert!(parse("<a><b></b ></a >").is_ok());
}

#[test]
fn element_that_is_not_closed() {
    assert!(matches!(
        parse("<a>"),
        Err(XMLError::EndOfFile { when: "reading an element that was not closed" })
    ));
    assert!(matches!(
        parse("<a><b/>"),
        Err(XMLError::EndOfFile { when: "reading an element that was not closed" })
    ));
    assert!(matches!(
        parse("<a> text"),
        Err(XMLError::EndOfFile { when: "parsing a text the marker was not found" })
    ));
    assert!(matches!(
        parse("<a>  "),
        Err(XMLError::EndOfFile { when: "parsing a text the marker was not found" })
    ));
}

#[test]
fn text_outside_of_an_element() {
    assert!(matches!(
        parse("<a/>\n text"),
        Err(XMLError::Invalid { what: "text outside of an element", loc: Loc { line: 2, column: 2 } })
    ));
    assert!(matches!(parse("text"), Err(XMLError::Invalid { .. })));
}

#[test]
fn tags_that_are_not_accepted() {
    assert!(matches!(
        parse("<a"),
        Err(XMLError::EndOfFile { when: "reading tag closing or its attributes" })
    ));
    assert!(matches!(parse("<"), Err(XMLError::EndOfFile { when: "parsing a name" })));
    assert!(matches!(
        parse("<1a/>"),
        Err(XMLError::Expecting { what: "':', '_', or a letter", loc: Loc { line: 1, column: 3 } })
    ));
    assert!(matches!(
        parse("<a b/>"),
        Err(XMLError::Expecting { what: "'='", loc: Loc { line: 1, column: 5 } })
    ));
    assert!(matches!(
        parse("<a b=1/>"),
        Err(XMLError::Expecting { what: "'\"' or `'`", loc: Loc { line: 1, column: 7 } })
    ));
    assert!(matches!(parse("<a b="), Err(XMLError::EndOfFile { when: "parsing an attribute" })));
    assert!(matches!(
        parse("<a b='1"),
        Err(XMLError::EndOfFile { when: "parsing a text the marker was not found" })
    ));
    assert!(matches!(parse("<a></a"), Err(XMLError::EndOfFile { when: "reading a closing tag" })));
    assert!(matches!(
        parse("<a></a b>"),
        Err(XMLError::Expecting { what: "'>' to be closing the tag end", loc: Loc { line: 1, column: 8 } })
    ));
    assert!(matches!(
        parse("<!-- never closed"),
        Err(XMLError::EndOfFile { when: "parsing a text the marker was not found" })
    ));
}

#[test]
fn text_that_is_not_utf8() {
    assert!(matches!(
        Document::from_data(b"<a>\xff</a>".to_vec()),
        Err(XMLError::Invalid { what: "a text that is not UTF-8", loc: Loc { line: 1, column: 5 } })
    ));
    assert!(matches!(
        Document::from_data(b"<\xff/>".to_vec()),
        Err(XMLError::Invalid { what: "a name that is not UTF-8", .. })
    ));
}

#[test]
fn queries_on_components() {
    let doc = parse("<a><b n='1'/>text<c/><b n='2'/>more</a>").unwrap();
    let a = &doc.children[0];
    assert!(a.is_element_named("a"));
    assert!(!a.is_element_named("b"));
    assert_eq!(a.children().unwrap().len(), 5);
    assert_eq!(a.children_unchecked().len(), 5);
    let found = a.filter_elements("b");
    assert_eq!(found.len(), 2);
    assert_eq!(found[0].attribute("n").map(|s| s.as_str()), Some("1"));
    assert_eq!(found[1].attribute("n").map(|s| s.as_str()), Some("2"));
    assert!(a.filter_elements("x").is_empty());
    assert_eq!(a.find_element("b").unwrap().attribute("n").map(|s| s.as_str()), Some("1"));
    assert!(a.find_element("c").unwrap().is_element_named("c"));
    assert!(a.find_element("x").is_none());
    assert_eq!(a.first_text().map(|s| s.as_str()), Some("text"));
    let text = &a.children().unwrap()[1];
    assert!(text.children().is_none());
    assert!(text.filter_elements("b").is_empty());
    assert!(text.find_element("b").is_none());
    assert!(text.first_text().is_none());
    assert!(text.attribute("n").is_none());
    assert!(!text.is_element_named("text"));
}

#[test]
fn reader_counts_lines_and_columns() {
    let mut reader = Reader::new(b"ab\n c".to_vec());
    assert_eq!(reader.get_loc(), Loc { line: 1, column: 1 });
    assert_eq!(reader.peek_byte(), b'a');
    assert_eq!(reader.peek_2bytes(), (b'a', b'b'));
    assert_eq!(reader.read_byte(), b'a');
    assert!(reader.sequece_match(b"b\n"));
    assert!(!reader.sequece_match(b"b\n cd"));
    assert!(reader.sequece_match(b""));
    reader.raw_advance_n(1);
    assert_eq!(reader.get_loc(), Loc { line: 1, column: 3 });
    reader.skip_white_spaces();
    assert_eq!(reader.get_loc(), Loc { line: 2, column: 2 });
    assert_eq!(reader.peek_2bytes(), (b'c', 0));
    assert!(!reader.eob());
    reader.advance();
    assert!(reader.eob());
    assert_eq!(reader.peek_2bytes(), (0, 0));
    reader.skip_white_spaces();
    assert_eq!(reader.get_loc(), Loc { line: 2, column: 3 });
}

#[test]
fn parsing_a_name_a_text_and_an_attribute() {
    let mut reader = Reader::new(b"name rest".to_vec());
    assert_eq!(parse_name(&mut reader).unwrap(), "name");
    assert_eq!(reader.get_loc(), Loc { line: 1, column: 5 });
    let mut reader = Reader::new(b"a &lt; b]]>".to_vec());
    assert_eq!(parse_text(&mut reader, b"]]>").unwrap(), "a < b");
    assert!(reader.sequece_match(b"]]>"));
    let mut reader = Reader::new(b"a &lt; b]]>".to_vec());
    assert_eq!(parse_raw_text(&mut reader, b"]]>").unwrap(), "a &lt; b");
    assert!(reader.sequece_match(b"]]>"));
    let mut reader = Reader::new(b"text".to_vec());
    assert!(matches!(
        parse_text(&mut reader, b""),
        Err(XMLError::EndOfFile { when: "parsing a text" })
    ));
    assert!(matches!(
        parse_raw_text(&mut reader, b""),
        Err(XMLError::EndOfFile { when: "parsing a text" })
    ));
    let mut reader = Reader::new(b"k = 'v' ".to_vec());
    assert_eq!(parse_attribute(&mut reader).unwrap(), ("k".to_string(), "v".to_string()));
    assert_eq!(reader.get_loc(), Loc { line: 1, column: 8 });
}

#[test]
fn classes_of_bytes() {
    assert!(is_white_space(b' ') && is_white_space(b'\n') && is_white_space(b'\t'));
    assert!(is_white_space(b'\r') && is_white_space(0x0b) && is_white_space(0x0c));
    assert!(!is_white_space(b'a') && !is_white_space(0xa0));
    assert!(is_alpha(b'a') && is_alpha(b'Z') && !is_alpha(b'1') && !is_alpha(b'['));
    assert!(is_digit(b'0') && is_digit(b'9') && !is_digit(b'a') && !is_digit(b':'));
    assert!(is_utf8_continuation(0x80) && is_utf8_continuation(0xff) && !is_utf8_continuation(0x7f));
    assert!(is_start_name_char(b':') && is_start_name_char(b'_') && is_start_name_char(0x80));
    assert!(!is_start_name_char(b'9') && !is_start_name_char(b'-'));
    assert!(is_name_char(b'9') && is_name_char(b'-') && is_name_char(b'.') && !is_name_char(b'>'));
}

#[test]
fn attribute_lists() {
    let mut attributes = vec![Attribute::new("a".to_string(), "1".to_string())];
    insert_attribute(&mut attributes, "b".to_string(), "2".to_string());
    insert_attribute(&mut attributes, "a".to_string(), "3".to_string());
    assert_eq!(attributes.len(), 2);
    assert_eq!(find_attribute(&attributes, "a"), Some(0));
    assert_eq!(find_attribute(&attributes, "b"), Some(1));
    assert_eq!(find_attribute(&attributes, "c"), None);
    assert_eq!(attributes[0].value, "3");
}

#[test]
fn adding_components_by_hand() {
    let mut doc = Document { children: Vec::new() };
    let mut stack = Vec::new();
    let open = |name: &str| Component::Element {
        name: name.to_string(),
        attributes: Vec::new(),
        children: Vec::new(),
    };
    doc.add_component(open("a"), true, &mut stack).unwrap();
    doc.add_component(Component::Comment("c".to_string()), true, &mut stack).unwrap();
    doc.add_component(open("b"), false, &mut stack).unwrap();
    assert_eq!(stack.len(), 1);
    assert_eq!(doc.children.len(), 0);
    assert!(matches!(
        doc.close_element(&"x".to_string(), Loc { line: 1, column: 1 }, &mut stack),
        Err(XMLError::Invalid { what: "unmatched tag end", .. })
    ));
    let mut stack = vec![open("a")];
    doc.close_element(&"a".to_string(), Loc { line: 1, column: 1 }, &mut stack).unwrap();
    assert_eq!(stack.len(), 0);
    assert_eq!(doc.children.len(), 1);
    let mut stack = vec![Component::Comment("c".to_string())];
    assert!(matches!(
        doc.add_component(open("b"), false, &mut stack),
        Err(XMLError::InternalError { .. })
    ));
}

#[test]
fn errors_in_words() {
    let e = parse("<a b/>").unwrap_err();
    assert_eq!(e.message(), "1:5: expecting '='");
    let e = parse("<a>\n  <b></a>").unwrap_err();
    assert_eq!(e.message(), "2:6: invalid xml when unmatched tag end");
    let e = parse("<a").unwrap_err();
    assert_eq!(e.message(), "end of file when reading tag closing or its attributes");
    let e = XMLError::InternalError { what: "component in stack is not an element!" };
    assert_eq!(e.message(), "component in stack is not an element!");
    assert_eq!(Loc { line: 12, column: 345 }.message(), "12:345");
}
