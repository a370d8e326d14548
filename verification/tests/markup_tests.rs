use literobo::description::{parse_description, read_kind};
use literobo::joint::JointKind;
use literobo::markup::{find_attribute, read_tag, read_tags, read_value, skip_attributes, Span, Tag, TagKind};
use literobo::scan::{bytes_eq, find_word, has_word_at, skip_run, ByteClass};
use literobo::ParseError;

fn name(text: &str, tag: &Tag) -> String {
    text[tag.name.start..tag.name.end].to_string()
}

#[test]
fn tags_are_read_in_order() {
    let text = "<a x='1'><b/>text<c y=\"2\" z=\"3\"></c ></a>";
    let tags = read_tags(text.as_bytes()).unwrap();
    let seen: Vec<(TagKind, String)> = tags.iter().map(|t| (t.kind, name(text, t))).collect();
    assert_eq!(
        seen,
        vec![
            (TagKind::Open, "a".to_string()),
            (TagKind::Empty, "b".to_string()),
            (TagKind::Open, "c".to_string()),
            (TagKind::Close, "c".to_string()),
            (TagKind::Close, "a".to_string()),
        ]
    );
    assert_eq!(tags[0].name, Span { start: 1, end: 2 });
    assert_eq!(tags[4].name, Span { start: 39, end: 40 });
}

#[test]
fn comments_instructions_and_declarations_are_passed_over() {
    let text = "<?xml version=\"1.0\"?><!DOCTYPE r><!-- <x> --><r><!----><?pi <y>?></r>";
    let tags = read_tags(text.as_bytes()).unwrap();
    assert_eq!(tags.len(), 2);
    assert_eq!(name(text, &tags[0]), "r");
    assert_eq!(tags[1].kind, TagKind::Close);
}

#[test]
fn text_without_tags_has_none() {
    assert_eq!(read_tags(b"").unwrap().len(), 0);
    assert_eq!(read_tags(b"no markup > here").unwrap().len(), 0);
}

#[test]
fn broken_tags_are_refused() {
    for text in ["<", "<>", "< a>", "</>", "</a b>", "<a", "<a b>", "<a b=>", "<a b=\"1>", "<a b='1\">",
        "<a b=\"<\">", "<a/ >", "<!-- a", "<?a", "<!a", "<a b = '1'c='2'>"]
    {
        assert!(read_tags(text.as_bytes()).is_none(), "{}", text);
    }
}

#[test]
fn attribute_values_are_found_by_name() {
    let text = "<joint name = \"j1\"\n\ttype='fixed' xmlns:x=\"http://a/b>c\" name=\"again\"/>";
    let tags = read_tags(text.as_bytes()).unwrap();
    let tag = &tags[0];
    assert_eq!(tag.attribute_in(text.as_bytes(), b"name"), Some(&b"j1"[..]));
    assert_eq!(tag.attribute_in(text.as_bytes(), b"type"), Some(&b"fixed"[..]));
    assert_eq!(tag.attribute_in(text.as_bytes(), b"xmlns:x"), Some(&b"http://a/b>c"[..]));
    assert_eq!(tag.attribute_in(text.as_bytes(), b"typ"), None);
    assert_eq!(tag.attribute_in(text.as_bytes(), b""), None);
}

#[test]
fn attributes_are_read_from_a_position() {
    let text = b"<a b=\"1\" c='' >";
    assert_eq!(read_value(text, 4), Some((6, 7)));
    assert_eq!(read_value(text, 10), Some((12, 12)));
    assert_eq!(read_value(text, 2), None);
    assert_eq!(read_value(text, 99), None);
    assert_eq!(skip_attributes(text, 2), Some(14));
    assert_eq!(skip_attributes(text, 14), Some(14));
    assert_eq!(skip_attributes(text, 99), None);
    assert_eq!(find_attribute(text, 2, b"c"), Some(Span { start: 12, end: 12 }));
    assert_eq!(find_attribute(text, 2, b"d"), None);
    assert_eq!(find_attribute(text, 99, b"b"), None);
}

#[test]
fn single_tags_are_read_at_a_position() {
    let text = b"x<a/><b c=\"d\"></b>";
    assert_eq!(
        read_tag(text, 1),
        Some((Tag { kind: TagKind::Empty, name: Span { start: 2, end: 3 } }, 5))
    );
    assert_eq!(
        read_tag(text, 5),
        Some((Tag { kind: TagKind::Open, name: Span { start: 6, end: 7 } }, 14))
    );
    assert_eq!(
        read_tag(text, 14),
        Some((Tag { kind: TagKind::Close, name: Span { start: 16, end: 17 } }, 18))
    );
    assert_eq!(read_tag(text, 18), None);
    assert_eq!(read_tag(text, 99), None);
}

#[test]
fn runs_end_at_the_first_byte_of_another_class() {
    let text = b"  \t\nabc-1.x y<z";
    assert_eq!(skip_run(text, 0, ByteClass::Space), 4);
    assert_eq!(skip_run(text, 4, ByteClass::Space), 4);
    assert_eq!(skip_run(text, 4, ByteClass::Name), 11);
    assert_eq!(skip_run(text, 4, ByteClass::Token), 11);
    assert_eq!(skip_run(text, 8, ByteClass::Digit), 9);
    assert_eq!(skip_run(text, 0, ByteClass::Text), 13);
    assert_eq!(skip_run(text, 13, ByteClass::Text), 13);
    assert_eq!(skip_run(text, 0, ByteClass::Declaration), 15);
    assert_eq!(skip_run(text, 15, ByteClass::Space), 15);
    assert_eq!(skip_run(text, 20, ByteClass::Space), 20);
    assert_eq!(skip_run(b"a\"b'c<", 0, ByteClass::DoubleQuoted), 1);
    assert_eq!(skip_run(b"a\"b'c<", 0, ByteClass::SingleQuoted), 3);
    assert_eq!(skip_run(b"a\"b'c<", 4, ByteClass::SingleQuoted), 5);
}

#[test]
fn byte_classes_hold_what_they_say() {
    for b in [b'a', b'Z', b'0', b'9', b'_', b':', b'-', b'.', 0x80, 0xff] {
        assert!(ByteClass::Name.holds(b), "{}", b);
    }
    for b in [b' ', b'<', b'>', b'/', b'=', b'"', b'\'', b'!', b'?', b'@', b'[', b'`', b'{', 0] {
        assert!(!ByteClass::Name.holds(b), "{}", b);
    }
    for b in [b' ', b'\t', b'\n', b'\r'] {
        assert!(ByteClass::Space.holds(b));
        assert!(!ByteClass::Token.holds(b));
    }
    assert!(!ByteClass::Space.holds(0x0b));
    assert!(!ByteClass::Digit.holds(b'/'));
    assert!(!ByteClass::Digit.holds(b':'));
}

#[test]
fn words_are_found_where_they_stand() {
    let text = b"ab-->cd-->";
    assert_eq!(find_word(text, 0, b"-->"), 2);
    assert_eq!(find_word(text, 2, b"-->"), 2);
    assert_eq!(find_word(text, 3, b"-->"), 7);
    assert_eq!(find_word(text, 8, b"-->"), 10);
    assert_eq!(find_word(text, 0, b"x"), 10);
    assert_eq!(find_word(text, 50, b"-"), 10);
    assert!(has_word_at(text, 2, b"-->"));
    assert!(!has_word_at(text, 3, b"-->"));
    assert!(!has_word_at(text, 8, b"-->"));
    assert!(!has_word_at(text, 50, b"a"));
    assert!(has_word_at(text, 10, b""));
    assert!(bytes_eq(b"abc", b"abc"));
    assert!(!bytes_eq(b"abc", b"abd"));
    assert!(!bytes_eq(b"abc", b"ab"));
    assert!(bytes_eq(b"", b""));
}

#[test]
fn joint_types_are_read_by_their_names() {
    assert_eq!(read_kind(b"fixed"), Some(JointKind::Fixed));
    assert_eq!(read_kind(b"revolute"), Some(JointKind::Revolute));
    assert_eq!(read_kind(b"continuous"), Some(JointKind::Continuous));
    assert_eq!(read_kind(b"prismatic"), Some(JointKind::Prismatic));
    assert_eq!(read_kind(b"planar"), None);
    assert_eq!(read_kind(b"floating"), None);
    assert_eq!(read_kind(b"Fixed"), None);
    assert_eq!(read_kind(b""), None);
}

#[test]
fn descriptions_from_tools_are_read() {
    let text = "\u{feff}<?xml version=\"1.0\" encoding=\"utf-8\"?>\r\n\
        <robot name=\"r\" xmlns:xacro=\"http://www.ros.org/wiki/xacro\">\r\n\
        <material name=\"blue\"><color rgba=\"0 0 1 1\"/></material>\r\n\
        <!-- <link name=\"ghost\"/> -->\r\n\
        <link\tname=\"a\" />\r\n\
        <link name=\"b\"><inertial><mass value=\"1\"/></inertial></link >\r\n\
        <joint type=\"revolute\" name=\"j\">\r\n\
          <axis xyz=\"0 -1.0 0\" /><child link=\"b\" /><parent link=\"a\" />\r\n\
          <dynamics damping=\"0.1\"/>\r\n\
        </joint>\r\n\
        <gazebo reference=\"b\"><material>Gazebo/Blue</material></gazebo>\r\n\
        </robot>\r\n";
    let m = parse_description(text.as_bytes()).unwrap();
    assert_eq!(m.links().len(), 2);
    assert_eq!(m.joints().len(), 1);
    assert_eq!(m.joints()[0].axis.y, b"-1.0".to_vec());
    assert_eq!((m.joints()[0].parent, m.joints()[0].child), (0, 1));
}

#[test]
fn elements_of_a_joint_are_its_own() {
    // The parent of the second joint does not serve the first.
    let text = r#"<robot><link name="a"/><link name="b"/>
        <joint name="j" type="fixed"><child link="b"/></joint>
        <joint name="k" type="fixed"><parent link="a"/><child link="b"/></joint></robot>"#;
    assert_eq!(parse_description(text.as_bytes()).err(), Some(ParseError::MissingAttribute));
    // Nor does an element nested deeper within the joint.
    let text = r#"<robot><link name="a"/><link name="b"/>
        <joint name="j" type="fixed"><x><parent link="a"/></x><child link="b"/></joint></robot>"#;
    assert_eq!(parse_description(text.as_bytes()).err(), Some(ParseError::MissingAttribute));
}

#[test]
fn first_error_in_the_text_is_reported() {
    // The link without name comes before the joint of unsupported type.
    let text = r#"<robot><joint name="j" type="ball"/><link/></robot>"#;
    assert_eq!(parse_description(text.as_bytes()).err(), Some(ParseError::MissingAttribute));
    // Of two joints the first decides.
    let text = r#"<robot><link name="a"/><link name="b"/>
        <joint name="j" type="ball"><parent link="a"/><child link="b"/></joint>
        <joint name="k" type="fixed"><parent link="a"/><child link="zz"/></joint></robot>"#;
    assert_eq!(parse_description(text.as_bytes()).err(), Some(ParseError::UnsupportedJointType));
}
