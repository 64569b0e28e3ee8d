use xpath::errors::ParseError;
use xpath::node::{AttributeValue, Node, Operator, Predicate};
use xpath::xpath::XPath;

fn rendered(input: &str) -> Result<String, ParseError> {
    XPath::parse(input).map(|path| path.to_string())
}

fn check(input: &str, expected: Result<String, ParseError>) {
    assert_eq!(rendered(input), expected, "Failed test for input: {}", input);
}

fn accepted(input: &str, expected: &str) {
    check(input, Ok(expected.to_string()));
}

fn rejected(input: &str, expected: ParseError) {
    check(input, Err(expected));
}

fn segments(path: &XPath) -> Vec<&Node> {
    let mut out = Vec::new();
    let mut cur = path.root();
    while let Some(node) = cur {
        out.push(node);
        cur = node.next.as_deref();
    }
    out
}

fn attribute_of(predicate: &Predicate) -> (String, Option<String>) {
    match predicate {
        Predicate::Attribute(a) => {
            assert_eq!(a.op, Operator::Equal("="));
            let value = match &a.value {
                Some(AttributeValue::Text(t)) => Some(t.clone()),
                Some(other) => panic!("a parsed value is a text, not {:?}", other),
                None => None,
            };
            (a.name.clone(), value)
        }
        Predicate::Function(f) => panic!("the parser makes no function: {:?}", f),
    }
}

#[test]
fn test_parse() {
    check("/valid/xpath", Ok("/valid/xpath".to_string()));
    check(
        "/valid[a1=v1,a2=v2]/xpath[another=one]/leaf",
        Ok("/valid[a1=v1,a2=v2]/xpath[another=one]/leaf".to_string()),
    );
    check("/#invalid/node", Err(ParseError::SyntaxError));
    check("/invalid[/xpath", Err(ParseError::SyntaxError));
    check("/invalid[/x]path", Err(ParseError::SyntaxError));
    check("/invalid[=]", Err(ParseError::EmptyAttributeError));
    check("/invalid[/x]path[", Err(ParseError::SyntaxError));
    check("/invalid[/x]path[=]", Err(ParseError::SyntaxError));
    check("/valid绝对路径", Ok("/valid绝对路径".to_string()));
    check("", Ok("".to_string()));
    check("/invalid[node==value]", Err(ParseError::SyntaxError));
    check("/invalid\\path", Err(ParseError::SyntaxError));
    check("/unbalanced[bracket/path", Err(ParseError::SyntaxError));
    check("/invalid[character$=value]", Err(ParseError::SyntaxError));
}

#[test]
fn empty_input_is_the_empty_path() {
    let path = XPath::parse("").unwrap();
    assert!(path.root().is_none());
    assert_eq!(path.to_string(), "");
}

#[test]
fn doubled_leading_separator_reads_as_one() {
    let once = XPath::parse("/a").unwrap();
    let twice = XPath::parse("//a").unwrap();
    assert_eq!(once.to_string(), "/a");
    assert_eq!(twice.to_string(), "/a");
    assert_eq!(segments(&once).len(), 1);
    assert_eq!(segments(&twice).len(), 1);
    assert_eq!(segments(&twice)[0].name, "a");
    assert!(segments(&twice)[0].predicates.is_empty());
}

#[test]
fn three_segments_with_filters() {
    let text = "/location[name=home]/device[name=macbook,os=macos]/memory";
    let path = XPath::parse(text).unwrap();
    assert_eq!(path.to_string(), text);
    let nodes = segments(&path);
    assert_eq!(nodes.len(), 3);
    assert_eq!(nodes[0].name, "location");
    assert_eq!(nodes[1].name, "device");
    assert_eq!(nodes[2].name, "memory");
    assert_eq!(nodes[0].predicates.len(), 1);
    assert_eq!(nodes[1].predicates.len(), 2);
    assert_eq!(nodes[2].predicates.len(), 0);
    assert_eq!(
        attribute_of(&nodes[0].predicates[0]),
        ("name".to_string(), Some("home".to_string()))
    );
    assert_eq!(
        attribute_of(&nodes[1].predicates[0]),
        ("name".to_string(), Some("macbook".to_string()))
    );
    assert_eq!(
        attribute_of(&nodes[1].predicates[1]),
        ("os".to_string(), Some("macos".to_string()))
    );
}

#[test]
fn names_in_other_scripts_are_identifiers() {
    accepted("/valid绝对路径", "/valid绝对路径");
    accepted("/путь/δρόμος", "/путь/δρόμος");
    accepted("/é[ñ=ü]/x", "/é[ñ=ü]/x");
}

#[test]
fn illegal_first_character_is_a_syntax_error() {
    rejected("/#invalid/node", ParseError::SyntaxError);
    rejected("/1a", ParseError::SyntaxError);
    rejected("/-a", ParseError::SyntaxError);
    rejected("/.a", ParseError::SyntaxError);
    rejected("/ a", ParseError::SyntaxError);
}

#[test]
fn empty_filter_is_an_empty_attribute_error() {
    rejected("/invalid[=]", ParseError::EmptyAttributeError);
    rejected("/a[]", ParseError::EmptyAttributeError);
    rejected("/a[,]", ParseError::EmptyAttributeError);
    rejected("/a[x]", ParseError::EmptyAttributeError);
    rejected("/a[x,y=1]", ParseError::EmptyAttributeError);
    rejected("/a[x=]", ParseError::EmptyAttributeError);
    rejected("/a[x=,y=1]", ParseError::EmptyAttributeError);
    rejected("/a[x=1,y=]", ParseError::EmptyAttributeError);
}

#[test]
fn separator_inside_filter_is_a_syntax_error() {
    rejected("/invalid[/xpath", ParseError::SyntaxError);
    rejected("/a[b/c=1]", ParseError::SyntaxError);
}

#[test]
fn second_equals_in_value_is_a_syntax_error() {
    rejected("/invalid[node==value]", ParseError::SyntaxError);
    rejected("/a[x=1=2]", ParseError::SyntaxError);
    rejected("/a[x=1,y=2=]", ParseError::SyntaxError);
}

#[test]
fn input_that_ends_inside_a_filter_is_a_state_error() {
    rejected("/a[b", ParseError::StateError);
    rejected("/a[b=c", ParseError::StateError);
    rejected("/a[b=c,d", ParseError::StateError);
    rejected("/a[x=1,]", ParseError::StateError);
}

#[test]
fn input_that_ends_inside_a_filter_with_an_empty_buffer_is_accepted() {
    accepted("/a[", "");
    accepted("/a[b=", "");
    accepted("/a[b=c,", "");
    accepted("/a/b[", "/a");
}

#[test]
fn identifier_characters() {
    accepted("/_a-b.c_1", "/_a-b.c_1");
    accepted("/a1/b2", "/a1/b2");
    accepted("/_", "/_");
    accepted("/a٣", "/a٣");
    rejected("/a b", ParseError::SyntaxError);
    rejected("/a]", ParseError::SyntaxError);
    rejected("/a=", ParseError::SyntaxError);
    rejected("/a,b", ParseError::SyntaxError);
    rejected("/a$", ParseError::SyntaxError);
    rejected("/a[b c=1]", ParseError::SyntaxError);
    rejected("/a[1b=1]", ParseError::SyntaxError);
    accepted("/a[_b-1.x=1]/", "/a[_b-1.x=1]");
}

#[test]
fn separators_between_segments() {
    accepted("a", "/a");
    accepted("a/b", "/a/b");
    accepted("/a/", "/a");
    accepted("/a//b", "/a/b");
    accepted("///a///b///", "/a/b");
    accepted("/", "");
    accepted("////", "");
}

#[test]
fn values_and_later_names_take_any_character() {
    accepted("/a[x=hello world/é[1]/", "/a[x=hello world/é[1]");
    accepted("/a[x=1,y]z=2]/", "/a[x=1,y]z=2]");
    accepted("/a[x=1, y=2]/", "/a[x=1, y=2]");
    accepted("/a[x=1,/=2]/b", "/a[x=1,/=2]/b");
    accepted("/a[x=1,=2]/b", "/a[x=1,=2]/b");
    accepted("/a[=v]/", "/a[=v]");
}

#[test]
fn pending_segment_is_added_at_the_next_separator_only() {
    accepted("/a[x=1]/", "/a[x=1]");
    accepted("/a[x=1]", "");
    accepted("/a/b[x=1]", "/a");
    accepted("/a[x=1]/b[y=2]", "/a[x=1]");
    accepted("/a[x=1]/b[y=2]/", "/a[x=1]/b[y=2]");
}

#[test]
fn text_behind_a_pending_segment() {
    accepted("/a[x=1]b/c", "/bc");
    accepted("/a[x=1]b[y=2]/", "/a[x=1,y=2]");
    accepted("/a[x=1][y=2]/", "/a[x=1,y=2]");
    accepted("/a[x=1]b/", "/b");
}

#[test]
fn filter_without_a_segment_is_dropped() {
    accepted("/[a=v]", "");
    accepted("[a=v]/b", "/b");
    accepted("/[a=v]/b/c", "/b/c");
}

#[test]
fn first_error_decides() {
    rejected("/a[]/#", ParseError::EmptyAttributeError);
    rejected("/#/a[]", ParseError::SyntaxError);
    rejected("/a[x=1=]/b[", ParseError::SyntaxError);
    rejected("/a[x=]=", ParseError::EmptyAttributeError);
}

#[test]
fn parsed_attribute_holds_name_operator_and_text() {
    let path = XPath::parse("/n[key=some value]/").unwrap();
    let nodes = segments(&path);
    assert_eq!(nodes.len(), 1);
    assert_eq!(nodes[0].name, "n");
    assert!(nodes[0].next.is_none());
    assert_eq!(nodes[0].predicates.len(), 1);
    assert_eq!(
        attribute_of(&nodes[0].predicates[0]),
        ("key".to_string(), Some("some value".to_string()))
    );
}
