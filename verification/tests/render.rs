use xpath::node::{Attribute, AttributeValue, Function, Node, Operator, Predicate};
use xpath::xpath::XPath;

fn attribute(name: &str, value: Option<AttributeValue>) -> Attribute {
    Attribute { name: name.to_string(), op: Operator::Equal("="), value }
}

fn text(name: &str, value: &str) -> Predicate {
    Predicate::Attribute(attribute(name, Some(AttributeValue::Text(value.to_string()))))
}

fn number(n: i64) -> String {
    AttributeValue::Number(n).to_string()
}

#[test]
fn operator_renders_as_its_symbol() {
    assert_eq!(Operator::Equal("=").to_string(), "=");
    assert_eq!(Operator::Equal("is").to_string(), "=");
}

#[test]
fn text_value_renders_as_it_is() {
    assert_eq!(AttributeValue::Text("home".to_string()).to_string(), "home");
    assert_eq!(AttributeValue::Text(String::new()).to_string(), "");
    assert_eq!(AttributeValue::Text("a b/绝对".to_string()).to_string(), "a b/绝对");
}

#[test]
fn boolean_value_renders_as_a_word() {
    assert_eq!(AttributeValue::Boolean(true).to_string(), "true");
    assert_eq!(AttributeValue::Boolean(false).to_string(), "false");
}

#[test]
fn number_value_renders_in_decimal() {
    assert_eq!(number(0), "0");
    assert_eq!(number(7), "7");
    assert_eq!(number(10), "10");
    assert_eq!(number(42), "42");
    assert_eq!(number(1234567890), "1234567890");
    assert_eq!(number(-1), "-1");
    assert_eq!(number(-305), "-305");
    assert_eq!(number(i64::MAX), "9223372036854775807");
    assert_eq!(number(i64::MIN), "-9223372036854775808");
}

#[test]
fn attribute_renders_name_symbol_value() {
    assert_eq!(
        attribute("os", Some(AttributeValue::Text("macos".to_string()))).to_string(),
        "os=macos"
    );
    assert_eq!(attribute("size", Some(AttributeValue::Number(-16))).to_string(), "size=-16");
    assert_eq!(attribute("on", Some(AttributeValue::Boolean(true))).to_string(), "on=true");
}

#[test]
fn attribute_without_value_renders_name_and_symbol() {
    assert_eq!(attribute("os", None).to_string(), "os=");
}

#[test]
fn function_renders_arguments_in_brackets() {
    assert_eq!(Function::new("now".to_string(), Vec::new()).to_string(), "now()");
    assert_eq!(Function::new("last".to_string(), vec!["a".to_string()]).to_string(), "last(a)");
    assert_eq!(
        Function::new(
            "between".to_string(),
            vec!["a".to_string(), "b".to_string(), "c".to_string()]
        )
        .to_string(),
        "between(a, b, c)"
    );
}

#[test]
fn predicate_renders_as_what_it_holds() {
    assert_eq!(text("name", "home").to_string(), "name=home");
    assert_eq!(
        Predicate::Function(Function::new("f".to_string(), vec!["x".to_string(), "y".to_string()]))
            .to_string(),
        "f(x, y)"
    );
}

#[test]
fn new_node_has_a_name_and_nothing_else() {
    let node = Node::new("memory".to_string());
    assert_eq!(node.name, "memory");
    assert!(node.predicates.is_empty());
    assert!(node.next.is_none());
    assert_eq!(node.to_string(), "/memory");
    assert_eq!(node.segment(), "/memory");
}

#[test]
fn add_predicate_keeps_the_order() {
    let mut node = Node::new("device".to_string());
    node.add_predicate(text("name", "macbook"));
    assert_eq!(node.to_string(), "/device[name=macbook]");
    node.add_predicate(text("os", "macos"));
    assert_eq!(node.to_string(), "/device[name=macbook,os=macos]");
    node.add_predicate(Predicate::Function(Function::new(
        "f".to_string(),
        vec!["x".to_string(), "y".to_string()],
    )));
    assert_eq!(node.to_string(), "/device[name=macbook,os=macos,f(x, y)]");
    assert_eq!(node.predicates.len(), 3);
    assert!(node.next.is_none());
}

#[test]
fn node_renders_what_follows_it() {
    let mut first = Node::new("a".to_string());
    first.add_predicate(text("k", "v"));
    let mut second = Node::new("b".to_string());
    second.next = Some(Box::new(Node::new("c".to_string())));
    first.next = Some(Box::new(second));
    assert_eq!(first.to_string(), "/a[k=v]/b/c");
    assert_eq!(first.segment(), "/a[k=v]");
}

#[test]
fn append_attaches_behind_the_last_segment() {
    let mut head = Node::new("a".to_string());
    head.append(Node::new("b".to_string()));
    head.append(Node::new("c".to_string()));
    let mut tail = Node::new("d".to_string());
    tail.append(Node::new("e".to_string()));
    head.append(tail);
    assert_eq!(head.to_string(), "/a/b/c/d/e");
    assert_eq!(head.next.as_ref().unwrap().name, "b");
}

#[test]
fn new_path_is_empty() {
    let path = XPath::new();
    assert!(path.root().is_none());
    assert_eq!(path.to_string(), "");
}

#[test]
fn append_node_keeps_the_order() {
    let mut path = XPath::new();
    path.append_node(Node::new("a".to_string()));
    assert_eq!(path.to_string(), "/a");
    assert_eq!(path.root().unwrap().name, "a");
    let mut second = Node::new("b".to_string());
    second.add_predicate(text("x", "1"));
    path.append_node(second);
    assert_eq!(path.to_string(), "/a/b[x=1]");
    path.append_node(Node::new("c".to_string()));
    assert_eq!(path.to_string(), "/a/b[x=1]/c");
    assert_eq!(path.root().unwrap().name, "a");
}

#[test]
fn append_node_takes_a_whole_chain() {
    let mut chain = Node::new("b".to_string());
    chain.append(Node::new("c".to_string()));
    let mut path = XPath::new();
    path.append_node(Node::new("a".to_string()));
    path.append_node(chain);
    assert_eq!(path.to_string(), "/a/b/c");
}

#[test]
fn long_path_renders_in_order() {
    let mut path = XPath::new();
    let mut expected = String::new();
    for i in 0..200 {
        let name = format!("n{}", i);
        expected.push('/');
        expected.push_str(&name);
        path.append_node(Node::new(name));
    }
    assert_eq!(path.to_string(), expected);
}
