use static_graph::parser::annotations::Annotations;
use static_graph::parser::document::Document;
use static_graph::parser::field::Field;
use static_graph::parser::graph::Graph;
use static_graph::parser::ident::Ident;
use static_graph::parser::literal::Literal;
use static_graph::parser::node::Node;
use static_graph::parser::path::Path;
use static_graph::parser::ty::Type;

#[test]
fn test_document() {
    let input = r#"
        graph Foo(Bar)

        node Bar -> (Baz, Qux) {
            #[default = "B::new"]
            b: B,
        }

        node Baz -> Out {
            #[default = "C::new"]
            c: C,
        }

        node Qux -> Out {
            #[default = "D::new"]
            d: D,
        }

        node Out {

        }
        "#;

    match Document::parse(input) {
        Ok((remain, doc)) => {
            assert_eq!(remain, "");
            assert_eq!(doc.graphs.len(), 1);
            assert_eq!(doc.nodes.len(), 4);
        }
        Err(e) => panic!("Error: {e:?}"),
    }
}

#[test]
fn test_graph() {
    let input = "graph Foo(Bar)";
    match Graph::parse(input) {
        Ok((remain, graph)) => {
            assert_eq!(remain, "");
            assert_eq!(graph.name.0, "Foo");
            assert_eq!(graph.entry_node.0, "Bar");
        }
        Err(e) => panic!("Error: {e:?}"),
    }
}

#[test]
fn test_literal() {
    let input = r#""foo""#;
    match Literal::parse(input) {
        Ok((remain, lit)) => {
            assert_eq!(remain, "");
            assert_eq!(lit.0, "foo");
        }
        Err(e) => panic!("Error: {e:?}"),
    }
}

#[test]
fn test_annotations() {
    match Annotations::parse(r#"#[foo = "bar"]"#) {
        Ok((remain, annotations)) => {
            assert_eq!(remain, "");
            assert_eq!(annotations.0.len(), 1);
            assert_eq!(annotations.0[0].key, "foo");
            assert_eq!(annotations.0[0].value.0, "bar");
        }
        Err(e) => panic!("{e:?}"),
    }
}

#[test]
fn test_field() {
    let input = r#"#[default = "Bar::new"]
        foo: Bar"#;
    match Field::parse(input) {
        Ok((remain, field)) => {
            assert_eq!(remain, "");
            assert_eq!(field.name.0, "foo");
            match field.ty {
                Type::Path(path) => {
                    assert_eq!(path.segments.len(), 1);
                    assert_eq!(path.segments[0].0, "Bar");
                }
                _ => panic!("Expected Path"),
            }
            assert_eq!(field.annotations.0.len(), 1);
            assert_eq!(field.annotations.0[0].key, "default");
            assert_eq!(field.annotations.0[0].value.0, "Bar::new");
        }
        Err(e) => panic!("{e:?}"),
    }
}

#[test]
fn test_ident() {
    let input = "_Foo";
    match Ident::parse(input) {
        Ok((remain, ident)) => {
            assert_eq!(remain, "");
            assert_eq!(ident.0, "_Foo");
        }
        Err(e) => panic!("Error: {e:?}"),
    }
}

#[test]
fn test_node() {
    let input = r#"node Foo {
            #[default = "Bar::new"]
            foo: Bar,
        }"#;
    match Node::parse(input) {
        Ok((remain, node)) => {
            assert_eq!(remain, "");
            assert_eq!(node.name.0, "Foo");
            assert_eq!(node.to_nodes.len(), 0);
            assert_eq!(node.fields.len(), 1);
            assert_eq!(node.fields[0].name.0, "foo");
            match &node.fields[0].ty {
                Type::Path(path) => {
                    assert_eq!(path.segments.len(), 1);
                    assert_eq!(path.segments[0].0, "Bar");
                }
                _ => panic!("Expected Path"),
            }
            assert_eq!(node.fields[0].annotations.0.len(), 1);
            assert_eq!(node.fields[0].annotations.0[0].key, "default");
        }
        Err(e) => panic!("Error: {e:?}"),
    }
}

#[test]
fn test_parse_document() {
    let input = r#"
        node E -> (X, Y) {
            e: string,
            #[default = "Cache::new"]
            cache: cache::Cache,
        }
        node X -> O {
            x: string,
        }
        node Y -> O {
            y: string,
        }
        node O {

        }
        graph G(E)
        "#;
    let res = Document::parse(input);
    println!("{res:?}");
}

#[test]
fn test_parse_field() {
    let input = r#"#[default = "String::new"]
        a: string,
        "#;
    let res = Field::parse(input);
    println!("{res:?}");
}

#[test]
fn test_parse_node() {
    let input = r#"node E {
            #[default = "String::new", a = "b"]
            a: string,
            b: i32,
        }"#;
    let res = Node::parse(input);
    println!("{res:?}");
}

#[test]
fn test_path() {
    let input = "Foo::Bar::Baz";
    match Path::parse(input) {
        Ok((remain, path)) => {
            assert_eq!(remain, "");
            assert_eq!(path.segments.len(), 3);
            assert_eq!(path.segments[0].0, "Foo");
            assert_eq!(path.segments[1].0, "Bar");
            assert_eq!(path.segments[2].0, "Baz");
        }
        Err(e) => panic!("Error: {e:?}"),
    }
}

#[test]
fn test_type() {
    let input = "string";
    match Type::parse(input) {
        Ok((remain, ty)) => {
            assert_eq!(remain, "");
            match ty {
                Type::String => {}
                _ => panic!("Expected String"),
            }
        }
        Err(e) => panic!("Error: {e:?}"),
    }
}

#[test]
fn test_literal_escapes_kept_raw() {
    let input = r#""a\nb""#;
    match Literal::parse(input) {
        Ok((remain, lit)) => {
            assert_eq!(remain, "");
            assert_eq!(lit.0, r"a\nb");
        }
        Err(e) => panic!("Error: {e:?}"),
    }
}

#[test]
fn test_container_types() {
    match Type::parse("map<i32, list<string>>") {
        Ok((remain, ty)) => {
            assert_eq!(remain, "");
            match ty {
                Type::MapOf { key, value } => {
                    assert!(matches!(*key, Type::I32));
                    match *value {
                        Type::List { value } => assert!(matches!(*value, Type::String)),
                        _ => panic!("Expected list"),
                    }
                }
                _ => panic!("Expected map"),
            }
        }
        Err(e) => panic!("Error: {e:?}"),
    }
}

#[test]
fn test_comments_are_blank() {
    let input = "graph /* inner */ Foo(Bar)";
    match Graph::parse(input) {
        Ok((remain, graph)) => {
            assert_eq!(remain, "");
            assert_eq!(graph.name.0, "Foo");
        }
        Err(e) => panic!("Error: {e:?}"),
    }
    let input2 = "node A // trailing words\n { }";
    match Node::parse(input2) {
        Ok((remain, node)) => {
            assert_eq!(remain, "");
            assert_eq!(node.name.0, "A");
        }
        Err(e) => panic!("Error: {e:?}"),
    }
}
