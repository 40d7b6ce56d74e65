use static_graph::tags::{Construct, Editable, Tags, TypeMap};

#[test]
fn test_typemap_insert_get() {
    let mut m = TypeMap::new();
    assert!(m.is_empty());
    assert_eq!(m.len(), 0);
    m.insert(Construct(String::from("Foo::new")));
    assert!(!m.is_empty());
    assert_eq!(m.len(), 1);
    assert!(m.contains::<Construct>());
    assert!(!m.contains::<Editable>());
    let c: Option<Construct> = m.get();
    assert_eq!(c.unwrap().0, "Foo::new");
    let e: Option<Editable> = m.get();
    assert!(e.is_none());
}

#[test]
fn test_typemap_overwrite_and_remove() {
    let mut m = TypeMap::new();
    m.insert(Editable(false));
    m.insert(Editable(true));
    assert_eq!(m.len(), 1);
    let e: Option<Editable> = m.get();
    assert_eq!(e.unwrap().0, true);
    m.insert(Construct(String::from("A::b")));
    assert_eq!(m.len(), 2);
    m.remove::<Editable>();
    assert_eq!(m.len(), 1);
    assert!(!m.contains::<Editable>());
    assert!(m.contains::<Construct>());
    m.remove::<Construct>();
    assert!(m.is_empty());
}

#[test]
fn test_tags_wrapper() {
    let mut t = Tags::new();
    t.insert(Construct(String::from("X::make")));
    let c: Option<Construct> = t.get();
    assert_eq!(c.unwrap().0, "X::make");
}

#[test]
fn test_annotation_values() {
    let c = Construct::from_value("path::to::ctor");
    assert_eq!(c.0, "path::to::ctor");
    let e = Editable::from_value("true");
    assert!(e.0);
    let e2 = Editable::from_value("false");
    assert!(!e2.0);
    let e3 = Editable::from_value("yes");
    assert!(!e3.0);
}
