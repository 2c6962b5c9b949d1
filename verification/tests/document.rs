use rofi_unicode::config::{UnresolvedContent, UnresolvedItem, UnresolvedItems};
use rofi_unicode::document::{
    classify, classify_root, fragment_node, FormatError, Pair, Value,
};
use rofi_unicode::error::FragmentError;

fn pair(key: &str, value: Value) -> Pair {
    Pair { key: key.to_owned(), value }
}

fn text(value: &str) -> Value {
    Value::Text(value.to_owned())
}

fn leaf(name: &str, payload: &str) -> UnresolvedItem {
    UnresolvedItem { name: name.to_owned(), content: UnresolvedContent::Text(payload.to_owned()) }
}

#[test]
fn keys_become_entries_in_order() {
    let document = vec![
        pair("B", text("2")),
        pair("A", text("1")),
        pair("B", text("3")),
        pair("sub", Value::Mapping(vec![pair("extends", Value::List(vec![text("x.ron")]))])),
    ];
    assert_eq!(
        classify(document),
        Ok(UnresolvedItems {
            extends: Vec::new(),
            direct: vec![
                leaf("B", "2"),
                leaf("A", "1"),
                leaf("B", "3"),
                UnresolvedItem {
                    name: "sub".to_owned(),
                    content: UnresolvedContent::Items(UnresolvedItems {
                        extends: vec!["x.ron".to_owned()],
                        direct: Vec::new(),
                    }),
                },
            ],
        })
    );
}

#[test]
fn extends_lists_follow_each_other() {
    let document = vec![
        pair("extends", Value::List(vec![text("a.ron"), text("b.ron")])),
        pair("own", text("1")),
        pair("extends", Value::List(vec![text("c.ron")])),
        pair("extends", Value::List(Vec::new())),
    ];
    assert_eq!(
        classify(document),
        Ok(UnresolvedItems {
            extends: vec!["a.ron".to_owned(), "b.ron".to_owned(), "c.ron".to_owned()],
            direct: vec![leaf("own", "1")],
        })
    );
    assert_eq!(
        classify(Vec::new()),
        Ok(UnresolvedItems { extends: Vec::new(), direct: Vec::new() })
    );
}

#[test]
fn first_key_that_fits_none_is_reported() {
    assert_eq!(classify(vec![pair("extends", text("a.ron"))]), Err(FormatError::ExtendsNotList));
    assert_eq!(
        classify(vec![pair("extends", Value::Mapping(Vec::new()))]),
        Err(FormatError::ExtendsNotList)
    );
    assert_eq!(
        classify(vec![pair("extends", Value::List(vec![text("a"), Value::List(Vec::new())]))]),
        Err(FormatError::ReferenceNotText)
    );
    assert_eq!(
        classify(vec![
            pair("fine", text("1")),
            pair("menu", Value::Mapping(vec![pair("inner", Value::List(Vec::new()))])),
            pair("extends", text("late")),
        ]),
        Err(FormatError::ListAsContent { name: "inner".to_owned() })
    );
    assert_eq!(
        classify(vec![pair("Extends", Value::List(Vec::new()))]),
        Err(FormatError::ListAsContent { name: "Extends".to_owned() })
    );
}

#[test]
fn fragment_is_what_its_document_stands_for() {
    assert_eq!(
        fragment_node(Ok(vec![pair("a", text("1"))])),
        Ok(UnresolvedItems { extends: Vec::new(), direct: vec![leaf("a", "1")] })
    );
    assert_eq!(
        fragment_node(Err("1:2: unexpected end".to_owned())),
        Err(FragmentError::Malformed("1:2: unexpected end".to_owned()))
    );
    assert_eq!(
        fragment_node(Ok(vec![pair("extends", text("x"))])),
        Err(FragmentError::Format(FormatError::ExtendsNotList))
    );
}

#[test]
fn file_holds_one_root() {
    let root = || pair("root", Value::Mapping(vec![pair("A", text("x"))]));
    assert_eq!(
        classify_root(vec![root()]),
        Ok(UnresolvedItems { extends: Vec::new(), direct: vec![leaf("A", "x")] })
    );
    assert_eq!(classify_root(Vec::new()), Err(FormatError::MissingRoot));
    assert_eq!(classify_root(vec![root(), root()]), Err(FormatError::DuplicateRoot));
    assert_eq!(
        classify_root(vec![root(), pair("theme", text("dark"))]),
        Err(FormatError::UnknownField { name: "theme".to_owned() })
    );
    assert_eq!(
        classify_root(vec![pair("extends", Value::List(Vec::new())), root()]),
        Err(FormatError::UnknownField { name: "extends".to_owned() })
    );
    assert_eq!(classify_root(vec![pair("root", text("x"))]), Err(FormatError::RootNotMapping));
    assert_eq!(
        classify_root(vec![pair("root", Value::Mapping(vec![pair("extends", text("x"))]))]),
        Err(FormatError::ExtendsNotList)
    );
}
