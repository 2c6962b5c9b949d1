use rofi_unicode::config::{UnresolvedContent, UnresolvedItem, UnresolvedItems};
use rofi_unicode::document::{classify_root, fragment_node, FormatError, Pair, Value};
use rofi_unicode::error::FragmentError;
use serde::de::{self, Deserialize, Deserializer};
use std::fmt;

struct File(Vec<Pair>);

struct Mapping(Vec<Pair>);

struct Key(String);

struct Any(Value);

struct MappingVisitor;

impl<'de> de::Visitor<'de> for MappingVisitor {
    type Value = Vec<Pair>;

    fn expecting(&self, f: &mut fmt::Formatter) -> fmt::Result {
        f.write_str("a map of key names to values")
    }

    fn visit_map<A: de::MapAccess<'de>>(self, mut map: A) -> Result<Self::Value, A::Error> {
        let mut pairs = Vec::new();
        while let Some(Key(key)) = map.next_key::<Key>()? {
            pairs.push(Pair { key, value: map.next_value::<Any>()?.0 });
        }
        Ok(pairs)
    }
}

impl<'de> Deserialize<'de> for Key {
    fn deserialize<D: Deserializer<'de>>(deserializer: D) -> Result<Self, D::Error> {
        struct Visitor;
        impl<'de> de::Visitor<'de> for Visitor {
            type Value = Key;

            fn expecting(&self, f: &mut fmt::Formatter) -> fmt::Result {
                f.write_str("text to display on each row of the prompt")
            }

            fn visit_str<E: de::Error>(self, v: &str) -> Result<Self::Value, E> {
                Ok(Key(v.to_owned()))
            }
        }
        deserializer.deserialize_str(Visitor)
    }
}

impl<'de> Deserialize<'de> for Mapping {
    fn deserialize<D: Deserializer<'de>>(deserializer: D) -> Result<Self, D::Error> {
        deserializer.deserialize_map(MappingVisitor).map(Mapping)
    }
}

impl<'de> Deserialize<'de> for File {
    fn deserialize<D: Deserializer<'de>>(deserializer: D) -> Result<Self, D::Error> {
        deserializer.deserialize_struct("Config", &["root"], MappingVisitor).map(File)
    }
}

impl<'de> Deserialize<'de> for Any {
    fn deserialize<D: Deserializer<'de>>(deserializer: D) -> Result<Self, D::Error> {
        struct Visitor;
        impl<'de> de::Visitor<'de> for Visitor {
            type Value = Any;

            fn expecting(&self, f: &mut fmt::Formatter) -> fmt::Result {
                f.write_str("a UTF-8 string, a map of items or a list of fragments")
            }

            fn visit_str<E: de::Error>(self, v: &str) -> Result<Self::Value, E> {
                Ok(Any(Value::Text(v.to_owned())))
            }

            fn visit_map<A: de::MapAccess<'de>>(self, map: A) -> Result<Self::Value, A::Error> {
                let inner = Mapping::deserialize(de::value::MapAccessDeserializer::new(map))?;
                Ok(Any(Value::Mapping(inner.0)))
            }

            fn visit_seq<A: de::SeqAccess<'de>>(self, mut seq: A) -> Result<Self::Value, A::Error> {
                let mut values = Vec::new();
                while let Some(value) = seq.next_element::<Any>()? {
                    values.push(value.0);
                }
                Ok(Any(Value::List(values)))
            }
        }
        deserializer.deserialize_any(Visitor)
    }
}

fn file(text: &str) -> Result<UnresolvedItems, String> {
    let fields = ron::from_str::<File>(text).map_err(|error| error.to_string())?;
    classify_root(fields.0).map_err(|error| format!("{error:?}"))
}

fn fragment(text: &str) -> Result<UnresolvedItems, FragmentError> {
    fragment_node(
        ron::from_str::<Mapping>(text).map(|node| node.0).map_err(|error| error.to_string()),
    )
}

fn leaf(name: &str, payload: &str) -> UnresolvedItem {
    UnresolvedItem { name: name.to_owned(), content: UnresolvedContent::Text(payload.to_owned()) }
}

fn menu(name: &str, extends: &[&str], direct: Vec<UnresolvedItem>) -> UnresolvedItem {
    UnresolvedItem {
        name: name.to_owned(),
        content: UnresolvedContent::Items(UnresolvedItems {
            extends: extends.iter().map(|s| (*s).to_owned()).collect(),
            direct,
        }),
    }
}

#[test]
fn round_trip_document_is_read() {
    let expected = UnresolvedItems {
        extends: Vec::new(),
        direct: vec![leaf("A", "x"), menu("B", &[], vec![leaf("C", "y")])],
    };
    assert_eq!(file(r#"Config(root: {"A": "x", "B": {"C": "y"}})"#), Ok(expected));
}

#[test]
fn file_may_leave_out_its_name() {
    assert_eq!(
        file("(\n\troot: {\n\t\t\"extends\": [\"emojis.ron\", \"/abs/more.ron\"],\n\t},\n)"),
        Ok(UnresolvedItems {
            extends: vec!["emojis.ron".to_owned(), "/abs/more.ron".to_owned()],
            direct: Vec::new(),
        })
    );
}

#[test]
fn keys_keep_their_order_and_their_repetitions() {
    assert_eq!(
        fragment(r#"{"b": "1", "a": "2", "b": "3", "extends": ["x"], "m": {"extends": ["y"], "z": "4"}, "extends": ["w"]}"#),
        Ok(UnresolvedItems {
            extends: vec!["x".to_owned(), "w".to_owned()],
            direct: vec![
                leaf("b", "1"),
                leaf("a", "2"),
                leaf("b", "3"),
                menu("m", &["y"], vec![leaf("z", "4")]),
            ],
        })
    );
}

#[test]
fn unknown_field_of_the_file_is_refused() {
    assert_eq!(
        file(r#"(root: {}, theme: "dark")"#),
        Err(format!("{:?}", FormatError::UnknownField { name: "theme".to_owned() }))
    );
    assert_eq!(file("()"), Err(format!("{:?}", FormatError::MissingRoot)));
    assert_eq!(file(r#"(root: "x")"#), Err(format!("{:?}", FormatError::RootNotMapping)));
    assert!(file(r#"Other(root: {})"#).is_err());
    assert!(file(r#"{"root": {}}"#).is_err());
}

#[test]
fn fragment_that_is_no_node_is_refused() {
    assert_eq!(
        fragment(r#"{"extends": "a.ron"}"#),
        Err(FragmentError::Format(FormatError::ExtendsNotList))
    );
    assert_eq!(
        fragment(r#"{"extends": ["a.ron", ["b.ron"]]}"#),
        Err(FragmentError::Format(FormatError::ReferenceNotText))
    );
    assert_eq!(
        fragment(r#"{"list": ["a"]}"#),
        Err(FragmentError::Format(FormatError::ListAsContent { name: "list".to_owned() }))
    );
    assert!(matches!(fragment(r#"{"a": 1}"#), Err(FragmentError::Malformed(_))));
    assert!(matches!(fragment(r#"{"a": "x""#), Err(FragmentError::Malformed(_))));
    assert!(matches!(fragment(r#"{1: "x"}"#), Err(FragmentError::Malformed(_))));
    assert!(matches!(fragment(r#"(root: {})"#), Err(FragmentError::Malformed(_))));
}
