use rofi_unicode::config::{UnresolvedContent, UnresolvedItem, UnresolvedItems};
use rofi_unicode::emoji::ParseError;
use rofi_unicode::emoji_list::{
    emoji_item, group_variations, order_emojis, parse_emoji_list, parse_emoji_order, ChartError,
    Emoji, ListError, OrderError, Ordered,
};

fn emoji(value: &str, description: &str) -> Emoji {
    Emoji { value: value.to_owned(), description: description.to_owned() }
}

fn item(name: &str) -> UnresolvedItem {
    UnresolvedItem { name: name.to_owned(), content: UnresolvedContent::Text(name.to_owned()) }
}

fn group(items: Vec<UnresolvedItem>) -> UnresolvedItem {
    UnresolvedItem {
        name: items[0].name.clone(),
        content: UnresolvedContent::Items(UnresolvedItems { extends: Vec::new(), direct: items }),
    }
}

#[test]
fn emoji_list_skips_headings() {
    let text = "@Smileys & Emotion\n@@face-smiling\n1F600\tgrinning face\n263A FE0F\tsmiling face\n";
    assert_eq!(
        parse_emoji_list(text),
        Ok(vec![emoji("\u{1F600}", "grinning face"), emoji("\u{263A}\u{FE0F}", "smiling face")])
    );
    assert_eq!(parse_emoji_list(""), Ok(Vec::new()));
}

#[test]
fn emoji_list_numbers_the_bad_line() {
    assert_eq!(
        parse_emoji_list("@h\n1F600\tgrin\n\n1F601\tbeam"),
        Err(ChartError { line: 3, error: ParseError::NoTab })
    );
    assert_eq!(
        parse_emoji_list("@h\n1F600\tgrin\nD800\tbad"),
        Err(ChartError { line: 3, error: ParseError::NotScalar(0xD800) })
    );
}

#[test]
fn ordering_skips_comments() {
    let text = "# Emoji ordering\n\nU+1F600 ; 6.1 # grin\nU+263A U+FE0F ; 0.6 # smile\n";
    assert_eq!(
        parse_emoji_order(text),
        Ok(vec!["\u{1F600}".to_owned(), "\u{263A}\u{FE0F}".to_owned()])
    );
    assert_eq!(
        parse_emoji_order("# c\nU+1F600 ; 6.1\n1F601 ; 6.1"),
        Err(ChartError { line: 3, error: ParseError::NoPrefix("1F601".to_owned()) })
    );
}

#[test]
fn emojis_follow_the_ordering() {
    let ordering = "# order\nU+62 ; 1.0 # b\n\nU+61 ; 1.0 # a\nU+61 U+31 ; 2.0 # a1\n";
    assert_eq!(
        order_emojis(vec![emoji("a", "A"), emoji("b", "B")], vec![emoji("a1", "A one")], ordering),
        Ok(vec![
            Ordered { emoji: emoji("b", "B"), variation: false },
            Ordered { emoji: emoji("a", "A"), variation: false },
            Ordered { emoji: emoji("a1", "A one"), variation: true },
        ])
    );
}

#[test]
fn later_entry_for_an_emoji_counts() {
    assert_eq!(
        order_emojis(
            vec![emoji("a", "first"), emoji("b", "plain"), emoji("a", "second")],
            vec![emoji("b", "varied")],
            "U+61\nU+62"
        ),
        Ok(vec![
            Ordered { emoji: emoji("a", "second"), variation: false },
            Ordered { emoji: emoji("b", "varied"), variation: true },
        ])
    );
}

#[test]
fn charts_must_hold_the_same_emoji() {
    assert_eq!(
        order_emojis(vec![emoji("a", "A")], Vec::new(), "U+61\nU+63"),
        Err(OrderError::List(ListError::NotInList("c".to_owned())))
    );
    assert_eq!(
        order_emojis(vec![emoji("a", "A")], Vec::new(), "U+61\nU+61"),
        Err(OrderError::List(ListError::NotInList("a".to_owned())))
    );
    assert_eq!(
        order_emojis(vec![emoji("a", "A")], vec![emoji("b", "B")], "U+61"),
        Err(OrderError::List(ListError::NotInOrdering))
    );
    assert_eq!(order_emojis(Vec::new(), Vec::new(), ""), Ok(Vec::new()));
}

#[test]
fn whichever_is_wrong_first_with_the_ordering_is_reported() {
    assert_eq!(
        order_emojis(vec![emoji("a", "A")], Vec::new(), "U+61\nU+63\n63 ; bad"),
        Err(OrderError::List(ListError::NotInList("c".to_owned())))
    );
    assert_eq!(
        order_emojis(vec![emoji("a", "A")], Vec::new(), "U+61\n63 ; bad\nU+63"),
        Err(OrderError::Chart(ChartError {
            line: 2,
            error: ParseError::NoPrefix("63".to_owned()),
        }))
    );
}

#[test]
fn item_names_the_emoji_and_its_description() {
    assert_eq!(
        emoji_item("\u{1F600}".to_owned(), "grinning &amp; face"),
        UnresolvedItem {
            name: "\u{1F600}\tgrinning &amp; face".to_owned(),
            content: UnresolvedContent::Text("\u{1F600}".to_owned()),
        }
    );
}

#[test]
fn variations_go_into_a_submenu_with_their_base() {
    let items = vec![item("a"), item("b"), item("b1"), item("b2"), item("c"), item("d"), item("d1")];
    let flags = vec![false, false, true, true, false, false, true];
    assert_eq!(
        group_variations(items, &flags),
        vec![
            item("a"),
            group(vec![item("b"), item("b1"), item("b2")]),
            item("c"),
            group(vec![item("d"), item("d1")]),
        ]
    );
    assert_eq!(group_variations(Vec::new(), &Vec::new()), Vec::new());
    assert_eq!(group_variations(vec![item("x")], &vec![false]), vec![item("x")]);
}
