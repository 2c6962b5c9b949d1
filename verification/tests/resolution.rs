use rofi_unicode::config::{
    Config, Content, Item, UnresolvedContent, UnresolvedItem, UnresolvedItems,
};
use rofi_unicode::error::{Cause, ConfigError, FragmentError, LoadError};
use rofi_unicode::paths::{LoadStep, Paths, ReadOutcome};
use rofi_unicode::resolver::{Markup, Request, Resolver};

fn text_entry(name: &str, text: &str) -> UnresolvedItem {
    UnresolvedItem { name: name.to_owned(), content: UnresolvedContent::Text(text.to_owned()) }
}

fn node(extends: &[&str], direct: Vec<UnresolvedItem>) -> UnresolvedItems {
    UnresolvedItems { extends: extends.iter().map(|s| (*s).to_owned()).collect(), direct }
}

fn submenu(name: &str, inner: UnresolvedItems) -> UnresolvedItem {
    UnresolvedItem { name: name.to_owned(), content: UnresolvedContent::Items(inner) }
}

fn text_item(name: &str, text: &str) -> Item<u8> {
    Item {
        name: name.to_uppercase(),
        name_attributes: vec![name.len() as u8],
        name_markup: name.to_owned(),
        content: Content::Text(text.to_owned()),
    }
}

fn menu_item(name: &str, items: Vec<Item<u8>>) -> Item<u8> {
    Item {
        name: name.to_uppercase(),
        name_attributes: vec![name.len() as u8],
        name_markup: name.to_owned(),
        content: Content::Items(items),
    }
}

fn fragment(reference: &str) -> Result<UnresolvedItems, FragmentError> {
    match reference {
        "a.ron" => Ok(node(&["shared.ron"], vec![text_entry("a1", "1"), text_entry("a2", "2")])),
        "b.ron" => Ok(node(&["shared.ron"], vec![text_entry("b1", "3")])),
        "shared.ron" => Ok(node(&[], vec![text_entry("s", "4")])),
        "loop.ron" => Ok(node(&["back.ron"], vec![text_entry("l", "5")])),
        "back.ron" => Ok(node(&["loop.ron"], vec![text_entry("k", "6")])),
        "self.ron" => Ok(node(&["self.ron"], Vec::new())),
        "broken.ron" => Err(FragmentError::Malformed("1:1: expected a map".to_owned())),
        other => Err(FragmentError::Load(LoadError::NotFoundInSearchPath {
            reference: other.to_owned(),
            bases: vec![b"/home/u/.config/rofi-unicode".to_vec()],
        })),
    }
}

fn markup(name: &str) -> Result<Markup<u8>, String> {
    if name.contains('<') {
        Err(format!("unbalanced tag in {name}"))
    } else {
        Ok(Markup { text: name.to_uppercase(), attributes: vec![name.len() as u8] })
    }
}

fn run(root: UnresolvedItems) -> (Result<Config<u8>, ConfigError>, Vec<String>) {
    let mut asked = Vec::new();
    let mut resolver: Resolver<u8> = Resolver::new(root);
    loop {
        match resolver.request() {
            Request::Markup(name) => {
                asked.push(format!("markup {name}"));
                resolver.markup_parsed(markup(&name));
            }
            Request::Fragment(reference) => {
                asked.push(format!("fragment {reference}"));
                resolver.fragment_loaded(fragment(&reference));
            }
            Request::Nothing => break,
        }
    }
    (resolver.finish().unwrap(), asked)
}

#[test]
fn order_of_direct_entries_is_kept() {
    let (config, asked) = run(node(
        &[],
        vec![text_entry("z", "26"), text_entry("a", "1"), text_entry("z", "again")],
    ));
    assert_eq!(
        config.unwrap().root,
        vec![text_item("z", "26"), text_item("a", "1"), text_item("z", "again")]
    );
    assert_eq!(asked, vec!["markup z", "markup a", "markup z"]);
}

#[test]
fn empty_root_resolves_to_no_items() {
    let (config, asked) = run(node(&[], Vec::new()));
    assert_eq!(config.unwrap().root, Vec::<Item<u8>>::new());
    assert!(asked.is_empty());
}

#[test]
fn extends_are_appended_after_direct_entries_in_order() {
    let (config, asked) = run(node(&["a.ron", "b.ron"], vec![text_entry("own", "0")]));
    assert_eq!(
        config.unwrap().root,
        vec![
            text_item("own", "0"),
            text_item("a1", "1"),
            text_item("a2", "2"),
            text_item("s", "4"),
            text_item("b1", "3"),
            text_item("s", "4"),
        ]
    );
    assert_eq!(
        asked,
        vec![
            "markup own",
            "fragment a.ron",
            "markup a1",
            "markup a2",
            "fragment shared.ron",
            "markup s",
            "fragment b.ron",
            "markup b1",
            "fragment shared.ron",
            "markup s",
        ]
    );
}

#[test]
fn submenu_is_resolved_within_its_entry() {
    let root = node(
        &["shared.ron"],
        vec![
            submenu("m", node(&["b.ron"], vec![text_entry("in", "i")])),
            text_entry("after", "x"),
        ],
    );
    let (config, asked) = run(root);
    assert_eq!(
        config.unwrap().root,
        vec![
            menu_item(
                "m",
                vec![text_item("in", "i"), text_item("b1", "3"), text_item("s", "4")]
            ),
            text_item("after", "x"),
            text_item("s", "4"),
        ]
    );
    assert_eq!(asked[0], "markup m");
    assert_eq!(asked[1], "markup in");
    assert_eq!(asked[2], "fragment b.ron");
}

#[test]
fn empty_submenu_becomes_an_empty_list() {
    let (config, _) = run(node(&[], vec![submenu("none", node(&[], Vec::new()))]));
    assert_eq!(config.unwrap().root, vec![menu_item("none", Vec::new())]);
}

#[test]
fn cyclic_extends_are_refused() {
    let (config, asked) = run(node(&["loop.ron"], Vec::new()));
    assert_eq!(
        config,
        Err(ConfigError {
            chain: vec!["loop.ron".to_owned(), "back.ron".to_owned()],
            cause: Cause::CyclicInclude { reference: "loop.ron".to_owned() },
        })
    );
    assert_eq!(
        asked,
        vec!["fragment loop.ron", "markup l", "fragment back.ron", "markup k"]
    );
}

#[test]
fn fragment_that_extends_itself_is_refused() {
    let (config, _) = run(node(&["self.ron"], Vec::new()));
    assert_eq!(
        config,
        Err(ConfigError {
            chain: vec!["self.ron".to_owned()],
            cause: Cause::CyclicInclude { reference: "self.ron".to_owned() },
        })
    );
}

#[test]
fn invalid_markup_aborts_with_the_name() {
    let root = node(&["a.ron"], vec![text_entry("fine", "1"), text_entry("<b>bad", "2")]);
    let (config, asked) = run(root);
    assert_eq!(
        config,
        Err(ConfigError {
            chain: Vec::new(),
            cause: Cause::Markup {
                name: "<b>bad".to_owned(),
                message: "unbalanced tag in <b>bad".to_owned(),
            },
        })
    );
    assert_eq!(asked, vec!["markup fine", "markup <b>bad"]);
}

#[test]
fn malformed_fragment_aborts_with_the_chain() {
    let (config, _) = run(node(
        &[],
        vec![submenu("m", node(&["a.ron", "broken.ron", "b.ron"], Vec::new()))],
    ));
    assert_eq!(
        config,
        Err(ConfigError {
            chain: Vec::new(),
            cause: Cause::Fragment {
                reference: "broken.ron".to_owned(),
                error: FragmentError::Malformed("1:1: expected a map".to_owned()),
            },
        })
    );
}

#[test]
fn answers_that_were_not_asked_for_change_nothing() {
    let mut resolver: Resolver<u8> = Resolver::new(node(&["a.ron"], vec![text_entry("x", "1")]));
    assert_eq!(resolver.request(), Request::Markup("x".to_owned()));
    resolver.fragment_loaded(fragment("b.ron"));
    assert_eq!(resolver.request(), Request::Markup("x".to_owned()));
    resolver.markup_parsed(markup("x"));
    assert_eq!(resolver.request(), Request::Fragment("a.ron".to_owned()));
    resolver.markup_parsed(markup("y"));
    assert_eq!(resolver.request(), Request::Fragment("a.ron".to_owned()));
    assert_eq!(resolver.finish(), None);
}

#[test]
fn missing_fragment_fails_with_reference_and_bases() {
    let paths = Paths::from_env(
        Some(b"/home/u/.config".to_vec()),
        None,
        Some(b"/etc/xdg:/usr/share".to_vec()),
    )
    .unwrap();
    let bases = vec![
        b"/home/u/.config/rofi-unicode".to_vec(),
        b"/etc/xdg/rofi-unicode".to_vec(),
        b"/usr/share/rofi-unicode".to_vec(),
    ];
    assert_eq!(paths.bases(), &bases);

    let mut resolver: Resolver<u8> = Resolver::new(node(&["missing.ron"], Vec::new()));
    assert_eq!(resolver.request(), Request::Fragment("missing.ron".to_owned()));

    let mut read = Vec::new();
    let mut attempt = 0;
    let mut step = paths.begin_load("missing.ron");
    let error = loop {
        match step {
            LoadStep::Read(path) => {
                read.push(path);
                step = paths.continue_load(
                    "missing.ron",
                    attempt,
                    ReadOutcome::NotFound("No such file or directory".to_owned()),
                );
                attempt += 1;
            }
            LoadStep::Loaded(text) => panic!("nothing to load, got {text}"),
            LoadStep::Failed(error) => break error,
        }
    };
    assert_eq!(
        read,
        vec![
            b"/home/u/.config/rofi-unicode/missing.ron".to_vec(),
            b"/etc/xdg/rofi-unicode/missing.ron".to_vec(),
            b"/usr/share/rofi-unicode/missing.ron".to_vec(),
        ]
    );
    assert_eq!(
        error,
        LoadError::NotFoundInSearchPath { reference: "missing.ron".to_owned(), bases: bases.clone() }
    );

    resolver.fragment_loaded(Err(FragmentError::Load(error)));
    assert_eq!(resolver.request(), Request::Nothing);
    assert_eq!(
        resolver.finish(),
        Some(Err(ConfigError {
            chain: Vec::new(),
            cause: Cause::Fragment {
                reference: "missing.ron".to_owned(),
                error: FragmentError::Load(LoadError::NotFoundInSearchPath {
                    reference: "missing.ron".to_owned(),
                    bases,
                }),
            },
        }))
    );
}
