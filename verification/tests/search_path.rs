use rofi_unicode::error::LoadError;
use rofi_unicode::paths::{
    join, root_reference, split, LoadStep, Paths, PathsError, ReadOutcome,
};

#[test]
fn join_puts_one_separator_between() {
    assert_eq!(join(b"/etc/xdg", b"rofi-unicode"), b"/etc/xdg/rofi-unicode".to_vec());
    assert_eq!(join(b"/etc/xdg/", b"rofi-unicode"), b"/etc/xdg/rofi-unicode".to_vec());
    assert_eq!(join(b"", b"rofi-unicode"), b"rofi-unicode".to_vec());
    assert_eq!(join(b"/", b"etc"), b"/etc".to_vec());
    assert_eq!(join(b"a", b""), b"a/".to_vec());
}

#[test]
fn join_lets_an_absolute_path_stand() {
    assert_eq!(join(b"/etc/xdg", b"/opt/menu.ron"), b"/opt/menu.ron".to_vec());
}

#[test]
fn split_keeps_empty_pieces() {
    assert_eq!(split(b"a:b", b':'), vec![b"a".to_vec(), b"b".to_vec()]);
    assert_eq!(split(b"", b':'), vec![Vec::<u8>::new()]);
    assert_eq!(split(b":a::", b':'), vec![b"".to_vec(), b"a".to_vec(), b"".to_vec(), b"".to_vec()]);
    assert_eq!(split(b"abc", b':'), vec![b"abc".to_vec()]);
}

#[test]
fn search_path_prefers_the_configured_user_directory() {
    let paths = Paths::from_env(Some(b"/cfg".to_vec()), Some(b"/home/u".to_vec()), None).unwrap();
    assert_eq!(
        paths.bases(),
        &vec![b"/cfg/rofi-unicode".to_vec(), b"/etc/xdg/rofi-unicode".to_vec()]
    );
    assert_eq!(paths.config_home(), &b"/cfg/rofi-unicode".to_vec());
}

#[test]
fn search_path_falls_back_to_the_home_directory() {
    let paths = Paths::from_env(None, Some(b"/home/u".to_vec()), Some(b"/a:/b/".to_vec())).unwrap();
    assert_eq!(
        paths.bases(),
        &vec![
            b"/home/u/.config/rofi-unicode".to_vec(),
            b"/a/rofi-unicode".to_vec(),
            b"/b/rofi-unicode".to_vec(),
        ]
    );
}

#[test]
fn search_path_needs_a_home() {
    assert_eq!(Paths::from_env(None, None, Some(b"/a".to_vec())), Err(PathsError::HomeNotSet));
}

#[test]
fn empty_directory_list_gives_a_relative_base() {
    let paths = Paths::from_env(Some(b"/cfg".to_vec()), None, Some(Vec::new())).unwrap();
    assert_eq!(paths.bases(), &vec![b"/cfg/rofi-unicode".to_vec(), b"rofi-unicode".to_vec()]);
}

fn two_bases() -> Paths {
    Paths::from_env(Some(b"/u".to_vec()), None, Some(b"/s".to_vec())).unwrap()
}

#[test]
fn first_file_found_is_the_fragment() {
    let paths = two_bases();
    assert_eq!(paths.begin_load("x.ron"), LoadStep::Read(b"/u/rofi-unicode/x.ron".to_vec()));
    assert_eq!(
        paths.continue_load("x.ron", 0, ReadOutcome::NotFound("gone".to_owned())),
        LoadStep::Read(b"/s/rofi-unicode/x.ron".to_vec())
    );
    assert_eq!(
        paths.continue_load("x.ron", 1, ReadOutcome::Content("{}".to_owned())),
        LoadStep::Loaded("{}".to_owned())
    );
    assert_eq!(
        paths.continue_load("x.ron", 0, ReadOutcome::Content("{\"a\":\"b\"}".to_owned())),
        LoadStep::Loaded("{\"a\":\"b\"}".to_owned())
    );
}

#[test]
fn unreadable_file_ends_the_search() {
    let paths = two_bases();
    assert_eq!(
        paths.continue_load("x.ron", 0, ReadOutcome::Failed("Permission denied".to_owned())),
        LoadStep::Failed(LoadError::Io {
            path: b"/u/rofi-unicode/x.ron".to_vec(),
            message: "Permission denied".to_owned(),
        })
    );
    assert_eq!(
        paths.continue_load("x.ron", 1, ReadOutcome::Failed("Is a directory".to_owned())),
        LoadStep::Failed(LoadError::Io {
            path: b"/s/rofi-unicode/x.ron".to_vec(),
            message: "Is a directory".to_owned(),
        })
    );
}

#[test]
fn absolute_reference_is_read_directly() {
    let paths = two_bases();
    assert_eq!(paths.begin_load("/opt/x.ron"), LoadStep::Read(b"/opt/x.ron".to_vec()));
    assert_eq!(
        paths.continue_load("/opt/x.ron", 0, ReadOutcome::NotFound("No such file".to_owned())),
        LoadStep::Failed(LoadError::Io {
            path: b"/opt/x.ron".to_vec(),
            message: "No such file".to_owned(),
        })
    );
    assert_eq!(
        paths.continue_load("/opt/x.ron", 0, ReadOutcome::Content("{}".to_owned())),
        LoadStep::Loaded("{}".to_owned())
    );
}

#[test]
fn reference_with_non_ascii_name_is_joined_by_its_bytes() {
    let paths = two_bases();
    assert_eq!(
        paths.begin_load("é.ron"),
        LoadStep::Read("/u/rofi-unicode/é.ron".as_bytes().to_vec())
    );
}

#[test]
fn root_file_is_looked_for_along_the_search_path() {
    let paths = two_bases();
    assert_eq!(root_reference(), "config.ron");
    assert_eq!(paths.begin_root(), LoadStep::Read(b"/u/rofi-unicode/config.ron".to_vec()));
    assert_eq!(
        paths.continue_root(0, ReadOutcome::Content("(root: {})".to_owned())),
        LoadStep::Loaded("(root: {})".to_owned())
    );
    assert_eq!(
        paths.continue_root(0, ReadOutcome::NotFound("gone".to_owned())),
        LoadStep::Read(b"/s/rofi-unicode/config.ron".to_vec())
    );
    assert_eq!(
        paths.continue_root(1, ReadOutcome::Content("(root: {\"A\": \"x\"})".to_owned())),
        LoadStep::Loaded("(root: {\"A\": \"x\"})".to_owned())
    );
    assert_eq!(
        paths.continue_root(1, ReadOutcome::NotFound("gone".to_owned())),
        LoadStep::Failed(LoadError::NotFoundInSearchPath {
            reference: "config.ron".to_owned(),
            bases: vec![b"/u/rofi-unicode".to_vec(), b"/s/rofi-unicode".to_vec()],
        })
    );
    assert_eq!(
        paths.continue_root(0, ReadOutcome::Failed("Permission denied".to_owned())),
        LoadStep::Failed(LoadError::Io {
            path: b"/u/rofi-unicode/config.ron".to_vec(),
            message: "Permission denied".to_owned(),
        })
    );
}

#[test]
fn candidates_are_counted() {
    let paths = two_bases();
    assert_eq!(paths.candidate_count("x.ron"), 2);
    assert_eq!(paths.candidate_count(""), 2);
    assert_eq!(paths.candidate_count("/opt/x.ron"), 1);
    assert_eq!(paths.candidate_count(root_reference()), 2);
}
