use rofi_unicode::tool::{generate, install, locate, Args, GenerateArgs, InstallArgs, Source};

#[test]
fn generate_reads_the_database_from_the_web() {
    let plan = generate(GenerateArgs {
        ucd: "https://www.unicode.org/Public/UCD/latest/ucd/".to_owned(),
    });
    assert_eq!(
        plan.unicode_data,
        Source {
            place: "https://www.unicode.org/Public/UCD/latest/ucd/UnicodeData.txt".to_owned(),
            remote: true,
        }
    );
    assert_eq!(
        plan.name_aliases,
        Source {
            place: "https://www.unicode.org/Public/UCD/latest/ucd/NameAliases.txt".to_owned(),
            remote: true,
        }
    );
    assert_eq!(plan.output, b"etc/unicode/codepoints.ron".to_vec());
}

#[test]
fn generate_reads_the_database_from_a_directory() {
    let plan = generate(GenerateArgs { ucd: "/srv/ucd".to_owned() });
    assert_eq!(
        plan.unicode_data,
        Source { place: "/srv/ucd/UnicodeData.txt".to_owned(), remote: false }
    );
    assert_eq!(
        plan.name_aliases,
        Source { place: "/srv/ucd/NameAliases.txt".to_owned(), remote: false }
    );
}

#[test]
fn place_is_a_url_by_its_scheme() {
    assert!(locate("http://host", "f").remote);
    assert_eq!(locate("http://host", "f").place, "http://host/f");
    assert!(!locate("httpx://host", "f").remote);
    assert!(!locate("ftp://host/", "f").remote);
    assert!(!locate("", "http://f").remote);
    assert_eq!(locate("", "http://f").place, "/http://f");
    assert!(locate("https:/", "/f").remote);
    let args = Args { unicode: "https://www.unicode.org/".to_owned() };
    assert_eq!(
        args.locate("emoji/charts/emoji-list.txt"),
        Source {
            place: "https://www.unicode.org/emoji/charts/emoji-list.txt".to_owned(),
            remote: true,
        }
    );
}

#[test]
fn install_copies_the_release_build() {
    let plan = install(
        InstallArgs { rofi_prefix: b"/".to_vec(), profile: "release".to_owned() },
        None,
    );
    assert_eq!(plan.library_from, b"target/release/librofi_unicode.so".to_vec());
    assert_eq!(plan.library_to, b"/lib/rofi/unicode.so".to_vec());
    assert_eq!(plan.configuration_to, b"/etc/xdg/rofi-unicode".to_vec());
}

#[test]
fn install_takes_the_dev_profile_from_debug() {
    let plan = install(
        InstallArgs { rofi_prefix: b"/usr/local".to_vec(), profile: "dev".to_owned() },
        Some(b"/opt/xdg:/etc/xdg".to_vec()),
    );
    assert_eq!(plan.library_from, b"target/debug/librofi_unicode.so".to_vec());
    assert_eq!(plan.library_to, b"/usr/local/lib/rofi/unicode.so".to_vec());
    assert_eq!(plan.configuration_to, b"/opt/xdg/rofi-unicode".to_vec());
}

#[test]
fn install_keeps_other_profiles() {
    let plan = install(
        InstallArgs { rofi_prefix: b"".to_vec(), profile: "devel".to_owned() },
        Some(Vec::new()),
    );
    assert_eq!(plan.library_from, b"target/devel/librofi_unicode.so".to_vec());
    assert_eq!(plan.library_to, b"lib/rofi/unicode.so".to_vec());
    assert_eq!(plan.configuration_to, b"rofi-unicode".to_vec());
}
