//! What the developer's tool is asked to do, and where that leads: the
//! places from which the character data is had, and the files that an
//! installation copies.

use vstd::prelude::*;
use vstd::string::{StringExecFns, StringSliceAdditionalSpecFns};
use crate::paths::{
    join, joined, option_view, product_directory, split, system_directories, LIST_SEPARATOR,
};
use crate::text::{chars_of, lemma_pieces_nonempty, only};

verus! {

/// Generate the default configuration from the Unicode website.
#[derive(Debug, PartialEq, Eq)]
pub struct Args {
    /// URL or filesystem path to the Unicode website.
    pub unicode: String,
}

/// Generate the default configuration from the character database.
#[derive(Debug, PartialEq, Eq)]
pub struct GenerateArgs {
    /// URL or filesystem path to the character database.
    pub ucd: String,
}

/// Install the plugin and the default configuration.
#[derive(Debug, PartialEq, Eq)]
pub struct InstallArgs {
    /// The prefix under which the host launcher is installed.
    pub rofi_prefix: Vec<u8>,
    /// The build profile to install from.
    pub profile: String,
}

/// Where a text is had from.
#[derive(Debug, PartialEq, Eq)]
pub struct Source {
    /// The URL or the file's path.
    pub place: String,
    /// Whether `place` is a URL, to download, and not a file, to read.
    pub remote: bool,
}

/// Whether `text` begins with `prefix`.
pub open spec fn starts_with(text: Seq<char>, prefix: Seq<char>) -> bool {
    prefix.len() <= text.len() && text.take(prefix.len() as int) == prefix
}

/// Whether a place is a URL: it begins with `http://` or `https://`.
pub open spec fn is_url(place: Seq<char>) -> bool {
    starts_with(place, "http://"@) || starts_with(place, "https://"@)
}

/// `base` as a directory: with a slash at its end.
pub open spec fn directory(base: Seq<char>) -> Seq<char> {
    if base.len() > 0 && base.last() == '/' {
        base
    } else {
        base.push('/')
    }
}

/// The place of the file `name` below `base`.
pub open spec fn place_of(base: Seq<char>, name: Seq<char>) -> Seq<char> {
    directory(base) + name
}

/// Whether `text` begins with `prefix`.
pub fn begins_with(text: &[char], prefix: &str) -> (found: bool)
    ensures
        found == starts_with(text@, prefix@),
{
    let wanted = chars_of(prefix);
    if wanted.len() > text.len() {
        return false;
    }
    let mut i: usize = 0;
    while i < wanted.len()
        invariant
            i <= wanted.len() <= text.len(),
            wanted@ == prefix@,
            forall|j: int| 0 <= j < i ==> text@[j] == wanted@[j],
        decreases wanted.len() - i,
    {
        if text[i] != wanted[i] {
            assert(text@.take(prefix@.len() as int)[i as int] != prefix@[i as int]);
            return false;
        }
        i += 1;
    }
    assert(text@.take(prefix@.len() as int) =~= prefix@);
    true
}

/// Where the file `name` below `base` is had from.
pub fn locate(base: &str, name: &str) -> (source: Source)
    ensures
        source.place@ == place_of(base@, name@),
        source.remote == is_url(source.place@),
{
    let chars = chars_of(base);
    let mut place = base.to_owned();
    if !(chars.len() > 0 && chars[chars.len() - 1] == '/') {
        proof {
            reveal_strlit("/");
        }
        place.append("/");
        assert(place@ =~= base@.push('/'));
    }
    place.append(name);
    let whole = chars_of(place.as_str());
    let remote = begins_with(whole.as_slice(), "http://") || begins_with(
        whole.as_slice(),
        "https://",
    );
    Source { place, remote }
}

impl Args {
    /// Where the file `path` of the Unicode website is had from.
    pub fn locate(&self, path: &str) -> (source: Source)
        ensures
            source.place@ == place_of(self.unicode@, path@),
            source.remote == is_url(source.place@),
    {
        locate(self.unicode.as_str(), path)
    }
}

/// What generating the code point list takes: the two files of the
/// character database, and the file to write.
#[derive(Debug, PartialEq, Eq)]
pub struct GeneratePlan {
    pub unicode_data: Source,
    pub name_aliases: Source,
    pub output: Vec<u8>,
}

/// The file that holds the generated code point list.
pub open spec fn generated_file() -> Seq<u8> {
    joined("etc/unicode".spec_bytes(), "codepoints.ron".spec_bytes())
}

/// Plans the generation of the code point list from the character database
/// at `args.ucd`.
pub fn generate(args: GenerateArgs) -> (plan: GeneratePlan)
    ensures
        plan.unicode_data.place@ == place_of(args.ucd@, "UnicodeData.txt"@),
        plan.unicode_data.remote == is_url(plan.unicode_data.place@),
        plan.name_aliases.place@ == place_of(args.ucd@, "NameAliases.txt"@),
        plan.name_aliases.remote == is_url(plan.name_aliases.place@),
        plan.output@ == generated_file(),
{
    GeneratePlan {
        unicode_data: locate(args.ucd.as_str(), "UnicodeData.txt"),
        name_aliases: locate(args.ucd.as_str(), "NameAliases.txt"),
        output: join("etc/unicode".as_bytes(), "codepoints.ron".as_bytes()),
    }
}

/// What an installation copies: the plugin from the build directory to the
/// host's plugin directory, and the default configuration to the first
/// system-wide configuration directory.
#[derive(Debug, PartialEq, Eq)]
pub struct InstallPlan {
    pub library_from: Vec<u8>,
    pub library_to: Vec<u8>,
    pub configuration_to: Vec<u8>,
}

/// The directory of a build profile: `debug` for the profile `dev`, else the
/// profile's own name.
pub open spec fn profile_directory(profile: Seq<char>) -> Seq<u8> {
    if profile == "dev"@ {
        "debug".spec_bytes()
    } else {
        vstd::utf8::encode_utf8(profile)
    }
}

/// The built plugin of a profile.
pub open spec fn built_library(profile: Seq<char>) -> Seq<u8> {
    joined(
        joined("target".spec_bytes(), profile_directory(profile)),
        "librofi_unicode.so".spec_bytes(),
    )
}

/// The plugin's place below the host's prefix.
pub open spec fn installed_library(prefix: Seq<u8>) -> Seq<u8> {
    joined(joined(joined(prefix, "lib".spec_bytes()), "rofi".spec_bytes()), "unicode.so".spec_bytes())
}

/// The default configuration's place: the product's directory in the first
/// of the system-wide configuration directories.
pub open spec fn installed_configuration(config_dirs: Option<Seq<u8>>) -> Seq<u8> {
    joined(
        system_directories(config_dirs)[0],
        product_directory(),
    )
}

/// Plans an installation. `config_dirs` is the list of system-wide
/// configuration directories, if the environment sets one.
pub fn install(args: InstallArgs, config_dirs: Option<Vec<u8>>) -> (plan: InstallPlan)
    ensures
        plan.library_from@ == built_library(args.profile@),
        plan.library_to@ == installed_library(args.rofi_prefix@),
        plan.configuration_to@ == installed_configuration(option_view(config_dirs)),
{
    let profile = chars_of(args.profile.as_str());
    let dev = chars_of("dev");
    let is_dev = profile.len() == dev.len() && begins_with(profile.as_slice(), "dev");
    proof {
        if is_dev {
            assert(profile@.take(profile@.len() as int) =~= profile@);
        }
        if args.profile@ == "dev"@ {
            assert("dev"@.take("dev"@.len() as int) =~= "dev"@);
        }
    }
    let directory = if is_dev {
        join("target".as_bytes(), "debug".as_bytes())
    } else {
        join("target".as_bytes(), args.profile.as_str().as_bytes())
    };
    let library_from = join(directory.as_slice(), "librofi_unicode.so".as_bytes());
    let lib = join(args.rofi_prefix.as_slice(), "lib".as_bytes());
    let rofi = join(lib.as_slice(), "rofi".as_bytes());
    let library_to = join(rofi.as_slice(), "unicode.so".as_bytes());
    let system = match &config_dirs {
        Some(list) => {
            proof {
                lemma_pieces_nonempty(list@, only(LIST_SEPARATOR));
            }
            split(list.as_slice(), LIST_SEPARATOR)
        },
        None => {
            proof {
                lemma_pieces_nonempty("/etc/xdg".spec_bytes(), only(LIST_SEPARATOR));
            }
            split("/etc/xdg".as_bytes(), LIST_SEPARATOR)
        },
    };
    let configuration_to = join(system[0].as_slice(), "rofi-unicode".as_bytes());
    InstallPlan { library_from, library_to, configuration_to }
}

} // verus!
