//! The search path, and how a fragment is looked for along it.
//!
//! A path is a sequence of bytes with `/` between its components. The search
//! path holds the user's configuration directory first and the system-wide
//! ones after it, each with the product's own directory below it.

use vstd::prelude::*;
use vstd::string::StringSliceAdditionalSpecFns;
use crate::error::{LoadError, LoadErrorSpec};
use crate::text::{only, pieces};

verus! {

/// The byte between the components of a path.
pub const SEPARATOR: u8 = 0x2f;

/// The byte between the directories of a list of directories.
pub const LIST_SEPARATOR: u8 = 0x3a;

/// The mathematical value of a list of paths.
pub open spec fn paths_view(paths: Seq<Vec<u8>>) -> Seq<Seq<u8>> {
    Seq::new(paths.len(), |i: int| paths[i]@)
}

/// Whether `path` starts at the root.
pub open spec fn is_absolute(path: Seq<u8>) -> bool {
    path.len() > 0 && path[0] == SEPARATOR
}

/// `path` below `base`. An absolute `path` stands for itself; otherwise a
/// separator comes between the two unless `base` is empty or ends in one.
pub open spec fn joined(base: Seq<u8>, path: Seq<u8>) -> Seq<u8> {
    if is_absolute(path) {
        path
    } else if base.len() > 0 && base.last() != SEPARATOR {
        base.push(SEPARATOR) + path
    } else {
        base + path
    }
}

/// The name of the product's directory below each configuration directory.
pub open spec fn product_directory() -> Seq<u8> {
    "rofi-unicode".spec_bytes()
}

/// The reference of the root configuration file. It is looked for along the
/// search path as a fragment is.
pub open spec fn root_name() -> Seq<char> {
    "config.ron"@
}

/// The name of the root configuration file in the product's directory.
pub open spec fn root_file() -> Seq<u8> {
    reference_bytes(root_name())
}

/// The user's configuration directory: the one given, or `.config` below the
/// home directory.
pub open spec fn user_directory(config_home: Option<Seq<u8>>, home: Option<Seq<u8>>) -> Option<
    Seq<u8>,
> {
    match config_home {
        Some(directory) => Some(directory),
        None => match home {
            Some(home) => Some(joined(home, ".config".spec_bytes())),
            None => None,
        },
    }
}

/// The system-wide configuration directories: the pieces of the list given,
/// or `/etc/xdg` alone.
pub open spec fn system_directories(config_dirs: Option<Seq<u8>>) -> Seq<Seq<u8>> {
    match config_dirs {
        Some(list) => pieces(list, only(LIST_SEPARATOR)),
        None => pieces("/etc/xdg".spec_bytes(), only(LIST_SEPARATOR)),
    }
}

/// The bases of the search path for the given directories.
pub open spec fn search_path(user: Seq<u8>, system: Seq<Seq<u8>>) -> Seq<Seq<u8>> {
    seq![joined(user, product_directory())] + Seq::new(
        system.len(),
        |i: int| joined(system[i], product_directory()),
    )
}

/// The files in which a fragment is looked for, in order: an absolute
/// reference stands for itself, any other is tried below each base.
pub open spec fn candidates(bases: Seq<Seq<u8>>, reference: Seq<u8>) -> Seq<Seq<u8>> {
    if is_absolute(reference) {
        seq![reference]
    } else {
        Seq::new(bases.len(), |i: int| joined(bases[i], reference))
    }
}

fn append(whole: &mut Vec<u8>, bytes: &[u8])
    ensures
        final(whole)@ == old(whole)@ + bytes@,
{
    let mut i: usize = 0;
    while i < bytes.len()
        invariant
            i <= bytes.len(),
            whole@ == old(whole)@ + bytes@.take(i as int),
        decreases bytes.len() - i,
    {
        whole.push(bytes[i]);
        i += 1;
        assert(whole@ =~= old(whole)@ + bytes@.take(i as int));
    }
    assert(bytes@.take(i as int) =~= bytes@);
}

/// `path` below `base`.
pub fn join(base: &[u8], path: &[u8]) -> (whole: Vec<u8>)
    ensures
        whole@ == joined(base@, path@),
{
    let mut whole: Vec<u8> = Vec::new();
    if !(path.len() > 0 && path[0] == SEPARATOR) {
        append(&mut whole, base);
        if base.len() > 0 && base[base.len() - 1] != SEPARATOR {
            whole.push(SEPARATOR);
        }
    }
    append(&mut whole, path);
    assert(whole@ =~= joined(base@, path@));
    whole
}

/// The pieces of `bytes` between the occurrences of `separator`.
pub fn split(bytes: &[u8], separator: u8) -> (parts: Vec<Vec<u8>>)
    ensures
        paths_view(parts@) == pieces(bytes@, only(separator)),
{
    let ghost separates = only(separator);
    let mut parts: Vec<Vec<u8>> = Vec::new();
    let mut current: Vec<u8> = Vec::new();
    let mut i: usize = 0;
    assert(paths_view(parts@).push(current@) =~= pieces(bytes@.take(0), separates));
    while i < bytes.len()
        invariant
            i <= bytes.len(),
            separates == only(separator),
            paths_view(parts@).push(current@) == pieces(bytes@.take(i as int), separates),
        decreases bytes.len() - i,
    {
        let ghost done = paths_view(parts@);
        let ghost piece = current@;
        let ghost seen = bytes@.take(i as int);
        let byte = bytes[i];
        assert(bytes@.take(i + 1).drop_last() =~= seen);
        assert(bytes@.take(i + 1).last() == byte);
        if byte == separator {
            parts.push(current);
            current = Vec::new();
            assert(paths_view(parts@).push(current@) =~= done.push(piece).push(Seq::empty()));
        } else {
            current.push(byte);
            assert(done.push(piece).drop_last() =~= done);
            assert(paths_view(parts@).push(current@) =~= done.push(piece.push(byte)));
        }
        i += 1;
    }
    assert(bytes@.take(i as int) =~= bytes@);
    let ghost done = paths_view(parts@);
    parts.push(current);
    assert(paths_view(parts@) =~= done.push(current@));
    parts
}

/// Why there is no search path.
#[derive(Debug, PartialEq, Eq, Structural, Clone, Copy)]
pub enum PathsError {
    /// Neither a configuration directory nor a home directory is known.
    HomeNotSet,
}

/// What came of reading a file.
#[derive(Debug, PartialEq, Eq)]
pub enum ReadOutcome {
    /// The file's text.
    Content(String),
    /// There is no such file; the system's message.
    NotFound(String),
    /// The file is there and could not be read; the system's message.
    Failed(String),
}

/// What to do next for a fragment.
#[derive(Debug, PartialEq, Eq)]
pub enum LoadStep {
    /// Read this file, and come back with the outcome.
    Read(Vec<u8>),
    /// The fragment's text.
    Loaded(String),
    /// There is no fragment.
    Failed(LoadError),
}

/// The mathematical value of a [`LoadStep`].
pub ghost enum LoadStepSpec {
    Read(Seq<u8>),
    Loaded(Seq<char>),
    Failed(LoadErrorSpec),
}

impl View for LoadStep {
    type V = LoadStepSpec;

    open spec fn view(&self) -> LoadStepSpec {
        match self {
            LoadStep::Read(path) => LoadStepSpec::Read(path@),
            LoadStep::Loaded(text) => LoadStepSpec::Loaded(text@),
            LoadStep::Failed(error) => LoadStepSpec::Failed(error@),
        }
    }
}

/// The mathematical value of a [`ReadOutcome`].
pub ghost enum ReadOutcomeSpec {
    Content(Seq<char>),
    NotFound(Seq<char>),
    Failed(Seq<char>),
}

impl View for ReadOutcome {
    type V = ReadOutcomeSpec;

    open spec fn view(&self) -> ReadOutcomeSpec {
        match self {
            ReadOutcome::Content(text) => ReadOutcomeSpec::Content(text@),
            ReadOutcome::NotFound(message) => ReadOutcomeSpec::NotFound(message@),
            ReadOutcome::Failed(message) => ReadOutcomeSpec::Failed(message@),
        }
    }
}

/// What follows the outcome of reading candidate number `attempt` for the
/// fragment `reference`. The text of the first file that is there is the
/// fragment. A file that cannot be read ends the search, and so does a
/// missing file where the reference is absolute. Otherwise a missing file
/// leads to the next base, and after the last to the failure that names the
/// reference and all bases.
pub open spec fn next_step(
    bases: Seq<Seq<u8>>,
    reference: Seq<char>,
    attempt: int,
    outcome: ReadOutcomeSpec,
) -> LoadStepSpec {
    let files = candidates(bases, reference_bytes(reference));
    match outcome {
        ReadOutcomeSpec::Content(text) => LoadStepSpec::Loaded(text),
        ReadOutcomeSpec::Failed(message) => LoadStepSpec::Failed(
            LoadErrorSpec::Io { path: files[attempt], message },
        ),
        ReadOutcomeSpec::NotFound(message) => if is_absolute(reference_bytes(reference)) {
            LoadStepSpec::Failed(LoadErrorSpec::Io { path: files[attempt], message })
        } else if attempt + 1 < files.len() {
            LoadStepSpec::Read(files[attempt + 1])
        } else {
            LoadStepSpec::Failed(LoadErrorSpec::NotFoundInSearchPath { reference, bases })
        },
    }
}

/// The bytes of a reference.
pub open spec fn reference_bytes(reference: Seq<char>) -> Seq<u8> {
    vstd::utf8::encode_utf8(reference)
}

/// The reference of the root configuration file.
pub fn root_reference() -> (reference: &'static str)
    ensures
        reference@ == root_name(),
{
    "config.ron"
}

/// The root configuration file is looked for below each base in turn.
pub proof fn lemma_root_candidates(bases: Seq<Seq<u8>>)
    ensures
        !is_absolute(root_file()),
        candidates(bases, root_file()) == Seq::new(
            bases.len(),
            |i: int| joined(bases[i], root_file()),
        ),
{
    reveal_strlit("config.ron");
    let name = root_name();
    assert(name.len() == 10);
    assert(name[0] == 'c');
    assert(vstd::utf8::is_ascii_chars(name));
    vstd::utf8::is_ascii_chars_encode_utf8(name);
    assert(root_file()[0] == 'c' as u8);
}

/// The search path.
#[derive(Debug, PartialEq, Eq)]
pub struct Paths {
    bases: Vec<Vec<u8>>,
}

impl View for Paths {
    type V = Seq<Seq<u8>>;

    closed spec fn view(&self) -> Seq<Seq<u8>> {
        paths_view(self.bases@)
    }
}

impl Paths {
    /// A search path has at least one base, the user's.
    #[verifier::type_invariant]
    spec fn has_a_base(self) -> bool {
        self.bases@.len() >= 1
    }


    /// The search path for the environment's settings: the user's
    /// configuration directory, the user's home directory, and the list of
    /// system-wide configuration directories, each if it is set.
    pub fn from_env(
        config_home: Option<Vec<u8>>,
        home: Option<Vec<u8>>,
        config_dirs: Option<Vec<u8>>,
    ) -> (paths: Result<Paths, PathsError>)
        ensures
            match user_directory(option_view(config_home), option_view(home)) {
                Some(user) => paths matches Ok(found) && found@ == search_path(
                    user,
                    system_directories(option_view(config_dirs)),
                ),
                None => paths == Err::<Paths, PathsError>(PathsError::HomeNotSet),
            },
    {
        let user = match config_home {
            Some(directory) => directory,
            None => match home {
                Some(home) => join(home.as_slice(), ".config".as_bytes()),
                None => {
                    return Err(PathsError::HomeNotSet);
                },
            },
        };
        let system = match config_dirs {
            Some(list) => split(list.as_slice(), LIST_SEPARATOR),
            None => split("/etc/xdg".as_bytes(), LIST_SEPARATOR),
        };
        let ghost wanted = search_path(user@, paths_view(system@));
        let mut bases: Vec<Vec<u8>> = Vec::new();
        bases.push(join(user.as_slice(), "rofi-unicode".as_bytes()));
        let mut i: usize = 0;
        assert(paths_view(bases@) =~= wanted.take(1));
        while i < system.len()
            invariant
                i <= system.len(),
                wanted == search_path(user@, paths_view(system@)),
                paths_view(bases@) == wanted.take(i + 1),
            decreases system.len() - i,
        {
            let ghost had = paths_view(bases@);
            let base = join(system[i].as_slice(), "rofi-unicode".as_bytes());
            assert(base@ == wanted[i + 1]);
            bases.push(base);
            i += 1;
            assert(paths_view(bases@) =~= had.push(base@));
            assert(paths_view(bases@) =~= wanted.take(i + 1));
        }
        assert(wanted.take(i + 1) =~= wanted);
        Ok(Paths { bases })
    }

    /// The bases, in the order in which they are searched.
    pub fn bases(&self) -> (bases: &Vec<Vec<u8>>)
        ensures
            paths_view(bases@) == self@,
            bases@.len() >= 1,
    {
        proof {
            use_type_invariant(self);
        }
        &self.bases
    }

    /// The user's base: the first of the search path.
    pub fn config_home(&self) -> (base: &Vec<u8>)
        ensures
            self@.len() >= 1,
            base@ == self@[0],
    {
        proof {
            use_type_invariant(self);
        }
        &self.bases[0]
    }

    /// The number of files in which the fragment `reference` is looked for.
    pub fn candidate_count(&self, reference: &str) -> (count: usize)
        ensures
            count == candidates(self@, reference_bytes(reference@)).len(),
            count >= 1,
    {
        proof {
            use_type_invariant(self);
        }
        let bytes = reference.as_bytes();
        if bytes.len() > 0 && bytes[0] == SEPARATOR {
            1
        } else {
            self.bases.len()
        }
    }

    /// The file to read first for the root configuration: `config.ron` in
    /// the user's base.
    pub fn begin_root(&self) -> (step: LoadStep)
        ensures
            self@.len() >= 1,
            step@ == LoadStepSpec::Read(joined(self@[0], root_file())),
    {
        proof {
            lemma_root_candidates(self@);
        }
        self.begin_load(root_reference())
    }

    /// What follows the outcome of reading the root configuration in base
    /// number `attempt`: its text where the file is there, the next base
    /// where it is missing, and after the last base the failure that names
    /// the file and all bases.
    pub fn continue_root(&self, attempt: usize, outcome: ReadOutcome) -> (step: LoadStep)
        requires
            attempt < self@.len(),
        ensures
            step@ == next_step(self@, root_name(), attempt as int, outcome@),
            step@ == match outcome@ {
                ReadOutcomeSpec::Content(text) => LoadStepSpec::Loaded(text),
                ReadOutcomeSpec::Failed(message) => LoadStepSpec::Failed(
                    LoadErrorSpec::Io { path: joined(self@[attempt as int], root_file()), message },
                ),
                ReadOutcomeSpec::NotFound(_) => if attempt + 1 < self@.len() {
                    LoadStepSpec::Read(joined(self@[attempt + 1], root_file()))
                } else {
                    LoadStepSpec::Failed(
                        LoadErrorSpec::NotFoundInSearchPath {
                            reference: root_name(),
                            bases: self@,
                        },
                    )
                },
            },
    {
        proof {
            lemma_root_candidates(self@);
        }
        self.continue_load(root_reference(), attempt, outcome)
    }

    /// The file to read first for the fragment `reference`.
    pub fn begin_load(&self, reference: &str) -> (step: LoadStep)
        ensures
            candidates(self@, reference_bytes(reference@)).len() >= 1,
            step@ == LoadStepSpec::Read(candidates(self@, reference_bytes(reference@))[0]),
    {
        proof {
            use_type_invariant(self);
        }
        LoadStep::Read(join(self.bases[0].as_slice(), reference.as_bytes()))
    }

    /// What follows the outcome of reading candidate number `attempt` for
    /// the fragment `reference`.
    pub fn continue_load(&self, reference: &str, attempt: usize, outcome: ReadOutcome) -> (step:
        LoadStep)
        requires
            attempt < candidates(self@, reference_bytes(reference@)).len(),
        ensures
            step@ == next_step(self@, reference@, attempt as int, outcome@),
    {
        proof {
            use_type_invariant(self);
        }
        let bytes = reference.as_bytes();
        let absolute = bytes.len() > 0 && bytes[0] == SEPARATOR;
        match outcome {
            ReadOutcome::Content(text) => LoadStep::Loaded(text),
            ReadOutcome::Failed(message) => {
                let path = join(self.bases[attempt].as_slice(), bytes);
                LoadStep::Failed(LoadError::Io { path, message })
            },
            ReadOutcome::NotFound(message) => {
                if absolute {
                    let path = join(self.bases[attempt].as_slice(), bytes);
                    LoadStep::Failed(LoadError::Io { path, message })
                } else if attempt < self.bases.len() - 1 {
                    LoadStep::Read(join(self.bases[attempt + 1].as_slice(), bytes))
                } else {
                    let bases = copy_paths(&self.bases);
                    let error = LoadError::NotFoundInSearchPath {
                        reference: reference.to_owned(),
                        bases,
                    };
                    assert(error@ == (LoadErrorSpec::NotFoundInSearchPath {
                        reference: reference@,
                        bases: self@,
                    }));
                    LoadStep::Failed(error)
                }
            },
        }
    }
}

/// The mathematical value of an optional path.
pub open spec fn option_view(path: Option<Vec<u8>>) -> Option<Seq<u8>> {
    match path {
        Some(bytes) => Some(bytes@),
        None => None,
    }
}

fn copy_paths(paths: &Vec<Vec<u8>>) -> (copy: Vec<Vec<u8>>)
    ensures
        paths_view(copy@) == paths_view(paths@),
{
    let mut copy: Vec<Vec<u8>> = Vec::new();
    let mut i: usize = 0;
    while i < paths.len()
        invariant
            i <= paths.len(),
            paths_view(copy@) == paths_view(paths@).take(i as int),
        decreases paths.len() - i,
    {
        let ghost had = paths_view(copy@);
        let mut path: Vec<u8> = Vec::new();
        append(&mut path, paths[i].as_slice());
        assert(path@ =~= paths@[i as int]@);
        copy.push(path);
        i += 1;
        assert(paths_view(copy@) =~= had.push(path@));
        assert(paths_view(copy@) =~= paths_view(paths@).take(i as int));
    }
    assert(paths_view(paths@).take(i as int) =~= paths_view(paths@));
    copy
}

/// How the search for the fragment `reference` ends from candidate number
/// `attempt` on, where reading a file gives what `files` says of it.
pub open spec fn search_from(
    bases: Seq<Seq<u8>>,
    reference: Seq<char>,
    files: spec_fn(Seq<u8>) -> ReadOutcomeSpec,
    attempt: int,
) -> LoadStepSpec
    decreases candidates(bases, reference_bytes(reference)).len() - attempt,
{
    let all = candidates(bases, reference_bytes(reference));
    if 0 <= attempt < all.len() {
        match next_step(bases, reference, attempt, files(all[attempt])) {
            LoadStepSpec::Read(_) => search_from(bases, reference, files, attempt + 1),
            end => end,
        }
    } else {
        LoadStepSpec::Failed(LoadErrorSpec::NotFoundInSearchPath { reference, bases })
    }
}

/// The first base that holds the fragment decides: where the file is
/// missing below every base before number `found`, the search ends as the
/// outcome of reading below base number `found` says.
pub proof fn lemma_first_match_wins(
    bases: Seq<Seq<u8>>,
    reference: Seq<char>,
    files: spec_fn(Seq<u8>) -> ReadOutcomeSpec,
    found: int,
    attempt: int,
)
    requires
        !is_absolute(reference_bytes(reference)),
        0 <= attempt <= found < bases.len(),
        forall|i: int|
            attempt <= i < found ==> files(
                #[trigger] candidates(bases, reference_bytes(reference))[i],
            ) is NotFound,
        !(files(candidates(bases, reference_bytes(reference))[found]) is NotFound),
    ensures
        search_from(bases, reference, files, attempt) == next_step(
            bases,
            reference,
            found,
            files(candidates(bases, reference_bytes(reference))[found]),
        ),
    decreases found - attempt,
{
    if attempt < found {
        lemma_first_match_wins(bases, reference, files, found, attempt + 1);
    }
}

/// A fragment that is missing below every base is not found: the search
/// ends in the failure that names the reference and all bases.
pub proof fn lemma_missing_everywhere(
    bases: Seq<Seq<u8>>,
    reference: Seq<char>,
    files: spec_fn(Seq<u8>) -> ReadOutcomeSpec,
    attempt: int,
)
    requires
        !is_absolute(reference_bytes(reference)),
        0 <= attempt <= bases.len(),
        forall|i: int|
            attempt <= i < bases.len() ==> files(
                #[trigger] candidates(bases, reference_bytes(reference))[i],
            ) is NotFound,
    ensures
        search_from(bases, reference, files, attempt) == LoadStepSpec::Failed(
            LoadErrorSpec::NotFoundInSearchPath { reference, bases },
        ),
    decreases bases.len() - attempt,
{
    if attempt < bases.len() {
        lemma_missing_everywhere(bases, reference, files, attempt + 1);
    }
}

/// The root configuration is read from the first base that holds it: where
/// `config.ron` is missing below every base before number `found` and is
/// there below that one, the search ends in its text.
pub proof fn lemma_root_found(
    bases: Seq<Seq<u8>>,
    files: spec_fn(Seq<u8>) -> ReadOutcomeSpec,
    found: int,
    text: Seq<char>,
)
    requires
        0 <= found < bases.len(),
        forall|i: int| 0 <= i < found ==> files(#[trigger] joined(bases[i], root_file())) is NotFound,
        files(joined(bases[found], root_file())) == ReadOutcomeSpec::Content(text),
    ensures
        search_from(bases, root_name(), files, 0) == LoadStepSpec::Loaded(text),
{
    lemma_root_candidates(bases);
    let all = candidates(bases, root_file());
    assert forall|i: int| 0 <= i < found implies files(#[trigger] all[i]) is NotFound by {
        assert(all[i] == joined(bases[i], root_file()));
    }
    lemma_first_match_wins(bases, root_name(), files, found, 0);
}

} // verus!
