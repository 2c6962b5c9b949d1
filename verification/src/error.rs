//! Why a configuration cannot be loaded.

use vstd::prelude::*;
use crate::document::{FormatError, FormatErrorSpec};

verus! {

/// Why a fragment's text could not be had.
#[derive(Debug, PartialEq, Eq)]
pub enum LoadError {
    /// No base of the search path holds the fragment.
    NotFoundInSearchPath { reference: String, bases: Vec<Vec<u8>> },
    /// A file was there and could not be read.
    Io { path: Vec<u8>, message: String },
}

/// Why a fragment cannot be merged in.
#[derive(Debug, PartialEq, Eq)]
pub enum FragmentError {
    /// Its text could not be had.
    Load(LoadError),
    /// Its text is no document; the parser's message.
    Malformed(String),
    /// Its document is no configuration node.
    Format(FormatError),
}

/// What went wrong during resolution.
#[derive(Debug, PartialEq, Eq)]
pub enum Cause {
    /// A fragment could not be merged in.
    Fragment { reference: String, error: FragmentError },
    /// A display name holds invalid markup; the markup engine's message.
    Markup { name: String, message: String },
    /// A fragment extends itself, directly or through others.
    CyclicInclude { reference: String },
}

/// A failed resolution: what went wrong, and within which fragments, the
/// outermost first.
#[derive(Debug, PartialEq, Eq)]
pub struct ConfigError {
    pub chain: Vec<String>,
    pub cause: Cause,
}

/// The mathematical value of a [`LoadError`].
pub ghost enum LoadErrorSpec {
    NotFoundInSearchPath { reference: Seq<char>, bases: Seq<Seq<u8>> },
    Io { path: Seq<u8>, message: Seq<char> },
}

/// The mathematical value of a [`FragmentError`].
pub ghost enum FragmentErrorSpec {
    Load(LoadErrorSpec),
    Malformed(Seq<char>),
    Format(FormatErrorSpec),
}

/// The mathematical value of a [`Cause`].
pub ghost enum CauseSpec {
    Fragment { reference: Seq<char>, error: FragmentErrorSpec },
    Markup { name: Seq<char>, message: Seq<char> },
    CyclicInclude { reference: Seq<char> },
}

/// The mathematical value of a [`ConfigError`].
pub ghost struct ConfigErrorSpec {
    pub chain: Seq<Seq<char>>,
    pub cause: CauseSpec,
}

impl View for LoadError {
    type V = LoadErrorSpec;

    open spec fn view(&self) -> LoadErrorSpec {
        match self {
            LoadError::NotFoundInSearchPath { reference, bases } => {
                LoadErrorSpec::NotFoundInSearchPath {
                    reference: reference@,
                    bases: Seq::new(bases@.len(), |i: int| bases@[i]@),
                }
            },
            LoadError::Io { path, message } => LoadErrorSpec::Io {
                path: path@,
                message: message@,
            },
        }
    }
}

impl View for FragmentError {
    type V = FragmentErrorSpec;

    open spec fn view(&self) -> FragmentErrorSpec {
        match self {
            FragmentError::Load(error) => FragmentErrorSpec::Load(error@),
            FragmentError::Malformed(message) => FragmentErrorSpec::Malformed(message@),
            FragmentError::Format(error) => FragmentErrorSpec::Format(error@),
        }
    }
}

impl View for Cause {
    type V = CauseSpec;

    open spec fn view(&self) -> CauseSpec {
        match self {
            Cause::Fragment { reference, error } => CauseSpec::Fragment {
                reference: reference@,
                error: error@,
            },
            Cause::Markup { name, message } => CauseSpec::Markup {
                name: name@,
                message: message@,
            },
            Cause::CyclicInclude { reference } => CauseSpec::CyclicInclude {
                reference: reference@,
            },
        }
    }
}

impl View for ConfigError {
    type V = ConfigErrorSpec;

    open spec fn view(&self) -> ConfigErrorSpec {
        ConfigErrorSpec {
            chain: Seq::new(self.chain@.len(), |i: int| self.chain@[i]@),
            cause: self.cause@,
        }
    }
}

} // verus!
