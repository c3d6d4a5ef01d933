//! The errors of the library.
use vstd::prelude::*;

verus! {

/// What can go wrong while reading an archive.
#[derive(Debug)]
pub enum Error {
    /// No archive header was found.
    NoHeader,
    /// The byte source or sink failed.
    IoError { cause: String },
    /// The archive has a format version other than 0.
    UnsupportedVersion,
    /// The archive's structure is inconsistent.
    Corrupted,
    /// No file of that name is in the archive.
    FileNotFound,
    /// A sector uses a compression method that is not supported.
    UnsupportedCompression { kind: String },
}

/// The mathematical value of an `Error`.
pub enum Failure {
    NoHeader,
    Io(Seq<char>),
    UnsupportedVersion,
    Corrupted,
    FileNotFound,
    UnsupportedCompression(Seq<char>),
}

impl View for Error {
    type V = Failure;

    open spec fn view(&self) -> Failure {
        match self {
            Error::NoHeader => Failure::NoHeader,
            Error::IoError { cause } => Failure::Io(cause@),
            Error::UnsupportedVersion => Failure::UnsupportedVersion,
            Error::Corrupted => Failure::Corrupted,
            Error::FileNotFound => Failure::FileNotFound,
            Error::UnsupportedCompression { kind } => Failure::UnsupportedCompression(kind@),
        }
    }
}

/// The mathematical value of a result that carries bytes.
pub open spec fn bytes_result(r: Result<Vec<u8>, Error>) -> Result<Seq<u8>, Failure> {
    match r {
        Ok(v) => Ok(v@),
        Err(e) => Err(e@),
    }
}

impl Error {
    /// A description of the error.
    pub fn message(&self) -> (r: String)
        ensures
            self is NoHeader ==> r@ == "No header found"@,
            self is UnsupportedVersion ==> r@ == "Unsupported MPQ version"@,
            self is Corrupted ==> r@ == "Corrupted archive"@,
            self is FileNotFound ==> r@ == "File not found"@,
            self matches Error::IoError { cause } ==> r@ == "IO Error: "@ + cause@,
            self matches Error::UnsupportedCompression { kind } ==> r@ == "Compression type unsupported: "@
                + kind@,
    {
        match self {
            Error::NoHeader => String::from_str("No header found"),
            Error::IoError { cause } => {
                let mut m = String::from_str("IO Error: ");
                m.append(cause.as_str());
                m
            },
            Error::UnsupportedVersion => String::from_str("Unsupported MPQ version"),
            Error::Corrupted => String::from_str("Corrupted archive"),
            Error::FileNotFound => String::from_str("File not found"),
            Error::UnsupportedCompression { kind } => {
                let mut m = String::from_str("Compression type unsupported: ");
                m.append(kind.as_str());
                m
            },
        }
    }
}

} // verus!
