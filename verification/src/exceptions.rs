//! The failures that the library reports.

use vstd::prelude::*;
use vstd::string::StringExecFns;

verus! {

/// Why an image, or one of its layers, could not be read or cached.
#[derive(Clone, Copy, Debug, PartialEq, Eq, Hash, Structural)]
pub enum ImageParcingError {
    CantDownloadImage,
    CantGetAHomeDir,
    FilesystemError,
    JSONError,
    DockerAPIError,
    LayerParsingError,
    NonUnixFileSystem,
    UnparceableFileName,
}

/// What the tree browser reports when a search matches nothing.
#[derive(Clone, Copy, Debug, PartialEq, Eq, Hash, Structural)]
pub enum GUIError {
    CantFilterTree,
}

impl ImageParcingError {
    /// The text of the error as it is shown to the user: the variant's name.
    pub open spec fn message_text(self) -> Seq<char> {
        match self {
            ImageParcingError::CantDownloadImage => "CantDownloadImage"@,
            ImageParcingError::CantGetAHomeDir => "CantGetAHomeDir"@,
            ImageParcingError::FilesystemError => "FilesystemError"@,
            ImageParcingError::JSONError => "JSONError"@,
            ImageParcingError::DockerAPIError => "DockerAPIError"@,
            ImageParcingError::LayerParsingError => "LayerParsingError"@,
            ImageParcingError::NonUnixFileSystem => "NonUnixFileSystem"@,
            ImageParcingError::UnparceableFileName => "UnparceableFileName"@,
        }
    }

    /// The text of the error as it is shown to the user.
    pub fn message(&self) -> (text: String)
        ensures
            text@ == self.message_text(),
    {
        match self {
            ImageParcingError::CantDownloadImage => String::from_str("CantDownloadImage"),
            ImageParcingError::CantGetAHomeDir => String::from_str("CantGetAHomeDir"),
            ImageParcingError::FilesystemError => String::from_str("FilesystemError"),
            ImageParcingError::JSONError => String::from_str("JSONError"),
            ImageParcingError::DockerAPIError => String::from_str("DockerAPIError"),
            ImageParcingError::LayerParsingError => String::from_str("LayerParsingError"),
            ImageParcingError::NonUnixFileSystem => String::from_str("NonUnixFileSystem"),
            ImageParcingError::UnparceableFileName => String::from_str("UnparceableFileName"),
        }
    }
}

impl GUIError {
    /// The text of the error as it is shown to the user: the variant's name.
    pub open spec fn message_text(self) -> Seq<char> {
        "CantFilterTree"@
    }

    /// The text of the error as it is shown to the user.
    pub fn message(&self) -> (text: String)
        ensures
            text@ == self.message_text(),
    {
        String::from_str("CantFilterTree")
    }
}

} // verus!
