use vstd::prelude::*;

verus! {

#[verifier::external_type_specification]
#[verifier::external_body]
pub struct ExIoError(std::io::Error);

/// What makes a file no valid document of its kind.
pub enum ParseFault {
    /// It is not valid TOML.
    Syntax(toml::de::Error),
    /// This part of it, the whole document where the name is empty, must be a
    /// table and is not.
    NotATable(String),
    /// It lacks this section.
    MissingSection(String),
}

/// Why a command could not be carried out.
pub enum ScaffoldError {
    /// A file could not be read or written.
    Io(std::io::Error),
    /// The manifest could not be written as TOML.
    TomlSer(toml::ser::Error),
    /// A file is not a valid document of its kind.
    TomlDe(ParseFault),
    /// No group of this name is in the groups file.
    GroupNotFound(String),
    /// The crate search for this name failed.
    VersionLookupFailed(String),
}

/// Relies on the `Debug` format of std::io::Error.
#[verifier::external_body]
fn io_error_text(e: &std::io::Error) -> String {
    format!("{:?}", e)
}

/// Relies on the `Debug` format of toml::ser::Error.
#[verifier::external_body]
fn ser_error_text(e: &toml::ser::Error) -> String {
    format!("{:?}", e)
}

/// Relies on the `Debug` format of toml::de::Error.
#[verifier::external_body]
fn de_error_text(e: &toml::de::Error) -> String {
    format!("{:?}", e)
}

impl ScaffoldError {
    /// The message that reports this error: a kind, then what it concerns.
    pub fn message(&self) -> (r: String)
        ensures
            match self {
                ScaffoldError::Io(_) => r@.len() >= "IO error: "@.len() && r@.subrange(
                    0,
                    "IO error: "@.len() as int,
                ) == "IO error: "@,
                ScaffoldError::TomlSer(_) | ScaffoldError::TomlDe(ParseFault::Syntax(_)) => r@.len()
                    >= "Serialization error: "@.len() && r@.subrange(
                    0,
                    "Serialization error: "@.len() as int,
                ) == "Serialization error: "@,
                ScaffoldError::GroupNotFound(n) => r@ == "Group could not be found: "@ + n@,
                ScaffoldError::TomlDe(ParseFault::NotATable(n)) => if n@.len() == 0 {
                    r@ == "Serialization error: the document is not a table"@
                } else {
                    r@ == "Serialization error: "@ + n@ + " is not a table"@
                },
                ScaffoldError::TomlDe(ParseFault::MissingSection(n)) => r@
                    == "Serialization error: missing "@ + n@,
                ScaffoldError::VersionLookupFailed(n) => r@ == "Crate search failed for "@ + n@,
            },
    {
        let mut r = String::new();
        match self {
            ScaffoldError::Io(e) => {
                r.append("IO error: ");
                let ghost head = r@;
                r.append(io_error_text(e).as_str());
                assert(r@.subrange(0, head.len() as int) =~= head);
            },
            ScaffoldError::TomlSer(e) => {
                r.append("Serialization error: ");
                let ghost head = r@;
                r.append(ser_error_text(e).as_str());
                assert(r@.subrange(0, head.len() as int) =~= head);
            },
            ScaffoldError::TomlDe(ParseFault::Syntax(e)) => {
                r.append("Serialization error: ");
                let ghost head = r@;
                r.append(de_error_text(e).as_str());
                assert(r@.subrange(0, head.len() as int) =~= head);
            },
            ScaffoldError::GroupNotFound(n) => {
                r.append("Group could not be found: ");
                r.append(n.as_str());
            },
            ScaffoldError::TomlDe(ParseFault::NotATable(n)) => {
                if n.unicode_len() == 0 {
                    r.append("Serialization error: the document is not a table");
                } else {
                    r.append("Serialization error: ");
                    r.append(n.as_str());
                    r.append(" is not a table");
                }
            },
            ScaffoldError::TomlDe(ParseFault::MissingSection(n)) => {
                r.append("Serialization error: missing ");
                r.append(n.as_str());
            },
            ScaffoldError::VersionLookupFailed(n) => {
                r.append("Crate search failed for ");
                r.append(n.as_str());
            },
        }
        r
    }
}

} // verus!
