//! The header of a saved database file, and the file itself.

use crate::database::Database;
use vstd::prelude::*;

verus! {

/// The first byte of a database file.
pub const MAGIC_BYTE: u8 = 0xae;

/// The serialization version written after the magic byte.
pub const SER_VERSION: u8 = 1;

/// The magic byte of a database file; only `MAGIC_BYTE` stands for it.
#[derive(Clone, Copy, Debug, PartialEq, Eq, Structural)]
pub struct Magic;

impl Magic {
    /// Accepts `MAGIC_BYTE` only.
    pub fn try_from(value: u8) -> (r: Result<Magic, &'static str>)
        ensures
            r is Ok <==> value == MAGIC_BYTE,
            r matches Err(e) ==> e@ == "Invalid magic byte"@,
    {
        if value == MAGIC_BYTE {
            Ok(Magic)
        } else {
            Err("Invalid magic byte")
        }
    }

    /// The byte this stands for.
    pub fn into_u8(self) -> (b: u8)
        ensures
            b == MAGIC_BYTE,
    {
        MAGIC_BYTE
    }
}

/// The serialization version of a database file; only `SER_VERSION` stands for it.
#[derive(Clone, Copy, Debug, PartialEq, Eq, Structural)]
pub struct Version;

impl Version {
    /// Accepts `SER_VERSION` only.
    pub fn try_from(value: u8) -> (r: Result<Version, &'static str>)
        ensures
            r is Ok <==> value == SER_VERSION,
            r matches Err(e) ==> e@ == "Invalid serialization version"@,
    {
        if value == SER_VERSION {
            Ok(Version)
        } else {
            Err("Invalid serialization version")
        }
    }

    /// The byte this stands for.
    pub fn into_u8(self) -> (b: u8)
        ensures
            b == SER_VERSION,
    {
        SER_VERSION
    }
}


/// A saved database: the header, then the database.
#[derive(Debug)]
pub struct DatabaseFile {
    pub magic: Magic,
    pub version: Version,
    pub database: Database,
}

impl DatabaseFile {
    /// The file that saves `database`, with the current header.
    pub fn from(database: Database) -> (r: DatabaseFile)
        ensures
            r.database == database,
    {
        DatabaseFile { magic: Magic, version: Version, database }
    }
}

} // verus!
