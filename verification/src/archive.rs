//! The ZIP container of a document, read through the `zip` crate.
//!
//! The library keeps the whole container in memory and asks three things of it: how many
//! entries it has, what entry `i` is called, and what bytes the entry of a given name
//! holds. What the `zip` crate answers is named here, not defined: the contracts of the
//! four functions that call the crate are taken on trust.

use std::io::{Cursor, Read};
use vstd::prelude::*;
use zip::ZipArchive;
use crate::errors::Error;

verus! {

/// `zip::ZipArchive`, the reader of a container. The library carries it and never looks
/// inside.
#[verifier::external_type_specification]
#[verifier::external_body]
#[verifier::reject_recursive_types(R)]
pub struct ExZipArchive<R>(ZipArchive<R>);

/// `std::io::Cursor`, the read position over the bytes of a container held in memory.
/// The library carries it and never looks inside.
#[verifier::external_type_specification]
#[verifier::external_body]
#[verifier::reject_recursive_types(T)]
pub struct ExCursor<T>(Cursor<T>);

/// A container held in memory.
pub type Archive = ZipArchive<Cursor<Vec<u8>>>;

/// What an archive answers: the names of its entries by index, and their contents by
/// name.
pub struct Container {
    /// The name of each entry, or nothing where the entry or its name cannot be had.
    pub names: Seq<Option<Seq<char>>>,
    /// The bytes of each entry that can be opened by name, or nothing where they cannot
    /// be read.
    pub contents: Map<Seq<char>, Option<Seq<u8>>>,
}

/// The names of the entries of an archive, by index: what `by_index` and then `name`
/// give for each index below `len()`, and nothing for an index at which either fails.
pub uninterp spec fn entry_names(archive: Archive) -> Seq<Option<Seq<char>>>;

/// The contents of an archive, by name. A name that `by_name` finds and opens is a key;
/// its value is the bytes that reading the entry to its end yields, and nothing where
/// that reading fails.
pub uninterp spec fn entry_contents(archive: Archive) -> Map<Seq<char>, Option<Seq<u8>>>;

/// What the archive answers that `zip::ZipArchive::new` makes of these bytes, and nothing
/// where it refuses them.
pub uninterp spec fn container_of_bytes(bytes: Seq<u8>) -> Option<Container>;

/// What `archive` answers. Reading an archive moves its read position and changes no
/// answer.
pub open spec fn container_of(archive: Archive) -> Container {
    Container { names: entry_names(archive), contents: entry_contents(archive) }
}

/// The name of entry `index`, and nothing past the last entry.
pub open spec fn entry_name_at(container: Container, index: int) -> Option<Seq<char>> {
    if 0 <= index < container.names.len() {
        container.names[index]
    } else {
        None
    }
}

/// What reading the entry `name` gives: its bytes; `Error::Zip` where the archive has no
/// entry of that name that it can open; `Error::Io` where reading the entry fails.
pub open spec fn entry_bytes(container: Container, name: Seq<char>) -> Result<Seq<u8>, Error> {
    if container.contents.contains_key(name) {
        match container.contents[name] {
            Some(bytes) => Ok(bytes),
            None => Err(Error::Io),
        }
    } else {
        Err(Error::Zip)
    }
}

/// `zip::ZipArchive::new` on a cursor over `bytes`. Whether the crate accepts the bytes,
/// and what the archive then answers, depends on the bytes alone; the contract names it
/// and claims nothing else.
#[verifier::external_body]
pub(crate) fn open_archive(bytes: Vec<u8>) -> (opened: Option<Archive>)
    ensures
        match opened {
            Some(archive) => container_of_bytes(bytes@) == Some(
                Container { names: entry_names(archive), contents: entry_contents(archive) },
            ),
            None => container_of_bytes(bytes@) is None,
        },
{
    ZipArchive::new(Cursor::new(bytes)).ok()
}

/// `zip::ZipArchive::len`: the number of entries in the central directory, which is the
/// number of indices that `by_index` knows.
#[verifier::external_body]
pub(crate) fn entry_count(archive: &Archive) -> (n: usize)
    ensures
        n == entry_names(*archive).len(),
{
    archive.len()
}

/// `zip::ZipArchive::by_index`, then `name` of the entry found. Either may fail, and
/// `by_index` fails past the last entry; the archive answers afterwards as before.
#[verifier::external_body]
pub(crate) fn entry_name(archive: &mut Archive, index: usize) -> (name: Option<String>)
    ensures
        entry_names(*final(archive)) == entry_names(*old(archive)),
        entry_contents(*final(archive)) == entry_contents(*old(archive)),
        match name {
            Some(text) => entry_name_at(container_of(*old(archive)), index as int) == Some(text@),
            None => entry_name_at(container_of(*old(archive)), index as int) is None,
        },
{
    match archive.by_index(index) {
        Ok(file) => file.name().ok().map(|name| name.into_owned()),
        Err(_) => None,
    }
}

/// `zip::ZipArchive::by_name`, then `read_to_end` on the entry found. A failure of the
/// first is `Error::Zip`, a failure of the second `Error::Io`; the archive answers
/// afterwards as before.
#[verifier::external_body]
pub(crate) fn read_entry(archive: &mut Archive, name: &str) -> (read: Result<Vec<u8>, Error>)
    ensures
        entry_names(*final(archive)) == entry_names(*old(archive)),
        entry_contents(*final(archive)) == entry_contents(*old(archive)),
        match read {
            Ok(bytes) => entry_bytes(container_of(*old(archive)), name@) == Ok::<Seq<u8>, Error>(
                bytes@,
            ),
            Err(e) => entry_bytes(container_of(*old(archive)), name@) == Err::<Seq<u8>, Error>(e),
        },
{
    let mut file = match archive.by_name(name) {
        Ok(file) => file,
        Err(_) => return Err(Error::Zip),
    };
    let mut bytes = Vec::new();
    match file.read_to_end(&mut bytes) {
        Ok(_) => Ok(bytes),
        Err(_) => Err(Error::Io),
    }
}

} // verus!
