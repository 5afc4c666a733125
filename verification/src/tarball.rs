//! Package tarballs built in memory, for tests: ordinary ones, and ones that
//! no honest packer would write.

use vstd::prelude::*;
use vstd::string::*;
use vstd::utf8::*;
use crate::archive::{archive_entries, RawModel, DIRECTORY, REGULAR, SYMLINK};

verus! {

/// An archive that is being written, in memory.
#[verifier::external_body]
pub struct TarWriter {
    builder: tar::Builder<Vec<u8>>,
}

/// The entries that were appended to an archive, in order.
pub uninterp spec fn appended(builder: &TarWriter) -> Seq<Record>;

/// The bytes of a gzipped tarball of some entries.
pub uninterp spec fn tarball_bytes(entries: Seq<Record>) -> Seq<u8>;

/// One entry in a generated tarball.
#[derive(Debug)]
pub enum TarEntry<'a> {
    /// A regular file.
    File { path: &'a str, contents: &'a [u8], mode: u32 },
    /// A directory.
    Dir { path: &'a str, mode: u32 },
    /// A symbolic link.
    Symlink { path: &'a str, target: &'a str },
    /// A directory as it was written before there was a flag for one: the
    /// trailing separator of its path says so.
    OldStyleDir { path: &'a str, mode: u32 },
    /// An entry with a flag of one's own choosing, and no contents.
    Metadata { path: &'a str, flag: u8 },
}

/// An entry as it is recorded: what is read back of it, the byte in its header
/// that says what it is, what it points at if it is a link, and whether its
/// header is of the oldest format.
pub struct Record {
    pub raw: RawModel,
    pub type_byte: u8,
    pub target: Option<Seq<char>>,
    pub is_old: bool,
}

/// What is recorded of an entry that is read back.
pub open spec fn raw_as(path: Seq<char>, flag: u8, mode: u32, contents: Seq<u8>) -> RawModel {
    RawModel {
        path: encode_utf8(path),
        flag,
        ustar: false,
        mode: Some(mode),
        mtime: Some(0),
        size: contents.len() as u64,
        contents: Ok(contents),
    }
}

/// The byte in the header of a plain file, which is given no flag of its own.
pub const NO_FLAG: u8 = 0;

/// What the byte in a header that says what the entry is reads as: a plain
/// file, where none was given.
pub open spec fn flag_read(type_byte: u8) -> u8 {
    if type_byte == NO_FLAG {
        REGULAR
    } else {
        type_byte
    }
}

/// An entry of the ordinary format as it is recorded.
pub open spec fn recorded_as(
    path: Seq<char>,
    type_byte: u8,
    mode: u32,
    contents: Seq<u8>,
) -> Record {
    Record {
        raw: raw_as(path, flag_read(type_byte), mode, contents),
        type_byte,
        target: None,
        is_old: false,
    }
}

/// A symbolic link as it is recorded.
pub open spec fn recorded_link(path: Seq<char>, target: Seq<char>) -> Record {
    Record {
        raw: raw_as(path, SYMLINK, 0o777, seq![]),
        type_byte: SYMLINK,
        target: Some(target),
        is_old: false,
    }
}

/// A directory of the oldest format as it is recorded.
pub open spec fn recorded_old(path: Seq<char>, mode: u32) -> Record {
    Record {
        raw: raw_as(path, REGULAR, mode, seq![]),
        type_byte: REGULAR,
        target: None,
        is_old: true,
    }
}

impl<'a> TarEntry<'a> {
    /// The entry as it is recorded.
    pub open spec fn model(self) -> Record {
        match self {
            TarEntry::File { path, contents, mode } => recorded_as(
                path@,
                NO_FLAG,
                mode,
                contents@,
            ),
            TarEntry::Dir { path, mode } => recorded_as(path@, DIRECTORY, mode, seq![]),
            TarEntry::Symlink { path, target } => recorded_link(path@, target@),
            TarEntry::OldStyleDir { path, mode } => recorded_old(path@, mode),
            TarEntry::Metadata { path, flag } => recorded_as(
                path@,
                flag_read(flag),
                0o644,
                seq![],
            ),
        }
    }

    /// Do the path, and what a link points at, fit into a header?
    pub open spec fn fits(self) -> bool {
        &&& self.model().raw.path.len() <= 100
        &&& match self {
            TarEntry::Symlink { target, .. } => is_link_name(target@),
            _ => true,
        }
    }

    /// A regular file that its owner may write and everyone may read.
    pub fn file(path: &'a str, contents: &'a str) -> (entry: Self)
        ensures
            entry.model() == recorded_as(path@, NO_FLAG, 0o644, encode_utf8(contents@)),
            entry is File,
    {
        TarEntry::File { path, contents: contents.as_bytes(), mode: 0o644 }
    }

    /// A directory with a mode of one's own choosing.
    pub fn dir_with_mode(path: &'a str, mode: u32) -> (entry: Self)
        ensures
            entry.model() == recorded_as(path@, DIRECTORY, mode, seq![]),
            entry is Dir,
    {
        TarEntry::Dir { path, mode }
    }

    /// An entry that names no file of its own.
    pub fn metadata(path: &'a str, flag: u8) -> (entry: Self)
        ensures
            entry.model() == recorded_as(path@, flag_read(flag), 0o644, seq![]),
            entry is Metadata,
    {
        TarEntry::Metadata { path, flag }
    }

    /// A file with a mode of one's own choosing.
    pub fn file_with_mode(path: &'a str, contents: &'a str, mode: u32) -> (entry: Self)
        ensures
            entry.model() == recorded_as(path@, NO_FLAG, mode, encode_utf8(contents@)),
            entry is File,
    {
        TarEntry::File { path, contents: contents.as_bytes(), mode }
    }
}

/// Can a header hold this as what a link points at?
pub open spec fn is_link_name(target: Seq<char>) -> bool {
    &&& 0 < encode_utf8(target).len() <= 100
    &&& !target.contains('\0')
}

/// Is an entry read back as it was recorded? Its path has to be its own, its
/// mode has to fit the field for it, and its flag has to be one that says
/// nothing about the entries around it.
pub open spec fn reads_back(entry: RawModel) -> bool {
    &&& !entry.path.contains(0)
    &&& entry.mode->0 < 0o10000000
    &&& entry.flag == REGULAR || entry.flag == DIRECTORY || entry.flag == SYMLINK
}

/// `tar::Builder::new`: nothing has been appended to a new archive.
#[verifier::external_body]
fn new_archive() -> (builder: TarWriter)
    ensures
        appended(&builder) == Seq::<Record>::empty(),
{
    TarWriter { builder: tar::Builder::new(Vec::new()) }
}

/// `tar::Builder::append` with a `tar::Header` whose name field holds the path
/// as it is, which keeps the crate from refusing paths that climb, and whose
/// type field holds the byte as it is: the entry comes behind those before it.
#[verifier::external_body]
fn append(builder: &mut TarWriter, path: &str, type_byte: u8, mode: u32, contents: &[u8])
    requires
        encode_utf8(path@).len() <= 100,
    ensures
        appended(final(builder)) == appended(old(builder)).push(
            recorded_as(path@, type_byte, mode, contents@),
        ),
{
    let mut header = tar::Header::new_gnu();
    header.as_old_mut().name[..path.len()].copy_from_slice(path.as_bytes());
    header.set_size(contents.len() as u64);
    header.set_mode(mode);
    header.as_old_mut().linkflag = [type_byte];
    header.set_cksum();
    builder.builder.append(&header, contents).expect("memory takes what is written to it");
}

/// `tar::Builder::append` with a `tar::Header` of the oldest format.
#[verifier::external_body]
fn append_old(builder: &mut TarWriter, path: &str, mode: u32)
    requires
        encode_utf8(path@).len() <= 100,
    ensures
        appended(final(builder)) == appended(old(builder)).push(
            recorded_old(path@, mode),
        ),
{
    let mut header = tar::Header::new_old();
    header.as_old_mut().name[..path.len()].copy_from_slice(path.as_bytes());
    header.set_size(0);
    header.set_mode(mode);
    header.set_entry_type(tar::EntryType::Regular);
    header.set_cksum();
    builder.builder.append(&header, std::io::empty()).expect("memory takes what is written to it");
}

/// `tar::Builder::append` with a `tar::Header` that holds a link name. What a
/// link points at is nothing that is read back.
#[verifier::external_body]
fn append_link(builder: &mut TarWriter, path: &str, target: &str)
    requires
        encode_utf8(path@).len() <= 100,
        is_link_name(target@),
    ensures
        appended(final(builder)) == appended(old(builder)).push(
            recorded_link(path@, target@),
        ),
{
    let mut header = tar::Header::new_gnu();
    header.as_old_mut().name[..path.len()].copy_from_slice(path.as_bytes());
    header.set_size(0);
    header.set_mode(0o777);
    header.set_entry_type(tar::EntryType::Symlink);
    header.set_link_name(target).expect("the link name fits");
    header.set_cksum();
    builder.builder.append(&header, std::io::empty()).expect("memory takes what is written to it");
}

/// `tar::Builder::into_inner` and `flate2::write::GzEncoder`: the same entries
/// always give the same bytes, and bytes from which the entries are read back,
/// where nothing about an entry keeps it from being read back.
#[verifier::external_body]
fn finish(builder: TarWriter) -> (tarball: Vec<u8>)
    ensures
        tarball@ == tarball_bytes(appended(&builder)),
        (forall|i: int|
            0 <= i < appended(&builder).len() ==> reads_back(
                (#[trigger] appended(&builder)[i]).raw,
            )) ==> archive_entries(tarball@) == appended(&builder).map_values(
            |entry: Record| Ok::<RawModel, Seq<char>>(entry.raw),
        ),
{
    let written = builder.builder.into_inner().expect("memory takes what is written to it");
    let mut encoder = flate2::write::GzEncoder::new(Vec::new(), flate2::Compression::fast());
    std::io::Write::write_all(&mut encoder, &written).expect("memory takes what is written to it");
    encoder.finish().expect("memory takes what is written to it")
}

/// Some entries as they are recorded.
pub open spec fn models(entries: Seq<TarEntry>) -> Seq<Record> {
    entries.map_values(|entry: TarEntry| entry.model())
}

/// Build a gzipped tarball in memory. Paths are written as they are, so that
/// they can climb or be absolute.
pub fn build_tarball(entries: &[TarEntry<'_>]) -> (tarball: Vec<u8>)
    requires
        forall|i: int| 0 <= i < entries@.len() ==> (#[trigger] entries@[i]).fits(),
    ensures
        tarball@ == tarball_bytes(models(entries@)),
        (forall|i: int| 0 <= i < entries@.len() ==> reads_back(
            (#[trigger] entries@[i]).model().raw,
        )) ==> archive_entries(tarball@) == models(entries@).map_values(
            |entry: Record| Ok::<RawModel, Seq<char>>(entry.raw),
        ),
{
    let mut builder = new_archive();
    let ghost all = models(entries@);
    assert(all.take(0) =~= Seq::<Record>::empty());
    let mut i: usize = 0;
    while i < entries.len()
        invariant
            i <= entries@.len(),
            all == models(entries@),
            forall|j: int| 0 <= j < entries@.len() ==> (#[trigger] entries@[j]).fits(),
            appended(&builder) == all.take(i as int),
        decreases entries.len() - i,
    {
        assert(entries@[i as int].fits());
        assert(all[i as int] == entries@[i as int].model());
        let nothing: Vec<u8> = Vec::new();
        assert(nothing@ =~= seq![]);
        match &entries[i] {
            TarEntry::File { path, contents, mode } => append(
                &mut builder,
                path,
                NO_FLAG,
                *mode,
                contents,
            ),
            TarEntry::Dir { path, mode } => append(
                &mut builder,
                path,
                DIRECTORY,
                *mode,
                nothing.as_slice(),
            ),
            TarEntry::Symlink { path, target } => append_link(&mut builder, path, target),
            TarEntry::OldStyleDir { path, mode } => append_old(&mut builder, path, *mode),
            TarEntry::Metadata { path, flag } => append(
                &mut builder,
                path,
                if *flag == NO_FLAG {
                    REGULAR
                } else {
                    *flag
                },
                0o644,
                nothing.as_slice(),
            ),
        }
        assert(all.take(i + 1) =~= all.take(i as int).push(all[i as int]));
        i = i + 1;
    }
    assert(all.take(all.len() as int) =~= all);
    let tarball = finish(builder);
    proof {
        if forall|k: int| 0 <= k < entries@.len() ==> reads_back(
            (#[trigger] entries@[k]).model().raw,
        ) {
            assert forall|k: int| 0 <= k < all.len() implies reads_back((#[trigger] all[k]).raw) by {
                assert(reads_back(entries@[k].model().raw));
            }
        }
    }
    tarball
}

} // verus!
