//! Package tarballs: what each entry of one becomes on disk.
//!
//! A tarball is untrusted input. It chooses the bytes, but neither where they
//! land nor the permissions they land with.

use flate2::read::GzDecoder;
use std::io::Read;
use vstd::prelude::*;
use vstd::string::*;
use vstd::utf8::*;
use crate::integrity::duplicate_bytes;
use crate::path::{
    components, is_plain, join, plain_names, put_after, spelled, steps, Component, Step,
};
use crate::registry::result_view;
use crate::text::{chars_of, join_all};

verus! {

/// Why a tarball was not extracted.
#[derive(Debug)]
pub enum ArchiveError {
    /// The tarball cannot be read.
    Read(String),
    /// An entry would land outside the destination, or is a link.
    UnsafePath { entry: String, reason: &'static str },
    /// An entry cannot be written, as far as its contents decide that.
    Write { path: Vec<u8>, source: String },
}

/// What an [`ArchiveError`] says.
pub enum ArchiveFault {
    Read(Seq<char>),
    UnsafePath { entry: Seq<char>, reason: Seq<char> },
    Write { path: Seq<u8>, source: Seq<char> },
}

impl DeepView for ArchiveError {
    type V = ArchiveFault;

    open spec fn deep_view(&self) -> ArchiveFault {
        match self {
            ArchiveError::Read(source) => ArchiveFault::Read(source@),
            ArchiveError::UnsafePath { entry, reason } => ArchiveFault::UnsafePath {
                entry: entry@,
                reason: reason@,
            },
            ArchiveError::Write { path, source } => ArchiveFault::Write {
                path: path@,
                source: source@,
            },
        }
    }
}

/// One entry as a tarball records it.
#[derive(Debug)]
pub struct RawEntry {
    /// Its path, byte by byte: it need not be text.
    pub path: Vec<u8>,
    /// The byte that says what the entry is.
    pub flag: u8,
    /// Is its header of the newer format?
    pub ustar: bool,
    /// Its recorded mode, if that can be read.
    pub mode: Option<u32>,
    /// When it was last changed, in seconds, if that can be read.
    pub mtime: Option<u64>,
    /// How long its contents are said to be.
    pub size: u64,
    /// Its contents, or why they cannot be read.
    pub contents: Result<Vec<u8>, String>,
}

/// What a [`RawEntry`] means.
pub struct RawModel {
    pub path: Seq<u8>,
    pub flag: u8,
    pub ustar: bool,
    pub mode: Option<u32>,
    pub mtime: Option<u64>,
    pub size: u64,
    pub contents: Result<Seq<u8>, Seq<char>>,
}

impl DeepView for RawEntry {
    type V = RawModel;

    open spec fn deep_view(&self) -> RawModel {
        RawModel {
            path: self.path@,
            flag: self.flag,
            ustar: self.ustar,
            mode: self.mode,
            mtime: self.mtime,
            size: self.size,
            contents: match self.contents {
                Ok(contents) => Ok(contents@),
                Err(source) => Err(source@),
            },
        }
    }
}

/// What some places of a tarball mean.
pub open spec fn places_view(places: Seq<Result<RawEntry, String>>) -> Seq<
    Result<RawModel, Seq<char>>,
> {
    places.map_values(|place: Result<RawEntry, String>| result_view(place))
}

/// The entries of a gzipped tarball, in order. For a place that cannot be
/// read, which is the last one, the reason stands.
pub uninterp spec fn archive_entries(tarball: Seq<u8>) -> Seq<Result<RawModel, Seq<char>>>;

/// `flate2::read::GzDecoder` and `tar::Archive::entries`, with what a
/// `tar::Entry` and its `tar::Header` say of each entry: the same bytes always
/// hold the same entries. Which entries those are is not said here.
#[verifier::external_body]
fn read_archive(tarball: &[u8]) -> (found: Vec<Result<RawEntry, String>>)
    ensures
        places_view(found@) == archive_entries(tarball@),
{
    let mut archive = tar::Archive::new(GzDecoder::new(tarball));
    archive.entries().into_iter().flatten().map(|place| place.map(|mut entry| {
        let mut contents = Vec::new();
        let read = entry.read_to_end(&mut contents);
        let header = entry.header();
        RawEntry {
            path: entry.path_bytes().into_owned(),
            flag: header.entry_type().as_byte(),
            ustar: header.as_ustar().is_some(),
            mode: header.mode().ok(),
            mtime: header.mtime().ok(),
            size: entry.size(),
            contents: read.map(|_| contents).map_err(|error| error.to_string()),
        }
    }).map_err(|error| error.to_string())).collect()
}

/// Bytes as they can be shown.
pub uninterp spec fn shown(bytes: Seq<u8>) -> Seq<char>;

/// `String::from_utf8_lossy`: bytes that are text are shown as that text. What
/// is shown for others, with replacement characters in it, is not said here.
#[verifier::external_body]
fn show(bytes: &[u8]) -> (text: String)
    ensures
        text@ == shown(bytes@),
        (forall|t: Seq<char>| bytes@ == #[trigger] encode_utf8(t) ==> text@ == t),
{
    String::from_utf8_lossy(bytes).into_owned()
}

/// Bytes as characters, one for one. What is done to a path by its separators
/// and its dots is the same either way.
pub open spec fn widened(bytes: Seq<u8>) -> Seq<char> {
    bytes.map_values(|byte: u8| byte as char)
}

/// Characters that were bytes, as bytes again.
pub open spec fn bytes_of(text: Seq<char>) -> Seq<u8> {
    text.map_values(|c: char| c as u8)
}

/// Widening loses nothing.
pub proof fn widening_is_undone(bytes: Seq<u8>)
    ensures
        bytes_of(widened(bytes)) == bytes,
{
    assert(bytes_of(widened(bytes)) =~= bytes);
}

fn widen(bytes: &[u8]) -> (text: String)
    ensures
        text@ == widened(bytes@),
{
    let mut text = String::new();
    assert(text@ =~= widened(bytes@.take(0)));
    let mut i: usize = 0;
    while i < bytes.len()
        invariant
            i <= bytes@.len(),
            text@ == widened(bytes@.take(i as int)),
        decreases bytes.len() - i,
    {
        let c = bytes[i] as char;
        text.push(c);
        assert(widened(bytes@.take(i + 1)) =~= widened(bytes@.take(i as int)).push(c));
        i = i + 1;
    }
    assert(bytes@.take(bytes@.len() as int) =~= bytes@);
    text
}

fn narrow(text: &str) -> (bytes: Vec<u8>)
    ensures
        bytes@ == bytes_of(text@),
{
    let chars = chars_of(text);
    let mut bytes: Vec<u8> = Vec::new();
    let mut i: usize = 0;
    while i < chars.len()
        invariant
            i <= chars@.len(),
            chars@ == text@,
            bytes@.len() == i,
            forall|j: int| 0 <= j < i ==> #[trigger] bytes@[j] == chars@[j] as u8,
        decreases chars.len() - i,
    {
        bytes.push(chars[i] as u8);
        i = i + 1;
    }
    assert(bytes@ =~= bytes_of(text@));
    bytes
}

/// The flag of a regular file.
pub const REGULAR: u8 = 0x30;

/// The flag of a hard link.
pub const HARD_LINK: u8 = 0x31;

/// The flag of a symbolic link.
pub const SYMLINK: u8 = 0x32;

/// The flag of a directory.
pub const DIRECTORY: u8 = 0x35;

/// The flag of a long name for the entry behind it.
pub const LONG_NAME: u8 = 0x4c;

/// The flag of a long link name for the entry behind it.
pub const LONG_LINK: u8 = 0x4b;

/// The flag of attributes for the entry behind it.
pub const LOCAL_HEADER: u8 = 0x78;

/// The flag of attributes for every entry behind it.
pub const GLOBAL_HEADER: u8 = 0x67;

/// The byte that stands between the names of a path.
pub const SEPARATOR: u8 = 0x2f;

/// Is an entry a link of either kind?
pub open spec fn is_link(entry: RawModel) -> bool {
    entry.flag == SYMLINK || entry.flag == HARD_LINK
}

/// Does an entry only describe others, and name no file of its own?
pub open spec fn is_metadata(entry: RawModel) -> bool {
    entry.flag == GLOBAL_HEADER || entry.flag == LOCAL_HEADER || entry.flag == LONG_NAME
        || entry.flag == LONG_LINK
}

/// Does an entry become a directory? Before there was a flag for that, a
/// trailing separator said so.
pub open spec fn is_directory(entry: RawModel) -> bool {
    ||| entry.flag == DIRECTORY
    ||| !entry.ustar && entry.path.len() > 0 && entry.path.last() == SEPARATOR
}

/// The mode that what an entry becomes lands with. Of the recorded mode one
/// bit is read, and of a regular file alone: may its owner run it?
pub open spec fn mode_for(entry: RawModel) -> u32 {
    if is_directory(entry) {
        0o755
    } else if entry.flag == REGULAR && entry.mode is Some && entry.mode->0 & 0o100 != 0 {
        0o755
    } else {
        0o644
    }
}

/// The mode that what an entry becomes lands with.
pub fn normalise_mode(entry: &RawEntry) -> (mode: u32)
    ensures
        mode == mode_for(entry.deep_view()),
{
    let executable = entry.flag == REGULAR && match entry.mode {
        Some(mode) => mode & 0o100 != 0,
        None => false,
    };
    if becomes_directory(entry) || executable {
        0o755
    } else {
        0o644
    }
}

/// The time, in seconds, that a file lands with: the recorded one, and the
/// first second where that is none at all, for the sake of tools that do not
/// take it. A file whose recorded time cannot be read keeps its own.
pub open spec fn time_for(entry: RawModel) -> Option<i64> {
    match entry.mtime {
        Some(recorded) => Some(if recorded == 0 {
            1
        } else {
            recorded as i64
        }),
        None => None,
    }
}

fn recorded_time(entry: &RawEntry) -> (time: Option<i64>)
    ensures
        time == time_for(entry.deep_view()),
{
    match entry.mtime {
        Some(recorded) => if recorded == 0 {
            Some(1)
        } else {
            Some(as_signed(recorded))
        },
        None => None,
    }
}

#[verifier::truncate]
fn as_signed(n: u64) -> (signed: i64)
    ensures
        signed == n as i64,
{
    n as i64
}

fn becomes_directory(entry: &RawEntry) -> (yes: bool)
    ensures
        yes == is_directory(entry.deep_view()),
{
    if entry.flag == DIRECTORY {
        return true;
    }
    let n: usize = entry.path.len();
    !entry.ustar && n > 0 && entry.path[n - 1] == SEPARATOR
}

/// The reason that links are refused.
pub const LINKS: &'static str = "link entries are not supported";

/// The reason that a path which does not start with a plain name is refused.
pub const STARTS_OUTSIDE: &'static str = "path is absolute or starts outside the package root";

/// The reason that a path which climbs is refused.
pub const ESCAPES: &'static str = "path escapes the destination directory";

/// The reason that contents which end early are refused.
pub const CUT_SHORT: &'static str = "failed to write entire file";

/// The steps of a path behind any `.` it starts with.
pub open spec fn behind_current(taken: Seq<Step>) -> Seq<Step>
    decreases taken.len(),
{
    if taken.len() > 0 && taken[0] is Current {
        behind_current(taken.drop_first())
    } else {
        taken
    }
}

/// Where an entry lands, relative to the destination, with the directory that
/// wraps the package dropped; or why it lands nowhere.
pub open spec fn stripped(path: Seq<char>) -> Result<Seq<char>, Seq<char>> {
    let taken = behind_current(steps(path));
    if taken.len() == 0 {
        Ok(seq![])
    } else if !(taken[0] is Normal) {
        Err(STARTS_OUTSIDE@)
    } else if crate::path::goes_down(taken.skip(1)) {
        Ok(spelled(plain_names(taken.skip(1))))
    } else {
        Err(ESCAPES@)
    }
}

/// Drop the first name of a path, and refuse anything that could escape, under
/// the name that it can be shown by.
pub fn strip_prefix_component(raw: &str, display: &str) -> (relative: Result<String, ArchiveError>)
    ensures
        match relative {
            Ok(relative) => stripped(raw@) == Ok::<Seq<char>, Seq<char>>(relative@),
            Err(error) => match stripped(raw@) {
                Err(reason) => error.deep_view() == (ArchiveFault::UnsafePath {
                    entry: display@,
                    reason,
                }),
                Ok(_) => false,
            },
        },
{
    let found = components(raw);
    let ghost all = steps(raw@);
    let mut start: usize = 0;
    assert(all.skip(0) =~= all);
    while start < found.len() && matches!(&found[start], Component::Current)
        invariant
            start <= found@.len(),
            all == found.deep_view(),
            behind_current(all) == behind_current(all.skip(start as int)),
        decreases found.len() - start,
    {
        assert(all[start as int] == found@[start as int].deep_view());
        assert(all.skip(start as int).drop_first() =~= all.skip(start + 1));
        start = start + 1;
    }
    let ghost taken = behind_current(all);
    proof {
        if start < found@.len() {
            assert(all[start as int] == found@[start as int].deep_view());
        }
        assert(taken =~= all.skip(start as int));
    }
    if start == found.len() {
        assert(Seq::<char>::empty() =~= seq![]);
        return Ok(String::new());
    }
    assert(taken[0] == found@[start as int].deep_view());
    if !matches!(&found[start], Component::Normal(_)) {
        return Err(
            ArchiveError::UnsafePath { entry: display.to_owned(), reason: STARTS_OUTSIDE },
        );
    }
    let ghost rest = taken.skip(1);
    let mut names: Vec<String> = Vec::new();
    assert(names.deep_view() =~= plain_names(rest.take(0)));
    let mut i: usize = start + 1;
    while i < found.len()
        invariant
            start < i <= found@.len(),
            all == found.deep_view(),
            rest == all.skip(start as int).skip(1),
            names.deep_view() == plain_names(rest.take(i - start - 1)),
            taken == behind_current(steps(raw@)),
            taken.len() > 0,
            taken[0] is Normal,
            rest == taken.skip(1),
            forall|j: int|
                0 <= j < i - start - 1 ==> (#[trigger] rest[j] is Current || rest[j] is Normal),
        decreases found.len() - i,
    {
        let ghost k = i - start - 1;
        assert(rest[k] == found@[i as int].deep_view());
        assert(rest.take(k + 1).drop_last() =~= rest.take(k));
        let ghost before = names.deep_view();
        match &found[i] {
            Component::Normal(part) => {
                names.push(part.clone());
                assert(names.deep_view() =~= before.push(part@));
            },
            Component::Current => {},
            _ => {
                assert(!crate::path::goes_down(rest));
                return Err(
                    ArchiveError::UnsafePath { entry: display.to_owned(), reason: ESCAPES },
                );
            },
        }
        i = i + 1;
    }
    assert(rest.take(rest.len() as int) =~= rest);
    Ok(join_all(&names, '/'))
}

/// What an entry becomes, at a path and with a mode, and a file with a time.
#[derive(Debug)]
pub enum Unpacked {
    Directory { path: Vec<u8>, mode: u32 },
    File { path: Vec<u8>, mode: u32, time: Option<i64>, contents: Vec<u8> },
}

/// What an [`Unpacked`] means.
pub enum UnpackedModel {
    Directory { path: Seq<u8>, mode: u32 },
    File { path: Seq<u8>, mode: u32, time: Option<i64>, contents: Seq<u8> },
}

impl DeepView for Unpacked {
    type V = UnpackedModel;

    open spec fn deep_view(&self) -> UnpackedModel {
        match self {
            Unpacked::Directory { path, mode } => UnpackedModel::Directory {
                path: path@,
                mode: *mode,
            },
            Unpacked::File { path, mode, time, contents } => UnpackedModel::File {
                path: path@,
                mode: *mode,
                time: *time,
                contents: contents@,
            },
        }
    }
}

/// The place of a path below a destination, byte by byte.
pub open spec fn placed(dest: Seq<char>, relative: Seq<char>) -> Seq<u8> {
    bytes_of(put_after(widened(encode_utf8(dest)), relative))
}

/// What one entry becomes below a destination: something, nothing, or a
/// reason to stop.
pub open spec fn entry_unpacked(entry: RawModel, dest: Seq<char>) -> Result<
    Option<UnpackedModel>,
    ArchiveFault,
> {
    if is_link(entry) {
        Err(ArchiveFault::UnsafePath { entry: shown(entry.path), reason: LINKS@ })
    } else {
        match stripped(widened(entry.path)) {
            Err(reason) => Err(ArchiveFault::UnsafePath { entry: shown(entry.path), reason }),
            Ok(relative) => {
                let path = placed(dest, relative);
                if relative.len() == 0 || is_metadata(entry) {
                    Ok(None)
                } else if is_directory(entry) {
                    Ok(Some(UnpackedModel::Directory { path, mode: mode_for(entry) }))
                } else {
                    match entry.contents {
                        Ok(contents) => if contents.len() == entry.size {
                            Ok(
                                Some(
                                    UnpackedModel::File {
                                        path,
                                        mode: mode_for(entry),
                                        time: time_for(entry),
                                        contents,
                                    },
                                ),
                            )
                        } else {
                            Err(ArchiveFault::Write { path, source: CUT_SHORT@ })
                        },
                        Err(source) => Err(ArchiveFault::Write { path, source }),
                    }
                }
            },
        }
    }
}

/// What becomes of a tarball: what to write, in order, and why it stopped if
/// it did.
pub struct ExtractionModel {
    pub unpacked: Seq<UnpackedModel>,
    pub fault: Option<ArchiveFault>,
}

/// What some entries become below a destination, up to the first that cannot
/// be unpacked.
pub open spec fn entries_unpacked(
    entries: Seq<Result<RawModel, Seq<char>>>,
    dest: Seq<char>,
) -> ExtractionModel
    decreases entries.len(),
{
    if entries.len() == 0 {
        ExtractionModel { unpacked: seq![], fault: None }
    } else {
        let before = entries_unpacked(entries.drop_last(), dest);
        if before.fault is Some {
            before
        } else {
            match entries.last() {
                Err(source) => ExtractionModel {
                    fault: Some(ArchiveFault::Read(source)),
                    ..before
                },
                Ok(entry) => match entry_unpacked(entry, dest) {
                    Err(fault) => ExtractionModel { fault: Some(fault), ..before },
                    Ok(None) => before,
                    Ok(Some(made)) => ExtractionModel {
                        unpacked: before.unpacked.push(made),
                        ..before
                    },
                },
            }
        }
    }
}

proof fn stopped_stays(entries: Seq<Result<RawModel, Seq<char>>>, dest: Seq<char>, n: int)
    requires
        0 <= n <= entries.len(),
        entries_unpacked(entries.take(n), dest).fault is Some,
    ensures
        entries_unpacked(entries, dest) == entries_unpacked(entries.take(n), dest),
    decreases entries.len() - n,
{
    if n < entries.len() {
        assert(entries.take(n + 1).drop_last() =~= entries.take(n));
        stopped_stays(entries, dest, n + 1);
    } else {
        assert(entries.take(n) =~= entries);
    }
}

/// What becomes of a tarball: what to write, in order, and why it stopped if
/// it did.
#[derive(Debug)]
pub struct Extraction {
    pub unpacked: Vec<Unpacked>,
    pub fault: Option<ArchiveError>,
}

impl DeepView for Extraction {
    type V = ExtractionModel;

    open spec fn deep_view(&self) -> ExtractionModel {
        ExtractionModel {
            unpacked: self.unpacked.deep_view(),
            fault: match self.fault {
                Some(error) => Some(error.deep_view()),
                None => None,
            },
        }
    }
}

/// What one entry becomes.
pub fn unpack_entry(entry: &RawEntry, dest: &str) -> (unpacked: Result<
    Option<Unpacked>,
    ArchiveError,
>)
    ensures
        match unpacked {
            Ok(Some(made)) => entry_unpacked(entry.deep_view(), dest@) == Ok::<
                Option<UnpackedModel>,
                ArchiveFault,
            >(Some(made.deep_view())),
            Ok(None) => entry_unpacked(entry.deep_view(), dest@) == Ok::<
                Option<UnpackedModel>,
                ArchiveFault,
            >(None),
            Err(error) => entry_unpacked(entry.deep_view(), dest@) == Err::<
                Option<UnpackedModel>,
                ArchiveFault,
            >(error.deep_view()),
        },
{
    let display = show(entry.path.as_slice());
    if entry.flag == SYMLINK || entry.flag == HARD_LINK {
        return Err(ArchiveError::UnsafePath { entry: display, reason: LINKS });
    }
    let wide = widen(entry.path.as_slice());
    let relative = match strip_prefix_component(wide.as_str(), display.as_str()) {
        Ok(relative) => relative,
        Err(error) => {
            return Err(error);
        },
    };
    if relative.as_str().is_empty() {
        return Ok(None);
    }
    if entry.flag == GLOBAL_HEADER || entry.flag == LOCAL_HEADER || entry.flag == LONG_NAME
        || entry.flag == LONG_LINK {
        return Ok(None);
    }
    let path = narrow(join(widen(dest.as_bytes()).as_str(), relative.as_str()).as_str());
    let mode: u32 = normalise_mode(entry);
    if becomes_directory(entry) {
        return Ok(Some(Unpacked::Directory { path, mode }));
    }
    match &entry.contents {
        Ok(contents) => {
            let n: u64 = contents.len() as u64;
            if n == entry.size {
                let time = recorded_time(entry);
                Ok(Some(Unpacked::File { path, mode, time, contents: duplicate_bytes(contents) }))
            } else {
                Err(ArchiveError::Write { path, source: CUT_SHORT.to_owned() })
            }
        },
        Err(source) => Err(ArchiveError::Write { path, source: source.clone() }),
    }
}

/// What the entries of a tarball become below a destination.
pub fn unpack_all(entries: &Vec<Result<RawEntry, String>>, dest: &str) -> (extraction: Extraction)
    ensures
        extraction.deep_view() == entries_unpacked(places_view(entries@), dest@),
{
    let ghost all = places_view(entries@);
    let mut unpacked: Vec<Unpacked> = Vec::new();
    assert(unpacked.deep_view() =~= seq![]);
    let mut i: usize = 0;
    while i < entries.len()
        invariant
            i <= entries@.len(),
            all == places_view(entries@),
            entries_unpacked(all.take(i as int), dest@) == (ExtractionModel {
                unpacked: unpacked.deep_view(),
                fault: None,
            }),
        decreases entries.len() - i,
    {
        let ghost before = unpacked.deep_view();
        assert(all.take(i + 1).drop_last() =~= all.take(i as int));
        assert(all.take(i + 1).last() == result_view(entries@[i as int]));
        let entry = match &entries[i] {
            Ok(entry) => entry,
            Err(source) => {
                proof {
                    stopped_stays(all, dest@, i + 1);
                }
                return Extraction { unpacked, fault: Some(ArchiveError::Read(source.clone())) };
            },
        };
        match unpack_entry(entry, dest) {
            Ok(Some(made)) => {
                let ghost model = made.deep_view();
                unpacked.push(made);
                assert(unpacked.deep_view() =~= before.push(model));
            },
            Ok(None) => {},
            Err(error) => {
                proof {
                    stopped_stays(all, dest@, i + 1);
                }
                return Extraction { unpacked, fault: Some(error) };
            },
        }
        i = i + 1;
    }
    assert(all.take(all.len() as int) =~= all);
    Extraction { unpacked, fault: None }
}

/// What an npm package tarball becomes below a destination.
///
/// The directory that wraps a package is dropped, an entry that would land
/// outside the destination is refused, and so is a link. The recorded mode is
/// replaced.
pub fn extract(tarball: &[u8], dest: &str) -> (extraction: Extraction)
    ensures
        extraction.deep_view() == entries_unpacked(archive_entries(tarball@), dest@),
{
    unpack_all(&read_archive(tarball), dest)
}

/// Where something that was unpacked lands.
pub open spec fn landing(made: UnpackedModel) -> Seq<u8> {
    match made {
        UnpackedModel::Directory { path, .. } => path,
        UnpackedModel::File { path, .. } => path,
    }
}

/// The mode that something which was unpacked lands with.
pub open spec fn landing_mode(made: UnpackedModel) -> u32 {
    match made {
        UnpackedModel::Directory { mode, .. } => mode,
        UnpackedModel::File { mode, .. } => mode,
    }
}

/// Does a path lead down from a destination by plain names alone?
pub open spec fn lands_inside(path: Seq<u8>, dest: Seq<char>) -> bool {
    exists|names: Seq<Seq<char>>|
        names.len() > 0 && (forall|i: int| 0 <= i < names.len() ==> is_plain(#[trigger] names[i]))
            && path == placed(dest, #[trigger] spelled(names))
}

proof fn behind_current_is_suffix(taken: Seq<Step>)
    ensures
        exists|n: int| 0 <= n <= taken.len() && behind_current(taken) == #[trigger] taken.skip(n),
    decreases taken.len(),
{
    if taken.len() > 0 && taken[0] is Current {
        behind_current_is_suffix(taken.drop_first());
        let n = choose|n: int|
            0 <= n <= taken.drop_first().len() && behind_current(taken.drop_first())
                == #[trigger] taken.drop_first().skip(n);
        assert(taken.drop_first().skip(n) =~= taken.skip(n + 1));
    } else {
        assert(taken.skip(0) =~= taken);
    }
}

proof fn names_of_suffix(taken: Seq<Step>, n: int)
    requires
        0 <= n <= taken.len(),
    ensures
        forall|i: int|
            0 <= i < plain_names(taken.skip(n)).len() ==> plain_names(taken).contains(
                #[trigger] plain_names(taken.skip(n))[i],
            ),
    decreases taken.len(),
{
    let tail = taken.skip(n);
    if n < taken.len() {
        names_of_suffix(taken.drop_last(), n);
        assert(tail.drop_last() =~= taken.drop_last().skip(n));
        assert(tail.last() == taken.last());
        let whole = plain_names(taken);
        let fewer = plain_names(taken.drop_last());
        assert forall|i: int| 0 <= i < plain_names(tail).len() implies whole.contains(
            #[trigger] plain_names(tail)[i],
        ) by {
            let name = plain_names(tail)[i];
            if i < plain_names(tail.drop_last()).len() {
                assert(plain_names(tail.drop_last())[i] == name);
                assert(fewer.contains(name));
                let k = fewer.index_of(name);
                assert(whole[k] == name);
            } else {
                assert(whole[fewer.len() as int] == name);
            }
        }
    }
}

proof fn stripped_is_plain(path: Seq<char>)
    ensures
        match stripped(path) {
            Ok(relative) => relative.len() == 0 || exists|names: Seq<Seq<char>>|
                names.len() > 0 && (forall|i: int|
                    0 <= i < names.len() ==> is_plain(#[trigger] names[i])) && relative
                    == #[trigger] spelled(names),
            Err(_) => true,
        },
{
    if stripped(path) is Ok {
        let all = steps(path);
        behind_current_is_suffix(all);
        let n = choose|n: int|
            0 <= n <= all.len() && behind_current(all) == #[trigger] all.skip(n);
        let taken = all.skip(n);
        if taken.len() > 0 {
            assert(taken.skip(1) =~= all.skip(n + 1));
            crate::path::plain_steps(path);
            names_of_suffix(all, n + 1);
            let names = plain_names(taken.skip(1));
            assert forall|i: int| 0 <= i < names.len() implies is_plain(#[trigger] names[i]) by {
                let k = plain_names(all).index_of(names[i]);
                assert(is_plain(plain_names(all)[k]));
            }
            if names.len() == 0 {
                assert(spelled(names) =~= seq![]);
            }
        }
    }
}

/// Whatever a tarball holds, everything extracted from it lands below the
/// destination, with one of two modes: no entry chooses its place or its
/// permissions.
pub proof fn nothing_escapes(entries: Seq<Result<RawModel, Seq<char>>>, dest: Seq<char>, i: int)
    requires
        0 <= i < entries_unpacked(entries, dest).unpacked.len(),
    ensures
        lands_inside(landing(entries_unpacked(entries, dest).unpacked[i]), dest),
        landing_mode(entries_unpacked(entries, dest).unpacked[i]) == 0o755 || landing_mode(
            entries_unpacked(entries, dest).unpacked[i],
        ) == 0o644,
    decreases entries.len(),
{
    let before = entries_unpacked(entries.drop_last(), dest);
    if i < before.unpacked.len() {
        nothing_escapes(entries.drop_last(), dest, i);
    } else {
        let entry = entries.last()->Ok_0;
        stripped_is_plain(widened(entry.path));
        let relative = stripped(widened(entry.path))->Ok_0;
        let names = choose|names: Seq<Seq<char>>|
            names.len() > 0 && (forall|k: int|
                0 <= k < names.len() ==> is_plain(#[trigger] names[k])) && relative
                == #[trigger] spelled(names);
        assert(placed(dest, relative) == placed(dest, spelled(names)));
    }
}

} // verus!
