//! Layer archives: compression detection, tar entries, and the layers built
//! from them.
use vstd::prelude::*;
use std::io::Read;
use crate::filetree::{
    FileInfo, FileTree, InfoView, NodeView, TarEntryType, add_path_map, default_info, fresh_node,
    path_key,
};
use crate::paths::PathKey;
use crate::image::{Image, Layer};
use crate::text::{
    append_chars, has_prefix, str_to_chars, string_chars, sub_chars, trim_chars,
    trim_start_char, trim_start_matches_char, trim_start_matches_pattern, trim_start_pattern,
    trim_white, vec_to_string,
};

verus! {

#[verifier::external_type_specification]
#[verifier::external_body]
pub struct ExIoError(std::io::Error);

/// How a layer blob is compressed.
#[derive(Debug, Clone, Copy, PartialEq, Eq, Structural)]
pub enum CompressionType {
    Gzip,
    Zstd,
    Uncompressed,
}

/// One entry of a layer's tar archive.
#[derive(Debug)]
pub struct TarEntry {
    pub path: String,
    pub size: u64,
    pub mode: u32,
    pub uid: u32,
    pub gid: u32,
    pub entry_type: TarEntryType,
    pub linkname: String,
    pub content_hash: u64,
    /// The bytes of a regular file (empty for other entries).
    pub content: Vec<u8>,
}

/// Why an archive could not be read.
#[derive(Debug)]
pub enum ArchiveError {
    /// Reading, decompressing or unpacking failed.
    Io(std::io::Error),
    /// A file the archive should hold is missing (the message says which).
    Missing(String),
    /// The manifest lists no image.
    NoManifest,
    /// A digest that does not start with `sha256:`.
    InvalidDigest(String),
    /// An OCI layout version other than 1.0.0.
    UnsupportedLayoutVersion(String),
    /// A layer's bytes could not be obtained (the message says why).
    Source(String),
    /// A layer's regular files hold more bytes than 64 bits count.
    SizeOverflow,
}

/// One entry of a tar archive as read: its path, the type byte of its
/// header, and each header field and its bytes as reading them turned out
/// (a field that could not be read holds the error).
pub struct TarRecord {
    pub path: String,
    pub type_byte: u8,
    pub size: Result<u64, std::io::Error>,
    pub mode: Result<u32, std::io::Error>,
    pub uid: Result<u64, std::io::Error>,
    pub gid: Result<u64, std::io::Error>,
    pub linkname: Result<Option<String>, std::io::Error>,
    pub data: Result<Vec<u8>, std::io::Error>,
}

/// The mathematical value of a [`TarRecord`]; a field that could not be
/// read is `None`.
pub struct TarRecordView {
    pub path: Seq<char>,
    pub type_byte: u8,
    pub size: Option<u64>,
    pub mode: Option<u32>,
    pub uid: Option<u64>,
    pub gid: Option<u64>,
    pub linkname: Option<Option<Seq<char>>>,
    pub data: Option<Seq<u8>>,
}

/// The value read, if reading succeeded.
pub open spec fn read_ok<T>(r: Result<T, std::io::Error>) -> Option<T> {
    match r {
        Ok(v) => Some(v),
        Err(_) => None,
    }
}

impl View for TarRecord {
    type V = TarRecordView;

    open spec fn view(&self) -> TarRecordView {
        TarRecordView {
            path: self.path@,
            type_byte: self.type_byte,
            size: read_ok(self.size),
            mode: read_ok(self.mode),
            uid: read_ok(self.uid),
            gid: read_ok(self.gid),
            linkname: match self.linkname {
                Ok(Some(l)) => Some(Some(l@)),
                Ok(None) => Some(None),
                Err(_) => None,
            },
            data: match self.data {
                Ok(d) => Some(d@),
                Err(_) => None,
            },
        }
    }
}

pub open spec fn records_view(v: Seq<TarRecord>) -> Seq<TarRecordView> {
    v.map_values(|r: TarRecord| r@)
}

/// The entries that the `tar` crate reads from an archive held in `data`
/// (`None` when it reports an error).
pub uninterp spec fn tar_records(data: Seq<u8>) -> Option<Seq<TarRecordView>>;

/// What `flate2`'s gzip decoder gives for `data` (`None` on an error).
pub uninterp spec fn gzip_decoded(data: Seq<u8>) -> Option<Seq<u8>>;

/// What `zstd`'s stream decoder gives for `data` (`None` on an error).
pub uninterp spec fn zstd_decoded(data: Seq<u8>) -> Option<Seq<u8>>;

/// The XXH64 hash of `data` with seed 0.
pub uninterp spec fn xxh64_of(data: Seq<u8>) -> u64;

/// Reads every entry of the tar archive in `data` with `tar::Archive`: its
/// path (as lossy UTF-8; an error here fails the whole read, as does an
/// error from the archive's entry iterator), the header's type byte, and
/// each of the header's size, mode, owner ids and link name and the entry's
/// bytes as reading it turned out. The contract claims only that the result
/// is the named one for these bytes.
#[verifier::external_body]
fn read_tar(data: &[u8]) -> (r: Result<Vec<TarRecord>, std::io::Error>)
    ensures
        match r {
            Ok(v) => tar_records(data@) == Some(records_view(v@)),
            Err(_) => tar_records(data@) is None,
        },
{
    let mut out = Vec::new();
    for entry in tar::Archive::new(data).entries()? {
        let mut e = entry?;
        let path = e.path()?.to_string_lossy().into_owned();
        let mut bytes = Vec::new();
        let data = e.read_to_end(&mut bytes).map(|_| bytes);
        let h = e.header();
        let linkname = h.link_name().map(|l| l.map(|l| l.to_string_lossy().into_owned()));
        let type_byte = h.entry_type().as_byte();
        out.push(TarRecord { path, type_byte, size: h.size(), mode: h.mode(), uid: h.uid(), gid: h.gid(), linkname, data });
    }
    Ok(out)
}

/// Takes the outcome out of `slot`, leaving `Ok(placeholder)` behind.
fn take_read<T>(slot: &mut Result<T, std::io::Error>, placeholder: T) -> (r: Result<T, std::io::Error>)
    ensures
        r == *old(slot),
        *final(slot) == Ok::<T, std::io::Error>(placeholder),
{
    let mut r: Result<T, std::io::Error> = Ok(placeholder);
    std::mem::swap(&mut r, slot);
    r
}

/// Decodes gzip data with `flate2::read::GzDecoder`.
#[verifier::external_body]
fn gunzip(data: &[u8]) -> (r: Result<Vec<u8>, std::io::Error>)
    ensures
        match r {
            Ok(v) => gzip_decoded(data@) == Some(v@),
            Err(_) => gzip_decoded(data@) is None,
        },
{
    let mut out = Vec::new();
    std::io::Read::read_to_end(&mut flate2::read::GzDecoder::new(data), &mut out)?;
    Ok(out)
}

/// Decodes zstd data with `zstd::stream::read::Decoder`.
#[verifier::external_body]
fn unzstd(data: &[u8]) -> (r: Result<Vec<u8>, std::io::Error>)
    ensures
        match r {
            Ok(v) => zstd_decoded(data@) == Some(v@),
            Err(_) => zstd_decoded(data@) is None,
        },
{
    let mut out = Vec::new();
    std::io::Read::read_to_end(&mut zstd::stream::read::Decoder::new(data)?, &mut out)?;
    Ok(out)
}

/// The XXH64 hash (seed 0) of `data`, by `xxhash_rust::xxh64::xxh64`.
pub fn compute_content_hash(data: &[u8]) -> (r: u64)
    ensures
        r == xxh64_of(data@),
{
    compute_hash(data)
}

#[verifier::external_body]
fn compute_hash(data: &[u8]) -> (r: u64)
    ensures
        r == xxh64_of(data@),
{
    xxhash_rust::xxh64::xxh64(data, 0)
}

/// The compression that the first bytes of `data` announce.
pub open spec fn compression_of(data: Seq<u8>) -> CompressionType {
    if data.len() >= 2 && data[0] == 0x1f && data[1] == 0x8b {
        CompressionType::Gzip
    } else if data.len() >= 4 && data[0] == 0x28 && data[1] == 0xb5 && data[2] == 0x2f && data[3]
        == 0xfd {
        CompressionType::Zstd
    } else {
        CompressionType::Uncompressed
    }
}

/// Gzip when `data` starts with `1f 8b`, zstd when it starts with
/// `28 b5 2f fd`, else uncompressed.
pub fn detect_compression(data: &[u8]) -> (r: CompressionType)
    ensures
        r == compression_of(data@),
{
    if data.len() >= 2 && data[0] == 0x1f && data[1] == 0x8b {
        CompressionType::Gzip
    } else if data.len() >= 4 && data[0] == 0x28 && data[1] == 0xb5 && data[2] == 0x2f && data[3]
        == 0xfd {
        CompressionType::Zstd
    } else {
        CompressionType::Uncompressed
    }
}

/// The bytes of a layer blob, decompressed as its first bytes announce.
pub open spec fn decompressed(data: Seq<u8>) -> Option<Seq<u8>> {
    match compression_of(data) {
        CompressionType::Gzip => gzip_decoded(data),
        CompressionType::Zstd => zstd_decoded(data),
        CompressionType::Uncompressed => Some(data),
    }
}

/// Decompresses a layer blob.
pub fn decompress_to_vec(data: &[u8]) -> (r: Result<Vec<u8>, ArchiveError>)
    ensures
        match r {
            Ok(v) => decompressed(data@) == Some(v@),
            Err(_) => decompressed(data@) is None,
        },
{
    match detect_compression(data) {
        CompressionType::Gzip => match gunzip(data) {
            Ok(v) => Ok(v),
            Err(e) => Err(ArchiveError::Io(e)),
        },
        CompressionType::Zstd => match unzstd(data) {
            Ok(v) => Ok(v),
            Err(e) => Err(ArchiveError::Io(e)),
        },
        CompressionType::Uncompressed => {
            let mut v: Vec<u8> = Vec::new();
            let mut i: usize = 0;
            while i < data.len()
                invariant
                    i <= data@.len(),
                    v@ == data@.take(i as int),
                decreases data@.len() - i,
            {
                v.push(data[i]);
                assert(data@.take(i + 1) =~= data@.take(i as int).push(data@[i as int]));
                i = i + 1;
            }
            assert(data@.take(data@.len() as int) =~= data@);
            Ok(v)
        },
    }
}

/// A tar path made relative: leading `./` repetitions, then leading `/`s,
/// removed.
pub open spec fn normalized(path: Seq<char>) -> Seq<char> {
    trim_start_char(trim_start_pattern(path, "./"@), '/')
}

/// Makes a tar path relative.
pub fn normalize_path(path: &str) -> (r: String)
    ensures
        r@ == normalized(path@),
{
    let chars = str_to_chars(path);
    let pat = str_to_chars("./");
    proof {
        reveal_strlit("./");
    }
    let a = trim_start_matches_pattern(&chars, &pat);
    let b = trim_start_matches_char(&a, '/');
    vec_to_string(&b)
}

/// The hex part of a `sha256:` digest.
pub fn digest_to_hex(digest: &str) -> (r: Result<String, ArchiveError>)
    ensures
        match r {
            Ok(h) => has_prefix(digest@, "sha256:"@) && h@ == digest@.skip(7),
            Err(e) => !has_prefix(digest@, "sha256:"@) && (e matches ArchiveError::InvalidDigest(d)
                && d@ == digest@),
        },
{
    let chars = str_to_chars(digest);
    let prefix = str_to_chars("sha256:");
    proof {
        reveal_strlit("sha256:");
    }
    if crate::text::starts_with(&chars, &prefix) {
        let rest = sub_chars(&chars, 7, chars.len());
        assert(rest@ =~= digest@.skip(7));
        Ok(vec_to_string(&rest))
    } else {
        Err(ArchiveError::InvalidDigest(digest.to_owned()))
    }
}

/// A history command without the shell prefix that docker build adds.
pub open spec fn stripped_command(cmd: Seq<char>) -> Seq<char> {
    if has_prefix(cmd, "/bin/sh -c #(nop) "@) {
        trim_white(cmd.skip(18))
    } else if has_prefix(cmd, "/bin/sh -c "@) {
        trim_white(cmd.skip(11))
    } else {
        cmd
    }
}

/// Strips the `/bin/sh -c ` (or `/bin/sh -c #(nop) `) prefix of a history
/// command and trims what is left.
pub fn strip_command_prefix(cmd: &str) -> (r: String)
    ensures
        r@ == stripped_command(cmd@),
{
    let chars = str_to_chars(cmd);
    let nop = str_to_chars("/bin/sh -c #(nop) ");
    let sh = str_to_chars("/bin/sh -c ");
    proof {
        reveal_strlit("/bin/sh -c #(nop) ");
        reveal_strlit("/bin/sh -c ");
    }
    if crate::text::starts_with(&chars, &nop) {
        let rest = sub_chars(&chars, 18, chars.len());
        assert(rest@ =~= cmd@.skip(18));
        vec_to_string(&trim_chars(&rest))
    } else if crate::text::starts_with(&chars, &sh) {
        let rest = sub_chars(&chars, 11, chars.len());
        assert(rest@ =~= cmd@.skip(11));
        vec_to_string(&trim_chars(&rest))
    } else {
        cmd.to_owned()
    }
}

/// The entry type that a tar header's type byte stands for.
pub open spec fn entry_type_of(b: u8) -> TarEntryType {
    if b == 0x30 || b == 0 || b == 0x37 {
        TarEntryType::Regular
    } else if b == 0x35 {
        TarEntryType::Directory
    } else if b == 0x32 {
        TarEntryType::Symlink
    } else if b == 0x31 {
        TarEntryType::Hardlink
    } else {
        TarEntryType::Other
    }
}

fn entry_type_from(b: u8) -> (r: TarEntryType)
    ensures
        r == entry_type_of(b),
{
    if b == 0x30 || b == 0 || b == 0x37 {
        TarEntryType::Regular
    } else if b == 0x35 {
        TarEntryType::Directory
    } else if b == 0x32 {
        TarEntryType::Symlink
    } else if b == 0x31 {
        TarEntryType::Hardlink
    } else {
        TarEntryType::Other
    }
}

/// The mathematical value of a [`TarEntry`].
pub struct TarEntryView {
    pub path: Seq<char>,
    pub size: u64,
    pub mode: u32,
    pub uid: u32,
    pub gid: u32,
    pub entry_type: TarEntryType,
    pub linkname: Seq<char>,
    pub content_hash: u64,
    pub content: Seq<u8>,
}

impl View for TarEntry {
    type V = TarEntryView;

    open spec fn view(&self) -> TarEntryView {
        TarEntryView {
            path: self.path@,
            size: self.size,
            mode: self.mode,
            uid: self.uid,
            gid: self.gid,
            entry_type: self.entry_type,
            linkname: self.linkname@,
            content_hash: self.content_hash,
            content: self.content@,
        }
    }
}

pub open spec fn entries_view(v: Seq<TarEntry>) -> Seq<TarEntryView> {
    v.map_values(|e: TarEntry| e@)
}

/// Whether a record gives an entry without a reading error: a record whose
/// path leaves nothing once made relative is skipped before anything else
/// is read; otherwise its size, mode, owner ids and link name must have
/// been read, and for a regular file its bytes too.
pub open spec fn record_readable(r: TarRecordView) -> bool {
    normalized(r.path).len() == 0 || {
        &&& r.size is Some
        &&& r.mode is Some
        &&& r.uid is Some
        &&& r.gid is Some
        &&& r.linkname is Some
        &&& entry_type_of(r.type_byte) == TarEntryType::Regular ==> r.data is Some
    }
}

/// Every record gives its entry without a reading error.
pub open spec fn records_readable(rs: Seq<TarRecordView>) -> bool {
    forall|i: int| 0 <= i < rs.len() ==> record_readable(#[trigger] rs[i])
}

/// The entry a record gives: its path made relative (none when that leaves
/// nothing), its type from the type byte, owner ids cut to 32 bits, and for
/// regular files the content and its hash.
pub open spec fn entry_of(r: TarRecordView) -> Option<TarEntryView> {
    let path = normalized(r.path);
    let t = entry_type_of(r.type_byte);
    if path.len() == 0 {
        None
    } else {
        Some(
            TarEntryView {
                path,
                size: r.size->Some_0,
                mode: r.mode->Some_0,
                uid: r.uid->Some_0 as u32,
                gid: r.gid->Some_0 as u32,
                entry_type: t,
                linkname: match r.linkname->Some_0 {
                    Some(l) => l,
                    None => Seq::empty(),
                },
                content_hash: if t == TarEntryType::Regular {
                    xxh64_of(r.data->Some_0)
                } else {
                    0
                },
                content: if t == TarEntryType::Regular {
                    r.data->Some_0
                } else {
                    Seq::empty()
                },
            },
        )
    }
}

/// The error that reading a record's fields gave first, in the order they
/// are read: its size, mode, owner ids and link name, then, for a regular
/// file, its bytes.
pub open spec fn field_error(r: TarRecord) -> Option<std::io::Error> {
    match r.size {
        Err(e) => Some(e),
        Ok(_) => match r.mode {
            Err(e) => Some(e),
            Ok(_) => match r.uid {
                Err(e) => Some(e),
                Ok(_) => match r.gid {
                    Err(e) => Some(e),
                    Ok(_) => match r.linkname {
                        Err(e) => Some(e),
                        Ok(_) => if entry_type_of(r.type_byte) == TarEntryType::Regular {
                            match r.data {
                                Err(e) => Some(e),
                                Ok(_) => None,
                            }
                        } else {
                            None
                        },
                    },
                },
            },
        },
    }
}

/// `k` is the first record that does not give its entry.
pub open spec fn first_unreadable(rs: Seq<TarRecordView>, k: int) -> bool {
    &&& 0 <= k < rs.len()
    &&& records_readable(rs.take(k))
    &&& !record_readable(rs[k])
}

/// The entries of a layer's tar archive, in archive order. It fails where
/// the archive cannot be read, or an entry that is not skipped has a header
/// field, or (for a regular file) bytes, that cannot be read.
pub fn parse_tar_entries(data: &[u8]) -> (r: Result<Vec<TarEntry>, ArchiveError>)
    ensures
        match tar_records(data@) {
            None => r matches Err(ArchiveError::Io(_)),
            Some(rs) => if records_readable(rs) {
                r matches Ok(v) && entries_view(v@) == rs.filter_map(|x: TarRecordView| entry_of(x))
            } else {
                r matches Err(ArchiveError::Io(_))
            },
        },
{
    match read_tar(data) {
        Ok(records) => entries_from_records(records),
        Err(e) => Err(ArchiveError::Io(e)),
    }
}

/// The entries that the records read from a tar archive give, in order.
/// Where a record that is not skipped has a field that could not be read,
/// the error is the first such record's first field error.
#[verifier::rlimit(40)]
pub fn entries_from_records(records: Vec<TarRecord>) -> (r: Result<Vec<TarEntry>, ArchiveError>)
    ensures
        ({
            let rs = records_view(records@);
            if records_readable(rs) {
                r matches Ok(v) && entries_view(v@) == rs.filter_map(|x: TarRecordView| entry_of(x))
            } else {
                r matches Err(ArchiveError::Io(e)) && exists|k: int|
                    first_unreadable(rs, k) && #[trigger] field_error(records@[k]) == Some(e)
            }
        }),
{
    let ghost orig = records@;
    let ghost rv = records_view(records@);
    let mut recs = records;
    let mut out: Vec<TarEntry> = Vec::new();
    let mut i: usize = 0;
    let n = recs.len();
    proof {
        assert(rv.take(0) =~= Seq::<TarRecordView>::empty());
        assert(rv.take(0).filter_map(|x: TarRecordView| entry_of(x)) =~= Seq::<TarEntryView>::empty());
    }
    while i < n
        invariant
            n == recs@.len(),
            rv == records_view(orig),
            orig == records@,
            rv.len() == n,
            orig.len() == n,
            forall|j: int| i <= j < n ==> #[trigger] recs@[j] == orig[j],
            i <= n,
            entries_view(out@) == rv.take(i as int).filter_map(|x: TarRecordView| entry_of(x)),
            records_readable(rv.take(i as int)),
        decreases n - i,
    {
        let ghost x = rv[i as int];
        proof {
            rv.lemma_filter_map_take_succ(|x: TarRecordView| entry_of(x), i as int);
            assert(recs@[i as int] == orig[i as int]);
            assert(orig[i as int]@ == x);
        }
        let ghost before_records = recs@;
        let path = normalize_path(recs[i].path.as_str());
        let type_byte = recs[i].type_byte;
        if string_chars(&path).len() > 0 {
            let t = entry_type_from(type_byte);
            let size = match take_read(&mut recs[i].size, 0) {
                Ok(v) => v,
                Err(e) => {
                    proof {
                        assert(!record_readable(rv[i as int]));
                        assert(first_unreadable(rv, i as int));
                        assert(!records_readable(rv));
                        assert(field_error(orig[i as int]) == Some(e));
                    }
                    return Err(ArchiveError::Io(e));
                },
            };
            let mode = match take_read(&mut recs[i].mode, 0) {
                Ok(v) => v,
                Err(e) => {
                    proof {
                        assert(!record_readable(rv[i as int]));
                        assert(first_unreadable(rv, i as int));
                        assert(!records_readable(rv));
                        assert(field_error(orig[i as int]) == Some(e));
                    }
                    return Err(ArchiveError::Io(e));
                },
            };
            let uid = match take_read(&mut recs[i].uid, 0) {
                Ok(v) => v,
                Err(e) => {
                    proof {
                        assert(!record_readable(rv[i as int]));
                        assert(first_unreadable(rv, i as int));
                        assert(!records_readable(rv));
                        assert(field_error(orig[i as int]) == Some(e));
                    }
                    return Err(ArchiveError::Io(e));
                },
            };
            let gid = match take_read(&mut recs[i].gid, 0) {
                Ok(v) => v,
                Err(e) => {
                    proof {
                        assert(!record_readable(rv[i as int]));
                        assert(first_unreadable(rv, i as int));
                        assert(!records_readable(rv));
                        assert(field_error(orig[i as int]) == Some(e));
                    }
                    return Err(ArchiveError::Io(e));
                },
            };
            let link = match take_read(&mut recs[i].linkname, None) {
                Ok(v) => v,
                Err(e) => {
                    proof {
                        assert(!record_readable(rv[i as int]));
                        assert(first_unreadable(rv, i as int));
                        assert(!records_readable(rv));
                        assert(field_error(orig[i as int]) == Some(e));
                    }
                    return Err(ArchiveError::Io(e));
                },
            };
            let linkname = match link {
                Some(l) => l,
                None => String::new(),
            };
            let (hash, content) = if t == TarEntryType::Regular {
                let bytes = match take_read(&mut recs[i].data, Vec::new()) {
                    Ok(v) => v,
                    Err(e) => {
                    proof {
                        assert(!record_readable(rv[i as int]));
                        assert(first_unreadable(rv, i as int));
                        assert(!records_readable(rv));
                        assert(field_error(orig[i as int]) == Some(e));
                    }
                    return Err(ArchiveError::Io(e));
                },
                };
                (compute_content_hash(bytes.as_slice()), bytes)
            } else {
                (0u64, Vec::new())
            };
            let e = TarEntry {
                path,
                size,
                mode,
                uid: uid as u32,
                gid: gid as u32,
                entry_type: t,
                linkname,
                content_hash: hash,
                content,
            };
            let ghost before = entries_view(out@);
            let ghost ev = e@;
            proof {
                assert(record_readable(x));
                assert(entry_of(x) == Some(ev));
            }
            out.push(e);
            proof {
                assert(entries_view(out@) =~= before + seq![ev]);
            }
        } else {
            proof {
                assert(entry_of(x) is None);
                assert(record_readable(x));
            }
        }
        proof {
            assert(rv.take(i + 1) =~= rv.take(i as int).push(x));
            assert forall|j: int| 0 <= j < i + 1 implies record_readable(#[trigger] rv.take(i + 1)[j]) by {
                if j < i {
                    assert(rv.take(i + 1)[j] == rv.take(i as int)[j]);
                }
            }
            assert forall|j: int| i + 1 <= j < n implies #[trigger] recs@[j] == orig[j] by {
                assert(recs@[j] == before_records[j]);
            }
        }
        i = i + 1;
    }
    proof {
        assert(rv.take(n as int) =~= rv);
    }
    Ok(out)
}

/// One command of an image's build history.
#[derive(Debug)]
pub struct HistoryEntry {
    pub created_by: String,
    pub empty_layer: Option<bool>,
}

/// An image's configuration: its build history.
#[derive(Debug)]
pub struct ImageConfig {
    pub history: Vec<HistoryEntry>,
}

/// Where a layer's bytes come from, and what identifies it.
#[derive(Debug)]
pub struct LayerSource {
    /// The layer blob, or why it could not be had.
    pub data: Result<Vec<u8>, String>,
    pub id: Option<String>,
    pub digest: Option<String>,
}

/// The mathematical value of a [`LayerSource`].
pub struct LayerSourceView {
    pub data: Result<Seq<u8>, Seq<char>>,
    pub id: Option<Seq<char>>,
    pub digest: Option<Seq<char>>,
}

/// The characters of an optional string.
pub open spec fn opt_chars(o: Option<String>) -> Option<Seq<char>> {
    match o {
        Some(s) => Some(s@),
        None => None,
    }
}

impl View for LayerSource {
    type V = LayerSourceView;

    open spec fn view(&self) -> LayerSourceView {
        LayerSourceView {
            data: match self.data {
                Ok(d) => Ok(d@),
                Err(m) => Err(m@),
            },
            id: opt_chars(self.id),
            digest: opt_chars(self.digest),
        }
    }
}

pub open spec fn sources_view(v: Seq<LayerSource>) -> Seq<LayerSourceView> {
    v.map_values(|s: LayerSource| s@)
}

/// The metadata a tree node gets from a tar entry.
pub open spec fn info_of(e: TarEntryView) -> InfoView {
    InfoView {
        size: e.size,
        mode: e.mode,
        uid: e.uid,
        gid: e.gid,
        entry_type: e.entry_type,
        linkname: e.linkname,
        content_hash: e.content_hash,
        content: e.content,
    }
}

/// The entries of a tree after `add_path` of entry `e`.
pub open spec fn add_entry(m: Map<PathKey, NodeView>, e: TarEntryView) -> Map<PathKey, NodeView> {
    if trim_start_char(e.path, '/').len() == 0 {
        m
    } else {
        add_path_map(m, path_key(e.path), fresh_node(trim_start_char(e.path, '/'), info_of(e)))
    }
}

/// The entries of the tree built from `es` in order.
pub open spec fn entries_map(es: Seq<TarEntryView>) -> Map<PathKey, NodeView>
    decreases es.len(),
{
    if es.len() == 0 {
        Map::empty()
    } else {
        add_entry(entries_map(es.drop_last()), es.last())
    }
}

/// The bytes of the regular files among `es`.
pub open spec fn regular_bytes(es: Seq<TarEntryView>) -> int
    decreases es.len(),
{
    if es.len() == 0 {
        0
    } else {
        regular_bytes(es.drop_last()) + if es.last().entry_type == TarEntryType::Regular {
            es.last().size as int
        } else {
            0
        }
    }
}

/// The history commands that made a layer.
pub open spec fn non_empty_history(h: Seq<HistoryEntry>) -> Seq<HistoryEntry> {
    h.filter(|e: HistoryEntry| e.empty_layer != Some(true))
}

/// The command of layer `i`: its history command stripped, or nothing.
pub open spec fn command_for(h: Seq<HistoryEntry>, i: int) -> Seq<char> {
    let ne = non_empty_history(h);
    if 0 <= i < ne.len() {
        stripped_command(ne[i].created_by@)
    } else {
        Seq::empty()
    }
}

/// The tar entries of a layer's bytes, when they decompress and unpack.
pub open spec fn layer_entries(data: Seq<u8>) -> Option<Seq<TarEntryView>> {
    match decompressed(data) {
        Some(d) => match tar_records(d) {
            Some(rs) => if records_readable(rs) {
                Some(rs.filter_map(|x: TarRecordView| entry_of(x)))
            } else {
                None
            },
            None => None,
        },
        None => None,
    }
}

/// A layer source from which a layer can be built.
pub open spec fn source_ok(s: LayerSourceView) -> bool {
    &&& s.data matches Ok(d)
    &&& layer_entries(d) matches Some(es)
    &&& regular_bytes(es) <= u64::MAX
}

/// `l` is layer `i` built from entries `es`.
pub open spec fn layer_built(
    l: Layer,
    i: int,
    es: Seq<TarEntryView>,
    command: Seq<char>,
    id: Option<Seq<char>>,
    digest: Option<Seq<char>>,
    tags: Seq<Seq<char>>,
) -> bool {
    &&& l.index == i
    &&& l.command@ == command
    &&& l.size == regular_bytes(es)
    &&& l.tree.wf()
    &&& l.tree.nodes() == entries_map(es)
    &&& l.tree.root_view() == fresh_node(seq!['/'], default_info())
    &&& opt_chars(l.id) == id
    &&& opt_chars(l.digest) == digest
    &&& l.tags@.map_values(|t: String| t@) == tags
}

proof fn lemma_regular_bytes_prefix(es: Seq<TarEntryView>, i: int)
    requires
        0 <= i <= es.len(),
    ensures
        0 <= regular_bytes(es.take(i)) <= regular_bytes(es),
    decreases es.len() - i,
{
    if i < es.len() {
        lemma_regular_bytes_prefix(es, i + 1);
        assert(es.take(i + 1).drop_last() =~= es.take(i));
        assert(es.take(i + 1).last() == es[i]);
        lemma_regular_bytes_nonneg(es.take(i));
    } else {
        assert(es.take(i) =~= es);
        lemma_regular_bytes_nonneg(es);
    }
}

proof fn lemma_regular_bytes_nonneg(es: Seq<TarEntryView>)
    ensures
        regular_bytes(es) >= 0,
    decreases es.len(),
{
    if es.len() > 0 {
        lemma_regular_bytes_nonneg(es.drop_last());
    }
}

fn copy_bytes(b: &Vec<u8>) -> (r: Vec<u8>)
    ensures
        r@ == b@,
{
    let mut c: Vec<u8> = Vec::new();
    let mut k: usize = 0;
    while k < b.len()
        invariant
            k <= b@.len(),
            c@ == b@.take(k as int),
        decreases b@.len() - k,
    {
        c.push(b[k]);
        assert(b@.take(k + 1) =~= b@.take(k as int).push(b@[k as int]));
        k = k + 1;
    }
    assert(b@.take(b@.len() as int) =~= b@);
    c
}

/// The bytes of the regular files among the entries, if they fit in 64 bits.
pub fn regular_size(entries: &Vec<TarEntry>) -> (r: Option<u64>)
    ensures
        match r {
            Some(n) => n == regular_bytes(entries_view(entries@)),
            None => regular_bytes(entries_view(entries@)) > u64::MAX,
        },
{
    let ghost es = entries_view(entries@);
    let mut size: u64 = 0;
    let mut i: usize = 0;
    proof {
        assert(es.take(0) =~= Seq::<TarEntryView>::empty());
    }
    while i < entries.len()
        invariant
            es == entries_view(entries@),
            i <= es.len(),
            size == regular_bytes(es.take(i as int)),
        decreases es.len() - i,
    {
        proof {
            assert(es.take(i + 1).drop_last() =~= es.take(i as int));
            assert(es.take(i + 1).last() == entries@[i as int]@);
            lemma_regular_bytes_prefix(es, i + 1);
        }
        if entries[i].entry_type == TarEntryType::Regular {
            if entries[i].size > u64::MAX - size {
                proof {
                    lemma_regular_bytes_prefix(es, i + 1);
                }
                return None;
            }
            size = size + entries[i].size;
        }
        i = i + 1;
    }
    proof {
        assert(es.take(es.len() as int) =~= es);
    }
    Some(size)
}

/// The layer whose tree holds `entries`, added in order.
pub fn layer_from_entries(
    index: usize,
    entries: &Vec<TarEntry>,
    command: String,
    id: Option<String>,
    digest: Option<String>,
    tags: Vec<String>,
) -> (r: Layer)
    requires
        regular_bytes(entries_view(entries@)) <= u64::MAX,
    ensures
        layer_built(
            r,
            index as int,
            entries_view(entries@),
            command@,
            opt_chars(id),
            opt_chars(digest),
            tags@.map_values(|t: String| t@),
        ),
{
    let ghost es = entries_view(entries@);
    let mut tree = FileTree::new();
    let mut size: u64 = 0;
    let mut i: usize = 0;
    proof {
        assert(es.take(0) =~= Seq::<TarEntryView>::empty());
    }
    while i < entries.len()
        invariant
            es == entries_view(entries@),
            regular_bytes(es) <= u64::MAX,
            i <= es.len(),
            tree.wf(),
            tree.nodes() == entries_map(es.take(i as int)),
            tree.root_view() == fresh_node(seq!['/'], default_info()),
            size == regular_bytes(es.take(i as int)),
        decreases es.len() - i,
    {
        let te = &entries[i];
        proof {
            assert(es.take(i + 1).drop_last() =~= es.take(i as int));
            assert(es.take(i + 1).last() == te@);
            lemma_regular_bytes_prefix(es, i + 1);
        }
        let info = FileInfo {
            size: te.size,
            mode: te.mode,
            uid: te.uid,
            gid: te.gid,
            entry_type: te.entry_type,
            linkname: te.linkname.clone(),
            content_hash: te.content_hash,
            content: copy_bytes(&te.content),
        };
        assert(info@ == info_of(te@));
        tree.add_path(te.path.as_str(), info);
        if te.entry_type == TarEntryType::Regular {
            size = size + te.size;
        }
        i = i + 1;
    }
    proof {
        assert(es.take(es.len() as int) =~= es);
    }
    Layer { index, command, size, tree, id, digest, tags }
}

fn history_command(config: &ImageConfig, i: usize) -> (r: String)
    ensures
        r@ == command_for(config.history@, i as int),
{
    let ghost h = config.history@;
    let mut seen: usize = 0;
    let mut k: usize = 0;
    proof {
        assert(h.take(0).filter(|e: HistoryEntry| e.empty_layer != Some(true)) =~= Seq::<HistoryEntry>::empty());
    }
    while k < config.history.len()
        invariant
            h == config.history@,
            k <= h.len(),
            seen == non_empty_history(h.take(k as int)).len(),
            seen <= i,
        decreases h.len() - k,
    {
        let e = &config.history[k];
        proof {
            assert(h.take(k + 1).drop_last() =~= h.take(k as int));
            reveal(Seq::filter);
            lemma_filter_prefix(h, k as int);
        }
        let empty = match e.empty_layer {
            Some(b) => b,
            None => false,
        };
        proof {
            assert(h.take(k + 1).last() == h[k as int]);
            if empty {
                assert(non_empty_history(h.take(k + 1)) == non_empty_history(h.take(k as int)));
            } else {
                lemma_filter_index(h, k as int);
            }
        }
        if !empty {
            if seen == i {
                proof {
                    lemma_filter_prefix(h, k + 1);
                    lemma_filter_index(h, k as int);
                    let a = non_empty_history(h.take(k + 1));
                    assert(a.len() == i + 1);
                    assert(a[i as int] == h[k as int]);
                    assert(non_empty_history(h).take(i + 1)[i as int] == h[k as int]);
                    assert(non_empty_history(h)[i as int] == h[k as int]);
                }
                return strip_command_prefix(e.created_by.as_str());
            }
            seen = seen + 1;
        }
        k = k + 1;
    }
    proof {
        assert(h.take(h.len() as int) =~= h);
    }
    String::new()
}

/// Filtering a prefix gives a prefix of the filtered sequence.
proof fn lemma_filter_prefix(h: Seq<HistoryEntry>, k: int)
    requires
        0 <= k <= h.len(),
    ensures
        non_empty_history(h.take(k)) == non_empty_history(h).take(non_empty_history(h.take(k)).len() as int),
        non_empty_history(h.take(k)).len() <= non_empty_history(h).len(),
    decreases h.len() - k,
{
    reveal(Seq::filter);
    if k == h.len() {
        assert(h.take(k) =~= h);
        assert(non_empty_history(h).take(non_empty_history(h).len() as int) =~= non_empty_history(h));
    } else {
        lemma_filter_prefix(h, k + 1);
        let a = h.take(k + 1);
        assert(a.drop_last() =~= h.take(k));
        let fa = non_empty_history(a);
        let fb = non_empty_history(h.take(k));
        if a.last().empty_layer != Some(true) {
            assert(fa == fb.push(a.last()));
            assert(fb =~= fa.drop_last());
            assert(fb =~= non_empty_history(h).take(fb.len() as int));
        } else {
            assert(fa == fb);
        }
    }
}

/// The entry at `k`, when it made a layer, is at its count in the filtered sequence.
proof fn lemma_filter_index(h: Seq<HistoryEntry>, k: int)
    requires
        0 <= k < h.len(),
        h[k].empty_layer != Some(true),
    ensures
        non_empty_history(h.take(k + 1)) == non_empty_history(h.take(k)).push(h[k]),
{
    reveal(Seq::filter);
    assert(h.take(k + 1).drop_last() =~= h.take(k));
    assert(h.take(k + 1).last() == h[k]);
}

fn clone_opt(o: &Option<String>) -> (r: Option<String>)
    ensures
        r == *o,
{
    match o {
        Some(s) => {
            let c = s.clone();
            assert(c == *s) by {
                assert(c@ == s@);
            }
            Some(c)
        },
        None => None,
    }
}

fn strings_clone(v: &Vec<String>) -> (r: Vec<String>)
    ensures
        r@ == v@,
{
    let mut out: Vec<String> = Vec::new();
    let mut i: usize = 0;
    while i < v.len()
        invariant
            i <= v@.len(),
            out@ == v@.take(i as int),
        decreases v@.len() - i,
    {
        let s = v[i].clone();
        assert(s == v@[i as int]) by {
            assert(s@ == v@[i as int]@);
        }
        out.push(s);
        assert(v@.take(i + 1) =~= v@.take(i as int).push(v@[i as int]));
        i = i + 1;
    }
    assert(v@.take(v@.len() as int) =~= v@);
    out
}

/// Builds one layer per source, in order: its blob decompressed and
/// unpacked into a tree, its size the bytes of its regular files, its
/// command from the history entries that made layers. The first source that
/// fails stops the build.
pub fn build_layers(config: &ImageConfig, sources: &Vec<LayerSource>, tags: &Vec<String>) -> (r: Result<Vec<Layer>, ArchiveError>)
    ensures
        r is Ok <==> forall|i: int| 0 <= i < sources@.len() ==> source_ok(#[trigger] sources@[i]@),
        r matches Ok(layers) ==> {
            &&& layers@.len() == sources@.len()
            &&& forall|i: int|
                0 <= i < layers@.len() ==> {
                    let s = (#[trigger] sources@[i])@;
                    &&& s.data matches Ok(d)
                    &&& layer_entries(d) matches Some(es)
                    &&& layer_built(
                        layers@[i],
                        i,
                        es,
                        command_for(config.history@, i),
                        s.id,
                        s.digest,
                        tags@.map_values(|t: String| t@),
                    )
                }
        },
{
    let ghost srcs = sources@;
    let mut layers: Vec<Layer> = Vec::new();
    let n = sources.len();
    let mut i: usize = 0;
    while i < n
        invariant
            srcs == sources@,
            n == srcs.len(),
            i <= n,
            layers@.len() == i,
            forall|j: int| 0 <= j < i ==> source_ok(#[trigger] srcs[j]@),
            forall|j: int|
                0 <= j < i ==> {
                    let s = (#[trigger] srcs[j])@;
                    &&& s.data matches Ok(d)
                    &&& layer_entries(d) matches Some(es)
                    &&& layer_built(
                        layers@[j],
                        j,
                        es,
                        command_for(config.history@, j),
                        s.id,
                        s.digest,
                        tags@.map_values(|t: String| t@),
                    )
                },
        decreases n - i,
    {
        let src = &sources[i];
        let data = match &src.data {
            Ok(d) => d,
            Err(m) => {
                assert(!source_ok(srcs[i as int]@));
                return Err(ArchiveError::Source(m.clone()));
            },
        };
        let dec = match decompress_to_vec(data.as_slice()) {
            Ok(d) => d,
            Err(e) => {
                assert(!source_ok(srcs[i as int]@));
                return Err(e);
            },
        };
        let entries = match parse_tar_entries(dec.as_slice()) {
            Ok(es) => es,
            Err(e) => {
                assert(!source_ok(srcs[i as int]@));
                return Err(e);
            },
        };
        if regular_size(&entries).is_none() {
            assert(!source_ok(srcs[i as int]@));
            return Err(ArchiveError::SizeOverflow);
        }
        let command = history_command(config, i);
        let layer = layer_from_entries(
            i,
            &entries,
            command,
            clone_opt(&src.id),
            clone_opt(&src.digest),
            strings_clone(tags),
        );
        layers.push(layer);
        i = i + 1;
    }
    Ok(layers)
}

/// Every record's bytes were read.
pub open spec fn all_data_read(rs: Seq<TarRecordView>) -> bool {
    forall|i: int| 0 <= i < rs.len() ==> (#[trigger] rs[i]).data is Some
}

/// The files of an archive held in memory: each path with its bytes, in
/// archive order. It fails where the archive, or the bytes of one of its
/// entries, cannot be read.
pub fn read_archive(data: &[u8]) -> (r: Result<Vec<(String, Vec<u8>)>, ArchiveError>)
    ensures
        match tar_records(data@) {
            None => r matches Err(ArchiveError::Io(_)),
            Some(rs) => if all_data_read(rs) {
                r matches Ok(v) && v@.len() == rs.len() && forall|i: int|
                    0 <= i < v@.len() ==> (#[trigger] v@[i]).0@ == rs[i].path && v@[i].1@ == rs[i].data->Some_0
            } else {
                r matches Err(ArchiveError::Io(_))
            },
        },
{
    match read_tar(data) {
        Ok(records) => files_from_records(records),
        Err(e) => Err(ArchiveError::Io(e)),
    }
}

/// The files that the records read from an archive give: each path with
/// its bytes, in order. Where the bytes of a record could not be read, the
/// error is the first such record's.
pub fn files_from_records(records: Vec<TarRecord>) -> (r: Result<Vec<(String, Vec<u8>)>, ArchiveError>)
    ensures
        ({
            let rs = records_view(records@);
            if all_data_read(rs) {
                r matches Ok(v) && v@.len() == rs.len() && forall|i: int|
                    0 <= i < v@.len() ==> (#[trigger] v@[i]).0@ == rs[i].path && v@[i].1@ == rs[i].data->Some_0
            } else {
                r matches Err(ArchiveError::Io(e)) && exists|k: int|
                    0 <= k < rs.len() && all_data_read(rs.take(k)) && #[trigger] records@[k].data
                        == Err::<Vec<u8>, std::io::Error>(e)
            }
        }),
{
    let ghost orig = records@;
    let ghost rv = records_view(records@);
    let mut recs = records;
    let mut out: Vec<(String, Vec<u8>)> = Vec::new();
    let mut i: usize = 0;
    let n = recs.len();
    while i < n
        invariant
            n == recs@.len(),
            orig == records@,
            rv == records_view(orig),
            rv.len() == n,
            orig.len() == n,
            forall|j: int| i <= j < n ==> #[trigger] recs@[j] == orig[j],
            i <= n,
            out@.len() == i,
            forall|j: int| 0 <= j < i ==> (#[trigger] out@[j]).0@ == rv[j].path && out@[j].1@ == rv[j].data->Some_0,
            all_data_read(rv.take(i as int)),
        decreases n - i,
    {
        assert(recs@[i as int] == orig[i as int]);
        let ghost before_recs = recs@;
        let path = recs[i].path.clone();
        let bytes = match take_read(&mut recs[i].data, Vec::new()) {
            Ok(v) => v,
            Err(e) => {
                proof {
                    assert(rv[i as int].data is None);
                    assert(!all_data_read(rv));
                    assert(orig[i as int].data == Err::<Vec<u8>, std::io::Error>(e));
                }
                return Err(ArchiveError::Io(e));
            },
        };
        out.push((path, bytes));
        proof {
            assert forall|j: int| i + 1 <= j < n implies #[trigger] recs@[j] == orig[j] by {
                assert(recs@[j] == before_recs[j]);
            }
            assert forall|j: int| 0 <= j < i + 1 implies (#[trigger] rv.take(i + 1)[j]).data is Some by {
                if j < i {
                    assert(rv.take(i + 1)[j] == rv.take(i as int)[j]);
                }
            }
        }
        i = i + 1;
    }
    proof {
        assert(rv.take(n as int) =~= rv);
    }
    Ok(out)
}

/// The bytes stored under `name`: those of its last entry.
pub open spec fn entry_named(entries: Seq<(String, Vec<u8>)>, name: Seq<char>) -> Option<Seq<u8>>
    decreases entries.len(),
{
    if entries.len() == 0 {
        None
    } else if entries.last().0@ == name {
        Some(entries.last().1@)
    } else {
        entry_named(entries.drop_last(), name)
    }
}

/// The bytes of the archive file `name`, if the archive holds one.
pub fn archive_entry<'a>(entries: &'a Vec<(String, Vec<u8>)>, name: &str) -> (r: Option<&'a Vec<u8>>)
    ensures
        match r {
            Some(b) => entry_named(entries@, name@) == Some(b@),
            None => entry_named(entries@, name@) is None,
        },
{
    let ghost ev = entries@;
    let target = str_to_chars(name);
    let mut j: usize = entries.len();
    proof {
        assert(ev.take(j as int) =~= ev);
    }
    while j > 0
        invariant
            ev == entries@,
            target@ == name@,
            j <= ev.len(),
            entry_named(ev, name@) == entry_named(ev.take(j as int), name@),
        decreases j,
    {
        let ghost t = ev.take(j as int);
        assert(t.last() == ev[j - 1]);
        assert(t.drop_last() =~= ev.take(j - 1));
        if crate::text::chars_eq(&string_chars(&entries[j - 1].0), &target) {
            return Some(&entries[j - 1].1);
        }
        j = j - 1;
    }
    None
}

/// What a docker-save manifest says of its first image.
#[derive(Debug)]
pub struct DockerManifest {
    /// The file of the image configuration.
    pub config: String,
    pub repo_tags: Vec<String>,
    /// The files of the layer blobs, bottom first.
    pub layers: Vec<String>,
}

/// A layer file's identifier: its first path component, when it has more
/// than one.
pub open spec fn layer_file_id(path: Seq<char>) -> Option<Seq<char>> {
    let parts = crate::text::split_char(path, '/');
    if parts.len() > 1 {
        Some(parts[0])
    } else {
        None
    }
}

fn layer_file_id_exec(path: &String) -> (r: Option<String>)
    ensures
        match r {
            Some(s) => layer_file_id(path@) == Some(s@),
            None => layer_file_id(path@) is None,
        },
{
    let parts = crate::text::split_chars(&string_chars(path), '/');
    if parts.len() > 1 {
        proof {
            assert(parts@.map_values(|v: Vec<char>| v@)[0] == parts@[0]@);
        }
        Some(vec_to_string(&parts[0]))
    } else {
        None
    }
}

/// The message of a layer file missing from the archive.
pub open spec fn missing_layer_message(path: Seq<char>) -> Seq<char> {
    "layer "@ + path + " not found"@
}

/// The source of the layer file `p`: its bytes (or that it is missing)
/// and its identifier.
pub open spec fn docker_source(entries: Seq<(String, Vec<u8>)>, p: Seq<char>) -> LayerSourceView {
    LayerSourceView {
        data: match entry_named(entries, p) {
            Some(b) => Ok(b),
            None => Err(missing_layer_message(p)),
        },
        id: layer_file_id(p),
        digest: None,
    }
}

/// The layer sources a docker-save manifest names.
pub open spec fn docker_sources(entries: Seq<(String, Vec<u8>)>, manifest: DockerManifest) -> Seq<LayerSourceView> {
    manifest.layers@.map_values(|p: String| docker_source(entries, p@))
}

/// The layer sources of a docker-save archive.
pub fn docker_layer_sources(entries: &Vec<(String, Vec<u8>)>, manifest: &DockerManifest) -> (r: Vec<LayerSource>)
    ensures
        sources_view(r@) == docker_sources(entries@, *manifest),
{
    let mut out: Vec<LayerSource> = Vec::new();
    let mut i: usize = 0;
    while i < manifest.layers.len()
        invariant
            i <= manifest.layers@.len(),
            sources_view(out@) == docker_sources(entries@, *manifest).take(i as int),
        decreases manifest.layers@.len() - i,
    {
        let p = &manifest.layers[i];
        let data: Result<Vec<u8>, String> = match archive_entry(entries, p.as_str()) {
            Some(b) => Ok(copy_bytes(b)),
            None => {
                let mut m = str_to_chars("layer ");
                append_chars(&mut m, &string_chars(p));
                append_chars(&mut m, &str_to_chars(" not found"));
                Err(vec_to_string(&m))
            },
        };
        let id = layer_file_id_exec(p);
        let src = LayerSource { data, id, digest: None };
        let ghost before = sources_view(out@);
        proof {
            assert(src@ == docker_source(entries@, p@));
            assert(docker_sources(entries@, *manifest).take(i + 1) =~= before.push(src@));
        }
        out.push(src);
        proof {
            assert(sources_view(out@) =~= before.push(src@));
        }
        i = i + 1;
    }
    proof {
        assert(docker_sources(entries@, *manifest).take(i as int) =~= docker_sources(entries@, *manifest));
    }
    out
}

/// The image of a docker-save archive, given its files, its manifest and
/// its configuration: the layers the manifest names, tagged with its tags,
/// and its first tag as the reference.
pub fn docker_save_image(entries: &Vec<(String, Vec<u8>)>, manifest: &DockerManifest, config: &ImageConfig) -> (r: Result<Image, ArchiveError>)
    ensures
        ({
            let sources = docker_sources(entries@, *manifest);
            &&& r is Ok <==> forall|i: int| 0 <= i < sources.len() ==> source_ok(#[trigger] sources[i])
            &&& r matches Ok(img) ==> {
                &&& img.reference@ == if manifest.repo_tags@.len() > 0 {
                    manifest.repo_tags@[0]@
                } else {
                    Seq::empty()
                }
                &&& img.layers@.len() == sources.len()
                &&& forall|i: int|
                    0 <= i < img.layers@.len() ==> {
                        let s = #[trigger] sources[i];
                        &&& s.data matches Ok(d)
                        &&& layer_entries(d) matches Some(es)
                        &&& layer_built(
                            img.layers@[i],
                            i,
                            es,
                            command_for(config.history@, i),
                            s.id,
                            s.digest,
                            manifest.repo_tags@.map_values(|t: String| t@),
                        )
                    }
            }
        }),
{
    let sources = docker_layer_sources(entries, manifest);
    let ghost sv = sources_view(sources@);
    let layers = match build_layers(config, &sources, &manifest.repo_tags) {
        Ok(l) => l,
        Err(e) => {
            proof {
                let i = choose|i: int| 0 <= i < sources@.len() && !source_ok(#[trigger] sources@[i]@);
                assert(sv[i] == sources@[i]@);
            }
            return Err(e);
        },
    };
    proof {
        assert forall|i: int| 0 <= i < sv.len() implies source_ok(#[trigger] sv[i]) by {
            assert(sv[i] == sources@[i]@);
        }
        assert forall|i: int| 0 <= i < layers@.len() implies {
            let s = #[trigger] sv[i];
            &&& s.data matches Ok(d)
            &&& layer_entries(d) matches Some(es)
            &&& layer_built(
                layers@[i],
                i,
                es,
                command_for(config.history@, i),
                s.id,
                s.digest,
                manifest.repo_tags@.map_values(|t: String| t@),
            )
        } by {
            assert(sv[i] == sources@[i]@);
        }
    }
    let reference = if manifest.repo_tags.len() > 0 {
        manifest.repo_tags[0].clone()
    } else {
        String::new()
    };
    Ok(Image { reference, layers })
}

/// Checks the version an OCI layout declares.
pub fn check_oci_layout_version(version: &str) -> (r: Result<(), ArchiveError>)
    ensures
        r is Ok <==> version@ == "1.0.0"@,
        r matches Err(e) ==> e matches ArchiveError::UnsupportedLayoutVersion(v) && v@ == version@,
{
    if crate::text::same_str(version, "1.0.0") {
        Ok(())
    } else {
        Err(ArchiveError::UnsupportedLayoutVersion(version.to_owned()))
    }
}

/// The path, inside an OCI layout, of the blob with the given digest.
pub fn oci_blob_path(digest: &str) -> (r: Result<String, ArchiveError>)
    ensures
        match r {
            Ok(p) => has_prefix(digest@, "sha256:"@) && p@ == "blobs/sha256/"@ + digest@.skip(7),
            Err(e) => !has_prefix(digest@, "sha256:"@) && (e matches ArchiveError::InvalidDigest(d) && d@ == digest@),
        },
{
    let hex = match digest_to_hex(digest) {
        Ok(h) => h,
        Err(e) => return Err(e),
    };
    let mut v = str_to_chars("blobs/sha256/");
    append_chars(&mut v, &string_chars(&hex));
    Ok(vec_to_string(&v))
}


/// A normalized tar path never starts with `/`: entries land relative to
/// the image root.
pub proof fn law_normalized_is_relative(path: Seq<char>)
    ensures
        normalized(path).len() == 0 || normalized(path)[0] != '/',
{
    lemma_trimmed_start(trim_start_pattern(path, "./"@), '/');
}

proof fn lemma_trimmed_start(s: Seq<char>, c: char)
    ensures
        trim_start_char(s, c).len() == 0 || trim_start_char(s, c)[0] != c,
    decreases s.len(),
{
    if s.len() > 0 && s[0] == c {
        lemma_trimmed_start(s.drop_first(), c);
    }
}

/// A blob that announces no compression is taken as it is.
pub proof fn law_uncompressed_passes_through(data: Seq<u8>)
    requires
        compression_of(data) == CompressionType::Uncompressed,
    ensures
        decompressed(data) == Some(data),
{
}


/// How many of the first `k` history entries make a layer (their
/// `empty_layer` is not `true`).
pub open spec fn layers_made_before(h: Seq<HistoryEntry>, k: int) -> int
    decreases k,
{
    if k <= 0 {
        0
    } else {
        layers_made_before(h, k - 1) + if h[k - 1].empty_layer == Some(true) {
            0int
        } else {
            1int
        }
    }
}

proof fn lemma_layers_made_before(h: Seq<HistoryEntry>, k: int)
    requires
        0 <= k <= h.len(),
    ensures
        non_empty_history(h.take(k)).len() == layers_made_before(h, k),
    decreases k,
{
    reveal(Seq::filter);
    if k == 0 {
        assert(h.take(0) =~= Seq::<HistoryEntry>::empty());
    } else {
        lemma_layers_made_before(h, k - 1);
        assert(h.take(k).drop_last() =~= h.take(k - 1));
        assert(h.take(k).last() == h[k - 1]);
    }
}

/// Layer `i` takes its command from the history entry that made it: the
/// entry at `k` that makes a layer and has exactly `i` layer-making entries
/// before it (entries marked as making no layer are passed over).
pub proof fn law_command_from_its_history_entry(h: Seq<HistoryEntry>, i: int, k: int)
    requires
        0 <= k < h.len(),
        h[k].empty_layer != Some(true),
        layers_made_before(h, k) == i,
    ensures
        command_for(h, i) == stripped_command(h[k].created_by@),
{
    lemma_layers_made_before(h, k);
    lemma_filter_index(h, k);
    lemma_filter_prefix(h, k + 1);
    let a = non_empty_history(h.take(k + 1));
    assert(a.len() == i + 1);
    assert(a[i] == h[k]);
    assert(non_empty_history(h).take(i + 1)[i] == h[k]);
}

} // verus!
