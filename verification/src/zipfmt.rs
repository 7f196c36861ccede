use vstd::prelude::*;

use crate::layout::BackupFile;

verus! {

/// How a zip-format backup compresses its entries.
#[derive(Clone, Copy, PartialEq, Eq, Structural, Debug)]
pub enum ZipCompression {
    Store,
    Deflate,
    Bzip2,
    Zstd,
}

/// The storage format of a game's backups.
#[derive(Clone, Copy, PartialEq, Eq, Structural, Debug)]
pub enum BackupFormat {
    Plain,
    Zip { compression: ZipCompression, level: i32 },
}

/// Whether a compression level is within the compressor's accepted range.
pub fn valid_level(compression: ZipCompression, level: i32) -> (r: bool)
    ensures
        r == (match compression {
            ZipCompression::Store => true,
            ZipCompression::Deflate => 1 <= level <= 9,
            ZipCompression::Bzip2 => 1 <= level <= 9,
            ZipCompression::Zstd => -7 <= level <= 22,
        }),
{
    match compression {
        ZipCompression::Store => true,
        ZipCompression::Deflate => 1 <= level && level <= 9,
        ZipCompression::Bzip2 => 1 <= level && level <= 9,
        ZipCompression::Zstd => -7 <= level && level <= 22,
    }
}

/// What a deflate stream of some bytes at some level looks like.
pub uninterp spec fn deflate_of(data: Seq<u8>, level: int) -> Seq<u8>;

/// What inflating a byte stream yields, where it is a valid stream.
pub uninterp spec fn inflate_of(data: Seq<u8>) -> Option<Seq<u8>>;

/// Relies on miniz_oxide::deflate::compress_to_vec: the stream depends only
/// on the bytes and the level, and decompressing it yields the bytes back.
#[verifier::external_body]
fn deflate_bytes(data: &Vec<u8>, level: u8) -> (r: Vec<u8>)
    ensures
        r@ == deflate_of(data@, level as int),
        inflate_of(r@) == Some(data@),
{
    miniz_oxide::deflate::compress_to_vec(data.as_slice(), level)
}

/// Relies on miniz_oxide::inflate::decompress_to_vec: a valid stream yields
/// its bytes, an invalid one an error.
#[verifier::external_body]
fn inflate_bytes(data: &Vec<u8>) -> (r: Option<Vec<u8>>)
    ensures
        r matches Some(v) ==> inflate_of(data@) == Some(v@),
        r is None ==> inflate_of(data@) is None,
{
    match miniz_oxide::inflate::decompress_to_vec(data.as_slice()) {
        Ok(v) => Some(v),
        Err(_) => None,
    }
}

/// One entry of a backup archive.
pub struct ArchiveEntry {
    pub name: String,
    pub data: Vec<u8>,
}

/// An entry name: the stored path with its root character stripped.
pub open spec fn entry_name_of(path: Seq<char>) -> Seq<char> {
    if path.len() > 0 && path[0] == '/' {
        path.skip(1)
    } else {
        path
    }
}

/// What an entry holds for some bytes under a compression choice. Only
/// deflate streams are produced here; the other compressors' entries are
/// stored plain.
pub open spec fn encoded(data: Seq<u8>, compression: ZipCompression, level: int) -> Seq<u8> {
    match compression {
        ZipCompression::Deflate => deflate_of(data, level),
        _ => data,
    }
}

fn strip_root(path: &String) -> (r: String)
    ensures
        r@ == entry_name_of(path@),
{
    let cs = crate::text::chars_of(path.as_str());
    if cs.len() > 0 {
        let c0 = cs[0];
        if c0 == '/' {
            let mut out: Vec<char> = Vec::new();
            let mut i: usize = 1;
            while i < cs.len()
                invariant
                    1 <= i <= cs@.len(),
                    cs@ == path@,
                    cs@.len() > 0,
                    out@ == path@.subrange(1, i as int),
                decreases cs@.len() - i,
            {
                out.push(cs[i]);
                proof {
                    assert(out@ =~= path@.subrange(1, i + 1));
                }
                i = i + 1;
            }
            proof {
                assert(path@.subrange(1, cs@.len() as int) =~= path@.skip(1));
            }
            return crate::text::string_of(&out);
        }
    }
    path.clone()
}

/// Builds the archive for one backup: the metadata document first, under the
/// conventional name, then every stored file under its stripped path, each
/// encoded by the chosen compressor.
pub fn build_archive(
    files: &Vec<BackupFile>,
    mapping_document: Vec<u8>,
    compression: ZipCompression,
    level: u8,
) -> (r: Vec<ArchiveEntry>)
    requires
        compression is Deflate ==> 1 <= level <= 9,
    ensures
        r@.len() == files@.len() + 1,
        r@[0].name@ == mapping_name(),
        r@[0].data@ == mapping_document@,
        forall|i: int|
            0 <= i < files@.len() ==> (#[trigger] r@[i + 1]).name@ == entry_name_of(
                files@[i].path@,
            ) && r@[i + 1].data@ == encoded(files@[i].content@, compression, level as int),
        compression is Deflate ==> forall|i: int|
            0 <= i < files@.len() ==> inflate_of((#[trigger] r@[i + 1]).data@) == Some(
                files@[i].content@,
            ),
{
    let mut r: Vec<ArchiveEntry> = Vec::new();
    r.push(ArchiveEntry { name: mapping_name_exec(), data: mapping_document });
    let mut i: usize = 0;
    while i < files.len()
        invariant
            0 <= i <= files@.len(),
            r@.len() == i + 1,
            r@[0].name@ == mapping_name(),
            r@[0].data@ == mapping_document@,
            compression is Deflate ==> 1 <= level <= 9,
            forall|j: int|
                0 <= j < i ==> (#[trigger] r@[j + 1]).name@ == entry_name_of(files@[j].path@)
                    && r@[j + 1].data@ == encoded(files@[j].content@, compression, level as int),
            compression is Deflate ==> forall|j: int|
                0 <= j < i ==> inflate_of((#[trigger] r@[j + 1]).data@) == Some(
                    files@[j].content@,
                ),
        decreases files@.len() - i,
    {
        let name = strip_root(&files[i].path);
        let data = match compression {
            ZipCompression::Deflate => deflate_bytes(&files[i].content, level),
            _ => files[i].content.clone(),
        };
        r.push(ArchiveEntry { name, data });
        i = i + 1;
    }
    r
}

/// Decodes the file entries of an archive back to their bytes; the metadata
/// entry is handed back as it stands. Extraction succeeds exactly when every
/// entry decodes: only a corrupt deflate stream fails it.
pub fn extract_archive(entries: &Vec<ArchiveEntry>, compression: ZipCompression) -> (r: Option<
    Vec<(String, Vec<u8>)>,
>)
    requires
        entries@.len() >= 1,
    ensures
        r matches Some(v) ==> {
            &&& v@.len() == entries@.len() - 1
            &&& forall|i: int|
                0 <= i < v@.len() ==> (#[trigger] v@[i]).0@ == entries@[i + 1].name@ && (match
                compression {
                    ZipCompression::Deflate => inflate_of(entries@[i + 1].data@) == Some(
                        v@[i].1@,
                    ),
                    _ => v@[i].1@ == entries@[i + 1].data@,
                })
        },
        !(compression is Deflate) ==> r is Some,
        (compression is Deflate && forall|i: int|
            1 <= i < entries@.len() ==> inflate_of((#[trigger] entries@[i]).data@) is Some)
            ==> r is Some,
        r is None ==> compression is Deflate && (exists|i: int|
            1 <= i < entries@.len() && inflate_of((#[trigger] entries@[i]).data@) is None),
{
    let mut v: Vec<(String, Vec<u8>)> = Vec::new();
    let mut i: usize = 1;
    while i < entries.len()
        invariant
            1 <= i <= entries@.len(),
            v@.len() == i - 1,
            forall|j: int|
                0 <= j < i - 1 ==> (#[trigger] v@[j]).0@ == entries@[j + 1].name@ && (match
                compression {
                    ZipCompression::Deflate => inflate_of(entries@[j + 1].data@) == Some(
                        v@[j].1@,
                    ),
                    _ => v@[j].1@ == entries@[j + 1].data@,
                }),
        decreases entries@.len() - i,
    {
        let data = match compression {
            ZipCompression::Deflate => {
                match inflate_bytes(&entries[i].data) {
                    Some(d) => d,
                    None => {
                        proof {
                            assert(inflate_of(entries@[i as int].data@) is None);
                        }
                        return None;
                    },
                }
            },
            _ => entries[i].data.clone(),
        };
        v.push((entries[i].name.clone(), data));
        i = i + 1;
    }
    Some(v)
}

/// The conventional name of the per-backup metadata entry.
pub open spec fn mapping_name() -> Seq<char> {
    seq!['m', 'a', 'p', 'p', 'i', 'n', 'g', '.', 'y', 'a', 'm', 'l']
}

fn mapping_name_exec() -> (r: String)
    ensures
        r@ == mapping_name(),
{
    let v = crate::text::chars_of("mapping.yaml");
    proof {
        reveal_strlit("mapping.yaml");
        assert(v@ =~= mapping_name());
    }
    crate::text::string_of(&v)
}

/// Extracting an archive built from stored files yields the stored bytes
/// back: the round trip through the chosen compressor loses nothing.
pub proof fn lemma_archive_round_trip(
    files: Seq<BackupFile>,
    built: Seq<ArchiveEntry>,
    extracted: Seq<(String, Vec<u8>)>,
    compression: ZipCompression,
    level: int,
)
    requires
        built.len() == files.len() + 1,
        forall|i: int|
            0 <= i < files.len() ==> (#[trigger] built[i + 1]).name@ == entry_name_of(
                files[i].path@,
            ) && built[i + 1].data@ == encoded(files[i].content@, compression, level),
        compression is Deflate ==> forall|i: int|
            0 <= i < files.len() ==> inflate_of((#[trigger] built[i + 1]).data@) == Some(
                files[i].content@,
            ),
        extracted.len() == built.len() - 1,
        forall|i: int|
            0 <= i < extracted.len() ==> (#[trigger] extracted[i]).0@ == built[i + 1].name@ && (
            match compression {
                ZipCompression::Deflate => inflate_of(built[i + 1].data@) == Some(
                    extracted[i].1@,
                ),
                _ => extracted[i].1@ == built[i + 1].data@,
            }),
    ensures
        extracted.len() == files.len(),
        forall|i: int|
            0 <= i < files.len() ==> (#[trigger] extracted[i]).1@ == files[i].content@ && (
            #[trigger] extracted[i]).0@ == entry_name_of(files[i].path@),
{
    assert forall|i: int|
        0 <= i < files.len() implies (#[trigger] extracted[i]).1@ == files[i].content@ && (
    #[trigger] extracted[i]).0@ == entry_name_of(files[i].path@) by {
        assert(built[i + 1].name@ == entry_name_of(files[i].path@));
        match compression {
            ZipCompression::Deflate => {
                assert(inflate_of(built[i + 1].data@) == Some(files[i].content@));
                assert(inflate_of(built[i + 1].data@) == Some(extracted[i].1@));
            },
            _ => {
                assert(built[i + 1].data@ == files[i].content@);
            },
        }
    }
}

} // verus!
