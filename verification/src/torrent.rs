//! The torrent-metadata extractor: walks a decoded top-level dictionary,
//! validates the fields that describe a torrent, resolves the single-file /
//! multi-file and `announce` / `announce-list` ambiguities, checks the
//! piece-checksum count against the total content size, and computes the
//! SHA-1 info-hash over the canonical encoding of the `info` sub-tree.
//!
//! The whole extraction is modelled by [`spec_extract`]; the executable
//! [`benc_to_torrent`] is proved to return exactly its result, error for
//! error.  Unknown fields inside a file entry are rejected; unknown fields
//! in the top-level or `info` dictionaries are ignored.

use vstd::prelude::*;
use vstd::string::StringSliceAdditionalSpecFns;
use vstd::utf8::{decode_utf8, valid_utf8};

use crate::hashing::{sha1_digest, sha1_of};
use crate::encode::enc_benc;
use crate::grammar::spec_encode;
use crate::text::bytes_to_string;
use crate::value::{
    bview, dict_get, lemma_dict_get_skip, lemma_pairs_bview_len, lemma_seq_bview_len, pairs_bview,
    seq_bview, BVal, Benc,
};

verus! {

broadcast use vstd::seq::group_seq_axioms, vstd::std_specs::vec::group_vec_axioms, vstd::slice::group_slice_axioms;

/// One content file: its path inside the torrent, and its length in bytes.
#[derive(Debug)]
pub struct TorrentFile {
    pub path: Vec<String>,
    pub length: i64,
}

/// Validated torrent metadata, derived from a decoded value tree.
#[derive(Debug)]
pub struct TorrentMetadata {
    pub announce_list: Vec<Vec<String>>,
    pub base_path: String,
    pub chunk_size: i64,
    pub chunk_checksum: Vec<[u8; 20]>,
    pub files: Vec<TorrentFile>,
    pub info_hash: [u8; 20],
    pub creation_date: Option<i64>,
}

/// The mathematical shape of one content file.
#[verifier::ext_equal]
pub struct FileView {
    pub path: Seq<Seq<char>>,
    pub length: int,
}

/// The mathematical shape of torrent metadata.
#[verifier::ext_equal]
pub struct MetaView {
    pub announce_list: Seq<Seq<Seq<char>>>,
    pub base_path: Seq<char>,
    pub chunk_size: int,
    pub chunk_checksum: Seq<Seq<u8>>,
    pub files: Seq<FileView>,
    pub info_hash: Seq<u8>,
    pub creation_date: Option<int>,
}

impl View for TorrentFile {
    type V = FileView;

    open spec fn view(&self) -> FileView {
        FileView { path: self.path.deep_view(), length: self.length as int }
    }
}

/// Element-wise abstraction of a file vector.
pub open spec fn files_view(fs: Seq<TorrentFile>) -> Seq<FileView> {
    Seq::new(fs.len(), |i: int| fs[i].view())
}

impl View for TorrentMetadata {
    type V = MetaView;

    open spec fn view(&self) -> MetaView {
        MetaView {
            announce_list: self.announce_list.deep_view(),
            base_path: self.base_path@,
            chunk_size: self.chunk_size as int,
            chunk_checksum: self.chunk_checksum.deep_view(),
            files: files_view(self.files@),
            info_hash: self.info_hash@,
            creation_date: match self.creation_date {
                Option::Some(cd) => Option::Some(cd as int),
                Option::None => Option::None,
            },
        }
    }
}

/// Why a decoded value tree is not valid torrent metadata.  The first two
/// groups are schema errors (a missing field or a wrong shape); the rest
/// are consistency errors between individually well-typed fields.
#[derive(Debug, PartialEq, Eq)]
pub enum TorrentError {
    NotADictionary,
    MissingInfo,
    InfoNotDictionary,
    MissingName,
    NameNotString,
    NameNotUtf8,
    MissingChunkSize,
    ChunkSizeNotInt,
    MissingChecksums,
    ChecksumsNotString,
    MissingAnnounce,
    AnnounceNotString,
    AnnounceNotUtf8,
    FilesNotList,
    FileNotDictionary,
    UnknownFileField,
    FilePathMissing,
    FilePathNotList,
    PathSegmentNotString,
    PathSegmentNotUtf8,
    FilePathEmpty,
    FileLengthMissing,
    FileLengthNotInt,
    FileLengthNotPositive,
    LengthNotInt,
    LengthNotPositive,
    BothLengthAndFiles,
    NeitherLengthNorFiles,
    AnnounceListNotList,
    AnnounceTierNotList,
    AnnounceUrlNotString,
    AnnounceUrlNotUtf8,
    EmptyAnnounceTier,
    EmptyAnnounceList,
    CreationDateNotInt,
    ChunkSizeNotPositive,
    ChecksumsNotWholePieces,
    TooFewChecksums,
    TooManyChecksums,
}

/// The `info` sub-dictionary of the top-level dictionary.
pub open spec fn spec_info(d: Seq<(Seq<u8>, BVal)>) -> Result<
    Seq<(Seq<u8>, BVal)>,
    TorrentError,
> {
    match dict_get(d, "info".spec_bytes()) {
        Option::None => Result::Err(TorrentError::MissingInfo),
        Option::Some(v) => if v is D {
            Result::Ok(v->D_0)
        } else {
            Result::Err(TorrentError::InfoNotDictionary)
        },
    }
}

/// The torrent's name: a required text field of `info`.
pub open spec fn spec_name(info: Seq<(Seq<u8>, BVal)>) -> Result<Seq<char>, TorrentError> {
    match dict_get(info, "name".spec_bytes()) {
        Option::None => Result::Err(TorrentError::MissingName),
        Option::Some(v) => if !(v is S) {
            Result::Err(TorrentError::NameNotString)
        } else if !valid_utf8(v->S_0) {
            Result::Err(TorrentError::NameNotUtf8)
        } else {
            Result::Ok(decode_utf8(v->S_0))
        },
    }
}

/// The piece length: a required positive integer field of `info`.
pub open spec fn spec_chunk_size(info: Seq<(Seq<u8>, BVal)>) -> Result<int, TorrentError> {
    match dict_get(info, "piece length".spec_bytes()) {
        Option::None => Result::Err(TorrentError::MissingChunkSize),
        Option::Some(v) => if !(v is I) {
            Result::Err(TorrentError::ChunkSizeNotInt)
        } else if v->I_0 <= 0 {
            Result::Err(TorrentError::ChunkSizeNotPositive)
        } else {
            Result::Ok(v->I_0)
        },
    }
}

/// The consecutive 20-byte slices of a piece-checksum string.
pub open spec fn chunks20(b: Seq<u8>) -> Seq<Seq<u8>> {
    Seq::new((b.len() / 20) as nat, |i: int| b.subrange(20 * i, 20 * i + 20))
}

/// The piece checksums: a required byte-string field of `info` whose length
/// is a whole number of 20-byte digests.
pub open spec fn spec_checksums(info: Seq<(Seq<u8>, BVal)>) -> Result<Seq<Seq<u8>>, TorrentError> {
    match dict_get(info, "pieces".spec_bytes()) {
        Option::None => Result::Err(TorrentError::MissingChecksums),
        Option::Some(v) => if !(v is S) {
            Result::Err(TorrentError::ChecksumsNotString)
        } else if v->S_0.len() % 20 != 0 {
            Result::Err(TorrentError::ChecksumsNotWholePieces)
        } else {
            Result::Ok(chunks20(v->S_0))
        },
    }
}

/// The tracker URL: a required text field of the top-level dictionary.
pub open spec fn spec_announce(d: Seq<(Seq<u8>, BVal)>) -> Result<Seq<char>, TorrentError> {
    match dict_get(d, "announce".spec_bytes()) {
        Option::None => Result::Err(TorrentError::MissingAnnounce),
        Option::Some(v) => if !(v is S) {
            Result::Err(TorrentError::AnnounceNotString)
        } else if !valid_utf8(v->S_0) {
            Result::Err(TorrentError::AnnounceNotUtf8)
        } else {
            Result::Ok(decode_utf8(v->S_0))
        },
    }
}

/// The single-file length: an optional positive integer field of `info`.
pub open spec fn spec_single_file_length(info: Seq<(Seq<u8>, BVal)>) -> Result<
    Option<int>,
    TorrentError,
> {
    match dict_get(info, "length".spec_bytes()) {
        Option::None => Result::Ok(Option::None),
        Option::Some(v) => if !(v is I) {
            Result::Err(TorrentError::LengthNotInt)
        } else if v->I_0 <= 0 {
            Result::Err(TorrentError::LengthNotPositive)
        } else {
            Result::Ok(Option::Some(v->I_0))
        },
    }
}

/// The creation date: an optional integer field of the top level.
pub open spec fn spec_creation_date(d: Seq<(Seq<u8>, BVal)>) -> Result<
    Option<int>,
    TorrentError,
> {
    match dict_get(d, "creation date".spec_bytes()) {
        Option::None => Result::Ok(Option::None),
        Option::Some(v) => if v is I {
            Result::Ok(Option::Some(v->I_0))
        } else {
            Result::Err(TorrentError::CreationDateNotInt)
        },
    }
}

/// A file path: every element a text byte-string, decoded in order.
pub open spec fn spec_path(l: Seq<BVal>) -> Result<Seq<Seq<char>>, TorrentError>
    decreases l.len(),
{
    if l.len() == 0 {
        Result::Ok(Seq::empty())
    } else if !(l[0] is S) {
        Result::Err(TorrentError::PathSegmentNotString)
    } else if !valid_utf8(l[0]->S_0) {
        Result::Err(TorrentError::PathSegmentNotUtf8)
    } else {
        match spec_path(l.drop_first()) {
            Result::Ok(rest) => Result::Ok(seq![decode_utf8(l[0]->S_0)] + rest),
            Result::Err(e) => Result::Err(e),
        }
    }
}

/// A file entry may hold only `path`, `length`, and an ignored `md5sum`.
pub open spec fn file_fields_known(fd: Seq<(Seq<u8>, BVal)>) -> bool {
    forall|i: int|
        0 <= i < fd.len() ==> (#[trigger] fd[i].0 == "path".spec_bytes() || fd[i].0
            == "length".spec_bytes() || fd[i].0 == "md5sum".spec_bytes())
}

/// One entry of the `files` list: a dictionary holding a non-empty `path`
/// list and a positive `length`, with unknown fields rejected.
pub open spec fn spec_file_entry(v: BVal) -> Result<FileView, TorrentError> {
    if !(v is D) {
        Result::Err(TorrentError::FileNotDictionary)
    } else {
        let fd = v->D_0;
        if !file_fields_known(fd) {
            Result::Err(TorrentError::UnknownFileField)
        } else {
            match dict_get(fd, "path".spec_bytes()) {
                Option::None => Result::Err(TorrentError::FilePathMissing),
                Option::Some(pv) => if !(pv is L) {
                    Result::Err(TorrentError::FilePathNotList)
                } else {
                    match spec_path(pv->L_0) {
                        Result::Err(e) => Result::Err(e),
                        Result::Ok(path) => if path.len() == 0 {
                            Result::Err(TorrentError::FilePathEmpty)
                        } else {
                            match dict_get(fd, "length".spec_bytes()) {
                                Option::None => Result::Err(TorrentError::FileLengthMissing),
                                Option::Some(lv) => if !(lv is I) {
                                    Result::Err(TorrentError::FileLengthNotInt)
                                } else if lv->I_0 <= 0 {
                                    Result::Err(TorrentError::FileLengthNotPositive)
                                } else {
                                    Result::Ok(FileView { path, length: lv->I_0 })
                                },
                            }
                        },
                    }
                },
            }
        }
    }
}

/// The entries of the `files` list, in order.
pub open spec fn spec_file_list(l: Seq<BVal>) -> Result<Seq<FileView>, TorrentError>
    decreases l.len(),
{
    if l.len() == 0 {
        Result::Ok(Seq::empty())
    } else {
        match spec_file_entry(l[0]) {
            Result::Err(e) => Result::Err(e),
            Result::Ok(f) => match spec_file_list(l.drop_first()) {
                Result::Ok(rest) => Result::Ok(seq![f] + rest),
                Result::Err(e) => Result::Err(e),
            },
        }
    }
}

/// The multi-file layout: an optional `files` list inside `info`.
pub open spec fn spec_files(info: Seq<(Seq<u8>, BVal)>) -> Result<
    Option<Seq<FileView>>,
    TorrentError,
> {
    match dict_get(info, "files".spec_bytes()) {
        Option::None => Result::Ok(Option::None),
        Option::Some(v) => if !(v is L) {
            Result::Err(TorrentError::FilesNotList)
        } else {
            match spec_file_list(v->L_0) {
                Result::Ok(fs) => Result::Ok(Option::Some(fs)),
                Result::Err(e) => Result::Err(e),
            }
        },
    }
}

/// One announce tier: a non-empty list of text byte-strings.
pub open spec fn spec_tier(l: Seq<BVal>) -> Result<Seq<Seq<char>>, TorrentError>
    decreases l.len(),
{
    if l.len() == 0 {
        Result::Ok(Seq::empty())
    } else if !(l[0] is S) {
        Result::Err(TorrentError::AnnounceUrlNotString)
    } else if !valid_utf8(l[0]->S_0) {
        Result::Err(TorrentError::AnnounceUrlNotUtf8)
    } else {
        match spec_tier(l.drop_first()) {
            Result::Ok(rest) => Result::Ok(seq![decode_utf8(l[0]->S_0)] + rest),
            Result::Err(e) => Result::Err(e),
        }
    }
}

/// The announce tiers, in order; an empty tier is rejected.
pub open spec fn spec_tiers(l: Seq<BVal>) -> Result<Seq<Seq<Seq<char>>>, TorrentError>
    decreases l.len(),
{
    if l.len() == 0 {
        Result::Ok(Seq::empty())
    } else if !(l[0] is L) {
        Result::Err(TorrentError::AnnounceTierNotList)
    } else {
        match spec_tier(l[0]->L_0) {
            Result::Err(e) => Result::Err(e),
            Result::Ok(tier) => if tier.len() == 0 {
                Result::Err(TorrentError::EmptyAnnounceTier)
            } else {
                match spec_tiers(l.drop_first()) {
                    Result::Ok(rest) => Result::Ok(seq![tier] + rest),
                    Result::Err(e) => Result::Err(e),
                }
            },
        }
    }
}

/// The optional `announce-list`: a non-empty list of non-empty tiers.
pub open spec fn spec_announce_list(d: Seq<(Seq<u8>, BVal)>) -> Result<
    Option<Seq<Seq<Seq<char>>>>,
    TorrentError,
> {
    match dict_get(d, "announce-list".spec_bytes()) {
        Option::None => Result::Ok(Option::None),
        Option::Some(v) => if !(v is L) {
            Result::Err(TorrentError::AnnounceListNotList)
        } else {
            match spec_tiers(v->L_0) {
                Result::Err(e) => Result::Err(e),
                Result::Ok(tiers) => if tiers.len() == 0 {
                    Result::Err(TorrentError::EmptyAnnounceList)
                } else {
                    Result::Ok(Option::Some(tiers))
                },
            }
        },
    }
}

/// The total content size: the sum of the file lengths.
pub open spec fn total_length(files: Seq<FileView>) -> int
    decreases files.len(),
{
    if files.len() == 0 {
        0
    } else {
        total_length(files.drop_last()) + files.last().length
    }
}

/// The whole extraction, start to finish: which metadata a decoded value
/// yields, or the first error in the order the fields are validated.
pub open spec fn spec_extract(v: BVal) -> Result<MetaView, TorrentError> {
    if !(v is D) {
        Result::Err(TorrentError::NotADictionary)
    } else {
        let d = v->D_0;
        match spec_info(d) {
            Result::Err(e) => Result::Err(e),
            Result::Ok(info) => match spec_name(info) {
                Result::Err(e) => Result::Err(e),
                Result::Ok(name) => match spec_chunk_size(info) {
                    Result::Err(e) => Result::Err(e),
                    Result::Ok(chunk_size) => match spec_checksums(info) {
                        Result::Err(e) => Result::Err(e),
                        Result::Ok(checksums) => match spec_announce(d) {
                            Result::Err(e) => Result::Err(e),
                            Result::Ok(announce) => match spec_files(info) {
                                Result::Err(e) => Result::Err(e),
                                Result::Ok(files_opt) => match spec_single_file_length(info) {
                                    Result::Err(e) => Result::Err(e),
                                    Result::Ok(length_opt) => match spec_announce_list(d) {
                                        Result::Err(e) => Result::Err(e),
                                        Result::Ok(al_opt) => match spec_creation_date(d) {
                                            Result::Err(e) => Result::Err(e),
                                            Result::Ok(cd) => spec_resolve(
                                                info,
                                                name,
                                                chunk_size,
                                                checksums,
                                                announce,
                                                files_opt,
                                                length_opt,
                                                al_opt,
                                                cd,
                                            ),
                                        },
                                    },
                                },
                            },
                        },
                    },
                },
            },
        }
    }
}

/// The last stage of extraction: resolve the single-file / multi-file and
/// `announce` / `announce-list` ambiguities, check the checksum count, and
/// assemble the metadata, its info-hash the SHA-1 of the canonical encoding
/// of the `info` sub-tree.
pub open spec fn spec_resolve(
    info: Seq<(Seq<u8>, BVal)>,
    name: Seq<char>,
    chunk_size: int,
    checksums: Seq<Seq<u8>>,
    announce: Seq<char>,
    files_opt: Option<Seq<FileView>>,
    length_opt: Option<int>,
    al_opt: Option<Seq<Seq<Seq<char>>>>,
    cd: Option<int>,
) -> Result<MetaView, TorrentError> {
    if files_opt is Some && length_opt is Some {
        Result::Err(TorrentError::BothLengthAndFiles)
    } else if files_opt is None && length_opt is None {
        Result::Err(TorrentError::NeitherLengthNorFiles)
    } else {
        let files = if files_opt is Some {
            files_opt->Some_0
        } else {
            seq![FileView { path: seq![name], length: length_opt->Some_0 }]
        };
        let base_path = if files_opt is Some {
            name
        } else {
            "."@
        };
        let total = total_length(files);
        if checksums.len() * chunk_size < total {
            Result::Err(TorrentError::TooFewChecksums)
        } else if (checksums.len() - 1) * chunk_size > total {
            Result::Err(TorrentError::TooManyChecksums)
        } else {
            Result::Ok(
                MetaView {
                    announce_list: match al_opt {
                        Option::Some(al) => al,
                        Option::None => seq![seq![announce]],
                    },
                    base_path,
                    chunk_size,
                    chunk_checksum: checksums,
                    files,
                    info_hash: sha1_of(spec_encode(BVal::D(info))),
                    creation_date: cd,
                },
            )
        }
    }
}

/// Byte-for-byte equality of two slices.
#[verifier::loop_isolation(false)]
fn bytes_eq(a: &[u8], b: &[u8]) -> (r: bool)
    ensures
        r <==> a@ == b@,
{
    if a.len() != b.len() {
        return false;
    }
    let mut i: usize = 0;
    while i < a.len()
        invariant
            i <= a.len(),
            a@.len() == b@.len(),
            forall|j: int| 0 <= j < i ==> a@[j] == b@[j],
        decreases a.len() - i,
    {
        if a[i] != b[i] {
            return false;
        }
        i = i + 1;
    }
    proof {
        assert(a@ =~= b@);
    }
    true
}

/// Look a key up in a decoded dictionary by linear scan over its sorted
/// pairs.
#[verifier::loop_isolation(false)]
fn benc_dict_get<'a>(d: &'a Vec<(Vec<u8>, Benc)>, key: &[u8]) -> (r: Option<&'a Benc>)
    ensures
        match r {
            Option::Some(v) => dict_get(pairs_bview(d@), key@) == Option::Some(bview(*v)),
            Option::None => dict_get(pairs_bview(d@), key@) is None,
        },
{
    broadcast use lemma_pairs_bview_len;

    let ghost dv = pairs_bview(d@);
    let mut i: usize = 0;
    while i < d.len()
        invariant
            i <= d.len(),
            forall|j: int| 0 <= j < i ==> (#[trigger] dv[j].0) != key@,
        decreases d.len() - i,
    {
        if bytes_eq(d[i].0.as_slice(), key) {
            proof {
                lemma_dict_get_skip(dv, key@, i as int);
                assert(dv.skip(i as int)[0] == dv[i as int]);
                assert(dv[i as int] == (d@[i as int].0@, bview(d@[i as int].1)));
            }
            return Option::Some(&d[i].1);
        }
        proof {
            assert(dv[i as int].0 == d@[i as int].0@);
        }
        i = i + 1;
    }
    proof {
        lemma_dict_get_skip(dv, key@, i as int);
        assert(dv.skip(i as int) =~= Seq::<(Seq<u8>, BVal)>::empty());
    }
    Option::None
}

/// Pull the `info` sub-dictionary out of the top-level dictionary.
pub fn extract_info<'a>(d: &'a Vec<(Vec<u8>, Benc)>) -> (r: Result<
    &'a Vec<(Vec<u8>, Benc)>,
    TorrentError,
>)
    ensures
        match r {
            Result::Ok(info) => spec_info(pairs_bview(d@)) == Result::<
                Seq<(Seq<u8>, BVal)>,
                TorrentError,
            >::Ok(pairs_bview(info@)),
            Result::Err(e) => spec_info(pairs_bview(d@)) == Result::<
                Seq<(Seq<u8>, BVal)>,
                TorrentError,
            >::Err(e),
        },
{
    match benc_dict_get(d, "info".as_bytes()) {
        Option::None => Result::Err(TorrentError::MissingInfo),
        Option::Some(v) => match v {
            Benc::D(info) => Result::Ok(info),
            _ => Result::Err(TorrentError::InfoNotDictionary),
        },
    }
}

/// Extract a required text field, decoded as UTF-8.
fn extract_text_field(
    d: &Vec<(Vec<u8>, Benc)>,
    key: &[u8],
    missing: TorrentError,
    not_string: TorrentError,
    not_utf8: TorrentError,
) -> (r: Result<String, TorrentError>)
    ensures
        match r {
            Result::Ok(s) => {
                &&& dict_get(pairs_bview(d@), key@) matches Option::Some(v)
                &&& dict_get(pairs_bview(d@), key@)->Some_0 is S
                &&& valid_utf8(dict_get(pairs_bview(d@), key@)->Some_0->S_0)
                &&& s@ == decode_utf8(dict_get(pairs_bview(d@), key@)->Some_0->S_0)
            },
            Result::Err(e) => {
                ||| (dict_get(pairs_bview(d@), key@) is None && e == missing)
                ||| (dict_get(pairs_bview(d@), key@) matches Option::Some(v) && !(v is S) && e
                    == not_string)
                ||| (dict_get(pairs_bview(d@), key@) matches Option::Some(v) && v is S
                    && !valid_utf8(v->S_0) && e == not_utf8)
            },
        },
{
    match benc_dict_get(d, key) {
        Option::None => Result::Err(missing),
        Option::Some(v) => match v {
            Benc::S(bs) => match bytes_to_string(bs) {
                Option::Some(s) => Result::Ok(s),
                Option::None => Result::Err(not_utf8),
            },
            _ => Result::Err(not_string),
        },
    }
}

/// The torrent's name from `info`.
pub fn extract_name(info: &Vec<(Vec<u8>, Benc)>) -> (r: Result<String, TorrentError>)
    ensures
        match r {
            Result::Ok(s) => spec_name(pairs_bview(info@)) == Result::<
                Seq<char>,
                TorrentError,
            >::Ok(s@),
            Result::Err(e) => spec_name(pairs_bview(info@)) == Result::<
                Seq<char>,
                TorrentError,
            >::Err(e),
        },
{
    extract_text_field(
        info,
        "name".as_bytes(),
        TorrentError::MissingName,
        TorrentError::NameNotString,
        TorrentError::NameNotUtf8,
    )
}

/// The tracker URL from the top-level dictionary.
pub fn extract_announce(d: &Vec<(Vec<u8>, Benc)>) -> (r: Result<String, TorrentError>)
    ensures
        match r {
            Result::Ok(s) => spec_announce(pairs_bview(d@)) == Result::<
                Seq<char>,
                TorrentError,
            >::Ok(s@),
            Result::Err(e) => spec_announce(pairs_bview(d@)) == Result::<
                Seq<char>,
                TorrentError,
            >::Err(e),
        },
{
    extract_text_field(
        d,
        "announce".as_bytes(),
        TorrentError::MissingAnnounce,
        TorrentError::AnnounceNotString,
        TorrentError::AnnounceNotUtf8,
    )
}

/// The piece length from `info`: required, and must be positive.
pub fn extract_chunk_size(info: &Vec<(Vec<u8>, Benc)>) -> (r: Result<i64, TorrentError>)
    ensures
        match r {
            Result::Ok(cs) => spec_chunk_size(pairs_bview(info@)) == Result::<
                int,
                TorrentError,
            >::Ok(cs as int),
            Result::Err(e) => spec_chunk_size(pairs_bview(info@)) == Result::<
                int,
                TorrentError,
            >::Err(e),
        },
{
    match benc_dict_get(info, "piece length".as_bytes()) {
        Option::None => Result::Err(TorrentError::MissingChunkSize),
        Option::Some(v) => match v {
            Benc::I(cs) => {
                if *cs <= 0 {
                    Result::Err(TorrentError::ChunkSizeNotPositive)
                } else {
                    Result::Ok(*cs)
                }
            },
            _ => Result::Err(TorrentError::ChunkSizeNotInt),
        },
    }
}

/// The optional single-file length from `info`; present means positive.
pub fn extract_single_file_length(info: &Vec<(Vec<u8>, Benc)>) -> (r: Result<
    Option<i64>,
    TorrentError,
>)
    ensures
        match r {
            Result::Ok(l) => spec_single_file_length(pairs_bview(info@)) == Result::<
                Option<int>,
                TorrentError,
            >::Ok(
                match l {
                    Option::Some(v) => Option::Some(v as int),
                    Option::None => Option::None,
                },
            ),
            Result::Err(e) => spec_single_file_length(pairs_bview(info@)) == Result::<
                Option<int>,
                TorrentError,
            >::Err(e),
        },
{
    match benc_dict_get(info, "length".as_bytes()) {
        Option::None => Result::Ok(Option::None),
        Option::Some(v) => match v {
            Benc::I(l) => {
                if *l <= 0 {
                    Result::Err(TorrentError::LengthNotPositive)
                } else {
                    Result::Ok(Option::Some(*l))
                }
            },
            _ => Result::Err(TorrentError::LengthNotInt),
        },
    }
}

/// The optional creation date from the top level.
pub fn extract_creation_date(d: &Vec<(Vec<u8>, Benc)>) -> (r: Result<Option<i64>, TorrentError>)
    ensures
        match r {
            Result::Ok(cd) => spec_creation_date(pairs_bview(d@)) == Result::<
                Option<int>,
                TorrentError,
            >::Ok(
                match cd {
                    Option::Some(v) => Option::Some(v as int),
                    Option::None => Option::None,
                },
            ),
            Result::Err(e) => spec_creation_date(pairs_bview(d@)) == Result::<
                Option<int>,
                TorrentError,
            >::Err(e),
        },
{
    match benc_dict_get(d, "creation date".as_bytes()) {
        Option::None => Result::Ok(Option::None),
        Option::Some(v) => match v {
            Benc::I(cd) => Result::Ok(Option::Some(*cd)),
            _ => Result::Err(TorrentError::CreationDateNotInt),
        },
    }
}

/// Decode the segments of one file path.
#[verifier::loop_isolation(false)]
pub fn extract_path(path_benc: &Vec<Benc>) -> (r: Result<Vec<String>, TorrentError>)
    ensures
        match r {
            Result::Ok(p) => spec_path(seq_bview(path_benc@)) == Result::<
                Seq<Seq<char>>,
                TorrentError,
            >::Ok(p.deep_view()),
            Result::Err(e) => spec_path(seq_bview(path_benc@)) == Result::<
                Seq<Seq<char>>,
                TorrentError,
            >::Err(e),
        },
{
    broadcast use lemma_seq_bview_len;

    let ghost lv = seq_bview(path_benc@);
    let mut out: Vec<String> = Vec::new();
    let mut i: usize = 0;
    proof {
        assert(lv.skip(0) =~= lv);
        match spec_path(lv) {
            Result::Ok(rest) => {
                assert(out.deep_view() + rest =~= rest);
            },
            Result::Err(_) => {},
        }
    }
    while i < path_benc.len()
        invariant
            i <= path_benc.len(),
            (match spec_path(lv.skip(i as int)) {
                Result::Ok(rest) => spec_path(lv) == Result::<Seq<Seq<char>>, TorrentError>::Ok(
                    out.deep_view() + rest,
                ),
                Result::Err(e) => spec_path(lv) == Result::<Seq<Seq<char>>, TorrentError>::Err(e),
            }),
        decreases path_benc.len() - i,
    {
        let ghost cur = lv.skip(i as int);
        proof {
            assert(cur[0] == lv[i as int]);
            assert(lv[i as int] == bview(path_benc@[i as int]));
            assert(cur.drop_first() =~= lv.skip(i as int + 1));
        }
        match &path_benc[i] {
            Benc::S(bs) => {
                match bytes_to_string(bs) {
                    Option::Some(s) => {
                        let ghost sv = s@;
                        let ghost ov = out.deep_view();
                        out.push(s);
                        proof {
                            assert(out.deep_view() =~= ov + seq![sv]);
                            match spec_path(lv.skip(i as int + 1)) {
                                Result::Ok(rest) => {
                                    assert(ov + (seq![sv] + rest) =~= (ov + seq![sv]) + rest);
                                },
                                Result::Err(_) => {},
                            }
                        }
                        i = i + 1;
                    },
                    Option::None => {
                        return Result::Err(TorrentError::PathSegmentNotUtf8);
                    },
                }
            },
            _ => {
                proof {
                    assert(!(bview(path_benc@[i as int]) is S));
                }
                return Result::Err(TorrentError::PathSegmentNotString);
            },
        }
    }
    proof {
        assert(lv.skip(path_benc@.len() as int) =~= Seq::<BVal>::empty());
        assert(out.deep_view() + Seq::<Seq<char>>::empty() =~= out.deep_view());
    }
    Result::Ok(out)
}

/// Decode the URLs of one announce tier.
#[verifier::loop_isolation(false)]
fn extract_tier(tier_benc: &Vec<Benc>) -> (r: Result<Vec<String>, TorrentError>)
    ensures
        match r {
            Result::Ok(t) => spec_tier(seq_bview(tier_benc@)) == Result::<
                Seq<Seq<char>>,
                TorrentError,
            >::Ok(t.deep_view()) && t@.len() == tier_benc@.len(),
            Result::Err(e) => spec_tier(seq_bview(tier_benc@)) == Result::<
                Seq<Seq<char>>,
                TorrentError,
            >::Err(e),
        },
{
    broadcast use lemma_seq_bview_len;

    let ghost lv = seq_bview(tier_benc@);
    let mut out: Vec<String> = Vec::new();
    let mut i: usize = 0;
    proof {
        assert(lv.skip(0) =~= lv);
        match spec_tier(lv) {
            Result::Ok(rest) => {
                assert(out.deep_view() + rest =~= rest);
            },
            Result::Err(_) => {},
        }
    }
    while i < tier_benc.len()
        invariant
            i <= tier_benc.len(),
            out@.len() == i,
            (match spec_tier(lv.skip(i as int)) {
                Result::Ok(rest) => spec_tier(lv) == Result::<Seq<Seq<char>>, TorrentError>::Ok(
                    out.deep_view() + rest,
                ),
                Result::Err(e) => spec_tier(lv) == Result::<Seq<Seq<char>>, TorrentError>::Err(e),
            }),
        decreases tier_benc.len() - i,
    {
        let ghost cur = lv.skip(i as int);
        proof {
            assert(cur[0] == lv[i as int]);
            assert(lv[i as int] == bview(tier_benc@[i as int]));
            assert(cur.drop_first() =~= lv.skip(i as int + 1));
        }
        match &tier_benc[i] {
            Benc::S(bs) => {
                match bytes_to_string(bs) {
                    Option::Some(s) => {
                        let ghost sv = s@;
                        let ghost ov = out.deep_view();
                        out.push(s);
                        proof {
                            assert(out.deep_view() =~= ov + seq![sv]);
                            match spec_tier(lv.skip(i as int + 1)) {
                                Result::Ok(rest) => {
                                    assert(ov + (seq![sv] + rest) =~= (ov + seq![sv]) + rest);
                                },
                                Result::Err(_) => {},
                            }
                        }
                        i = i + 1;
                    },
                    Option::None => {
                        return Result::Err(TorrentError::AnnounceUrlNotUtf8);
                    },
                }
            },
            _ => {
                proof {
                    assert(!(bview(tier_benc@[i as int]) is S));
                }
                return Result::Err(TorrentError::AnnounceUrlNotString);
            },
        }
    }
    proof {
        assert(lv.skip(tier_benc@.len() as int) =~= Seq::<BVal>::empty());
        assert(out.deep_view() + Seq::<Seq<char>>::empty() =~= out.deep_view());
    }
    Result::Ok(out)
}

/// The piece checksums from `info`, split into 20-byte digests in piece
/// order.
#[verifier::loop_isolation(false)]
pub fn extract_checksums(info: &Vec<(Vec<u8>, Benc)>) -> (r: Result<Vec<[u8; 20]>, TorrentError>)
    ensures
        match r {
            Result::Ok(cs) => spec_checksums(pairs_bview(info@)) == Result::<
                Seq<Seq<u8>>,
                TorrentError,
            >::Ok(cs.deep_view()),
            Result::Err(e) => spec_checksums(pairs_bview(info@)) == Result::<
                Seq<Seq<u8>>,
                TorrentError,
            >::Err(e),
        },
{
    let bs: &Vec<u8> = match benc_dict_get(info, "pieces".as_bytes()) {
        Option::None => {
            return Result::Err(TorrentError::MissingChecksums);
        },
        Option::Some(v) => match v {
            Benc::S(bs) => bs,
            _ => {
                return Result::Err(TorrentError::ChecksumsNotString);
            },
        },
    };
    if bs.len() % 20 != 0 {
        return Result::Err(TorrentError::ChecksumsNotWholePieces);
    }
    let count = bs.len() / 20;
    proof {
        vstd::arithmetic::div_mod::lemma_fundamental_div_mod(bs@.len() as int, 20);
    }
    let mut out: Vec<[u8; 20]> = Vec::new();
    let mut i: usize = 0;
    while i < count
        invariant
            i <= count,
            bs@.len() == 20 * count,
            out@.len() == i,
            forall|j: int|
                0 <= j < i ==> #[trigger] out.deep_view()[j] =~= bs@.subrange(
                    20 * j,
                    20 * j + 20,
                ),
        decreases count - i,
    {
        proof {
            assert(20 * (i as int) + 20 <= 20 * (count as int)) by (nonlinear_arith)
                requires
                    i < count,
            ;
        }
        let base = i * 20;
        let mut a: [u8; 20] = [0u8; 20];
        let mut j: usize = 0;
        while j < 20
            invariant
                j <= 20,
                base == 20 * i,
                20 * (i as int) + 20 <= bs@.len(),
                forall|t: int| 0 <= t < j ==> a@[t] == bs@[base + t],
            decreases 20 - j,
        {
            a[j] = bs[base + j];
            j = j + 1;
        }
        let ghost ov = out.deep_view();
        out.push(a);
        proof {
            assert(a@ =~= bs@.subrange(20 * (i as int), 20 * (i as int) + 20));
            assert forall|j2: int| 0 <= j2 < i + 1 implies #[trigger] out.deep_view()[j2]
                =~= bs@.subrange(20 * j2, 20 * j2 + 20) by {
                if j2 < i {
                    assert(out.deep_view()[j2] == ov[j2]);
                } else {
                    assert(out.deep_view()[j2] == a@);
                }
            }
        }
        i = i + 1;
    }
    proof {
        assert(out.deep_view() =~= chunks20(bs@));
    }
    Result::Ok(out)
}

/// The optional announce tiers from the top level: when present, a
/// non-empty list of non-empty tiers of URLs.
#[verifier::loop_isolation(false)]
pub fn extract_announce_list(d: &Vec<(Vec<u8>, Benc)>) -> (r: Result<
    Option<Vec<Vec<String>>>,
    TorrentError,
>)
    ensures
        match r {
            Result::Ok(al) => spec_announce_list(pairs_bview(d@)) == Result::<
                Option<Seq<Seq<Seq<char>>>>,
                TorrentError,
            >::Ok(
                match al {
                    Option::Some(a) => Option::Some(a.deep_view()),
                    Option::None => Option::None,
                },
            ),
            Result::Err(e) => spec_announce_list(pairs_bview(d@)) == Result::<
                Option<Seq<Seq<Seq<char>>>>,
                TorrentError,
            >::Err(e),
        },
{
    broadcast use lemma_seq_bview_len;

    let tiers_benc: &Vec<Benc> = match benc_dict_get(d, "announce-list".as_bytes()) {
        Option::None => {
            return Result::Ok(Option::None);
        },
        Option::Some(v) => match v {
            Benc::L(l) => l,
            _ => {
                return Result::Err(TorrentError::AnnounceListNotList);
            },
        },
    };
    let ghost lv = seq_bview(tiers_benc@);
    let mut out: Vec<Vec<String>> = Vec::new();
    let mut i: usize = 0;
    proof {
        assert(lv.skip(0) =~= lv);
        match spec_tiers(lv) {
            Result::Ok(rest) => {
                assert(out.deep_view() + rest =~= rest);
            },
            Result::Err(_) => {},
        }
    }
    while i < tiers_benc.len()
        invariant
            i <= tiers_benc.len(),
            out@.len() == i,
            (match spec_tiers(lv.skip(i as int)) {
                Result::Ok(rest) => spec_tiers(lv) == Result::<
                    Seq<Seq<Seq<char>>>,
                    TorrentError,
                >::Ok(out.deep_view() + rest),
                Result::Err(e) => spec_tiers(lv) == Result::<
                    Seq<Seq<Seq<char>>>,
                    TorrentError,
                >::Err(e),
            }),
        decreases tiers_benc.len() - i,
    {
        let ghost cur = lv.skip(i as int);
        proof {
            assert(cur[0] == lv[i as int]);
            assert(lv[i as int] == bview(tiers_benc@[i as int]));
            assert(cur.drop_first() =~= lv.skip(i as int + 1));
        }
        match &tiers_benc[i] {
            Benc::L(tier_l) => {
                match extract_tier(tier_l) {
                    Result::Ok(tier) => {
                        if tier.len() == 0 {
                            return Result::Err(TorrentError::EmptyAnnounceTier);
                        }
                        let ghost tv = tier.deep_view();
                        let ghost ov = out.deep_view();
                        out.push(tier);
                        proof {
                            assert(out.deep_view() =~= ov + seq![tv]);
                            match spec_tiers(lv.skip(i as int + 1)) {
                                Result::Ok(rest) => {
                                    assert(ov + (seq![tv] + rest) =~= (ov + seq![tv]) + rest);
                                },
                                Result::Err(_) => {},
                            }
                        }
                        i = i + 1;
                    },
                    Result::Err(e) => {
                        return Result::Err(e);
                    },
                }
            },
            _ => {
                proof {
                    assert(!(bview(tiers_benc@[i as int]) is L));
                }
                return Result::Err(TorrentError::AnnounceTierNotList);
            },
        }
    }
    proof {
        assert(lv.skip(tiers_benc@.len() as int) =~= Seq::<BVal>::empty());
        assert(out.deep_view() + Seq::<Seq<Seq<char>>>::empty() =~= out.deep_view());
    }
    if out.len() == 0 {
        return Result::Err(TorrentError::EmptyAnnounceList);
    }
    Result::Ok(Option::Some(out))
}

/// Decode and validate one entry of the `files` list.
#[verifier::loop_isolation(false)]
fn extract_file_entry(v: &Benc) -> (r: Result<TorrentFile, TorrentError>)
    ensures
        match r {
            Result::Ok(f) => spec_file_entry(bview(*v)) == Result::<FileView, TorrentError>::Ok(
                f@,
            ),
            Result::Err(e) => spec_file_entry(bview(*v)) == Result::<FileView, TorrentError>::Err(
                e,
            ),
        },
{
    broadcast use lemma_pairs_bview_len;

    let fd: &Vec<(Vec<u8>, Benc)> = match v {
        Benc::D(fd) => fd,
        _ => {
            proof {
                assert(!(bview(*v) is D));
            }
            return Result::Err(TorrentError::FileNotDictionary);
        },
    };
    let ghost fdv = pairs_bview(fd@);
    let mut i: usize = 0;
    while i < fd.len()
        invariant
            i <= fd.len(),
            forall|j: int|
                0 <= j < i ==> (#[trigger] fdv[j].0 == "path".spec_bytes() || fdv[j].0
                    == "length".spec_bytes() || fdv[j].0 == "md5sum".spec_bytes()),
        decreases fd.len() - i,
    {
        let kb = fd[i].0.as_slice();
        let known = bytes_eq(kb, "path".as_bytes()) || bytes_eq(kb, "length".as_bytes())
            || bytes_eq(kb, "md5sum".as_bytes());
        if !known {
            proof {
                assert(fdv[i as int].0 == fd@[i as int].0@);
                assert(!file_fields_known(fdv));
            }
            return Result::Err(TorrentError::UnknownFileField);
        }
        proof {
            assert(fdv[i as int].0 == fd@[i as int].0@);
        }
        i = i + 1;
    }
    proof {
        assert(file_fields_known(fdv));
    }
    let pl: &Vec<Benc> = match benc_dict_get(fd, "path".as_bytes()) {
        Option::None => {
            return Result::Err(TorrentError::FilePathMissing);
        },
        Option::Some(pv) => match pv {
            Benc::L(pl) => pl,
            _ => {
                return Result::Err(TorrentError::FilePathNotList);
            },
        },
    };
    let path = match extract_path(pl) {
        Result::Ok(p) => p,
        Result::Err(e) => {
            return Result::Err(e);
        },
    };
    if path.len() == 0 {
        return Result::Err(TorrentError::FilePathEmpty);
    }
    match benc_dict_get(fd, "length".as_bytes()) {
        Option::None => Result::Err(TorrentError::FileLengthMissing),
        Option::Some(lv) => match lv {
            Benc::I(l) => {
                if *l <= 0 {
                    Result::Err(TorrentError::FileLengthNotPositive)
                } else {
                    Result::Ok(TorrentFile { path, length: *l })
                }
            },
            _ => Result::Err(TorrentError::FileLengthNotInt),
        },
    }
}

/// The optional multi-file layout from `info`.
#[verifier::loop_isolation(false)]
pub fn extract_files(info: &Vec<(Vec<u8>, Benc)>) -> (r: Result<
    Option<Vec<TorrentFile>>,
    TorrentError,
>)
    ensures
        match r {
            Result::Ok(fs) => spec_files(pairs_bview(info@)) == Result::<
                Option<Seq<FileView>>,
                TorrentError,
            >::Ok(
                match fs {
                    Option::Some(f) => Option::Some(files_view(f@)),
                    Option::None => Option::None,
                },
            ),
            Result::Err(e) => spec_files(pairs_bview(info@)) == Result::<
                Option<Seq<FileView>>,
                TorrentError,
            >::Err(e),
        },
{
    broadcast use lemma_seq_bview_len;

    let files_benc: &Vec<Benc> = match benc_dict_get(info, "files".as_bytes()) {
        Option::None => {
            return Result::Ok(Option::None);
        },
        Option::Some(v) => match v {
            Benc::L(l) => l,
            _ => {
                return Result::Err(TorrentError::FilesNotList);
            },
        },
    };
    let ghost lv = seq_bview(files_benc@);
    let mut out: Vec<TorrentFile> = Vec::new();
    let mut i: usize = 0;
    proof {
        assert(lv.skip(0) =~= lv);
        match spec_file_list(lv) {
            Result::Ok(rest) => {
                assert(files_view(out@) + rest =~= rest);
            },
            Result::Err(_) => {},
        }
    }
    while i < files_benc.len()
        invariant
            i <= files_benc.len(),
            out@.len() == i,
            (match spec_file_list(lv.skip(i as int)) {
                Result::Ok(rest) => spec_file_list(lv) == Result::<
                    Seq<FileView>,
                    TorrentError,
                >::Ok(files_view(out@) + rest),
                Result::Err(e) => spec_file_list(lv) == Result::<Seq<FileView>, TorrentError>::Err(
                    e,
                ),
            }),
        decreases files_benc.len() - i,
    {
        let ghost cur = lv.skip(i as int);
        proof {
            assert(cur[0] == lv[i as int]);
            assert(lv[i as int] == bview(files_benc@[i as int]));
            assert(cur.drop_first() =~= lv.skip(i as int + 1));
        }
        match extract_file_entry(&files_benc[i]) {
            Result::Ok(f) => {
                let ghost fv = f@;
                let ghost ov = files_view(out@);
                out.push(f);
                proof {
                    assert(files_view(out@) =~= ov + seq![fv]);
                    match spec_file_list(lv.skip(i as int + 1)) {
                        Result::Ok(rest) => {
                            assert(ov + (seq![fv] + rest) =~= (ov + seq![fv]) + rest);
                        },
                        Result::Err(_) => {},
                    }
                }
                i = i + 1;
            },
            Result::Err(e) => {
                return Result::Err(e);
            },
        }
    }
    proof {
        assert(lv.skip(files_benc@.len() as int) =~= Seq::<BVal>::empty());
        assert(files_view(out@) + Seq::<FileView>::empty() =~= files_view(out@));
    }
    Result::Ok(Option::Some(out))
}

/// One more file adds its length to the running total.
proof fn lemma_total_length_take(fs: Seq<FileView>, i: int)
    requires
        0 <= i < fs.len(),
    ensures
        total_length(fs.take(i + 1)) == total_length(fs.take(i)) + fs[i].length,
{
    assert(fs.take(i + 1).drop_last() =~= fs.take(i));
    assert(fs.take(i + 1).last() == fs[i]);
}

/// Sum the file lengths without overflow.
#[verifier::loop_isolation(false)]
fn sum_lengths(files: &Vec<TorrentFile>) -> (total: i128)
    ensures
        total == total_length(files_view(files@)),
{
    let fv = files;
    let mut total: i128 = 0;
    let mut i: usize = 0;
    proof {
        assert(files_view(fv@).take(0) =~= Seq::<FileView>::empty());
    }
    while i < files.len()
        invariant
            i <= files.len(),
            total == total_length(files_view(fv@).take(i as int)),
            (i as int) * (i64::MIN as int) <= total <= (i as int) * (i64::MAX as int),
        decreases files.len() - i,
    {
        proof {
            lemma_total_length_take(files_view(fv@), i as int);
            assert(files_view(fv@)[i as int] == fv@[i as int]@);
            assert((i as int + 1) * (i64::MAX as int) < 0x7fffffff_ffffffff_ffffffff_ffffffff)
                by (nonlinear_arith)
                requires
                    0 <= i as int + 1 <= 0x1_0000_0000_0000_0000,
            ;
            assert((i as int + 1) * (i64::MIN as int) >= -0x80000000_00000000_00000000_00000000)
                by (nonlinear_arith)
                requires
                    0 <= i as int + 1 <= 0x1_0000_0000_0000_0000,
            ;
            assert((i as int + 1) * (i64::MAX as int) == (i as int) * (i64::MAX as int)
                + i64::MAX as int) by (nonlinear_arith);
            assert((i as int + 1) * (i64::MIN as int) == (i as int) * (i64::MIN as int)
                + i64::MIN as int) by (nonlinear_arith);
        }
        total = total + files[i].length as i128;
        i = i + 1;
    }
    proof {
        assert(files_view(fv@).take(fv@.len() as int) =~= files_view(fv@));
    }
    total
}

/// Turn a decoded value tree into validated torrent metadata: exactly the
/// result of [`spec_extract`] on the tree's abstraction, error for error.
pub fn benc_to_torrent(input: Benc) -> (r: Result<TorrentMetadata, TorrentError>)
    ensures
        match r {
            Result::Ok(tm) => spec_extract(input@) == Result::<MetaView, TorrentError>::Ok(tm@),
            Result::Err(e) => spec_extract(input@) == Result::<MetaView, TorrentError>::Err(e),
        },
{
    let d: &Vec<(Vec<u8>, Benc)> = match &input {
        Benc::D(d) => d,
        _ => {
            proof {
                assert(!(bview(input) is D));
            }
            return Result::Err(TorrentError::NotADictionary);
        },
    };
    let ghost dv = pairs_bview(d@);
    let info = match extract_info(d) {
        Result::Ok(info) => info,
        Result::Err(e) => {
            return Result::Err(e);
        },
    };
    let ghost infov = pairs_bview(info@);
    let name = match extract_name(info) {
        Result::Ok(name) => name,
        Result::Err(e) => {
            return Result::Err(e);
        },
    };
    let ghost namev = name@;
    let chunk_size = match extract_chunk_size(info) {
        Result::Ok(cs) => cs,
        Result::Err(e) => {
            return Result::Err(e);
        },
    };
    let chunk_checksum = match extract_checksums(info) {
        Result::Ok(cc) => cc,
        Result::Err(e) => {
            return Result::Err(e);
        },
    };
    let ghost sumsv = chunk_checksum.deep_view();
    let announce = match extract_announce(d) {
        Result::Ok(a) => a,
        Result::Err(e) => {
            return Result::Err(e);
        },
    };
    let ghost annv = announce@;
    let files_opt = match extract_files(info) {
        Result::Ok(f) => f,
        Result::Err(e) => {
            return Result::Err(e);
        },
    };
    let ghost files_optv: Option<Seq<FileView>> = match files_opt {
        Option::Some(ref f) => Option::Some(files_view(f@)),
        Option::None => Option::None,
    };
    let length_opt = match extract_single_file_length(info) {
        Result::Ok(l) => l,
        Result::Err(e) => {
            return Result::Err(e);
        },
    };
    let ghost len_optv: Option<int> = match length_opt {
        Option::Some(l) => Option::Some(l as int),
        Option::None => Option::None,
    };
    let announce_list_opt = match extract_announce_list(d) {
        Result::Ok(al) => al,
        Result::Err(e) => {
            return Result::Err(e);
        },
    };
    let ghost alv: Option<Seq<Seq<Seq<char>>>> = match announce_list_opt {
        Option::Some(ref a) => Option::Some(a.deep_view()),
        Option::None => Option::None,
    };
    let creation_date = match extract_creation_date(d) {
        Result::Ok(cd) => cd,
        Result::Err(e) => {
            return Result::Err(e);
        },
    };
    let ghost cdv: Option<int> = match creation_date {
        Option::Some(cd) => Option::Some(cd as int),
        Option::None => Option::None,
    };

    // Resolve the single-file / multi-file ambiguity.
    let (files, base_path): (Vec<TorrentFile>, String) = match (files_opt, length_opt) {
        (Option::Some(_), Option::Some(_)) => {
            return Result::Err(TorrentError::BothLengthAndFiles);
        },
        (Option::None, Option::None) => {
            return Result::Err(TorrentError::NeitherLengthNorFiles);
        },
        (Option::Some(fs), Option::None) => (fs, name),
        (Option::None, Option::Some(length)) => {
            let mut path: Vec<String> = Vec::new();
            path.push(name);
            let mut files: Vec<TorrentFile> = Vec::new();
            files.push(TorrentFile { path, length });
            (files, ".".to_owned())
        },
    };
    let ghost filesv = files_view(files@);
    proof {
        if files_optv is None {
            assert(filesv.len() == 1);
            assert(filesv[0] == files@[0]@);
            assert(files@[0].path.deep_view() =~= seq![namev]);
            assert(filesv[0] =~~= FileView { path: seq![namev], length: len_optv->Some_0 });
            assert(filesv =~~= seq![FileView { path: seq![namev], length: len_optv->Some_0 }]);
        }
    }

    // Validate the checksum count against the total content size.
    let total = sum_lengths(&files);
    let nsums = chunk_checksum.len();
    proof {
        assert(sumsv.len() == nsums as int);
        assert((nsums as int) * (chunk_size as int) < 0x7fffffff_ffffffff_ffffffff_ffffffff)
            by (nonlinear_arith)
            requires
                0 <= nsums as int <= 0xffff_ffff_ffff_ffff,
                0 < chunk_size as int <= 0x7fff_ffff_ffff_ffff,
        ;
        assert((nsums as int - 1) * (chunk_size as int)
            > -0x80000000_00000000_00000000_00000000 && (nsums as int - 1) * (chunk_size as int)
            < 0x7fffffff_ffffffff_ffffffff_ffffffff) by (nonlinear_arith)
            requires
                0 <= nsums as int <= 0xffff_ffff_ffff_ffff,
                0 < chunk_size as int <= 0x7fff_ffff_ffff_ffff,
        ;
    }
    if (nsums as i128) * (chunk_size as i128) < total {
        return Result::Err(TorrentError::TooFewChecksums);
    }
    if (nsums as i128 - 1) * (chunk_size as i128) > total {
        return Result::Err(TorrentError::TooManyChecksums);
    }

    // Resolve the announce ambiguity: without an announce-list, the single
    // announce URL forms the only tier.
    let announce_list = match announce_list_opt {
        Option::Some(al) => al,
        Option::None => {
            let mut tier: Vec<String> = Vec::new();
            tier.push(announce);
            let mut al: Vec<Vec<String>> = Vec::new();
            al.push(tier);
            al
        },
    };
    proof {
        if alv is None {
            assert(announce_list.deep_view() =~~= seq![seq![annv]]);
        }
    }

    // The info-hash: SHA-1 over the canonical encoding of the `info`
    // sub-tree exactly as it was decoded.
    let info_node = match benc_dict_get(d, "info".as_bytes()) {
        Option::Some(n) => n,
        Option::None => {
            proof {
                assert(false);
            }
            return Result::Err(TorrentError::MissingInfo);
        },
    };
    proof {
        assert(bview(*info_node) == BVal::D(infov));
    }
    let encoded_info = enc_benc(info_node);
    let info_hash = sha1_digest(&encoded_info);

    let tm = TorrentMetadata {
        announce_list,
        base_path,
        chunk_size,
        chunk_checksum,
        files,
        info_hash,
        creation_date,
    };
    proof {
        let expected = spec_resolve(
            infov,
            namev,
            chunk_size as int,
            sumsv,
            annv,
            files_optv,
            len_optv,
            alv,
            cdv,
        );
        assert(expected is Ok);
        assert(tm@ =~~= expected->Ok_0);
    }
    Result::Ok(tm)
}

} // verus!
