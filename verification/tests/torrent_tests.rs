use bencodec::decode::dec_benc;
use bencodec::encode::enc_benc;
use bencodec::torrent::{benc_to_torrent, TorrentError};
use bencodec::value::Benc;

use crypto::digest::Digest;
use crypto::sha1::Sha1;

// A dictionary value from entries in any order; keys are kept ascending.
fn dict(mut entries: Vec<(&[u8], Benc)>) -> Benc {
    entries.sort_by(|a, b| a.0.cmp(b.0));
    Benc::D(
        entries
            .into_iter()
            .map(|(k, v)| (k.to_vec(), v))
            .collect(),
    )
}

fn bs(s: &str) -> Benc {
    Benc::S(s.as_bytes().to_vec())
}

fn pieces(n: usize) -> Benc {
    Benc::S((0..20 * n).map(|i| i as u8).collect())
}

// A multi-file info dictionary: two files of 150 and 100 bytes, pieces of
// 100 bytes each, and `n` checksums.
fn multi_file_info(n_checksums: usize) -> Benc {
    let file_a = dict(vec![
        ("length".as_bytes(), Benc::I(150)),
        ("path".as_bytes(), Benc::L(vec![bs("a.txt")])),
    ]);
    let file_b = dict(vec![
        ("length".as_bytes(), Benc::I(100)),
        ("path".as_bytes(), Benc::L(vec![bs("sub"), bs("b.txt")])),
    ]);
    dict(vec![
        ("files".as_bytes(), Benc::L(vec![file_a, file_b])),
        ("name".as_bytes(), bs("testdir")),
        ("piece length".as_bytes(), Benc::I(100)),
        ("pieces".as_bytes(), pieces(n_checksums)),
    ])
}

// A single-file info dictionary: 1000 content bytes in 100-byte pieces.
fn single_file_info() -> Benc {
    dict(vec![
        ("length".as_bytes(), Benc::I(1000)),
        ("name".as_bytes(), bs("test.bin")),
        ("piece length".as_bytes(), Benc::I(100)),
        ("pieces".as_bytes(), pieces(10)),
    ])
}

fn torrent_with_info(info: Benc) -> Benc {
    dict(vec![
        ("announce".as_bytes(), bs("http://tracker.example/announce")),
        ("info".as_bytes(), info),
    ])
}

#[test]
fn info_hash_matches_sha1_of_canonical_encoding() {
    // The extractor's info-hash must be SHA-1 over the canonical encoding
    // of the `info` sub-tree, independent of key order during decode.
    let sorted = "d8:announce3:url4:infod6:lengthi1000e4:name8:test.bin12:piece lengthi100e6:pieces";
    let unsorted = "d8:announce3:url4:infod4:name8:test.bin6:lengthi1000e12:piece lengthi100e6:pieces";
    let mut enc_sorted: Vec<u8> = sorted.as_bytes().to_vec();
    let mut enc_unsorted: Vec<u8> = unsorted.as_bytes().to_vec();
    let piece_bytes: Vec<u8> = (0..200u32).map(|i| i as u8).collect();
    for enc in [&mut enc_sorted, &mut enc_unsorted] {
        enc.extend_from_slice(b"200:");
        enc.extend_from_slice(&piece_bytes);
        enc.extend_from_slice(b"ee");
    }

    let tm_sorted = benc_to_torrent(dec_benc(&enc_sorted).unwrap()).unwrap();
    let tm_unsorted = benc_to_torrent(dec_benc(&enc_unsorted).unwrap()).unwrap();
    assert_eq!(tm_sorted.info_hash, tm_unsorted.info_hash);

    // Independent digest of the canonical info encoding.
    let canonical_info = enc_benc(&single_file_info());
    let mut hasher = Sha1::new();
    hasher.input(&canonical_info);
    let mut expected = [0u8; 20];
    hasher.result(&mut expected);
    assert_eq!(tm_sorted.info_hash, expected);
    assert_eq!(expected.len(), 20);
}

#[test]
fn single_file_ambiguity_resolution() {
    // `info.length` with no `info.files` yields one synthetic entry whose
    // path is the torrent's name, under the current-directory sentinel.
    let tm = benc_to_torrent(torrent_with_info(single_file_info())).unwrap();
    assert_eq!(tm.base_path, ".");
    assert_eq!(tm.files.len(), 1);
    assert_eq!(tm.files[0].path, vec![String::from("test.bin")]);
    assert_eq!(tm.files[0].length, 1000);
    assert_eq!(tm.chunk_size, 100);
    assert_eq!(tm.chunk_checksum.len(), 10);
    assert_eq!(tm.creation_date, None);
}

#[test]
fn both_length_and_files_rejected() {
    let info = dict(vec![
        ("files".as_bytes(), Benc::L(vec![dict(vec![
            ("length".as_bytes(), Benc::I(150)),
            ("path".as_bytes(), Benc::L(vec![bs("a.txt")])),
        ])])),
        ("length".as_bytes(), Benc::I(1000)),
        ("name".as_bytes(), bs("test.bin")),
        ("piece length".as_bytes(), Benc::I(100)),
        ("pieces".as_bytes(), pieces(10)),
    ]);
    let r = benc_to_torrent(torrent_with_info(info));
    assert_eq!(r.unwrap_err(), TorrentError::BothLengthAndFiles);
}

#[test]
fn neither_length_nor_files_rejected() {
    let info = dict(vec![
        ("name".as_bytes(), bs("test.bin")),
        ("piece length".as_bytes(), Benc::I(100)),
        ("pieces".as_bytes(), pieces(10)),
    ]);
    let r = benc_to_torrent(torrent_with_info(info));
    assert_eq!(r.unwrap_err(), TorrentError::NeitherLengthNorFiles);
}

#[test]
fn checksum_count_scenarios() {
    // 250 content bytes in 100-byte pieces need exactly 3 checksums.
    let ok = benc_to_torrent(torrent_with_info(multi_file_info(3))).unwrap();
    assert_eq!(ok.chunk_checksum.len(), 3);
    assert_eq!(ok.base_path, "testdir");
    assert_eq!(ok.files.len(), 2);
    assert_eq!(ok.files[0].path, vec![String::from("a.txt")]);
    assert_eq!(ok.files[1].path, vec![String::from("sub"), String::from("b.txt")]);
    // Each checksum is the matching 20-byte slice of `pieces`.
    for (i, sum) in ok.chunk_checksum.iter().enumerate() {
        let expected: Vec<u8> = (20 * i..20 * i + 20).map(|b| b as u8).collect();
        assert_eq!(sum.to_vec(), expected);
    }

    let too_few = benc_to_torrent(torrent_with_info(multi_file_info(2)));
    assert_eq!(too_few.unwrap_err(), TorrentError::TooFewChecksums);

    let too_many = benc_to_torrent(torrent_with_info(multi_file_info(4)));
    assert_eq!(too_many.unwrap_err(), TorrentError::TooManyChecksums);
}

#[test]
fn announce_list_fallback() {
    // Without `announce-list`, the single announce URL forms the only tier.
    let tm = benc_to_torrent(torrent_with_info(single_file_info())).unwrap();
    assert_eq!(
        tm.announce_list,
        vec![vec![String::from("http://tracker.example/announce")]]
    );
}

#[test]
fn announce_list_taken_verbatim() {
    let top = dict(vec![
        ("announce".as_bytes(), bs("http://tracker.example/announce")),
        (
            "announce-list".as_bytes(),
            Benc::L(vec![
                Benc::L(vec![bs("http://a.example"), bs("http://b.example")]),
                Benc::L(vec![bs("http://c.example")]),
            ]),
        ),
        ("creation date".as_bytes(), Benc::I(1455825599)),
        ("info".as_bytes(), single_file_info()),
    ]);
    let tm = benc_to_torrent(top).unwrap();
    assert_eq!(
        tm.announce_list,
        vec![
            vec![String::from("http://a.example"), String::from("http://b.example")],
            vec![String::from("http://c.example")],
        ]
    );
    assert_eq!(tm.creation_date, Some(1455825599));
}

fn expect_err(top: Benc, expected: TorrentError) {
    assert_eq!(benc_to_torrent(top).unwrap_err(), expected);
}

fn torrent_with_info_entry(key: &[u8], value: Benc) -> Benc {
    // A single-file info dictionary with one entry replaced or added.
    let mut entries: Vec<(&[u8], Benc)> = vec![
        ("length".as_bytes(), Benc::I(1000)),
        ("name".as_bytes(), bs("test.bin")),
        ("piece length".as_bytes(), Benc::I(100)),
        ("pieces".as_bytes(), pieces(10)),
    ];
    entries.retain(|(k, _)| *k != key);
    entries.push((key, value));
    torrent_with_info(dict(entries))
}

#[test]
fn schema_errors_each_named() {
    expect_err(Benc::I(5), TorrentError::NotADictionary);
    expect_err(
        dict(vec![("announce".as_bytes(), bs("url"))]),
        TorrentError::MissingInfo,
    );
    expect_err(
        dict(vec![
            ("announce".as_bytes(), bs("url")),
            ("info".as_bytes(), Benc::I(1)),
        ]),
        TorrentError::InfoNotDictionary,
    );
    expect_err(torrent_with_info(dict(vec![])), TorrentError::MissingName);
    expect_err(
        torrent_with_info_entry("name".as_bytes(), Benc::I(1)),
        TorrentError::NameNotString,
    );
    expect_err(
        torrent_with_info_entry("name".as_bytes(), Benc::S(vec![0xfe, 0xff])),
        TorrentError::NameNotUtf8,
    );
    expect_err(
        torrent_with_info(dict(vec![("name".as_bytes(), bs("x"))])),
        TorrentError::MissingChunkSize,
    );
    expect_err(
        torrent_with_info_entry("piece length".as_bytes(), bs("x")),
        TorrentError::ChunkSizeNotInt,
    );
    expect_err(
        torrent_with_info_entry("piece length".as_bytes(), Benc::I(0)),
        TorrentError::ChunkSizeNotPositive,
    );
    expect_err(
        torrent_with_info(dict(vec![
            ("name".as_bytes(), bs("x")),
            ("piece length".as_bytes(), Benc::I(100)),
        ])),
        TorrentError::MissingChecksums,
    );
    expect_err(
        torrent_with_info_entry("pieces".as_bytes(), Benc::I(1)),
        TorrentError::ChecksumsNotString,
    );
    expect_err(
        torrent_with_info_entry("pieces".as_bytes(), Benc::S(vec![1, 2, 3])),
        TorrentError::ChecksumsNotWholePieces,
    );
    expect_err(
        dict(vec![("info".as_bytes(), single_file_info())]),
        TorrentError::MissingAnnounce,
    );
    expect_err(
        dict(vec![
            ("announce".as_bytes(), Benc::I(1)),
            ("info".as_bytes(), single_file_info()),
        ]),
        TorrentError::AnnounceNotString,
    );
    expect_err(
        dict(vec![
            ("announce".as_bytes(), Benc::S(vec![0xfe, 0xff])),
            ("info".as_bytes(), single_file_info()),
        ]),
        TorrentError::AnnounceNotUtf8,
    );
    expect_err(
        torrent_with_info_entry("length".as_bytes(), bs("x")),
        TorrentError::LengthNotInt,
    );
    expect_err(
        torrent_with_info_entry("length".as_bytes(), Benc::I(-5)),
        TorrentError::LengthNotPositive,
    );
}

fn torrent_with_files(files: Benc) -> Benc {
    torrent_with_info(dict(vec![
        ("files".as_bytes(), files),
        ("name".as_bytes(), bs("testdir")),
        ("piece length".as_bytes(), Benc::I(100)),
        ("pieces".as_bytes(), pieces(2)),
    ]))
}

#[test]
fn file_entry_errors_each_named() {
    expect_err(
        torrent_with_files(Benc::I(1)),
        TorrentError::FilesNotList,
    );
    expect_err(
        torrent_with_files(Benc::L(vec![Benc::I(1)])),
        TorrentError::FileNotDictionary,
    );
    expect_err(
        torrent_with_files(Benc::L(vec![dict(vec![
            ("bogus".as_bytes(), Benc::I(1)),
            ("length".as_bytes(), Benc::I(150)),
            ("path".as_bytes(), Benc::L(vec![bs("a.txt")])),
        ])])),
        TorrentError::UnknownFileField,
    );
    expect_err(
        torrent_with_files(Benc::L(vec![dict(vec![(
            "length".as_bytes(),
            Benc::I(150),
        )])])),
        TorrentError::FilePathMissing,
    );
    expect_err(
        torrent_with_files(Benc::L(vec![dict(vec![
            ("length".as_bytes(), Benc::I(150)),
            ("path".as_bytes(), Benc::I(1)),
        ])])),
        TorrentError::FilePathNotList,
    );
    expect_err(
        torrent_with_files(Benc::L(vec![dict(vec![
            ("length".as_bytes(), Benc::I(150)),
            ("path".as_bytes(), Benc::L(vec![Benc::I(1)])),
        ])])),
        TorrentError::PathSegmentNotString,
    );
    expect_err(
        torrent_with_files(Benc::L(vec![dict(vec![
            ("length".as_bytes(), Benc::I(150)),
            ("path".as_bytes(), Benc::L(vec![Benc::S(vec![0xfe, 0xff])])),
        ])])),
        TorrentError::PathSegmentNotUtf8,
    );
    expect_err(
        torrent_with_files(Benc::L(vec![dict(vec![
            ("length".as_bytes(), Benc::I(150)),
            ("path".as_bytes(), Benc::L(vec![])),
        ])])),
        TorrentError::FilePathEmpty,
    );
    expect_err(
        torrent_with_files(Benc::L(vec![dict(vec![(
            "path".as_bytes(),
            Benc::L(vec![bs("a.txt")]),
        )])])),
        TorrentError::FileLengthMissing,
    );
    expect_err(
        torrent_with_files(Benc::L(vec![dict(vec![
            ("length".as_bytes(), bs("x")),
            ("path".as_bytes(), Benc::L(vec![bs("a.txt")])),
        ])])),
        TorrentError::FileLengthNotInt,
    );
    expect_err(
        torrent_with_files(Benc::L(vec![dict(vec![
            ("length".as_bytes(), Benc::I(0)),
            ("path".as_bytes(), Benc::L(vec![bs("a.txt")])),
        ])])),
        TorrentError::FileLengthNotPositive,
    );
    // An ignored md5sum field is accepted.
    let ok = benc_to_torrent(torrent_with_files(Benc::L(vec![
        dict(vec![
            ("length".as_bytes(), Benc::I(150)),
            ("md5sum".as_bytes(), bs("d41d8cd98f00b204e9800998ecf8427e")),
            ("path".as_bytes(), Benc::L(vec![bs("a.txt")])),
        ]),
    ])));
    assert!(ok.is_ok());
}

fn torrent_with_announce_list(al: Benc) -> Benc {
    dict(vec![
        ("announce".as_bytes(), bs("url")),
        ("announce-list".as_bytes(), al),
        ("info".as_bytes(), single_file_info()),
    ])
}

#[test]
fn announce_list_errors_each_named() {
    expect_err(
        torrent_with_announce_list(Benc::I(1)),
        TorrentError::AnnounceListNotList,
    );
    expect_err(
        torrent_with_announce_list(Benc::L(vec![Benc::I(1)])),
        TorrentError::AnnounceTierNotList,
    );
    expect_err(
        torrent_with_announce_list(Benc::L(vec![Benc::L(vec![Benc::I(1)])])),
        TorrentError::AnnounceUrlNotString,
    );
    expect_err(
        torrent_with_announce_list(Benc::L(vec![Benc::L(vec![Benc::S(vec![0xfe, 0xff])])])),
        TorrentError::AnnounceUrlNotUtf8,
    );
    expect_err(
        torrent_with_announce_list(Benc::L(vec![Benc::L(vec![])])),
        TorrentError::EmptyAnnounceTier,
    );
    expect_err(
        torrent_with_announce_list(Benc::L(vec![])),
        TorrentError::EmptyAnnounceList,
    );
    expect_err(
        dict(vec![
            ("announce".as_bytes(), bs("url")),
            ("creation date".as_bytes(), bs("yesterday")),
            ("info".as_bytes(), single_file_info()),
        ]),
        TorrentError::CreationDateNotInt,
    );
}
