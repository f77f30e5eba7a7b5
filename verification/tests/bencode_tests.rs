use bencodec::decode::dec_benc;
use bencodec::encode::{enc_benc, enc_dict, enc_int, enc_list, enc_string};
use bencodec::value::Benc;

// Structural comparison of two decoded values.
fn compare_benc(x: &Benc, y: &Benc) -> bool {
    match (x, y) {
        (Benc::I(xi), Benc::I(yi)) => *xi == *yi,
        (Benc::S(xs), Benc::S(ys)) => *xs == *ys,
        (Benc::L(xl), Benc::L(yl)) => {
            if xl.len() != yl.len() {
                return false;
            }
            for (x_b, y_b) in xl.iter().zip(yl.iter()) {
                if !compare_benc(x_b, y_b) {
                    return false;
                }
            }
            true
        }
        (Benc::D(xd), Benc::D(yd)) => {
            if xd.len() != yd.len() {
                return false;
            }
            for ((xk, xv), (yk, yv)) in xd.iter().zip(yd.iter()) {
                if xk != yk || !compare_benc(xv, yv) {
                    return false;
                }
            }
            true
        }
        _ => false,
    }
}

// A dictionary value from entries in any order; keys are kept ascending.
fn mk_dict(mut entries: Vec<(&[u8], Benc)>) -> Benc {
    entries.sort_by(|a, b| a.0.cmp(b.0));
    Benc::D(
        entries
            .into_iter()
            .map(|(k, v)| (k.to_vec(), v))
            .collect(),
    )
}

#[test]
fn round_trip_tests() {
    let test_1 = "d3:abci123e9:今日は23:It means good afternoone".as_bytes().to_vec();
    assert_eq!(enc_benc(&dec_benc(&test_1).unwrap()), test_1);

    let test_2 = "li3735928559e4:wootli999ei-5ei0ei8675309eee".as_bytes().to_vec();
    assert_eq!(enc_benc(&dec_benc(&test_2).unwrap()), test_2);

    let test_3 = Benc::L(vec![Benc::I(0xdeadbeef), Benc::S("woot".as_bytes().to_vec())]);
    assert!(compare_benc(&dec_benc(&enc_benc(&test_3)).unwrap(), &test_3));
}

#[test]
fn dec_dict() {
    // Test with some utf8 stuff to make sure we handle it correctly
    let test_dict_1_enc = "d3:abci123e9:今日は23:It means good afternoone".as_bytes().to_vec();
    let test_dict_1_dec = mk_dict(vec![
        ("abc".as_bytes(), Benc::I(123)),
        (
            "今日は".as_bytes(),
            Benc::S("It means good afternoon".as_bytes().to_vec()),
        ),
    ]);
    assert!(compare_benc(&dec_benc(&test_dict_1_enc).unwrap(), &test_dict_1_dec));

    // An invalid utf8 string as a key (otherwise valid)
    let test_dict_2_enc = vec![
        b'd', b'4', b':', b'a', 0xfe, 0xff, b'd', b'i', b'4', b'2', b'e', b'e',
    ];
    assert!(dec_benc(&test_dict_2_enc).is_err());

    // no terminal e
    let test_dict_3_enc = "d3:abci123e".as_bytes().to_vec();
    assert!(dec_benc(&test_dict_3_enc).is_err());

    // non-string key
    let test_dict_4_enc = "di123e3:abce".as_bytes().to_vec();
    assert!(dec_benc(&test_dict_4_enc).is_err());
}

#[test]
fn dec_list() {
    let test_list_ints_enc = "li999ei-5ei0ei8675309ee".as_bytes().to_vec();
    let test_list_ints_dec =
        Benc::L(vec![Benc::I(999), Benc::I(-5), Benc::I(0), Benc::I(8675309)]);
    assert!(compare_benc(&dec_benc(&test_list_ints_enc).unwrap(), &test_list_ints_dec));

    let test_list_strings_enc = "l5:happy5:moose3:abc7:shuttlee".as_bytes().to_vec();
    let test_list_strings_dec = Benc::L(vec![
        Benc::S("happy".as_bytes().to_vec()),
        Benc::S("moose".as_bytes().to_vec()),
        Benc::S("abc".as_bytes().to_vec()),
        Benc::S("shuttle".as_bytes().to_vec()),
    ]);
    assert!(compare_benc(&dec_benc(&test_list_strings_enc).unwrap(), &test_list_strings_dec));

    let test_list_mixed_enc = "li3735928559e4:wootli999ei-5ei0ei8675309eee".as_bytes().to_vec();
    let test_list_mixed_dec = Benc::L(vec![
        Benc::I(0xdeadbeef),
        Benc::S("woot".as_bytes().to_vec()),
        test_list_ints_dec,
    ]);
    assert!(compare_benc(&dec_benc(&test_list_mixed_enc).unwrap(), &test_list_mixed_dec));

    let test_unterminated_list = "li999ei-5ei0ei8675309e".as_bytes().to_vec();
    assert!(dec_benc(&test_unterminated_list).is_err());

    let test_bad_string_list = "l999:this string is still too short!e".as_bytes().to_vec();
    assert!(dec_benc(&test_bad_string_list).is_err());

    let test_bad_int_list = "li08ee".as_bytes().to_vec();
    assert!(dec_benc(&test_bad_int_list).is_err());

    let test_bad_item_list = "li0eqe".as_bytes().to_vec();
    assert!(dec_benc(&test_bad_item_list).is_err());

    let test_list_list = "lllllllllllllllllllllllllleeeee".as_bytes().to_vec();
    assert!(dec_benc(&test_list_list).is_err());
}

#[test]
fn dec_int() {
    match dec_benc(&"i0e".as_bytes().to_vec()).unwrap() {
        Benc::I(i) => assert_eq!(i, 0),
        _ => unreachable!(),
    }

    match dec_benc(&"i42e".as_bytes().to_vec()).unwrap() {
        Benc::I(i) => assert_eq!(i, 42),
        _ => unreachable!(),
    }

    match dec_benc(&"i-2e".as_bytes().to_vec()).unwrap() {
        Benc::I(i) => assert_eq!(i, -2),
        _ => unreachable!(),
    }

    // Empty decode?
    assert!(dec_benc(&"ie".as_bytes().to_vec()).is_err());

    // Can't prefix with 0
    assert!(dec_benc(&"i08e".as_bytes().to_vec()).is_err());

    // negative 0 is not allowed
    assert!(dec_benc(&"i-0e".as_bytes().to_vec()).is_err());

    assert!(dec_benc(&"i-e".as_bytes().to_vec()).is_err());

    // greater than i64 max?
    assert!(dec_benc(&"i9223372036854775808e".as_bytes().to_vec()).is_err());

    // less than i64 min?
    assert!(dec_benc(&"i-9223372036854775809e".as_bytes().to_vec()).is_err());

    assert!(dec_benc(&"i123abc567e".as_bytes().to_vec()).is_err());
}

#[test]
fn dec_string() {
    match dec_benc(&"18:Goodbye doomed yam".as_bytes().to_vec()).unwrap() {
        Benc::S(s) => assert_eq!(s, "Goodbye doomed yam".as_bytes().to_vec()),
        _ => unreachable!(),
    }

    let test_str_2 = "1:This is too long";
    assert!(dec_benc(&test_str_2.as_bytes().to_vec()).is_err());

    let test_str_3 = "999:This is too short";
    assert!(dec_benc(&test_str_3.as_bytes().to_vec()).is_err());

    let test_str_4 = "0:This is impossible";
    assert!(dec_benc(&test_str_4.as_bytes().to_vec()).is_err());

    let test_str_5 = "4294967297:This length doesn't fit in an i32 (2^32 + 1)";
    assert!(dec_benc(&test_str_5.as_bytes().to_vec()).is_err());
}

#[test]
fn string() {
    let test_str_1 = "Hello I am a happy moose";
    assert_eq!(enc_string(test_str_1.as_bytes()), "24:Hello I am a happy moose".as_bytes());

    let test_benc = Benc::S("Hello there happy moose".as_bytes().to_vec());
    assert_eq!(enc_benc(&test_benc), "23:Hello there happy moose".as_bytes());

    // Something with invalid utf8 is still bencodable (0xfe and 0xff are invalid)
    let test_non_utf8_vec = vec![b'a', b'b', b'c', 0xfe, 0xff, b'd'];
    assert_eq!(
        enc_string(&test_non_utf8_vec),
        vec![b'6', b':', b'a', b'b', b'c', 0xfe, 0xff, b'd']
    );
}

#[test]
fn int_values() {
    let test_int_1 = 1234;
    assert_eq!(enc_int(&test_int_1), "i1234e".as_bytes());

    let test_int_2 = 0;
    assert_eq!(enc_int(&test_int_2), "i0e".as_bytes());

    let test_int_3 = -42;
    assert_eq!(enc_int(&test_int_3), "i-42e".as_bytes());

    let test_benc_1 = Benc::I(112358);
    assert_eq!(enc_benc(&test_benc_1), "i112358e".as_bytes());
}

#[test]
fn list() {
    let test_list_ints = vec![Benc::I(999), Benc::I(-5), Benc::I(0), Benc::I(8675309)];
    assert_eq!(enc_list(&test_list_ints), "li999ei-5ei0ei8675309ee".as_bytes());

    let test_list_strings = vec![
        Benc::S("happy".as_bytes().to_vec()),
        Benc::S("moose".as_bytes().to_vec()),
    ];
    assert_eq!(enc_list(&test_list_strings), "l5:happy5:moosee".as_bytes());

    let test_list_mixed = vec![Benc::I(0xdeadbeef), Benc::S("woot".as_bytes().to_vec())];
    assert_eq!(enc_list(&test_list_mixed), "li3735928559e4:woote".as_bytes());
}

#[test]
fn dict() {
    // Coming out sorted is a requirement, so present these in a weird order
    // and let the dictionary builder order them.
    let d1 = match mk_dict(vec![("number_3".as_bytes(), Benc::I(123456789))]) {
        Benc::D(d) => d,
        _ => unreachable!(),
    };
    assert_eq!(enc_dict(&d1), "d8:number_3i123456789ee".as_bytes());

    let d2 = match mk_dict(vec![
        ("number_3".as_bytes(), Benc::I(123456789)),
        ("number_1".as_bytes(), Benc::I(918273645)),
    ]) {
        Benc::D(d) => d,
        _ => unreachable!(),
    };
    assert_eq!(enc_dict(&d2), "d8:number_1i918273645e8:number_3i123456789ee".as_bytes());

    let d3 = match mk_dict(vec![
        ("number_3".as_bytes(), Benc::I(123456789)),
        ("number_1".as_bytes(), Benc::I(918273645)),
        ("number_2".as_bytes(), Benc::I(987654321)),
    ]) {
        Benc::D(d) => d,
        _ => unreachable!(),
    };
    assert_eq!(
        enc_dict(&d3),
        "d8:number_1i918273645e8:number_2i987654321e8:number_3i123456789ee".as_bytes()
    );

    // Test strings to strings
    let d4 = match mk_dict(vec![(
        "hash".as_bytes(),
        Benc::S("0xdeadbeefabadbabecafefoodfee1dead".as_bytes().to_vec()),
    )]) {
        Benc::D(d) => d,
        _ => unreachable!(),
    };
    assert_eq!(enc_dict(&d4), "d4:hash34:0xdeadbeefabadbabecafefoodfee1deade".as_bytes());

    let d5 = match mk_dict(vec![
        (
            "hash".as_bytes(),
            Benc::S("0xdeadbeefabadbabecafefoodfee1dead".as_bytes().to_vec()),
        ),
        (
            "filename".as_bytes(),
            Benc::S("moose_dance.mkv".as_bytes().to_vec()),
        ),
    ]) {
        Benc::D(d) => d,
        _ => unreachable!(),
    };
    assert_eq!(
        enc_dict(&d5),
        "d8:filename15:moose_dance.mkv4:hash34:0xdeadbeefabadbabecafefoodfee1deade".as_bytes()
    );

    // Make it a mixed map and see if everything still works
    let d6 = match mk_dict(vec![
        (
            "hash".as_bytes(),
            Benc::S("0xdeadbeefabadbabecafefoodfee1dead".as_bytes().to_vec()),
        ),
        (
            "filename".as_bytes(),
            Benc::S("moose_dance.mkv".as_bytes().to_vec()),
        ),
        ("part_count".as_bytes(), Benc::I(237)),
    ]) {
        Benc::D(d) => d,
        _ => unreachable!(),
    };
    assert_eq!(
        enc_dict(&d6),
        "d8:filename15:moose_dance.mkv4:hash34:0xdeadbeefabadbabecafefoodfee1dead10:part_counti237ee"
            .as_bytes()
    );

    // Add in a list! ALL THE THINGS!
    let d7 = match mk_dict(vec![
        (
            "hash".as_bytes(),
            Benc::S("0xdeadbeefabadbabecafefoodfee1dead".as_bytes().to_vec()),
        ),
        (
            "filename".as_bytes(),
            Benc::S("moose_dance.mkv".as_bytes().to_vec()),
        ),
        ("part_count".as_bytes(), Benc::I(237)),
        (
            "other".as_bytes(),
            Benc::L(vec![
                Benc::I(0xdeadbeef),
                Benc::S("toothless".as_bytes().to_vec()),
            ]),
        ),
    ]) {
        Benc::D(d) => d,
        _ => unreachable!(),
    };
    assert_eq!(
        enc_dict(&d7),
        "d8:filename15:moose_dance.mkv4:hash34:0xdeadbeefabadbabecafefoodfee1dead5:otherli3735928559e9:toothlesse10:part_counti237ee"
            .as_bytes()
    );

    // Try it as a benc enum
    let benc_dict = Benc::D(d7);
    assert_eq!(
        enc_benc(&benc_dict),
        "d8:filename15:moose_dance.mkv4:hash34:0xdeadbeefabadbabecafefoodfee1dead5:otherli3735928559e9:toothlesse10:part_counti237ee"
            .as_bytes()
    );
}

#[test]
fn rejection_set() {
    // Every member of the grammar's rejection set must fail to decode.
    let cases: Vec<&[u8]> = vec![
        b"ie",
        b"i08e",
        b"i-0e",
        b"i-e",
        b"1:",
        b"999:short",
        b"a4:spam",
        b"4x:spam",
        b"l4:spam",
        b"d3:fooi1e",
        b"di1ei2ee",
        b"i1ei2e",
        b"4:spamx",
        b"",
    ];
    for case in cases {
        assert!(dec_benc(&case.to_vec()).is_err());
    }
}

#[test]
fn multibyte_key_exact_bytes() {
    // A valid UTF-8 multi-byte key must survive decoding with its exact
    // byte length and content, as must the value string.
    let enc = "d3:abci123e9:今日は23:It means good afternoone".as_bytes().to_vec();
    let decoded = dec_benc(&enc).unwrap();
    match decoded {
        Benc::D(d) => {
            assert_eq!(d.len(), 2);
            assert_eq!(d[0].0, "abc".as_bytes().to_vec());
            assert!(compare_benc(&d[0].1, &Benc::I(123)));
            assert_eq!(d[1].0, "今日は".as_bytes().to_vec());
            assert_eq!(d[1].0.len(), 9);
            match &d[1].1 {
                Benc::S(s) => {
                    assert_eq!(s.len(), 23);
                    assert_eq!(s, &"It means good afternoon".as_bytes().to_vec());
                }
                _ => unreachable!(),
            }
        }
        _ => unreachable!(),
    }
}

#[test]
fn empty_values() {
    // The empty string, list, and dictionary are all valid and round-trip.
    match dec_benc(&"0:".as_bytes().to_vec()).unwrap() {
        Benc::S(s) => assert_eq!(s.len(), 0),
        _ => unreachable!(),
    }
    match dec_benc(&"le".as_bytes().to_vec()).unwrap() {
        Benc::L(l) => assert_eq!(l.len(), 0),
        _ => unreachable!(),
    }
    match dec_benc(&"de".as_bytes().to_vec()).unwrap() {
        Benc::D(d) => assert_eq!(d.len(), 0),
        _ => unreachable!(),
    }
    assert_eq!(enc_benc(&Benc::S(vec![])), "0:".as_bytes());
    assert_eq!(enc_benc(&Benc::L(vec![])), "le".as_bytes());
    assert_eq!(enc_benc(&Benc::D(vec![])), "de".as_bytes());
}

#[test]
fn extreme_integers_round_trip() {
    let min_enc = "i-9223372036854775808e".as_bytes().to_vec();
    match dec_benc(&min_enc).unwrap() {
        Benc::I(i) => assert_eq!(i, i64::MIN),
        _ => unreachable!(),
    }
    assert_eq!(enc_benc(&Benc::I(i64::MIN)), min_enc);

    let max_enc = "i9223372036854775807e".as_bytes().to_vec();
    match dec_benc(&max_enc).unwrap() {
        Benc::I(i) => assert_eq!(i, i64::MAX),
        _ => unreachable!(),
    }
    assert_eq!(enc_benc(&Benc::I(i64::MAX)), max_enc);
}

#[test]
fn duplicate_keys_last_wins() {
    // The decoder documents last-write-wins for duplicate dictionary keys.
    let enc = "d3:abci1e3:abci2ee".as_bytes().to_vec();
    match dec_benc(&enc).unwrap() {
        Benc::D(d) => {
            assert_eq!(d.len(), 1);
            assert_eq!(d[0].0, "abc".as_bytes().to_vec());
            assert!(compare_benc(&d[0].1, &Benc::I(2)));
        }
        _ => unreachable!(),
    }
}

#[test]
fn unsorted_keys_normalised() {
    // Keys arriving out of order are normalised to ascending byte order,
    // so re-encoding yields the canonical form.
    let enc = "d1:bi2e1:ai1ee".as_bytes().to_vec();
    let v = dec_benc(&enc).unwrap();
    assert_eq!(enc_benc(&v), "d1:ai1e1:bi2ee".as_bytes());
}
