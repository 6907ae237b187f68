use file_rotate::suffix::{scan_suffixes, AppendCount, Representation, SuffixScheme};
use file_rotate::time::{
    rotation_suffix, too_old_with_cutoff, AppendTimestamp, DateFrom, FileLimit, TimestampSuffix,
};
use file_rotate::SuffixError;

#[test]
fn timestamp_ordering() {
    assert!(
        TimestampSuffix {
            timestamp: "2021".to_string(),
            number: None
        } < TimestampSuffix {
            timestamp: "2020".to_string(),
            number: None
        }
    );
    assert!(
        TimestampSuffix {
            timestamp: "2021".to_string(),
            number: Some(1)
        } < TimestampSuffix {
            timestamp: "2021".to_string(),
            number: None
        }
    );
}

#[test]
fn timestamp_scan_suffixes_formats() {
    let cases: Vec<(&str, Vec<&str>, Vec<&str>)> = vec![
        (
            "%Y%m%dT%H%M%S",
            vec!["20220201T101010", "20220202T101010"],
            vec!["20220201T1010", "20220201T999999", "2022-02-02"],
        ),
        (
            "%Y-%m-%d",
            vec!["2022-02-01", "2022-02-02"],
            vec![
                "abc",
                "2022-99-99",
                "2022-05",
                "2022",
                "20220202",
                "2022-02-02T112233",
            ],
        ),
    ];

    for (i, case) in cases.iter().enumerate() {
        println!("Case {}", i);
        let (format, good, bad) = case;

        let mut names: Vec<String> = Vec::new();
        for suffix in good.iter().chain(bad.iter()) {
            names.push(format!("file.{}", suffix));
        }

        let scheme = AppendTimestamp::with_format(format, FileLimit::MaxFiles(1), DateFrom::DateYesterday);

        let suffixes_set = scan_suffixes(&scheme, "file", &names);

        let mut suffixes = suffixes_set
            .into_iter()
            .map(|x| x.suffix.to_display())
            .collect::<Vec<_>>();
        suffixes.sort_unstable();

        let mut expected_suffixes = good.clone();
        expected_suffixes.sort_unstable();

        assert_eq!(suffixes, *good);
        println!("Passed\n");
    }
}

#[test]
fn count_parse_roundtrip() {
    let scheme = AppendCount::new(4);
    assert_eq!(scheme.parse("123"), Some(123));
    assert_eq!(scheme.parse("+5"), Some(5));
    assert_eq!(scheme.parse(""), None);
    assert_eq!(scheme.parse("+"), None);
    assert_eq!(scheme.parse("12a"), None);
    assert_eq!(scheme.parse("99999999999999999999999999"), None);
    let five: usize = 5;
    assert_eq!(five.to_display(), "5".to_string());
    assert_eq!(scheme.parse(&five.to_display()), Some(5));
    let big: usize = 90210;
    assert_eq!(scheme.parse(&big.to_display()), Some(90210));
}

#[test]
fn count_rotation_chain() {
    let mut scheme = AppendCount::new(3);
    let first = scheme.rotate_file("log", None, &None).unwrap();
    assert_eq!(first, 1);
    let second = scheme.rotate_file("log", None, &Some(1)).unwrap();
    assert_eq!(second, 2);
    let third = scheme.rotate_file("log", None, &Some(2)).unwrap();
    assert_eq!(third, 3);
    assert!(first != second && second != third && first != third);
}

#[test]
fn count_too_old_ranks() {
    let scheme = AppendCount::new(3);
    let suffix: usize = 1;
    assert!(!scheme.too_old(&suffix, 0));
    assert!(!scheme.too_old(&suffix, 2));
    assert!(scheme.too_old(&suffix, 3));
    assert!(scheme.too_old(&suffix, 4));
}

#[test]
fn timestamp_same_tick_collisions() {
    let first = rotation_suffix("20220201T101010".to_string(), None);
    assert_eq!(first.timestamp, "20220201T101010".to_string());
    assert_eq!(first.number, None);

    let second = rotation_suffix("20220201T101010".to_string(), Some(&first));
    assert_eq!(second.timestamp, "20220201T101010".to_string());
    assert_eq!(second.number, Some(1));

    let third = rotation_suffix("20220201T101010".to_string(), Some(&second));
    assert_eq!(third.timestamp, "20220201T101010".to_string());
    assert_eq!(third.number, Some(2));

    let fresh = rotation_suffix("20220201T101011".to_string(), Some(&third));
    assert_eq!(fresh.number, None);
}

#[test]
fn timestamp_rotate_rejects_rotated_file() {
    let mut scheme = AppendTimestamp::default(FileLimit::Unlimited);
    let occupied = TimestampSuffix {
        timestamp: "20220201T101010".to_string(),
        number: None,
    };
    let r = scheme.rotate_file("log", None, &Some(occupied));
    assert_eq!(r, Err(SuffixError::AlreadyRotated));
}

#[test]
fn timestamp_rotate_live_file() {
    let mut scheme = AppendTimestamp::default(FileLimit::Unlimited);
    let suffix = scheme.rotate_file("log", None, &None).unwrap();
    assert_eq!(suffix.number, None);
    // "%Y%m%dT%H%M%S" renders to 15 characters for any current date.
    assert_eq!(suffix.timestamp.len(), 15);
}

#[test]
fn scan_mixed_directory() {
    let scheme = AppendCount::new(4);
    let names: Vec<String> = vec![
        "file".to_string(),
        "file.1".to_string(),
        "file.2.gz".to_string(),
        "otherfile.1".to_string(),
    ];
    let infos = scan_suffixes(&scheme, "file", &names);
    assert_eq!(infos.len(), 2);
    assert_eq!(infos[0].suffix, 1);
    assert!(!infos[0].compressed);
    assert_eq!(infos[1].suffix, 2);
    assert!(infos[1].compressed);
}

#[test]
fn age_based_too_old() {
    // Format "%Y-%m-%d", age limit 7 days, current date 2024-01-10: the
    // cutoff renders as "2024-01-03".
    let old_suffix = TimestampSuffix {
        timestamp: "2024-01-01".to_string(),
        number: None,
    };
    let recent_suffix = TimestampSuffix {
        timestamp: "2024-01-05".to_string(),
        number: None,
    };
    assert!(too_old_with_cutoff(&old_suffix, "2024-01-03"));
    assert!(!too_old_with_cutoff(&recent_suffix, "2024-01-03"));
}

#[test]
fn parse_validates_against_format() {
    let scheme = AppendTimestamp::with_format("%Y%m%dT%H%M%S", FileLimit::Unlimited, DateFrom::Now);
    let parsed = scheme.parse("20220201T101010").unwrap();
    assert_eq!(parsed.timestamp, "20220201T101010".to_string());
    assert_eq!(parsed.number, None);
    assert!(scheme.parse("2022-02-02").is_none());
    assert!(scheme.parse("20220201T999999").is_none());
    let counted = scheme.parse("20220201T101010.7").unwrap();
    assert_eq!(counted.timestamp, "20220201T101010".to_string());
    assert_eq!(counted.number, Some(7));
    assert!(scheme.parse("20220201T101010.x").is_none());
}

#[test]
fn timestamp_display_and_path() {
    let plain = TimestampSuffix {
        timestamp: "2021".to_string(),
        number: None,
    };
    assert_eq!(plain.to_display(), "2021".to_string());
    let counted = TimestampSuffix {
        timestamp: "2021".to_string(),
        number: Some(3),
    };
    assert_eq!(counted.to_display(), "2021.3".to_string());
    assert_eq!(counted.to_path("logs/log"), "logs/log.2021.3".to_string());
    let one: usize = 1;
    assert_eq!(one.to_path("log"), "log.1".to_string());
}
