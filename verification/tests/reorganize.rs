use photo_clusters::extract_filepath_location::{
    hemisphere_sign, is_accepted_extension, is_candidate, is_image, latitude_sign, longitude_sign,
};
use photo_clusters::reorganize::{
    calculate_hash, cluster_name, date_span, extract_date_time, filing_order, folder_name,
    new_file_name, plan_cluster, reorganize_single_cluster, to_string_date_time, ClusterPlan,
    MyDateTime,
};
use photo_clusters::static_assets::{get_assets, FileContent, WebPath};
use photo_clusters::types::{Cluster, Filepath};

fn date(year: u16, month: u8, day: u8) -> MyDateTime {
    MyDateTime { year, month, day, hour: 0, minute: 0, second: 0 }
}

fn moment(day: u8, hour: u8, minute: u8, second: u8) -> MyDateTime {
    MyDateTime { year: 2020, month: 6, day, hour, minute, second }
}

#[test]
fn date_is_written_with_leading_zeros() {
    assert_eq!(to_string_date_time(&date(2023, 4, 5)), "2023-04-05");
    assert_eq!(to_string_date_time(&date(987, 12, 31)), "0987-12-31");
    assert_eq!(to_string_date_time(&date(0, 0, 0)), "0000-00-00");
}

#[test]
fn date_parts_wider_than_their_field_are_written_in_full() {
    assert_eq!(to_string_date_time(&date(65535, 255, 100)), "65535-255-100");
}

#[test]
fn span_is_the_earliest_and_latest_known_date() {
    assert_eq!(date_span(&Vec::new()), None);
    assert_eq!(date_span(&vec![None, None]), None);
    let only = moment(3, 1, 2, 3);
    assert_eq!(date_span(&vec![None, Some(only), None]), Some((only, only)));
    let dates = vec![
        Some(moment(3, 10, 0, 0)),
        None,
        Some(moment(2, 23, 59, 59)),
        Some(moment(3, 10, 0, 1)),
        Some(moment(3, 9, 59, 59)),
    ];
    assert_eq!(date_span(&dates), Some((moment(2, 23, 59, 59), moment(3, 10, 0, 1))));
    let years = vec![Some(date(2021, 1, 1)), Some(date(2019, 12, 31)), Some(date(2020, 6, 15))];
    assert_eq!(date_span(&years), Some((date(2019, 12, 31), date(2021, 1, 1))));
}

#[test]
fn cluster_is_named_by_its_dates() {
    assert_eq!(cluster_name(None), "unknown");
    assert_eq!(cluster_name(Some((date(2020, 1, 2), date(2020, 1, 2)))), "2020-01-02");
    assert_eq!(
        cluster_name(Some((date(2020, 1, 2), date(2021, 11, 30)))),
        "2020-01-02_2021-11-30"
    );
    // Two moments of one day are two moments.
    assert_eq!(
        cluster_name(Some((moment(1, 0, 0, 0), moment(1, 0, 0, 1)))),
        "2020-06-01_2020-06-01"
    );
}

#[test]
fn folder_is_named_with_the_digest_in_hexadecimal() {
    assert_eq!(folder_name("unknown".to_string(), 42), "unknown__00002a");
    assert_eq!(folder_name("2020-01-02".to_string(), 0), "2020-01-02__000000");
    assert_eq!(folder_name("x".to_string(), 0xabcdef), "x__abcdef");
    assert_eq!(folder_name(String::new(), u64::MAX), "__ffffffffffffffff");
    assert_eq!(folder_name("x".to_string(), 0x1234567), "x__1234567");
}

#[test]
fn file_is_named_by_its_place_and_extension() {
    assert_eq!(new_file_name(0, "jpg"), "0.jpg");
    assert_eq!(new_file_name(10, "JPG"), "10.JPG");
    assert_eq!(new_file_name(1234567890, ""), "1234567890.");
    assert_eq!(new_file_name(usize::MAX, "x"), format!("{}.x", usize::MAX));
}

#[test]
fn files_are_filed_by_date_undated_first() {
    assert_eq!(filing_order(&Vec::new()), Vec::<usize>::new());
    let dates = vec![
        Some(moment(3, 0, 0, 0)),
        None,
        Some(moment(1, 0, 0, 0)),
        None,
        Some(moment(2, 0, 0, 0)),
    ];
    assert_eq!(filing_order(&dates), vec![1, 3, 2, 4, 0]);
}

#[test]
fn files_of_one_date_keep_their_order() {
    let same = Some(moment(1, 12, 0, 0));
    let dates = vec![same, Some(moment(1, 11, 59, 59)), same, same, Some(moment(1, 12, 0, 1)), same];
    assert_eq!(filing_order(&dates), vec![1, 0, 2, 3, 5, 4]);
}

#[test]
fn filing_order_agrees_with_a_stable_sort() {
    let dates: Vec<Option<MyDateTime>> = (0..40u32)
        .map(|i| {
            let x = (i * 7919 + 13) % 17;
            if x % 5 == 0 {
                None
            } else {
                Some(MyDateTime {
                    year: 2000 + (x % 3) as u16,
                    month: (x % 2) as u8 + 1,
                    day: (x % 4) as u8 + 1,
                    hour: (x % 2) as u8,
                    minute: 0,
                    second: (x % 3) as u8,
                })
            }
        })
        .collect();
    let mut expected: Vec<usize> = (0..dates.len()).collect();
    expected.sort_by(|a, b| dates[*a].cmp(&dates[*b]));
    assert_eq!(filing_order(&dates), expected);
}

#[test]
fn plan_names_folder_and_files() {
    let dates = vec![Some(date(2021, 5, 6)), None, Some(date(2020, 1, 2))];
    let extensions = vec!["jpg".to_string(), "PNG".to_string(), "heic".to_string()];
    assert_eq!(
        plan_cluster(&dates, &extensions, 0xbeef),
        ClusterPlan {
            folder_name: "2020-01-02_2021-05-06__00beef".to_string(),
            moves: vec![
                (1, "0.PNG".to_string()),
                (2, "1.heic".to_string()),
                (0, "2.jpg".to_string()),
            ],
        }
    );
    assert_eq!(
        plan_cluster(&Vec::new(), &Vec::new(), 1),
        ClusterPlan { folder_name: "unknown__000001".to_string(), moves: Vec::new() }
    );
}

#[test]
fn cluster_is_planned_with_its_own_digest_and_extensions() {
    let cluster = Cluster(vec![
        Filepath("/photos/a/IMG_1.JPG".to_string()),
        Filepath("/photos/b/img.2.heic".to_string()),
    ]);
    let dates = vec![Some(date(2022, 2, 2)), Some(date(2022, 2, 1))];
    let plan = reorganize_single_cluster(&cluster, &dates).unwrap();
    let digest = calculate_hash(&cluster);
    assert_eq!(plan.folder_name, format!("2022-02-01_2022-02-02__{:06x}", digest));
    assert_eq!(plan.moves, vec![(1, "0.heic".to_string()), (0, "1.JPG".to_string())]);
}

#[test]
fn cluster_with_a_file_without_extension_is_not_planned() {
    let cluster =
        Cluster(vec![Filepath("/photos/a.jpg".to_string()), Filepath("/photos/b".to_string())]);
    assert_eq!(reorganize_single_cluster(&cluster, &vec![None, None]), None);
}

#[test]
fn digest_depends_on_the_value_alone() {
    let one = Cluster(vec![Filepath("a".to_string()), Filepath("b".to_string())]);
    let same = Cluster(vec![Filepath("a".to_string()), Filepath("b".to_string())]);
    let other = Cluster(vec![Filepath("b".to_string()), Filepath("a".to_string())]);
    assert_eq!(calculate_hash(&one), calculate_hash(&same));
    assert_eq!(calculate_hash(&one), calculate_hash(&&one));
    assert_ne!(calculate_hash(&one), calculate_hash(&other));
}

#[test]
fn assets_are_paired_with_their_text() {
    assert_eq!(get_assets(&Vec::new()), Vec::new());
    let files = vec![
        ("index.html".to_string(), b"<html></html>".to_vec()),
        ("static/app.js".to_string(), "let s = \"gr\u{fc}\u{df}e \u{1f4f7}\";".as_bytes().to_vec()),
        ("empty.css".to_string(), Vec::new()),
    ];
    assert_eq!(
        get_assets(&files),
        vec![
            (WebPath("index.html".to_string()), FileContent("<html></html>".to_string())),
            (
                WebPath("static/app.js".to_string()),
                FileContent("let s = \"gr\u{fc}\u{df}e \u{1f4f7}\";".to_string())
            ),
            (WebPath("empty.css".to_string()), FileContent(String::new())),
        ]
    );
}

#[test]
fn photograph_extensions_are_accepted_in_any_case() {
    for ext in ["jpg", "jpeg", "heif", "heic", "tiff", "png", "raw"] {
        assert!(is_accepted_extension(&ext.to_string()));
        assert!(is_image(ext));
        assert!(is_image(&ext.to_uppercase()));
    }
    assert!(is_image("JpEg"));
    for ext in ["", "gif", "jpg ", "jp", "jpgx", "tif", "mp4"] {
        assert!(!is_accepted_extension(&ext.to_string()));
        assert!(!is_image(ext));
    }
    assert!(!is_accepted_extension(&"JPG".to_string()));
}

#[test]
fn entries_with_a_photograph_extension_that_are_no_file_are_skipped() {
    assert!(is_candidate(true, true));
    assert!(is_candidate(true, false));
    assert!(is_candidate(false, false));
    assert!(!is_candidate(false, true));
}

#[test]
fn hemisphere_letters_give_the_sign() {
    assert_eq!(latitude_sign(b'N'), Some(1));
    assert_eq!(latitude_sign(b'n'), Some(1));
    assert_eq!(latitude_sign(b'S'), Some(-1));
    assert_eq!(latitude_sign(b's'), Some(-1));
    assert_eq!(latitude_sign(b'E'), None);
    assert_eq!(latitude_sign(0), None);
    assert_eq!(longitude_sign(b'E'), Some(1));
    assert_eq!(longitude_sign(b'e'), Some(1));
    assert_eq!(longitude_sign(b'W'), Some(-1));
    assert_eq!(longitude_sign(b'w'), Some(-1));
    assert_eq!(longitude_sign(b'N'), None);
    assert_eq!(longitude_sign(b'W' + 64), None);
    assert_eq!(hemisphere_sign(b'x', b'X', b'Y'), Some(1));
    assert_eq!(hemisphere_sign(b'Y', b'X', b'Y'), Some(-1));
    assert_eq!(hemisphere_sign(b'{', b'[', b'Y'), None);
}

#[test]
fn date_taken_is_read_from_the_first_line() {
    let taken = MyDateTime { year: 2016, month: 5, day: 4, hour: 3, minute: 2, second: 1 };
    assert_eq!(extract_date_time(&vec![b"2016:05:04 03:02:01".to_vec()]), Some(taken));
    assert_eq!(
        extract_date_time(&vec![b"2016:05:04 03:02:01".to_vec(), b"1999:01:01 00:00:00".to_vec()]),
        Some(taken)
    );
    assert_eq!(
        extract_date_time(&vec![b"garbage".to_vec(), b"2016:05:04 03:02:01".to_vec()]),
        None
    );
    assert_eq!(extract_date_time(&Vec::new()), None);
}

#[test]
fn date_taken_is_not_checked_for_range_and_may_be_followed_by_anything() {
    assert_eq!(
        extract_date_time(&vec![b"9999:13:32 25:61:99\0+01:00".to_vec()]),
        Some(MyDateTime { year: 9999, month: 13, day: 32, hour: 25, minute: 61, second: 99 })
    );
    assert_eq!(
        extract_date_time(&vec![b"0000:00:00 00:00:00".to_vec()]),
        Some(MyDateTime { year: 0, month: 0, day: 0, hour: 0, minute: 0, second: 0 })
    );
}

#[test]
fn malformed_date_taken_is_no_date() {
    for line in [
        &b""[..],
        b"2016:05:04 03:02:0",
        b"2016-05-04 03:02:01",
        b"2016:05:04T03:02:01",
        b"2016:05:04 03.02:01",
        b"2016:05:04 03:02.01",
        b"2016:05-04 03:02:01",
        b"201a:05:04 03:02:01",
        b"2016:05:04 03:02:0x",
        b"2016: 5:04 03:02:01",
        b"+016:05:04 03:02:01",
        b"    :  :     :  :  ",
        b"                   ",
    ] {
        assert_eq!(extract_date_time(&vec![line.to_vec()]), None, "{:?}", line);
    }
}
