use episode_check::show::Show;
use episode_check::error::Error;
use episode_check::order::{order_of_visit, text_precedes};
use episode_check::walker::{scan_dir, walk_dir, Entry, Listing};

fn file(path: &str) -> Entry {
    Entry::File(path.to_string())
}

fn dir(path: &str, entries: Vec<Entry>) -> Entry {
    Entry::Dir(path.to_string(), Listing::Read(entries))
}

fn unreadable(path: &str, reason: &str) -> Entry {
    Entry::Dir(path.to_string(), Listing::Failed(reason.to_string()))
}

fn walk(path: &str, entries: Vec<Entry>) -> Vec<Show> {
    let walked = walk_dir(path, &Listing::Read(entries));
    assert!(walked.failure.is_none());
    walked.shows
}

fn reason(failure: &Option<Error>) -> &str {
    match failure {
        Some(Error::Io(reason)) => reason,
        other => panic!("{other:?}"),
    }
}

fn summary(shows: &[Show]) -> Vec<(String, u16, u8)> {
    shows.iter().map(|show| (show.name.clone(), show.season, show.number)).collect()
}

fn chars(text: &str) -> Vec<char> {
    text.chars().collect()
}

#[test]
fn show_directory_reports_its_latest_episode() {
    let entries = vec![
        file("Show/ShowS01E01.mkv"),
        file("Show/ShowS01E09.mkv"),
        file("Show/ShowS02E01.mkv"),
    ];
    let shows = walk("Show", entries);
    assert_eq!(shows.len(), 1);
    assert_eq!(shows[0].name, "Show");
    assert_eq!(shows[0].path, "Show");
    assert_eq!((shows[0].season, shows[0].number), (2, 1));
}

#[test]
fn empty_directory_reports_nothing() {
    assert!(walk("Show", Vec::new()).is_empty());
    assert!(scan_dir("Show", &Vec::new()).is_none());
}

#[test]
fn directory_without_markers_reports_nothing() {
    let entries = vec![file("Photos/a.jpg"), file("Photos/b.jpg"), file("Photos/S1.txt")];
    assert!(walk("Photos", entries).is_empty());
}

#[test]
fn sibling_directories_are_reported_in_order() {
    let entries = vec![
        dir("lib/B", vec![file("lib/B/S01E01.mkv")]),
        dir("lib/A", vec![file("lib/A/S02E03.mkv")]),
    ];
    let shows = walk("lib", entries);
    assert_eq!(summary(&shows), vec![("A".to_string(), 2, 3), ("B".to_string(), 1, 1)]);
}

#[test]
fn a_directory_is_reported_before_those_in_it() {
    let entries = vec![
        dir(
            "lib/Show",
            vec![
                dir("lib/Show/Season 2", vec![file("lib/Show/Season 2/S02E04.mkv")]),
                file("lib/Show/S01E01.mkv"),
                dir("lib/Show/Extras", vec![file("lib/Show/Extras/S00E01.mkv")]),
                dir("lib/Show/Season 1", vec![file("lib/Show/Season 1/S01E07.mkv")]),
            ],
        ),
        file("lib/S09E09.mkv"),
        dir("lib/Another", vec![file("lib/Another/S03E03.mkv")]),
    ];
    let shows = walk("lib", entries);
    assert_eq!(
        summary(&shows),
        vec![
            ("lib".to_string(), 9, 9),
            ("Another".to_string(), 3, 3),
            ("Show".to_string(), 1, 1),
            ("Season 1".to_string(), 1, 7),
            ("Season 2".to_string(), 2, 4),
        ]
    );
}

#[test]
fn walk_goes_on_below_a_path_without_base_name() {
    let entries = vec![file("/S01E01.mkv"), dir("/Show", vec![file("/Show/S04E02.mkv")])];
    let shows = walk("/", entries);
    assert_eq!(summary(&shows), vec![("Show".to_string(), 4, 2)]);
}

#[test]
fn walk_passes_over_other_entries() {
    let entries = vec![
        Entry::Other("Show/S09E09.mkv".to_string()),
        file("Show/S01E02.mkv"),
        Entry::Other("Show/Linked".to_string()),
    ];
    let shows = walk("Show", entries);
    assert_eq!(summary(&shows), vec![("Show".to_string(), 1, 2)]);
}

#[test]
fn directories_do_not_count_as_files() {
    let entries = vec![dir("Show/S05E05", vec![]), file("Show/S01E02.mkv")];
    let shows = walk("Show", entries);
    assert_eq!(summary(&shows), vec![("Show".to_string(), 1, 2)]);
}

#[test]
fn walking_twice_gives_the_same_reports() {
    let listing = Listing::Read(vec![
        dir("lib/b", vec![file("lib/b/S01E01.mkv")]),
        dir("lib/C", vec![file("lib/C/S01E02.mkv")]),
        dir("lib/a", vec![file("lib/a/S01E03.mkv")]),
    ]);
    let first = summary(&walk_dir("lib", &listing).shows);
    let second = summary(&walk_dir("lib", &listing).shows);
    assert_eq!(first, second);
    assert_eq!(
        first,
        vec![("C".to_string(), 1, 2), ("a".to_string(), 1, 3), ("b".to_string(), 1, 1)]
    );
}

#[test]
fn order_of_visit_sorts_by_path() {
    let entries = vec![
        dir("x/pear", vec![]),
        file("x/apple"),
        dir("x/fig", vec![]),
        Entry::Other("x/date".to_string()),
        dir("x/pea", vec![]),
        dir("x/Zebra", vec![]),
        dir("x/fig", vec![]),
    ];
    assert_eq!(order_of_visit(&entries), vec![5, 2, 6, 4, 0]);
    assert_eq!(order_of_visit(&Vec::new()), Vec::<usize>::new());
}

#[test]
fn order_of_texts() {
    assert!(text_precedes(&chars(""), &chars("")));
    assert!(text_precedes(&chars(""), &chars("a")));
    assert!(!text_precedes(&chars("a"), &chars("")));
    assert!(text_precedes(&chars("a"), &chars("a")));
    assert!(text_precedes(&chars("a"), &chars("ab")));
    assert!(!text_precedes(&chars("ab"), &chars("a")));
    assert!(text_precedes(&chars("ab"), &chars("b")));
    assert!(text_precedes(&chars("B"), &chars("a")));
    assert!(!text_precedes(&chars("é"), &chars("z")));
}

#[test]
fn order_of_texts_agrees_with_the_standard_library() {
    let texts = ["", "a", "A", "ab", "b", "a/b", "a-b", "é", "z", "日本", "a b", "a0"];
    for a in texts {
        for b in texts {
            assert_eq!(text_precedes(&chars(a), &chars(b)), a <= b, "{a:?} and {b:?}");
        }
    }
}

#[test]
fn scan_reads_the_files_of_the_listing_only() {
    let entries = vec![
        dir("Show/Season 9", vec![file("Show/Season 9/S09E01.mkv")]),
        file("Show/S02E02.mkv"),
    ];
    let show = scan_dir("Show", &entries).expect("a file carries a marker");
    assert_eq!((show.season, show.number), (2, 2));
    assert!(scan_dir("", &entries).is_none());
}

#[test]
fn unreadable_directory_fails_the_walk() {
    let entries = vec![
        dir("lib/A", vec![file("lib/A/AS01E01.mkv")]),
        unreadable("lib/B", "permission denied"),
        dir("lib/C", vec![file("lib/C/S01E01.mkv")]),
    ];
    let walked = walk_dir("lib", &Listing::Read(entries));
    assert_eq!(reason(&walked.failure), "permission denied");
    assert_eq!(summary(&walked.shows), vec![("A".to_string(), 1, 1)]);
}

#[test]
fn unreadable_root_fails_the_walk() {
    let walked = walk_dir("lib", &Listing::Failed("no such directory".to_string()));
    assert_eq!(reason(&walked.failure), "no such directory");
    assert!(walked.shows.is_empty());
}

#[test]
fn walk_fails_with_the_first_unreadable_directory_on_its_way() {
    let entries = vec![
        unreadable("lib/z", "last"),
        dir(
            "lib/m",
            vec![
                dir("lib/m/b", vec![unreadable("lib/m/b/x", "deep")]),
                unreadable("lib/m/c", "behind"),
                dir("lib/m/a", vec![file("lib/m/a/S01E01.mkv")]),
            ],
        ),
        dir("lib/a", vec![]),
    ];
    let walked = walk_dir("lib", &Listing::Read(entries));
    assert_eq!(reason(&walked.failure), "deep");
    assert_eq!(summary(&walked.shows), vec![("a".to_string(), 1, 1)]);
}

#[test]
fn shows_met_before_the_failure_stay_reported() {
    let entries = vec![
        file("lib/S07E01.mkv"),
        dir("lib/d", vec![file("lib/d/S04E04.mkv")]),
        dir(
            "lib/b",
            vec![
                file("lib/b/S02E02.mkv"),
                dir("lib/b/y", vec![file("lib/b/y/S09E09.mkv")]),
                unreadable("lib/b/x", "denied"),
            ],
        ),
        dir("lib/a", vec![file("lib/a/S01E01.mkv")]),
        dir("lib/c", vec![file("lib/c/S03E03.mkv")]),
    ];
    let walked = walk_dir("lib", &Listing::Read(entries));
    assert_eq!(reason(&walked.failure), "denied");
    assert_eq!(
        summary(&walked.shows),
        vec![("lib".to_string(), 7, 1), ("a".to_string(), 1, 1), ("b".to_string(), 2, 2)]
    );
}

#[test]
fn unreadable_directory_is_no_show_itself() {
    let entries = vec![file("lib/S01E01.mkv"), unreadable("lib/S02E02", "denied")];
    let walked = walk_dir("lib", &Listing::Read(entries));
    assert_eq!(reason(&walked.failure), "denied");
    assert_eq!(summary(&walked.shows), vec![("lib".to_string(), 1, 1)]);
}

#[test]
fn unreadable_directories_take_part_in_the_order() {
    let entries = vec![dir("x/b", vec![]), unreadable("x/a", "denied"), file("x/c")];
    assert_eq!(order_of_visit(&entries), vec![1, 0]);
}
