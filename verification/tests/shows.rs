use episode_check::error::Error;
use episode_check::show::Show;

fn show_at(path: &str) -> Show {
    Show::new(path.to_string()).expect("the path has a base name")
}

#[test]
fn new_show_takes_its_name_from_the_path() {
    let show = show_at("/media/tv/Dark Matter");
    assert_eq!(show.name, "Dark Matter");
    assert_eq!(show.path, "/media/tv/Dark Matter");
    assert_eq!(show.season, 0);
    assert_eq!(show.number, 0);
    assert!(!show.is_valid());
}

#[test]
fn new_show_of_a_path_without_base_name() {
    for path in ["", "/", "//", ".", "./", "/.", "..", "a/..", "/..", "a/b/../"] {
        match Show::new(path.to_string()) {
            Err(Error::InvalidFile(refused)) => assert_eq!(refused, path),
            other => panic!("{path:?} gave {other:?}"),
        }
    }
}

#[test]
fn file_name_of_a_path() {
    let name = |path: &str| Show::path_to_file_name(path).ok();
    assert_eq!(name("tmp/foo.txt"), Some("foo.txt".to_string()));
    assert_eq!(name("/usr/bin/"), Some("bin".to_string()));
    assert_eq!(name("foo.txt/."), Some("foo.txt".to_string()));
    assert_eq!(name("foo.txt/.//"), Some("foo.txt".to_string()));
    assert_eq!(name("./a"), Some("a".to_string()));
    assert_eq!(name("a"), Some("a".to_string()));
    assert_eq!(name("..."), Some("...".to_string()));
    assert_eq!(name("a/.b"), Some(".b".to_string()));
    assert_eq!(name("a/b.."), Some("b..".to_string()));
    assert_eq!(name("/Serien/Füchse"), Some("Füchse".to_string()));
    assert_eq!(name("foo.txt/.."), None);
    assert_eq!(name("/"), None);
    assert_eq!(name(""), None);
}

#[test]
fn file_name_agrees_with_the_standard_library() {
    for path in [
        "", "/", ".", "..", "a", "a/", "a//", "a/.", "a/./", "a/..", "./a", "../a", "/a/b", "a/b/.",
        "a/b/./.", "a/./b", "a/../b", ".a", "a.", "..a", "a..", "/.", "/..", "//a//", "...",
    ] {
        let expected = std::path::Path::new(path)
            .file_name()
            .and_then(|name| name.to_str())
            .map(String::from);
        assert_eq!(Show::path_to_file_name(path).ok(), expected, "for {path:?}");
    }
}

#[test]
fn update_keeps_the_latest_episode() {
    let mut show = show_at("Show");
    for file in ["Show/ShowS01E01.mkv", "Show/ShowS01E09.mkv", "Show/ShowS02E01.mkv"] {
        assert!(show.update(file).is_ok());
    }
    assert_eq!((show.season, show.number), (2, 1));
    assert!(show.is_valid());
}

#[test]
fn update_compares_season_before_number() {
    let mut show = show_at("Show");
    assert!(show.update("S02E01.mkv").is_ok());
    assert!(show.update("S01E09.mkv").is_ok());
    assert_eq!((show.season, show.number), (2, 1));
}

#[test]
fn update_does_not_depend_on_the_order() {
    let files = ["S01E09.mkv", "S03E02.mkv", "cover.jpg", "S03E01.mkv", "S02E12.mkv"];
    let orders: [[usize; 5]; 4] = [[0, 1, 2, 3, 4], [4, 3, 2, 1, 0], [1, 0, 3, 2, 4], [2, 4, 0, 3, 1]];
    for order in orders {
        let mut show = show_at("Show");
        for at in order {
            assert!(show.update(files[at]).is_ok());
        }
        assert_eq!((show.season, show.number), (3, 2));
    }
}

#[test]
fn update_ignores_files_without_marker() {
    let mut show = show_at("Show");
    assert!(show.update("Show/readme.txt").is_ok());
    assert!(show.update("").is_ok());
    assert!(show.update("/").is_ok());
    assert!(show.update("S01E01/..").is_ok());
    assert_eq!((show.season, show.number), (0, 0));
    assert!(!show.is_valid());
    assert_eq!(show.name, "Show");
    assert_eq!(show.path, "Show");
}

#[test]
fn update_reads_the_base_name_only() {
    let mut show = show_at("Show");
    assert!(show.update("S05E05/extras.mkv").is_ok());
    assert_eq!((show.season, show.number), (0, 0));
    assert!(show.update("S05E05/S01E02.mkv").is_ok());
    assert_eq!((show.season, show.number), (1, 2));
}

#[test]
fn show_needs_season_and_number_to_be_valid() {
    let mut show = show_at("Show");
    assert!(show.update("S00E05.mkv").is_ok());
    assert_eq!((show.season, show.number), (0, 5));
    assert!(!show.is_valid());
    let mut show = show_at("Show");
    assert!(show.update("S03E00.mkv").is_ok());
    assert_eq!((show.season, show.number), (3, 0));
    assert!(!show.is_valid());
    assert!(show.update("S03E01.mkv").is_ok());
    assert!(show.is_valid());
}

#[test]
fn messages_of_the_errors() {
    assert_eq!(Error::Io("denied".to_string()).message(), "i/o error: denied");
    assert_eq!(Error::Parse.message(), "error parsing input");
    assert_eq!(Error::WrongJSON("eof".to_string()).message(), "wrong JSON data: eof");
    assert_eq!(Error::CannotLoad.message(), "cannot load show from the API");
    assert_eq!(Error::invalid_file("/").message(), "invalid file /");
    assert_eq!(Error::NotFound(3, 1).message(), "episode S03E01 not found");
    assert_eq!(Error::NotFound(2020, 117).message(), "episode S2020E117 not found");
}

#[test]
fn only_a_listing_failure_is_fatal() {
    assert!(Error::Io("denied".to_string()).is_fatal());
    assert!(!Error::Parse.is_fatal());
    assert!(!Error::WrongJSON("eof".to_string()).is_fatal());
    assert!(!Error::CannotLoad.is_fatal());
    assert!(!Error::invalid_file("/").is_fatal());
    assert!(!Error::NotFound(3, 1).is_fatal());
}
