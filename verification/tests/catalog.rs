use episode_check::api::{api_url, check_api, find_air_date, Episode};
use episode_check::date::{deserialize_date, AirDate};
use episode_check::error::Error;
use episode_check::show::Show;

fn day(year: i32, month: u8, day: u8) -> AirDate {
    AirDate { year, month, day }
}

fn episode(season: u16, number: u8, date: AirDate) -> Episode {
    Episode { date, season, number }
}

fn show(season: u16, number: u8) -> Show {
    Show { name: "Show".to_string(), path: "/tv/Show".to_string(), season, number }
}

fn catalog() -> Vec<Episode> {
    vec![
        episode(1, 1, day(2020, 1, 1)),
        episode(1, 2, day(2020, 1, 8)),
        episode(2, 1, day(2020, 6, 1)),
        episode(2, 2, day(2020, 6, 8)),
    ]
}

#[test]
fn new_episodes_after_the_local_one() {
    let found = check_api(&show(2, 1), &catalog(), day(2020, 6, 10)).expect("the baseline is listed");
    assert_eq!(found, vec![episode(2, 2, day(2020, 6, 8))]);
}

#[test]
fn missing_baseline_is_not_found() {
    match check_api(&show(3, 1), &catalog(), day(2020, 6, 10)) {
        Err(Error::NotFound(3, 1)) => {},
        other => panic!("{other:?}"),
    }
    match check_api(&show(1, 1), &Vec::new(), day(2020, 6, 10)) {
        Err(Error::NotFound(1, 1)) => {},
        other => panic!("{other:?}"),
    }
}

#[test]
fn nothing_new_is_an_empty_report() {
    let found = check_api(&show(2, 2), &catalog(), day(2020, 6, 10)).expect("the baseline is listed");
    assert!(found.is_empty());
}

#[test]
fn cutoff_is_exclusive() {
    let found = check_api(&show(1, 1), &catalog(), day(2020, 6, 8)).expect("the baseline is listed");
    assert_eq!(found, vec![episode(1, 2, day(2020, 1, 8)), episode(2, 1, day(2020, 6, 1))]);
    let found = check_api(&show(1, 1), &catalog(), day(2020, 6, 9)).expect("the baseline is listed");
    assert_eq!(found.len(), 3);
    let found = check_api(&show(1, 1), &catalog(), day(2020, 1, 8)).expect("the baseline is listed");
    assert!(found.is_empty());
}

#[test]
fn baseline_is_exclusive() {
    let listed = vec![
        episode(1, 1, day(2020, 1, 1)),
        episode(1, 2, day(2020, 1, 1)),
        episode(1, 3, day(2020, 1, 2)),
    ];
    let found = check_api(&show(1, 1), &listed, day(2021, 1, 1)).expect("the baseline is listed");
    assert_eq!(found, vec![episode(1, 3, day(2020, 1, 2))]);
}

#[test]
fn report_is_in_order_of_date_season_and_number() {
    let listed = vec![
        episode(3, 2, day(2021, 3, 1)),
        episode(1, 1, day(2019, 1, 1)),
        episode(2, 9, day(2020, 5, 5)),
        episode(3, 1, day(2021, 3, 1)),
        episode(2, 8, day(2020, 5, 5)),
        episode(1, 7, day(2020, 5, 5)),
        episode(2, 1, day(2019, 12, 31)),
        episode(0, 1, day(2018, 1, 1)),
    ];
    let found = check_api(&show(1, 1), &listed, day(2022, 1, 1)).expect("the baseline is listed");
    assert_eq!(
        found,
        vec![
            episode(2, 1, day(2019, 12, 31)),
            episode(1, 7, day(2020, 5, 5)),
            episode(2, 8, day(2020, 5, 5)),
            episode(2, 9, day(2020, 5, 5)),
            episode(3, 1, day(2021, 3, 1)),
            episode(3, 2, day(2021, 3, 1)),
        ]
    );
}

#[test]
fn entries_before_the_baseline_in_the_listing_count_too() {
    let listed = vec![
        episode(1, 3, day(2020, 1, 15)),
        episode(1, 1, day(2020, 1, 1)),
        episode(1, 2, day(2020, 1, 8)),
    ];
    let found = check_api(&show(1, 1), &listed, day(2020, 2, 1)).expect("the baseline is listed");
    assert_eq!(found, vec![episode(1, 2, day(2020, 1, 8)), episode(1, 3, day(2020, 1, 15))]);
}

#[test]
fn own_episode_listed_twice_is_never_new() {
    let listed = vec![
        episode(1, 1, day(2020, 1, 1)),
        episode(1, 1, day(2020, 3, 1)),
        episode(1, 2, day(2020, 2, 1)),
    ];
    let found = check_api(&show(1, 1), &listed, day(2021, 1, 1)).expect("the baseline is listed");
    assert_eq!(found, vec![episode(1, 2, day(2020, 2, 1))]);
}

#[test]
fn episodes_without_air_date_are_never_new() {
    let listed = vec![
        episode(1, 1, day(2020, 1, 1)),
        episode(1, 2, AirDate::earliest()),
        episode(1, 3, day(2020, 1, 15)),
    ];
    let found = check_api(&show(1, 1), &listed, day(2021, 1, 1)).expect("the baseline is listed");
    assert_eq!(found, vec![episode(1, 3, day(2020, 1, 15))]);
}

#[test]
fn selection_is_the_window_between_baseline_and_cutoff() {
    let mut listed = Vec::new();
    for month in 1..=12u8 {
        for number in 1..=3u8 {
            listed.push(episode(1, (month - 1) * 3 + number, day(2020, month, number * 9)));
        }
    }
    let local = show(1, 10);
    let baseline = day(2020, 4, 9);
    let cutoff = day(2020, 9, 18);
    let found = check_api(&local, &listed, cutoff).expect("the baseline is listed");
    for e in &listed {
        let expected = baseline.is_before(&e.date) && e.date.is_before(&cutoff) && (e.season, e.number) != (1, 10);
        assert_eq!(found.contains(e), expected, "{e:?}");
    }
    assert_eq!(found.len(), 15);
}

#[test]
fn air_date_of_the_first_match() {
    let listed = vec![
        episode(1, 1, day(2020, 1, 1)),
        episode(1, 2, day(2020, 1, 8)),
        episode(1, 2, day(2022, 2, 2)),
    ];
    assert_eq!(find_air_date(&listed, 1, 2), Some(day(2020, 1, 8)));
    assert_eq!(find_air_date(&listed, 2, 1), None);
}

#[test]
fn dates_are_ordered_by_year_month_and_day() {
    assert!(day(2019, 12, 31).is_before(&day(2020, 1, 1)));
    assert!(day(2020, 1, 31).is_before(&day(2020, 2, 1)));
    assert!(day(2020, 2, 1).is_before(&day(2020, 2, 2)));
    assert!(!day(2020, 2, 2).is_before(&day(2020, 2, 2)));
    assert!(!day(2020, 2, 2).is_before(&day(2020, 1, 31)));
    assert!(day(-5, 1, 1).is_before(&day(3, 1, 1)));
    assert!(AirDate::earliest().is_before(&day(-9999, 1, 2)));
    assert_eq!(AirDate::earliest(), day(-9999, 1, 1));
}

#[test]
fn date_is_read_from_text() {
    assert_eq!(deserialize_date("2020-06-08").ok(), Some(day(2020, 6, 8)));
    assert_eq!(deserialize_date("1999-12-31").ok(), Some(day(1999, 12, 31)));
    assert_eq!(deserialize_date("2024-02-29").ok(), Some(day(2024, 2, 29)));
}

#[test]
fn empty_date_is_the_earliest() {
    assert_eq!(deserialize_date("").ok(), Some(AirDate::earliest()));
    assert_eq!(deserialize_date("").ok(), Some(day(-9999, 1, 1)));
}

#[test]
fn text_that_is_no_date_is_refused() {
    for text in ["tomorrow", "2020-13-01", "2023-02-29", "2020-06", "2020-06-08T10:00", " ", "08.06.2020"] {
        match deserialize_date(text) {
            Err(Error::Parse) => {},
            other => panic!("{text:?} gave {other:?}"),
        }
    }
}

#[test]
fn earliest_date_agrees_with_the_time_crate() {
    let min = time::Date::MIN;
    assert_eq!(AirDate::earliest(), day(min.year(), u8::from(min.month()), min.day()));
}

#[test]
fn address_holds_the_encoded_name() {
    assert_eq!(api_url("Show"), "https://api.tvmaze.com/singlesearch/shows?q=Show&embed=episodes");
    assert_eq!(
        api_url("The Wire"),
        "https://api.tvmaze.com/singlesearch/shows?q=The%20Wire&embed=episodes"
    );
    assert_eq!(
        api_url("Law & Order: SVU"),
        "https://api.tvmaze.com/singlesearch/shows?q=Law%20%26%20Order%3A%20SVU&embed=episodes"
    );
    assert_eq!(
        api_url("Füchse_a-b.c~"),
        "https://api.tvmaze.com/singlesearch/shows?q=F%C3%BCchse_a-b.c~&embed=episodes"
    );
    assert_eq!(api_url(""), "https://api.tvmaze.com/singlesearch/shows?q=&embed=episodes");
}

#[test]
fn valid_dates_are_made() {
    assert_eq!(AirDate::new(2020, 6, 8), Some(day(2020, 6, 8)));
    assert_eq!(AirDate::new(2020, 12, 31), Some(day(2020, 12, 31)));
    assert_eq!(AirDate::new(-9999, 1, 1), Some(AirDate::earliest()));
    assert_eq!(AirDate::new(99999, 1, 1), Some(day(99999, 1, 1)));
}

#[test]
fn dates_that_are_not_valid_are_refused() {
    assert_eq!(AirDate::new(2020, 0, 1), None);
    assert_eq!(AirDate::new(2020, 13, 1), None);
    assert_eq!(AirDate::new(2020, 1, 0), None);
    assert_eq!(AirDate::new(2020, 1, 32), None);
    assert_eq!(AirDate::new(-10000, 12, 31), None);
    assert_eq!(AirDate::new(i32::MIN, 1, 1), None);
}

#[test]
fn no_valid_date_lies_before_the_earliest() {
    for (year, month, number) in [(-9999, 1, 1), (-9999, 1, 2), (-9998, 1, 1), (0, 6, 15), (2020, 12, 31)] {
        let date = AirDate::new(year, month, number).expect("the date is valid");
        assert!(!date.is_before(&AirDate::earliest()));
    }
}

#[test]
fn undated_episodes_are_never_new_whatever_the_baseline() {
    for baseline in [AirDate::earliest(), day(-9999, 1, 2), day(1, 1, 1), day(2020, 1, 1)] {
        let listed = vec![
            episode(1, 1, baseline),
            episode(1, 2, AirDate::earliest()),
            episode(1, 3, day(2030, 1, 1)),
        ];
        let found = check_api(&show(1, 1), &listed, day(2040, 1, 1)).expect("the baseline is listed");
        assert_eq!(found, vec![episode(1, 3, day(2030, 1, 1))]);
    }
}
