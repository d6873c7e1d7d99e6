//! Row-interpretation scenarios of the table scraper.

use metal_calendar::calendar::{Calendar, Month, Release};
use metal_calendar::wiki::{extract_calendar, process_table, WikiDoc, WikiTable};

fn row(cells: &[&str]) -> Vec<String> {
    cells.iter().map(|c| String::from(*c)).collect()
}

#[test]
fn malformed_day_keeps_prior_day() {
    let mut c = Calendar::new(2024);
    let rows = vec![
        row(&["15", "Grave Digger", "Bone Collector"]),
        row(&["oops", "Tokyo Blade", "Time Is the Fire"]),
    ];
    process_table(&rows, &mut c, Month::October);
    let got = c.get_releases(Month::October, 15).unwrap();
    assert_eq!(
        got,
        &vec![
            Release::new("Grave Digger", "Bone Collector"),
            Release::new("Tokyo Blade", "Time Is the Fire"),
        ]
    );
}

#[test]
fn header_row_emits_nothing() {
    let mut c = Calendar::new(2024);
    let rows = vec![row(&["1", " Artist ", "Album"])];
    process_table(&rows, &mut c, Month::October);
    assert!(c.get_releases(Month::October, 1).is_none());
}

#[test]
fn header_row_still_moves_the_day() {
    let mut c = Calendar::new(2024);
    let rows = vec![row(&["5", "Artist", "Album"]), row(&["Stray Album"])];
    process_table(&rows, &mut c, Month::October);
    let got = c.get_releases(Month::October, 5).unwrap();
    assert_eq!(got, &vec![Release::new("Artist", "Stray Album")]);
}

#[test]
fn two_cell_row_starts_new_artist() {
    let mut c = Calendar::new(2024);
    let rows = vec![
        row(&["10", "Band A", "Album A"]),
        row(&[" Band B ", " Album B "]),
        row(&["Album C"]),
    ];
    process_table(&rows, &mut c, Month::March);
    let got = c.get_releases(Month::March, 10).unwrap();
    assert_eq!(
        got,
        &vec![
            Release::new("Band A", "Album A"),
            Release::new("Band B", "Album B"),
            Release::new("Band B", "Album C"),
        ]
    );
}

#[test]
fn other_cell_counts_ignored() {
    let mut c = Calendar::new(2024);
    let rows = vec![
        row(&["10", "Band A", "Album A"]),
        row(&["x", "y", "z", "w"]),
        row(&[]),
    ];
    process_table(&rows, &mut c, Month::March);
    let got = c.get_releases(Month::March, 10).unwrap();
    assert_eq!(got, &vec![Release::new("Band A", "Album A")]);
}

#[test]
fn end_to_end_wiki_scenario() {
    let table = WikiTable {
        month: Month::October,
        rows: vec![
            row(&["15", "Grave Digger", "Bone Collector"]),
            row(&["Another Album"]),
        ],
    };
    let doc = WikiDoc { tables: vec![table] };
    let c = extract_calendar(&doc, 2024);
    assert_eq!(c.year, 2024);
    let got = c.get_releases(Month::October, 15).unwrap();
    assert_eq!(
        got,
        &vec![
            Release::new("Grave Digger", "Bone Collector"),
            Release::new("Grave Digger", "Another Album"),
        ]
    );
}

#[test]
fn november_pair_continues_october() {
    let t1 = WikiTable {
        month: Month::November,
        rows: vec![row(&["31", "Band A", "Album A"])],
    };
    let t2 = WikiTable {
        month: Month::November,
        rows: vec![row(&["1", "Band B", "Album B"])],
    };
    let doc = WikiDoc { tables: vec![t1, t2] };
    let c = extract_calendar(&doc, 2024);
    assert_eq!(
        c.get_releases(Month::October, 31).unwrap(),
        &vec![Release::new("Band A", "Album A")]
    );
    assert_eq!(
        c.get_releases(Month::November, 1).unwrap(),
        &vec![Release::new("Band B", "Album B")]
    );
}

#[test]
fn two_tables_under_ordinary_month_skipped() {
    let t1 = WikiTable {
        month: Month::March,
        rows: vec![row(&["1", "A", "B"])],
    };
    let t2 = WikiTable {
        month: Month::March,
        rows: vec![row(&["2", "C", "D"])],
    };
    let c = extract_calendar(&WikiDoc { tables: vec![t1, t2] }, 2024);
    for d in 1..=31u8 {
        assert!(c.get_releases(Month::March, d).is_none());
    }
}

#[test]
fn table_state_resets_between_tables() {
    let t1 = WikiTable {
        month: Month::October,
        rows: vec![row(&["20", "Band A", "Album A"])],
    };
    let t2 = WikiTable {
        month: Month::December,
        rows: vec![row(&["Album D"])],
    };
    let c = extract_calendar(&WikiDoc { tables: vec![t1, t2] }, 2024);
    assert_eq!(
        c.get_releases(Month::December, 1).unwrap(),
        &vec![Release::new("", "Album D")]
    );
    assert!(c.get_releases(Month::December, 20).is_none());
}

struct FailingClient;

impl metal_calendar::client::Client for FailingClient {
    fn fetch_document(&self, _year: i32) -> Result<WikiDoc, metal_calendar::error::Error> {
        Err(metal_calendar::error::Error::RequestFail)
    }

    fn fetch_metallum(
        &self,
        _page: u16,
    ) -> Option<metal_calendar::metallum::MetallumReleases> {
        None
    }

    fn get_bandcamp_link(&self, _artist: &str) -> Option<String> {
        None
    }
}

#[test]
fn failed_fetch_surfaces_request_fail() {
    let got = metal_calendar::wiki::scrape(&FailingClient, 2024);
    assert!(matches!(got, Err(metal_calendar::error::Error::RequestFail)));
}

#[test]
fn duplicate_release_inserted_once() {
    let mut c = Calendar::new(2024);
    let rows = vec![
        row(&["3", "Band A", "Album A"]),
        row(&["3", "Band A", "Album A"]),
    ];
    process_table(&rows, &mut c, Month::May);
    let got = c.get_releases(Month::May, 3).unwrap();
    assert_eq!(got, &vec![Release::new("Band A", "Album A")]);
}
