// The table exercised with keys taken from parsed timestamps, the way
// date-indexed callers use it: a key is the second count since the
// epoch.

use timeseries::BtreeMapTrait;
use timeseries::IndexOrColumn;
use timeseries::Table;
use timeseries::TableTrait;

fn s(x: &str) -> String {
    String::from(x)
}

fn dtu(x: &str) -> u64 {
    chrono::DateTime::parse_from_rfc3339(x).unwrap().timestamp() as u64
}

fn new_table<'a>() -> Table<&'a str> {
    let now = chrono::Utc::now().timestamp() as u64;
    let headers = vec![s("h1"), s("h2")];
    let times = vec![dtu("2019-01-01T12:00:00Z"), now];
    let d = vec![vec!["Hark", "Bark"], vec!["Hans", "kaas"]];
    Table::new(headers, times, d).unwrap()
}

fn new_table_long<'a>() -> Table<&'a str> {
    let headers = vec![s("number"), s("text")];
    let times = vec![
        dtu("2019-01-01T12:00:00Z"),
        dtu("2019-01-02T12:00:00Z"),
        dtu("2019-01-03T12:00:00Z"),
        dtu("2019-01-04T12:00:00Z"),
        dtu("2019-01-05T12:00:00Z"),
        dtu("2019-01-06T12:00:00Z"),
        dtu("2019-01-07T12:00:00Z"),
        dtu("2019-01-08T12:00:00Z"),
        dtu("2019-01-09T12:00:00Z"),
        dtu("2019-01-10T12:00:00Z"),
        dtu("2019-01-11T12:00:00Z"),
        dtu("2019-01-12T12:00:00Z"),
        dtu("2019-01-13T12:00:00Z"),
    ];
    let d = vec![
        vec!["1", "Test01"],
        vec!["2", "Test02"],
        vec!["3", "Test03"],
        vec!["4", "Test04"],
        vec!["5", "Test05"],
        vec!["6", "Test06"],
        vec!["7", "Test07"],
        vec!["8", "Test08"],
        vec!["9", "Test09"],
        vec!["10", "Test10"],
        vec!["11", "Test11"],
        vec!["12", "Test12"],
        vec!["13", "Test13"],
    ];
    Table::new(headers, times, d).unwrap()
}

fn new_table_large<'a>() -> Table<&'a str> {
    let headers = vec![s("number"), s("text"), s("test"), s("data")];
    let times = vec![
        dtu("2019-01-01T12:00:00Z"),
        dtu("2019-01-02T12:00:00Z"),
        dtu("2019-01-03T12:00:00Z"),
        dtu("2019-01-04T12:00:00Z"),
        dtu("2019-01-05T12:00:00Z"),
        dtu("2019-01-06T12:00:00Z"),
    ];
    let d = vec![
        vec!["1", "Test01", "test", "abcd"],
        vec!["2", "Test02", "test", "efgh"],
        vec!["3", "Test03", "test", "ijkl"],
        vec!["4", "Test04", "test", "mnop"],
        vec!["5", "Test05", "test", "qrst"],
        vec!["6", "Test06", "test", "uvwx"],
    ];
    Table::new(headers, times, d).unwrap()
}

#[test]
fn chrono_structs_table_is_same_with_btreemap() {
    let now = chrono::Utc::now().timestamp() as u64;
    let headers = vec![s("h1"), s("h2")];
    let times = vec![dtu("2019-01-01T12:00:00Z"), now];
    let d = vec![vec!["Hark", "Bark"], vec!["Hans", "kaas"]];
    let t1 = Table::new(headers.clone(), times, d).unwrap();

    let keys = vec![dtu("2019-01-01T12:00:00Z"), now];
    let rows = vec![vec!["Hark", "Bark"], vec!["Hans", "kaas"]];
    let t2 = Table::new_btreemap(headers, keys, rows);

    assert_eq!(t1, t2);
}

#[test]
fn chrono_structs_table_btree_trait_iter() {
    let t1 = new_table();
    let date = dtu("2019-01-01T12:00:00Z");
    let entries = t1.iter();
    assert_eq!(entries[0].0, date);
    assert_eq!(entries[0].1, &vec!["Hark", "Bark"]);
}

#[test]
fn chrono_structs_table_btree_trait_get() {
    let t1 = new_table();
    let date = dtu("2019-01-01T12:00:00Z");
    let i1 = t1.get(date);
    assert_eq!(Some(&vec!["Hark", "Bark"]), i1);
}

#[test]
fn chrono_structs_table_btree_trait_get_mut() {
    let mut t1 = new_table();
    let date = dtu("2019-01-01T12:00:00Z");
    let i1 = t1.get_mut(date).unwrap();
    i1[0] = "Test";
    let i1 = t1.get(date);
    assert_eq!(Some(&vec!["Test", "Bark"]), i1);
}

#[test]
fn chrono_structs_table_btree_trait_values() {
    let t1 = new_table();
    let vs = t1.values();
    assert_eq!(&vec!["Hark", "Bark"], vs[0]);
    assert_eq!(&vec!["Hans", "kaas"], vs[1]);
}

#[test]
fn chrono_structs_table_btree_trait_range() {
    let t1 = new_table_long();
    let picked = t1.range(dtu("2019-01-03T12:00:00Z"), dtu("2019-01-05T12:00:00Z"));
    let expected = Table::new(
        vec![s("number"), s("text")],
        vec![dtu("2019-01-03T12:00:00Z"), dtu("2019-01-04T12:00:00Z")],
        vec![vec!["3", "Test03"], vec!["4", "Test04"]],
    )
    .unwrap();
    assert_eq!(picked.len(), 2);
    for (k, v) in picked {
        assert_eq!(Some(v), expected.get(k));
    }
}

#[test]
fn chrono_structs_table_btree_trait_slice_owned() {
    let t1 = new_table_long();
    let t2 = t1.slice_owned(dtu("2019-01-03T12:00:00Z"), dtu("2019-01-05T12:00:00Z"));
    let expected = Table::new(
        vec![s("number"), s("text")],
        vec![dtu("2019-01-03T12:00:00Z"), dtu("2019-01-04T12:00:00Z")],
        vec![vec!["3", "Test03"], vec!["4", "Test04"]],
    )
    .unwrap();
    assert_eq!(t2, expected);
}

#[test]
fn chrono_structs_table_btree_trait_slice_inplace() {
    let mut t1 = new_table_long();
    t1.slice_inplace(dtu("2019-01-03T12:00:00Z"), dtu("2019-01-05T12:00:00Z"));
    let expected = Table::new(
        vec![s("number"), s("text")],
        vec![dtu("2019-01-03T12:00:00Z"), dtu("2019-01-04T12:00:00Z")],
        vec![vec!["3", "Test03"], vec!["4", "Test04"]],
    )
    .unwrap();
    assert_eq!(t1, expected);
}

#[test]
fn chrono_structs_table_btree_trait_headers() {
    let t1 = new_table_long();
    let expected = [s("number"), s("text")];
    assert_eq!(TableTrait::headers(&t1).as_slice(), &expected);
}

#[test]
fn chrono_structs_table_btree_trait_change_column() {
    let mut t1 = new_table_large();
    let t1_copy = t1.clone();

    assert_eq!(
        TableTrait::headers(&t1).as_slice(),
        &[s("number"), s("text"), s("test"), s("data")]
    );
    assert_eq!(t1.values().last(), Some(&&vec!["6", "Test06", "test", "uvwx"]));

    t1.swap_columns(IndexOrColumn::from("test"), IndexOrColumn::from(3usize)).unwrap();

    assert_eq!(
        TableTrait::headers(&t1).as_slice(),
        &[s("number"), s("text"), s("data"), s("test")]
    );
    assert_eq!(t1.values().last(), Some(&&vec!["6", "Test06", "uvwx", "test"]));
    assert_ne!(t1, t1_copy);
}
