use timeseries::BtreeMapTrait;
use timeseries::IndexOrColumn;
use timeseries::Table;
use timeseries::TableTrait;

fn s(x: &str) -> String {
    String::from(x)
}

fn new_table<'a>() -> Table<&'a str> {
    let headers = vec![s("h1"), s("h2")];
    let indexes = vec![1, 2];
    let d = vec![vec!["Hark", "Bark"], vec!["Hans", "kaas"]];
    Table::new(headers, indexes, d).unwrap()
}

fn new_table_long<'a>() -> Table<&'a str> {
    let headers = vec![s("number"), s("text")];
    let indexes = vec![1, 2, 3, 4, 5, 6, 7, 8, 9, 10, 11, 12, 13];
    let d = vec![
        vec!["1", "Test01"],
        vec!["2", "Test02"],
        vec!["3", "Test03"],
        vec!["4", "Test04"],
        vec!["5", "Test05"],
        vec!["6", "Test06"],
        vec!["7", "Test07"],
        vec!["8", "Test08"],
        vec!["9", "Test09"],
        vec!["10", "Test10"],
        vec!["11", "Test11"],
        vec!["12", "Test12"],
        vec!["13", "Test13"],
    ];
    Table::new(headers, indexes, d).unwrap()
}

fn new_table_large<'a>() -> Table<&'a str> {
    let headers = vec![s("number"), s("text"), s("test"), s("data")];
    let indexes = vec![1, 2, 3, 4, 5, 6];
    let d = vec![
        vec!["1", "Test01", "test", "abcd"],
        vec!["2", "Test02", "test", "efgh"],
        vec!["3", "Test03", "test", "ijkl"],
        vec!["4", "Test04", "test", "mnop"],
        vec!["5", "Test05", "test", "qrst"],
        vec!["6", "Test06", "test", "uvwx"],
    ];
    Table::new(headers, indexes, d).unwrap()
}

fn new_table_data() -> Table<i64> {
    let headers = vec![s("p10"), s("data"), s("twentyfive"), s("squares")];
    let indexes = vec![1, 2, 3, 4, 5, 6];
    let d = vec![
        vec![10, 10, 25, 1],
        vec![20, 23, 25, 4],
        vec![30, 36, 25, 9],
        vec![40, 49, 25, 16],
        vec![50, 51, 25, 25],
        vec![60, 68, 25, 36],
    ];
    Table::new(headers, indexes, d).unwrap()
}

fn map_table_large<'a>() -> Vec<(u64, Vec<(String, &'a str)>)> {
    let rec = |n: &'a str, t: &'a str, d: &'a str| -> Vec<(String, &'a str)> {
        vec![(s("number"), n), (s("text"), t), (s("test"), "test"), (s("data"), d)]
    };
    vec![
        (1, rec("1", "Test01", "abcd")),
        (2, rec("2", "Test02", "efgh")),
        (3, rec("3", "Test03", "ijkl")),
        (4, rec("4", "Test04", "mnop")),
        (5, rec("5", "Test05", "qrst")),
        (6, rec("6", "Test06", "uvwx")),
    ]
}

#[test]
fn tests_table_is_same_with_btreemap() {
    let headers = vec![s("h1"), s("h2")];
    let indexes = vec![1, 2];
    let d = vec![vec!["Hark", "Bark"], vec!["Hans", "kaas"]];
    let t1 = Table::new(headers.clone(), indexes, d).unwrap();

    let keys = vec![1, 2];
    let rows = vec![vec!["Hark", "Bark"], vec!["Hans", "kaas"]];
    let t2 = Table::new_btreemap(headers, keys, rows);

    assert_eq!(t1, t2);
}

#[test]
fn tests_table_btree_trait_iter() {
    let t1 = new_table();
    let entries = t1.iter();
    assert_eq!(entries[0].0, 1);
    assert_eq!(entries[0].1, &vec!["Hark", "Bark"]);
}

#[test]
fn tests_table_btree_trait_get() {
    let t1 = new_table();
    let i1 = t1.get(1);
    assert_eq!(Some(&vec!["Hark", "Bark"]), i1);
}

#[test]
fn tests_table_btree_trait_get_mut() {
    let mut t1 = new_table();
    let i1 = t1.get_mut(1).unwrap();
    i1[0] = "Test";
    let i1 = t1.get(1);
    assert_eq!(Some(&vec!["Test", "Bark"]), i1);
}

#[test]
fn tests_table_btree_trait_values() {
    let t1 = new_table();
    let vs = t1.values();
    assert_eq!(&vec!["Hark", "Bark"], vs[0]);
    assert_eq!(&vec!["Hans", "kaas"], vs[1]);
}

#[test]
fn tests_table_btree_trait_range() {
    let t1 = new_table_long();
    let picked = t1.range(3, 5);
    let expected = Table::new(
        vec![s("number"), s("text")],
        vec![3, 4],
        vec![vec!["3", "Test03"], vec!["4", "Test04"]],
    )
    .unwrap();
    assert_eq!(picked.len(), 2);
    for (k, v) in picked {
        assert_eq!(Some(v), expected.get(k));
    }
}

#[test]
fn tests_table_btree_trait_slice_owned() {
    let t1 = new_table_long();
    let t2 = t1.slice_owned(3, 5);
    let expected = Table::new(
        vec![s("number"), s("text")],
        vec![3, 4],
        vec![vec!["3", "Test03"], vec!["4", "Test04"]],
    )
    .unwrap();
    assert_eq!(t2, expected);
}

#[test]
fn tests_table_btree_trait_slice_inplace() {
    let mut t1 = new_table_long();
    t1.slice_inplace(3, 5);
    let expected = Table::new(
        vec![s("number"), s("text")],
        vec![3, 4],
        vec![vec!["3", "Test03"], vec!["4", "Test04"]],
    )
    .unwrap();
    assert_eq!(t1, expected);
}

#[test]
fn tests_table_btree_trait_headers() {
    let t1 = new_table_long();
    let expected = [s("number"), s("text")];
    assert_eq!(TableTrait::headers(&t1).as_slice(), &expected);
}

#[test]
fn tests_table_btree_trait_change_column() {
    let mut t1 = new_table_large();
    let t1_copy = t1.clone();

    assert_eq!(
        TableTrait::headers(&t1).as_slice(),
        &[s("number"), s("text"), s("test"), s("data")]
    );
    assert_eq!(t1.values().last(), Some(&&vec!["6", "Test06", "test", "uvwx"]));

    t1.swap_columns(IndexOrColumn::from("test"), IndexOrColumn::from(3usize)).unwrap();

    assert_eq!(
        TableTrait::headers(&t1).as_slice(),
        &[s("number"), s("text"), s("data"), s("test")]
    );
    assert_eq!(t1.values().last(), Some(&&vec!["6", "Test06", "uvwx", "test"]));
    assert_ne!(t1, t1_copy);
}

#[test]
fn swap_twice_restores() {
    let mut t1 = new_table_large();
    let t1_copy = t1.clone();
    t1.swap(0, 3).unwrap();
    assert_ne!(t1, t1_copy);
    t1.swap(0, 3).unwrap();
    assert_eq!(t1, t1_copy);
}

#[test]
fn swap_bad_index_is_refused() {
    let mut t1 = new_table_large();
    let e = t1.swap(9, 0).unwrap_err();
    assert_eq!(e.description(), "index number a is too high");
    let e = t1.swap(0, 9).unwrap_err();
    assert_eq!(e.description(), "index number b is too high");
    let e = t1
        .swap_columns(IndexOrColumn::from("absent"), IndexOrColumn::from(0usize))
        .unwrap_err();
    assert_eq!(e.description(), "column a not found");
}

#[test]
fn meta_data() {
    let mut t1 = new_table_large();
    assert_eq!(None, t1.get_meta_key(&s("total")));

    t1.set_meta_key(s("total"), s("1500"));
    t1.set_meta_key(s("size"), s("123kb"));

    assert_eq!(Some(&s("1500")), t1.get_meta_key(&s("total")));
    assert_eq!(Some(&s("123kb")), t1.get_meta_key(&s("size")));
    assert_eq!(None, t1.get_meta_key(&s("some_other_thing")));
}

#[test]
fn table_rows() {
    let t1 = new_table_large();
    let expected = map_table_large();

    let rows = t1.iter_rows();
    assert_eq!(rows.len(), expected.len());
    for (row, (want_key, want_fields)) in rows.iter().zip(expected.iter()) {
        assert_eq!(row.index, *want_key);
        let mut got: Vec<(String, &str)> =
            row.cells.iter().map(|(h, v)| (h.clone(), **v)).collect();
        let mut want = want_fields.clone();
        got.sort();
        want.sort();
        assert_eq!(got, want);
    }
}

#[test]
fn table_columns() {
    let t1 = new_table_large();
    let expected = vec![
        "number", "1", "2", "3", "4", "5", "6", "text", "Test01", "Test02", "Test03", "Test04",
        "Test05", "Test06", "test", "test", "test", "test", "test", "test", "test", "data",
        "abcd", "efgh", "ijkl", "mnop", "qrst", "uvwx",
    ];
    let mut t: Vec<String> = vec![];
    for column in t1.iter_columns() {
        t.push(column.header.clone());
        for (_index, val) in column.pairs {
            t.push(String::from(*val));
        }
    }
    assert_eq!(expected, t);
}

#[test]
fn from_map() {
    let input = map_table_large();
    let mut expected = new_table_large();

    // sort table columns
    expected.swap_columns(IndexOrColumn::from(0usize), IndexOrColumn::from(3usize)).unwrap();
    expected.swap_columns(IndexOrColumn::from(1usize), IndexOrColumn::from(3usize)).unwrap();

    let t = Table::from_map(&input).unwrap();
    assert_eq!(expected, t);
}

#[test]
fn from_map_checked_ok() {
    let input = map_table_large();
    assert!(Table::from_map_checked(&input).is_ok());
}

#[test]
fn from_map_checked_err() {
    let mut input = map_table_large();
    input[2].1.retain(|(n, _)| n != "text");
    assert!(Table::from_map_checked(&input).is_err());
}

#[test]
fn from_map_safe() {
    let mut input = map_table_large();
    // remove from the 3rd row the "text" column
    input[2].1.retain(|(n, _)| n != "text");

    let t: Table<Option<&str>> = Table::from_map_safe(&input).unwrap();
    let third_row = t.get(3).unwrap();

    // the second column ("number") of the 3rd row is something
    assert_eq!(Some("3"), third_row[1]);
    // the last column of the 3rd row is empty
    assert_eq!(None, third_row[3]);
}

#[test]
fn table_fold_column_str() {
    let expected = vec![
        (s("number"), s("123456")),
        (s("text"), s("Test01Test02Test03Test04Test05Test06")),
        (s("test"), s("testtesttesttesttesttest")),
        (s("data"), s("abcdefghijklmnopqrstuvwx")),
    ];

    let t1 = new_table_large();
    let output = t1.fold_columns(String::new(), |mut x: String, (_k, v): (u64, &&str)| {
        x.push_str(v);
        x
    });

    assert_eq!(expected, output);
}

#[test]
fn table_fold_column_number() {
    let expected = vec![
        (s("p10"), 210),
        (s("data"), 237),
        (s("twentyfive"), 150),
        (s("squares"), 91),
    ];

    let t1 = new_table_data();
    let output = t1.fold_columns(0i64, |x: i64, (_k, v): (u64, &i64)| x + v);

    assert_eq!(expected, output);
}

#[test]
fn table_sum_column_number() {
    let expected = vec![
        (s("p10"), 210),
        (s("data"), 237),
        (s("twentyfive"), 150),
        (s("squares"), 91),
    ];

    let t1 = new_table_data();
    let output = t1.sum_columns();

    assert_eq!(expected, output);
}

#[test]
fn table_avg_column_number() {
    let expected = vec![
        (s("p10"), 35),
        (s("data"), 39),
        (s("twentyfive"), 25),
        (s("squares"), 15),
    ];

    let t1 = new_table_data();
    let output = t1.avg_columns();

    assert_eq!(expected, output);
}

#[test]
fn table_std_column_number() {
    let expected = vec![
        (s("p10"), 291),
        (s("data"), 365),
        (s("twentyfive"), 0),
        (s("squares"), 149),
    ];

    let t1 = new_table_data();
    let output = t1.var_columns();

    assert_eq!(expected, output);
}

#[test]
fn fold_column_range_partitions_agree() {
    let t1 = new_table_data();
    let whole = t1.fold_column_range(0, 0, 6, 0i64, |x: i64, (_k, v): (u64, &i64)| x + v);
    let left = t1.fold_column_range(0, 0, 3, 0i64, |x: i64, (_k, v): (u64, &i64)| x + v);
    let right = t1.fold_column_range(0, 3, 6, 0i64, |x: i64, (_k, v): (u64, &i64)| x + v);
    assert_eq!(whole, 210);
    assert_eq!(whole, left + right);
}

#[test]
fn new_rejects_bad_shapes() {
    let e = Table::<i64>::new(vec![s("a")], vec![], vec![]).unwrap_err();
    assert_eq!(e.description(), "data is empty");

    let e = Table::<i64>::new(vec![s("a")], vec![1, 2], vec![vec![1]]).unwrap_err();
    assert_eq!(e.description(), "time and data length should be equal");

    let e = Table::<i64>::new(vec![s("a")], vec![1, 2], vec![vec![1], vec![2, 3]]).unwrap_err();
    assert_eq!(e.description(), "all rows should have equal length");

    let e = Table::<i64>::new(vec![s("a"), s("b")], vec![1], vec![vec![1]]).unwrap_err();
    assert_eq!(e.description(), "header has too many columns");
}

#[test]
fn insert_remove_split() {
    let mut t = new_table_data();
    assert_eq!(t.len(), 6);
    assert!(t.insert(7, vec![70, 72, 25, 49]).is_none());
    assert_eq!(t.len(), 7);
    assert!(t.contains_key(7));
    let old = t.insert(7, vec![71, 72, 25, 49]).unwrap();
    assert_eq!(old, vec![70, 72, 25, 49]);
    assert_eq!(t.remove(7).unwrap(), vec![71, 72, 25, 49]);
    assert_eq!(t.len(), 6);

    let upper = t.split_off(4);
    assert_eq!(t.keys(), vec![1, 2, 3]);
    assert_eq!(upper.keys(), vec![4, 5, 6]);

    let mut lower = t;
    let mut upper = upper;
    lower.append(&mut upper);
    assert_eq!(lower.keys(), vec![1, 2, 3, 4, 5, 6]);
    assert!(upper.is_empty());
}

#[test]
fn from_labeled_rows_keeps_time_column() {
    let header_row = vec![s("when"), s("number"), s("text")];
    let indexes = vec![2, 1];
    let rows = vec![vec![s("2"), s("b")], vec![s("1"), s("a")]];
    let mut t = Table::from_labeled_rows(header_row, indexes, rows).unwrap();
    assert_eq!(TableTrait::headers(&t).as_slice(), &[s("number"), s("text")]);
    assert_eq!(t.keys(), vec![1, 2]);
    assert_eq!(t.get_meta_key(&s("time_column")), Some(&s("when")));
    t.clear();
    assert!(t.is_empty());
}
