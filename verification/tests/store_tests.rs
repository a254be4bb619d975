use timeseries::BtreeMapTrait;
use timeseries::DbTableError;
use timeseries::KvBackend;
use timeseries::MemStore;
use timeseries::SyncError;
use timeseries::Table;

fn s(x: &str) -> String {
    String::from(x)
}

fn new_table_large() -> Table<String> {
    let headers = vec![s("number"), s("text"), s("test"), s("data")];
    let indexes = vec![1, 2, 3, 4, 5, 6];
    let d = vec![
        vec![s("1"), s("Test01"), s("test"), s("abcd")],
        vec![s("2"), s("Test02"), s("test"), s("efgh")],
        vec![s("3"), s("Test03"), s("test"), s("ijkl")],
        vec![s("4"), s("Test04"), s("test"), s("mnop")],
        vec![s("5"), s("Test05"), s("test"), s("qrst")],
        vec![s("6"), s("Test06"), s("test"), s("uvwx")],
    ];
    Table::new(headers, indexes, d).unwrap()
}

fn new_table_data() -> Table<i64> {
    let headers = vec![s("p10"), s("data"), s("twentyfive"), s("squares")];
    let indexes = vec![1, 2, 3, 4, 5, 6];
    let d = vec![
        vec![10, 10, 25, 1],
        vec![20, 23, 25, 4],
        vec![30, 36, 25, 9],
        vec![40, 49, 25, 16],
        vec![50, 51, 25, 25],
        vec![60, 68, 25, 36],
    ];
    Table::new(headers, indexes, d).unwrap()
}

#[test]
fn unqlite_table_int() {
    let mut store = MemStore::new();
    let t = new_table_data();
    t.save_store(&mut store).unwrap();
    let t1: Table<i64> = Table::from_store(&store).unwrap();
    t1.delete_store(&mut store).unwrap();
    assert_eq!(t, t1);
}

#[test]
fn unqlite_table_string() {
    let mut store = MemStore::new();
    let t = new_table_large();
    t.save_store(&mut store).unwrap();
    let t1: Table<String> = Table::from_store(&store).unwrap();
    t1.delete_store(&mut store).unwrap();
    assert_eq!(t, t1);
}

#[test]
fn unqlite_table_int_metadata() {
    let mut store = MemStore::new();
    let mut t = new_table_data();
    t.set_meta_key(String::from("something"), String::from("a thing"));

    t.save_store(&mut store).unwrap();
    let t1: Table<i64> = Table::from_store(&store).unwrap();

    assert_eq!(
        t1.get_meta_key(&String::from("something")),
        Some(&String::from("a thing"))
    );

    t1.delete_store(&mut store).unwrap();
    assert_eq!(t, t1);
}

#[test]
fn unqlite_table_update_int() {
    let mut store = MemStore::new();
    let mut t = new_table_data();
    t.save_store(&mut store).unwrap();

    let t1: Table<i64> = Table::from_store(&store).unwrap();

    t.insert(7, vec![70, 72, 25, 49]);
    let updated_keys = t.update_store(&mut store).unwrap();
    assert_eq!(vec![7], updated_keys);

    let t2: Table<i64> = Table::from_store(&store).unwrap();
    assert_eq!(t, t2);

    t.insert(6, vec![60, 54, 25, 36]);
    t.insert(5, vec![50, 59, 25, 25]);
    let updated_keys = t.update_store(&mut store).unwrap();
    assert_eq!(vec![5, 6], updated_keys);

    let t3: Table<i64> = Table::from_store(&store).unwrap();
    t3.delete_store(&mut store).unwrap();
    assert_eq!(t, t3);
    assert_ne!(t, t2);
    assert_ne!(t, t1);
}

#[test]
fn update_without_changes_writes_nothing() {
    let mut store = MemStore::new();
    let t = new_table_data();
    t.save_store(&mut store).unwrap();
    let before = store.kv_iterate_all().unwrap();

    let updated_keys = t.update_store(&mut store).unwrap();
    assert!(updated_keys.is_empty());

    let mut after = store.kv_iterate_all().unwrap();
    let mut before = before;
    before.sort();
    after.sort();
    assert_eq!(before, after);
}

#[test]
fn save_refuses_initialized_store_and_override_replaces() {
    let mut store = MemStore::new();
    let t_old = new_table_data();
    t_old.save_store(&mut store).unwrap();

    let mut t_new = new_table_data();
    t_new.insert(9, vec![90, 91, 25, 81]);
    let e = t_new.save_store(&mut store).unwrap_err();
    assert!(matches!(e, SyncError::DbTableError(DbTableError::DbExists)));

    t_new.save_store_override(&mut store).unwrap();
    let loaded: Table<i64> = Table::from_store(&store).unwrap();
    assert_eq!(loaded, t_new);
    assert_ne!(loaded, t_old);
}

#[test]
fn load_without_header_reports_it() {
    // A store holding one well-formed row record but no header
    // sentinel: key 3 with an empty row record under it would not
    // decode, so copy a real row binding from a saved table instead.
    let mut full = MemStore::new();
    let t = new_table_data();
    t.save_store(&mut full).unwrap();

    let mut hk: Vec<u8> = 8u64.to_le_bytes().to_vec();
    hk.extend_from_slice(b"__HEADER");
    let mut mk: Vec<u8> = 11u64.to_le_bytes().to_vec();
    mk.extend_from_slice(b"__META_DATA");

    let mut rows_only = MemStore::new();
    for (k, v) in full.kv_iterate_all().unwrap() {
        if k != hk && k != mk {
            rows_only.kv_store(k, v).unwrap();
        }
    }

    let e = Table::<i64>::from_store(&rows_only).unwrap_err();
    assert!(matches!(e, SyncError::DbTableError(DbTableError::DbHeaderDoesNotExist)));
}

#[test]
fn load_rejects_corrupt_records() {
    let mut store = MemStore::new();
    store.kv_store(vec![1, 2, 3, 4, 5, 6, 7, 8], vec![0, 1, 2]).unwrap();
    let e = Table::<i64>::from_store(&store).unwrap_err();
    assert!(matches!(e, SyncError::Encoding));
}

#[test]
fn update_on_empty_store_is_refused() {
    let mut store = MemStore::new();
    let t = new_table_data();
    let e = t.update_store(&mut store).unwrap_err();
    assert!(matches!(e, SyncError::DbTableError(DbTableError::DbDoesNotExist)));
}

#[test]
fn round_trip_keeps_multibyte_text() {
    let mut store = MemStore::new();
    let headers = vec![s("stra\u{df}e"), s("ma\u{df}")];
    let indexes = vec![10, 20];
    let d = vec![
        vec![s("\u{fc}ber"), s("z\u{e4}h")],
        vec![s("\u{3b1}\u{3b2}"), s("\u{1f980}")],
    ];
    let t = Table::new(headers, indexes, d).unwrap();
    t.save_store(&mut store).unwrap();
    let t1: Table<String> = Table::from_store(&store).unwrap();
    assert_eq!(t, t1);
    assert_eq!(t1.get(20).unwrap()[1], s("\u{1f980}"));
}
