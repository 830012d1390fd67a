//! The storage engine: opening, mutating, recovering, compacting.

use kvs::Command;
use kvs::KvStore;
use kvs::KvsError;
use kvs::codec::encode_command;
use kvs::kv::COMPACTION_THRESHOLD;
use kvs::kv::FsEffect;
use kvs::kv::gen_list;
use kvs::replay::LogFile;

fn chars(s: &str) -> Vec<char> {
    s.chars().collect()
}

/// A directory stood up in memory: generation number and file text.
fn apply_effects(disk: &mut Vec<(usize, Vec<char>)>, effects: Vec<FsEffect>) {
    for e in effects {
        match e {
            FsEffect::Create { gen } => {
                if !disk.iter().any(|f| f.0 == gen) {
                    disk.push((gen, Vec::new()));
                }
            }
            FsEffect::Append { gen, data } => {
                let f = disk
                    .iter_mut()
                    .find(|f| f.0 == gen)
                    .expect("append to a file the effects created");
                f.1.extend(data.chars());
            }
            FsEffect::Delete { gen } => {
                disk.retain(|f| f.0 != gen);
            }
        }
    }
}

fn files_of(disk: &[(usize, Vec<char>)]) -> Vec<LogFile> {
    let mut sorted: Vec<(usize, Vec<char>)> = disk.to_vec();
    sorted.sort_by_key(|f| f.0);
    sorted
        .into_iter()
        .map(|(gen, data)| LogFile { gen, data })
        .collect()
}

fn disk_len(store: &KvStore) -> usize {
    store.logs.iter().map(|f| f.data.len()).sum()
}

#[test]
fn open_fresh_directory_is_empty() {
    let mut store = KvStore::open(Vec::new()).unwrap();
    assert_eq!(store.current_gen, 1);
    assert_eq!(store.index.entries.len(), 0);
    assert_eq!(store.uncompacted, 0);
    assert!(store.get(String::from("anything")).unwrap().is_none());
    let effects = store.take_effects();
    assert_eq!(effects.len(), 1);
    assert!(matches!(effects[0], FsEffect::Create { gen: 1 }));
}

#[test]
fn open_single_empty_log_is_empty() {
    let files = vec![LogFile { gen: 1, data: Vec::new() }];
    let mut store = KvStore::open(files).unwrap();
    assert_eq!(store.current_gen, 2);
    assert!(store.get(String::from("k")).unwrap().is_none());
}

#[test]
fn set_get_remove_cycle() {
    let mut store = KvStore::open(Vec::new()).unwrap();
    store.set(String::from("a"), String::from("1")).unwrap();
    assert_eq!(store.get(String::from("a")).unwrap(), Some(String::from("1")));
    store.remove(String::from("a")).unwrap();
    assert_eq!(store.get(String::from("a")).unwrap(), None);
    assert!(matches!(
        store.remove(String::from("a")),
        Err(KvsError::KeyNotFound)
    ));
}

#[test]
fn overwrite_reads_back_latest() {
    let mut store = KvStore::open(Vec::new()).unwrap();
    store.set(String::from("k"), String::from("v1")).unwrap();
    store.set(String::from("k"), String::from("v2")).unwrap();
    assert_eq!(store.get(String::from("k")).unwrap(), Some(String::from("v2")));
}

#[test]
fn values_survive_reopen() {
    let mut disk: Vec<(usize, Vec<char>)> = Vec::new();
    let mut store = KvStore::open(files_of(&disk)).unwrap();
    apply_effects(&mut disk, store.take_effects());
    store.set(String::from("k"), String::from("v1")).unwrap();
    apply_effects(&mut disk, store.take_effects());
    drop(store);

    let mut store = KvStore::open(files_of(&disk)).unwrap();
    apply_effects(&mut disk, store.take_effects());
    assert_eq!(store.get(String::from("k")).unwrap(), Some(String::from("v1")));
    store.set(String::from("k"), String::from("v2")).unwrap();
    apply_effects(&mut disk, store.take_effects());
    drop(store);

    let mut store = KvStore::open(files_of(&disk)).unwrap();
    assert_eq!(store.get(String::from("k")).unwrap(), Some(String::from("v2")));
}

#[test]
fn removal_survives_reopen() {
    let mut disk: Vec<(usize, Vec<char>)> = Vec::new();
    let mut store = KvStore::open(files_of(&disk)).unwrap();
    apply_effects(&mut disk, store.take_effects());
    store.set(String::from("a"), String::from("1")).unwrap();
    store.set(String::from("b"), String::from("2")).unwrap();
    store.remove(String::from("a")).unwrap();
    apply_effects(&mut disk, store.take_effects());
    drop(store);

    let mut store = KvStore::open(files_of(&disk)).unwrap();
    assert_eq!(store.get(String::from("a")).unwrap(), None);
    assert_eq!(store.get(String::from("b")).unwrap(), Some(String::from("2")));
}

#[test]
fn replay_takes_last_write_per_key() {
    let mut data: Vec<char> = Vec::new();
    data.extend(encode_command(&Command::Put(String::from("a"), String::from("1"))));
    data.extend(encode_command(&Command::Put(String::from("b"), String::from("2"))));
    data.extend(encode_command(&Command::Put(String::from("a"), String::from("3"))));
    data.extend(encode_command(&Command::Remove(String::from("b"))));
    let mut store = KvStore::open(vec![LogFile { gen: 1, data }]).unwrap();
    assert_eq!(store.get(String::from("a")).unwrap(), Some(String::from("3")));
    assert_eq!(store.get(String::from("b")).unwrap(), None);
}

#[test]
fn replay_spans_generations_in_order() {
    let mut d1: Vec<char> = Vec::new();
    d1.extend(encode_command(&Command::Put(String::from("k"), String::from("old"))));
    let mut d2: Vec<char> = Vec::new();
    d2.extend(encode_command(&Command::Put(String::from("k"), String::from("new"))));
    let files = vec![LogFile { gen: 3, data: d1 }, LogFile { gen: 7, data: d2 }];
    let mut store = KvStore::open(files).unwrap();
    assert_eq!(store.current_gen, 8);
    assert_eq!(store.get(String::from("k")).unwrap(), Some(String::from("new")));
}

#[test]
fn partial_tail_is_reported_and_complete_prefix_is_not_lost() {
    let mut data: Vec<char> = Vec::new();
    data.extend(encode_command(&Command::Put(String::from("a"), String::from("1"))));
    // the complete prefix alone opens fine
    let ok = KvStore::open(vec![LogFile { gen: 1, data: data.clone() }]);
    assert!(ok.is_ok());
    // a torn record after it makes recovery report the failure
    data.extend(chars("S4:ab"));
    match KvStore::open(vec![LogFile { gen: 1, data }]) {
        Err(KvsError::Codec(_)) => {}
        _ => panic!("a torn tail record must be reported as a codec failure"),
    }
}

#[test]
fn garbage_log_is_reported() {
    match KvStore::open(vec![LogFile { gen: 1, data: chars("hello") }]) {
        Err(KvsError::Codec(_)) => {}
        _ => panic!("text that is no record must be reported as a codec failure"),
    }
}

#[test]
fn overwrites_trigger_compaction_and_bound_disk() {
    let mut disk: Vec<(usize, Vec<char>)> = Vec::new();
    let mut store = KvStore::open(files_of(&disk)).unwrap();
    apply_effects(&mut disk, store.take_effects());
    let keys = 300;
    let rounds = 8;
    let x_value: String = std::iter::repeat('x').take(500).collect();
    let y_value: String = std::iter::repeat('y').take(500).collect();
    for r in 0..rounds {
        let value = if r == rounds - 1 { &y_value } else { &x_value };
        for i in 0..keys {
            store.set(format!("key{}", i), value.clone()).unwrap();
            apply_effects(&mut disk, store.take_effects());
        }
    }
    // enough was overwritten that compaction must have run at least once
    assert!(store.current_gen >= 3, "compaction advances the generation");
    assert!(store.uncompacted <= COMPACTION_THRESHOLD);
    let live: usize = store.index.entries.iter().map(|e| e.loc.len).sum();
    assert!(disk_len(&store) < live + 2 * COMPACTION_THRESHOLD);
    // the directory mirror agrees with the store
    let mirrored: usize = disk.iter().map(|f| f.1.len()).sum();
    assert_eq!(mirrored, disk_len(&store));
    // every key reads back the final value
    for i in 0..keys {
        assert_eq!(store.get(format!("key{}", i)).unwrap(), Some(y_value.clone()));
    }
    // and still does after a reopen of the mirrored directory
    drop(store);
    let mut store = KvStore::open(files_of(&disk)).unwrap();
    assert_eq!(store.get(String::from("key0")).unwrap(), Some(y_value));
}

#[test]
fn compact_preserves_reads_and_resets_stale_count() {
    let mut store = KvStore::open(Vec::new()).unwrap();
    store.set(String::from("a"), String::from("1")).unwrap();
    store.set(String::from("a"), String::from("2")).unwrap();
    store.set(String::from("b"), String::from("3")).unwrap();
    store.remove(String::from("b")).unwrap();
    assert!(store.uncompacted > 0);
    let before_gen = store.current_gen;
    store.compact().unwrap();
    assert_eq!(store.uncompacted, 0);
    assert_eq!(store.current_gen, before_gen + 2);
    assert_eq!(store.get(String::from("a")).unwrap(), Some(String::from("2")));
    assert_eq!(store.get(String::from("b")).unwrap(), None);
    assert_eq!(store.logs.len(), 2);
}

#[test]
fn effects_report_creates_appends_deletes() {
    let mut store = KvStore::open(Vec::new()).unwrap();
    let effects = store.take_effects();
    assert!(matches!(effects[0], FsEffect::Create { gen: 1 }));
    store.set(String::from("a"), String::from("1")).unwrap();
    let effects = store.take_effects();
    assert_eq!(effects.len(), 1);
    match &effects[0] {
        FsEffect::Append { gen, data } => {
            assert_eq!(*gen, 1);
            assert_eq!(data, "S1:a1:1");
        }
        _ => panic!("a set appends one record"),
    }
    store.compact().unwrap();
    let effects = store.take_effects();
    assert!(matches!(effects[0], FsEffect::Create { gen: 3 }));
    assert!(matches!(effects[1], FsEffect::Create { gen: 2 }));
    assert!(matches!(effects[2], FsEffect::Append { gen: 2, .. }));
    assert!(matches!(effects[3], FsEffect::Delete { gen: 1 }));
}

#[test]
fn awkward_keys_survive_reopen() {
    let mut disk: Vec<(usize, Vec<char>)> = Vec::new();
    let mut store = KvStore::open(files_of(&disk)).unwrap();
    apply_effects(&mut disk, store.take_effects());
    store.set(String::from("12:34"), String::from("v:1")).unwrap();
    store.set(String::from("größe"), String::from("10")).unwrap();
    apply_effects(&mut disk, store.take_effects());
    drop(store);
    let mut store = KvStore::open(files_of(&disk)).unwrap();
    assert_eq!(store.get(String::from("12:34")).unwrap(), Some(String::from("v:1")));
    assert_eq!(store.get(String::from("größe")).unwrap(), Some(String::from("10")));
}

#[test]
fn gen_list_parses_and_sorts_log_names() {
    let names = vec![
        String::from("10.log"),
        String::from("1.log"),
        String::from("2.log"),
        String::from("notes.txt"),
        String::from("x.log"),
        String::from("03.log"),
        String::from(".log"),
        String::from("1.log.log"),
    ];
    assert_eq!(gen_list(&names), vec![1, 2, 3, 10]);
}

#[test]
fn gen_list_ignores_everything_else() {
    let names = vec![
        String::from("log"),
        String::from("7log"),
        String::from("a7.log"),
        String::from("5.log.log"),
    ];
    assert_eq!(gen_list(&names), Vec::<usize>::new());
}
