use std::collections::HashSet;

use prefix_store::in_memory_loader::InMemoryLoader;
use prefix_store::loader_trait::PrefixLoader;
use prefix_store::saved_file::SavedFile;
use prefix_store::transfer::{list_request, next_chunk, ListReply, TransferStep, CHUNK_SIZE};
use prefix_store::trie::{Node, Trie};
use rand::{distributions::Alphanumeric, Rng};

fn as_symbols(s: &str) -> Vec<char> {
    s.chars().collect()
}

fn key_strings(keys: Vec<Vec<char>>) -> Vec<String> {
    let mut v: Vec<String> = keys.iter().map(|k| k.iter().collect()).collect();
    v.sort();
    v
}

fn random_string(length: usize) -> String {
    let mut rng = rand::thread_rng();
    (0..length)
        .map(|_| rng.sample(Alphanumeric) as char)
        .collect()
}

#[test]
fn prefix_scan_example() {
    let mut trie = Trie::<char, i32>::init();
    trie.insert(&as_symbols("aaaaaa"), 1);
    trie.insert(&as_symbols("aaaaab"), 2);
    trie.insert(&as_symbols("aabaad"), 5);

    let aa = key_strings(trie.get_keys_for_prefix(&as_symbols("aa")));
    assert_eq!(aa, vec!["aaaaaa".to_string(), "aaaaab".to_string(), "aabaad".to_string()]);

    let aab = key_strings(trie.get_keys_for_prefix(&as_symbols("aab")));
    assert_eq!(aab, vec!["aabaad".to_string()]);

    let zz = key_strings(trie.get_keys_for_prefix(&as_symbols("zz")));
    assert!(zz.is_empty());

    let all = key_strings(trie.get_keys_for_prefix(&as_symbols("")));
    assert_eq!(all, vec!["aaaaaa".to_string(), "aaaaab".to_string(), "aabaad".to_string()]);
}

#[test]
fn trie_agrees_with_reference_map() {
    let mut trie = Trie::<char, u32>::init();
    let mut reference = std::collections::HashMap::<String, u32>::new();
    let script: Vec<(bool, &str, u32)> = vec![
        (true, "ab", 1),
        (true, "abc", 2),
        (true, "b", 3),
        (true, "ab", 4),
        (false, "abc", 0),
        (false, "abc", 0),
        (true, "abcd", 5),
        (false, "b", 0),
        (false, "nothere", 0),
    ];
    for (is_insert, key, value) in script {
        if is_insert {
            trie.insert(&as_symbols(key), value);
            reference.insert(key.to_string(), value);
        } else {
            let removed = trie.delete(&as_symbols(key));
            assert_eq!(removed, reference.remove(key).is_some());
        }
        for probe in ["ab", "abc", "abcd", "b", "nothere", ""] {
            assert_eq!(trie.contains(&as_symbols(probe)), reference.contains_key(probe));
            assert_eq!(trie.get_for_string(&as_symbols(probe)), reference.get(probe));
        }
    }
}

#[test]
fn delete_prunes_dead_branches_and_keeps_live_ones() {
    let mut trie = Trie::<char, i32>::init();
    trie.insert(&as_symbols("a"), 1);
    trie.insert(&as_symbols("ab"), 2);

    // deleting the longer key must not disturb the shorter one
    assert!(trie.delete(&as_symbols("ab")));
    assert!(trie.contains(&as_symbols("a")));
    assert!(!trie.contains(&as_symbols("ab")));
    // the branch for "ab" is gone: nothing is listed under it
    assert!(trie.get_keys_for_prefix(&as_symbols("ab")).is_empty());
    assert_eq!(key_strings(trie.get_keys_for_prefix(&as_symbols(""))), vec!["a".to_string()]);

    // a second delete finds nothing
    assert!(!trie.delete(&as_symbols("ab")));

    assert!(trie.delete(&as_symbols("a")));
    assert!(!trie.delete(&as_symbols("a")));
    assert!(trie.get_keys_for_prefix(&as_symbols("")).is_empty());
}

#[test]
fn delete_of_unstored_path_node_reports_false() {
    let mut trie = Trie::<char, i32>::init();
    trie.insert(&as_symbols("abc"), 1);
    // "ab" names a node on the path, but no stored key
    assert!(!trie.delete(&as_symbols("ab")));
    assert!(trie.contains(&as_symbols("abc")));
}

#[test]
fn node_api() {
    let mut node = Node::<char, i32>::new();
    assert!(!node.is_end());
    assert!(node.get_data().is_none());
    node.set_data(7);
    assert!(node.is_end());
    assert_eq!(node.get_data(), Some(&7));
    if let Some(v) = node.get_mut_data() {
        *v = 8;
    }
    assert_eq!(node.get_data(), Some(&8));
    node.remove_data();
    assert!(node.get_data().is_none());

    assert!(node.get_opt(&'x').is_none());
    let child = node.get_or_init(&'x');
    child.set_data(1);
    assert!(node.get_opt(&'x').is_some());
    assert!(node.get_opt_mut(&'x').is_some());
    assert_eq!(node.get_children().len(), 1);

    // a child holding a payload is not pruned
    assert!(!node.remove_if_possible(&'x'));
    node.get_or_init(&'x').remove_data();
    // a bare child is
    assert!(node.remove_if_possible(&'x'));
    assert!(node.get_opt(&'x').is_none());
    assert_eq!(node.get_children().len(), 0);
}

#[test]
fn saved_file_round_trip() {
    let mut f = SavedFile::new(Vec::new(), "text/plain".to_string());
    assert_eq!(f.get_data().len(), 0);
    assert_eq!(f.get_mime().as_str(), "text/plain");
    f.extend(b"ab".to_vec());
    f.extend(b"cd".to_vec());
    assert_eq!(f.get_data().as_slice(), b"abcd");
    assert_eq!(f.get_mime().as_str(), "text/plain");
}

#[test]
fn store_round_trip() {
    let mut loader = InMemoryLoader::init();
    let k = "files/greeting".to_string();
    loader.insert_new(&k, &"text/plain".to_string());
    assert!(loader.append(&k, b"ab".to_vec()));
    assert!(loader.append(&k, b"cd".to_vec()));

    let (bytes, total) = loader.read_chunk(&k, 0, 10).unwrap();
    assert_eq!(bytes.as_slice(), b"abcd");
    assert_eq!(total, 4);
    assert_eq!(loader.load(&k).unwrap().get_mime().as_str(), "text/plain");

    // a chunk past the end is empty but reports the length
    let (tail, total) = loader.read_chunk(&k, 9, 10).unwrap();
    assert!(tail.is_empty());
    assert_eq!(total, 4);
}

#[test]
fn replacing_store_discards_old_bytes() {
    let mut loader = InMemoryLoader::init();
    let k = "k".to_string();
    loader.insert_new(&k, &"text/plain".to_string());
    assert!(loader.append(&k, b"old".to_vec()));
    loader.insert_new(&k, &"application/json".to_string());
    let (bytes, total) = loader.read_chunk(&k, 0, 100).unwrap();
    assert!(bytes.is_empty());
    assert_eq!(total, 0);
    assert_eq!(loader.load(&k).unwrap().get_mime().as_str(), "application/json");
}

#[test]
fn store_delete_is_idempotent_in_its_report() {
    let mut loader = InMemoryLoader::init();
    let k = "dir/file".to_string();
    assert!(!loader.is_stored(&k));
    loader.insert_new(&k, &"text/plain".to_string());
    assert!(loader.is_stored(&k));
    assert!(loader.delete(&k));
    assert!(!loader.is_stored(&k));
    assert!(!loader.delete(&k));
    assert!(loader.read_chunk(&k, 0, 10).is_none());
    assert!(loader.load(&k).is_none());
}

#[test]
fn download_observes_concurrent_delete_at_chunk_boundary() {
    let mut loader = InMemoryLoader::init();
    let k = "video".to_string();
    loader.insert_new(&k, &"video/mp4".to_string());
    assert!(loader.append(&k, vec![7u8; 5]));

    // first chunk of a download in progress
    match next_chunk(&loader, &k, 0) {
        TransferStep::Chunk { bytes, done } => {
            assert_eq!(bytes, vec![7u8; 5]);
            assert!(done);
        }
        TransferStep::Gone => panic!("object should be stored"),
    }

    // a delete wins the race before the next chunk is requested
    assert!(loader.delete(&k));
    match next_chunk(&loader, &k, 5) {
        TransferStep::Gone => {}
        TransferStep::Chunk { .. } => panic!("deleted object must not serve bytes"),
    }
    // an upload racing the same delete aborts with a conflict
    assert!(!loader.append(&k, b"late".to_vec()));
}

#[test]
fn download_chunks_are_bounded_and_cover_the_bytes() {
    let mut loader = InMemoryLoader::init();
    let k = "blob".to_string();
    loader.insert_new(&k, &"application/octet-stream".to_string());
    let payload: Vec<u8> = (0..10000u32).map(|i| (i % 251) as u8).collect();
    assert!(loader.append(&k, payload.clone()));

    let mut sent = 0usize;
    let mut collected: Vec<u8> = Vec::new();
    loop {
        match next_chunk(&loader, &k, sent) {
            TransferStep::Chunk { bytes, done } => {
                assert!(bytes.len() <= CHUNK_SIZE);
                if sent == 0 {
                    assert_eq!(bytes.len(), CHUNK_SIZE);
                    assert!(!done);
                }
                sent += bytes.len();
                collected.extend(bytes);
                if done {
                    break;
                }
            }
            TransferStep::Gone => panic!("object should be stored"),
        }
    }
    assert_eq!(collected, payload);
}

#[test]
fn list_request_modes() {
    let mut loader = InMemoryLoader::init();
    loader.insert_new(&"docs/a".to_string(), &"text/plain".to_string());
    loader.insert_new(&"docs/b".to_string(), &"text/plain".to_string());
    loader.insert_new(&"img/c".to_string(), &"image/png".to_string());

    match list_request(&loader, &"docs/*".to_string()) {
        ListReply::Listing(mut keys) => {
            keys.sort();
            assert_eq!(keys, vec!["docs/a".to_string(), "docs/b".to_string()]);
        }
        _ => panic!("a path ending in a star asks for a listing"),
    }

    match list_request(&loader, &"*".to_string()) {
        ListReply::Listing(keys) => assert_eq!(keys.len(), 3),
        _ => panic!("a bare star lists every stored name"),
    }

    match list_request(&loader, &"img/c".to_string()) {
        ListReply::Found(p) => assert_eq!(p, "img/c"),
        _ => panic!("a stored name is echoed back"),
    }

    match list_request(&loader, &"img/d".to_string()) {
        ListReply::Missing => {}
        _ => panic!("an unstored name without a star is missing"),
    }
}

#[test]
fn stress_random_inserts_and_deletes_leave_exact_key_set() {
    let mut trie = Trie::<char, usize>::init();
    let mut reference = HashSet::<String>::new();
    let mut keys = Vec::<String>::new();

    for i in 0..400 {
        let key = random_string(8);
        trie.insert(&as_symbols(&key), i);
        reference.insert(key.clone());
        keys.push(key);
    }
    for (i, key) in keys.iter().enumerate() {
        if i % 3 == 0 {
            trie.delete(&as_symbols(key));
            reference.remove(key);
        }
    }

    let survivors: HashSet<String> = trie
        .get_keys_for_prefix(&as_symbols(""))
        .iter()
        .map(|k| k.iter().collect())
        .collect();
    assert_eq!(survivors, reference);
}

#[test]
fn download_of_exactly_one_chunk_takes_two_steps() {
    let mut loader = InMemoryLoader::init();
    let k = "exact".to_string();
    loader.insert_new(&k, &"application/octet-stream".to_string());
    assert!(loader.append(&k, vec![1u8; CHUNK_SIZE]));

    match next_chunk(&loader, &k, 0) {
        TransferStep::Chunk { bytes, done } => {
            assert_eq!(bytes.len(), CHUNK_SIZE);
            assert!(!done);
        }
        TransferStep::Gone => panic!("object should be stored"),
    }
    match next_chunk(&loader, &k, CHUNK_SIZE) {
        TransferStep::Chunk { bytes, done } => {
            assert!(bytes.is_empty());
            assert!(done);
        }
        TransferStep::Gone => panic!("object should be stored"),
    }
}

#[test]
fn names_may_hold_any_characters() {
    let mut loader = InMemoryLoader::init();
    let k = "müsli/žluťoučký".to_string();
    loader.insert_new(&k, &"text/plain".to_string());
    assert!(loader.is_stored(&k));
    assert!(loader.append(&k, b"ok".to_vec()));

    let keys = loader.get_keys_for_prefix(&"müsli/".to_string());
    assert_eq!(keys, vec![k.clone()]);
    assert!(loader.delete(&k));
    assert!(!loader.is_stored(&k));
}
