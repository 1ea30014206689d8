use tcpserver::dict::Dict;

#[test]
fn dict_insert() {
    let mut d = Dict::default();
    let old = d.insert("hi", "baby");
    assert!(old.is_none());
    assert_eq!(d.size(), 1);

    let old = d.insert("hi", "something else");
    assert_eq!(old.unwrap(), "baby");
    assert_eq!(d.size(), 1);

    let old = d.insert("hello", "yellow");
    assert!(old.is_none());
    assert_eq!(d.size(), 2);
}

#[test]
fn it_works_big_time() {
    let mut d = Dict::default();

    let strs: Vec<String> = (0..18).map(|i| format!("{i}")).collect();

    for x in strs {
        d.insert(&x, &x);
    }

    for i in 0..6 {
        let key = format!("{}", i);
        let x = d.get(&key);
        assert_eq!(x.unwrap().key, key);
    }
    // the one migration began at the twelfth key and its last step ran in the
    // eighteenth insert
    assert!(d.secondary().is_empty());

    let e = d.get("???");
    assert!(e.is_none());
    assert!(d.secondary().is_empty());
}

#[test]
fn it_works() {
    let mut d = Dict::default();

    let pairs: Vec<String> = (0..10).map(|i| format!("{i}")).collect();

    for x in pairs {
        d.insert(&x, &x);
    }

    for i in 0..9 {
        let key = format!("{}", i);
        assert_eq!(d.get(&key).unwrap().value, key);
    }
    assert_eq!(d.size(), 10);
}

#[test]
fn eighteen_keys_migrate_and_stay_reachable() {
    let mut d = Dict::default();
    assert_eq!(d.primary().bucket_count(), 4);
    let mut started = 0;
    for i in 0..18 {
        let was = d.is_migrating();
        assert!(d.insert(&format!("{i}"), &format!("{i}")).is_none());
        if !was && d.is_migrating() {
            started += 1;
            // twelve keys in four buckets is the first load above two per bucket
            assert_eq!(i, 11);
            assert_eq!(d.primary().bucket_count(), 8);
            assert_eq!(d.secondary().bucket_count(), 4);
            assert_eq!(d.secondary().used(), 12);
        }
    }
    assert_eq!(started, 1);
    assert!(!d.is_migrating());
    assert!(d.secondary().is_empty());
    assert_eq!(d.secondary().bucket_count(), 0);
    assert_eq!(d.primary().bucket_count(), 8);
    assert_eq!(d.primary().used(), 18);
    assert_eq!(d.size(), 18);
    for i in 0..18 {
        let k = format!("{i}");
        let e = d.get(&k).unwrap();
        assert_eq!(e.key, k);
        assert_eq!(e.value, k);
    }
}

#[test]
fn migration_moves_two_entries_per_call() {
    let mut d = Dict::default();
    for i in 0..11 {
        d.insert(&format!("{i}"), "v");
    }
    assert!(!d.is_migrating());
    d.insert("11", "v");
    assert!(d.is_migrating());
    assert_eq!(d.primary().bucket_count(), 8);
    assert_eq!(d.secondary().used(), 12);
    assert_eq!(d.primary().used(), 0);
    d.get("0");
    assert_eq!(d.secondary().used(), 10);
    d.remove("nothing");
    assert_eq!(d.secondary().used(), 8);
    d.insert("new", "w");
    assert_eq!(d.secondary().used(), 6);
    assert_eq!(d.size(), 13);
    assert_eq!(d.secondary().used(), 4);
    *d.get_mut("1").unwrap() = "changed".to_string();
    assert_eq!(d.secondary().used(), 2);
    d.get("2");
    assert!(!d.is_migrating());
    assert_eq!(d.secondary().bucket_count(), 0);
    assert_eq!(d.size(), 13);
    assert_eq!(d.get("1").unwrap().value, "changed");
}

#[test]
fn insert_of_a_key_waiting_in_the_old_table() {
    let mut d = Dict::default();
    for i in 0..12 {
        d.insert(&format!("{i}"), "old");
    }
    assert!(d.is_migrating());
    let mut waiting = None;
    for i in 0..12 {
        if d.secondary().contains_key(&format!("{i}")) {
            waiting = Some(format!("{i}"));
        }
    }
    let k = waiting.unwrap();
    assert_eq!(d.insert(&k, "new"), Some("old".to_string()));
    assert_eq!(d.size(), 12);
    assert!(d.primary().contains_key(&k) != d.secondary().contains_key(&k));
    assert_eq!(d.get(&k).unwrap().value, "new");
}

#[test]
fn size_counts_keys_inserted_minus_removed() {
    let mut d = Dict::default();
    for i in 0..40 {
        d.insert(&format!("k{i}"), "v");
    }
    for i in 0..40 {
        d.insert(&format!("k{i}"), "w");
    }
    assert_eq!(d.size(), 40);
    let mut removed = 0;
    for i in (0..50).step_by(3) {
        if d.remove(&format!("k{i}")).is_some() {
            removed += 1;
        }
    }
    assert_eq!(removed, 14);
    assert_eq!(d.size(), 40 - 14);
    assert!(d.remove("k0").is_none());
    assert_eq!(d.size(), 26);
}

#[test]
fn keys_found_once_during_migration() {
    let mut d = Dict::default();
    for i in 0..30 {
        d.insert(&format!("k{i}"), &format!("v{i}"));
        for j in 0..=i {
            let k = format!("k{j}");
            let in_primary = d.primary().contains_key(&k);
            let in_secondary = d.secondary().contains_key(&k);
            assert!(in_primary != in_secondary);
        }
    }
}

#[test]
fn insert_twice_returns_first_value() {
    let mut d = Dict::default();
    d.insert("x", "1");
    d.insert("y", "2");
    assert_eq!(d.insert("k", "v"), None);
    let n = d.size();
    assert_eq!(d.insert("k", "v2"), Some("v".to_string()));
    assert_eq!(d.size(), n);
    assert_eq!(d.get("k").unwrap().value, "v2");
}

#[test]
fn remove_returns_the_entry() {
    let mut d = Dict::default();
    d.insert("a", "1");
    let e = d.remove("a").unwrap();
    assert_eq!(e.key, "a");
    assert_eq!(e.value, "1");
    assert!(d.get("a").is_none());
    assert_eq!(d.size(), 0);
}
