use tcpserver::hash_table::{HashTable, DEFAULT_BUCKET_SIZE};
use tcpserver::list::Entry;

fn node(key: &str, value: &str) -> Entry {
    Entry::new(key, value)
}

#[test]
fn hash_table_insert() {
    let mut t = HashTable::default();

    let old = t.insert(node("foo", "bar"));
    assert_eq!(old, None);
    assert_eq!(t.used(), 1);

    let mut t = HashTable::new_empty();

    let old = t.insert_without_resize(node("foo", "bar"));
    assert_eq!(old, None);
    assert_eq!(t.used(), 1);

    let old = t.insert_without_resize(node("foo", "baz"));
    assert_eq!(old, Some("bar".into()));
    assert_eq!(t.used(), 1);

    t.insert_without_resize(node("peti", "is a baby"));
    t.insert_without_resize(node("sina", "is a tiny baby"));

    assert_eq!(t.used(), 3);
    assert_eq!(t.mask() + 1, t.bucket_count());
}

#[test]
fn hash_table_get() {
    let mut t = HashTable::default();

    t.insert(node("peti", "is a baby"));
    t.insert(node("sina", "is a tiny baby"));

    assert_eq!(t.get("peti"), Some(&node("peti", "is a baby")));
    assert_eq!(t.get("sina"), Some(&node("sina", "is a tiny baby")));
    assert_eq!(t.mask() + 1, t.bucket_count());
}

#[test]
fn hash_table_dbg() {
    // a table's bucket count is a power of two: sixteen is the nearest to twelve above it
    let mut t = HashTable::new_with_buckets(16);

    let pairs: Vec<(String, String)> = (0..25)
        .map(|i| {
            let k = format!("{i}");
            let v = format!("{i}");
            (k, v)
        })
        .collect();

    for (k, v) in pairs {
        t.insert(node(&k, &v));
    }

    assert_eq!(t.mask() + 1, t.bucket_count());
    assert_eq!(t.used(), 25);
    assert_eq!(t.load_factor(), 1);
}

#[test]
fn hash_table_dbg_long_chains() {
    let mut t = HashTable::new_with_buckets(2);

    let pairs: Vec<(String, String)> = (0..25)
        .map(|i| {
            let k = format!("{i}");
            let v = format!("{i}");
            (k, v)
        })
        .collect();

    for (k, v) in pairs {
        t.insert(node(&k, &v));
    }

    assert_eq!(t.mask() + 1, t.bucket_count());
    assert_eq!(t.bucket_count(), 2);
    assert_eq!(t.load_factor(), 12);
}

#[test]
fn hash_table_iter() {
    let mut h = HashTable::new_with_buckets(0);

    for i in 0..32 {
        h.insert_without_resize(node(format!("{}", i).as_str(), ""));
    }

    let mut seen: Vec<String> = Vec::new();
    let mut it = h.iter();
    while let Some(node) = it.next() {
        println!("{node:?}");
        seen.push(node.key.clone());
    }
    seen.sort();
    let mut want: Vec<String> = (0..32).map(|i| format!("{}", i)).collect();
    want.sort();
    assert_eq!(seen, want);
}

#[test]
fn hash_table_rust_doc_example() {
    let mut book_reviews = HashTable::new_with_buckets(0);

    // Review some books.
    book_reviews.insert_without_resize(node("Adventures of Huckleberry Finn", "My favorite book."));
    book_reviews.insert_without_resize(node("Grimms' Fairy Tales", "Masterpiece."));
    book_reviews.insert_without_resize(node("Pride and Prejudice", "Very enjoyable."));
    book_reviews.insert_without_resize(node("The Adventures of Sherlock Holmes", "Eye lyked it alot."));

    if !book_reviews.contains_key("Les Misérables") {
        println!(
            "We've got {} reviews, but Les Misérables ain't one.",
            book_reviews.used()
        );
    }

    // oops, this review has a lot of spelling mistakes, let's delete it.
    book_reviews.remove("The Adventures of Sherlock Holmes");

    // Look up the values associated with some keys.
    let to_find = ["Pride and Prejudice", "Alice's Adventure in Wonderland"];
    for &book in &to_find {
        match book_reviews.get(book) {
            Some(review) => println!("{book}: {review:?}"),
            None => println!("{book} is unreviewed."),
        }
    }

    // Iterate over everything.
    let mut it = book_reviews.iter();
    while let Some(node) = it.next() {
        println!("{}: \"{}\"", node.key, node.value);
    }

    assert_eq!(book_reviews.used(), 3);
    assert!(!book_reviews.contains_key("The Adventures of Sherlock Holmes"));
    assert_eq!(
        book_reviews.get("Pride and Prejudice"),
        Some(&node("Pride and Prejudice", "Very enjoyable."))
    );
    assert_eq!(book_reviews.get("Alice's Adventure in Wonderland"), None);
}

#[test]
fn table_default_bucket_count() {
    let t = HashTable::default();
    assert_eq!(t.bucket_count(), DEFAULT_BUCKET_SIZE);
    assert_eq!(t.bucket_count(), 4);
    assert_eq!(t.mask(), 3);
    assert!(t.is_empty());
    assert_eq!(t.load_factor(), 0);
    let e = HashTable::new_empty();
    assert_eq!(e.bucket_count(), 0);
    assert_eq!(e.load_factor(), 0);
    assert_eq!(e.get("x"), None);
}

#[test]
fn table_remove_gives_back_the_entry() {
    let mut t = HashTable::new_with_buckets(8);
    t.insert(node("a", "1"));
    t.insert(node("b", "2"));
    assert_eq!(t.remove("a"), Some(node("a", "1")));
    assert_eq!(t.remove("a"), None);
    assert_eq!(t.used(), 1);
    assert!(t.contains_key("b"));
    assert!(!t.contains_key("a"));
}

#[test]
fn table_insert_never_adds_buckets() {
    let mut t = HashTable::new_with_buckets(1);
    for i in 0..50 {
        t.insert(node(&format!("k{i}"), "v"));
    }
    assert_eq!(t.bucket_count(), 1);
    assert_eq!(t.used(), 50);
    assert_eq!(t.load_factor(), 50);
    for i in 0..50 {
        assert_eq!(t.get(&format!("k{i}")), Some(&node(&format!("k{i}"), "v")));
    }
}
