use tcpserver::list::{Entry, IterOwn, List};

#[test]
fn push() {
    let mut list = List::new();

    for i in 0..10 {
        let k = format!("key{i}");
        let v = format!("value{i}");
        list.push_from_parts(k, v);
    }

    assert_eq!(10, list.len());
}

#[test]
fn pop() {
    let mut list = List::new();

    // Check empty list behaves right
    assert!(list.pop().is_none());

    // Populate list
    list.push_from_parts("k1".to_string(), "v1".to_string());
    list.push_from_parts("k2".to_string(), "v2".to_string());
    list.push_from_parts("k3".to_string(), "v3".to_string());

    // Check normal removal
    let p = list.pop().unwrap();
    assert_eq!(p.key, "k3");
    assert_eq!(p.value, "v3");

    let p = list.pop().unwrap();
    assert_eq!(p.key, "k2");
    assert_eq!(p.value, "v2");

    // Push some more just to make sure nothing's corrupted
    list.push_from_parts("k5".to_string(), "v5".to_string());
    list.push_from_parts("k6".to_string(), "v6".to_string());

    // Check normal removal
    let p = list.pop().unwrap();
    assert_eq!(p.key, "k6");
    assert_eq!(p.value, "v6");
    let p = list.pop().unwrap();
    assert_eq!(p.key, "k5");
    assert_eq!(p.value, "v5");

    // Check exhaustion
    let p = list.pop().unwrap();
    assert_eq!(p.key, "k1");
    assert_eq!(p.value, "v1");
    assert!(list.pop().is_none());
}

#[test]
fn peek() {
    let mut list = List::new();
    assert_eq!(list.peek(), None);
    assert_eq!(list.peek_mut(), None);

    list.push_from_parts("k1".to_string(), "v1".to_string());
    list.push_from_parts("k2".to_string(), "v2".to_string());
    list.push_from_parts("k3".to_string(), "v3".to_string());

    assert_eq!(list.peek(), Some(&Entry::new("k3", "v3")));
    assert_eq!(list.peek_mut(), Some(&mut Entry::new("k3", "v3")));
    list.pop();
    assert_eq!(list.peek(), Some(&Entry::new("k2", "v2")));
    assert_eq!(list.peek_mut(), Some(&mut Entry::new("k2", "v2")));
    list.pop();
    assert_eq!(list.peek(), Some(&Entry::new("k1", "v1")));
    assert_eq!(list.peek_mut(), Some(&mut Entry::new("k1", "v1")));
    list.pop();
    assert_eq!(list.peek(), None);
    assert_eq!(list.peek_mut(), None);
}

#[test]
fn mod_iter() {
    let mut list = List::new();

    for i in 0..10 {
        let k = format!("key{i}");
        let v = format!("value{i}");
        list.push_from_parts(k, v);
    }

    let mut it = list.iter();
    let mut i = 0;
    while let Some(e) = it.next() {
        let k = format!("key{}", 10 - (i + 1));
        let v = format!("value{}", 10 - (i + 1));
        assert_eq!(e, &Entry::new(&k, &v));
        i += 1;
    }
    assert_eq!(i, 10);

    assert_eq!(list.len(), 10);

    let mut own = IterOwn::new(list);
    let mut i = 0;
    while let Some(e) = own.next() {
        let k = format!("key{}", 10 - (i + 1));
        let v = format!("value{}", 10 - (i + 1));
        assert_eq!(e, Entry::new(&k, &v));
        i += 1;
    }
    assert_eq!(i, 10);
}

#[test]
fn peek_mut_changes_the_front() {
    let mut list = List::new();
    list.push_from_parts("k1".to_string(), "v1".to_string());
    list.push_from_parts("k2".to_string(), "v2".to_string());
    if let Some(e) = list.peek_mut() {
        e.value = "changed".to_string();
    }
    assert_eq!(list.peek(), Some(&Entry::new("k2", "changed")));
    assert_eq!(list.len(), 2);
}

#[test]
fn find_and_remove_take_the_first_match() {
    let mut list = List::new();
    list.push_from_parts("a".to_string(), "1".to_string());
    list.push_from_parts("b".to_string(), "2".to_string());
    list.push_from_parts("a".to_string(), "3".to_string());
    assert_eq!(list.find("a"), Some(&Entry::new("a", "3")));
    assert_eq!(list.find("zzz"), None);
    if let Some(v) = list.find_value_mut("b") {
        v.push('!');
    }
    assert_eq!(list.find("b"), Some(&Entry::new("b", "2!")));
    assert_eq!(list.remove("a"), Some(Entry::new("a", "3")));
    assert_eq!(list.find("a"), Some(&Entry::new("a", "1")));
    assert_eq!(list.remove("missing"), None);
    assert_eq!(list.len(), 2);
}
