use delta_bridge::buffer::{ByteArray, ByteArrayRef, DynamicArray};
use delta_bridge::kv::KeyValuePair;
use delta_bridge::map::{map_add, map_new, StringMap};
use delta_bridge::token::{cancellation_token_cancel, cancellation_token_free, cancellation_token_new};

fn sorted<T: Ord>(mut v: Vec<T>) -> Vec<T> {
    v.sort();
    v
}

fn filled_map() -> Option<StringMap> {
    let mut m = Some(map_new(2));
    let (a, one, b) = (String::from("a"), String::from("1"), String::from("b"));
    assert!(map_add(&mut m, &ByteArrayRef::from_string(&a), Some(&ByteArrayRef::from_string(&one))));
    assert!(map_add(&mut m, &ByteArrayRef::from_string(&b), None));
    m
}

#[test]
fn into_map_keeps_absent_values() {
    let out = StringMap::into_map(filled_map()).unwrap();
    assert_eq!(
        sorted(out),
        vec![(String::from("a"), Some(String::from("1"))), (String::from("b"), None)]
    );
}

#[test]
fn into_hash_map_reads_absent_as_empty() {
    let out = StringMap::into_hash_map(filled_map()).unwrap();
    assert_eq!(
        sorted(out),
        vec![(String::from("a"), String::from("1")), (String::from("b"), String::new())]
    );
}

#[test]
fn missing_map_is_tolerated() {
    let mut m: Option<StringMap> = None;
    assert!(!map_add(&mut m, &ByteArrayRef::from_str("k"), Some(&ByteArrayRef::from_str("v"))));
    assert!(m.is_none());
    assert!(StringMap::into_map(None).is_none());
    assert!(StringMap::into_hash_map(None).is_none());
}

#[test]
fn add_overwrites_existing_key() {
    let mut m = Some(map_new(0));
    assert!(map_add(&mut m, &ByteArrayRef::from_str("k"), Some(&ByteArrayRef::from_str("v1"))));
    assert!(map_add(&mut m, &ByteArrayRef::from_str("k"), Some(&ByteArrayRef::from_str("v2"))));
    assert!(map_add(&mut m, &ByteArrayRef::from_str("j"), Some(&ByteArrayRef::from_str(""))));
    assert!(map_add(&mut m, &ByteArrayRef::from_str("k"), None));
    let out = sorted(StringMap::into_map(m).unwrap());
    assert_eq!(out, vec![(String::from("j"), Some(String::new())), (String::from("k"), None)]);
}

#[test]
fn round_trip_of_present_values() {
    let entries = vec![("x", "10"), ("y", "é"), ("z", "")];
    let mut m = Some(StringMap::new(3));
    for (k, v) in &entries {
        assert!(map_add(&mut m, &ByteArrayRef::from_str(k), Some(&ByteArrayRef::from_str(v))));
    }
    let out = sorted(StringMap::into_hash_map(m).unwrap());
    let expected: Vec<(String, String)> =
        entries.iter().map(|(k, v)| (k.to_string(), v.to_string())).collect();
    assert_eq!(out, expected);
}

#[test]
fn owned_buffer_is_freed_once() {
    for _ in 0..100 {
        let mut b = ByteArray::from_vec(vec![1, 2, 3]);
        assert_eq!(b.size(), 3);
        assert!(b.free());
        assert!(b.is_released());
        assert!(!b.free());
        assert!(b.into_vec().is_none());
    }
}

#[test]
fn disabled_buffer_survives_free() {
    let mut b = ByteArray::from_vec_disable_free(vec![7, 8]);
    for _ in 0..3 {
        assert!(!b.free());
        assert!(!b.is_released());
        assert_eq!(b.size(), 2);
    }
    assert_eq!(b.into_vec(), Some(vec![7, 8]));
}

#[test]
fn buffer_from_text_holds_utf8() {
    let b = ByteArray::from_utf8(String::from("hé"));
    assert_eq!(b.size(), 3);
    assert_eq!(b.into_vec(), Some(vec![0x68, 0xc3, 0xa9]));
}

#[test]
fn dynamic_array_frees_every_buffer() {
    let mut d = DynamicArray::from_vec_string(vec![String::from("ab"), String::from("")]);
    assert_eq!(d.len(), 2);
    assert_eq!(d.free(), 2);
    assert_eq!(d.len(), 0);
    assert_eq!(d.free(), 0);
}

#[test]
fn dynamic_array_keeps_order() {
    let d = DynamicArray::from_vec_string(vec![String::from("p"), String::from("qr")]);
    let items: Vec<Option<Vec<u8>>> = d.into_vec().into_iter().map(|b| b.into_vec()).collect();
    assert_eq!(items, vec![Some(b"p".to_vec()), Some(b"qr".to_vec())]);
}

#[test]
fn entries_from_optional_pairs() {
    let r = KeyValuePair::from_optional_hash_map(vec![
        (String::from("a"), Some(String::from("1"))),
        (String::from("b"), None),
    ]);
    assert_eq!(r.len(), 2);
    assert_eq!(r[0].key(), "a");
    assert_eq!(r[0].value(), Some("1"));
    assert_eq!(r[1].key(), "b");
    assert_eq!(r[1].value(), None);
}

#[test]
fn entries_from_pairs() {
    let r = KeyValuePair::from_hash_map(vec![(String::from("k"), String::new())]);
    assert_eq!(r.len(), 1);
    assert_eq!(r[0].key(), "k");
    assert_eq!(r[0].value(), Some(""));
}

#[test]
fn view_reads_empty_as_absent() {
    let e = ByteArrayRef::from_str("");
    assert_eq!(e.size(), 0);
    assert!(e.to_option_slice().is_none());
    assert!(e.to_option_vec().is_none());
    assert!(e.to_option_str().is_none());
    assert!(e.to_option_string().is_none());
    let s = String::from("añ");
    let v = ByteArrayRef::from_string(&s);
    assert_eq!(v.size(), 3);
    assert_eq!(v.to_vec(), vec![0x61, 0xc3, 0xb1]);
    assert_eq!(v.to_slice(), "añ".as_bytes());
    assert_eq!(v.to_str(), "añ");
    assert_eq!(v.to_owned_string(), s);
    assert_eq!(v.to_option_string(), Some(s.clone()));
    assert_eq!(v.to_option_vec(), Some(vec![0x61, 0xc3, 0xb1]));
}

#[test]
fn token_cancel_is_visible_and_idempotent() {
    let mut t = Some(cancellation_token_new());
    let observer = t.as_mut().unwrap().share();
    assert!(!t.as_ref().unwrap().is_cancelled());
    assert!(!observer.is_cancelled());
    assert!(cancellation_token_cancel(&mut t));
    assert!(t.as_ref().unwrap().is_cancelled());
    assert!(observer.is_cancelled());
    assert!(cancellation_token_cancel(&mut t));
    assert!(t.as_ref().unwrap().is_cancelled());
    assert!(cancellation_token_free(t));
    assert!(observer.is_cancelled());
}

#[test]
fn token_cancel_through_shared_handle() {
    let mut t = cancellation_token_new();
    let mut observer = Some(t.share());
    assert!(cancellation_token_cancel(&mut observer));
    assert!(t.is_cancelled());
}

#[test]
fn token_missing_handle_is_tolerated() {
    let mut none = None;
    assert!(!cancellation_token_cancel(&mut none));
    assert!(none.is_none());
    assert!(!cancellation_token_free(None));
}

#[test]
fn newline_pairs_in_order() {
    let v = ByteArrayRef::from_str("a\n1\nb\n2");
    assert_eq!(v.to_str_map_on_newlines(), vec![("a", "1"), ("b", "2")]);
}

#[test]
fn newline_pairs_drop_odd_piece() {
    assert_eq!(ByteArrayRef::from_str("a\n1\nb").to_str_map_on_newlines(), vec![("a", "1")]);
    assert_eq!(ByteArrayRef::from_str("").to_str_map_on_newlines(), Vec::<(&str, &str)>::new());
    assert_eq!(ByteArrayRef::from_str("solo").to_str_map_on_newlines(), Vec::<(&str, &str)>::new());
}

#[test]
fn newline_pairs_keep_empty_pieces() {
    assert_eq!(ByteArrayRef::from_str("k\n\n").to_str_map_on_newlines(), vec![("k", "")]);
    assert_eq!(ByteArrayRef::from_str("\nv").to_str_map_on_newlines(), vec![("", "v")]);
}

#[test]
fn newline_pairs_owned_multibyte() {
    let s = String::from("é\nü\nkey\nvalue");
    let r = ByteArrayRef::from_string(&s).to_string_map_on_newlines();
    assert_eq!(
        r,
        vec![
            (String::from("é"), String::from("ü")),
            (String::from("key"), String::from("value"))
        ]
    );
}

#[test]
fn dynamic_array_keeps_disabled_buffers() {
    let items = vec![ByteArray::from_vec(vec![1]), ByteArray::from_vec_disable_free(vec![2, 3])];
    let mut d = DynamicArray::from_parts(items, false);
    assert_eq!(d.free(), 1);
    assert_eq!(d.len(), 1);
    let kept = d.into_vec();
    assert_eq!(kept.len(), 1);
    assert!(kept[0].is_free_disabled());
    assert_eq!(kept[0].size(), 2);
}

#[test]
fn dynamic_array_with_frees_disabled_is_untouched() {
    let mut d = DynamicArray::from_parts(vec![ByteArray::from_vec(vec![1])], true);
    assert_eq!(d.free(), 0);
    assert_eq!(d.len(), 1);
}
