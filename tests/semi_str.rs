use semistr::{Error, SemiStr};
use std::collections::hash_map::DefaultHasher;
use std::hash::{Hash, Hasher};

fn chars_of(s: &str) -> Vec<char> {
    s.chars().collect()
}

fn hash_of<T: Hash + ?Sized>(v: &T) -> u64 {
    let mut h = DefaultHasher::new();
    v.hash(&mut h);
    h.finish()
}

fn corpus() -> Vec<&'static str> {
    vec![
        "",
        "a",
        "abcdefghijkl",
        "abcdefghijklm",
        "abcdefghijklmnopqrstuvwxyz",
        "abcdefghijklmnopqrstuvwxyy",
        "héllo",
        "€€€€€",
        "日本語のテキストです",
        "abcd",
        "abc",
    ]
}

#[test]
fn test_semi_str() {
    let s1 = SemiStr::new("hello");
    assert!(!s1.is_empty());
    assert_eq!(5, s1.len());
    assert_eq!(s1, "hello");
    assert_eq!("hello", s1);
    let s2 = SemiStr::inline("world");
    assert!(s2 > s1);
    let s3 = SemiStr::new("a little longer than 12 bytes");
    let ascii: Vec<char> = b"a little longer than 12 bytes"
        .iter()
        .map(|b| *b as char)
        .collect();
    let s4 = SemiStr::from_chars(&ascii);
    assert_eq!(s3, s4);
    let s5 = SemiStr::from_chars(&chars_of("short str"));
    assert_eq!(s5.len(), 9);
    println!("{:?}, {}", s5, s5.as_str());
    let s6 = SemiStr::default();
    assert!(s6.is_empty());
    let s7 = SemiStr::new("");
    assert_eq!(s6, s7);
    assert!(SemiStr::try_from(&[0u8, 0xff, 0xff, 0xff][..]).is_err());
}

#[test]
fn text_and_length_match_the_input() {
    for s in corpus() {
        let v = SemiStr::new(s);
        assert_eq!(v.as_str(), s);
        assert_eq!(v.as_bytes(), s.as_bytes());
        assert_eq!(v.len(), s.len());
        assert_eq!(v.is_empty(), s.is_empty());
    }
}

#[test]
fn inline_exactly_up_to_twelve_bytes() {
    assert!(SemiStr::new("").is_inline());
    assert!(SemiStr::new("abcdefghijkl").is_inline());
    assert!(!SemiStr::new("abcdefghijklm").is_inline());
    assert!(SemiStr::new("€€€€").is_inline());
    assert!(!SemiStr::new("€€€€€").is_inline());
    for s in corpus() {
        assert_eq!(SemiStr::new(s).is_inline(), s.len() <= 12);
    }
}

#[test]
fn hello_scenario() {
    let v = SemiStr::new("hello");
    assert_eq!(v.len(), 5);
    assert!(!v.is_empty());
    assert_eq!(v, "hello");
    assert!(v.is_inline());
}

#[test]
fn long_text_scenario() {
    let v = SemiStr::new("a little longer than 12 bytes");
    assert_eq!(v.len(), 29);
    assert!(!v.is_inline());
    assert_eq!(v.as_str(), "a little longer than 12 bytes");
}

#[test]
fn equality_is_an_equivalence() {
    let c = corpus();
    for a in &c {
        let va = SemiStr::new(a);
        assert!(va == SemiStr::new(a));
        for b in &c {
            let vb = SemiStr::new(b);
            assert_eq!(va == vb, vb == va);
            assert_eq!(va == vb, a == b);
            for d in &c {
                let vd = SemiStr::new(d);
                if va == vb && vb == vd {
                    assert!(va == vd);
                }
            }
        }
    }
}

#[test]
fn long_values_with_same_prefix_differ() {
    let a = SemiStr::new("abcdefghijklmnopqrstuvwxyz");
    let b = SemiStr::new("abcdefghijklmnopqrstuvwxyy");
    let c = SemiStr::new("abcXefghijklmnopqrstuvwxyz");
    assert!(a != b);
    assert!(a != c);
    assert!(a != "abcXefghijklmnopqrstuvwxyz");
    assert!(a == "abcdefghijklmnopqrstuvwxyz");
}

#[test]
fn order_is_byte_lexicographic() {
    let c = corpus();
    for a in &c {
        for b in &c {
            let va = SemiStr::new(a);
            let vb = SemiStr::new(b);
            assert_eq!(va.cmp(&vb), a.as_bytes().cmp(b.as_bytes()));
            assert_eq!(va.partial_cmp(&vb), Some(a.cmp(b)));
            assert_eq!(va.cmp(&vb) == std::cmp::Ordering::Equal, va == vb);
            assert_eq!(vb.cmp(&va), va.cmp(&vb).reverse());
        }
    }
    assert!(SemiStr::new("abc") < SemiStr::new("abcd"));
    assert!(SemiStr::new("abcdefghijklmnop") > SemiStr::new("abcdefghijklmno"));
    assert!(SemiStr::new("b") > SemiStr::new("abcdefghijklmnop"));
}

#[test]
fn inline_world_after_hello() {
    assert!(SemiStr::inline("world") > SemiStr::new("hello"));
}

#[test]
fn equal_values_hash_alike() {
    for s in corpus() {
        let a = SemiStr::new(s);
        let b = SemiStr::from_chars(&chars_of(s));
        assert_eq!(a, b);
        assert_eq!(hash_of(&a), hash_of(&b));
        assert_eq!(hash_of(&a), hash_of(s));
    }
    assert_ne!(hash_of(&SemiStr::new("abc")), hash_of(&SemiStr::new("abd")));
}

#[test]
fn clone_is_equal_and_survives_drop() {
    let a = SemiStr::new("a heap value that is shared");
    let b = a.clone();
    assert_eq!(a, b);
    drop(a);
    assert_eq!(b.as_str(), "a heap value that is shared");
    assert_eq!(b.len(), 27);
    let c = SemiStr::new("tiny");
    let d = c.clone();
    drop(c);
    assert_eq!(d, "tiny");
}

#[test]
fn text_and_bytes_round_trip() {
    for s in corpus() {
        let a = SemiStr::try_from_str(s).unwrap();
        let b = SemiStr::try_from_bytes(s.as_bytes()).unwrap();
        let c = SemiStr::try_from_string(s.to_string()).unwrap();
        assert_eq!(a, b);
        assert_eq!(a, c);
        assert_eq!(c.as_str(), s);
        assert_eq!(b.is_inline(), s.len() <= 12);
    }
}

#[test]
fn invalid_bytes_are_rejected() {
    let r = SemiStr::try_from_bytes(&[0x00, 0xFF, 0xFF, 0xFF]);
    assert_eq!(r.unwrap_err(), Error::InvalidUtf8String);
    let r = SemiStr::try_from_bytes(&[0x61, 0x62, 0xC3]);
    assert_eq!(r.unwrap_err(), Error::InvalidUtf8String);
}

#[test]
fn value_equals_text_both_ways() {
    for s in corpus() {
        let v = SemiStr::new(s);
        assert!(v == s);
        assert!(s == v);
        assert!(v == *s);
        assert!(*s == v);
        assert!(v != "something else entirely");
        assert!("x" != v);
    }
}

#[test]
fn builder_matches_text_constructor() {
    for s in corpus() {
        let v = SemiStr::from_chars(&chars_of(s));
        assert_eq!(v, SemiStr::new(s));
        assert_eq!(v.as_str(), s);
        assert_eq!(v.is_inline(), s.len() <= 12);
    }
    // few characters, but more than twelve bytes: switches to the heap
    let v = SemiStr::from_chars(&chars_of("ab€€€€"));
    assert_eq!(v.len(), 14);
    assert!(!v.is_inline());
    assert_eq!(v.as_str(), "ab€€€€");
}

#[test]
fn builder_short_text_scenario() {
    let v = SemiStr::from_chars(&chars_of("short str"));
    assert_eq!(v.len(), 9);
    assert_eq!(v.as_str(), "short str");
}

#[test]
fn default_is_empty_text() {
    let d = SemiStr::default();
    assert_eq!(d, SemiStr::new(""));
    assert!(d.is_empty());
    assert_eq!(d.len(), 0);
    assert_eq!(d.as_str(), "");
}

#[test]
fn multibyte_inline_text_reads_back() {
    let v = SemiStr::inline("héllo");
    assert_eq!(v.as_str(), "héllo");
    assert_eq!(v.len(), 6);
    let w = SemiStr::from_chars(&['日', 'é', 'a']);
    assert_eq!(w.as_bytes(), "日éa".as_bytes());
}

#[test]
fn std_conversions_and_views() {
    let a = SemiStr::try_from("via the TryFrom impl for text").unwrap();
    let b = SemiStr::try_from("via the TryFrom impl for text".as_bytes()).unwrap();
    let c = SemiStr::try_from(String::from("via the TryFrom impl for text")).unwrap();
    assert_eq!(a, b);
    assert_eq!(b, c);
    let short: &str = a.as_ref();
    assert_eq!(short, "via the TryFrom impl for text");
    assert!(a.starts_with("via"));
    assert_eq!(&a[0..3], "via");
    assert_eq!(
        SemiStr::try_from(&[0xC3u8, 0x28][..]).unwrap_err(),
        Error::InvalidUtf8String
    );
}

#[test]
fn lookup_by_text_in_hash_map() {
    let mut m = std::collections::HashMap::new();
    m.insert(SemiStr::new("short"), 1);
    m.insert(SemiStr::new("a key longer than twelve bytes"), 2);
    assert_eq!(m.get("short"), Some(&1));
    assert_eq!(m.get("a key longer than twelve bytes"), Some(&2));
    assert_eq!(m.get("missing"), None);
}
