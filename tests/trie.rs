use trie::symbol::INVALID_SYMBOL;
use trie::{Char, Chars, Trie};

fn key(s: &str) -> Chars {
    Chars::try_from(s).unwrap()
}

fn indices(cs: &Chars) -> Vec<usize> {
    cs.as_ref().iter().map(|c| c.index()).collect()
}

#[test]
fn test_trie() {
    let cases: Vec<(&str, i32)> = vec![("in", 1), ("inside", 2), ("hello", 3), ("he", 4), ("her", 5)];

    let mut trie: Trie<i32> = Trie::new();
    for i in 0..cases.len() {
        trie.insert(Chars::try_from(cases[i].0).unwrap().as_ref(), cases[i].1);
        for j in 0..=i {
            let v = trie.find(Chars::try_from(cases[j].0).unwrap().as_ref());
            assert_eq!(v, Some(&cases[j].1));
        }
    }
}

#[test]
fn test_char() {
    assert_eq!(Char::try_from(b'a').map(|c| c.index()), Ok(0));
    assert!(Char::try_from(b'A').is_err());
    assert_eq!(
        Chars::try_from("hello").map(|cs| indices(&cs)),
        Ok(vec![7, 4, 11, 11, 14])
    );
    assert!(Chars::try_from("Hello").is_err());
}

#[test]
fn alphabet_boundaries() {
    assert_eq!(Char::try_from(b'a').map(|c| c.index()), Ok(0));
    assert_eq!(Char::try_from(b'z').map(|c| c.index()), Ok(25));
    assert_eq!(Char::try_from(b'A'), Err(INVALID_SYMBOL));
    assert!(Char::try_from(b'`').is_err());
    assert!(Char::try_from(b'{').is_err());
    assert!(Char::try_from(b'0').is_err());
    assert!(Char::try_from(0xe9u8).is_err());
}

#[test]
fn equal_symbols_compare_equal() {
    assert_eq!(Char::try_from(b'q'), Char::try_from(b'q'));
    assert_ne!(Char::try_from(b'q'), Char::try_from(b'r'));
}

#[test]
fn invalid_text_is_rejected_whole() {
    assert_eq!(Chars::try_from("abC"), Err(INVALID_SYMBOL));
    assert_eq!(Chars::try_from("ab1"), Err(INVALID_SYMBOL));
    assert_eq!(Chars::try_from("a b"), Err(INVALID_SYMBOL));
    assert_eq!(Chars::try_from("a-b"), Err(INVALID_SYMBOL));
    assert_eq!(Chars::try_from("caf\u{e9}"), Err(INVALID_SYMBOL));
    assert_eq!(Chars::try_from("Zebra"), Err(INVALID_SYMBOL));
}

#[test]
fn valid_text_converts_every_byte() {
    assert_eq!(indices(&key("az")), vec![0, 25]);
    assert_eq!(indices(&key("")), Vec::<usize>::new());
    assert_eq!(key("abc"), key("abc"));
    assert_ne!(key("abc"), key("abd"));
}

#[test]
fn find_after_insert() {
    let mut t: Trie<u64> = Trie::new();
    t.insert(key("word").as_ref(), 42);
    assert_eq!(t.find(key("word").as_ref()), Some(&42));
}

#[test]
fn overwrite_keeps_last_value() {
    let mut t: Trie<&str> = Trie::new();
    t.insert(key("key").as_ref(), "first");
    t.insert(key("key").as_ref(), "second");
    assert_eq!(t.find(key("key").as_ref()), Some(&"second"));
    assert_eq!(t.find(key("ke").as_ref()), None);
    assert_eq!(t.find(key("keys").as_ref()), None);
}

#[test]
fn overwrite_at_branching_node() {
    let mut t: Trie<i32> = Trie::new();
    t.insert(key("ab").as_ref(), 1);
    t.insert(key("abc").as_ref(), 2);
    t.insert(key("ab").as_ref(), 3);
    assert_eq!(t.find(key("ab").as_ref()), Some(&3));
    assert_eq!(t.find(key("abc").as_ref()), Some(&2));
}

#[test]
fn prefix_then_longer_key() {
    let mut t: Trie<i32> = Trie::new();
    t.insert(key("in").as_ref(), 10);
    t.insert(key("inside").as_ref(), 20);
    assert_eq!(t.find(key("in").as_ref()), Some(&10));
    assert_eq!(t.find(key("inside").as_ref()), Some(&20));
}

#[test]
fn longer_key_then_prefix() {
    let mut t: Trie<i32> = Trie::new();
    t.insert(key("inside").as_ref(), 20);
    t.insert(key("in").as_ref(), 10);
    assert_eq!(t.find(key("inside").as_ref()), Some(&20));
    assert_eq!(t.find(key("in").as_ref()), Some(&10));
}

#[test]
fn missing_keys_are_not_found() {
    let mut t: Trie<i32> = Trie::new();
    assert_eq!(t.find(key("a").as_ref()), None);
    t.insert(key("in").as_ref(), 1);
    t.insert(key("inside").as_ref(), 2);
    assert_eq!(t.find(key("i").as_ref()), None);
    assert_eq!(t.find(key("ins").as_ref()), None);
    assert_eq!(t.find(key("insides").as_ref()), None);
    assert_eq!(t.find(key("inn").as_ref()), None);
    assert_eq!(t.find(key("x").as_ref()), None);
    assert_eq!(t.find(key("zzz").as_ref()), None);
}

#[test]
fn single_symbol_keys_at_both_ends() {
    let mut t: Trie<char> = Trie::new();
    t.insert(key("a").as_ref(), 'a');
    t.insert(key("z").as_ref(), 'z');
    assert_eq!(t.find(key("a").as_ref()), Some(&'a'));
    assert_eq!(t.find(key("z").as_ref()), Some(&'z'));
    assert_eq!(t.find(key("m").as_ref()), None);
}

#[test]
fn long_key() {
    let text = "abcdefghijklmnopqrstuvwxyz".repeat(8);
    let mut t: Trie<usize> = Trie::new();
    t.insert(key(&text).as_ref(), text.len());
    assert_eq!(t.find(key(&text).as_ref()), Some(&208));
    assert_eq!(t.find(key(&text[..207]).as_ref()), None);
}
