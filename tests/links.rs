use short_url::codec::{cache_key, encode, encode_fingerprint};
use short_url::error::Error;
use short_url::partition::partition_of;
use short_url::reader::{resolve, LinkCache};
use short_url::store::{decide_create, CreateDecision, LinkStore};

const ALPHABET: &str = "ABCDEFGHIJKLMNOPQRSTUVWXYZabcdefghijklmnopqrstuvwxyz0123456789+/";

/// `code` with its last symbol moved `k` positions up, to carry ordinal `k`.
fn with_ordinal(code: &str, k: usize) -> String {
    let last = code.chars().last().unwrap();
    let pos = ALPHABET.find(last).unwrap();
    let mut s: String = code.chars().take(code.chars().count() - 1).collect();
    s.push(ALPHABET.chars().nth(pos + k).unwrap());
    s
}

#[test]
fn decisions() {
    assert_eq!(decide_create(0, false), CreateDecision::Insert(0));
    assert_eq!(decide_create(0, true), CreateDecision::Insert(0));
    assert_eq!(decide_create(1, false), CreateDecision::Insert(1));
    assert_eq!(decide_create(1, true), CreateDecision::Reuse);
    assert_eq!(decide_create(15, false), CreateDecision::Insert(15));
    assert_eq!(decide_create(15, true), CreateDecision::Reuse);
    assert_eq!(decide_create(16, false), CreateDecision::Overflow);
    assert_eq!(decide_create(16, true), CreateDecision::Overflow);
    assert_eq!(decide_create(40, false), CreateDecision::Overflow);
}

#[test]
fn create_rejects_empty_url() {
    let mut store = LinkStore::new();
    assert_eq!(store.create(""), Err(Error::ParamsError));
    assert_eq!(store.create_with_fingerprint(7, ""), Err(Error::ParamsError));
}

#[test]
fn create_returns_the_encoded_code() {
    let mut store = LinkStore::new();
    let url = "https://example.com/a";
    assert_eq!(store.create(url), encode(url));
}

#[test]
fn create_is_idempotent() {
    let mut store = LinkStore::new();
    let url = "https://example.com/a";
    let first = store.create(url).unwrap();
    let second = store.create(url).unwrap();
    assert_eq!(first, second);
    let p = partition_of(&first);
    assert_eq!(store.find(p, &first, 0), Some(url.to_string()));
    assert_eq!(store.find(p, &first, 1), None);
}

#[test]
fn resubmission_keeps_one_record_among_collisions() {
    let mut store = LinkStore::new();
    let h = 0x1234_5678;
    let code = encode_fingerprint(h);
    assert_eq!(store.create_with_fingerprint(h, "https://one.example"), Ok(code.clone()));
    assert_eq!(store.create_with_fingerprint(h, "https://two.example"), Ok(code.clone()));
    assert_eq!(store.create_with_fingerprint(h, "https://one.example"), Ok(code.clone()));
    assert_eq!(store.create_with_fingerprint(h, "https://two.example"), Ok(code.clone()));
    let p = partition_of(&code);
    assert_eq!(store.find(p, &code, 0), Some("https://one.example".to_string()));
    assert_eq!(store.find(p, &code, 1), Some("https://two.example".to_string()));
    assert_eq!(store.find(p, &code, 2), None);
}

#[test]
fn collisions_get_ordinals_in_call_order() {
    let mut store = LinkStore::new();
    let h = 0xdead_beef;
    let code = encode_fingerprint(h);
    let p = partition_of(&code);
    for i in 0..16u32 {
        let url = format!("https://example.com/{}", i);
        assert_eq!(store.create_with_fingerprint(h, &url), Ok(code.clone()));
    }
    for i in 0..16u32 {
        assert_eq!(store.find(p, &code, i), Some(format!("https://example.com/{}", i)));
    }
    let extra = "https://example.com/16".to_string();
    assert_eq!(store.create_with_fingerprint(h, &extra), Err(Error::Overflow(extra.clone())));
    assert_eq!(store.create_with_fingerprint(h, "https://example.com/3"), Err(Error::Overflow("https://example.com/3".to_string())));
}

#[test]
fn other_fingerprints_are_unaffected_by_overflow() {
    let mut store = LinkStore::new();
    for i in 0..16u32 {
        store.create_with_fingerprint(5, &format!("u{}", i)).unwrap();
    }
    assert_eq!(store.create_with_fingerprint(6, "u0"), Ok(encode_fingerprint(6)));
}

#[test]
fn example_collision_scenario() {
    let mut store = LinkStore::new();
    let h = 0x6f8d_e5c3;
    let code = encode_fingerprint(h);
    assert_eq!(store.create_with_fingerprint(h, "https://example.com/a"), Ok(code.clone()));
    assert_eq!(store.create_with_fingerprint(h, "https://example.com/a"), Ok(code.clone()));
    assert_eq!(store.create_with_fingerprint(h, "https://unrelated.example/x"), Ok(code.clone()));
    let mut cache = LinkCache::new();
    assert_eq!(resolve(&mut cache, Some(&store), &code), Ok(Some("https://example.com/a".to_string())));
    let second = with_ordinal(&code, 1);
    assert_eq!(resolve(&mut cache, Some(&store), &second), Ok(Some("https://unrelated.example/x".to_string())));
    let third = with_ordinal(&code, 2);
    assert_eq!(resolve(&mut cache, Some(&store), &third), Ok(None));
}

#[test]
fn resolve_finds_created_url() {
    let mut store = LinkStore::new();
    let url = "https://example.com/path?q=1";
    let code = store.create(url).unwrap();
    let mut cache = LinkCache::new();
    assert_eq!(resolve(&mut cache, Some(&store), &code), Ok(Some(url.to_string())));
}

#[test]
fn resolve_rejects_malformed_codes() {
    let store = LinkStore::new();
    let mut cache = LinkCache::new();
    assert_eq!(resolve(&mut cache, Some(&store), ""), Err(Error::ParamsError));
    assert_eq!(resolve(&mut cache, Some(&store), "Ab3xQ*"), Err(Error::ParamsError));
    assert_eq!(resolve(&mut cache, None, "Ab3xQ*"), Err(Error::ParamsError));
}

#[test]
fn unresolved_code_is_not_an_error() {
    let store = LinkStore::new();
    let mut cache = LinkCache::new();
    assert_eq!(resolve(&mut cache, Some(&store), "AAAAAA"), Ok(None));
    assert_eq!(cache.get(&"AAAAAA:0".to_string()), None);
}

#[test]
fn resolve_populates_the_cache() {
    let mut store = LinkStore::new();
    let code = store.create_with_fingerprint(0x0102_0304, "https://example.com/c").unwrap();
    let mut cache = LinkCache::new();
    let key = cache_key(&code, 0);
    assert_eq!(cache.get(&key), None);
    resolve(&mut cache, Some(&store), &code).unwrap();
    assert_eq!(cache.get(&key), Some("https://example.com/c".to_string()));
}

#[test]
fn cache_short_circuits_the_store() {
    let mut store = LinkStore::new();
    let code = store.create_with_fingerprint(0x0102_0304, "https://example.com/c").unwrap();
    let mut cache = LinkCache::new();
    let first = resolve(&mut cache, Some(&store), &code);
    assert_eq!(first, Ok(Some("https://example.com/c".to_string())));
    assert_eq!(resolve(&mut cache, None, &code), first);
    let empty = LinkStore::new();
    assert_eq!(resolve(&mut cache, Some(&empty), &code), first);
}

#[test]
fn cache_miss_without_store_fails() {
    let mut cache = LinkCache::new();
    assert_eq!(resolve(&mut cache, None, "AQIDBA"), Err(Error::StoreUnavailable));
}

#[test]
fn cache_is_consulted_before_the_store() {
    let store = LinkStore::new();
    let mut cache = LinkCache::new();
    cache.set("AQIDBA:1".to_string(), "https://cached.example".to_string());
    assert_eq!(resolve(&mut cache, Some(&store), "AQIDBB"), Ok(Some("https://cached.example".to_string())));
    assert_eq!(resolve(&mut cache, Some(&store), "AQIDBA"), Ok(None));
}

#[test]
fn cache_keeps_latest_value() {
    let mut cache = LinkCache::new();
    cache.set("k:0".to_string(), "a".to_string());
    cache.set("k:0".to_string(), "b".to_string());
    assert_eq!(cache.get(&"k:0".to_string()), Some("b".to_string()));
}
