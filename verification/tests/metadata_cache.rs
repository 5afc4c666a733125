use jerky::metadata_cache::{
    encode, CachedRegistry, Consulted, Entry, Lookup, MetadataCache, DEFAULT_WINDOW,
};
use jerky::order::Duplicate;
use jerky::registry::{packument_of, Fetched, Freshness, Packument, RegistryError};
use jerky::sorted::SortedMap;

const NOW: u64 = 1_700_000_000;

fn packument(name: &str, version: &str) -> Packument {
    let mut dist_tags = SortedMap::new();
    dist_tags.insert("latest".to_string(), version.to_string());
    Packument {
        name: name.to_string(),
        versions: SortedMap::new(),
        dist_tags,
    }
}

fn aged(name: &str, etag: Option<&str>, age: u64) -> Option<Entry> {
    Some(Entry {
        fetched_at: NOW - age,
        etag: etag.map(str::to_string),
        packument: packument(name, "4.17.21"),
    })
}

fn cache(window: u64) -> MetadataCache {
    MetadataCache::new("/home/me/.jerky/cache", window)
}

/// A registry that counts what it was asked, in front of it a cache, and under
/// that one entry on disk.
struct Desk {
    cached: CachedRegistry<()>,
    disk: Option<Entry>,
    served: Packument,
    etag: Option<String>,
    current_etag: Option<String>,
    offline: bool,
    conditional: usize,
    unconditional: usize,
}

impl Desk {
    fn new(window: u64, served: Packument) -> Self {
        Desk {
            cached: CachedRegistry::new((), cache(window)),
            disk: None,
            served,
            etag: Some("\"v1\"".into()),
            current_etag: None,
            offline: false,
            conditional: 0,
            unconditional: 0,
        }
    }

    fn requests(&self) -> usize {
        self.conditional + self.unconditional
    }

    fn fetch(&mut self, name: &str, etag: Option<&str>) -> Result<Fetched, RegistryError> {
        match etag {
            Some(_) => self.conditional += 1,
            None => self.unconditional += 1,
        }
        if self.offline {
            return Err(RegistryError::Network {
                url: name.to_string(),
                source: "network is unreachable".into(),
            });
        }
        if etag.is_some() && etag == self.current_etag.as_deref() {
            return Ok(Fetched::NotModified);
        }
        Ok(Fetched::Body {
            packument: Box::new(self.served.duplicate()),
            etag: self.etag.clone(),
        })
    }

    fn packument(&mut self, name: &str, needed: Freshness) -> Result<Packument, RegistryError> {
        let entry = self.disk.as_ref().map(|entry| Entry {
            fetched_at: entry.fetched_at,
            etag: entry.etag.clone(),
            packument: entry.packument.duplicate(),
        });
        match self.cached.consult(entry, NOW, needed) {
            Consulted::Serve(packument) => Ok(*packument),
            Consulted::Ask { stored, etag, age } => {
                let fetched = self.fetch(name, etag.as_deref());
                let done = self.cached.conclude(name, stored, etag, age, fetched);
                if done.store {
                    if let Ok(packument) = &done.answer {
                        let kept = self.cached.cache().put(packument, done.etag.as_deref(), NOW);
                        self.disk = Some(kept);
                    }
                }
                done.answer
            }
        }
    }
}

#[test]
fn a_miss_is_a_miss() {
    assert!(matches!(cache(DEFAULT_WINDOW).get(None, NOW), Lookup::Missing));
}

#[test]
fn what_was_put_comes_back_fresh() {
    let cache = cache(DEFAULT_WINDOW);
    let entry = cache.put(&packument("lodash", "4.17.21"), Some("\"abc\""), NOW);

    match cache.get(Some(entry), NOW) {
        Lookup::Fresh { packument: found, .. } => {
            assert_eq!(found.name, "lodash");
            assert_eq!(found.resolve_tag("latest"), Some("4.17.21"));
        }
        other => panic!("a just-written entry is inside any window: {other:?}"),
    }
}

#[test]
fn an_entry_past_the_window_is_stale_and_keeps_its_etag() {
    match cache(3600).get(aged("lodash", Some("\"abc\""), 7200), NOW) {
        Lookup::Stale { etag, age, .. } => {
            assert_eq!(etag.as_deref(), Some("\"abc\""));
            assert_eq!(age, 7200);
        }
        other => panic!("two hours is outside a one-hour window: {other:?}"),
    }
}

#[test]
fn the_window_boundary_is_exclusive() {
    assert!(matches!(
        cache(3600).get(aged("a", None, 3600), NOW),
        Lookup::Stale { .. }
    ));
    assert!(matches!(
        cache(3600).get(aged("a", None, 3599), NOW),
        Lookup::Fresh { .. }
    ));
}

#[test]
fn refreshing_makes_a_stale_entry_fresh_again() {
    let cache = cache(3600);
    let p = packument("lodash", "4.17.21");
    assert!(matches!(
        cache.get(aged("lodash", Some("\"abc\""), 7200), NOW),
        Lookup::Stale { .. }
    ));

    let entry = cache.put(&p, Some("\"abc\""), NOW);

    assert!(matches!(cache.get(Some(entry), NOW), Lookup::Fresh { .. }));
}

#[test]
fn a_future_timestamp_is_stale_rather_than_eternally_fresh() {
    let entry = Entry {
        fetched_at: NOW + 86_400,
        etag: None,
        packument: packument("a", "1.0.0"),
    };

    assert!(matches!(
        cache(DEFAULT_WINDOW).get(Some(entry), NOW),
        Lookup::Stale { .. }
    ));
}

#[test]
fn a_scoped_name_stays_one_segment_below_the_root() {
    let cache = cache(DEFAULT_WINDOW);
    let path = cache.entry_path("@types/node");
    assert_eq!(path, "/home/me/.jerky/cache/v1/@types%2fnode.json");
    assert_eq!(path.rsplit_once('/').unwrap().0, cache.versioned_root());
}

#[test]
fn a_name_full_of_traversal_escapes_nothing() {
    let cache = cache(DEFAULT_WINDOW);

    for hostile in ["../../etc/passwd", "..", "a/../../b"] {
        let path = cache.entry_path(hostile);
        assert_eq!(
            path.rsplit_once('/').unwrap().0,
            cache.versioned_root(),
            "`{hostile}` left the cache root"
        );
    }
}

#[test]
fn encoding_a_name_is_injective() {
    assert_ne!(encode("@a/b"), encode("@a%2fb"));
}

#[test]
fn a_range_inside_the_window_makes_no_request_at_all() {
    let mut desk = Desk::new(DEFAULT_WINDOW, packument("lodash", "4.17.21"));

    desk.packument("lodash", Freshness::MayBeCached).unwrap();
    assert_eq!(desk.requests(), 1, "the first ask must fetch");

    for _ in 0..5 {
        let p = desk.packument("lodash", Freshness::MayBeCached).unwrap();
        assert_eq!(p.name, "lodash");
    }
    assert_eq!(
        desk.requests(),
        1,
        "every later ask inside the window must be answered from disk"
    );
}

#[test]
fn a_dist_tag_always_asks_even_with_a_fresh_entry() {
    let mut desk = Desk::new(DEFAULT_WINDOW, packument("lodash", "4.17.21"));
    desk.packument("lodash", Freshness::MayBeCached).unwrap();
    let after_seeding = desk.requests();

    desk.packument("lodash", Freshness::MustBeCurrent).unwrap();
    desk.packument("lodash", Freshness::MustBeCurrent).unwrap();

    assert_eq!(
        desk.requests(),
        after_seeding + 2,
        "a dist-tag must reach the registry every time"
    );
}

#[test]
fn a_dist_tag_revalidates_rather_than_re_downloading() {
    let mut desk = Desk::new(DEFAULT_WINDOW, packument("lodash", "4.17.21"));
    desk.packument("lodash", Freshness::MayBeCached).unwrap();
    desk.current_etag = Some("\"v1\"".into());

    desk.packument("lodash", Freshness::MustBeCurrent).unwrap();

    assert_eq!(
        desk.conditional, 1,
        "the revalidation must carry the stored ETag"
    );
}

#[test]
fn a_lapsed_entry_revalidates_and_a_304_wins_a_new_window() {
    let mut desk = Desk::new(0, packument("lodash", "4.17.21"));

    desk.packument("lodash", Freshness::MayBeCached).unwrap();
    desk.current_etag = Some("\"v1\"".into());
    desk.packument("lodash", Freshness::MayBeCached).unwrap();
    assert_eq!(
        desk.conditional, 1,
        "a lapsed entry is revalidated, not re-downloaded"
    );

    let mut widened = Desk::new(DEFAULT_WINDOW, packument("lodash", "4.17.21"));
    widened.disk = desk.disk;
    widened.packument("lodash", Freshness::MayBeCached).unwrap();
    assert_eq!(
        widened.requests(),
        0,
        "the 304 should have stamped the entry fresh"
    );
}

#[test]
fn a_changed_packument_replaces_the_cached_one() {
    let mut desk = Desk::new(0, packument("lodash", "4.17.21"));
    desk.packument("lodash", Freshness::MayBeCached).unwrap();

    desk.served = packument("lodash", "4.17.22");
    let updated = desk.packument("lodash", Freshness::MayBeCached).unwrap();

    assert_eq!(updated.resolve_tag("latest"), Some("4.17.22"));
}

#[test]
fn unreachable_with_a_lapsed_entry_refuses_and_says_how_old_it_is() {
    let mut desk = Desk::new(60, packument("lodash", "4.17.21"));
    desk.disk = aged("lodash", None, 3600);
    desk.offline = true;

    match desk.packument("lodash", Freshness::MayBeCached) {
        Err(RegistryError::StaleCacheOnly { name, age, source }) => {
            assert_eq!(name, "lodash");
            assert_eq!(age, 3600);
            assert!(matches!(*source, RegistryError::Network { .. }));
        }
        other => panic!("expected StaleCacheOnly, got {other:?}"),
    }
}

#[test]
fn unreachable_with_nothing_cached_reports_the_network_failure_itself() {
    let mut desk = Desk::new(DEFAULT_WINDOW, packument("a", "1.0.0"));
    desk.offline = true;

    assert!(matches!(
        desk.packument("a", Freshness::MayBeCached),
        Err(RegistryError::Network { .. })
    ));
}

#[test]
fn a_304_to_a_request_that_sent_no_etag_is_reported_not_panicked() {
    let cached = CachedRegistry::new((), cache(DEFAULT_WINDOW));
    let done = cached.conclude("a", None, None, None, Ok(Fetched::NotModified));

    assert!(!done.store);
    assert!(matches!(
        done.answer,
        Err(RegistryError::MalformedResponse { .. })
    ));
    assert!(matches!(
        packument_of("a", Ok(Fetched::NotModified)),
        Err(RegistryError::MalformedResponse { .. })
    ));
}

#[test]
fn a_fresh_entry_survives_the_registry_going_away() {
    let mut desk = Desk::new(DEFAULT_WINDOW, packument("a", "1.0.0"));
    desk.packument("a", Freshness::MayBeCached).unwrap();
    desk.offline = true;

    let p = desk.packument("a", Freshness::MayBeCached).unwrap();
    assert_eq!(p.name, "a");
}
