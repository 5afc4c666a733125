//! Registry metadata on disk, with a freshness window.

use vstd::prelude::*;
use vstd::string::*;
use crate::order::Duplicate;
use crate::path::{join, put_after};
use crate::registry::{
    result_view, Answer, Fetched, FetchedModel, Freshness, Packument, PackumentModel, RegistryError,
    RegistryFault,
};
use crate::text::{replace_all, replaced};

verus! {

/// The version of what is stored. Entries under another are never read.
pub const CACHE_VERSION: &'static str = "v1";

/// How long an entry answers without asking the registry, in seconds: a day.
pub const DEFAULT_WINDOW: u64 = 86_400;

/// Why an entry could not be written.
#[derive(Debug)]
pub enum CacheError {
    Write { name: String },
}

/// What a lookup found.
#[derive(Debug)]
pub enum Lookup {
    /// Inside the window: usable without asking the registry. The ETag is
    /// there for a question that has to reach the registry all the same.
    Fresh { packument: Box<Packument>, etag: Option<String> },
    /// There, and past the window, this many seconds old.
    Stale { packument: Box<Packument>, etag: Option<String>, age: u64 },
    /// Nothing usable.
    Missing,
}

/// What a [`Lookup`] means.
pub enum LookupModel {
    Fresh { packument: PackumentModel, etag: Option<Seq<char>> },
    Stale { packument: PackumentModel, etag: Option<Seq<char>>, age: u64 },
    Missing,
}

impl DeepView for Lookup {
    type V = LookupModel;

    open spec fn deep_view(&self) -> LookupModel {
        match self {
            Lookup::Fresh { packument, etag } => LookupModel::Fresh {
                packument: packument.deep_view(),
                etag: etag.deep_view(),
            },
            Lookup::Stale { packument, etag, age } => LookupModel::Stale {
                packument: packument.deep_view(),
                etag: etag.deep_view(),
                age: *age,
            },
            Lookup::Missing => LookupModel::Missing,
        }
    }
}

/// One entry as it is stored.
#[derive(Debug)]
pub struct Entry {
    /// When the registry last confirmed it, in seconds since the epoch.
    pub fetched_at: u64,
    pub etag: Option<String>,
    pub packument: Packument,
}

/// What an [`Entry`] means.
pub struct StoredModel {
    pub fetched_at: u64,
    pub etag: Option<Seq<char>>,
    pub packument: PackumentModel,
}

impl DeepView for Entry {
    type V = StoredModel;

    open spec fn deep_view(&self) -> StoredModel {
        StoredModel {
            fetched_at: self.fetched_at,
            etag: self.etag.deep_view(),
            packument: self.packument.deep_view(),
        }
    }
}

/// How long ago a moment was, if it is not still to come.
pub open spec fn age_at(now: u64, stamp: u64) -> Option<u64> {
    if stamp <= now {
        Some((now - stamp) as u64)
    } else {
        None
    }
}

/// How long ago `stamp` was, or nothing if it is in the future.
pub fn age_of(now: u64, stamp: u64) -> (age: Option<u64>)
    ensures
        age == age_at(now, stamp),
{
    if stamp <= now {
        Some(now - stamp)
    } else {
        None
    }
}

/// What an entry on disk amounts to, at some moment and under some window. An
/// entry exactly as old as the window is stale, and so is one from the future:
/// a clock that moved back must not make it fresh forever.
pub open spec fn judged(entry: Option<StoredModel>, window: u64, now: u64) -> LookupModel {
    match entry {
        None => LookupModel::Missing,
        Some(entry) => match age_at(now, entry.fetched_at) {
            None => LookupModel::Stale { packument: entry.packument, etag: entry.etag, age: 0 },
            Some(age) => if age < window {
                LookupModel::Fresh { packument: entry.packument, etag: entry.etag }
            } else {
                LookupModel::Stale { packument: entry.packument, etag: entry.etag, age }
            },
        },
    }
}

/// A package name as one filename: `%` is escaped before `/`, so that no two
/// names share an entry.
pub open spec fn encoded(name: Seq<char>) -> Seq<char> {
    replaced(replaced(name, '%', "%25"@), '/', "%2f"@)
}

/// A package name as one filename.
pub fn encode(name: &str) -> (encoded_name: String)
    ensures
        encoded_name@ == encoded(name@),
{
    replace_all(replace_all(name, '%', "%25").as_str(), '/', "%2f")
}

/// What one character is written as.
spec fn written(c: char) -> Seq<char> {
    if c == '%' {
        seq!['%', '2', '5']
    } else if c == '/' {
        seq!['%', '2', 'f']
    } else {
        seq![c]
    }
}

proof fn escapes_revealed()
    ensures
        "%25"@ == seq!['%', '2', '5'],
        "%2f"@ == seq!['%', '2', 'f'],
{
    reveal_strlit("%25");
    reveal_strlit("%2f");
    assert("%25"@ =~= seq!['%', '2', '5']);
    assert("%2f"@ =~= seq!['%', '2', 'f']);
}

proof fn replaced_of_sum(a: Seq<char>, b: Seq<char>, c: char, by: Seq<char>)
    ensures
        replaced(a + b, c, by) == replaced(a, c, by) + replaced(b, c, by),
    decreases b.len(),
{
    if b.len() == 0 {
        assert(a + b =~= a);
        assert(replaced(a, c, by) + replaced(b, c, by) =~= replaced(a, c, by));
    } else {
        assert((a + b).drop_last() =~= a + b.drop_last());
        replaced_of_sum(a, b.drop_last(), c, by);
        assert(replaced(a + b, c, by) =~= replaced(a, c, by) + replaced(b, c, by));
    }
}

proof fn encoded_by_character(name: Seq<char>)
    requires
        name.len() > 0,
    ensures
        encoded(name) == encoded(name.drop_last()) + written(name.last()),
{
    escapes_revealed();
    let c = name.last();
    let once = replaced(name.drop_last(), '%', "%25"@);
    let tail = if c == '%' {
        "%25"@
    } else {
        seq![c]
    };
    assert(replaced(name, '%', "%25"@) =~= once + tail);
    replaced_of_sum(once, tail, '/', "%2f"@);
    reveal_with_fuel(replaced, 4);
    if c == '%' {
        assert(tail.drop_last() =~= seq!['%', '2']);
        assert(tail.drop_last().drop_last() =~= seq!['%']);
        assert(tail.drop_last().drop_last().drop_last() =~= seq![]);
        assert(replaced(tail, '/', "%2f"@) =~= written(c));
    } else {
        assert(tail.drop_last() =~= seq![]);
        assert(replaced(tail, '/', "%2f"@) =~= written(c));
    }
}

/// No encoded name ends inside an escape.
proof fn encoded_ends_whole(name: Seq<char>)
    ensures
        encoded(name).len() > 0 ==> encoded(name).last() != '%',
        encoded(name).len() > 1 ==> !(encoded(name)[encoded(name).len() - 2] == '%'
            && encoded(name).last() == '2'),
    decreases name.len(),
{
    if name.len() > 0 {
        encoded_by_character(name);
        encoded_ends_whole(name.drop_last());
    }
}

/// Two names share an entry only if they are the same name.
pub proof fn encoding_is_injective(a: Seq<char>, b: Seq<char>)
    requires
        encoded(a) == encoded(b),
    ensures
        a == b,
    decreases a.len(),
{
    if a.len() == 0 || b.len() == 0 {
        if a.len() > 0 {
            encoded_by_character(a);
        }
        if b.len() > 0 {
            encoded_by_character(b);
        }
        assert(a =~= b);
    } else {
        encoded_by_character(a);
        encoded_by_character(b);
        let ea = encoded(a.drop_last());
        let eb = encoded(b.drop_last());
        let ta = written(a.last());
        let tb = written(b.last());
        encoded_ends_whole(a.drop_last());
        encoded_ends_whole(b.drop_last());
        let whole = encoded(a);
        let n = whole.len() as int;
        assert(whole[n - 1] == ta.last());
        assert(whole[n - 1] == tb.last());
        if ta.len() == tb.len() {
            assert(ta =~= whole.skip(n - ta.len()));
            assert(tb =~= whole.skip(n - tb.len()));
            assert(ta == tb);
            assert(ta[0] == tb[0] && ta.last() == tb.last());
            assert(a.last() == b.last());
            assert(ea =~= whole.take(n - ta.len()));
            assert(eb =~= whole.take(n - tb.len()));
        } else if ta.len() == 1 {
            assert(whole[n - 2] == '2' && whole[n - 3] == '%');
            assert(ea[ea.len() - 1] == whole[n - 2]);
            assert(ea[ea.len() - 2] == whole[n - 3]);
        } else {
            assert(whole[n - 2] == '2' && whole[n - 3] == '%');
            assert(eb[eb.len() - 1] == whole[n - 2]);
            assert(eb[eb.len() - 2] == whole[n - 3]);
        }
        encoding_is_injective(a.drop_last(), b.drop_last());
        assert(a =~= a.drop_last().push(a.last()));
        assert(b =~= b.drop_last().push(b.last()));
    }
}

/// An encoded name has no separator in it, so an entry is always exactly one
/// segment below the root, whatever the name.
pub proof fn encoding_is_one_segment(name: Seq<char>)
    ensures
        !encoded(name).contains('/'),
    decreases name.len(),
{
    if name.len() > 0 {
        encoded_by_character(name);
        encoding_is_one_segment(name.drop_last());
        let before = encoded(name.drop_last());
        if encoded(name).contains('/') {
            let i = encoded(name).index_of('/');
            if i < before.len() {
                assert(before[i] == '/');
                assert(before.contains('/'));
            }
        }
    }
}

/// Packuments on disk under a versioned root.
#[derive(Debug)]
pub struct MetadataCache {
    root: String,
    window: u64,
}

/// What a [`MetadataCache`] means.
pub struct CacheModel {
    pub root: Seq<char>,
    pub window: u64,
}

impl DeepView for MetadataCache {
    type V = CacheModel;

    closed spec fn deep_view(&self) -> CacheModel {
        CacheModel { root: self.root@, window: self.window }
    }
}

/// The directory that a cache keeps its entries in.
pub open spec fn cache_root(root: Seq<char>) -> Seq<char> {
    put_after(root, CACHE_VERSION@)
}

/// Where a package's entry lives.
pub open spec fn cache_place(root: Seq<char>, name: Seq<char>) -> Seq<char> {
    put_after(cache_root(root), encoded(name) + ".json"@)
}

impl MetadataCache {
    /// The cache at a directory, with a freshness window in seconds.
    pub fn new(root: &str, window: u64) -> (cache: Self)
        ensures
            cache.deep_view() == (CacheModel { root: root@, window }),
    {
        MetadataCache { root: root.to_owned(), window }
    }

    /// The directory that entries are kept in.
    pub fn versioned_root(&self) -> (path: String)
        ensures
            path@ == cache_root(self.deep_view().root),
    {
        join(self.root.as_str(), CACHE_VERSION)
    }

    /// Where one package's entry lives.
    pub fn entry_path(&self, name: &str) -> (path: String)
        ensures
            path@ == cache_place(self.deep_view().root, name@),
    {
        let mut file = encode(name);
        file.append(".json");
        join(self.versioned_root().as_str(), file.as_str())
    }

    /// What an entry read from disk amounts to now.
    pub fn get(&self, entry: Option<Entry>, now: u64) -> (lookup: Lookup)
        ensures
            lookup.deep_view() == judged(entry.deep_view(), self.deep_view().window, now),
    {
        let entry = match entry {
            Some(entry) => entry,
            None => {
                return Lookup::Missing;
            },
        };
        match age_of(now, entry.fetched_at) {
            None => Lookup::Stale {
                packument: Box::new(entry.packument),
                etag: entry.etag,
                age: 0,
            },
            Some(age) => if age < self.window {
                Lookup::Fresh { packument: Box::new(entry.packument), etag: entry.etag }
            } else {
                Lookup::Stale { packument: Box::new(entry.packument), etag: entry.etag, age }
            },
        }
    }

    /// The entry that records a packument as current as of now.
    pub fn put(&self, packument: &Packument, etag: Option<&str>, now: u64) -> (entry: Entry)
        ensures
            entry.deep_view() == (StoredModel {
                fetched_at: now,
                etag: etag.deep_view(),
                packument: packument.deep_view(),
            }),
    {
        Entry {
            fetched_at: now,
            etag: match etag {
                Some(etag) => Some(etag.to_owned()),
                None => None,
            },
            packument: packument.duplicate(),
        }
    }
}

/// What was just stored is inside any window.
pub proof fn what_was_put_is_fresh(entry: StoredModel, window: u64)
    requires
        window > 0,
    ensures
        judged(Some(entry), window, entry.fetched_at) == (LookupModel::Fresh {
            packument: entry.packument,
            etag: entry.etag,
        }),
{
}

/// A client that answers from disk while an entry is inside the window.
#[derive(Debug)]
pub struct CachedRegistry<R> {
    inner: R,
    cache: MetadataCache,
}

/// What a lookup leads to.
#[derive(Debug)]
pub enum Consulted {
    /// Serve this without asking.
    Serve(Box<Packument>),
    /// Ask, with the ETag of the copy at hand if there is one.
    Ask { stored: Option<Box<Packument>>, etag: Option<String>, age: Option<u64> },
}

/// What a [`Consulted`] means.
pub enum ConsultedModel {
    Serve(PackumentModel),
    Ask { stored: Option<PackumentModel>, etag: Option<Seq<char>>, age: Option<u64> },
}

impl DeepView for Consulted {
    type V = ConsultedModel;

    open spec fn deep_view(&self) -> ConsultedModel {
        match self {
            Consulted::Serve(packument) => ConsultedModel::Serve(packument.deep_view()),
            Consulted::Ask { stored, etag, age } => ConsultedModel::Ask {
                stored: stored.deep_view(),
                etag: etag.deep_view(),
                age: *age,
            },
        }
    }
}

/// What a lookup leads to, at a freshness. Only a fresh entry, asked for by
/// someone who will take it, is served without a request.
pub open spec fn consulted(lookup: LookupModel, freshness: Freshness) -> ConsultedModel {
    match lookup {
        LookupModel::Fresh { packument, etag } => if freshness is MayBeCached {
            ConsultedModel::Serve(packument)
        } else {
            ConsultedModel::Ask { stored: Some(packument), etag, age: None }
        },
        LookupModel::Stale { packument, etag, age } => ConsultedModel::Ask {
            stored: Some(packument),
            etag,
            age: Some(age),
        },
        LookupModel::Missing => ConsultedModel::Ask { stored: None, etag: None, age: None },
    }
}

/// What was answered, and the ETag to store it under if it is to be stored.
pub struct ConcludedModel {
    pub answer: Answer,
    pub store: bool,
    pub etag: Option<Seq<char>>,
}

/// What a request's outcome comes to. A body is stored and served. A
/// confirmed copy is stored anew and served. A failure over a lapsed copy
/// says so and serves nothing: a bound that gives way whenever the network
/// is down is no bound.
pub open spec fn concluded(
    name: Seq<char>,
    stored: Option<PackumentModel>,
    etag: Option<Seq<char>>,
    age: Option<u64>,
    fetched: Result<FetchedModel, RegistryFault>,
) -> ConcludedModel {
    match fetched {
        Ok(FetchedModel::Body { packument, etag }) => ConcludedModel {
            answer: Ok(packument),
            store: true,
            etag,
        },
        Ok(FetchedModel::NotModified) => match stored {
            Some(packument) => ConcludedModel { answer: Ok(packument), store: true, etag },
            None => ConcludedModel {
                answer: Err(
                    RegistryFault::MalformedResponse {
                        url: name,
                        source: "the registry answered 304 to a request with no ETag"@,
                    },
                ),
                store: false,
                etag: None,
            },
        },
        Err(fault) => ConcludedModel {
            answer: Err(
                match age {
                    Some(age) => RegistryFault::StaleCacheOnly {
                        name,
                        age,
                        source: Box::new(fault),
                    },
                    None => fault,
                },
            ),
            store: false,
            etag: None,
        },
    }
}

/// What a request's outcome comes to: the answer, and whether to store it.
#[derive(Debug)]
pub struct Concluded {
    pub answer: Result<Packument, RegistryError>,
    pub store: bool,
    pub etag: Option<String>,
}

impl DeepView for Concluded {
    type V = ConcludedModel;

    open spec fn deep_view(&self) -> ConcludedModel {
        ConcludedModel {
            answer: result_view(self.answer),
            store: self.store,
            etag: self.etag.deep_view(),
        }
    }
}

impl<R> CachedRegistry<R> {
    /// The client underneath.
    pub closed spec fn client(&self) -> R {
        self.inner
    }

    /// The cache in front of it.
    pub closed spec fn kept(&self) -> CacheModel {
        self.cache.deep_view()
    }

    /// Put a cache in front of a client.
    pub fn new(inner: R, cache: MetadataCache) -> (registry: Self)
        ensures
            registry.client() == inner,
            registry.kept() == cache.deep_view(),
    {
        CachedRegistry { inner, cache }
    }

    /// The client underneath.
    pub fn inner(&self) -> (inner: &R)
        ensures
            *inner == self.client(),
    {
        &self.inner
    }

    /// The cache in front of it.
    pub fn cache(&self) -> (cache: &MetadataCache)
        ensures
            cache.deep_view() == self.kept(),
    {
        &self.cache
    }

    /// What an entry read from disk leads to.
    pub fn consult(&self, entry: Option<Entry>, now: u64, freshness: Freshness) -> (next: Consulted)
        ensures
            next.deep_view() == consulted(
                judged(entry.deep_view(), self.kept().window, now),
                freshness,
            ),
    {
        match self.cache.get(entry, now) {
            Lookup::Fresh { packument, etag } => match freshness {
                Freshness::MayBeCached => Consulted::Serve(packument),
                Freshness::MustBeCurrent => Consulted::Ask {
                    stored: Some(packument),
                    etag,
                    age: None,
                },
            },
            Lookup::Stale { packument, etag, age } => Consulted::Ask {
                stored: Some(packument),
                etag,
                age: Some(age),
            },
            Lookup::Missing => Consulted::Ask { stored: None, etag: None, age: None },
        }
    }

    /// What a request's outcome comes to.
    pub fn conclude(
        &self,
        name: &str,
        stored: Option<Box<Packument>>,
        etag: Option<String>,
        age: Option<u64>,
        fetched: Result<Fetched, RegistryError>,
    ) -> (concluded_: Concluded)
        ensures
            concluded_.deep_view() == concluded(
                name@,
                stored.deep_view(),
                etag.deep_view(),
                age,
                result_view(fetched),
            ),
    {
        match fetched {
            Ok(Fetched::Body { packument, etag }) => Concluded {
                answer: Ok(*packument),
                store: true,
                etag,
            },
            Ok(Fetched::NotModified) => match stored {
                Some(packument) => Concluded { answer: Ok(*packument), store: true, etag },
                None => Concluded {
                    answer: Err(
                        RegistryError::MalformedResponse {
                            url: name.to_owned(),
                            source: "the registry answered 304 to a request with no ETag".to_owned(),
                        },
                    ),
                    store: false,
                    etag: None,
                },
            },
            Err(error) => Concluded {
                answer: Err(
                    match age {
                        Some(age) => RegistryError::StaleCacheOnly {
                            name: name.to_owned(),
                            age,
                            source: Box::new(error),
                        },
                        None => error,
                    },
                ),
                store: false,
                etag: None,
            },
        }
    }
}

/// A dist-tag always reaches the registry, however fresh the copy at hand.
pub proof fn tags_always_ask(lookup: LookupModel)
    ensures
        consulted(lookup, Freshness::MustBeCurrent) is Ask,
{
}

/// A copy past its window is never served, whatever comes back: an answer is
/// either one that the registry just gave or confirmed, or an error.
pub proof fn lapsed_copies_are_not_served_offline(
    name: Seq<char>,
    stored: Option<PackumentModel>,
    etag: Option<Seq<char>>,
    age: Option<u64>,
    fault: RegistryFault,
)
    ensures
        concluded(name, stored, etag, age, Err(fault)).answer is Err,
        !concluded(name, stored, etag, age, Err(fault)).store,
{
}

} // verus!
