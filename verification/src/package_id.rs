//! What identifies one copy of one package in a resolved graph.

use vstd::prelude::*;
use vstd::string::*;
use crate::order::{Duplicate, Key, Order};
use crate::sorted::{ascending, in_order, SortedMap};
use crate::text::{
    chars_of, cut_first, cut_first_at, cut_last, cut_last_at, is_last, last_exists, order_of,
    replace_all, replaced, split_first, split_last, text_before,
};
use vstd::utf8::encode_utf8;
use crate::integrity::{hex_text, hex_text_len, sha512, sha512_of, to_hex};

verus! {

/// The most bytes that a key with its context spelled out may have. It names a
/// directory, and beyond this the context is collapsed to a hash.
pub const MAX_KEY_BYTES: usize = 200;

/// What a [`PackageId`] means: a name, a version, and what the version was
/// resolved against, by the name each is declared under.
pub struct IdModel {
    pub name: Seq<char>,
    pub version: Seq<char>,
    pub context: Seq<(Seq<char>, IdModel)>,
}

/// A node in the resolved graph: one concrete version of one package, resolved
/// against a particular set of peers.
#[derive(Debug)]
pub struct PackageId {
    pub name: String,
    pub version: String,
    /// What this node resolved against: its own peers, and each dependency
    /// that itself carries a context. Empty for most packages.
    pub context: Context,
}

/// The peers of one node, in the order of the names they are declared under.
#[derive(Debug)]
pub struct Context {
    entries: Vec<(String, PackageId)>,
}

impl DeepView for PackageId {
    type V = IdModel;

    open spec fn deep_view(&self) -> IdModel
        decreases self,
    {
        IdModel {
            name: self.name@,
            version: self.version@,
            context: self.context.model(),
        }
    }
}

impl Context {
    pub closed spec fn model(&self) -> Seq<(Seq<char>, IdModel)>
        decreases self,
    {
        Seq::new(
            self.entries@.len(),
            |i: int|
                if 0 <= i < self.entries@.len() {
                    (self.entries@[i].0@, self.entries@[i].1.deep_view())
                } else {
                    arbitrary()
                },
        )
    }
}

/// The peers a map holds, written down in the order of their names.
pub open spec fn listing(peers: Map<Seq<char>, IdModel>) -> Seq<(Seq<char>, IdModel)> {
    let names = in_order::<String>(peers.dom());
    Seq::new(names.len(), |i: int| (names[i], peers[names[i]]))
}

/// Identities are ordered by name, then by version, then by context.
pub open spec fn id_before(a: IdModel, b: IdModel) -> bool
    decreases a,
{
    if a.name != b.name {
        text_before(a.name, b.name)
    } else if a.version != b.version {
        text_before(a.version, b.version)
    } else {
        context_before(a.context, b.context)
    }
}

/// Contexts are ordered entry by entry, by name and then by identity, with a
/// proper prefix coming before what extends it.
pub open spec fn context_before(
    a: Seq<(Seq<char>, IdModel)>,
    b: Seq<(Seq<char>, IdModel)>,
) -> bool
    decreases a,
{
    if b.len() == 0 {
        false
    } else if a.len() == 0 {
        true
    } else if a[0].0 != b[0].0 {
        text_before(a[0].0, b[0].0)
    } else if a[0].1 != b[0].1 {
        id_before(a[0].1, b[0].1)
    } else {
        context_before(a.drop_first(), b.drop_first())
    }
}

proof fn id_irreflexive(a: IdModel)
    ensures
        !id_before(a, a),
{
    context_irreflexive(a.context);
}

proof fn context_irreflexive(a: Seq<(Seq<char>, IdModel)>)
    ensures
        !context_before(a, a),
    decreases a.len(),
{
    if a.len() > 0 {
        context_irreflexive(a.drop_first());
    }
}

proof fn id_transitive(a: IdModel, b: IdModel, c: IdModel)
    requires
        id_before(a, b),
        id_before(b, c),
    ensures
        id_before(a, c),
    decreases a,
{
    if a.name != b.name || b.name != c.name {
        if a.name != b.name && b.name != c.name {
            String::before_transitive(a.name, b.name, c.name);
            String::before_irreflexive(a.name);
        }
    } else if a.version != b.version || b.version != c.version {
        if a.version != b.version && b.version != c.version {
            String::before_transitive(a.version, b.version, c.version);
            String::before_irreflexive(a.version);
        }
    } else {
        context_transitive(a.context, b.context, c.context);
    }
}

proof fn context_transitive(
    a: Seq<(Seq<char>, IdModel)>,
    b: Seq<(Seq<char>, IdModel)>,
    c: Seq<(Seq<char>, IdModel)>,
)
    requires
        context_before(a, b),
        context_before(b, c),
    ensures
        context_before(a, c),
    decreases a,
{
    if a.len() > 0 && b.len() > 0 && c.len() > 0 {
        if a[0].0 != b[0].0 || b[0].0 != c[0].0 {
            if a[0].0 != b[0].0 && b[0].0 != c[0].0 {
                String::before_transitive(a[0].0, b[0].0, c[0].0);
                String::before_irreflexive(a[0].0);
            }
        } else if a[0].1 != b[0].1 || b[0].1 != c[0].1 {
            if a[0].1 != b[0].1 && b[0].1 != c[0].1 {
                id_transitive(a[0].1, b[0].1, c[0].1);
                id_irreflexive(a[0].1);
            }
        } else {
            context_transitive(a.drop_first(), b.drop_first(), c.drop_first());
        }
    }
}

proof fn id_total(a: IdModel, b: IdModel)
    ensures
        a == b || id_before(a, b) || id_before(b, a),
    decreases a,
{
    String::before_total(a.name, b.name);
    String::before_total(a.version, b.version);
    context_total(a.context, b.context);
}

proof fn context_total(a: Seq<(Seq<char>, IdModel)>, b: Seq<(Seq<char>, IdModel)>)
    ensures
        a == b || context_before(a, b) || context_before(b, a),
    decreases a,
{
    if a.len() > 0 && b.len() > 0 {
        String::before_total(a[0].0, b[0].0);
        id_total(a[0].1, b[0].1);
        context_total(a.drop_first(), b.drop_first());
        if a[0].0 == b[0].0 && a[0].1 == b[0].1 && a.drop_first() == b.drop_first() {
            assert(a =~= seq![a[0]] + a.drop_first());
            assert(b =~= seq![b[0]] + b.drop_first());
        }
    } else if a.len() == 0 && b.len() == 0 {
        assert(a =~= b);
    }
}

impl Context {
    #[verifier::type_invariant]
    spec fn well_formed(self) -> bool {
        ascending::<String>(Seq::new(self.entries@.len(), |i: int| self.entries@[i].0@))
    }

    /// A context that names nothing.
    pub fn empty() -> (context: Self)
        ensures
            context.model() == Seq::<(Seq<char>, IdModel)>::empty(),
    {
        let context = Context { entries: Vec::new() };
        assert(context.model() =~= Seq::<(Seq<char>, IdModel)>::empty());
        context
    }

    /// The context that a map of peers amounts to.
    pub fn of(peers: &SortedMap<String, PackageId>) -> (context: Self)
        ensures
            context.model() == listing(peers.deep_view()),
    {
        let mut entries: Vec<(String, PackageId)> = Vec::new();
        let n: usize = peers.len();
        let mut i: usize = 0;
        while i < n
            invariant
                i <= n == peers.keys().len(),
                entries@.len() == i,
                forall|j: int|
                    0 <= j < i ==> (#[trigger] entries@[j]).0@ == peers.keys()[j]
                        && entries@[j].1.deep_view() == peers.deep_view()[peers.keys()[j]],
            decreases n - i,
        {
            entries.push((peers.key_at(i).duplicate(), peers.value_at(i).duplicate()));
            i = i + 1;
        }
        assert(Seq::new(entries@.len(), |i: int| entries@[i].0@) =~= peers.keys());
        let context = Context { entries };
        assert(context.model() =~= listing(peers.deep_view()));
        context
    }

    /// How many peers it names.
    pub fn len(&self) -> (n: usize)
        ensures
            n == self.model().len(),
    {
        self.entries.len()
    }

    /// The name of the peer at one place.
    pub fn name_at(&self, i: usize) -> (name: &String)
        requires
            i < self.model().len(),
        ensures
            name@ == self.model()[i as int].0,
    {
        &self.entries[i].0
    }

    /// The identity of the peer at one place.
    pub fn peer_at(&self, i: usize) -> (id: &PackageId)
        requires
            i < self.model().len(),
        ensures
            id.deep_view() == self.model()[i as int].1,
            decreases_to!(self => id),
    {
        proof {
            assert(decreases_to!(self => self.entries));
            assert(decreases_to!(self.entries => self.entries@[i as int]));
        }
        &self.entries[i].1
    }
}

fn order_ids(a: &PackageId, b: &PackageId) -> (order: Order)
    ensures
        order is Before <==> id_before(a.deep_view(), b.deep_view()),
        order is Same <==> a.deep_view() == b.deep_view(),
        order is After <==> id_before(b.deep_view(), a.deep_view()),
    decreases a,
{
    match order_of(a.name.as_str(), b.name.as_str()) {
        Order::Same => {},
        other => {
            return other;
        },
    }
    match order_of(a.version.as_str(), b.version.as_str()) {
        Order::Same => {},
        other => {
            return other;
        },
    }
    assert(a.context.model().skip(0) =~= a.context.model());
    assert(b.context.model().skip(0) =~= b.context.model());
    order_contexts(&a.context, &b.context, 0)
}

fn order_contexts(a: &Context, b: &Context, from: usize) -> (order: Order)
    requires
        from <= a.model().len(),
        from <= b.model().len(),
    ensures
        order is Before <==> context_before(a.model().skip(from as int), b.model().skip(from as int)),
        order is Same <==> a.model().skip(from as int) == b.model().skip(from as int),
        order is After <==> context_before(b.model().skip(from as int), a.model().skip(from as int)),
    decreases a, a.model().len() - from,
{
    let ghost sa = a.model().skip(from as int);
    let ghost sb = b.model().skip(from as int);
    if from >= b.len() {
        assert(sb.len() == 0);
        if from >= a.len() {
            assert(sa =~= sb);
            return Order::Same;
        }
        return Order::After;
    }
    if from >= a.len() {
        return Order::Before;
    }
    assert(sa[0] == a.model()[from as int]);
    assert(sb[0] == b.model()[from as int]);
    match order_of(a.name_at(from).as_str(), b.name_at(from).as_str()) {
        Order::Same => {},
        other => {
            return other;
        },
    }
    match order_ids(a.peer_at(from), b.peer_at(from)) {
        Order::Same => {},
        other => {
            return other;
        },
    }
    assert(sa.drop_first() =~= a.model().skip(from + 1));
    assert(sb.drop_first() =~= b.model().skip(from + 1));
    let order = order_contexts(a, b, from + 1);
    proof {
        if sa.drop_first() == sb.drop_first() {
            assert(sa =~= seq![sa[0]] + sa.drop_first());
            assert(sb =~= seq![sb[0]] + sb.drop_first());
        }
    }
    order
}

fn duplicate_id(id: &PackageId) -> (copy: PackageId)
    ensures
        copy.deep_view() == id.deep_view(),
    decreases id,
{
    PackageId {
        name: id.name.clone(),
        version: id.version.clone(),
        context: duplicate_context(&id.context),
    }
}

fn duplicate_context(context: &Context) -> (copy: Context)
    ensures
        copy.model() == context.model(),
    decreases context,
{
    proof {
        use_type_invariant(context);
    }
    let mut entries: Vec<(String, PackageId)> = Vec::new();
    let mut i: usize = 0;
    while i < context.entries.len()
        invariant
            i <= context.entries@.len(),
            entries@.len() == i,
            forall|j: int|
                0 <= j < i ==> (#[trigger] entries@[j]).0@ == context.entries@[j].0@
                    && entries@[j].1.deep_view() == context.entries@[j].1.deep_view(),
        decreases context.entries.len() - i,
    {
        let entry = &context.entries[i];
        proof {
            assert(decreases_to!(context => context.entries));
            assert(decreases_to!(context.entries => context.entries@[i as int]));
        }
        entries.push((entry.0.clone(), duplicate_id(&entry.1)));
        i = i + 1;
    }
    assert(Seq::new(entries@.len(), |i: int| entries@[i].0@) =~= Seq::new(
        context.entries@.len(),
        |i: int| context.entries@[i].0@,
    ));
    let copy = Context { entries };
    assert(copy.model() =~= context.model());
    copy
}

impl Duplicate for PackageId {
    fn duplicate(&self) -> (copy: Self) {
        duplicate_id(self)
    }
}

impl Key for PackageId {
    open spec fn before(a: IdModel, b: IdModel) -> bool {
        id_before(a, b)
    }

    proof fn before_irreflexive(a: IdModel) {
        id_irreflexive(a);
    }

    proof fn before_transitive(a: IdModel, b: IdModel, c: IdModel) {
        id_transitive(a, b, c);
    }

    proof fn before_total(a: IdModel, b: IdModel) {
        id_total(a, b);
    }

    fn order(&self, other: &Self) -> (order: Order) {
        order_ids(self, other)
    }
}

/// The identity of a package resolved against no peers.
pub open spec fn plain_id(name: Seq<char>, version: Seq<char>) -> IdModel {
    IdModel { name, version, context: seq![] }
}

/// A name as it may stand inside one path component.
pub open spec fn flattened(name: Seq<char>) -> Seq<char> {
    replaced(name, '/', "+"@)
}

/// A context spelled out: each peer in brackets, with its own context inside.
pub open spec fn rendered_context(context: Seq<(Seq<char>, IdModel)>) -> Seq<char>
    decreases context,
{
    if context.len() == 0 {
        Seq::empty()
    } else {
        let peer = context[context.len() - 1].1;
        rendered_context(context.drop_last()) + ("("@ + flattened(peer.name) + "@"@ + peer.version
            + rendered_context(peer.context) + ")"@)
    }
}

/// A short hash of a context too long to spell out.
pub open spec fn context_digest(suffix: Seq<char>) -> Seq<char> {
    hex_text(sha512_of(encode_utf8(suffix)).take(8))
}

/// The key a package is recorded under and the directory it is unpacked into:
/// its name and version, then its context, spelled out where the whole fits
/// in two hundred bytes and hashed where it does not.
pub open spec fn rendered(id: IdModel) -> Seq<char> {
    let base = id.name + "@"@ + id.version;
    let suffix = rendered_context(id.context);
    if id.context.len() == 0 {
        base
    } else if encode_utf8(base + suffix).len() <= MAX_KEY_BYTES {
        base + suffix
    } else {
        base + "_"@ + context_digest(suffix)
    }
}

/// Is the key of this identity one that can be told apart again: bare, or
/// spelled out, or ending in a hash of the length that is looked for?
pub open spec fn is_sound_key(id: IdModel) -> bool {
    ||| id.context.len() == 0
    ||| encode_utf8(id.name + "@"@ + id.version + rendered_context(id.context)).len() <= MAX_KEY_BYTES
    ||| context_digest(rendered_context(id.context)).len() == 16
}

fn append_context(context: &Context, upto: usize, out: &mut String)
    requires
        upto <= context.model().len(),
    ensures
        final(out)@ == old(out)@ + rendered_context(context.model().take(upto as int)),
    decreases context, upto,
{
    if upto == 0 {
        assert(out@ =~= out@ + rendered_context(context.model().take(0)));
        return;
    }
    let ghost taken = context.model().take(upto as int);
    assert(taken.drop_last() =~= context.model().take(upto - 1));
    append_context(context, upto - 1, out);
    let peer = context.peer_at(upto - 1);
    out.append("(");
    out.append(replace_all(peer.name.as_str(), '/', "+").as_str());
    out.append("@");
    out.append(peer.version.as_str());
    let n: usize = peer.context.len();
    assert(peer.context.model().take(n as int) =~= peer.context.model());
    append_context(&peer.context, n, out);
    out.append(")");
    assert(out@ =~= old(out)@ + rendered_context(taken));
}

impl PackageId {
    /// A package resolved against no peers.
    pub fn plain(name: &str, version: &str) -> (id: Self)
        ensures
            id.deep_view() == plain_id(name@, version@),
    {
        PackageId { name: name.to_owned(), version: version.to_owned(), context: Context::empty() }
    }

    /// The context alone, spelled out: `(react@18.2.0)`, nested.
    pub fn render_context(&self, out: &mut String)
        ensures
            final(out)@ == old(out)@ + rendered_context(self.deep_view().context),
    {
        let n: usize = self.context.len();
        assert(self.context.model().take(n as int) =~= self.context.model());
        append_context(&self.context, n, out);
    }

    /// A stable short hash of a context already spelled out.
    pub fn context_hash(suffix: &str) -> (hash: String)
        ensures
            hash@ == context_digest(suffix@),
            hash@.len() == 16,
    {
        let digest = sha512(suffix.as_bytes());
        let mut kept: Vec<u8> = Vec::new();
        let mut i: usize = 0;
        while i < 8
            invariant
                i <= 8,
                digest@.len() == 64,
                kept@ == digest@.take(i as int),
            decreases 8 - i,
        {
            kept.push(digest[i]);
            assert(digest@.take(i + 1) =~= digest@.take(i as int).push(digest@[i as int]));
            i = i + 1;
        }
        proof {
            hex_text_len(kept@);
        }
        to_hex(kept.as_slice())
    }

    /// The key this package is recorded under. It gives back the name and the
    /// version it was written from, whatever the context did to the rest.
    pub fn to_string(&self) -> (key: String)
        ensures
            key@ == rendered(self.deep_view()),
            is_sound_key(self.deep_view()),
            is_keyed_name(self.name@) && is_keyed_version(self.version@) ==> key_parts(key@)
                == Some((self.name@, self.version@)),
    {
        proof {
            if is_keyed_name(self.name@) && is_keyed_version(self.version@) {
                base_parts(self.name@, self.version@);
            }
        }
        let mut base = self.name.clone();
        base.append("@");
        base.append(self.version.as_str());
        if self.context.len() == 0 {
            return base;
        }
        let mut suffix = String::new();
        self.render_context(&mut suffix);
        assert(suffix@ =~= rendered_context(self.deep_view().context));
        let mut whole = base.clone();
        whole.append(suffix.as_str());
        if whole.as_str().as_bytes().len() <= MAX_KEY_BYTES {
            proof {
                if is_keyed_name(self.name@) && is_keyed_version(self.version@) {
                    keys_split_back(self.deep_view());
                }
            }
            return whole;
        }
        let hash = PackageId::context_hash(suffix.as_str());
        proof {
            if is_keyed_name(self.name@) && is_keyed_version(self.version@) {
                keys_split_back(self.deep_view());
            }
        }
        base.append("_");
        base.append(hash.as_str());
        base
    }
}

/// A hexadecimal digit of either case.
pub open spec fn is_hex_digit(c: char) -> bool {
    '0' <= c <= '9' || 'a' <= c <= 'f' || 'A' <= c <= 'F'
}

/// Is this the hash of a collapsed context: sixteen hexadecimal digits?
pub open spec fn is_collapsed(tail: Seq<char>) -> bool {
    tail.len() == 16 && forall|i: int| 0 <= i < 16 ==> is_hex_digit(#[trigger] tail[i])
}

/// A key without the hash of a collapsed context.
pub open spec fn without_hash(key: Seq<char>) -> Seq<char> {
    match cut_last(key, '_') {
        Some((head, tail)) => if is_collapsed(tail) {
            head
        } else {
            key
        },
        None => key,
    }
}

/// A `name@version` pair cut at its last `@`, both halves being something.
pub open spec fn name_and_version(key: Seq<char>) -> Option<(Seq<char>, Seq<char>)> {
    match cut_last(key, '@') {
        Some((name, version)) => if name.len() > 0 && version.len() > 0 {
            Some((name, version))
        } else {
            None
        },
        None => None,
    }
}

/// The name and the version in a key, whatever its context.
pub open spec fn key_parts(key: Seq<char>) -> Option<(Seq<char>, Seq<char>)> {
    match cut_first(key, '(') {
        Some((head, _)) => name_and_version(head),
        None => name_and_version(without_hash(key)),
    }
}

/// Cut `name@version` at its last `@`, so that a scope stays with its name.
pub fn split_name_and_version<'a>(key: &'a str) -> (halves: Option<(&'a str, &'a str)>)
    ensures
        match halves {
            Some((name, version)) => name_and_version(key@) == Some((name@, version@)),
            None => name_and_version(key@) is None,
        },
{
    match split_last(key, '@') {
        Some((name, version)) => if !name.is_empty() && !version.is_empty() {
            Some((name, version))
        } else {
            None
        },
        None => None,
    }
}

/// `p@1.0.0_0123456789abcdef` to `p@1.0.0`, and anything else unchanged.
pub fn strip_collapsed_suffix<'a>(key: &'a str) -> (head: &'a str)
    ensures
        head@ == without_hash(key@),
{
    let (head, tail) = match split_last(key, '_') {
        Some(halves) => halves,
        None => {
            return key;
        },
    };
    let chars = chars_of(tail);
    if chars.len() != 16 {
        return key;
    }
    let mut i: usize = 0;
    while i < 16
        invariant
            i <= 16,
            chars@ == tail@,
            chars@.len() == 16,
            cut_last(key@, '_') == Some((head@, tail@)),
            forall|j: int| 0 <= j < i ==> is_hex_digit(#[trigger] tail@[j]),
        decreases 16 - i,
    {
        let c: char = chars[i];
        if !(('0' <= c && c <= '9') || ('a' <= c && c <= 'f') || ('A' <= c && c <= 'F')) {
            assert(!is_hex_digit(tail@[i as int]));
            return key;
        }
        i = i + 1;
    }
    head
}

/// The name and the version in a key, discarding any context.
pub fn split_key<'a>(key: &'a str) -> (halves: Option<(&'a str, &'a str)>)
    ensures
        match halves {
            Some((name, version)) => key_parts(key@) == Some((name@, version@)),
            None => key_parts(key@) is None,
        },
{
    match split_first(key, '(') {
        Some((head, _)) => split_name_and_version(head),
        None => split_name_and_version(strip_collapsed_suffix(key)),
    }
}

/// Can this be a package's name, as far as a key cares?
pub open spec fn is_keyed_name(name: Seq<char>) -> bool {
    name.len() > 0 && !name.contains('(')
}

/// Can this be a package's version, as far as a key cares?
pub open spec fn is_keyed_version(version: Seq<char>) -> bool {
    version.len() > 0 && !version.contains('(') && !version.contains('@') && !version.contains('_')
}

/// A name and a version joined by an `@` come apart there again.
pub proof fn base_parts(name: Seq<char>, version: Seq<char>)
    requires
        is_keyed_name(name),
        is_keyed_version(version),
    ensures
        name_and_version(name + "@"@ + version) == Some((name, version)),
        !(name + "@"@ + version).contains('('),
        without_hash(name + "@"@ + version) == name + "@"@ + version,
{
    reveal_strlit("@");
    let base = name + "@"@ + version;
    let n = name.len() as int;
    assert forall|j: int| n < j < base.len() implies base[j] != '@' by {
        assert(base[j] == version[j - n - 1]);
        assert(version.contains(version[j - n - 1]));
    }
    cut_last_at(base, '@', n);
    assert(base.take(n) =~= name);
    assert(base.skip(n + 1) =~= version);
    assert(!base.contains('(')) by {
        if base.contains('(') {
            let j = base.index_of('(');
            if j < n {
                assert(name[j] == '(');
                assert(name.contains('('));
            } else if j > n {
                assert(version[j - n - 1] == '(');
                assert(version.contains('('));
            }
        }
    }
    if base.contains('_') {
        let i = choose|i: int| is_last(base, '_', i);
        last_exists(base, '_');
        assert(is_last(base, '_', i));
        cut_last_at(base, '_', i);
        let tail = base.skip(i + 1);
        if i > n {
            assert(version[i - n - 1] == '_');
            assert(version.contains('_'));
        }
        assert(tail[n - i - 1] == '@');
        if is_collapsed(tail) {
            assert(is_hex_digit(tail[n - i - 1]));
        }
    }
}

/// A context that names anything opens with a bracket.
pub proof fn context_opens(context: Seq<(Seq<char>, IdModel)>)
    requires
        context.len() > 0,
    ensures
        rendered_context(context).len() > 0,
        rendered_context(context)[0] == '(',
    decreases context.len(),
{
    reveal_strlit("(");
    let peer = context[context.len() - 1].1;
    let before = rendered_context(context.drop_last());
    if context.len() > 1 {
        context_opens(context.drop_last());
        assert(rendered_context(context)[0] == before[0]);
    } else {
        assert(context.drop_last().len() == 0);
        assert(rendered_context(context)[0] == "("@[0]);
    }
}

/// What is written in hexadecimal is hexadecimal digits.
pub proof fn hex_text_is_hex(bytes: Seq<u8>)
    ensures
        forall|i: int| 0 <= i < hex_text(bytes).len() ==> is_hex_digit(#[trigger] hex_text(bytes)[i]),
    decreases bytes.len(),
{
    if bytes.len() > 0 {
        let before = hex_text(bytes.drop_last());
        hex_text_is_hex(bytes.drop_last());
        assert forall|i: int| 0 <= i < hex_text(bytes).len() implies is_hex_digit(
            #[trigger] hex_text(bytes)[i],
        ) by {
            if i < before.len() {
                assert(hex_text(bytes)[i] == before[i]);
            }
        }
    }
}

/// Every key gives back the name and the version it was written from,
/// whatever the context did to the rest of it.
pub proof fn keys_split_back(id: IdModel)
    requires
        is_keyed_name(id.name),
        is_keyed_version(id.version),
        is_sound_key(id),
    ensures
        key_parts(rendered(id)) == Some((id.name, id.version)),
{
    let base = id.name + "@"@ + id.version;
    let key = rendered(id);
    base_parts(id.name, id.version);
    reveal_strlit("_");
    if id.context.len() > 0 {
        let suffix = rendered_context(id.context);
        if encode_utf8(base + suffix).len() <= MAX_KEY_BYTES {
            context_opens(id.context);
            let n = base.len() as int;
            assert(key[n] == '(');
            assert forall|j: int| 0 <= j < n implies key[j] != '(' by {
                assert(base[j] == key[j]);
                assert(base.contains(base[j]));
            }
            cut_first_at(key, '(', n);
            assert(key.take(n) =~= base);
        } else {
            let bytes = sha512_of(encode_utf8(suffix)).take(8);
            let digest = context_digest(suffix);
            hex_text_len(bytes);
            hex_text_is_hex(bytes);
            let n = base.len() as int;
            assert(!key.contains('(')) by {
                if key.contains('(') {
                    let j = key.index_of('(');
                    if j < n {
                        assert(base[j] == '(');
                        assert(base.contains('('));
                    } else if j > n {
                        assert(is_hex_digit(digest[j - n - 1]));
                    }
                }
            }
            assert forall|j: int| n < j < key.len() implies key[j] != '_' by {
                assert(is_hex_digit(digest[j - n - 1]));
            }
            cut_last_at(key, '_', n);
            assert(key.take(n) =~= base);
            assert(key.skip(n + 1) =~= digest);
        }
    }
}

/// The spelling of a package without a context is its name and its version:
/// peers change nothing for what has none.
pub proof fn plain_keys_are_bare(name: Seq<char>, version: Seq<char>)
    ensures
        rendered(plain_id(name, version)) == name + "@"@ + version,
{
}

} // verus!
