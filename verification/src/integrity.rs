//! Subresource integrity: what a tarball's bytes must hash to.

use vstd::prelude::*;
use vstd::string::*;
use base64::Engine;
use base64::engine::general_purpose::STANDARD;
use sha1::Sha1;
use sha2::{Digest, Sha512};
use crate::order::Duplicate;
use crate::text::{chars_of, cut_first, cut_first_at, is_first, same, split_first};

verus! {

/// Why an integrity string was refused, or a tarball was.
#[derive(Debug)]
pub enum IntegrityError {
    Missing,
    Unparseable(String),
    UnsupportedAlgorithm(String),
    Mismatch { expected: String, actual: String },
}

/// What an [`IntegrityError`] says.
pub enum IntegrityFault {
    Missing,
    Unparseable(Seq<char>),
    UnsupportedAlgorithm(Seq<char>),
    Mismatch { expected: Seq<char>, actual: Seq<char> },
}

impl DeepView for IntegrityError {
    type V = IntegrityFault;

    open spec fn deep_view(&self) -> IntegrityFault {
        match self {
            IntegrityError::Missing => IntegrityFault::Missing,
            IntegrityError::Unparseable(text) => IntegrityFault::Unparseable(text@),
            IntegrityError::UnsupportedAlgorithm(name) => IntegrityFault::UnsupportedAlgorithm(name@),
            IntegrityError::Mismatch { expected, actual } => IntegrityFault::Mismatch {
                expected: expected@,
                actual: actual@,
            },
        }
    }
}

/// The hash functions a registry may name.
#[derive(Debug, Clone, Copy, PartialEq, Eq, Structural)]
pub enum Algo {
    Sha512,
    Sha1,
}

/// The SHA-512 digest of some bytes.
pub uninterp spec fn sha512_of(bytes: Seq<u8>) -> Seq<u8>;

/// The SHA-1 digest of some bytes.
pub uninterp spec fn sha1_of(bytes: Seq<u8>) -> Seq<u8>;

/// Bytes in the standard base64 alphabet, padded.
pub uninterp spec fn base64_text(bytes: Seq<u8>) -> Seq<char>;

/// The bytes a standard, padded base64 text stands for, if it is one.
pub uninterp spec fn base64_bytes(text: Seq<char>) -> Option<Seq<u8>>;

/// `sha2::Sha512::digest`: 64 bytes, a function of the input alone.
#[verifier::external_body]
pub(crate) fn sha512(bytes: &[u8]) -> (digest: Vec<u8>)
    ensures
        digest@ == sha512_of(bytes@),
        digest@.len() == 64,
{
    Sha512::digest(bytes).to_vec()
}

/// `sha1::Sha1::digest`: 20 bytes, a function of the input alone.
#[verifier::external_body]
fn sha1(bytes: &[u8]) -> (digest: Vec<u8>)
    ensures
        digest@ == sha1_of(bytes@),
        digest@.len() == 20,
{
    Sha1::digest(bytes).to_vec()
}

/// `base64::Engine::encode` of the `STANDARD` engine. What it writes, the same
/// engine's `decode` reads back.
#[verifier::external_body]
fn encode(bytes: &[u8]) -> (text: String)
    ensures
        text@ == base64_text(bytes@),
        base64_bytes(text@) == Some(bytes@),
{
    STANDARD.encode(bytes)
}

/// `base64::Engine::decode` of the `STANDARD` engine.
#[verifier::external_body]
fn decode(text: &str) -> (bytes: Option<Vec<u8>>)
    ensures
        match bytes {
            Some(bytes) => base64_bytes(text@) == Some(bytes@),
            None => base64_bytes(text@) is None,
        },
{
    STANDARD.decode(text).ok()
}

impl Algo {
    /// The name npm gives the function.
    pub open spec fn spec_name(self) -> Seq<char> {
        match self {
            Algo::Sha512 => "sha512"@,
            Algo::Sha1 => "sha1"@,
        }
    }

    /// How long its digests are.
    pub open spec fn spec_digest_len(self) -> nat {
        match self {
            Algo::Sha512 => 64,
            Algo::Sha1 => 20,
        }
    }

    /// The digest of some bytes.
    pub open spec fn spec_hash(self, bytes: Seq<u8>) -> Seq<u8> {
        match self {
            Algo::Sha512 => sha512_of(bytes),
            Algo::Sha1 => sha1_of(bytes),
        }
    }

    /// The name npm gives the function.
    pub fn name(self) -> (name: &'static str)
        ensures
            name@ == self.spec_name(),
    {
        match self {
            Algo::Sha512 => "sha512",
            Algo::Sha1 => "sha1",
        }
    }

    /// How long its digests are.
    pub fn digest_len(self) -> (len: usize)
        ensures
            len == self.spec_digest_len(),
    {
        match self {
            Algo::Sha512 => 64,
            Algo::Sha1 => 20,
        }
    }

    /// Hash some bytes.
    pub fn hash(self, bytes: &[u8]) -> (digest: Vec<u8>)
        ensures
            digest@ == self.spec_hash(bytes@),
            digest@.len() == self.spec_digest_len(),
    {
        match self {
            Algo::Sha512 => sha512(bytes),
            Algo::Sha1 => sha1(bytes),
        }
    }
}

/// A digest, and the function that made it.
#[derive(Debug)]
pub struct Integrity {
    pub algo: Algo,
    pub digest: Vec<u8>,
}

/// What an [`Integrity`] means.
pub struct IntegrityModel {
    pub algo: Algo,
    pub digest: Seq<u8>,
}

impl DeepView for Integrity {
    type V = IntegrityModel;

    open spec fn deep_view(&self) -> IntegrityModel {
        IntegrityModel { algo: self.algo, digest: self.digest@ }
    }
}

impl Duplicate for Integrity {
    fn duplicate(&self) -> (copy: Self) {
        Integrity { algo: self.algo, digest: duplicate_bytes(&self.digest) }
    }
}

/// The same bytes again.
pub(crate) fn duplicate_bytes(bytes: &Vec<u8>) -> (copy: Vec<u8>)
    ensures
        copy@ == bytes@,
{
    let mut copy: Vec<u8> = Vec::new();
    let mut i: usize = 0;
    while i < bytes.len()
        invariant
            i <= bytes@.len(),
            copy@ == bytes@.take(i as int),
        decreases bytes.len() - i,
    {
        copy.push(bytes[i]);
        assert(bytes@.take(i + 1) =~= bytes@.take(i as int).push(bytes@[i as int]));
        i = i + 1;
    }
    assert(bytes@.take(bytes@.len() as int) =~= bytes@);
    copy
}

/// Are two runs of bytes the same?
pub(crate) fn same_bytes(a: &Vec<u8>, b: &Vec<u8>) -> (equal: bool)
    ensures
        equal == (a@ == b@),
{
    if a.len() != b.len() {
        return false;
    }
    let mut i: usize = 0;
    while i < a.len()
        invariant
            i <= a@.len() == b@.len(),
            forall|j: int| 0 <= j < i ==> a@[j] == b@[j],
        decreases a.len() - i,
    {
        if a[i] != b[i] {
            return false;
        }
        i = i + 1;
    }
    assert(a@ =~= b@);
    true
}

/// A value below sixteen as a lowercase hexadecimal digit.
pub open spec fn hex_digit(value: int) -> char {
    if 0 <= value < 10 {
        (value + 48) as char
    } else {
        (value + 87) as char
    }
}

/// Bytes in lowercase hexadecimal, two digits each.
pub open spec fn hex_text(bytes: Seq<u8>) -> Seq<char>
    decreases bytes.len(),
{
    if bytes.len() == 0 {
        Seq::empty()
    } else {
        hex_text(bytes.drop_last()).push(hex_digit(bytes.last() as int / 16)).push(
            hex_digit(bytes.last() as int % 16),
        )
    }
}

fn digit_of(value: u8) -> (c: char)
    requires
        value < 16,
    ensures
        c == hex_digit(value as int),
{
    if value < 10 {
        (value + 48) as char
    } else {
        (value + 87) as char
    }
}

/// Write bytes in lowercase hexadecimal.
pub(crate) fn to_hex(bytes: &[u8]) -> (text: String)
    ensures
        text@ == hex_text(bytes@),
{
    let mut text = String::new();
    let mut i: usize = 0;
    while i < bytes.len()
        invariant
            i <= bytes@.len(),
            text@ == hex_text(bytes@.take(i as int)),
        decreases bytes.len() - i,
    {
        assert(bytes@.take(i + 1).drop_last() =~= bytes@.take(i as int));
        text.push(digit_of(bytes[i] / 16));
        text.push(digit_of(bytes[i] % 16));
        i = i + 1;
    }
    assert(bytes@.take(bytes@.len() as int) =~= bytes@);
    text
}

/// What a hexadecimal digit of either case is worth.
pub open spec fn hex_value(c: char) -> Option<int> {
    if '0' <= c <= '9' {
        Some(c as int - 48)
    } else if 'a' <= c <= 'f' {
        Some(c as int - 87)
    } else if 'A' <= c <= 'F' {
        Some(c as int - 55)
    } else {
        None
    }
}

/// What two hexadecimal digits are worth as one number.
pub open spec fn hex_pair(high: char, low: char) -> Option<int> {
    match (hex_value(high), hex_value(low)) {
        (Some(h), Some(l)) => Some(16 * h + l),
        _ => None,
    }
}

fn value_of(c: char) -> (value: Option<u8>)
    ensures
        match value {
            Some(v) => v < 16 && hex_value(c) == Some(v as int),
            None => hex_value(c) is None,
        },
{
    if '0' <= c && c <= '9' {
        Some((c as u8) - 48)
    } else if 'a' <= c && c <= 'f' {
        Some((c as u8) - 87)
    } else if 'A' <= c && c <= 'F' {
        Some((c as u8) - 55)
    } else {
        None
    }
}

fn pair_of(high: char, low: char) -> (value: Option<u8>)
    ensures
        match value {
            Some(v) => hex_pair(high, low) == Some(v as int),
            None => hex_pair(high, low) is None,
        },
{
    match (value_of(high), value_of(low)) {
        (Some(h), Some(l)) => Some(16 * h + l),
        _ => None,
    }
}

/// What an SSRI string says: `sha512-<base64>` or `sha1-<base64>`, with a
/// digest of the right length.
pub open spec fn ssri_reading(text: Seq<char>) -> Result<IntegrityModel, IntegrityFault> {
    match cut_first(text, '-') {
        None => Err(IntegrityFault::Unparseable(text)),
        Some((name, encoded)) => if name == Algo::Sha512.spec_name() {
            digest_reading(text, Algo::Sha512, encoded)
        } else if name == Algo::Sha1.spec_name() {
            digest_reading(text, Algo::Sha1, encoded)
        } else {
            Err(IntegrityFault::UnsupportedAlgorithm(name))
        },
    }
}

/// What the encoded half of an SSRI string says, under its algorithm.
pub open spec fn digest_reading(
    text: Seq<char>,
    algo: Algo,
    encoded: Seq<char>,
) -> Result<IntegrityModel, IntegrityFault> {
    match base64_bytes(encoded) {
        Some(digest) => if digest.len() == algo.spec_digest_len() {
            Ok(IntegrityModel { algo, digest })
        } else {
            Err(IntegrityFault::Unparseable(text))
        },
        None => Err(IntegrityFault::Unparseable(text)),
    }
}

/// What a legacy hexadecimal checksum says: forty digits, a SHA-1 digest.
pub open spec fn shasum_reading(text: Seq<char>, digest: Seq<u8>) -> bool {
    &&& text.len() == 40
    &&& digest.len() == 20
    &&& forall|i: int|
        0 <= i < 20 ==> hex_pair(text[2 * i], text[2 * i + 1]) == Some(#[trigger] digest[i] as int)
}

/// The name a store keeps an entry under.
pub open spec fn store_key_of(integrity: IntegrityModel) -> Seq<char> {
    integrity.algo.spec_name() + "-"@ + hex_text(integrity.digest)
}

/// The SSRI spelling of a digest.
pub open spec fn ssri_of(integrity: IntegrityModel) -> Seq<char> {
    integrity.algo.spec_name() + "-"@ + base64_text(integrity.digest)
}

proof fn names_revealed()
    ensures
        "sha512"@ == seq!['s', 'h', 'a', '5', '1', '2'],
        "sha1"@ == seq!['s', 'h', 'a', '1'],
        "-"@ == seq!['-'],
{
    reveal_strlit("sha512");
    reveal_strlit("sha1");
    reveal_strlit("-");
    assert("sha512"@ =~= seq!['s', 'h', 'a', '5', '1', '2']);
    assert("sha1"@ =~= seq!['s', 'h', 'a', '1']);
    assert("-"@ =~= seq!['-']);
}

/// A name, a dash and anything after it cut apart again at that dash.
proof fn cut_after_name(algo: Algo, rest: Seq<char>)
    ensures
        cut_first(algo.spec_name() + "-"@ + rest, '-') == Some((algo.spec_name(), rest)),
{
    names_revealed();
    let text = algo.spec_name() + "-"@ + rest;
    let n = algo.spec_name().len() as int;
    assert(is_first(text, '-', n));
    cut_first_at(text, '-', n);
    assert(text.take(n) =~= algo.spec_name());
    assert(text.skip(n + 1) =~= rest);
}

impl Integrity {
    /// Read an SSRI string, as a registry reports it in `dist.integrity`.
    pub fn parse(input: &str) -> (parsed: Result<Self, IntegrityError>)
        ensures
            match parsed {
                Ok(integrity) => ssri_reading(input@) == Ok::<IntegrityModel, IntegrityFault>(
                    integrity.deep_view(),
                ),
                Err(error) => ssri_reading(input@) == Err::<IntegrityModel, IntegrityFault>(
                    error.deep_view(),
                ),
            },
    {
        let (name, encoded) = match split_first(input, '-') {
            Some(halves) => halves,
            None => {
                return Err(IntegrityError::Unparseable(input.to_owned()));
            },
        };
        proof {
            names_revealed();
        }
        let algo = if same(name, "sha512") {
            Algo::Sha512
        } else if same(name, "sha1") {
            Algo::Sha1
        } else {
            return Err(IntegrityError::UnsupportedAlgorithm(name.to_owned()));
        };
        match decode(encoded) {
            Some(digest) => if digest.len() == algo.digest_len() {
                Ok(Integrity { algo, digest })
            } else {
                Err(IntegrityError::Unparseable(input.to_owned()))
            },
            None => Err(IntegrityError::Unparseable(input.to_owned())),
        }
    }

    /// Read a legacy hexadecimal `dist.shasum`.
    pub fn from_shasum_hex(input: &str) -> (parsed: Result<Self, IntegrityError>)
        ensures
            match parsed {
                Ok(integrity) => integrity.algo is Sha1 && shasum_reading(
                    input@,
                    integrity.digest@,
                ),
                Err(error) => {
                    &&& error.deep_view() == IntegrityFault::Unparseable(input@)
                    &&& forall|digest: Seq<u8>| !shasum_reading(input@, digest)
                },
            },
    {
        let chars = chars_of(input);
        if chars.len() != 40 {
            return Err(IntegrityError::Unparseable(input.to_owned()));
        }
        let mut digest: Vec<u8> = Vec::new();
        let mut i: usize = 0;
        while i < 20
            invariant
                i <= 20,
                chars@ == input@,
                chars@.len() == 40,
                digest@.len() == i,
                forall|j: int|
                    0 <= j < i ==> hex_pair(chars@[2 * j], chars@[2 * j + 1]) == Some(
                        #[trigger] digest@[j] as int,
                    ),
            decreases 20 - i,
        {
            match pair_of(chars[2 * i], chars[2 * i + 1]) {
                Some(byte) => {
                    digest.push(byte);
                },
                None => {
                    assert forall|d: Seq<u8>| !shasum_reading(input@, d) by {
                        if shasum_reading(input@, d) {
                            assert(hex_pair(input@[2 * i], input@[2 * i + 1]) == Some(
                                d[i as int] as int,
                            ));
                        }
                    }
                    return Err(IntegrityError::Unparseable(input.to_owned()));
                },
            }
            i = i + 1;
        }
        Ok(Integrity { algo: Algo::Sha1, digest })
    }

    /// The store directory name for this digest: the algorithm, and lowercase
    /// hexadecimal, which does not collide on a case-insensitive filesystem.
    pub fn store_key(&self) -> (key: String)
        ensures
            key@ == store_key_of(self.deep_view()),
    {
        let mut key = self.algo.name().to_owned();
        key.append("-");
        key.append(to_hex(self.digest.as_slice()).as_str());
        key
    }

    /// The SSRI spelling, which reads back as this digest whenever its length
    /// is the algorithm's.
    pub fn to_ssri(&self) -> (text: String)
        ensures
            text@ == ssri_of(self.deep_view()),
            self.digest@.len() == self.algo.spec_digest_len() ==> ssri_reading(text@) == Ok::<
                IntegrityModel,
                IntegrityFault,
            >(self.deep_view()),
    {
        let encoded = encode(self.digest.as_slice());
        let mut text = self.algo.name().to_owned();
        text.append("-");
        text.append(encoded.as_str());
        proof {
            cut_after_name(self.algo, encoded@);
            names_revealed();
            assert("sha512"@ != "sha1"@) by {
                assert("sha512"@.len() == 6);
            }
        }
        text
    }

    /// Check some bytes against this digest.
    pub fn verify(&self, bytes: &[u8]) -> (verdict: Result<(), IntegrityError>)
        ensures
            match verdict {
                Ok(_) => self.algo.spec_hash(bytes@) == self.digest@,
                Err(error) => {
                    &&& self.algo.spec_hash(bytes@) != self.digest@
                    &&& error.deep_view() == (IntegrityFault::Mismatch {
                        expected: ssri_of(self.deep_view()),
                        actual: ssri_of(
                            (IntegrityModel {
                                algo: self.algo,
                                digest: self.algo.spec_hash(bytes@),
                            }),
                        ),
                    })
                },
            },
    {
        let actual = Integrity { algo: self.algo, digest: self.algo.hash(bytes) };
        if same_bytes(&actual.digest, &self.digest) {
            return Ok(());
        }
        Err(IntegrityError::Mismatch { expected: self.to_ssri(), actual: actual.to_ssri() })
    }
}

proof fn hex_digit_injective(a: int, b: int)
    requires
        0 <= a < 16,
        0 <= b < 16,
        hex_digit(a) == hex_digit(b),
    ensures
        a == b,
{
}

/// Two digits to a byte.
pub proof fn hex_text_len(bytes: Seq<u8>)
    ensures
        hex_text(bytes).len() == 2 * bytes.len(),
    decreases bytes.len(),
{
    if bytes.len() > 0 {
        hex_text_len(bytes.drop_last());
    }
}

/// Different bytes are written differently.
pub proof fn hex_text_injective(a: Seq<u8>, b: Seq<u8>)
    requires
        hex_text(a) == hex_text(b),
    ensures
        a == b,
    decreases a.len(),
{
    hex_text_len(a);
    hex_text_len(b);
    if a.len() == 0 {
        assert(a =~= b);
    } else {
        let ha = hex_text(a);
        let hb = hex_text(b);
        assert(ha.drop_last().drop_last() =~= hex_text(a.drop_last()));
        assert(hb.drop_last().drop_last() =~= hex_text(b.drop_last()));
        hex_text_injective(a.drop_last(), b.drop_last());
        assert(ha[ha.len() - 1] == hb[hb.len() - 1]);
        assert(ha[ha.len() - 2] == hb[hb.len() - 2]);
        hex_digit_injective(a.last() as int / 16, b.last() as int / 16);
        hex_digit_injective(a.last() as int % 16, b.last() as int % 16);
        assert(a =~= a.drop_last().push(a.last()));
        assert(b =~= b.drop_last().push(b.last()));
    }
}

/// Two digests share a store entry only if they are the same digest of the
/// same algorithm.
pub proof fn store_keys_are_distinct(a: IntegrityModel, b: IntegrityModel)
    requires
        store_key_of(a) == store_key_of(b),
    ensures
        a == b,
{
    cut_after_name(a.algo, hex_text(a.digest));
    cut_after_name(b.algo, hex_text(b.digest));
    names_revealed();
    assert("sha512"@.len() != "sha1"@.len());
    hex_text_injective(a.digest, b.digest);
}

/// A character that two filenames can differ by on any filesystem: lowercase,
/// a digit, or a dash.
pub open spec fn is_case_safe(c: char) -> bool {
    'a' <= c <= 'z' || '0' <= c <= '9' || c == '-'
}

proof fn hex_text_is_case_safe(bytes: Seq<u8>)
    ensures
        forall|i: int| 0 <= i < hex_text(bytes).len() ==> is_case_safe(#[trigger] hex_text(bytes)[i]),
    decreases bytes.len(),
{
    if bytes.len() > 0 {
        hex_text_is_case_safe(bytes.drop_last());
        let before = hex_text(bytes.drop_last());
        assert forall|i: int| 0 <= i < hex_text(bytes).len() implies is_case_safe(
            #[trigger] hex_text(bytes)[i],
        ) by {
            if i < before.len() {
                assert(hex_text(bytes)[i] == before[i]);
            }
        }
    }
}

/// A store key has no uppercase letter and no separator in it, so it is one
/// path component and collides with no other on a case-insensitive
/// filesystem.
pub proof fn store_keys_are_case_safe(integrity: IntegrityModel)
    ensures
        forall|i: int|
            0 <= i < store_key_of(integrity).len() ==> is_case_safe(
                #[trigger] store_key_of(integrity)[i],
            ),
{
    names_revealed();
    hex_text_is_case_safe(integrity.digest);
}

} // verus!
