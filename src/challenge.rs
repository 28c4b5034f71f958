use vstd::prelude::*;

use crate::validation::is_ascii_alnum;

verus! {

/// The SHA-256 digest of the bytes.
pub uninterp spec fn sha256_of(data: Seq<u8>) -> Seq<u8>;

/// The lowercase hexadecimal digit of a value below 16.
pub open spec fn hex_digit(n: u8) -> char {
    seq!['0', '1', '2', '3', '4', '5', '6', '7', '8', '9', 'a', 'b', 'c', 'd', 'e', 'f'][n as int]
}

/// Two lowercase hexadecimal digits per byte, high nibble first.
pub open spec fn hex_lower(b: Seq<u8>) -> Seq<char>
    decreases b.len(),
{
    if b.len() == 0 {
        seq![]
    } else {
        hex_lower(b.drop_last()) + seq![hex_digit(b.last() / 16), hex_digit(b.last() % 16)]
    }
}

/// Whether the character is a lowercase hexadecimal digit.
pub open spec fn is_lower_hex(c: char) -> bool {
    ('0' <= c && c <= '9') || ('a' <= c && c <= 'f')
}

/// Text as a SHA-256 digest is written: 64 lowercase hexadecimal digits.
pub open spec fn is_hex_digest_text(s: Seq<char>) -> bool {
    s.len() == 64 && forall|i: int| 0 <= i < s.len() ==> is_lower_hex(#[trigger] s[i])
}

/// Hex text has two lowercase digits per byte.
pub proof fn lemma_hex_lower(b: Seq<u8>)
    ensures
        hex_lower(b).len() == 2 * b.len(),
        forall|i: int| 0 <= i < hex_lower(b).len() ==> is_lower_hex(#[trigger] hex_lower(b)[i]),
    decreases b.len(),
{
    if b.len() > 0 {
        lemma_hex_lower(b.drop_last());
        let x = b.last();
        assert(is_lower_hex(hex_digit(x / 16)));
        assert(is_lower_hex(hex_digit(x % 16)));
        let h = hex_lower(b);
        let d = hex_lower(b.drop_last());
        assert forall|i: int| 0 <= i < h.len() implies is_lower_hex(#[trigger] h[i]) by {
            if i < d.len() {
                assert(h[i] == d[i]);
            }
        }
    }
}

/// The UTF-8 bytes of a text.
pub open spec fn utf8_of(s: Seq<char>) -> Seq<u8> {
    vstd::utf8::encode_utf8(s)
}

/// The answer to a challenge: hex of SHA-256 over the secret's bytes followed by the challenge's.
pub open spec fn challenge_answer(secret: Seq<char>, challenge: Seq<char>) -> Seq<char> {
    hex_lower(sha256_of(utf8_of(secret) + utf8_of(challenge)))
}

/// Relies on `sha2::Sha256::digest`: the 32-byte SHA-256 digest of the data.
#[verifier::external_body]
fn sha256(data: &[u8]) -> (r: Vec<u8>)
    ensures
        r@ == sha256_of(data@),
        r@.len() == 32,
{
    <sha2::Sha256 as sha2::Digest>::digest(data).to_vec()
}

/// Relies on `hex::encode`: two lowercase hex digits per byte, high nibble first.
#[verifier::external_body]
fn hex_encode(b: &[u8]) -> (r: String)
    ensures
        r@ == hex_lower(b@),
{
    hex::encode(b)
}

/// Relies on `rand`'s `Alphanumeric` distribution over the thread-local generator:
/// `n` characters drawn from `[A-Za-z0-9]`.
#[verifier::external_body]
fn random_alphanumeric(n: usize) -> (r: String)
    ensures
        r@.len() == n,
        forall|i: int| 0 <= i < r@.len() ==> is_ascii_alnum(#[trigger] r@[i]),
{
    rand::Rng::sample_iter(rand::thread_rng(), &rand::distributions::Alphanumeric)
        .take(n)
        .map(char::from)
        .collect()
}

/// The bytes of `a` followed by those of `b`.
fn concat_bytes(a: &[u8], b: &[u8]) -> (r: Vec<u8>)
    ensures
        r@ == a@ + b@,
{
    let mut r: Vec<u8> = Vec::new();
    let mut i: usize = 0;
    while i < a.len()
        invariant
            i <= a@.len(),
            r@ == a@.take(i as int),
        decreases a@.len() - i,
    {
        r.push(a[i]);
        i += 1;
        assert(r@ =~= a@.take(i as int));
    }
    let mut j: usize = 0;
    assert(a@.take(a@.len() as int) =~= a@);
    while j < b.len()
        invariant
            j <= b@.len(),
            r@ == a@ + b@.take(j as int),
        decreases b@.len() - j,
    {
        r.push(b[j]);
        j += 1;
        assert(r@ =~= a@ + b@.take(j as int));
    }
    assert(b@.take(b@.len() as int) =~= b@);
    r
}

/// Number of characters of a freshly drawn challenge.
pub const CHALLENGE_LENGTH: usize = 64;

/// A shared secret and a challenge; the answer proves knowledge of the secret.
pub struct ChallengeResponse {
    secret: String,
    challenge: String,
}

impl ChallengeResponse {
    pub closed spec fn secret_view(&self) -> Seq<char> {
        self.secret@
    }

    pub closed spec fn challenge_view(&self) -> Seq<char> {
        self.challenge@
    }

    /// A fresh random challenge of 64 alphanumeric characters for `secret`.
    pub fn new(secret: String) -> (r: Self)
        ensures
            r.secret_view() == secret@,
            r.challenge_view().len() == CHALLENGE_LENGTH,
            forall|i: int|
                0 <= i < r.challenge_view().len() ==> is_ascii_alnum(#[trigger] r.challenge_view()[i]),
    {
        let challenge = random_alphanumeric(CHALLENGE_LENGTH);
        Self { secret, challenge }
    }

    /// The challenge received from the other side, for `secret`.
    pub fn with_challenge(secret: String, challenge: &str) -> (r: Self)
        ensures
            r.secret_view() == secret@,
            r.challenge_view() == challenge@,
    {
        Self { secret, challenge: challenge.to_owned() }
    }

    /// Hex of SHA-256 over the secret followed by `input`.
    pub fn hash(&self, input: &str) -> (r: String)
        ensures
            r@ == challenge_answer(self.secret_view(), input@),
            is_hex_digest_text(r@),
    {
        let data = concat_bytes(self.secret.as_str().as_bytes(), input.as_bytes());
        let digest = sha256(data.as_slice());
        proof {
            lemma_hex_lower(digest@);
        }
        hex_encode(digest.as_slice())
    }

    /// The challenge.
    pub fn challenge(&self) -> (r: String)
        ensures
            r@ == self.challenge_view(),
    {
        self.challenge.clone()
    }

    /// Whether `response` is the answer to the challenge.
    pub fn verify(&self, response: &str) -> (r: bool)
        ensures
            r == (response@ == challenge_answer(self.secret_view(), self.challenge_view())),
    {
        let expected = self.hash(self.challenge.as_str());
        let got = response.to_owned();
        expected == got
    }

    /// The answer to the challenge.
    pub fn response(&self) -> (r: String)
        ensures
            r@ == challenge_answer(self.secret_view(), self.challenge_view()),
            is_hex_digest_text(r@),
    {
        self.hash(self.challenge.as_str())
    }
}

} // verus!
