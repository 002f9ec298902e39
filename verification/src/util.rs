//! Identifiers, session tokens and small shared pieces.

use vstd::prelude::*;
use vstd::string::StringSliceAdditionalSpecFns;
use base64::Engine;

verus! {

/// An application-level error carrying a description.
#[derive(Debug)]
pub struct AppError {
    pub message: String,
}

impl AppError {
    pub fn new(message: String) -> (r: Self)
        ensures
            r.message@ == message@,
    {
        AppError { message }
    }
}

/// Answered to a request that needs a login: the client is redirected to
/// the login flow.
#[derive(Clone, Copy, Debug, PartialEq, Eq, Structural)]
pub struct AuthRedirect;

/// Relies on std's `String::from_utf8` to rebuild a string from ASCII
/// bytes; each byte below 128 is one code point.
#[verifier::external_body]
fn ascii_string(bytes: &Vec<u8>) -> (r: String)
    requires
        forall|i: int| 0 <= i < bytes@.len() ==> bytes@[i] < 128,
    ensures
        r@ == bytes@.map(|i: int, b: u8| b as char),
{
    String::from_utf8(bytes.clone()).unwrap_or_default()
}

/// An element-for-element copy of a vector of plain values.
pub(crate) fn copy_vec<T: Copy>(v: &Vec<T>) -> (r: Vec<T>)
    ensures
        r@ == v@,
{
    let mut r: Vec<T> = Vec::new();
    let mut i: usize = 0;
    while i < v.len()
        invariant
            0 <= i <= v.len(),
            r@ =~= v@.take(i as int),
        decreases v.len() - i,
    {
        r.push(v[i]);
        i = i + 1;
    }
    proof {
        assert(v@.take(v@.len() as int) =~= v@);
    }
    r
}

/// Whether a character may appear in an identifier: ASCII letters and
/// digits, `-`, `_` and space.
pub open spec fn spec_valid_char(c: char) -> bool {
    ||| 'a' <= c <= 'z'
    ||| 'A' <= c <= 'Z'
    ||| '0' <= c <= '9'
    ||| c == '-'
    ||| c == '_'
    ||| c == ' '
}

/// Whether a byte is a valid identifier character.
pub open spec fn spec_valid_byte(b: u8) -> bool {
    ||| 97 <= b <= 122
    ||| 65 <= b <= 90
    ||| 48 <= b <= 57
    ||| b == 45
    ||| b == 95
    ||| b == 32
}

/// The text held by a zero-padded byte buffer: the bytes before the
/// first zero, one character each.
pub open spec fn text_of(bytes: Seq<u8>) -> Seq<char>
    decreases bytes.len(),
{
    if bytes.len() == 0 || bytes.first() == 0 {
        Seq::empty()
    } else {
        seq![bytes.first() as char] + text_of(bytes.drop_first())
    }
}

/// Whether a string may name a document or a user.
pub open spec fn spec_valid_identifier(s: Seq<char>) -> bool {
    &&& 1 <= s.len() <= 64
    &&& forall|i: int| 0 <= i < s.len() ==> spec_valid_char(#[trigger] s[i])
}

/// Unique identifier for a document or user: 1 to 64 ASCII letters,
/// digits, `-`, `_` or spaces, held right-padded with zero bytes so that
/// comparing and hashing identifiers needs no allocation.
#[derive(Debug, Clone, Copy, PartialEq, Eq, Hash)]
pub struct Identifier {
    bytes: [u8; 64],
}

impl View for Identifier {
    type V = Seq<char>;

    closed spec fn view(&self) -> Seq<char> {
        text_of(self.bytes@)
    }
}

impl Identifier {
    /// Longest accepted identifier, in bytes.
    pub const MAX_LEN: usize = 64;

    /// Whether a character may appear in an identifier.
    pub fn valid_char(c: char) -> (r: bool)
        ensures
            r == spec_valid_char(c),
    {
        let u = c as u32;
        (97 <= u && u <= 122) || (65 <= u && u <= 90) || (48 <= u && u <= 57) || u == 45 || u == 95
            || u == 32
    }

    /// Parse an identifier, rejecting the empty string, over-length
    /// strings and every illegal character.
    pub fn parse(s: &str) -> (r: Result<Identifier, AppError>)
        ensures
            r is Ok <==> spec_valid_identifier(s@),
            r matches Ok(id) ==> id@ == s@,
    {
        broadcast use vstd::string::is_ascii_spec_bytes;
        broadcast use vstd::utf8::is_ascii_chars_nat_bound;

        if !s.is_ascii() {
            proof {
                if spec_valid_identifier(s@) {
                    assert forall|w: int| 0 <= w < s@.len() implies '\0' <= #[trigger] s@[w]
                        <= '\u{7f}' by {
                        assert(spec_valid_char(s@[w]));
                    }
                    assert(vstd::utf8::is_ascii_chars(s@));
                }
            }
            return Err(AppError::new(String::from_str("Document ID contains invalid characters")));
        }
        let b = s.as_bytes();
        let n = b.len();
        proof {
            assert(s.spec_bytes() =~= Seq::new(s@.len(), |i: int| s@.index(i) as u8));
        }
        if n == 0 || n > 64 {
            return Err(AppError::new(String::from_str("Document ID length is invalid")));
        }
        let mut bytes: [u8; 64] = [0u8; 64];
        let mut i: usize = 0;
        while i < n
            invariant
                0 <= i <= n,
                n == s@.len(),
                n <= 64,
                b@ == Seq::new(s@.len(), |j: int| s@.index(j) as u8),
                vstd::utf8::is_ascii_chars(s@),
                bytes@.len() == 64,
                forall|j: int| 0 <= j < i ==> #[trigger] bytes@[j] == b@[j],
                forall|j: int| 0 <= j < i ==> spec_valid_byte(#[trigger] b@[j]),
                forall|j: int| i <= j < 64 ==> #[trigger] bytes@[j] == 0,
            decreases n - i,
        {
            let c = b[i];
            if !((97 <= c && c <= 122) || (65 <= c && c <= 90) || (48 <= c && c <= 57) || c == 45
                || c == 95 || c == 32) {
                proof {
                    let ch = s@[i as int];
                    assert(b@[i as int] == ch as u8);
                    assert((ch as nat) < 128);
                    assert(!spec_valid_char(ch));
                }
                return Err(
                    AppError::new(String::from_str("Document ID contains invalid characters")),
                );
            }
            bytes[i] = c;
            i = i + 1;
        }
        let id = Identifier { bytes };
        proof {
            assert forall|j: int| 0 <= j < s@.len() implies spec_valid_char(
                #[trigger] s@[j],
            ) by {
                assert(spec_valid_byte(b@[j]));
                assert(b@[j] == s@[j] as u8);
                assert((s@[j] as nat) < 128);
            }
            lemma_text_of_padded(id.bytes@, s@, n as int);
        }
        Ok(id)
    }

    /// The identifier's text.
    pub fn text(&self) -> (r: String)
        requires
            spec_valid_identifier(self@),
        ensures
            r@ == self@,
    {
        let mut prefix: Vec<u8> = Vec::new();
        let mut i: usize = 0;
        proof {
            lemma_text_of_bounds(self.bytes@);
        }
        while i < 64 && self.bytes[i] != 0
            invariant
                0 <= i <= 64,
                self.bytes@.len() == 64,
                i <= self@.len(),
                forall|j: int| 0 <= j < i ==> #[trigger] self.bytes@[j] != 0,
                prefix@.len() == i,
                forall|j: int| 0 <= j < i ==> #[trigger] prefix@[j] == self.bytes@[j],
            decreases 64 - i,
        {
            proof {
                lemma_text_of_step(self.bytes@, i as int);
            }
            prefix.push(self.bytes[i]);
            i = i + 1;
        }
        proof {
            lemma_text_of_prefix(self.bytes@, i as int);
            assert forall|j: int| 0 <= j < prefix@.len() implies prefix@[j] < 128 by {
                assert(self@[j] == self.bytes@[j] as char);
                assert(spec_valid_char(self@[j]));
            }
        }
        let r = ascii_string(&prefix);
        proof {
            assert(r@ =~= self@);
        }
        r
    }
}

/// Each position of the text is the byte cast to a character, and the
/// text ends at the first zero.
proof fn lemma_text_of_step(bytes: Seq<u8>, i: int)
    requires
        0 <= i < bytes.len(),
        forall|j: int| 0 <= j <= i ==> #[trigger] bytes[j] != 0,
    ensures
        text_of(bytes).len() > i,
        text_of(bytes)[i] == bytes[i] as char,
    decreases i,
{
    if i == 0 {
    } else {
        assert forall|j: int| 0 <= j <= i - 1 implies #[trigger] bytes.drop_first()[j] != 0 by {
            assert(bytes.drop_first()[j] == bytes[j + 1]);
        }
        lemma_text_of_step(bytes.drop_first(), i - 1);
    }
}

/// The text is never longer than the buffer.
proof fn lemma_text_of_bounds(bytes: Seq<u8>)
    ensures
        text_of(bytes).len() <= bytes.len(),
    decreases bytes.len(),
{
    if bytes.len() != 0 && bytes.first() != 0 {
        lemma_text_of_bounds(bytes.drop_first());
    }
}

/// A buffer whose first `n` bytes are nonzero and whose byte `n` (if in
/// range) is zero holds a text of exactly `n` characters.
proof fn lemma_text_of_prefix(bytes: Seq<u8>, n: int)
    requires
        0 <= n <= bytes.len(),
        forall|j: int| 0 <= j < n ==> #[trigger] bytes[j] != 0,
        n < bytes.len() ==> bytes[n] == 0,
    ensures
        text_of(bytes).len() == n,
        forall|j: int| 0 <= j < n ==> text_of(bytes)[j] == (#[trigger] bytes[j]) as char,
    decreases n,
{
    if n == 0 {
    } else {
        assert forall|j: int| 0 <= j < n - 1 implies #[trigger] bytes.drop_first()[j] != 0 by {
            assert(bytes.drop_first()[j] == bytes[j + 1]);
        }
        lemma_text_of_prefix(bytes.drop_first(), n - 1);
        assert forall|j: int| 0 <= j < n implies text_of(bytes)[j] == (
        #[trigger] bytes[j]) as char by {
            if j > 0 {
                assert(text_of(bytes.drop_first())[j - 1] == bytes.drop_first()[j - 1] as char);
                assert(bytes.drop_first()[j - 1] == bytes[j]);
            }
        }
    }
}

/// A buffer filled with the bytes of an ASCII text and padded with
/// zeroes holds exactly that text.
proof fn lemma_text_of_padded(bytes: Seq<u8>, s: Seq<char>, n: int)
    requires
        bytes.len() == 64,
        0 <= n <= 64,
        s.len() == n,
        forall|j: int| 0 <= j < n ==> (#[trigger] bytes[j]) as char == s[j],
        forall|j: int| 0 <= j < n ==> spec_valid_byte(#[trigger] bytes[j]),
        forall|j: int| n <= j < 64 ==> #[trigger] bytes[j] == 0,
    ensures
        text_of(bytes) =~= s,
{
    assert forall|j: int| 0 <= j < n implies #[trigger] bytes[j] != 0 by {
        assert(spec_valid_byte(bytes[j]));
    }
    lemma_text_of_prefix(bytes, n);
    assert forall|j: int| 0 <= j < n implies text_of(bytes)[j] == s[j] by {
        assert(text_of(bytes)[j] == bytes[j] as char);
    }
}

/// What base64's URL-safe unpadded engine encodes a byte string to.
pub uninterp spec fn b64_of(bytes: Seq<u8>) -> Seq<char>;

/// What base64's URL-safe unpadded engine decodes a string to.
pub uninterp spec fn b64_decoded(s: Seq<char>) -> Option<Seq<u8>>;

/// Relies on base64's `URL_SAFE_NO_PAD` engine: encoding depends on the
/// bytes alone, and decoding inverts it.
#[verifier::external_body]
fn b64_encode(bytes: &[u8]) -> (r: String)
    ensures
        r@ == b64_of(bytes@),
        b64_decoded(r@) == Some(bytes@),
{
    base64::engine::general_purpose::URL_SAFE_NO_PAD.encode(bytes)
}

/// Relies on base64's `URL_SAFE_NO_PAD` engine: it accepts exactly the
/// canonical encodings, and yields the bytes whose encoding the input is.
#[verifier::external_body]
fn b64_decode(s: &str) -> (r: Option<Vec<u8>>)
    ensures
        r matches Some(b) ==> (b64_decoded(s@) == Some(b@) && b64_of(b@) == s@),
        r is None ==> b64_decoded(s@) is None,
{
    match base64::engine::general_purpose::URL_SAFE_NO_PAD.decode(s) {
        Ok(b) => Some(b),
        Err(_) => None,
    }
}

/// Relies on `rand::random`: 64 bytes from a cryptographic generator.
/// Nothing is promised of their values.
#[verifier::external_body]
fn random_bytes() -> (r: [u8; 64]) {
    rand::random()
}

/// An opaque 64-byte session token, carried in a cookie as URL-safe
/// unpadded base64.  It only keys the in-memory session table; it is not
/// itself a credential.
#[derive(Debug, Clone, Copy, PartialEq, Eq, Hash)]
pub struct Session {
    bytes: [u8; 64],
}

impl View for Session {
    type V = Seq<u8>;

    closed spec fn view(&self) -> Seq<u8> {
        self.bytes@
    }
}

impl Session {
    /// Whether two tokens hold the same bytes.
    pub fn same(&self, other: &Session) -> (r: bool)
        ensures
            r == (self@ == other@),
    {
        let mut i: usize = 0;
        while i < 64
            invariant
                0 <= i <= 64,
                self@.len() == 64,
                other@.len() == 64,
                self@ == self.bytes@,
                other@ == other.bytes@,
                forall|j: int| 0 <= j < i ==> self@[j] == other@[j],
            decreases 64 - i,
        {
            if self.bytes[i] != other.bytes[i] {
                return false;
            }
            i = i + 1;
        }
        proof {
            assert(self@ =~= other@);
        }
        true
    }

    /// A fresh token of 64 random bytes.
    pub fn new() -> (r: Self)
        ensures
            r@.len() == 64,
    {
        Session { bytes: random_bytes() }
    }

    /// The token as cookie text.
    pub fn encoded(&self) -> (r: String)
        ensures
            r@ == b64_of(self@),
            b64_decoded(r@) == Some(self@),
    {
        b64_encode(self.bytes.as_slice())
    }

    /// Read a token back from cookie text: exactly the canonical
    /// encodings of 64 bytes are accepted.
    pub fn from_cookie(cookie: &str) -> (r: Option<Session>)
        ensures
            r matches Some(s) ==> (b64_decoded(cookie@) == Some(s@) && s@.len() == 64),
            r is None <==> !(b64_decoded(cookie@) matches Some(b) && b.len() == 64),
    {
        match b64_decode(cookie) {
            Some(decoded) => {
                if decoded.len() != 64 {
                    return None;
                }
                let mut bytes: [u8; 64] = [0u8; 64];
                let mut i: usize = 0;
                while i < 64
                    invariant
                        0 <= i <= 64,
                        decoded@.len() == 64,
                        bytes@.len() == 64,
                        forall|j: int| 0 <= j < i ==> #[trigger] bytes@[j] == decoded@[j],
                    decreases 64 - i,
                {
                    bytes[i] = decoded[i];
                    i = i + 1;
                }
                let s = Session { bytes };
                proof {
                    assert(s@ =~= decoded@);
                }
                Some(s)
            }
            None => None,
        }
    }

    /// A cookie round trip gives the token back: reading the encoded
    /// token always succeeds and yields an equal token.
    pub fn cookie_round_trip(&self) -> (r: Option<Session>)
        ensures
            r matches Some(s) ==> s@ == self@,
            r is Some,
    {
        let text = self.encoded();
        Session::from_cookie(text.as_str())
    }

    /// The `Set-Cookie` value that carries this token.
    pub fn to_cookie(&self) -> (r: String)
        ensures
            r@ == "rustpad_session="@ + b64_of(self@)
                + "; Path=/; HttpOnly; Max-Age=172800; SameSite=Lax"@,
    {
        let mut r = String::from_str("rustpad_session=");
        r.append(self.encoded().as_str());
        r.append("; Path=/; HttpOnly; Max-Age=172800; SameSite=Lax");
        r
    }
}

} // verus!
