//! Signed requests: what a client puts into the headers and what a server admits.
use vstd::prelude::*;
use vstd::string::StringExecFns;

use crate::bytes;
use crate::codec;
use crate::keys;
use crate::text;

verus! {

/// By how many seconds the clocks of client and server may differ.
pub const MAX_SKEW_SECS: u64 = 60;

/// Why a request is not admitted.
#[derive(Debug, Clone, Copy, PartialEq, Eq, Structural)]
pub enum AuthError {
    MissingTime,
    BadTime,
    OutsideSkew,
    MissingAuthorization,
    BadScheme,
    BadFormat,
    BadPubkey,
    BadSignature,
    BadPubkeyLen,
    BadSigLen,
    Rejected,
}

impl AuthError {
    /// What went wrong, in words.
    pub open spec fn words(&self) -> Seq<char> {
        match *self {
            AuthError::MissingTime => "missing x-arkel-time"@,
            AuthError::BadTime => "bad x-arkel-time"@,
            AuthError::OutsideSkew => "x-arkel-time outside skew window"@,
            AuthError::MissingAuthorization => "missing authorization"@,
            AuthError::BadScheme => "bad auth scheme"@,
            AuthError::BadFormat => "bad auth format"@,
            AuthError::BadPubkey => "bad pubkey"@,
            AuthError::BadSignature => "bad signature"@,
            AuthError::BadPubkeyLen => "bad pubkey len"@,
            AuthError::BadSigLen => "bad sig len"@,
            AuthError::Rejected => "signature verification failed"@,
        }
    }

    /// What went wrong, in words.
    pub fn message(&self) -> (r: String)
        ensures
            r@ == self.words(),
    {
        match self {
            AuthError::MissingTime => text::owned("missing x-arkel-time"),
            AuthError::BadTime => text::owned("bad x-arkel-time"),
            AuthError::OutsideSkew => text::owned("x-arkel-time outside skew window"),
            AuthError::MissingAuthorization => text::owned("missing authorization"),
            AuthError::BadScheme => text::owned("bad auth scheme"),
            AuthError::BadFormat => text::owned("bad auth format"),
            AuthError::BadPubkey => text::owned("bad pubkey"),
            AuthError::BadSignature => text::owned("bad signature"),
            AuthError::BadPubkeyLen => text::owned("bad pubkey len"),
            AuthError::BadSigLen => text::owned("bad sig len"),
            AuthError::Rejected => text::owned("signature verification failed"),
        }
    }
}

/// The text that a request's signature covers: method, path, digest of the body and
/// time.
pub open spec fn payload(method: Seq<char>, path: Seq<char>, body: Seq<u8>, time: u64) -> Seq<char> {
    method + " "@ + path + " "@ + codec::hex_text(keys::digest_of(body)) + " "@ + text::decimal(
        time as nat,
    )
}

/// The bytes that a request's signature covers.
pub open spec fn signed_bytes(method: Seq<char>, path: Seq<char>, body: Seq<u8>, time: u64) -> Seq<
    u8,
> {
    vstd::utf8::encode_utf8(payload(method, path, body, time))
}

/// Whether two times are close enough to each other.
pub open spec fn within_skew(a: u64, b: u64) -> bool {
    a - b <= MAX_SKEW_SECS && b - a <= MAX_SKEW_SECS
}

/// Who a request is admitted as, or why it is not.
pub open spec fn admitted(
    method: Seq<char>,
    path: Seq<char>,
    body: Seq<u8>,
    time: Option<Seq<char>>,
    authorization: Option<Seq<char>>,
    now: u64,
) -> Result<Seq<u8>, AuthError> {
    if time is None {
        Err(AuthError::MissingTime)
    } else if text::parsed(time->0, u64::MAX as nat) is None {
        Err(AuthError::BadTime)
    } else {
        let t = text::parsed(time->0, u64::MAX as nat)->0 as u64;
        if !within_skew(now, t) {
            Err(AuthError::OutsideSkew)
        } else if authorization is None {
            Err(AuthError::MissingAuthorization)
        } else if !"Arkel "@.is_prefix_of(authorization->0) {
            Err(AuthError::BadScheme)
        } else {
            credentials_admitted(
                signed_bytes(method, path, body, t),
                authorization->0.skip("Arkel "@.len() as int),
            )
        }
    }
}

/// Who the credentials `<key>:<signature>` of a message admit, or why nobody.
pub open spec fn credentials_admitted(message: Seq<u8>, credentials: Seq<char>) -> Result<
    Seq<u8>,
    AuthError,
> {
    match text::split_once(credentials, ':') {
        None => Err(AuthError::BadFormat),
        Some((key, signature)) => if !codec::is_hex(key) {
            Err(AuthError::BadPubkey)
        } else if !codec::is_hex(signature) {
            Err(AuthError::BadSignature)
        } else if codec::hex_bytes(key).len() != 32 {
            Err(AuthError::BadPubkeyLen)
        } else if !keys::valid_key(codec::hex_bytes(key)) {
            Err(AuthError::BadPubkey)
        } else if codec::hex_bytes(signature).len() != 64 {
            Err(AuthError::BadSigLen)
        } else if !keys::verifies(codec::hex_bytes(key), message, codec::hex_bytes(signature)) {
            Err(AuthError::Rejected)
        } else {
            Ok(codec::hex_bytes(key))
        },
    }
}

/// The contents of an optional header.
pub open spec fn header(h: Option<&str>) -> Option<Seq<char>> {
    match h {
        Some(s) => Some(s@),
        None => None,
    }
}

fn payload_text(method: &str, path: &str, body: &[u8], time: u64) -> (r: String)
    ensures
        r@ == payload(method@, path@, body@, time),
{
    let digest = keys::digest(body);
    let mut out = text::join3(method, " ", path);
    out.append(" ");
    out.append(codec::hex_encode(vstd::array::array_as_slice(&digest)).as_str());
    out.append(" ");
    out.append(text::decimal_of(time).as_str());
    out
}

/// Checks the headers `x-arkel-time` and `authorization` of a request at the time
/// `now`, and gives the public key that it is admitted under.
pub fn verify_request(
    method: &str,
    path: &str,
    body: &[u8],
    time: Option<&str>,
    authorization: Option<&str>,
    now: u64,
) -> (r: Result<[u8; 32], AuthError>)
    ensures
        match admitted(method@, path@, body@, header(time), header(authorization), now) {
            Ok(key) => r is Ok && r->Ok_0@ == key,
            Err(e) => r == Err::<[u8; 32], AuthError>(e),
        },
{
    let time = match time {
        Some(t) => t,
        None => {
            return Err(AuthError::MissingTime);
        },
    };
    let t: u64 = match text::parse_decimal(time, u64::MAX) {
        Some(t) => t,
        None => {
            return Err(AuthError::BadTime);
        },
    };
    let apart: u64 = if now >= t {
        now - t
    } else {
        t - now
    };
    if apart > MAX_SKEW_SECS {
        return Err(AuthError::OutsideSkew);
    }
    let authorization = match authorization {
        Some(a) => a,
        None => {
            return Err(AuthError::MissingAuthorization);
        },
    };
    let credentials = match text::strip_prefix(authorization, "Arkel ") {
        Some(c) => c,
        None => {
            return Err(AuthError::BadScheme);
        },
    };
    let message = payload_text(method, path, body, t);
    check_credentials(message.as_str().as_bytes(), credentials.as_str())
}

fn check_credentials(message: &[u8], credentials: &str) -> (r: Result<[u8; 32], AuthError>)
    ensures
        match credentials_admitted(message@, credentials@) {
            Ok(key) => r is Ok && r->Ok_0@ == key,
            Err(e) => r == Err::<[u8; 32], AuthError>(e),
        },
{
    let (key_hex, sig_hex) = match text::split_at_char(credentials, ':') {
        Some(p) => p,
        None => {
            return Err(AuthError::BadFormat);
        },
    };
    let key_bytes = match codec::hex_decode(key_hex.as_str()) {
        Some(b) => b,
        None => {
            return Err(AuthError::BadPubkey);
        },
    };
    let sig_bytes = match codec::hex_decode(sig_hex.as_str()) {
        Some(b) => b,
        None => {
            return Err(AuthError::BadSignature);
        },
    };
    let key = match bytes::to_array32(key_bytes.as_slice()) {
        Some(k) => k,
        None => {
            return Err(AuthError::BadPubkeyLen);
        },
    };
    if !keys::is_key(&key) {
        return Err(AuthError::BadPubkey);
    }
    let signature = match bytes::to_array64(sig_bytes.as_slice()) {
        Some(s) => s,
        None => {
            return Err(AuthError::BadSigLen);
        },
    };
    if keys::verify(&key, message, &signature) {
        Ok(key)
    } else {
        Err(AuthError::Rejected)
    }
}

/// The header `authorization` of a request signed with a secret key.
pub open spec fn authorization_of(
    secret: Seq<u8>,
    method: Seq<char>,
    path: Seq<char>,
    body: Seq<u8>,
    now: u64,
) -> Seq<char> {
    "Arkel "@ + codec::hex_text(keys::public_of(secret)) + ":"@ + codec::hex_text(
        keys::signature_of(secret, signed_bytes(method, path, body, now)),
    )
}

/// The headers `authorization` and `x-arkel-time` of a request signed at the time
/// `now`. A server that receives the request within the permitted skew admits it as
/// coming from the signer, save for a degenerate signature. Outside the skew it admits
/// nothing under these headers, and within it another request only where the signature
/// is accepted for that one too.
pub fn auth_headers(secret_key: &[u8; 32], method: &str, path: &str, body: &[u8], now: u64) -> (r: (
    String,
    String,
))
    ensures
        r.0@ == authorization_of(secret_key@, method@, path@, body@, now),
        r.1@ == text::decimal(now as nat),
        !keys::degenerate(
            keys::signature_of(secret_key@, signed_bytes(method@, path@, body@, now)),
        ) ==> forall|later: u64|
            within_skew(later, now) ==> #[trigger] admitted(
                method@,
                path@,
                body@,
                Some(r.1@),
                Some(r.0@),
                later,
            ) == Ok::<Seq<u8>, AuthError>(keys::public_of(secret_key@)),
        forall|m: Seq<char>, p: Seq<char>, b: Seq<u8>, later: u64| #[trigger]
            admitted(m, p, b, Some(r.1@), Some(r.0@), later) == (if !within_skew(later, now) {
                Err::<Seq<u8>, AuthError>(AuthError::OutsideSkew)
            } else if keys::verifies(
                keys::public_of(secret_key@),
                signed_bytes(m, p, b, now),
                keys::signature_of(secret_key@, signed_bytes(method@, path@, body@, now)),
            ) {
                Ok(keys::public_of(secret_key@))
            } else {
                Err(AuthError::Rejected)
            }),
{
    let message = payload_text(method, path, body, now);
    let public = keys::public_key(secret_key);
    let signature = keys::sign(secret_key, message.as_str().as_bytes());
    let mut out = text::join3(
        "Arkel ",
        codec::hex_encode(vstd::array::array_as_slice(&public)).as_str(),
        ":",
    );
    out.append(codec::hex_encode(vstd::array::array_as_slice(&signature)).as_str());
    let time = text::decimal_of(now);
    proof {
        let key_hex = codec::hex_text(public@);
        let sig_hex = codec::hex_text(signature@);
        let credentials = key_hex + seq![':'] + sig_hex;
        reveal_strlit("Arkel ");
        reveal_strlit(":");
        assert(":"@ =~= seq![':']);
        assert(out@ =~= "Arkel "@ + credentials);
        assert(out@.skip("Arkel "@.len() as int) =~= credentials);
        assert(out@.subrange(0, "Arkel "@.len() as int) =~= "Arkel "@);
        assert(!key_hex.contains(':')) by {
            if key_hex.contains(':') {
                let i = choose|i: int| 0 <= i < key_hex.len() && key_hex[i] == ':';
                codec::lemma_hex_chars(public@, i);
            }
        }
        text::lemma_split_once(key_hex, ':', sig_hex);
        codec::hex_round_trip(public@);
        codec::hex_round_trip(signature@);
        text::decimal_round_trip(now as nat);
        assert(text::parsed(time@, u64::MAX as nat) == Some(now as nat));
    }
    (out, time)
}

/// A request is refused where a header is missing, or where its time cannot be read or
/// lies outside the permitted skew.
pub proof fn stale_requests_are_refused(
    method: Seq<char>,
    path: Seq<char>,
    body: Seq<u8>,
    time: Option<Seq<char>>,
    authorization: Option<Seq<char>>,
    now: u64,
)
    requires
        ({
            ||| time is None
            ||| authorization is None
            ||| text::parsed(time->0, u64::MAX as nat) is None
            ||| !within_skew(now, text::parsed(time->0, u64::MAX as nat)->0 as u64)
        }),
    ensures
        admitted(method, path, body, time, authorization, now) is Err,
{
}

/// A request is admitted only under a key for which it carries an accepted signature of
/// its own method, path, body and time, and only at a time close to that one.
pub proof fn admitted_requests_are_signed(
    method: Seq<char>,
    path: Seq<char>,
    body: Seq<u8>,
    time: Option<Seq<char>>,
    authorization: Option<Seq<char>>,
    now: u64,
)
    requires
        admitted(method, path, body, time, authorization, now) is Ok,
    ensures
        ({
            let key = admitted(method, path, body, time, authorization, now)->Ok_0;
            let t = text::parsed(time->0, u64::MAX as nat)->0 as u64;
            let credentials = authorization->0.skip("Arkel "@.len() as int);
            let (key_hex, signature_hex) = text::split_once(credentials, ':')->0;
            &&& time is Some && authorization is Some
            &&& within_skew(now, t)
            &&& text::split_once(credentials, ':') is Some
            &&& key == codec::hex_bytes(key_hex)
            &&& keys::verifies(
                key,
                signed_bytes(method, path, body, t),
                codec::hex_bytes(signature_hex),
            )
        }),
{
}

proof fn lemma_no_space_in_hex(b: Seq<u8>)
    ensures
        !codec::hex_text(b).contains(' '),
{
    if codec::hex_text(b).contains(' ') {
        let i = choose|i: int| 0 <= i < codec::hex_text(b).len() && codec::hex_text(b)[i] == ' ';
        codec::lemma_hex_chars(b, i);
    }
}

proof fn lemma_no_space_in_decimal(n: u64)
    ensures
        !text::decimal(n as nat).contains(' '),
{
    let d = text::decimal(n as nat);
    text::decimal_round_trip(n as nat);
    if d.contains(' ') {
        let i = choose|i: int| 0 <= i < d.len() && d[i] == ' ';
        assert(text::is_digit(d[i]));
    }
}

/// What a signature covers determines the request: requests whose methods hold no
/// space, and whose signed bytes are the same, have the same method, path, digest of
/// the body, and time.
pub proof fn signed_bytes_determine_the_request(
    method: Seq<char>,
    path: Seq<char>,
    body: Seq<u8>,
    time: u64,
    method2: Seq<char>,
    path2: Seq<char>,
    body2: Seq<u8>,
    time2: u64,
)
    requires
        !method.contains(' '),
        !method2.contains(' '),
        signed_bytes(method, path, body, time) == signed_bytes(method2, path2, body2, time2),
    ensures
        method == method2,
        path == path2,
        keys::digest_of(body) == keys::digest_of(body2),
        time == time2,
{
    let p = payload(method, path, body, time);
    let p2 = payload(method2, path2, body2, time2);
    vstd::utf8::encode_utf8_decode_utf8(p);
    vstd::utf8::encode_utf8_decode_utf8(p2);
    assert(p == p2);
    reveal_strlit(" ");
    assert(" "@ =~= seq![' ']);
    let digest = keys::digest_of(body);
    let digest2 = keys::digest_of(body2);
    let (d, d2) = (text::decimal(time as nat), text::decimal(time2 as nat));
    let (h, h2) = (codec::hex_text(digest), codec::hex_text(digest2));
    let (mp, mp2) = (method + seq![' '] + path, method2 + seq![' '] + path2);
    lemma_no_space_in_decimal(time);
    lemma_no_space_in_decimal(time2);
    lemma_no_space_in_hex(digest);
    lemma_no_space_in_hex(digest2);
    text::lemma_last_mark(mp + seq![' '] + h, d, mp2 + seq![' '] + h2, d2, ' ');
    text::lemma_last_mark(mp, h, mp2, h2, ' ');
    text::lemma_split_once(method, ' ', path);
    text::lemma_split_once(method2, ' ', path2);
    codec::hex_round_trip(digest);
    codec::hex_round_trip(digest2);
    text::decimal_round_trip(time as nat);
    text::decimal_round_trip(time2 as nat);
}

} // verus!
