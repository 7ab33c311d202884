//! What a client of the index computes between its requests: routes, candidates,
//! and what to do with a reply.
use vstd::prelude::*;
use vstd::string::StringExecFns;

use crate::bytes;
use crate::codec;
use crate::dataplane::StorageTarget;
use crate::index::types;
use crate::json;
use crate::keys;
use crate::order;
use crate::text;

verus! {

/// Whether a byte stands for itself in a path (RFC 3986), or separates segments.
pub open spec fn stays(b: u8) -> bool {
    ||| 65 <= b <= 90
    ||| 97 <= b <= 122
    ||| 48 <= b <= 57
    ||| b == 45
    ||| b == 46
    ||| b == 95
    ||| b == 126
    ||| b == 47
}

/// The upper-case hexadecimal digit of a number below sixteen.
pub open spec fn upper_hex(n: int) -> char {
    if n < 10 {
        (48 + n) as char
    } else {
        (55 + n) as char
    }
}

/// A byte in a percent-encoded path.
pub open spec fn encoded_byte(b: u8) -> Seq<char> {
    if stays(b) {
        seq![b as char]
    } else {
        seq!['%', upper_hex(b as int / 16), upper_hex(b as int % 16)]
    }
}

/// Bytes in a percent-encoded path.
pub open spec fn encoded_bytes(b: Seq<u8>) -> Seq<char>
    decreases b.len(),
{
    if b.len() == 0 {
        seq![]
    } else {
        encoded_bytes(b.drop_last()) + encoded_byte(b.last())
    }
}

fn push_upper_hex(out: &mut String, n: u8)
    requires
        n < 16,
    ensures
        final(out)@ == old(out)@.push(upper_hex(n as int)),
{
    if n < 10 {
        out.push((48 + n) as char);
    } else {
        out.push((55 + n) as char);
    }
}

/// Percent-encodes each segment of a path. The separators `/` stay, so that keys of
/// objects may hold them.
pub fn percent_encode_path(path: &str) -> (r: String)
    ensures
        r@ == encoded_bytes(vstd::utf8::encode_utf8(path@)),
{
    let bytes = path.as_bytes();
    let ghost all = bytes@;
    let mut out = String::new();
    let mut i: usize = 0;
    assert(all.take(0) =~= Seq::<u8>::empty());
    while i < bytes.len()
        invariant
            i <= bytes@.len(),
            all == bytes@,
            out@ == encoded_bytes(all.take(i as int)),
        decreases bytes@.len() - i,
    {
        let b: u8 = bytes[i];
        let ghost before = out@;
        assert(all.take(i + 1).drop_last() =~= all.take(i as int));
        if (65 <= b && b <= 90) || (97 <= b && b <= 122) || (48 <= b && b <= 57) || b == 45 || b
            == 46 || b == 95 || b == 126 || b == 47 {
            out.push(b as char);
        } else {
            out.push('%');
            push_upper_hex(&mut out, b / 16);
            push_upper_hex(&mut out, b % 16);
        }
        assert(out@ =~= before + encoded_byte(b));
        i = i + 1;
    }
    assert(all.take(i as int) =~= all);
    out
}

/// A route with its path encoded and its query, if it has one, as it is.
pub open spec fn encoded_route(route: Seq<char>) -> Seq<char> {
    match text::split_once(route, '?') {
        Some((path, query)) => encoded_bytes(vstd::utf8::encode_utf8(path)) + "?"@ + query,
        None => encoded_bytes(vstd::utf8::encode_utf8(route)),
    }
}

/// Encodes the path of a route and leaves its query as it is.
pub fn percent_encode_route(route: &str) -> (r: String)
    ensures
        r@ == encoded_route(route@),
{
    match text::split_at_char(route, '?') {
        Some((path, query)) => {
            let encoded = percent_encode_path(path.as_str());
            text::join3(encoded.as_str(), "?", query.as_str())
        },
        None => percent_encode_path(route),
    }
}

/// The bytes that a percent-encoded path denotes.
pub open spec fn decoded_path(s: Seq<char>) -> Seq<u8>
    decreases s.len(),
{
    if s.len() == 0 {
        seq![]
    } else if s.len() >= 3 && s[s.len() - 3] == '%' {
        decoded_path(s.take(s.len() - 3)).push(
            (codec::nibble(s[s.len() - 2])->0 * 16 + codec::nibble(s[s.len() - 1])->0) as u8,
        )
    } else {
        decoded_path(s.drop_last()).push(s.last() as u8)
    }
}

proof fn lemma_encoded_byte(b: u8)
    ensures
        stays(b) ==> (b as char) as u8 == b && (b as char) != '%',
        codec::nibble(upper_hex(b as int / 16)) == Some(b as int / 16),
        codec::nibble(upper_hex(b as int % 16)) == Some(b as int % 16),
{
}

/// No two characters of an encoded path that could be mistaken for a code stand
/// behind a percent sign of another byte.
proof fn lemma_no_late_percent(b: Seq<u8>)
    ensures
        encoded_bytes(b).len() >= 1 ==> encoded_bytes(b)[encoded_bytes(b).len() - 1] != '%',
        encoded_bytes(b).len() >= 2 ==> encoded_bytes(b)[encoded_bytes(b).len() - 2] != '%',
    decreases b.len(),
{
    if b.len() > 0 {
        lemma_no_late_percent(b.drop_last());
        lemma_encoded_byte(b.last());
    }
}

/// Decoding an encoded path gives its bytes back, so that different paths stay
/// different.
pub proof fn path_round_trip(b: Seq<u8>)
    ensures
        decoded_path(encoded_bytes(b)) == b,
    decreases b.len(),
{
    if b.len() > 0 {
        let front = b.drop_last();
        let s = encoded_bytes(b);
        path_round_trip(front);
        lemma_no_late_percent(front);
        lemma_encoded_byte(b.last());
        if stays(b.last()) {
            assert(s.drop_last() =~= encoded_bytes(front));
            if s.len() >= 3 {
                assert(s[s.len() - 3] == encoded_bytes(front)[encoded_bytes(front).len() - 2]);
            }
        } else {
            assert(s.take(s.len() - 3) =~= encoded_bytes(front));
        }
        assert(front.push(b.last()) =~= b);
    }
}

/// Whether a rejected write is worth a second attempt with the leader looked up anew.
pub fn retryable_index_error(error: &str) -> (r: bool)
    ensures
        r == retryable(error@),
{
    text::occurs(error, "ForwardToLeader") || text::occurs(error, "raft batch error")
}

/// Whether a rejected write is worth a second attempt.
pub open spec fn retryable(error: Seq<char>) -> bool {
    text::has(error, "ForwardToLeader"@) || text::has(error, "raft batch error"@)
}

/// How often a request is tried.
pub const ATTEMPTS: u32 = 3;

/// What came back from a write.
pub enum WriteReply {
    /// A status other than success, with the body.
    Status { status: String, text: String },
    /// A body that is no JSON.
    Garbled,
    /// An answer: its fields `success` and `error`, where it has them.
    Answer { success: Option<bool>, error: Option<String> },
}

/// Reads what came back from a write: a body under a status, which is a success or not.
pub fn write_reply(ok: bool, status: &str, text: &str) -> (r: WriteReply)
    ensures
        r is Status <==> !ok,
        r is Garbled <==> ok && !json::is_json(text@),
        match r {
            WriteReply::Status { status: s, text: t } => s@ == status@ && t@ == text@,
            WriteReply::Garbled => true,
            WriteReply::Answer { success, error } => success == json::flag_at(
                text@,
                "success"@,
            ) && types::optional_text(error) == json::string_at(text@, "error"@),
        },
{
    if !ok {
        WriteReply::Status { status: text::owned(status), text: text::owned(text) }
    } else if !json::valid(text) {
        WriteReply::Garbled
    } else {
        WriteReply::Answer {
            success: json::flag_member(text, "success"),
            error: json::string_member(text, "error"),
        }
    }
}

/// What to do with a write.
#[derive(Debug, PartialEq, Eq)]
pub enum WriteStep {
    /// It was carried out.
    Done,
    /// Look the leader up again and retry.
    Again,
    /// Give up, for the given reason.
    Failed(String),
    /// Give up: the answer could not be read.
    Unreadable,
}

/// What a step conveys.
pub enum Step {
    Done,
    Again,
    Failed(Seq<char>),
    Unreadable,
}

impl WriteStep {
    /// What the step conveys.
    pub open spec fn shape(&self) -> Step {
        match *self {
            WriteStep::Done => Step::Done,
            WriteStep::Again => Step::Again,
            WriteStep::Failed(why) => Step::Failed(why@),
            WriteStep::Unreadable => Step::Unreadable,
        }
    }
}

/// What to do with a write after its `attempt`th try (from zero).
pub open spec fn write_step(
    method: Seq<char>,
    route: Seq<char>,
    attempt: u32,
    reply: WriteReply,
) -> Step {
    match reply {
        WriteReply::Status { status, text } => Step::Failed(
            method + " "@ + route + ": HTTP "@ + status@ + ": "@ + text::trimmed(text@),
        ),
        WriteReply::Garbled => Step::Unreadable,
        WriteReply::Answer { success, error } => {
            let why = match error {
                Some(e) => e@,
                None => "unknown error"@,
            };
            if success == Some(true) {
                Step::Done
            } else if !retryable(why) {
                Step::Failed(method + " "@ + route + " rejected: "@ + why)
            } else if attempt + 1 < ATTEMPTS {
                Step::Again
            } else {
                Step::Failed(method + " "@ + route + " failed after retries: "@ + why)
            }
        },
    }
}

/// Decides what to do with a write after its `attempt`th try (from zero).
pub fn after_write(method: &str, route: &str, attempt: u32, reply: &WriteReply) -> (r: WriteStep)
    requires
        attempt < ATTEMPTS,
    ensures
        r.shape() == write_step(method@, route@, attempt, *reply),
{
    match reply {
        WriteReply::Status { status, text } => {
            let mut out = text::join3(method, " ", route);
            out.append(": HTTP ");
            out.append(status.as_str());
            out.append(": ");
            out.append(text::trim(text.as_str()).as_str());
            WriteStep::Failed(out)
        },
        WriteReply::Garbled => WriteStep::Unreadable,
        WriteReply::Answer { success, error } => {
            if let Some(true) = success {
                return WriteStep::Done;
            }
            let why = match error {
                Some(e) => e.clone(),
                None => text::owned("unknown error"),
            };
            let retry = retryable_index_error(why.as_str());
            if retry && attempt + 1 < ATTEMPTS {
                return WriteStep::Again;
            }
            let mut out = text::join3(method, " ", route);
            if retry {
                out.append(" failed after retries: ");
            } else {
                out.append(" rejected: ");
            }
            out.append(why.as_str());
            WriteStep::Failed(out)
        },
    }
}

/// A write is tried three times at most.
pub proof fn writes_come_to_an_end(
    method: Seq<char>,
    route: Seq<char>,
    attempt: u32,
    reply: WriteReply,
)
    requires
        attempt + 1 >= ATTEMPTS,
    ensures
        !(write_step(method, route, attempt, reply) is Again),
{
}

/// What came back from a read.
pub enum ReadReply {
    /// An HTTP status.
    Status(u16),
    /// No reply at all.
    Transport,
}

/// What to do with a read.
#[derive(Debug, Clone, Copy, PartialEq, Eq, Structural)]
pub enum ReadStep {
    /// Hand the reply on.
    Return,
    /// Look the leader up again and retry.
    Again,
    /// Give up.
    Failed,
}

/// What to do with a read after its `attempt`th try (from zero): a node that is
/// unavailable, or does not reply, is no authority; any other status is.
pub open spec fn read_step(attempt: u32, reply: ReadReply) -> ReadStep {
    if reply is Status && reply->Status_0 != 503 {
        ReadStep::Return
    } else if attempt + 1 < ATTEMPTS {
        ReadStep::Again
    } else {
        ReadStep::Failed
    }
}

/// Decides what to do with a read after its `attempt`th try (from zero).
pub fn after_read(attempt: u32, reply: &ReadReply) -> (r: ReadStep)
    requires
        attempt < ATTEMPTS,
    ensures
        r == read_step(attempt, *reply),
{
    if let ReadReply::Status(code) = reply {
        if *code != 503 {
            return ReadStep::Return;
        }
    }
    if attempt + 1 < ATTEMPTS {
        ReadStep::Again
    } else {
        ReadStep::Failed
    }
}

/// A read is tried three times at most.
pub proof fn reads_come_to_an_end(attempt: u32, reply: ReadReply)
    requires
        attempt + 1 >= ATTEMPTS,
    ensures
        !(read_step(attempt, reply) is Again),
{
}

/// What is said of a reply with a status other than success.
pub open spec fn status_message(context: Seq<char>, status: Seq<char>, body: Seq<char>) -> Seq<char> {
    let detail = text::trimmed(body);
    if detail.len() == 0 {
        context + ": HTTP "@ + status
    } else {
        context + ": HTTP "@ + status + ": "@ + detail
    }
}

/// Says what is wrong with a reply: nothing where its status is a success.
pub fn check_status(context: &str, status: &str, success: bool, body: &str) -> (r: Option<String>)
    ensures
        r is None <==> success,
        r matches Some(m) ==> m@ == status_message(context@, status@, body@),
{
    if success {
        return None;
    }
    let detail = text::trim(body);
    let mut out = text::join3(context, ": HTTP ", status);
    if !detail.as_str().is_empty() {
        out.append(": ");
        out.append(detail.as_str());
    }
    Some(out)
}

/// What to do with the body of a reply.
#[derive(Debug, PartialEq, Eq)]
pub enum BodyCheck {
    /// Read it.
    Fine,
    /// Give up, for the given reason.
    Refused(String),
    /// Give up: it is no JSON.
    Garbled,
}

/// Decides whether the body of a reply is to be read: its status has to be a success,
/// and it has to be JSON.
pub fn check_body(context: &str, status: &str, success: bool, body: &str) -> (r: BodyCheck)
    ensures
        r is Refused <==> !success,
        r matches BodyCheck::Refused(m) ==> m@ == status_message(context@, status@, body@),
        r is Garbled <==> success && !json::is_json(body@),
{
    match check_status(context, status, success, body) {
        Some(problem) => BodyCheck::Refused(problem),
        None => {
            if json::valid(body) {
                BodyCheck::Fine
            } else {
                BodyCheck::Garbled
            }
        },
    }
}

/// Whether a node reports itself as the leader.
pub fn reports_leadership(id: Option<u64>, current_leader: Option<u64>) -> (r: bool)
    ensures
        r == (id is Some && current_leader == id),
{
    match (id, current_leader) {
        (Some(a), Some(b)) => a == b,
        _ => false,
    }
}

/// The scheme of a URL, its host where that is a domain, and its port, written out or
/// known from the scheme; none where the text is no URL.
pub uninterp spec fn url_parts_of(url: Seq<char>) -> Option<
    (Seq<char>, Option<Seq<char>>, Option<u16>),
>;

/// The contents of the parts of a URL.
pub open spec fn parts_view(parts: Option<(String, Option<String>, Option<u16>)>) -> Option<
    (Seq<char>, Option<Seq<char>>, Option<u16>),
> {
    match parts {
        Some((scheme, domain, port)) => Some((scheme@, types::optional_text(domain), port)),
        None => None,
    }
}

/// `reqwest::Url::parse`, then `scheme`, `domain` and `port_or_known_default`: a
/// function of the text.
#[verifier::external_body]
fn url_parts(url: &str) -> (r: Option<(String, Option<String>, Option<u16>)>)
    ensures
        parts_view(r) == url_parts_of(url@),
{
    let parsed = reqwest::Url::parse(url).ok();
    parsed.map(
        |u|
            (
                u.scheme().to_string(),
                u.domain().map(|d| d.to_string()),
                u.port_or_known_default(),
            ),
    )
}

/// Whether a string is one of the four numbers of an IPv4 address: up to three digits,
/// of a value below 256, without needless zeros in front.
pub open spec fn is_octet(s: Seq<char>) -> bool {
    s.len() <= 3 && text::all_digits(s) && text::value(s) <= 255 && (s.len() > 1 ==> s[0] != '0')
}

/// Whether a host is an IPv4 address rather than a name.
pub open spec fn is_ipv4(host: Seq<char>) -> bool {
    text::split_all(host, '.').len() == 4 && forall|i: int|
        0 <= i < 4 ==> is_octet(#[trigger] text::split_all(host, '.')[i])
}

fn octet(s: &str) -> (r: bool)
    ensures
        r == is_octet(s@),
{
    let v = text::chars_of(s);
    if v.len() == 0 || v.len() > 3 || v[0] == '+' || (v.len() > 1 && v[0] == '0') {
        assert(s@.len() > 0 && s@[0] == '+' ==> !text::is_digit(s@[0]));
        return false;
    }
    text::parse_decimal(s, 255).is_some()
}

/// Whether a host is an IPv4 address rather than a name.
pub fn names_ipv4(host: &str) -> (r: bool)
    ensures
        r == is_ipv4(host@),
{
    let parts = text::split(host, '.');
    let ghost all = text::split_all(host@, '.');
    assert(all.len() == parts@.len());
    if parts.len() != 4 {
        return false;
    }
    let mut i: usize = 0;
    while i < 4
        invariant
            i <= 4,
            parts@.len() == 4,
            all == text::split_all(host@, '.'),
            all == text::texts(parts@),
            forall|j: int| 0 <= j < i ==> is_octet(#[trigger] all[j]),
        decreases 4 - i,
    {
        assert(all[i as int] == parts@[i as int]@);
        if !octet(parts[i].as_str()) {
            return false;
        }
        i = i + 1;
    }
    true
}

/// What to look up for an index URL.
#[derive(Debug, PartialEq, Eq)]
pub enum Lookup {
    /// Nothing: the URL is used as it was given.
    AsGiven,
    /// The addresses of a host, and the scheme for the URLs to make of them.
    Name { scheme: String, host: String, port: u16 },
}

/// What a lookup conveys: scheme, host and port.
pub open spec fn lookup_view(lookup: Lookup) -> Option<(Seq<char>, Seq<char>, u16)> {
    match lookup {
        Lookup::AsGiven => None,
        Lookup::Name { scheme, host, port } => Some((scheme@, host@, port)),
    }
}

/// What to look up for a URL with the given parts: its host where that is a name, at
/// port 80 where no other is known.
pub open spec fn lookup_of(parts: Option<(Seq<char>, Option<Seq<char>>, Option<u16>)>) -> Option<
    (Seq<char>, Seq<char>, u16),
> {
    match parts {
        Some((scheme, Some(host), port)) => if is_ipv4(host) {
            None
        } else {
            Some(
                (
                    scheme,
                    host,
                    match port {
                        Some(p) => p,
                        None => 80,
                    },
                ),
            )
        },
        _ => None,
    }
}

/// What to look up for a URL with the given parts.
pub fn lookup_for(parts: Option<(String, Option<String>, Option<u16>)>) -> (r: Lookup)
    ensures
        lookup_view(r) == lookup_of(parts_view(parts)),
{
    match parts {
        Some((scheme, Some(host), port)) => {
            if names_ipv4(host.as_str()) {
                Lookup::AsGiven
            } else {
                Lookup::Name { scheme, host, port: port.unwrap_or(80) }
            }
        },
        _ => Lookup::AsGiven,
    }
}

/// What to look up for an index URL: nothing where it is no URL, has no host, or names
/// an address.
pub fn host_to_look_up(url: &str) -> (r: Lookup)
    ensures
        lookup_view(r) == lookup_of(url_parts_of(url@)),
{
    lookup_for(url_parts(url))
}

/// Whether a list of strings is sorted and holds none twice.
pub open spec fn strictly_sorted(s: Seq<Seq<char>>) -> bool {
    order::sorted(s) && s.no_duplicates()
}

/// One URL for each of some addresses.
pub open spec fn address_urls(scheme: Seq<char>, addrs: Seq<Seq<char>>) -> Seq<Seq<char>> {
    addrs.map_values(|a: Seq<char>| scheme + "://"@ + a)
}

/// The URLs to probe for an index URL: one for each address that its host was found
/// to have, each once and in order; else the URL itself.
pub fn candidate_urls(url: &str, lookup: &Lookup, addrs: &Vec<String>) -> (r: Vec<String>)
    ensures
        match *lookup {
            Lookup::Name { scheme, .. } => if addrs@.len() > 0 {
                strictly_sorted(text::texts(r@)) && forall|u: Seq<char>| #[trigger]
                    text::texts(r@).contains(u) <==> address_urls(
                        scheme@,
                        text::texts(addrs@),
                    ).contains(u)
            } else {
                text::texts(r@) == seq![url@]
            },
            Lookup::AsGiven => text::texts(r@) == seq![url@],
        },
{
    if let Lookup::Name { scheme, .. } = lookup {
        if addrs.len() > 0 {
            let mut urls: Vec<String> = Vec::new();
            let ghost all = address_urls(scheme@, text::texts(addrs@));
            let mut i: usize = 0;
            while i < addrs.len()
                invariant
                    i <= addrs@.len(),
                    all == address_urls(scheme@, text::texts(addrs@)),
                    urls@.len() == i,
                    forall|j: int| 0 <= j < i ==> (#[trigger] urls@[j])@ == all[j],
                decreases addrs@.len() - i,
            {
                urls.push(text::join3(scheme.as_str(), "://", addrs[i].as_str()));
                i = i + 1;
            }
            assert(text::texts(urls@) =~= all);
            return order::sorted_distinct(&urls);
        }
    }
    let mut out: Vec<String> = Vec::new();
    out.push(text::owned(url));
    assert(text::texts(out@) =~= seq![url@]);
    out
}

/// The hexadecimal notations of some hashes.
pub open spec fn hex_list(hashes: Seq<[u8; 32]>) -> Seq<Seq<char>> {
    hashes.map_values(|h: [u8; 32]| codec::hex_text(h@))
}

/// The route that asks which of some shards may be deleted.
pub fn gc_route(hashes: &Vec<[u8; 32]>) -> (r: String)
    ensures
        r@ == "shards/gc-candidates?hashes="@ + text::joined(hex_list(hashes@), ","@),
{
    let mut parts: Vec<String> = Vec::new();
    let mut i: usize = 0;
    while i < hashes.len()
        invariant
            i <= hashes@.len(),
            parts@.len() == i,
            forall|j: int|
                0 <= j < i ==> (#[trigger] parts@[j])@ == codec::hex_text(hashes@[j]@),
        decreases hashes@.len() - i,
    {
        parts.push(codec::hex_encode(vstd::array::array_as_slice(&hashes[i])));
        i = i + 1;
    }
    assert(parts@.map_values(|s: String| s@) =~= hex_list(hashes@));
    text::join2("shards/gc-candidates?hashes=", text::join(&parts, ",").as_str())
}

/// The hashes that a reply lists: entries that are not hexadecimal are left out.
pub open spec fn gc_hashes(reply: Seq<Seq<char>>) -> Seq<Seq<u8>> {
    reply.filter(|s: Seq<char>| codec::is_hex(s)).map_values(|s: Seq<char>| codec::hex_bytes(s))
}

/// Reads the hashes that a reply lists.
pub fn gc_reply(reply: &Vec<String>) -> (r: Vec<Vec<u8>>)
    ensures
        bytes::contents(r@) == gc_hashes(text::texts(reply@)),
{
    let ghost all = text::texts(reply@);
    let ghost pred = |s: Seq<char>| codec::is_hex(s);
    let mut out: Vec<Vec<u8>> = Vec::new();
    let mut i: usize = 0;
    assert(all.take(0).filter(pred) =~= Seq::<Seq<char>>::empty());
    assert(bytes::contents(out@) =~= gc_hashes(all.take(0)));
    while i < reply.len()
        invariant
            i <= reply@.len(),
            all == text::texts(reply@),
            pred == (|s: Seq<char>| codec::is_hex(s)),
            bytes::contents(out@) == gc_hashes(all.take(i as int)),
        decreases reply@.len() - i,
    {
        let ghost before = out@;
        proof {
            assert(all.take(i + 1) =~= all.take(i as int).push(all[i as int]));
            all.take(i as int).lemma_filter_push(all[i as int], pred);
        }
        if let Some(b) = codec::hex_decode(reply[i].as_str()) {
            let ghost item = b@;
            out.push(b);
            assert(bytes::contents(out@) =~= bytes::contents(before).push(item));
        }
        assert(bytes::contents(out@) =~= gc_hashes(all.take(i + 1)));
        i = i + 1;
    }
    assert(all.take(i as int) =~= all);
    out
}

/// The route that asks for the quota of an account.
pub fn quota_route(account: &str) -> (r: String)
    ensures
        r@ == "account/quota?account="@ + account@,
{
    text::join2("account/quota?account=", account)
}

/// Total and used bytes of an account; what a reply does not say is zero.
pub fn quota_reply(total_bytes: Option<u64>, used_bytes: Option<u64>) -> (r: (u64, u64))
    ensures
        r.0 == or_zero(total_bytes),
        r.1 == or_zero(used_bytes),
{
    (total_bytes.unwrap_or(0), used_bytes.unwrap_or(0))
}

/// The contents of a listed node that is online.
pub struct HealthyView {
    pub node_id: Seq<u8>,
    pub addr: Seq<char>,
    pub capacity_bytes: u64,
    pub occupied_bytes: u64,
    pub relay_url: Option<Seq<char>>,
}

/// A storage node that the index lists as online.
#[derive(Debug, Clone, PartialEq, Eq)]
pub struct HealthyNode {
    pub node_id: [u8; 32],
    pub addr: String,
    pub capacity_bytes: u64,
    pub occupied_bytes: u64,
    pub relay_url: Option<String>,
}

impl View for HealthyNode {
    type V = HealthyView;

    open spec fn view(&self) -> HealthyView {
        HealthyView {
            node_id: self.node_id@,
            addr: self.addr@,
            capacity_bytes: self.capacity_bytes,
            occupied_bytes: self.occupied_bytes,
            relay_url: types::optional_text(self.relay_url),
        }
    }
}

/// Why an entry of a node listing could not be read.
#[derive(Debug, Clone, Copy, PartialEq, Eq, Structural)]
pub enum NodeFieldError {
    MissingNodeId,
    MissingAddr,
    /// The identifier is no public key.
    BadNodeId,
}

impl NodeFieldError {
    /// What went wrong, in words.
    pub open spec fn words(&self) -> Seq<char> {
        match *self {
            NodeFieldError::MissingNodeId => "missing node_id"@,
            NodeFieldError::MissingAddr => "missing addr"@,
            NodeFieldError::BadNodeId => "bad node_id"@,
        }
    }

    /// What went wrong, in words.
    pub fn message(&self) -> (r: String)
        ensures
            r@ == self.words(),
    {
        match self {
            NodeFieldError::MissingNodeId => text::owned("missing node_id"),
            NodeFieldError::MissingAddr => text::owned("missing addr"),
            NodeFieldError::BadNodeId => text::owned("bad node_id"),
        }
    }
}

/// A size, or zero where none is given.
pub open spec fn or_zero(n: Option<u64>) -> u64 {
    match n {
        Some(v) => v,
        None => 0,
    }
}

/// An entry of the listing of online nodes. A size that is not given is zero.
pub open spec fn healthy_of(
    node_id: Option<Seq<char>>,
    addr: Option<Seq<char>>,
    capacity_bytes: Option<u64>,
    occupied_bytes: Option<u64>,
    relay_url: Option<Seq<char>>,
) -> Result<HealthyView, NodeFieldError> {
    match (node_id, addr) {
        (None, _) => Err(NodeFieldError::MissingNodeId),
        (Some(_), None) => Err(NodeFieldError::MissingAddr),
        (Some(id), Some(addr)) => match keys::parsed_key(id) {
            None => Err(NodeFieldError::BadNodeId),
            Some(key) => Ok(
                HealthyView {
                    node_id: key,
                    addr,
                    capacity_bytes: or_zero(capacity_bytes),
                    occupied_bytes: or_zero(occupied_bytes),
                    relay_url,
                },
            ),
        },
    }
}

/// Reads an entry of the listing of online nodes. A size that is not given is zero.
pub fn healthy_node(
    node_id: Option<String>,
    addr: Option<String>,
    capacity_bytes: Option<u64>,
    occupied_bytes: Option<u64>,
    relay_url: Option<String>,
) -> (r: Result<HealthyNode, NodeFieldError>)
    ensures
        match healthy_of(
            types::optional_text(node_id),
            types::optional_text(addr),
            capacity_bytes,
            occupied_bytes,
            types::optional_text(relay_url),
        ) {
            Ok(node) => r is Ok && r->Ok_0@ == node,
            Err(e) => r == Err::<HealthyNode, NodeFieldError>(e),
        },
{
    let id = match node_id {
        Some(id) => id,
        None => {
            return Err(NodeFieldError::MissingNodeId);
        },
    };
    let addr = match addr {
        Some(a) => a,
        None => {
            return Err(NodeFieldError::MissingAddr);
        },
    };
    match keys::key_from_text(id.as_str()) {
        None => Err(NodeFieldError::BadNodeId),
        Some(key) => Ok(
            HealthyNode {
                node_id: key,
                addr,
                capacity_bytes: capacity_bytes.unwrap_or(0),
                occupied_bytes: occupied_bytes.unwrap_or(0),
                relay_url,
            },
        ),
    }
}

impl HealthyNode {
    /// The node as a place for shards.
    pub fn target(&self) -> (r: StorageTarget)
        ensures
            r@.node_id == self@.node_id,
            r@.addr == self@.addr,
            r@.relay_url == self@.relay_url,
    {
        StorageTarget {
            node_id: self.node_id,
            addr: self.addr.clone(),
            relay_url: types::copy_optional(&self.relay_url),
        }
    }
}

/// The contents of a listed node and whether it is offline.
pub struct NodeStatusView {
    pub node_id: Seq<u8>,
    pub addr: Seq<char>,
    pub offline: bool,
    pub relay_url: Option<Seq<char>>,
}

/// A registered storage node and whether it is offline.
#[derive(Debug, Clone, PartialEq, Eq)]
pub struct NodeStatusInfo {
    pub node_id: [u8; 32],
    pub addr: String,
    pub offline: bool,
    pub relay_url: Option<String>,
}

impl View for NodeStatusInfo {
    type V = NodeStatusView;

    open spec fn view(&self) -> NodeStatusView {
        NodeStatusView {
            node_id: self.node_id@,
            addr: self.addr@,
            offline: self.offline,
            relay_url: types::optional_text(self.relay_url),
        }
    }
}

/// An entry of the listing of all nodes. A node is offline where its status says so.
pub open spec fn status_of(
    node_id: Option<Seq<char>>,
    addr: Option<Seq<char>>,
    status: Option<Seq<char>>,
    relay_url: Option<Seq<char>>,
) -> Result<NodeStatusView, NodeFieldError> {
    match node_id {
        None => Err(NodeFieldError::MissingNodeId),
        Some(id) => match (keys::parsed_key(id), addr) {
            (None, _) => Err(NodeFieldError::BadNodeId),
            (Some(_), None) => Err(NodeFieldError::MissingAddr),
            (Some(key), Some(addr)) => Ok(
                NodeStatusView {
                    node_id: key,
                    addr,
                    offline: status == Some("Offline"@),
                    relay_url,
                },
            ),
        },
    }
}

/// Reads an entry of the listing of all nodes. A node is offline where its status
/// says so.
pub fn node_status(
    node_id: Option<String>,
    addr: Option<String>,
    status: Option<String>,
    relay_url: Option<String>,
) -> (r: Result<NodeStatusInfo, NodeFieldError>)
    ensures
        match status_of(
            types::optional_text(node_id),
            types::optional_text(addr),
            types::optional_text(status),
            types::optional_text(relay_url),
        ) {
            Ok(node) => r is Ok && r->Ok_0@ == node,
            Err(e) => r == Err::<NodeStatusInfo, NodeFieldError>(e),
        },
{
    let id = match node_id {
        Some(id) => id,
        None => {
            return Err(NodeFieldError::MissingNodeId);
        },
    };
    let key = match keys::key_from_text(id.as_str()) {
        Some(k) => k,
        None => {
            return Err(NodeFieldError::BadNodeId);
        },
    };
    let addr = match addr {
        Some(a) => a,
        None => {
            return Err(NodeFieldError::MissingAddr);
        },
    };
    let offline = match status {
        Some(s) => text::same_text(s.as_str(), "Offline"),
        None => false,
    };
    Ok(NodeStatusInfo { node_id: key, addr, offline, relay_url })
}

} // verus!
