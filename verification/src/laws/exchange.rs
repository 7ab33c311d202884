//! Laws of a client's exchange with the index: where it asks, what it makes of replies,
//! and when it asks again.
//!
//! `call_ensures(f, args, r)` says that a call of `f` with `args` may return `r`.
use vstd::prelude::*;

use crate::bytes;
use crate::codec;
use crate::index::remote;
use crate::index::remote::{
    BodyCheck, HealthyNode, Lookup, NodeFieldError, NodeStatusInfo, ReadReply, ReadStep,
    WriteReply, WriteStep,
};
use crate::index::replies;
use crate::index::replies::{ReplyError, StoredManifest};
use crate::json;
use crate::keys;
use crate::order;
use crate::text;

verus! {

/// Whether a text stands somewhere in another.
pub open spec fn stands_in(s: Seq<char>, p: Seq<char>) -> bool {
    exists|i: int| 0 <= i && i + p.len() <= s.len() && #[trigger] s.subrange(i, i + p.len()) == p
}

/// A rejection is worth another attempt exactly where it speaks of the leader or of a
/// failed batch.
pub proof fn lost_leaders_are_worth_a_retry(error: &str, r: bool)
    requires
        call_ensures(remote::retryable_index_error, (error,), r),
    ensures
        r <==> stands_in(error@, "ForwardToLeader"@) || stands_in(error@, "raft batch error"@),
{
    assert(text::has(error@, "ForwardToLeader"@) <==> stands_in(error@, "ForwardToLeader"@));
    assert(text::has(error@, "raft batch error"@) <==> stands_in(error@, "raft batch error"@));
}

/// What is done after a write. It is done only where the answer says that it succeeded.
/// It is tried again only where the answer speaks of a lost leader, and not after the
/// third attempt. Everything else ends it, with the reason at hand.
pub proof fn writes_are_tried_three_times(
    method: &str,
    route: &str,
    attempt: u32,
    reply: &WriteReply,
    r: WriteStep,
)
    requires
        attempt < 3,
        call_ensures(remote::after_write, (method, route, attempt, reply), r),
    ensures
        r is Done <==> reply is Answer && reply->Answer_success == Some(true),
        r is Unreadable <==> reply is Garbled,
        r is Again <==> reply is Answer && reply->Answer_success != Some(true)
            && reply->Answer_error is Some && (stands_in(
            reply->Answer_error->0@,
            "ForwardToLeader"@,
        ) || stands_in(reply->Answer_error->0@, "raft batch error"@)) && attempt < 2,
        reply is Status ==> r is Failed && r->Failed_0@ == method@ + " "@ + route@ + ": HTTP "@
            + reply->Status_status@ + ": "@ + text::trimmed(reply->Status_text@),
        r is Failed && reply is Answer && reply->Answer_error is Some ==> r->Failed_0@ == method@
            + " "@ + route@ + (if attempt == 2 && (stands_in(
            reply->Answer_error->0@,
            "ForwardToLeader"@,
        ) || stands_in(reply->Answer_error->0@, "raft batch error"@)) {
            " failed after retries: "@
        } else {
            " rejected: "@
        }) + reply->Answer_error->0@,
        r is Failed && reply is Answer && reply->Answer_error is None ==> r->Failed_0@ == method@
            + " "@ + route@ + " rejected: "@ + "unknown error"@,
        remote::ATTEMPTS == 3,
{
    if reply is Answer {
        match reply->Answer_error {
            Some(e) => {
                assert(text::has(e@, "ForwardToLeader"@) <==> stands_in(e@, "ForwardToLeader"@));
                assert(text::has(e@, "raft batch error"@) <==> stands_in(e@, "raft batch error"@));
            },
            None => {
                lemma_unknown_error();
            },
        }
    }
}

proof fn lemma_unknown_error()
    ensures
        !remote::retryable("unknown error"@),
{
    reveal_strlit("unknown error");
    reveal_strlit("ForwardToLeader");
    reveal_strlit("raft batch error");
    let s = "unknown error"@;
    assert(s.len() == 13);
    assert("ForwardToLeader"@.len() == 15);
    assert("raft batch error"@.len() == 16);
}

/// What is done after a read: a reply is handed on unless the node is unavailable, and
/// where there is none it is tried again, three times in all.
pub proof fn reads_are_tried_three_times(attempt: u32, reply: &ReadReply, r: ReadStep)
    requires
        attempt < 3,
        call_ensures(remote::after_read, (attempt, reply), r),
    ensures
        r == ReadStep::Return <==> reply is Status && reply->Status_0 != 503,
        r == ReadStep::Again <==> (reply is Transport || reply->Status_0 == 503) && attempt < 2,
        r == ReadStep::Failed <==> (reply is Transport || reply->Status_0 == 503) && attempt == 2,
{
}

/// What is read of a write's reply: a status other than success as it is, a body that is
/// no JSON as such, and else the members `success` and `error`.
pub proof fn replies_to_writes_are_read(ok: bool, status: &str, body: &str, r: WriteReply)
    requires
        call_ensures(remote::write_reply, (ok, status, body), r),
    ensures
        !ok ==> r is Status && r->Status_status@ == status@ && r->Status_text@ == body@,
        ok && !json::is_json(body@) ==> r is Garbled,
        ok && json::is_json(body@) ==> r is Answer,
        r is Answer ==> {
            let success = json::member_of(body@, "success"@);
            let error = json::member_of(body@, "error"@);
            &&& success is None ==> r->Answer_success is None
            &&& success is Some ==> r->Answer_success == json::flag_of(success->0)
            &&& error is None ==> r->Answer_error is None
            &&& error is Some ==> (r->Answer_error is Some <==> json::string_of(error->0) is Some)
            &&& r->Answer_error is Some ==> Some(r->Answer_error->0@) == json::string_of(error->0)
        },
{
}

/// A body is read where the status is a success and it is JSON; the refusal of any other
/// names the context, the status and what the body says.
pub proof fn bad_replies_are_refused(
    context: &str,
    status: &str,
    success: bool,
    body: &str,
    r: BodyCheck,
    problem: Option<String>,
)
    requires
        call_ensures(remote::check_body, (context, status, success, body), r),
        call_ensures(remote::check_status, (context, status, success, body), problem),
    ensures
        r is Fine <==> success && json::is_json(body@),
        r is Garbled <==> success && !json::is_json(body@),
        r is Refused <==> !success,
        problem is Some <==> !success,
        !success ==> r->Refused_0@ == problem->0@,
        !success ==> problem->0@ == context@ + ": HTTP "@ + status@ + (if text::trimmed(
            body@,
        ).len() == 0 {
            Seq::empty()
        } else {
            ": "@ + text::trimmed(body@)
        }),
{
    if !success {
        let detail = text::trimmed(body@);
        let base = context@ + ": HTTP "@ + status@;
        assert(base + Seq::<char>::empty() =~= base);
        assert(base + ": "@ + detail =~= base + (": "@ + detail));
    }
}

/// A node is the leader where its metrics name it as such.
pub proof fn leaders_name_themselves(
    id: Option<u64>,
    leader: Option<u64>,
    r: bool,
    metrics: &str,
    shown: bool,
)
    requires
        call_ensures(remote::reports_leadership, (id, leader), r),
        call_ensures(replies::shows_leader, (metrics,), shown),
    ensures
        r <==> id is Some && leader is Some && id->0 == leader->0,
        ({
            let i = json::member_of(metrics@, "id"@);
            let l = json::member_of(metrics@, "current_leader"@);
            shown <==> i is Some && l is Some && json::number_of(i->0) is Some && json::number_of(
                i->0,
            ) == json::number_of(l->0)
        }),
{
}

/// The characters of a path that stay: letters, digits, `-`, `.`, `_`, `~` and the
/// separators. A path of these stays as it is; every other byte becomes a percent sign
/// and two digits.
pub proof fn plain_paths_stay(b: Seq<u8>, x: u8)
    ensures
        (forall|i: int|
            0 <= i < b.len() ==> {
                let c = #[trigger] b[i];
                65 <= c <= 90 || 97 <= c <= 122 || 48 <= c <= 57 || c == 45 || c == 46 || c == 95
                    || c == 126 || c == 47
            }) ==> remote::encoded_bytes(b) == b.map_values(|c: u8| c as char),
        remote::encoded_bytes(b.push(x)).len() == remote::encoded_bytes(b).len() + (if 65 <= x <= 90
            || 97 <= x <= 122 || 48 <= x <= 57 || x == 45 || x == 46 || x == 95 || x == 126 || x
            == 47 {
            1int
        } else {
            3
        }),
        remote::encoded_bytes(b).is_prefix_of(remote::encoded_bytes(b.push(x))),
    decreases b.len(),
{
    assert(b.push(x).drop_last() =~= b);
    let more = remote::encoded_bytes(b.push(x));
    assert(more.subrange(0, remote::encoded_bytes(b).len() as int) =~= remote::encoded_bytes(b));
    if b.len() > 0 {
        plain_paths_stay(b.drop_last(), b.last());
        assert(b.drop_last().push(b.last()) =~= b);
        if forall|i: int|
            0 <= i < b.len() ==> {
                let c = #[trigger] b[i];
                65 <= c <= 90 || 97 <= c <= 122 || 48 <= c <= 57 || c == 45 || c == 46 || c == 95
                    || c == 126 || c == 47
            } {
            let front = b.drop_last();
            assert forall|i: int| 0 <= i < front.len() implies ({
                let c = #[trigger] front[i];
                65 <= c <= 90 || 97 <= c <= 122 || 48 <= c <= 57 || c == 45 || c == 46 || c == 95
                    || c == 126 || c == 47
            }) by {
                assert(front[i] == b[i]);
            }
            assert(b[b.len() - 1] == b.last());
            assert(remote::encoded_bytes(b) =~= b.map_values(|c: u8| c as char));
        }
    } else {
        assert(remote::encoded_bytes(b) =~= b.map_values(|c: u8| c as char));
    }
}

/// A byte that does not stay is written as its value in hexadecimal.
pub proof fn other_bytes_are_written_in_hexadecimal(b: Seq<u8>, x: u8)
    requires
        !(65 <= x <= 90 || 97 <= x <= 122 || 48 <= x <= 57 || x == 45 || x == 46 || x == 95 || x
            == 126 || x == 47),
    ensures
        ({
            let s = remote::encoded_bytes(b.push(x));
            let n = s.len() as int;
            &&& s[n - 3] == '%'
            &&& codec::nibble(s[n - 2]) == Some(x as int / 16)
            &&& codec::nibble(s[n - 1]) == Some(x as int % 16)
            &&& !('a' <= s[n - 2] <= 'f') && !('a' <= s[n - 1] <= 'f')
        }),
{
    assert(b.push(x).drop_last() =~= b);
}

/// Paths are written in their bytes, and a route is a path up to its first question
/// mark; the query stays as it is.
pub proof fn queries_are_left_alone(
    path: Seq<char>,
    query: Seq<char>,
    route: &str,
    bare: &str,
    r: String,
    p: String,
)
    requires
        !path.contains('?'),
        route@ == path + "?"@ + query,
        bare@ == path,
        call_ensures(remote::percent_encode_route, (route,), r),
        call_ensures(remote::percent_encode_path, (bare,), p),
    ensures
        p@ == remote::encoded_bytes(vstd::utf8::encode_utf8(path)),
        r@ == p@ + "?"@ + query,
        remote::encoded_route(path) == p@,
{
    reveal_strlit("?");
    assert("?"@ =~= seq!['?']);
    text::lemma_split_once(path, '?', query);
    assert(text::split_once(path, '?') is None);
}

/// What is looked up for a URL: its host, at its port or at port 80, where the host is a
/// name; nothing where there is no such host.
pub proof fn names_are_looked_up(
    parts: Option<(String, Option<String>, Option<u16>)>,
    r: Lookup,
    host: &str,
    address: bool,
)
    requires
        call_ensures(remote::lookup_for, (parts,), r),
        call_ensures(remote::names_ipv4, (host,), address),
    ensures
        parts is None ==> r is AsGiven,
        parts matches Some((scheme, domain, port)) ==> {
            &&& domain is None ==> r is AsGiven
            &&& domain is Some && domain->0@ == host@ ==> {
                &&& r is AsGiven <==> address
                &&& r is Name ==> r->Name_scheme@ == scheme@ && r->Name_host@ == host@
                &&& r is Name ==> r->Name_port == (match port {
                    Some(p) => p,
                    None => 80u16,
                })
            }
        },
{
}

/// A host of four numbers below 256 is an address.
pub proof fn four_numbers_are_an_address(a: u8, b: u8, c: u8, d: u8, host: &str, r: bool)
    requires
        host@ == text::decimal(a as nat) + "."@ + text::decimal(b as nat) + "."@ + text::decimal(
            c as nat,
        ) + "."@ + text::decimal(d as nat),
        call_ensures(remote::names_ipv4, (host,), r),
    ensures
        r,
{
    reveal_strlit(".");
    assert("."@ =~= seq!['.']);
    let parts = seq![
        text::decimal(a as nat),
        text::decimal(b as nat),
        text::decimal(c as nat),
        text::decimal(d as nat),
    ];
    let sep = seq!['.'];
    lemma_octet(a);
    lemma_octet(b);
    lemma_octet(c);
    lemma_octet(d);
    assert(parts.drop_last() =~= seq![parts[0], parts[1], parts[2]]);
    assert(seq![parts[0], parts[1], parts[2]].drop_last() =~= seq![parts[0], parts[1]]);
    assert(seq![parts[0], parts[1]].drop_last() =~= seq![parts[0]]);
    assert(text::joined(seq![parts[0]], sep) == parts[0]);
    assert(text::joined(seq![parts[0], parts[1]], sep) == parts[0] + sep + parts[1]);
    assert(text::joined(seq![parts[0], parts[1], parts[2]], sep) == parts[0] + sep + parts[1] + sep
        + parts[2]);
    assert(text::joined(parts, sep) == host@);
    text::split_undoes_join(parts, '.');
}

proof fn lemma_octet(n: u8)
    ensures
        remote::is_octet(text::decimal(n as nat)),
        !text::decimal(n as nat).contains('.'),
{
    let d = text::decimal(n as nat);
    text::decimal_round_trip(n as nat);
    if d.contains('.') {
        let i = choose|i: int| 0 <= i < d.len() && d[i] == '.';
        assert(text::is_digit(d[i]));
    }
    let m = n as nat;
    if m >= 10 {
        if m >= 100 {
            assert(m / 10 / 10 < 10);
            assert(text::decimal(m / 10 / 10) == seq![text::digit((m / 10 / 10) as int)]);
            assert(text::decimal(m / 10) == text::decimal(m / 10 / 10).push(
                text::digit((m / 10 % 10) as int),
            ));
            assert(d == text::decimal(m / 10).push(text::digit((m % 10) as int)));
            assert(d.len() == 3);
            assert(d[0] == text::digit((m / 10 / 10) as int));
        } else {
            assert(text::decimal(m / 10) == seq![text::digit((m / 10) as int)]);
            assert(d == text::decimal(m / 10).push(text::digit((m % 10) as int)));
            assert(d.len() == 2);
            assert(d[0] == text::digit((m / 10) as int));
        }
    } else {
        assert(d.len() == 1);
    }
}

/// A host with a letter in it, or with other than three dots, is a name.
pub proof fn letters_make_a_name(host: &str, r: bool, part: Seq<char>, rest: Seq<char>)
    requires
        call_ensures(remote::names_ipv4, (host,), r),
        host@ == part + seq!['.'] + rest || host@ == part,
        !part.contains('.'),
        exists|i: int| 0 <= i < part.len() && !('0' <= #[trigger] part[i] <= '9'),
    ensures
        !r,
{
    let i = choose|i: int| 0 <= i < part.len() && !('0' <= #[trigger] part[i] <= '9');
    let all = text::split_all(host@, '.');
    if host@ == part + seq!['.'] + rest {
        assert(host@[part.len() as int] == '.');
        assert forall|j: int| 0 <= j < part.len() implies host@[j] != '.' by {
            assert(host@[j] == part[j]);
            assert(part.contains(part[j]));
        }
        text::lemma_first_of_unique(host@, '.', part.len() as int);
        assert(host@.take(part.len() as int) =~= part);
        assert(all[0] == part);
    } else {
        assert(all =~= seq![part]);
    }
    if r {
        assert(remote::is_octet(all[0]));
        assert(text::is_digit(part[i]));
    }
}

/// The URLs to ask: one for each address that was found, in order and once each; where
/// nothing was looked up or found, the URL itself.
pub proof fn every_address_is_asked(
    url: &str,
    lookup: &Lookup,
    addrs: &Vec<String>,
    r: Vec<String>,
    u: Seq<char>,
)
    requires
        call_ensures(remote::candidate_urls, (url, lookup, addrs), r),
    ensures
        lookup is AsGiven || addrs@.len() == 0 ==> r@.len() == 1 && r@[0]@ == url@,
        lookup is Name && addrs@.len() > 0 ==> {
            &&& (exists|i: int| 0 <= i < r@.len() && (#[trigger] r@[i])@ == u) <==> exists|i: int|
                0 <= i < addrs@.len() && u == lookup->Name_scheme@ + "://"@ + (
                #[trigger] addrs@[i])@
            &&& forall|i: int, j: int|
                0 <= i < j < r@.len() ==> (#[trigger] r@[i])@ != (#[trigger] r@[j])@
                    && order::text_le(r@[i]@, r@[j]@)
        },
{
    let shown = text::texts(r@);
    if lookup is AsGiven || addrs@.len() == 0 {
        assert(shown.len() == 1);
        assert(shown[0] == r@[0]@);
    } else {
        let scheme = lookup->Name_scheme@;
        let all = remote::address_urls(scheme, text::texts(addrs@));
        assert(shown.contains(u) <==> all.contains(u));
        if exists|i: int| 0 <= i < r@.len() && (#[trigger] r@[i])@ == u {
            let i = choose|i: int| 0 <= i < r@.len() && (#[trigger] r@[i])@ == u;
            assert(shown[i] == u);
            let j = choose|j: int| 0 <= j < all.len() && all[j] == u;
            assert(u == scheme + "://"@ + addrs@[j]@);
        }
        if exists|i: int|
            0 <= i < addrs@.len() && u == scheme + "://"@ + (#[trigger] addrs@[i])@ {
            let i = choose|i: int|
                0 <= i < addrs@.len() && u == scheme + "://"@ + (#[trigger] addrs@[i])@;
            assert(all[i] == u);
            let j = choose|j: int| 0 <= j < shown.len() && shown[j] == u;
            assert(r@[j]@ == u);
        }
        assert forall|i: int, j: int| 0 <= i < j < r@.len() implies (#[trigger] r@[i])@ != (
        #[trigger] r@[j])@ && order::text_le(r@[i]@, r@[j]@) by {
            assert(shown[i] != shown[j]);
            crate::laws::requests::sorted_texts_are_in_order(shown, i, j);
        }
    }
}

/// An entry of the listing of online nodes needs an identifier, an address, and a public
/// key as the identifier; what comes out is what the entry says, with zero for a size
/// that it does not say.
pub proof fn online_entries_are_read(
    node_id: Option<String>,
    addr: Option<String>,
    capacity: Option<u64>,
    occupied: Option<u64>,
    relay: Option<String>,
    r: Result<HealthyNode, NodeFieldError>,
)
    requires
        call_ensures(remote::healthy_node, (node_id, addr, capacity, occupied, relay), r),
    ensures
        r is Ok <==> node_id is Some && addr is Some && keys::parsed_key(node_id->0@) is Some,
        node_id is None ==> r->Err_0 == NodeFieldError::MissingNodeId,
        node_id is Some && addr is None ==> r->Err_0 == NodeFieldError::MissingAddr,
        node_id is Some && addr is Some && r is Err ==> r->Err_0 == NodeFieldError::BadNodeId,
        r is Ok ==> {
            let n = r->Ok_0;
            &&& Some(n.node_id@) == keys::parsed_key(node_id->0@)
            &&& n.addr@ == addr->0@
            &&& capacity is Some ==> n.capacity_bytes == capacity->0
            &&& capacity is None ==> n.capacity_bytes == 0
            &&& occupied is Some ==> n.occupied_bytes == occupied->0
            &&& occupied is None ==> n.occupied_bytes == 0
            &&& n.relay_url is Some <==> relay is Some
            &&& relay is Some ==> n.relay_url->0@ == relay->0@
        },
{
}

/// An entry of the listing of all nodes likewise; a node is offline where the entry says
/// "Offline".
pub proof fn status_entries_are_read(
    node_id: Option<String>,
    addr: Option<String>,
    status: Option<String>,
    relay: Option<String>,
    r: Result<NodeStatusInfo, NodeFieldError>,
)
    requires
        call_ensures(remote::node_status, (node_id, addr, status, relay), r),
    ensures
        r is Ok <==> node_id is Some && addr is Some && keys::parsed_key(node_id->0@) is Some,
        node_id is None ==> r->Err_0 == NodeFieldError::MissingNodeId,
        node_id is Some && keys::parsed_key(node_id->0@) is None ==> r->Err_0
            == NodeFieldError::BadNodeId,
        node_id is Some && keys::parsed_key(node_id->0@) is Some && addr is None ==> r->Err_0
            == NodeFieldError::MissingAddr,
        r is Ok ==> {
            let n = r->Ok_0;
            &&& Some(n.node_id@) == keys::parsed_key(node_id->0@)
            &&& n.addr@ == addr->0@
            &&& n.offline <==> status is Some && status->0@ == "Offline"@
            &&& n.relay_url is Some <==> relay is Some
            &&& relay is Some ==> n.relay_url->0@ == relay->0@
        },
{
}

/// A string under a name in a JSON text.
pub open spec fn text_under(entry: Seq<char>, name: Seq<char>) -> Option<Seq<char>> {
    match json::member_of(entry, name) {
        Some(m) => json::string_of(m),
        None => None,
    }
}

/// A number under a name in a JSON text; zero where there is none.
pub open spec fn size_under(entry: Seq<char>, name: Seq<char>) -> u64 {
    match json::member_of(entry, name) {
        Some(m) => match json::number_of(m) {
            Some(n) => n,
            None => 0,
        },
        None => 0,
    }
}

/// A listing of online nodes is read entry by entry: it has to be an array, and comes out
/// where every entry names a public key and an address, in order and in full.
pub proof fn online_listings_are_read(
    body: &str,
    r: Result<Vec<HealthyNode>, ReplyError>,
    i: int,
)
    requires
        call_ensures(replies::read_healthy_nodes, (body,), r),
    ensures
        json::items_of(body@) is None ==> r is Err && r->Err_0 == ReplyError::NotAnArray,
        json::items_of(body@) is Some ==> {
            let entries = json::items_of(body@)->0;
            &&& r is Ok <==> forall|j: int|
                0 <= j < entries.len() ==> {
                    let id = text_under(#[trigger] entries[j], "node_id"@);
                    &&& id is Some
                    &&& text_under(entries[j], "addr"@) is Some
                    &&& keys::parsed_key(id->0) is Some
                }
            &&& r is Ok ==> r->Ok_0@.len() == entries.len()
            &&& r is Ok && 0 <= i < entries.len() ==> {
                let n = r->Ok_0@[i];
                &&& Some(n.node_id@) == keys::parsed_key(text_under(entries[i], "node_id"@)->0)
                &&& Some(n.addr@) == text_under(entries[i], "addr"@)
                &&& n.capacity_bytes == size_under(entries[i], "capacity_bytes"@)
                &&& n.occupied_bytes == size_under(entries[i], "occupied_bytes"@)
                &&& n.relay_url is Some <==> text_under(entries[i], "relay_url"@) is Some
                &&& n.relay_url is Some ==> Some(n.relay_url->0@) == text_under(
                    entries[i],
                    "relay_url"@,
                )
            }
        },
{
    if json::items_of(body@) is Some {
        let entries = json::items_of(body@)->0;
        lemma_healthy(entries);
        if r is Ok {
            assert forall|j: int| 0 <= j < entries.len() implies ({
                let id = text_under(#[trigger] entries[j], "node_id"@);
                &&& id is Some
                &&& text_under(entries[j], "addr"@) is Some
                &&& keys::parsed_key(id->0) is Some
            }) by {
                assert(replies::healthy_entry(entries[j]) is Ok);
            }
            if 0 <= i < entries.len() {
                let views = replies::healthy_views(r->Ok_0@);
                assert(views[i] == r->Ok_0@[i]@);
                assert(replies::healthy_entry(entries[i])->Ok_0 == views[i]);
            }
        } else if forall|j: int|
            0 <= j < entries.len() ==> {
                let id = text_under(#[trigger] entries[j], "node_id"@);
                &&& id is Some
                &&& text_under(entries[j], "addr"@) is Some
                &&& keys::parsed_key(id->0) is Some
            } {
            assert forall|j: int| 0 <= j < entries.len() implies replies::healthy_entry(
                #[trigger] entries[j],
            ) is Ok by {
                assert(text_under(entries[j], "node_id"@) is Some);
            }
        }
    }
}

proof fn lemma_healthy(entries: Seq<Seq<char>>)
    ensures
        replies::healthy_entries(entries) is Ok <==> forall|j: int|
            0 <= j < entries.len() ==> replies::healthy_entry(#[trigger] entries[j]) is Ok,
        replies::healthy_entries(entries) is Ok ==> {
            let all = replies::healthy_entries(entries)->Ok_0;
            all.len() == entries.len() && forall|j: int|
                0 <= j < entries.len() ==> replies::healthy_entry(#[trigger] entries[j])->Ok_0
                    == all[j]
        },
    decreases entries.len(),
{
    if entries.len() > 0 {
        let front = entries.drop_last();
        let n = entries.len() - 1;
        lemma_healthy(front);
        assert forall|j: int| 0 <= j < n implies front[j] == entries[j] by {}
        if replies::healthy_entries(entries) is Ok {
            assert forall|j: int| 0 <= j < entries.len() implies replies::healthy_entry(
                #[trigger] entries[j],
            ) is Ok by {
                if j < n {
                    assert(replies::healthy_entry(front[j]) is Ok);
                }
            }
            let all = replies::healthy_entries(entries)->Ok_0;
            assert forall|j: int| 0 <= j < entries.len() implies replies::healthy_entry(
                #[trigger] entries[j],
            )->Ok_0 == all[j] by {
                if j < n {
                    assert(replies::healthy_entry(front[j])->Ok_0
                        == replies::healthy_entries(front)->Ok_0[j]);
                }
            }
        } else if forall|j: int|
            0 <= j < entries.len() ==> replies::healthy_entry(#[trigger] entries[j]) is Ok {
            assert forall|j: int| 0 <= j < front.len() implies replies::healthy_entry(
                #[trigger] front[j],
            ) is Ok by {
                assert(replies::healthy_entry(entries[j]) is Ok);
            }
            assert(replies::healthy_entry(entries[n]) is Ok);
        }
    }
}

/// A listing of all nodes is read likewise, with whether each is offline.
pub proof fn status_listings_are_read(
    body: &str,
    r: Result<Vec<NodeStatusInfo>, ReplyError>,
    i: int,
)
    requires
        call_ensures(replies::read_all_nodes, (body,), r),
    ensures
        json::items_of(body@) is None ==> r is Err && r->Err_0 == ReplyError::NotAnArray,
        json::items_of(body@) is Some ==> {
            let entries = json::items_of(body@)->0;
            &&& r is Ok <==> forall|j: int|
                0 <= j < entries.len() ==> {
                    let id = text_under(#[trigger] entries[j], "node_id"@);
                    &&& id is Some
                    &&& text_under(entries[j], "addr"@) is Some
                    &&& keys::parsed_key(id->0) is Some
                }
            &&& r is Ok ==> r->Ok_0@.len() == entries.len()
            &&& r is Ok && 0 <= i < entries.len() ==> {
                let n = r->Ok_0@[i];
                &&& Some(n.node_id@) == keys::parsed_key(text_under(entries[i], "node_id"@)->0)
                &&& Some(n.addr@) == text_under(entries[i], "addr"@)
                &&& n.offline <==> text_under(entries[i], "status"@) == Some("Offline"@)
                &&& n.relay_url is Some <==> text_under(entries[i], "relay_url"@) is Some
                &&& n.relay_url is Some ==> Some(n.relay_url->0@) == text_under(
                    entries[i],
                    "relay_url"@,
                )
            }
        },
{
    if json::items_of(body@) is Some {
        let entries = json::items_of(body@)->0;
        lemma_status(entries);
        if r is Ok {
            assert forall|j: int| 0 <= j < entries.len() implies ({
                let id = text_under(#[trigger] entries[j], "node_id"@);
                &&& id is Some
                &&& text_under(entries[j], "addr"@) is Some
                &&& keys::parsed_key(id->0) is Some
            }) by {
                assert(replies::status_entry(entries[j]) is Ok);
            }
            if 0 <= i < entries.len() {
                let views = replies::status_views(r->Ok_0@);
                assert(views[i] == r->Ok_0@[i]@);
                assert(replies::status_entry(entries[i])->Ok_0 == views[i]);
            }
        } else if forall|j: int|
            0 <= j < entries.len() ==> {
                let id = text_under(#[trigger] entries[j], "node_id"@);
                &&& id is Some
                &&& text_under(entries[j], "addr"@) is Some
                &&& keys::parsed_key(id->0) is Some
            } {
            assert forall|j: int| 0 <= j < entries.len() implies replies::status_entry(
                #[trigger] entries[j],
            ) is Ok by {
                assert(text_under(entries[j], "node_id"@) is Some);
            }
        }
    }
}

proof fn lemma_status(entries: Seq<Seq<char>>)
    ensures
        replies::status_entries(entries) is Ok <==> forall|j: int|
            0 <= j < entries.len() ==> replies::status_entry(#[trigger] entries[j]) is Ok,
        replies::status_entries(entries) is Ok ==> {
            let all = replies::status_entries(entries)->Ok_0;
            all.len() == entries.len() && forall|j: int|
                0 <= j < entries.len() ==> replies::status_entry(#[trigger] entries[j])->Ok_0
                    == all[j]
        },
    decreases entries.len(),
{
    if entries.len() > 0 {
        let front = entries.drop_last();
        let n = entries.len() - 1;
        lemma_status(front);
        assert forall|j: int| 0 <= j < n implies front[j] == entries[j] by {}
        if replies::status_entries(entries) is Ok {
            assert forall|j: int| 0 <= j < entries.len() implies replies::status_entry(
                #[trigger] entries[j],
            ) is Ok by {
                if j < n {
                    assert(replies::status_entry(front[j]) is Ok);
                }
            }
            let all = replies::status_entries(entries)->Ok_0;
            assert forall|j: int| 0 <= j < entries.len() implies replies::status_entry(
                #[trigger] entries[j],
            )->Ok_0 == all[j] by {
                if j < n {
                    assert(replies::status_entry(front[j])->Ok_0 == replies::status_entries(
                        front,
                    )->Ok_0[j]);
                }
            }
        } else if forall|j: int|
            0 <= j < entries.len() ==> replies::status_entry(#[trigger] entries[j]) is Ok {
            assert forall|j: int| 0 <= j < front.len() implies replies::status_entry(
                #[trigger] front[j],
            ) is Ok by {
                assert(replies::status_entry(entries[j]) is Ok);
            }
            assert(replies::status_entry(entries[n]) is Ok);
        }
    }
}

/// What the index keeps of an object is read from two lists of bytes, both of which have
/// to be there.
pub proof fn stored_manifests_are_read(body: &str, r: Result<StoredManifest, ReplyError>)
    requires
        call_ensures(replies::read_stored_manifest, (body,), r),
    ensures
        ({
            let m = json::member_of(body@, "manifest_bytes"@);
            let s = json::member_of(body@, "signature"@);
            let has_m = m is Some && json::bytes_of(m->0) is Some;
            let has_s = s is Some && json::bytes_of(s->0) is Some;
            &&& r is Ok <==> has_m && has_s
            &&& !has_m ==> r->Err_0 == ReplyError::BadManifestBytes
            &&& has_m && !has_s ==> r->Err_0 == ReplyError::BadSignature
            &&& r is Ok ==> Some(r->Ok_0.manifest_bytes@) == json::bytes_of(m->0)
                && Some(r->Ok_0.signature@) == json::bytes_of(s->0)
        }),
{
}

/// A quota is read from two numbers, each of which is zero where it is not there.
pub proof fn quotas_are_read(body: &str, r: (u64, u64))
    requires
        call_ensures(replies::read_quota, (body,), r),
    ensures
        r.0 == size_under(body@, "total_bytes"@),
        r.1 == size_under(body@, "used_bytes"@),
{
}

/// The shards that a reply names are those of its strings that are hexadecimal; it has to
/// be an array.
pub proof fn named_shards_are_read(body: &str, r: Result<Vec<Vec<u8>>, ReplyError>, h: Seq<u8>)
    requires
        call_ensures(replies::read_gc_candidates, (body,), r),
    ensures
        json::items_of(body@) is None ==> r is Err && r->Err_0 == ReplyError::NotAnArray,
        json::items_of(body@) is Some ==> r is Ok,
        r is Ok ==> ((exists|i: int| 0 <= i < r->Ok_0@.len() && (#[trigger] r->Ok_0@[i])@ == h)
            <==> exists|i: int|
            0 <= i < json::items_of(body@)->0.len() && hex_string(
                #[trigger] json::items_of(body@)->0[i],
                h,
            )),
{
    if r is Ok {
        let entries = json::items_of(body@)->0;
        let strings = replies::strings_among(entries);
        let named = bytes::contents(r->Ok_0@);
        let pred = |s: Seq<char>| codec::is_hex(s);
        let kept = strings.filter(pred);
        assert(named == remote::gc_hashes(strings));
        assert(named.len() == kept.len());
        if exists|i: int| 0 <= i < r->Ok_0@.len() && (#[trigger] r->Ok_0@[i])@ == h {
            let i = choose|i: int| 0 <= i < r->Ok_0@.len() && (#[trigger] r->Ok_0@[i])@ == h;
            assert(named[i] == h);
            let s = kept[i];
            assert(codec::hex_bytes(s) == h);
            assert(kept.contains(s));
            crate::laws::services::filters_keep_members(strings, pred, s);
            lemma_strings(entries, s);
            let j = choose|j: int|
                0 <= j < entries.len() && json::string_of(#[trigger] entries[j]) == Some(s);
            assert(hex_string(entries[j], h));
        }
        if exists|i: int| 0 <= i < entries.len() && hex_string(#[trigger] entries[i], h) {
            let i = choose|i: int| 0 <= i < entries.len() && hex_string(#[trigger] entries[i], h);
            let s = json::string_of(entries[i])->0;
            lemma_strings(entries, s);
            crate::laws::services::filters_keep_members(strings, pred, s);
            let j = choose|j: int| 0 <= j < kept.len() && kept[j] == s;
            assert(named[j] == h);
            assert(r->Ok_0@[j]@ == h);
        }
    }
}

/// Whether a JSON text is a string that spells some bytes in hexadecimal.
pub open spec fn hex_string(entry: Seq<char>, h: Seq<u8>) -> bool {
    json::string_of(entry) is Some && codec::is_hex(json::string_of(entry)->0) && codec::hex_bytes(
        json::string_of(entry)->0,
    ) == h
}

proof fn lemma_strings(entries: Seq<Seq<char>>, s: Seq<char>)
    ensures
        replies::strings_among(entries).contains(s) <==> exists|j: int|
            0 <= j < entries.len() && json::string_of(#[trigger] entries[j]) == Some(s),
    decreases entries.len(),
{
    if entries.len() > 0 {
        let front = entries.drop_last();
        let n = entries.len() - 1;
        let before = replies::strings_among(front);
        let all = replies::strings_among(entries);
        lemma_strings(front, s);
        if all.contains(s) {
            let k = choose|k: int| 0 <= k < all.len() && all[k] == s;
            if k < before.len() {
                assert(before[k] == s);
                let j = choose|j: int|
                    0 <= j < front.len() && json::string_of(#[trigger] front[j]) == Some(s);
                assert(json::string_of(entries[j]) == Some(s));
            } else {
                assert(json::string_of(entries[n]) == Some(s));
            }
        }
        if exists|j: int|
            0 <= j < entries.len() && json::string_of(#[trigger] entries[j]) == Some(s) {
            let j = choose|j: int|
                0 <= j < entries.len() && json::string_of(#[trigger] entries[j]) == Some(s);
            if j < n {
                assert(json::string_of(front[j]) == Some(s));
                let k = choose|k: int| 0 <= k < before.len() && before[k] == s;
                assert(all[k] == s);
            } else {
                assert(all[before.len() as int] == s);
            }
        }
    }
}

/// An entry of the listing of all manifests is an array of bucket, key and bytes.
pub proof fn manifest_entries_are_read(entry: Seq<char>)
    ensures
        ({
            let r = replies::manifest_entry(entry);
            let parts = json::items_of(entry);
            let has = |i: int| parts is Some && i < parts->0.len();
            let bucket = has(0) && json::string_of(parts->0[0]) is Some;
            let key = has(1) && json::string_of(parts->0[1]) is Some;
            let manifest = has(2) && json::bytes_of(parts->0[2]) is Some;
            &&& r is Ok <==> bucket && key && manifest
            &&& !bucket ==> r->Err_0 == ReplyError::BadBucket
            &&& bucket && !key ==> r->Err_0 == ReplyError::BadKey
            &&& bucket && key && !manifest ==> r->Err_0 == ReplyError::BadManifestBytes
            &&& r is Ok ==> Some(r->Ok_0.0) == json::string_of(parts->0[0]) && Some(r->Ok_0.1)
                == json::string_of(parts->0[1]) && Some(r->Ok_0.2) == json::bytes_of(parts->0[2])
        }),
{
}

/// The listing of all manifests comes out in order and in full where every entry can be
/// read.
pub proof fn manifest_listings_are_read(
    body: &str,
    r: Result<Vec<(String, String, Vec<u8>)>, ReplyError>,
    i: int,
)
    requires
        call_ensures(replies::read_all_manifests, (body,), r),
    ensures
        json::items_of(body@) is None ==> r is Err && r->Err_0 == ReplyError::NotAnArray,
        json::items_of(body@) is Some ==> {
            let entries = json::items_of(body@)->0;
            &&& r is Ok <==> forall|j: int|
                0 <= j < entries.len() ==> replies::manifest_entry(#[trigger] entries[j]) is Ok
            &&& r is Ok ==> r->Ok_0@.len() == entries.len()
            &&& r is Ok && 0 <= i < entries.len() ==> (
                r->Ok_0@[i].0@,
                r->Ok_0@[i].1@,
                r->Ok_0@[i].2@,
            ) == replies::manifest_entry(entries[i])->Ok_0
        },
{
    if json::items_of(body@) is Some {
        let entries = json::items_of(body@)->0;
        lemma_manifests(entries);
        if r is Ok && 0 <= i < entries.len() {
            let views = replies::manifest_views(r->Ok_0@);
            assert(views[i] == (r->Ok_0@[i].0@, r->Ok_0@[i].1@, r->Ok_0@[i].2@));
            assert(replies::manifest_entry(entries[i])->Ok_0 == views[i]);
        }
    }
}

proof fn lemma_manifests(entries: Seq<Seq<char>>)
    ensures
        replies::manifest_entries(entries) is Ok <==> forall|j: int|
            0 <= j < entries.len() ==> replies::manifest_entry(#[trigger] entries[j]) is Ok,
        replies::manifest_entries(entries) is Ok ==> {
            let all = replies::manifest_entries(entries)->Ok_0;
            all.len() == entries.len() && forall|j: int|
                0 <= j < entries.len() ==> replies::manifest_entry(#[trigger] entries[j])->Ok_0
                    == all[j]
        },
    decreases entries.len(),
{
    if entries.len() > 0 {
        let front = entries.drop_last();
        let n = entries.len() - 1;
        lemma_manifests(front);
        assert forall|j: int| 0 <= j < n implies front[j] == entries[j] by {}
        if replies::manifest_entries(entries) is Ok {
            assert forall|j: int| 0 <= j < entries.len() implies replies::manifest_entry(
                #[trigger] entries[j],
            ) is Ok by {
                if j < n {
                    assert(replies::manifest_entry(front[j]) is Ok);
                }
            }
            let all = replies::manifest_entries(entries)->Ok_0;
            assert forall|j: int| 0 <= j < entries.len() implies replies::manifest_entry(
                #[trigger] entries[j],
            )->Ok_0 == all[j] by {
                if j < n {
                    assert(replies::manifest_entry(front[j])->Ok_0 == replies::manifest_entries(
                        front,
                    )->Ok_0[j]);
                }
            }
        } else if forall|j: int|
            0 <= j < entries.len() ==> replies::manifest_entry(#[trigger] entries[j]) is Ok {
            assert forall|j: int| 0 <= j < front.len() implies replies::manifest_entry(
                #[trigger] front[j],
            ) is Ok by {
                assert(replies::manifest_entry(entries[j]) is Ok);
            }
            assert(replies::manifest_entry(entries[n]) is Ok);
        }
    }
}

/// Account and shards are asked about under their routes.
pub proof fn routes_name_what_is_asked(account: &str, r: String)
    requires
        call_ensures(remote::quota_route, (account,), r),
    ensures
        r@ == "account/quota?account="@ + account@,
{
}

/// A member of an object is read by its type: what is of another type, or is not there,
/// is none.
pub proof fn members_are_read_by_their_type(
    s: &str,
    name: &str,
    a: Option<String>,
    b: Option<bool>,
    c: Option<u64>,
    d: Option<Vec<u8>>,
)
    requires
        call_ensures(json::string_member, (s, name), a),
        call_ensures(json::flag_member, (s, name), b),
        call_ensures(json::number_member, (s, name), c),
        call_ensures(json::bytes_member, (s, name), d),
    ensures
        json::member_of(s@, name@) is None ==> a is None && b is None && c is None && d is None,
        json::member_of(s@, name@) is Some ==> {
            let m = json::member_of(s@, name@)->0;
            &&& a is Some <==> json::string_of(m) is Some
            &&& a is Some ==> a->0@ == json::string_of(m)->0
            &&& b == json::flag_of(m)
            &&& c == json::number_of(m)
            &&& d is Some <==> json::bytes_of(m) is Some
            &&& d is Some ==> d->0@ == json::bytes_of(m)->0
        },
{
}

} // verus!
