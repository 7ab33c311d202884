//! Laws of sizes, settings and addresses that a user gives.
//!
//! `call_ensures(f, args, r)` says that a call of `f` with `args` may return `r`.
use vstd::prelude::*;

use crate::cli;
use crate::cli::{Commands, TargetError};
use crate::config;
use crate::config::{SizeError, SizeFault};
use crate::dataplane::erasure::ErasureConfig;
use crate::dataplane::StorageTarget;
use crate::identity;
use crate::keys;
use crate::text;

verus! {

/// White space is trimmed off both ends and nowhere else: what is left has none at its
/// ends, and what was taken is nothing but white space.
pub proof fn trimming_takes_white_space(s: Seq<char>) -> (cut: (int, int))
    ensures
        0 <= cut.0 <= cut.1 <= s.len(),
        text::trimmed(s) == s.subrange(cut.0, cut.1),
        forall|i: int| 0 <= i < cut.0 || cut.1 <= i < s.len() ==> text::is_space(#[trigger] s[i]),
        text::trimmed(s).len() > 0 ==> !text::is_space(text::trimmed(s)[0]) && !text::is_space(
            text::trimmed(s)[text::trimmed(s).len() - 1],
        ),
{
    let a = lemma_trim_start(s);
    let t = text::trim_start(s);
    let b = lemma_trim_end(t);
    assert(text::trimmed(s) =~= s.subrange(a, a + b));
    assert forall|i: int| 0 <= i < a || a + b <= i < s.len() implies text::is_space(
        #[trigger] s[i],
    ) by {
        if i >= a {
            assert(t[i - a] == s[i]);
        }
    }
    (a, a + b)
}

proof fn lemma_trim_start(s: Seq<char>) -> (a: int)
    ensures
        0 <= a <= s.len(),
        text::trim_start(s) == s.skip(a),
        forall|i: int| 0 <= i < a ==> text::is_space(#[trigger] s[i]),
        a < s.len() ==> !text::is_space(s[a]),
    decreases s.len(),
{
    if s.len() > 0 && text::is_space(s[0]) {
        let a = lemma_trim_start(s.skip(1));
        assert(s.skip(1).skip(a) =~= s.skip(a + 1));
        assert forall|i: int| 0 <= i < a + 1 implies text::is_space(#[trigger] s[i]) by {
            if i > 0 {
                assert(s.skip(1)[i - 1] == s[i]);
            }
        }
        a + 1
    } else {
        assert(s.skip(0) =~= s);
        0
    }
}

proof fn lemma_trim_end(s: Seq<char>) -> (b: int)
    ensures
        0 <= b <= s.len(),
        text::trim_end(s) == s.take(b),
        forall|i: int| b <= i < s.len() ==> text::is_space(#[trigger] s[i]),
        b > 0 ==> !text::is_space(s[b - 1]),
    decreases s.len(),
{
    if s.len() > 0 && text::is_space(s.last()) {
        let front = s.drop_last();
        let b = lemma_trim_end(front);
        assert(front.take(b) =~= s.take(b));
        assert forall|i: int| b <= i < s.len() implies text::is_space(#[trigger] s[i]) by {
            if i < front.len() {
                assert(front[i] == s[i]);
            }
        }
        if b > 0 {
            assert(front[b - 1] == s[b - 1]);
        }
        b
    } else {
        assert(s.take(s.len() as int) =~= s);
        s.len() as int
    }
}

/// Blanks, tabs and line ends are white space; letters, digits and signs are not.
pub proof fn white_space_is_blank(c: char)
    ensures
        c == ' ' || c == '\t' || c == '\n' || c == '\r' ==> text::is_space(c),
        '!' <= c <= '~' ==> !text::is_space(c),
{
}

/// A text without white space at its ends stays as it is.
pub proof fn plain_texts_are_not_trimmed(s: Seq<char>)
    requires
        s.len() > 0 ==> !text::is_space(s[0]) && !text::is_space(s[s.len() - 1]),
    ensures
        text::trimmed(s) == s,
{
}

/// Upper case changes the small letters and nothing else.
pub proof fn upper_case_changes_small_letters(s: Seq<char>, i: int)
    requires
        0 <= i < s.len(),
    ensures
        text::uppercase(s).len() == s.len(),
        !('a' <= s[i] <= 'z') ==> text::uppercase(s)[i] == s[i],
        'a' <= s[i] <= 'z' ==> text::uppercase(s)[i] as u32 == s[i] as u32 - 32,
{
}

/// A number is read as its digits say, with or without a plus sign; anything else is
/// none, and so is a number that is too large.
pub proof fn numbers_are_read_digit_by_digit(s: Seq<char>, d: char, n: nat, max: nat)
    ensures
        text::parsed(text::decimal(n), max) == (if n <= max {
            Some(n)
        } else {
            None
        }),
        text::parsed(s, max) is Some ==> text::parsed(s, max)->0 <= max,
        text::parsed(s, max) is Some ==> s.len() > 0 && ('0' <= s[s.len() - 1] <= '9') && (s[0]
            == '+' || '0' <= s[0] <= '9') && forall|i: int|
            1 <= i < s.len() ==> '0' <= #[trigger] s[i] <= '9',
        text::parsed(s, max) is Some && '0' <= d <= '9' && text::parsed(s, max)->0 * 10 + (d as u32
            - 48) <= max ==> text::parsed(s.push(d), max) == Some(
            (text::parsed(s, max)->0 * 10 + (d as u32 - 48)) as nat,
        ),
{
    text::decimal_round_trip(n);
    let x = text::decimal(n);
    assert(text::is_digit(x[0]));
    if text::parsed(s, max) is Some {
        let t = if s[0] == '+' {
            s.skip(1)
        } else {
            s
        };
        assert forall|i: int| 1 <= i < s.len() implies '0' <= #[trigger] s[i] <= '9' by {
            if s[0] == '+' {
                assert(text::is_digit(t[i - 1]));
            } else {
                assert(text::is_digit(t[i]));
            }
        }
        assert(text::is_digit(t[t.len() - 1]));
        assert(text::is_digit(t[0]));
        if '0' <= d <= '9' {
            let more = if s[0] == '+' {
                s.push(d).skip(1)
            } else {
                s.push(d)
            };
            assert(more =~= t.push(d));
            assert(more.drop_last() =~= t);
            assert forall|i: int| 0 <= i < more.len() implies text::is_digit(
                #[trigger] more[i],
            ) by {
                if i < t.len() {
                    assert(text::is_digit(t[i]));
                }
            }
        }
    }
}

/// The factor that a unit stands for.
pub open spec fn factor(unit: Seq<char>) -> nat {
    if unit == "K"@ || unit == "KB"@ || unit == "k"@ || unit == "kb"@ {
        1024
    } else if unit == "M"@ || unit == "MB"@ || unit == "m"@ || unit == "mb"@ {
        1024 * 1024
    } else if unit == "G"@ || unit == "GB"@ || unit == "g"@ || unit == "gb"@ {
        1024 * 1024 * 1024
    } else if unit == "T"@ || unit == "TB"@ || unit == "t"@ || unit == "tb"@ {
        1024 * 1024 * 1024 * 1024
    } else {
        1
    }
}

/// Whether a text is a unit of sizes, or none.
pub open spec fn is_unit(unit: Seq<char>) -> bool {
    factor(unit) > 1 || unit == ""@
}

/// A size is a number and a unit, which counts in steps of 1024; it is read in capital
/// and in small letters, and is too large where its bytes do not fit in 64 bits.
pub proof fn sizes_count_in_units(n: nat, unit: Seq<char>, s: &str, r: Result<u64, SizeError>)
    requires
        is_unit(unit),
        s@ == text::decimal(n) + unit,
        n <= u64::MAX,
        call_ensures(config::parse_size, (s,), r),
    ensures
        r is Ok <==> n * factor(unit) <= u64::MAX,
        r is Ok ==> r->Ok_0 == n * factor(unit),
        r is Err ==> r->Err_0 is Overflow,
{
    let d = text::decimal(n);
    lemma_literals();
    text::decimal_round_trip(n);
    assert(text::is_digit(d[0]));
    assert(text::is_digit(d[d.len() - 1]));
    assert(d + unit == s@);
    let c = s@[s@.len() - 1];
    assert(!text::is_space(s@[0]));
    if unit.len() == 0 {
        assert(d + unit =~= d);
    } else {
        assert(c == unit[unit.len() - 1]);
    }
    plain_texts_are_not_trimmed(s@);
    let t = text::uppercase(s@);
    assert forall|i: int| 0 <= i < d.len() implies t[i] == d[i] by {
        assert(text::is_digit(d[i]));
        assert(s@[i] == d[i]);
    }
    let (number, by) = config::size_parts(t);
    assert(number =~= d && by == factor(unit)) by {
        if unit.len() == 1 {
            assert(t[t.len() - 1] == text::upper(unit[0]));
            assert(t[t.len() - 2] == d[d.len() - 1]);
        } else if unit.len() == 2 {
            assert(t[t.len() - 1] == text::upper(unit[1]));
            assert(t[t.len() - 2] == text::upper(unit[0]));
        } else {
            assert(t[t.len() - 1] == d[d.len() - 1]);
        }
    }
    plain_texts_are_not_trimmed(d);
}

proof fn lemma_literals()
    ensures
        "K"@ =~= seq!['K'],
        "KB"@ =~= seq!['K', 'B'],
        "k"@ =~= seq!['k'],
        "kb"@ =~= seq!['k', 'b'],
        "M"@ =~= seq!['M'],
        "MB"@ =~= seq!['M', 'B'],
        "m"@ =~= seq!['m'],
        "mb"@ =~= seq!['m', 'b'],
        "G"@ =~= seq!['G'],
        "GB"@ =~= seq!['G', 'B'],
        "g"@ =~= seq!['g'],
        "gb"@ =~= seq!['g', 'b'],
        "T"@ =~= seq!['T'],
        "TB"@ =~= seq!['T', 'B'],
        "t"@ =~= seq!['t'],
        "tb"@ =~= seq!['t', 'b'],
        ""@.len() == 0,
{
    reveal_strlit("K");
    reveal_strlit("KB");
    reveal_strlit("k");
    reveal_strlit("kb");
    reveal_strlit("M");
    reveal_strlit("MB");
    reveal_strlit("m");
    reveal_strlit("mb");
    reveal_strlit("G");
    reveal_strlit("GB");
    reveal_strlit("g");
    reveal_strlit("gb");
    reveal_strlit("T");
    reveal_strlit("TB");
    reveal_strlit("t");
    reveal_strlit("tb");
    reveal_strlit("");
}

/// White space round a size makes no difference.
pub proof fn sizes_may_be_padded(a: Seq<char>, s: Seq<char>, b: Seq<char>)
    requires
        forall|i: int| 0 <= i < a.len() ==> text::is_space(#[trigger] a[i]),
        forall|i: int| 0 <= i < b.len() ==> text::is_space(#[trigger] b[i]),
        s.len() > 0,
        !text::is_space(s[0]),
        !text::is_space(s[s.len() - 1]),
    ensures
        config::size_of_text(a + s + b) == config::size_of_text(s),
{
    lemma_trim_padded(a, s, b);
    plain_texts_are_not_trimmed(s);
}

/// A size that ends in neither a digit nor a unit is refused, and the refusal names it.
pub proof fn other_sizes_are_refused(s: &str, r: Result<u64, SizeError>)
    requires
        call_ensures(config::parse_size, (s,), r),
        s@.len() > 0,
        !text::is_space(s@[0]),
        !text::is_space(s@[s@.len() - 1]),
        ({
            let c = s@[s@.len() - 1];
            !('0' <= c <= '9') && c != 'K' && c != 'M' && c != 'G' && c != 'T' && c != 'B' && !(
            'a' <= c <= 'z')
        }),
    ensures
        r is Err,
        r->Err_0 is Bad,
        r->Err_0.fault() == SizeFault::Bad(text::uppercase(s@)),
{
    plain_texts_are_not_trimmed(s@);
    let t = text::uppercase(s@);
    assert(t[t.len() - 1] == s@[s@.len() - 1]);
    assert(config::size_parts(t).0 =~= t);
    plain_texts_are_not_trimmed(t);
    if text::parsed(t, u64::MAX as nat) is Some {
        numbers_are_read_digit_by_digit(t, '0', 0, u64::MAX as nat);
    }
}

/// A flag wins over the config file, and that over the default.
pub proof fn flags_win<T: Clone>(flag: Option<T>, file: Option<T>, default: T, r: T)
    requires
        call_ensures(config::resolve::<T>, (flag, file, default), r),
    ensures
        flag is Some ==> r == flag->0,
        flag is None && file is Some ==> r == file->0,
        flag is None && file is None ==> r == default,
{
}

/// The space that a storage node commits: the flag, else what the file says where that
/// is a size, else a terabyte.
pub proof fn capacities_have_a_default(
    flag: Option<u64>,
    file: Option<&str>,
    given: &str,
    size: Result<u64, SizeError>,
    r: u64,
)
    requires
        call_ensures(config::storage_capacity, (flag, file), r),
        call_ensures(config::parse_size, (given,), size),
        file is Some ==> file->0@ == given@,
    ensures
        flag is Some ==> r == flag->0,
        flag is None && file is Some && size is Ok ==> r == size->Ok_0,
        flag is None && file is Some && size is Err ==> r == 1_000_000_000_000,
        flag is None && file is None ==> r == 1_000_000_000_000,
        config::DEFAULT_GC_INTERVAL_SECS == 3600,
{
}

/// A number in the environment is taken where it is one; else the default stands.
pub proof fn environments_may_give_numbers(value: Option<&str>, default: u64, n: u64, r: u64)
    requires
        call_ensures(config::number_or, (value, default), r),
    ensures
        value is None ==> r == default,
        value is Some && value->0@ == text::decimal(n as nat) ==> r == n,
        value is Some && (value->0@.len() == 0 || !('0' <= value->0@[value->0@.len() - 1] <= '9'))
            ==> r == default,
{
    text::decimal_round_trip(n as nat);
    if value is Some {
        numbers_are_read_digit_by_digit(value->0@, '0', n as nat, u64::MAX as nat);
    }
}

/// Where a command keeps its data: as the flag says; for the two kinds of node else as
/// the file says; else in a directory of its own.
pub proof fn commands_have_their_directory(
    cmd: &Commands,
    flag: Option<String>,
    file: Option<String>,
    port: u16,
    r: String,
)
    requires
        call_ensures(Commands::data_dir, (cmd, flag, file, port), r),
    ensures
        flag is Some ==> r@ == flag->0@,
        flag is None && file is Some && (cmd is Index || cmd is Storage) ==> r@ == file->0@,
        flag is None && (file is None || !(cmd is Index || cmd is Storage)) ==> {
            &&& cmd is Index ==> r@ == "./.arkel_index_"@ + text::decimal(port as nat) + "_data"@
            &&& cmd is Storage ==> r@ == "./.arkel_storage_data"@
            &&& cmd is Client ==> r@ == "./.arkel_client_data"@
            &&& cmd is Account ==> r@ == "./.arkel_account_data"@
            &&& cmd is Payment ==> r@ == "./.arkel_payment_data"@
            &&& cmd is Repair ==> r@ == "./.arkel_repair_data"@
        },
{
}

/// The key of an upload: as given, else the name of the file, else "object".
pub proof fn uploads_have_a_key(key: Option<String>, file_name: Option<String>, r: String)
    requires
        call_ensures(cli::object_key, (key, file_name), r),
    ensures
        key is Some ==> r@ == key->0@,
        key is None && file_name is Some ==> r@ == file_name->0@,
        key is None && file_name is None ==> r@ == "object"@,
{
}

/// The index nodes to talk to: the flag, else the file, else three local ones.
pub proof fn index_nodes_have_a_default(
    flag: Option<Vec<String>>,
    file: Option<Vec<String>>,
    r: Vec<String>,
)
    requires
        call_ensures(cli::index_addrs, (flag, file), r),
    ensures
        flag is Some ==> r == flag->0,
        flag is None && file is Some ==> r == file->0,
        flag is None && file is None ==> r@.len() == 3 && r@[0]@ == "http://127.0.0.1:8001"@
            && r@[1]@ == "http://127.0.0.1:8002"@ && r@[2]@ == "http://127.0.0.1:8003"@,
{
    if flag is None && file is None {
        let a = "http://127.0.0.1:8001"@;
        let b = "http://127.0.0.1:8002"@;
        let c = "http://127.0.0.1:8003"@;
        reveal_strlit("http://127.0.0.1:8001");
        reveal_strlit("http://127.0.0.1:8002");
        reveal_strlit("http://127.0.0.1:8003");
        reveal_strlit("http://127.0.0.1:8001,http://127.0.0.1:8002,http://127.0.0.1:8003");
        let parts = seq![a, b, c];
        let all = "http://127.0.0.1:8001,http://127.0.0.1:8002,http://127.0.0.1:8003"@;
        let sep = seq![','];
        assert(parts.drop_last() =~= seq![a, b]);
        assert(seq![a, b].drop_last() =~= seq![a]);
        assert(text::joined(seq![a], sep) == a);
        assert(text::joined(seq![a, b], sep) == a + sep + b);
        assert(text::joined(parts, sep) == a + sep + b + sep + c);
        assert(all =~= a + sep + b + sep + c);
        text::split_undoes_join(parts, ',');
        assert(text::texts(r@) == parts);
        assert(text::texts(r@)[0] == r@[0]@);
        assert(text::texts(r@)[1] == r@[1]@);
        assert(text::texts(r@)[2] == r@[2]@);
    }
}

/// The scheme of an upload is eight data and six parity shards, unless flags say
/// otherwise.
pub proof fn uploads_have_a_scheme(k: u8, m: u8, standard: ErasureConfig, r: ErasureConfig)
    requires
        call_ensures(cli::default_scheme, (), standard),
        call_ensures(cli::erasure_config, (k, m), r),
    ensures
        standard.k == 8 && standard.m == 6,
        r.k == k && r.m == m,
{
}

/// Whether a text is a public key, an `@` and more.
pub open spec fn names_key(addr: Seq<char>, key: Seq<char>, host: Seq<char>) -> bool {
    !key.contains('@') && addr == key + seq!['@'] + host
}

/// Storage addresses are read all together: they come out in their order, each with the
/// key that stands before its `@` and the socket address behind it.
pub proof fn storage_addresses_are_read(
    addrs: &Vec<String>,
    sockets: &Vec<Option<String>>,
    r: Result<Vec<StorageTarget>, TargetError>,
    i: int,
    key: Seq<char>,
    host: Seq<char>,
)
    requires
        sockets@.len() == addrs@.len(),
        call_ensures(cli::parse_targets, (addrs, sockets), r),
        0 <= i < addrs@.len(),
        names_key(addrs@[i]@, key, host),
    ensures
        r is Ok ==> r->Ok_0@.len() == addrs@.len() && keys::parsed_key(key) == Some(
            r->Ok_0@[i].node_id@,
        ) && sockets@[i] is Some && r->Ok_0@[i].addr@ == sockets@[i]->0@
            && r->Ok_0@[i].relay_url is None,
        keys::parsed_key(key) is None || sockets@[i] is None ==> r is Err,
        addrs@.len() == 1 ==> (r is Ok <==> keys::parsed_key(key) is Some && sockets@[0] is Some),
        addrs@.len() == 1 && keys::parsed_key(key) is None ==> r->Err_0 == TargetError::Key,
        addrs@.len() == 1 && keys::parsed_key(key) is Some && sockets@[0] is None ==> r->Err_0
            == TargetError::Address,
{
    text::lemma_split_once(key, '@', host);
    lemma_targets(addrs@, sockets@, i);
    if addrs@.len() == 1 {
        assert(cli::targets_fault(addrs@.drop_last(), sockets@.drop_last()) is None);
    }
}

/// A storage address without an `@` is refused.
pub proof fn storage_addresses_need_an_at_sign(
    addrs: &Vec<String>,
    sockets: &Vec<Option<String>>,
    r: Result<Vec<StorageTarget>, TargetError>,
    i: int,
)
    requires
        sockets@.len() == addrs@.len(),
        call_ensures(cli::parse_targets, (addrs, sockets), r),
        0 <= i < addrs@.len(),
        !addrs@[i]@.contains('@'),
    ensures
        r is Err,
        i == 0 ==> r->Err_0 == TargetError::Format,
{
    assert(text::split_once(addrs@[i]@, '@') is None);
    lemma_targets(addrs@, sockets@, i);
}

proof fn lemma_targets(addrs: Seq<String>, sockets: Seq<Option<String>>, i: int)
    requires
        sockets.len() == addrs.len(),
        0 <= i < addrs.len(),
    ensures
        cli::target_fault(addrs[i]@, sockets[i]) is Some ==> cli::targets_fault(
            addrs,
            sockets,
        ) is Some,
        i == 0 && cli::target_fault(addrs[0]@, sockets[0]) is Some ==> cli::targets_fault(
            addrs,
            sockets,
        ) == cli::target_fault(addrs[0]@, sockets[0]),
    decreases addrs.len(),
{
    if addrs.len() == 1 {
        assert(cli::targets_fault(addrs.drop_last(), sockets.drop_last()) is None);
    } else if i < addrs.len() - 1 {
        lemma_targets(addrs.drop_last(), sockets.drop_last(), i);
    }
}

/// Whether the parts of a storage address are a public key and a socket address.
pub open spec fn good_address(
    parts: Option<(Seq<char>, Seq<char>)>,
    socket: Option<String>,
) -> bool {
    match parts {
        Some((key, _)) => keys::parsed_key(key) is Some && socket is Some,
        None => false,
    }
}

/// Storage addresses that are all well-formed are all accepted.
pub proof fn good_storage_addresses_are_accepted(
    addrs: &Vec<String>,
    sockets: &Vec<Option<String>>,
    r: Result<Vec<StorageTarget>, TargetError>,
)
    requires
        sockets@.len() == addrs@.len(),
        call_ensures(cli::parse_targets, (addrs, sockets), r),
        forall|i: int|
            0 <= i < addrs@.len() ==> {
                let parts = text::split_once((#[trigger] addrs@[i])@, '@');
                good_address(parts, sockets@[i])
            },
    ensures
        r is Ok,
{
    lemma_no_fault(addrs@, sockets@);
}

proof fn lemma_no_fault(addrs: Seq<String>, sockets: Seq<Option<String>>)
    requires
        sockets.len() == addrs.len(),
        forall|i: int|
            0 <= i < addrs.len() ==> {
                let parts = text::split_once((#[trigger] addrs[i])@, '@');
                good_address(parts, sockets[i])
            },
    ensures
        cli::targets_fault(addrs, sockets) is None,
    decreases addrs.len(),
{
    if addrs.len() > 0 {
        let a = addrs.drop_last();
        assert forall|i: int| 0 <= i < a.len() implies ({
            let parts = text::split_once((#[trigger] a[i])@, '@');
            good_address(parts, sockets.drop_last()[i])
        }) by {
            assert(a[i] == addrs[i]);
        }
        lemma_no_fault(a, sockets.drop_last());
        assert(addrs[addrs.len() - 1] == addrs.last());
    }
}

/// The key of a full address stands before its first `@`; an address without one is all
/// key.
pub proof fn keys_stand_before_the_at_sign(key: Seq<char>, host: Seq<char>)
    requires
        !key.contains('@'),
    ensures
        identity::key_part(key + seq!['@'] + host) == key,
        identity::key_part(key) == key,
{
    text::lemma_split_once(key, '@', host);
    assert(text::split_once(key, '@') is None);
}

/// A size may have white space between its number and its unit.
pub proof fn sizes_may_have_a_gap(
    n: nat,
    gap: Seq<char>,
    unit: Seq<char>,
    s: &str,
    r: Result<u64, SizeError>,
)
    requires
        is_unit(unit),
        unit.len() > 0,
        forall|i: int| 0 <= i < gap.len() ==> #[trigger] gap[i] == ' ' || gap[i] == '\t',
        s@ == text::decimal(n) + gap + unit,
        n <= u64::MAX,
        call_ensures(config::parse_size, (s,), r),
    ensures
        r is Ok <==> n * factor(unit) <= u64::MAX,
        r is Ok ==> r->Ok_0 == n * factor(unit),
{
    let d = text::decimal(n);
    let head = d + gap;
    lemma_literals();
    text::decimal_round_trip(n);
    assert(text::is_digit(d[0]));
    assert(text::is_digit(d[d.len() - 1]));
    assert(s@[0] == d[0]);
    assert(s@[s@.len() - 1] == unit[unit.len() - 1]);
    plain_texts_are_not_trimmed(s@);
    let t = text::uppercase(s@);
    assert forall|i: int| 0 <= i < head.len() implies t[i] == head[i] by {
        assert(s@[i] == head[i]);
        if i < d.len() {
            assert(text::is_digit(d[i]));
        } else {
            assert(head[i] == gap[i - d.len()]);
        }
    }
    let (number, by) = config::size_parts(t);
    assert(number =~= head && by == factor(unit)) by {
        if unit.len() == 1 {
            assert(t[t.len() - 1] == text::upper(unit[0]));
            assert(t[t.len() - 2] == head[head.len() - 1]);
        } else {
            assert(t[t.len() - 1] == text::upper(unit[1]));
            assert(t[t.len() - 2] == text::upper(unit[0]));
        }
    }
    assert forall|i: int| 0 <= i < gap.len() implies text::is_space(#[trigger] gap[i]) by {}
    lemma_trim_padded(Seq::empty(), d, gap);
    assert(Seq::<char>::empty() + d + gap =~= head);
}

proof fn lemma_trim_padded(a: Seq<char>, s: Seq<char>, b: Seq<char>)
    requires
        forall|i: int| 0 <= i < a.len() ==> text::is_space(#[trigger] a[i]),
        forall|i: int| 0 <= i < b.len() ==> text::is_space(#[trigger] b[i]),
        s.len() > 0,
        !text::is_space(s[0]),
        !text::is_space(s[s.len() - 1]),
    ensures
        text::trimmed(a + s + b) == s,
{
    let whole = a + s + b;
    let cut = trimming_takes_white_space(whole);
    assert(whole[a.len() as int] == s[0]);
    assert(whole[a.len() + s.len() - 1] == s[s.len() - 1]);
    if cut.0 < a.len() && cut.1 > cut.0 {
        assert(text::trimmed(whole)[0] == whole[cut.0]);
        assert(whole[cut.0] == a[cut.0]);
    }
    if cut.0 > a.len() {
        assert(text::is_space(whole[a.len() as int]));
    }
    if cut.1 < a.len() + s.len() {
        assert(text::is_space(whole[a.len() + s.len() - 1]));
    }
    if cut.1 > a.len() + s.len() {
        assert(text::trimmed(whole)[cut.1 - cut.0 - 1] == whole[cut.1 - 1]);
        assert(whole[cut.1 - 1] == b[cut.1 - 1 - a.len() - s.len()]);
    }
    assert(text::trimmed(whole) =~= s);
}

} // verus!
