//! The optional node config file, sizes, and how flags, file and defaults combine.
use vstd::prelude::*;

use crate::text;

verus! {

/// A node config file.
#[derive(Debug, Default, Clone)]
pub struct NodeConfig {
    pub index_nodes: Option<IndexConfig>,
    pub storage: Option<StorageConfig>,
}

/// What the file says for an index node.
#[derive(Debug, Default, Clone)]
pub struct IndexConfig {
    pub http_addr: Option<String>,
    pub data_dir: Option<String>,
    pub peers: Option<Vec<String>>,
}

/// What the file says for a storage node.
#[derive(Debug, Default, Clone)]
pub struct StorageConfig {
    pub addr: Option<String>,
    pub advertise_addr: Option<String>,
    pub data_dir: Option<String>,
    pub index_addrs: Option<Vec<String>>,
    /// The space that the node commits to the network, such as "1TB".
    pub capacity: Option<String>,
    pub gc_interval_secs: Option<u64>,
}

/// Why a size could not be read. It holds the size, trimmed and in upper case.
#[derive(Debug)]
pub enum SizeError {
    Bad(String),
    Overflow(String),
}

/// What a size error conveys.
pub enum SizeFault {
    Bad(Seq<char>),
    Overflow(Seq<char>),
}

impl SizeError {
    /// What the error conveys.
    pub open spec fn fault(&self) -> SizeFault {
        match *self {
            SizeError::Bad(s) => SizeFault::Bad(s@),
            SizeError::Overflow(s) => SizeFault::Overflow(s@),
        }
    }

    /// What went wrong, in words.
    pub fn message(&self) -> (r: String)
        ensures
            r@ == (match self.fault() {
                SizeFault::Bad(s) => "bad size: "@ + s,
                SizeFault::Overflow(s) => "size overflow: "@ + s,
            }),
    {
        match self {
            SizeError::Bad(s) => text::join2("bad size: ", s.as_str()),
            SizeError::Overflow(s) => text::join2("size overflow: ", s.as_str()),
        }
    }
}

/// The factor that a unit letter stands for.
pub open spec fn unit(c: char) -> Option<nat> {
    if c == 'K' {
        Some(1024)
    } else if c == 'M' {
        Some(1048576)
    } else if c == 'G' {
        Some(1073741824)
    } else if c == 'T' {
        Some(1099511627776)
    } else {
        None
    }
}

/// The number and the factor of a size in upper case: a unit letter, with or without
/// a `B` behind it, is split off.
pub open spec fn size_parts(s: Seq<char>) -> (Seq<char>, nat) {
    if s.len() >= 2 && s[s.len() - 1] == 'B' && unit(s[s.len() - 2]) is Some {
        (s.take(s.len() - 2), unit(s[s.len() - 2])->0)
    } else if s.len() >= 1 && unit(s[s.len() - 1]) is Some {
        (s.take(s.len() - 1), unit(s[s.len() - 1])->0)
    } else {
        (s, 1)
    }
}

/// The number of bytes that a size denotes.
pub open spec fn size_of_text(s: Seq<char>) -> Result<nat, SizeFault> {
    let t = text::uppercase(text::trimmed(s));
    let (number, factor) = size_parts(t);
    match text::parsed(text::trimmed(number), u64::MAX as nat) {
        None => Err(SizeFault::Bad(t)),
        Some(n) => if n * factor <= u64::MAX {
            Ok(n * factor)
        } else {
            Err(SizeFault::Overflow(t))
        },
    }
}

fn unit_factor(c: char) -> (r: Option<u64>)
    ensures
        r is Some <==> unit(c) is Some,
        r matches Some(f) ==> f as nat == unit(c)->0,
{
    if c == 'K' {
        Some(1024)
    } else if c == 'M' {
        Some(1048576)
    } else if c == 'G' {
        Some(1073741824)
    } else if c == 'T' {
        Some(1099511627776)
    } else {
        None
    }
}

/// Reads `"1TB" | "500GB" | "1G" | "1048576"` as a number of bytes.
pub fn parse_size(s: &str) -> (r: Result<u64, SizeError>)
    ensures
        match size_of_text(s@) {
            Ok(n) => r is Ok && r->Ok_0 as nat == n,
            Err(e) => r is Err && r->Err_0.fault() == e,
        },
{
    let t = text::to_upper(text::trim(s).as_str());
    let v = text::chars_of(t.as_str());
    let n: usize = v.len();
    let mut end: usize = n;
    let mut factor: u64 = 1;
    let mut found = false;
    if n >= 2 && v[n - 1] == 'B' {
        if let Some(f) = unit_factor(v[n - 2]) {
            end = n - 2;
            factor = f;
            found = true;
        }
    }
    if !found && n >= 1 {
        if let Some(f) = unit_factor(v[n - 1]) {
            end = n - 1;
            factor = f;
        }
    }
    let number = text::string_of(&v, 0, end);
    assert((number@, factor as nat) == size_parts(t@)) by {
        assert(number@ =~= size_parts(t@).0);
    }
    match text::parse_decimal(text::trim(number.as_str()).as_str(), u64::MAX) {
        None => Err(SizeError::Bad(t)),
        Some(value) => match value.checked_mul(factor) {
            Some(total) => Ok(total),
            None => Err(SizeError::Overflow(t)),
        },
    }
}

/// Resolves a setting: the flag wins, then the config file, then the default.
pub fn resolve<T: Clone>(cli: Option<T>, config: Option<T>, default: T) -> (r: T)
    ensures
        r == (match (cli, config) {
            (Some(c), _) => c,
            (None, Some(f)) => f,
            (None, None) => default,
        }),
{
    match cli {
        Some(c) => c,
        None => match config {
            Some(f) => f,
            None => default,
        },
    }
}

/// A number that may be given as text: the default where it is not, or cannot be
/// read.
pub fn number_or(value: Option<&str>, default: u64) -> (r: u64)
    ensures
        r == (match value {
            Some(s) => match text::parsed(s@, u64::MAX as nat) {
                Some(n) => n as u64,
                None => default,
            },
            None => default,
        }),
{
    match value {
        Some(s) => match text::parse_decimal(s, u64::MAX) {
            Some(n) => n,
            None => default,
        },
        None => default,
    }
}

/// The space that a storage node commits by default: one terabyte.
pub const DEFAULT_CAPACITY: u64 = 1_000_000_000_000;

/// How often, in seconds, a storage node looks for unreferenced shards by default.
pub const DEFAULT_GC_INTERVAL_SECS: u64 = 3600;

/// The space that a storage node commits: the flag wins, then the config file where
/// it can be read, then the default.
pub fn storage_capacity(cli: Option<u64>, config: Option<&str>) -> (r: u64)
    ensures
        r == (match (cli, config) {
            (Some(c), _) => c,
            (None, Some(s)) => match size_of_text(s@) {
                Ok(n) => n as u64,
                Err(_) => DEFAULT_CAPACITY,
            },
            (None, None) => DEFAULT_CAPACITY,
        }),
{
    if let Some(c) = cli {
        return c;
    }
    match config {
        Some(s) => match parse_size(s) {
            Ok(n) => n,
            Err(_) => DEFAULT_CAPACITY,
        },
        None => DEFAULT_CAPACITY,
    }
}

} // verus!
