//! The commands of the program and what they derive from their flags.
use vstd::prelude::*;

use crate::dataplane::erasure::ErasureConfig;
use crate::dataplane::StorageTarget;
use crate::identity;
use crate::keys;
use crate::text;

verus! {

/// Index nodes to talk to by default, comma-separated.
pub const DEFAULT_INDEX_ADDRS: &'static str =
    "http://127.0.0.1:8001,http://127.0.0.1:8002,http://127.0.0.1:8003";

/// What the program is to do.
#[derive(Debug)]
#[allow(inconsistent_fields)]
pub enum Commands {
    /// Run as an index node.
    Index { http_addr: Option<String>, peer_addresses: Option<Vec<String>> },
    /// Run as a storage node.
    Storage {
        private_relay_url: Option<String>,
        index_addrs: Option<Vec<String>>,
        addr: Option<String>,
        advertise_addr: Option<String>,
        gc_interval_secs: Option<u64>,
        capacity: Option<u64>,
    },
    /// Upload and download objects.
    Client { cmd: ClientCmd },
    /// Account and quota tools.
    Account { cmd: AccountCmd },
    /// Payment-operator tools.
    Payment { cmd: PaymentCmd },
    /// Heal objects below their scheme.
    Repair { index_addrs: Vec<String>, register: bool, k: u8, m: u8, rate_limit: usize },
}

/// What a client is to do.
#[derive(Debug)]
#[allow(inconsistent_fields)]
pub enum ClientCmd {
    /// Upload a file. The key defaults to the file's name.
    Put {
        file: String,
        bucket: String,
        key: Option<String>,
        index_addrs: Vec<String>,
        storage_addrs: Vec<String>,
    },
    /// Download an object to a file or to standard output.
    Get {
        bucket: String,
        key: String,
        index_addrs: Vec<String>,
        storage_addrs: Vec<String>,
        output: Option<String>,
    },
    /// Delete an object.
    Rm { bucket: String, key: String, index_addrs: Vec<String> },
}

/// What to do with an account.
#[derive(Debug)]
pub enum AccountCmd {
    /// Show quota and usage of an account, by default the node's own.
    Quota { account: Option<String>, index_addrs: Vec<String> },
}

/// What a payment operator is to do.
#[derive(Debug)]
#[allow(inconsistent_fields)]
pub enum PaymentCmd {
    /// Register as the payment operator. The first registration wins.
    Register { index_addrs: Vec<String> },
    /// Credit quota to an account, once per reference.
    Credit {
        account: String,
        bytes: u64,
        source: String,
        ref_id: String,
        index_addrs: Vec<String>,
    },
    /// Set the quota of accounts that have none yet.
    SetDefaultQuota { bytes: String, index_addrs: Vec<String> },
}

/// The data directory of a command where no flag and no file says otherwise.
pub open spec fn default_dir(cmd: Commands, port: u16) -> Seq<char> {
    match cmd {
        Commands::Index { .. } => "./.arkel_index_"@ + text::decimal(port as nat) + "_data"@,
        Commands::Storage { .. } => "./.arkel_storage_data"@,
        Commands::Client { .. } => "./.arkel_client_data"@,
        Commands::Account { .. } => "./.arkel_account_data"@,
        Commands::Payment { .. } => "./.arkel_payment_data"@,
        Commands::Repair { .. } => "./.arkel_repair_data"@,
    }
}

/// Whether a command reads the config file.
pub open spec fn reads_config(cmd: Commands) -> bool {
    cmd is Index || cmd is Storage
}

impl Commands {
    /// The data directory: the flag wins, then, for the two kinds of node, the config
    /// file, then the default. `port` is that of an index node's address.
    pub fn data_dir(&self, cli: Option<String>, config: Option<String>, port: u16) -> (r: String)
        ensures
            r@ == (if cli is Some {
                cli->0@
            } else if reads_config(*self) && config is Some {
                config->0@
            } else {
                default_dir(*self, port)
            }),
    {
        if let Some(dir) = cli {
            return dir;
        }
        match self {
            Commands::Index { .. } => match config {
                Some(dir) => dir,
                None => text::join3(
                    "./.arkel_index_",
                    text::decimal_of(port as u64).as_str(),
                    "_data",
                ),
            },
            Commands::Storage { .. } => match config {
                Some(dir) => dir,
                None => text::owned("./.arkel_storage_data"),
            },
            Commands::Client { .. } => text::owned("./.arkel_client_data"),
            Commands::Account { .. } => text::owned("./.arkel_account_data"),
            Commands::Payment { .. } => text::owned("./.arkel_payment_data"),
            Commands::Repair { .. } => text::owned("./.arkel_repair_data"),
        }
    }
}

/// The key of an uploaded object: as given, else the file's name, else `object`.
pub fn object_key(key: Option<String>, file_name: Option<String>) -> (r: String)
    ensures
        r@ == (match (key, file_name) {
            (Some(k), _) => k@,
            (None, Some(f)) => f@,
            (None, None) => "object"@,
        }),
{
    match key {
        Some(k) => k,
        None => match file_name {
            Some(f) => f,
            None => text::owned("object"),
        },
    }
}

/// The index nodes to talk to: the flag wins, then the config file, then the
/// default.
pub fn index_addrs(cli: Option<Vec<String>>, config: Option<Vec<String>>) -> (r: Vec<String>)
    ensures
        cli is Some ==> r == cli->0,
        cli is None && config is Some ==> r == config->0,
        cli is None && config is None ==> text::texts(r@) == text::split_all(
            DEFAULT_INDEX_ADDRS@,
            ',',
        ),
{
    match cli {
        Some(a) => a,
        None => match config {
            Some(a) => a,
            None => text::split(DEFAULT_INDEX_ADDRS, ','),
        },
    }
}

/// Why a storage address could not be read.
#[derive(Debug, Clone, Copy, PartialEq, Eq, Structural)]
pub enum TargetError {
    /// There is no `@`.
    Format,
    /// What stands before it is no public key.
    Key,
    /// What stands behind it is no socket address.
    Address,
}

impl TargetError {
    /// What went wrong, in words.
    pub open spec fn words(&self) -> Seq<char> {
        match *self {
            TargetError::Format => "storage-addrs must be <pubkey>@<ip:port>"@,
            TargetError::Key => "bad public key in storage-addrs"@,
            TargetError::Address => "bad socket address in storage-addrs"@,
        }
    }

    /// What went wrong, in words.
    pub fn message(&self) -> (r: String)
        ensures
            r@ == self.words(),
    {
        match self {
            TargetError::Format => text::owned("storage-addrs must be <pubkey>@<ip:port>"),
            TargetError::Key => text::owned("bad public key in storage-addrs"),
            TargetError::Address => text::owned("bad socket address in storage-addrs"),
        }
    }
}

/// What is wrong with a storage address. `socket` is its host as a socket address,
/// where it is one.
pub open spec fn target_fault(addr: Seq<char>, socket: Option<String>) -> Option<TargetError> {
    match text::split_once(addr, '@') {
        None => Some(TargetError::Format),
        Some((key, _)) => if keys::parsed_key(key) is None {
            Some(TargetError::Key)
        } else if socket is None {
            Some(TargetError::Address)
        } else {
            None
        },
    }
}

/// The first fault in a list of storage addresses.
pub open spec fn targets_fault(addrs: Seq<String>, sockets: Seq<Option<String>>) -> Option<
    TargetError,
>
    decreases addrs.len(),
{
    if addrs.len() == 0 {
        None
    } else {
        match targets_fault(addrs.drop_last(), sockets.drop_last()) {
            Some(e) => Some(e),
            None => target_fault(addrs.last()@, sockets.last()),
        }
    }
}

/// Reads storage addresses of the form `<public key>@<ip>:<port>`. `sockets` holds,
/// for each, what stands behind the first `@` as a socket address, where it is one.
pub fn parse_targets(addrs: &Vec<String>, sockets: &Vec<Option<String>>) -> (r: Result<
    Vec<StorageTarget>,
    TargetError,
>)
    requires
        sockets@.len() == addrs@.len(),
    ensures
        match targets_fault(addrs@, sockets@) {
            Some(e) => r == Err::<Vec<StorageTarget>, TargetError>(e),
            None => r is Ok && r->Ok_0@.len() == addrs@.len() && forall|i: int|
                0 <= i < addrs@.len() ==> {
                    let t = #[trigger] r->Ok_0@[i];
                    &&& Some(t.node_id@) == keys::parsed_key(identity::key_part(addrs@[i]@))
                    &&& t.addr@ == sockets@[i]->0@
                    &&& t.relay_url is None
                },
        },
{
    let mut out: Vec<StorageTarget> = Vec::new();
    let mut i: usize = 0;
    while i < addrs.len()
        invariant
            i <= addrs@.len(),
            sockets@.len() == addrs@.len(),
            targets_fault(addrs@.take(i as int), sockets@.take(i as int)) is None,
            out@.len() == i,
            forall|j: int|
                0 <= j < i ==> {
                    let t = #[trigger] out@[j];
                    &&& Some(t.node_id@) == keys::parsed_key(identity::key_part(addrs@[j]@))
                    &&& t.addr@ == sockets@[j]->0@
                    &&& t.relay_url is None
                },
        decreases addrs@.len() - i,
    {
        proof {
            assert(addrs@.take(i + 1).drop_last() =~= addrs@.take(i as int));
            assert(sockets@.take(i + 1).drop_last() =~= sockets@.take(i as int));
        }
        let key_text = match text::split_at_char(addrs[i].as_str(), '@') {
            Some((key, _)) => key,
            None => {
                proof {
                    lemma_fault_stays(addrs@, sockets@, i + 1);
                }
                return Err(TargetError::Format);
            },
        };
        let node_id = match keys::key_from_text(key_text.as_str()) {
            Some(k) => k,
            None => {
                proof {
                    lemma_fault_stays(addrs@, sockets@, i + 1);
                }
                return Err(TargetError::Key);
            },
        };
        match &sockets[i] {
            Some(addr) => {
                out.push(StorageTarget { node_id, addr: addr.clone(), relay_url: None });
            },
            None => {
                proof {
                    lemma_fault_stays(addrs@, sockets@, i + 1);
                }
                return Err(TargetError::Address);
            },
        }
        i = i + 1;
    }
    proof {
        assert(addrs@.take(i as int) =~= addrs@);
        assert(sockets@.take(i as int) =~= sockets@);
    }
    Ok(out)
}

proof fn lemma_fault_stays(addrs: Seq<String>, sockets: Seq<Option<String>>, i: int)
    requires
        0 <= i <= addrs.len(),
        sockets.len() == addrs.len(),
        targets_fault(addrs.take(i), sockets.take(i)) is Some,
    ensures
        targets_fault(addrs, sockets) == targets_fault(addrs.take(i), sockets.take(i)),
    decreases addrs.len() - i,
{
    if i < addrs.len() {
        assert(addrs.drop_last().take(i) =~= addrs.take(i));
        assert(sockets.drop_last().take(i) =~= sockets.take(i));
        lemma_fault_stays(addrs.drop_last(), sockets.drop_last(), i);
    } else {
        assert(addrs.take(i) =~= addrs);
        assert(sockets.take(i) =~= sockets);
    }
}

/// The scheme that clients upload with: eight data shards and six parity shards.
pub fn default_scheme() -> (r: ErasureConfig)
    ensures
        r.k == 8,
        r.m == 6,
{
    ErasureConfig { k: 8, m: 6 }
}

/// The scheme that two flags ask for.
pub fn erasure_config(k: u8, m: u8) -> (r: ErasureConfig)
    ensures
        r.k == k,
        r.m == m,
{
    ErasureConfig { k: k as usize, m: m as usize }
}

} // verus!
