//! Erasure coding: an object as `k` data shards and `m` parity shards, any `k` of
//! which give it back.
use reed_solomon_erasure::galois_8::ReedSolomon;
use reed_solomon_erasure::Error;
use vstd::prelude::*;
use vstd::string::StringExecFns;

use crate::bytes;
use crate::text;

verus! {

/// How many data and parity shards an object is cut into.
#[derive(Debug, Clone, Copy, PartialEq, Eq, Structural)]
pub struct ErasureConfig {
    /// Number of data shards.
    pub k: usize,
    /// Number of parity shards.
    pub m: usize,
}

impl ErasureConfig {
    /// Data and parity shards together.
    pub fn total_shards(&self) -> (r: usize)
        requires
            self.k + self.m <= usize::MAX,
        ensures
            r == self.k + self.m,
    {
        self.k + self.m
    }
}

/// Why the codec turned its input down.
#[derive(Debug, Clone, Copy, PartialEq, Eq, Structural)]
pub enum CodecError {
    TooFewDataShards,
    TooFewParityShards,
    TooManyShards,
    TooFewShards,
    EmptyShard,
    IncorrectShardSize,
    TooFewShardsPresent,
    Other,
}

impl CodecError {
    /// What went wrong, in words.
    pub open spec fn words(&self) -> Seq<char> {
        match *self {
            CodecError::TooFewDataShards =>
                "The number of provided data shards is smaller than the one in codec"@,
            CodecError::TooFewParityShards =>
                "The number of provided parity shards is smaller than the one in codec"@,
            CodecError::TooManyShards =>
                "The number of provided shards is greater than the one in codec"@,
            CodecError::TooFewShards =>
                "The number of provided shards is smaller than the one in codec"@,
            CodecError::EmptyShard => "The first shard provided is of zero length"@,
            CodecError::IncorrectShardSize =>
                "At least one of the provided shards is not of the correct size"@,
            CodecError::TooFewShardsPresent =>
                "The number of shards present is smaller than number of parity shards, cannot reconstruct missing shards"@,
            CodecError::Other => "The codec failed"@,
        }
    }

    /// What went wrong, in words.
    pub fn message(&self) -> (r: String)
        ensures
            r@ == self.words(),
    {
        match self {
            CodecError::TooFewDataShards => text::owned(
                "The number of provided data shards is smaller than the one in codec",
            ),
            CodecError::TooFewParityShards => text::owned(
                "The number of provided parity shards is smaller than the one in codec",
            ),
            CodecError::TooManyShards => text::owned(
                "The number of provided shards is greater than the one in codec",
            ),
            CodecError::TooFewShards => text::owned(
                "The number of provided shards is smaller than the one in codec",
            ),
            CodecError::EmptyShard => text::owned("The first shard provided is of zero length"),
            CodecError::IncorrectShardSize => text::owned(
                "At least one of the provided shards is not of the correct size",
            ),
            CodecError::TooFewShardsPresent => text::owned(
                "The number of shards present is smaller than number of parity shards, cannot reconstruct missing shards",
            ),
            CodecError::Other => text::owned("The codec failed"),
        }
    }
}

/// Why shards could not be decoded.
#[derive(Debug, Clone, Copy, PartialEq, Eq, Structural)]
pub enum DecodeError {
    /// Not as many places as the configuration has shards.
    WrongCount { expected: usize, got: usize },
    /// Not enough shards present.
    NotEnough { need: usize, have: usize },
    /// The codec turned the shards down.
    Codec(CodecError),
}

impl DecodeError {
    /// What went wrong, in words.
    pub open spec fn words(&self) -> Seq<char> {
        match *self {
            DecodeError::WrongCount { expected, got } => "Expected "@ + text::decimal(
                expected as nat,
            ) + " shards, got "@ + text::decimal(got as nat),
            DecodeError::NotEnough { need, have } => "Need at least "@ + text::decimal(need as nat)
                + " shards, have "@ + text::decimal(have as nat),
            DecodeError::Codec(e) => e.words(),
        }
    }

    /// What went wrong, in words.
    pub fn message(&self) -> (r: String)
        ensures
            r@ == self.words(),
    {
        match self {
            DecodeError::WrongCount { expected, got } => {
                let mut out = text::join3(
                    "Expected ",
                    text::decimal_of(*expected as u64).as_str(),
                    " shards, got ",
                );
                out.append(text::decimal_of(*got as u64).as_str());
                out
            },
            DecodeError::NotEnough { need, have } => {
                let mut out = text::join3(
                    "Need at least ",
                    text::decimal_of(*need as u64).as_str(),
                    " shards, have ",
                );
                out.append(text::decimal_of(*have as u64).as_str());
                out
            },
            DecodeError::Codec(e) => e.message(),
        }
    }
}

/// Shards in their places, by contents; `None` where one is missing.
pub type Pieces = Seq<Option<Seq<u8>>>;

/// How many shards are present.
pub open spec fn present(pieces: Pieces) -> nat
    decreases pieces.len(),
{
    if pieces.len() == 0 {
        0
    } else {
        present(pieces.drop_last()) + if pieces.last() is Some {
            1nat
        } else {
            0nat
        }
    }
}

/// The length of the last shard that is present.
pub open spec fn piece_size(pieces: Pieces) -> Option<nat>
    decreases pieces.len(),
{
    if pieces.len() == 0 {
        None
    } else {
        match pieces.last() {
            Some(s) => Some(s.len()),
            None => piece_size(pieces.drop_last()),
        }
    }
}

/// The first fault in the lengths of the shards that are present.
pub open spec fn size_fault(pieces: Pieces) -> Option<CodecError>
    decreases pieces.len(),
{
    if pieces.len() == 0 {
        None
    } else {
        match size_fault(pieces.drop_last()) {
            Some(e) => Some(e),
            None => match pieces.last() {
                None => None,
                Some(s) => if s.len() == 0 {
                    Some(CodecError::EmptyShard)
                } else if piece_size(pieces.drop_last()) is Some && piece_size(
                    pieces.drop_last(),
                )->0 != s.len() {
                    Some(CodecError::IncorrectShardSize)
                } else {
                    None
                },
            },
        }
    }
}

/// Why a codec cannot be made for `k` data and `m` parity shards.
pub open spec fn config_fault(k: nat, m: nat) -> Option<CodecError> {
    if k == 0 {
        Some(CodecError::TooFewDataShards)
    } else if m == 0 {
        Some(CodecError::TooFewParityShards)
    } else if k + m > 256 {
        Some(CodecError::TooManyShards)
    } else {
        None
    }
}

/// Why the codec does not encode some shards.
pub open spec fn encode_fault(k: nat, m: nat, shards: Seq<Seq<u8>>) -> Option<CodecError> {
    if config_fault(k, m) is Some {
        config_fault(k, m)
    } else if shards.len() < k + m {
        Some(CodecError::TooFewShards)
    } else if shards.len() > k + m {
        Some(CodecError::TooManyShards)
    } else if shards[0].len() == 0 {
        Some(CodecError::EmptyShard)
    } else if exists|i: int| 0 <= i < shards.len() && (#[trigger] shards[i]).len() != shards[0].len() {
        Some(CodecError::IncorrectShardSize)
    } else {
        None
    }
}

/// Why the codec does not restore some shards.
pub open spec fn restore_fault(k: nat, m: nat, pieces: Pieces) -> Option<CodecError> {
    if config_fault(k, m) is Some {
        config_fault(k, m)
    } else if pieces.len() < k + m {
        Some(CodecError::TooFewShards)
    } else if pieces.len() > k + m {
        Some(CodecError::TooManyShards)
    } else if size_fault(pieces) is Some {
        size_fault(pieces)
    } else if present(pieces) < k {
        Some(CodecError::TooFewShardsPresent)
    } else {
        None
    }
}

/// Whether the shards that are present are those of a full list.
pub open spec fn taken_from(pieces: Pieces, shards: Seq<Seq<u8>>) -> bool {
    pieces.len() == shards.len() && forall|i: int|
        0 <= i < pieces.len() && (#[trigger] pieces[i]) is Some ==> pieces[i]->0 == shards[i]
}

/// The parity shards of some data shards.
pub uninterp spec fn parity_of(k: nat, m: nat, data: Seq<Seq<u8>>) -> Seq<Seq<u8>>;

/// The full list of shards that the present ones determine.
pub uninterp spec fn restored_of(k: nat, m: nat, pieces: Pieces) -> Seq<Seq<u8>>;

/// `reed_solomon_erasure::ReedSolomon::new` and `encode`, over the field of 256
/// elements: the first `k` shards stay, the other `m` become the parity of these.
/// From any `k` of the result `reconstruct` gives back all of it.
#[verifier::external_body]
fn codec_encode(k: usize, m: usize, shards: Vec<Vec<u8>>) -> (r: Result<Vec<Vec<u8>>, CodecError>)
    requires
        k + m <= usize::MAX,
    ensures
        r is Ok <==> encode_fault(k as nat, m as nat, bytes::contents(shards@)) is None,
        r is Err ==> r->Err_0 == encode_fault(k as nat, m as nat, bytes::contents(shards@))->0,
        r matches Ok(all) ==> {
            let data = bytes::contents(shards@).take(k as int);
            let full = bytes::contents(all@);
            &&& full == data + parity_of(k as nat, m as nat, data)
            &&& full.len() == k + m
            &&& forall|i: int| 0 <= i < full.len() ==> (#[trigger] full[i]).len() == data[0].len()
            &&& forall|pieces: Pieces|
                taken_from(pieces, full) && present(pieces) >= k ==> #[trigger] restored_of(
                    k as nat,
                    m as nat,
                    pieces,
                ) == full
        },
{
    let mut shards = shards;
    match ReedSolomon::new(k, m).and_then(|codec| codec.encode(&mut shards)) {
        Ok(()) => Ok(shards),
        Err(Error::TooFewDataShards) => Err(CodecError::TooFewDataShards),
        Err(Error::TooFewParityShards) => Err(CodecError::TooFewParityShards),
        Err(Error::TooManyShards) => Err(CodecError::TooManyShards),
        Err(Error::TooFewShards) => Err(CodecError::TooFewShards),
        Err(Error::EmptyShard) => Err(CodecError::EmptyShard),
        Err(Error::IncorrectShardSize) => Err(CodecError::IncorrectShardSize),
        Err(_) => Err(CodecError::Other),
    }
}

/// Shards in their places, by contents.
pub open spec fn owned_pieces(shards: Seq<Option<Vec<u8>>>) -> Pieces {
    shards.map_values(
        |s: Option<Vec<u8>>|
            match s {
                Some(v) => Some(v@),
                None => None,
            },
    )
}

/// Borrowed shards in their places, by contents.
pub open spec fn pieces_of(shards: Seq<Option<&[u8]>>) -> Pieces {
    shards.map_values(
        |s: Option<&[u8]>|
            match s {
                Some(v) => Some(v@),
                None => None,
            },
    )
}

/// `reed_solomon_erasure::ReedSolomon::new` and `reconstruct`, over the field of
/// 256 elements: the missing shards are filled in, those that are present stay,
/// and all have one length. The result is a function of the arguments.
#[verifier::external_body]
fn codec_restore(k: usize, m: usize, shards: Vec<Option<Vec<u8>>>) -> (r: Result<
    Vec<Option<Vec<u8>>>,
    CodecError,
>)
    requires
        k + m <= usize::MAX,
    ensures
        r is Ok <==> restore_fault(k as nat, m as nat, owned_pieces(shards@)) is None,
        r is Err ==> r->Err_0 == restore_fault(k as nat, m as nat, owned_pieces(shards@))->0,
        r matches Ok(all) ==> {
            let pieces = owned_pieces(shards@);
            let full = restored_of(k as nat, m as nat, pieces);
            &&& all@.len() == k + m
            &&& full.len() == k + m
            &&& taken_from(pieces, full)
            &&& forall|i: int|
                0 <= i < all@.len() ==> (#[trigger] all@[i]) is Some && all@[i]->0@ == full[i]
            &&& forall|i: int| 0 <= i < full.len() ==> (#[trigger] full[i]).len() == full[0].len()
        },
{
    let mut shards = shards;
    match ReedSolomon::new(k, m).and_then(|codec| codec.reconstruct(&mut shards)) {
        Ok(()) => Ok(shards),
        Err(Error::TooFewDataShards) => Err(CodecError::TooFewDataShards),
        Err(Error::TooFewParityShards) => Err(CodecError::TooFewParityShards),
        Err(Error::TooManyShards) => Err(CodecError::TooManyShards),
        Err(Error::TooFewShards) => Err(CodecError::TooFewShards),
        Err(Error::EmptyShard) => Err(CodecError::EmptyShard),
        Err(Error::IncorrectShardSize) => Err(CodecError::IncorrectShardSize),
        Err(Error::TooFewShardsPresent) => Err(CodecError::TooFewShardsPresent),
        Err(_) => Err(CodecError::Other),
    }
}

/// The length of a shard: an object is spread evenly, rounded up.
pub open spec fn shard_size(len: nat, k: nat) -> nat {
    ((len + k - 1) / k as int) as nat
}

/// One data shard: its part of the object, filled up with zeros.
pub open spec fn data_shard(data: Seq<u8>, k: nat, i: int) -> Seq<u8> {
    let size = shard_size(data.len(), k);
    Seq::new(
        size,
        |j: int|
            if i * size + j < data.len() {
                data[i * size + j]
            } else {
                0u8
            },
    )
}

/// The data shards of an object.
pub open spec fn data_shards(data: Seq<u8>, k: nat) -> Seq<Seq<u8>> {
    Seq::new(k, |i: int| data_shard(data, k, i))
}

/// The shards of an object: data, then parity.
pub open spec fn encoded(data: Seq<u8>, k: nat, m: nat) -> Result<Seq<Seq<u8>>, CodecError> {
    if config_fault(k, m) is Some {
        Err(config_fault(k, m)->0)
    } else if data.len() == 0 {
        Err(CodecError::EmptyShard)
    } else {
        Ok(data_shards(data, k) + parity_of(k, m, data_shards(data, k)))
    }
}

/// Byte strings, one behind the other.
pub open spec fn joined(parts: Seq<Seq<u8>>) -> Seq<u8>
    decreases parts.len(),
{
    if parts.len() == 0 {
        seq![]
    } else {
        joined(parts.drop_last()) + parts.last()
    }
}

/// The first bytes of a string, at most `len`.
pub open spec fn clipped(s: Seq<u8>, len: nat) -> Seq<u8> {
    if len < s.len() {
        s.take(len as int)
    } else {
        s
    }
}

/// The object that some shards give back.
pub open spec fn decoded(pieces: Pieces, config: ErasureConfig, len: nat) -> Result<
    Seq<u8>,
    DecodeError,
> {
    let k = config.k as nat;
    let m = config.m as nat;
    if pieces.len() != k + m {
        Err(DecodeError::WrongCount { expected: (k + m) as usize, got: pieces.len() as usize })
    } else if present(pieces) < k {
        Err(DecodeError::NotEnough { need: config.k, have: present(pieces) as usize })
    } else if restore_fault(k, m, pieces) is Some {
        Err(DecodeError::Codec(restore_fault(k, m, pieces)->0))
    } else {
        Ok(clipped(joined(restored_of(k, m, pieces).take(k as int)), len))
    }
}

proof fn lemma_shard_size(len: nat, k: nat)
    requires
        k > 0,
    ensures
        len <= k * shard_size(len, k) <= len + k - 1,
        shard_size(len, k) == 0 <==> len == 0,
{
    let size = shard_size(len, k);
    assert(k * size <= len + k - 1 && len + k - 1 < k * size + k) by (nonlinear_arith)
        requires
            k > 0,
            size == (len + k - 1) / k as int,
    ;
    if len == 0 {
        assert(size == 0) by (nonlinear_arith)
            requires
                k > 0,
                k * size <= k - 1,
                size >= 0,
        ;
    }
    if size == 0 {
        assert(k * size == 0) by (nonlinear_arith)
            requires
                size == 0,
        ;
    }
}

/// Cuts an object into data shards and adds the parity shards.
pub fn encode(data: &[u8], config: &ErasureConfig) -> (r: Result<Vec<Vec<u8>>, CodecError>)
    requires
        config.k >= 1,
        config.k + config.m <= usize::MAX,
        data@.len() + config.k <= usize::MAX,
    ensures
        match encoded(data@, config.k as nat, config.m as nat) {
            Ok(shards) => r is Ok && bytes::contents(r->Ok_0@) == shards,
            Err(e) => r == Err::<Vec<Vec<u8>>, CodecError>(e),
        },
        r matches Ok(shards) ==> {
            &&& shards@.len() == config.k + config.m
            &&& forall|i: int|
                0 <= i < shards@.len() ==> (#[trigger] shards@[i])@.len() == shard_size(
                    data@.len(),
                    config.k as nat,
                )
            &&& forall|pieces: Pieces|
                #![trigger taken_from(pieces, bytes::contents(shards@))]
                taken_from(pieces, bytes::contents(shards@)) && present(pieces) >= config.k
                    ==> decoded(pieces, *config, data@.len()) == Ok::<Seq<u8>, DecodeError>(data@)
        },
{
    let k: usize = config.k;
    let shard_len: usize = (data.len() + k - 1) / k;
    let ghost size = shard_size(data@.len(), k as nat);
    proof {
        lemma_shard_size(data@.len(), k as nat);
    }
    let mut all: Vec<Vec<u8>> = Vec::new();
    let mut i: usize = 0;
    while i < k
        invariant
            i <= k,
            k >= 1,
            shard_len == size,
            size == shard_size(data@.len(), k as nat),
            k * size <= usize::MAX,
            all@.len() == i,
            forall|p: int| 0 <= p < i ==> (#[trigger] all@[p])@ == data_shard(data@, k as nat, p),
        decreases k - i,
    {
        let mut shard: Vec<u8> = Vec::new();
        proof {
            assert((i + 1) * size <= k * size && (i + 1) * size == i * size + size
                && i * size >= 0) by (nonlinear_arith)
                requires
                    0 <= i < k,
                    size >= 0,
            ;
        }
        let start: usize = i * shard_len;
        let mut j: usize = 0;
        while j < shard_len
            invariant
                j <= shard_len,
                shard_len == size,
                size == shard_size(data@.len(), k as nat),
                start == i * size,
                start + shard_len <= usize::MAX,
                shard@ == data_shard(data@, k as nat, i as int).take(j as int),
            decreases shard_len - j,
        {
            let b: u8 = if start + j < data.len() {
                data[start + j]
            } else {
                0
            };
            shard.push(b);
            j = j + 1;
            assert(shard@ =~= data_shard(data@, k as nat, i as int).take(j as int));
        }
        assert(shard@ =~= data_shard(data@, k as nat, i as int));
        all.push(shard);
        i = i + 1;
    }
    let total: usize = config.total_shards();
    while i < total
        invariant
            k <= i <= total,
            total == k + config.m,
            shard_len == size,
            all@.len() == i,
            forall|p: int| 0 <= p < k ==> (#[trigger] all@[p])@ == data_shard(data@, k as nat, p),
            forall|p: int| k <= p < i ==> (#[trigger] all@[p])@.len() == size,
        decreases total - i,
    {
        let zeros: Vec<u8> = vec![0u8; shard_len];
        all.push(zeros);
        i = i + 1;
    }
    let ghost given = bytes::contents(all@);
    proof {
        assert(given.take(k as int) =~= data_shards(data@, k as nat));
        if config_fault(k as nat, config.m as nat) is None {
            assert(given[0].len() == size);
            assert forall|p: int| 0 <= p < given.len() implies (#[trigger] given[p]).len()
                == size by {
                assert(given[p] == all@[p]@);
            }
        }
    }
    let r = codec_encode(k, config.m, all);
    proof {
        if r is Ok {
            let shards = r->Ok_0;
            let full = bytes::contents(shards@);
            assert(full.take(k as int) =~= given.take(k as int));
            assert forall|p: int| 0 <= p < shards@.len() implies (#[trigger] shards@[p])@.len()
                == size by {
                assert(full[p] == shards@[p]@);
                assert(given.take(k as int)[0].len() == size);
            }
            assert forall|pieces: Pieces|
                #![trigger taken_from(pieces, full)]
                taken_from(pieces, full) && present(pieces) >= config.k implies decoded(
                pieces,
                *config,
                data@.len(),
            ) == Ok::<Seq<u8>, DecodeError>(data@) by {
                lemma_decodes(pieces, full, data@, *config);
            }
        }
    }
    r
}

/// Shards of one length, none of them empty, have no fault.
proof fn lemma_no_size_fault(pieces: Pieces, shards: Seq<Seq<u8>>, size: nat)
    requires
        taken_from(pieces, shards),
        size > 0,
        forall|i: int| 0 <= i < shards.len() ==> (#[trigger] shards[i]).len() == size,
    ensures
        size_fault(pieces) is None,
        piece_size(pieces) is Some ==> piece_size(pieces)->0 == size,
    decreases pieces.len(),
{
    if pieces.len() > 0 {
        let p = pieces.drop_last();
        let s = shards.drop_last();
        assert forall|i: int| 0 <= i < p.len() && (#[trigger] p[i]) is Some implies p[i]->0
            == s[i] by {
            assert(pieces[i] is Some);
        }
        assert forall|i: int| 0 <= i < s.len() implies (#[trigger] s[i]).len() == size by {
            assert(shards[i].len() == size);
        }
        lemma_no_size_fault(p, s, size);
        if pieces.last() is Some {
            assert(pieces[pieces.len() - 1] is Some);
            assert(shards[shards.len() - 1].len() == size);
        }
    }
}

/// Strings of one length, one behind the other: where each byte stands.
proof fn lemma_joined(parts: Seq<Seq<u8>>, size: nat, i: int, j: int)
    requires
        forall|p: int| 0 <= p < parts.len() ==> (#[trigger] parts[p]).len() == size,
        0 <= i < parts.len(),
        0 <= j < size,
    ensures
        joined(parts).len() == parts.len() * size,
        i * size + j < joined(parts).len(),
        joined(parts)[i * size + j] == parts[i][j],
    decreases parts.len(),
{
    let n = (parts.len() - 1) as int;
    let front = parts.drop_last();
    lemma_joined_len(parts, size);
    lemma_joined_len(front, size);
    assert(i * size + j < (i + 1) * size && (i + 1) * size <= (n + 1) * size && n * size + size
        == (n + 1) * size && i * size >= 0) by (nonlinear_arith)
        requires
            0 <= i <= n,
            0 <= j < size,
    ;
    if i < n {
        assert forall|p: int| 0 <= p < front.len() implies (#[trigger] front[p]).len() == size by {
            assert(parts[p].len() == size);
        }
        lemma_joined(front, size, i, j);
        assert(front[i][j] == parts[i][j]);
    }
}

proof fn lemma_joined_len(parts: Seq<Seq<u8>>, size: nat)
    requires
        forall|p: int| 0 <= p < parts.len() ==> (#[trigger] parts[p]).len() == size,
    ensures
        joined(parts).len() == parts.len() * size,
    decreases parts.len(),
{
    if parts.len() > 0 {
        let n = (parts.len() - 1) as int;
        let front = parts.drop_last();
        assert forall|p: int| 0 <= p < front.len() implies (#[trigger] front[p]).len() == size by {
            assert(parts[p].len() == size);
        }
        lemma_joined_len(front, size);
        assert(parts[n].len() == size);
        assert(n * size + size == (n + 1) * size) by (nonlinear_arith);
    } else {
        assert(parts.len() * size == 0) by (nonlinear_arith)
            requires
                parts.len() == 0,
        ;
    }
}

proof fn lemma_joined_data(data: Seq<u8>, k: nat)
    requires
        k > 0,
    ensures
        clipped(joined(data_shards(data, k)), data.len()) == data,
{
    let size = shard_size(data.len(), k);
    let parts = data_shards(data, k);
    lemma_shard_size(data.len(), k);
    assert forall|i: int| 0 <= i < parts.len() implies (#[trigger] parts[i]).len() == size by {}
    lemma_joined_len(parts, size);
    let all = joined(parts);
    assert forall|p: int| 0 <= p < data.len() implies all[p] == data[p] by {
        let i = p / size as int;
        let j = p % size as int;
        assert(p == i * size + j && 0 <= j < size && 0 <= i < k) by (nonlinear_arith)
            requires
                size > 0,
                0 <= p < k * size,
                i == p / size as int,
                j == p % size as int,
        ;
        assert(parts[i][j] == data_shard(data, k, i)[j]);
        lemma_joined(parts, size, i, j);
    }
    assert(clipped(all, data.len()) =~= data);
}

proof fn lemma_decodes(
    pieces: Pieces,
    full: Seq<Seq<u8>>,
    data: Seq<u8>,
    config: ErasureConfig,
)
    requires
        config.k >= 1,
        data.len() > 0,
        config_fault(config.k as nat, config.m as nat) is None,
        taken_from(pieces, full),
        present(pieces) >= config.k,
        full.len() == config.k + config.m,
        full.take(config.k as int) == data_shards(data, config.k as nat),
        forall|i: int|
            0 <= i < full.len() ==> (#[trigger] full[i]).len() == shard_size(
                data.len(),
                config.k as nat,
            ),
        restored_of(config.k as nat, config.m as nat, pieces) == full,
    ensures
        decoded(pieces, config, data.len()) == Ok::<Seq<u8>, DecodeError>(data),
{
    lemma_shard_size(data.len(), config.k as nat);
    lemma_no_size_fault(pieces, full, shard_size(data.len(), config.k as nat));
    lemma_joined_data(data, config.k as nat);
}

/// Gives an object of `original_len` bytes back from its shards, where enough of
/// them are there.
pub fn decode(
    shards: &[Option<&[u8]>],
    config: &ErasureConfig,
    original_len: usize,
) -> (r: Result<Vec<u8>, DecodeError>)
    requires
        config.k + config.m <= usize::MAX,
    ensures
        match decoded(pieces_of(shards@), *config, original_len as nat) {
            Ok(data) => r is Ok && r->Ok_0@ == data,
            Err(e) => r == Err::<Vec<u8>, DecodeError>(e),
        },
{
    let total: usize = config.k + config.m;
    let ghost pieces = pieces_of(shards@);
    if shards.len() != total {
        return Err(DecodeError::WrongCount { expected: total, got: shards.len() });
    }
    let mut owned: Vec<Option<Vec<u8>>> = Vec::new();
    let mut have: usize = 0;
    let mut i: usize = 0;
    while i < shards.len()
        invariant
            i <= shards@.len(),
            pieces == pieces_of(shards@),
            have == present(pieces.take(i as int)),
            have <= i,
            owned@.len() == i,
            owned_pieces(owned@) =~= pieces.take(i as int),
        decreases shards@.len() - i,
    {
        assert(pieces.take(i + 1).drop_last() =~= pieces.take(i as int));
        match shards[i] {
            Some(s) => {
                owned.push(Some(bytes::to_vec(s)));
                have = have + 1;
            },
            None => {
                owned.push(None);
            },
        }
        i = i + 1;
    }
    assert(pieces.take(i as int) =~= pieces);
    if have < config.k {
        return Err(DecodeError::NotEnough { need: config.k, have });
    }
    let full = match codec_restore(config.k, config.m, owned) {
        Ok(full) => full,
        Err(e) => {
            return Err(DecodeError::Codec(e));
        },
    };
    let ghost all = restored_of(config.k as nat, config.m as nat, pieces);
    let mut result: Vec<u8> = Vec::new();
    let mut i: usize = 0;
    assert(joined(all.take(0)) =~= Seq::<u8>::empty());
    while i < config.k
        invariant
            i <= config.k <= full@.len(),
            full@.len() == all.len(),
            forall|p: int|
                0 <= p < full@.len() ==> (#[trigger] full@[p]) is Some && full@[p]->0@ == all[p],
            result@ == joined(all.take(i as int)),
        decreases config.k - i,
    {
        assert(full@[i as int] is Some);
        if let Some(s) = &full[i] {
            result.extend_from_slice(s.as_slice());
            proof {
                assert(all.take(i + 1).drop_last() =~= all.take(i as int));
                assert(result@ =~= joined(all.take(i + 1)));
            }
        }
        i = i + 1;
    }
    result.truncate(original_len);
    Ok(result)
}

} // verus!
