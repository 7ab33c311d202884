//! Laws of what is said when something goes wrong.
//!
//! `call_ensures(f, args, r)` says that a call of `f` with `args` may return `r`.
use vstd::prelude::*;

use crate::cli::TargetError;
use crate::client::encrypt::DecryptError;
use crate::config::SizeError;
use crate::dataplane::erasure::{CodecError, DecodeError};
use crate::dataplane::{PipelineError, PlanError};
use crate::identity::CorruptKey;
use crate::index::auth::AuthError;
use crate::index::remote::NodeFieldError;
use crate::index::replies::ReplyError;
use crate::index::types::IndexNodeResponse;
use crate::text;

verus! {

/// A request that is not let in is told why.
pub proof fn refused_requests_are_told_why(e: &AuthError, r: String)
    requires
        call_ensures(AuthError::message, (e,), r),
    ensures
        *e == AuthError::MissingTime ==> r@ == "missing x-arkel-time"@,
        *e == AuthError::BadTime ==> r@ == "bad x-arkel-time"@,
        *e == AuthError::OutsideSkew ==> r@ == "x-arkel-time outside skew window"@,
        *e == AuthError::MissingAuthorization ==> r@ == "missing authorization"@,
        *e == AuthError::BadScheme ==> r@ == "bad auth scheme"@,
        *e == AuthError::BadFormat ==> r@ == "bad auth format"@,
        *e == AuthError::BadPubkey ==> r@ == "bad pubkey"@,
        *e == AuthError::BadSignature ==> r@ == "bad signature"@,
        *e == AuthError::BadPubkeyLen ==> r@ == "bad pubkey len"@,
        *e == AuthError::BadSigLen ==> r@ == "bad sig len"@,
        *e == AuthError::Rejected ==> r@ == "signature verification failed"@,
{
}

/// A failed decoding says how many shards it needed and had, or what the codec found.
pub proof fn failed_decodings_say_what_is_missing(
    e: &DecodeError,
    codec: &CodecError,
    r: String,
    s: String,
)
    requires
        call_ensures(DecodeError::message, (e,), r),
        call_ensures(CodecError::message, (codec,), s),
    ensures
        e is NotEnough ==> r@ == "Need at least "@ + text::decimal(e->NotEnough_need as nat)
            + " shards, have "@ + text::decimal(e->NotEnough_have as nat),
        e is WrongCount ==> r@ == "Expected "@ + text::decimal(e->WrongCount_expected as nat)
            + " shards, got "@ + text::decimal(e->WrongCount_got as nat),
        *e == DecodeError::Codec(*codec) ==> r@ == s@,
        *codec == CodecError::TooFewDataShards ==> s@
            == "The number of provided data shards is smaller than the one in codec"@,
        *codec == CodecError::TooFewParityShards ==> s@
            == "The number of provided parity shards is smaller than the one in codec"@,
        *codec == CodecError::TooManyShards ==> s@
            == "The number of provided shards is greater than the one in codec"@,
        *codec == CodecError::TooFewShards ==> s@
            == "The number of provided shards is smaller than the one in codec"@,
        *codec == CodecError::EmptyShard ==> s@ == "The first shard provided is of zero length"@,
        *codec == CodecError::IncorrectShardSize ==> s@
            == "At least one of the provided shards is not of the correct size"@,
{
}

/// A failed upload or download says at which step it failed.
pub proof fn failed_transfers_say_where(
    e: &PipelineError,
    codec: &CodecError,
    decode: &DecodeError,
    decrypt: &DecryptError,
    plan: &PlanError,
    r: String,
    a: String,
    b: String,
    c: String,
    p: String,
)
    requires
        call_ensures(PipelineError::message, (e,), r),
        call_ensures(CodecError::message, (codec,), a),
        call_ensures(DecodeError::message, (decode,), b),
        call_ensures(DecryptError::message, (decrypt,), c),
        call_ensures(PlanError::message, (plan,), p),
    ensures
        *e == PipelineError::Encode(*codec) ==> r@ == a@,
        *e == PipelineError::Decode(*decode) ==> r@ == b@,
        *e == PipelineError::Decrypt(*decrypt) ==> r@ == c@,
        *e == PipelineError::Integrity ==> r@ == "integrity check failed: BLAKE3 mismatch"@,
        *decrypt == DecryptError::TooShort ==> c@ == "encrypted shard too short (missing nonce)"@,
        *decrypt == DecryptError::Failed ==> c@
            == "decryption failed: wrong key or corrupted data"@,
        *plan == PlanError::NoHealthyNodes ==> p@ == "no healthy storage nodes"@,
        *plan == PlanError::NoTargets ==> p@ == "no storage targets to distribute shards to"@,
{
}

/// Input that cannot be read is refused with what is wrong about it.
pub proof fn bad_input_is_named(
    target: &TargetError,
    size: &SizeError,
    key: &CorruptKey,
    t: String,
    s: String,
    k: String,
)
    requires
        call_ensures(TargetError::message, (target,), t),
        call_ensures(SizeError::message, (size,), s),
        call_ensures(CorruptKey::message, (key,), k),
    ensures
        *target == TargetError::Format ==> t@ == "storage-addrs must be <pubkey>@<ip:port>"@,
        *target == TargetError::Key ==> t@ == "bad public key in storage-addrs"@,
        *target == TargetError::Address ==> t@ == "bad socket address in storage-addrs"@,
        size is Bad ==> s@ == "bad size: "@ + size->Bad_0@,
        size is Overflow ==> s@ == "size overflow: "@ + size->Overflow_0@,
        k@ == "Identity key on disk is corrupted (must be exactly 32 bytes)"@,
{
}

/// A reply that cannot be read is refused with what is missing in it.
pub proof fn unreadable_replies_are_named(
    node: &NodeFieldError,
    e: &ReplyError,
    n: String,
    r: String,
)
    requires
        call_ensures(NodeFieldError::message, (node,), n),
        call_ensures(ReplyError::message, (e,), r),
    ensures
        *node == NodeFieldError::MissingNodeId ==> n@ == "missing node_id"@,
        *node == NodeFieldError::MissingAddr ==> n@ == "missing addr"@,
        *node == NodeFieldError::BadNodeId ==> n@ == "bad node_id"@,
        *e == ReplyError::Node(*node) ==> r@ == n@,
        *e == ReplyError::NotAnArray ==> r@ == "expected an array"@,
        *e == ReplyError::BadBucket ==> r@ == "bad bucket"@,
        *e == ReplyError::BadKey ==> r@ == "bad key"@,
        *e == ReplyError::BadManifestBytes ==> r@ == "bad manifest_bytes"@,
        *e == ReplyError::BadSignature ==> r@ == "bad signature"@,
{
}

/// A response says that a command was carried out, or why it was not.
pub proof fn responses_say_what_happened(
    why: &str,
    each: Vec<IndexNodeResponse>,
    ok: IndexNodeResponse,
    err: IndexNodeResponse,
    batch: IndexNodeResponse,
)
    requires
        call_ensures(IndexNodeResponse::ok, (), ok),
        call_ensures(IndexNodeResponse::err, (why,), err),
        call_ensures(IndexNodeResponse::batch, (each,), batch),
    ensures
        ok.success && ok.error is None && ok.batch_responses is None,
        !err.success && err.error is Some && err.error->0@ == why@ && err.batch_responses is None,
        batch.success && batch.error is None && batch.batch_responses == Some(each),
{
}

} // verus!
