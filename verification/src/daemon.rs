//! The channel to the full node: where its credential comes from, how a
//! call is authenticated, and what to do when a call fails.

use vstd::prelude::*;
use vstd::string::StringExecFns;

verus! {

/// Where the credential for the daemon's RPC comes from.
#[derive(Clone, Debug, PartialEq, Eq)]
pub enum CookieSource {
    /// Fixed bytes, `user:password`, used as they are on every call.
    Static(Vec<u8>),
    /// The file `.cookie` in the daemon's data directory, whose components
    /// these are. It is read anew for every call, since the daemon rotates it.
    File(Vec<String>),
}

/// Why a call to the daemon, or a step that depends on one, failed.
#[derive(Clone, Copy, Debug, PartialEq, Eq, Structural)]
pub enum Failure {
    /// The connection was refused, reset or cut.
    Transport,
    /// The credential could not be read.
    Credential,
    /// The daemon is there but cannot serve yet: it is starting or still
    /// catching up with the chain.
    NotReady,
    /// The daemon rejected the request: it is malformed or not supported.
    Rejected,
    /// The store failed, or what it holds cannot be read.
    Store,
    /// What was asked for is not there, where that is a valid answer.
    NotFound,
    /// The daemon's chain left the local one further back than allowed.
    ReorgTooDeep,
}

/// The kinds of error that callers tell apart.
#[derive(Clone, Copy, Debug, PartialEq, Eq, Structural)]
pub enum ErrorKind {
    Connection,
    DaemonRpc,
    Store,
    NotFound,
}

/// What a loop does after a failure.
#[derive(Clone, Copy, Debug, PartialEq, Eq, Structural)]
pub enum Reaction {
    /// Try again after this many milliseconds.
    RetryAfter(u64),
    /// Give this call up; the loop goes on.
    Abandon,
    /// Stop the process.
    Fatal,
}

/// The code with which the daemon says that it is still warming up.
pub const RPC_IN_WARMUP: i64 = -28;

/// The shortest and the longest wait between two tries, in milliseconds.
pub const BACKOFF_BASE_MS: u64 = 500;

pub const BACKOFF_MAX_MS: u64 = 60_000;

/// The longest credential, in bytes, that a call carries.
pub const MAX_COOKIE_LEN: usize = 0x10_0000;

/// The kind of a failure.
pub open spec fn kind_of(f: Failure) -> ErrorKind {
    match f {
        Failure::Transport => ErrorKind::Connection,
        Failure::Credential => ErrorKind::Connection,
        Failure::NotReady => ErrorKind::DaemonRpc,
        Failure::Rejected => ErrorKind::DaemonRpc,
        Failure::Store => ErrorKind::Store,
        Failure::NotFound => ErrorKind::NotFound,
        Failure::ReorgTooDeep => ErrorKind::Store,
    }
}

/// Whether trying again may help: after a transport failure, and while the
/// daemon is not ready.
pub open spec fn is_retryable(f: Failure) -> bool {
    f == Failure::Transport || f == Failure::NotReady
}

/// Whether the process cannot go on: the store failed, or the chain was
/// reorganised deeper than the tracker may follow.
pub open spec fn is_fatal(f: Failure) -> bool {
    f == Failure::Store || f == Failure::ReorgTooDeep
}

/// Two to the power of `n`.
pub open spec fn pow2(n: nat) -> nat
    decreases n,
{
    if n == 0 {
        1
    } else {
        2 * pow2((n - 1) as nat)
    }
}

/// The wait before try number `attempt`, counted from 0: the base wait,
/// doubled with each try, up to the longest wait.
pub open spec fn backoff_ms(attempt: nat) -> int {
    if BACKOFF_BASE_MS * pow2(attempt) < BACKOFF_MAX_MS {
        BACKOFF_BASE_MS * pow2(attempt)
    } else {
        BACKOFF_MAX_MS as int
    }
}

/// What a loop does after a failure at try number `attempt`.
pub open spec fn reaction_to(f: Failure, attempt: nat) -> Reaction {
    if is_fatal(f) {
        Reaction::Fatal
    } else if is_retryable(f) {
        Reaction::RetryAfter(backoff_ms(attempt) as u64)
    } else {
        Reaction::Abandon
    }
}

/// The failure that an error code of the daemon stands for.
pub open spec fn rpc_failure(code: i64) -> Failure {
    if code == RPC_IN_WARMUP {
        Failure::NotReady
    } else {
        Failure::Rejected
    }
}

/// Powers of two grow.
pub proof fn lemma_pow2_grows(a: nat, b: nat)
    requires
        a <= b,
    ensures
        pow2(a) <= pow2(b),
        pow2(a) >= 1,
    decreases b,
{
    if a < b {
        lemma_pow2_grows(a, (b - 1) as nat);
    } else {
        lemma_pow2_positive(a);
    }
}

proof fn lemma_pow2_positive(a: nat)
    ensures
        pow2(a) >= 1,
    decreases a,
{
    if a > 0 {
        lemma_pow2_positive((a - 1) as nat);
    }
}

/// The wait never shrinks from one try to the next and never exceeds the
/// longest wait.
pub proof fn lemma_backoff_monotone(a: nat, b: nat)
    requires
        a <= b,
    ensures
        backoff_ms(a) <= backoff_ms(b),
        BACKOFF_BASE_MS <= backoff_ms(a) <= BACKOFF_MAX_MS,
{
    lemma_pow2_grows(a, b);
    lemma_pow2_grows(0, a);
    assert(BACKOFF_BASE_MS * pow2(a) <= BACKOFF_BASE_MS * pow2(b)) by (nonlinear_arith)
        requires
            pow2(a) <= pow2(b),
    ;
    assert(BACKOFF_BASE_MS * pow2(a) >= BACKOFF_BASE_MS) by (nonlinear_arith)
        requires
            pow2(a) >= 1,
    ;
}

impl Failure {
    /// The kind of the failure.
    pub fn kind(&self) -> (k: ErrorKind)
        ensures
            k == kind_of(*self),
    {
        match self {
            Failure::Transport => ErrorKind::Connection,
            Failure::Credential => ErrorKind::Connection,
            Failure::NotReady => ErrorKind::DaemonRpc,
            Failure::Rejected => ErrorKind::DaemonRpc,
            Failure::Store => ErrorKind::Store,
            Failure::NotFound => ErrorKind::NotFound,
            Failure::ReorgTooDeep => ErrorKind::Store,
        }
    }

    /// Whether trying again may help.
    pub fn retryable(&self) -> (b: bool)
        ensures
            b == is_retryable(*self),
    {
        match self {
            Failure::Transport => true,
            Failure::NotReady => true,
            _ => false,
        }
    }

    /// Whether the process cannot go on.
    pub fn fatal(&self) -> (b: bool)
        ensures
            b == is_fatal(*self),
    {
        match self {
            Failure::Store => true,
            Failure::ReorgTooDeep => true,
            _ => false,
        }
    }

    /// The failure that an error code of the daemon stands for.
    pub fn from_rpc_code(code: i64) -> (f: Failure)
        ensures
            f == rpc_failure(code),
    {
        if code == RPC_IN_WARMUP {
            Failure::NotReady
        } else {
            Failure::Rejected
        }
    }
}

/// The wait before try number `attempt`, in milliseconds.
pub fn backoff(attempt: u32) -> (ms: u64)
    ensures
        ms == backoff_ms(attempt as nat),
{
    let mut ms: u64 = BACKOFF_BASE_MS;
    let mut i: u32 = 0;
    while i < attempt && ms < BACKOFF_MAX_MS
        invariant
            i <= attempt,
            ms <= BACKOFF_MAX_MS,
            ms == backoff_ms(i as nat),
            ms < BACKOFF_MAX_MS ==> ms == BACKOFF_BASE_MS * pow2(i as nat),
        decreases attempt - i,
    {
        ms = ms * 2;
        if ms > BACKOFF_MAX_MS {
            ms = BACKOFF_MAX_MS;
        }
        i += 1;
    }
    proof {
        if i < attempt {
            lemma_backoff_monotone(i as nat, attempt as nat);
        }
    }
    ms
}

/// What a loop does after a failure at try number `attempt`, counted
/// from 0: it stops the process after a fatal failure, tries again after a
/// wait where that may help, and gives the call up otherwise.
pub fn react(f: Failure, attempt: u32) -> (r: Reaction)
    ensures
        r == reaction_to(f, attempt as nat),
{
    if f.fatal() {
        Reaction::Fatal
    } else if f.retryable() {
        Reaction::RetryAfter(backoff(attempt))
    } else {
        Reaction::Abandon
    }
}

impl CookieSource {
    /// The credential for one call: the fixed bytes, or what was just read
    /// from the cookie file. A file that could not be read is a failure.
    pub fn get(&self, file: Option<Vec<u8>>) -> (r: Result<Vec<u8>, Failure>)
        ensures
            match *self {
                CookieSource::Static(value) => r matches Ok(bytes) && bytes@ == value@,
                CookieSource::File(_) => match file {
                    Some(contents) => r matches Ok(bytes) && bytes@ == contents@,
                    None => r == Err::<Vec<u8>, Failure>(Failure::Credential),
                },
            },
    {
        match self {
            CookieSource::Static(value) => {
                let mut bytes: Vec<u8> = Vec::new();
                let mut i: usize = 0;
                while i < value.len()
                    invariant
                        i <= value@.len(),
                        bytes@ == value@.take(i as int),
                    decreases value@.len() - i,
                {
                    bytes.push(value[i]);
                    assert(value@.take(i + 1) =~= value@.take(i as int).push(value@[i as int]));
                    i += 1;
                }
                assert(value@.take(i as int) =~= value@);
                Ok(bytes)
            },
            CookieSource::File(_) => match file {
                Some(contents) => Ok(contents),
                None => Err(Failure::Credential),
            },
        }
    }
}

/// The text that `base64`'s standard engine, with padding, encodes bytes to.
pub uninterp spec fn base64_standard(bytes: Seq<u8>) -> Seq<char>;

/// Encodes bytes with `Engine::encode` of `base64`'s `STANDARD` engine.
/// The result is the text named `base64_standard`. The call is kept to
/// inputs short enough that the encoded length cannot overflow, on which
/// the crate would panic.
#[verifier::external_body]
fn base64_encode(bytes: &Vec<u8>) -> (text: String)
    requires
        bytes@.len() <= MAX_COOKIE_LEN,
    ensures
        text@ == base64_standard(bytes@),
{
    base64::Engine::encode(&base64::engine::general_purpose::STANDARD, bytes)
}

/// The value of the `Authorization` header for an encoded credential.
pub fn basic_header(encoded: &str) -> (header: String)
    ensures
        header@ == "Basic "@ + encoded@,
{
    String::from_str("Basic ").concat(encoded)
}

/// The value of the `Authorization` header that a call carries: `Basic`
/// and the credential in base64. A credential that is too long to be one is
/// a failure.
pub fn authorization(cookie: &Vec<u8>) -> (r: Result<String, Failure>)
    ensures
        match r {
            Ok(header) => cookie@.len() <= MAX_COOKIE_LEN && header@ == "Basic "@
                + base64_standard(cookie@),
            Err(f) => cookie@.len() > MAX_COOKIE_LEN && f == Failure::Credential,
        },
{
    if cookie.len() > MAX_COOKIE_LEN {
        return Err(Failure::Credential);
    }
    let encoded = base64_encode(cookie);
    Ok(basic_header(encoded.as_str()))
}

/// Whether the answers to a batch of requests are complete and in order:
/// one for each request, with the request's id.
pub fn batch_answered(request_ids: &Vec<u64>, response_ids: &Vec<u64>) -> (b: bool)
    ensures
        b == (request_ids@ == response_ids@),
{
    if request_ids.len() != response_ids.len() {
        return false;
    }
    let mut i: usize = 0;
    while i < request_ids.len()
        invariant
            i <= request_ids@.len(),
            request_ids@.len() == response_ids@.len(),
            forall|k: int| 0 <= k < i ==> request_ids@[k] == response_ids@[k],
        decreases request_ids@.len() - i,
    {
        if request_ids[i] != response_ids[i] {
            return false;
        }
        i += 1;
    }
    assert(request_ids@ =~= response_ids@);
    true
}

} // verus!
