//! Decisions of the handshake benchmark: which identity each endpoint uses,
//! how suites are labelled and interleaved, and how many warm-up samples run.
use vstd::prelude::*;

verus! {

/// The signature algorithm of a benchmark identity.
#[derive(Clone, Copy, Debug, PartialEq, Eq, Structural)]
pub enum KeyAlgorithm {
    Ed25519,
    MlDsa65,
}

/// The identity of a benchmark endpoint: ML-DSA-65 for the post-quantum
/// suite, Ed25519 otherwise.
pub fn identity(pq: bool) -> (r: KeyAlgorithm)
    ensures
        r == (if pq {
            KeyAlgorithm::MlDsa65
        } else {
            KeyAlgorithm::Ed25519
        }),
{
    if pq {
        KeyAlgorithm::MlDsa65
    } else {
        KeyAlgorithm::Ed25519
    }
}

/// Which side of a post-quantum pair uses ML-DSA-65.
#[derive(Clone, Copy, Debug, PartialEq, Eq, Structural)]
pub enum MixedMode {
    /// Both sides.
    Both,
    /// Only the client.
    ClientPq,
    /// Only the server.
    ServerPq,
}

/// Whether two texts are equal.
fn text_equal(a: &str, b: &str) -> (r: bool)
    ensures
        r == (a@ == b@),
{
    let same = crate::address::bytes_equal(a.as_bytes(), b.as_bytes());
    proof {
        vstd::utf8::encode_utf8_decode_utf8(a@);
        vstd::utf8::encode_utf8_decode_utf8(b@);
    }
    same
}

impl MixedMode {
    /// The mode that a setting names: `client_pq`, `server_pq`, or anything
    /// else (or nothing) for both sides.
    pub fn from_setting(value: Option<&str>) -> (r: MixedMode)
        ensures
            r == (match value {
                Some(v) => if v@ == "client_pq"@ {
                    MixedMode::ClientPq
                } else if v@ == "server_pq"@ {
                    MixedMode::ServerPq
                } else {
                    MixedMode::Both
                },
                None => MixedMode::Both,
            }),
    {
        match value {
            Some(v) => if text_equal(v, "client_pq") {
                MixedMode::ClientPq
            } else if text_equal(v, "server_pq") {
                MixedMode::ServerPq
            } else {
                MixedMode::Both
            },
            None => MixedMode::Both,
        }
    }
}

/// The label of a suite in the benchmark's output.
pub fn suite(pq: bool, mode: MixedMode) -> (r: &'static str)
    ensures
        !pq ==> r@ == "Ed25519"@,
        pq && mode == MixedMode::ClientPq ==> r@ == "clientPQ-serverEd"@,
        pq && mode == MixedMode::ServerPq ==> r@ == "clientEd-serverPQ"@,
        pq && mode == MixedMode::Both ==> r@ == "ML-DSA-65"@,
{
    if !pq {
        return "Ed25519";
    }
    match mode {
        MixedMode::ClientPq => "clientPQ-serverEd",
        MixedMode::ServerPq => "clientEd-serverPQ",
        MixedMode::Both => "ML-DSA-65",
    }
}

/// Whether the endpoint in `role` (0 for the client, 1 for the server) of a
/// suite uses ML-DSA-65.
pub fn role_uses_pq(pq: bool, mode: MixedMode, role: usize) -> (r: bool)
    ensures
        r == (pq && match mode {
            MixedMode::ClientPq => role == 0,
            MixedMode::ServerPq => role == 1,
            MixedMode::Both => true,
        }),
{
    pq && match mode {
        MixedMode::ClientPq => role == 0,
        MixedMode::ServerPq => role == 1,
        MixedMode::Both => true,
    }
}

/// Number of unmeasured warm-up samples: none when nothing is measured or
/// when tracing, five otherwise.
pub fn warmup_samples(samples: usize, tracing: bool) -> (r: usize)
    ensures
        r == (if samples == 0 || tracing {
            0usize
        } else {
            5usize
        }),
{
    if samples == 0 || tracing {
        0
    } else {
        5
    }
}

/// Whether the CPU benchmark reports batch `batch`: the first three batches
/// only warm up.
pub fn cpu_batch_reported(batch: usize) -> (r: bool)
    ensures
        r == (batch >= 3),
{
    batch >= 3
}

/// The row number under which the network benchmark reports sample
/// `sample`, counted from the end of the `warmups` warm-up samples; none for
/// a warm-up sample.
pub fn measured_index(sample: usize, warmups: usize) -> (r: Option<usize>)
    ensures
        r == (if sample >= warmups {
            Some((sample - warmups) as usize)
        } else {
            None
        }),
{
    if sample >= warmups {
        Some(sample - warmups)
    } else {
        None
    }
}

/// The order in which the suites of round `round` run (`true` for the
/// post-quantum suite): alternating, so that neither always runs first.
pub fn suite_order(round: usize) -> (r: [bool; 2])
    ensures
        r@ == (if round % 2 == 0 {
            seq![false, true]
        } else {
            seq![true, false]
        }),
{
    let r = if round % 2 == 0 {
        [false, true]
    } else {
        [true, false]
    };
    assert(r@ =~= (if round % 2 == 0 {
        seq![false, true]
    } else {
        seq![true, false]
    }));
    r
}

} // verus!
