//! The one-time handshake that opens a connection: a JSON object
//! `{"backend_path": string, "backend_args": [string]}` ended by a NUL byte.
use vstd::prelude::*;
use vstd::string::StringExecFns;
use crate::message::bytes_view;
use crate::registry::{strings_view, BackendKey};

verus! {

/// What serde_json reads from a handshake object: the backend path and
/// arguments, or `None` when the text is not such an object.
pub uninterp spec fn json_handshake_of(b: Seq<u8>) -> Option<(Seq<char>, Seq<Seq<char>>)>;

/// What serde_json writes for a handshake object with this path and these
/// arguments; `None` if it fails.
pub uninterp spec fn handshake_json(path: Seq<char>, args: Seq<Seq<char>>) -> Option<Seq<u8>>;

pub open spec fn key_view(k: Option<BackendKey>) -> Option<(Seq<char>, Seq<Seq<char>>)> {
    match k {
        Some(k) => Some(k@),
        None => None,
    }
}

/// Relies on serde_json::from_slice into a serde_json::Value, read through
/// Value::get, Value::as_str and serde_json::from_value.
#[verifier::external_body]
fn read_handshake(b: &[u8]) -> (r: Option<BackendKey>)
    ensures
        key_view(r) == json_handshake_of(b@),
{
    let v: serde_json::Value = serde_json::from_slice(b).ok()?;
    let path = v.get("backend_path")?.as_str()?.to_owned();
    let args: Vec<String> = serde_json::from_value(v.get("backend_args")?.clone()).ok()?;
    Some(BackendKey { path, args })
}

/// Relies on serde_json::to_vec of a serde_json::Value object with the two
/// fields of the handshake.
#[verifier::external_body]
fn write_handshake(k: &BackendKey) -> (r: Option<Vec<u8>>)
    ensures
        bytes_view(r) == handshake_json(k@.0, k@.1),
{
    let mut m = serde_json::Map::new();
    m.insert("backend_path".to_owned(), serde_json::Value::from(k.path.as_str()));
    m.insert("backend_args".to_owned(), serde_json::Value::from(k.args.clone()));
    serde_json::to_vec(&serde_json::Value::Object(m)).ok()
}

/// Why a handshake was refused.
#[derive(Debug, PartialEq, Eq, Structural, Clone, Copy)]
pub enum HandshakeError {
    /// The bytes before the NUL are not a handshake object.
    Malformed,
}

/// `i` is the position of the first NUL byte of `b`.
pub open spec fn first_nul(b: Seq<u8>, i: int) -> bool {
    0 <= i < b.len() && b[i] == 0 && forall|j: int| 0 <= j < i ==> b[j] != 0
}

/// Reads the handshake at the start of `b`. `Ok(None)`: no NUL yet, read
/// more. `Ok(Some((key, n)))`: the handshake took the first `n` bytes.
pub fn parse_handshake(b: &[u8]) -> (r: Result<Option<(BackendKey, usize)>, HandshakeError>)
    ensures
        (forall|j: int| 0 <= j < b@.len() ==> b@[j] != 0) <==> r matches Ok(None),
        forall|i: int|
            first_nul(b@, i) ==> match json_handshake_of(b@.take(i)) {
                None => r == Err::<Option<(BackendKey, usize)>, HandshakeError>(HandshakeError::Malformed),
                Some(kv) => r matches Ok(Some((k, n))) && k@ == kv && n == i + 1,
            },
{
    let mut i: usize = 0;
    while i < b.len()
        invariant
            i <= b@.len(),
            forall|j: int| 0 <= j < i ==> b@[j] != 0,
        decreases b@.len() - i,
    {
        if b[i] == 0 {
            let mut head: Vec<u8> = Vec::new();
            let mut j: usize = 0;
            while j < i
                invariant
                    j <= i < b@.len(),
                    head@ == b@.take(j as int),
                decreases i - j,
            {
                head.push(b[j]);
                j = j + 1;
                proof {
                    assert(head@ =~= b@.take(j as int));
                }
            }
            proof {
                assert forall|x: int| first_nul(b@, x) implies x == i by {
                    if x < i {
                    } else if x > i {
                        assert(b@[i as int] == 0);
                    }
                }
            }
            return match read_handshake(head.as_slice()) {
                Some(k) => Ok(Some((k, i + 1))),
                None => Err(HandshakeError::Malformed),
            };
        }
        i = i + 1;
    }
    Ok(None)
}

/// The handshake a client sends for this backend command: the JSON object
/// followed by a NUL byte. Without a path, `rust-analyzer` is asked for.
pub fn handshake_message(server_path: Option<String>, server_args: Vec<String>) -> (r: Option<Vec<u8>>)
    ensures
        ({
            let path = match server_path {
                Some(p) => p@,
                None => "rust-analyzer"@,
            };
            match handshake_json(path, strings_view(server_args@)) {
                Some(j) => r matches Some(v) && v@ == j.push(0u8),
                None => r == None::<Vec<u8>>,
            }
        }),
{
    let path = match server_path {
        Some(p) => p,
        None => String::from_str("rust-analyzer"),
    };
    let key = BackendKey { path, args: server_args };
    match write_handshake(&key) {
        Some(mut v) => {
            v.push(0u8);
            Some(v)
        },
        None => None,
    }
}

} // verus!
