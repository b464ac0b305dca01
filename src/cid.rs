//! Connection identifiers and stateless reset tokens.
use vstd::prelude::*;

verus! {

/// Longest connection identifier QUIC v1 allows.
pub const MAX_CID_SIZE: usize = 20;

/// Length of a stateless reset token.
pub const RESET_TOKEN_SIZE: usize = 16;

/// Whether two byte vectors hold the same bytes.
pub fn bytes_eq(a: &Vec<u8>, b: &Vec<u8>) -> (r: bool)
    ensures
        r == (a@ == b@),
{
    if a.len() != b.len() {
        return false;
    }
    let mut i: usize = 0;
    while i < a.len()
        invariant
            a@.len() == b@.len(),
            i <= a@.len(),
            forall|j: int| 0 <= j < i ==> a@[j] == b@[j],
        decreases a@.len() - i,
    {
        if a[i] != b[i] {
            return false;
        }
        i = i + 1;
    }
    assert(a@ =~= b@);
    true
}

/// A copy of the bytes of a slice.
pub fn bytes_of(s: &[u8]) -> (r: Vec<u8>)
    ensures
        r@ == s@,
{
    let mut r: Vec<u8> = Vec::new();
    let mut i: usize = 0;
    while i < s.len()
        invariant
            i <= s@.len(),
            r@ == s@.subrange(0, i as int),
        decreases s@.len() - i,
    {
        r.push(s[i]);
        assert(r@ =~= s@.subrange(0, i + 1));
        i = i + 1;
    }
    assert(s@.subrange(0, s@.len() as int) =~= s@);
    r
}

/// A connection identifier: up to 20 bytes.
#[derive(Debug)]
pub struct ConnectionId {
    bytes: Vec<u8>,
}

impl View for ConnectionId {
    type V = Seq<u8>;

    open spec fn view(&self) -> Seq<u8> {
        self.spec_bytes()
    }
}

impl ConnectionId {
    pub closed spec fn spec_bytes(&self) -> Seq<u8> {
        self.bytes@
    }

    /// The identifier made of the given bytes; at most 20 of them.
    pub fn from_slice(s: &[u8]) -> (r: ConnectionId)
        requires
            s@.len() <= MAX_CID_SIZE,
        ensures
            r@ == s@,
    {
        ConnectionId { bytes: bytes_of(s) }
    }

    /// The empty identifier.
    pub fn empty() -> (r: ConnectionId)
        ensures
            r@.len() == 0,
    {
        ConnectionId { bytes: Vec::new() }
    }

    pub fn len(&self) -> (r: usize)
        ensures
            r == self@.len(),
    {
        self.bytes.len()
    }

    pub fn is_empty(&self) -> (r: bool)
        ensures
            r == (self@.len() == 0),
    {
        self.bytes.len() == 0
    }

    /// The bytes of the identifier.
    pub fn as_bytes(&self) -> (r: &[u8])
        ensures
            r@ == self@,
    {
        self.bytes.as_slice()
    }

    /// A copy of the identifier.
    pub fn copy(&self) -> (r: ConnectionId)
        ensures
            r@ == self@,
    {
        ConnectionId { bytes: bytes_of(self.bytes.as_slice()) }
    }

    /// Whether the two identifiers hold the same bytes.
    pub fn same(&self, other: &ConnectionId) -> (r: bool)
        ensures
            r == (self@ == other@),
    {
        bytes_eq(&self.bytes, &other.bytes)
    }
}

impl PartialEq for ConnectionId {
    fn eq(&self, other: &ConnectionId) -> (r: bool) {
        bytes_eq(&self.bytes, &other.bytes)
    }
}

impl vstd::std_specs::cmp::PartialEqSpecImpl for ConnectionId {
    open spec fn obeys_eq_spec() -> bool {
        true
    }

    open spec fn eq_spec(&self, other: &ConnectionId) -> bool {
        self@ == other@
    }
}

/// A stateless reset token: 16 bytes.
#[derive(Debug)]
pub struct ResetToken {
    bytes: Vec<u8>,
}

impl View for ResetToken {
    type V = Seq<u8>;

    open spec fn view(&self) -> Seq<u8> {
        self.spec_bytes()
    }
}

impl ResetToken {
    pub closed spec fn spec_bytes(&self) -> Seq<u8> {
        self.bytes@
    }

    /// The token made of the 16 given bytes.
    pub fn new_with(s: &[u8]) -> (r: ResetToken)
        requires
            s@.len() == RESET_TOKEN_SIZE,
        ensures
            r@ == s@,
    {
        ResetToken { bytes: bytes_of(s) }
    }

    pub fn as_bytes(&self) -> (r: &[u8])
        ensures
            r@ == self@,
    {
        self.bytes.as_slice()
    }

    pub fn copy(&self) -> (r: ResetToken)
        ensures
            r@ == self@,
    {
        ResetToken { bytes: bytes_of(self.bytes.as_slice()) }
    }

    pub fn same(&self, other: &ResetToken) -> (r: bool)
        ensures
            r == (self@ == other@),
    {
        bytes_eq(&self.bytes, &other.bytes)
    }
}

impl PartialEq for ResetToken {
    fn eq(&self, other: &ResetToken) -> (r: bool) {
        bytes_eq(&self.bytes, &other.bytes)
    }
}

impl vstd::std_specs::cmp::PartialEqSpecImpl for ResetToken {
    open spec fn obeys_eq_spec() -> bool {
        true
    }

    open spec fn eq_spec(&self, other: &ResetToken) -> bool {
        self@ == other@
    }
}

/// The view of an optional token.
pub open spec fn token_view(t: Option<ResetToken>) -> Option<Seq<u8>> {
    match t {
        Some(x) => Some(x@),
        None => None,
    }
}

/// Whether two optional tokens are both absent or hold the same bytes.
pub fn same_token(a: &Option<ResetToken>, b: &Option<ResetToken>) -> (r: bool)
    ensures
        r == (token_view(*a) == token_view(*b)),
{
    match (a, b) {
        (None, None) => true,
        (Some(x), Some(y)) => x.same(y),
        _ => false,
    }
}

pub fn copy_token(t: &Option<ResetToken>) -> (r: Option<ResetToken>)
    ensures
        token_view(r) == token_view(*t),
{
    match t {
        None => None,
        Some(x) => Some(x.copy()),
    }
}

} // verus!
