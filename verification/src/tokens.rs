//! Tokens: what a node must have asked for recently to store something at this one.

use crate::address::{IpAddr, SocketAddr};
use crate::clock::{elapsed, spec_elapsed};
use crate::crypto::{sha1, sha1_digest};
use vstd::prelude::*;

verus! {

/// How often the secret behind the tokens changes: every five minutes.
pub const ROTATE_INTERVAL: u64 = 300_000_000_000;

/// The secrets behind the tokens that are accepted: the present one and the one before.
#[derive(Debug)]
pub struct Tokens {
    prev_secret: [u8; 20],
    curr_secret: [u8; 20],
    last_updated: u64,
}

/// What a [`Tokens`] holds.
#[verifier::ext_equal]
pub struct TokensView {
    pub prev_secret: Seq<u8>,
    pub curr_secret: Seq<u8>,
    pub last_updated: u64,
}

impl View for Tokens {
    type V = TokensView;

    closed spec fn view(&self) -> TokensView {
        TokensView {
            prev_secret: self.prev_secret@,
            curr_secret: self.curr_secret@,
            last_updated: self.last_updated,
        }
    }
}

/// The last `len` bytes of a number, most significant first.
pub open spec fn number_bytes(n: nat, len: nat) -> Seq<u8>
    decreases len,
{
    if len == 0 {
        Seq::empty()
    } else {
        number_bytes(n / 256, (len - 1) as nat).push((n % 256) as u8)
    }
}

/// The bytes of an address, in network order.
pub open spec fn ip_bytes(ip: IpAddr) -> Seq<u8> {
    match ip {
        IpAddr::V4(n) => number_bytes(n as nat, 4),
        IpAddr::V6(n) => number_bytes(n as nat, 16),
    }
}

/// The token that a secret gives to a host: the digest of its address and the secret.
pub open spec fn token_for(ip: IpAddr, secret: Seq<u8>) -> Seq<u8> {
    sha1_digest(ip_bytes(ip) + secret)
}

impl TokensView {
    /// Whether the secret is older than [`ROTATE_INTERVAL`].
    pub open spec fn should_update(self, now: u64) -> bool {
        spec_elapsed(self.last_updated, now) > ROTATE_INTERVAL
    }

    /// A new secret; the present one becomes the one before.
    pub open spec fn rotate(self, secret: Seq<u8>, now: u64) -> TokensView {
        TokensView { prev_secret: self.curr_secret, curr_secret: secret, last_updated: now }
    }

    /// Whether a token is one that the present secret, or the one before, gives to the host.
    pub open spec fn accepts(self, address: SocketAddr, token: Seq<u8>) -> bool {
        token == token_for(address.ip, self.curr_secret) || token == token_for(
            address.ip,
            self.prev_secret,
        )
    }
}

proof fn lemma_number_bytes_length(n: nat, len: nat)
    ensures
        number_bytes(n, len).len() == len,
    decreases len,
{
    if len > 0 {
        lemma_number_bytes_length(n / 256, (len - 1) as nat);
    }
}

/// Appends the last `len` bytes of a number, most significant first.
fn push_number(out: &mut Vec<u8>, n: u128, len: u8)
    ensures
        final(out)@ == old(out)@ + number_bytes(n as nat, len as nat),
    decreases len,
{
    let ghost before = out@;
    if len > 0 {
        push_number(out, n / 256, len - 1);
        out.push((n % 256) as u8);
    }
    assert(out@ =~= before + number_bytes(n as nat, len as nat));
}

/// The token that a secret gives to a host.
fn make_token(ip: &IpAddr, secret: &[u8; 20]) -> (r: [u8; 20])
    ensures
        r@ == token_for(*ip, secret@),
{
    let mut data: Vec<u8> = Vec::new();
    match ip {
        IpAddr::V4(n) => push_number(&mut data, *n as u128, 4),
        IpAddr::V6(n) => push_number(&mut data, *n, 16),
    }
    assert(data@ =~= ip_bytes(*ip));
    let mut i: usize = 0;
    while i < 20
        invariant
            i <= 20,
            data@ == ip_bytes(*ip) + secret@.take(i as int),
        decreases 20 - i,
    {
        data.push(secret[i]);
        i = i + 1;
        assert(data@ =~= ip_bytes(*ip) + secret@.take(i as int));
    }
    proof {
        assert(secret@.take(20) =~= secret@);
        match *ip {
            IpAddr::V4(n) => lemma_number_bytes_length(n as nat, 4),
            IpAddr::V6(n) => lemma_number_bytes_length(n as nat, 16),
        }
    }
    sha1(&data)
}

/// Whether a byte string is made of these bytes.
fn same_bytes(bytes: &Vec<u8>, other: &[u8; 20]) -> (r: bool)
    ensures
        r == (bytes@ == other@),
{
    if bytes.len() != 20 {
        return false;
    }
    let mut i: usize = 0;
    while i < 20
        invariant
            i <= 20,
            bytes@.len() == 20,
            forall|j: int| 0 <= j < i ==> bytes@[j] == other@[j],
        decreases 20 - i,
    {
        if bytes[i] != other[i] {
            assert(bytes@[i as int] != other@[i as int]);
            return false;
        }
        i = i + 1;
    }
    assert(bytes@ =~= other@);
    true
}

/// Whether a token is one of two.
pub fn is_either_token(token: &Vec<u8>, current: &[u8; 20], previous: &[u8; 20]) -> (r: bool)
    ensures
        r == (token@ == current@ || token@ == previous@),
{
    same_bytes(token, current) || same_bytes(token, previous)
}

impl Tokens {
    /// Two secrets that nobody else knows.
    pub fn new(prev_secret: [u8; 20], curr_secret: [u8; 20], now: u64) -> (r: Tokens)
        ensures
            r@ == (TokensView {
                prev_secret: prev_secret@,
                curr_secret: curr_secret@,
                last_updated: now,
            }),
    {
        Tokens { prev_secret, curr_secret, last_updated: now }
    }

    /// Whether the secret is older than [`ROTATE_INTERVAL`].
    pub fn should_update(&self, now: u64) -> (r: bool)
        ensures
            r == self@.should_update(now),
    {
        elapsed(self.last_updated, now) > ROTATE_INTERVAL
    }

    /// Takes a new secret; the present one becomes the one before.
    pub fn rotate(&mut self, secret: [u8; 20], now: u64)
        ensures
            final(self)@ == old(self)@.rotate(secret@, now),
    {
        self.prev_secret = self.curr_secret;
        self.curr_secret = secret;
        self.last_updated = now;
    }

    /// The token that the present secret gives to a host.
    pub fn generate_token(&self, address: &SocketAddr) -> (r: Vec<u8>)
        ensures
            r@ == token_for(address.ip, self@.curr_secret),
    {
        let token = make_token(&address.ip, &self.curr_secret);
        let mut r: Vec<u8> = Vec::new();
        let mut i: usize = 0;
        while i < 20
            invariant
                i <= 20,
                r@ == token@.take(i as int),
            decreases 20 - i,
        {
            r.push(token[i]);
            i = i + 1;
            assert(r@ =~= token@.take(i as int));
        }
        assert(token@.take(20) =~= token@);
        r
    }

    /// Whether a token is one that the present secret, or the one before, gives to the host.
    pub fn validate(&self, address: &SocketAddr, token: &Vec<u8>) -> (r: bool)
        ensures
            r == self@.accepts(*address, token@),
    {
        is_either_token(
            token,
            &make_token(&address.ip, &self.curr_secret),
            &make_token(&address.ip, &self.prev_secret),
        )
    }
}

} // verus!
