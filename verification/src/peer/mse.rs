//! MSE/PE — Message Stream Encryption (Bittorrent protocol v2.0).
//!
//! Reference: <http://wiki.vuze.com/w/Message_Stream_Encryption>
//!
//! Handshake overview:
//!   Initiator (us):
//!     1. Generate random DH private key `a` (160-bit)
//!     2. Compute public key `Xa = g^a mod P`  (768-bit Diffie-Hellman)
//!     3. Send `Xa` (96 bytes) padded with 0–63 random bytes
//!     4. Receive peer public key `Xb` (96 bytes) + padding
//!     5. Compute shared secret `S = Xb^a mod P`
//!     6. Key derivation:
//!          req1 = SHA1("req1" || S)
//!          req2 = SHA1("req2" || SKEY)   (SKEY = info_hash)
//!          req3 = SHA1("req3" || S)
//!     7. Send `req1 XOR (req2 XOR req3)` (20 bytes — obfuscated SKEY hash)
//!     8. Derive RC4 keys:
//!          keyA = SHA1("keyA" || S || SKEY)   → encrypt key
//!          keyB = SHA1("keyB" || S || SKEY)   → decrypt key
//!     9. Encrypt+send: VC(8 bytes) || crypto_provide(4) || len(padC)(2) || padC || len(IA)(2) || IA
//!    10. Receive+decrypt: VC(8) || crypto_select(4) || len(padD)(2) || padD
//!    11. Optionally discard first 1024 bytes of RC4 stream (already done in key setup)
//!
//! We support crypto_select = 0x02 (RC4) and fall back to 0x01 (plaintext).

use vstd::arithmetic::mul::lemma_mul_is_commutative;
use vstd::arithmetic::power::{
    lemma_pow_adds, lemma_pow_increases, lemma_pow_mod_noop, lemma_pow_multiplies,
    lemma_pow_positive, lemma_pow1, pow,
};
use vstd::prelude::*;
use vstd::string::StringSliceAdditionalSpecFns;
use vstd::utf8::is_ascii_chars_encode_utf8;

use crate::digest::{sha1, sha1_digest};
use crate::error::{Error, PeerError, Result};
use crate::octets::{
    append_be16, append_be32, append_bytes, be16, be32, from_be16, from_be32, lemma_be_round_trip,
    u16_be, u32_be,
};
use crate::random::{random_bytes, random_range};
use crate::text::{hex_digit_value, is_hex_digit};
use crate::types::InfoHash;

verus! {

// RC4

/// The state of the cipher: a permutation of the bytes and two indices into it.
pub struct Rc4 {
    s: [u8; 256],
    i: u8,
    j: u8,
}

/// The content of an [`Rc4`].
#[verifier::ext_equal]
pub struct Cipher {
    pub s: Seq<u8>,
    pub i: u8,
    pub j: u8,
}

/// Addition modulo 256.
pub open spec fn add8(a: u8, b: u8) -> u8 {
    ((a + b) % 256) as u8
}

/// A sequence with two elements exchanged.
pub open spec fn swapped(s: Seq<u8>, i: int, j: int) -> Seq<u8> {
    s.update(i, s[j]).update(j, s[i])
}

/// The permutation and the index after `n` rounds of the key schedule.
pub open spec fn key_schedule(key: Seq<u8>, n: int) -> (Seq<u8>, u8)
    decreases n,
{
    if n <= 0 {
        (Seq::new(256, |i: int| i as u8), 0)
    } else {
        let (s, j0) = key_schedule(key, n - 1);
        let j = add8(add8(j0, s[n - 1]), key[(n - 1) % key.len() as int]);
        (swapped(s, n - 1, j as int), j)
    }
}

impl Cipher {
    /// The cipher with a key, before it has produced anything.
    pub open spec fn keyed(key: Seq<u8>) -> Cipher {
        Cipher { s: key_schedule(key, 256).0, i: 0, j: 0 }
    }

    /// The cipher after one more byte of the key stream.
    pub open spec fn next(self) -> Cipher {
        let i = add8(self.i, 1);
        let j = add8(self.j, self.s[i as int]);
        Cipher { s: swapped(self.s, i as int, j as int), i, j }
    }

    /// The byte of the key stream that led to this state.
    pub open spec fn output(self) -> u8 {
        self.s[add8(self.s[self.i as int], self.s[self.j as int]) as int]
    }

    /// The cipher after `n` more bytes of the key stream.
    pub open spec fn after(self, n: nat) -> Cipher
        decreases n,
    {
        if n == 0 {
            self
        } else {
            self.after((n - 1) as nat).next()
        }
    }

    /// The next `n` bytes of the key stream.
    pub open spec fn stream(self, n: nat) -> Seq<u8> {
        Seq::new(n, |k: int| self.after((k + 1) as nat).output())
    }

    /// The data combined with the key stream.
    pub open spec fn applied(self, data: Seq<u8>) -> Seq<u8> {
        Seq::new(data.len(), |k: int| data[k] ^ self.stream(data.len())[k])
    }
}

impl View for Rc4 {
    type V = Cipher;

    closed spec fn view(&self) -> Cipher {
        Cipher { s: self.s@, i: self.i, j: self.j }
    }
}

fn swap(s: &mut [u8; 256], i: usize, j: usize)
    requires
        i < 256,
        j < 256,
    ensures
        final(s)@ == swapped(old(s)@, i as int, j as int),
{
    let a = s[i];
    s[i] = s[j];
    s[j] = a;
    assert(s@ =~= swapped(old(s)@, i as int, j as int));
}

fn add_bytes(a: u8, b: u8) -> (r: u8)
    ensures
        r == add8(a, b),
{
    a.wrapping_add(b)
}

impl Rc4 {
    /// Set up the cipher with a key, and discard the first 1024 bytes of its stream.
    pub fn new(key: &[u8]) -> (r: Self)
        requires
            key@.len() > 0,
        ensures
            r@ == Cipher::keyed(key@).after(1024),
    {
        let mut s: [u8; 256] = [0u8; 256];
        let mut n: usize = 0;
        while n < 256
            invariant
                n <= 256,
                forall|k: int| 0 <= k < n ==> #[trigger] s@[k] == k as u8,
            decreases 256 - n,
        {
            s[n] = n as u8;
            n = n + 1;
        }
        assert(s@ =~= key_schedule(key@, 0).0);
        let mut j: u8 = 0;
        let mut i: usize = 0;
        while i < 256
            invariant
                i <= 256,
                key@.len() > 0,
                key_schedule(key@, i as int) == (s@, j),
            decreases 256 - i,
        {
            j = add_bytes(add_bytes(j, s[i]), key[i % key.len()]);
            swap(&mut s, i, j as usize);
            i = i + 1;
        }
        let mut rc4 = Rc4 { s, i: 0, j: 0 };
        let mut k: usize = 0;
        while k < 1024
            invariant
                k <= 1024,
                rc4@ == Cipher::keyed(key@).after(k as nat),
            decreases 1024 - k,
        {
            let _ = rc4.next_byte();
            k = k + 1;
        }
        rc4
    }

    /// The next byte of the key stream.
    fn next_byte(&mut self) -> (k: u8)
        ensures
            final(self)@ == old(self)@.next(),
            k == final(self)@.output(),
    {
        self.i = add_bytes(self.i, 1);
        self.j = add_bytes(self.j, self.s[self.i as usize]);
        swap(&mut self.s, self.i as usize, self.j as usize);
        self.s[add_bytes(self.s[self.i as usize], self.s[self.j as usize]) as usize]
    }

    /// Combine data with the key stream in place.
    pub fn apply(&mut self, data: &mut [u8])
        ensures
            final(self)@ == old(self)@.after(old(data)@.len()),
            final(data)@ == old(self)@.applied(old(data)@),
    {
        let n: usize = data.len();
        let mut k: usize = 0;
        while k < n
            invariant
                k <= n,
                n == old(data)@.len(),
                data@.len() == n,
                self@ == old(self)@.after(k as nat),
                forall|m: int|
                    0 <= m < k ==> #[trigger] data@[m] == old(data)@[m] ^ old(self)@.stream(
                        n as nat,
                    )[m],
                forall|m: int| k <= m < n ==> #[trigger] data@[m] == old(data)@[m],
            decreases n - k,
        {
            let b = self.next_byte();
            data[k] = data[k] ^ b;
            k = k + 1;
        }
        assert(data@ =~= old(self)@.applied(old(data)@));
    }

    /// Encrypt a copy of the data.
    pub fn encrypt(&mut self, data: &[u8]) -> (r: Vec<u8>)
        ensures
            final(self)@ == old(self)@.after(data@.len()),
            r@ == old(self)@.applied(data@),
    {
        let mut buf: Vec<u8> = vstd::slice::slice_to_vec(data);
        self.apply(buf.as_mut_slice());
        buf
    }

    /// Decrypt data in place.
    pub fn decrypt(&mut self, data: &mut [u8])
        ensures
            final(self)@ == old(self)@.after(old(data)@.len()),
            final(data)@ == old(self)@.applied(old(data)@),
    {
        self.apply(data);
    }
}

// Diffie-Hellman

/// 768-bit prime P (Vuze/Azureus spec).
pub const P_HEX: &'static str = "FFFFFFFFFFFFFFFFC90FDAA22168C234C4C6628B80DC1CD129024E088A67CC74020BBEA63B139B22514A08798E3404DDEF9519B3CD3A431B302B0A6DF25F14374FE1356D6D51C245E485B576625E7EC6F44C42E9A63A3620FFFFFFFFFFFFFFFF";

/// The generator of the group.
pub const G: u8 = 2;

/// The length of a public key: 768 / 8.
pub const DH_KEY_BYTES: usize = 96;

/// The number with the given big-endian bytes.
pub open spec fn number(s: Seq<u8>) -> nat
    decreases s.len(),
{
    if s.len() == 0 {
        0
    } else {
        number(s.drop_last()) * 256 + s.last() as nat
    }
}

/// The number with the given hexadecimal digits.
pub open spec fn hex_number(s: Seq<u8>) -> nat
    decreases s.len(),
{
    if s.len() == 0 {
        0
    } else {
        hex_number(s.drop_last()) * 16 + hex_digit_value(s.last()) as nat
    }
}

pub open spec fn all_hex(s: Seq<u8>) -> bool {
    forall|i: int| 0 <= i < s.len() ==> is_hex_digit(#[trigger] s[i])
}

/// The modulus of the group.
pub open spec fn prime() -> nat {
    hex_number(P_HEX.spec_bytes())
}

/// Whether a number is written without leading zero bytes.
pub open spec fn is_minimal(s: Seq<u8>) -> bool {
    s.len() > 0 && (s.len() == 1 || s[0] != 0)
}

/// `BigUint::parse_bytes` with radix 16, as the bytes that `BigUint::to_bytes_be`
/// gives: a string of hexadecimal digits stands for a number, written without
/// leading zero bytes.
#[verifier::external_body]
fn parse_hex_number(digits: &[u8]) -> (r: Option<Vec<u8>>)
    requires
        digits@.len() > 0,
        all_hex(digits@),
    ensures
        r is Some,
        number(r->0@) == hex_number(digits@),
        is_minimal(r->0@),
{
    num_bigint::BigUint::parse_bytes(digits, 16).map(|n| n.to_bytes_be())
}

/// `BigUint::modpow` on numbers given by and returned as big-endian bytes, as
/// `BigUint::from_bytes_be` and `BigUint::to_bytes_be` convert them: the power of
/// the base, modulo the modulus, written without leading zero bytes. It panics
/// on modulus zero.
#[verifier::external_body]
fn mod_pow(base: &[u8], exponent: &[u8], modulus: &[u8]) -> (r: Vec<u8>)
    requires
        number(modulus@) > 1,
    ensures
        number(r@) == pow(number(base@) as int, number(exponent@)) % number(modulus@) as int,
        is_minimal(r@),
{
    let base = num_bigint::BigUint::from_bytes_be(base);
    let exponent = num_bigint::BigUint::from_bytes_be(exponent);
    let modulus = num_bigint::BigUint::from_bytes_be(modulus);
    base.modpow(&exponent, &modulus).to_bytes_be()
}

proof fn lemma_hex_number_bounds(s: Seq<u8>)
    requires
        s.len() > 0,
        all_hex(s),
    ensures
        hex_digit_value(s[0]) <= hex_number(s) < pow(16, s.len()),
    decreases s.len(),
{
    let head = s.drop_last();
    assert(is_hex_digit(s.last()));
    assert(pow(16, s.len()) == 16 * pow(16, head.len())) by {
        lemma_pow_adds(16, 1, head.len());
        lemma_pow1(16);
    }
    if head.len() > 0 {
        assert(all_hex(head)) by {
            assert forall|i: int| 0 <= i < head.len() implies is_hex_digit(#[trigger] head[i]) by {
                assert(head[i] == s[i]);
            }
        }
        lemma_hex_number_bounds(head);
    } else {
        assert(hex_number(head) == 0);
        assert(pow(16, 0) == 1) by {
            vstd::arithmetic::power::lemma_pow0(16);
        }
    }
}

#[verifier::rlimit(40)]
proof fn lemma_prime_digits()
    ensures
        P_HEX.spec_bytes().len() == 192,
        P_HEX.spec_bytes()[0] == 0x46,
        all_hex(P_HEX.spec_bytes()),
{
    reveal_strlit("FFFFFFFFFFFFFFFFC90FDAA22168C234C4C6628B80DC1CD129024E088A67CC74020BBEA63B139B22514A08798E3404DDEF9519B3CD3A431B302B0A6DF25F14374FE1356D6D51C245E485B576625E7EC6F44C42E9A63A3620FFFFFFFFFFFFFFFF");
    is_ascii_chars_encode_utf8(P_HEX@);
}

/// The modulus is greater than one and has 768 bits at most.
proof fn lemma_prime_bounds()
    ensures
        1 < prime() < pow(256, DH_KEY_BYTES as nat),
{
    lemma_prime_digits();
    lemma_hex_number_bounds(P_HEX.spec_bytes());
    lemma_pow_multiplies(16, 2, 96);
    lemma_pow_adds(16, 1, 1);
    lemma_pow1(16);
}

proof fn lemma_pow256(n: nat)
    ensures
        pow(256, n) > 0,
        pow(256, n + 1) == 256 * pow(256, n),
{
    lemma_pow_positive(256, n);
    lemma_pow_adds(256, 1, n);
    lemma_pow1(256);
}

proof fn lemma_number_bound(s: Seq<u8>)
    ensures
        number(s) < pow(256, s.len()),
    decreases s.len(),
{
    if s.len() == 0 {
        vstd::arithmetic::power::lemma_pow0(256);
    } else {
        lemma_number_bound(s.drop_last());
        lemma_pow256(s.drop_last().len());
    }
}

proof fn lemma_number_lower(s: Seq<u8>)
    requires
        s.len() > 0,
        s[0] != 0,
    ensures
        number(s) >= pow(256, (s.len() - 1) as nat),
    decreases s.len(),
{
    let head = s.drop_last();
    if s.len() == 1 {
        vstd::arithmetic::power::lemma_pow0(256);
        assert(number(head) == 0);
    } else {
        lemma_number_lower(head);
        lemma_pow256((head.len() - 1) as nat);
    }
}

/// A number below 256 to the power `n` is written in `n` bytes at most.
proof fn lemma_minimal_len(s: Seq<u8>, n: nat)
    requires
        is_minimal(s),
        number(s) < pow(256, n),
        n > 0,
    ensures
        s.len() <= n,
{
    if s.len() > n {
        lemma_number_lower(s);
        lemma_pow_increases(256, n, (s.len() - 1) as nat);
    }
}

/// Byte strings of one length that stand for the same number are the same.
proof fn lemma_number_injective(a: Seq<u8>, b: Seq<u8>)
    requires
        a.len() == b.len(),
        number(a) == number(b),
    ensures
        a == b,
    decreases a.len(),
{
    if a.len() == 0 {
        assert(a =~= b);
    } else {
        lemma_number_injective(a.drop_last(), b.drop_last());
        assert(a =~= a.drop_last().push(a.last()));
        assert(b =~= b.drop_last().push(b.last()));
    }
}

spec fn zeros(n: nat) -> Seq<u8> {
    Seq::new(n, |i: int| 0u8)
}

proof fn lemma_number_padded(n: nat, s: Seq<u8>)
    ensures
        number(zeros(n) + s) == number(s),
    decreases s.len(), n,
{
    let t = zeros(n) + s;
    if s.len() > 0 {
        lemma_number_padded(n, s.drop_last());
        assert(t.drop_last() =~= zeros(n) + s.drop_last());
    } else if n > 0 {
        lemma_number_padded((n - 1) as nat, s);
        assert(t.drop_last() =~= zeros((n - 1) as nat) + s);
    }
}

/// The bytes of a number in a field of [`DH_KEY_BYTES`].
pub open spec fn fixed(n: nat) -> Seq<u8> {
    choose|s: Seq<u8>| s.len() == DH_KEY_BYTES && number(s) == n
}

proof fn lemma_fixed(s: Seq<u8>)
    requires
        s.len() == DH_KEY_BYTES,
    ensures
        fixed(number(s)) == s,
{
    lemma_number_injective(fixed(number(s)), s);
}

/// Big-endian bytes brought to [`DH_KEY_BYTES`]: padded with zeros in front, or
/// cut off behind.
pub open spec fn to_fixed(b: Seq<u8>) -> Seq<u8> {
    if b.len() < DH_KEY_BYTES {
        Seq::new((DH_KEY_BYTES - b.len()) as nat, |i: int| 0u8) + b
    } else {
        b.take(DH_KEY_BYTES as int)
    }
}

/// Pad or truncate to `DH_KEY_BYTES`.
pub fn to_fixed_bytes(b: &[u8]) -> (r: Vec<u8>)
    ensures
        r@ == to_fixed(b@),
        r@.len() == DH_KEY_BYTES,
        b@.len() <= DH_KEY_BYTES ==> number(r@) == number(b@),
{
    let mut r: Vec<u8> = Vec::new();
    if b.len() < DH_KEY_BYTES {
        let n: usize = DH_KEY_BYTES - b.len();
        while r.len() < n
            invariant
                r@ == zeros(r@.len()),
                r@.len() <= n,
            decreases n - r@.len(),
        {
            r.push(0);
            assert(r@ =~= zeros(r@.len()));
        }
        append_bytes(&mut r, b);
        proof {
            lemma_number_padded(n as nat, b@);
        }
        assert(r@ =~= to_fixed(b@));
    } else {
        append_bytes(&mut r, vstd::slice::slice_subrange(b, 0, DH_KEY_BYTES));
        assert(r@ =~= to_fixed(b@));
        assert(b@.len() == DH_KEY_BYTES ==> r@ =~= b@);
    }
    r
}

/// The big-endian bytes of the modulus.
pub fn parse_prime() -> (p: Vec<u8>)
    ensures
        number(p@) == prime(),
        is_minimal(p@),
{
    proof {
        lemma_prime_digits();
    }
    match parse_hex_number(P_HEX.as_bytes()) {
        Some(p) => p,
        None => Vec::new(),
    }
}

/// The public key that belongs to a private key.
pub open spec fn public_of(a: Seq<u8>) -> Seq<u8> {
    fixed((pow(G as int, number(a)) % prime() as int) as nat)
}

/// The secret that the owner of the private key `a` shares with the owner of
/// the public key `xb`.
pub open spec fn secret_of(xb: Seq<u8>, a: Seq<u8>) -> Seq<u8> {
    fixed((pow(number(xb) as int, number(a)) % prime() as int) as nat)
}

fn group_power(base: &[u8], a: &[u8]) -> (r: Vec<u8>)
    ensures
        r@.len() == DH_KEY_BYTES,
        number(r@) == pow(number(base@) as int, number(a@)) % prime() as int,
        r@ == fixed((pow(number(base@) as int, number(a@)) % prime() as int) as nat),
{
    proof {
        lemma_prime_bounds();
    }
    let p = parse_prime();
    let x = mod_pow(base, a, p.as_slice());
    proof {
        lemma_minimal_len(x@, DH_KEY_BYTES as nat);
    }
    let r = to_fixed_bytes(x.as_slice());
    proof {
        lemma_fixed(r@);
    }
    r
}

/// The public key to send for a private key.
pub fn public_key(a: &[u8]) -> (xa: Vec<u8>)
    ensures
        xa@ == public_of(a@),
        xa@.len() == DH_KEY_BYTES,
        number(xa@) == pow(G as int, number(a@)) % prime() as int,
{
    let g: [u8; 1] = [G];
    assert(number(g@) == G) by {
        assert(g@.drop_last() =~= seq![]);
        assert(number(g@.drop_last()) == 0);
    }
    group_power(g.as_slice(), a)
}

/// The secret shared with the owner of a public key.
pub fn shared_secret(xb: &[u8], a: &[u8]) -> (s: Vec<u8>)
    ensures
        s@ == secret_of(xb@, a@),
        s@.len() == DH_KEY_BYTES,
        number(s@) == pow(number(xb@) as int, number(a@)) % prime() as int,
{
    group_power(xb, a)
}

// Keys

/// The parts of a message, one after the other.
pub open spec fn joined(parts: Seq<&[u8]>) -> Seq<u8>
    decreases parts.len(),
{
    if parts.len() == 0 {
        seq![]
    } else {
        joined(parts.drop_last()) + parts.last()@
    }
}

/// The SHA-1 digest of the parts of a message.
pub fn sha1_hash(parts: &[&[u8]]) -> (r: [u8; 20])
    ensures
        r@ == sha1(joined(parts@)),
{
    let mut all: Vec<u8> = Vec::new();
    let mut i: usize = 0;
    assert(parts@.take(0) =~= seq![]);
    while i < parts.len()
        invariant
            i <= parts.len(),
            all@ == joined(parts@.take(i as int)),
        decreases parts.len() - i,
    {
        append_bytes(&mut all, parts[i]);
        assert(parts@.take(i + 1).drop_last() =~= parts@.take(i as int));
        i = i + 1;
    }
    assert(parts@.take(i as int) =~= parts@);
    sha1_digest(all.as_slice())
}

/// The digest of a label, a secret and a key.
pub open spec fn labelled(label: Seq<u8>, a: Seq<u8>, b: Seq<u8>) -> Seq<u8> {
    sha1(label + a + b)
}

fn labelled_hash(label: &str, a: &[u8], b: &[u8]) -> (r: [u8; 20])
    ensures
        r@ == labelled(label.spec_bytes(), a@, b@),
{
    let parts: [&[u8]; 3] = [label.as_bytes(), a, b];
    proof {
        let s = parts@;
        reveal_with_fuel(joined, 4);
        assert(joined(s) =~= label.spec_bytes() + a@ + b@);
    }
    sha1_hash(parts.as_slice())
}

/// The three request hashes combined.
pub open spec fn combined(req1: Seq<u8>, req2: Seq<u8>, req3: Seq<u8>) -> Seq<u8> {
    Seq::new(20, |i: int| req1[i] ^ (req2[i] ^ req3[i]))
}

/// Combine the three request hashes.
pub fn combine_hashes(req1: &[u8; 20], req2: &[u8; 20], req3: &[u8; 20]) -> (r: Vec<u8>)
    ensures
        r@ == combined(req1@, req2@, req3@),
{
    let mut r: Vec<u8> = Vec::new();
    let mut i: usize = 0;
    while i < 20
        invariant
            i <= 20,
            r@.len() == i,
            forall|k: int| 0 <= k < i ==> #[trigger] r@[k] == req1@[k] ^ (req2@[k] ^ req3@[k]),
        decreases 20 - i,
    {
        r.push(req1[i] ^ (req2[i] ^ req3[i]));
        i = i + 1;
    }
    assert(r@ =~= combined(req1@, req2@, req3@));
    r
}

/// The obfuscated hash of the torrent that tells the peer which one is meant.
pub open spec fn skey_hash(secret: Seq<u8>, skey: Seq<u8>) -> Seq<u8> {
    combined(
        labelled("req1".spec_bytes(), secret, seq![]),
        labelled("req2".spec_bytes(), skey, seq![]),
        labelled("req3".spec_bytes(), secret, seq![]),
    )
}

/// The cipher from the initiator to the responder.
pub open spec fn cipher_a(secret: Seq<u8>, skey: Seq<u8>) -> Cipher {
    Cipher::keyed(labelled("keyA".spec_bytes(), secret, skey)).after(1024)
}

/// The cipher from the responder to the initiator.
pub open spec fn cipher_b(secret: Seq<u8>, skey: Seq<u8>) -> Cipher {
    Cipher::keyed(labelled("keyB".spec_bytes(), secret, skey)).after(1024)
}

/// The crypto method RC4, as it is offered and selected.
pub const CRYPTO_RC4: u32 = 0x02;

/// The crypto method plaintext.
pub const CRYPTO_PLAINTEXT: u32 = 0x01;

/// VC || crypto_provide || len(padC) || len(IA), with no padding and no payload.
pub open spec fn init_message() -> Seq<u8> {
    Seq::new(8, |i: int| 0u8) + be32(CRYPTO_RC4) + be16(0) + be16(0)
}

/// The length of the peer's answer up to its padding.
pub const RESPONSE_LEN: usize = 14;

/// The initiator's side of the handshake.
pub struct Initiator {
    private_key: Vec<u8>,
    info_hash: InfoHash,
}

/// An encrypted connection: one cipher for each direction, and the encrypted
/// bytes that wait to be written to the wire.
pub struct MseCodec {
    enc: Rc4,
    dec: Rc4,
    write_buf: Vec<u8>,
}

/// The content of an [`MseCodec`].
#[verifier::ext_equal]
pub struct Codec {
    pub enc: Cipher,
    pub dec: Cipher,
    pub pending: Seq<u8>,
}

/// How the connection goes on after the handshake.
#[derive(Debug, Clone, Copy, PartialEq, Eq, Structural)]
pub enum Selected {
    /// Everything that follows is encrypted.
    Rc4,
    /// What follows is sent as it is.
    Plaintext,
}

/// What the peer selected, as far as we support it.
pub open spec fn selected_of(crypto_select: u32) -> std::result::Result<Selected, PeerError> {
    if crypto_select & CRYPTO_RC4 != 0 {
        Ok(Selected::Rc4)
    } else if crypto_select & CRYPTO_PLAINTEXT != 0 {
        Ok(Selected::Plaintext)
    } else {
        Err(PeerError::Rc4NotSelected)
    }
}

/// How the connection goes on, from the peer's selection.
pub fn selected(crypto_select: u32) -> (r: Result<Selected>)
    ensures
        match selected_of(crypto_select) {
            Ok(s) => r matches Ok(x) && x == s,
            Err(e) => r matches Err(Error::Peer(x)) && x == e,
        },
{
    if crypto_select & CRYPTO_RC4 != 0 {
        Ok(Selected::Rc4)
    } else if crypto_select & CRYPTO_PLAINTEXT != 0 {
        Ok(Selected::Plaintext)
    } else {
        Err(Error::Peer(PeerError::Rc4NotSelected))
    }
}

/// Up to 63 random bytes of padding.
pub fn random_pad() -> (pad: Vec<u8>)
    ensures
        pad@.len() < 64,
{
    random_bytes(random_range(0, 64))
}

impl Initiator {
    /// The private key.
    pub closed spec fn key(&self) -> Seq<u8> {
        self.private_key@
    }

    /// The hash of the torrent that the connection is about.
    pub closed spec fn skey(&self) -> Seq<u8> {
        self.info_hash.0@
    }

    /// Begin a handshake with the given private key.
    pub fn with_key(private_key: Vec<u8>, info_hash: InfoHash) -> (r: Initiator)
        ensures
            r.key() == private_key@,
            r.skey() == info_hash.0@,
    {
        Initiator { private_key, info_hash }
    }

    /// Begin a handshake with a random 160-bit private key.
    pub fn start(info_hash: InfoHash) -> (r: Initiator)
        ensures
            r.key().len() == 20,
            r.skey() == info_hash.0@,
    {
        Initiator::with_key(random_bytes(20), info_hash)
    }

    /// The first thing to send: our public key and some padding.
    pub fn hello(&self, pad: &[u8]) -> (r: Vec<u8>)
        ensures
            r@ == public_of(self.key()) + pad@,
            r@.len() == DH_KEY_BYTES + pad@.len(),
    {
        let mut r = public_key(self.private_key.as_slice());
        append_bytes(&mut r, pad);
        r
    }

    /// What to send when the peer's public key has arrived, and the ciphers of
    /// the connection.
    pub fn answer(&self, xb: &[u8]) -> (r: (Vec<u8>, MseCodec))
        ensures
            ({
                let secret = secret_of(xb@, self.key());
                let enc = cipher_a(secret, self.skey());
                &&& r.0@ == skey_hash(secret, self.skey()) + enc.applied(init_message())
                &&& r.1@ == (Codec {
                    enc: enc.after(init_message().len()),
                    dec: cipher_b(secret, self.skey()),
                    pending: seq![],
                })
            }),
    {
        let s = shared_secret(xb, self.private_key.as_slice());
        let none: [u8; 0] = [];
        assert(none@ =~= seq![]);
        let skey = self.info_hash.0.as_slice();
        let req1 = labelled_hash("req1", s.as_slice(), none.as_slice());
        let req2 = labelled_hash("req2", skey, none.as_slice());
        let req3 = labelled_hash("req3", s.as_slice(), none.as_slice());
        let mut msg = combine_hashes(&req1, &req2, &req3);
        let key_a = labelled_hash("keyA", s.as_slice(), skey);
        let key_b = labelled_hash("keyB", s.as_slice(), skey);
        let mut enc = Rc4::new(key_a.as_slice());
        let dec = Rc4::new(key_b.as_slice());
        let vc: [u8; 8] = [0, 0, 0, 0, 0, 0, 0, 0];
        let mut init: Vec<u8> = Vec::new();
        append_bytes(&mut init, vc.as_slice());
        append_be32(&mut init, CRYPTO_RC4);
        append_be16(&mut init, 0);
        append_be16(&mut init, 0);
        assert(init@ =~= init_message());
        let encrypted = enc.encrypt(init.as_slice());
        append_bytes(&mut msg, encrypted.as_slice());
        let codec = MseCodec { enc, dec, write_buf: Vec::new() };
        assert(codec@.pending =~= seq![]);
        (msg, codec)
    }
}

impl View for MseCodec {
    type V = Codec;

    closed spec fn view(&self) -> Codec {
        Codec { enc: self.enc@, dec: self.dec@, pending: self.write_buf@ }
    }
}

impl MseCodec {
    /// Read the peer's answer: what it selected, and how much padding follows.
    pub fn open_response(&mut self, resp: &[u8]) -> (r: (u32, u16))
        requires
            resp@.len() == RESPONSE_LEN,
        ensures
            ({
                let plain = old(self)@.dec.applied(resp@);
                r == (from_be32(plain, 8), from_be16(plain, 12))
            }),
            final(self)@ == (Codec { dec: old(self)@.dec.after(resp@.len()), ..old(self)@ }),
    {
        let mut plain: Vec<u8> = vstd::slice::slice_to_vec(resp);
        self.dec.decrypt(plain.as_mut_slice());
        (u32_be(plain.as_slice(), 8), u16_be(plain.as_slice(), 12))
    }

    /// Decrypt bytes that arrived.
    pub fn decrypt(&mut self, data: &mut [u8])
        ensures
            final(data)@ == old(self)@.dec.applied(old(data)@),
            final(self)@ == (Codec { dec: old(self)@.dec.after(old(data)@.len()), ..old(self)@ }),
    {
        self.dec.decrypt(data);
    }

    /// The encrypted bytes that wait to be written.
    pub fn pending(&self) -> (r: &[u8])
        ensures
            r@ == self@.pending,
    {
        self.write_buf.as_slice()
    }

    /// Encrypt data and queue it behind what waits to be written.
    pub fn queue(&mut self, data: &[u8])
        ensures
            final(self)@ == (Codec {
                enc: old(self)@.enc.after(data@.len()),
                pending: old(self)@.pending + old(self)@.enc.applied(data@),
                ..old(self)@
            }),
    {
        let encrypted = self.enc.encrypt(data);
        append_bytes(&mut self.write_buf, encrypted.as_slice());
    }

    /// The first `n` bytes that waited have been written.
    pub fn written(&mut self, n: usize)
        requires
            n <= old(self)@.pending.len(),
        ensures
            final(self)@ == (Codec { pending: old(self)@.pending.skip(n as int), ..old(self)@ }),
    {
        let rest = crate::octets::copy_range(self.write_buf.as_slice(), n, self.write_buf.len());
        assert(rest@ =~= self.write_buf@.skip(n as int));
        self.write_buf = rest;
    }
}

// Laws

proof fn lemma_xor_twice(a: u8, k: u8)
    by (bit_vector)
    ensures
        (a ^ k) ^ k == a,
{
}

/// Decrypting with the cipher that encrypted gives the data back.
pub proof fn lemma_rc4_round_trip(c: Cipher, data: Seq<u8>)
    ensures
        c.applied(c.applied(data)) == data,
{
    let twice = c.applied(c.applied(data));
    assert forall|k: int| 0 <= k < data.len() implies twice[k] == data[k] by {
        lemma_xor_twice(data[k], c.stream(data.len())[k]);
    }
    assert(twice =~= data);
}

proof fn lemma_after_adds(c: Cipher, m: nat, n: nat)
    ensures
        c.after(m).after(n) == c.after(m + n),
    decreases n,
{
    if n > 0 {
        lemma_after_adds(c, m, (n - 1) as nat);
    }
}

/// How a stream is cut into parts does not matter to the cipher.
pub proof fn lemma_rc4_parts(c: Cipher, a: Seq<u8>, b: Seq<u8>)
    ensures
        c.applied(a + b) == c.applied(a) + c.after(a.len()).applied(b),
        c.after((a + b).len()) == c.after(a.len()).after(b.len()),
{
    lemma_after_adds(c, a.len(), b.len());
    let whole = c.applied(a + b);
    let parts = c.applied(a) + c.after(a.len()).applied(b);
    assert forall|k: int| 0 <= k < whole.len() implies whole[k] == parts[k] by {
        if k >= a.len() {
            lemma_after_adds(c, a.len(), (k - a.len() + 1) as nat);
        }
    }
    assert(whole =~= parts);
}

/// Whoever sends with a cipher is understood by a peer with the same cipher,
/// however the data is cut into messages on one side and reads on the other.
pub proof fn lemma_stream_is_understood(c: Cipher, a: Seq<u8>, b: Seq<u8>)
    ensures
        c.applied(c.applied(a) + c.after(a.len()).applied(b)) == a + b,
{
    lemma_rc4_parts(c, a, b);
    lemma_rc4_round_trip(c, a + b);
}

/// Both sides of the exchange compute the same secret.
pub proof fn lemma_dh_agreement(a: Seq<u8>, b: Seq<u8>)
    ensures
        secret_of(public_of(b), a) == secret_of(public_of(a), b),
{
    lemma_public_number(a);
    lemma_public_number(b);
    let g = G as int;
    let p = prime() as int;
    let x = number(a);
    let y = number(b);
    lemma_prime_bounds();
    lemma_pow_mod_noop(pow(g, y), x, p);
    lemma_pow_mod_noop(pow(g, x), y, p);
    lemma_pow_multiplies(g, y, x);
    lemma_pow_multiplies(g, x, y);
    lemma_mul_is_commutative(x as int, y as int);
}

proof fn lemma_public_number(a: Seq<u8>)
    ensures
        number(public_of(a)) == pow(G as int, number(a)) % prime() as int,
{
    lemma_prime_bounds();
    let n = (pow(G as int, number(a)) % prime() as int) as nat;
    lemma_fixed_exists(n, DH_KEY_BYTES as nat);
}

proof fn lemma_fixed_exists(n: nat, len: nat)
    requires
        n < pow(256, len),
    ensures
        exists|s: Seq<u8>| s.len() == len && number(s) == n,
    decreases len,
{
    if len == 0 {
        vstd::arithmetic::power::lemma_pow0(256);
        let s = Seq::<u8>::empty();
        assert(s.len() == len && number(s) == n);
    } else {
        let m = (len - 1) as nat;
        lemma_pow256(m);
        assert(n / 256 < pow(256, m));
        lemma_fixed_exists(n / 256, m);
        let head = choose|s: Seq<u8>| s.len() == m && number(s) == n / 256;
        let s = head.push((n % 256) as u8);
        assert(s.drop_last() =~= head);
        assert(s.len() == len && number(s) == n);
    }
}

/// Whether a sequence holds every byte once.
pub open spec fn is_permutation(s: Seq<u8>) -> bool {
    &&& s.len() == 256
    &&& forall|i: int, j: int| 0 <= i < j < 256 ==> #[trigger] s[i] != #[trigger] s[j]
}

proof fn lemma_swapped(s: Seq<u8>, i: int, j: int)
    requires
        is_permutation(s),
        0 <= i < 256,
        0 <= j < 256,
    ensures
        is_permutation(swapped(s, i, j)),
{
}

proof fn lemma_schedule(key: Seq<u8>, n: int)
    requires
        n <= 256,
    ensures
        is_permutation(key_schedule(key, n).0),
    decreases n,
{
    if n > 0 {
        lemma_schedule(key, n - 1);
        let (s, j0) = key_schedule(key, n - 1);
        let j = add8(add8(j0, s[n - 1]), key[(n - 1) % key.len() as int]);
        lemma_swapped(s, n - 1, j as int);
    } else {
        let s = key_schedule(key, n).0;
        assert forall|i: int, j: int| 0 <= i < j < 256 implies #[trigger] s[i]
            != #[trigger] s[j] by {
            assert(s[i] == i as u8 && s[j] == j as u8);
        }
    }
}

/// The state of the cipher is always a permutation of the bytes, and its first
/// index counts the bytes of the key stream.
pub proof fn lemma_cipher_is_permutation(key: Seq<u8>, n: nat)
    ensures
        is_permutation(Cipher::keyed(key).after(n).s),
        Cipher::keyed(key).after(n).i == n % 256,
    decreases n,
{
    if n == 0 {
        lemma_schedule(key, 256);
    } else {
        lemma_cipher_is_permutation(key, (n - 1) as nat);
        let c = Cipher::keyed(key).after((n - 1) as nat);
        let i = add8(c.i, 1);
        lemma_swapped(c.s, i as int, add8(c.j, c.s[i as int]) as int);
    }
}

proof fn lemma_xor_out(a: u8, b: u8, c: u8)
    by (bit_vector)
    ensures
        ((a ^ (b ^ c)) ^ a) ^ c == b,
{
}

/// A peer that shares the secret reads from our request which torrent is meant.
pub proof fn lemma_torrent_is_recognised(secret: Seq<u8>, skey: Seq<u8>, i: int)
    requires
        0 <= i < 20,
    ensures
        (skey_hash(secret, skey)[i] ^ sha1("req1".spec_bytes() + secret)[i]) ^ sha1(
            "req3".spec_bytes() + secret,
        )[i] == sha1("req2".spec_bytes() + skey)[i],
        skey_hash(secret, skey).len() == 20,
{
    assert("req1".spec_bytes() + secret + seq![] =~= "req1".spec_bytes() + secret);
    assert("req2".spec_bytes() + skey + seq![] =~= "req2".spec_bytes() + skey);
    assert("req3".spec_bytes() + secret + seq![] =~= "req3".spec_bytes() + secret);
    lemma_xor_out(
        sha1("req1".spec_bytes() + secret)[i],
        sha1("req2".spec_bytes() + skey)[i],
        sha1("req3".spec_bytes() + secret)[i],
    );
}

proof fn lemma_labels()
    ensures
        "keyA".spec_bytes() == seq![0x6bu8, 0x65, 0x79, 0x41],
        "keyB".spec_bytes() == seq![0x6bu8, 0x65, 0x79, 0x42],
{
    reveal_strlit("keyA");
    reveal_strlit("keyB");
    is_ascii_chars_encode_utf8("keyA"@);
    is_ascii_chars_encode_utf8("keyB"@);
    assert("keyA".spec_bytes() =~= seq![0x6bu8, 0x65, 0x79, 0x41]);
    assert("keyB".spec_bytes() =~= seq![0x6bu8, 0x65, 0x79, 0x42]);
}

/// What we send is encrypted under the digest of "keyA" and what we receive
/// under that of "keyB", each with the secret and the torrent's hash behind it,
/// and without the first 1024 bytes of the key stream.
pub proof fn lemma_cipher_keys(secret: Seq<u8>, skey: Seq<u8>)
    ensures
        cipher_a(secret, skey) == Cipher::keyed(
            sha1(seq![0x6bu8, 0x65, 0x79, 0x41] + secret + skey),
        ).after(1024),
        cipher_b(secret, skey) == Cipher::keyed(
            sha1(seq![0x6bu8, 0x65, 0x79, 0x42] + secret + skey),
        ).after(1024),
{
    lemma_labels();
}

/// Both sides of a connection come to the same ciphers and the same hash of the
/// torrent, whatever their private keys.
pub proof fn lemma_both_sides_agree(a: Seq<u8>, b: Seq<u8>, skey: Seq<u8>)
    ensures
        cipher_a(secret_of(public_of(b), a), skey) == cipher_a(secret_of(public_of(a), b), skey),
        cipher_b(secret_of(public_of(b), a), skey) == cipher_b(secret_of(public_of(a), b), skey),
        skey_hash(secret_of(public_of(b), a), skey) == skey_hash(
            secret_of(public_of(a), b),
            skey,
        ),
{
    lemma_dh_agreement(a, b);
}

/// The first encrypted message: eight zero bytes, the offer of RC4 alone, and
/// neither padding nor payload.
pub proof fn lemma_init_message()
    ensures
        init_message() == seq![0u8, 0, 0, 0, 0, 0, 0, 0, 0, 0, 0, 2, 0, 0, 0, 0],
{
    assert(init_message() =~= seq![0u8, 0, 0, 0, 0, 0, 0, 0, 0, 0, 0, 2, 0, 0, 0, 0]);
}

/// What a peer selects, and how much padding it adds, is read from its
/// encrypted answer, whatever the cipher.
pub proof fn lemma_answer_is_read(c: Cipher, vc: Seq<u8>, select: u32, padding: u16)
    requires
        vc.len() == 8,
    ensures
        ({
            let answer = vc + be32(select) + be16(padding);
            let plain = c.applied(c.applied(answer));
            &&& answer.len() == RESPONSE_LEN
            &&& from_be32(plain, 8) == select
            &&& from_be16(plain, 12) == padding
        }),
{
    let answer = vc + be32(select) + be16(padding);
    lemma_rc4_round_trip(c, answer);
    assert(answer.subrange(8, 12) =~= be32(select));
    assert(answer.subrange(12, 14) =~= be16(padding));
    lemma_be_round_trip(answer, 8);
    lemma_be_round_trip(answer, 12);
}

proof fn lemma_select_bits(n: u32)
    by (bit_vector)
    ensures
        (n & 0x02 != 0) <==> (n / 2) % 2 == 1,
        (n & 0x01 != 0) <==> n % 2 == 1,
{
}

/// RC4 is taken whenever the peer selected it, plaintext only if it selected
/// that alone, and nothing else is accepted.
pub proof fn lemma_selection(n: u32)
    ensures
        (n / 2) % 2 == 1 ==> selected_of(n) == Ok::<Selected, PeerError>(Selected::Rc4),
        (n / 2) % 2 == 0 && n % 2 == 1 ==> selected_of(n) == Ok::<Selected, PeerError>(
            Selected::Plaintext,
        ),
        (n / 2) % 2 == 0 && n % 2 == 0 ==> selected_of(n) == Err::<Selected, PeerError>(
            PeerError::Rc4NotSelected,
        ),
{
    lemma_select_bits(n);
}

} // verus!
