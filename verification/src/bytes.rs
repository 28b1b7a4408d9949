//! Byte ciphers that can be chained: base64 decoding, AES decryption,
//! Malbolge execution and fuzzy replacement.
use vstd::prelude::*;
use vstd::utf8::{decode_utf8, valid_utf8};
use aes::cipher::{BlockDecrypt, KeyInit};
use aes::{Aes128, Aes192, Aes256};
use base64::Engine;
use crate::Noop;
use crate::text::string_from_utf8;

pub mod fuzzy;
pub mod malbolge;
pub mod pkcs7;

pub use fuzzy::{fuzzy_replace, FuzzyReplace};
pub use malbolge::{crazy, malbolge, Malbolge, POW3};

verus! {

/// Why processing bytes failed. Each error marks input on which a
/// panicking decoder would stop: invalid base64 text, an AES key or
/// ciphertext of the wrong length, bad padding, a Malbolge program that does
/// not load or reads input, a single fuzzy replacement that finds no match,
/// output that is not UTF-8. (`MalbolgeStepLimit` marks a run cut short.)
#[derive(Clone, Copy, Debug, PartialEq, Eq)]
pub enum CipherError {
    InvalidBase64,
    InvalidAesKeyLength,
    InvalidCiphertextLength,
    InvalidPadding,
    InvalidMalbolgeOpcode,
    MalbolgeProgramTooShort,
    MalbolgeInputExhausted,
    MalbolgeStepLimit,
    FuzzyMatchNotFound,
    InvalidUtf8,
}

// ---------------------------------------------------------------------
// AES
// ---------------------------------------------------------------------

/// What AES-128 decryption of one block under `key` gives.
pub uninterp spec fn aes128_decrypt(key: Seq<u8>, block: Seq<u8>) -> Seq<u8>;

/// What AES-192 decryption of one block under `key` gives.
pub uninterp spec fn aes192_decrypt(key: Seq<u8>, block: Seq<u8>) -> Seq<u8>;

/// What AES-256 decryption of one block under `key` gives.
pub uninterp spec fn aes256_decrypt(key: Seq<u8>, block: Seq<u8>) -> Seq<u8>;

/// `Aes128::new_from_slice` then `BlockDecrypt::decrypt_block`: the
/// decryption of one 16-byte block under a 16-byte key, itself 16 bytes.
#[verifier::external_body]
fn aes128_decrypt_block(key: &[u8], block: &[u8]) -> (r: Vec<u8>)
    requires
        key@.len() == 16,
        block@.len() == 16,
    ensures
        r@ == aes128_decrypt(key@, block@),
        r@.len() == 16,
{
    let cipher = Aes128::new_from_slice(key).unwrap();
    let mut b = aes::Block::clone_from_slice(block);
    cipher.decrypt_block(&mut b);
    b.to_vec()
}

/// `Aes192::new_from_slice` then `BlockDecrypt::decrypt_block`: the
/// decryption of one 16-byte block under a 24-byte key, itself 16 bytes.
#[verifier::external_body]
fn aes192_decrypt_block(key: &[u8], block: &[u8]) -> (r: Vec<u8>)
    requires
        key@.len() == 24,
        block@.len() == 16,
    ensures
        r@ == aes192_decrypt(key@, block@),
        r@.len() == 16,
{
    let cipher = Aes192::new_from_slice(key).unwrap();
    let mut b = aes::Block::clone_from_slice(block);
    cipher.decrypt_block(&mut b);
    b.to_vec()
}

/// `Aes256::new_from_slice` then `BlockDecrypt::decrypt_block`: the
/// decryption of one 16-byte block under a 32-byte key, itself 16 bytes.
#[verifier::external_body]
fn aes256_decrypt_block(key: &[u8], block: &[u8]) -> (r: Vec<u8>)
    requires
        key@.len() == 32,
        block@.len() == 16,
    ensures
        r@ == aes256_decrypt(key@, block@),
        r@.len() == 16,
{
    let cipher = Aes256::new_from_slice(key).unwrap();
    let mut b = aes::Block::clone_from_slice(block);
    cipher.decrypt_block(&mut b);
    b.to_vec()
}

/// AES takes keys of 128, 192 or 256 bits.
pub open spec fn aes_key_ok(key: Seq<u8>) -> bool {
    key.len() == 16 || key.len() == 24 || key.len() == 32
}

/// Decryption of one block with the AES variant that the key's length picks.
pub open spec fn aes_block(key: Seq<u8>, block: Seq<u8>) -> Seq<u8> {
    if key.len() == 16 {
        aes128_decrypt(key, block)
    } else if key.len() == 24 {
        aes192_decrypt(key, block)
    } else {
        aes256_decrypt(key, block)
    }
}

/// Block-by-block (ECB) decryption of `data`, whose length is a multiple of 16.
pub open spec fn aes_blocks(key: Seq<u8>, data: Seq<u8>) -> Seq<u8>
    decreases data.len(),
{
    if data.len() < 16 {
        seq![]
    } else {
        aes_blocks(key, data.take(data.len() - 16)) + aes_block(key, data.skip(data.len() - 16))
    }
}

/// Decrypted data ends in one to sixteen bytes of PKCS#7 padding.
pub open spec fn aes_padding_ok(p: Seq<u8>) -> bool {
    p.len() > 0 && p.last() <= 16 && pkcs7::padding_ok(p)
}

/// AES-ECB decryption of `data` under `key` with the padding removed.
pub open spec fn aes_output(data: Seq<u8>, key: Seq<u8>) -> Result<Seq<u8>, CipherError> {
    if !aes_key_ok(key) {
        Err(CipherError::InvalidAesKeyLength)
    } else if data.len() % 16 != 0 {
        Err(CipherError::InvalidCiphertextLength)
    } else {
        let p = aes_blocks(key, data);
        if aes_padding_ok(p) {
            Ok(pkcs7::unpadded(p))
        } else {
            Err(CipherError::InvalidPadding)
        }
    }
}

fn decrypt_block(key: &[u8], block: &[u8]) -> (r: Vec<u8>)
    requires
        aes_key_ok(key@),
        block@.len() == 16,
    ensures
        r@ == aes_block(key@, block@),
        r@.len() == 16,
{
    if key.len() == 16 {
        aes128_decrypt_block(key, block)
    } else if key.len() == 24 {
        aes192_decrypt_block(key, block)
    } else {
        aes256_decrypt_block(key, block)
    }
}

/// Decrypts `data` in place, block by block, with the AES variant that the
/// key's length picks.
pub fn decrypt1(key: &[u8], data: &mut Vec<u8>)
    requires
        aes_key_ok(key@),
        old(data)@.len() % 16 == 0,
    ensures
        final(data)@ == aes_blocks(key@, old(data)@),
{
    let mut out: Vec<u8> = Vec::new();
    let n = data.len() / 16;
    assert(n * 16 == data@.len());
    let mut j: usize = 0;
    while j < n
        invariant
            j <= n,
            n * 16 == data@.len(),
            16 * n <= usize::MAX,
            aes_key_ok(key@),
            out@ == aes_blocks(key@, data@.take(16 * j as int)),
        decreases n - j,
    {
        assert(16 * j + 16 <= 16 * n);
        let block = vstd::slice::slice_subrange(data.as_slice(), 16 * j, 16 * j + 16);
        let dec = decrypt_block(key, block);
        let ghost pre = data@.take(16 * (j + 1) as int);
        assert(pre.take(pre.len() - 16) == data@.take(16 * j as int));
        assert(pre.skip(pre.len() - 16) == block@);
        let mut k: usize = 0;
        let ghost out0 = out@;
        while k < 16
            invariant
                k <= 16,
                dec@.len() == 16,
                out@ == out0 + dec@.take(k as int),
            decreases 16 - k,
        {
            out.push(dec[k]);
            k = k + 1;
            assert(dec@.take(k as int) == dec@.take(k - 1).push(dec@[k - 1]));
        }
        assert(dec@.take(16) == dec@);
        j = j + 1;
    }
    assert(data@.take(16 * n as int) == data@);
    *data = out;
}

/// AES decryption of `data` under `key` with its PKCS#7 padding removed.
/// The key must have 16, 24 or 32 bytes and the data a non-zero multiple
/// of 16 bytes. Data whose decryption does not end in one to sixteen bytes
/// of valid padding gives `InvalidPadding`, which stands in for a panic.
pub fn decrypt_aes(data: &[u8], key: &[u8]) -> (r: Result<Vec<u8>, CipherError>)
    requires
        aes_key_ok(key@),
        data@.len() % 16 == 0,
        data@.len() > 0,
    ensures
        bytes_result(r) == aes_output(data@, key@),
        r is Err ==> r == Err::<Vec<u8>, CipherError>(CipherError::InvalidPadding),
{
    decrypt_checked(data, key)
}

/// `decrypt_aes` for any key and data, as a cipher step meets them: a key
/// of another length, or data whose length is not a multiple of 16, gives
/// an error that stands in for a panic.
fn decrypt_checked(data: &[u8], key: &[u8]) -> (r: Result<Vec<u8>, CipherError>)
    ensures
        bytes_result(r) == aes_output(data@, key@),
{
    if !(key.len() == 16 || key.len() == 24 || key.len() == 32) {
        return Err(CipherError::InvalidAesKeyLength);
    }
    if data.len() % 16 != 0 {
        return Err(CipherError::InvalidCiphertextLength);
    }
    let mut buf = vstd::slice::slice_to_vec(data);
    decrypt1(key, &mut buf);
    let len = buf.len();
    if len == 0 || buf[len - 1] > 16 || !pkcs7::is_padded(buf.as_slice()) {
        return Err(CipherError::InvalidPadding);
    }
    pkcs7::unpad(&mut buf);
    Ok(buf)
}

// ---------------------------------------------------------------------
// base64
// ---------------------------------------------------------------------

/// What `base64::engine::general_purpose::STANDARD.decode` gives on
/// `input`, or `None` where it reports an error.
pub uninterp spec fn base64_standard_decode(input: Seq<u8>) -> Option<Seq<u8>>;

/// `base64::engine::general_purpose::STANDARD.decode`: the decoded bytes,
/// `None` where the crate reports a decoding error.
#[verifier::external_body]
fn base64_decode_standard(input: &[u8]) -> (r: Option<Vec<u8>>)
    ensures
        match r {
            Some(v) => base64_standard_decode(input@) == Some(v@),
            None => base64_standard_decode(input@) is None,
        },
{
    base64::engine::general_purpose::STANDARD.decode(input).ok()
}

/// The bytes that may stand in base64 text: letters, digits and `=/+_-`.
pub open spec fn base64_kept(b: u8) -> bool {
    (48 <= b <= 57) || (65 <= b <= 90) || (97 <= b <= 122) || b == 61 || b == 47 || b == 43
        || b == 95 || b == 45
}

/// The URL-safe `_` and `-` become the standard `/` and `+`.
pub open spec fn base64_standardized(b: u8) -> u8 {
    if b == 95 {
        47
    } else if b == 45 {
        43
    } else {
        b
    }
}

/// The input with every other byte dropped and the URL-safe alphabet
/// mapped to the standard one.
pub open spec fn base64_normalize(data: Seq<u8>) -> Seq<u8>
    decreases data.len(),
{
    if data.len() == 0 {
        seq![]
    } else if base64_kept(data.last()) {
        base64_normalize(data.drop_last()).push(base64_standardized(data.last()))
    } else {
        base64_normalize(data.drop_last())
    }
}

/// What base64 decoding of `data` gives.
pub open spec fn base64_output(data: Seq<u8>) -> Result<Seq<u8>, CipherError> {
    match base64_standard_decode(base64_normalize(data)) {
        Some(v) => Ok(v),
        None => Err(CipherError::InvalidBase64),
    }
}

/// Decodes base64, ignoring bytes that cannot stand in base64 text and
/// accepting the URL-safe alphabet too.
pub struct Base64Dec;

/// The base64 decoder.
pub fn base64() -> (r: Base64Dec) {
    Base64Dec
}

impl Base64Dec {
    fn run(&self, data: &[u8]) -> (r: Result<Vec<u8>, CipherError>)
        ensures
            bytes_result(r) == base64_output(data@),
    {
        let mut norm: Vec<u8> = Vec::new();
        let mut i: usize = 0;
        while i < data.len()
            invariant
                i <= data.len(),
                norm@ == base64_normalize(data@.take(i as int)),
            decreases data.len() - i,
        {
            let x = data[i];
            assert(data@.take(i + 1).drop_last() == data@.take(i as int));
            if (48 <= x && x <= 57) || (65 <= x && x <= 90) || (97 <= x && x <= 122) || x == 61
                || x == 47 || x == 43 || x == 95 || x == 45 {
                let y = if x == 95 {
                    47
                } else if x == 45 {
                    43
                } else {
                    x
                };
                norm.push(y);
            }
            i = i + 1;
        }
        assert(data@.take(data.len() as int) == data@);
        match base64_decode_standard(norm.as_slice()) {
            Some(v) => Ok(v),
            None => Err(CipherError::InvalidBase64),
        }
    }
}

// ---------------------------------------------------------------------
// Keyed AES ciphers
// ---------------------------------------------------------------------

/// Decrypts fixed data with the key that is processed.
pub struct DecryptData(Vec<u8>);

impl View for DecryptData {
    type V = Seq<u8>;

    closed spec fn view(&self) -> Seq<u8> {
        self.0@
    }
}

/// The cipher that decrypts `data` under the key it is given.
pub fn decrypt_data(data: &[u8]) -> (r: DecryptData)
    ensures
        r@ == data@,
{
    DecryptData(vstd::slice::slice_to_vec(data))
}

/// Decrypts what is processed with a fixed key.
pub struct DecryptDataWith(Vec<u8>);

impl View for DecryptDataWith {
    type V = Seq<u8>;

    closed spec fn view(&self) -> Seq<u8> {
        self.0@
    }
}

/// The cipher that decrypts its input under `key`.
pub fn decrypt_with(key: &[u8]) -> (r: DecryptDataWith)
    ensures
        r@ == key@,
{
    DecryptDataWith(vstd::slice::slice_to_vec(key))
}

// ---------------------------------------------------------------------
// Chains of ciphers
// ---------------------------------------------------------------------

/// One cipher of a chain.
pub enum CipherStep {
    Noop,
    Base64(Base64Dec),
    DecryptData(DecryptData),
    DecryptDataWith(DecryptDataWith),
    Malbolge(Malbolge),
    FuzzyReplace(FuzzyReplace),
}

/// A result's bytes by their view.
pub open spec fn bytes_result(r: Result<Vec<u8>, CipherError>) -> Result<Seq<u8>, CipherError> {
    match r {
        Ok(v) => Ok(v@),
        Err(e) => Err(e),
    }
}

/// What one cipher makes of `data`.
pub open spec fn step_output(step: CipherStep, data: Seq<u8>) -> Result<Seq<u8>, CipherError> {
    match step {
        CipherStep::Noop => Ok(data),
        CipherStep::Base64(_) => base64_output(data),
        CipherStep::DecryptData(d) => aes_output(d@, data),
        CipherStep::DecryptDataWith(k) => aes_output(data, k@),
        CipherStep::Malbolge(_) => malbolge::malbolge_output(data),
        CipherStep::FuzzyReplace(f) => fuzzy::fuzzy_output(f@.0, f@.1, f@.2, data),
    }
}

/// What the ciphers make of `data` when each processes the output of the
/// one before; the first error ends the chain.
pub open spec fn chain_output(steps: Seq<CipherStep>, data: Seq<u8>) -> Result<Seq<u8>, CipherError>
    decreases steps.len(),
{
    if steps.len() == 0 {
        Ok(data)
    } else {
        match step_output(steps[0], data) {
            Ok(d) => chain_output(steps.drop_first(), d),
            Err(e) => Err(e),
        }
    }
}

fn step_process(step: &CipherStep, data: &[u8]) -> (r: Result<Vec<u8>, CipherError>)
    ensures
        bytes_result(r) == step_output(*step, data@),
{
    match step {
        CipherStep::Noop => Ok(vstd::slice::slice_to_vec(data)),
        CipherStep::Base64(b) => b.run(data),
        CipherStep::DecryptData(d) => decrypt_checked(d.0.as_slice(), data),
        CipherStep::DecryptDataWith(k) => decrypt_checked(data, k.0.as_slice()),
        CipherStep::Malbolge(m) => {
            let r = m.run(data);
            match r {
                Ok(v) => Ok(v),
                Err(e) => Err(e),
            }
        },
        CipherStep::FuzzyReplace(f) => {
            let r = f.run(data);
            match r {
                Ok(v) => Ok(v),
                Err(e) => Err(e),
            }
        },
    }
}

fn steps_process(steps: &Vec<CipherStep>, data: &[u8]) -> (r: Result<Vec<u8>, CipherError>)
    ensures
        bytes_result(r) == chain_output(steps@, data@),
{
    let mut cur = vstd::slice::slice_to_vec(data);
    let mut i: usize = 0;
    assert(steps@.skip(0) == steps@);
    while i < steps.len()
        invariant
            i <= steps.len(),
            chain_output(steps@.skip(i as int), cur@) == chain_output(steps@, data@),
        decreases steps.len() - i,
    {
        let ghost rest = steps@.skip(i as int);
        assert(rest[0] == steps@[i as int]);
        assert(rest.drop_first() == steps@.skip(i + 1));
        match step_process(&steps[i], cur.as_slice()) {
            Ok(v) => {
                cur = v;
            },
            Err(e) => {
                return Err(e);
            },
        }
        i = i + 1;
    }
    assert(steps@.skip(steps.len() as int).len() == 0);
    Ok(cur)
}

/// A byte transformation that can be chained with others.
pub trait Cipher: Sized {
    /// The single ciphers this one applies, in order.
    spec fn steps(&self) -> Seq<CipherStep>;

    /// Processes `data`; the cipher itself is left as it was.
    fn process(&mut self, data: &[u8]) -> (r: Result<Vec<u8>, CipherError>)
        ensures
            *final(self) == *old(self),
            bytes_result(r) == chain_output(old(self).steps(), data@),
    ;

    /// The single ciphers this one applies.
    fn into_steps(self) -> (r: Vec<CipherStep>)
        ensures
            r@ == self.steps(),
    ;
}

/// The chain of `a` followed by `c`.
fn chain_of<A: Cipher, C: Cipher>(a: A, c: C) -> (r: Chain)
    ensures
        r@ == a.steps() + c.steps(),
{
    let mut s = a.into_steps();
    let mut o = c.into_steps();
    s.append(&mut o);
    Chain(s)
}

/// Ciphers applied one after another.
pub struct Chain(Vec<CipherStep>);

impl View for Chain {
    type V = Seq<CipherStep>;

    closed spec fn view(&self) -> Seq<CipherStep> {
        self.0@
    }
}

impl Cipher for Chain {
    open spec fn steps(&self) -> Seq<CipherStep> {
        self@
    }

    fn process(&mut self, data: &[u8]) -> (r: Result<Vec<u8>, CipherError>) {
        steps_process(&self.0, data)
    }

    fn into_steps(self) -> (r: Vec<CipherStep>) {
        self.0
    }
}

proof fn lemma_single_step(step: CipherStep, data: Seq<u8>)
    ensures
        chain_output(seq![step], data) == step_output(step, data),
{
    reveal_with_fuel(chain_output, 2);
    assert(seq![step].drop_first().len() == 0);
}

impl Cipher for Noop {
    open spec fn steps(&self) -> Seq<CipherStep> {
        seq![CipherStep::Noop]
    }

    fn process(&mut self, data: &[u8]) -> (r: Result<Vec<u8>, CipherError>) {
        proof {
            lemma_single_step(CipherStep::Noop, data@);
        }
        Ok(vstd::slice::slice_to_vec(data))
    }

    fn into_steps(self) -> (r: Vec<CipherStep>) {
        vec![CipherStep::Noop]
    }
}

impl Cipher for Base64Dec {
    open spec fn steps(&self) -> Seq<CipherStep> {
        seq![CipherStep::Base64(*self)]
    }

    fn process(&mut self, data: &[u8]) -> (r: Result<Vec<u8>, CipherError>) {
        proof {
            lemma_single_step(CipherStep::Base64(*self), data@);
        }
        self.run(data)
    }

    fn into_steps(self) -> (r: Vec<CipherStep>) {
        vec![CipherStep::Base64(self)]
    }
}

impl Cipher for DecryptData {
    open spec fn steps(&self) -> Seq<CipherStep> {
        seq![CipherStep::DecryptData(*self)]
    }

    fn process(&mut self, data: &[u8]) -> (r: Result<Vec<u8>, CipherError>) {
        proof {
            lemma_single_step(CipherStep::DecryptData(*self), data@);
        }
        decrypt_checked(self.0.as_slice(), data)
    }

    fn into_steps(self) -> (r: Vec<CipherStep>) {
        vec![CipherStep::DecryptData(self)]
    }
}

impl Cipher for DecryptDataWith {
    open spec fn steps(&self) -> Seq<CipherStep> {
        seq![CipherStep::DecryptDataWith(*self)]
    }

    fn process(&mut self, data: &[u8]) -> (r: Result<Vec<u8>, CipherError>) {
        proof {
            lemma_single_step(CipherStep::DecryptDataWith(*self), data@);
        }
        decrypt_checked(data, self.0.as_slice())
    }

    fn into_steps(self) -> (r: Vec<CipherStep>) {
        vec![CipherStep::DecryptDataWith(self)]
    }
}

impl Cipher for Malbolge {
    open spec fn steps(&self) -> Seq<CipherStep> {
        seq![CipherStep::Malbolge(*self)]
    }

    fn process(&mut self, data: &[u8]) -> (r: Result<Vec<u8>, CipherError>) {
        proof {
            lemma_single_step(CipherStep::Malbolge(*self), data@);
        }
        self.run(data)
    }

    fn into_steps(self) -> (r: Vec<CipherStep>) {
        vec![CipherStep::Malbolge(self)]
    }
}

impl Cipher for FuzzyReplace {
    open spec fn steps(&self) -> Seq<CipherStep> {
        seq![CipherStep::FuzzyReplace(*self)]
    }

    fn process(&mut self, data: &[u8]) -> (r: Result<Vec<u8>, CipherError>) {
        proof {
            lemma_single_step(CipherStep::FuzzyReplace(*self), data@);
        }
        self.run(data)
    }

    fn into_steps(self) -> (r: Vec<CipherStep>) {
        vec![CipherStep::FuzzyReplace(self)]
    }
}

impl Chain {
    /// This cipher followed by `other`.
    pub fn chain<C: Cipher>(self, other: C) -> (r: Chain)
        ensures
            r@ == self.steps() + other.steps(),
    {
        chain_of(self, other)
    }
}

impl Noop {
    /// This cipher followed by `other`.
    pub fn chain<C: Cipher>(self, other: C) -> (r: Chain)
        ensures
            r@ == self.steps() + other.steps(),
    {
        chain_of(self, other)
    }
}

impl Base64Dec {
    /// This cipher followed by `other`.
    pub fn chain<C: Cipher>(self, other: C) -> (r: Chain)
        ensures
            r@ == self.steps() + other.steps(),
    {
        chain_of(self, other)
    }
}

impl DecryptData {
    /// This cipher followed by `other`.
    pub fn chain<C: Cipher>(self, other: C) -> (r: Chain)
        ensures
            r@ == self.steps() + other.steps(),
    {
        chain_of(self, other)
    }
}

impl DecryptDataWith {
    /// This cipher followed by `other`.
    pub fn chain<C: Cipher>(self, other: C) -> (r: Chain)
        ensures
            r@ == self.steps() + other.steps(),
    {
        chain_of(self, other)
    }
}

impl Malbolge {
    /// This cipher followed by `other`.
    pub fn chain<C: Cipher>(self, other: C) -> (r: Chain)
        ensures
            r@ == self.steps() + other.steps(),
    {
        chain_of(self, other)
    }
}

impl FuzzyReplace {
    /// This cipher followed by `other`.
    pub fn chain<C: Cipher>(self, other: C) -> (r: Chain)
        ensures
            r@ == self.steps() + other.steps(),
    {
        chain_of(self, other)
    }
}

/// Bytes read as UTF-8 text.
pub open spec fn utf8_text(r: Result<Seq<u8>, CipherError>) -> Result<Seq<char>, CipherError> {
    match r {
        Ok(v) => if valid_utf8(v) {
            Ok(decode_utf8(v))
        } else {
            Err(CipherError::InvalidUtf8)
        },
        Err(e) => Err(e),
    }
}

/// What a chain makes of `data`, read as UTF-8 text.
pub open spec fn string_output(steps: Seq<CipherStep>, data: Seq<u8>) -> Result<Seq<char>, CipherError> {
    utf8_text(chain_output(steps, data))
}

/// Chaining ciphers processes with the first, then with the second: the
/// output of a concatenated chain is the second chain's output on the first
/// chain's output, and the first error stops it.
pub proof fn lemma_chain_concat(s1: Seq<CipherStep>, s2: Seq<CipherStep>, data: Seq<u8>)
    ensures
        chain_output(s1 + s2, data) == match chain_output(s1, data) {
            Ok(d) => chain_output(s2, d),
            Err(e) => Err(e),
        },
    decreases s1.len(),
{
    if s1.len() == 0 {
        assert(s1 + s2 == s2);
    } else {
        assert((s1 + s2)[0] == s1[0]);
        assert((s1 + s2).drop_first() == s1.drop_first() + s2);
        match step_output(s1[0], data) {
            Ok(d) => lemma_chain_concat(s1.drop_first(), s2, d),
            Err(e) => {},
        }
    }
}

/// The steps of several ciphers, one cipher after another.
pub open spec fn all_steps(ciphers: Seq<Seq<CipherStep>>) -> Seq<CipherStep>
    decreases ciphers.len(),
{
    if ciphers.len() == 0 {
        seq![]
    } else {
        ciphers[0] + all_steps(ciphers.drop_first())
    }
}

/// Each cipher processing the output of the one before, from `data` on;
/// the first error stops them.
pub open spec fn run_each(ciphers: Seq<Seq<CipherStep>>, data: Seq<u8>) -> Result<Seq<u8>, CipherError>
    decreases ciphers.len(),
{
    if ciphers.len() == 0 {
        Ok(data)
    } else {
        match chain_output(ciphers[0], data) {
            Ok(d) => run_each(ciphers.drop_first(), d),
            Err(e) => Err(e),
        }
    }
}

/// A chain of any number of ciphers processes with each in turn: the
/// output of their steps put one after another is what running each
/// cipher on the previous one's output gives, and the first error stops it.
pub proof fn lemma_chain_all(ciphers: Seq<Seq<CipherStep>>, data: Seq<u8>)
    ensures
        chain_output(all_steps(ciphers), data) == run_each(ciphers, data),
    decreases ciphers.len(),
{
    if ciphers.len() > 0 {
        lemma_chain_concat(ciphers[0], all_steps(ciphers.drop_first()), data);
        match chain_output(ciphers[0], data) {
            Ok(d) => lemma_chain_all(ciphers.drop_first(), d),
            Err(e) => {},
        }
    } else {
        assert(chain_output(seq![], data) == Ok::<Seq<u8>, CipherError>(data));
    }
}

/// What base64 decoding and then AES decryption under `key` make of
/// `data`, read as UTF-8 text.
pub open spec fn base64_aes_text(data: Seq<u8>, key: Seq<u8>) -> Result<Seq<char>, CipherError> {
    utf8_text(
        match base64_output(data) {
            Ok(d) => aes_output(d, key),
            Err(e) => Err(e),
        },
    )
}

/// Decodes base64 text, decrypts it under `key` and reads it as UTF-8.
pub fn decrypt_base64(data: &[u8], key: &[u8]) -> (r: Result<String, CipherError>)
    ensures
        text_result(r) == base64_aes_text(data@, key@),
{
    let c = base64().chain(decrypt_with(key));
    proof {
        reveal_with_fuel(chain_output, 3);
    }
    process_string(data, c)
}

/// A result's text by its view.
pub open spec fn text_result(r: Result<String, CipherError>) -> Result<Seq<char>, CipherError> {
    match r {
        Ok(s) => Ok(s@),
        Err(e) => Err(e),
    }
}

/// Processes `data` with `cipher` and reads the output as UTF-8 text.
/// Output that is not UTF-8 gives `InvalidUtf8`, which stands in for a
/// panic; so do the errors of the cipher itself.
pub fn process_string<W: Cipher>(data: &[u8], cipher: W) -> (r: Result<String, CipherError>)
    ensures
        text_result(r) == string_output(cipher.steps(), data@),
{
    let mut cipher = cipher;
    match cipher.process(data) {
        Ok(v) => match string_from_utf8(v) {
            Some(s) => Ok(s),
            None => Err(CipherError::InvalidUtf8),
        },
        Err(e) => Err(e),
    }
}

} // verus!
