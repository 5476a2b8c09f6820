//! Encryption at rest: each write is sealed with AES-256-GCM under a fresh
//! random nonce and stored as `[nonce (12 bytes)][ciphertext length (8
//! bytes, little-endian)][ciphertext]`.
use vstd::prelude::*;
use vstd::bytes::{spec_u64_to_le_bytes, spec_u64_from_le_bytes};
use aes_gcm::aead::{Aead, KeyInit};
use rand::RngCore;

verus! {

/// The largest plaintext AES-GCM seals (2^36 bytes).
pub const MAX_PLAINTEXT: u64 = 68719476736;

/// The length of a nonce.
pub const NONCE_LEN: usize = 12;

/// The length of the authentication tag appended to each ciphertext.
pub const TAG_LEN: u64 = 16;

/// Why a block could not be sealed or opened.
#[derive(Debug, Clone, Copy, PartialEq, Eq, Structural)]
pub enum CryptoError {
    /// The plaintext is longer than AES-GCM allows.
    EncryptionFailed,
    /// A block failed authentication: wrong key or tampered data.
    DecryptionFailed,
}

/// The AES-256-GCM ciphertext (with its tag appended) of `plaintext` under
/// `key` and `nonce`, with no associated data.
pub uninterp spec fn spec_aes_gcm_seal(key: Seq<u8>, nonce: Seq<u8>, plaintext: Seq<u8>) -> Seq<u8>;

/// The plaintext of an AES-256-GCM ciphertext (tag appended) under `key` and
/// `nonce`, with no associated data; none when authentication fails.
pub uninterp spec fn spec_aes_gcm_open(key: Seq<u8>, nonce: Seq<u8>, ciphertext: Seq<u8>) -> Option<Seq<u8>>;

/// Calls `aes_gcm::Aes256Gcm::encrypt` (from `aead::Aead`) with no
/// associated data. Claims: it fails exactly when the plaintext exceeds
/// 2^36 bytes; otherwise the ciphertext is the named function of key, nonce
/// and plaintext, is 16 bytes longer than the plaintext (the tag is
/// appended), and decrypts under the same key and nonce to the plaintext.
#[verifier::external_body]
fn aes_gcm_encrypt(key: &[u8; 32], nonce: &[u8; 12], plaintext: &[u8]) -> (r: Option<Vec<u8>>)
    ensures
        r is Some <==> plaintext@.len() <= MAX_PLAINTEXT,
        r matches Some(c) ==> {
            &&& c@ == spec_aes_gcm_seal(key@, nonce@, plaintext@)
            &&& c@.len() == plaintext@.len() + TAG_LEN
            &&& spec_aes_gcm_open(key@, nonce@, c@) == Some(plaintext@)
        },
{
    let cipher = aes_gcm::Aes256Gcm::new(key.into());
    cipher.encrypt(aes_gcm::Nonce::from_slice(nonce), plaintext).ok()
}

/// Calls `aes_gcm::Aes256Gcm::decrypt` (from `aead::Aead`) with no
/// associated data. Claims only that the result is the named function of
/// key, nonce and ciphertext.
#[verifier::external_body]
fn aes_gcm_decrypt(key: &[u8; 32], nonce: &[u8; 12], ciphertext: &[u8]) -> (r: Option<Vec<u8>>)
    ensures
        match r {
            Some(p) => spec_aes_gcm_open(key@, nonce@, ciphertext@) == Some(p@),
            None => spec_aes_gcm_open(key@, nonce@, ciphertext@) is None,
        },
{
    let cipher = aes_gcm::Aes256Gcm::new(key.into());
    cipher.decrypt(aes_gcm::Nonce::from_slice(nonce), ciphertext).ok()
}

/// Fills a nonce with `rand::thread_rng().fill_bytes`. Nothing is claimed
/// of the bytes: they are random.
#[verifier::external_body]
fn random_nonce() -> (n: [u8; 12]) {
    let mut n = [0u8; 12];
    rand::thread_rng().fill_bytes(&mut n);
    n
}

/// The stored form of one sealed write: nonce, ciphertext length, ciphertext.
pub open spec fn spec_block(nonce: Seq<u8>, ciphertext: Seq<u8>) -> Seq<u8> {
    nonce + spec_u64_to_le_bytes(ciphertext.len() as u64) + ciphertext
}

/// The stored form of `plaintext` sealed under `key` with `nonce`.
pub open spec fn spec_sealed(key: Seq<u8>, nonce: Seq<u8>, plaintext: Seq<u8>) -> Seq<u8> {
    spec_block(nonce, spec_aes_gcm_seal(key, nonce, plaintext))
}

/// The plaintext of a stream of stored blocks: blocks are opened in order
/// until the bytes end or a block is incomplete; a block that fails to
/// open fails the whole stream.
pub open spec fn spec_open_stream(key: Seq<u8>, rest: Seq<u8>) -> Result<Seq<u8>, CryptoError>
    decreases rest.len(),
{
    if rest.len() < 20 {
        Ok(Seq::empty())
    } else {
        let len = spec_u64_from_le_bytes(rest.subrange(12, 20));
        if len > rest.len() - 20 {
            Ok(Seq::empty())
        } else {
            match spec_aes_gcm_open(key, rest.subrange(0, 12), rest.subrange(20, 20 + len)) {
                None => Err(CryptoError::DecryptionFailed),
                Some(p) => match spec_open_stream(key, rest.subrange(20 + len, rest.len() as int)) {
                    Ok(more) => Ok(p + more),
                    Err(e) => Err(e),
                },
            }
        }
    }
}

/// The ciphertext of `plaintext` under `key` and `nonce` is 16 bytes longer
/// than the plaintext (the tag is appended) and opens back to it.
pub open spec fn seal_facts(key: Seq<u8>, nonce: Seq<u8>, plaintext: Seq<u8>) -> bool {
    &&& spec_aes_gcm_seal(key, nonce, plaintext).len() == plaintext.len() + TAG_LEN
    &&& spec_aes_gcm_open(key, nonce, spec_aes_gcm_seal(key, nonce, plaintext)) == Some(plaintext)
}

/// Where the complete blocks at the start of `rest` end: blocks are read
/// in order until the bytes end or a block is incomplete.
pub open spec fn spec_blocks_end(rest: Seq<u8>) -> nat
    decreases rest.len(),
{
    if rest.len() < 20 {
        0
    } else {
        let len = spec_u64_from_le_bytes(rest.subrange(12, 20));
        if len > rest.len() - 20 {
            0
        } else {
            (20 + len + spec_blocks_end(rest.subrange(20 + len, rest.len() as int))) as nat
        }
    }
}

/// Bytes that hold no complete block: fewer than a block header, or a
/// header that announces more ciphertext than follows it.
pub open spec fn incomplete_block(tail: Seq<u8>) -> bool {
    tail.len() < 20 || spec_u64_from_le_bytes(tail.subrange(12, 20)) > tail.len() - 20
}

/// Seals `plaintext` under `key` with the given nonce and returns its
/// stored form.
pub fn seal_block_with_nonce(key: &[u8; 32], nonce: &[u8; 12], plaintext: &[u8]) -> (r: Result<Vec<u8>, CryptoError>)
    ensures
        match r {
            Ok(b) => {
                &&& plaintext@.len() <= MAX_PLAINTEXT
                &&& b@ == spec_sealed(key@, nonce@, plaintext@)
                &&& seal_facts(key@, nonce@, plaintext@)
            },
            Err(e) => plaintext@.len() > MAX_PLAINTEXT && e == CryptoError::EncryptionFailed,
        },
{
    let ciphertext = match aes_gcm_encrypt(key, nonce, plaintext) {
        Some(c) => c,
        None => return Err(CryptoError::EncryptionFailed),
    };
    let len = ciphertext.len() as u64;
    let mut out: Vec<u8> = Vec::new();
    let mut i: usize = 0;
    while i < NONCE_LEN
        invariant
            i <= 12,
            out@ == nonce@.subrange(0, i as int),
        decreases 12 - i,
    {
        out.push(nonce[i]);
        i = i + 1;
        assert(out@ =~= nonce@.subrange(0, i as int));
    }
    let len_bytes = vstd::bytes::u64_to_le_bytes(len);
    let ghost head = nonce@ + spec_u64_to_le_bytes(len);
    assert(nonce@.subrange(0, 12) =~= nonce@);
    i = 0;
    while i < 8
        invariant
            i <= 8,
            len_bytes@ == spec_u64_to_le_bytes(len),
            len_bytes@.len() == 8,
            out@ == nonce@ + len_bytes@.subrange(0, i as int),
        decreases 8 - i,
    {
        out.push(len_bytes[i]);
        i = i + 1;
        assert(out@ =~= nonce@ + len_bytes@.subrange(0, i as int));
    }
    assert(len_bytes@.subrange(0, 8) =~= len_bytes@);
    i = 0;
    while i < ciphertext.len()
        invariant
            i <= ciphertext@.len(),
            out@ == head + ciphertext@.subrange(0, i as int),
        decreases ciphertext@.len() - i,
    {
        out.push(ciphertext[i]);
        i = i + 1;
        assert(out@ =~= head + ciphertext@.subrange(0, i as int));
    }
    assert(ciphertext@.subrange(0, ciphertext@.len() as int) =~= ciphertext@);
    Ok(out)
}

/// Seals `plaintext` under `key` with a fresh random nonce and returns its
/// stored form.
pub fn seal_block(key: &[u8; 32], plaintext: &[u8]) -> (r: Result<Vec<u8>, CryptoError>)
    ensures
        match r {
            Ok(b) => plaintext@.len() <= MAX_PLAINTEXT && exists|nonce: Seq<u8>|
                nonce.len() == 12 && b@ == spec_sealed(key@, nonce, plaintext@) && seal_facts(key@, nonce, plaintext@),
            Err(e) => plaintext@.len() > MAX_PLAINTEXT && e == CryptoError::EncryptionFailed,
        },
{
    let nonce = random_nonce();
    let r = seal_block_with_nonce(key, &nonce, plaintext);
    assert(nonce@.len() == 12);
    r
}

/// Reads the little-endian u64 at `pos`.
fn read_u64_le(buf: &[u8], pos: usize) -> (n: u64)
    requires
        pos + 8 <= buf@.len(),
    ensures
        n == spec_u64_from_le_bytes(buf@.subrange(pos as int, pos + 8)),
{
    let l = buf.len();
    assert(pos + 8 <= l);
    vstd::bytes::u64_from_le_bytes(vstd::slice::slice_subrange(buf, pos, pos + 8))
}

/// Copies `len` bytes starting at `pos`.
fn copy_range(buf: &[u8], pos: usize, len: usize) -> (r: Vec<u8>)
    requires
        pos + len <= buf@.len(),
    ensures
        r@ == buf@.subrange(pos as int, pos + len),
{
    let mut r: Vec<u8> = Vec::new();
    let l = buf.len();
    let mut i: usize = 0;
    while i < len
        invariant
            l == buf@.len(),
            pos + len <= buf@.len(),
            i <= len,
            r@ == buf@.subrange(pos as int, pos + i),
        decreases len - i,
    {
        r.push(buf[pos + i]);
        i = i + 1;
        assert(r@ =~= buf@.subrange(pos as int, pos + i));
    }
    r
}

/// The plaintext of a stream of stored blocks, opened under `key`.
pub fn open_stream(key: &[u8; 32], raw: &[u8]) -> (r: Result<Vec<u8>, CryptoError>)
    ensures
        match r {
            Ok(p) => spec_open_stream(key@, raw@) == Ok::<Seq<u8>, CryptoError>(p@),
            Err(e) => spec_open_stream(key@, raw@) == Err::<Seq<u8>, CryptoError>(e),
        },
{
    let n = raw.len();
    let mut out: Vec<u8> = Vec::new();
    let mut cursor: usize = 0;
    assert(raw@.subrange(0, n as int) =~= raw@);
    loop
        invariant
            n == raw@.len(),
            cursor <= n,
            match spec_open_stream(key@, raw@.subrange(cursor as int, n as int)) {
                Ok(more) => spec_open_stream(key@, raw@) == Ok::<Seq<u8>, CryptoError>(out@ + more),
                Err(e) => spec_open_stream(key@, raw@) == Err::<Seq<u8>, CryptoError>(e),
            },
        decreases n - cursor,
    {
        let ghost rest = raw@.subrange(cursor as int, n as int);
        if n - cursor < 20 {
            assert(out@ + Seq::<u8>::empty() =~= out@);
            return Ok(out);
        }
        let len = read_u64_le(raw, cursor + 12);
        assert(rest.subrange(12, 20) =~= raw@.subrange(cursor + 12, cursor + 20));
        if len > (n - cursor - 20) as u64 {
            assert(out@ + Seq::<u8>::empty() =~= out@);
            return Ok(out);
        }
        let len = len as usize;
        let mut nonce = [0u8; 12];
        let mut j: usize = 0;
        while j < NONCE_LEN
            invariant
                cursor + 20 <= n,
                n == raw@.len(),
                j <= 12,
                nonce@.len() == 12,
                forall|k: int| 0 <= k < j ==> nonce@[k] == raw@[cursor + k],
            decreases 12 - j,
        {
            nonce[j] = raw[cursor + j];
            j = j + 1;
        }
        assert(nonce@ =~= rest.subrange(0, 12));
        let ct = copy_range(raw, cursor + 20, len);
        assert(ct@ =~= rest.subrange(20, 20 + len));
        match aes_gcm_decrypt(key, &nonce, ct.as_slice()) {
            None => {
                return Err(CryptoError::DecryptionFailed);
            },
            Some(p) => {
                let ghost old_out = out@;
                let mut k: usize = 0;
                while k < p.len()
                    invariant
                        k <= p@.len(),
                        out@ == old_out + p@.subrange(0, k as int),
                    decreases p@.len() - k,
                {
                    out.push(p[k]);
                    k = k + 1;
                    assert(out@ =~= old_out + p@.subrange(0, k as int));
                }
                assert(p@.subrange(0, p@.len() as int) =~= p@);
                cursor = cursor + 20 + len;
                assert(rest.subrange(20 + len, rest.len() as int) =~= raw@.subrange(cursor as int, n as int));
                proof {
                    match spec_open_stream(key@, raw@.subrange(cursor as int, n as int)) {
                        Ok(more) => {
                            assert(old_out + (p@ + more) =~= out@ + more);
                        },
                        Err(e) => {},
                    }
                }
            },
        }
    }
}

proof fn lemma_blocks_end_bound(rest: Seq<u8>)
    ensures
        spec_blocks_end(rest) <= rest.len(),
    decreases rest.len(),
{
    if rest.len() >= 20 {
        let len = spec_u64_from_le_bytes(rest.subrange(12, 20));
        if len <= rest.len() - 20 {
            lemma_blocks_end_bound(rest.subrange(20 + len, rest.len() as int));
        }
    }
}

/// The length of the complete blocks at the start of a stream of stored
/// blocks: what remains after it is a block that a crash left incomplete.
pub fn blocks_end(raw: &[u8]) -> (end: usize)
    ensures
        end == spec_blocks_end(raw@),
        end <= raw@.len(),
{
    let n = raw.len();
    let mut cursor: usize = 0;
    assert(raw@.subrange(0, n as int) =~= raw@);
    proof {
        lemma_blocks_end_bound(raw@);
    }
    loop
        invariant
            n == raw@.len(),
            cursor <= n,
            cursor + spec_blocks_end(raw@.subrange(cursor as int, n as int)) == spec_blocks_end(raw@),
            cursor + spec_blocks_end(raw@.subrange(cursor as int, n as int)) <= n,
        decreases n - cursor,
    {
        let ghost rest = raw@.subrange(cursor as int, n as int);
        if n - cursor < 20 {
            return cursor;
        }
        let len = read_u64_le(raw, cursor + 12);
        assert(rest.subrange(12, 20) =~= raw@.subrange(cursor + 12, cursor + 20));
        if len > (n - cursor - 20) as u64 {
            return cursor;
        }
        cursor = cursor + 20 + len as usize;
        assert(rest.subrange(20 + len, rest.len() as int) =~= raw@.subrange(cursor as int, n as int));
        proof {
            lemma_blocks_end_bound(raw@.subrange(cursor as int, n as int));
        }
    }
}

/// `len` bytes of `data` starting at `offset`; none when they run past its end.
pub fn read_window(data: &[u8], offset: usize, len: usize) -> (r: Option<Vec<u8>>)
    requires
        offset + len <= usize::MAX,
    ensures
        match r {
            Some(w) => offset + len <= data@.len() && w@ == data@.subrange(offset as int, offset + len),
            None => offset + len > data@.len(),
        },
{
    if offset + len > data.len() {
        None
    } else {
        Some(copy_range(data, offset, len))
    }
}

/// A stream of blocks, each the plaintext `pts[i]` sealed under `key` with
/// `nonces[i]`, opens to the concatenation of the plaintexts.
pub open spec fn spec_sealed_stream(key: Seq<u8>, nonces: Seq<Seq<u8>>, pts: Seq<Seq<u8>>) -> Seq<u8>
    decreases pts.len(),
{
    if pts.len() == 0 || nonces.len() == 0 {
        Seq::empty()
    } else {
        spec_sealed(key, nonces[0], pts[0]) + spec_sealed_stream(key, nonces.drop_first(), pts.drop_first())
    }
}

/// The concatenation of a list of byte strings.
pub open spec fn spec_concat(pts: Seq<Seq<u8>>) -> Seq<u8>
    decreases pts.len(),
{
    if pts.len() == 0 {
        Seq::empty()
    } else {
        pts[0] + spec_concat(pts.drop_first())
    }
}

/// Reading back what was written encrypted gives the data that was written:
/// writes sealed under one key, each with a 12-byte nonce, open under that
/// key to the concatenation of the written data, also when a crash left an
/// incomplete block after them.
pub proof fn lemma_sealed_stream_opens(key: Seq<u8>, nonces: Seq<Seq<u8>>, pts: Seq<Seq<u8>>, tail: Seq<u8>)
    requires
        incomplete_block(tail),
        nonces.len() == pts.len(),
        forall|i: int| 0 <= i < nonces.len() ==> #[trigger] nonces[i].len() == 12,
        forall|i: int| 0 <= i < pts.len() ==> (#[trigger] pts[i]).len() <= MAX_PLAINTEXT
            && spec_aes_gcm_seal(key, nonces[i], pts[i]).len() == pts[i].len() + TAG_LEN
            && spec_aes_gcm_open(key, nonces[i], spec_aes_gcm_seal(key, nonces[i], pts[i])) == Some(pts[i]),
    ensures
        spec_open_stream(key, spec_sealed_stream(key, nonces, pts) + tail) == Ok::<Seq<u8>, CryptoError>(spec_concat(pts)),
    decreases pts.len(),
{
    if pts.len() == 0 {
        assert(spec_sealed_stream(key, nonces, pts) + tail =~= tail);
    } else {
        let n0 = nonces[0];
        let p0 = pts[0];
        let c0 = spec_aes_gcm_seal(key, n0, p0);
        let rest = spec_sealed_stream(key, nonces.drop_first(), pts.drop_first());
        assert forall|i: int| 0 <= i < nonces.drop_first().len() implies #[trigger] nonces.drop_first()[i].len() == 12 by {
            assert(nonces.drop_first()[i] == nonces[i + 1]);
        }
        assert forall|i: int| 0 <= i < pts.drop_first().len() implies (#[trigger] pts.drop_first()[i]).len() <= MAX_PLAINTEXT
            && spec_aes_gcm_seal(key, nonces.drop_first()[i], pts.drop_first()[i]).len() == pts.drop_first()[i].len() + TAG_LEN
            && spec_aes_gcm_open(key, nonces.drop_first()[i], spec_aes_gcm_seal(key, nonces.drop_first()[i], pts.drop_first()[i]))
                == Some(pts.drop_first()[i]) by {
            assert(pts.drop_first()[i] == pts[i + 1]);
            assert(nonces.drop_first()[i] == nonces[i + 1]);
        }
        lemma_sealed_stream_opens(key, nonces.drop_first(), pts.drop_first(), tail);
        vstd::bytes::lemma_auto_spec_u64_to_from_le_bytes();
        let lb = spec_u64_to_le_bytes(c0.len() as u64);
        let whole = spec_sealed_stream(key, nonces, pts) + tail;
        assert(whole =~= n0 + lb + c0 + (rest + tail));
        assert(whole.subrange(12, 20) =~= lb);
        assert(whole.subrange(0, 12) =~= n0);
        assert(whole.subrange(20, 20 + c0.len() as int) =~= c0);
        assert(whole.subrange(20 + c0.len() as int, whole.len() as int) =~= rest + tail);
    }
}

} // verus!
