use crate::options::HashDigest;
use crate::options::HashFunction;
use crate::options::HashSalt;
use md4::Digest;
use vstd::prelude::*;
use vstd::utf8::encode_utf8;

verus! {

/// The 64-bit XXH3 hash of `input`, with the default secret and seed.
pub uninterp spec fn xxh3_64_of(input: Seq<u8>) -> u64;

/// The MD4 digest of `input`.
pub uninterp spec fn md4_of(input: Seq<u8>) -> Seq<u8>;

/// Calls `xxhash_rust::xxh3::xxh3_64`; the contract names its result `xxh3_64_of` of the
/// bytes hashed and claims nothing more of it.
#[verifier::external_body]
fn xxh3_64_bytes(input: &[u8]) -> (r: u64)
    ensures
        r == xxh3_64_of(input@),
{
    xxhash_rust::xxh3::xxh3_64(input)
}

/// Calls `md4::Md4::digest`; the contract names its result `md4_of` of the bytes hashed
/// and claims that it is 16 bytes long, the output size of the MD4 core.
#[verifier::external_body]
fn md4_bytes(input: &[u8]) -> (r: Vec<u8>)
    ensures
        r@ == md4_of(input@),
        r@.len() == 16,
{
    md4::Md4::digest(input).to_vec()
}

/// The bytes that hashing a string feeds to a hasher: its UTF-8 bytes, then `0xff`.
pub open spec fn str_message(s: Seq<char>) -> Seq<u8> {
    encode_utf8(s).push(0xffu8)
}

/// The eight bytes of `x`, least significant first.
pub open spec fn le_bytes(x: u64) -> Seq<u8> {
    Seq::new(8, |i: int| ((x >> (8 * i) as u64) & 0xff) as u8)
}

/// The bytes that a salt feeds to a hasher: those of its string, if it has one.
pub open spec fn salt_message(salt: HashSalt) -> Seq<u8> {
    match salt {
        HashSalt::NoSalt => Seq::empty(),
        HashSalt::Salt(s) => str_message(s@),
    }
}

/// The bytes hashed to name the runtime of the `index`-th worker of a module: the salt,
/// the module identifier, then the index.
pub open spec fn worker_message(salt: HashSalt, module_identifier: Seq<char>, index: u64) -> Seq<u8> {
    salt_message(salt) + str_message(module_identifier) + le_bytes(index)
}

/// The digest of `message` under hash function `f`.
pub open spec fn digest_of(f: HashFunction, message: Seq<u8>) -> Seq<u8> {
    match f {
        HashFunction::Xxhash64 => le_bytes(xxh3_64_of(message)),
        HashFunction::MD4 => md4_of(message),
    }
}

/// The lower-case hexadecimal digit of a value below 16.
pub open spec fn hex_digit(n: u8) -> char {
    if n < 10 {
        (48 + n) as char
    } else {
        (87 + n) as char
    }
}

/// The lower-case hexadecimal writing of `bytes`, two digits per byte, high digit first.
pub open spec fn hex_lower(bytes: Seq<u8>) -> Seq<char>
    decreases bytes.len(),
{
    if bytes.len() == 0 {
        Seq::empty()
    } else {
        hex_lower(bytes.drop_last()) + seq![
            hex_digit(bytes.last() / 16),
            hex_digit(bytes.last() % 16),
        ]
    }
}

/// A digest written out as `digest` says.
pub open spec fn encode_digest(digest: HashDigest, bytes: Seq<u8>) -> Seq<char> {
    match digest {
        HashDigest::Hex => hex_lower(bytes),
    }
}

/// The first `length` characters of `encoded`, or all of them if there are fewer.
pub open spec fn rendered(encoded: Seq<char>, length: int) -> Seq<char> {
    if length < encoded.len() {
        encoded.take(length)
    } else {
        encoded
    }
}

proof fn lemma_hex_lower_len(bytes: Seq<u8>)
    ensures
        hex_lower(bytes).len() == 2 * bytes.len(),
    decreases bytes.len(),
{
    if bytes.len() > 0 {
        lemma_hex_lower_len(bytes.drop_last());
    }
}

/// The one-character string of a hexadecimal digit.
fn hex_digit_str(n: u8) -> (s: &'static str)
    requires
        n < 16,
    ensures
        s@ == seq![hex_digit(n)],
{
    proof {
        reveal_strlit("0");
        reveal_strlit("1");
        reveal_strlit("2");
        reveal_strlit("3");
        reveal_strlit("4");
        reveal_strlit("5");
        reveal_strlit("6");
        reveal_strlit("7");
        reveal_strlit("8");
        reveal_strlit("9");
        reveal_strlit("a");
        reveal_strlit("b");
        reveal_strlit("c");
        reveal_strlit("d");
        reveal_strlit("e");
        reveal_strlit("f");
    }
    match n {
        0 => "0",
        1 => "1",
        2 => "2",
        3 => "3",
        4 => "4",
        5 => "5",
        6 => "6",
        7 => "7",
        8 => "8",
        9 => "9",
        10 => "a",
        11 => "b",
        12 => "c",
        13 => "d",
        14 => "e",
        _ => "f",
    }
}

/// Appends the bytes of `s` to `out`.
fn push_str_message(out: &mut Vec<u8>, s: &String)
    ensures
        final(out)@ == old(out)@ + str_message(s@),
{
    let bytes = s.as_str().as_bytes();
    let mut i: usize = 0;
    while i < bytes.len()
        invariant
            i <= bytes@.len(),
            bytes@ == encode_utf8(s@),
            out@ == old(out)@ + bytes@.take(i as int),
        decreases bytes@.len() - i,
    {
        out.push(bytes[i]);
        assert(bytes@.take(i as int + 1) =~= bytes@.take(i as int).push(bytes@[i as int]));
        i = i + 1;
    }
    assert(bytes@.take(i as int) =~= bytes@);
    out.push(0xffu8);
}

/// Appends the eight bytes of `x`, least significant first, to `out`.
fn push_le_bytes(out: &mut Vec<u8>, x: u64)
    ensures
        final(out)@ == old(out)@ + le_bytes(x),
{
    let mut i: u64 = 0;
    while i < 8
        invariant
            i <= 8,
            out@ == old(out)@ + le_bytes(x).take(i as int),
        decreases 8 - i,
    {
        let b = ((x >> (8 * i)) & 0xff) as u8;
        out.push(b);
        assert(le_bytes(x).take(i as int + 1) =~= le_bytes(x).take(i as int).push(b));
        i = i + 1;
    }
    assert(le_bytes(x).take(8) =~= le_bytes(x));
}

/// The bytes hashed to name the runtime of the `index`-th worker of a module.
pub fn worker_hash_message(salt: &HashSalt, module_identifier: &String, index: u64) -> (message: Vec<u8>)
    ensures
        message@ == worker_message(*salt, module_identifier@, index),
{
    let mut message: Vec<u8> = Vec::new();
    match salt {
        HashSalt::NoSalt => {},
        HashSalt::Salt(s) => {
            push_str_message(&mut message, s);
        },
    }
    push_str_message(&mut message, module_identifier);
    push_le_bytes(&mut message, index);
    assert(message@ =~= worker_message(*salt, module_identifier@, index));
    message
}

/// Hashes `message` with hash function `f`, as the bytes of the digest.
pub fn digest(f: HashFunction, message: &Vec<u8>) -> (bytes: Vec<u8>)
    ensures
        bytes@ == digest_of(f, message@),
{
    match f {
        HashFunction::Xxhash64 => {
            let h = xxh3_64_bytes(message.as_slice());
            let mut bytes: Vec<u8> = Vec::new();
            push_le_bytes(&mut bytes, h);
            assert(bytes@ =~= le_bytes(h));
            bytes
        },
        HashFunction::MD4 => md4_bytes(message.as_slice()),
    }
}

/// Writes `bytes` out as `digest` says, keeping the first `length` characters.
pub fn render_digest(digest: HashDigest, bytes: &Vec<u8>, length: usize) -> (s: String)
    ensures
        s@ == rendered(encode_digest(digest, bytes@), length as int),
{
    let mut s = String::new();
    let mut count: usize = 0;
    let mut i: usize = 0;
    proof {
        lemma_hex_lower_len(bytes@);
    }
    while i < bytes.len() && count < length
        invariant
            i <= bytes.len(),
            count == if 2 * i < length { 2 * i } else { length as int },
            s@ == hex_lower(bytes@).take(count as int),
            hex_lower(bytes@).len() == 2 * bytes.len(),
            count <= length,
        decreases bytes.len() - i,
    {
        let b = bytes[i];
        let ghost prefix = bytes@.take(i as int + 1);
        proof {
            assert(prefix.drop_last() =~= bytes@.take(i as int));
            lemma_hex_lower_len(bytes@.take(i as int));
            lemma_hex_lower_prefix(bytes@, i as int + 1);
            assert(hex_lower(prefix) =~= hex_lower(bytes@.take(i as int)) + seq![hex_digit(b / 16), hex_digit(b % 16)]);
        }
        s.append(hex_digit_str(b / 16));
        count = count + 1;
        if count < length {
            s.append(hex_digit_str(b % 16));
            count = count + 1;
        }
        proof {
            assert(s@ =~= hex_lower(bytes@).take(count as int));
        }
        i = i + 1;
    }
    proof {
        if length as int >= hex_lower(bytes@).len() {
            assert(hex_lower(bytes@).take(count as int) =~= hex_lower(bytes@));
        }
    }
    s
}

/// The hex writing of a prefix of `bytes` is a prefix of the hex writing of `bytes`.
proof fn lemma_hex_lower_prefix(bytes: Seq<u8>, n: int)
    requires
        0 <= n <= bytes.len(),
    ensures
        hex_lower(bytes.take(n)) == hex_lower(bytes).take(2 * n),
    decreases bytes.len(),
{
    lemma_hex_lower_len(bytes);
    lemma_hex_lower_len(bytes.take(n));
    if n == bytes.len() {
        assert(bytes.take(n) =~= bytes);
        assert(hex_lower(bytes).take(2 * n) =~= hex_lower(bytes));
    } else {
        let shorter = bytes.drop_last();
        assert(bytes.take(n) =~= shorter.take(n));
        lemma_hex_lower_prefix(shorter, n);
        lemma_hex_lower_len(shorter);
        assert(hex_lower(bytes) == hex_lower(shorter) + seq![hex_digit(bytes.last() / 16), hex_digit(bytes.last() % 16)]);
        assert(hex_lower(bytes).take(2 * n) =~= hex_lower(shorter).take(2 * n));
    }
}

/// The name of the runtime of the `index`-th worker that module `module_identifier`
/// creates: its hash digest, rendered to the configured length.
pub open spec fn worker_runtime(
    hash_function: HashFunction,
    hash_digest: HashDigest,
    hash_digest_length: usize,
    salt: HashSalt,
    module_identifier: Seq<char>,
    index: u64,
) -> Seq<char> {
    rendered(
        encode_digest(hash_digest, digest_of(hash_function, worker_message(salt, module_identifier, index))),
        hash_digest_length as int,
    )
}

} // verus!
