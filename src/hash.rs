use crate::cachestate::string_from_utf8;
use vstd::bytes::{spec_u64_to_le_bytes, u64_to_le_bytes};
use vstd::prelude::*;
use vstd::string::{StrSliceExecFns, StringExecFns};
use vstd::utf8::{
    decode_utf8, encode_utf8, encode_utf8_decode_utf8, encode_utf8_valid_utf8, is_ascii_chars,
    is_ascii_chars_encode_utf8, valid_utf8,
};

verus! {

/// Which block of an object a block file holds.
#[derive(Debug, Clone, Copy, PartialEq, Eq, Structural)]
pub struct FileBlockInfo {
    /// The block size of the object; the same for all its blocks.
    pub block_size: u32,
    /// The block number, from 0.
    pub block_num: u16,
}

/// The name of a block file; used as the key of a block.
pub type FileBlockHash = String;

/// The 64-bit xxh3 digest, with seed 0, of `data`.
pub uninterp spec fn xxh3_64_seed0(data: Seq<u8>) -> u64;

/// Relies on `xxhash_rust::xxh3::Xxh3`: a hasher made `with_seed(0)`, fed the
/// path's bytes by `update`, gives their 64-bit xxh3 digest by `digest`.
#[verifier::external_body]
fn xxh3_of_path(path: &str) -> (r: u64)
    ensures
        r == xxh3_64_seed0(encode_utf8(path@)),
{
    let mut hasher = xxhash_rust::xxh3::Xxh3::with_seed(0);
    hasher.update(path.as_bytes());
    hasher.digest()
}

/// The lowercase hexadecimal digit of `d` (below 16).
pub open spec fn hex_digit(d: int) -> char {
    if d < 10 {
        (48 + d) as char
    } else {
        (87 + d) as char
    }
}

/// The decimal digit of `d` (below 10).
pub open spec fn dec_digit(d: int) -> char {
    (48 + d) as char
}

/// Each byte as two lowercase hexadecimal digits, high digit first.
pub open spec fn hex_of_bytes(bytes: Seq<u8>) -> Seq<char>
    decreases bytes.len(),
{
    if bytes.len() == 0 {
        seq![]
    } else {
        hex_of_bytes(bytes.drop_last()) + seq![
            hex_digit((bytes.last() / 16) as int),
            hex_digit((bytes.last() % 16) as int),
        ]
    }
}

/// The decimal form of `n`, without leading zeros.
pub open spec fn decimal(n: nat) -> Seq<char>
    decreases n,
{
    if n < 10 {
        seq![dec_digit(n as int)]
    } else {
        decimal(n / 10).push(dec_digit((n % 10) as int))
    }
}

/// The name of block `block_num` of an object whose path hashes to `h`: the hash's
/// little-endian bytes in hex, then `.fb{block_size}-{block_num}`.
pub open spec fn block_hash_name(h: u64, block_size: u32, block_num: u16) -> Seq<char> {
    hex_of_bytes(spec_u64_to_le_bytes(h)) + seq!['.', 'f', 'b'] + decimal(block_size as nat)
        + seq!['-'] + decimal(block_num as nat)
}

/// The bytes of a sequence of ASCII characters.
pub open spec fn ascii_bytes(cs: Seq<char>) -> Seq<u8> {
    cs.map_values(|c: char| c as u8)
}

/// Appends the decimal digits of `n`.
fn push_decimal(out: &mut Vec<u8>, n: u32)
    ensures
        final(out)@ == old(out)@ + ascii_bytes(decimal(n as nat)),
        is_ascii_chars(decimal(n as nat)),
    decreases n,
{
    if n >= 10 {
        push_decimal(out, n / 10);
    }
    out.push(48 + (n % 10) as u8);
    proof {
        if n >= 10 {
            assert(ascii_bytes(decimal(n as nat)) =~= ascii_bytes(decimal((n / 10) as nat)).push(
                (48 + (n % 10)) as u8,
            ));
        } else {
            assert(ascii_bytes(decimal(n as nat)) =~= seq![(48 + n) as u8]);
        }
    }
}

/// Appends each byte as two lowercase hexadecimal digits.
fn push_hex(out: &mut Vec<u8>, bytes: &Vec<u8>)
    ensures
        final(out)@ == old(out)@ + ascii_bytes(hex_of_bytes(bytes@)),
        is_ascii_chars(hex_of_bytes(bytes@)),
{
    let ghost start = out@;
    let mut i: usize = 0;
    proof {
        assert(bytes@.subrange(0, 0) =~= Seq::<u8>::empty());
        assert(start + ascii_bytes(hex_of_bytes(bytes@.subrange(0, 0))) =~= start);
    }
    while i < bytes.len()
        invariant
            i <= bytes@.len(),
            out@ == start + ascii_bytes(hex_of_bytes(bytes@.subrange(0, i as int))),
            is_ascii_chars(hex_of_bytes(bytes@.subrange(0, i as int))),
        decreases bytes@.len() - i,
    {
        let b = bytes[i];
        let hi = b / 16;
        let lo = b % 16;
        out.push(if hi < 10 { 48 + hi } else { 87 + hi });
        out.push(if lo < 10 { 48 + lo } else { 87 + lo });
        proof {
            let pre = bytes@.subrange(0, i as int);
            let next = bytes@.subrange(0, i + 1);
            assert(next.drop_last() =~= pre);
            assert(next.last() == b);
            assert(hex_of_bytes(next) == hex_of_bytes(pre) + seq![hex_digit(hi as int), hex_digit(lo as int)]);
            assert(ascii_bytes(hex_of_bytes(next)) =~= ascii_bytes(hex_of_bytes(pre)) + seq![
                (if hi < 10 { 48 + hi } else { 87 + hi }) as u8,
                (if lo < 10 { 48 + lo } else { 87 + lo }) as u8,
            ]);
        }
        i = i + 1;
    }
    proof {
        assert(bytes@.subrange(0, bytes@.len() as int) =~= bytes@);
    }
}

/// Creates the name of a block file: the 64-bit xxh3 hash of the object path, in
/// hex, followed by `.fb{block_size}-{block_num}`.
pub fn create_file_block_hash(path: &str, block: FileBlockInfo) -> (r: FileBlockHash)
    ensures
        r@ == block_hash_name(
            xxh3_64_seed0(encode_utf8(path@)),
            block.block_size,
            block.block_num,
        ),
{
    let hash = xxh3_of_path(path);
    let ghost name = block_hash_name(hash, block.block_size, block.block_num);
    let mut out: Vec<u8> = Vec::new();
    push_hex(&mut out, &u64_to_le_bytes(hash));
    out.push(46u8);
    out.push(102u8);
    out.push(98u8);
    push_decimal(&mut out, block.block_size);
    out.push(45u8);
    push_decimal(&mut out, block.block_num as u32);
    proof {
        assert(out@ =~= ascii_bytes(name));
        assert(is_ascii_chars(name));
        is_ascii_chars_encode_utf8(name);
        assert(encode_utf8(name) =~= ascii_bytes(name));
        encode_utf8_valid_utf8(name);
        encode_utf8_decode_utf8(name);
    }
    match string_from_utf8(out) {
        Some(s) => s,
        None => String::new(),
    }
}

/// Where a block file lives under the cache root: `{dir1}/{dir2}/{file_name}`.
pub struct BlockFileLocation {
    /// The first two hex digits of the hash.
    pub dir1: String,
    /// The next two hex digits of the hash.
    pub dir2: String,
    /// The next two hex digits, followed by the block trailer `.fb{size}-{num}`.
    pub file_name: String,
}

/// The number of hex digits that start a block file name.
pub const HASH_HEX_LEN: usize = 16;

/// Splits a block file name into its directory segments and file name. A name
/// shorter than its hex part has no location.
pub fn block_file_location(hash: &str) -> (r: Option<BlockFileLocation>)
    ensures
        r is Some <==> hash@.len() >= HASH_HEX_LEN,
        r matches Some(l) ==> {
            &&& l.dir1@ == hash@.subrange(0, 2)
            &&& l.dir2@ == hash@.subrange(2, 4)
            &&& l.file_name@ == hash@.subrange(4, 6) + hash@.subrange(
                HASH_HEX_LEN as int,
                hash@.len() as int,
            )
        },
{
    let n = hash.unicode_len();
    if n < HASH_HEX_LEN {
        return None;
    }
    let dir1 = String::from_str(hash.substring_char(0, 2));
    let dir2 = String::from_str(hash.substring_char(2, 4));
    let mut file_name = String::from_str(hash.substring_char(4, 6));
    file_name.append(hash.substring_char(HASH_HEX_LEN, n));
    Some(BlockFileLocation { dir1, dir2, file_name })
}

/// Hashing depends on nothing but its inputs: the same path, block size and block
/// number give the same block file name.
pub proof fn lemma_block_hash_deterministic(
    path1: Seq<char>,
    path2: Seq<char>,
    block1: FileBlockInfo,
    block2: FileBlockInfo,
)
    requires
        path1 == path2,
        block1 == block2,
    ensures
        block_hash_name(xxh3_64_seed0(encode_utf8(path1)), block1.block_size, block1.block_num)
            == block_hash_name(
            xxh3_64_seed0(encode_utf8(path2)),
            block2.block_size,
            block2.block_num,
        ),
{
}

} // verus!
