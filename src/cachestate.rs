use vstd::bytes::{
    lemma_auto_spec_u16_to_from_le_bytes, lemma_auto_spec_u32_to_from_le_bytes,
    lemma_auto_spec_u64_to_from_le_bytes, spec_u16_from_le_bytes, spec_u16_to_le_bytes,
    spec_u32_from_le_bytes, spec_u32_to_le_bytes, spec_u64_from_le_bytes, spec_u64_to_le_bytes,
    u16_from_le_bytes, u16_to_le_bytes, u32_from_le_bytes, u32_to_le_bytes, u64_from_le_bytes,
    u64_to_le_bytes,
};
use vstd::prelude::*;
use vstd::slice::{slice_subrange, slice_to_vec};
use vstd::utf8::{decode_utf8, encode_utf8, encode_utf8_decode_utf8, encode_utf8_valid_utf8, valid_utf8};

verus! {

/// A loaded cache block coverage map: one flag per block of the object.
pub struct LoadedCoverageMap(pub Vec<bool>);

impl View for LoadedCoverageMap {
    type V = Seq<bool>;

    open spec fn view(&self) -> Seq<bool> {
        self.0@
    }
}

impl LoadedCoverageMap {
    /// Returns whether the block at the following index is covered.
    pub fn is_covered(&self, block_num: u64) -> (r: bool)
        requires
            block_num < self@.len(),
        ensures
            r == self@[block_num as int],
    {
        let _n = self.0.len();
        self.0[block_num as usize]
    }

    /// Marks the block at the following index as covered.
    /// Only does so in memory; does not write to the coverage map on disk.
    pub fn mark_covered(&mut self, block_num: u64)
        requires
            block_num < old(self)@.len(),
        ensures
            final(self)@ == old(self)@.update(block_num as int, true),
    {
        let _n = self.0.len();
        self.0.set(block_num as usize, true);
    }
}

/// The versions of the metadata format.
#[derive(Debug, Clone, Copy, PartialEq, Eq, Structural)]
pub enum ObjectMetaVersion {
    V0,
}

impl ObjectMetaVersion {
    /// The version that a leading version byte names, if any.
    pub fn from_u8(v: u8) -> (r: Option<ObjectMetaVersion>)
        ensures
            r == (if v == 0 {
                Some(ObjectMetaVersion::V0)
            } else {
                None
            }),
    {
        match v {
            0 => Some(ObjectMetaVersion::V0),
            _ => None,
        }
    }
}

/// Why a metadata buffer could not be read.
#[derive(Debug, Clone, Copy, PartialEq, Eq, Structural)]
pub enum MetaDecodeError {
    /// The buffer ends inside the version byte or the fixed fields.
    TooShort,
    /// The version byte names no known version.
    InvalidVersion,
    /// A header name or value is not valid UTF-8.
    InvalidUtf8,
    /// The buffer ends inside the length or the bytes of a header value.
    TruncatedHeaderValue,
}

/// The fixed-schema head of a metadata file.
pub struct ObjectMetaPreamble {
    pub exp_ts: u64,
    pub size_bytes: u64,
    pub block_size: u32,
    pub headers: Vec<(String, String)>,
}

/// A header as a pair of character sequences.
pub type HeaderView = (Seq<char>, Seq<char>);

/// The preamble as plain values.
pub struct PreambleView {
    pub exp_ts: u64,
    pub size_bytes: u64,
    pub block_size: u32,
    pub headers: Seq<HeaderView>,
}

pub open spec fn headers_view(hs: Seq<(String, String)>) -> Seq<HeaderView> {
    hs.map_values(|h: (String, String)| (h.0@, h.1@))
}

impl View for ObjectMetaPreamble {
    type V = PreambleView;

    open spec fn view(&self) -> PreambleView {
        PreambleView {
            exp_ts: self.exp_ts,
            size_bytes: self.size_bytes,
            block_size: self.block_size,
            headers: headers_view(self.headers@),
        }
    }
}

/// The length of the fixed part of the preamble: version, expiry, size, block size
/// and header count.
pub const PREAMBLE_FIXED_LEN: usize = 23;

/// A header is written as a length-prefixed name and a length-prefixed value.
pub open spec fn header_bytes(h: HeaderView) -> Seq<u8> {
    spec_u16_to_le_bytes(encode_utf8(h.0).len() as u16) + encode_utf8(h.0) + spec_u16_to_le_bytes(
        encode_utf8(h.1).len() as u16,
    ) + encode_utf8(h.1)
}

pub open spec fn headers_bytes(hs: Seq<HeaderView>) -> Seq<u8>
    decreases hs.len(),
{
    if hs.len() == 0 {
        seq![]
    } else {
        header_bytes(hs[0]) + headers_bytes(hs.subrange(1, hs.len() as int))
    }
}

/// The total length of the headers as written: two length prefixes, the name and
/// the value of each.
pub open spec fn headers_len(hs: Seq<HeaderView>) -> int
    decreases hs.len(),
{
    if hs.len() == 0 {
        0
    } else {
        4 + encode_utf8(hs[0].0).len() + encode_utf8(hs[0].1).len() + headers_len(
            hs.subrange(1, hs.len() as int),
        )
    }
}

/// The serialized preamble: version 0, then the fixed fields and the headers.
pub open spec fn preamble_bytes(p: PreambleView) -> Seq<u8> {
    seq![0u8] + spec_u64_to_le_bytes(p.exp_ts) + spec_u64_to_le_bytes(p.size_bytes)
        + spec_u32_to_le_bytes(p.block_size) + spec_u16_to_le_bytes(p.headers.len() as u16)
        + headers_bytes(p.headers)
}

/// A preamble that the format can hold: at most 65 535 headers, each name and
/// value at most 65 535 bytes of UTF-8.
pub open spec fn preamble_valid(p: PreambleView) -> bool {
    &&& p.headers.len() <= u16::MAX
    &&& forall|i: int| 0 <= i < p.headers.len() ==> header_fits(#[trigger] p.headers[i])
}

/// A header whose name and value each take at most 65 535 bytes of UTF-8.
pub open spec fn header_fits(h: HeaderView) -> bool {
    encode_utf8(h.0).len() <= u16::MAX && encode_utf8(h.1).len() <= u16::MAX
}

pub open spec fn read_u16(buf: Seq<u8>, off: int) -> int {
    spec_u16_from_le_bytes(buf.subrange(off, off + 2)) as int
}

/// Adds `acc` in front of the headers of a parse result.
pub open spec fn prepend_headers(
    acc: Seq<HeaderView>,
    r: Result<(Seq<HeaderView>, int), MetaDecodeError>,
) -> Result<(Seq<HeaderView>, int), MetaDecodeError> {
    match r {
        Ok((hs, o)) => Ok((acc + hs, o)),
        Err(e) => Err(e),
    }
}

/// Reads at most `count` headers from `buf` at `off`: the headers and the offset
/// where the coverage map begins. Fewer than two bytes left, or a name longer than
/// what is left, ends the headers without error, and the coverage map begins where
/// that header would have begun; a bad string or a cut value fails.
pub open spec fn parse_headers(buf: Seq<u8>, off: int, count: nat) -> Result<
    (Seq<HeaderView>, int),
    MetaDecodeError,
>
    decreases count,
{
    if count == 0 || off + 2 > buf.len() {
        Ok((seq![], off))
    } else {
        let o1 = off + 2;
        let nl = read_u16(buf, off);
        if o1 + nl > buf.len() {
            Ok((seq![], off))
        } else if !valid_utf8(buf.subrange(o1, o1 + nl)) {
            Err(MetaDecodeError::InvalidUtf8)
        } else if o1 + nl + 2 > buf.len() {
            Err(MetaDecodeError::TruncatedHeaderValue)
        } else {
            let o2 = o1 + nl + 2;
            let vl = read_u16(buf, o1 + nl);
            if o2 + vl > buf.len() {
                Err(MetaDecodeError::TruncatedHeaderValue)
            } else if !valid_utf8(buf.subrange(o2, o2 + vl)) {
                Err(MetaDecodeError::InvalidUtf8)
            } else {
                let h = (decode_utf8(buf.subrange(o1, o1 + nl)), decode_utf8(buf.subrange(o2, o2 + vl)));
                prepend_headers(seq![h], parse_headers(buf, o2 + vl, (count - 1) as nat))
            }
        }
    }
}

/// Reads a version 0 preamble that starts at `start`.
pub open spec fn parse_preamble_v0(buf: Seq<u8>, start: int) -> Result<(PreambleView, int), MetaDecodeError> {
    if buf.len() < start + 22 {
        Err(MetaDecodeError::TooShort)
    } else {
        match parse_headers(buf, start + 22, read_u16(buf, start + 20) as nat) {
            Ok((hs, off)) => Ok(
                (
                    PreambleView {
                        exp_ts: spec_u64_from_le_bytes(buf.subrange(start, start + 8)),
                        size_bytes: spec_u64_from_le_bytes(buf.subrange(start + 8, start + 16)),
                        block_size: spec_u32_from_le_bytes(buf.subrange(start + 16, start + 20)),
                        headers: hs,
                    },
                    off,
                ),
            ),
            Err(e) => Err(e),
        }
    }
}

/// Reads a preamble: the version byte, then the preamble of that version. The
/// offset returned is where the coverage map begins in `buf`.
pub open spec fn parse_preamble(buf: Seq<u8>) -> Result<(PreambleView, int), MetaDecodeError> {
    if buf.len() < 1 {
        Err(MetaDecodeError::TooShort)
    } else if buf[0] != 0 {
        Err(MetaDecodeError::InvalidVersion)
    } else {
        parse_preamble_v0(buf, 1)
    }
}

/// The coverage map that the bytes after the preamble hold: a block is covered
/// where its byte is 1.
pub open spec fn coverage_of(bytes: Seq<u8>) -> Seq<bool> {
    bytes.map_values(|b: u8| b == 1)
}

/// The bytes that a coverage map is stored as.
pub open spec fn coverage_bytes(cov: Seq<bool>) -> Seq<u8> {
    cov.map_values(|c: bool| if c { 1u8 } else { 0u8 })
}

/// Relies on `String::from_utf8`: it succeeds exactly on valid UTF-8, and the
/// string holds the characters that the bytes encode.
#[verifier::external_body]
pub(crate) fn string_from_utf8(bytes: Vec<u8>) -> (r: Option<String>)
    ensures
        r is Some <==> valid_utf8(bytes@),
        r matches Some(s) ==> s@ == decode_utf8(bytes@),
{
    String::from_utf8(bytes).ok()
}

/// The string that `buf[start..start + len]` encodes.
fn read_string(buf: &[u8], start: usize, len: usize) -> (r: Option<String>)
    requires
        start + len <= buf@.len(),
    ensures
        r is Some <==> valid_utf8(buf@.subrange(start as int, start + len)),
        r matches Some(s) ==> s@ == decode_utf8(buf@.subrange(start as int, start + len)),
{
    let _n = buf.len();
    string_from_utf8(slice_to_vec(slice_subrange(buf, start, start + len)))
}

fn read_u16_at(buf: &[u8], off: usize) -> (r: u16)
    requires
        off + 2 <= buf@.len(),
    ensures
        r == read_u16(buf@, off as int),
{
    let _n = buf.len();
    u16_from_le_bytes(slice_subrange(buf, off, off + 2))
}

proof fn lemma_prepend_assoc(
    acc: Seq<HeaderView>,
    h: HeaderView,
    r: Result<(Seq<HeaderView>, int), MetaDecodeError>,
)
    ensures
        prepend_headers(acc, prepend_headers(seq![h], r)) == prepend_headers(acc.push(h), r),
{
    match r {
        Ok((hs, o)) => {
            assert(acc + (seq![h] + hs) =~= acc.push(h) + hs);
        },
        Err(e) => {},
    }
}

/// Reads the headers as `parse_headers` says.
fn deserialize_headers(buf: &[u8], start: usize, count: u16) -> (r: Result<
    (Vec<(String, String)>, usize),
    MetaDecodeError,
>)
    requires
        start <= buf@.len(),
    ensures
        match r {
            Ok((hs, off)) => off <= buf@.len() && parse_headers(buf@, start as int, count as nat) == Ok::<
                (Seq<HeaderView>, int),
                MetaDecodeError,
            >((headers_view(hs@), off as int)),
            Err(e) => parse_headers(buf@, start as int, count as nat) == Err::<
                (Seq<HeaderView>, int),
                MetaDecodeError,
            >(e),
        },
{
    let mut headers: Vec<(String, String)> = Vec::new();
    let mut offset = start;
    let ghost whole = parse_headers(buf@, start as int, count as nat);
    let mut left: u16 = count;
    proof {
        assert(headers_view(headers@) =~= Seq::<HeaderView>::empty());
        assert(prepend_headers(seq![], whole) == whole) by {
            match whole {
                Ok((hs, o)) => {
                    assert(Seq::<HeaderView>::empty() + hs =~= hs);
                },
                Err(e) => {},
            }
        }
    }
    loop
        invariant
            offset <= buf@.len(),
            whole == parse_headers(buf@, start as int, count as nat),
            whole == prepend_headers(
                headers_view(headers@),
                parse_headers(buf@, offset as int, left as nat),
            ),
        decreases left,
    {
        let ghost acc = headers_view(headers@);
        if left == 0 || buf.len() - offset < 2 {
            proof {
                assert(acc + seq![] =~= acc);
            }
            return Ok((headers, offset));
        }
        let name_len = read_u16_at(buf, offset) as usize;
        let o1 = offset + 2;
        if buf.len() - o1 < name_len {
            proof {
                assert(acc + seq![] =~= acc);
            }
            return Ok((headers, offset));
        }
        let name = match read_string(buf, o1, name_len) {
            Some(s) => s,
            None => {
                return Err(MetaDecodeError::InvalidUtf8);
            },
        };
        let o2 = o1 + name_len;
        if buf.len() - o2 < 2 {
            return Err(MetaDecodeError::TruncatedHeaderValue);
        }
        let value_len = read_u16_at(buf, o2) as usize;
        let o3 = o2 + 2;
        if buf.len() - o3 < value_len {
            return Err(MetaDecodeError::TruncatedHeaderValue);
        }
        let value = match read_string(buf, o3, value_len) {
            Some(s) => s,
            None => {
                return Err(MetaDecodeError::InvalidUtf8);
            },
        };
        let ghost h: HeaderView = (name@, value@);
        proof {
            lemma_prepend_assoc(acc, h, parse_headers(buf@, (o3 + value_len) as int, (left - 1) as nat));
        }
        headers.push((name, value));
        proof {
            assert(headers_view(headers@) =~= acc.push(h));
        }
        offset = o3 + value_len;
        left = left - 1;
    }
}

/// An object's metadata: its preamble, where the coverage map begins in the file,
/// and the coverage map itself.
pub struct ObjectMeta {
    pub preamble: ObjectMetaPreamble,
    pub coverage_map_offset: u64,
    pub coverage_map: LoadedCoverageMap,
}

/// The metadata that `buf` holds, as `from_bytes` reads it: the preamble, the
/// offset of the coverage map, and the coverage map.
pub open spec fn parse_meta(buf: Seq<u8>) -> Result<(PreambleView, int, Seq<bool>), MetaDecodeError> {
    match parse_preamble(buf) {
        Ok((p, off)) => Ok((p, off, coverage_of(buf.subrange(off, buf.len() as int)))),
        Err(e) => Err(e),
    }
}

impl ObjectMeta {
    /// Reads an object's metadata from the whole contents of its file.
    pub fn from_bytes(buf: &[u8]) -> (r: Result<Self, MetaDecodeError>)
        ensures
            match r {
                Ok(m) => parse_meta(buf@) == Ok::<_, MetaDecodeError>(
                    (m.preamble@, m.coverage_map_offset as int, m.coverage_map@),
                ),
                Err(e) => parse_meta(buf@) == Err::<(PreambleView, int, Seq<bool>), _>(e),
            },
    {
        let (preamble, _version, offset) = match Self::deserialize_preamble(buf) {
            Ok(t) => t,
            Err(e) => {
                return Err(e);
            },
        };
        let mut coverage: Vec<bool> = Vec::new();
        let mut i = offset;
        proof {
            assert(coverage_of(buf@.subrange(offset as int, offset as int)) =~= coverage@);
        }
        while i < buf.len()
            invariant
                offset <= i <= buf@.len(),
                coverage@ == coverage_of(buf@.subrange(offset as int, i as int)),
            decreases buf@.len() - i,
        {
            coverage.push(buf[i] == 1);
            proof {
                assert(coverage_of(buf@.subrange(offset as int, i + 1)) =~= coverage_of(
                    buf@.subrange(offset as int, i as int),
                ).push(buf@[i as int] == 1));
            }
            i = i + 1;
        }
        Ok(ObjectMeta {
            preamble,
            coverage_map_offset: offset as u64,
            coverage_map: LoadedCoverageMap(coverage),
        })
    }

    /// Reads a version 0 preamble that starts at `start` in `buf`; returns it and the
    /// offset in `buf` where the coverage map begins.
    fn deserialize_preamble_v1(buf: &[u8], start: usize) -> (r: Result<
        (ObjectMetaPreamble, usize),
        MetaDecodeError,
    >)
        requires
            start <= buf@.len(),
        ensures
            match r {
                Ok((p, off)) => off <= buf@.len() && parse_preamble_v0(buf@, start as int) == Ok::<_, MetaDecodeError>(
                    (p@, off as int),
                ),
                Err(e) => parse_preamble_v0(buf@, start as int) == Err::<(PreambleView, int), _>(e),
            },
    {
        if buf.len() - start < 22 {
            return Err(MetaDecodeError::TooShort);
        }
        let exp_ts = u64_from_le_bytes(slice_subrange(buf, start, start + 8));
        let size_bytes = u64_from_le_bytes(slice_subrange(buf, start + 8, start + 16));
        let block_size = u32_from_le_bytes(slice_subrange(buf, start + 16, start + 20));
        let headers_count = read_u16_at(buf, start + 20);
        match deserialize_headers(buf, start + 22, headers_count) {
            Ok((headers, offset)) => Ok(
                (ObjectMetaPreamble { exp_ts, size_bytes, block_size, headers }, offset),
            ),
            Err(e) => Err(e),
        }
    }

    /// Reads the preamble at the start of `buf`: the preamble, its version, and the
    /// offset in `buf` where the coverage map begins.
    pub fn deserialize_preamble(buf: &[u8]) -> (r: Result<
        (ObjectMetaPreamble, ObjectMetaVersion, usize),
        MetaDecodeError,
    >)
        ensures
            match r {
                Ok((p, v, off)) => v == ObjectMetaVersion::V0 && off <= buf@.len() && parse_preamble(buf@) == Ok::<
                    _,
                    MetaDecodeError,
                >((p@, off as int)),
                Err(e) => parse_preamble(buf@) == Err::<(PreambleView, int), _>(e),
            },
    {
        if buf.len() < 1 {
            return Err(MetaDecodeError::TooShort);
        }
        let version = match ObjectMetaVersion::from_u8(buf[0]) {
            Some(v) => v,
            None => {
                return Err(MetaDecodeError::InvalidVersion);
            },
        };
        match version {
            ObjectMetaVersion::V0 => match Self::deserialize_preamble_v1(buf, 1) {
                Ok((preamble, offset)) => Ok((preamble, version, offset)),
                Err(e) => Err(e),
            },
        }
    }
}

/// Headers written one after another: appending a header appends its bytes.
proof fn lemma_headers_bytes_push(hs: Seq<HeaderView>, h: HeaderView)
    ensures
        headers_bytes(hs.push(h)) == headers_bytes(hs) + header_bytes(h),
    decreases hs.len(),
{
    if hs.len() == 0 {
        assert(hs.push(h).subrange(1, 1) =~= Seq::<HeaderView>::empty());
        assert(hs.push(h)[0] == h);
        assert(headers_bytes(hs.push(h).subrange(1, 1)) == Seq::<u8>::empty());
        assert(headers_bytes(hs.push(h)) =~= header_bytes(h) + Seq::<u8>::empty());
        assert(headers_bytes(hs) + header_bytes(h) =~= header_bytes(h));
    } else {
        let rest = hs.subrange(1, hs.len() as int);
        assert(hs.push(h).subrange(1, hs.len() as int + 1) =~= rest.push(h));
        lemma_headers_bytes_push(rest, h);
        assert(hs.push(h)[0] == hs[0]);
        assert(header_bytes(hs[0]) + (headers_bytes(rest) + header_bytes(h)) =~= (header_bytes(
            hs[0],
        ) + headers_bytes(rest)) + header_bytes(h));
    }
}

proof fn lemma_headers_len(hs: Seq<HeaderView>)
    ensures
        headers_bytes(hs).len() == headers_len(hs),
    decreases hs.len(),
{
    lemma_auto_spec_u16_to_from_le_bytes();
    if hs.len() > 0 {
        lemma_headers_len(hs.subrange(1, hs.len() as int));
    }
}

/// Appends the UTF-8 bytes of `s` with their 16-bit length before them.
fn push_string(vec: &mut Vec<u8>, s: &String)
    requires
        encode_utf8(s@).len() <= u16::MAX,
    ensures
        final(vec)@ == old(vec)@ + spec_u16_to_le_bytes(encode_utf8(s@).len() as u16)
            + encode_utf8(s@),
{
    let mut bytes = slice_to_vec(s.as_str().as_bytes());
    let mut len = u16_to_le_bytes(bytes.len() as u16);
    vec.append(&mut len);
    vec.append(&mut bytes);
}

impl ObjectMeta {
    /// Serializes the preamble of this metadata (not the coverage map).
    pub fn serialize_preamble(self) -> (r: Vec<u8>)
        requires
            preamble_valid(self.preamble@),
        ensures
            r@ == preamble_bytes(self.preamble@),
            r@.len() == PREAMBLE_FIXED_LEN + headers_len(self.preamble@.headers),
    {
        proof {
            lemma_headers_len(self.preamble@.headers);
        }
        let p = &self.preamble;
        let ghost hv = p@.headers;
        let mut vec: Vec<u8> = Vec::new();
        vec.push(0u8);
        let mut b = u64_to_le_bytes(p.exp_ts);
        vec.append(&mut b);
        let mut b = u64_to_le_bytes(p.size_bytes);
        vec.append(&mut b);
        let mut b = u32_to_le_bytes(p.block_size);
        vec.append(&mut b);
        let headers_count = p.headers.len() as u16;
        let mut b = u16_to_le_bytes(headers_count);
        vec.append(&mut b);
        let ghost fixed = vec@;
        proof {
            assert(fixed =~= seq![0u8] + spec_u64_to_le_bytes(p.exp_ts) + spec_u64_to_le_bytes(
                p.size_bytes,
            ) + spec_u32_to_le_bytes(p.block_size) + spec_u16_to_le_bytes(hv.len() as u16));
            assert(hv.subrange(0, 0) =~= Seq::<HeaderView>::empty());
            assert(fixed + headers_bytes(hv.subrange(0, 0)) =~= fixed);
        }
        let mut i: usize = 0;
        while i < p.headers.len()
            invariant
                hv == p@.headers,
                i <= hv.len(),
                hv.len() == p.headers@.len(),
                preamble_valid(p@),
                vec@ == fixed + headers_bytes(hv.subrange(0, i as int)),
            decreases hv.len() - i,
        {
            let (name, value) = &p.headers[i];
            assert(hv[i as int] == (name@, value@));
            assert(header_fits(hv[i as int]));
            push_string(&mut vec, name);
            push_string(&mut vec, value);
            proof {
                assert(hv.subrange(0, i + 1) =~= hv.subrange(0, i as int).push(hv[i as int]));
                lemma_headers_bytes_push(hv.subrange(0, i as int), hv[i as int]);
                assert(vec@ =~= fixed + headers_bytes(hv.subrange(0, i + 1)));
            }
            i = i + 1;
        }
        proof {
            assert(hv.subrange(0, hv.len() as int) =~= hv);
        }
        vec
    }
}

/// A window of `buf` that holds `a + b` holds `a`, then `b`.
proof fn lemma_split(buf: Seq<u8>, off: int, a: Seq<u8>, b: Seq<u8>)
    requires
        0 <= off,
        off + a.len() + b.len() <= buf.len(),
        buf.subrange(off, off + a.len() + b.len()) == a + b,
    ensures
        buf.subrange(off, off + a.len()) == a,
        buf.subrange(off + a.len(), off + a.len() + b.len()) == b,
{
    assert(buf.subrange(off, off + a.len()) =~= (a + b).subrange(0, a.len() as int));
    assert((a + b).subrange(0, a.len() as int) =~= a);
    let la = a.len() as int;
    let lb = b.len() as int;
    assert(buf.subrange(off + la, off + la + lb) =~= (a + b).subrange(la, la + lb));
    assert((a + b).subrange(la, la + lb) =~= b);
}

/// A string written by `push_string` reads back as the same string.
proof fn lemma_string_round_trip(buf: Seq<u8>, off: int, s: Seq<char>)
    requires
        0 <= off,
        encode_utf8(s).len() <= u16::MAX,
        off + 2 + encode_utf8(s).len() <= buf.len(),
        buf.subrange(off, off + 2 + encode_utf8(s).len()) == spec_u16_to_le_bytes(
            encode_utf8(s).len() as u16,
        ) + encode_utf8(s),
    ensures
        read_u16(buf, off) == encode_utf8(s).len(),
        buf.subrange(off + 2, off + 2 + encode_utf8(s).len()) == encode_utf8(s),
        valid_utf8(encode_utf8(s)),
        decode_utf8(encode_utf8(s)) == s,
{
    lemma_auto_spec_u16_to_from_le_bytes();
    let e = encode_utf8(s);
    lemma_split(buf, off, spec_u16_to_le_bytes(e.len() as u16), e);
    encode_utf8_valid_utf8(s);
    encode_utf8_decode_utf8(s);
}

/// Headers written by `serialize_preamble` read back as the same headers, and
/// the coverage map begins right after them.
proof fn lemma_headers_round_trip(buf: Seq<u8>, off: int, hs: Seq<HeaderView>)
    requires
        0 <= off,
        off + headers_bytes(hs).len() <= buf.len(),
        buf.subrange(off, off + headers_bytes(hs).len()) == headers_bytes(hs),
        forall|i: int| 0 <= i < hs.len() ==> header_fits(#[trigger] hs[i]),
    ensures
        parse_headers(buf, off, hs.len()) == Ok::<_, MetaDecodeError>(
            (hs, off + headers_bytes(hs).len()),
        ),
    decreases hs.len(),
{
    lemma_auto_spec_u16_to_from_le_bytes();
    if hs.len() > 0 {
        let h = hs[0];
        let rest = hs.subrange(1, hs.len() as int);
        let n = encode_utf8(h.0);
        let v = encode_utf8(h.1);
        let pn = spec_u16_to_le_bytes(n.len() as u16) + n;
        let pv = spec_u16_to_le_bytes(v.len() as u16) + v;
        assert(header_bytes(h) =~= pn + pv);
        lemma_split(buf, off, header_bytes(h), headers_bytes(rest));
        lemma_split(buf, off, pn, pv);
        lemma_string_round_trip(buf, off, h.0);
        lemma_string_round_trip(buf, off + pn.len(), h.1);
        assert(header_fits(hs[0]));
        assert forall|i: int| 0 <= i < rest.len() implies header_fits(#[trigger] rest[i]) by {
            assert(rest[i] == hs[i + 1]);
        }
        lemma_headers_round_trip(buf, off + header_bytes(h).len(), rest);
        assert(seq![h] + rest =~= hs);
        assert(seq![(decode_utf8(n), decode_utf8(v))] == seq![h]);
        let o1 = off + 2;
        assert(read_u16(buf, off) == n.len());
        assert(buf.subrange(o1, o1 + n.len()) == n);
        assert(read_u16(buf, o1 + n.len()) == v.len());
        assert(buf.subrange(o1 + n.len() + 2, o1 + n.len() + 2 + v.len()) == v);
        assert(o1 + n.len() + 2 + v.len() == off + header_bytes(h).len());
    } else {
        assert(hs =~= Seq::<HeaderView>::empty());
    }
}

/// Reading back a serialized preamble followed by a stored coverage map yields the
/// same preamble and coverage map, with the coverage map beginning right after
/// the preamble.
pub proof fn lemma_meta_round_trip(p: PreambleView, cov: Seq<bool>)
    requires
        preamble_valid(p),
    ensures
        parse_meta(preamble_bytes(p) + coverage_bytes(cov)) == Ok::<_, MetaDecodeError>(
            (p, preamble_bytes(p).len() as int, cov),
        ),
{
    lemma_auto_spec_u16_to_from_le_bytes();
    lemma_auto_spec_u32_to_from_le_bytes();
    lemma_auto_spec_u64_to_from_le_bytes();
    let pre = preamble_bytes(p);
    let cb = coverage_bytes(cov);
    let buf = pre + cb;
    let hb = headers_bytes(p.headers);
    let f0 = seq![0u8];
    let f1 = spec_u64_to_le_bytes(p.exp_ts);
    let f2 = spec_u64_to_le_bytes(p.size_bytes);
    let f3 = spec_u32_to_le_bytes(p.block_size);
    let f4 = spec_u16_to_le_bytes(p.headers.len() as u16);
    assert(buf.subrange(0, pre.len() as int) =~= pre);
    assert(buf.subrange(pre.len() as int, buf.len() as int) =~= cb);
    assert(pre == f0 + f1 + f2 + f3 + f4 + hb);
    lemma_split(buf, 0, f0 + f1 + f2 + f3 + f4, hb);
    lemma_split(buf, 0, f0 + f1 + f2 + f3, f4);
    lemma_split(buf, 0, f0 + f1 + f2, f3);
    lemma_split(buf, 0, f0 + f1, f2);
    lemma_split(buf, 0, f0, f1);
    assert(buf[0] == 0);
    lemma_headers_round_trip(buf, 23, p.headers);
    assert(coverage_of(cb) =~= cov);
}

impl ObjectMeta {
    /// The byte of the metadata file that stores the coverage flag of `block_num`,
    /// if the block exists and the position fits in 64 bits.
    pub fn coverage_byte_offset(&self, block_num: u64) -> (r: Option<u64>)
        ensures
            r == (if block_num < self.coverage_map@.len() && self.coverage_map_offset + block_num
                <= u64::MAX {
                Some((self.coverage_map_offset + block_num) as u64)
            } else {
                None::<u64>
            }),
    {
        if block_num >= self.coverage_map.0.len() as u64 {
            return None;
        }
        if u64::MAX - self.coverage_map_offset < block_num {
            return None;
        }
        Some(self.coverage_map_offset + block_num)
    }

    /// Records in memory that `block_num` is covered, once its flag is durable on disk.
    pub fn mark_covered(&mut self, block_num: u64)
        requires
            block_num < old(self).coverage_map@.len(),
        ensures
            final(self).coverage_map@ == old(self).coverage_map@.update(block_num as int, true),
            final(self).preamble@ == old(self).preamble@,
            final(self).coverage_map_offset == old(self).coverage_map_offset,
    {
        self.coverage_map.mark_covered(block_num);
    }
}

impl ObjectMetaPreamble {
    /// Whether the format can hold this preamble: at most 65 535 headers, each name
    /// and value at most 65 535 bytes of UTF-8.
    pub fn is_serializable(&self) -> (r: bool)
        ensures
            r == preamble_valid(self@),
    {
        if self.headers.len() > 65535 {
            assert(self@.headers.len() == self.headers@.len());
            return false;
        }
        let mut i: usize = 0;
        while i < self.headers.len()
            invariant
                i <= self.headers@.len(),
                self@.headers.len() == self.headers@.len(),
                forall|k: int| 0 <= k < i ==> header_fits(#[trigger] self@.headers[k]),
            decreases self.headers@.len() - i,
        {
            let (name, value) = &self.headers[i];
            assert(self@.headers[i as int] == (name@, value@));
            let name_len = name.as_str().as_bytes().len();
            let value_len = value.as_str().as_bytes().len();
            if name_len > 65535 || value_len > 65535 {
                assert(!header_fits(self@.headers[i as int]));
                return false;
            }
            i = i + 1;
        }
        true
    }
}

} // verus!
