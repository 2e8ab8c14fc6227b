use vstd::prelude::*;

verus! {

use vstd::bytes::{spec_u32_to_le_bytes, spec_u32_from_le_bytes, spec_u64_to_le_bytes,
    spec_u64_from_le_bytes, lemma_auto_spec_u32_to_from_le_bytes,
    lemma_auto_spec_u64_to_from_le_bytes, u32_to_le_bytes, u64_to_le_bytes, u64_from_le_bytes,
    u32_from_le_bytes};
use vstd::utf8::{encode_utf8, decode_utf8, valid_utf8, encode_utf8_valid_utf8,
    encode_utf8_decode_utf8};
use vstd::string::StrSliceExecFns;
use vstd::slice::{slice_subrange, slice_to_vec};
use crate::cipher::{pad16, spec_ecb_decrypt};
use crate::codec::inflate_of;
use crate::checksum::spec_digest;

/// Magic tag closing every archive footer.
pub const ARCHIVE_MAGIC: u32 = 0x4d50414b;

/// The one format version this library produces and consumes.
pub const FORMAT_VERSION: u32 = 11;

/// Size in bytes of the fixed footer: index offset, entry count, version,
/// magic.
pub const FOOTER_SIZE: usize = 24;

/// How an entry's payload is stored: as-is, or deflate-compressed.
#[derive(Clone, Copy, Debug, PartialEq, Eq, Structural)]
pub enum CompressionMethod {
    Stored,
    Deflate,
}

/// One entry of the archive index: where a named payload sits in the
/// payload region and how to recover it.
#[derive(Debug)]
pub struct EntryMeta {
    pub path: String,
    pub offset: u64,
    pub compressed_size: u64,
    pub uncompressed_size: u64,
    pub method: CompressionMethod,
    pub is_encrypted: bool,
    pub content_hash: u64,
}

/// Spec-level form of one entry.
#[verifier::ext_equal]
pub struct EntryModel {
    pub path: Seq<char>,
    pub offset: u64,
    pub compressed_size: u64,
    pub uncompressed_size: u64,
    pub method: CompressionMethod,
    pub is_encrypted: bool,
    pub content_hash: u64,
}

impl View for EntryMeta {
    type V = EntryModel;

    open spec fn view(&self) -> EntryModel {
        EntryModel {
            path: self.path@,
            offset: self.offset,
            compressed_size: self.compressed_size,
            uncompressed_size: self.uncompressed_size,
            method: self.method,
            is_encrypted: self.is_encrypted,
            content_hash: self.content_hash,
        }
    }
}

/// Spec-level form of a whole index.
#[verifier::ext_equal]
pub struct IndexModel {
    pub mount_point: Seq<char>,
    pub version: u32,
    pub entries: Seq<EntryModel>,
}

/// The models of a sequence of entries.
pub open spec fn entries_view(es: Seq<EntryMeta>) -> Seq<EntryModel> {
    es.map_values(|e: EntryMeta| e@)
}

/// A length-prefixed UTF-8 string: eight little-endian length bytes, then
/// the encoding itself.
pub open spec fn ser_str(s: Seq<char>) -> Seq<u8> {
    spec_u64_to_le_bytes(encode_utf8(s).len() as u64) + encode_utf8(s)
}

/// The byte tag of a compression method.
pub open spec fn method_byte(m: CompressionMethod) -> u8 {
    match m {
        CompressionMethod::Stored => 0u8,
        CompressionMethod::Deflate => 1u8,
    }
}

/// The serialized form of one index entry.
pub open spec fn ser_entry(e: EntryModel) -> Seq<u8> {
    ser_str(e.path) + spec_u64_to_le_bytes(e.offset) + spec_u64_to_le_bytes(e.compressed_size)
        + spec_u64_to_le_bytes(e.uncompressed_size) + seq![method_byte(e.method)] + seq![
        if e.is_encrypted {
            1u8
        } else {
            0u8
        },
    ] + spec_u64_to_le_bytes(e.content_hash)
}

/// The serialized form of a sequence of entries, in order.
pub open spec fn ser_entries(es: Seq<EntryModel>) -> Seq<u8>
    decreases es.len(),
{
    if es.len() == 0 {
        Seq::empty()
    } else {
        ser_entry(es.first()) + ser_entries(es.drop_first())
    }
}

/// The index region and footer that an archive appends after a payload
/// region of `payload_len` bytes.
pub open spec fn ser_index(idx: IndexModel, payload_len: int) -> Seq<u8> {
    ser_str(idx.mount_point) + ser_entries(idx.entries) + spec_u64_to_le_bytes(payload_len as u64)
        + spec_u64_to_le_bytes(idx.entries.len() as u64) + spec_u32_to_le_bytes(idx.version)
        + spec_u32_to_le_bytes(ARCHIVE_MAGIC)
}

/// Reads a little-endian `u64` at `pos`.
pub open spec fn parse_u64_at(d: Seq<u8>, pos: int) -> Option<(u64, int)> {
    if 0 <= pos && pos + 8 <= d.len() {
        Some((spec_u64_from_le_bytes(d.subrange(pos, pos + 8)), pos + 8))
    } else {
        None
    }
}

/// Reads one byte at `pos`.
pub open spec fn parse_u8_at(d: Seq<u8>, pos: int) -> Option<(u8, int)> {
    if 0 <= pos && pos + 1 <= d.len() {
        Some((d[pos], pos + 1))
    } else {
        None
    }
}

/// Reads a length-prefixed UTF-8 string at `pos`.
pub open spec fn parse_str_at(d: Seq<u8>, pos: int) -> Option<(Seq<char>, int)> {
    match parse_u64_at(d, pos) {
        None => None,
        Some((n, p1)) => {
            if p1 + n <= d.len() {
                let bytes = d.subrange(p1, p1 + n as int);
                if valid_utf8(bytes) {
                    Some((decode_utf8(bytes), p1 + n as int))
                } else {
                    None
                }
            } else {
                None
            }
        },
    }
}

/// Reads one index entry at `pos`.
pub open spec fn parse_entry_at(d: Seq<u8>, pos: int) -> Option<(EntryModel, int)> {
    match parse_str_at(d, pos) {
        None => None,
        Some((path, p1)) => match parse_u64_at(d, p1) {
            None => None,
            Some((off, p2)) => match parse_u64_at(d, p2) {
                None => None,
                Some((cs, p3)) => match parse_u64_at(d, p3) {
                    None => None,
                    Some((us, p4)) => match parse_u8_at(d, p4) {
                        None => None,
                        Some((mb, p5)) => match parse_u8_at(d, p5) {
                            None => None,
                            Some((eb, p6)) => match parse_u64_at(d, p6) {
                                None => None,
                                Some((h, p7)) => if (mb == 0 || mb == 1) && (eb == 0 || eb == 1) {
                                    Some(
                                        (
                                            EntryModel {
                                                path,
                                                offset: off,
                                                compressed_size: cs,
                                                uncompressed_size: us,
                                                method: if mb == 0 {
                                                    CompressionMethod::Stored
                                                } else {
                                                    CompressionMethod::Deflate
                                                },
                                                is_encrypted: eb == 1,
                                                content_hash: h,
                                            },
                                            p7,
                                        ),
                                    )
                                } else {
                                    None
                                },
                            },
                        },
                    },
                },
            },
        },
    }
}

/// Reads `count` consecutive index entries at `pos`.
pub open spec fn parse_entries_at(d: Seq<u8>, pos: int, count: nat) -> Option<
    (Seq<EntryModel>, int),
>
    decreases count,
{
    if count == 0 {
        Some((Seq::empty(), pos))
    } else {
        match parse_entry_at(d, pos) {
            None => None,
            Some((e, p1)) => match parse_entries_at(d, p1, (count - 1) as nat) {
                None => None,
                Some((es, p2)) => Some((seq![e] + es, p2)),
            },
        }
    }
}

/// The index encoded in an archive's bytes, when they are a well-formed
/// archive: footer magic present, index region parses, and the index ends
/// exactly at the footer.
pub open spec fn parse_archive(d: Seq<u8>) -> Option<IndexModel> {
    if d.len() < 24 {
        None
    } else {
        let fpos = d.len() - 24;
        let index_off = spec_u64_from_le_bytes(d.subrange(fpos, fpos + 8));
        let count = spec_u64_from_le_bytes(d.subrange(fpos + 8, fpos + 16));
        let version = spec_u32_from_le_bytes(d.subrange(fpos + 16, fpos + 20));
        let magic = spec_u32_from_le_bytes(d.subrange(fpos + 20, fpos + 24));
        if magic != ARCHIVE_MAGIC || index_off as int > fpos {
            None
        } else {
            match parse_str_at(d, index_off as int) {
                None => None,
                Some((mount, p1)) => match parse_entries_at(d, p1, count as nat) {
                    None => None,
                    Some((es, p2)) => if p2 == fpos {
                        Some(IndexModel { mount_point: mount, version, entries: es })
                    } else {
                        None
                    },
                },
            }
        }
    }
}

/// The number of payload bytes an entry occupies: encryption pads to whole
/// 16-byte blocks.
pub open spec fn stored_len(e: EntryModel) -> int {
    if e.is_encrypted {
        pad16(e.compressed_size as int)
    } else {
        e.compressed_size as int
    }
}

/// Whether an entry's stored bytes lie within the first `payload_len`
/// bytes.
pub open spec fn entry_in_bounds(e: EntryModel, payload_len: int) -> bool {
    e.offset + stored_len(e) <= payload_len
}

/// Recovers one entry's payload from the archive bytes `d`: slice the
/// stored bytes, decrypt them if the entry is marked encrypted, decompress
/// if marked compressed, and accept only a result of the recorded size and
/// digest.
pub open spec fn recover_entry(key: Option<Seq<u8>>, d: Seq<u8>, e: EntryModel) -> Option<Seq<u8>> {
    if !entry_in_bounds(e, d.len() as int) {
        None
    } else if e.is_encrypted && key is None {
        None
    } else {
        let stored = d.subrange(e.offset as int, e.offset + stored_len(e));
        let plain = if e.is_encrypted {
            match key {
                Some(k) => spec_ecb_decrypt(k, stored).take(e.compressed_size as int),
                None => stored,
            }
        } else {
            stored
        };
        let out = match e.method {
            CompressionMethod::Stored => Some(plain),
            CompressionMethod::Deflate => inflate_of(plain),
        };
        match out {
            None => None,
            Some(o) => if o.len() == e.uncompressed_size && spec_digest(o) == e.content_hash {
                Some(o)
            } else {
                None
            },
        }
    }
}

/// The first index entry carrying `path`, if any.
pub open spec fn spec_lookup(es: Seq<EntryModel>, path: Seq<char>) -> Option<EntryModel>
    decreases es.len(),
{
    if es.len() == 0 {
        None
    } else if es.first().path == path {
        Some(es.first())
    } else {
        spec_lookup(es.drop_first(), path)
    }
}

/// The paths of a sequence of entries, in index order.
pub open spec fn paths_of(es: Seq<EntryModel>) -> Seq<Seq<char>> {
    es.map_values(|e: EntryModel| e.path)
}

/// Whether no two entries share a path.
pub open spec fn paths_unique(es: Seq<EntryModel>) -> bool {
    forall|i: int, j: int| 0 <= i < j < es.len() ==> es[i].path != es[j].path
}

/// Relies on `String::from_utf8`: it accepts exactly the valid UTF-8 byte
/// sequences, and returns the string those bytes encode.
#[verifier::external_body]
pub(crate) fn string_from_utf8(v: Vec<u8>) -> (r: Option<String>)
    ensures
        r matches Some(s) ==> valid_utf8(v@) && s@ == decode_utf8(v@),
        valid_utf8(v@) ==> r is Some,
{
    String::from_utf8(v).ok()
}

/// Appends the serialized form of one string.
pub(crate) fn write_str_bytes(out: &mut Vec<u8>, s: &str)
    ensures
        final(out)@ == old(out)@ + ser_str(s@),
{
    let mut bytes = s.as_bytes_vec();
    let n = bytes.len();
    let mut lenb = u64_to_le_bytes(n as u64);
    out.append(&mut lenb);
    out.append(&mut bytes);
    proof {
        assert(out@ =~= old(out)@ + ser_str(s@));
    }
}

/// Appends the serialized form of one index entry.
pub(crate) fn write_entry_bytes(out: &mut Vec<u8>, e: &EntryMeta)
    ensures
        final(out)@ == old(out)@ + ser_entry(e@),
{
    write_str_bytes(out, e.path.as_str());
    let mut b1 = u64_to_le_bytes(e.offset);
    out.append(&mut b1);
    let mut b2 = u64_to_le_bytes(e.compressed_size);
    out.append(&mut b2);
    let mut b3 = u64_to_le_bytes(e.uncompressed_size);
    out.append(&mut b3);
    let mb: u8 = match e.method {
        CompressionMethod::Stored => 0u8,
        CompressionMethod::Deflate => 1u8,
    };
    out.push(mb);
    out.push(if e.is_encrypted { 1u8 } else { 0u8 });
    let mut b4 = u64_to_le_bytes(e.content_hash);
    out.append(&mut b4);
    proof {
        assert(out@ =~= old(out)@ + ser_entry(e@));
    }
}

proof fn lemma_ser_entries_push(es: Seq<EntryModel>, e: EntryModel)
    ensures
        ser_entries(es.push(e)) == ser_entries(es) + ser_entry(e),
    decreases es.len(),
{
    if es.len() == 0 {
        assert(es.push(e).first() == e);
        assert(es.push(e).drop_first() =~= es);
        assert(ser_entries(es) == Seq::<u8>::empty());
        assert(ser_entry(e) + ser_entries(es) =~= ser_entry(e));
        assert(ser_entries(es) + ser_entry(e) =~= ser_entry(e));
    } else {
        assert(es.push(e).first() == es.first());
        assert(es.push(e).drop_first() =~= es.drop_first().push(e));
        lemma_ser_entries_push(es.drop_first(), e);
        assert(ser_entry(es.first()) + (ser_entries(es.drop_first()) + ser_entry(e)) =~= (ser_entry(
            es.first(),
        ) + ser_entries(es.drop_first())) + ser_entry(e));
    }
}

/// Appends the index region and footer for the given entries, to stand
/// after a payload region of `payload_len` bytes.
pub(crate) fn write_index_region(
    out: &mut Vec<u8>,
    mount: &str,
    version: u32,
    entries: &Vec<EntryMeta>,
    payload_len: u64,
)
    ensures
        final(out)@ == old(out)@ + ser_index(
            IndexModel { mount_point: mount@, version: version, entries: entries_view(entries@) },
            payload_len as int,
        ),
{
    write_str_bytes(out, mount);
    let mut i: usize = 0;
    while i < entries.len()
        invariant
            i <= entries@.len(),
            out@ == old(out)@ + ser_str(mount@) + ser_entries(entries_view(entries@.take(i as int))),
        decreases entries@.len() - i,
    {
        write_entry_bytes(out, &entries[i]);
        proof {
            assert(entries_view(entries@.take(i + 1)) =~= entries_view(
                entries@.take(i as int),
            ).push(entries@[i as int]@));
            lemma_ser_entries_push(entries_view(entries@.take(i as int)), entries@[i as int]@);
            assert(old(out)@ + ser_str(mount@) + (ser_entries(
                entries_view(entries@.take(i as int)),
            ) + ser_entry(entries@[i as int]@)) =~= (old(out)@ + ser_str(mount@) + ser_entries(
                entries_view(entries@.take(i as int)),
            )) + ser_entry(entries@[i as int]@));
        }
        i += 1;
    }
    proof {
        assert(entries@.take(entries@.len() as int) =~= entries@);
    }
    let mut f1 = u64_to_le_bytes(payload_len);
    out.append(&mut f1);
    let mut f2 = u64_to_le_bytes(entries.len() as u64);
    out.append(&mut f2);
    let mut f3 = u32_to_le_bytes(version);
    out.append(&mut f3);
    let mut f4 = u32_to_le_bytes(ARCHIVE_MAGIC);
    out.append(&mut f4);
    proof {
        assert(entries_view(entries@).len() == entries@.len());
        assert(out@ =~= old(out)@ + ser_index(
            IndexModel { mount_point: mount@, version: version, entries: entries_view(entries@) },
            payload_len as int,
        ));
    }
}

/// Reads a little-endian `u64` at `pos`, executably.
pub(crate) fn read_u64_at(d: &Vec<u8>, pos: usize) -> (r: Option<(u64, usize)>)
    ensures
        match r {
            Some((x, p)) => parse_u64_at(d@, pos as int) == Some((x, p as int)) && p <= d@.len(),
            None => parse_u64_at(d@, pos as int) is None,
        },
{
    if d.len() >= 8 && pos <= d.len() - 8 {
        let x = u64_from_le_bytes(slice_subrange(d.as_slice(), pos, pos + 8));
        Some((x, pos + 8))
    } else {
        None
    }
}

/// Reads a little-endian `u32` at `pos`, executably.
pub(crate) fn read_u32_at(d: &Vec<u8>, pos: usize) -> (r: Option<(u32, usize)>)
    ensures
        match r {
            Some((x, p)) => 0 <= pos && pos + 4 <= d@.len() && x == spec_u32_from_le_bytes(
                d@.subrange(pos as int, pos as int + 4),
            ) && p == pos + 4,
            None => pos + 4 > d@.len(),
        },
{
    if d.len() >= 4 && pos <= d.len() - 4 {
        let x = u32_from_le_bytes(slice_subrange(d.as_slice(), pos, pos + 4));
        Some((x, pos + 4))
    } else {
        None
    }
}

/// Reads one byte at `pos`, executably.
pub(crate) fn read_u8_at(d: &Vec<u8>, pos: usize) -> (r: Option<(u8, usize)>)
    ensures
        match r {
            Some((x, p)) => parse_u8_at(d@, pos as int) == Some((x, p as int)) && p <= d@.len(),
            None => parse_u8_at(d@, pos as int) is None,
        },
{
    if pos < d.len() {
        Some((d[pos], pos + 1))
    } else {
        None
    }
}

/// Reads a length-prefixed UTF-8 string at `pos`, executably.
pub(crate) fn read_str_at(d: &Vec<u8>, pos: usize) -> (r: Option<(String, usize)>)
    ensures
        match r {
            Some((s, p)) => parse_str_at(d@, pos as int) == Some((s@, p as int)) && p <= d@.len(),
            None => parse_str_at(d@, pos as int) is None,
        },
{
    match read_u64_at(d, pos) {
        None => None,
        Some((n, p1)) => {
            if n <= (d.len() - p1) as u64 {
                let nn = n as usize;
                let bytes = slice_to_vec(slice_subrange(d.as_slice(), p1, p1 + nn));
                match string_from_utf8(bytes) {
                    Some(s) => Some((s, p1 + nn)),
                    None => None,
                }
            } else {
                None
            }
        },
    }
}

/// Reads one index entry at `pos`, executably.
pub(crate) fn read_entry_at(d: &Vec<u8>, pos: usize) -> (r: Option<(EntryMeta, usize)>)
    ensures
        match r {
            Some((e, p)) => parse_entry_at(d@, pos as int) == Some((e@, p as int)) && p <= d@.len(),
            None => parse_entry_at(d@, pos as int) is None,
        },
{
    let (path, p1) = match read_str_at(d, pos) {
        None => {
            return None;
        },
        Some(x) => x,
    };
    let (off, p2) = match read_u64_at(d, p1) {
        None => {
            return None;
        },
        Some(x) => x,
    };
    let (cs, p3) = match read_u64_at(d, p2) {
        None => {
            return None;
        },
        Some(x) => x,
    };
    let (us, p4) = match read_u64_at(d, p3) {
        None => {
            return None;
        },
        Some(x) => x,
    };
    let (mb, p5) = match read_u8_at(d, p4) {
        None => {
            return None;
        },
        Some(x) => x,
    };
    let (eb, p6) = match read_u8_at(d, p5) {
        None => {
            return None;
        },
        Some(x) => x,
    };
    let (h, p7) = match read_u64_at(d, p6) {
        None => {
            return None;
        },
        Some(x) => x,
    };
    if !((mb == 0 || mb == 1) && (eb == 0 || eb == 1)) {
        return None;
    }
    let method = if mb == 0 {
        CompressionMethod::Stored
    } else {
        CompressionMethod::Deflate
    };
    Some(
        (
            EntryMeta {
                path,
                offset: off,
                compressed_size: cs,
                uncompressed_size: us,
                method,
                is_encrypted: eb == 1,
                content_hash: h,
            },
            p7,
        ),
    )
}

/// The continuation of a partial entry parse: the entries already read,
/// prepended to whatever the rest parses to.
pub open spec fn with_prefix(pre: Seq<EntryModel>, o: Option<(Seq<EntryModel>, int)>) -> Option<
    (Seq<EntryModel>, int),
> {
    match o {
        None => None,
        Some((es, p)) => Some((pre + es, p)),
    }
}

/// Reads `count` consecutive index entries at `pos`, executably.
pub(crate) fn read_entries_at(d: &Vec<u8>, pos: usize, count: u64) -> (r: Option<
    (Vec<EntryMeta>, usize),
>)
    ensures
        match r {
            Some((es, p)) => parse_entries_at(d@, pos as int, count as nat) == Some(
                (entries_view(es@), p as int),
            ),
            None => parse_entries_at(d@, pos as int, count as nat) is None,
        },
{
    let mut acc: Vec<EntryMeta> = Vec::new();
    let mut p: usize = pos;
    let mut i: u64 = 0;
    proof {
        assert(entries_view(acc@) =~= Seq::<EntryModel>::empty());
        assert(with_prefix(
            entries_view(acc@),
            parse_entries_at(d@, p as int, (count - i) as nat),
        ) == parse_entries_at(d@, pos as int, count as nat));
    }
    while i < count
        invariant
            i <= count,
            with_prefix(entries_view(acc@), parse_entries_at(d@, p as int, (count - i) as nat))
                == parse_entries_at(d@, pos as int, count as nat),
        decreases count - i,
    {
        match read_entry_at(d, p) {
            None => {
                return None;
            },
            Some((e, p2)) => {
                proof {
                    let c = (count - i) as nat;
                    let rest = parse_entries_at(d@, p2 as int, (c - 1) as nat);
                    match rest {
                        None => {},
                        Some((es, pp)) => {
                            assert(entries_view(acc@.push(e)) =~= entries_view(acc@).push(e@));
                            assert(entries_view(acc@).push(e@) + es =~= entries_view(acc@) + (seq![
                                e@,
                            ] + es));
                        },
                    }
                }
                acc.push(e);
                p = p2;
            },
        }
        i += 1;
    }
    proof {
        assert(parse_entries_at(d@, p as int, 0) == Some((Seq::<EntryModel>::empty(), p as int)));
        assert(entries_view(acc@) + Seq::<EntryModel>::empty() =~= entries_view(acc@));
    }
    Some((acc, p))
}

proof fn lemma_parse_u64_embed(d: Seq<u8>, pos: int, x: u64)
    requires
        0 <= pos,
        pos + 8 <= d.len(),
        d.subrange(pos, pos + 8) == spec_u64_to_le_bytes(x),
    ensures
        parse_u64_at(d, pos) == Some((x, pos + 8)),
{
    lemma_auto_spec_u64_to_from_le_bytes();
}

proof fn lemma_parse_str_embed(d: Seq<u8>, pos: int, s: Seq<char>)
    requires
        0 <= pos,
        encode_utf8(s).len() < 0x10000000000000000,
        pos + ser_str(s).len() <= d.len(),
        d.subrange(pos, pos + ser_str(s).len()) == ser_str(s),
    ensures
        parse_str_at(d, pos) == Some((s, pos + ser_str(s).len())),
{
    lemma_auto_spec_u64_to_from_le_bytes();
    encode_utf8_valid_utf8(s);
    encode_utf8_decode_utf8(s);
    let eb = encode_utf8(s);
    let n = eb.len() as int;
    assert(spec_u64_to_le_bytes(eb.len() as u64).len() == 8);
    lemma_subrange_split(d, pos, spec_u64_to_le_bytes(eb.len() as u64), eb);
    assert(parse_u64_at(d, pos) == Some((eb.len() as u64, pos + 8)));
    assert(d.subrange(pos + 8, pos + 8 + n) == eb);
}

proof fn lemma_subrange_split(d: Seq<u8>, pos: int, a: Seq<u8>, b: Seq<u8>)
    requires
        0 <= pos,
        pos + a.len() + b.len() <= d.len(),
        d.subrange(pos, pos + a.len() + b.len()) == a + b,
    ensures
        d.subrange(pos, pos + a.len()) == a,
        d.subrange(pos + a.len(), pos + a.len() + b.len()) == b,
{
    assert(d.subrange(pos, pos + a.len() as int) =~= (a + b).subrange(0, a.len() as int));
    assert((a + b).subrange(0, a.len() as int) =~= a);
    assert(d.subrange(pos + a.len(), pos + a.len() + b.len()) =~= (a + b).subrange(
        a.len() as int,
        (a + b).len() as int,
    ));
    assert((a + b).subrange(a.len() as int, (a + b).len() as int) =~= b);
}

proof fn lemma_parse_entry_embed(d: Seq<u8>, pos: int, e: EntryModel)
    requires
        0 <= pos,
        encode_utf8(e.path).len() < 0x10000000000000000,
        pos + ser_entry(e).len() <= d.len(),
        d.subrange(pos, pos + ser_entry(e).len()) == ser_entry(e),
    ensures
        parse_entry_at(d, pos) == Some((e, pos + ser_entry(e).len())),
{
    lemma_auto_spec_u64_to_from_le_bytes();
    let s0 = ser_str(e.path);
    let l0 = s0.len() as int;
    let a1 = spec_u64_to_le_bytes(e.offset);
    let a2 = spec_u64_to_le_bytes(e.compressed_size);
    let a3 = spec_u64_to_le_bytes(e.uncompressed_size);
    let mbs = seq![method_byte(e.method)];
    let ebs = seq![
        if e.is_encrypted {
            1u8
        } else {
            0u8
        },
    ];
    let a4 = spec_u64_to_le_bytes(e.content_hash);
    let x1 = s0 + a1;
    let x2 = x1 + a2;
    let x3 = x2 + a3;
    let x4 = x3 + mbs;
    let x5 = x4 + ebs;
    let se = ser_entry(e);
    assert(se == x5 + a4);
    assert(se.len() == l0 + 34);
    lemma_subrange_split(d, pos, x5, a4);
    lemma_subrange_split(d, pos, x4, ebs);
    lemma_subrange_split(d, pos, x3, mbs);
    lemma_subrange_split(d, pos, x2, a3);
    lemma_subrange_split(d, pos, x1, a2);
    lemma_subrange_split(d, pos, s0, a1);
    lemma_parse_str_embed(d, pos, e.path);
    let p1 = pos + l0;
    lemma_parse_u64_embed(d, p1, e.offset);
    let p2 = p1 + 8;
    lemma_parse_u64_embed(d, p2, e.compressed_size);
    let p3 = p2 + 8;
    lemma_parse_u64_embed(d, p3, e.uncompressed_size);
    let p4 = p3 + 8;
    assert(d[p4] == method_byte(e.method)) by {
        assert(d.subrange(p4, p4 + 1)[0] == mbs[0]);
    };
    let p5 = p4 + 1;
    assert(d[p5] == (if e.is_encrypted {
        1u8
    } else {
        0u8
    })) by {
        assert(d.subrange(p5, p5 + 1)[0] == ebs[0]);
    };
    let p6 = p5 + 1;
    lemma_parse_u64_embed(d, p6, e.content_hash);
    match parse_entry_at(d, pos) {
        None => {
            assert(false);
        },
        Some((e2, p)) => {
            assert(e2 =~= e);
            assert(p == pos + se.len());
        },
    }
}

proof fn lemma_parse_entries_embed(d: Seq<u8>, pos: int, es: Seq<EntryModel>)
    requires
        0 <= pos,
        forall|i: int|
            0 <= i < es.len() ==> encode_utf8(#[trigger] es[i].path).len() < 0x10000000000000000,
        pos + ser_entries(es).len() <= d.len(),
        d.subrange(pos, pos + ser_entries(es).len()) == ser_entries(es),
    ensures
        parse_entries_at(d, pos, es.len()) == Some((es, pos + ser_entries(es).len())),
    decreases es.len(),
{
    if es.len() == 0 {
        assert(es =~= Seq::<EntryModel>::empty());
    } else {
        let e0 = es.first();
        let l0 = ser_entry(e0).len() as int;
        let rest = es.drop_first();
        assert(ser_entries(es) == ser_entry(e0) + ser_entries(rest));
        lemma_subrange_split(d, pos, ser_entry(e0), ser_entries(rest));
        lemma_parse_entry_embed(d, pos, e0);
        assert forall|i: int| 0 <= i < rest.len() implies encode_utf8(
            #[trigger] rest[i].path,
        ).len() < 0x10000000000000000 by {
            assert(rest[i] == es[i + 1]);
        }
        lemma_parse_entries_embed(d, pos + l0, rest);
        assert(seq![e0] + rest =~= es);
    }
}

/// Parsing inverts serialization: a payload region followed by the
/// serialized index of `idx` parses back to exactly `idx`.
pub proof fn lemma_parse_ser_archive(payload: Seq<u8>, idx: IndexModel)
    requires
        payload.len() < 0x10000000000000000,
        idx.entries.len() < 0x10000000000000000,
        encode_utf8(idx.mount_point).len() < 0x10000000000000000,
        forall|i: int|
            0 <= i < idx.entries.len() ==> encode_utf8(#[trigger] idx.entries[i].path).len()
                < 0x10000000000000000,
    ensures
        parse_archive(payload + ser_index(idx, payload.len() as int)) == Some(idx),
{
    lemma_auto_spec_u64_to_from_le_bytes();
    lemma_auto_spec_u32_to_from_le_bytes();
    let d = payload + ser_index(idx, payload.len() as int);
    let sm = ser_str(idx.mount_point);
    let se = ser_entries(idx.entries);
    let fpos = payload.len() as int + sm.len() + se.len();
    assert(d.len() == fpos + 24);
    assert(d.subrange(fpos, fpos + 8) =~= spec_u64_to_le_bytes(payload.len() as u64));
    assert(d.subrange(fpos + 8, fpos + 16) =~= spec_u64_to_le_bytes(idx.entries.len() as u64));
    assert(d.subrange(fpos + 16, fpos + 20) =~= spec_u32_to_le_bytes(idx.version));
    assert(d.subrange(fpos + 20, fpos + 24) =~= spec_u32_to_le_bytes(ARCHIVE_MAGIC));
    assert(d.subrange(payload.len() as int, payload.len() as int + sm.len()) =~= sm);
    lemma_parse_str_embed(d, payload.len() as int, idx.mount_point);
    assert(d.subrange(payload.len() as int + sm.len(), fpos) =~= se);
    lemma_parse_entries_embed(d, payload.len() as int + sm.len(), idx.entries);
    match parse_archive(d) {
        None => {
            assert(false);
        },
        Some(idx2) => {
            assert(idx2 =~= idx);
        },
    }
}

} // verus!
