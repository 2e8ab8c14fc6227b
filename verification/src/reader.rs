use vstd::prelude::*;

verus! {

use vstd::slice::{slice_subrange, slice_to_vec};
use crate::errors::ArchiveError;
use crate::format::{EntryMeta, EntryModel, IndexModel, CompressionMethod, entries_view,
    parse_archive, recover_entry, entry_in_bounds, stored_len, paths_unique, spec_lookup,
    read_u64_at, read_u32_at, read_str_at, read_entries_at, FORMAT_VERSION, ARCHIVE_MAGIC};
use crate::checksum::digest;
use crate::cipher::decrypt_buffer;
use crate::codec::decompress;
use crate::strutil::str_eq;

/// Structural validation beyond parsing: the version is the supported one,
/// every entry's stored bytes lie inside the archive, and no path repeats.
pub open spec fn index_valid(idx: IndexModel, len: int) -> bool {
    &&& idx.version == FORMAT_VERSION
    &&& forall|i: int| 0 <= i < idx.entries.len() ==> entry_in_bounds(#[trigger] idx.entries[i], len)
    &&& paths_unique(idx.entries)
}

/// Whether any entry of the index is encrypted.
pub open spec fn has_encrypted(idx: IndexModel) -> bool {
    exists|i: int| 0 <= i < idx.entries.len() && (#[trigger] idx.entries[i]).is_encrypted
}

proof fn lemma_lookup_skip(es: Seq<EntryModel>, path: Seq<char>, i: int)
    requires
        0 <= i <= es.len(),
        forall|j: int| 0 <= j < i ==> (#[trigger] es[j]).path != path,
    ensures
        spec_lookup(es, path) == spec_lookup(es.skip(i), path),
    decreases i,
{
    if i > 0 {
        lemma_lookup_skip(es, path, i - 1);
        assert(es.skip(i - 1).len() > 0);
        assert(es.skip(i - 1).first() == es[i - 1]);
        assert(es.skip(i - 1).drop_first() =~= es.skip(i));
    } else {
        assert(es.skip(0) =~= es);
    }
}

fn vec_take(v: Vec<u8>, n: usize) -> (r: Vec<u8>)
    requires
        n <= v@.len(),
    ensures
        r@ == v@.take(n as int),
{
    let mut r: Vec<u8> = Vec::new();
    let mut i: usize = 0;
    while i < n
        invariant
            i <= n,
            n <= v@.len(),
            r@ == v@.take(i as int),
        decreases n - i,
    {
        r.push(v[i]);
        proof {
            assert(v@.take(i + 1) =~= v@.take(i as int).push(v@[i as int]));
        }
        i += 1;
    }
    r
}

/// Serves random-access retrieval from an archive held in memory: the
/// index is parsed and validated once at `open`, and each `get` re-reads,
/// decrypts and decompresses the entry's stored bytes on demand — no
/// caching, repeated lookups redo the work.
#[derive(Debug)]
pub struct ArchiveReader {
    pub data: Vec<u8>,
    pub key: Option<Vec<u8>>,
    pub entries: Vec<EntryMeta>,
    pub mount_point: String,
    pub version: u32,
}

impl ArchiveReader {
    /// The key bytes, at the spec level.
    pub open spec fn spec_key(&self) -> Option<Seq<u8>> {
        match self.key {
            Some(k) => Some(k@),
            None => None,
        }
    }

    /// The index this reader serves.
    pub open spec fn index_model(&self) -> IndexModel {
        IndexModel {
            mount_point: self.mount_point@,
            version: self.version,
            entries: entries_view(self.entries@),
        }
    }

    /// Well-formedness: the fields are exactly the parse of the backing
    /// bytes, the index passed validation, and a key is present whenever
    /// some entry needs one.
    pub open spec fn wf(&self) -> bool {
        &&& parse_archive(self.data@) == Some(self.index_model())
        &&& index_valid(self.index_model(), self.data@.len() as int)
        &&& (self.key matches Some(k) ==> k@.len() == 32)
        &&& (has_encrypted(self.index_model()) ==> self.key is Some)
    }

    /// Parses and validates the archive held in `data`. Fails with
    /// `CorruptIndex` when the bytes do not parse as an archive or the
    /// index does not validate, and with `KeyMismatch` when the archive
    /// holds encrypted entries and no key was supplied.
    #[verifier::loop_isolation(false)]
    pub fn open(data: Vec<u8>, key: Option<Vec<u8>>) -> (r: Result<ArchiveReader, ArchiveError>)
        requires
            (key matches Some(k) ==> k@.len() == 32),
        ensures
            match r {
                Ok(rd) => {
                    &&& rd.wf()
                    &&& rd.data == data
                    &&& rd.key == key
                    &&& parse_archive(data@) == Some(rd.index_model())
                },
                Err(ArchiveError::CorruptIndex) => (match parse_archive(data@) {
                    None => true,
                    Some(idx) => !index_valid(idx, data@.len() as int),
                }),
                Err(ArchiveError::KeyMismatch) => (match parse_archive(data@) {
                    None => false,
                    Some(idx) => index_valid(idx, data@.len() as int) && has_encrypted(idx)
                        && key is None,
                }),
                Err(_) => false,
            },
    {
        let n = data.len();
        if n < 24 {
            return Err(ArchiveError::CorruptIndex);
        }
        let fpos = n - 24;
        let (index_off, _p) = match read_u64_at(&data, fpos) {
            Some(x) => x,
            None => {
                proof {
                    assert(false);
                }
                return Err(ArchiveError::CorruptIndex);
            },
        };
        let (count, _p2) = match read_u64_at(&data, fpos + 8) {
            Some(x) => x,
            None => {
                proof {
                    assert(false);
                }
                return Err(ArchiveError::CorruptIndex);
            },
        };
        let (version, _p3) = match read_u32_at(&data, fpos + 16) {
            Some(x) => x,
            None => {
                proof {
                    assert(false);
                }
                return Err(ArchiveError::CorruptIndex);
            },
        };
        let (magic, _p4) = match read_u32_at(&data, fpos + 20) {
            Some(x) => x,
            None => {
                proof {
                    assert(false);
                }
                return Err(ArchiveError::CorruptIndex);
            },
        };
        if magic != ARCHIVE_MAGIC {
            return Err(ArchiveError::CorruptIndex);
        }
        if index_off > fpos as u64 {
            return Err(ArchiveError::CorruptIndex);
        }
        let ioff = index_off as usize;
        let (mount, p1) = match read_str_at(&data, ioff) {
            Some(x) => x,
            None => {
                return Err(ArchiveError::CorruptIndex);
            },
        };
        let (entries, p2) = match read_entries_at(&data, p1, count) {
            Some(x) => x,
            None => {
                return Err(ArchiveError::CorruptIndex);
            },
        };
        if p2 != fpos {
            return Err(ArchiveError::CorruptIndex);
        }
        let ghost idx = IndexModel {
            mount_point: mount@,
            version: version,
            entries: entries_view(entries@),
        };
        proof {
            assert(parse_archive(data@) == Some(idx));
        }
        if version != FORMAT_VERSION {
            return Err(ArchiveError::CorruptIndex);
        }
        let mut i: usize = 0;
        while i < entries.len()
            invariant
                i <= entries@.len(),
                n == data@.len(),
                idx.entries == entries_view(entries@),
                forall|j: int|
                    0 <= j < i ==> entry_in_bounds(#[trigger] idx.entries[j], n as int),
            decreases entries@.len() - i,
        {
            let e = &entries[i];
            let cs = e.compressed_size;
            if e.is_encrypted {
                if cs > u64::MAX - 15 {
                    proof {
                        assert(!entry_in_bounds(idx.entries[i as int], n as int));
                    }
                    return Err(ArchiveError::CorruptIndex);
                }
            }
            let slen: u64 = if e.is_encrypted {
                cs + ((16 - cs % 16) % 16)
            } else {
                cs
            };
            proof {
                assert(slen as int == stored_len(idx.entries[i as int]));
            }
            if e.offset > n as u64 || slen > n as u64 - e.offset {
                proof {
                    assert(!entry_in_bounds(idx.entries[i as int], n as int));
                }
                return Err(ArchiveError::CorruptIndex);
            }
            i += 1;
        }
        let mut a: usize = 0;
        while a < entries.len()
            invariant
                a <= entries@.len(),
                idx.entries == entries_view(entries@),
                forall|x: int, y: int|
                    0 <= x < y < entries@.len() && x < a ==> (#[trigger] idx.entries[x]).path != (
                    #[trigger] idx.entries[y]).path,
            decreases entries@.len() - a,
        {
            let mut b: usize = a + 1;
            while b < entries.len()
                invariant
                    a < b <= entries@.len() || (a + 1 == b && b > entries@.len()),
                    a < entries@.len(),
                    idx.entries == entries_view(entries@),
                    forall|y: int|
                        a < y < b ==> (#[trigger] idx.entries[y]).path != idx.entries[a as int].path,
                decreases entries@.len() - b,
            {
                if str_eq(entries[a].path.as_str(), entries[b].path.as_str()) {
                    proof {
                        assert(idx.entries[a as int].path == idx.entries[b as int].path);
                        assert(!paths_unique(idx.entries));
                    }
                    return Err(ArchiveError::CorruptIndex);
                }
                b += 1;
            }
            a += 1;
        }
        let mut enc_found: bool = false;
        let mut c: usize = 0;
        while c < entries.len()
            invariant
                c <= entries@.len(),
                idx.entries == entries_view(entries@),
                enc_found ==> has_encrypted(idx),
                !enc_found ==> forall|j: int|
                    0 <= j < c ==> !(#[trigger] idx.entries[j]).is_encrypted,
            decreases entries@.len() - c,
        {
            if entries[c].is_encrypted {
                proof {
                    assert(idx.entries[c as int].is_encrypted);
                }
                enc_found = true;
            }
            c += 1;
        }
        if enc_found && key.is_none() {
            return Err(ArchiveError::KeyMismatch);
        }
        proof {
            if !enc_found {
                assert forall|j: int|
                    0 <= j < idx.entries.len() implies !(#[trigger] idx.entries[j]).is_encrypted by {}
            }
        }
        Ok(ArchiveReader { data, key, entries, mount_point: mount, version })
    }

    /// All entry paths, in index order; read-only.
    pub fn list_paths(&self) -> (r: Vec<String>)
        ensures
            r@.len() == self.index_model().entries.len(),
            forall|i: int|
                0 <= i < r@.len() ==> (#[trigger] r@[i])@ == self.index_model().entries[i].path,
    {
        let mut r: Vec<String> = Vec::new();
        let mut i: usize = 0;
        while i < self.entries.len()
            invariant
                i <= self.entries@.len(),
                r@.len() == i,
                forall|j: int|
                    0 <= j < i ==> (#[trigger] r@[j])@ == entries_view(self.entries@)[j].path,
            decreases self.entries@.len() - i,
        {
            r.push(self.entries[i].path.clone());
            i += 1;
        }
        r
    }

    /// Retrieves one entry by exact path: the stored bytes are read from
    /// the entry's offset, decrypted when the entry is encrypted,
    /// decompressed when compressed, and checked against the recorded size
    /// and content digest. An unknown path fails with `EntryNotFound`; an
    /// entry whose bytes do not check out fails with `DecryptionFailed`
    /// when it is encrypted and `DecompressionFailed` otherwise.
    #[verifier::loop_isolation(false)]
    pub fn get(&self, path: &str) -> (r: Result<Vec<u8>, ArchiveError>)
        requires
            self.wf(),
        ensures
            match spec_lookup(self.index_model().entries, path@) {
                None => r == Err::<Vec<u8>, ArchiveError>(ArchiveError::EntryNotFound),
                Some(e) => (match recover_entry(self.spec_key(), self.data@, e) {
                    Some(bytes) => r matches Ok(b) && b@ == bytes,
                    None => r == Err::<Vec<u8>, ArchiveError>(
                        if e.is_encrypted {
                            ArchiveError::DecryptionFailed
                        } else {
                            ArchiveError::DecompressionFailed
                        },
                    ),
                }),
            },
    {
        let ghost es = self.index_model().entries;
        let mut i: usize = 0;
        let mut found: Option<usize> = None;
        while i < self.entries.len()
            invariant
                i <= self.entries@.len(),
                match found {
                    None => forall|j: int| 0 <= j < i ==> (#[trigger] es[j]).path != path@,
                    Some(k) => k < i && es[k as int].path == path@ && (forall|j: int|
                        0 <= j < k ==> (#[trigger] es[j]).path != path@),
                },
            decreases self.entries@.len() - i,
        {
            let already = match found {
                Some(_) => true,
                None => false,
            };
            if !already && str_eq(self.entries[i].path.as_str(), path) {
                found = Some(i);
            }
            i += 1;
        }
        let k = match found {
            Some(k) => k,
            None => {
                proof {
                    lemma_lookup_skip(es, path@, es.len() as int);
                    assert(es.skip(es.len() as int) =~= Seq::<EntryModel>::empty());
                }
                return Err(ArchiveError::EntryNotFound);
            },
        };
        proof {
            lemma_lookup_skip(es, path@, k as int);
            assert(es.skip(k as int).len() > 0);
            assert(es.skip(k as int).first() == es[k as int]);
            assert(spec_lookup(es, path@) == Some(es[k as int]));
        }
        let e = &self.entries[k];
        let ghost em = es[k as int];
        let n = self.data.len();
        proof {
            assert(entry_in_bounds(em, n as int));
        }
        let cs_u64 = e.compressed_size;
        let off_u64 = e.offset;
        let cs = cs_u64 as usize;
        let off = off_u64 as usize;
        let slen: usize = if e.is_encrypted {
            cs + ((16 - cs % 16) % 16)
        } else {
            cs
        };
        proof {
            assert(slen as int == stored_len(em));
        }
        let stored = slice_to_vec(slice_subrange(self.data.as_slice(), off, off + slen));
        let fail_err = if e.is_encrypted {
            ArchiveError::DecryptionFailed
        } else {
            ArchiveError::DecompressionFailed
        };
        let plain: Vec<u8> = if e.is_encrypted {
            proof {
                assert(em.is_encrypted);
                assert(has_encrypted(self.index_model()));
            }
            match &self.key {
                Some(kv) => {
                    let dec = decrypt_buffer(kv, &stored);
                    vec_take(dec, cs)
                },
                None => {
                    proof {
                        assert(false);
                    }
                    stored
                },
            }
        } else {
            stored
        };
        let out_opt: Option<Vec<u8>> = match e.method {
            CompressionMethod::Stored => Some(plain),
            CompressionMethod::Deflate => decompress(&plain),
        };
        let out = match out_opt {
            Some(o) => o,
            None => {
                return Err(fail_err);
            },
        };
        if out.len() as u64 != e.uncompressed_size {
            return Err(fail_err);
        }
        if digest(&out) != e.content_hash {
            return Err(fail_err);
        }
        Ok(out)
    }
}

} // verus!
