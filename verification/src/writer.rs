use vstd::prelude::*;

verus! {

use vstd::string::StringExecFns;
use vstd::string::StrSliceExecFns;
use vstd::utf8::encode_utf8;
use crate::errors::ArchiveError;
use crate::format::{EntryMeta, IndexModel, CompressionMethod, entries_view, ser_index,
    parse_archive, recover_entry, entry_in_bounds, stored_len, paths_of, paths_unique,
    write_index_region, lemma_parse_ser_archive, FORMAT_VERSION, EntryModel};
use crate::checksum::digest;
use crate::cipher::{encrypt_buffer, zero_pad16};
use crate::codec::compress;
use crate::strutil::str_eq;

/// Builds a new archive one entry at a time: payload bytes accumulate in
/// memory, and `write_index` closes the archive by appending the index and
/// footer. The writer moves from open to finalized exactly once.
pub struct ArchiveWriter {
    pub payload: Vec<u8>,
    pub entries: Vec<EntryMeta>,
    pub mount_point: String,
    pub version: u32,
    pub key: Option<Vec<u8>>,
    pub finalized: bool,
    pub written: Ghost<Seq<Seq<u8>>>,
}

proof fn lemma_recover_append(
    key: Option<Seq<u8>>,
    payload: Seq<u8>,
    tail: Seq<u8>,
    e: EntryModel,
)
    requires
        entry_in_bounds(e, payload.len() as int),
    ensures
        recover_entry(key, payload + tail, e) == recover_entry(key, payload, e),
{
    assert((payload + tail).subrange(e.offset as int, e.offset + stored_len(e)) =~= payload.subrange(
        e.offset as int,
        e.offset + stored_len(e),
    ));
}

impl ArchiveWriter {
    /// The key bytes, at the spec level.
    pub open spec fn spec_key(&self) -> Option<Seq<u8>> {
        match self.key {
            Some(k) => Some(k@),
            None => None,
        }
    }

    /// The index that `write_index` will serialize.
    pub open spec fn index_model(&self) -> IndexModel {
        IndexModel {
            mount_point: self.mount_point@,
            version: self.version,
            entries: entries_view(self.entries@),
        }
    }

    /// The paths written so far, in index order.
    pub open spec fn paths(&self) -> Seq<Seq<char>> {
        paths_of(entries_view(self.entries@))
    }

    /// Well-formedness: every recorded entry's stored bytes lie inside the
    /// payload region, paths are unique, sizes fit the format, and every
    /// entry recovers to exactly the bytes that were written for it.
    pub open spec fn wf(&self) -> bool {
        &&& self.version == FORMAT_VERSION
        &&& (self.key matches Some(k) ==> k@.len() == 32)
        &&& encode_utf8(self.mount_point@).len() < 0x10000000000000000
        &&& self.entries@.len() == self.written@.len()
        &&& paths_unique(entries_view(self.entries@))
        &&& forall|i: int|
            0 <= i < self.entries@.len() ==> entry_in_bounds(
                #[trigger] self.entries@[i]@,
                self.payload@.len() as int,
            )
        &&& forall|i: int|
            0 <= i < self.entries@.len() ==> encode_utf8(
                (#[trigger] self.entries@[i]@).path,
            ).len() < 0x10000000000000000
        &&& forall|i: int|
            0 <= i < self.entries@.len() ==> recover_entry(
                self.spec_key(),
                self.payload@,
                #[trigger] self.entries@[i]@,
            ) == Some(self.written@[i])
    }

    /// Opens a fresh writer for the given mount point. A key is only needed
    /// when encrypted entries will be written.
    pub fn create(mount_point: String, key: Option<Vec<u8>>) -> (w: ArchiveWriter)
        requires
            (key matches Some(k) ==> k@.len() == 32),
        ensures
            w.wf(),
            !w.finalized,
            w.entries@.len() == 0,
            w.written@.len() == 0,
            w.payload@.len() == 0,
            w.mount_point == mount_point,
            w.key == key,
            w.version == FORMAT_VERSION,
    {
        let mount_bytes = mount_point.as_str().as_bytes_vec();
        let bl = mount_bytes.len();
        proof {
            assert(encode_utf8(mount_point@).len() == bl);
        }
        ArchiveWriter {
            payload: Vec::new(),
            entries: Vec::new(),
            mount_point,
            version: FORMAT_VERSION,
            key,
            finalized: false,
            written: Ghost(Seq::empty()),
        }
    }

    /// Whether a path is already present in the in-progress index.
    pub fn contains_path(&self, path: &str) -> (r: bool)
        ensures
            r == self.paths().contains(path@),
    {
        let mut i: usize = 0;
        while i < self.entries.len()
            invariant
                i <= self.entries@.len(),
                forall|j: int| 0 <= j < i ==> (#[trigger] self.entries@[j])@.path != path@,
            decreases self.entries@.len() - i,
        {
            if str_eq(self.entries[i].path.as_str(), path) {
                proof {
                    assert(self.paths()[i as int] == path@);
                }
                return true;
            }
            i += 1;
        }
        proof {
            assert forall|k: int| 0 <= k < self.paths().len() implies self.paths()[k] != path@ by {
                assert(self.entries@[k]@.path != path@);
            }
        }
        false
    }

    /// What one write call does to the writer: on success the path and
    /// payload are appended; a duplicate path or a finalized writer is
    /// rejected and the writer is unchanged, so the index retains only the
    /// first entry written under a path.
    pub open spec fn write_post(
        pre: ArchiveWriter,
        post: ArchiveWriter,
        path: Seq<char>,
        data: Seq<u8>,
        encrypt: bool,
        r: Result<(), ArchiveError>,
    ) -> bool {
        match r {
            Ok(()) => {
                &&& !pre.finalized
                &&& !pre.paths().contains(path)
                &&& post.paths() == pre.paths().push(path)
                &&& post.written@ == pre.written@.push(data)
                &&& post.mount_point == pre.mount_point
                &&& post.version == pre.version
                &&& post.key == pre.key
                &&& post.finalized == pre.finalized
                &&& post.entries@.len() == pre.entries@.len() + 1
                &&& post.entries@[post.entries@.len() - 1]@.is_encrypted == encrypt
                &&& post.entries@[post.entries@.len() - 1]@.uncompressed_size == data.len()
                &&& forall|i: int|
                    0 <= i < pre.entries@.len() ==> post.entries@[i] == #[trigger] pre.entries@[i]
            },
            Err(ArchiveError::WriterFinalized) => pre.finalized && post == pre,
            Err(ArchiveError::DuplicatePath) => !pre.finalized && pre.paths().contains(path)
                && post == pre,
            Err(_) => false,
        }
    }

    /// Appends one entry under `path`: the payload is compressed when
    /// requested (the compressed form is kept only when it is no larger, so
    /// the recorded compressed size never exceeds the uncompressed size),
    /// encrypted when requested, and recorded in the index.
    pub fn write_file_with(
        &mut self,
        path: &str,
        use_compression: bool,
        encrypt: bool,
        data: Vec<u8>,
    ) -> (r: Result<(), ArchiveError>)
        requires
            old(self).wf(),
            encrypt ==> old(self).key is Some,
            data@.len() + 16 <= usize::MAX,
        ensures
            final(self).wf(),
            ArchiveWriter::write_post(*old(self), *final(self), path@, data@, encrypt, r),
    {
        if self.finalized {
            return Err(ArchiveError::WriterFinalized);
        }
        if self.contains_path(path) {
            return Err(ArchiveError::DuplicatePath);
        }
        let ghost d0 = data@;
        let h = digest(&data);
        let uncompressed_size = data.len() as u64;
        let path_bytes = path.as_bytes_vec();
        let pbl = path_bytes.len();
        proof {
            assert(encode_utf8(path@).len() == pbl);
        }
        let (body, method): (Vec<u8>, CompressionMethod) = if use_compression {
            let comp = compress(&data);
            if comp.len() <= data.len() {
                (comp, CompressionMethod::Deflate)
            } else {
                (data, CompressionMethod::Stored)
            }
        } else {
            (data, CompressionMethod::Stored)
        };
        let compressed_size = body.len() as u64;
        let offset = self.payload.len() as u64;
        let ghost body0 = body@;
        let mut stored: Vec<u8> = if encrypt {
            match &self.key {
                Some(k) => encrypt_buffer(k, &body),
                None => {
                    proof {
                        assert(false);
                    }
                    body
                },
            }
        } else {
            body
        };
        let entry = EntryMeta {
            path: String::from_str(path),
            offset,
            compressed_size,
            uncompressed_size,
            method,
            is_encrypted: encrypt,
            content_hash: h,
        };
        let ghost old_payload = self.payload@;
        let ghost old_entries = self.entries@;
        let ghost stored0 = stored@;
        self.payload.append(&mut stored);
        self.entries.push(entry);
        proof {
            self.written@ = self.written@.push(d0);
        }
        proof {
            let n = old_entries.len() as int;
            assert(entries_view(self.entries@) =~= entries_view(old_entries).push(entry@));
            assert(self.paths() =~= paths_of(entries_view(old_entries)).push(path@));
            // the new entry's stored bytes sit at the end of the payload
            assert(self.payload@.subrange(offset as int, offset + stored_len(entry@)) =~= stored0);
            if encrypt {
                match self.spec_key() {
                    Some(k) => {
                        assert(zero_pad16(body0).take(compressed_size as int) =~= body0);
                    },
                    None => {
                        assert(false);
                    },
                }
            }
            assert(recover_entry(self.spec_key(), self.payload@, entry@) == Some(d0));
            assert forall|i: int| 0 <= i < n implies recover_entry(
                self.spec_key(),
                self.payload@,
                #[trigger] self.entries@[i]@,
            ) == Some(self.written@[i]) by {
                assert(self.entries@[i] == old_entries[i]);
                lemma_recover_append(self.spec_key(), old_payload, stored0, old_entries[i]@);
            }
            assert forall|i: int, j: int|
                0 <= i < j < self.entries@.len() implies entries_view(self.entries@)[i].path
                != entries_view(self.entries@)[j].path by {
                if j < n {
                    assert(entries_view(old_entries)[i].path != entries_view(old_entries)[j].path);
                } else {
                    if entries_view(self.entries@)[i].path == path@ {
                        assert(paths_of(entries_view(old_entries))[i] == path@);
                        assert(paths_of(entries_view(old_entries)).contains(path@));
                    }
                }
            }
        }
        Ok(())
    }

    /// Appends one unencrypted entry (newly authored content is never
    /// encrypted), compressing it when requested.
    pub fn write_file(&mut self, path: &str, use_compression: bool, data: Vec<u8>) -> (r: Result<
        (),
        ArchiveError,
    >)
        requires
            old(self).wf(),
            data@.len() + 16 <= usize::MAX,
        ensures
            final(self).wf(),
            ArchiveWriter::write_post(*old(self), *final(self), path@, data@, false, r),
    {
        self.write_file_with(path, use_compression, false, data)
    }

    /// Serializes the index and footer after the payload, finalizing the
    /// writer and returning the complete archive bytes. The archive parses
    /// back to exactly the written index, and every entry recovers to the
    /// bytes that were written for it: the round-trip law of this library.
    pub fn write_index(&mut self) -> (r: Result<Vec<u8>, ArchiveError>)
        requires
            old(self).wf(),
        ensures
            final(self).wf(),
            match r {
                Ok(out) => {
                    &&& !old(self).finalized
                    &&& final(self).finalized
                    &&& *final(self) == ArchiveWriter { finalized: true, ..*old(self) }
                    &&& parse_archive(out@) == Some(old(self).index_model())
                    &&& forall|i: int|
                        0 <= i < old(self).entries@.len() ==> recover_entry(
                            old(self).spec_key(),
                            out@,
                            #[trigger] old(self).index_model().entries[i],
                        ) == Some(old(self).written@[i])
                },
                Err(ArchiveError::WriterFinalized) => old(self).finalized && *final(self) == *old(
                    self,
                ),
                Err(_) => false,
            },
    {
        if self.finalized {
            return Err(ArchiveError::WriterFinalized);
        }
        self.finalized = true;
        let payload_len = self.payload.len() as u64;
        let entry_count = self.entries.len();
        let mut out: Vec<u8> = Vec::new();
        let mut i: usize = 0;
        while i < self.payload.len()
            invariant
                i <= self.payload@.len(),
                out@ == self.payload@.take(i as int),
            decreases self.payload@.len() - i,
        {
            out.push(self.payload[i]);
            proof {
                assert(self.payload@.take(i + 1) =~= self.payload@.take(i as int).push(
                    self.payload@[i as int],
                ));
            }
            i += 1;
        }
        proof {
            assert(out@ =~= self.payload@);
        }
        write_index_region(
            &mut out,
            self.mount_point.as_str(),
            self.version,
            &self.entries,
            payload_len,
        );
        proof {
            let idx = self.index_model();
            let tail = ser_index(idx, self.payload@.len() as int);
            assert(out@ == self.payload@ + tail);
            assert forall|k: int| 0 <= k < idx.entries.len() implies encode_utf8(
                #[trigger] idx.entries[k].path,
            ).len() < 0x10000000000000000 by {
                assert(idx.entries[k] == self.entries@[k]@);
            }
            assert(idx.entries.len() == entry_count);
            lemma_parse_ser_archive(self.payload@, idx);
            assert forall|k: int| 0 <= k < self.entries@.len() implies recover_entry(
                self.spec_key(),
                out@,
                #[trigger] idx.entries[k],
            ) == Some(self.written@[k]) by {
                assert(idx.entries[k] == self.entries@[k]@);
                lemma_recover_append(self.spec_key(), self.payload@, tail, self.entries@[k]@);
            }
        }
        Ok(out)
    }
}

} // verus!
