use vstd::prelude::*;

verus! {

use crate::format::{EntryModel, parse_archive, recover_entry, spec_lookup, paths_unique};
use crate::reader::ArchiveReader;
use crate::writer::ArchiveWriter;

proof fn lemma_lookup_finds(es: Seq<EntryModel>, i: int)
    requires
        0 <= i < es.len(),
        paths_unique(es),
    ensures
        spec_lookup(es, es[i].path) == Some(es[i]),
    decreases es.len(),
{
    if i == 0 {
        assert(es.first() == es[0]);
    } else {
        assert(es[0].path != es[i].path);
        let rest = es.drop_first();
        assert forall|x: int, y: int| 0 <= x < y < rest.len() implies (#[trigger] rest[x]).path
            != (#[trigger] rest[y]).path by {
            assert(rest[x] == es[x + 1]);
            assert(rest[y] == es[y + 1]);
        }
        assert(rest[i - 1] == es[i]);
        lemma_lookup_finds(rest, i - 1);
    }
}

/// The writer–reader round-trip law: take any archive that the writer
/// finalized — by `write_index`'s contract its bytes parse back to the
/// written index and every entry recovers to the bytes written for it —
/// and any reader opened on those bytes with the same key. Then for every
/// written entry, looking its path up in the reader's index finds exactly
/// that entry, and recovering it — which is what `get` returns — yields
/// byte-for-byte the payload that was handed to the writer, whether the
/// entry was stored raw or compressed, plain or encrypted.
pub proof fn lemma_write_read_round_trip(
    w: ArchiveWriter,
    out: Seq<u8>,
    rd: ArchiveReader,
    i: int,
)
    requires
        parse_archive(out) == Some(w.index_model()),
        paths_unique(w.index_model().entries),
        forall|j: int|
            0 <= j < w.index_model().entries.len() ==> recover_entry(
                w.spec_key(),
                out,
                #[trigger] w.index_model().entries[j],
            ) == Some(w.written@[j]),
        rd.data@ == out,
        rd.spec_key() == w.spec_key(),
        parse_archive(rd.data@) == Some(rd.index_model()),
        0 <= i < w.index_model().entries.len(),
    ensures
        spec_lookup(rd.index_model().entries, w.index_model().entries[i].path) == Some(
            w.index_model().entries[i],
        ),
        recover_entry(rd.spec_key(), rd.data@, w.index_model().entries[i]) == Some(w.written@[i]),
{
    assert(rd.index_model() == w.index_model());
    lemma_lookup_finds(w.index_model().entries, i);
}

} // verus!
