use vstd::prelude::*;

verus! {

use crate::errors::{ArchiveError, ClassifyError};
use crate::classify::{spec_classify, classify, companion_path};
use crate::format::{parse_archive, paths_of, recover_entry, FORMAT_VERSION};
use crate::strutil::{file_name_of, seq_ends_with, file_name};
use crate::writer::ArchiveWriter;

/// A failure of the repackaging pipeline: a name that cannot be
/// classified, or a writer error.
#[derive(Clone, Copy, Debug, PartialEq, Eq, Structural)]
pub enum RepackError {
    Classify(ClassifyError),
    Archive(ArchiveError),
}

/// One loose input file, already read from disk by the caller: its local
/// name, its bytes, and a same-stem companion's bytes when one exists.
pub struct LooseAsset {
    pub local_name: String,
    pub primary: Vec<u8>,
    pub companion: Option<Vec<u8>>,
}

/// The canonical archive paths one loose file contributes: the classified
/// primary path, then — when a companion is present and the primary path
/// carries the primary extension — the companion path, extension swapped.
pub open spec fn asset_paths(a: LooseAsset) -> Seq<Seq<char>> {
    let pp = spec_classify(file_name_of(a.local_name@));
    match a.companion {
        Some(c) => if seq_ends_with(pp, ".uasset"@) {
            seq![pp, pp.take(pp.len() - 7) + ".uexp"@]
        } else {
            seq![pp]
        },
        None => seq![pp],
    }
}

/// The payloads one loose file contributes, in the same order as its
/// paths.
pub open spec fn asset_payloads(a: LooseAsset) -> Seq<Seq<u8>> {
    let pp = spec_classify(file_name_of(a.local_name@));
    match a.companion {
        Some(c) => if seq_ends_with(pp, ".uasset"@) {
            seq![a.primary@, c@]
        } else {
            seq![a.primary@]
        },
        None => seq![a.primary@],
    }
}

/// The archive paths a list of loose files contributes, in order.
pub open spec fn repack_paths(inputs: Seq<LooseAsset>) -> Seq<Seq<char>>
    decreases inputs.len(),
{
    if inputs.len() == 0 {
        Seq::empty()
    } else {
        repack_paths(inputs.drop_last()) + asset_paths(inputs.last())
    }
}

/// The payloads a list of loose files contributes, in the same order as
/// their paths.
pub open spec fn repack_payloads(inputs: Seq<LooseAsset>) -> Seq<Seq<u8>>
    decreases inputs.len(),
{
    if inputs.len() == 0 {
        Seq::empty()
    } else {
        repack_payloads(inputs.drop_last()) + asset_payloads(inputs.last())
    }
}

/// Whether a list of loose files can be repackaged as a whole: every
/// local name has a file-name part, and no two contributed paths collide.
pub open spec fn inputs_ok(inputs: Seq<LooseAsset>) -> bool {
    &&& forall|i: int|
        0 <= i < inputs.len() ==> file_name_of((#[trigger] inputs[i]).local_name@).len() > 0
    &&& repack_paths(inputs).no_duplicates()
}

/// Adds one loose file to an in-progress archive: the file name is
/// classified, the primary bytes are written compressed under the
/// canonical path, and a companion is written beside it with the
/// extension swapped — never re-classified, so the pair shares one
/// directory.
pub fn add_asset(w: &mut ArchiveWriter, asset: LooseAsset) -> (r: Result<(), RepackError>)
    requires
        old(w).wf(),
        asset.primary@.len() + 16 <= usize::MAX,
        (asset.companion matches Some(c) ==> c@.len() + 16 <= usize::MAX),
    ensures
        final(w).wf(),
        match r {
            Ok(()) => {
                &&& !old(w).finalized
                &&& file_name_of(asset.local_name@).len() > 0
                &&& !old(w).paths().contains(spec_classify(file_name_of(asset.local_name@)))
                &&& final(w).paths() == old(w).paths() + asset_paths(asset)
                &&& final(w).written@ == old(w).written@ + asset_payloads(asset)
                &&& final(w).mount_point == old(w).mount_point
                &&& final(w).version == old(w).version
                &&& final(w).key == old(w).key
                &&& final(w).finalized == old(w).finalized
            },
            Err(RepackError::Classify(ClassifyError::EmptyName)) => file_name_of(
                asset.local_name@,
            ).len() == 0 && *final(w) == *old(w),
            Err(RepackError::Archive(ArchiveError::WriterFinalized)) => old(w).finalized
                && *final(w) == *old(w),
            Err(RepackError::Archive(ArchiveError::DuplicatePath)) => ({
                let pp = spec_classify(file_name_of(asset.local_name@));
                let cp = pp.take(pp.len() - 7) + ".uexp"@;
                &&& !old(w).finalized
                &&& file_name_of(asset.local_name@).len() > 0
                &&& ((old(w).paths().contains(pp) && *final(w) == *old(w))
                    || (!old(w).paths().contains(pp) && asset.companion is Some
                        && seq_ends_with(pp, ".uasset"@)
                        && old(w).paths().push(pp).contains(cp)
                        && final(w).paths() == old(w).paths().push(pp)
                        && final(w).written@ == old(w).written@.push(asset.primary@)
                        && final(w).mount_point == old(w).mount_point
                        && final(w).version == old(w).version
                        && final(w).key == old(w).key
                        && final(w).finalized == old(w).finalized))
            }),
            Err(_) => false,
        },
{
    let name = file_name(asset.local_name.as_str());
    let pak_path = match classify(name) {
        Ok(p) => p,
        Err(e) => {
            return Err(RepackError::Classify(e));
        },
    };
    let LooseAsset { local_name: _, primary, companion } = asset;
    match w.write_file(pak_path.as_str(), true, primary) {
        Ok(()) => {},
        Err(e) => {
            return Err(RepackError::Archive(e));
        },
    }
    if let Some(comp) = companion {
        match companion_path(pak_path.as_str()) {
            Some(cp) => {
                match w.write_file(cp.as_str(), true, comp) {
                    Ok(()) => {},
                    Err(e) => {
                        proof {
                            assert(e != ArchiveError::WriterFinalized);
                        }
                        return Err(RepackError::Archive(e));
                    },
                }
                proof {
                    assert(w.paths() =~= old(w).paths() + asset_paths(asset));
                    assert(w.written@ =~= old(w).written@ + asset_payloads(asset));
                }
            },
            None => {
                proof {
                    assert(w.paths() =~= old(w).paths() + asset_paths(asset));
                    assert(w.written@ =~= old(w).written@ + asset_payloads(asset));
                }
            },
        }
    } else {
        proof {
            assert(w.paths() =~= old(w).paths() + asset_paths(asset));
            assert(w.written@ =~= old(w).written@ + asset_payloads(asset));
        }
    }
    Ok(())
}

proof fn lemma_repack_take_step(inputs: Seq<LooseAsset>, i: int)
    requires
        0 <= i < inputs.len(),
    ensures
        repack_paths(inputs.take(i + 1)) == repack_paths(inputs.take(i)) + asset_paths(inputs[i]),
        repack_payloads(inputs.take(i + 1)) == repack_payloads(inputs.take(i)) + asset_payloads(
            inputs[i],
        ),
{
    assert(inputs.take(i + 1).drop_last() =~= inputs.take(i));
    assert(inputs.take(i + 1).last() == inputs[i]);
}

proof fn lemma_repack_split(inputs: Seq<LooseAsset>, i: int)
    requires
        0 <= i <= inputs.len(),
    ensures
        exists|t: Seq<Seq<char>>| repack_paths(inputs) == #[trigger] (repack_paths(inputs.take(i)) + t),
    decreases inputs.len() - i,
{
    if i == inputs.len() {
        assert(inputs.take(i) =~= inputs);
        assert(repack_paths(inputs.take(i)) + Seq::<Seq<char>>::empty() =~= repack_paths(inputs));
        assert(repack_paths(inputs) == repack_paths(inputs.take(i)) + Seq::<Seq<char>>::empty());
    } else {
        lemma_repack_split(inputs, i + 1);
        lemma_repack_take_step(inputs, i);
        let t1 = choose|t: Seq<Seq<char>>|
            repack_paths(inputs) == #[trigger] (repack_paths(inputs.take(i + 1)) + t);
        assert((repack_paths(inputs.take(i)) + asset_paths(inputs[i])) + t1 =~= repack_paths(
            inputs.take(i),
        ) + (asset_paths(inputs[i]) + t1));
        assert(repack_paths(inputs) == repack_paths(inputs.take(i)) + (asset_paths(inputs[i])
            + t1));
    }
}

proof fn lemma_prefix_dup(a: Seq<Seq<char>>, t: Seq<Seq<char>>)
    requires
        !a.no_duplicates(),
    ensures
        !(a + t).no_duplicates(),
{
    let (i, j) = choose|i: int, j: int|
        0 <= i < a.len() && 0 <= j < a.len() && i != j && #[trigger] a[i] == #[trigger] a[j];
    assert((a + t)[i] == a[i]);
    assert((a + t)[j] == a[j]);
}

/// Builds one complete archive from loose files: each input is classified
/// and written with compression enabled, companions land beside their
/// primaries, and the index is written once at the end. It succeeds
/// exactly when every name has a file-name part and no two contributed
/// paths collide, and the resulting bytes parse back to an index carrying
/// exactly the contributed paths, in order.
pub fn repack_archive(inputs: Vec<LooseAsset>, mount_point: String) -> (r: Result<
    Vec<u8>,
    RepackError,
>)
    requires
        forall|i: int|
            0 <= i < inputs@.len() ==> (#[trigger] inputs@[i]).primary@.len() + 16 <= usize::MAX,
        forall|i: int|
            0 <= i < inputs@.len() ==> ((#[trigger] inputs@[i]).companion matches Some(c)
                ==> c@.len() + 16 <= usize::MAX),
    ensures
        inputs_ok(inputs@) ==> r is Ok,
        match r {
            Ok(bytes) => {
                &&& inputs_ok(inputs@)
                &&& (parse_archive(bytes@) matches Some(idx) && idx.mount_point == mount_point@
                    && idx.version == FORMAT_VERSION && paths_of(idx.entries) == repack_paths(
                    inputs@,
                ) && idx.entries.len() == repack_payloads(inputs@).len() && (forall|i: int|
                    0 <= i < idx.entries.len() ==> recover_entry(
                        Option::<Seq<u8>>::None,
                        bytes@,
                        #[trigger] idx.entries[i],
                    ) == Some(repack_payloads(inputs@)[i])))
            },
            Err(RepackError::Classify(ClassifyError::EmptyName)) => exists|i: int|
                0 <= i < inputs@.len() && file_name_of(
                    (#[trigger] inputs@[i]).local_name@,
                ).len() == 0,
            Err(RepackError::Archive(ArchiveError::DuplicatePath)) => !repack_paths(
                inputs@,
            ).no_duplicates(),
            Err(_) => false,
        },
{
    let ghost all = inputs@;
    let ghost m0 = mount_point@;
    let mut w = ArchiveWriter::create(mount_point, None);
    let mut rest = inputs;
    let total = rest.len();
    let mut i: usize = 0;
    proof {
        assert(w.written@ =~= Seq::<Seq<u8>>::empty());
        assert(repack_payloads(all.take(0)) == Seq::<Seq<u8>>::empty());
    }
    while rest.len() > 0
        invariant
            all == inputs@,
            all.len() == total,
            i + rest@.len() == all.len(),
            rest@ =~= all.skip(i as int),
            w.wf(),
            !w.finalized,
            w.key is None,
            w.mount_point@ == m0,
            w.version == FORMAT_VERSION,
            w.paths() == repack_paths(all.take(i as int)),
            w.written@ == repack_payloads(all.take(i as int)),
            forall|j: int|
                0 <= j < i ==> file_name_of((#[trigger] all[j]).local_name@).len() > 0,
            forall|j: int|
                0 <= j < all.len() ==> (#[trigger] all[j]).primary@.len() + 16 <= usize::MAX,
            forall|j: int|
                0 <= j < all.len() ==> ((#[trigger] all[j]).companion matches Some(c) ==> c@.len()
                    + 16 <= usize::MAX),
        decreases rest@.len(),
    {
        let a = rest.remove(0);
        proof {
            assert(a == all[i as int]);
            assert(rest@ =~= all.skip(i + 1));
        }
        let ghost w_pre = w;
        match add_asset(&mut w, a) {
            Ok(()) => {
                proof {
                    lemma_repack_take_step(all, i as int);
                }
            },
            Err(e) => {
                proof {
                    if e == RepackError::Classify(ClassifyError::EmptyName) {
                        assert(file_name_of(all[i as int].local_name@).len() == 0);
                    } else {
                        lemma_repack_take_step(all, i as int);
                        let stepped = repack_paths(all.take(i + 1));
                        let prefix = repack_paths(all.take(i as int));
                        let pp = spec_classify(file_name_of(a.local_name@));
                        assert(e == RepackError::Archive(ArchiveError::DuplicatePath));
                        if w_pre.paths().contains(pp) {
                            let k = choose|k: int|
                                0 <= k < prefix.len() && prefix[k] == pp;
                            assert(stepped[k] == pp);
                            assert(stepped[prefix.len() as int] == pp);
                            assert(!stepped.no_duplicates());
                        } else {
                            let cp = pp.take(pp.len() - 7) + ".uexp"@;
                            let pushed = w_pre.paths().push(pp);
                            let k = choose|k: int|
                                0 <= k < pushed.len() && pushed[k] == cp;
                            assert(stepped[k] == cp);
                            assert(stepped[prefix.len() as int + 1] == cp);
                            assert(k < prefix.len() + 1);
                            assert(!stepped.no_duplicates());
                        }
                        lemma_repack_split(all, i + 1);
                        let t = choose|t: Seq<Seq<char>>|
                            repack_paths(all) == #[trigger] (repack_paths(all.take(i + 1)) + t);
                        lemma_prefix_dup(stepped, t);
                    }
                }
                return Err(e);
            },
        }
        i += 1;
    }
    proof {
        assert(all.take(all.len() as int) =~= all);
    }
    match w.write_index() {
        Ok(bytes) => {
            proof {
                assert(paths_of(w.index_model().entries) =~= w.paths());
                let es = w.index_model().entries;
                assert forall|x: int, y: int|
                    0 <= x < w.paths().len() && 0 <= y < w.paths().len() && x != y implies #[trigger] w.paths()[x]
                    != #[trigger] w.paths()[y] by {
                    if x < y {
                        assert(es[x].path != es[y].path);
                    } else {
                        assert(es[y].path != es[x].path);
                    }
                }
            }
            Ok(bytes)
        },
        Err(e) => {
            proof {
                assert(false);
            }
            Err(RepackError::Archive(e))
        },
    }
}

} // verus!
