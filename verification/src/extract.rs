use vstd::prelude::*;

verus! {

use vstd::string::{StringExecFns, StrSliceExecFns};
use crate::errors::ArchiveError;
use crate::format::spec_lookup;
use crate::format::recover_entry;
use crate::reader::ArchiveReader;
use crate::strutil::{seq_ends_with, seq_contains, str_ends_with, str_contains, file_name_of,
    file_name};

/// The views of a sequence of strings.
pub open spec fn views_of(v: Seq<String>) -> Seq<Seq<char>> {
    v.map_values(|s: String| s@)
}

/// Whether a path names a primary data-asset entry: it carries the primary
/// extension and the category marker.
pub open spec fn is_data_asset(p: Seq<char>) -> bool {
    seq_ends_with(p, ".uasset"@) && seq_contains(p, "DataAsset"@)
}

/// What `str::to_lowercase` returns: the Unicode lowercase form of the
/// characters, a function of them alone.
pub uninterp spec fn lower_of(s: Seq<char>) -> Seq<char>;

/// Relies on `str::to_lowercase`: the result depends on the characters
/// alone — no locale is consulted.
#[verifier::external_body]
fn lowercase(s: &str) -> (r: String)
    ensures
        r@ == lower_of(s@),
{
    s.to_lowercase()
}

/// Whether a path matches a search: it carries the primary extension and
/// its lowercase form contains the lowercase form of the pattern.
pub open spec fn search_matches(p: Seq<char>, pat: Seq<char>) -> bool {
    seq_ends_with(p, ".uasset"@) && seq_contains(lower_of(p), lower_of(pat))
}

/// A path with a trailing primary extension removed.
pub open spec fn trim_primary(p: Seq<char>) -> Seq<char> {
    if seq_ends_with(p, ".uasset"@) {
        p.take(p.len() - 7)
    } else {
        p
    }
}

/// The listing workflow's result: data-asset paths, extension trimmed, in
/// index order.
pub open spec fn spec_list(paths: Seq<Seq<char>>) -> Seq<Seq<char>> {
    paths.filter(|p: Seq<char>| is_data_asset(p)).map_values(|p: Seq<char>| trim_primary(p))
}

/// The search workflow's result: matching paths, extension trimmed, in
/// index order.
pub open spec fn spec_search(paths: Seq<Seq<char>>, pat: Seq<char>) -> Seq<Seq<char>> {
    paths.filter(|p: Seq<char>| search_matches(p, pat)).map_values(|p: Seq<char>| trim_primary(p))
}

/// Trims the primary extension of a path, executably.
fn trim_primary_exec(p: &str) -> (r: String)
    ensures
        r@ == trim_primary(p@),
{
    proof {
        reveal_strlit(".uasset");
    }
    if str_ends_with(p, ".uasset") {
        let n = p.unicode_len();
        let s = p.substring_char(0, n - 7);
        proof {
            assert(s@ =~= p@.take(p@.len() - 7));
        }
        String::from_str(s)
    } else {
        String::from_str(p)
    }
}

/// The list workflow: report every entry path that ends with the primary
/// extension and contains the category marker, extension trimmed.
pub fn list_data_assets(paths: &Vec<String>) -> (r: Vec<String>)
    ensures
        views_of(r@) == spec_list(views_of(paths@)),
{
    let mut r: Vec<String> = Vec::new();
    let mut i: usize = 0;
    while i < paths.len()
        invariant
            i <= paths@.len(),
            views_of(r@) == spec_list(views_of(paths@.take(i as int))),
        decreases paths@.len() - i,
    {
        let p = &paths[i];
        let keep = str_ends_with(p.as_str(), ".uasset") && str_contains(p.as_str(), "DataAsset");
        proof {
            let pv = views_of(paths@.take(i as int));
            assert(views_of(paths@.take(i + 1)) =~= pv.push(paths@[i as int]@));
            pv.lemma_filter_push(paths@[i as int]@, |q: Seq<char>| is_data_asset(q));
            if keep {
                assert(pv.filter(|q: Seq<char>| is_data_asset(q)).push(
                    paths@[i as int]@,
                ).map_values(|q: Seq<char>| trim_primary(q)) =~= spec_list(pv).push(
                    trim_primary(paths@[i as int]@),
                ));
            }
        }
        if keep {
            let t = trim_primary_exec(p.as_str());
            r.push(t);
            proof {
                assert(views_of(r@) =~= spec_list(views_of(paths@.take(i + 1))));
            }
        }
        i += 1;
    }
    proof {
        assert(paths@.take(paths@.len() as int) =~= paths@);
    }
    r
}

/// The search workflow: report every entry path that ends with the primary
/// extension and case-insensitively contains the pattern, extension
/// trimmed.
pub fn search_assets(paths: &Vec<String>, pattern: &str) -> (r: Vec<String>)
    ensures
        views_of(r@) == spec_search(views_of(paths@), pattern@),
{
    let low_pat = lowercase(pattern);
    let mut r: Vec<String> = Vec::new();
    let mut i: usize = 0;
    while i < paths.len()
        invariant
            low_pat@ == lower_of(pattern@),
            i <= paths@.len(),
            views_of(r@) == spec_search(views_of(paths@.take(i as int)), pattern@),
        decreases paths@.len() - i,
    {
        let p = &paths[i];
        let low_p = lowercase(p.as_str());
        let keep = str_ends_with(p.as_str(), ".uasset") && str_contains(
            low_p.as_str(),
            low_pat.as_str(),
        );
        proof {
            let pv = views_of(paths@.take(i as int));
            assert(views_of(paths@.take(i + 1)) =~= pv.push(paths@[i as int]@));
            pv.lemma_filter_push(paths@[i as int]@, |q: Seq<char>| search_matches(q, pattern@));
            if keep {
                assert(pv.filter(|q: Seq<char>| search_matches(q, pattern@)).push(
                    paths@[i as int]@,
                ).map_values(|q: Seq<char>| trim_primary(q)) =~= spec_search(pv, pattern@).push(
                    trim_primary(paths@[i as int]@),
                ));
            }
        }
        if keep {
            let t = trim_primary_exec(p.as_str());
            r.push(t);
            proof {
                assert(views_of(r@) =~= spec_search(views_of(paths@.take(i + 1)), pattern@));
            }
        }
        i += 1;
    }
    proof {
        assert(paths@.take(paths@.len() as int) =~= paths@);
    }
    r
}

/// An identifier with one trailing managed extension removed.
pub open spec fn trim_id(s: Seq<char>) -> Seq<char> {
    if seq_ends_with(s, ".uasset"@) {
        s.take(s.len() - 7)
    } else if seq_ends_with(s, ".uexp"@) {
        s.take(s.len() - 5)
    } else {
        s
    }
}

/// The archive path of an identifier's primary entry.
pub open spec fn primary_path_of(id: Seq<char>) -> Seq<char> {
    trim_id(id) + ".uasset"@
}

/// The archive path of an identifier's companion entry.
pub open spec fn companion_path_of(id: Seq<char>) -> Seq<char> {
    trim_id(id) + ".uexp"@
}

/// The output name of an identifier: the part after its last slash, or a
/// fixed fallback when that is empty.
pub open spec fn asset_name_of(id: Seq<char>) -> Seq<char> {
    if file_name_of(trim_id(id)).len() == 0 {
        "asset"@
    } else {
        file_name_of(trim_id(id))
    }
}

/// What retrieving an identifier's primary entry yields.
pub open spec fn primary_result(rd: ArchiveReader, id: Seq<char>) -> Option<Seq<u8>> {
    match spec_lookup(rd.index_model().entries, primary_path_of(id)) {
        None => None,
        Some(e) => recover_entry(rd.spec_key(), rd.data@, e),
    }
}

/// What retrieving an identifier's companion entry yields.
pub open spec fn companion_result(rd: ArchiveReader, id: Seq<char>) -> Option<Seq<u8>> {
    match spec_lookup(rd.index_model().entries, companion_path_of(id)) {
        None => None,
        Some(e) => recover_entry(rd.spec_key(), rd.data@, e),
    }
}

/// Whether the archive serves an identifier's primary entry.
pub open spec fn id_ok(rd: ArchiveReader, id: Seq<char>) -> bool {
    primary_result(rd, id) is Some
}

/// One record of the extraction manifest, carrying the recovered payloads.
pub struct ExtractedAsset {
    pub name: String,
    pub pak_path: String,
    pub uasset: Vec<u8>,
    pub uexp: Option<Vec<u8>>,
}

/// The outcome of a batch run: one record per identifier whose primary
/// entry was served, and the identifiers that failed, both in input order.
pub struct BatchResult {
    pub extracted: Vec<ExtractedAsset>,
    pub failures: Vec<String>,
}

/// Whether one manifest record is exactly what the archive holds for an
/// identifier.
pub open spec fn record_matches(rd: ArchiveReader, id: Seq<char>, rec: ExtractedAsset) -> bool {
    &&& rec.name@ == asset_name_of(id)
    &&& rec.pak_path@ == trim_id(id)
    &&& primary_result(rd, id) == Some(rec.uasset@)
    &&& (match companion_result(rd, id) {
        Some(b) => rec.uexp matches Some(u) && u@ == b,
        None => rec.uexp is None,
    })
}

/// Trims an identifier and derives its primary path, companion path and
/// output name, executably.
fn derive_id_parts(id: &str) -> (r: (String, String, String))
    ensures
        r.0@ == trim_id(id@),
        r.1@ == primary_path_of(id@),
        r.2@ == companion_path_of(id@),
{
    proof {
        reveal_strlit(".uasset");
        reveal_strlit(".uexp");
    }
    let n = id.unicode_len();
    let trimmed: String = if str_ends_with(id, ".uasset") {
        let s = id.substring_char(0, n - 7);
        proof {
            assert(s@ =~= id@.take(id@.len() - 7));
        }
        String::from_str(s)
    } else if str_ends_with(id, ".uexp") {
        let s = id.substring_char(0, n - 5);
        proof {
            assert(s@ =~= id@.take(id@.len() - 5));
        }
        String::from_str(s)
    } else {
        String::from_str(id)
    };
    let mut primary = trimmed.clone();
    primary.append(".uasset");
    let mut companion = trimmed.clone();
    companion.append(".uexp");
    (trimmed, primary, companion)
}

/// Derives the output name of a trimmed identifier, executably.
fn derive_name(trimmed: &str) -> (r: String)
    ensures
        r@ == (if file_name_of(trimmed@).len() == 0 {
            "asset"@
        } else {
            file_name_of(trimmed@)
        }),
{
    let f = file_name(trimmed);
    if f.unicode_len() == 0 {
        String::from_str("asset")
    } else {
        String::from_str(f)
    }
}

/// The single-asset workflow: the primary entry must be served, and the
/// error of its retrieval propagates; the companion is included when
/// present, and its absence is not an error.
pub fn extract_asset(rd: &ArchiveReader, asset_path: &str) -> (r: Result<
    (Vec<u8>, Option<Vec<u8>>),
    ArchiveError,
>)
    requires
        rd.wf(),
    ensures
        match r {
            Ok(out) => {
                &&& primary_result(*rd, asset_path@) == Some(out.0@)
                &&& (match companion_result(*rd, asset_path@) {
                    Some(b) => out.1 matches Some(u) && u@ == b,
                    None => out.1 is None,
                })
            },
            Err(e) => !id_ok(*rd, asset_path@) && e == (match spec_lookup(
                rd.index_model().entries,
                primary_path_of(asset_path@),
            ) {
                None => ArchiveError::EntryNotFound,
                Some(en) => if en.is_encrypted {
                    ArchiveError::DecryptionFailed
                } else {
                    ArchiveError::DecompressionFailed
                },
            }),
        },
{
    let (_trimmed, primary, companion) = derive_id_parts(asset_path);
    let ua = match rd.get(primary.as_str()) {
        Ok(b) => b,
        Err(e) => {
            return Err(e);
        },
    };
    let ux = match rd.get(companion.as_str()) {
        Ok(b) => Some(b),
        Err(_) => None,
    };
    Ok((ua, ux))
}

/// The batch workflow: each identifier is tried independently, a failure
/// is recorded and never aborts the rest, and exactly the identifiers
/// whose primary entry was served produce a record, in input order.
pub fn batch_extract(rd: &ArchiveReader, ids: &Vec<String>) -> (r: BatchResult)
    requires
        rd.wf(),
    ensures
        r.extracted@.len() + r.failures@.len() == ids@.len(),
        views_of(r.failures@) == views_of(ids@).filter(|id: Seq<char>| !id_ok(*rd, id)),
        r.extracted@.len() == views_of(ids@).filter(|id: Seq<char>| id_ok(*rd, id)).len(),
        forall|i: int|
            0 <= i < r.extracted@.len() ==> record_matches(
                *rd,
                views_of(ids@).filter(|id: Seq<char>| id_ok(*rd, id))[i],
                #[trigger] r.extracted@[i],
            ),
{
    let mut extracted: Vec<ExtractedAsset> = Vec::new();
    let mut failures: Vec<String> = Vec::new();
    let mut i: usize = 0;
    while i < ids.len()
        invariant
            rd.wf(),
            i <= ids@.len(),
            extracted@.len() + failures@.len() == i,
            views_of(failures@) == views_of(ids@.take(i as int)).filter(
                |id: Seq<char>| !id_ok(*rd, id),
            ),
            extracted@.len() == views_of(ids@.take(i as int)).filter(
                |id: Seq<char>| id_ok(*rd, id),
            ).len(),
            forall|k: int|
                0 <= k < extracted@.len() ==> record_matches(
                    *rd,
                    views_of(ids@.take(i as int)).filter(|id: Seq<char>| id_ok(*rd, id))[k],
                    #[trigger] extracted@[k],
                ),
        decreases ids@.len() - i,
    {
        let id = &ids[i];
        let (trimmed, primary, companion) = derive_id_parts(id.as_str());
        let ghost idv = ids@[i as int]@;
        proof {
            let pv = views_of(ids@.take(i as int));
            assert(views_of(ids@.take(i + 1)) =~= pv.push(idv));
            pv.lemma_filter_push(idv, |id: Seq<char>| id_ok(*rd, id));
            pv.lemma_filter_push(idv, |id: Seq<char>| !id_ok(*rd, id));
        }
        match rd.get(primary.as_str()) {
            Ok(ua) => {
                let ux = match rd.get(companion.as_str()) {
                    Ok(b) => Some(b),
                    Err(_) => None,
                };
                let name = derive_name(trimmed.as_str());
                let rec = ExtractedAsset { name, pak_path: trimmed, uasset: ua, uexp: ux };
                proof {
                    assert(id_ok(*rd, idv));
                    assert(record_matches(*rd, idv, rec));
                }
                extracted.push(rec);
            },
            Err(_) => {
                proof {
                    assert(!id_ok(*rd, idv));
                }
                failures.push(id.clone());
                proof {
                    assert(views_of(failures@) =~= views_of(ids@.take(i + 1)).filter(
                        |id: Seq<char>| !id_ok(*rd, id),
                    ));
                }
            },
        }
        i += 1;
    }
    proof {
        assert(ids@.take(ids@.len() as int) =~= ids@);
    }
    BatchResult { extracted, failures }
}

} // verus!
