use vstd::prelude::*;

verus! {

use vstd::string::StringExecFns;
use vstd::string::StrSliceExecFns;
use crate::errors::ClassifyError;
use crate::strutil::{seq_starts_with, seq_ends_with, file_name_of, str_starts_with, str_ends_with,
    str_eq, file_name};

/// How a rule's pattern is compared against a stem.
#[derive(Clone, Copy, Debug, PartialEq, Eq, Structural)]
pub enum MatchKind {
    Prefix,
    Exact,
}

/// One classification rule: a stem matching `pattern` is placed in `dir`.
pub struct Rule {
    pub kind: MatchKind,
    pub pattern: String,
    pub dir: String,
}

/// Spec-level form of one rule.
pub struct RuleModel {
    pub kind: MatchKind,
    pub pattern: Seq<char>,
    pub dir: Seq<char>,
}

impl View for Rule {
    type V = RuleModel;

    open spec fn view(&self) -> RuleModel {
        RuleModel { kind: self.kind, pattern: self.pattern@, dir: self.dir@ }
    }
}

/// The directory that delivery-point stems are placed in.
pub open spec fn delivery_dir() -> Seq<char> {
    "Objects/Mission/Delivery/DeliveryPoint/"@
}

/// The default data-asset directory.
pub open spec fn data_asset_dir() -> Seq<char> {
    "DataAsset/"@
}

/// The ordered rule table, tried top to bottom; the first match wins, and a
/// stem that matches no rule falls to the default data-asset directory. The
/// table is a best-effort heuristic derived from observed archive layouts,
/// not from a schema; unknown categories land in the default directory.
pub open spec fn spec_rules() -> Seq<RuleModel> {
    seq![
        RuleModel { kind: MatchKind::Prefix, pattern: "Factory_"@, dir: delivery_dir() },
        RuleModel { kind: MatchKind::Prefix, pattern: "Farm_"@, dir: delivery_dir() },
        RuleModel { kind: MatchKind::Prefix, pattern: "Mine_"@, dir: delivery_dir() },
        RuleModel { kind: MatchKind::Prefix, pattern: "Sawmill_"@, dir: delivery_dir() },
        RuleModel { kind: MatchKind::Prefix, pattern: "Port_"@, dir: delivery_dir() },
        RuleModel { kind: MatchKind::Prefix, pattern: "Warehouse_"@, dir: delivery_dir() },
        RuleModel { kind: MatchKind::Prefix, pattern: "Store_"@, dir: delivery_dir() },
        RuleModel { kind: MatchKind::Exact, pattern: "Cargos"@, dir: data_asset_dir() },
        RuleModel { kind: MatchKind::Prefix, pattern: "Vehicles"@, dir: data_asset_dir() },
    ]
}

/// Whether a stem matches one rule.
pub open spec fn spec_rule_matches(r: RuleModel, stem: Seq<char>) -> bool {
    match r.kind {
        MatchKind::Prefix => seq_starts_with(stem, r.pattern),
        MatchKind::Exact => stem == r.pattern,
    }
}

/// The directory chosen by the first matching rule, or the default.
pub open spec fn dir_for_stem(rules: Seq<RuleModel>, stem: Seq<char>) -> Seq<char>
    decreases rules.len(),
{
    if rules.len() == 0 {
        data_asset_dir()
    } else if spec_rule_matches(rules[0], stem) {
        rules[0].dir
    } else {
        dir_for_stem(rules.drop_first(), stem)
    }
}

/// The managed extension of a filename: `.uasset`, `.uexp`, or none.
pub open spec fn ext_of(name: Seq<char>) -> Seq<char> {
    if seq_ends_with(name, ".uasset"@) {
        ".uasset"@
    } else if seq_ends_with(name, ".uexp"@) {
        ".uexp"@
    } else {
        Seq::empty()
    }
}

/// The filename with its managed extension removed.
pub open spec fn stem_with_suffix(name: Seq<char>) -> Seq<char> {
    name.take(name.len() - ext_of(name).len())
}

/// Removes every trailing `_modified` disambiguation suffix from a stem.
pub open spec fn strip_modified(stem: Seq<char>) -> Seq<char>
    decreases stem.len(),
{
    if stem.len() >= 9 && seq_ends_with(stem, "_modified"@) {
        strip_modified(stem.take(stem.len() - 9))
    } else {
        stem
    }
}

/// The canonical internal archive path for a loose filename.
pub open spec fn spec_classify(name: Seq<char>) -> Seq<char> {
    let ext = ext_of(name);
    let stem = strip_modified(stem_with_suffix(name));
    dir_for_stem(spec_rules(), stem) + stem + ext
}

proof fn lemma_ext_split(x: Seq<char>, ext: Seq<char>)
    requires
        ext == ".uasset"@ || ext == ".uexp"@ || ext == Seq::<char>::empty(),
        !seq_ends_with(x, ".uasset"@),
        !seq_ends_with(x, ".uexp"@),
    ensures
        ext_of(x + ext) == ext,
        stem_with_suffix(x + ext) == x,
{
    reveal_strlit(".uasset");
    reveal_strlit(".uexp");
    if ext == ".uasset"@ {
        assert(seq_ends_with(x + ext, ".uasset"@)) by {
            assert forall|i: int| 0 <= i < 7 implies (x + ext)[(x + ext).len() - 7 + i]
                == #[trigger] (".uasset"@)[i] by {
                assert((x + ext)[x.len() as int + i] == ext[i]);
            }
        };
    } else if ext == ".uexp"@ {
        assert(!seq_ends_with(x + ext, ".uasset"@)) by {
            if seq_ends_with(x + ext, ".uasset"@) {
                assert((x + ext)[(x + ext).len() - 7 + 6] == (".uasset"@)[6]);
                assert((x + ext)[x.len() as int + 4] == ext[4]);
            }
        };
        assert(seq_ends_with(x + ext, ".uexp"@)) by {
            assert forall|i: int| 0 <= i < 5 implies (x + ext)[(x + ext).len() - 5 + i]
                == #[trigger] (".uexp"@)[i] by {
                assert((x + ext)[x.len() as int + i] == ext[i]);
            }
        };
    } else {
        assert(x + ext =~= x);
    }
    assert(stem_with_suffix(x + ext) =~= x);
}

/// Classification is deterministic — the canonical path is a function of the
/// filename alone — and stripping a `_modified` disambiguation suffix before
/// classifying yields the same canonical path as classifying the unsuffixed
/// name, for any stem that carries no managed extension of its own.
pub proof fn lemma_classify_suffix_invariant(stem: Seq<char>, ext: Seq<char>)
    requires
        ext == ".uasset"@ || ext == ".uexp"@ || ext == Seq::<char>::empty(),
        ext_of(stem) == Seq::<char>::empty(),
    ensures
        spec_classify(stem + "_modified"@ + ext) == spec_classify(stem + ext),
{
    reveal_strlit(".uasset");
    reveal_strlit(".uexp");
    reveal_strlit("_modified");
    let m = "_modified"@;
    let sm = stem + m;
    assert(!seq_ends_with(stem, ".uasset"@)) by {
        if seq_ends_with(stem, ".uasset"@) {
            assert(ext_of(stem) == ".uasset"@);
        }
    };
    assert(!seq_ends_with(stem, ".uexp"@)) by {
        if seq_ends_with(stem, ".uexp"@) {
            assert(ext_of(stem) =~= ".uasset"@ || ext_of(stem) =~= ".uexp"@);
        }
    };
    assert(!seq_ends_with(sm, ".uasset"@)) by {
        if seq_ends_with(sm, ".uasset"@) {
            assert(sm[sm.len() - 7 + 6] == (".uasset"@)[6]);
            assert(sm[stem.len() as int + 8] == m[8]);
        }
    };
    assert(!seq_ends_with(sm, ".uexp"@)) by {
        if seq_ends_with(sm, ".uexp"@) {
            assert(sm[sm.len() - 5 + 4] == (".uexp"@)[4]);
            assert(sm[stem.len() as int + 8] == m[8]);
        }
    };
    lemma_ext_split(sm, ext);
    lemma_ext_split(stem, ext);
    assert(stem + m + ext =~= sm + ext);
    assert(seq_ends_with(sm, m)) by {
        assert forall|i: int| 0 <= i < 9 implies sm[sm.len() - 9 + i] == #[trigger] m[i] by {
            assert(sm[stem.len() as int + i] == m[i]);
        }
    };
    assert(sm.take(sm.len() - 9) =~= stem);
    assert(strip_modified(sm) == strip_modified(stem));
}

/// The rule table in executable form, matching `spec_rules`.
pub fn rules() -> (r: Vec<Rule>)
    ensures
        r@.len() == spec_rules().len(),
        forall|i: int| 0 <= i < r@.len() ==> #[trigger] r@[i]@ == spec_rules()[i],
{
    let deliver = "Objects/Mission/Delivery/DeliveryPoint/";
    let data = "DataAsset/";
    let mut v: Vec<Rule> = Vec::new();
    v.push(Rule { kind: MatchKind::Prefix, pattern: String::from_str("Factory_"), dir: String::from_str(deliver) });
    v.push(Rule { kind: MatchKind::Prefix, pattern: String::from_str("Farm_"), dir: String::from_str(deliver) });
    v.push(Rule { kind: MatchKind::Prefix, pattern: String::from_str("Mine_"), dir: String::from_str(deliver) });
    v.push(Rule { kind: MatchKind::Prefix, pattern: String::from_str("Sawmill_"), dir: String::from_str(deliver) });
    v.push(Rule { kind: MatchKind::Prefix, pattern: String::from_str("Port_"), dir: String::from_str(deliver) });
    v.push(Rule { kind: MatchKind::Prefix, pattern: String::from_str("Warehouse_"), dir: String::from_str(deliver) });
    v.push(Rule { kind: MatchKind::Prefix, pattern: String::from_str("Store_"), dir: String::from_str(deliver) });
    v.push(Rule { kind: MatchKind::Exact, pattern: String::from_str("Cargos"), dir: String::from_str(data) });
    v.push(Rule { kind: MatchKind::Prefix, pattern: String::from_str("Vehicles"), dir: String::from_str(data) });
    v
}

/// The directory for a stem, by the first matching rule.
pub fn dir_for(stem: &str) -> (r: String)
    ensures
        r@ == dir_for_stem(spec_rules(), stem@),
{
    let rs = rules();
    proof {
        assert(spec_rules().skip(0) =~= spec_rules());
    }
    let mut i: usize = 0;
    while i < rs.len()
        invariant
            i <= rs@.len(),
            rs@.len() == spec_rules().len(),
            forall|k: int| 0 <= k < rs@.len() ==> #[trigger] rs@[k]@ == spec_rules()[k],
            dir_for_stem(spec_rules().skip(i as int), stem@) == dir_for_stem(spec_rules(), stem@),
        decreases rs@.len() - i,
    {
        let rule = &rs[i];
        let m = match rule.kind {
            MatchKind::Prefix => str_starts_with(stem, rule.pattern.as_str()),
            MatchKind::Exact => str_eq(stem, rule.pattern.as_str()),
        };
        proof {
            assert(rs@[i as int]@ == spec_rules()[i as int]);
            assert(m == spec_rule_matches(spec_rules()[i as int], stem@));
            assert(spec_rules().skip(i as int)[0] == spec_rules()[i as int]);
            assert(spec_rules().skip(i as int).drop_first() =~= spec_rules().skip(i + 1));
        }
        if m {
            return rule.dir.clone();
        }
        i += 1;
    }
    proof {
        assert(spec_rules().skip(spec_rules().len() as int) =~= Seq::<RuleModel>::empty());
    }
    String::from_str("DataAsset/")
}

/// Maps a loose filename to its canonical internal archive path: any
/// `_modified` disambiguation suffix is stripped, the managed extension is
/// preserved, and the first matching rule decides the directory. An empty
/// filename is rejected.
pub fn classify(filename: &str) -> (r: Result<String, ClassifyError>)
    ensures
        filename@.len() == 0 ==> r == Err::<String, ClassifyError>(ClassifyError::EmptyName),
        filename@.len() > 0 ==> (r matches Ok(p) && p@ == spec_classify(filename@)),
{
    let n = filename.unicode_len();
    if n == 0 {
        return Err(ClassifyError::EmptyName);
    }
    proof {
        reveal_strlit(".uasset");
        reveal_strlit(".uexp");
        reveal_strlit("");
    }
    let (stem0, ext): (&str, &str) = if str_ends_with(filename, ".uasset") {
        (filename.substring_char(0, n - 7), ".uasset")
    } else if str_ends_with(filename, ".uexp") {
        (filename.substring_char(0, n - 5), ".uexp")
    } else {
        (filename, "")
    };
    proof {
        assert(stem0@ =~= stem_with_suffix(filename@));
        assert(ext@ == ext_of(filename@));
    }
    let mut stem: &str = stem0;
    loop
        invariant
            strip_modified(stem@) == strip_modified(stem0@),
        ensures
            stem@ == strip_modified(stem0@),
        decreases stem@.len(),
    {
        proof {
            reveal_strlit("_modified");
        }
        if !str_ends_with(stem, "_modified") {
            break;
        }
        let l = stem.unicode_len();
        let shorter = stem.substring_char(0, l - 9);
        proof {
            assert(shorter@ =~= stem@.take(stem@.len() - 9));
        }
        stem = shorter;
    }
    let dir = dir_for(stem);
    let mut out = dir;
    out.append(stem);
    out.append(ext);
    Ok(out)
}

/// Maps a loose on-disk path to the canonical internal archive path of the
/// file it names: the part after the last slash is classified.
pub fn get_pak_path(local_path: &str) -> (r: Result<String, ClassifyError>)
    ensures
        file_name_of(local_path@).len() == 0 ==> r == Err::<String, ClassifyError>(
            ClassifyError::EmptyName,
        ),
        file_name_of(local_path@).len() > 0 ==> (r matches Ok(p) && p@ == spec_classify(
            file_name_of(local_path@),
        )),
{
    let name = file_name(local_path);
    classify(name)
}

/// The companion path of a primary archive path: `.uasset` swapped for
/// `.uexp`, so that primary and companion land in the same directory.
pub fn companion_path(p: &str) -> (r: Option<String>)
    ensures
        seq_ends_with(p@, ".uasset"@) ==> (r matches Some(q) && q@ == p@.take(p@.len() - 7)
            + ".uexp"@),
        !seq_ends_with(p@, ".uasset"@) ==> r is None,
{
    proof {
        reveal_strlit(".uasset");
    }
    if str_ends_with(p, ".uasset") {
        let n = p.unicode_len();
        let stem = p.substring_char(0, n - 7);
        let mut out = String::from_str(stem);
        out.append(".uexp");
        proof {
            assert(stem@ =~= p@.take(p@.len() - 7));
        }
        Some(out)
    } else {
        None
    }
}

} // verus!
