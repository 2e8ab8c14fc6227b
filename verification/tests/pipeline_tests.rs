use pakmod::errors::{ArchiveError, ClassifyError};
use pakmod::extract::{batch_extract, extract_asset, list_data_assets, search_assets};
use pakmod::keys::parse_key;
use pakmod::reader::ArchiveReader;
use pakmod::repack::{add_asset, repack_archive, LooseAsset, RepackError};
use pakmod::writer::ArchiveWriter;

fn test_key() -> Vec<u8> {
    let mut s = String::from("0x");
    for i in 0..32 {
        s.push_str(&format!("{:02x}", i * 0x11 % 256));
    }
    parse_key(&s).unwrap()
}

fn sample_archive() -> ArchiveReader {
    let mut w = ArchiveWriter::create("../../../".to_string(), Some(test_key()));
    w.write_file("DataAsset/Cargos.uasset", true, vec![1u8; 100]).unwrap();
    w.write_file("DataAsset/Cargos.uexp", true, vec![2u8; 50]).unwrap();
    w.write_file("DataAsset/Vehicles.uasset", true, vec![3u8; 64]).unwrap();
    w.write_file("Maps/World.umap", true, vec![4u8; 32]).unwrap();
    w.write_file("Other/Readme.uasset", false, vec![5u8; 16]).unwrap();
    let bytes = w.write_index().unwrap();
    ArchiveReader::open(bytes, Some(test_key())).unwrap()
}

#[test]
fn listing_reports_data_assets_trimmed() {
    let rd = sample_archive();
    let listed = list_data_assets(&rd.list_paths());
    assert_eq!(listed, vec!["DataAsset/Cargos", "DataAsset/Vehicles"]);
}

#[test]
fn search_folds_case_beyond_ascii() {
    let mut w = ArchiveWriter::create("m".to_string(), None);
    w.write_file("DataAsset/\u{00dc}bung.uasset", true, vec![1u8; 8]).unwrap();
    let bytes = w.write_index().unwrap();
    let rd = ArchiveReader::open(bytes, None).unwrap();
    let hits = search_assets(&rd.list_paths(), "\u{00fc}bung");
    assert_eq!(hits, vec!["DataAsset/\u{00dc}bung"]);
}

#[test]
fn search_is_case_insensitive_and_counts_matches() {
    let rd = sample_archive();
    let hits = search_assets(&rd.list_paths(), "cargo");
    assert_eq!(hits, vec!["DataAsset/Cargos"]);
    assert_eq!(hits.len(), 1);
    let none = search_assets(&rd.list_paths(), "zeppelin");
    assert_eq!(none.len(), 0);
}

#[test]
fn single_extraction_returns_primary_and_companion() {
    let rd = sample_archive();
    let (ua, ux) = extract_asset(&rd, "DataAsset/Cargos").unwrap();
    assert_eq!(ua.len(), 100);
    assert_eq!(ux.unwrap().len(), 50);
}

#[test]
fn single_extraction_without_companion_is_not_an_error() {
    let rd = sample_archive();
    let (ua, ux) = extract_asset(&rd, "DataAsset/Vehicles").unwrap();
    assert_eq!(ua, vec![3u8; 64]);
    assert!(ux.is_none());
}

#[test]
fn single_extraction_of_a_missing_asset_fails() {
    let rd = sample_archive();
    assert_eq!(extract_asset(&rd, "DataAsset/Nope").unwrap_err(), ArchiveError::EntryNotFound);
}

#[test]
fn batch_extraction_tolerates_partial_failure() {
    let rd = sample_archive();
    let ids = vec![
        "DataAsset/Cargos".to_string(),
        "DataAsset/Missing".to_string(),
        "DataAsset/Vehicles.uasset".to_string(),
        "Bogus/AlsoMissing".to_string(),
    ];
    let out = batch_extract(&rd, &ids);
    assert_eq!(out.extracted.len(), 2);
    assert_eq!(out.failures.len(), 2);
    assert_eq!(out.failures, vec!["DataAsset/Missing", "Bogus/AlsoMissing"]);

    assert_eq!(out.extracted[0].name, "Cargos");
    assert_eq!(out.extracted[0].pak_path, "DataAsset/Cargos");
    assert_eq!(out.extracted[0].uasset.len(), 100);
    assert_eq!(out.extracted[0].uexp.as_ref().unwrap().len(), 50);

    assert_eq!(out.extracted[1].name, "Vehicles");
    assert_eq!(out.extracted[1].pak_path, "DataAsset/Vehicles");
    assert_eq!(out.extracted[1].uasset.len(), 64);
    assert!(out.extracted[1].uexp.is_none());
}

#[test]
fn repacked_files_land_under_their_canonical_paths() {
    let inputs = vec![
        LooseAsset {
            local_name: "out/Factory_Cheese_modified.uasset".to_string(),
            primary: vec![10u8; 200],
            companion: Some(vec![11u8; 80]),
        },
        LooseAsset {
            local_name: "Cargos_modified.uasset".to_string(),
            primary: vec![12u8; 60],
            companion: None,
        },
    ];
    let bytes = repack_archive(inputs, "../../../".to_string()).unwrap();
    let rd = ArchiveReader::open(bytes, None).unwrap();
    assert_eq!(
        rd.list_paths(),
        vec![
            "Objects/Mission/Delivery/DeliveryPoint/Factory_Cheese.uasset",
            "Objects/Mission/Delivery/DeliveryPoint/Factory_Cheese.uexp",
            "DataAsset/Cargos.uasset",
        ]
    );
    assert_eq!(rd.mount_point, "../../../");
    assert_eq!(
        rd.get("Objects/Mission/Delivery/DeliveryPoint/Factory_Cheese.uasset").unwrap(),
        vec![10u8; 200]
    );
    assert_eq!(
        rd.get("Objects/Mission/Delivery/DeliveryPoint/Factory_Cheese.uexp").unwrap(),
        vec![11u8; 80]
    );
    assert_eq!(rd.get("DataAsset/Cargos.uasset").unwrap(), vec![12u8; 60]);
}

#[test]
fn repacking_colliding_inputs_fails_with_duplicate_path() {
    let inputs = vec![
        LooseAsset {
            local_name: "a/Cargos.uasset".to_string(),
            primary: vec![1],
            companion: None,
        },
        LooseAsset {
            local_name: "b/Cargos_modified.uasset".to_string(),
            primary: vec![2],
            companion: None,
        },
    ];
    let err = repack_archive(inputs, "m".to_string()).unwrap_err();
    assert_eq!(err, RepackError::Archive(ArchiveError::DuplicatePath));
}

#[test]
fn repacking_a_nameless_input_fails_classification() {
    let inputs = vec![LooseAsset {
        local_name: "ends/in/..".to_string(),
        primary: vec![1],
        companion: None,
    }];
    let err = repack_archive(inputs, "m".to_string()).unwrap_err();
    assert_eq!(err, RepackError::Classify(ClassifyError::EmptyName));
}

#[test]
fn add_asset_skips_the_companion_when_the_primary_is_not_primary() {
    let mut w = ArchiveWriter::create("m".to_string(), None);
    add_asset(
        &mut w,
        LooseAsset {
            local_name: "Cargos.uexp".to_string(),
            primary: vec![9; 10],
            companion: Some(vec![8; 10]),
        },
    )
    .unwrap();
    let bytes = w.write_index().unwrap();
    let rd = ArchiveReader::open(bytes, None).unwrap();
    assert_eq!(rd.list_paths(), vec!["DataAsset/Cargos.uexp"]);
}
