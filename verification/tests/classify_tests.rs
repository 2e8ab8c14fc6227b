use pakmod::classify::{classify, companion_path, get_pak_path};
use pakmod::errors::ClassifyError;

#[test]
fn factory_cheese_modified_classifies_to_delivery_point() {
    let p = get_pak_path("Factory_Cheese_modified.uasset").unwrap();
    assert_eq!(p, "Objects/Mission/Delivery/DeliveryPoint/Factory_Cheese.uasset");
}

#[test]
fn cargos_classifies_to_data_asset() {
    assert_eq!(classify("Cargos.uasset").unwrap(), "DataAsset/Cargos.uasset");
    assert_eq!(classify("Cargos.uexp").unwrap(), "DataAsset/Cargos.uexp");
}

#[test]
fn vehicles_prefix_classifies_to_data_asset() {
    assert_eq!(classify("Vehicles.uasset").unwrap(), "DataAsset/Vehicles.uasset");
    assert_eq!(classify("VehiclesExtra.uasset").unwrap(), "DataAsset/VehiclesExtra.uasset");
}

#[test]
fn unknown_names_fall_to_default_directory() {
    assert_eq!(classify("Foo.uasset").unwrap(), "DataAsset/Foo.uasset");
    assert_eq!(classify("NoExtension").unwrap(), "DataAsset/NoExtension");
}

#[test]
fn delivery_prefixes_classify_to_delivery_point() {
    for name in ["Farm_A", "Mine_B", "Sawmill_C", "Port_D", "Warehouse_E", "Store_F"] {
        let got = classify(&format!("{}.uasset", name)).unwrap();
        let want = format!("Objects/Mission/Delivery/DeliveryPoint/{}.uasset", name);
        assert_eq!(got, want);
    }
}

#[test]
fn local_directories_are_stripped_before_classifying() {
    let p = get_pak_path("out/build/Cargos_modified.uasset").unwrap();
    assert_eq!(p, "DataAsset/Cargos.uasset");
}

#[test]
fn classify_is_deterministic() {
    let a = classify("Factory_Cheese.uasset").unwrap();
    let b = classify("Factory_Cheese.uasset").unwrap();
    assert_eq!(a, b);
}

#[test]
fn stripping_the_suffix_first_gives_the_same_path() {
    let direct = classify("Factory_Cheese_modified.uasset").unwrap();
    let stripped = classify("Factory_Cheese.uasset").unwrap();
    assert_eq!(direct, stripped);
    let direct2 = classify("Cargos_modified.uexp").unwrap();
    let stripped2 = classify("Cargos.uexp").unwrap();
    assert_eq!(direct2, stripped2);
}

#[test]
fn empty_names_are_rejected() {
    assert_eq!(classify(""), Err(ClassifyError::EmptyName));
    assert_eq!(get_pak_path(""), Err(ClassifyError::EmptyName));
    assert_eq!(get_pak_path("/"), Err(ClassifyError::EmptyName));
}

#[test]
fn trailing_slashes_are_ignored() {
    assert_eq!(get_pak_path("some/dir/").unwrap(), "DataAsset/dir");
    assert_eq!(get_pak_path("a/Cargos.uasset//").unwrap(), "DataAsset/Cargos.uasset");
}

#[test]
fn dot_and_dot_dot_name_no_file() {
    assert_eq!(get_pak_path("a/.."), Err(ClassifyError::EmptyName));
    assert_eq!(get_pak_path(".."), Err(ClassifyError::EmptyName));
    assert_eq!(get_pak_path("."), Err(ClassifyError::EmptyName));
    assert_eq!(get_pak_path("a/../"), Err(ClassifyError::EmptyName));
}

#[test]
fn companion_path_swaps_the_extension() {
    assert_eq!(
        companion_path("Objects/Mission/Delivery/DeliveryPoint/Factory_Cheese.uasset").unwrap(),
        "Objects/Mission/Delivery/DeliveryPoint/Factory_Cheese.uexp"
    );
    assert_eq!(companion_path("DataAsset/Cargos.uexp"), None);
    assert_eq!(companion_path("plain"), None);
}
