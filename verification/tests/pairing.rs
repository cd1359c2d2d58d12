use paramex_gui::pairing::{device_base_name, dibl_pair_key, dibl_role_token, vd_bias_token};

/// The normalized file stem, as the science library computes it: the name
/// without its extension, lower-cased, with `_` and spaces as `-`.
fn stem(name: &str) -> String {
    let base = match name.rfind('.') {
        Some(dot) => &name[..dot],
        None => name,
    };
    base.to_lowercase().replace(['_', ' '], "-")
}

#[test]
fn device_base_name_strips_transfer_and_output_roles() {
    assert_eq!(device_base_name(&stem("dev1_transfer.csv")), "dev1");
    assert_eq!(device_base_name(&stem("Wafer3_output.xlsx")), "wafer3");
    assert_eq!(device_base_name(&stem("dev A id-vd.txt")), "dev-a");
    assert_eq!(device_base_name(&stem("2-6o.xlsx")), "2-6");
    assert_eq!(device_base_name(&stem("plain.txt")), "plain");
}

#[test]
fn dibl_pair_key_strips_bias_roles_and_b1500a_timestamps() {
    assert_eq!(dibl_pair_key(&stem("Id-Vg-high [(1) ; 5_1_2024 4_13_47 PM].csv")), "id-vg-[(1)");
    assert_eq!(dibl_pair_key(&stem("Id-Vg-low [(1) ; 5_1_2024 4_15_21 PM].csv")), "id-vg-[(1)");
    assert_eq!(dibl_pair_key(&stem("Id-Vg-VD40 [(7) ; 5_1_2024.csv")), "id-vg-[(7)");
    assert_eq!(dibl_pair_key(&stem("Id-Vg-VD2V [(7) ; 5_1_2024.csv")), "id-vg-[(7)");
}

#[test]
fn device_base_name_strips_role_suffixes_of_normalized_stems() {
    assert_eq!(device_base_name("dev1-transfer"), "dev1");
    assert_eq!(device_base_name("wafer3-output"), "wafer3");
    assert_eq!(device_base_name("dev-a-id-vd"), "dev-a");
    assert_eq!(device_base_name("dev-a-idvg"), "dev-a");
    assert_eq!(device_base_name("2-6o"), "2-6");
    assert_eq!(device_base_name("radio"), "radio");
    assert_eq!(device_base_name("plain"), "plain");
}

#[test]
fn dibl_pair_key_strips_bias_roles_and_timestamps() {
    assert_eq!(
        dibl_pair_key("id-vg-high-[(1)-;-5-1-2024-4-13-47-pm]"),
        "id-vg-[(1)"
    );
    assert_eq!(
        dibl_pair_key("id-vg-low-[(1)-;-5-1-2024-4-15-21-pm]"),
        "id-vg-[(1)"
    );
    assert_eq!(dibl_pair_key("id-vg-vd40-[(7)-;-5-1-2024"), "id-vg-[(7)");
    assert_eq!(dibl_pair_key("id-vg-vd2v-[(7)-;-5-1-2024"), "id-vg-[(7)");
    assert_eq!(dibl_pair_key("high-low"), "high-low");
    assert_eq!(dibl_pair_key("dev--b"), "dev--b");
}

#[test]
fn role_tokens() {
    assert!(dibl_role_token("high"));
    assert!(dibl_role_token("low"));
    assert!(vd_bias_token("vd0.1v"));
    assert!(vd_bias_token("vd40"));
    assert!(!vd_bias_token("vd"));
    assert!(!vd_bias_token("vdv"));
    assert!(!vd_bias_token("vdx"));
    assert!(!dibl_role_token("dev"));
}
