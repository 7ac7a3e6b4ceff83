use ajax::config::{select_ecu, UnknownEcu};
use ajax::types::{ConfigFile, EcuDefinition};

fn ecu(name: &str, label: &str) -> EcuDefinition {
    EcuDefinition {
        name: name.to_string(),
        label: label.to_string(),
        request_id: "0x7E0".to_string(),
        response_id: "0x7E8".to_string(),
        write_data_id: "0x7E1".to_string(),
        application_boot_request_id: "0x100".to_string(),
        application_boot_request_data: "01".to_string(),
    }
}

fn config() -> ConfigFile {
    ConfigFile {
        supported_bit_rates: vec![250_000, 500_000],
        ecus: vec![ecu("BMS", "Battery"), ecu("VCU", "Vehicle"), ecu("bms", "Other battery")],
    }
}

#[test]
fn an_ecu_is_found_by_its_name() {
    assert_eq!(select_ecu(&config(), "VCU").unwrap().label, "Vehicle");
}

#[test]
fn the_case_of_a_name_does_not_count_and_the_first_ecu_wins() {
    assert_eq!(select_ecu(&config(), "bms").unwrap().label, "Battery");
    assert_eq!(select_ecu(&config(), "vCu").unwrap().label, "Vehicle");
}

#[test]
fn only_ascii_letters_have_their_case_ignored() {
    let config = ConfigFile { supported_bit_rates: vec![], ecus: vec![ecu("É", "Accent")] };
    assert_eq!(select_ecu(&config, "É").unwrap().label, "Accent");
    assert_eq!(select_ecu(&config, "é").unwrap_err(), UnknownEcu);
}

#[test]
fn an_unknown_name_finds_nothing() {
    assert_eq!(select_ecu(&config(), "BM").unwrap_err(), UnknownEcu);
    assert_eq!(select_ecu(&config(), "BMSX").unwrap_err(), UnknownEcu);
    assert_eq!(select_ecu(&config(), "").unwrap_err(), UnknownEcu);
}

#[test]
fn bit_rates_are_looked_up_in_the_list() {
    assert!(config().supports_bit_rate(250_000));
    assert!(config().supports_bit_rate(500_000));
    assert!(!config().supports_bit_rate(125_000));
    assert!(!config().supports_bit_rate(0));
}
