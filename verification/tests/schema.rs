use pv_db::schema::{Chara, F32Bits, Level};

#[test]
fn whole_levels_have_no_fraction() {
    assert_eq!(Level::PV_LV_00_0.to_string(), "0");
    assert_eq!(Level::PV_LV_01_0.to_string(), "1");
    assert_eq!(Level::PV_LV_02_0.to_string(), "2");
    assert_eq!(Level::PV_LV_03_0.to_string(), "3");
    assert_eq!(Level::PV_LV_04_0.to_string(), "4");
    assert_eq!(Level::PV_LV_05_0.to_string(), "5");
    assert_eq!(Level::PV_LV_06_0.to_string(), "6");
    assert_eq!(Level::PV_LV_07_0.to_string(), "7");
    assert_eq!(Level::PV_LV_08_0.to_string(), "8");
    assert_eq!(Level::PV_LV_09_0.to_string(), "9");
    assert_eq!(Level::PV_LV_10_0.to_string(), "10");
}

#[test]
fn half_levels_end_in_point_five() {
    assert_eq!(Level::PV_LV_00_5.to_string(), "0.5");
    assert_eq!(Level::PV_LV_01_5.to_string(), "1.5");
    assert_eq!(Level::PV_LV_02_5.to_string(), "2.5");
    assert_eq!(Level::PV_LV_03_5.to_string(), "3.5");
    assert_eq!(Level::PV_LV_04_5.to_string(), "4.5");
    assert_eq!(Level::PV_LV_05_5.to_string(), "5.5");
    assert_eq!(Level::PV_LV_06_5.to_string(), "6.5");
    assert_eq!(Level::PV_LV_07_5.to_string(), "7.5");
    assert_eq!(Level::PV_LV_08_5.to_string(), "8.5");
    assert_eq!(Level::PV_LV_09_5.to_string(), "9.5");
}

#[test]
fn levels_are_ordered_by_rating() {
    assert!(Level::PV_LV_00_0 < Level::PV_LV_00_5);
    assert!(Level::PV_LV_09_5 < Level::PV_LV_10_0);
    assert!(Level::PV_LV_03_0 == Level::PV_LV_03_0);
    assert!(Level::PV_LV_07_5 > Level::PV_LV_02_0);
}

#[test]
fn default_character_is_miku() {
    assert!(matches!(Chara::default(), Chara::Miku));
}

#[test]
fn float_bits_round_trip() {
    let rate = F32Bits { bits: 1.5f32.to_bits() };
    assert_eq!(f32::from_bits(rate.bits), 1.5f32);
    assert_eq!(rate, F32Bits { bits: 0x3fc0_0000 });
}
