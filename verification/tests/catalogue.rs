use pv_db::catalogue::{Advance, Pulled, PvDb, PvDbVisitor};
use pv_db::schema::Entry;

/// A record with the required fields set and every optional field absent.
fn entry(song_name: &str, date: i32) -> Entry {
    Entry {
        song_name: song_name.to_string(),
        song_name_en: String::new(),
        song_name_reading: String::new(),
        song_name_reading_en: None,
        bpm: None,
        song_file_name: String::new(),
        date: date,
        difficulty: None,
        remix_parent: None,
        mdata: None,
        lyric: None,
        lyric_en: None,
        sabi: None,
        edit: None,
        disable_calc_motfrm_limit: None,
        performer: None,
        chrcam: None,
        chrmot: None,
        chreff: None,
        eyes_xrot_adjust: false,
        is_old_pv: false,
        eyes_base_adjust_type: None,
        eyes_rot_rate: None,
        se_name: None,
        pvbranch_success_se_name: None,
        slide_name: None,
        chainslide_first_name: None,
        chainslide_sub_name: None,
        chainslide_success_name: None,
        chainslide_failure_name: None,
        slidertouch_name: None,
        motion: None,
        motion_2p: None,
        motion_3p: None,
        motion_4p: None,
        motion_5p: None,
        motion_6p: None,
        npr: None,
        pv_item: None,
        hand_item: None,
        edit_effect: None,
        edit_effect_low_field: None,
        title_image: None,
        songinfo: None,
        songinfo_en: None,
        movie_list: None,
        movie_file_name: None,
        movie_surface: None,
        movie_pv_type: None,
        effect_se_file_name: None,
        effect_se_name_list: None,
        high_speed_rate: None,
        hidden_timing: None,
        sudden_timing: None,
        edit_chara_scale: false,
        ex_song: None,
        osage_init: None,
        stage_param: None,
        disp2d: None,
        use_osage_play_data: false,
        pv_expression: None,
        another_song: None,
        pre_play_script: false,
        frame_texture: None,
        frame_texture_a: None,
        frame_texture_b: None,
        frame_texture_c: None,
        frame_texture_d: None,
        frame_texture_e: None,
        frame_texture_type: None,
        frame_texture_a_type: None,
        frame_texture_b_type: None,
        frame_texture_c_type: None,
        frame_texture_d_type: None,
        frame_texture_e_type: None,
        auth_replace_by_module: None,
        pack: None,
        rank_board_id: None,
        resolution_scale: None,
        resolution_scale_neo: None,
    }
}

fn pulled(key: &str, song_name: &str) -> Pulled {
    Pulled::Entry(key.to_string(), entry(song_name, 20090702))
}

fn names(db: &PvDb) -> Vec<(u32, String)> {
    db.pvs.iter().map(|(id, entry)| (*id, entry.song_name.clone())).collect()
}

#[test]
fn empty_stream_gives_empty_catalogue() {
    let db = PvDbVisitor::visit_map(vec![]);
    assert!(db.pvs.is_empty());
    let db = PvDbVisitor::visit_map(vec![Pulled::End]);
    assert!(db.pvs.is_empty());
}

#[test]
fn two_entries_are_ordered_by_identifier() {
    let db = PvDbVisitor::visit_map(vec![pulled("pv_010", "ten"), pulled("pv_001", "one"), Pulled::End]);
    assert_eq!(names(&db), vec![(1, "one".to_string()), (10, "ten".to_string())]);
    let db = PvDbVisitor::visit_map(vec![pulled("pv_001", "one"), pulled("pv_010", "ten"), Pulled::End]);
    assert_eq!(names(&db), vec![(1, "one".to_string()), (10, "ten".to_string())]);
}

#[test]
fn identifiers_come_out_ascending() {
    let db = PvDbVisitor::visit_map(vec![
        pulled("pv_832", "c"),
        pulled("pv_007", "a"),
        pulled("pv_4294967295", "d"),
        pulled("pv_010", "b"),
        pulled("pv_0", "z"),
    ]);
    assert_eq!(db.identifiers(), vec![0, 7, 10, 832, 4294967295]);
}

#[test]
fn identifiers_of_empty_catalogue_are_none() {
    let db = PvDbVisitor::visit_map(vec![]);
    assert_eq!(db.identifiers(), Vec::<u32>::new());
}

#[test]
fn failed_entry_does_not_stop_the_assembly() {
    let db = PvDbVisitor::visit_map(vec![Pulled::Failed, pulled("pv_002", "good"), Pulled::End]);
    assert_eq!(names(&db), vec![(2, "good".to_string())]);
    let db = PvDbVisitor::visit_map(vec![pulled("pv_002", "good"), Pulled::Failed, Pulled::End]);
    assert_eq!(names(&db), vec![(2, "good".to_string())]);
}

#[test]
fn many_failed_entries_are_all_skipped() {
    let db = PvDbVisitor::visit_map(vec![
        Pulled::Failed,
        Pulled::Failed,
        pulled("pv_001", "a"),
        Pulled::Failed,
        pulled("pv_003", "c"),
        Pulled::Failed,
    ]);
    assert_eq!(names(&db), vec![(1, "a".to_string()), (3, "c".to_string())]);
}

#[test]
fn entry_without_identifier_is_dropped() {
    let db = PvDbVisitor::visit_map(vec![
        pulled("pv_abc", "letters"),
        pulled("pv_", "empty"),
        pulled("pv_4294967296", "too large"),
        pulled("module_001", "other prefix"),
        pulled("12", "no prefix"),
        pulled("pv_012", "kept"),
        Pulled::End,
    ]);
    assert_eq!(names(&db), vec![(12, "kept".to_string())]);
}

#[test]
fn later_entry_replaces_earlier_one() {
    let db = PvDbVisitor::visit_map(vec![
        pulled("pv_005", "first"),
        pulled("pv_006", "other"),
        pulled("pv_5", "second"),
        Pulled::End,
    ]);
    assert_eq!(names(&db), vec![(5, "second".to_string()), (6, "other".to_string())]);
}

#[test]
fn keys_that_differ_only_in_zeros_share_an_identifier() {
    let db = PvDbVisitor::visit_map(vec![pulled("pv_1", "a"), pulled("pv_01", "b"), pulled("pv_001", "c")]);
    assert_eq!(names(&db), vec![(1, "c".to_string())]);
}

#[test]
fn nothing_after_the_end_is_visited() {
    let db = PvDbVisitor::visit_map(vec![pulled("pv_001", "a"), Pulled::End, pulled("pv_002", "b"), pulled("pv_001", "c")]);
    assert_eq!(names(&db), vec![(1, "a".to_string())]);
}

#[test]
fn record_fields_are_kept_as_decoded() {
    let mut record = entry("name", 20100101);
    record.bpm = Some(120);
    record.is_old_pv = true;
    record.lyric = Some(vec!["la".to_string(), "li".to_string()]);
    let db = PvDbVisitor::visit_map(vec![Pulled::Entry("pv_042".to_string(), record), Pulled::End]);
    let kept = &db.pvs[&42];
    assert_eq!(kept.song_name, "name");
    assert_eq!(kept.date, 20100101);
    assert_eq!(kept.bpm, Some(120));
    assert!(kept.is_old_pv);
    assert_eq!(kept.lyric, Some(vec!["la".to_string(), "li".to_string()]));
    assert_eq!(kept.song_name_reading_en, None);
}

#[test]
fn visiting_step_by_step_asks_to_pull_until_the_end() {
    let mut visitor = PvDbVisitor::new();
    assert_eq!(visitor.visit(pulled("pv_003", "c")), Advance::Pull);
    assert_eq!(visitor.visit(Pulled::Failed), Advance::Pull);
    assert_eq!(visitor.visit(pulled("pv_xyz", "dropped")), Advance::Pull);
    assert_eq!(visitor.visit(pulled("pv_001", "a")), Advance::Pull);
    assert_eq!(visitor.visit(Pulled::End), Advance::Stop);
    let db = visitor.finish();
    assert_eq!(names(&db), vec![(1, "a".to_string()), (3, "c".to_string())]);
}

#[test]
fn visitor_without_pulls_finishes_empty() {
    let db = PvDbVisitor::new().finish();
    assert!(db.pvs.is_empty());
}

#[test]
fn step_by_step_and_whole_stream_agree() {
    let stream = || vec![
        pulled("pv_020", "t"),
        Pulled::Failed,
        pulled("pv_002", "b"),
        pulled("pv_20", "u"),
        pulled("bad", "x"),
        Pulled::End,
        pulled("pv_999", "late"),
    ];
    let whole = PvDbVisitor::visit_map(stream());
    let mut visitor = PvDbVisitor::new();
    for pulled in stream() {
        if visitor.visit(pulled) == Advance::Stop {
            break;
        }
    }
    let stepped = visitor.finish();
    assert_eq!(names(&whole), names(&stepped));
    assert_eq!(names(&whole), vec![(2, "b".to_string()), (20, "u".to_string())]);
}

#[test]
fn decoding_the_same_stream_twice_gives_the_same_catalogue() {
    let stream = || vec![pulled("pv_002", "b"), Pulled::Failed, pulled("pv_001", "a"), Pulled::End];
    let first = PvDbVisitor::visit_map(stream());
    let second = PvDbVisitor::visit_map(stream());
    assert_eq!(first.identifiers(), second.identifiers());
    assert_eq!(names(&first), names(&second));
}

#[test]
fn catalogue_can_be_cloned() {
    let db = PvDbVisitor::visit_map(vec![pulled("pv_001", "a")]);
    let copy = db.clone();
    assert_eq!(names(&db), names(&copy));
}
