//! The typed records of the catalogue.
//!
//! Every field is either required or optional. Optional fields are `Option`s
//! that are `None` when the source text has no value for them; boolean fields
//! follow the integer encoding of [`crate::coerce::diva_bool`], so an absent
//! value and any integer other than 1 both read as `false`.

use vstd::prelude::*;

verus! {

/// A single-precision number, held by its IEEE-754 bit pattern.
#[derive(Debug, Clone, Copy, PartialEq, Eq)]
pub struct F32Bits {
    pub bits: u32,
}

/// One chart of a song: its script, its rating, and what it overrides of the
/// entry it belongs to.
#[derive(Debug, Clone)]
pub struct Difficulty {
    pub script_file_name: String,
    pub attribute: Option<DifficultyAttribute>,
    pub edition: Option<i32>,
    pub is_ps4dlc: bool,
    pub level: Option<Level>,
    pub level_sort_index: Option<i32>,
    pub se_name: Option<String>,
    pub pvbranch_success_se_name: Option<String>,
    pub slide_name: Option<String>,
    pub chainslide_first_name: Option<String>,
    pub chainslide_sub_name: Option<String>,
    pub chainslide_success_name: Option<String>,
    pub chainslide_failure_name: Option<String>,
    pub slidertouch_name: Option<String>,
    pub motion: Option<Vec<String>>,
    pub motion_2p: Option<Vec<String>>,
    pub motion_3p: Option<Vec<String>>,
    pub motion_4p: Option<Vec<String>>,
    pub motion_5p: Option<Vec<String>>,
    pub motion_6p: Option<Vec<String>>,
    pub npr: Option<Npr>,
    pub pv_item: Option<Vec<String>>,
    pub hand_item: Option<Vec<String>>,
    pub edit_effect: Option<Vec<String>>,
    pub edit_effect_low_field: Option<Vec<i32>>,
    pub title_image: Option<TitleImage>,
    pub songinfo: Option<SongInfo>,
    pub songinfo_en: Option<SongInfo>,
    pub movie_file_name: Option<String>,
    pub movie_surface: Option<MovieSurface>,
    pub movie_pv_type: Option<MoviePvType>,
    pub effect_se_file_name: Option<String>,
    pub version: Option<i32>,
    pub high_speed_rate: Option<F32Bits>,
    pub hidden_timing: Option<F32Bits>,
    pub sudden_timing: Option<F32Bits>,
    pub edit_chara_scale: bool,
}

/// How a movie is combined with the rendered scene.
#[derive(Debug, Clone)]
pub enum MoviePvType {
    Only,
    Alternately,
    Parallel,
    Effect,
}

/// Whether a movie plays behind the scene or in front of it.
#[derive(Debug, Clone)]
pub enum MovieSurface {
    Back,
    Front,
}

/// A movie file that an entry names.
#[derive(Debug, Clone)]
pub struct MovieList {
    pub name: String,
}

/// The credits of a song.
#[derive(Debug, Clone)]
pub struct SongInfo {
    pub music: Option<String>,
    pub illustrator: Option<String>,
    pub lyrics: Option<String>,
    pub arranger: Option<String>,
    pub manipulator: Option<String>,
    pub pv_editor: Option<String>,
    pub guitar_player: Option<String>,
    pub ex_info: Option<Vec<ExInfo>>,
}

/// A further credit, as a pair of label and name.
#[derive(Debug, Clone)]
pub struct ExInfo {
    pub key: String,
    pub val: String,
}

/// When the title image of a song is shown, and which.
#[derive(Debug, Clone)]
pub struct TitleImage {
    pub time: Option<F32Bits>,
    pub end_time: Option<F32Bits>,
    pub aet_name: Option<String>,
}

/// Settings of the toon rendering of a song.
#[derive(Debug, Clone)]
pub struct Npr {
    pub chara_lightness: F32Bits,
}

/// The star rating of a chart, in half stars from 0 to 10.
#[derive(Debug, Clone, PartialEq, PartialOrd)]
#[allow(non_camel_case_types)]
pub enum Level {
    PV_LV_00_0,
    PV_LV_00_5,
    PV_LV_01_0,
    PV_LV_01_5,
    PV_LV_02_0,
    PV_LV_02_5,
    PV_LV_03_0,
    PV_LV_03_5,
    PV_LV_04_0,
    PV_LV_04_5,
    PV_LV_05_0,
    PV_LV_05_5,
    PV_LV_06_0,
    PV_LV_06_5,
    PV_LV_07_0,
    PV_LV_07_5,
    PV_LV_08_0,
    PV_LV_08_5,
    PV_LV_09_0,
    PV_LV_09_5,
    PV_LV_10_0,
}

impl Level {
    /// The difficulty rating as it is displayed: the number of stars, with
    /// half stars written as `.5`.
    pub open spec fn label(self) -> Seq<char> {
        match self {
            Level::PV_LV_00_0 => "0"@,
            Level::PV_LV_00_5 => "0.5"@,
            Level::PV_LV_01_0 => "1"@,
            Level::PV_LV_01_5 => "1.5"@,
            Level::PV_LV_02_0 => "2"@,
            Level::PV_LV_02_5 => "2.5"@,
            Level::PV_LV_03_0 => "3"@,
            Level::PV_LV_03_5 => "3.5"@,
            Level::PV_LV_04_0 => "4"@,
            Level::PV_LV_04_5 => "4.5"@,
            Level::PV_LV_05_0 => "5"@,
            Level::PV_LV_05_5 => "5.5"@,
            Level::PV_LV_06_0 => "6"@,
            Level::PV_LV_06_5 => "6.5"@,
            Level::PV_LV_07_0 => "7"@,
            Level::PV_LV_07_5 => "7.5"@,
            Level::PV_LV_08_0 => "8"@,
            Level::PV_LV_08_5 => "8.5"@,
            Level::PV_LV_09_0 => "9"@,
            Level::PV_LV_09_5 => "9.5"@,
            Level::PV_LV_10_0 => "10"@,
        }
    }

    /// Renders the rating as text.
    pub fn to_string(&self) -> (text: String)
        ensures
            text@ == self.label(),
    {
        match self {
            Level::PV_LV_00_0 => "0".to_owned(),
            Level::PV_LV_00_5 => "0.5".to_owned(),
            Level::PV_LV_01_0 => "1".to_owned(),
            Level::PV_LV_01_5 => "1.5".to_owned(),
            Level::PV_LV_02_0 => "2".to_owned(),
            Level::PV_LV_02_5 => "2.5".to_owned(),
            Level::PV_LV_03_0 => "3".to_owned(),
            Level::PV_LV_03_5 => "3.5".to_owned(),
            Level::PV_LV_04_0 => "4".to_owned(),
            Level::PV_LV_04_5 => "4.5".to_owned(),
            Level::PV_LV_05_0 => "5".to_owned(),
            Level::PV_LV_05_5 => "5.5".to_owned(),
            Level::PV_LV_06_0 => "6".to_owned(),
            Level::PV_LV_06_5 => "6.5".to_owned(),
            Level::PV_LV_07_0 => "7".to_owned(),
            Level::PV_LV_07_5 => "7.5".to_owned(),
            Level::PV_LV_08_0 => "8".to_owned(),
            Level::PV_LV_08_5 => "8.5".to_owned(),
            Level::PV_LV_09_0 => "9".to_owned(),
            Level::PV_LV_09_5 => "9.5".to_owned(),
            Level::PV_LV_10_0 => "10".to_owned(),
        }
    }
}

/// Flags that mark a chart as original, extra or played with slides.
#[derive(Debug, Clone)]
pub struct DifficultyAttribute {
    pub original: bool,
    pub extra: bool,
    pub slide: bool,
}

/// The charts of a song, by difficulty.
#[derive(Debug, Clone)]
pub struct Difficulties {
    pub attribute: Option<DifficultyAttribute>,
    pub easy: Option<Vec<Difficulty>>,
    pub normal: Option<Vec<Difficulty>>,
    pub hard: Option<Vec<Difficulty>>,
    pub extreme: Option<Vec<Difficulty>>,
    pub encore: Option<Vec<Difficulty>>,
}

/// Where the data of an added song is found.
#[derive(Debug, Clone)]
pub struct Mdata {
    pub flag: Option<i32>,
    pub dir: Option<String>,
}

/// The part of a song that is played as its preview.
#[derive(Debug, Clone)]
pub struct Sabi {
    pub start_time: Option<F32Bits>,
    pub play_time: Option<F32Bits>,
}

/// One performer of a song and what they wear.
#[derive(Debug, Clone)]
pub struct Perfomer {
    pub performer_type: Option<PerformerType>,
    pub chara: Option<Chara>,
    pub costume: Option<i32>,
    pub pv_costume: Option<i32>,
    pub fixed: bool,
    pub pseudo_same_id: Option<i32>,
    pub exclude: Option<i32>,
    pub size: Option<PerformerSize>,
    pub item_zujo: Option<i32>,
    pub item_face: Option<i32>,
    pub item_neck: Option<i32>,
    pub item_back: Option<i32>,
}

/// The body size a performer is shown with.
#[derive(Debug, Clone)]
pub enum PerformerSize {
    Normal,
    PlayChara,
    PvChara,
    Short,
    Tall,
}

/// The part a performer has in a song.
#[derive(Debug, Clone)]
pub enum PerformerType {
    Vocal,
    PseudoDefault,
    PseudoSame,
    PseudoSwim,
    PseudoSwimS,
    PseudoMyChara,
    Guest,
}

/// A character.
#[derive(Debug, Clone)]
pub enum Chara {
    Rin,
    Len,
    Luka,
    Neru,
    Haku,
    Kaito,
    Meiko,
    Sakine,
    Teto,
    Extra,
    Miku,
}

impl Default for Chara {
    /// The character assumed when none is named.
    fn default() -> (chara: Chara)
        ensures
            chara == Chara::Miku,
    {
        Chara::Miku
    }
}

/// A camera that is replaced for one character.
#[derive(Debug, Clone)]
pub struct ChrCam {
    pub id: Option<i32>,
    pub chara: Option<Chara>,
    pub org_name: Option<String>,
    pub name: Option<String>,
}

/// A motion that is replaced for one character.
#[derive(Debug, Clone)]
pub struct ChrMot {
    pub id: Option<i32>,
    pub chara: Option<Chara>,
    pub org_name: Option<String>,
    pub name: Option<String>,
}

/// One effect of a character: its kind and its name.
#[derive(Debug, Clone)]
pub struct ChrEffData {
    pub data_type: Option<ChrEffType>,
    pub name: Option<String>,
}

/// The kind of an effect of a character.
#[derive(Debug, Clone)]
pub enum ChrEffType {
    Auth3D,
    Auth3DObj,
}

/// The effects that belong to one character.
#[derive(Debug, Clone)]
pub struct ChrEff {
    pub id: Option<i32>,
    pub name: Option<Chara>,
    pub data: Option<Vec<ChrEffData>>,
}

/// How the eyes of a character are adjusted.
#[derive(Debug, Clone)]
pub enum EyesAdjust {
    Direction,
    Clearance,
    Off,
}

/// How far the eyes of one character turn.
#[derive(Debug, Clone)]
pub struct EyesRotRate {
    pub chara: Chara,
    pub xp_rate: F32Bits,
    pub xn_rate: F32Bits,
}

/// A scene that is replaced in an alternative version of a song.
#[derive(Debug, Clone)]
pub struct ExAuth {
    pub org_name: String,
    pub name: String,
}

/// An alternative version of a song for other performers.
#[derive(Debug, Clone)]
pub struct ExSong {
    pub chara: Chara,
    pub chara2: Option<Chara>,
    pub chara3: Option<Chara>,
    pub chara4: Option<Chara>,
    pub chara5: Option<Chara>,
    pub chara6: Option<Chara>,
    pub file: String,
    pub name: Option<String>,
    pub name_en: Option<String>,
    pub ex_auth: Option<Vec<ExAuth>>,
}

/// The motion frame from which hair and cloth start to move on a stage.
#[derive(Debug, Clone)]
pub struct OsageInit {
    pub motion: String,
    pub frame: i32,
    pub stage: String,
}

/// Files that set up the physics of a stage.
#[derive(Debug, Clone)]
pub struct StageParam {
    pub stage: Option<String>,
    pub mhd_id: Option<i32>,
    pub collision_file: Option<String>,
    pub wind_file: Option<String>,
}

/// What is drawn in two dimensions over a song, and when.
#[derive(Debug, Clone)]
pub struct Disp2D {
    pub set_name: Option<String>,
    pub target_shadow_type: Option<i32>,
    pub title_start_2d_field: Option<i32>,
    pub title_end_2d_field: Option<i32>,
    pub title_start_2d_low_field: Option<i32>,
    pub title_end_2d_low_field: Option<i32>,
    pub title_start_3d_field: Option<i32>,
    pub title_end_3d_field: Option<i32>,
    pub title_2d_layer: Option<String>,
}

/// The file that holds the facial expressions of a song.
#[derive(Debug, Clone)]
pub struct PvExpression {
    pub file_name: Option<String>,
}

/// Another vocal version of a song.
#[derive(Debug, Clone)]
pub struct AnotherSong {
    pub name: Option<String>,
    pub name_en: Option<String>,
    pub song_file_name: Option<String>,
    pub vocal_disp_name: Option<String>,
    pub vocal_disp_name_en: Option<String>,
    pub vocal_chara_num: Option<i32>,
}

/// At which stage of rendering a frame texture is taken.
#[derive(Debug, Clone)]
pub enum FrameTextureType {
    PrePp,
    PostPp,
    Fb,
}

/// A scene that is replaced when a given costume is worn.
#[derive(Debug, Clone)]
pub struct AuthReplaceByModule {
    pub id: Option<i32>,
    pub module_id: Option<i32>,
    pub org_name: Option<String>,
    pub name: Option<String>,
}

/// One song of the catalogue.
///
/// The name, its reading, the song file and the date are required; a record
/// without one of them does not decode. Everything else is optional.
#[derive(Debug, Clone)]
pub struct Entry {
    pub song_name: String,
    pub song_name_en: String,
    pub song_name_reading: String,
    pub song_name_reading_en: Option<String>,
    pub bpm: Option<i32>,
    pub song_file_name: String,
    pub date: i32,
    pub difficulty: Option<Difficulties>,
    pub remix_parent: Option<i32>,
    pub mdata: Option<Mdata>,
    pub lyric: Option<Vec<String>>,
    pub lyric_en: Option<Vec<String>>,
    pub sabi: Option<Sabi>,
    pub edit: Option<i32>,
    pub disable_calc_motfrm_limit: Option<bool>,
    pub performer: Option<Vec<Perfomer>>,
    pub chrcam: Option<Vec<ChrCam>>,
    pub chrmot: Option<Vec<ChrMot>>,
    pub chreff: Option<Vec<ChrEff>>,
    pub eyes_xrot_adjust: bool,
    pub is_old_pv: bool,
    pub eyes_base_adjust_type: Option<EyesAdjust>,
    pub eyes_rot_rate: Option<Vec<EyesRotRate>>,
    pub se_name: Option<String>,
    pub pvbranch_success_se_name: Option<String>,
    pub slide_name: Option<String>,
    pub chainslide_first_name: Option<String>,
    pub chainslide_sub_name: Option<String>,
    pub chainslide_success_name: Option<String>,
    pub chainslide_failure_name: Option<String>,
    pub slidertouch_name: Option<String>,
    pub motion: Option<Vec<String>>,
    pub motion_2p: Option<Vec<String>>,
    pub motion_3p: Option<Vec<String>>,
    pub motion_4p: Option<Vec<String>>,
    pub motion_5p: Option<Vec<String>>,
    pub motion_6p: Option<Vec<String>>,
    pub npr: Option<Npr>,
    pub pv_item: Option<Vec<String>>,
    pub hand_item: Option<Vec<String>>,
    pub edit_effect: Option<Vec<String>>,
    pub edit_effect_low_field: Option<Vec<i32>>,
    pub title_image: Option<TitleImage>,
    pub songinfo: Option<SongInfo>,
    pub songinfo_en: Option<SongInfo>,
    pub movie_list: Option<Vec<MovieList>>,
    pub movie_file_name: Option<String>,
    pub movie_surface: Option<MovieSurface>,
    pub movie_pv_type: Option<MoviePvType>,
    pub effect_se_file_name: Option<String>,
    pub effect_se_name_list: Option<Vec<String>>,
    pub high_speed_rate: Option<F32Bits>,
    pub hidden_timing: Option<F32Bits>,
    pub sudden_timing: Option<F32Bits>,
    pub edit_chara_scale: bool,
    pub ex_song: Option<Vec<ExSong>>,
    pub osage_init: Option<Vec<OsageInit>>,
    pub stage_param: Option<Vec<StageParam>>,
    pub disp2d: Option<Disp2D>,
    pub use_osage_play_data: bool,
    pub pv_expression: Option<PvExpression>,
    pub another_song: Option<Vec<AnotherSong>>,
    pub pre_play_script: bool,
    pub frame_texture: Option<String>,
    pub frame_texture_a: Option<String>,
    pub frame_texture_b: Option<String>,
    pub frame_texture_c: Option<String>,
    pub frame_texture_d: Option<String>,
    pub frame_texture_e: Option<String>,
    pub frame_texture_type: Option<FrameTextureType>,
    pub frame_texture_a_type: Option<FrameTextureType>,
    pub frame_texture_b_type: Option<FrameTextureType>,
    pub frame_texture_c_type: Option<FrameTextureType>,
    pub frame_texture_d_type: Option<FrameTextureType>,
    pub frame_texture_e_type: Option<FrameTextureType>,
    pub auth_replace_by_module: Option<Vec<AuthReplaceByModule>>,
    pub pack: Option<i32>,
    pub rank_board_id: Option<i32>,
    pub resolution_scale: Option<F32Bits>,
    pub resolution_scale_neo: Option<F32Bits>,
}

} // verus!
