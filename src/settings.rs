//! The settings the view and the highlighter take, with their defaults.
use vstd::prelude::*;
use crate::highlighter::HighlightSetting;

verus! {

/// Lines per index chunk, and the radius of a cached window, unless the
/// settings say otherwise.
pub const DEF_CACHE_RANGE: u64 = 500;

#[derive(Debug)]
pub struct FontSettings {
    pub size: i32,
    pub name: String,
    pub italic: bool,
}

impl Default for FontSettings {
    fn default() -> (r: Self)
        ensures
            r.size == 8,
            r.name@ == "Consolas"@,
            !r.italic,
    {
        FontSettings { size: 8, name: "Consolas".to_owned(), italic: false }
    }
}

#[derive(Debug)]
pub struct Settings {
    pub font: FontSettings,
    pub cache_size: u64,
    pub file_buffer_mb: usize,
    pub max_nb_of_ui_threads: usize,
    pub max_nb_of_lines_to_copy: u32,
    pub default_highlights: Option<Vec<HighlightSetting>>,
    pub keep_search_res_in_mem_until: Option<usize>,
}

impl Default for Settings {
    fn default() -> (r: Self)
        ensures
            r.cache_size == DEF_CACHE_RANGE,
            r.file_buffer_mb == 8,
            r.max_nb_of_ui_threads == 64,
            r.max_nb_of_lines_to_copy == 2500,
            r.font.size == 8 && r.font.name@ == "Consolas"@ && !r.font.italic,
            r.default_highlights is None,
            r.keep_search_res_in_mem_until == Some(33554432usize),
    {
        Settings {
            cache_size: DEF_CACHE_RANGE,
            file_buffer_mb: 8,
            max_nb_of_ui_threads: 64,
            max_nb_of_lines_to_copy: 2500,
            font: FontSettings::default(),
            default_highlights: None,
            keep_search_res_in_mem_until: Some(32 * 1024 * 1024),
        }
    }
}

} // verus!
