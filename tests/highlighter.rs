use gorl::highlighter::{HighlightMatch, HighlightSetting, Highlighter};
use gorl::settings::{Settings, DEF_CACHE_RANGE};

fn rule(expr: &str, case_insensitive: bool, fg: u8, bg: u8) -> HighlightSetting {
    HighlightSetting {
        fg_color: (fg, fg, fg),
        bg_color: (bg, bg, bg),
        expr: expr.to_string(),
        case_insensitive,
    }
}

fn style(fg: u8, bg: u8) -> HighlightMatch {
    HighlightMatch { fg_color: (fg, fg, fg), bg_color: (bg, bg, bg) }
}

#[test]
fn first_matching_rule_wins() {
    let h = Highlighter::new(vec![rule("ERROR", false, 1, 2), rule("here", false, 3, 4)]);
    assert_eq!(h.matches("ERROR here"), Some(style(1, 2)));
    assert_eq!(h.matches("only here"), Some(style(3, 4)));
    assert_eq!(h.matches("nothing"), None);
}

#[test]
fn no_rules_no_style() {
    let h = Highlighter::new(Vec::new());
    assert_eq!(h.matches("ERROR"), None);
    assert_eq!(h.matches(""), None);
}

#[test]
fn broken_rule_is_dropped() {
    let h = Highlighter::new(vec![rule("(unclosed", false, 1, 1), rule("warn", false, 5, 6)]);
    assert_eq!(h.matches("warn: disk"), Some(style(5, 6)));
    assert_eq!(h.matches("(unclosed"), None);
}

#[test]
fn case_folding_follows_the_rule() {
    let h = Highlighter::new(vec![rule("error", true, 7, 8)]);
    assert_eq!(h.matches("An ERROR occurred"), Some(style(7, 8)));
    let strict = Highlighter::new(vec![rule("error", false, 7, 8)]);
    assert_eq!(strict.matches("An ERROR occurred"), None);
}

#[test]
fn broken_rule_first_keeps_the_rest() {
    let h = Highlighter::new(vec![rule("(", false, 1, 1), rule("ERR", false, 255, 0)]);
    assert_eq!(
        h.matches("ERR 42"),
        Some(HighlightMatch { fg_color: (255, 255, 255), bg_color: (0, 0, 0) })
    );
}

#[test]
fn later_rule_used_when_earlier_misses() {
    let h = Highlighter::new(vec![rule("a", false, 1, 1), rule("b", false, 2, 2), rule("c", false, 3, 3)]);
    assert_eq!(h.matches("xbc"), Some(style(2, 2)));
    assert_eq!(h.matches("abc"), Some(style(1, 1)));
    assert_eq!(h.matches("xyz"), None);
}

#[test]
fn default_settings() {
    let s = Settings::default();
    assert_eq!(s.cache_size, DEF_CACHE_RANGE);
    assert_eq!(s.cache_size, 500);
    assert_eq!(s.file_buffer_mb, 8);
    assert_eq!(s.max_nb_of_ui_threads, 64);
    assert_eq!(s.max_nb_of_lines_to_copy, 2500);
    assert_eq!(s.font.size, 8);
    assert_eq!(s.font.name, "Consolas");
    assert!(!s.font.italic);
    assert!(s.default_highlights.is_none());
    assert_eq!(s.keep_search_res_in_mem_until, Some(32 * 1024 * 1024));
}
