use rst::export::{get_cmd, ExportType};
use rst::logging::{log_level, LevelFilter};
use rst::types::LoadError;

#[test]
fn get_cmd_accepts_html_in_any_case() {
    assert!(get_cmd(Some("out"), Some("html")).is_ok());
    assert!(get_cmd(Some("out"), Some("HTML")).is_ok());
    assert!(get_cmd(Some("out"), Some("HtMl")).is_ok());
    let _ = ExportType::Html;
}

#[test]
fn get_cmd_errors() {
    assert_eq!(get_cmd(None, Some("html")).err().unwrap(), "no path selected");
    assert_eq!(get_cmd(Some("out"), None).err().unwrap(), "no export type selected");
    assert_eq!(get_cmd(Some("out"), Some("PDF")).err().unwrap(), "invalid type selected: pdf");
    assert_eq!(get_cmd(None, None).err().unwrap(), "no path selected");
}

#[test]
fn log_levels() {
    assert_eq!(log_level(true, 0), LevelFilter::Off);
    assert_eq!(log_level(true, 9), LevelFilter::Off);
    assert_eq!(log_level(false, 0), LevelFilter::Warn);
    assert_eq!(log_level(false, 1), LevelFilter::Info);
    assert_eq!(log_level(false, 2), LevelFilter::Debug);
    assert_eq!(log_level(false, 3), LevelFilter::Trace);
}

#[test]
fn load_error_new() {
    let e = LoadError::new("oops".to_string());
    assert_eq!(e.desc, "oops");
}
