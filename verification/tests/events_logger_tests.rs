use event_engine::application::AppConfig;
use event_engine::events::{Data, Event, Sender};
use event_engine::logger::{get_level_color, get_level_string, LogLevel};

struct Producer;

impl Sender for Producer {}

#[test]
fn create_event_carries_code_and_payload() {
    let event = Producer::create_event(9, Data { lo: 1, hi: 2 });
    assert_eq!(event.code, 9);
    assert_eq!(event.data, Data { lo: 1, hi: 2 });
}

#[test]
fn default_event_is_all_zero() {
    let event = Event::default();
    assert_eq!(event.code, 0);
    assert_eq!(event.data, Data { lo: 0, hi: 0 });
}

#[test]
fn level_colors_match_their_ansi_codes() {
    assert_eq!(get_level_color(LogLevel::LogLevelFatal), 30);
    assert_eq!(get_level_color(LogLevel::LogLevelError), 31);
    assert_eq!(get_level_color(LogLevel::LogLevelWarn), 33);
    assert_eq!(get_level_color(LogLevel::LogLevelInfo), 32);
    assert_eq!(get_level_color(LogLevel::LogLevelDebug), 34);
    assert_eq!(get_level_color(LogLevel::LogLevelTrace), 36);
}

#[test]
fn level_strings_match_their_tags() {
    assert_eq!(get_level_string(LogLevel::LogLevelFatal), "FATAL");
    assert_eq!(get_level_string(LogLevel::LogLevelError), "ERROR");
    assert_eq!(get_level_string(LogLevel::LogLevelWarn), "WARN");
    assert_eq!(get_level_string(LogLevel::LogLevelInfo), "INFO");
    assert_eq!(get_level_string(LogLevel::LogLevelDebug), "DEBUG");
    assert_eq!(get_level_string(LogLevel::LogLevelTrace), "TRACE");
}

#[test]
fn app_config_keeps_its_fields() {
    let config = AppConfig::new("Game", 10, 20, 800, 600);
    assert_eq!(config.app_name, "Game");
    assert_eq!(config.x, 10);
    assert_eq!(config.y, 20);
    assert_eq!(config.width, 800);
    assert_eq!(config.height, 600);
}
