use yellow::audio::{is_audio_playing, play_audio, stop_audio, AudioPlayers};
use yellow::monitors::{select_work_area, Area, MonitorGeometry, MonitorInfo};
use yellow::layout::{next_position, reflow, NotificationPosition};
use yellow::plugin::{ping, PermissionType, PingRequest};
use yellow::script::{get_error_handler_script, DEBUG_FLAG_SCRIPT, ERROR_HANDLER_SCRIPT};

fn slot(id: usize, label: &str, y: u32, height: u32) -> NotificationPosition {
    NotificationPosition { id, label: label.to_string(), x: 5, y, height }
}

#[test]
fn play_audio_defaults_id_to_path() {
    assert_eq!(play_audio("a.mp3".to_string(), None, true), Ok("a.mp3".to_string()));
    assert_eq!(play_audio("a.mp3".to_string(), Some("x".to_string()), true), Ok("x".to_string()));
}

#[test]
fn play_audio_missing_file() {
    assert_eq!(
        play_audio("gone.wav".to_string(), Some("x".to_string()), false),
        Err("Audio file not found: gone.wav".to_string())
    );
}

#[test]
fn stop_audio_takes_the_sink() {
    let mut players: AudioPlayers<u32> = AudioPlayers::new();
    let id = "beep".to_string();
    assert!(!is_audio_playing(&players, &id));
    assert_eq!(players.insert(id.clone(), 7), None);
    assert!(is_audio_playing(&players, &id));
    assert_eq!(stop_audio(&mut players, &id), Some(7));
    assert!(!is_audio_playing(&players, &id));
    assert_eq!(stop_audio(&mut players, &id), None);
    assert_eq!(players.insert(id.clone(), 8), None);
    assert_eq!(players.insert(id.clone(), 9), Some(8));
    assert_eq!(players.entries.len(), 1);
    players.remove(&id);
    assert!(players.entries.is_empty());
    assert_eq!(stop_audio(&mut players, &"other".to_string()), None);
}

#[test]
fn error_handler_script_debug_marker() {
    let plain = get_error_handler_script(false);
    assert_eq!(plain, ERROR_HANDLER_SCRIPT);
    assert!(plain.contains("installing global error handlers"));
    let debug = get_error_handler_script(true);
    assert_eq!(debug, format!("{}{}", ERROR_HANDLER_SCRIPT, DEBUG_FLAG_SCRIPT));
    assert!(debug.contains("window.__TAURI_DEBUG_MODE__ = true;"));
}

#[test]
fn ping_echoes_value() {
    let r = ping(PingRequest { value: Some("hi".to_string()) });
    assert_eq!(r.value, Some("hi".to_string()));
    assert_eq!(ping(PingRequest { value: None }).value, None);
    assert_ne!(PermissionType::ReadExternalStorage, PermissionType::WriteExternalStorage);
}

#[test]
fn next_position_uses_lowest_bottom() {
    let slots = vec![slot(0, "a", 10, 100), slot(1, "b", 300, 50), slot(2, "c", 120, 100)];
    assert_eq!(next_position(&slots, 1000, 400, 10), (590, 360));
    assert_eq!(next_position(&Vec::new(), 1000, 400, 10), (590, 10));
}

#[test]
fn next_position_saturates() {
    let slots = vec![slot(0, "a", u32::MAX - 5, 100)];
    assert_eq!(next_position(&slots, 1000, 400, 10), (590, u32::MAX));
}

#[test]
fn reflow_restacks_in_order() {
    let mut slots = vec![slot(3, "a", 400, 100), slot(7, "b", 10, 60)];
    let moves = reflow(&mut slots, 10);
    assert_eq!(slots[0].y, 10);
    assert_eq!(slots[1].y, 120);
    assert_eq!(moves.len(), 2);
    assert_eq!((moves[1].label.as_str(), moves[1].x, moves[1].y), ("b", 5, 120));
}

fn area(left: u32, top: u32, right: u32, bottom: u32) -> Area {
    Area { left, top, right, bottom }
}

#[test]
fn work_area_from_os_monitor() {
    let os = vec![
        MonitorInfo { name: "A".to_string(), area: area(0, 0, 100, 100), work_area: area(0, 20, 100, 100) },
        MonitorInfo { name: "B".to_string(), area: area(100, 0, 300, 100), work_area: area(100, 0, 300, 90) },
    ];
    assert_eq!(select_work_area(&"B".to_string(), &os, &Vec::new()), area(100, 0, 300, 90));
}

#[test]
fn work_area_from_geometry_reserves_edges() {
    let available = vec![
        MonitorGeometry { name: None, x: 0, y: 0, width: 10, height: 10 },
        MonitorGeometry { name: Some("B".to_string()), x: 1920, y: 0, width: 1280, height: 1024 },
    ];
    assert_eq!(select_work_area(&"B".to_string(), &Vec::new(), &available), area(1920, 60, 3200, 964));
}

#[test]
fn work_area_negative_position_wraps() {
    let available = vec![MonitorGeometry { name: Some("L".to_string()), x: -1, y: 0, width: 2, height: 200 }];
    assert_eq!(select_work_area(&"L".to_string(), &Vec::new(), &available), area(u32::MAX, 60, 1, 140));
}

#[test]
fn work_area_fallback() {
    assert_eq!(select_work_area(&"none".to_string(), &Vec::new(), &Vec::new()), area(55, 55, 555, 555));
}
