use mac_autocomplete_engine::config::EngineConfig;
use mac_autocomplete_engine::engine::EngineCore;
use mac_autocomplete_engine::ipc::protocol::{CompleteRequest, EngineMessage};
use mac_autocomplete_engine::ipc::session::{classify_line, LineAction};
use mac_autocomplete_engine::options::socket_path_from_args;

fn request(prefix: &str) -> CompleteRequest {
    CompleteRequest {
        prefix: prefix.to_string(),
        max_tokens: 16,
        app: "test".to_string(),
        cursor_id: "cursor-7".to_string(),
        fast_only: false,
    }
}

#[test]
fn default_config() {
    let c = EngineConfig::default();
    assert_eq!(c.instant_deadline_ms, 20);
    assert_eq!(c.refined_delay_ms, 180);
    assert_eq!(c.max_candidates, 3);
}

#[test]
fn instant_and_refined_messages() {
    let core = EngineCore::new(EngineConfig::default());
    match core.instant_message(&request("hel")) {
        EngineMessage::Instant(r) => {
            assert_eq!(r.cursor_id, "cursor-7");
            assert_eq!(r.candidates, vec!["hello", "hello more", "hello text"]);
            assert_eq!(r.expires_in_ms, 20);
        }
        _ => panic!("expected an instant message"),
    }
    match core.refined_message(&request("hel")) {
        EngineMessage::Refined(r) => {
            assert_eq!(r.cursor_id, "cursor-7");
            assert_eq!(r.candidates.len(), 3);
            assert_eq!(r.candidates[0], "hel \u{b7} refined option 1");
            assert_eq!(r.model_info.name, "stub-model");
            assert_eq!(r.model_info.latency_ms, 180);
        }
        _ => panic!("expected a refined message"),
    }
    assert!(matches!(EngineCore::shutdown_message(), EngineMessage::Shutdown));
}

#[test]
fn line_actions() {
    assert_eq!(classify_line(0, ""), LineAction::Close);
    assert_eq!(classify_line(1, "\n"), LineAction::Skip);
    assert_eq!(classify_line(4, " \t \n"), LineAction::Skip);
    assert_eq!(classify_line(3, "{}\n"), LineAction::Decode);
}

#[test]
fn socket_option() {
    assert_eq!(socket_path_from_args(&vec![]), None);
    let args = vec!["--socket".to_string(), "/tmp/a.sock".to_string()];
    assert_eq!(socket_path_from_args(&args), Some("/tmp/a.sock".to_string()));
    let args = vec!["--socket".to_string()];
    assert_eq!(socket_path_from_args(&args), None);
    let args = vec![
        "--socket".to_string(),
        "/x".to_string(),
        "-v".to_string(),
        "--socket".to_string(),
        "--socket".to_string(),
    ];
    assert_eq!(socket_path_from_args(&args), Some("--socket".to_string()));
    let args = vec!["--socket".to_string(), "/x".to_string(), "--socket".to_string()];
    assert_eq!(socket_path_from_args(&args), Some("/x".to_string()));
}
