use mac_autocomplete_engine::engine::instant::{suggest_suffix, InstantEngine};
use mac_autocomplete_engine::engine::llm::StubLlm;
use mac_autocomplete_engine::ipc::protocol::CompleteRequest;

fn refine_candidates(prefix: &str, max: usize) -> Vec<String> {
    StubLlm::new().refine(prefix, max)
}

fn request(prefix: &str) -> CompleteRequest {
    CompleteRequest {
        prefix: prefix.to_string(),
        max_tokens: 16,
        app: "test".to_string(),
        cursor_id: "c1".to_string(),
        fast_only: false,
    }
}

#[test]
fn suggest_known_words() {
    let engine = InstantEngine::new(3);
    assert_eq!(
        engine.suggest(&request("say hel  ")),
        vec!["say hello".to_string(), "say hello more".to_string(), "say hello text".to_string()]
    );
    assert_eq!(
        engine.suggest(&request("than")),
        vec!["thank".to_string(), "thank more".to_string(), "thank text".to_string()]
    );
    assert_eq!(
        engine.suggest(&request("abc")),
        vec!["abc".to_string(), "abc more".to_string(), "abc text".to_string()]
    );
}

#[test]
fn suggest_blank_and_limits() {
    assert!(InstantEngine::new(3).suggest(&request(" \n")).is_empty());
    assert_eq!(InstantEngine::new(1).suggest(&request("hello")), vec!["hellolo".to_string()]);
    assert!(InstantEngine::new(0).suggest(&request("hello")).is_empty());
    assert_eq!(InstantEngine::new(10).suggest(&request("x")).len(), 3);
}

#[test]
fn suffix_rules() {
    assert_eq!(suggest_suffix("", ""), "\u{2026}");
    assert_eq!(suggest_suffix("", " more"), " more");
    assert_eq!(suggest_suffix("hell", " text"), "lo text");
    assert_eq!(suggest_suffix("thank", ""), "k");
    assert_eq!(suggest_suffix("other", " more"), " more");
}

#[test]
fn refined_candidates_are_numbered() {
    assert_eq!(
        refine_candidates("  hi there ", 2),
        vec![
            "hi there \u{b7} refined option 1".to_string(),
            "hi there \u{b7} refined option 2".to_string(),
        ]
    );
    assert!(refine_candidates(" \t ", 3).is_empty());
    assert!(refine_candidates("x", 0).is_empty());
    assert_eq!(refine_candidates("x", 12)[11], "x \u{b7} refined option 12");
}
