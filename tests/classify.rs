use comment_guard::cache::{contains_text, KeywordIndex, ResultCache};
use comment_guard::classify::{
    advance_call, begin_classification, finish_classification, CallEvent, CallPhase, PermitPool, Step,
};
use comment_guard::model::{AnalyzeResponse, CustomError};
use comment_guard::normalize::{hash_comment, normalize_fancy_text};
use comment_guard::response::ProviderShape;

fn verdict(spam: bool, keyword: &str, confidence: &str) -> AnalyzeResponse {
    AnalyzeResponse { spam, keyword: keyword.to_string(), confidence: confidence.to_string() }
}

#[test]
fn cached_fingerprint_answers_without_a_call() {
    let mut results = ResultCache::new();
    let keywords = KeywordIndex::new();
    let cached = verdict(true, "PROMO", "0.7");
    results.put(hash_comment("Buy now!"), cached.clone());
    match begin_classification(&results, &keywords, "\u{1D5D5}uy NOW") {
        Step::Answer(v) => assert_eq!(v, cached),
        other => panic!("expected a cached answer, got {:?}", other),
    }
}

#[test]
fn learned_keyword_answers_without_a_call() {
    let mut keywords = KeywordIndex::new();
    keywords.record("spamword".to_string(), "0.9".to_string());
    assert_eq!(keywords.scan("buySPAMWORDnow"), Some(("spamword".to_string(), "0.9".to_string())));
    assert_eq!(keywords.scan("buyspamwordnow"), None);

    keywords.record("777".to_string(), "0.8".to_string());
    let results = ResultCache::new();
    match begin_classification(&results, &keywords, "Win 7\u{1D7D5}7 now") {
        Step::Answer(v) => assert_eq!(v, verdict(true, "777", "0.8")),
        other => panic!("expected a keyword answer, got {:?}", other),
    }
}

#[test]
fn cache_miss_asks_for_a_call() {
    let results = ResultCache::new();
    let keywords = KeywordIndex::new();
    match begin_classification(&results, &keywords, "Hello There") {
        Step::CallProvider { fingerprint, normalized } => {
            assert_eq!(fingerprint, hash_comment("hello there"));
            assert_eq!(normalized, normalize_fancy_text("Hello There"));
            assert_eq!(normalized, "hello there");
        }
        other => panic!("expected a call, got {:?}", other),
    }
}

#[test]
fn finished_call_fills_both_tiers() {
    let mut results = ResultCache::new();
    let mut keywords = KeywordIndex::new();
    let fp = hash_comment("free gift inside");
    let reply = r#"{"choices":[{"message":{"content":"1,FREEGIFT,0.95"}}]}"#.to_string();
    let r = finish_classification(&mut results, &mut keywords, fp.clone(), ProviderShape::Choices, Some(reply));
    assert_eq!(r, Ok(verdict(true, "FREEGIFT", "0.95")));
    assert_eq!(results.lookup_by_fingerprint(&fp), Some(&verdict(true, "FREEGIFT", "0.95")));
    assert_eq!(keywords.scan("getFREEGIFTnow"), Some(("FREEGIFT".to_string(), "0.95".to_string())));
}

#[test]
fn failed_call_changes_nothing() {
    let mut results = ResultCache::new();
    let mut keywords = KeywordIndex::new();
    let fp = hash_comment("x");
    let r = finish_classification(&mut results, &mut keywords, fp.clone(), ProviderShape::Choices, None);
    assert_eq!(r, Err(CustomError::Transport));
    let bad = r#"{"choices":[{"message":{"content":"1,ONLYTWO"}}]}"#.to_string();
    let r = finish_classification(&mut results, &mut keywords, fp.clone(), ProviderShape::Choices, Some(bad));
    assert_eq!(r, Err(CustomError::MalformedContent));
    assert_eq!(results.lookup_by_fingerprint(&fp), None);
    assert_eq!(keywords.scan("ONLYTWO"), None);
}

#[test]
fn later_verdicts_win() {
    let mut results = ResultCache::new();
    results.put("f".to_string(), verdict(false, "A", "0.1"));
    results.put("g".to_string(), verdict(false, "B", "0.2"));
    results.put("f".to_string(), verdict(true, "C", "0.3"));
    assert_eq!(results.lookup_by_fingerprint("f"), Some(&verdict(true, "C", "0.3")));
    assert_eq!(results.lookup_by_fingerprint("g"), Some(&verdict(false, "B", "0.2")));
    assert_eq!(results.lookup_by_fingerprint("h"), None);

    let mut keywords = KeywordIndex::new();
    keywords.record("ab".to_string(), "0.1".to_string());
    keywords.record("b".to_string(), "0.2".to_string());
    keywords.record("ab".to_string(), "0.3".to_string());
    // insertion order decides between two matching keywords
    assert_eq!(keywords.scan("xABx"), Some(("ab".to_string(), "0.3".to_string())));
    assert_eq!(keywords.scan("xBx"), Some(("b".to_string(), "0.2".to_string())));
}

#[test]
fn substring_search() {
    assert!(contains_text("abcdef", "cde"));
    assert!(contains_text("abc", ""));
    assert!(contains_text("abc", "abc"));
    assert!(!contains_text("abc", "abcd"));
    assert!(!contains_text("abcabd", "abe"));
}

#[test]
fn at_most_two_of_ten_calls_run_at_once() {
    let mut pool = PermitPool::new(2);
    let mut calls = vec![CallPhase::Idle; 10];
    for k in 0..10 {
        advance_call(&mut pool, &mut calls, k, CallEvent::Start);
        advance_call(&mut pool, &mut calls, k, CallEvent::PermitOffered);
    }
    let calling = |c: &Vec<CallPhase>| c.iter().filter(|p| **p == CallPhase::Calling).count();
    assert_eq!(calling(&calls), 2);
    assert_eq!(pool.in_use(), 2);
    assert_eq!(calls[0], CallPhase::Calling);
    assert_eq!(calls[2], CallPhase::AwaitingPermit);

    assert_eq!(advance_call(&mut pool, &mut calls, 0, CallEvent::CallEnded { delivered: true }), CallPhase::Parsing);
    assert_eq!(advance_call(&mut pool, &mut calls, 1, CallEvent::Cancelled), CallPhase::Failed);
    assert_eq!(pool.in_use(), 0);
    for k in 2..10 {
        advance_call(&mut pool, &mut calls, k, CallEvent::PermitOffered);
        assert!(calling(&calls) <= 2);
    }
    assert_eq!(calling(&calls), 2);
    assert_eq!(advance_call(&mut pool, &mut calls, 0, CallEvent::Parsed { ok: true }), CallPhase::Done);
    assert_eq!(advance_call(&mut pool, &mut calls, 2, CallEvent::CallEnded { delivered: false }), CallPhase::Failed);
    assert_eq!(pool.in_use(), 1);
}
