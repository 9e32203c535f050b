use comment_guard::model::CustomError;
use comment_guard::response::{parse_content, parse_response, ProviderShape};

#[test]
fn choices_reply_parses() {
    let r = parse_response(
        ProviderShape::Choices,
        r#"{"choices":[{"message":{"content":"1,FREEGIFT,0.95"}}]}"#,
    )
    .unwrap();
    assert!(r.spam);
    assert_eq!(r.keyword, "FREEGIFT");
    assert_eq!(r.confidence.parse::<f64>().unwrap(), 0.95);
}

#[test]
fn candidates_reply_parses() {
    let r = parse_response(
        ProviderShape::Candidates,
        r#"{"candidates":[{"content":{"parts":[{"text":"0,NONE,0.10"}]}}]}"#,
    )
    .unwrap();
    assert!(!r.spam);
    assert_eq!(r.keyword, "NONE");
    assert_eq!(r.confidence.parse::<f64>().unwrap(), 0.10);
}

#[test]
fn two_fields_are_malformed() {
    let r = parse_response(ProviderShape::Choices, r#"{"choices":[{"message":{"content":"1,ONLYTWO"}}]}"#);
    assert_eq!(r, Err(CustomError::MalformedContent));
    assert_eq!(parse_content("1,ONLYTWO"), Err(CustomError::MalformedContent));
    assert_eq!(parse_content("1,A,B,0.5"), Err(CustomError::MalformedContent));
    assert_eq!(parse_content(""), Err(CustomError::MalformedContent));
}

#[test]
fn reply_errors() {
    assert_eq!(parse_response(ProviderShape::Choices, "not json"), Err(CustomError::Decode));
    assert_eq!(parse_response(ProviderShape::Choices, r#"{"candidates":[]}"#), Err(CustomError::MissingField));
    assert_eq!(parse_response(ProviderShape::Choices, r#"{"choices":[]}"#), Err(CustomError::EmptyResponse));
    assert_eq!(parse_response(ProviderShape::Candidates, r#"{"candidates":[]}"#), Err(CustomError::EmptyResponse));
    assert_eq!(parse_response(ProviderShape::Choices, r#"{"choices":{"a":1}}"#), Err(CustomError::MissingField));
    assert_eq!(
        parse_response(ProviderShape::Choices, r#"{"choices":[{"message":{"content":7}}]}"#),
        Err(CustomError::MissingField)
    );
    assert_eq!(
        parse_response(ProviderShape::Candidates, r#"{"candidates":[{"content":{"parts":[]}}]}"#),
        Err(CustomError::MissingField)
    );
    assert_eq!(parse_response(ProviderShape::Choices, "[1,2]"), Err(CustomError::MissingField));
}

#[test]
fn spam_flag_values() {
    assert!(parse_content("+1,K,1").unwrap().spam);
    assert!(parse_content("0001,K,1").unwrap().spam);
    assert!(!parse_content("-0,K,1").unwrap().spam);
    assert_eq!(parse_content("2,K,0.5"), Err(CustomError::InvalidSpamValue));
    assert_eq!(parse_content("-1,K,0.5"), Err(CustomError::InvalidSpamValue));
    assert_eq!(parse_content("yes,K,0.5"), Err(CustomError::InvalidSpamValue));
    assert_eq!(parse_content(" 1,K,0.5"), Err(CustomError::InvalidSpamValue));
    assert_eq!(parse_content(",K,0.5"), Err(CustomError::InvalidSpamValue));
    assert_eq!(parse_content("99999999999,K,0.5"), Err(CustomError::InvalidSpamValue));
}

#[test]
fn confidence_values() {
    for ok in ["0.5", "1", ".5", "5.", "-0.25", "+3e2", "1E-3", "inf", "-Infinity", "NaN"] {
        let r = parse_content(&format!("1,K,{}", ok)).unwrap();
        assert_eq!(r.confidence, ok);
        assert!(ok.parse::<f64>().is_ok());
    }
    for bad in ["abc", ".", "1.2.3", "e5", "1e", "1e+", "", " 0.5", "0.5\n", "infin"] {
        assert_eq!(parse_content(&format!("1,K,{}", bad)), Err(CustomError::InvalidConfidenceValue));
        assert!(bad.parse::<f64>().is_err());
    }
}

#[test]
fn keyword_is_kept_verbatim() {
    let r = parse_content("1, Free Gift ,0.9").unwrap();
    assert_eq!(r.keyword, " Free Gift ");
    let r = parse_content("0,,0").unwrap();
    assert_eq!(r.keyword, "");
}
