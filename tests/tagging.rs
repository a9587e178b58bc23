use lester_core::{rescale_for_llm, TagSource, TagSuggestion, TaggingRules};

fn names(s: &[TagSuggestion]) -> Vec<String> {
    s.iter().map(|x| x.name.clone()).collect()
}

#[test]
fn suggests_domain_and_keywords() {
    let rules = TaggingRules::new();
    let suggestions = rules.suggest(
        "https://news.ycombinator.com/item?id=1",
        "OpenAI releases new research model",
    );

    let names: Vec<_> = suggestions.iter().map(|s| s.name.as_str()).collect();
    assert!(names.contains(&"news.ycombinator.com"));
    assert!(names.contains(&"openai"));
    assert!(names.contains(&"research"));
    assert!(names.contains(&"model"));
}

#[test]
fn example_suggestions_are_exact() {
    let rules = TaggingRules::new();
    let s = rules.suggest(
        "https://news.ycombinator.com/item?id=1",
        "OpenAI releases new research model",
    );
    assert_eq!(
        names(&s),
        vec!["news.ycombinator.com", "openai", "releases", "research", "model"]
    );
    assert_eq!(s[0].confidence, 720);
    assert!(s[1..].iter().all(|x| x.confidence == 600));
    assert!(s.iter().all(|x| x.source == TagSource::Rules));
    assert!(!names(&s).contains(&"new".to_string()));
}

#[test]
fn domain_drops_scheme_www_and_path() {
    let rules = TaggingRules::new();
    let s = rules.suggest("http://www.example.com/path/to", "");
    assert_eq!(names(&s), vec!["example.com"]);
    let s = rules.suggest("  https://https://www.www.a.org/x ", "");
    assert_eq!(names(&s), vec!["a.org"]);
    assert_eq!(s[0].confidence, 720);
}

#[test]
fn no_domain_for_empty_host() {
    let rules = TaggingRules::new();
    assert!(rules.suggest("", "").is_empty());
    assert!(rules.suggest("https:///docs", "").is_empty());
    assert!(rules.suggest("http://www./x", "").is_empty());
}

#[test]
fn keywords_skip_short_words_and_stopwords() {
    let rules = TaggingRules::new();
    let s = rules.suggest("", "The quick fox, about HTTPS things with your code");
    assert_eq!(names(&s), vec!["quick", "things", "code"]);
    assert!(s.iter().all(|x| x.confidence == 600));
}

#[test]
fn keywords_are_deduplicated_in_first_seen_order() {
    let rules = TaggingRules::new();
    let s = rules.suggest("", "Rust rust RUST-lang; Lang rust");
    assert_eq!(names(&s), vec!["rust", "lang"]);
}

#[test]
fn keywords_split_on_unicode_and_lowercase() {
    let rules = TaggingRules::new();
    let s = rules.suggest("", "Crème Brûlée·Recipe");
    assert_eq!(names(&s), vec!["crème", "brûlée", "recipe"]);
}

#[test]
fn rescaled_for_second_stage() {
    let rules = TaggingRules::new();
    let s = rules.suggest("https://example.org", "Verified software");
    let r = rescale_for_llm(s);
    assert_eq!(names(&r), vec!["example.org", "verified", "software"]);
    assert_eq!(r[0].confidence, 648);
    assert_eq!(r[1].confidence, 540);
    assert!(r.iter().all(|x| x.source == TagSource::Llm));
    let full = vec![TagSuggestion { name: "x".to_string(), confidence: 1000, source: TagSource::Rules }];
    assert_eq!(rescale_for_llm(full)[0].confidence, 900);
}

#[test]
fn tag_source_text() {
    assert_eq!(TagSource::Rules.as_str(), "rules");
    assert_eq!(TagSource::Llm.as_str(), "llm");
}

#[test]
fn host_of_trimmed_url() {
    assert_eq!(lester_core::host_from_trimmed("https://www.example.com/x"), Some("example.com".to_string()));
    assert_eq!(lester_core::host_from_trimmed("ftp.example.com"), Some("ftp.example.com".to_string()));
    assert_eq!(lester_core::host_from_trimmed("/relative/path"), None);
}

#[test]
fn keep_word_filters_lowercase_words() {
    let rules = TaggingRules::new();
    let mut kept = Vec::new();
    rules.keep_word(&mut kept, "research".to_string());
    rules.keep_word(&mut kept, "with".to_string());
    rules.keep_word(&mut kept, "new".to_string());
    rules.keep_word(&mut kept, "research".to_string());
    rules.keep_word(&mut kept, "about".to_string());
    rules.keep_word(&mut kept, "model".to_string());
    assert_eq!(kept, vec!["research", "model"]);
}
