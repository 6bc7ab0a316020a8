use powerfile_templating::search::TemplateEngine;
use powerfile_templating::search::TemplateMetadata;

fn strings(v: &[&str]) -> Vec<String> {
    v.iter().map(|s| s.to_string()).collect()
}

#[test]
fn from_template_search_multi_match() {
    let engine = TemplateEngine::from_templates(vec![
        TemplateMetadata::new(
            Some(strings(&["IRequest", "Request"])),
            Some(strings(&["Handler.cs", ".cs", "random"])),
            Some(strings(&["csharp"])),
        ),
        TemplateMetadata::new(None, Some(strings(&[".cs"])), Some(strings(&["csharp"]))),
    ]);

    let result = engine.search(&"MyFavoriteRequestHandler.cs", Some(&vec!["csharp"]));
    assert_eq!(result, Some(0))
}

#[test]
fn engine_search_finds_matching_suffix_template() {
    let engine = TemplateEngine::from_templates(vec![
        TemplateMetadata::new(Some(strings(&["IRequest"])), None, Some(strings(&["csharp"]))),
        TemplateMetadata::new(None, Some(strings(&["RequestHandler.cs"])), None),
    ]);

    let result = engine.search("IRequestHandler.cs", None);
    assert_eq!(result, Some(1), "Failed to match the correct template");
}

#[test]
fn search_misses_when_no_signal_matches() {
    let engine = TemplateEngine::from_templates(vec![TemplateMetadata::new(
        Some(strings(&["Query"])),
        None,
        None,
    )]);
    assert_eq!(engine.search("Unrelated", None), None);
    assert_eq!(engine.search("Unrelated", Some(&vec!["none"])), None);
}

#[test]
fn search_on_empty_engine_finds_nothing() {
    let engine = TemplateEngine::new();
    assert_eq!(engine.search("anything", Some(&vec!["tag"])), None);
}

#[test]
fn equal_score_keeps_the_first_id() {
    // both templates share the prefix, so both reach the same score; the
    // earlier id stays the winner
    let engine = TemplateEngine::from_templates(vec![
        TemplateMetadata::new(Some(strings(&["ab"])), None, None),
        TemplateMetadata::new(Some(strings(&["ab"])), None, None),
    ]);
    assert_eq!(engine.search("abc", None), Some(0));
}

#[test]
fn tags_stack_on_top_of_prefixes() {
    // id 1 loses on the prefix but wins once its tag is counted
    let engine = TemplateEngine::from_templates(vec![
        TemplateMetadata::new(Some(strings(&["abc"])), None, None),
        TemplateMetadata::new(Some(strings(&["ab"])), None, Some(strings(&["extra"]))),
    ]);
    assert_eq!(engine.search("abc", None), Some(0));
    assert_eq!(engine.search("abc", Some(&vec!["extra"])), Some(1));
}

#[test]
fn search_is_idempotent() {
    let engine = TemplateEngine::from_templates(vec![
        TemplateMetadata::new(Some(strings(&["IRequest"])), Some(strings(&[".cs"])), None),
        TemplateMetadata::new(None, Some(strings(&["Handler.cs"])), None),
    ]);
    let a = engine.search("IRequestHandler.cs", Some(&vec!["csharp"]));
    let b = engine.search("IRequestHandler.cs", Some(&vec!["csharp"]));
    assert_eq!(a, b);
}

#[test]
fn duplicate_keys_merge_into_one_entry() {
    // three templates share one suffix: the deepest-prefix winner among them
    // is the first to reach the maximum
    let engine = TemplateEngine::from_templates(vec![
        TemplateMetadata::new(None, Some(strings(&[".cs"])), None),
        TemplateMetadata::new(None, Some(strings(&[".cs"])), None),
        TemplateMetadata::new(Some(strings(&["Main"])), Some(strings(&[".cs"])), None),
    ]);
    // suffix scores tie at 3 for everyone; the prefix pushes id 2 ahead
    assert_eq!(engine.search("Main.cs", None), Some(2));
    // without the prefix the first id keeps the tie
    assert_eq!(engine.search("Other.cs", None), Some(0));
}
