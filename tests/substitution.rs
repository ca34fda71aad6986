use scaffy::substitution::{placeholder_token_strings, scaffy_string_replacement, PlaceholderSearcher, SubstitutionPlan};

fn searcher() -> PlaceholderSearcher {
    PlaceholderSearcher::new().expect("the placeholder tokens build")
}

#[test]
fn kebab_case_token_is_replaced() {
    let s = searcher();
    assert_eq!(scaffy_string_replacement(&s, "@@SCAFFY_PROJECT_NAME_KEBABCASE@@", "My Cool App"), "my-cool-app");
}

#[test]
fn every_token_has_its_casing() {
    let s = searcher();
    let expected = [
        ("@@SCAFFY_PROJECT_NAME@@", "My Cool App"),
        ("@@SCAFFY_PROJECT_NAME_TITLECASE@@", "My Cool App"),
        ("@@SCAFFY_PROJECT_NAME_UPPERCASE@@", "MY COOL APP"),
        ("@@SCAFFY_PROJECT_NAME_LOWERCASE@@", "my cool app"),
        ("@@SCAFFY_PROJECT_NAME_SNAKECASE@@", "my_cool_app"),
        ("@@SCAFFY_PROJECT_NAME_UPPERSNAKECASE@@", "MY_COOL_APP"),
        ("@@SCAFFY_PROJECT_NAME_LOWERSNAKECASE@@", "my_cool_app"),
        ("@@SCAFFY_PROJECT_NAME_LOWERCAMELCASE@@", "myCoolApp"),
        ("@@SCAFFY_PROJECT_NAME_UPPERCAMELCASE@@", "MyCoolApp"),
        ("@@SCAFFY_PROJECT_NAME_KEBABCASE@@", "my-cool-app"),
        ("@@SCAFFY_PROJECT_NAME_LOWERKEBABCASE@@", "my-cool-app"),
        ("@@SCAFFY_PROJECT_NAME_UPPERKEBABCASE@@", "MY-COOL-APP"),
    ];
    for (token, value) in expected {
        assert_eq!(scaffy_string_replacement(&s, token, "My Cool App"), value, "token {}", token);
    }
    assert_eq!(placeholder_token_strings().len(), expected.len());
}

#[test]
fn text_without_tokens_is_unchanged() {
    let s = searcher();
    let text = "fn main() { println!(\"@@ not a token @@SCAFFY\"); }\n";
    assert_eq!(scaffy_string_replacement(&s, text, "Any Name"), text);
    assert_eq!(scaffy_string_replacement(&s, "", "Any Name"), "");
}

#[test]
fn substitution_is_deterministic() {
    let s = searcher();
    let text = "name = \"@@SCAFFY_PROJECT_NAME_KEBABCASE@@\" # @@SCAFFY_PROJECT_NAME@@";
    let first = scaffy_string_replacement(&s, text, "Hello World");
    let second = scaffy_string_replacement(&searcher(), text, "Hello World");
    assert_eq!(first, second);
    assert_eq!(first, "name = \"hello-world\" # Hello World");
}

#[test]
fn shared_prefixes_replace_in_one_pass() {
    let s = searcher();
    assert_eq!(
        scaffy_string_replacement(&s, "@@SCAFFY_PROJECT_NAME@@SCAFFY_PROJECT_NAME_UPPERCASE@@", "ab cd"),
        "ab cdSCAFFY_PROJECT_NAME_UPPERCASE@@"
    );
    assert_eq!(
        scaffy_string_replacement(&s, "x@@SCAFFY_PROJECT_NAME_SNAKECASE@@y@@SCAFFY_PROJECT_NAME_UPPERSNAKECASE@@", "ab cd"),
        "xab_cdyAB_CD"
    );
}

#[test]
fn replacements_are_not_rescanned() {
    let s = searcher();
    assert_eq!(
        scaffy_string_replacement(&s, "@@SCAFFY_PROJECT_NAME@@", "@@SCAFFY_PROJECT_NAME@@"),
        "@@SCAFFY_PROJECT_NAME@@"
    );
}

#[test]
fn plan_is_computed_once_and_reused() {
    let s = searcher();
    let plan = SubstitutionPlan::for_project("Big Thing");
    assert_eq!(plan.replacement(7), "bigThing");
    assert_eq!(s.substitute_with_plan(&plan, "@@SCAFFY_PROJECT_NAME_UPPERCAMELCASE@@.rs"), "BigThing.rs");
    assert_eq!(s.substitute_with_plan(&plan, "@@SCAFFY_PROJECT_NAME_LOWERCAMELCASE@@"), "bigThing");
}

#[test]
fn the_token_searcher_always_builds() {
    assert!(PlaceholderSearcher::new().is_ok());
}
