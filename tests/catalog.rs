use scaffy::catalog::{parse_template_info_tags, tags_are_wf, Tag, TagType, TemplateCatalog, TemplateInfo, TemplateInfoTags};
use scaffy::resolver::{resolve_step, ResolveAction, StructureCache};
use scaffy::pages::{visual_input_text, PathPageFocus, ProjectInitPage};
use scaffy::search::{entries_matching, part_occurs_in_any, query_occurs_in, split_on_spaces, ScaffoldListEntry};

fn tags() -> TemplateInfoTags {
    TemplateInfoTags {
        languages: vec![("rust".to_string(), Some("1.80".to_string()))],
        frameworks: vec![("clap".to_string(), None)],
        libraries: vec![("serde".to_string(), Some("1".to_string())), ("tokio".to_string(), None)],
        misc: vec![("cli".to_string(), None)],
    }
}

fn info(name: &str, path: &str, description: &str) -> TemplateInfo {
    TemplateInfo {
        name: name.to_string(),
        path: path.to_string(),
        author: "someone".to_string(),
        description: description.to_string(),
        tags: tags(),
    }
}

#[test]
fn tags_come_in_kind_order() {
    let ts = parse_template_info_tags(&tags());
    let seen: Vec<(String, TagType, Option<String>)> = ts.iter().map(|t| (t.text.clone(), t.tag_type, t.version.clone())).collect();
    assert_eq!(
        seen,
        vec![
            ("rust".to_string(), TagType::Language, Some("1.80".to_string())),
            ("clap".to_string(), TagType::Framework, None),
            ("serde".to_string(), TagType::Library, Some("1".to_string())),
            ("tokio".to_string(), TagType::Library, None),
            ("cli".to_string(), TagType::Misc, None),
        ]
    );
    assert_eq!(ts[0].version_suffix(), "@1.80");
    assert_eq!(ts[1].version_suffix(), "");
}

#[test]
fn catalog_keeps_the_later_of_two_equal_ids() {
    let catalog = TemplateCatalog::from_templates(vec![
        info("First", "a", "one"),
        info("Second", "b", "two"),
        info("Third", "a", "three"),
    ]);
    assert_eq!(catalog.list_templates().len(), 2);
    assert_eq!(catalog.get_template("a").map(|t| t.name.clone()), Some("Third".to_string()));
    assert_eq!(catalog.get_template("b").map(|t| t.description.clone()), Some("two".to_string()));
    assert!(catalog.get_template("c").is_none());
}

#[test]
fn query_parts_split_on_single_spaces() {
    assert_eq!(split_on_spaces("a  b"), vec!["a".to_string(), "".to_string(), "b".to_string()]);
    assert_eq!(split_on_spaces(""), vec!["".to_string()]);
}

#[test]
fn every_query_part_must_occur_somewhere() {
    let entry = ScaffoldListEntry::new(
        "Rust CLI".to_string(),
        "rust-cli".to_string(),
        "Jane Doe".to_string(),
        "A Command line starter".to_string(),
        vec![Tag::new("Tokio".to_string(), TagType::Library, None)],
    );
    assert!(entry.matches_query(""));
    assert!(entry.matches_query("cli tok"));
    assert!(entry.matches_query("cli  command"));
    assert!(entry.matches_query("cli"));
    assert!(entry.matches_query("jane"));
    assert!(entry.matches_query("rust doe"));
    assert!(!entry.matches_query("CLI"));
    assert!(!entry.matches_query("cli python"));
    assert!(!entry.matches_query("rust-cli"));
}

#[test]
fn searchable_texts_are_lowercase_fields() {
    let entry = ScaffoldListEntry::new(
        "Web App".to_string(),
        "web".to_string(),
        "ÉMILE".to_string(),
        "Fast".to_string(),
        vec![Tag::new("React".to_string(), TagType::Framework, Some("18".to_string()))],
    );
    assert_eq!(
        entry.searchable_texts(),
        vec!["web app".to_string(), "fast".to_string(), "émile".to_string(), "react".to_string()]
    );
}

#[test]
fn query_parts_are_searched_in_given_texts() {
    let texts = vec!["alpha beta".to_string(), "gamma".to_string()];
    assert!(query_occurs_in(&texts, "alpha gam"));
    assert!(!query_occurs_in(&texts, "alpha delta"));
    assert!(part_occurs_in_any(&texts, "a b"));
    assert!(!part_occurs_in_any(&vec![], "a"));
    assert!(part_occurs_in_any(&texts, ""));
}

#[test]
fn duplicate_tag_names_are_not_well_formed() {
    assert!(tags_are_wf(&tags()));
    let mut bad = tags();
    bad.misc.push(("cli".to_string(), Some("2".to_string())));
    assert!(!tags_are_wf(&bad));
}

#[test]
fn list_shows_the_matching_templates_in_order() {
    let templates = vec![info("Web App", "web", "a server"), info("Rust CLI", "cli", "a terminal tool"), info("Game", "game", "a server too")];
    let shown: Vec<String> = entries_matching(&templates, "server").iter().map(|e| e.template_id.clone()).collect();
    assert_eq!(shown, vec!["web".to_string(), "game".to_string()]);
    assert_eq!(entries_matching(&templates, "serde").len(), 3);
    assert_eq!(entries_matching(&templates, "someone web").len(), 1);
    assert_eq!(entries_matching(&templates, "rust").len(), 3);
    assert!(entries_matching(&templates, "nothing").is_empty());
}

#[test]
fn pages_move_forward_and_back_within_bounds() {
    let mut page = ProjectInitPage::Name;
    assert_eq!(page.page_num(), 1);
    page.switch_to_previous_page();
    assert_eq!(page, ProjectInitPage::Name);
    page.switch_to_next_page();
    assert_eq!(page, ProjectInitPage::Preview);
    page.switch_to_next_page();
    assert_eq!(page, ProjectInitPage::Path { focus: PathPageFocus::ParentPathInput });
    assert_eq!(page.page_num(), 3);
    page.switch_to_next_page();
    page.switch_to_next_page();
    assert_eq!(page, ProjectInitPage::Confirmation);
    assert_eq!(page.page_num(), 4);
    page.switch_to_previous_page();
    assert_eq!(page, ProjectInitPage::Path { focus: PathPageFocus::ParentPathInput });
    assert_eq!(PathPageFocus::ParentPathInput.toggled(), PathPageFocus::RootFolderInput);
    assert_eq!(PathPageFocus::default(), PathPageFocus::ParentPathInput);
}

#[test]
fn cursor_is_drawn_over_or_after_the_text() {
    assert_eq!(visual_input_text("abc", 3), "abc\u{2588}");
    assert_eq!(visual_input_text("abc", 1), "a\u{2588}c");
    assert_eq!(visual_input_text("", 0), "\u{2588}");
    assert_eq!(visual_input_text("h\u{e9}llo", 1), "h\u{2588}llo");
}

#[test]
fn resolution_fails_outside_the_catalog_and_fetches_once_inside() {
    let catalog = TemplateCatalog::from_templates(vec![info("Rust CLI", "cli", "a tool")]);
    let mut cache = StructureCache::new();
    assert_eq!(resolve_step(&catalog, &cache, "web"), ResolveAction::NotFound);
    assert_eq!(resolve_step(&catalog, &cache, "cli"), ResolveAction::Fetch);
    cache.store("cli".to_string(), vec![]);
    assert_eq!(resolve_step(&catalog, &cache, "cli"), ResolveAction::Cached);
    cache.store("web".to_string(), vec![]);
    assert_eq!(resolve_step(&catalog, &cache, "web"), ResolveAction::NotFound);
}
