use scaffy::materialize::{combine_results, directories_to_create, plan_files, FailureKind, UnitFailure};
use scaffy::resolver::StructureCache;
use scaffy::substitution::{PlaceholderSearcher, SubstitutionPlan};
use scaffy::template::{format_template_structure, listing_order, name_is_less, structure_is_wf, TemplateStructure, TemplateStructureDirEntryData};

fn file(name: &str, inject: bool) -> (String, TemplateStructureDirEntryData) {
    (name.to_string(), TemplateStructureDirEntryData::File { inject_project_info: inject })
}

fn folder(name: &str, inject: bool, children: Vec<(String, TemplateStructureDirEntryData)>) -> (String, TemplateStructureDirEntryData) {
    (name.to_string(), TemplateStructureDirEntryData::Folder { inject_project_info: inject, children })
}

fn sample_tree() -> TemplateStructure {
    vec![
        file("README.md", false),
        folder("@@SCAFFY_PROJECT_NAME_SNAKECASE@@", true, vec![file("lib.rs", true), folder("a", false, vec![])]),
        file("Cargo.toml", true),
        folder("docs", false, vec![file("guide.md", false)]),
    ]
}

fn searcher() -> PlaceholderSearcher {
    PlaceholderSearcher::new().expect("the placeholder tokens build")
}

#[test]
fn structure_is_formatted_folders_first_by_name() {
    let out = format_template_structure(&searcher(), &sample_tree(), "My App");
    let expected = "\u{1F5BF} my_app\n    \u{1F5BF} a\n    \u{1F5CE} lib.rs\n\u{1F5BF} docs\n    \u{1F5CE} guide.md\n\u{1F5CE} Cargo.toml\n\u{1F5CE} README.md\n";
    assert_eq!(out, expected);
}

#[test]
fn empty_structure_formats_to_nothing() {
    assert_eq!(format_template_structure(&searcher(), &vec![], "X"), "");
}

#[test]
fn listing_order_puts_folders_first() {
    assert_eq!(listing_order(&sample_tree()), vec![1, 3, 2, 0]);
    assert!(name_is_less("Cargo.toml", "README.md"));
    assert!(name_is_less("ab", "abc"));
    assert!(!name_is_less("abc", "abc"));
    assert!(name_is_less("z", "\u{e9}"));
}

#[test]
fn plan_lists_every_file_with_its_folders() {
    let jobs = plan_files(&sample_tree());
    let seen: Vec<(Vec<String>, String, bool)> = jobs.iter().map(|j| (j.ancestors.clone(), j.file_name.clone(), j.inject_project_info)).collect();
    assert_eq!(
        seen,
        vec![
            (vec![], "README.md".to_string(), false),
            (vec!["@@SCAFFY_PROJECT_NAME_SNAKECASE@@".to_string()], "lib.rs".to_string(), true),
            (vec![], "Cargo.toml".to_string(), true),
            (vec!["docs".to_string()], "guide.md".to_string(), false),
        ]
    );
    assert_eq!(jobs[1].parent_path(), "@@SCAFFY_PROJECT_NAME_SNAKECASE@@");
    assert_eq!(jobs[0].parent_path(), "");
}

#[test]
fn injection_flag_decides_contents_not_names() {
    let tree = vec![folder(
        "@@SCAFFY_PROJECT_NAME_KEBABCASE@@",
        false,
        vec![file("@@SCAFFY_PROJECT_NAME@@.txt", true), file("@@SCAFFY_PROJECT_NAME_SNAKECASE@@.md", false)],
    )];
    let s = searcher();
    let plan = SubstitutionPlan::for_project("Cool App");
    let jobs = plan_files(&tree);
    assert_eq!(jobs.len(), 2);
    let source = "hi @@SCAFFY_PROJECT_NAME_UPPERCASE@@".to_string();
    assert_eq!(jobs[0].destination(&s, &plan), vec!["cool-app".to_string(), "Cool App.txt".to_string()]);
    assert_eq!(jobs[1].destination(&s, &plan), vec!["cool-app".to_string(), "cool_app.md".to_string()]);
    assert_eq!(jobs[0].contents_to_write(&s, &plan, source.clone()), "hi COOL APP");
    assert_eq!(jobs[1].contents_to_write(&s, &plan, source.clone()), source);
    assert_eq!(jobs[1].destination_dir(&s, &plan), vec!["cool-app".to_string()]);
}

#[test]
fn empty_folders_give_no_jobs() {
    let tree = vec![folder("empty", true, vec![folder("deeper", true, vec![])])];
    assert!(plan_files(&tree).is_empty());
}

fn path(parts: &[&str]) -> Vec<String> {
    parts.iter().map(|p| p.to_string()).collect()
}

#[test]
fn each_needed_directory_is_created_once_parents_first() {
    let dirs = vec![path(&["a", "b"]), path(&["a", "b", "c"]), path(&["a", "d"]), path(&[]), path(&["a", "b"])];
    assert_eq!(
        directories_to_create(&dirs),
        vec![path(&["a"]), path(&["a", "b"]), path(&["a", "b", "c"]), path(&["a", "d"])]
    );
    assert!(directories_to_create(&vec![path(&[]), path(&[])]).is_empty());
}

fn failure(path: &str) -> UnitFailure {
    UnitFailure { path: path.to_string(), kind: FailureKind::ContentFetch, cause: "timed out".to_string() }
}

#[test]
fn one_failed_unit_fails_the_whole_with_its_path() {
    let results = vec![Ok(()), Ok(()), Err(failure("src/main.rs")), Ok(())];
    match combine_results(results) {
        Err(f) => {
            assert_eq!(f.path, "src/main.rs");
            assert_eq!(f.kind, FailureKind::ContentFetch);
        }
        Ok(()) => panic!("a failed unit must fail the whole"),
    }
}

#[test]
fn first_failure_is_reported_and_all_ok_succeeds() {
    let results = vec![Ok(()), Err(failure("a")), Err(failure("b"))];
    assert_eq!(combine_results(results).err().map(|f| f.path), Some("a".to_string()));
    assert!(combine_results(vec![Ok(()), Ok(())]).is_ok());
    assert!(combine_results(vec![]).is_ok());
}

fn resolve(cache: &mut StructureCache, id: &str, fetches: &mut usize) -> usize {
    if cache.needs_fetch(id) {
        *fetches += 1;
        cache.store(id.to_string(), sample_tree());
    }
    cache.get(id).map(|t| t.len()).unwrap_or(0)
}

#[test]
fn resolving_twice_fetches_once() {
    let mut cache = StructureCache::new();
    let mut fetches = 0;
    assert_eq!(resolve(&mut cache, "rust-cli", &mut fetches), 4);
    assert_eq!(resolve(&mut cache, "rust-cli", &mut fetches), 4);
    assert_eq!(fetches, 1);
    assert_eq!(resolve(&mut cache, "other", &mut fetches), 4);
    assert_eq!(fetches, 2);
}

#[test]
fn storing_a_cached_id_keeps_the_first_structure() {
    let mut cache = StructureCache::new();
    assert!(cache.get("t").is_none());
    cache.store("t".to_string(), vec![file("one", false)]);
    cache.store("t".to_string(), sample_tree());
    assert_eq!(cache.get("t").map(|t| t.len()), Some(1));
    assert!(!cache.needs_fetch("t"));
}

#[test]
fn repeated_names_in_one_folder_are_not_well_formed() {
    assert!(structure_is_wf(&sample_tree()));
    assert!(structure_is_wf(&vec![file("a", true), folder("b", false, vec![file("a", false)])]));
    assert!(!structure_is_wf(&vec![file("a", true), file("a", false)]));
    assert!(!structure_is_wf(&vec![folder("b", false, vec![file("x", true), file("x", true)])]));
}
