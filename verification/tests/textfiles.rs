use telegrep::textfile::default_extensions;
use telegrep::textfile::extension_of;
use telegrep::textfile::is_hidden_name;
use telegrep::textfile::is_text_file;

#[test]
fn extension_after_last_dot_of_final_component() {
    assert_eq!(extension_of(&"a/b/c.tar.gz".to_string()), Some("gz".to_string()));
    assert_eq!(extension_of(&"main.rs".to_string()), Some("rs".to_string()));
    assert_eq!(extension_of(&"noext".to_string()), None);
    assert_eq!(extension_of(&"dir.d/noext".to_string()), None);
    assert_eq!(extension_of(&".gitignore".to_string()), None);
    assert_eq!(extension_of(&"a/.hidden".to_string()), None);
}

#[test]
fn default_extensions_match_known_kinds() {
    let exts = default_extensions();
    assert_eq!(exts.len(), 23);
    assert_eq!(exts[0], "txt");
    assert!(exts.contains(&"rs".to_string()));
    assert!(exts.contains(&"sql".to_string()));
}

#[test]
fn text_files_by_default_list() {
    assert!(is_text_file(&"src/main.rs".to_string(), &None));
    assert!(is_text_file(&"README.md".to_string(), &None));
    assert!(!is_text_file(&"image.png".to_string(), &None));
    assert!(!is_text_file(&"Makefile".to_string(), &None));
}

#[test]
fn extension_comparison_ignores_case() {
    assert!(is_text_file(&"NOTES.TXT".to_string(), &None));
    let only_md = Some(vec!["MD".to_string()]);
    assert!(is_text_file(&"readme.md".to_string(), &only_md));
    assert!(!is_text_file(&"main.rs".to_string(), &only_md));
}

#[test]
fn explicit_extension_list_overrides_default() {
    let custom = Some(vec!["zig".to_string()]);
    assert!(is_text_file(&"build.zig".to_string(), &custom));
    assert!(!is_text_file(&"main.rs".to_string(), &custom));
}

#[test]
fn hidden_names_start_with_a_dot() {
    assert!(is_hidden_name(&".git".to_string()));
    assert!(!is_hidden_name(&"src".to_string()));
    assert!(!is_hidden_name(&"".to_string()));
}
