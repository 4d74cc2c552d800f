use light_dragon::errors::Error;
use light_dragon::scan::{
    find_cron_files, find_cron_in_file, find_files_by_regex, gen_launcher, get_repo_dir,
    get_repo_name, has_shebang, is_git_repo, is_hidden_path, ScanFile,
};

fn lines(ls: &[&str]) -> Vec<String> {
    ls.iter().map(|l| l.to_string()).collect()
}

#[test]
fn discovery_keeps_only_matching_annotated_files() {
    let files = vec![
        ScanFile { path: "a.py".to_string(), lines: lines(&["# @cron 0 1 * * *", "print(1)"]) },
        ScanFile { path: "b.py".to_string(), lines: lines(&["print(2)"]) },
        ScanFile { path: "c.sh".to_string(), lines: lines(&["# @cron 0 3 * * *", "true"]) },
    ];
    let found = find_cron_files(&files, ".*\\.py$").unwrap();
    assert_eq!(found.len(), 1);
    assert_eq!(found[0].path, "a.py");
    assert_eq!(found[0].cron, "0 1 * * *");
    assert!(!found[0].shebang);
}

#[test]
fn discovery_records_the_shebang() {
    let files = vec![ScanFile {
        path: "x.sh".to_string(),
        lines: lines(&["#!/bin/bash", "# @cron 4 4 * * *", "echo hi"]),
    }];
    let found = find_cron_files(&files, ".*").unwrap();
    assert_eq!(found.len(), 1);
    assert!(found[0].shebang);
}

#[test]
fn path_filter_skips_hidden_components() {
    let paths = vec![
        "keep/a.py".to_string(),
        ".git/config.py".to_string(),
        "src/.cache/b.py".to_string(),
        "src/ok.py".to_string(),
        "src/ok.txt".to_string(),
    ];
    let kept = find_files_by_regex(&paths, ".*\\.py$").unwrap();
    assert_eq!(kept, vec!["keep/a.py".to_string(), "src/ok.py".to_string()]);
}

#[test]
fn invalid_pattern_is_rejected() {
    let paths = vec!["a.py".to_string()];
    assert!(matches!(find_files_by_regex(&paths, "("), Err(Error::BadPattern)));
    let files = vec![ScanFile { path: "a.py".to_string(), lines: lines(&[]) }];
    assert!(matches!(find_cron_files(&files, "["), Err(Error::BadPattern)));
}

#[test]
fn annotation_is_first_match_and_trimmed() {
    assert_eq!(
        find_cron_in_file(&lines(&["no marker", "x @cron   1 2 3 4 5   ", "# @cron 9 9 9 9 9"])),
        Some("1 2 3 4 5".to_string())
    );
    assert_eq!(find_cron_in_file(&lines(&["nothing here"])), None);
    assert_eq!(find_cron_in_file(&lines(&[])), None);
}

#[test]
fn hidden_paths_are_recognized() {
    assert!(is_hidden_path(".git"));
    assert!(is_hidden_path("a/.git/b"));
    assert!(is_hidden_path("a/.b"));
    assert!(!is_hidden_path("a/b.c"));
    assert!(!is_hidden_path(""));
}

#[test]
fn launcher_is_chosen_by_extension() {
    assert_eq!(gen_launcher("jobs/fetch.py"), "/usr/bin/env python3");
    assert_eq!(gen_launcher("jobs/fetch.PY"), "/usr/bin/env python3");
    assert_eq!(gen_launcher("report.js"), "/usr/bin/env node");
    assert_eq!(gen_launcher("run.sh"), "/bin/sh");
    assert_eq!(gen_launcher("no_extension"), "/bin/sh");
    assert_eq!(gen_launcher("dir.d/noext"), "/bin/sh");
    assert_eq!(gen_launcher(".hidden"), "/bin/sh");
}

#[test]
fn shebang_looks_at_the_first_line() {
    assert!(has_shebang(&lines(&["#!/usr/bin/env python3", "pass"])));
    assert!(!has_shebang(&lines(&["pass", "#!/bin/sh"])));
    assert!(!has_shebang(&lines(&[])));
}

#[test]
fn repo_names_and_directories() {
    assert_eq!(get_repo_name("https://example.com/team/thing.git"), "thing");
    assert_eq!(get_repo_name("plain"), "plain");
    assert_eq!(get_repo_name("a/b/archive.tar.gz"), "archive");
    assert_eq!(get_repo_dir("https://e.com/x.git", "/work"), "/work/repo/x");
    assert!(is_git_repo("https://e.com/x.git"));
    assert!(is_git_repo("http://e.com/x.git"));
    assert!(!is_git_repo("git@e.com:x.git"));
    assert!(!is_git_repo("local/path"));
}
