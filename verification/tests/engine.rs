use light_dragon::codec::encode;
use light_dragon::errors::Error;
use light_dragon::item::{Item, ItemArgs, Payload, RepoArgs};
use light_dragon::repo::{
    add, clean_files, default_branch, default_whitelist, dir_claimed, list, list_tasks,
    readd_all, rm_by_index, rm_by_repo, SyncInput,
};
use light_dragon::scan::FoundTask;

fn registry(name: &str) -> Item {
    Item {
        schedule: "0 0 * * *".to_string(),
        cmd: ":".to_string(),
        args: Payload::Structured(ItemArgs {
            group: "_repo".to_string(),
            name: name.to_string(),
            repo_args: Some(RepoArgs { whitelist: ".*".to_string(), branch: "master".to_string() }),
        }),
    }
}

fn task(group: &str, name: &str) -> Item {
    Item {
        schedule: "1 2 3 4 5".to_string(),
        cmd: "run".to_string(),
        args: Payload::Structured(ItemArgs {
            group: group.to_string(),
            name: name.to_string(),
            repo_args: None,
        }),
    }
}

fn opaque(raw: &str) -> Item {
    Item { schedule: String::new(), cmd: String::new(), args: Payload::Opaque(raw.to_string()) }
}

fn names(items: &[Item]) -> Vec<String> {
    items
        .iter()
        .map(|i| match &i.args {
            Payload::Structured(a) => a.name.clone(),
            Payload::Opaque(raw) => raw.clone(),
        })
        .collect()
}

#[test]
fn add_on_empty_table_end_to_end() {
    let mut tabs: Vec<Item> = Vec::new();
    let files = vec![FoundTask {
        path: "run.sh".to_string(),
        cron: "0 2 * * *".to_string(),
        shebang: false,
    }];
    add(
        &mut tabs,
        "https://example.com/x.git",
        "* * * * *",
        ".*\\.sh$",
        "main",
        "/work/repo/x",
        "/usr/local/bin/light-dragon",
        "/work/light-dragon.env",
        &files,
    )
    .unwrap();
    assert_eq!(tabs.len(), 2);
    match &tabs[0].args {
        Payload::Structured(a) => {
            assert_eq!(a.group, "_repo");
            assert_eq!(a.name, "https://example.com/x.git");
            let ra = a.repo_args.as_ref().unwrap();
            assert_eq!(ra.whitelist, ".*\\.sh$");
            assert_eq!(ra.branch, "main");
        }
        Payload::Opaque(_) => panic!("registry entry expected"),
    }
    assert_eq!(tabs[0].schedule, "* * * * *");
    assert_eq!(
        tabs[0].cmd,
        "cd /work/repo/x && git fetch origin main && git reset --hard origin/main && /usr/local/bin/light-dragon repo-readd"
    );
    match &tabs[1].args {
        Payload::Structured(a) => {
            assert_eq!(a.group, "https://example.com/x.git");
            assert_eq!(a.name, "run.sh");
            assert!(a.repo_args.is_none());
        }
        Payload::Opaque(_) => panic!("task entry expected"),
    }
    assert_eq!(tabs[1].schedule, "0 2 * * *");
    assert_eq!(tabs[1].cmd, ". /work/light-dragon.env && /bin/sh /work/repo/x/run.sh");
}

#[test]
fn add_local_source_gets_noop_command() {
    let mut tabs: Vec<Item> = Vec::new();
    let files: Vec<FoundTask> = Vec::new();
    add(&mut tabs, "local/dir", "* * * * *", ".*", "master", "/w/repo/dir", "/bin/ld", "/w/e", &files)
        .unwrap();
    assert_eq!(tabs.len(), 1);
    assert_eq!(tabs[0].cmd, ":");
}

#[test]
fn add_twice_conflicts_and_leaves_table_unchanged() {
    let mut tabs: Vec<Item> = Vec::new();
    let files: Vec<FoundTask> = Vec::new();
    add(&mut tabs, "https://e.com/r1.git", "0 0 * * *", ".*", "main", "/w/repo/r1", "/x", "/e", &files)
        .unwrap();
    let before = encode(&tabs);
    let r = add(
        &mut tabs,
        "https://e.com/r1.git",
        "5 5 * * *",
        ".*\\.py$",
        "dev",
        "/w/repo/r1",
        "/x",
        "/e",
        &files,
    );
    assert!(matches!(r, Err(Error::Conflict)));
    assert_eq!(encode(&tabs), before);
}

#[test]
fn shebang_task_gets_empty_launcher() {
    let mut tabs: Vec<Item> = Vec::new();
    let files = vec![FoundTask {
        path: "tool.py".to_string(),
        cron: "0 1 * * *".to_string(),
        shebang: true,
    }];
    add(&mut tabs, "p", "* * * * *", ".*", "master", "/w/repo/p", "/x", "/env", &files).unwrap();
    assert_eq!(tabs[1].cmd, ". /env &&  /w/repo/p/tool.py");
}

#[test]
fn rm_by_repo_is_scoped_to_the_exact_name() {
    let tabs = vec![
        opaque("# keep me\n@reboot true"),
        registry("foo"),
        task("foo", "a.sh"),
        registry("foobar"),
        task("foobar", "b.sh"),
        task("foo", "c.sh"),
    ];
    let out = rm_by_repo(&tabs, "foo");
    assert_eq!(names(&out), vec!["# keep me\n@reboot true", "foobar", "b.sh"]);
}

#[test]
fn rm_by_index_resolves_against_the_registry_view() {
    let tabs = vec![task("foo", "a.sh"), registry("foo"), registry("bar"), task("bar", "b.sh")];
    let out = rm_by_index(&tabs, 1).unwrap();
    assert_eq!(names(&out), vec!["a.sh", "foo"]);
    let missing = rm_by_index(&tabs, 2);
    assert!(matches!(missing, Err(Error::NotFound)));
}

#[test]
fn list_and_list_tasks_are_pure_filters() {
    let tabs = vec![
        opaque("# x"),
        registry("foo"),
        task("foo", "a.sh"),
        registry("bar"),
        task("bar", "b.sh"),
    ];
    assert_eq!(names(&list(&tabs)), vec!["foo", "bar"]);
    assert_eq!(names(&list_tasks(&tabs, "bar")), vec!["b.sh"]);
    assert!(dir_claimed(&tabs, "foo"));
    assert!(!dir_claimed(&tabs, "baz"));
}

#[test]
fn clean_files_reports_unregistered_directories() {
    let tabs = vec![registry("kept")];
    let on_disk = vec!["kept".to_string(), "orphan".to_string(), "stale".to_string()];
    let doomed = clean_files(&tabs, &on_disk);
    assert_eq!(doomed, vec!["orphan".to_string(), "stale".to_string()]);
}

#[test]
fn clean_files_keeps_cloned_repositories_by_derived_name() {
    // a URL-sourced repository occupies the directory of its derived name
    let tabs = vec![registry("https://e.com/team/x.git")];
    let on_disk = vec!["x".to_string(), "orphan".to_string()];
    let doomed = clean_files(&tabs, &on_disk);
    assert_eq!(doomed, vec!["orphan".to_string()]);
    assert!(dir_claimed(&tabs, "x"));
    assert!(!dir_claimed(&tabs, "https://e.com/team/x.git"));
}

#[test]
fn conflict_is_scoped_by_the_derived_name() {
    let mut tabs: Vec<Item> = Vec::new();
    let files: Vec<FoundTask> = Vec::new();
    add(&mut tabs, "https://a.com/x.git", "0 0 * * *", ".*", "main", "/w/repo/x", "/b", "/e", &files)
        .unwrap();
    let before = encode(&tabs);
    // a different source with the same derived name would share the clone
    let r = add(
        &mut tabs,
        "https://b.com/x.git",
        "1 1 * * *",
        ".*",
        "main",
        "/w/repo/x",
        "/b",
        "/e",
        &files,
    );
    assert!(matches!(r, Err(Error::Conflict)));
    assert_eq!(encode(&tabs), before);
    // a different derived name does not conflict
    add(&mut tabs, "https://b.com/y.git", "1 1 * * *", ".*", "main", "/w/repo/y", "/b", "/e", &files)
        .unwrap();
    assert_eq!(tabs.len(), 2);
}

#[test]
fn resync_twice_gives_identical_tables() {
    let tabs = vec![
        opaque("# foreign\n@reboot true"),
        registry("https://e.com/a.git"),
        task("https://e.com/a.git", "old.sh"),
        registry("https://e.com/b.git"),
    ];
    let ins = vec![
        SyncInput {
            repo: "https://e.com/a.git".to_string(),
            schedule: "0 0 * * *".to_string(),
            whitelist: ".*\\.sh$".to_string(),
            branch: "master".to_string(),
            abs_path: "/w/repo/a".to_string(),
            files: vec![FoundTask {
                path: "new.sh".to_string(),
                cron: "2 2 * * *".to_string(),
                shebang: false,
            }],
        },
        SyncInput {
            repo: "https://e.com/b.git".to_string(),
            schedule: "0 0 * * *".to_string(),
            whitelist: ".*".to_string(),
            branch: "main".to_string(),
            abs_path: "/w/repo/b".to_string(),
            files: Vec::new(),
        },
    ];
    let once = readd_all(tabs, &ins, "/w/env", "/bin/ld");
    let again = readd_all(once.clone(), &ins, "/w/env", "/bin/ld");
    assert_eq!(encode(&again), encode(&once));
    // the foreign entry is untouched and first, the rebuilt groups follow
    let labels = names(&once);
    assert_eq!(
        labels,
        vec![
            "# foreign\n@reboot true",
            "https://e.com/a.git",
            "new.sh",
            "https://e.com/b.git",
        ]
    );
}

#[test]
fn defaults_match_the_front_ends() {
    assert_eq!(default_whitelist(), ".*\\.ts$");
    assert_eq!(default_branch(), "master");
}
