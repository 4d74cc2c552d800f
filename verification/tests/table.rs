use light_dragon::codec::{decode, encode};
use light_dragon::errors::Error;
use light_dragon::item::{Item, ItemArgs, Payload, RepoArgs};

fn structured(schedule: &str, cmd: &str, group: &str, name: &str, ra: Option<(&str, &str)>) -> Item {
    Item {
        schedule: schedule.to_string(),
        cmd: cmd.to_string(),
        args: Payload::Structured(ItemArgs {
            group: group.to_string(),
            name: name.to_string(),
            repo_args: ra.map(|(w, b)| RepoArgs { whitelist: w.to_string(), branch: b.to_string() }),
        }),
    }
}

#[test]
fn test() {}

#[test]
fn round_trip_well_formed_table() {
    let text = "# @light-dragon: {\"group\":\"_repo\",\"name\":\"https://example.com/x.git\",\"repo_args\":{\"whitelist\":\".*\\\\.sh$\",\"branch\":\"main\"}}\n0 2 * * * cd /tmp/x && git fetch origin main\n# a foreign comment\n*/5 * * * * /usr/bin/true\n";
    let items = decode(text);
    assert_eq!(items.len(), 2);
    match &items[0].args {
        Payload::Structured(a) => {
            assert_eq!(a.group, "_repo");
            assert_eq!(a.name, "https://example.com/x.git");
            let ra = a.repo_args.as_ref().unwrap();
            assert_eq!(ra.whitelist, ".*\\.sh$");
            assert_eq!(ra.branch, "main");
        }
        Payload::Opaque(_) => panic!("first block should be structured"),
    }
    assert_eq!(items[0].schedule, "0 2 * * *");
    assert_eq!(items[0].cmd, "cd /tmp/x && git fetch origin main");
    assert_eq!(encode(&items), text);
}

#[test]
fn foreign_block_preserved() {
    let text = "# some note\n# another note\n@reboot /usr/local/bin/startup\n";
    let items = decode(text);
    assert_eq!(items.len(), 1);
    match &items[0].args {
        Payload::Opaque(raw) => {
            assert_eq!(raw, "# some note\n# another note\n@reboot /usr/local/bin/startup");
        }
        Payload::Structured(_) => panic!("a block without the marker must stay opaque"),
    }
    assert_eq!(encode(&items), text);
}

#[test]
fn malformed_payload_degrades_to_opaque() {
    // whitespace after the colon is not the canonical serialization
    let text = "# @light-dragon: { \"group\": \"_repo\" }\n0 0 * * * true\n";
    let items = decode(text);
    assert_eq!(items.len(), 1);
    assert!(matches!(items[0].args, Payload::Opaque(_)));
    assert_eq!(encode(&items), text);
}

#[test]
fn short_schedule_line_stays_opaque() {
    let text = "# @light-dragon: {\"group\":\"g\",\"name\":\"n\",\"repo_args\":null}\n0 0 *\n";
    let items = decode(text);
    assert_eq!(items.len(), 1);
    assert!(matches!(items[0].args, Payload::Opaque(_)));
    assert_eq!(encode(&items), text);
}

#[test]
fn trailing_comment_lines_are_kept() {
    let text = "0 0 * * * true\n# dangling comment\n";
    let items = decode(text);
    assert_eq!(items.len(), 2);
    assert!(matches!(items[1].args, Payload::Opaque(_)));
    assert_eq!(encode(&items), text);
}

#[test]
fn empty_table_decodes_to_nothing() {
    let items = decode("");
    assert_eq!(items.len(), 0);
    assert_eq!(encode(&items), "");
}

#[test]
fn encode_escapes_payload_strings() {
    let items = vec![structured(
        "0 0 * * *",
        "true",
        "_repo",
        "a\"b\\c",
        Some((".*\\.ts$", "main")),
    )];
    let text = encode(&items);
    assert_eq!(
        text,
        "# @light-dragon: {\"group\":\"_repo\",\"name\":\"a\\\"b\\\\c\",\"repo_args\":{\"whitelist\":\".*\\\\.ts$\",\"branch\":\"main\"}}\n0 0 * * * true\n"
    );
    let back = decode(&text);
    assert_eq!(back.len(), 1);
    match &back[0].args {
        Payload::Structured(a) => {
            assert_eq!(a.name, "a\"b\\c");
            assert_eq!(a.repo_args.as_ref().unwrap().whitelist, ".*\\.ts$");
        }
        Payload::Opaque(_) => panic!("escaped payload should decode"),
    }
}

#[test]
fn control_characters_round_trip() {
    let items = vec![structured("* * * * *", ":", "g", "a\tb\nc\u{1}d", None)];
    let text = encode(&items);
    let back = decode(&text);
    assert_eq!(back.len(), 1);
    match &back[0].args {
        Payload::Structured(a) => assert_eq!(a.name, "a\tb\nc\u{1}d"),
        Payload::Opaque(_) => panic!("control characters should decode"),
    }
}

#[test]
fn error_texts() {
    assert_eq!(Error::Conflict.text(), "repo already exists");
    assert_eq!(Error::NotFound.text(), "repo not found");
    assert_eq!(Error::BadPattern.text(), "invalid whitelist pattern");
}
