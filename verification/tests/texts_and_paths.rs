//! Texts, paths, ordered maps and moments.

use std::path::{Component, Path, PathBuf};

use zeldex::path::{
    common_prefix_len, components, depth, file_extension, file_name, file_stem, is_path_before,
    is_same_path, join_path, normalize_path, path_starts_with, Step,
};
use zeldex::sorted_map::SortedMap;
use zeldex::status::AgentStatusKind;
use zeldex::text::{
    concat2, copy_text, decimal_text, first_chars, is_text, is_text_before, is_white_char, joined,
    lines_of, parse_unsigned, repeat_char, same_text, starts_with, trimmed, trimmed_end,
};
use zeldex::time::{checked_earlier, has_passed, is_before, unix_seconds, Timestamp};

const PATHS: [&str; 24] = [
    "",
    "/",
    "//",
    ".",
    "..",
    "./a",
    "a/.",
    "a/./b",
    "/./a",
    "a//b/",
    "/a/b/../c",
    "../a",
    "/..",
    "a/b.tar.gz",
    ".hidden",
    "..x",
    "a/..",
    "/tmp/project",
    "/tmp/project/",
    "/tmp/projector",
    "x.",
    "a/.b.c",
    "ä/ö",
    "./",
];

const TEXTS: [&str; 12] = [
    "",
    "\n",
    "a\nb",
    "a\r\nb\r\n",
    "\r",
    "a\r",
    "a\n\nb\n",
    " \t x \u{3000}",
    "\u{85}y\u{a0}",
    "\u{200b}z\u{2009}",
    "\r\n\r\n",
    "ä…●",
];

#[test]
fn lines_and_white_space_follow_std() {
    for text in TEXTS {
        let lines: Vec<String> = text.lines().map(|line| line.to_owned()).collect();
        assert_eq!(lines_of(text), lines);
        assert_eq!(trimmed(text), text.trim());
        assert_eq!(trimmed_end(text), text.trim_end());
        assert_eq!(first_chars(text, 2), text.chars().take(2).collect::<String>());
        for other in TEXTS {
            assert_eq!(same_text(text, other), text == other);
            assert_eq!(starts_with(text, other), text.starts_with(other));
            assert_eq!(is_text_before(text, other), text < other);
            assert_eq!(concat2(text, other), format!("{text}{other}"));
        }
    }
    for code in 0..0x3100u32 {
        if let Some(ch) = char::from_u32(code) {
            assert_eq!(is_white_char(ch), ch.is_whitespace());
        }
    }
    assert!(!is_white_char('\u{feff}'));
}

#[test]
fn numbers_follow_std() {
    for value in [0, 7, 10, 99, 12345, u64::MAX] {
        assert_eq!(decimal_text(value), value.to_string());
        assert_eq!(parse_unsigned(&decimal_text(value), u64::MAX), Some(value));
    }
    for text in ["", "+", "-", "+1", "-0", "007", "1a", " 1", "18446744073709551616", "٣"] {
        assert_eq!(parse_unsigned(text, u64::MAX), text.parse::<u64>().ok());
        assert_eq!(
            parse_unsigned(text, u32::MAX as u64),
            text.parse::<u32>().ok().map(u64::from)
        );
    }
    assert_eq!(parse_unsigned("8", 7), None);
}

#[test]
fn small_text_helpers() {
    assert_eq!(joined(&vec!["a".to_owned(), String::new(), "b".to_owned()], "--"), "a----b");
    assert_eq!(joined(&vec![], "-"), "");
    assert_eq!(repeat_char('ä', 3), "äää");
    assert!(is_text(Some("x"), "x"));
    assert!(!is_text(None, ""));
    assert_eq!(copy_text(&Some("x".to_owned())), Some("x".to_owned()));
    assert_eq!(copy_text(&None), None);
}

#[test]
fn components_follow_std() {
    for path in PATHS {
        let expected: Vec<Component> = Path::new(path).components().collect();
        let found = components(path);
        assert_eq!(found.len(), expected.len());
        for (step, component) in found.iter().zip(expected) {
            match (step, component) {
                (Step::Root, Component::RootDir) => {}
                (Step::Current, Component::CurDir) => {}
                (Step::Parent, Component::ParentDir) => {}
                (Step::Normal(name), Component::Normal(other)) => {
                    assert_eq!(name.as_str(), other.to_str().unwrap());
                }
                _ => panic!("{path}"),
            }
        }
    }
}

#[test]
fn names_on_paths_follow_std() {
    for path in PATHS {
        let expected = Path::new(path);
        let name = expected.file_name().map(|part| part.to_str().unwrap().to_owned());
        let stem = expected.file_stem().map(|part| part.to_str().unwrap().to_owned());
        let extension = expected.extension().map(|part| part.to_str().unwrap().to_owned());
        assert_eq!(file_name(path), name);
        assert_eq!(file_stem(path), stem);
        assert_eq!(file_extension(path), extension);
    }
}

#[test]
fn pairs_of_paths_follow_std() {
    for left in PATHS {
        for right in PATHS {
            let (a, b) = (Path::new(left), Path::new(right));
            assert_eq!(is_same_path(left, right), a == b);
            assert_eq!(path_starts_with(left, right), a.starts_with(b));
            assert_eq!(is_path_before(left, right), a < b);
            assert_eq!(join_path(left, right), a.join(b).to_str().unwrap());
            let common = a
                .components()
                .zip(b.components())
                .take_while(|(x, y)| x == y)
                .count();
            assert_eq!(common_prefix_len(left, right), common);
        }
    }
}

#[test]
fn normal_paths_follow_std() {
    for path in PATHS {
        let mut expected = PathBuf::new();
        let mut steps = 0;
        for component in Path::new(path).components() {
            match component {
                Component::CurDir => {}
                Component::ParentDir => {
                    expected.pop();
                }
                other => expected.push(other.as_os_str()),
            }
            if matches!(
                component,
                Component::Normal(_) | Component::RootDir | Component::Prefix(_)
            ) {
                steps += 1;
            }
        }
        let normal = normalize_path(path);
        assert_eq!(normal, expected.to_str().unwrap());
        assert_eq!(normalize_path(&normal), normal);
        assert_eq!(depth(path), steps);
    }
}

#[test]
fn maps_stay_in_order() {
    let mut map: SortedMap<String, String> = SortedMap::new();
    for key in ["b", "a", "c", "ab", "b"] {
        map.insert(key.to_owned(), format!("{key}!"));
    }
    let keys: Vec<&str> = (0..map.len()).map(|i| map.key_at(i).as_str()).collect();
    assert_eq!(keys, vec!["a", "ab", "b", "c"]);
    assert_eq!(map.value_at(2), "b!");
    assert_eq!(map.find("ab").map(|value| value.as_str()), Some("ab!"));
    map.remove(&"ab".to_owned());
    map.remove(&"zz".to_owned());
    assert!(!map.contains_key(&"ab".to_owned()));
    map.remove_all(&vec!["a".to_owned(), "c".to_owned(), "x".to_owned()]);
    assert_eq!(map.len(), 1);
    assert_eq!(map.key_at(0), "b");
}

#[test]
fn moments_are_ordered() {
    let moment = |secs: i64, nanos: u32| Timestamp { secs, nanos };
    assert!(is_before(moment(1, 2), moment(1, 3)));
    assert!(!is_before(moment(1, 2), moment(1, 2)));
    assert!(is_before(moment(-1, 9), moment(0, 0)));
    assert_eq!(unix_seconds(moment(-1, 999)), 0);
    assert_eq!(unix_seconds(moment(7, 999)), 7);
    assert_eq!(checked_earlier(moment(5, 1), 7), Some(moment(-2, 1)));
    assert_eq!(checked_earlier(moment(i64::MIN, 0), 1), None);
    assert!(has_passed(10, moment(13, 0), 3));
    assert!(!has_passed(10, moment(12, 999_999_999), 3));
    assert!(!has_passed(u64::MAX, moment(i64::MAX, 0), 3));
}

#[test]
fn states_have_marks_and_names() {
    let all = [
        AgentStatusKind::Idle,
        AgentStatusKind::Running,
        AgentStatusKind::Waiting,
        AgentStatusKind::Done,
    ];
    let marks: Vec<&str> = all.iter().map(|kind| kind.badge()).collect();
    assert_eq!(marks, vec!["·", "…", "●", "✓"]);
    let labels: Vec<&str> = all.iter().map(|kind| kind.label()).collect();
    assert_eq!(labels, vec!["", "run", "wait", "done"]);
    let priorities: Vec<usize> = all.iter().map(|kind| kind.priority()).collect();
    assert_eq!(priorities, vec![0, 2, 3, 1]);
    let attention: Vec<bool> = all.iter().map(|kind| kind.is_attention()).collect();
    assert_eq!(attention, vec![false, false, true, true]);
    assert_eq!(AgentStatusKind::default(), AgentStatusKind::Idle);
}
