//! Paths: taken apart, put together, and named anew for backups.

use sedc::command::{CommandData, ProcessingContext};
use sedc::compiler::compile;
use sedc::in_place::InPlace;
use sedc::paths::{join, split_path};
use sedc::script_line_provider::ScriptValue;
use std::path::{Path, PathBuf};

// All paths of up to six characters from a small set.
fn many_paths() -> Vec<String> {
    let mut all = vec![String::new()];
    let mut longest = all.clone();
    for _ in 0..6 {
        let mut longer = Vec::new();
        for path in &longest {
            for c in ["a", ".", "/"] {
                longer.push(format!("{}{}", path, c));
            }
        }
        all.extend_from_slice(&longer);
        longest = longer;
    }
    all
}

fn backup(path: &[u8], suffix: &str, drives: bool) -> Option<Vec<u8>> {
    let mut context = ProcessingContext::default();
    context.in_place = true;
    context.in_place_suffix = Some(suffix.to_string());
    context.drive_paths = drives;
    let mut state = InPlace::new(&context);
    state.begin(path, true).unwrap();
    state.end().unwrap().backup
}

fn text(bytes: &[u8]) -> String {
    String::from_utf8(bytes.to_vec()).unwrap()
}

#[test]
fn a_backup_is_next_to_its_file() {
    for (path, expected) in [
        ("f", "f~"),
        ("/f", "/f~"),
        ("dir/f", "dir/f~"),
        ("a//b", "a/b~"),
        ("a/./b", "a/b~"),
        ("a//b//c", "a//b/c~"),
        ("./f", "./f~"),
        ("../f", "../f~"),
        ("dir/f/", "dir/f~"),
        (".f", ".f~"),
    ] {
        assert_eq!(text(&backup(path.as_bytes(), "~", false).unwrap()), expected);
    }
    for path in ["", "/", ".", "..", "dir/.."] {
        assert!(split_path(path.as_bytes(), false).is_none());
    }
}

#[test]
fn paths_are_taken_apart_as_the_platform_does() {
    for path in many_paths() {
        let expected = Path::new(&path).file_name().map(|name| {
            let parent = Path::new(&path).parent().unwrap().to_str().unwrap().to_string();
            (parent, name.to_str().unwrap().to_string())
        });
        let parts = split_path(path.as_bytes(), false);
        let parts = parts.map(|(parent, name)| (text(&parent), text(&name)));
        assert_eq!(parts, expected, "{}", path);
        if let Some((_, name)) = expected {
            let mut renamed = PathBuf::from(&path);
            renamed.set_file_name(format!("{}.bak", name));
            let kept = backup(path.as_bytes(), ".bak", false).unwrap();
            assert_eq!(text(&kept), renamed.to_str().unwrap(), "{}", path);
        }
    }
}

#[test]
fn paths_are_joined_as_the_platform_does() {
    for dir in ["", "/", "/work", "/work/", "a"] {
        for path in many_paths() {
            let expected = Path::new(dir).join(&path);
            let out = join(dir.as_bytes(), path.as_bytes(), false);
            assert_eq!(text(&out), expected.to_str().unwrap(), "{} {}", dir, path);
        }
    }
}

#[test]
fn drives_and_shares_are_prefixes() {
    for (dir, path, expected) in [
        ("D:\\w", "C:\\x", "C:\\x"),
        ("D:\\w", "C:/x", "C:/x"),
        ("D:\\w", "C:x", "C:x"),
        ("D:\\w", "x", "D:\\w\\x"),
        ("D:\\", "x\\y", "D:\\x\\y"),
        ("D:", "x", "D:x"),
        ("D:\\w", "\\x", "D:\\x"),
        ("D:\\w", "/x", "D:/x"),
        ("D:\\w", "\\\\server\\share\\x", "\\\\server\\share\\x"),
        ("D:\\w", "\\\\.\\COM1", "\\\\.\\COM1"),
        ("\\\\server\\share\\w", "\\x", "\\\\server\\share\\x"),
        ("D:\\w", "\\\\server", "D:\\\\server"),
        ("D:\\w", "1:x", "D:\\w\\1:x"),
    ] {
        assert_eq!(text(&join(dir.as_bytes(), path.as_bytes(), true)), expected);
    }
    for (path, expected) in [
        ("C:\\a\\b", "C:\\a\\b~"),
        ("C:\\a/b", "C:\\a\\b~"),
        ("C:\\b", "C:\\b~"),
        ("C:b", "C:b~"),
        ("a\\\\b", "a\\b~"),
        (".\\b", ".\\b~"),
        ("\\\\server\\share\\b", "\\\\server\\share\\b~"),
        ("\\\\?\\C:\\a\\b", "\\\\?\\C:\\a\\b~"),
    ] {
        assert_eq!(text(&backup(path.as_bytes(), "~", true).unwrap()), expected);
    }
    assert!(split_path(b"C:\\", true).is_none());
}

#[test]
fn a_path_with_a_drive_is_read_as_it_is() {
    for (drives, expected) in [(true, "C:\\x"), (false, "D:\\w/C:\\x")] {
        let mut context = ProcessingContext::default();
        context.drive_paths = drives;
        context.current_dir = Some(b"D:\\w".to_vec());
        compile(vec![ScriptValue::StringVal(b"r C:\\x".to_vec())], &mut context).unwrap();
        match &context.commands[0].data {
            CommandData::Path(path) => assert_eq!(text(path), expected),
            data => panic!("Expected a path: {:?}", data),
        }
    }
}
