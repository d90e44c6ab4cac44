use linky::path::{as_relative, file_name, is_absolute, join, with_file_name};
use std::path::{Component, Path};

const PATHS: [&str; 40] = [
    "", ".", "..", "/", "//", "./", "../", "/.", "/..", "a", "a/", "a/.", "a/..", "/a", "/a/", "//a",
    "///a//", "./a", "./a/", "././a", "a/b", "a//b", "a/./b", "a/../b", "/a/b", "/./a", "/././a/./b/./",
    "a/b/.", "a/b/./.", "a/b//.//", "./.", ".a", "/.a", "a.", "a/b.", "..a", "a/..b/..", "\u{e9}/\u{e8}.md",
    "path/to/example.md", "/path/to/example.md",
];

const NAMES: [&str; 12] = [
    "", "x", "x.md", "x#y", "../x", "a/b", "/abs", ".", "./x", "x/", "\u{fc}", "#f",
];

fn std_relative(path: &str) -> String {
    let mut components = Path::new(path).components();
    while components.as_path().has_root() {
        components.next();
    }
    components.as_path().to_string_lossy().to_string()
}

#[test]
fn absolute_paths() {
    for path in PATHS {
        assert_eq!(is_absolute(path), !Path::new(path).is_relative(), "{:?}", path);
    }
}

#[test]
fn relative_paths() {
    for path in PATHS {
        assert_eq!(as_relative(path), std_relative(path), "{:?}", path);
    }
    for path in PATHS {
        let relative = as_relative(path);
        let parts = Path::new(path).components().filter(|part| *part != Component::RootDir);
        assert!(Path::new(relative).components().eq(parts), "{:?}", path);
        assert_eq!(as_relative(relative), relative);
    }
    assert_eq!(as_relative("//a/../b"), "a/../b");
    assert_eq!(as_relative("/"), "");
    assert_eq!(as_relative("/a/b"), "a/b");
    assert_eq!(as_relative("///a//./b/./"), "a//./b");
}

#[test]
fn file_names() {
    for path in PATHS {
        let expected = Path::new(path).file_name().map(|name| name.to_string_lossy().to_string());
        assert_eq!(file_name(path).map(|name| name.to_string()), expected, "{:?}", path);
    }
    assert_eq!(file_name("path/to/example.md"), Some("example.md"));
    assert_eq!(file_name(".."), None);
}

#[test]
fn joined_paths() {
    for path in PATHS {
        for name in NAMES {
            let expected = Path::new(path).join(name).to_string_lossy().to_string();
            assert_eq!(join(path, name), expected, "{:?} {:?}", path, name);
        }
    }
    assert_eq!(join("root", "a/b"), "root/a/b");
}

#[test]
fn replaced_file_names() {
    for path in PATHS {
        for name in NAMES {
            let expected = Path::new(path).with_file_name(name).to_string_lossy().to_string();
            assert_eq!(with_file_name(path, name), expected, "{:?} {:?}", path, name);
        }
    }
    assert_eq!(with_file_name("path/to/example.md", "other.md"), "path/to/other.md");
}

#[test]
fn replaced_names_stay_in_the_directory() {
    for path in PATHS {
        let changed = with_file_name(path, "x.md");
        assert_eq!(file_name(&changed), Some("x.md"), "{:?}", path);
        if file_name(path).is_some() {
            assert_eq!(Path::new(&changed).parent(), Path::new(path).parent(), "{:?}", path);
        }
        assert!(!is_absolute(as_relative(path)), "{:?}", path);
        assert!(join("root", as_relative(path)).starts_with("root"), "{:?}", path);
    }
}
