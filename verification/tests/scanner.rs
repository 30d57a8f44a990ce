use octobuild::includes::Include;
use octobuild::paths::{normalize_path, path_extension, path_join, path_parent, path_with_extension};
use octobuild::scanner::{
    collect_includes, search_paths, IncludeBehaviour, IncludeCacher, IncludeCombine, IncludeInfo,
    IncludeReader, IncludeState, ScanError,
};

use std::collections::HashMap;
use std::rc::Rc;

struct MemoryFiles {
    files: HashMap<String, Vec<u8>>,
    asked: Vec<String>,
}

impl MemoryFiles {
    fn new(files: &[(&str, &str)]) -> Self {
        MemoryFiles {
            files: files.iter().map(|(k, v)| (k.to_string(), v.as_bytes().to_vec())).collect(),
            asked: Vec::new(),
        }
    }
}

impl IncludeState for MemoryFiles {
    fn file_includes(&mut self, source_file: &str) -> Result<Option<Rc<IncludeInfo>>, ScanError> {
        let reader = IncludeReader::new();
        let path = reader.locate(source_file)?;
        self.asked.push(path.clone());
        match self.files.get(&path) {
            Some(content) => reader.parse(path, content).map(Some),
            None => Ok(None),
        }
    }
}

fn strings(items: &[&str]) -> Vec<String> {
    items.iter().map(|s| s.to_string()).collect()
}

fn sorted(mut items: Vec<String>) -> Vec<String> {
    items.sort();
    items
}

#[test]
fn normalize_drops_dots_and_double_separators() {
    assert_eq!(normalize_path("/usr/bin/../lib//gcc/./x.h"), Some("/usr/lib/gcc/x.h".to_string()));
    assert_eq!(normalize_path("a/./b/"), Some("a/b".to_string()));
    assert_eq!(normalize_path("a\\b\\..\\c.h"), Some("a/c.h".to_string()));
    assert_eq!(normalize_path(""), Some("".to_string()));
    assert_eq!(normalize_path("/"), Some("/".to_string()));
}

#[test]
fn normalize_refuses_to_leave_the_start() {
    assert_eq!(normalize_path("../a"), None);
    assert_eq!(normalize_path("/a/../.."), None);
}

#[test]
fn normalize_is_idempotent_on_examples() {
    for path in ["/usr/bin/../lib//gcc/./x.h", "a/./b/", "/", "x.h", "a\\b"] {
        let once = normalize_path(path).unwrap();
        assert_eq!(normalize_path(&once), Some(once.clone()));
    }
}

#[test]
fn parent_join_and_extension() {
    assert_eq!(path_parent("a/b/c.cpp"), Some("a/b".to_string()));
    assert_eq!(path_parent("/c.cpp"), Some("/".to_string()));
    assert_eq!(path_parent("c.cpp"), Some("".to_string()));
    assert_eq!(path_parent("/"), None);
    assert_eq!(path_parent(""), None);
    assert_eq!(path_join("a/b", "x.h"), "a/b/x.h");
    assert_eq!(path_join("a/b/", "x.h"), "a/b/x.h");
    assert_eq!(path_join("a/b", "/x.h"), "/x.h");
    assert_eq!(path_join("", "x.h"), "x.h");
    assert_eq!(path_extension("a/b.dir/c.CPP"), Some("CPP".to_string()));
    assert_eq!(path_extension("a/b.dir/c"), None);
    assert_eq!(path_extension(".profile"), None);
    assert_eq!(path_with_extension("dir.x/sample.cpp", "obj"), "dir.x/sample.obj");
    assert_eq!(path_with_extension("sample", "obj"), "sample.obj");
    assert_eq!(path_with_extension("dir/", "obj"), "dir/");
}

#[test]
fn clang_context_is_the_directory_of_the_file() {
    let context = strings(&["x", "y"]);
    assert_eq!(IncludeBehaviour::Clang.combine_context(&context, "a/b/c.cpp"), strings(&["a/b"]));
    assert_eq!(IncludeBehaviour::Clang.combine_context(&context, ""), strings(&[]));
}

#[test]
fn visual_studio_context_promotes_the_directory() {
    let context = strings(&["a", "a/b", "c"]);
    assert_eq!(
        IncludeBehaviour::VisualStudio.combine_context(&context, "a/b/file.h"),
        strings(&["a", "c", "a/b"])
    );
    assert_eq!(IncludeBehaviour::VisualStudio.combine_context(&context, "c/file.h"), strings(&["a", "a/b", "c"]));
    assert_eq!(
        IncludeBehaviour::VisualStudio.combine_context(&context, "d/file.h"),
        strings(&["a", "a/b", "c", "d"])
    );
    assert_eq!(IncludeBehaviour::VisualStudio.combine_context(&context, ""), strings(&["a", "a/b", "c"]));
}

#[test]
fn search_order_of_quote_and_bracket() {
    let context = strings(&["a", "a/b"]);
    let system = strings(&["/usr/include", "/opt/include"]);
    assert_eq!(
        search_paths(&Include::Quote("x.h".to_string()), &context, &system),
        strings(&["a/b/x.h", "a/x.h", "/usr/include/x.h", "/opt/include/x.h"])
    );
    assert_eq!(
        search_paths(&Include::Bracket("x.h".to_string()), &context, &system),
        strings(&["/usr/include/x.h", "/opt/include/x.h"])
    );
}

#[test]
fn absolute_include_is_searched_nowhere_else() {
    let context = strings(&["a", "a/b"]);
    let system = strings(&["/usr/include"]);
    assert_eq!(search_paths(&Include::Quote("/abs/x.h".to_string()), &context, &system), strings(&["/abs/x.h"]));
    assert_eq!(search_paths(&Include::Bracket("/abs/x.h".to_string()), &context, &system), strings(&["/abs/x.h"]));
    assert_eq!(
        search_paths(&Include::Quote("c:\\abs\\x.h".to_string()), &context, &system),
        strings(&["c:\\abs\\x.h"])
    );
}

#[test]
fn visual_studio_finds_through_promoted_context_and_clang_does_not() {
    let files = [
        ("a/main.cpp", "#include \"b/c.cpp\"\n"),
        ("a/b/c.cpp", "#include \"x.h\"\n"),
        ("a/x.h", "int x;\n"),
    ];
    let system: Vec<String> = Vec::new();

    let mut state = MemoryFiles::new(&files);
    let found = collect_includes(&mut state, "a/main.cpp", &system, &IncludeBehaviour::VisualStudio).unwrap();
    assert_eq!(sorted(found), strings(&["a/b/c.cpp", "a/main.cpp", "a/x.h"]));

    let mut state = MemoryFiles::new(&files);
    let found = collect_includes(&mut state, "a/main.cpp", &system, &IncludeBehaviour::Clang).unwrap();
    assert_eq!(sorted(found), strings(&["a/b/c.cpp", "a/main.cpp"]));
}

#[test]
fn include_cycles_end() {
    let files = [("a.h", "#include \"b.h\"\n"), ("b.h", "#include \"a.h\"\n#include <sys.h>\n"), ("inc/sys.h", "")];
    let mut state = MemoryFiles::new(&files);
    let found =
        collect_includes(&mut state, "a.h", &strings(&["inc"]), &IncludeBehaviour::VisualStudio).unwrap();
    assert_eq!(sorted(found), strings(&["a.h", "b.h", "inc/sys.h"]));
}

#[test]
fn missing_source_is_reported() {
    let mut state = MemoryFiles::new(&[]);
    match collect_includes(&mut state, "nothing.cpp", &Vec::new(), &IncludeBehaviour::Clang) {
        Err(ScanError::NotFound(path)) => assert_eq!(path, "nothing.cpp"),
        other => panic!("{:?}", other),
    }
}

#[test]
fn cacher_asks_for_each_file_once() {
    let files = [("a/x.h", "#include <y.h>\n")];
    let mut cacher = IncludeCacher::new(MemoryFiles::new(&files));
    let first = cacher.file_includes("a/./x.h").unwrap().unwrap();
    let second = cacher.file_includes("a/b/../x.h").unwrap().unwrap();
    assert_eq!(first.canonical_path, "a/x.h");
    assert_eq!(first.includes, vec![Include::Bracket("y.h".to_string())]);
    assert!(Rc::ptr_eq(&first, &second));
    assert_eq!(cacher.file_includes("a/none.h").unwrap(), None);
    assert_eq!(cacher.file_includes("a/none.h").unwrap(), None);
    assert_eq!(cacher.state.asked, strings(&["a/x.h", "a/none.h"]));
    match cacher.file_includes("../x.h") {
        Err(ScanError::InvalidPath(path)) => assert_eq!(path, "../x.h"),
        other => panic!("{:?}", other),
    }
}

#[test]
fn a_file_that_is_no_source_stops_the_walk() {
    let files = [("a.cpp", "#include \"b.h\"\n"), ("b.h", "const char* s = \"open")];
    let mut state = MemoryFiles::new(&files);
    match collect_includes(&mut state, "a.cpp", &Vec::new(), &IncludeBehaviour::Clang) {
        Err(ScanError::Source(e)) => assert_eq!(e, octobuild::includes::InvalidSource::UnexpectedEof),
        other => panic!("{:?}", other),
    }
}
