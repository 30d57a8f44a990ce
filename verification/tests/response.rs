use octobuild::prepare::{create_task, parse_arguments};
use octobuild::compiler::CommandInfo;
use octobuild::response::{parse_response, ArgumentLoader, LoadStep};

use std::collections::HashMap;

fn strings(items: &[&str]) -> Vec<String> {
    items.iter().map(|s| s.to_string()).collect()
}

fn load(base: Option<&str>, args: &[&str], files: &[(&str, &str)]) -> Vec<String> {
    let files: HashMap<&str, &str> = files.iter().cloned().collect();
    let mut loader = ArgumentLoader::new(base.map(|s| s.to_string()), strings(args));
    loop {
        match loader.next() {
            LoadStep::Read(path) => loader.supply(files[path.as_str()]),
            LoadStep::Done(args) => return args,
            LoadStep::TooMany => panic!("too many response files"),
        }
    }
}

#[test]
fn response_text_is_split_at_gaps() {
    assert_eq!(parse_response("/c /Fo out.obj\tsample.cpp\r\n"), strings(&["/c", "/Fo", "out.obj", "sample.cpp"]));
    assert_eq!(parse_response(""), strings(&[]));
    assert_eq!(parse_response("  \n "), strings(&[]));
}

#[test]
fn response_text_quotes() {
    assert_eq!(parse_response("/I\"c:\\Program Files\\x\" \"a b\".cpp"), strings(&["/Ic:\\Program Files\\x", "a b.cpp"]));
    assert_eq!(parse_response("\"\" x"), strings(&["", "x"]));
    assert_eq!(parse_response("/D\"NAME=\\\"v 1\\\"\""), strings(&["/DNAME=\"v 1\""]));
    assert_eq!(parse_response("c:\\dir\\file.cpp \\"), strings(&["c:\\dir\\file.cpp", "\\"]));
    assert_eq!(parse_response("\"open to the end"), strings(&["open to the end"]));
}

#[test]
fn response_file_classifies_as_the_inline_arguments() {
    let inline = strings(&["/c", "/Fo", "out.obj", "sample.cpp"]);
    let loaded = load(None, &["@rsp.txt"], &[("rsp.txt", "/c /Fo out.obj sample.cpp")]);
    assert_eq!(loaded, inline);
    assert_eq!(parse_arguments(&loaded), parse_arguments(&inline));
    let command = CommandInfo { program: "cl.exe".to_string(), current_dir: None };
    assert_eq!(create_task(command.clone(), &loaded), create_task(command, &inline));
}

#[test]
fn response_files_are_seen_from_the_base_and_may_nest() {
    let files = [("work/a.rsp", "/DA @b.rsp /DC"), ("work/b.rsp", "/DB\n\"x y.cpp\"")];
    assert_eq!(
        load(Some("work"), &["/c", "@a.rsp", "last.cpp"], &files),
        strings(&["/c", "/DA", "/DB", "x y.cpp", "/DC", "last.cpp"])
    );
    assert_eq!(load(Some("work"), &["/c"], &files), strings(&["/c"]));
    assert_eq!(load(None, &[], &files), strings(&[]));
}

#[test]
fn loader_asks_for_one_file_at_a_time() {
    let mut loader = ArgumentLoader::new(None, strings(&["/c", "@one", "@two"]));
    assert_eq!(loader.next(), LoadStep::Read("one".to_string()));
    loader.supply("a b");
    assert_eq!(loader.next(), LoadStep::Read("two".to_string()));
    loader.supply("");
    assert_eq!(loader.next(), LoadStep::Done(strings(&["/c", "a", "b"])));
    assert_eq!(loader.next(), LoadStep::Done(strings(&[])));
}

#[test]
fn a_response_file_that_names_itself_is_given_up() {
    let mut loader = ArgumentLoader::new(None, strings(&["/c", "@loop.rsp", "a.cpp"]));
    let mut reads = 0;
    loop {
        match loader.next() {
            LoadStep::Read(path) => {
                assert_eq!(path, "loop.rsp");
                reads += 1;
                loader.supply("/nologo @loop.rsp");
            },
            LoadStep::Done(args) => panic!("{:?}", args),
            LoadStep::TooMany => break,
        }
    }
    assert_eq!(reads, octobuild::response::RESPONSE_FILES_LIMIT);
    assert_eq!(loader.budget, 0);
    assert_eq!(loader.pending, strings(&["@loop.rsp", "a.cpp"]));
    assert_eq!(loader.loaded.len(), 1 + reads);
    assert_eq!(loader.next(), LoadStep::TooMany);
}
