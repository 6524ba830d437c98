//! Setup files of CPython.

use stampdist::setup::{
    can_parse_setup_dist, can_parse_setup_line, can_parse_setup_local, parse_setup_dist, parse_setup_line,
    parse_setup_local, SetupEntry,
};
use stampdist::text::{split_lines, split_words, TextMap};

fn modules(line: &str) -> TextMap<SetupEntry> {
    let mut modules: TextMap<SetupEntry> = TextMap::new();
    parse_setup_line(&mut modules, line);
    modules
}

fn entry(line: &str) -> SetupEntry {
    modules(line).entries()[0].1.clone()
}

fn names(modules: &TextMap<SetupEntry>) -> Vec<&str> {
    modules.entries().iter().map(|(name, _)| name.as_str()).collect()
}

#[test]
fn line_with_everything() {
    let modules = modules("_scproxy Mac/_scproxy.c util.c -lz -lm -framework SystemConfiguration -I. -framework Core # c.c");
    assert_eq!(names(&modules), ["_scproxy"]);
    let entry = &modules.entries()[0].1;
    assert_eq!(entry.module, "_scproxy");
    assert_eq!(entry.object_filenames, ["_scproxy.o", "util.o"]);
    assert_eq!(entry.libraries, ["z", "m"]);
    assert_eq!(entry.frameworks, ["SystemConfiguration", "Core"]);
}

#[test]
fn lines_that_say_nothing() {
    for line in ["", "   ", "# a b", "posix", "posix # posixmodule.c", "\t#"] {
        assert_eq!(modules(line).len(), 0);
    }
}

#[test]
fn object_names() {
    // The first word counts as a source file too.
    assert_eq!(entry("a.c b").object_filenames, ["a.o"]);
    for (source, object) in [
        ("/x.c", "x.o"),
        ("d/x.c", "x.o"),
        ("x.y.c", "x.y.o"),
        (".c", ".c.o"),
        ("d/.c", ".c.o"),
        (".x.c", ".x.o"),
        ("x..c", "x..o"),
        ("...c", "...o"),
        (".c.c", ".c.o"),
        ("-lx.c", "-lx.o"),
        ("d.c/x.c", "x.o"),
    ] {
        let res = entry(&format!("m {}", source));
        assert_eq!(res.object_filenames, [object]);
        assert!(res.libraries.is_empty());
        let theirs = std::path::PathBuf::from(source).with_extension("o");
        assert_eq!(theirs.file_name().unwrap().to_str().unwrap(), object);
    }
}

#[test]
fn library_names() {
    assert_eq!(entry("m -l -l\u{e9} -L/lib").libraries, ["", "\u{e9}"]);
}

#[test]
fn framework_is_the_next_word() {
    let res = entry("m -framework -lz -framework x.c");
    assert_eq!(res.frameworks, ["-lz", "x.c"]);
    assert_eq!(res.libraries, ["z"]);
    assert_eq!(res.object_filenames, ["x.o"]);
}

#[test]
fn comments_have_no_effect() {
    let a = entry("m x.c -lz");
    let b = entry("m x.c -lz# y.c -framework");
    assert_eq!(a.object_filenames, b.object_filenames);
    assert_eq!(a.libraries, b.libraries);
    assert_eq!(a.frameworks, b.frameworks);
}

#[test]
fn later_lines_count() {
    let mut modules = modules("b x.c");
    parse_setup_line(&mut modules, "a y.c");
    parse_setup_line(&mut modules, "b z.c");
    assert_eq!(names(&modules), ["a", "b"]);
    assert_eq!(modules.get(&String::from("b")).unwrap().object_filenames, ["z.o"]);
    assert_eq!(modules.get(&String::from("a")).unwrap().object_filenames, ["y.o"]);
    for (name, entry) in modules.entries() {
        assert_eq!(name, &entry.module);
    }
}

#[test]
fn setup_dist() {
    let mut modules: TextMap<SetupEntry> = TextMap::new();
    let data = b"DESTLIB=$(LIBDEST) x\r\n# comment\nPYTHONPATH=$(COREPYTHONPATH) y.c\nposix posixmodule.c\n\
        PYTHONPATH=again z.c\nerrno errnomodule.c"
        .to_vec();
    parse_setup_dist(&mut modules, &data);
    assert_eq!(
        names(&modules),
        ["DESTLIB=$(LIBDEST)", "PYTHONPATH=again", "errno", "posix"]
    );
    assert_eq!(modules.get(&String::from("errno")).unwrap().object_filenames, ["errnomodule.o"]);
}

#[test]
fn setup_local() {
    let mut modules: TextMap<SetupEntry> = TextMap::new();
    let mut data = b"*static*\na a.c\n*static* x\n*disabled*x b.c\n*disabled*\n".to_vec();
    let without = data.clone();
    data.extend_from_slice(b"c c.c\n\xff\xff -framework\nd -framework\n");
    parse_setup_local(&mut modules, &data);
    assert_eq!(names(&modules), ["*disabled*x", "*static*", "a"]);
    let mut same: TextMap<SetupEntry> = TextMap::new();
    parse_setup_local(&mut same, &without);
    assert_eq!(names(&same), names(&modules));
}

#[test]
fn lines_that_can_be_read() {
    for line in ["", "-framework", "m", "m x.c", "m -framework -framework x", "m # -framework", "-framework m"] {
        assert!(can_parse_setup_line(line));
    }
    for line in ["m -framework", "m x.c -framework ", "m -framework# x", "-framework -framework"] {
        assert!(!can_parse_setup_line(line));
    }
}

#[test]
fn files_that_can_be_read() {
    for (data, dist, local) in [
        (&b""[..], true, true),
        (b"a a.c\r\nb b.c", true, true),
        (b"a a.c\nb -framework\nc c.c", false, false),
        (b"PYTHONPATH=x -framework\na a.c", true, false),
        (b"PYTHONPATH=x -framework\nPYTHONPATH=y -framework", false, false),
        (b"a a.c\n\xff b.c\n", false, false),
        (b"*static*\na a.c\n*disabled*\n\xff b.c\nc -framework", false, true),
        (b"a -framework\n*disabled*\n", false, false),
        (b"\xff\n*disabled*\n", false, false),
    ] {
        assert_eq!(can_parse_setup_dist(&data.to_vec()), dist);
        assert_eq!(can_parse_setup_local(&data.to_vec()), local);
    }
}

#[test]
fn lines_are_those_of_std() {
    for data in ["", "\n", "a", "a\n", "a\r\n", "a\r", "\r\n\r\n", "a\n\nb", "a\r\r\nb", "\ra"] {
        let theirs: Vec<Vec<u8>> = std::io::BufRead::lines(std::io::Cursor::new(data))
            .map(|line| line.unwrap().into_bytes())
            .collect();
        assert_eq!(split_lines(data.as_bytes()), theirs);
    }
}

#[test]
fn words_are_those_of_std() {
    for text in ["", " ", "a", " a  b\t", "a\u{a0}b\u{3000}c", "\u{200b}x", "a\u{85}b", "\u{1c}a"] {
        let theirs: Vec<String> = text.split_whitespace().map(String::from).collect();
        assert_eq!(split_words(text), theirs);
    }
}
