//! What a distribution is found to consist of.

use stampdist::config::{can_parse_config_c, parse_config_c};
use stampdist::dist::{
    all_in, all_only_static, analyze_python_distribution_data, check_python_entries, check_root_entries, collect_core_objects,
    collect_extension_modules, collect_includes, collect_resources, find_problem, include_path, python_path,
    stdlib_path, DistributionFiles, LinkEntry, PythonBuildCoreInfo, PythonBuildExtensionInfo, PythonBuildInfo,
    PythonJsonMain, PythonResource, PythonResourceType,
};
use stampdist::paths::{is_in, join_path, parts_of, text_of_part, PathText};
use stampdist::text::TextMap;

fn s(text: &str) -> String {
    String::from(text)
}

fn link(name: &str, path_static: Option<&str>) -> LinkEntry {
    LinkEntry {
        name: s(name),
        path_static: path_static.map(s),
        path_dynamic: None,
    }
}

fn extension(builtin: bool, objs: &[&str], links: Vec<LinkEntry>) -> PythonBuildExtensionInfo {
    PythonBuildExtensionInfo {
        builtin,
        init_fn: s("PyInit_x"),
        links,
        objs: objs.iter().map(|o| s(o)).collect(),
        static_lib: if builtin { None } else { Some(s("build/lib_x.a")) },
    }
}

fn resource(name: &str, flavor: PythonResourceType, path: &str) -> PythonResource {
    PythonResource {
        name: s(name),
        flavor,
        path: s(path),
    }
}

fn description() -> PythonJsonMain {
    let mut extensions: TextMap<PythonBuildExtensionInfo> = TextMap::new();
    extensions.insert(
        s("zlib"),
        extension(
            false,
            &["build/zlib.o"],
            vec![link("z", Some("build/lib/libz.a")), link("m", None)],
        ),
    );
    extensions.insert(s("_io"), extension(true, &["build/io.o", "build/buf.o"], vec![]));
    extensions.insert(
        s("binascii"),
        extension(false, &[], vec![link("z", Some("build/lib/libz2.a"))]),
    );
    PythonJsonMain {
        arch: s("x86_64"),
        os: s("linux"),
        python_exe: s("install/bin/python3"),
        python_flavor: s("cpython"),
        python_include: s("install/include/python3.7m"),
        python_stdlib: s("install/lib/python3.7"),
        python_version: s("3.7.2"),
        version: s("1"),
        build_info: PythonBuildInfo {
            core: PythonBuildCoreInfo {
                objs: vec![s("build/a.o"), s("build//b.o"), s("build/./b.o")],
                links: vec![],
            },
            extensions,
        },
    }
}

fn files() -> DistributionFiles {
    DistributionFiles {
        temp_dir: s("/tmp/d"),
        root_entries: vec![Some(s("python"))],
        python_entries: vec![
            Some(s("build")),
            Some(s("install")),
            Some(s("lib")),
            Some(s("LICENSE.rst")),
            Some(s("PYTHON.json")),
        ],
        python_json: description(),
        include_files: vec![
            s("/tmp/d/python/install/include/python3.7m/Python.h"),
            s("/tmp/d/python/install/include/python3.7m/internal/mem.h"),
            s("/tmp/d/python/install/include/top.h"),
        ],
        stdlib_files: vec![
            resource("os", PythonResourceType::Source, "/l/os.py"),
            resource("lib2to3/Grammar.txt", PythonResourceType::Resource, "/l/lib2to3/Grammar.txt"),
            resource("os", PythonResourceType::Other, "/l/os.pyc"),
        ],
    }
}

fn texts(map: &TextMap<String>) -> Vec<(&str, &str)> {
    map.entries().iter().map(|(k, v)| (k.as_str(), v.as_str())).collect()
}

#[test]
fn whole_distribution() {
    let files = files();
    assert!(find_problem(&files).is_none());
    let info = analyze_python_distribution_data(files).unwrap();
    assert_eq!(info.temp_dir, "/tmp/d");

    let objs: Vec<(&str, &str)> = info
        .objs_core
        .entries()
        .iter()
        .map(|(k, v)| (k.text.as_str(), v.as_str()))
        .collect();
    assert_eq!(
        objs,
        [
            ("build/a.o", "/tmp/d/python/build/a.o"),
            ("build//b.o", "/tmp/d/python/build/./b.o"),
        ]
    );

    let names: Vec<&str> = info
        .extension_modules
        .entries()
        .iter()
        .map(|(k, _)| k.as_str())
        .collect();
    assert_eq!(names, ["_io", "binascii", "zlib"]);
    let io = info.extension_modules.get(&s("_io")).unwrap();
    assert_eq!(io.module, "_io");
    assert_eq!(io.init_fn, Some(s("PyInit_x")));
    assert!(io.builtin_default);
    assert!(!io.disableable);
    assert_eq!(
        io.object_paths,
        ["/tmp/d/python/build/io.o", "/tmp/d/python/build/buf.o"]
    );
    assert_eq!(io.static_library, None);
    assert!(io.links.is_empty());
    let zlib = info.extension_modules.get(&s("zlib")).unwrap();
    assert!(!zlib.builtin_default);
    assert!(zlib.disableable);
    assert_eq!(zlib.static_library, Some(s("/tmp/d/python/build/lib_x.a")));
    assert_eq!(zlib.links.len(), 2);
    assert_eq!(zlib.links[0].name, "z");
    assert_eq!(zlib.links[0].static_path, Some(s("/tmp/d/python/build/lib/libz.a")));
    assert_eq!(zlib.links[0].dynamic_path, None);
    assert!(!zlib.links[0].framework);
    assert_eq!(zlib.links[1].name, "m");
    assert_eq!(zlib.links[1].static_path, None);

    assert_eq!(texts(&info.libraries), [("z", "/tmp/d/python/build/lib/libz.a")]);
    assert_eq!(
        texts(&info.includes),
        [
            ("", "/tmp/d/python/install/include/top.h"),
            ("Python.h", "/tmp/d/python/install/include/python3.7m/Python.h"),
            ("internal/mem.h", "/tmp/d/python/install/include/python3.7m/internal/mem.h"),
        ]
    );
    assert_eq!(texts(&info.py_modules), [("os", "/l/os.py")]);
    assert_eq!(
        texts(&info.resources),
        [("lib2to3/Grammar.txt", "/l/lib2to3/Grammar.txt")]
    );
    assert!(info.config_c.init_funcs.is_empty());
    assert_eq!(info.config_c.init_mods.len(), 0);
    assert!(info.config_c_in.init_funcs.is_empty());
    assert_eq!(info.config_c_in.init_mods.len(), 0);
    assert!(info.frozen_c.is_empty());
    assert_eq!(
        info.extension_modules_always,
        ["getbuildinfo.o", "getpath.o", "main.o", "gcmodule.o"]
    );
}

#[test]
fn relative_distribution() {
    let mut files = files();
    files.temp_dir.clear();
    files.include_files = vec![s("python/install/include/python3.7m/internal/mem.h")];
    assert!(find_problem(&files).is_none());
    let info = analyze_python_distribution_data(files).unwrap();
    assert_eq!(
        texts(&info.includes),
        [("internal/mem.h", "python/install/include/python3.7m/internal/mem.h")]
    );
    assert_eq!(texts(&info.libraries), [("z", "python/build/lib/libz.a")]);
}

#[test]
fn problems() {
    assert_eq!(find_problem(&files()), None);

    let mut other = files();
    other.root_entries.push(Some(s("extra")));
    other.root_entries.push(None);
    assert_eq!(
        find_problem(&other),
        Some(s("unexpected entry in distribution root directory: extra"))
    );

    let mut other = files();
    other.root_entries.insert(0, None);
    assert_eq!(
        find_problem(&other),
        Some(s("error listing root directory of Python distribution"))
    );

    let mut other = files();
    other.root_entries.clear();
    assert_eq!(find_problem(&other), Some(s("unable to list python/ directory")));

    let mut other = files();
    other.python_entries.retain(|name| name != &Some(s("PYTHON.json")));
    assert_eq!(find_problem(&other), Some(s("failed to read PYTHON.json")));

    let mut other = files();
    other.python_entries.push(Some(s("python")));
    assert_eq!(
        find_problem(&other),
        Some(s("unexpected entry in python/ directory: python"))
    );

    let mut other = files();
    other.python_entries.push(None);
    assert_eq!(find_problem(&other), Some(s("error listing python/ directory")));

    let mut other = files();
    let mut dynamic = extension(false, &[], vec![link("x", None)]);
    dynamic.links[0].path_dynamic = Some(s("x.so"));
    assert!(all_only_static(&other.python_json.build_info.extensions));
    other.python_json.build_info.extensions.insert(s("x"), dynamic);
    assert!(!all_only_static(&other.python_json.build_info.extensions));
    assert_eq!(find_problem(&other), Some(s("dynamic_path not yet supported")));

    let mut other = files();
    assert!(all_in("/tmp/d/python/install/include", &other.include_files));
    other.include_files.push(s("/tmp/d/python/install/included.h"));
    assert!(!all_in("/tmp/d/python/install/include", &other.include_files));
    assert_eq!(find_problem(&other), Some(s("unable to strip prefix")));
}

#[test]
fn entries_of_directories() {
    assert_eq!(check_root_entries(&vec![]), None);
    assert_eq!(check_root_entries(&vec![Some(s("python"))]), None);
    assert_eq!(
        check_root_entries(&vec![Some(s("Python"))]),
        Some(s("unexpected entry in distribution root directory: Python"))
    );
    assert_eq!(check_python_entries(&vec![Some(s("lib")), Some(s("build"))]), None);
    assert_eq!(
        check_python_entries(&vec![Some(s("lib")), Some(s(""))]),
        Some(s("unexpected entry in python/ directory: "))
    );
}

#[test]
fn directories() {
    assert_eq!(python_path("/tmp/d"), "/tmp/d/python");
    assert_eq!(python_path("/tmp/d/"), "/tmp/d/python");
    assert_eq!(include_path("/tmp/d"), "/tmp/d/python/install/include");
    assert_eq!(stdlib_path("/tmp/d", &description()), "/tmp/d/python/install/lib/python3.7");
}

#[test]
fn later_objects_count() {
    let res = collect_core_objects("/p", &vec![s("a/b.o"), s("/abs/c.o"), s("a//b.o")]);
    assert_eq!(res.len(), 2);
    let spellings: Vec<&str> = res.entries().iter().map(|(k, _)| k.text.as_str()).collect();
    assert_eq!(spellings, ["/abs/c.o", "a/b.o"]);
    assert_eq!(res.get(&PathText { text: s("a/b.o") }), Some(&s("/p/a//b.o")));
    assert_eq!(res.get(&PathText { text: s("/abs/./c.o") }), Some(&s("/abs/c.o")));
    assert_eq!(res.get(&PathText { text: s("abs/c.o") }), None);
}

#[test]
fn linked_libraries() {
    let (modules, libraries) = collect_extension_modules("/p", &description().build_info.extensions);
    assert_eq!(modules.len(), 3);
    assert_eq!(texts(&libraries), [("z", "/p/build/lib/libz.a")]);
    for (name, module) in modules.entries() {
        assert_eq!(name, &module.module);
        for link in &module.links {
            assert_eq!(libraries.get(&link.name).is_some(), link.static_path.is_some());
        }
    }
}

#[test]
fn names_of_headers() {
    let res = collect_includes(
        "/i",
        &vec![s("/i/v/a.h"), s("/i//v/./sub/b.h"), s("/i/w/a.h"), s("/i/v/../c.h")],
    );
    assert_eq!(
        texts(&res),
        [("../c.h", "/i/v/../c.h"), ("a.h", "/i/w/a.h"), ("sub/b.h", "/i//v/./sub/b.h")]
    );
}

#[test]
fn kinds_of_files() {
    let (modules, resources) = collect_resources(&vec![
        resource("b", PythonResourceType::Source, "1"),
        resource("a", PythonResourceType::Source, "2"),
        resource("b", PythonResourceType::Source, "3"),
        resource("b", PythonResourceType::Resource, "4"),
        resource("c", PythonResourceType::Other, "5"),
    ]);
    assert_eq!(texts(&modules), [("a", "2"), ("b", "3")]);
    assert_eq!(texts(&resources), [("b", "4")]);
}

/// Paths have the parts that the standard library gives them.
#[test]
fn parts_of_paths() {
    for path in [
        "", "a", "/", "//", ".", "./", "./a", "a/.", "a/./b", "a//b", "/a", "..", "../a", "a/..", ".a", "..a", "a/",
        "/./a", "//a//b//", "...", "./..", "/..",
    ] {
        let ours: Vec<String> = parts_of(path).iter().map(text_of_part).collect();
        let theirs: Vec<String> = std::path::Path::new(path)
            .components()
            .map(|c| c.as_os_str().to_str().unwrap().to_string())
            .collect();
        assert_eq!(ours, theirs, "{}", path);
        for base in ["", "/", "b", "b/", ".", "/b/c", "b//", "./"] {
            let joined = join_path(base, path);
            assert_eq!(joined, std::path::Path::new(base).join(path).to_str().unwrap());
            let stripped = std::path::Path::new(&joined).strip_prefix(base);
            let inside = match stripped {
                Ok(rest) => rest.components().count() > 0,
                Err(_) => false,
            };
            assert_eq!(is_in(base, &joined), inside, "{} {}", base, path);
        }
    }
}

/// Paths are ordered as the standard library orders them.
#[test]
fn order_of_paths() {
    let list = ["b", "a/b", "a", "/z", ".", "..", "a-b", "a/../c", "./a", "\u{e9}", "\u{10000}", "\u{ffff}", ""];
    let mut ours: stampdist::paths::PathMap<usize> = stampdist::paths::PathMap::new();
    let mut theirs: std::collections::BTreeMap<std::path::PathBuf, usize> = std::collections::BTreeMap::new();
    for (i, path) in list.iter().enumerate() {
        ours.insert(PathText { text: s(path) }, i);
        theirs.insert(std::path::PathBuf::from(path), i);
    }
    let ours: Vec<usize> = ours.entries().iter().map(|(_, i)| *i).collect();
    let theirs: Vec<usize> = theirs.values().copied().collect();
    assert_eq!(ours, theirs);
}

#[test]
fn order_of_texts() {
    let list = ["b", "", "a", "ab", "B", "\u{e9}", "\u{10000}", "\u{ffff}", "a"];
    let mut ours: TextMap<usize> = TextMap::new();
    let mut theirs: std::collections::BTreeMap<String, usize> = std::collections::BTreeMap::new();
    for (i, text) in list.iter().enumerate() {
        ours.insert(s(text), i);
        theirs.insert(s(text), i);
    }
    assert_eq!(ours.len(), theirs.len());
    for ((a, i), (b, j)) in ours.entries().iter().zip(theirs.iter()) {
        assert_eq!((a, i), (b, j));
    }
    assert_eq!(ours.get(&s("a")), Some(&8));
    assert_eq!(ours.get(&s("c")), None);
}

const CONFIG: &str = "/* Module configuration */\n\
    extern PyObject* PyInit_gc(void);\r\n\
    extern PyObject* _PyWarnings_Init(void); extern PyObject* PyInit_second(void);\n\
    extern PyObject* PyInit_args(int);\n\
    extern PyObject* (void);\n\
    struct _inittab _PyImport_Inittab[] = {\n\
    \t{\"gc\", PyInit_gc},\n\
    {\"_warnings\", _PyWarnings_Init}, {\"second\", PyInit_second},\n\
    {\"marshal\", PyMarshal_Init}\n\
    {\"sys\", NULL},\n\
    {\"gc\", PyInit_gc2},\n\
    {\"\", PyInit_none},\n\
    {0, 0}\n\
    };";

#[test]
fn config() {
    assert!(can_parse_config_c(&CONFIG.as_bytes().to_vec()));
    assert!(!can_parse_config_c(&b"{\"gc\", PyInit_gc},\n\xff\n".to_vec()));
    let res = parse_config_c(&CONFIG.as_bytes().to_vec());
    assert_eq!(res.init_funcs, ["PyInit_gc", "_PyWarnings_Init"]);
    assert_eq!(
        texts(&res.init_mods),
        [("_warnings", "_PyWarnings_Init"), ("gc", "PyInit_gc2"), ("sys", "NULL")]
    );
}

#[test]
fn empty_config() {
    let res = parse_config_c(&vec![]);
    assert!(res.init_funcs.is_empty());
    assert_eq!(res.init_mods.len(), 0);
}
