//! What a Python distribution consists of: the object files of its core, its extension modules, the
//! libraries that they link, its headers, its modules and its other resources.
//!
//! A distribution is a directory that holds one directory, `python`, and this in turn a file
//! `PYTHON.json` that describes the build. The functions here take the names and the description
//! that were found there.

use vstd::prelude::*;

use crate::config::{parse_config_c, ConfigC};
use crate::paths;
use crate::paths::{is_in, join_path, join_texts, parts_of, text_of_part, PathMap, PathText};
use crate::sorted_map;
use crate::text;
use crate::text::TextMap;

verus! {

/// The text of an optional string.
pub open spec fn optional_text(s: Option<String>) -> Option<Seq<char>> {
    match s {
        Some(s) => Some(s@),
        None => None,
    }
}

/// A library that an object is linked with, as `PYTHON.json` has it.
#[derive(Debug)]
pub struct LinkEntry {
    pub name: String,
    pub path_static: Option<String>,
    pub path_dynamic: Option<String>,
}

/// The texts of a [`LinkEntry`].
#[verifier::ext_equal]
pub struct LinkModel {
    pub name: Seq<char>,
    pub path_static: Option<Seq<char>>,
    pub path_dynamic: Option<Seq<char>>,
}

impl View for LinkEntry {
    type V = LinkModel;

    open spec fn view(&self) -> LinkModel {
        LinkModel {
            name: self.name@,
            path_static: optional_text(self.path_static),
            path_dynamic: optional_text(self.path_dynamic),
        }
    }
}

/// What the list of links says.
pub open spec fn link_views(list: Seq<LinkEntry>) -> Seq<LinkModel> {
    list.map_values(|l: LinkEntry| l@)
}

/// An extension module, as `PYTHON.json` has it.
#[derive(Debug)]
pub struct PythonBuildExtensionInfo {
    pub builtin: bool,
    pub init_fn: String,
    pub links: Vec<LinkEntry>,
    pub objs: Vec<String>,
    pub static_lib: Option<String>,
}

/// The texts of a [`PythonBuildExtensionInfo`].
#[verifier::ext_equal]
pub struct ExtensionModel {
    pub builtin: bool,
    pub init_fn: Seq<char>,
    pub links: Seq<LinkModel>,
    pub objs: Seq<Seq<char>>,
    pub static_lib: Option<Seq<char>>,
}

impl View for PythonBuildExtensionInfo {
    type V = ExtensionModel;

    open spec fn view(&self) -> ExtensionModel {
        ExtensionModel {
            builtin: self.builtin,
            init_fn: self.init_fn@,
            links: link_views(self.links@),
            objs: text::texts(self.objs@),
            static_lib: optional_text(self.static_lib),
        }
    }
}

/// The core of the interpreter, as `PYTHON.json` has it.
#[derive(Debug)]
pub struct PythonBuildCoreInfo {
    pub objs: Vec<String>,
    pub links: Vec<LinkEntry>,
}

/// How the interpreter was built, as `PYTHON.json` has it.
#[derive(Debug)]
pub struct PythonBuildInfo {
    pub core: PythonBuildCoreInfo,
    pub extensions: TextMap<PythonBuildExtensionInfo>,
}

/// The content of `PYTHON.json`.
#[derive(Debug)]
pub struct PythonJsonMain {
    pub arch: String,
    pub os: String,
    pub python_exe: String,
    pub python_flavor: String,
    pub python_include: String,
    pub python_stdlib: String,
    pub python_version: String,
    pub version: String,
    pub build_info: PythonBuildInfo,
}

/// Describes a library dependency.
#[derive(Clone, Debug)]
pub struct LibraryDepends {
    /// Name of the library we depend on.
    pub name: String,

    /// Path to a file providing a static version of this library.
    pub static_path: Option<String>,

    /// Path to a file providing a dynamic version of this library.
    pub dynamic_path: Option<String>,

    /// Whether this is a system framework.
    pub framework: bool,
}

/// The texts of a [`LibraryDepends`].
#[verifier::ext_equal]
pub struct DependsModel {
    pub name: Seq<char>,
    pub static_path: Option<Seq<char>>,
    pub dynamic_path: Option<Seq<char>>,
    pub framework: bool,
}

impl View for LibraryDepends {
    type V = DependsModel;

    open spec fn view(&self) -> DependsModel {
        DependsModel {
            name: self.name@,
            static_path: optional_text(self.static_path),
            dynamic_path: optional_text(self.dynamic_path),
            framework: self.framework,
        }
    }
}

/// What the list of dependencies says.
pub open spec fn depends_views(list: Seq<LibraryDepends>) -> Seq<DependsModel> {
    list.map_values(|l: LibraryDepends| l@)
}

/// Describes an extension module in a Python distribution.
#[derive(Clone, Debug)]
pub struct ExtensionModule {
    /// Name of the Python module this extension module provides.
    pub module: String,

    /// Module initialization function.
    ///
    /// If `None`, there is no module initialization function. This is typically represented as
    /// `NULL` in Python's inittab.
    pub init_fn: Option<String>,

    /// Whether the extension module is built-in by default.
    ///
    /// Some extension modules are always compiled into libpython. This field will be true for
    /// those modules.
    pub builtin_default: bool,

    /// Whether the extension module can be disabled.
    ///
    /// On some distributions, built-in extension modules cannot be disabled. This field describes
    /// whether they can be.
    pub disableable: bool,

    /// Compiled object files providing this extension module.
    pub object_paths: Vec<String>,

    /// Path to static library providing this extension module.
    pub static_library: Option<String>,

    /// Library linking metadata.
    pub links: Vec<LibraryDepends>,
}

/// The texts of an [`ExtensionModule`].
#[verifier::ext_equal]
pub struct ModuleModel {
    pub module: Seq<char>,
    pub init_fn: Option<Seq<char>>,
    pub builtin_default: bool,
    pub disableable: bool,
    pub object_paths: Seq<Seq<char>>,
    pub static_library: Option<Seq<char>>,
    pub links: Seq<DependsModel>,
}

impl View for ExtensionModule {
    type V = ModuleModel;

    open spec fn view(&self) -> ModuleModel {
        ModuleModel {
            module: self.module@,
            init_fn: optional_text(self.init_fn),
            builtin_default: self.builtin_default,
            disableable: self.disableable,
            object_paths: text::texts(self.object_paths@),
            static_library: optional_text(self.static_library),
            links: depends_views(self.links@),
        }
    }
}

/// The directory of the distribution that holds everything else.
pub open spec fn python_path_of(temp_dir: Seq<char>) -> Seq<char> {
    paths::joined(temp_dir, "python"@)
}

/// The paths as seen from `python_path`.
pub open spec fn joined_all(python_path: Seq<char>, list: Seq<Seq<char>>) -> Seq<Seq<char>> {
    list.map_values(|p: Seq<char>| paths::joined(python_path, p))
}

/// The optional path as seen from `python_path`.
pub open spec fn joined_optional(python_path: Seq<char>, path: Option<Seq<char>>) -> Option<Seq<char>> {
    match path {
        Some(p) => Some(paths::joined(python_path, p)),
        None => None,
    }
}

/// The object files of the core: each path as it is written, and where the file is.
pub open spec fn core_objects(python_path: Seq<char>, objs: Seq<Seq<char>>) -> Map<Seq<paths::PathPart<Seq<char>>>, Seq<char>>
    decreases objs.len(),
{
    if objs.len() == 0 {
        Map::empty()
    } else {
        core_objects(python_path, objs.drop_last()).insert(
            paths::path_parts(objs.last()),
            paths::joined(python_path, objs.last()),
        )
    }
}

/// How the path of each object file of the core is spelled, under its parts: as it is where it
/// occurs first.
pub open spec fn core_spellings(objs: Seq<Seq<char>>) -> Map<Seq<paths::PathPart<Seq<char>>>, Seq<char>>
    decreases objs.len(),
{
    if objs.len() == 0 {
        Map::empty()
    } else {
        let before = core_spellings(objs.drop_last());
        let parts = paths::path_parts(objs.last());
        if before.contains_key(parts) {
            before
        } else {
            before.insert(parts, objs.last())
        }
    }
}

/// Collects the object files of the core.
pub fn collect_core_objects(python_path: &str, objs: &Vec<String>) -> (res: PathMap<String>)
    ensures
        res@ == core_objects(python_path@, text::texts(objs@)),
        paths::key_texts(res) == core_spellings(text::texts(objs@)),
{
    let mut res: PathMap<String> = PathMap::new();
    assert(paths::key_texts(res) =~= Map::empty());
    let ghost all = text::texts(objs@);
    assert(all.take(0) =~= Seq::empty());
    let mut i: usize = 0;
    while i < objs.len()
        invariant
            all == text::texts(objs@),
            i <= objs.len(),
            res@ == core_objects(python_path@, all.take(i as int)),
            res@.dom() == core_spellings(all.take(i as int)).dom(),
            paths::key_texts(res) == core_spellings(all.take(i as int)),
        decreases objs.len() - i,
    {
        let full_path = join_path(python_path, objs[i].as_str());
        proof {
            assert(all[i as int] == objs@[i as int]@);
            assert(all.take(i + 1).drop_last() =~= all.take(i as int));
            assert(all.take(i + 1).last() == all[i as int]);
        }
        let key = PathText { text: objs[i].clone() };
        let ghost before = res;
        let ghost text = key.text@;
        let ghost parts = key@;
        res.insert(key, full_path);
        proof {
            assert(res@.dom() =~= before@.dom().insert(parts));
            if before@.contains_key(parts) {
                assert(core_spellings(all.take(i as int)).contains_key(parts));
                assert(res@.dom() =~= before@.dom());
            } else {
                assert(!core_spellings(all.take(i as int)).contains_key(parts));
                assert(paths::key_texts(res) =~= paths::key_texts(before).insert(parts, text));
                assert(core_spellings(all.take(i + 1)).dom() =~= res@.dom());
            }
        }
        i += 1;
    }
    assert(all.take(i as int) =~= all);
    res
}

/// What a link depends on.
pub open spec fn depends_of(python_path: Seq<char>, link: LinkModel) -> DependsModel {
    DependsModel {
        name: link.name,
        static_path: joined_optional(python_path, link.path_static),
        dynamic_path: None,
        framework: false,
    }
}

/// The extension module that an entry of `PYTHON.json` describes.
pub open spec fn module_of(python_path: Seq<char>, module: Seq<char>, entry: ExtensionModel) -> ModuleModel {
    ModuleModel {
        module,
        init_fn: Some(entry.init_fn),
        builtin_default: entry.builtin,
        disableable: !entry.builtin,
        object_paths: joined_all(python_path, entry.objs),
        static_library: joined_optional(python_path, entry.static_lib),
        links: entry.links.map_values(|l: LinkModel| depends_of(python_path, l)),
    }
}

/// The extension modules that the entries of `PYTHON.json` describe, by name.
pub open spec fn modules_of(python_path: Seq<char>, extensions: Map<Seq<char>, ExtensionModel>) -> Map<Seq<char>, ModuleModel> {
    Map::new(
        |module: Seq<char>| extensions.contains_key(module),
        |module: Seq<char>| module_of(python_path, module, extensions[module]),
    )
}

/// The static libraries after those of the links are put to `libraries`, one after the other.
pub open spec fn with_links(
    python_path: Seq<char>,
    libraries: Map<Seq<char>, Seq<char>>,
    links: Seq<LinkModel>,
) -> Map<Seq<char>, Seq<char>>
    decreases links.len(),
{
    if links.len() == 0 {
        libraries
    } else {
        let before = with_links(python_path, libraries, links.drop_last());
        match links.last().path_static {
            Some(p) => before.insert(links.last().name, paths::joined(python_path, p)),
            None => before,
        }
    }
}

/// The static libraries that the extension modules link, by name. Where two links give the same
/// library another file, the later one counts, the modules being taken in the order of their names.
pub open spec fn libraries_of(python_path: Seq<char>, listing: Seq<(Seq<char>, ExtensionModel)>) -> Map<Seq<char>, Seq<char>>
    decreases listing.len(),
{
    if listing.len() == 0 {
        Map::empty()
    } else {
        with_links(python_path, libraries_of(python_path, listing.drop_last()), listing.last().1.links)
    }
}

/// Whether no link of a module names a dynamic library.
pub open spec fn links_are_static(links: Seq<LinkModel>) -> bool {
    forall|i: int| 0 <= i < links.len() ==> (#[trigger] links[i]).path_dynamic is None
}

/// Whether no extension module links a dynamic library.
pub open spec fn all_static(listing: Seq<(Seq<char>, ExtensionModel)>) -> bool {
    forall|i: int| 0 <= i < listing.len() ==> links_are_static((#[trigger] listing[i]).1.links)
}

fn join_optional(python_path: &str, path: &Option<String>) -> (res: Option<String>)
    ensures
        optional_text(res) == joined_optional(python_path@, optional_text(*path)),
{
    match path {
        Some(p) => Some(join_path(python_path, p.as_str())),
        None => None,
    }
}

fn join_all(python_path: &str, list: &Vec<String>) -> (res: Vec<String>)
    ensures
        text::texts(res@) == joined_all(python_path@, text::texts(list@)),
{
    let mut res: Vec<String> = Vec::new();
    let mut i: usize = 0;
    while i < list.len()
        invariant
            i <= list.len(),
            res.len() == i,
            forall|j: int| 0 <= j < i ==> (#[trigger] res@[j])@ == paths::joined(python_path@, list@[j]@),
        decreases list.len() - i,
    {
        res.push(join_path(python_path, list[i].as_str()));
        i += 1;
    }
    assert(text::texts(res@) =~= joined_all(python_path@, text::texts(list@)));
    res
}

/// Collects what the links of one module depend on, and adds its static libraries to `libraries`.
fn collect_links(python_path: &str, libraries: &mut TextMap<String>, entries: &Vec<LinkEntry>) -> (res: Vec<LibraryDepends>)
    requires
        links_are_static(link_views(entries@)),
    ensures
        depends_views(res@) == link_views(entries@).map_values(|l: LinkModel| depends_of(python_path@, l)),
        final(libraries)@ == with_links(python_path@, old(libraries)@, link_views(entries@)),
{
    let mut res: Vec<LibraryDepends> = Vec::new();
    let ghost all = link_views(entries@);
    assert(all.take(0) =~= Seq::empty());
    let mut i: usize = 0;
    while i < entries.len()
        invariant
            all == link_views(entries@),
            links_are_static(all),
            i <= entries.len(),
            res.len() == i,
            forall|j: int| 0 <= j < i ==> (#[trigger] res@[j])@ == depends_of(python_path@, all[j]),
            libraries@ == with_links(python_path@, old(libraries)@, all.take(i as int)),
        decreases entries.len() - i,
    {
        let link = &entries[i];
        proof {
            assert(all[i as int] == link@);
            assert(all.take(i + 1).drop_last() =~= all.take(i as int));
            assert(all.take(i + 1).last() == all[i as int]);
        }
        match &link.path_static {
            Some(p) => {
                libraries.insert(link.name.clone(), join_path(python_path, p.as_str()));
            },
            None => {},
        }
        let depends = LibraryDepends {
            name: link.name.clone(),
            static_path: join_optional(python_path, &link.path_static),
            dynamic_path: None,
            framework: false,
        };
        assert(depends@ =~= depends_of(python_path@, link@));
        res.push(depends);
        i += 1;
    }
    assert(all.take(i as int) =~= all);
    assert(depends_views(res@) =~= all.map_values(|l: LinkModel| depends_of(python_path@, l)));
    res
}

/// The modules of the entries of a listing.
spec fn module_listing(python_path: Seq<char>, listing: Seq<(Seq<char>, ExtensionModel)>) -> Seq<(Seq<char>, ModuleModel)> {
    listing.map_values(|e: (Seq<char>, ExtensionModel)| (e.0, module_of(python_path, e.0, e.1)))
}

proof fn lemma_module_listing(python_path: Seq<char>, listing: Seq<(Seq<char>, ExtensionModel)>)
    requires
        sorted_map::keys_rise(listing),
    ensures
        sorted_map::map_of(module_listing(python_path, listing)) == modules_of(python_path, sorted_map::map_of(listing)),
{
    let new = module_listing(python_path, listing);
    let entries = sorted_map::map_of(listing);
    assert forall|i: int, j: int| 0 <= i < j < new.len() implies crate::order::Ordered::before((#[trigger] new[i]).0, (#[trigger] new[j]).0) by {
        assert(crate::order::Ordered::before(listing[i].0, listing[j].0));
    }
    sorted_map::lemma_map_of(listing);
    sorted_map::lemma_map_of(new);
    let a = sorted_map::map_of(new);
    let b = modules_of(python_path, entries);
    assert forall|k: Seq<char>| a.contains_key(k) <==> b.contains_key(k) by {
        if a.contains_key(k) {
            let j = choose|j: int| 0 <= j < new.len() && (#[trigger] new[j]).0 == k;
            assert(listing[j].0 == k);
        }
        if b.contains_key(k) {
            let j = choose|j: int| 0 <= j < listing.len() && (#[trigger] listing[j]).0 == k;
            assert(new[j].0 == k);
        }
    }
    assert forall|k: Seq<char>| a.contains_key(k) implies #[trigger] a[k] == b[k] by {
        let j = choose|j: int| 0 <= j < new.len() && (#[trigger] new[j]).0 == k;
        assert(listing[j].0 == k);
        assert(new[j].1 == module_of(python_path, k, listing[j].1));
    }
    assert(a =~= b);
}

/// Collects the extension modules and the static libraries that they link.
pub fn collect_extension_modules(
    python_path: &str,
    extensions: &TextMap<PythonBuildExtensionInfo>,
) -> (res: (TextMap<ExtensionModule>, TextMap<String>))
    requires
        all_static(extensions.listing()),
    ensures
        res.0@ == modules_of(python_path@, extensions@),
        res.1@ == libraries_of(python_path@, extensions.listing()),
{
    let mut modules: TextMap<ExtensionModule> = TextMap::new();
    let mut libraries: TextMap<String> = TextMap::new();
    let entries = extensions.entries();
    let ghost listing = extensions.listing();
    let ghost target = module_listing(python_path@, listing);
    proof {
        assert(listing.take(0) =~= Seq::empty());
        assert(target.take(0) =~= Seq::empty());
    }
    let mut i: usize = 0;
    while i < entries.len()
        invariant
            listing == sorted_map::views_of(entries@),
            target == module_listing(python_path@, listing),
            all_static(listing),
            i <= entries.len(),
            modules@ == sorted_map::map_of(target.take(i as int)),
            libraries@ == libraries_of(python_path@, listing.take(i as int)),
        decreases entries.len() - i,
    {
        let module = &entries[i].0;
        let entry = &entries[i].1;
        proof {
            assert(listing[i as int] == (module@, entry@));
            assert(listing.take(i + 1).drop_last() =~= listing.take(i as int));
            assert(listing.take(i + 1).last() == listing[i as int]);
            assert(target.take(i + 1).drop_last() =~= target.take(i as int));
            assert(target.take(i + 1).last() == target[i as int]);
        }
        let links = collect_links(python_path, &mut libraries, &entry.links);
        let found = ExtensionModule {
            module: module.clone(),
            init_fn: Some(entry.init_fn.clone()),
            builtin_default: entry.builtin,
            disableable: !entry.builtin,
            object_paths: join_all(python_path, &entry.objs),
            static_library: join_optional(python_path, &entry.static_lib),
            links,
        };
        assert(found@ =~= module_of(python_path@, module@, entry@));
        modules.insert(module.clone(), found);
        i += 1;
    }
    proof {
        assert(listing.take(i as int) =~= listing);
        assert(target.take(i as int) =~= target);
        lemma_module_listing(python_path@, listing);
    }
    (modules, libraries)
}

/// The name of a header: its path below the directory in which all headers lie, the first
/// directory left out.
pub open spec fn include_name(include_path: Seq<char>, file: Seq<char>) -> Seq<char> {
    paths::separated(paths::relative_texts(include_path, file).skip(1), "/"@)
}

/// The headers by name, and where each is.
pub open spec fn includes_of(include_path: Seq<char>, files: Seq<Seq<char>>) -> Map<Seq<char>, Seq<char>>
    decreases files.len(),
{
    if files.len() == 0 {
        Map::empty()
    } else {
        includes_of(include_path, files.drop_last()).insert(include_name(include_path, files.last()), files.last())
    }
}

/// Whether each file lies in the directory.
pub open spec fn all_lie_in(base: Seq<char>, files: Seq<Seq<char>>) -> bool {
    forall|i: int| 0 <= i < files.len() ==> paths::lies_in(base, #[trigger] files[i])
}

/// The name of the header `file`.
fn name_of_include(include_path: &str, file: &str) -> (res: String)
    requires
        paths::lies_in(include_path@, file@),
    ensures
        res@ == include_name(include_path@, file@),
{
    let base = parts_of(include_path);
    let parts = parts_of(file);
    let ghost rel = paths::relative_texts(include_path@, file@).skip(1);
    assert(base@.len() < parts@.len()) by {
        assert(paths::part_views(base@).len() == base@.len());
        assert(paths::part_views(parts@).len() == parts@.len());
    }
    assert(parts.len() <= usize::MAX);
    let mut names: Vec<String> = Vec::new();
    let mut i: usize = base.len() + 1;
    while i < parts.len()
        invariant
            paths::part_views(base@) == paths::path_parts(include_path@),
            paths::part_views(parts@) == paths::path_parts(file@),
            rel == paths::relative_texts(include_path@, file@).skip(1),
            base.len() + 1 <= i <= parts.len(),
            names.len() == i - (base.len() + 1),
            forall|j: int| 0 <= j < names.len() ==> (#[trigger] names@[j])@ == rel[j],
        decreases parts.len() - i,
    {
        names.push(text_of_part(&parts[i]));
        assert(paths::part_views(parts@)[i as int] == parts@[i as int]@);
        i += 1;
    }
    assert(text::texts(names@) =~= rel);
    join_texts(&names, "/")
}

/// Collects the headers.
pub fn collect_includes(include_path: &str, files: &Vec<String>) -> (res: TextMap<String>)
    requires
        all_lie_in(include_path@, text::texts(files@)),
    ensures
        res@ == includes_of(include_path@, text::texts(files@)),
{
    let mut res: TextMap<String> = TextMap::new();
    let ghost all = text::texts(files@);
    assert(all.take(0) =~= Seq::empty());
    let mut i: usize = 0;
    while i < files.len()
        invariant
            all == text::texts(files@),
            all_lie_in(include_path@, all),
            i <= files.len(),
            res@ == includes_of(include_path@, all.take(i as int)),
        decreases files.len() - i,
    {
        proof {
            assert(all[i as int] == files@[i as int]@);
            assert(paths::lies_in(include_path@, all[i as int]));
            assert(all.take(i + 1).drop_last() =~= all.take(i as int));
            assert(all.take(i + 1).last() == all[i as int]);
        }
        res.insert(name_of_include(include_path, files[i].as_str()), files[i].clone());
        i += 1;
    }
    assert(all.take(i as int) =~= all);
    res
}

/// What kind of file of the standard library a resource is.
#[derive(Clone, Copy, Debug, PartialEq, Eq, Structural)]
pub enum PythonResourceType {
    /// The source of a Python module.
    Source,
    /// A file of a package that is not a module.
    Resource,
    /// Anything else.
    Other,
}

/// A file of the standard library.
#[derive(Debug)]
pub struct PythonResource {
    pub name: String,
    pub flavor: PythonResourceType,
    pub path: String,
}

/// What a [`PythonResource`] holds.
#[verifier::ext_equal]
pub struct ResourceModel {
    pub name: Seq<char>,
    pub flavor: PythonResourceType,
    pub path: Seq<char>,
}

impl View for PythonResource {
    type V = ResourceModel;

    open spec fn view(&self) -> ResourceModel {
        ResourceModel { name: self.name@, flavor: self.flavor, path: self.path@ }
    }
}

/// What the list of resources says.
pub open spec fn resource_views(list: Seq<PythonResource>) -> Seq<ResourceModel> {
    list.map_values(|r: PythonResource| r@)
}

/// The files of one kind by name, and where each is.
pub open spec fn files_of_kind(list: Seq<ResourceModel>, flavor: PythonResourceType) -> Map<Seq<char>, Seq<char>>
    decreases list.len(),
{
    if list.len() == 0 {
        Map::empty()
    } else if list.last().flavor == flavor {
        files_of_kind(list.drop_last(), flavor).insert(list.last().name, list.last().path)
    } else {
        files_of_kind(list.drop_last(), flavor)
    }
}

/// Sorts the files of the standard library into the sources of modules and the resources.
pub fn collect_resources(list: &Vec<PythonResource>) -> (res: (TextMap<String>, TextMap<String>))
    ensures
        res.0@ == files_of_kind(resource_views(list@), PythonResourceType::Source),
        res.1@ == files_of_kind(resource_views(list@), PythonResourceType::Resource),
{
    let mut py_modules: TextMap<String> = TextMap::new();
    let mut resources: TextMap<String> = TextMap::new();
    let ghost all = resource_views(list@);
    assert(all.take(0) =~= Seq::empty());
    let mut i: usize = 0;
    while i < list.len()
        invariant
            all == resource_views(list@),
            i <= list.len(),
            py_modules@ == files_of_kind(all.take(i as int), PythonResourceType::Source),
            resources@ == files_of_kind(all.take(i as int), PythonResourceType::Resource),
        decreases list.len() - i,
    {
        let entry = &list[i];
        proof {
            assert(all[i as int] == entry@);
            assert(all.take(i + 1).drop_last() =~= all.take(i as int));
            assert(all.take(i + 1).last() == all[i as int]);
        }
        match entry.flavor {
            PythonResourceType::Resource => {
                resources.insert(entry.name.clone(), entry.path.clone());
            },
            PythonResourceType::Source => {
                py_modules.insert(entry.name.clone(), entry.path.clone());
            },
            PythonResourceType::Other => {},
        }
        i += 1;
    }
    assert(all.take(i as int) =~= all);
    (py_modules, resources)
}

/// What was found in the directory of a distribution.
#[derive(Debug)]
pub struct DistributionFiles {
    /// The directory. Where this is empty, the paths of the distribution are relative to it.
    pub temp_dir: String,

    /// The names in the directory; `None` stands for one that is not valid Unicode.
    pub root_entries: Vec<Option<String>>,

    /// The names in its directory `python`.
    pub python_entries: Vec<Option<String>>,

    /// The content of `PYTHON.json`.
    pub python_json: PythonJsonMain,

    /// The paths of the files below `install/include` in `python`.
    pub include_files: Vec<String>,

    /// The files of the standard library.
    pub stdlib_files: Vec<PythonResource>,
}

/// The texts of optional strings.
pub open spec fn optional_texts(list: Seq<Option<String>>) -> Seq<Option<Seq<char>>> {
    list.map_values(|s: Option<String>| optional_text(s))
}

/// What is wrong with a name in the directory of a distribution, if anything is.
pub open spec fn root_entry_problem(name: Option<Seq<char>>) -> Option<Seq<char>> {
    match name {
        Some(value) => if value == "python"@ {
            None
        } else {
            Some("unexpected entry in distribution root directory: "@ + value)
        },
        None => Some("error listing root directory of Python distribution"@),
    }
}

/// What is wrong with a name in the directory `python`, if anything is.
pub open spec fn python_entry_problem(name: Option<Seq<char>>) -> Option<Seq<char>> {
    match name {
        Some(value) => if value == "build"@ || value == "install"@ || value == "lib"@ || value == "LICENSE.rst"@
            || value == "PYTHON.json"@ {
            None
        } else {
            Some("unexpected entry in python/ directory: "@ + value)
        },
        None => Some("error listing python/ directory"@),
    }
}

/// The first problem of the names in the directory of a distribution from `from` on.
pub open spec fn root_problem(list: Seq<Option<Seq<char>>>, from: int) -> Option<Seq<char>>
    decreases list.len() - from,
{
    if from >= list.len() {
        None
    } else if root_entry_problem(list[from]) is Some {
        root_entry_problem(list[from])
    } else {
        root_problem(list, from + 1)
    }
}

/// The first problem of the names in the directory `python` from `from` on.
pub open spec fn python_problem(list: Seq<Option<Seq<char>>>, from: int) -> Option<Seq<char>>
    decreases list.len() - from,
{
    if from >= list.len() {
        None
    } else if python_entry_problem(list[from]) is Some {
        python_entry_problem(list[from])
    } else {
        python_problem(list, from + 1)
    }
}

/// The directory in which the headers lie.
pub open spec fn include_path_of(temp_dir: Seq<char>) -> Seq<char> {
    paths::joined(python_path_of(temp_dir), "install/include"@)
}

/// The directory in which the standard library lies.
pub open spec fn stdlib_path_of(temp_dir: Seq<char>, python_stdlib: Seq<char>) -> Seq<char> {
    paths::joined(python_path_of(temp_dir), python_stdlib)
}

/// Why a distribution cannot be analyzed, if it cannot: the first thing that is wrong with it.
pub open spec fn problem_of(files: DistributionFiles) -> Option<Seq<char>> {
    let root = root_problem(optional_texts(files.root_entries@), 0);
    let python = python_problem(optional_texts(files.python_entries@), 0);
    if root is Some {
        root
    } else if !optional_texts(files.root_entries@).contains(Some("python"@)) {
        Some("unable to list python/ directory"@)
    } else if python is Some {
        python
    } else if !optional_texts(files.python_entries@).contains(Some("PYTHON.json"@)) {
        Some("failed to read PYTHON.json"@)
    } else if !all_static(files.python_json.build_info.extensions.listing()) {
        Some("dynamic_path not yet supported"@)
    } else if !all_lie_in(include_path_of(files.temp_dir@), text::texts(files.include_files@)) {
        Some("unable to strip prefix"@)
    } else {
        None
    }
}

fn check_root_entry(name: &Option<String>) -> (res: Option<String>)
    ensures
        optional_text(res) == root_entry_problem(optional_text(*name)),
{
    match name {
        Some(value) => {
            if text::same_text(value.as_str(), "python") {
                None
            } else {
                let mut message = "unexpected entry in distribution root directory: ".to_owned();
                message.append(value.as_str());
                Some(message)
            }
        },
        None => Some("error listing root directory of Python distribution".to_owned()),
    }
}

fn check_python_entry(name: &Option<String>) -> (res: Option<String>)
    ensures
        optional_text(res) == python_entry_problem(optional_text(*name)),
{
    match name {
        Some(value) => {
            let value = value.as_str();
            if text::same_text(value, "build") || text::same_text(value, "install") || text::same_text(value, "lib")
                || text::same_text(value, "LICENSE.rst") || text::same_text(value, "PYTHON.json") {
                None
            } else {
                let mut message = "unexpected entry in python/ directory: ".to_owned();
                message.append(value);
                Some(message)
            }
        },
        None => Some("error listing python/ directory".to_owned()),
    }
}

/// The first problem of the names in the directory of a distribution.
pub fn check_root_entries(list: &Vec<Option<String>>) -> (res: Option<String>)
    ensures
        optional_text(res) == root_problem(optional_texts(list@), 0),
{
    let mut i: usize = 0;
    while i < list.len()
        invariant
            i <= list.len(),
            root_problem(optional_texts(list@), 0) == root_problem(optional_texts(list@), i as int),
        decreases list.len() - i,
    {
        let problem = check_root_entry(&list[i]);
        assert(optional_texts(list@)[i as int] == optional_text(list@[i as int]));
        if problem.is_some() {
            return problem;
        }
        i += 1;
    }
    None
}

/// The first problem of the names in the directory `python`.
pub fn check_python_entries(list: &Vec<Option<String>>) -> (res: Option<String>)
    ensures
        optional_text(res) == python_problem(optional_texts(list@), 0),
{
    let mut i: usize = 0;
    while i < list.len()
        invariant
            i <= list.len(),
            python_problem(optional_texts(list@), 0) == python_problem(optional_texts(list@), i as int),
        decreases list.len() - i,
    {
        let problem = check_python_entry(&list[i]);
        assert(optional_texts(list@)[i as int] == optional_text(list@[i as int]));
        if problem.is_some() {
            return problem;
        }
        i += 1;
    }
    None
}

/// Whether a name is among those of a directory.
fn lists(list: &Vec<Option<String>>, name: &str) -> (res: bool)
    ensures
        res == optional_texts(list@).contains(Some(name@)),
{
    let ghost all = optional_texts(list@);
    let mut i: usize = 0;
    while i < list.len()
        invariant
            all == optional_texts(list@),
            i <= list.len(),
            forall|j: int| 0 <= j < i ==> all[j] != Some(name@),
        decreases list.len() - i,
    {
        assert(all[i as int] == optional_text(list@[i as int]));
        if let Some(value) = &list[i] {
            if text::same_text(value.as_str(), name) {
                assert(all[i as int] == Some(name@));
                return true;
            }
        }
        i += 1;
    }
    false
}

fn only_static(links: &Vec<LinkEntry>) -> (res: bool)
    ensures
        res == links_are_static(link_views(links@)),
{
    let mut i: usize = 0;
    while i < links.len()
        invariant
            i <= links.len(),
            forall|j: int| 0 <= j < i ==> (#[trigger] link_views(links@)[j]).path_dynamic is None,
        decreases links.len() - i,
    {
        assert(link_views(links@)[i as int] == links@[i as int]@);
        if links[i].path_dynamic.is_some() {
            return false;
        }
        i += 1;
    }
    true
}

/// Whether no extension module links a dynamic library, as [`collect_extension_modules`] needs it.
pub fn all_only_static(extensions: &TextMap<PythonBuildExtensionInfo>) -> (res: bool)
    ensures
        res == all_static(extensions.listing()),
{
    let entries = extensions.entries();
    let ghost listing = extensions.listing();
    let mut i: usize = 0;
    while i < entries.len()
        invariant
            listing == sorted_map::views_of(entries@),
            listing == extensions.listing(),
            i <= entries.len(),
            forall|j: int| 0 <= j < i ==> links_are_static((#[trigger] listing[j]).1.links),
        decreases entries.len() - i,
    {
        assert(listing[i as int].1 == entries@[i as int].1@);
        if !only_static(&entries[i].1.links) {
            return false;
        }
        i += 1;
    }
    true
}

/// Whether each file lies in the directory, as [`collect_includes`] needs it.
pub fn all_in(base: &str, files: &Vec<String>) -> (res: bool)
    ensures
        res == all_lie_in(base@, text::texts(files@)),
{
    let mut i: usize = 0;
    while i < files.len()
        invariant
            i <= files.len(),
            forall|j: int| 0 <= j < i ==> paths::lies_in(base@, #[trigger] text::texts(files@)[j]),
        decreases files.len() - i,
    {
        assert(text::texts(files@)[i as int] == files@[i as int]@);
        if !is_in(base, files[i].as_str()) {
            return false;
        }
        i += 1;
    }
    true
}

/// The directory of the distribution that holds everything else.
pub fn python_path(temp_dir: &str) -> (res: String)
    ensures
        res@ == python_path_of(temp_dir@),
{
    join_path(temp_dir, "python")
}

/// The directory in which the headers lie.
pub fn include_path(temp_dir: &str) -> (res: String)
    ensures
        res@ == include_path_of(temp_dir@),
{
    join_path(python_path(temp_dir).as_str(), "install/include")
}

/// The directory in which the standard library lies.
pub fn stdlib_path(temp_dir: &str, python_json: &PythonJsonMain) -> (res: String)
    ensures
        res@ == stdlib_path_of(temp_dir@, python_json.python_stdlib@),
{
    join_path(python_path(temp_dir).as_str(), python_json.python_stdlib.as_str())
}

/// Why a distribution cannot be analyzed, if it cannot.
pub fn find_problem(files: &DistributionFiles) -> (res: Option<String>)
    ensures
        optional_text(res) == problem_of(*files),
{
    let root = check_root_entries(&files.root_entries);
    if root.is_some() {
        return root;
    }
    if !lists(&files.root_entries, "python") {
        return Some("unable to list python/ directory".to_owned());
    }
    let python = check_python_entries(&files.python_entries);
    if python.is_some() {
        return python;
    }
    if !lists(&files.python_entries, "PYTHON.json") {
        return Some("failed to read PYTHON.json".to_owned());
    }
    if !all_only_static(&files.python_json.build_info.extensions) {
        return Some("dynamic_path not yet supported".to_owned());
    }
    if !all_in(include_path(files.temp_dir.as_str()).as_str(), &files.include_files) {
        return Some("unable to strip prefix".to_owned());
    }
    None
}

/// Represents a parsed Python distribution.
///
/// Distribution info is typically derived from a tarball containing a Python install and its build
/// artifacts.
#[derive(Debug)]
pub struct PythonDistributionInfo {
    /// Directory where distribution lives in the filesystem.
    pub temp_dir: String,

    /// Object files providing the core Python implementation.
    ///
    /// Keys are relative paths. Values are filesystem paths.
    pub objs_core: PathMap<String>,

    /// Extension modules available to this distribution.
    pub extension_modules: TextMap<ExtensionModule>,

    pub config_c: ConfigC,
    pub config_c_in: ConfigC,
    pub extension_modules_always: Vec<String>,
    pub frozen_c: Vec<u8>,

    /// Include files for Python.
    ///
    /// Keys are relative paths. Values are filesystem paths.
    pub includes: TextMap<String>,

    /// Static libraries available for linking.
    ///
    /// Keys are library names, without the "lib" prefix or file extension. Values are filesystem
    /// paths where library is located.
    pub libraries: TextMap<String>,

    pub py_modules: TextMap<String>,

    /// Non-module Python resource files.
    ///
    /// Keys are full module/resource names. Values are filesystem paths.
    pub resources: TextMap<String>,
}

/// The objects of the core that every interpreter links.
pub open spec fn modules_always() -> Seq<Seq<char>> {
    seq!["getbuildinfo.o"@, "getpath.o"@, "main.o"@, "gcmodule.o"@]
}

/// Whether nothing was read into a [`ConfigC`].
pub open spec fn is_empty_config(config: ConfigC) -> bool {
    config.init_funcs@.len() == 0 && config.init_mods@ == Map::<Seq<char>, Seq<char>>::empty()
}

fn empty_config() -> (res: ConfigC)
    ensures
        is_empty_config(res),
{
    let data: Vec<u8> = Vec::new();
    assert(text::lines(data@) =~= Seq::empty());
    assert(crate::setup::decoded(text::lines(data@)) =~= Seq::empty());
    let res = parse_config_c(&data);
    assert(text::texts(res.init_funcs@).len() == res.init_funcs@.len());
    res
}

/// Extract useful information from the files constituting a Python distribution.
///
/// Passing in a data structure with raw file data within is inefficient. But it makes things easier
/// to implement and allows us to do things like consume tarballs without filesystem I/O.
pub fn analyze_python_distribution_data(files: DistributionFiles) -> (res: Result<PythonDistributionInfo, &'static str>)
    requires
        problem_of(files) is None,
    ensures
        res is Ok,
        res matches Ok(info) ==> {
            let python_path = python_path_of(files.temp_dir@);
            let build_info = files.python_json.build_info;
            &&& info.temp_dir@ == files.temp_dir@
            &&& info.objs_core@ == core_objects(python_path, text::texts(build_info.core.objs@))
            &&& paths::key_texts(info.objs_core) == core_spellings(text::texts(build_info.core.objs@))
            &&& info.extension_modules@ == modules_of(python_path, build_info.extensions@)
            &&& info.libraries@ == libraries_of(python_path, build_info.extensions.listing())
            &&& info.includes@ == includes_of(include_path_of(files.temp_dir@), text::texts(files.include_files@))
            &&& info.py_modules@ == files_of_kind(resource_views(files.stdlib_files@), PythonResourceType::Source)
            &&& info.resources@ == files_of_kind(resource_views(files.stdlib_files@), PythonResourceType::Resource)
            &&& is_empty_config(info.config_c)
            &&& is_empty_config(info.config_c_in)
            &&& text::texts(info.extension_modules_always@) == modules_always()
            &&& info.frozen_c@.len() == 0
        },
{
    let python_path = python_path(files.temp_dir.as_str());
    let include_path = include_path(files.temp_dir.as_str());
    let build_info = &files.python_json.build_info;
    let objs_core = collect_core_objects(python_path.as_str(), &build_info.core.objs);
    let (extension_modules, libraries) = collect_extension_modules(python_path.as_str(), &build_info.extensions);
    let includes = collect_includes(include_path.as_str(), &files.include_files);
    let (py_modules, resources) = collect_resources(&files.stdlib_files);
    let extension_modules_always: Vec<String> = vec![
        "getbuildinfo.o".to_owned(),
        "getpath.o".to_owned(),
        "main.o".to_owned(),
        "gcmodule.o".to_owned(),
    ];
    assert(text::texts(extension_modules_always@) =~= modules_always());
    Ok(
        PythonDistributionInfo {
            temp_dir: files.temp_dir,
            objs_core,
            extension_modules,
            config_c: empty_config(),
            config_c_in: empty_config(),
            extension_modules_always,
            frozen_c: Vec::new(),
            includes,
            libraries,
            py_modules,
            resources,
        },
    )
}

/// Every object file of the core is listed under its path, and each listed file is the one that
/// such a path names in the distribution.
pub proof fn core_objects_are_listed(python_path: Seq<char>, objs: Seq<Seq<char>>)
    ensures
        forall|i: int|
            0 <= i < objs.len() ==> core_objects(python_path, objs).contains_key(
                paths::path_parts(#[trigger] objs[i]),
            ),
        forall|key: Seq<paths::PathPart<Seq<char>>>| #[trigger]
            core_objects(python_path, objs).contains_key(key) ==> exists|i: int|
                0 <= i < objs.len() && paths::path_parts(#[trigger] objs[i]) == key && core_objects(
                    python_path,
                    objs,
                )[key] == paths::joined(python_path, objs[i]),
    decreases objs.len(),
{
    if objs.len() > 0 {
        let rest = objs.drop_last();
        core_objects_are_listed(python_path, rest);
        let all = core_objects(python_path, objs);
        assert forall|i: int| 0 <= i < objs.len() implies all.contains_key(
            paths::path_parts(#[trigger] objs[i]),
        ) by {
            if i < rest.len() {
                assert(rest[i] == objs[i]);
            }
        }
        assert forall|key: Seq<paths::PathPart<Seq<char>>>| #[trigger] all.contains_key(key) implies exists|i: int|
            0 <= i < objs.len() && paths::path_parts(#[trigger] objs[i]) == key && all[key] == paths::joined(
                python_path,
                objs[i],
            ) by {
            if key == paths::path_parts(objs.last()) {
                assert(objs[objs.len() - 1] == objs.last());
            } else {
                assert(core_objects(python_path, rest).contains_key(key));
                let i = choose|i: int|
                    0 <= i < rest.len() && paths::path_parts(#[trigger] rest[i]) == key && core_objects(
                        python_path,
                        rest,
                    )[key] == paths::joined(python_path, rest[i]);
                assert(objs[i] == rest[i]);
            }
        }
    }
}

/// Every listed object file has its path spelled as it is somewhere in the list.
pub proof fn core_paths_are_spelled(python_path: Seq<char>, objs: Seq<Seq<char>>)
    ensures
        core_spellings(objs).dom() == core_objects(python_path, objs).dom(),
        forall|key: Seq<paths::PathPart<Seq<char>>>| #[trigger]
            core_spellings(objs).contains_key(key) ==> objs.contains(core_spellings(objs)[key]) && paths::path_parts(
                core_spellings(objs)[key],
            ) == key,
    decreases objs.len(),
{
    if objs.len() > 0 {
        let rest = objs.drop_last();
        core_paths_are_spelled(python_path, rest);
        assert(core_spellings(objs).dom() =~= core_objects(python_path, objs).dom());
        assert forall|key: Seq<paths::PathPart<Seq<char>>>| #[trigger] core_spellings(objs).contains_key(key) implies
            objs.contains(core_spellings(objs)[key]) && paths::path_parts(core_spellings(objs)[key]) == key by {
            if core_spellings(rest).contains_key(key) {
                let text = core_spellings(rest)[key];
                let i = choose|i: int| 0 <= i < rest.len() && rest[i] == text;
                assert(objs[i] == text);
            } else {
                assert(objs[objs.len() - 1] == core_spellings(objs)[key]);
            }
        }
    } else {
        assert(core_spellings(objs).dom() =~= core_objects(python_path, objs).dom());
    }
}

/// Every extension module is listed under its own name, has an initialization function, and can be
/// disabled unless it is built in by default.
pub proof fn modules_are_listed(python_path: Seq<char>, extensions: Map<Seq<char>, ExtensionModel>)
    ensures
        modules_of(python_path, extensions).dom() == extensions.dom(),
        forall|name: Seq<char>| #[trigger]
            modules_of(python_path, extensions).contains_key(name) ==> {
                let module = modules_of(python_path, extensions)[name];
                module.module == name && module.init_fn is Some && module.disableable == !module.builtin_default
            },
{
    assert(modules_of(python_path, extensions).dom() =~= extensions.dom());
}

/// Whether a link has a static library of the given name at the given place.
pub open spec fn links_to(python_path: Seq<char>, link: LinkModel, name: Seq<char>, file: Seq<char>) -> bool {
    link.name == name && link.path_static is Some && file == paths::joined(python_path, link.path_static->0)
}

proof fn lemma_with_links(python_path: Seq<char>, libraries: Map<Seq<char>, Seq<char>>, links: Seq<LinkModel>)
    ensures
        forall|name: Seq<char>| #[trigger]
            libraries.contains_key(name) ==> with_links(python_path, libraries, links).contains_key(name),
        forall|i: int|
            0 <= i < links.len() && (#[trigger] links[i]).path_static is Some ==> with_links(
                python_path,
                libraries,
                links,
            ).contains_key(links[i].name),
        forall|name: Seq<char>| #[trigger]
            with_links(python_path, libraries, links).contains_key(name) ==> libraries.contains_key(name)
                && with_links(python_path, libraries, links)[name] == libraries[name] || exists|i: int|
                0 <= i < links.len() && links_to(
                    python_path,
                    #[trigger] links[i],
                    name,
                    with_links(python_path, libraries, links)[name],
                ),
    decreases links.len(),
{
    if links.len() > 0 {
        let rest = links.drop_last();
        lemma_with_links(python_path, libraries, rest);
        let all = with_links(python_path, libraries, links);
        let before = with_links(python_path, libraries, rest);
        assert forall|i: int| 0 <= i < links.len() && (#[trigger] links[i]).path_static is Some implies all.contains_key(
            links[i].name,
        ) by {
            if i < rest.len() {
                assert(rest[i] == links[i]);
            }
        }
        assert forall|name: Seq<char>| #[trigger] all.contains_key(name) implies libraries.contains_key(name)
            && all[name] == libraries[name] || exists|i: int|
            0 <= i < links.len() && links_to(python_path, #[trigger] links[i], name, all[name]) by {
            if links.last().path_static is Some && links.last().name == name {
                assert(links_to(python_path, links[links.len() - 1], name, all[name]));
            } else {
                assert(before.contains_key(name));
                if !(libraries.contains_key(name) && before[name] == libraries[name]) {
                    let i = choose|i: int|
                        0 <= i < rest.len() && links_to(python_path, #[trigger] rest[i], name, before[name]);
                    assert(links_to(python_path, links[i], name, all[name]));
                }
            }
        }
    }
}

/// Every static library that an extension module links is listed under its name, and each listed
/// file is the one that such a link names in the distribution.
pub proof fn linked_libraries_are_listed(python_path: Seq<char>, listing: Seq<(Seq<char>, ExtensionModel)>)
    ensures
        forall|i: int, j: int|
            0 <= i < listing.len() && 0 <= j < listing[i].1.links.len() && (
            #[trigger] listing[i].1.links[j]).path_static is Some ==> libraries_of(python_path, listing).contains_key(
                listing[i].1.links[j].name,
            ),
        forall|name: Seq<char>| #[trigger]
            libraries_of(python_path, listing).contains_key(name) ==> exists|i: int, j: int|
                0 <= i < listing.len() && 0 <= j < listing[i].1.links.len() && links_to(
                    python_path,
                    #[trigger] listing[i].1.links[j],
                    name,
                    libraries_of(python_path, listing)[name],
                ),
    decreases listing.len(),
{
    if listing.len() > 0 {
        let rest = listing.drop_last();
        let last = listing.len() - 1;
        linked_libraries_are_listed(python_path, rest);
        let before = libraries_of(python_path, rest);
        let all = libraries_of(python_path, listing);
        let links = listing.last().1.links;
        lemma_with_links(python_path, before, links);
        assert forall|i: int, j: int|
            0 <= i < listing.len() && 0 <= j < listing[i].1.links.len() && (
            #[trigger] listing[i].1.links[j]).path_static is Some implies all.contains_key(
            listing[i].1.links[j].name,
        ) by {
            if i < last {
                assert(rest[i].1.links[j] == listing[i].1.links[j]);
            } else {
                assert(links[j] == listing[i].1.links[j]);
            }
        }
        assert forall|name: Seq<char>| #[trigger] all.contains_key(name) implies exists|i: int, j: int|
            0 <= i < listing.len() && 0 <= j < listing[i].1.links.len() && links_to(
                python_path,
                #[trigger] listing[i].1.links[j],
                name,
                all[name],
            ) by {
            if before.contains_key(name) && all[name] == before[name] {
                let (i, j) = choose|i: int, j: int|
                    0 <= i < rest.len() && 0 <= j < rest[i].1.links.len() && links_to(
                        python_path,
                        #[trigger] rest[i].1.links[j],
                        name,
                        before[name],
                    );
                assert(rest[i] == listing[i]);
                assert(links_to(python_path, listing[i].1.links[j], name, all[name]));
            } else {
                let j = choose|j: int|
                    0 <= j < links.len() && links_to(python_path, #[trigger] links[j], name, all[name]);
                assert(listing[last].1.links[j] == links[j]);
            }
        }
    }
}

/// Every header is listed under its name, and each listed file is a header with that name.
pub proof fn headers_are_listed(include_path: Seq<char>, files: Seq<Seq<char>>)
    ensures
        forall|i: int|
            0 <= i < files.len() ==> includes_of(include_path, files).contains_key(
                include_name(include_path, #[trigger] files[i]),
            ),
        forall|name: Seq<char>| #[trigger]
            includes_of(include_path, files).contains_key(name) ==> exists|i: int|
                0 <= i < files.len() && include_name(include_path, #[trigger] files[i]) == name && includes_of(
                    include_path,
                    files,
                )[name] == files[i],
    decreases files.len(),
{
    if files.len() > 0 {
        let rest = files.drop_last();
        headers_are_listed(include_path, rest);
        let all = includes_of(include_path, files);
        assert forall|i: int| 0 <= i < files.len() implies all.contains_key(
            include_name(include_path, #[trigger] files[i]),
        ) by {
            if i < rest.len() {
                assert(rest[i] == files[i]);
            }
        }
        assert forall|name: Seq<char>| #[trigger] all.contains_key(name) implies exists|i: int|
            0 <= i < files.len() && include_name(include_path, #[trigger] files[i]) == name && all[name] == files[i] by {
            if name == include_name(include_path, files.last()) {
                assert(files[files.len() - 1] == files.last());
            } else {
                assert(includes_of(include_path, rest).contains_key(name));
                let i = choose|i: int|
                    0 <= i < rest.len() && include_name(include_path, #[trigger] rest[i]) == name && includes_of(
                        include_path,
                        rest,
                    )[name] == rest[i];
                assert(files[i] == rest[i]);
            }
        }
    }
}

/// Every file of a kind is listed under its name, and each listed file is of that kind and has that
/// name.
pub proof fn files_are_listed(list: Seq<ResourceModel>, flavor: PythonResourceType)
    ensures
        forall|i: int|
            0 <= i < list.len() && (#[trigger] list[i]).flavor == flavor ==> files_of_kind(list, flavor).contains_key(
                list[i].name,
            ),
        forall|name: Seq<char>| #[trigger]
            files_of_kind(list, flavor).contains_key(name) ==> exists|i: int|
                0 <= i < list.len() && (#[trigger] list[i]) == (ResourceModel {
                    name,
                    flavor,
                    path: files_of_kind(list, flavor)[name],
                }),
    decreases list.len(),
{
    if list.len() > 0 {
        let rest = list.drop_last();
        files_are_listed(rest, flavor);
        let all = files_of_kind(list, flavor);
        let before = files_of_kind(rest, flavor);
        assert forall|i: int| 0 <= i < list.len() && (#[trigger] list[i]).flavor == flavor implies all.contains_key(
            list[i].name,
        ) by {
            if i < rest.len() {
                assert(rest[i] == list[i]);
            }
        }
        assert forall|name: Seq<char>| #[trigger] all.contains_key(name) implies exists|i: int|
            0 <= i < list.len() && (#[trigger] list[i]) == (ResourceModel { name, flavor, path: all[name] }) by {
            if list.last().flavor == flavor && list.last().name == name {
                assert(list[list.len() - 1] == list.last());
            } else {
                assert(before.contains_key(name));
                let i = choose|i: int|
                    0 <= i < rest.len() && (#[trigger] rest[i]) == (ResourceModel { name, flavor, path: before[name] });
                assert(list[i] == rest[i]);
            }
        }
    }
}

/// Every entry of `PYTHON.json`, built in or not, makes a module with all that the entry has: as many
/// object files, each at its place in the distribution, its static library at its place, and one
/// dependency for each link.
#[verifier::spinoff_prover]
#[verifier::rlimit(60)]
pub proof fn entry_makes_module(python_path: Seq<char>, extensions: Map<Seq<char>, ExtensionModel>, name: Seq<char>)
    requires
        extensions.contains_key(name),
    ensures
        modules_of(python_path, extensions).contains_key(name),
        ({
            let entry = extensions[name];
            let module = modules_of(python_path, extensions)[name];
            &&& module.module == name
            &&& module.init_fn == Some(entry.init_fn)
            &&& module.builtin_default == entry.builtin
            &&& module.disableable != entry.builtin
            &&& module.object_paths.len() == entry.objs.len()
            &&& forall|i: int|
                0 <= i < entry.objs.len() ==> module.object_paths[i] == paths::joined(python_path, #[trigger] entry.objs[i])
            &&& module.static_library is Some == entry.static_lib is Some
            &&& entry.static_lib matches Some(p) ==> module.static_library == Some(paths::joined(python_path, p))
            &&& module.links.len() == entry.links.len()
            &&& forall|i: int|
                0 <= i < entry.links.len() ==> {
                    let link = #[trigger] entry.links[i];
                    let depends = module.links[i];
                    &&& depends.name == link.name
                    &&& depends.static_path is Some == link.path_static is Some
                    &&& link.path_static matches Some(p) ==> depends.static_path == Some(paths::joined(python_path, p))
                    &&& depends.dynamic_path is None
                    &&& !depends.framework
                }
        }),
{
}

/// Whether two texts name the same path.
pub open spec fn is_same_path(a: Seq<char>, b: Seq<char>) -> bool {
    paths::path_parts(a) == paths::path_parts(b)
}

/// Of object files of the core with the same path the last one counts.
pub proof fn last_object_counts(python_path: Seq<char>, objs: Seq<Seq<char>>, i: int)
    requires
        0 <= i < objs.len(),
        forall|j: int| i < j < objs.len() ==> !is_same_path(objs[i], #[trigger] objs[j]),
    ensures
        core_objects(python_path, objs).contains_key(paths::path_parts(objs[i])),
        core_objects(python_path, objs)[paths::path_parts(objs[i])] == paths::joined(python_path, objs[i]),
    decreases objs.len(),
{
    let rest = objs.drop_last();
    let last = objs.len() - 1;
    if i < last {
        assert(!is_same_path(objs[i], objs[last]));
        assert(rest[i] == objs[i]);
        assert forall|j: int| i < j < rest.len() implies !is_same_path(rest[i], #[trigger] rest[j]) by {
            assert(rest[j] == objs[j]);
        }
        last_object_counts(python_path, rest, i);
    }
}

/// The path of an object file of the core is spelled as it is where it occurs first.
pub proof fn first_spelling_counts(python_path: Seq<char>, objs: Seq<Seq<char>>, i: int)
    requires
        0 <= i < objs.len(),
        forall|j: int| 0 <= j < i ==> !is_same_path(objs[i], #[trigger] objs[j]),
    ensures
        core_spellings(objs).contains_key(paths::path_parts(objs[i])),
        core_spellings(objs)[paths::path_parts(objs[i])] == objs[i],
    decreases objs.len(),
{
    let rest = objs.drop_last();
    let last = objs.len() - 1;
    if i < last {
        assert(rest[i] == objs[i]);
        assert forall|j: int| 0 <= j < i implies !is_same_path(rest[i], #[trigger] rest[j]) by {
            assert(rest[j] == objs[j]);
        }
        first_spelling_counts(python_path, rest, i);
    } else {
        let parts = paths::path_parts(objs[last]);
        let before = core_spellings(rest);
        core_paths_are_spelled(python_path, rest);
        if before.contains_key(parts) {
            let k = choose|k: int| 0 <= k < rest.len() && rest[k] == before[parts];
            assert(objs[k] == before[parts]);
            assert(is_same_path(objs[i], objs[k]));
        }
    }
}

/// The links of all modules, one module after the other.
pub open spec fn all_links(listing: Seq<(Seq<char>, ExtensionModel)>) -> Seq<LinkModel>
    decreases listing.len(),
{
    if listing.len() == 0 {
        Seq::empty()
    } else {
        all_links(listing.drop_last()) + listing.last().1.links
    }
}

/// Whether a link has a static library of the given name.
pub open spec fn links_statically(link: LinkModel, name: Seq<char>) -> bool {
    link.name == name && link.path_static is Some
}

proof fn lemma_more_links(
    python_path: Seq<char>,
    libraries: Map<Seq<char>, Seq<char>>,
    a: Seq<LinkModel>,
    b: Seq<LinkModel>,
)
    ensures
        with_links(python_path, with_links(python_path, libraries, a), b) == with_links(python_path, libraries, a + b),
    decreases b.len(),
{
    if b.len() == 0 {
        assert(a + b =~= a);
    } else {
        lemma_more_links(python_path, libraries, a, b.drop_last());
        assert((a + b).drop_last() =~= a + b.drop_last());
        assert((a + b).last() == b.last());
    }
}

proof fn lemma_all_links(python_path: Seq<char>, listing: Seq<(Seq<char>, ExtensionModel)>)
    ensures
        libraries_of(python_path, listing) == with_links(python_path, Map::empty(), all_links(listing)),
    decreases listing.len(),
{
    if listing.len() > 0 {
        lemma_all_links(python_path, listing.drop_last());
        lemma_more_links(python_path, Map::empty(), all_links(listing.drop_last()), listing.last().1.links);
    }
}

proof fn lemma_last_link(python_path: Seq<char>, libraries: Map<Seq<char>, Seq<char>>, links: Seq<LinkModel>)
    ensures
        forall|i: int|
            0 <= i < links.len() && (#[trigger] links[i]).path_static is Some && (forall|j: int|
                i < j < links.len() ==> !links_statically(#[trigger] links[j], links[i].name)) ==> with_links(
                python_path,
                libraries,
                links,
            ).contains_key(links[i].name) && with_links(python_path, libraries, links)[links[i].name] == paths::joined(
                python_path,
                links[i].path_static->0,
            ),
    decreases links.len(),
{
    if links.len() > 0 {
        let rest = links.drop_last();
        let last = links.len() - 1;
        let all = with_links(python_path, libraries, links);
        lemma_last_link(python_path, libraries, rest);
        assert forall|i: int|
            0 <= i < links.len() && (#[trigger] links[i]).path_static is Some && (forall|j: int|
                i < j < links.len() ==> !links_statically(#[trigger] links[j], links[i].name)) implies all.contains_key(
            links[i].name,
        ) && all[links[i].name] == paths::joined(python_path, links[i].path_static->0) by {
            if i < last {
                assert(!links_statically(links[last], links[i].name));
                assert(rest[i] == links[i]);
                assert forall|j: int| i < j < rest.len() implies !links_statically(#[trigger] rest[j], rest[i].name) by {
                    assert(rest[j] == links[j]);
                }
            }
        }
    }
}

/// Of links with the same name that have a static library the last one counts, the modules being
/// taken in the order of their names.
pub proof fn last_link_counts(python_path: Seq<char>, listing: Seq<(Seq<char>, ExtensionModel)>)
    ensures
        forall|i: int|
            0 <= i < all_links(listing).len() && (#[trigger] all_links(listing)[i]).path_static is Some && (forall|j: int|
                i < j < all_links(listing).len() ==> !links_statically(
                    #[trigger] all_links(listing)[j],
                    all_links(listing)[i].name,
                )) ==> libraries_of(python_path, listing).contains_key(all_links(listing)[i].name) && libraries_of(
                python_path,
                listing,
            )[all_links(listing)[i].name] == paths::joined(python_path, all_links(listing)[i].path_static->0),
{
    lemma_all_links(python_path, listing);
    lemma_last_link(python_path, Map::empty(), all_links(listing));
}

/// A header is named by its path below the directory of headers without the first directory in it.
#[verifier::spinoff_prover]
#[verifier::rlimit(60)]
pub proof fn headers_are_named(include_path: Seq<char>, directory: Seq<char>, names: Seq<Seq<char>>)
    requires
        include_path.len() > 0,
        paths::is_entry_name(directory),
        forall|i: int| 0 <= i < names.len() ==> paths::is_entry_name(#[trigger] names[i]),
    ensures
        include_name(include_path, paths::joined(include_path, paths::slashed(seq![directory] + names)))
            == paths::slashed(names),
        paths::lies_in(include_path, paths::joined(include_path, paths::slashed(seq![directory] + names))),
{
    let all = seq![directory] + names;
    assert forall|i: int| 0 <= i < all.len() implies paths::is_entry_name(#[trigger] all[i]) by {
        if i > 0 {
            assert(all[i] == names[i - 1]);
        }
    }
    paths::names_below(include_path, all);
    assert(all.skip(1) =~= names);
    paths::separated_by_slashes(names);
}

/// Of headers with the same name the last one counts.
pub proof fn last_header_counts(include_path: Seq<char>, files: Seq<Seq<char>>)
    ensures
        forall|i: int|
            0 <= i < files.len() && (forall|j: int|
                i < j < files.len() ==> include_name(include_path, #[trigger] files[j]) != include_name(
                    include_path,
                    files[i],
                )) ==> includes_of(include_path, files).contains_key(include_name(include_path, #[trigger] files[i]))
                && includes_of(include_path, files)[include_name(include_path, files[i])] == files[i],
    decreases files.len(),
{
    if files.len() > 0 {
        let rest = files.drop_last();
        let last = files.len() - 1;
        let all = includes_of(include_path, files);
        last_header_counts(include_path, rest);
        assert forall|i: int|
            0 <= i < files.len() && (forall|j: int|
                i < j < files.len() ==> include_name(include_path, #[trigger] files[j]) != include_name(
                    include_path,
                    files[i],
                )) implies all.contains_key(include_name(include_path, #[trigger] files[i])) && all[include_name(
            include_path,
            files[i],
        )] == files[i] by {
            if i < last {
                assert(include_name(include_path, files[last]) != include_name(include_path, files[i]));
                assert(rest[i] == files[i]);
                assert forall|j: int| i < j < rest.len() implies include_name(include_path, #[trigger] rest[j])
                    != include_name(include_path, rest[i]) by {
                    assert(rest[j] == files[j]);
                }
            }
        }
    }
}

/// Whether a file is of a kind and has a name.
pub open spec fn is_file(file: ResourceModel, flavor: PythonResourceType, name: Seq<char>) -> bool {
    file.flavor == flavor && file.name == name
}

/// Of files of a kind with the same name the last one counts.
pub proof fn last_file_counts(list: Seq<ResourceModel>, flavor: PythonResourceType)
    ensures
        forall|i: int|
            0 <= i < list.len() && (#[trigger] list[i]).flavor == flavor && (forall|j: int|
                i < j < list.len() ==> !is_file(#[trigger] list[j], flavor, list[i].name)) ==> files_of_kind(
                list,
                flavor,
            ).contains_key(list[i].name) && files_of_kind(list, flavor)[list[i].name] == list[i].path,
    decreases list.len(),
{
    if list.len() > 0 {
        let rest = list.drop_last();
        let last = list.len() - 1;
        let all = files_of_kind(list, flavor);
        last_file_counts(rest, flavor);
        assert forall|i: int|
            0 <= i < list.len() && (#[trigger] list[i]).flavor == flavor && (forall|j: int|
                i < j < list.len() ==> !is_file(#[trigger] list[j], flavor, list[i].name)) implies all.contains_key(
            list[i].name,
        ) && all[list[i].name] == list[i].path by {
            if i < last {
                assert(!is_file(list[last], flavor, list[i].name));
                assert(rest[i] == list[i]);
                assert forall|j: int| i < j < rest.len() implies !is_file(#[trigger] rest[j], flavor, rest[i].name) by {
                    assert(rest[j] == list[j]);
                }
            }
        }
    }
}

/// Everything of a distribution stands in `python`, the headers in `install/include` below it.
pub proof fn directories_of_distribution(temp_dir: Seq<char>, python_stdlib: Seq<char>)
    requires
        temp_dir.len() > 0,
        temp_dir.last() != '/',
        python_stdlib.len() > 0,
        python_stdlib[0] != '/',
    ensures
        python_path_of(temp_dir) == temp_dir + "/python"@,
        include_path_of(temp_dir) == temp_dir + "/python/install/include"@,
        stdlib_path_of(temp_dir, python_stdlib) == temp_dir + "/python/"@ + python_stdlib,
{
    reveal_strlit("python");
    reveal_strlit("/python");
    reveal_strlit("/python/");
    reveal_strlit("install/include");
    reveal_strlit("/python/install/include");
    assert(python_path_of(temp_dir) =~= temp_dir + "/python"@);
    assert(include_path_of(temp_dir) =~= temp_dir + "/python/install/include"@);
    assert(stdlib_path_of(temp_dir, python_stdlib) =~= temp_dir + "/python/"@ + python_stdlib);
}

/// Whether a name may stand in the directory `python`.
pub open spec fn belongs_in_python(name: Option<Seq<char>>) -> bool {
    name == Some("build"@) || name == Some("install"@) || name == Some("lib"@) || name == Some("LICENSE.rst"@) || name
        == Some("PYTHON.json"@)
}

/// The first name that does not belong where it stands is the problem, and there is none if all
/// belong there.
#[verifier::spinoff_prover]
#[verifier::rlimit(60)]
pub proof fn first_stray_name_is_told(before: Seq<Option<Seq<char>>>, name: Option<Seq<char>>, after: Seq<Option<Seq<char>>>)
    ensures
        (forall|i: int| 0 <= i < before.len() ==> (#[trigger] before[i]) == Some("python"@)) ==> root_problem(before, 0)
            is None && (name != Some("python"@) ==> root_problem(before.push(name) + after, 0) == Some(
            match name {
                Some(value) => "unexpected entry in distribution root directory: "@ + value,
                None => "error listing root directory of Python distribution"@,
            },
        )),
        (forall|i: int| 0 <= i < before.len() ==> belongs_in_python(#[trigger] before[i])) ==> python_problem(before, 0) is None
            && (!belongs_in_python(name) ==> python_problem(before.push(name) + after, 0) == Some(
            match name {
                Some(value) => "unexpected entry in python/ directory: "@ + value,
                None => "error listing python/ directory"@,
            },
        )),
{
    let all = before.push(name) + after;
    assert(all[before.len() as int] == name);
    if forall|i: int| 0 <= i < before.len() ==> (#[trigger] before[i]) == Some("python"@) {
        lemma_root_skips(before, before, 0);
        lemma_root_skips(before, all, 0);
    }
    if forall|i: int| 0 <= i < before.len() ==> belongs_in_python(#[trigger] before[i]) {
        lemma_python_skips(before, before, 0);
        lemma_python_skips(before, all, 0);
    }
}

proof fn lemma_root_skips(before: Seq<Option<Seq<char>>>, all: Seq<Option<Seq<char>>>, i: int)
    requires
        0 <= i <= before.len() <= all.len(),
        forall|k: int| 0 <= k < before.len() ==> (#[trigger] before[k]) == Some("python"@) && all[k] == before[k],
    ensures
        root_problem(all, i) == root_problem(all, before.len() as int),
    decreases before.len() - i,
{
    if i < before.len() {
        assert(before[i] == Some("python"@));
        lemma_root_skips(before, all, i + 1);
    }
}

proof fn lemma_python_skips(before: Seq<Option<Seq<char>>>, all: Seq<Option<Seq<char>>>, i: int)
    requires
        0 <= i <= before.len() <= all.len(),
        forall|k: int| 0 <= k < before.len() ==> belongs_in_python(#[trigger] before[k]) && all[k] == before[k],
    ensures
        python_problem(all, i) == python_problem(all, before.len() as int),
    decreases before.len() - i,
{
    if i < before.len() {
        assert(belongs_in_python(before[i]));
        lemma_python_skips(before, all, i + 1);
    }
}

/// The names in the directory of a distribution.
pub open spec fn root_names(files: DistributionFiles) -> Seq<Option<Seq<char>>> {
    optional_texts(files.root_entries@)
}

/// The names in its directory `python`.
pub open spec fn python_names(files: DistributionFiles) -> Seq<Option<Seq<char>>> {
    optional_texts(files.python_entries@)
}

/// Whether the names in the directories of a distribution are those of a distribution.
pub open spec fn has_right_names(files: DistributionFiles) -> bool {
    &&& forall|i: int| 0 <= i < root_names(files).len() ==> (#[trigger] root_names(files)[i]) == Some("python"@)
    &&& root_names(files).len() > 0
    &&& forall|i: int| 0 <= i < python_names(files).len() ==> belongs_in_python(#[trigger] python_names(files)[i])
    &&& exists|i: int| 0 <= i < python_names(files).len() && (#[trigger] python_names(files)[i]) == Some("PYTHON.json"@)
}

/// Whether an extension module links a dynamic library.
pub open spec fn links_dynamically(listing: Seq<(Seq<char>, ExtensionModel)>) -> bool {
    exists|i: int, j: int|
        0 <= i < listing.len() && 0 <= j < listing[i].1.links.len() && (#[trigger] listing[i].1.links[j]).path_dynamic is Some
}

/// Whether a header does not lie in the directory of headers.
pub open spec fn has_stray_header(files: DistributionFiles) -> bool {
    exists|i: int|
        0 <= i < files.include_files@.len() && !paths::lies_in(
            include_path_of(files.temp_dir@),
            (#[trigger] files.include_files@[i])@,
        )
}

/// A distribution can be analyzed exactly if its directories hold the right names, no extension
/// module links a dynamic library, and every header lies in the directory of headers. Of two things
/// that are wrong the one that is found first is told.
#[verifier::spinoff_prover]
#[verifier::rlimit(60)]
pub proof fn problems_are_told(files: DistributionFiles)
    ensures
        problem_of(files) is None <==> has_right_names(files) && !links_dynamically(
            files.python_json.build_info.extensions.listing(),
        ) && !has_stray_header(files),
        root_names(files).len() == 0 ==> problem_of(files) == Some("unable to list python/ directory"@),
        root_problem(root_names(files), 0) is Some ==> problem_of(files) == root_problem(root_names(files), 0),
        root_problem(root_names(files), 0) is None && root_names(files).len() > 0 && python_problem(python_names(files), 0)
            is Some ==> problem_of(files) == python_problem(python_names(files), 0),
        root_problem(root_names(files), 0) is None && root_names(files).len() > 0 && python_problem(python_names(files), 0)
            is None && !has_right_names(files) ==> problem_of(files) == Some("failed to read PYTHON.json"@),
        has_right_names(files) && links_dynamically(files.python_json.build_info.extensions.listing()) ==> problem_of(files)
            == Some("dynamic_path not yet supported"@),
        has_right_names(files) && !links_dynamically(files.python_json.build_info.extensions.listing()) && has_stray_header(
            files,
        ) ==> problem_of(files) == Some("unable to strip prefix"@),
{
    let root = root_names(files);
    let python = python_names(files);
    let listing = files.python_json.build_info.extensions.listing();
    lemma_no_root_problem(root, 0);
    lemma_no_python_problem(python, 0);
    if root.len() > 0 && root_problem(root, 0) is None {
        assert(root[0] == Some("python"@));
        assert(root.contains(root[0]));
    }
    assert(links_dynamically(listing) == !all_static(listing)) by {
        if !all_static(listing) {
            let i = choose|i: int| 0 <= i < listing.len() && !links_are_static((#[trigger] listing[i]).1.links);
            let links = listing[i].1.links;
            let j = choose|j: int| 0 <= j < links.len() && !((#[trigger] links[j]).path_dynamic is None);
            assert(listing[i].1.links[j].path_dynamic is Some);
        }
    }
    let base = include_path_of(files.temp_dir@);
    let names = text::texts(files.include_files@);
    assert(has_stray_header(files) == !all_lie_in(base, names)) by {
        if has_stray_header(files) {
            let i = choose|i: int|
                0 <= i < files.include_files@.len() && !paths::lies_in(base, (#[trigger] files.include_files@[i])@);
            assert(names[i] == files.include_files@[i]@);
        }
        if !all_lie_in(base, names) {
            let i = choose|i: int| 0 <= i < names.len() && !paths::lies_in(base, #[trigger] names[i]);
            assert(names[i] == files.include_files@[i]@);
        }
    }
    if python.contains(Some("PYTHON.json"@)) {
        let i = choose|i: int| 0 <= i < python.len() && python[i] == Some("PYTHON.json"@);
        assert(python[i] == Some("PYTHON.json"@));
    }
}

proof fn lemma_no_root_problem(list: Seq<Option<Seq<char>>>, from: int)
    requires
        0 <= from <= list.len(),
    ensures
        root_problem(list, from) is None <==> forall|i: int|
            from <= i < list.len() ==> (#[trigger] list[i]) == Some("python"@),
    decreases list.len() - from,
{
    if from < list.len() {
        lemma_no_root_problem(list, from + 1);
    }
}

proof fn lemma_no_python_problem(list: Seq<Option<Seq<char>>>, from: int)
    requires
        0 <= from <= list.len(),
    ensures
        python_problem(list, from) is None <==> forall|i: int|
            from <= i < list.len() ==> belongs_in_python(#[trigger] list[i]),
    decreases list.len() - from,
{
    if from < list.len() {
        lemma_no_python_problem(list, from + 1);
    }
}

} // verus!
