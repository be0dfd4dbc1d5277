//! Project settings, the contents of a `.bmd` project file, and how
//! workarea paths are stored in it.

use vstd::prelude::*;
use vstd::string::*;

use crate::bundle::Newline;
use crate::paths::{
    components, file_stem, is_absolute, join, join_path, join_slash, lemma_component_names_valid,
    lemma_join_names_components, lemma_join_slash_start, lemma_normal_names_of_named,
    lemma_normal_names_valid, normal_names, normal_names_exec, parent, path_file_name, path_parent,
    same_path, stem_of_name, strip_prefix, strip_prefix_exec, string_views, valid_name,
};
use crate::text::{chars_of, opt_view, owned};

verus! {

broadcast use vstd::string::group_string_axioms;

/// Output newline setting of a project.
#[derive(Clone, Copy, Debug, PartialEq, Eq, Structural)]
pub enum NewlineSetting {
    Unix,
    Windows,
    Platform,
}

/// `std::path::MAIN_SEPARATOR` of the platform the library was built for.
#[verifier::external_body]
fn main_separator() -> char {
    std::path::MAIN_SEPARATOR
}

impl NewlineSetting {
    /// The newline style this setting stands for on a platform whose path
    /// separator is `separator` (`\\` on Windows).
    pub open spec fn resolved(self, separator: char) -> Newline {
        match self {
            NewlineSetting::Unix => Newline::Unix,
            NewlineSetting::Windows => Newline::Windows,
            NewlineSetting::Platform => if separator == '\\' {
                Newline::Windows
            } else {
                Newline::Unix
            },
        }
    }

    /// The newline style on a platform whose path separator is `separator`.
    pub fn resolve_for(self, separator: char) -> (nl: Newline)
        ensures
            nl == self.resolved(separator),
    {
        match self {
            NewlineSetting::Unix => Newline::Unix,
            NewlineSetting::Windows => Newline::Windows,
            NewlineSetting::Platform => {
                if separator == '\\' {
                    Newline::Windows
                } else {
                    Newline::Unix
                }
            },
        }
    }

    /// The newline style on the platform the library runs on: Platform
    /// Default is Windows on Windows and Unix elsewhere.
    pub fn resolve(self) -> (nl: Newline)
        ensures
            self != NewlineSetting::Platform ==> nl == self.resolved(' '),
    {
        self.resolve_for(main_separator())
    }
}

impl Default for NewlineSetting {
    fn default() -> (s: Self)
        ensures
            s == NewlineSetting::Unix,
    {
        NewlineSetting::Unix
    }
}

/// How file paths are both stored in the `.bmd` and rendered in the bundle.
/// - `Smart`: files under the project file's directory are stored/shown
///   relative to it; everything else is absolute (rendered as the shortest
///   unambiguous name).
/// - `Absolute`: always store and show full absolute paths.
/// - `Fixed`: show paths relative to a fixed `location`.
#[derive(Clone, Debug, PartialEq, Eq)]
pub enum PathPresentation {
    Smart,
    Absolute,
    Fixed { location: String },
}

impl Default for PathPresentation {
    fn default() -> (p: Self)
        ensures
            p is Smart,
    {
        PathPresentation::Smart
    }
}

/// How a file's section is headed.
#[derive(Clone, Copy, Debug, PartialEq, Eq, Structural)]
pub enum HeaderStyle {
    Filename,
    Omitted,
    Custom,
}

impl Default for HeaderStyle {
    fn default() -> (h: Self)
        ensures
            h == HeaderStyle::Filename,
    {
        HeaderStyle::Filename
    }
}

/// Per-file export options.
#[derive(Clone, Debug, PartialEq, Eq)]
pub struct FileOptions {
    pub include_code_fence: bool,
    pub include_in_toc: bool,
    pub header_style: HeaderStyle,
    pub custom_header: String,
}

impl FileOptions {
    /// The options of a newly added file: fenced, listed, headed by its name.
    pub open spec fn is_default(self) -> bool {
        &&& self.include_code_fence
        &&& self.include_in_toc
        &&& self.header_style == HeaderStyle::Filename
        &&& self.custom_header@ == Seq::<char>::empty()
    }
}

impl Default for FileOptions {
    fn default() -> (o: Self)
        ensures
            o.is_default(),
    {
        FileOptions {
            include_code_fence: true,
            include_in_toc: true,
            header_style: HeaderStyle::Filename,
            custom_header: String::new(),
        }
    }
}

/// One workarea file with its options.
#[derive(Clone, Debug, PartialEq, Eq)]
pub struct ProjectEntry {
    pub path: String,
    pub options: FileOptions,
}

impl ProjectEntry {
    /// An entry for `path` with default options.
    pub fn new(path: String) -> (e: Self)
        ensures
            e.path == path,
            e.options.is_default(),
    {
        ProjectEntry { path, options: FileOptions::default() }
    }
}

/// One file entry as stored in a `.bmd`.
#[derive(Clone, Debug, PartialEq, Eq)]
pub struct ProjectFileEntry {
    pub path: String,
    pub options: FileOptions,
}

/// Project settings.
#[derive(Clone, Debug, PartialEq, Eq)]
pub struct ProjectSettings {
    pub add_detected_language_tag_to_code_fences: bool,
    pub description: String,
    pub include_description_in_export: bool,
    pub include_line_ranges_in_headings: bool,
    pub newlines: NewlineSetting,
    pub path_presentation: PathPresentation,
    pub toc_links: bool,
}

impl ProjectSettings {
    /// The settings of a new project.
    pub open spec fn is_default(self) -> bool {
        &&& self.add_detected_language_tag_to_code_fences
        &&& self.description@ == Seq::<char>::empty()
        &&& self.include_description_in_export
        &&& !self.include_line_ranges_in_headings
        &&& self.newlines == NewlineSetting::Unix
        &&& self.path_presentation is Smart
        &&& !self.toc_links
    }
}

impl Default for ProjectSettings {
    fn default() -> (s: Self)
        ensures
            s.is_default(),
    {
        ProjectSettings {
            add_detected_language_tag_to_code_fences: true,
            description: String::new(),
            include_description_in_export: true,
            include_line_ranges_in_headings: false,
            newlines: NewlineSetting::Unix,
            path_presentation: PathPresentation::Smart,
            toc_links: false,
        }
    }
}

/// The URL of the published JSON schema of the `.bmd` format.
pub const SCHEMA_URL: &'static str =
    "https://raw.githubusercontent.com/mevanlc/bundlermd/refs/heads/main/schemas/project-v1.json";

/// The `.bmd` file contents. The `$schema` field identifies the format version
/// and enables editor validation against the published JSON Schema.
#[derive(Clone, Debug)]
pub struct ProjectFile {
    /// The schema URL the file names.
    pub schema: String,
    pub files: Vec<ProjectFileEntry>,
    pub last_export: Option<String>,
    pub settings: ProjectSettings,
}

impl ProjectFile {
    /// A project file of the current format version.
    pub fn new(
        files: Vec<ProjectFileEntry>,
        last_export: Option<String>,
        settings: ProjectSettings,
    ) -> (p: Self)
        ensures
            p.schema@ == SCHEMA_URL@,
            p.files == files,
            p.last_export == last_export,
            p.settings == settings,
    {
        ProjectFile { schema: owned(SCHEMA_URL), files, last_export, settings }
    }
}

/// The bundle title: the `.bmd` stem, else the export output stem, else "Bundle".
pub open spec fn title_for(project_path: Option<Seq<char>>, output: Seq<char>) -> Seq<char> {
    match project_path {
        Some(p) if file_stem(p) is Some => file_stem(p)->0,
        _ => match file_stem(output) {
            Some(s) => s,
            None => "Bundle"@,
        },
    }
}

/// Bundle title, derived from the filename: `.bmd` stem → export output stem →
/// "Bundle". (There is no title setting; the project's name is its filename.)
pub fn effective_title(project_path: Option<&str>, output: &str) -> (t: String)
    ensures
        t@ == title_for(
            match project_path {
                Some(p) => Some(p@),
                None => None,
            },
            output@,
        ),
{
    if let Some(p) = project_path {
        if let Some(name) = path_file_name(p) {
            return stem_of_name(&name);
        }
    }
    match path_file_name(output) {
        Some(name) => stem_of_name(&name),
        None => owned("Bundle"),
    }
}

/// The directory of the project file, if there is one.
pub fn project_dir(project_path: Option<&str>) -> (d: Option<String>)
    ensures
        opt_view(d) == match project_path {
            Some(p) => parent(p@),
            None => None,
        },
{
    match project_path {
        Some(p) => path_parent(p),
        None => None,
    }
}

/// The stored form of `path` for a project in `project_dir`.
pub open spec fn stored_form(path: Seq<char>, project_dir: Seq<char>) -> Seq<char> {
    if project_dir.len() == 0 {
        path
    } else {
        match strip_prefix(path, project_dir) {
            Some(rest) => join_slash(normal_names(rest)),
            None => path,
        }
    }
}

/// On-disk form of a workarea path. Files living under `project_dir` (the
/// `.bmd` file's directory) are stored relative to it, forward-slashed so the
/// project stays portable across platforms; files elsewhere keep their
/// absolute path.
pub fn stored_path(path: &str, project_dir: &str) -> (s: String)
    ensures
        s@ == stored_form(path@, project_dir@),
{
    if project_dir.is_empty() {
        return owned(path);
    }
    match strip_prefix_exec(path, project_dir) {
        Some(rest) => {
            let names = normal_names_exec(&rest);
            let mut s = String::new();
            crate::paths::push_joined(&mut s, &names, 0);
            assert(string_views(names@).skip(0) =~= string_views(names@));
            s
        },
        None => owned(path),
    }
}

/// The absolute form of a stored workarea path.
pub open spec fn resolved_form(stored: Seq<char>, project_dir: Seq<char>) -> Seq<char> {
    if is_absolute(stored) {
        stored
    } else {
        join(project_dir, stored)
    }
}

/// Resolve a stored workarea path back to absolute. Relative entries are joined
/// to `project_dir`; absolute entries are returned unchanged.
pub fn resolve_stored(stored: &str, project_dir: &str) -> (p: String)
    ensures
        p@ == resolved_form(stored@, project_dir@),
{
    let v = chars_of(stored);
    if v.len() > 0 && v[0] == '/' {
        owned(stored)
    } else {
        join_path(project_dir, stored)
    }
}

/// A workarea path stored for a project resolves back to the same path:
/// a path under the project directory comes back from its relative form
/// (when nothing below the directory is `..`), and an absolute path
/// elsewhere is kept as it is.
pub proof fn lemma_stored_path_resolves_back(path: Seq<char>, project_dir: Seq<char>)
    requires
        project_dir.len() == 0 || match strip_prefix(path, project_dir) {
            Some(rest) => forall|i: int| 0 <= i < rest.len() ==> (#[trigger] rest[i]) is Normal,
            None => is_absolute(path),
        },
    ensures
        same_path(resolved_form(stored_form(path, project_dir), project_dir), path),
{
    if project_dir.len() > 0 {
        if let Some(rest) = strip_prefix(path, project_dir) {
            let cp = components(path);
            let cb = components(project_dir);
            let names = normal_names(rest);
            lemma_component_names_valid(path);
            assert forall|i: int|
                0 <= i < rest.len() && (#[trigger] rest[i]) is Normal implies valid_name(
                rest[i]->Normal_0,
            ) by {
                assert(rest[i] == cp[cb.len() + i]);
            }
            lemma_normal_names_valid(rest);
            lemma_normal_names_of_named(rest);
            let stored = join_slash(names);
            if names.len() > 0 {
                assert(valid_name(names[0]));
                lemma_join_slash_start(names);
            }
            assert(!is_absolute(stored));
            lemma_join_names_components(project_dir, names);
            assert(cb + rest =~= cp);
        }
    }
}

} // verus!
