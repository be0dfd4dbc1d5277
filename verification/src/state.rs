//! Project state and the decisions behind the commands that drive it:
//! screening files for the workarea, reordering, saving and opening
//! projects, and best-effort bundle generation. File system access stays
//! with the caller, which reports what it observed.

use vstd::prelude::*;
use vstd::string::*;

use crate::bundle::{
    assemble, assembled, bundle_lines, file_views, lines_within, normalize_vec, normalized,
    BundleFile, BundleFileView, BundleHeader, HeaderView, Newline,
};
use crate::paths::{
    components, extension, extension_of_name, file_name, is_absolute, join, join_path, parent,
    path_file_name, path_parent, same_path, same_path_exec, string_views, strip_prefix, PathPart,
};
use crate::project::{
    effective_title, lemma_stored_path_resolves_back, project_dir, resolve_stored,
    resolved_form, stored_form, stored_path, title_for, FileOptions, NewlineSetting,
    PathPresentation, ProjectFile, ProjectFileEntry, ProjectSettings, SCHEMA_URL,
};
use crate::lang::{fence_tag, fence_tag_of};
use crate::reading::FileContent;
use crate::smartpath::{presented, presented_paths};
use crate::text::{decimal, opt_view, owned, push_decimal};

verus! {

broadcast use vstd::string::group_string_axioms;

/// Size limits enforced at add and export time.
#[derive(Clone, Copy, Debug, PartialEq, Eq, Structural)]
pub struct Limits {
    pub max_file_bytes: u64,
    pub max_total_bytes: u64,
}

impl Default for Limits {
    fn default() -> (l: Self)
        ensures
            l.max_file_bytes == 200_000_000,
            l.max_total_bytes == 250_000_000,
    {
        Limits { max_file_bytes: 200_000_000, max_total_bytes: 250_000_000 }
    }
}

/// Round-figure rendering of a byte count for messages (limits are set in
/// round decimal bytes, e.g. 200,000,000 is "200 MB").
pub open spec fn human_bytes_text(bytes: nat) -> Seq<char> {
    if bytes >= 1_000_000_000 {
        decimal(bytes / 1_000_000_000) + " GB"@
    } else if bytes >= 1_000_000 {
        decimal(bytes / 1_000_000) + " MB"@
    } else if bytes >= 1_000 {
        decimal(bytes / 1_000) + " KB"@
    } else {
        decimal(bytes) + " B"@
    }
}

fn human_bytes(bytes: u64) -> (s: String)
    ensures
        s@ == human_bytes_text(bytes as nat),
{
    let mut s = String::new();
    if bytes >= 1_000_000_000 {
        push_decimal(&mut s, bytes / 1_000_000_000);
        s.append(" GB");
    } else if bytes >= 1_000_000 {
        push_decimal(&mut s, bytes / 1_000_000);
        s.append(" MB");
    } else if bytes >= 1_000 {
        push_decimal(&mut s, bytes / 1_000);
        s.append(" KB");
    } else {
        push_decimal(&mut s, bytes);
        s.append(" B");
    }
    s
}

/// The reason a file over the per-file limit is refused.
pub open spec fn too_big_reason(limits: Limits) -> Seq<char> {
    "exceeds the maximum file size ("@ + human_bytes_text(limits.max_file_bytes as nat) + ")"@
}

/// The reason a file that would exceed the total limit is refused.
pub open spec fn over_total_reason(limits: Limits) -> Seq<char> {
    "would push the bundle over the maximum total size ("@ + human_bytes_text(
        limits.max_total_bytes as nat,
    ) + ")"@
}

fn too_big(limits: Limits) -> (s: String)
    ensures
        s@ == too_big_reason(limits),
{
    let mut s = owned("exceeds the maximum file size (");
    s.append(human_bytes(limits.max_file_bytes).as_str());
    s.append(")");
    s
}

fn over_total(limits: Limits) -> (s: String)
    ensures
        s@ == over_total_reason(limits),
{
    let mut s = owned("would push the bundle over the maximum total size (");
    s.append(human_bytes(limits.max_total_bytes).as_str());
    s.append(")");
    s
}

/// The name shown for a path: its file name, or the whole path.
pub open spec fn basename_text(path: Seq<char>) -> Seq<char> {
    match file_name(path) {
        Some(n) => n,
        None => path,
    }
}

fn basename(path: &str) -> (s: String)
    ensures
        s@ == basename_text(path@),
{
    match path_file_name(path) {
        Some(n) => n,
        None => owned(path),
    }
}

/// Whether `path` has the extension `bmd`, ignoring ASCII case.
pub open spec fn is_bmd(path: Seq<char>) -> bool {
    match extension(path) {
        Some(e) => e.len() == 3 && (e[0] == 'b' || e[0] == 'B') && (e[1] == 'm' || e[1] == 'M') && (
        e[2] == 'd' || e[2] == 'D'),
        None => false,
    }
}

fn is_bmd_path(path: &str) -> (r: bool)
    ensures
        r == is_bmd(path@),
{
    match path_file_name(path) {
        Some(name) => match extension_of_name(&name) {
            Some(e) => {
                let v = crate::text::chars_of(e.as_str());
                v.len() == 3 && (v[0] == 'b' || v[0] == 'B') && (v[1] == 'm' || v[1] == 'M') && (
                v[2] == 'd' || v[2] == 'D')
            },
            None => false,
        },
        None => false,
    }
}

/// One workarea row as the frontend's table displays it.
#[derive(Clone, Debug, PartialEq, Eq)]
pub struct FileRow {
    pub path: String,
    pub name: String,
    pub folder: String,
    /// `None` when the file is currently missing/unreadable.
    pub size: Option<u64>,
}

/// A file that was not added, and why.
#[derive(Clone, Debug, PartialEq, Eq)]
pub struct Skipped {
    pub path: String,
    pub reason: String,
}

/// One folder entry as the add-folder preview lists it.
#[derive(Clone, Debug, PartialEq, Eq)]
pub struct FolderPreviewFile {
    pub path: String,
    pub importable: bool,
    pub note: String,
}

/// A reordering of one workarea file.
#[derive(Clone, Copy, Debug, PartialEq, Eq, Structural)]
pub enum MoveOp {
    Up,
    Down,
    Top,
    Bottom,
}

/// A file left out of an export, and why.
#[derive(Clone, Debug, PartialEq, Eq)]
pub struct Problem {
    pub path: String,
    pub reason: String,
}

/// Outcome of an export request.
#[derive(Clone, Debug, PartialEq, Eq)]
pub struct ExportResult {
    pub written: bool,
    pub problems: Vec<Problem>,
}

/// Outcome of rendering the bundle for the clipboard.
#[derive(Clone, Debug, PartialEq, Eq)]
pub struct BundleTextResult {
    pub markdown: String,
    pub problems: Vec<Problem>,
}

/// Whether a bundle goes out (written to its file, or handed to the
/// clipboard): when no file was a problem, or when the user chose to go on
/// without the problem files.
pub open spec fn goes_out(problem_count: nat, allow_problems: bool) -> bool {
    problem_count == 0 || allow_problems
}

/// Whether an export is written, given the problems met and whether the
/// user allowed them; otherwise the problems go back for the
/// Save-anyway/Cancel dialog.
pub fn may_write(problems: &Vec<Problem>, allow_problems: bool) -> (r: bool)
    ensures
        r == goes_out(problems@.len(), allow_problems),
{
    problems.len() == 0 || allow_problems
}

/// What copying a bundle to the clipboard gives back: the problems, and the
/// Markdown only when the bundle goes out (else nothing to copy).
pub fn clipboard_result(markdown: String, problems: Vec<Problem>, allow_problems: bool) -> (r:
    BundleTextResult)
    ensures
        r.problems@ == problems@,
        r.markdown@ == if goes_out(problems@.len(), allow_problems) {
            markdown@
        } else {
            Seq::empty()
        },
{
    if may_write(&problems, allow_problems) {
        BundleTextResult { markdown, problems }
    } else {
        BundleTextResult { markdown: String::new(), problems }
    }
}

/// The row shown for `path`, whose size on disk is `size`.
pub fn file_row(path: &str, size: Option<u64>) -> (row: FileRow)
    ensures
        row.path@ == path@,
        row.name@ == basename_text(path@),
        row.folder@ == match parent(path@) {
            Some(d) => d,
            None => Seq::empty(),
        },
        row.size == size,
{
    FileRow {
        path: owned(path),
        name: basename(path),
        folder: match path_parent(path) {
            Some(d) => d,
            None => String::new(),
        },
        size,
    }
}

/// What reading a file at export time gave.
pub enum ReadView {
    Text(Seq<char>),
    Binary,
    Failed(Seq<char>),
}

/// The view of a read outcome.
pub open spec fn read_view(r: Result<FileContent, String>) -> ReadView {
    match r {
        Ok(FileContent::Text(s)) => ReadView::Text(s@),
        Ok(FileContent::Binary) => ReadView::Binary,
        Err(e) => ReadView::Failed(e@),
    }
}

/// What the caller observed of one file at export time: its size on disk
/// (zero when unknown) and, when the size checks let it be read, what
/// reading it gave.
pub struct ExportObservation {
    pub size: u64,
    pub read: Result<FileContent, String>,
}

/// Progress of a best-effort export.
pub struct ExportModel {
    pub files: Seq<BundleFileView>,
    pub problems: Seq<(Seq<char>, Seq<char>)>,
    pub total: nat,
}

/// The reason, if any, that a file of `size` bytes may not join a bundle
/// that already holds `total` bytes.
pub open spec fn size_gate(total: nat, size: nat, limits: Limits) -> Option<Seq<char>> {
    if size > limits.max_file_bytes {
        Some(too_big_reason(limits))
    } else if total + size > limits.max_total_bytes {
        Some(over_total_reason(limits))
    } else {
        None
    }
}

/// The fence tag a bundle shows for a detected tag: any but the plain-text
/// and Markdown tags, whose fences stay bare.
pub open spec fn shown_tag(tag: Option<Seq<char>>) -> Option<Seq<char>> {
    match tag {
        Some(t) => if t != "text"@ && t != "markdown"@ {
            Some(t)
        } else {
            None
        },
        None => None,
    }
}

/// The fence tag of a file at `path` with `content`: when `tagging` (the
/// project's language-tag setting) is on, the shown tag of its detected
/// language.
pub open spec fn file_tag(tagging: bool, path: Seq<char>, content: Seq<char>) -> Option<Seq<char>> {
    if tagging {
        shown_tag(fence_tag_of(path, content))
    } else {
        None
    }
}

/// Law: with tagging on, a file's fence carries exactly the tag detected
/// for it, unless that tag is `text` or `markdown`, whose fences stay bare;
/// with tagging off no fence is tagged.
pub proof fn lemma_file_tag_is_detected_tag(path: Seq<char>, content: Seq<char>)
    ensures
        fence_tag_of(path, content) is Some && fence_tag_of(path, content)->0 != "text"@
            && fence_tag_of(path, content)->0 != "markdown"@ ==> file_tag(true, path, content)
            == fence_tag_of(path, content),
        fence_tag_of(path, content) is None ==> file_tag(true, path, content) is None,
        fence_tag_of(path, content) == Some("text"@) ==> file_tag(true, path, content) is None,
        fence_tag_of(path, content) == Some("markdown"@) ==> file_tag(true, path, content) is None,
        file_tag(false, path, content) is None,
{
}

/// The fence tag shown for a file at `path` with `content`.
fn shown_fence_tag(path: &str, content: &str) -> (r: Option<String>)
    ensures
        opt_view(r) == shown_tag(fence_tag_of(path@, content@)),
{
    match fence_tag(path, content) {
        Some(t) => {
            if t == owned("text") || t == owned("markdown") {
                None
            } else {
                Some(t)
            }
        },
        None => None,
    }
}

/// A file as it joins the bundle: fenced with `tag`, listed, headed by its
/// name.
pub open spec fn plain_file(display: Seq<char>, content: Seq<char>, tag: Option<Seq<char>>) -> BundleFileView {
    BundleFileView {
        display,
        fence_tag: tag,
        content,
        include_code_fence: true,
        include_in_toc: true,
        header: HeaderView::Filename,
    }
}

/// The reason given for a binary file.
pub open spec fn binary_reason() -> Seq<char> {
    "binary file (contains NUL bytes)"@
}

/// The export after considering one more file.
pub open spec fn export_step(
    m: ExportModel,
    path: Seq<char>,
    display: Seq<char>,
    size: nat,
    read: ReadView,
    limits: Limits,
    tagging: bool,
) -> ExportModel {
    match size_gate(m.total, size, limits) {
        Some(reason) => ExportModel { problems: m.problems.push((path, reason)), ..m },
        None => match read {
            ReadView::Text(c) => ExportModel {
                files: m.files.push(plain_file(display, c, file_tag(tagging, path, c))),
                total: m.total + size,
                ..m
            },
            ReadView::Binary => ExportModel { problems: m.problems.push((path, binary_reason())), ..m },
            ReadView::Failed(e) => ExportModel { problems: m.problems.push((path, e)), ..m },
        },
    }
}

/// Law: a text file that passes the size checks joins the export as the
/// last file, with its content, its displayed name, and, with tagging on,
/// the tag detected for it (unless `text` or `markdown`).
pub proof fn lemma_export_includes_tagged_file(
    m: ExportModel,
    path: Seq<char>,
    display: Seq<char>,
    size: nat,
    content: Seq<char>,
    limits: Limits,
)
    requires
        size_gate(m.total, size, limits) is None,
    ensures
        ({
            let next = export_step(m, path, display, size, ReadView::Text(content), limits, true);
            &&& next.files.len() == m.files.len() + 1
            &&& next.files.last().content == content
            &&& next.files.last().display == display
            &&& next.total == m.total + size
            &&& next.problems == m.problems
            &&& (fence_tag_of(path, content) is Some && fence_tag_of(path, content)->0 != "text"@
                && fence_tag_of(path, content)->0 != "markdown"@ ==> next.files.last().fence_tag
                == fence_tag_of(path, content))
        }),
{
}

/// The export after considering the first `n` files.
pub open spec fn export_fold(
    paths: Seq<Seq<char>>,
    displays: Seq<Seq<char>>,
    obs: Seq<ExportObservation>,
    limits: Limits,
    tagging: bool,
    n: nat,
) -> ExportModel
    decreases n,
{
    if n == 0 {
        ExportModel { files: Seq::empty(), problems: Seq::empty(), total: 0 }
    } else {
        let k = (n - 1) as int;
        export_step(
            export_fold(paths, displays, obs, limits, tagging, (n - 1) as nat),
            paths[k],
            displays[k],
            obs[k].size as nat,
            read_view(obs[k].read),
            limits,
            tagging,
        )
    }
}

/// Every file considered by an export is either included or reported as a
/// problem, exactly once, and the included files never add up to more than
/// the total size limit.
pub proof fn lemma_export_accounts_for_every_file(
    paths: Seq<Seq<char>>,
    displays: Seq<Seq<char>>,
    obs: Seq<ExportObservation>,
    limits: Limits,
    tagging: bool,
    n: nat,
)
    ensures
        export_fold(paths, displays, obs, limits, tagging, n).files.len() + export_fold(
            paths,
            displays,
            obs,
            limits,
            tagging,
            n,
        ).problems.len() == n,
        export_fold(paths, displays, obs, limits, tagging, n).total <= limits.max_total_bytes,
    decreases n,
{
    if n > 0 {
        lemma_export_accounts_for_every_file(paths, displays, obs, limits, tagging, (n - 1) as nat);
    }
}

/// The views of problems.
pub open spec fn problem_views(ps: Seq<Problem>) -> Seq<(Seq<char>, Seq<char>)> {
    ps.map_values(|p: Problem| (p.path@, p.reason@))
}

struct ExportState {
    total: u64,
    files: Vec<BundleFile>,
    problems: Vec<Problem>,
}

impl ExportState {
    spec fn model(&self) -> ExportModel {
        ExportModel {
            files: file_views(self.files@),
            problems: problem_views(self.problems@),
            total: self.total as nat,
        }
    }

    fn new() -> (s: Self)
        ensures
            s.model() == (ExportModel { files: Seq::empty(), problems: Seq::empty(), total: 0 }),
    {
        let s = ExportState { total: 0, files: Vec::new(), problems: Vec::new() };
        assert(s.model().files =~= Seq::<BundleFileView>::empty());
        assert(s.model().problems =~= Seq::<(Seq<char>, Seq<char>)>::empty());
        s
    }

    /// Applies the size checks; true when the file may be read.
    fn gate(&mut self, path: &String, size: u64, limits: Limits) -> (may_read: bool)
        requires
            old(self).total <= limits.max_total_bytes,
        ensures
            may_read == (size_gate(old(self).total as nat, size as nat, limits) is None),
            may_read ==> final(self).model() == old(self).model(),
            !may_read ==> final(self).model() == export_step(
                old(self).model(),
                path@,
                Seq::empty(),
                size as nat,
                ReadView::Binary,
                limits,
                false,
            ),
            final(self).total <= limits.max_total_bytes,
    {
        let reason = if size > limits.max_file_bytes {
            too_big(limits)
        } else if size as u128 + self.total as u128 > limits.max_total_bytes as u128 {
            over_total(limits)
        } else {
            return true;
        };
        let ghost before = problem_views(self.problems@);
        self.problems.push(Problem { path: path.clone(), reason });
        assert(problem_views(self.problems@) =~= before.push((path@, reason@)));
        false
    }

    /// Records what reading an accepted file gave.
    fn record(
        &mut self,
        path: &String,
        display: &String,
        size: u64,
        read: Result<FileContent, String>,
        limits: Limits,
        tagging: bool,
    )
        requires
            size_gate(old(self).total as nat, size as nat, limits) is None,
            old(self).total <= limits.max_total_bytes,
        ensures
            final(self).model() == export_step(
                old(self).model(),
                path@,
                display@,
                size as nat,
                read_view(read),
                limits,
                tagging,
            ),
            final(self).total <= limits.max_total_bytes,
    {
        let ghost rv = read_view(read);
        let ghost before = self.model();
        match read {
            Ok(FileContent::Text(content)) => {
                self.total = self.total + size;
                let tag = if tagging {
                    shown_fence_tag(path.as_str(), content.as_str())
                } else {
                    None
                };
                let f = BundleFile {
                    display: display.clone(),
                    fence_tag: tag,
                    content,
                    include_code_fence: true,
                    include_in_toc: true,
                    header: BundleHeader::Filename,
                };
                self.files.push(f);
                assert(file_views(self.files@) =~= before.files.push(f@));
                assert(f@ == plain_file(display@, rv->Text_0, file_tag(tagging, path@, rv->Text_0)));
            },
            Ok(FileContent::Binary) => {
                let reason = owned("binary file (contains NUL bytes)");
                self.problems.push(Problem { path: path.clone(), reason });
                assert(problem_views(self.problems@) =~= before.problems.push((path@, binary_reason())));
            },
            Err(e) => {
                let ghost ev = e@;
                self.problems.push(Problem { path: path.clone(), reason: e });
                assert(problem_views(self.problems@) =~= before.problems.push((path@, ev)));
            },
        }
    }
}

fn clone_read(r: &Result<FileContent, String>) -> (c: Result<FileContent, String>)
    ensures
        read_view(c) == read_view(*r),
{
    match r {
        Ok(FileContent::Text(t)) => Ok(FileContent::Text(t.clone())),
        Ok(FileContent::Binary) => Ok(FileContent::Binary),
        Err(e) => Err(e.clone()),
    }
}

/// The project directory of an optional project path.
pub open spec fn dir_of(project_path: Option<&str>) -> Option<Seq<char>> {
    match project_path {
        Some(p) => parent(p@),
        None => None,
    }
}

/// The displayed names of `paths` under `settings`.
pub open spec fn displays_of(paths: Seq<String>, settings: ProjectSettings, dir: Option<Seq<char>>) -> Seq<Seq<char>> {
    Seq::new(
        paths.len(),
        |i: int| presented(crate::paths::string_views(paths), settings.path_presentation, dir, i),
    )
}

/// The export of `paths` as observed in `obs`.
pub open spec fn export_of(
    paths: Seq<String>,
    settings: ProjectSettings,
    dir: Option<Seq<char>>,
    obs: Seq<ExportObservation>,
    limits: Limits,
) -> ExportModel {
    export_fold(
        crate::paths::string_views(paths),
        displays_of(paths, settings, dir),
        obs,
        limits,
        settings.add_detected_language_tag_to_code_fences,
        paths.len(),
    )
}

/// The description written into the bundle.
pub open spec fn exported_description(settings: ProjectSettings) -> Seq<char> {
    if settings.include_description_in_export {
        settings.description@
    } else {
        Seq::empty()
    }
}

/// Whether a bundle of `files` has a line count that fits in `usize` with
/// either newline style.
pub open spec fn lines_fit(description: Seq<char>, files: Seq<BundleFileView>) -> bool {
    &&& bundle_lines(normalized(description, Newline::Unix.text()), files, Newline::Unix.text())
        <= usize::MAX
    &&& bundle_lines(normalized(description, Newline::Windows.text()), files, Newline::Windows.text())
        <= usize::MAX
}

/// The bundle `markdown` is the assembly of `m` with the project's newline
/// style (Platform Default being one of the two).
pub open spec fn is_bundle_of(
    markdown: Seq<char>,
    title: Seq<char>,
    settings: ProjectSettings,
    m: ExportModel,
) -> bool {
    let d = exported_description(settings);
    let out = |nl: Newline|
        assembled(title, d, m.files, nl, settings.toc_links, settings.include_line_ranges_in_headings);
    if settings.newlines == NewlineSetting::Platform {
        markdown == out(Newline::Unix) || markdown == out(Newline::Windows)
    } else {
        markdown == out(settings.newlines.resolved(' '))
    }
}

/// Whether a bundle of `files` under `settings` can be assembled: few
/// enough files to number, and, when line ranges are requested, few enough
/// lines for their numbers to fit in `usize` with either newline style.
pub fn bundle_fits(settings: &ProjectSettings, files: &Vec<BundleFile>) -> (r: bool)
    ensures
        r == (files@.len() + 2 < u32::MAX && (settings.include_line_ranges_in_headings
            ==> lines_fit(exported_description(*settings), file_views(files@)))),
{
    if files.len() as u128 + 2 >= 4294967295u128 {
        return false;
    }
    if !settings.include_line_ranges_in_headings {
        return true;
    }
    let dv = if settings.include_description_in_export {
        crate::text::chars_of(settings.description.as_str())
    } else {
        Vec::new()
    };
    assert(dv@ == exported_description(*settings));
    let unix = normalize_vec(&dv, Newline::Unix);
    let windows = normalize_vec(&dv, Newline::Windows);
    lines_within(&unix, files.as_slice(), Newline::Unix) && lines_within(
        &windows,
        files.as_slice(),
        Newline::Windows,
    )
}

fn assemble_model(
    title: &str,
    settings: &ProjectSettings,
    files: &Vec<BundleFile>,
) -> (markdown: String)
    requires
        files@.len() + 2 < u32::MAX,
        settings.include_line_ranges_in_headings ==> lines_fit(
            exported_description(*settings),
            file_views(files@),
        ),
    ensures
        is_bundle_of(
            markdown@,
            title@,
            *settings,
            ExportModel { files: file_views(files@), problems: Seq::empty(), total: 0 },
        ),
{
    let description = if settings.include_description_in_export {
        settings.description.as_str()
    } else {
        proof {
            reveal_strlit("");
        }
        ""
    };
    let nl = settings.newlines.resolve();
    assert(nl == Newline::Unix || nl == Newline::Windows);
    assemble(
        title,
        description,
        files.as_slice(),
        nl,
        settings.toc_links,
        settings.include_line_ranges_in_headings,
    )
}

fn generate_bundle_with_title(
    files: &[String],
    settings: &ProjectSettings,
    project_path: Option<&str>,
    title: &str,
    limits: Limits,
    observations: &[ExportObservation],
) -> (r: (String, Vec<Problem>))
    requires
        observations@.len() == files@.len(),
        files@.len() + 2 < u32::MAX,
        settings.include_line_ranges_in_headings ==> lines_fit(
            exported_description(*settings),
            export_of(files@, *settings, dir_of(project_path), observations@, limits).files,
        ),
    ensures
        problem_views(r.1@) == export_of(
            files@,
            *settings,
            dir_of(project_path),
            observations@,
            limits,
        ).problems,
        is_bundle_of(
            r.0@,
            title@,
            *settings,
            export_of(files@, *settings, dir_of(project_path), observations@, limits),
        ),
{
    let ghost ps = crate::paths::string_views(files@);
    let ghost dv = dir_of(project_path);
    let ghost ds = displays_of(files@, *settings, dv);
    let dir = project_dir(project_path);
    let dir_ref: Option<&str> = match &dir {
        Some(d) => Some(d.as_str()),
        None => None,
    };
    let displays = presented_paths(files, &settings.path_presentation, dir_ref);
    let mut st = ExportState::new();
    let mut i: usize = 0;
    while i < files.len()
        invariant
            i <= files@.len() == observations@.len() == displays@.len(),
            ps == crate::paths::string_views(files@),
            ds == displays_of(files@, *settings, dv),
            forall|j: int| 0 <= j < files@.len() ==> (#[trigger] displays@[j])@ == ds[j],
            st.total <= limits.max_total_bytes,
            st.model().files.len() <= i,
            st.model() == export_fold(
                ps,
                ds,
                observations@,
                limits,
                settings.add_detected_language_tag_to_code_fences,
                i as nat,
            ),
        decreases files.len() - i,
    {
        let ob = &observations[i];
        assert(ps[i as int] == files@[i as int]@);
        if st.gate(&files[i], ob.size, limits) {
            let read = clone_read(&ob.read);
            st.record(
                &files[i],
                &displays[i],
                ob.size,
                read,
                limits,
                settings.add_detected_language_tag_to_code_fences,
            );
        }
        i += 1;
    }
    assert(st.files@.len() == st.model().files.len());
    let markdown = assemble_model(title, settings, &st.files);
    (markdown, st.problems)
}

/// Best-effort bundle generation: problem files are reported and omitted.
/// Every check is made on what was observed at export time: files can be
/// deleted, grow, lose permissions, or turn binary after they were added.
pub fn generate_bundle(
    files: &[String],
    settings: &ProjectSettings,
    project_path: Option<&str>,
    output: &str,
    limits: Limits,
    observations: &[ExportObservation],
) -> (r: (String, Vec<Problem>))
    requires
        observations@.len() == files@.len(),
        files@.len() + 2 < u32::MAX,
        settings.include_line_ranges_in_headings ==> lines_fit(
            exported_description(*settings),
            export_of(files@, *settings, dir_of(project_path), observations@, limits).files,
        ),
    ensures
        problem_views(r.1@) == export_of(
            files@,
            *settings,
            dir_of(project_path),
            observations@,
            limits,
        ).problems,
        is_bundle_of(
            r.0@,
            title_for(
                match project_path {
                    Some(p) => Some(p@),
                    None => None,
                },
                output@,
            ),
            *settings,
            export_of(files@, *settings, dir_of(project_path), observations@, limits),
        ),
{
    let title = effective_title(project_path, output);
    generate_bundle_with_title(files, settings, project_path, title.as_str(), limits, observations)
}

/// A copy of a path presentation setting.
pub(crate) fn copy_presentation(p: &PathPresentation) -> (r: PathPresentation)
    ensures
        r == *p,
{
    match p {
        PathPresentation::Smart => PathPresentation::Smart,
        PathPresentation::Absolute => PathPresentation::Absolute,
        PathPresentation::Fixed { location } => PathPresentation::Fixed { location: location.clone() },
    }
}

/// A copy of project settings.
pub(crate) fn copy_settings(s: &ProjectSettings) -> (r: ProjectSettings)
    ensures
        r == *s,
{
    ProjectSettings {
        add_detected_language_tag_to_code_fences: s.add_detected_language_tag_to_code_fences,
        description: s.description.clone(),
        include_description_in_export: s.include_description_in_export,
        include_line_ranges_in_headings: s.include_line_ranges_in_headings,
        newlines: s.newlines,
        path_presentation: copy_presentation(&s.path_presentation),
        toc_links: s.toc_links,
    }
}

/// A project as the library sees it.
pub struct ProjectModel {
    pub files: Seq<Seq<char>>,
    pub settings: ProjectSettings,
    pub last_export: Option<Seq<char>>,
    pub project_path: Option<Seq<char>>,
    pub dirty: bool,
}

/// Whether two path presentation settings say the same thing.
pub open spec fn same_presentation(a: PathPresentation, b: PathPresentation) -> bool {
    match a {
        PathPresentation::Smart => b is Smart,
        PathPresentation::Absolute => b is Absolute,
        PathPresentation::Fixed { location: x } => match b {
            PathPresentation::Fixed { location: y } => x@ == y@,
            _ => false,
        },
    }
}

/// Whether two settings values say the same thing.
pub open spec fn same_settings(a: ProjectSettings, b: ProjectSettings) -> bool {
    &&& a.add_detected_language_tag_to_code_fences == b.add_detected_language_tag_to_code_fences
    &&& a.description@ == b.description@
    &&& a.include_description_in_export == b.include_description_in_export
    &&& a.include_line_ranges_in_headings == b.include_line_ranges_in_headings
    &&& a.newlines == b.newlines
    &&& same_presentation(a.path_presentation, b.path_presentation)
    &&& a.toc_links == b.toc_links
}

/// Law: two settings values count as the same exactly when every field
/// holds the same value: the language-tag switch, the description text,
/// the description and line-range switches, the newline style, the path
/// presentation (with its location for Fixed) and the link switch.
pub proof fn lemma_same_settings_is_fieldwise(a: ProjectSettings, b: ProjectSettings)
    ensures
        same_settings(a, b) <==> {
            &&& a.add_detected_language_tag_to_code_fences == b.add_detected_language_tag_to_code_fences
            &&& a.description@ == b.description@
            &&& a.include_description_in_export == b.include_description_in_export
            &&& a.include_line_ranges_in_headings == b.include_line_ranges_in_headings
            &&& a.newlines == b.newlines
            &&& (a.path_presentation is Smart <==> b.path_presentation is Smart)
            &&& (a.path_presentation is Absolute <==> b.path_presentation is Absolute)
            &&& (a.path_presentation is Fixed <==> b.path_presentation is Fixed)
            &&& (a.path_presentation is Fixed ==> a.path_presentation->location@
                == b.path_presentation->location@)
            &&& a.toc_links == b.toc_links
        },
{
}

fn settings_match(a: &ProjectSettings, b: &ProjectSettings) -> (r: bool)
    ensures
        r == same_settings(*a, *b),
{
    let presentation = match &a.path_presentation {
        PathPresentation::Smart => match &b.path_presentation {
            PathPresentation::Smart => true,
            _ => false,
        },
        PathPresentation::Absolute => match &b.path_presentation {
            PathPresentation::Absolute => true,
            _ => false,
        },
        PathPresentation::Fixed { location: x } => match &b.path_presentation {
            PathPresentation::Fixed { location: y } => *x == *y,
            _ => false,
        },
    };
    let description = a.description == b.description;
    let newlines = a.newlines == b.newlines;
    presentation && description && newlines && a.add_detected_language_tag_to_code_fences
        == b.add_detected_language_tag_to_code_fences && a.include_description_in_export
        == b.include_description_in_export && a.include_line_ranges_in_headings
        == b.include_line_ranges_in_headings && a.toc_links == b.toc_links
}

/// Everything the frontend needs to render the workarea.
#[derive(Clone, Debug, PartialEq, Eq)]
pub struct ProjectView {
    pub files: Vec<FileRow>,
    pub settings: ProjectSettings,
    pub project_path: Option<String>,
    pub dirty: bool,
}

/// `row` is the row shown for `path` whose size on disk is `size`.
pub open spec fn row_of(row: FileRow, path: Seq<char>, size: Option<u64>) -> bool {
    &&& row.path@ == path
    &&& row.name@ == basename_text(path)
    &&& row.folder@ == match parent(path) {
        Some(d) => d,
        None => Seq::empty(),
    }
    &&& row.size == size
}

/// Paths that are not the same path as `path`.
pub open spec fn other_path(path: Seq<char>) -> spec_fn(Seq<char>) -> bool {
    |q: Seq<char>| !same_path(q, path)
}

/// The index of the first of `files` that is the same path as `path`.
pub open spec fn position(files: Seq<Seq<char>>, path: Seq<char>) -> Option<int>
    decreases files.len(),
{
    if files.len() == 0 {
        None
    } else if same_path(files[0], path) {
        Some(0)
    } else {
        match position(files.drop_first(), path) {
            Some(k) => Some(k + 1),
            None => None,
        }
    }
}

proof fn lemma_position(files: Seq<Seq<char>>, path: Seq<char>, i: int)
    requires
        0 <= i <= files.len(),
        forall|j: int| 0 <= j < i ==> !same_path(#[trigger] files[j], path),
    ensures
        i < files.len() && same_path(files[i], path) ==> position(files, path) == Some(i),
        i == files.len() ==> position(files, path) is None,
    decreases i,
{
    if i > 0 {
        let rest = files.drop_first();
        assert forall|j: int| 0 <= j < i - 1 implies !same_path(#[trigger] rest[j], path) by {
            assert(rest[j] == files[j + 1]);
        }
        assert(!same_path(files[0], path));
        lemma_position(rest, path, i - 1);
        if i < files.len() {
            assert(rest[i - 1] == files[i]);
        }
    }
}

/// The workarea order after moving file `i` as `op` says, or nothing when
/// the file is already where `op` would take it.
pub open spec fn moved(files: Seq<Seq<char>>, i: int, op: MoveOp) -> Option<Seq<Seq<char>>> {
    let last = files.len() - 1;
    match op {
        MoveOp::Up => if i > 0 {
            Some(files.update(i, files[i - 1]).update(i - 1, files[i]))
        } else {
            None
        },
        MoveOp::Down => if i < last {
            Some(files.update(i, files[i + 1]).update(i + 1, files[i]))
        } else {
            None
        },
        MoveOp::Top => if i > 0 {
            Some(seq![files[i]] + files.take(i) + files.skip(i + 1))
        } else {
            None
        },
        MoveOp::Bottom => if i < last {
            Some(files.take(i) + files.skip(i + 1) + seq![files[i]])
        } else {
            None
        },
    }
}

/// Law: moving a file one place swaps it with its neighbour. Down swaps
/// file `i` with file `i + 1` whenever there is one, Up with file `i - 1`
/// whenever there is one; every other file stays where it was.
pub proof fn lemma_move_one_place_swaps(files: Seq<Seq<char>>, i: int)
    requires
        0 <= i < files.len(),
    ensures
        i + 1 < files.len() ==> {
            &&& moved(files, i, MoveOp::Down) is Some
            &&& moved(files, i, MoveOp::Down)->0.len() == files.len()
            &&& moved(files, i, MoveOp::Down)->0[i] == files[i + 1]
            &&& moved(files, i, MoveOp::Down)->0[i + 1] == files[i]
            &&& forall|j: int|
                0 <= j < files.len() && j != i && j != i + 1 ==> moved(files, i, MoveOp::Down)->0[j]
                    == files[j]
        },
        i + 1 == files.len() ==> moved(files, i, MoveOp::Down) is None,
        i > 0 ==> {
            &&& moved(files, i, MoveOp::Up) is Some
            &&& moved(files, i, MoveOp::Up)->0.len() == files.len()
            &&& moved(files, i, MoveOp::Up)->0[i - 1] == files[i]
            &&& moved(files, i, MoveOp::Up)->0[i] == files[i - 1]
            &&& forall|j: int|
                0 <= j < files.len() && j != i && j != i - 1 ==> moved(files, i, MoveOp::Up)->0[j]
                    == files[j]
        },
        i == 0 ==> moved(files, i, MoveOp::Up) is None,
{
}

/// Law: moving a file to the top puts it first and the files before it one
/// place later; moving it to the bottom puts it last and the files after it
/// one place earlier. A file already at the top (bottom) is not moved.
pub proof fn lemma_move_to_end(files: Seq<Seq<char>>, i: int)
    requires
        0 <= i < files.len(),
    ensures
        i > 0 ==> {
            &&& moved(files, i, MoveOp::Top) is Some
            &&& moved(files, i, MoveOp::Top)->0.len() == files.len()
            &&& moved(files, i, MoveOp::Top)->0[0] == files[i]
            &&& forall|j: int| 0 <= j < i ==> moved(files, i, MoveOp::Top)->0[j + 1] == files[j]
            &&& forall|j: int| i < j < files.len() ==> moved(files, i, MoveOp::Top)->0[j] == files[j]
        },
        i == 0 ==> moved(files, i, MoveOp::Top) is None,
        i + 1 < files.len() ==> {
            &&& moved(files, i, MoveOp::Bottom) is Some
            &&& moved(files, i, MoveOp::Bottom)->0.len() == files.len()
            &&& moved(files, i, MoveOp::Bottom)->0[files.len() - 1] == files[i]
            &&& forall|j: int| 0 <= j < i ==> moved(files, i, MoveOp::Bottom)->0[j] == files[j]
            &&& forall|j: int|
                i < j < files.len() ==> moved(files, i, MoveOp::Bottom)->0[j - 1] == files[j]
        },
        i + 1 == files.len() ==> moved(files, i, MoveOp::Bottom) is None,
{
}

/// Where a project is saved: the path asked for, else where it was saved before.
pub open spec fn save_target(m: ProjectModel, path: Option<Seq<char>>) -> Option<Seq<char>> {
    match path {
        Some(p) => Some(p),
        None => m.project_path,
    }
}

/// `file` is what saving project `m` at `target` writes: the schema, each
/// workarea file as stored for `target` with default options, the last
/// export and the settings.
pub open spec fn saves_as(m: ProjectModel, target: Seq<char>, file: ProjectFile) -> bool {
    &&& file.schema@ == SCHEMA_URL@
    &&& file.files@.len() == m.files.len()
    &&& forall|i: int|
        0 <= i < m.files.len() ==> (#[trigger] file.files@[i]).path@ == stored_entry(
            m.files[i],
            target,
            m.settings,
        ) && file.files@[i].options.is_default()
    &&& opt_view(file.last_export) == m.last_export
    &&& file.settings == m.settings
}

/// How a workarea file is written into a project saved at `target`: in
/// Smart mode relative to the project's directory when under it, otherwise
/// as it is.
pub open spec fn stored_entry(file: Seq<char>, target: Seq<char>, settings: ProjectSettings) -> Seq<
    char,
> {
    match parent(target) {
        Some(d) => if settings.path_presentation is Smart {
            stored_form(file, d)
        } else {
            file
        },
        None => file,
    }
}

/// The workarea path an entry of a project file at `project_path` stands for.
pub open spec fn reopened(entry: Seq<char>, project_path: Seq<char>) -> Seq<char> {
    match parent(project_path) {
        Some(d) => resolved_form(entry, d),
        None => entry,
    }
}

/// Saving a project at `target` and opening the saved file gives back the
/// same workarea path: a file under the project's directory (with no `..`
/// below it) comes back from its relative form in Smart mode, and a file
/// given by an absolute path comes back as it is.
pub proof fn lemma_save_then_open_keeps_file(
    file: Seq<char>,
    target: Seq<char>,
    settings: ProjectSettings,
)
    requires
        match parent(target) {
            Some(d) => d.len() == 0 || if settings.path_presentation is Smart {
                match strip_prefix(file, d) {
                    Some(rest) => forall|k: int|
                        0 <= k < rest.len() ==> (#[trigger] rest[k]) is Normal,
                    None => is_absolute(file),
                }
            } else {
                is_absolute(file)
            },
            None => true,
        },
    ensures
        same_path(reopened(stored_entry(file, target, settings), target), file),
{
    if let Some(d) = parent(target) {
        if settings.path_presentation is Smart {
            lemma_stored_path_resolves_back(file, d);
        }
    }
}

/// One window's project: the workarea files in order, the settings, where
/// it was saved and last exported, and whether it changed since it was saved.
pub struct Project {
    files: Vec<String>,
    settings: ProjectSettings,
    last_export: Option<String>,
    project_path: Option<String>,
    dirty: bool,
}

impl View for Project {
    type V = ProjectModel;

    closed spec fn view(&self) -> ProjectModel {
        ProjectModel {
            files: string_views(self.files@),
            settings: self.settings,
            last_export: opt_view(self.last_export),
            project_path: opt_view(self.project_path),
            dirty: self.dirty,
        }
    }
}

fn copy_opt(o: &Option<String>) -> (r: Option<String>)
    ensures
        r == *o,
{
    match o {
        Some(s) => Some(s.clone()),
        None => None,
    }
}

impl Default for Project {
    fn default() -> (p: Self)
        ensures
            p@.files == Seq::<Seq<char>>::empty(),
            p@.settings.is_default(),
            p@.last_export is None,
            p@.project_path is None,
            !p@.dirty,
    {
        Project::new(ProjectSettings::default())
    }
}

impl Project {
    /// An empty, unsaved project with `settings`.
    pub fn new(settings: ProjectSettings) -> (p: Self)
        ensures
            p@.files == Seq::<Seq<char>>::empty(),
            p@.settings == settings,
            p@.last_export is None,
            p@.project_path is None,
            !p@.dirty,
    {
        let p = Project {
            files: Vec::new(),
            settings,
            last_export: None,
            project_path: None,
            dirty: false,
        };
        assert(p@.files =~= Seq::<Seq<char>>::empty());
        p
    }

    /// The workarea files, in order.
    pub fn files(&self) -> (f: &Vec<String>)
        ensures
            string_views(f@) == self@.files,
    {
        &self.files
    }

    /// The project settings.
    pub fn settings(&self) -> (s: &ProjectSettings)
        ensures
            *s == self@.settings,
    {
        &self.settings
    }

    /// Where the project was last saved.
    pub fn project_path(&self) -> (p: Option<&str>)
        ensures
            match p {
                Some(s) => self@.project_path == Some(s@),
                None => self@.project_path is None,
            },
    {
        match &self.project_path {
            Some(s) => Some(s.as_str()),
            None => None,
        }
    }

    /// Where the project was last exported.
    pub fn last_export(&self) -> (p: Option<&str>)
        ensures
            match p {
                Some(s) => self@.last_export == Some(s@),
                None => self@.last_export is None,
            },
    {
        match &self.last_export {
            Some(s) => Some(s.as_str()),
            None => None,
        }
    }

    /// Whether the project changed since it was saved.
    pub fn is_dirty(&self) -> (d: bool)
        ensures
            d == self@.dirty,
    {
        self.dirty
    }

    /// The project as the frontend displays it; `sizes` holds the size on
    /// disk of each workarea file (`None` when missing or unreadable).
    pub fn project_view(&self, sizes: &[Option<u64>]) -> (v: ProjectView)
        requires
            sizes@.len() == self@.files.len(),
        ensures
            v.files@.len() == sizes@.len(),
            forall|i: int|
                0 <= i < sizes@.len() ==> row_of(#[trigger] v.files@[i], self@.files[i], sizes@[i]),
            v.settings == self@.settings,
            opt_view(v.project_path) == self@.project_path,
            v.dirty == self@.dirty,
    {
        let mut rows: Vec<FileRow> = Vec::new();
        let mut i: usize = 0;
        while i < self.files.len()
            invariant
                i <= self.files@.len() == sizes@.len(),
                rows@.len() == i,
                forall|j: int|
                    0 <= j < i ==> row_of(#[trigger] rows@[j], self.files@[j]@, sizes@[j]),
            decreases self.files.len() - i,
        {
            rows.push(file_row(self.files[i].as_str(), sizes[i]));
            i += 1;
        }
        ProjectView {
            files: rows,
            settings: copy_settings(&self.settings),
            project_path: copy_opt(&self.project_path),
            dirty: self.dirty,
        }
    }

    /// Removes every workarea file that is the same path as `path`; the
    /// project becomes dirty when one was removed.
    pub fn remove_file(&mut self, path: &str)
        ensures
            final(self)@.files == old(self)@.files.filter(other_path(path@)),
            final(self)@.dirty == (old(self)@.dirty || final(self)@.files.len() != old(
                self,
            )@.files.len()),
            final(self)@.settings == old(self)@.settings,
            final(self)@.last_export == old(self)@.last_export,
            final(self)@.project_path == old(self)@.project_path,
    {
        let ghost views = string_views(self.files@);
        let ghost pred = other_path(path@);
        let mut kept: Vec<String> = Vec::new();
        let mut i: usize = 0;
        assert(views.take(0).filter(pred) =~= Seq::<Seq<char>>::empty()) by {
            reveal_with_fuel(Seq::<_>::filter, 1);
        }
        assert(string_views(kept@) =~= Seq::<Seq<char>>::empty());
        while i < self.files.len()
            invariant
                i <= self.files@.len(),
                views == string_views(self.files@),
                pred == other_path(path@),
                string_views(kept@) == views.take(i as int).filter(pred),
            decreases self.files.len() - i,
        {
            let ghost before = string_views(kept@);
            let ghost t = views.take(i + 1);
            assert(t.drop_last() =~= views.take(i as int));
            assert(t.last() == self.files@[i as int]@);
            let same = same_path_exec(self.files[i].as_str(), path);
            if !same {
                kept.push(self.files[i].clone());
                assert(string_views(kept@) =~= before.push(self.files@[i as int]@));
            }
            assert(t.filter(pred) == if pred(t.last()) {
                views.take(i as int).filter(pred).push(t.last())
            } else {
                views.take(i as int).filter(pred)
            }) by {
                reveal_with_fuel(Seq::<_>::filter, 1);
            }
            i += 1;
        }
        assert(views.take(i as int) =~= views);
        let changed = kept.len() != self.files.len();
        self.files = kept;
        if changed {
            self.dirty = true;
        }
    }

    /// Moves the first workarea file that is the same path as `path` one
    /// place up or down, or to the top or bottom; the project becomes dirty
    /// when the order changed.
    pub fn move_file(&mut self, path: &str, op: MoveOp)
        ensures
            match position(old(self)@.files, path@) {
                Some(i) => match moved(old(self)@.files, i, op) {
                    Some(f) => final(self)@.files == f && final(self)@.dirty,
                    None => final(self)@ == old(self)@,
                },
                None => final(self)@ == old(self)@,
            },
            final(self)@.settings == old(self)@.settings,
            final(self)@.last_export == old(self)@.last_export,
            final(self)@.project_path == old(self)@.project_path,
    {
        let ghost views = string_views(self.files@);
        let mut i: usize = 0;
        let mut found = false;
        while !found && i < self.files.len()
            invariant
                i <= self.files@.len(),
                views == string_views(self.files@),
                forall|j: int| 0 <= j < i ==> !same_path(#[trigger] views[j], path@),
                found ==> i < self.files@.len() && same_path(views[i as int], path@),
            decreases (self.files@.len() - i) * 2 + if found {
                0int
            } else {
                1int
            },
        {
            if same_path_exec(self.files[i].as_str(), path) {
                found = true;
            } else {
                i += 1;
            }
        }
        proof {
            lemma_position(views, path@, i as int);
        }
        if i == self.files.len() {
            return;
        }
        let last = self.files.len() - 1;
        let ghost f = views;
        match op {
            MoveOp::Up => {
                if i == 0 {
                    return;
                }
                let x = self.files.remove(i);
                self.files.insert(i - 1, x);
            },
            MoveOp::Down => {
                if i >= last {
                    return;
                }
                let x = self.files.remove(i);
                self.files.insert(i + 1, x);
            },
            MoveOp::Top => {
                if i == 0 {
                    return;
                }
                let x = self.files.remove(i);
                self.files.insert(0, x);
            },
            MoveOp::Bottom => {
                if i >= last {
                    return;
                }
                let x = self.files.remove(i);
                self.files.push(x);
            },
        }
        assert(string_views(self.files@) =~= moved(f, i as int, op)->0);
        self.dirty = true;
    }

    /// Replaces the settings; the project becomes dirty when they differ.
    pub fn update_settings(&mut self, settings: ProjectSettings)
        ensures
            final(self)@.settings.description@ == settings.description@,
            final(self)@.settings.add_detected_language_tag_to_code_fences
                == settings.add_detected_language_tag_to_code_fences,
            final(self)@.settings.include_description_in_export == settings.include_description_in_export,
            final(self)@.settings.include_line_ranges_in_headings
                == settings.include_line_ranges_in_headings,
            final(self)@.settings.newlines == settings.newlines,
            final(self)@.settings.toc_links == settings.toc_links,
            if same_settings(old(self)@.settings, settings) {
                final(self)@ == old(self)@
            } else {
                &&& final(self)@.settings == settings
                &&& final(self)@.dirty
                &&& final(self)@.files == old(self)@.files
                &&& final(self)@.last_export == old(self)@.last_export
                &&& final(self)@.project_path == old(self)@.project_path
            },
    {
        if !settings_match(&self.settings, &settings) {
            self.settings = settings;
            self.dirty = true;
        }
    }

    /// Notes that the bundle was exported to `output`; the project becomes
    /// dirty when that is not where it was last exported.
    pub fn record_export(&mut self, output: &str)
        ensures
            match old(self)@.last_export {
                Some(e) if same_path(e, output@) => final(self)@ == old(self)@,
                _ => {
                    &&& final(self)@.last_export == Some(output@)
                    &&& final(self)@.dirty
                    &&& final(self)@.files == old(self)@.files
                    &&& final(self)@.settings == old(self)@.settings
                    &&& final(self)@.project_path == old(self)@.project_path
                },
            },
    {
        let same = match &self.last_export {
            Some(e) => same_path_exec(e.as_str(), output),
            None => false,
        };
        if !same {
            self.last_export = Some(owned(output));
            self.dirty = true;
        }
    }

    /// What saving the project writes: the target path (`path`, else where
    /// it was saved before) and the project file. In Smart mode, files under
    /// the target's directory are stored relative to it; otherwise every file
    /// is stored as it is.
    pub fn save_plan(&self, path: Option<String>) -> (r: Result<(String, ProjectFile), String>)
        ensures
            match r {
                Ok((target, file)) => save_target(self@, opt_view(path)) == Some(target@)
                    && saves_as(self@, target@, file),
                Err(e) => save_target(self@, opt_view(path)) is None && e@
                    == "no project file path; use Save As"@,
            },
    {
        let target = match path {
            Some(p) => p,
            None => match &self.project_path {
                Some(p) => p.clone(),
                None => {
                    return Err(owned("no project file path; use Save As"));
                },
            },
        };
        let dir = path_parent(target.as_str());
        let smart = match &self.settings.path_presentation {
            PathPresentation::Smart => true,
            _ => false,
        };
        let mut entries: Vec<ProjectFileEntry> = Vec::new();
        let mut i: usize = 0;
        while i < self.files.len()
            invariant
                i <= self.files@.len(),
                opt_view(dir) == parent(target@),
                smart == self.settings.path_presentation is Smart,
                entries@.len() == i,
                forall|j: int|
                    0 <= j < i ==> (#[trigger] entries@[j]).path@ == stored_entry(
                        self.files@[j]@,
                        target@,
                        self.settings,
                    ) && entries@[j].options.is_default(),
            decreases self.files.len() - i,
        {
            let stored = match &dir {
                Some(d) => if smart {
                    stored_path(self.files[i].as_str(), d.as_str())
                } else {
                    self.files[i].clone()
                },
                None => self.files[i].clone(),
            };
            entries.push(ProjectFileEntry { path: stored, options: FileOptions::default() });
            i += 1;
        }
        let file = ProjectFile::new(entries, copy_opt(&self.last_export), copy_settings(&self.settings));
        Ok((target, file))
    }

    /// Notes that the project was saved at `target`.
    pub fn mark_saved(&mut self, target: String)
        ensures
            final(self)@.project_path == Some(target@),
            !final(self)@.dirty,
            final(self)@.files == old(self)@.files,
            final(self)@.settings == old(self)@.settings,
            final(self)@.last_export == old(self)@.last_export,
    {
        self.project_path = Some(target);
        self.dirty = false;
    }

    /// The project read from `file`, which was loaded from `project_path`:
    /// relative entries resolve against the project file's directory.
    pub fn opened(file: ProjectFile, project_path: String) -> (p: Self)
        ensures
            p@.files.len() == file.files@.len(),
            forall|i: int|
                0 <= i < file.files@.len() ==> #[trigger] p@.files[i] == reopened(
                    file.files@[i].path@,
                    project_path@,
                ),
            p@.settings == file.settings,
            p@.last_export == opt_view(file.last_export),
            p@.project_path == Some(project_path@),
            !p@.dirty,
    {
        let dir = path_parent(project_path.as_str());
        let mut files: Vec<String> = Vec::new();
        let mut i: usize = 0;
        while i < file.files.len()
            invariant
                i <= file.files@.len(),
                opt_view(dir) == parent(project_path@),
                files@.len() == i,
                forall|j: int|
                    0 <= j < i ==> (#[trigger] files@[j])@ == reopened(
                        file.files@[j].path@,
                        project_path@,
                    ),
            decreases file.files.len() - i,
        {
            let entry = &file.files[i];
            let p = match &dir {
                Some(d) => resolve_stored(entry.path.as_str(), d.as_str()),
                None => entry.path.clone(),
            };
            files.push(p);
            i += 1;
        }
        let p = Project {
            files,
            settings: file.settings,
            last_export: file.last_export,
            project_path: Some(project_path),
            dirty: false,
        };
        p
    }
}

/// What the caller observed of a file offered for the workarea: its size on
/// disk when known, and what reading it gave. The read is looked at only
/// when the size checks let the file through; a file that `needs_reading`
/// refuses can carry any read.
pub struct ImportProbe {
    pub size: Option<u64>,
    pub read: Result<FileContent, String>,
}

/// Whether a file of `size` bytes has to be read to screen it: one over the
/// per-file limit is refused without being read.
pub fn needs_reading(size: Option<u64>, limits: Limits) -> (r: bool)
    ensures
        r == match size {
            Some(s) => s <= limits.max_file_bytes,
            None => true,
        },
{
    match size {
        Some(s) => s <= limits.max_file_bytes,
        None => true,
    }
}

/// A known size, or zero.
pub open spec fn size_or_zero(size: Option<u64>) -> nat {
    match size {
        Some(s) => s as nat,
        None => 0,
    }
}

/// The total of the known sizes.
pub open spec fn known_total(sizes: Seq<Option<u64>>) -> nat
    decreases sizes.len(),
{
    if sizes.len() == 0 {
        0
    } else {
        known_total(sizes.drop_last()) + size_or_zero(sizes.last())
    }
}

/// The reason, if any, that a file is not imported when the workarea
/// already holds `total` bytes: the size checks first, then what reading
/// the file gave.
pub open spec fn screen_reason(total: nat, size: Option<u64>, read: ReadView, limits: Limits) -> Option<
    Seq<char>,
> {
    let gate = match size {
        Some(s) => size_gate(total, s as nat, limits),
        None => None,
    };
    match gate {
        Some(r) => Some(r),
        None => match read {
            ReadView::Text(_) => None,
            ReadView::Binary => Some("Binary File"@),
            ReadView::Failed(e) => Some(e),
        },
    }
}

/// Whether one of `files` is the same path as `path`.
pub open spec fn has_path(files: Seq<Seq<char>>, path: Seq<char>) -> bool {
    exists|k: int| 0 <= k < files.len() && same_path(files[k], path)
}

/// Progress of adding files to a workarea.
pub struct ImportModel {
    pub files: Seq<Seq<char>>,
    pub skipped: Seq<(Seq<char>, Seq<char>)>,
    pub total: nat,
    pub added: bool,
}

/// The import after offering one more file: a path already present is
/// passed over, a refused one is reported, an accepted one is appended.
pub open spec fn import_step(m: ImportModel, path: Seq<char>, probe: ImportProbe, limits: Limits) -> ImportModel {
    if has_path(m.files, path) {
        m
    } else {
        match screen_reason(m.total, probe.size, read_view(probe.read), limits) {
            Some(r) => ImportModel { skipped: m.skipped.push((path, r)), ..m },
            None => ImportModel {
                files: m.files.push(path),
                total: m.total + size_or_zero(probe.size),
                added: true,
                ..m
            },
        }
    }
}

/// The import after offering the first `n` files.
pub open spec fn import_fold(
    start: ImportModel,
    paths: Seq<Seq<char>>,
    probes: Seq<ImportProbe>,
    limits: Limits,
    n: nat,
) -> ImportModel
    decreases n,
{
    if n == 0 {
        start
    } else {
        import_step(
            import_fold(start, paths, probes, limits, (n - 1) as nat),
            paths[n - 1],
            probes[n - 1],
            limits,
        )
    }
}

/// Offering `paths` to a workarea holding `files`, whose sizes on disk are
/// `sizes`.
pub open spec fn import_of(
    files: Seq<Seq<char>>,
    sizes: Seq<Option<u64>>,
    paths: Seq<Seq<char>>,
    probes: Seq<ImportProbe>,
    limits: Limits,
) -> ImportModel {
    import_fold(
        ImportModel { files, skipped: Seq::empty(), total: known_total(sizes), added: false },
        paths,
        probes,
        limits,
        paths.len(),
    )
}

/// No file offered to the workarea is silently dropped: after the import
/// each offered path is in the workarea (it was there already or was
/// added) or is reported as skipped, and the files that were there stay.
pub proof fn lemma_import_drops_nothing(
    start: ImportModel,
    paths: Seq<Seq<char>>,
    probes: Seq<ImportProbe>,
    limits: Limits,
    n: nat,
)
    ensures
        forall|i: int|
            0 <= i < n ==> has_path(import_fold(start, paths, probes, limits, n).files, #[trigger] paths[i])
                || exists|k: int|
                0 <= k < import_fold(start, paths, probes, limits, n).skipped.len() && import_fold(
                    start,
                    paths,
                    probes,
                    limits,
                    n,
                ).skipped[k].0 == paths[i],
        start.files.len() <= import_fold(start, paths, probes, limits, n).files.len(),
        forall|j: int|
            0 <= j < start.files.len() ==> import_fold(start, paths, probes, limits, n).files[j]
                == #[trigger] start.files[j],
    decreases n,
{
    if n > 0 {
        let prev = import_fold(start, paths, probes, limits, (n - 1) as nat);
        let cur = import_fold(start, paths, probes, limits, n);
        lemma_import_drops_nothing(start, paths, probes, limits, (n - 1) as nat);
        assert(prev.files.len() <= cur.files.len());
        assert(forall|j: int| 0 <= j < prev.files.len() ==> cur.files[j] == prev.files[j]);
        assert(forall|k: int| 0 <= k < prev.skipped.len() ==> cur.skipped[k] == prev.skipped[k]);
        assert forall|i: int| 0 <= i < n implies has_path(cur.files, #[trigger] paths[i])
            || exists|k: int| 0 <= k < cur.skipped.len() && cur.skipped[k].0 == paths[i] by {
            if i < n - 1 {
                if has_path(prev.files, paths[i]) {
                    let k = choose|k: int| 0 <= k < prev.files.len() && same_path(prev.files[k], paths[i]);
                    assert(cur.files[k] == prev.files[k]);
                } else {
                    let k = choose|k: int| 0 <= k < prev.skipped.len() && prev.skipped[k].0 == paths[i];
                    assert(cur.skipped[k] == prev.skipped[k]);
                }
            } else {
                if !has_path(prev.files, paths[i]) {
                    if cur.files.len() > prev.files.len() {
                        assert(cur.files[prev.files.len() as int] == paths[i]);
                        assert(same_path(paths[i], paths[i]));
                    } else {
                        assert(cur.skipped[prev.skipped.len() as int].0 == paths[i]);
                    }
                }
            }
        }
    }
}

/// The views of skipped files.
pub open spec fn skipped_views(s: Seq<Skipped>) -> Seq<(Seq<char>, Seq<char>)> {
    s.map_values(|k: Skipped| (k.path@, k.reason@))
}

/// Progress of a folder preview.
pub struct PreviewModel {
    pub notes: Seq<Seq<char>>,
    pub total: nat,
}

/// The preview after one more file: "Already Added" for a file of the
/// workarea, else the reason it would be refused, else nothing.
pub open spec fn preview_step(
    m: PreviewModel,
    files: Seq<Seq<char>>,
    path: Seq<char>,
    probe: ImportProbe,
    limits: Limits,
) -> PreviewModel {
    if has_path(files, path) {
        PreviewModel { notes: m.notes.push("Already Added"@), ..m }
    } else {
        match screen_reason(m.total, probe.size, read_view(probe.read), limits) {
            Some(r) => PreviewModel { notes: m.notes.push(r), ..m },
            None => PreviewModel {
                notes: m.notes.push(Seq::empty()),
                total: m.total + size_or_zero(probe.size),
            },
        }
    }
}

/// The preview of the first `n` files.
pub open spec fn preview_fold(
    files: Seq<Seq<char>>,
    start: nat,
    paths: Seq<Seq<char>>,
    probes: Seq<ImportProbe>,
    limits: Limits,
    n: nat,
) -> PreviewModel
    decreases n,
{
    if n == 0 {
        PreviewModel { notes: Seq::empty(), total: start }
    } else {
        preview_step(
            preview_fold(files, start, paths, probes, limits, (n - 1) as nat),
            files,
            paths[n - 1],
            probes[n - 1],
            limits,
        )
    }
}

/// Whether the preview shows file `k` as importable: no note, and its read
/// gave text.
pub open spec fn shown_importable(notes: Seq<Seq<char>>, probes: Seq<ImportProbe>, k: int) -> bool {
    notes[k].len() == 0 && read_view(probes[k].read) is Text
}

/// The bytes of the files among the first `n` that the preview shows as
/// importable.
pub open spec fn importable_bytes(notes: Seq<Seq<char>>, probes: Seq<ImportProbe>, n: nat) -> nat
    decreases n,
{
    if n == 0 {
        0
    } else {
        importable_bytes(notes, probes, (n - 1) as nat) + if shown_importable(
            notes,
            probes,
            n - 1,
        ) {
            size_or_zero(probes[n - 1].size)
        } else {
            0
        }
    }
}

proof fn lemma_importable_bytes_prefix(a: Seq<Seq<char>>, b: Seq<Seq<char>>, probes: Seq<ImportProbe>, n: nat)
    requires
        n <= a.len(),
        n <= b.len(),
        forall|j: int| 0 <= j < n ==> a[j] == b[j],
    ensures
        importable_bytes(a, probes, n) == importable_bytes(b, probes, n),
    decreases n,
{
    if n > 0 {
        lemma_importable_bytes_prefix(a, b, probes, (n - 1) as nat);
    }
}

/// Law: the folder preview counts every file it shows as importable toward
/// the total, as importing them all would: a file of known size is shown
/// importable only when the existing files (`start` bytes), the earlier
/// files shown importable and the file itself fit in the total limit, and
/// within the per-file limit; its read gave text.
pub proof fn lemma_preview_counts_importable_files(
    files: Seq<Seq<char>>,
    start: nat,
    paths: Seq<Seq<char>>,
    probes: Seq<ImportProbe>,
    limits: Limits,
    n: nat,
)
    requires
        n <= paths.len(),
        n <= probes.len(),
    ensures
        ({
            let m = preview_fold(files, start, paths, probes, limits, n);
            &&& m.notes.len() == n
            &&& m.total == start + importable_bytes(m.notes, probes, n)
            &&& forall|k: int|
                0 <= k < n && #[trigger] shown_importable(m.notes, probes, k) ==> !has_path(files, paths[k])
                    && match probes[k].size {
                    Some(s) => s <= limits.max_file_bytes && start + importable_bytes(m.notes, probes, k as nat)
                        + s <= limits.max_total_bytes,
                    None => true,
                }
        }),
    decreases n,
{
    if n > 0 {
        let k = (n - 1) as nat;
        lemma_preview_counts_importable_files(files, start, paths, probes, limits, k);
        let prev = preview_fold(files, start, paths, probes, limits, k);
        let m = preview_fold(files, start, paths, probes, limits, n);
        assert(m.notes.len() == n);
        assert forall|j: int| 0 <= j < k implies m.notes[j] == prev.notes[j] by {}
        lemma_importable_bytes_prefix(m.notes, prev.notes, probes, k);
        assert forall|j: int|
            0 <= j < n && #[trigger] shown_importable(m.notes, probes, j) implies !has_path(files, paths[j])
                && match probes[j].size {
                Some(s) => s <= limits.max_file_bytes && start + importable_bytes(m.notes, probes, j as nat)
                    + s <= limits.max_total_bytes,
                None => true,
            } by {
            if j < k {
                assert(shown_importable(prev.notes, probes, j));
                lemma_importable_bytes_prefix(m.notes, prev.notes, probes, j as nat);
            } else {
                assert("Already Added"@.len() > 0) by {
                    reveal_strlit("Already Added");
                }
                if has_path(files, paths[j]) {
                    assert(m.notes[j] == "Already Added"@);
                }
            }
        }
        if shown_importable(m.notes, probes, k as int) {
            assert("Already Added"@.len() > 0) by {
                reveal_strlit("Already Added");
            }
        }
    }
}

fn known_total_exec(sizes: &[Option<u64>]) -> (t: u128)
    ensures
        t == known_total(sizes@),
        t <= sizes@.len() * 0xFFFF_FFFF_FFFF_FFFF,
{
    let mut t: u128 = 0;
    let mut i: usize = 0;
    while i < sizes.len()
        invariant
            i <= sizes@.len(),
            t == known_total(sizes@.take(i as int)),
            t <= i * 0xFFFF_FFFF_FFFF_FFFF,
        decreases sizes.len() - i,
    {
        assert(sizes@.take(i + 1).drop_last() =~= sizes@.take(i as int));
        match sizes[i] {
            Some(s) => {
                t = t + s as u128;
            },
            None => {},
        }
        i += 1;
    }
    assert(sizes@.take(i as int) =~= sizes@);
    t
}

fn screen(total: u128, size: Option<u64>, read: &Result<FileContent, String>, limits: Limits) -> (r:
    Option<String>)
    requires
        total <= u128::MAX - 0xFFFF_FFFF_FFFF_FFFF,
    ensures
        opt_view(r) == screen_reason(total as nat, size, read_view(*read), limits),
{
    if let Some(s) = size {
        if s > limits.max_file_bytes {
            return Some(too_big(limits));
        }
        if total + s as u128 > limits.max_total_bytes as u128 {
            return Some(over_total(limits));
        }
    }
    match read {
        Ok(FileContent::Text(_)) => None,
        Ok(FileContent::Binary) => Some(owned("Binary File")),
        Err(e) => Some(e.clone()),
    }
}

fn contains_path(files: &Vec<String>, path: &str) -> (r: bool)
    ensures
        r == has_path(string_views(files@), path@),
{
    let ghost views = string_views(files@);
    let mut i: usize = 0;
    while i < files.len()
        invariant
            i <= files@.len(),
            views == string_views(files@),
            forall|j: int| 0 <= j < i ==> !same_path(#[trigger] views[j], path@),
        decreases files.len() - i,
    {
        if same_path_exec(files[i].as_str(), path) {
            assert(same_path(views[i as int], path@));
            return true;
        }
        i += 1;
    }
    false
}

impl Project {
    /// Screens `paths` for text and size limits, appends the accepted ones
    /// and reports the refused ones; a path already in the workarea is
    /// passed over. `existing_sizes` are the sizes on disk of the current
    /// files, and `probes` what was observed of each offered path. The
    /// project becomes dirty when a file was added.
    pub fn screen_and_add(
        &mut self,
        paths: Vec<String>,
        existing_sizes: &[Option<u64>],
        probes: &[ImportProbe],
        limits: Limits,
    ) -> (skipped: Vec<Skipped>)
        requires
            existing_sizes@.len() == old(self)@.files.len(),
            probes@.len() == paths@.len(),
        ensures
            final(self)@.files == import_of(
                old(self)@.files,
                existing_sizes@,
                string_views(paths@),
                probes@,
                limits,
            ).files,
            skipped_views(skipped@) == import_of(
                old(self)@.files,
                existing_sizes@,
                string_views(paths@),
                probes@,
                limits,
            ).skipped,
            final(self)@.dirty == (old(self)@.dirty || import_of(
                old(self)@.files,
                existing_sizes@,
                string_views(paths@),
                probes@,
                limits,
            ).added),
            final(self)@.settings == old(self)@.settings,
            final(self)@.last_export == old(self)@.last_export,
            final(self)@.project_path == old(self)@.project_path,
    {
        let ghost pv = string_views(paths@);
        let ghost start = ImportModel {
            files: string_views(self.files@),
            skipped: Seq::empty(),
            total: known_total(existing_sizes@),
            added: false,
        };
        let mut total = known_total_exec(existing_sizes);
        let ghost bound: nat = if total > limits.max_total_bytes {
            total as nat
        } else {
            limits.max_total_bytes as nat
        };
        let count = existing_sizes.len();
        proof {
            assert(count == existing_sizes@.len());
            assert(existing_sizes@.len() * 0xFFFF_FFFF_FFFF_FFFF <= 0xFFFF_FFFF_FFFF_FFFF
                * 0xFFFF_FFFF_FFFF_FFFF) by (nonlinear_arith)
                requires
                    existing_sizes@.len() <= 0xFFFF_FFFF_FFFF_FFFF,
            ;
        }
        let mut skipped: Vec<Skipped> = Vec::new();
        let mut added = false;
        let mut i: usize = 0;
        assert(skipped_views(skipped@) =~= Seq::<(Seq<char>, Seq<char>)>::empty());
        while i < paths.len()
            invariant
                i <= paths@.len() == probes@.len(),
                pv == string_views(paths@),
                bound <= u128::MAX - 0xFFFF_FFFF_FFFF_FFFF,
                total <= bound,
                bound >= limits.max_total_bytes,
                self.settings == old(self).settings,
                self.last_export == old(self).last_export,
                self.project_path == old(self).project_path,
                self.dirty == old(self).dirty,
                (ImportModel {
                    files: string_views(self.files@),
                    skipped: skipped_views(skipped@),
                    total: total as nat,
                    added,
                }) == import_fold(start, pv, probes@, limits, i as nat),
            decreases paths.len() - i,
        {
            let path = &paths[i];
            assert(pv[i as int] == path@);
            if !contains_path(&self.files, path.as_str()) {
                let probe = &probes[i];
                match screen(total, probe.size, &probe.read, limits) {
                    Some(reason) => {
                        let ghost before = skipped_views(skipped@);
                        let ghost rv = reason@;
                        skipped.push(Skipped { path: path.clone(), reason });
                        assert(skipped_views(skipped@) =~= before.push((path@, rv)));
                    },
                    None => {
                        let ghost before = string_views(self.files@);
                        self.files.push(path.clone());
                        assert(string_views(self.files@) =~= before.push(path@));
                        match probe.size {
                            Some(s) => {
                                total = total + s as u128;
                            },
                            None => {},
                        }
                        added = true;
                    },
                }
            }
            i += 1;
        }
        if added {
            self.dirty = true;
        }
        skipped
    }

    /// The add-folder preview of `paths`: for each, whether it would be
    /// imported and, if not, why ("Already Added" for a workarea file).
    /// `existing_sizes` are the sizes on disk of the current files, and
    /// `probes` what was observed of each previewed path.
    pub fn preview(
        &self,
        paths: &[String],
        existing_sizes: &[Option<u64>],
        probes: &[ImportProbe],
        limits: Limits,
    ) -> (r: Vec<FolderPreviewFile>)
        requires
            existing_sizes@.len() == self@.files.len(),
            probes@.len() == paths@.len(),
        ensures
            r@.len() == paths@.len(),
            r@.map_values(|f: FolderPreviewFile| f.note@) == preview_fold(
                self@.files,
                known_total(existing_sizes@),
                string_views(paths@),
                probes@,
                limits,
                paths@.len(),
            ).notes,
            forall|i: int|
                0 <= i < paths@.len() ==> (#[trigger] r@[i]).path@ == paths@[i]@ && r@[i].importable
                    == (r@[i].note@.len() == 0),
    {
        let ghost pv = string_views(paths@);
        let ghost start = known_total(existing_sizes@);
        let mut total = known_total_exec(existing_sizes);
        let ghost bound: nat = if total > limits.max_total_bytes {
            total as nat
        } else {
            limits.max_total_bytes as nat
        };
        let count = existing_sizes.len();
        proof {
            assert(count == existing_sizes@.len());
            assert(existing_sizes@.len() * 0xFFFF_FFFF_FFFF_FFFF <= 0xFFFF_FFFF_FFFF_FFFF
                * 0xFFFF_FFFF_FFFF_FFFF) by (nonlinear_arith)
                requires
                    existing_sizes@.len() <= 0xFFFF_FFFF_FFFF_FFFF,
            ;
        }
        let mut out: Vec<FolderPreviewFile> = Vec::new();
        let mut i: usize = 0;
        assert(out@.map_values(|f: FolderPreviewFile| f.note@) =~= Seq::<Seq<char>>::empty());
        while i < paths.len()
            invariant
                i <= paths@.len() == probes@.len(),
                pv == string_views(paths@),
                bound <= u128::MAX - 0xFFFF_FFFF_FFFF_FFFF,
                total <= bound,
                bound >= limits.max_total_bytes,
                out@.len() == i,
                forall|j: int|
                    0 <= j < i ==> (#[trigger] out@[j]).path@ == paths@[j]@ && out@[j].importable
                        == (out@[j].note@.len() == 0),
                (PreviewModel {
                    notes: out@.map_values(|f: FolderPreviewFile| f.note@),
                    total: total as nat,
                }) == preview_fold(self@.files, start, pv, probes@, limits, i as nat),
            decreases paths.len() - i,
        {
            let path = &paths[i];
            assert(pv[i as int] == path@);
            let ghost before = out@.map_values(|f: FolderPreviewFile| f.note@);
            let note = if contains_path(&self.files, path.as_str()) {
                owned("Already Added")
            } else {
                let probe = &probes[i];
                match screen(total, probe.size, &probe.read, limits) {
                    Some(reason) => reason,
                    None => {
                        match probe.size {
                            Some(s) => {
                                total = total + s as u128;
                            },
                            None => {},
                        }
                        String::new()
                    },
                }
            };
            let importable = note.as_str().is_empty();
            let ghost nv = note@;
            out.push(FolderPreviewFile { path: path.clone(), importable, note });
            assert(out@.map_values(|f: FolderPreviewFile| f.note@) =~= before.push(nv));
            i += 1;
        }
        out
    }
}

/// The components of each path.
pub open spec fn path_keys(files: Seq<Seq<char>>) -> Seq<Seq<PathPart>> {
    files.map_values(|p: Seq<char>| components(p))
}

/// Whether `a` and `b` hold the same paths, each as often, in any order.
pub open spec fn same_file_set(a: Seq<Seq<char>>, b: Seq<Seq<char>>) -> bool {
    path_keys(a).to_multiset() == path_keys(b).to_multiset()
}

/// Whether `a` and `b` name the same path at every position.
pub open spec fn same_order(a: Seq<Seq<char>>, b: Seq<Seq<char>>) -> bool {
    a.len() == b.len() && forall|i: int| 0 <= i < a.len() ==> same_path(#[trigger] a[i], b[i])
}

fn copy_strings(v: &Vec<String>) -> (r: Vec<String>)
    ensures
        r@ == v@,
{
    let mut r: Vec<String> = Vec::new();
    let mut i: usize = 0;
    while i < v.len()
        invariant
            i <= v@.len(),
            r@ == v@.take(i as int),
        decreases v.len() - i,
    {
        r.push(v[i].clone());
        assert(r@ =~= v@.take(i + 1));
        i += 1;
    }
    assert(v@.take(i as int) =~= v@);
    r
}

fn find_same(files: &Vec<String>, path: &str) -> (r: Option<usize>)
    ensures
        match r {
            Some(k) => k < files@.len() && same_path(files@[k as int]@, path@),
            None => forall|k: int| 0 <= k < files@.len() ==> !same_path(#[trigger] files@[k]@, path@),
        },
{
    let mut i: usize = 0;
    while i < files.len()
        invariant
            i <= files@.len(),
            forall|k: int| 0 <= k < i ==> !same_path(#[trigger] files@[k]@, path@),
        decreases files.len() - i,
    {
        if same_path_exec(files[i].as_str(), path) {
            return Some(i);
        }
        i += 1;
    }
    None
}

impl Project {
    /// Replaces the workarea order wholesale (drag-reorder). Refused unless
    /// `paths` holds exactly the current files, in any order; the project
    /// becomes dirty when the order changed.
    pub fn set_order(&mut self, paths: Vec<String>) -> (r: Result<(), String>)
        ensures
            match r {
                Ok(()) => {
                    &&& same_file_set(old(self)@.files, string_views(paths@))
                    &&& if same_order(old(self)@.files, string_views(paths@)) {
                        final(self)@ == old(self)@
                    } else {
                        &&& final(self)@.files == string_views(paths@)
                        &&& final(self)@.dirty
                        &&& final(self)@.settings == old(self)@.settings
                        &&& final(self)@.last_export == old(self)@.last_export
                        &&& final(self)@.project_path == old(self)@.project_path
                    }
                },
                Err(e) => {
                    &&& !same_file_set(old(self)@.files, string_views(paths@))
                    &&& e@ == "reorder does not match current file set"@
                    &&& final(self)@ == old(self)@
                },
            },
    {
        broadcast use vstd::seq_lib::group_to_multiset_ensures;
        broadcast use vstd::multiset::group_multiset_axioms;

        let ghost ov = string_views(self.files@);
        let ghost pv = string_views(paths@);
        if paths.len() != self.files.len() {
            assert(path_keys(ov).to_multiset().len() != path_keys(pv).to_multiset().len());
            return Err(owned("reorder does not match current file set"));
        }
        let mut remaining = copy_strings(&self.files);
        let mut i: usize = 0;
        assert(path_keys(pv.take(0)).to_multiset() =~= vstd::multiset::Multiset::empty());
        assert(path_keys(string_views(remaining@)) == path_keys(ov));
        while i < paths.len()
            invariant
                i <= paths@.len() == ov.len(),
                ov == string_views(self.files@),
                pv == string_views(paths@),
                remaining@.len() + i == ov.len(),
                path_keys(string_views(remaining@)).to_multiset().add(
                    path_keys(pv.take(i as int)).to_multiset(),
                ) == path_keys(ov).to_multiset(),
            decreases paths.len() - i,
        {
            let ghost rk = path_keys(string_views(remaining@));
            let ghost x = components(pv[i as int]);
            assert(pv.take(i + 1) =~= pv.take(i as int).push(pv[i as int]));
            assert(path_keys(pv.take(i + 1)) =~= path_keys(pv.take(i as int)).push(x));
            let ghost mr = rk.to_multiset();
            let ghost mt = path_keys(pv.take(i as int)).to_multiset();
            proof {
                vstd::seq_lib::to_multiset_build(path_keys(pv.take(i as int)), x);
                vstd::seq_lib::to_multiset_contains(rk, x);
            }
            assert(path_keys(pv.take(i + 1)).to_multiset() == mt.insert(x));
            match find_same(&remaining, paths[i].as_str()) {
                Some(k) => {
                    assert(rk[k as int] == x);
                    assert(rk.contains(x));
                    assert(mr.count(x) > 0);
                    proof {
                        vstd::seq_lib::to_multiset_remove(rk, k as int);
                    }
                    let ghost rv = string_views(remaining@);
                    remaining.remove(k);
                    assert(string_views(remaining@) =~= rv.remove(k as int));
                    assert(path_keys(string_views(remaining@)) =~= rk.remove(k as int));
                    assert(path_keys(string_views(remaining@)).to_multiset() == mr.remove(x));
                    assert(mr.remove(x).add(mt.insert(x)) =~= mr.add(mt));
                },
                None => {
                    assert(!rk.contains(x)) by {
                        if rk.contains(x) {
                            let k = choose|k: int| 0 <= k < rk.len() && rk[k] == x;
                            assert(!same_path(remaining@[k]@, paths@[i as int]@));
                        }
                    }
                    assert(mr.count(x) == 0);
                    proof {
                        let front = path_keys(pv.take(i + 1));
                        let back = path_keys(pv.skip(i + 1));
                        assert(path_keys(pv) =~= front + back);
                        vstd::seq_lib::lemma_multiset_commutative(front, back);
                        assert(path_keys(pv).to_multiset().count(x) >= front.to_multiset().count(x));
                    }
                    assert(path_keys(ov).to_multiset().count(x) == mt.count(x));
                    assert(path_keys(ov).to_multiset().count(x) < path_keys(pv).to_multiset().count(
                        x,
                    ));
                    return Err(owned("reorder does not match current file set"));
                },
            }
            i += 1;
        }
        assert(pv.take(i as int) =~= pv);
        assert(path_keys(string_views(remaining@)).to_multiset() =~= vstd::multiset::Multiset::empty());
        assert(path_keys(pv).to_multiset() =~= path_keys(ov).to_multiset());
        let mut same = true;
        let mut j: usize = 0;
        while j < paths.len()
            invariant
                j <= paths@.len() == ov.len(),
                ov == string_views(self.files@),
                pv == string_views(paths@),
                same == forall|k: int| 0 <= k < j ==> same_path(#[trigger] ov[k], pv[k]),
            decreases paths.len() - j,
        {
            assert(ov[j as int] == self.files@[j as int]@);
            assert(pv[j as int] == paths@[j as int]@);
            if !same_path_exec(self.files[j].as_str(), paths[j].as_str()) {
                same = false;
            }
            assert(same == forall|k: int| 0 <= k < j + 1 ==> same_path(#[trigger] ov[k], pv[k]));
            j += 1;
        }
        if !same {
            self.files = paths;
            self.dirty = true;
        }
        Ok(())
    }
}

/// The project a window starts with before anything was done in it.
pub open spec fn fresh_project(settings: ProjectSettings) -> ProjectModel {
    ProjectModel {
        files: Seq::empty(),
        settings,
        last_export: None,
        project_path: None,
        dirty: false,
    }
}

/// Why a save into a project file that another window holds is refused.
pub open spec fn already_open_message() -> Seq<char> {
    "that project file is already open in another window"@
}

/// Whether project `p` was saved at (the same path as) `project_path`.
pub open spec fn saved_at(p: ProjectModel, project_path: Seq<char>) -> bool {
    match p.project_path {
        Some(pp) => same_path(pp, project_path),
        None => false,
    }
}

/// One project per window, keyed by window label. A label with no entry
/// stands for an empty Untitled project, created on first touch.
pub struct Workareas {
    entries: Vec<(String, Project)>,
}

spec fn distinct(e: Seq<(String, Project)>) -> bool {
    forall|i: int, j: int| 0 <= i < j < e.len() ==> (#[trigger] e[i]).0@ != (#[trigger] e[j]).0@
}

spec fn has_label(e: Seq<(String, Project)>, label: Seq<char>, i: int) -> bool {
    0 <= i < e.len() && e[i].0@ == label
}

spec fn project_in(e: Seq<(String, Project)>, label: Seq<char>) -> Option<ProjectModel> {
    if exists|i: int| has_label(e, label, i) {
        Some(e[choose|i: int| has_label(e, label, i)].1@)
    } else {
        None
    }
}

proof fn lemma_found(e: Seq<(String, Project)>, label: Seq<char>, k: int)
    requires
        distinct(e),
        has_label(e, label, k),
    ensures
        project_in(e, label) == Some(e[k].1@),
{
    let c = choose|i: int| has_label(e, label, i);
    assert(has_label(e, label, c));
    if c != k {
        if c < k {
            assert(e[c].0@ != e[k].0@);
        } else {
            assert(e[k].0@ != e[c].0@);
        }
    }
}

proof fn lemma_absent(e: Seq<(String, Project)>, label: Seq<char>)
    requires
        forall|k: int| 0 <= k < e.len() ==> (#[trigger] e[k]).0@ != label,
    ensures
        project_in(e, label) is None,
{
    if exists|i: int| has_label(e, label, i) {
        let c = choose|i: int| has_label(e, label, i);
        assert(e[c].0@ != label);
    }
}

proof fn lemma_removed(e: Seq<(String, Project)>, k: int)
    requires
        distinct(e),
        0 <= k < e.len(),
    ensures
        distinct(e.remove(k)),
        project_in(e.remove(k), e[k].0@) is None,
        forall|l: Seq<char>|
            l != e[k].0@ ==> #[trigger] project_in(e.remove(k), l) == project_in(e, l),
{
    let n = e.remove(k);
    assert forall|i: int, j: int| 0 <= i < j < n.len() implies (#[trigger] n[i]).0@ != (
    #[trigger] n[j]).0@ by {
        let oi = if i < k {
            i
        } else {
            i + 1
        };
        let oj = if j < k {
            j
        } else {
            j + 1
        };
        assert(n[i] == e[oi] && n[j] == e[oj]);
        assert(e[oi].0@ != e[oj].0@);
    }
    assert forall|x: int| 0 <= x < n.len() implies (#[trigger] n[x]).0@ != e[k].0@ by {
        let ox = if x < k {
            x
        } else {
            x + 1
        };
        assert(n[x] == e[ox]);
        if ox < k {
            assert(e[ox].0@ != e[k].0@);
        } else {
            assert(e[k].0@ != e[ox].0@);
        }
    }
    lemma_absent(n, e[k].0@);
    assert forall|l: Seq<char>| l != e[k].0@ implies #[trigger] project_in(n, l) == project_in(e, l) by {
        if exists|i: int| has_label(e, l, i) {
            let c = choose|i: int| has_label(e, l, i);
            lemma_found(e, l, c);
            let nc = if c < k {
                c
            } else {
                c - 1
            };
            assert(n[nc] == e[c]);
            lemma_found(n, l, nc);
        } else {
            assert forall|x: int| 0 <= x < n.len() implies (#[trigger] n[x]).0@ != l by {
                let ox = if x < k {
                    x
                } else {
                    x + 1
                };
                assert(n[x] == e[ox]);
                assert(!has_label(e, l, ox));
            }
            lemma_absent(n, l);
        }
    }
}

proof fn lemma_replaced(e: Seq<(String, Project)>, k: int, x: (String, Project))
    requires
        distinct(e),
        0 <= k < e.len(),
        x.0@ == e[k].0@,
    ensures
        distinct(e.update(k, x)),
        project_in(e.update(k, x), x.0@) == Some(x.1@),
        forall|l: Seq<char>|
            l != x.0@ ==> #[trigger] project_in(e.update(k, x), l) == project_in(e, l),
{
    let n = e.update(k, x);
    assert forall|i: int, j: int| 0 <= i < j < n.len() implies (#[trigger] n[i]).0@ != (
    #[trigger] n[j]).0@ by {
        assert(e[i].0@ != e[j].0@);
    }
    lemma_found(n, x.0@, k);
    assert forall|l: Seq<char>| l != x.0@ implies #[trigger] project_in(n, l) == project_in(e, l) by {
        if exists|i: int| has_label(e, l, i) {
            let c = choose|i: int| has_label(e, l, i);
            lemma_found(e, l, c);
            lemma_found(n, l, c);
        } else {
            assert forall|y: int| 0 <= y < n.len() implies (#[trigger] n[y]).0@ != l by {
                assert(!has_label(e, l, y));
            }
            lemma_absent(n, l);
        }
    }
}

proof fn lemma_appended(e: Seq<(String, Project)>, x: (String, Project))
    requires
        distinct(e),
        forall|k: int| 0 <= k < e.len() ==> (#[trigger] e[k]).0@ != x.0@,
    ensures
        distinct(e.push(x)),
        project_in(e.push(x), x.0@) == Some(x.1@),
        forall|l: Seq<char>| l != x.0@ ==> #[trigger] project_in(e.push(x), l) == project_in(e, l),
{
    let n = e.push(x);
    assert forall|i: int, j: int| 0 <= i < j < n.len() implies (#[trigger] n[i]).0@ != (
    #[trigger] n[j]).0@ by {
        if j < e.len() {
            assert(e[i].0@ != e[j].0@);
        } else {
            assert(n[i] == e[i]);
        }
    }
    lemma_found(n, x.0@, e.len() as int);
    assert forall|l: Seq<char>| l != x.0@ implies #[trigger] project_in(n, l) == project_in(e, l) by {
        if exists|i: int| has_label(e, l, i) {
            let c = choose|i: int| has_label(e, l, i);
            lemma_found(e, l, c);
            assert(n[c] == e[c]);
            lemma_found(n, l, c);
        } else {
            assert forall|y: int| 0 <= y < n.len() implies (#[trigger] n[y]).0@ != l by {
                if y < e.len() {
                    assert(n[y] == e[y]);
                    assert(!has_label(e, l, y));
                }
            }
            lemma_absent(n, l);
            assert forall|y: int| 0 <= y < e.len() implies (#[trigger] e[y]).0@ != l by {
                assert(!has_label(e, l, y));
            }
            lemma_absent(e, l);
        }
    }
}

impl Workareas {
    #[verifier::type_invariant]
    spec fn distinct_labels(self) -> bool {
        distinct(self.entries@)
    }

    /// The project of window `label`, if the window has one.
    pub closed spec fn project_of(&self, label: Seq<char>) -> Option<ProjectModel> {
        project_in(self.entries@, label)
    }

    /// No window has a project yet.
    pub fn new() -> (w: Self)
        ensures
            forall|l: Seq<char>| #[trigger] w.project_of(l) is None,
    {
        let w = Workareas { entries: Vec::new() };
        assert forall|l: Seq<char>| #[trigger] w.project_of(l) is None by {
            lemma_absent(w.entries@, l);
        }
        w
    }

    fn index_of(&self, label: &str) -> (r: Option<usize>)
        ensures
            match r {
                Some(k) => k < self.entries@.len() && self.entries@[k as int].0@ == label@,
                None => forall|k: int|
                    0 <= k < self.entries@.len() ==> (#[trigger] self.entries@[k]).0@ != label@,
            },
    {
        let target = owned(label);
        let mut i: usize = 0;
        while i < self.entries.len()
            invariant
                i <= self.entries@.len(),
                target@ == label@,
                forall|k: int| 0 <= k < i ==> (#[trigger] self.entries@[k]).0@ != label@,
            decreases self.entries.len() - i,
        {
            if self.entries[i].0 == target {
                return Some(i);
            }
            i += 1;
        }
        None
    }

    /// Whether window `label` has unsaved changes.
    pub fn is_dirty(&self, label: &str) -> (d: bool)
        ensures
            d == match self.project_of(label@) {
                Some(p) => p.dirty,
                None => false,
            },
    {
        proof {
            use_type_invariant(self);
        }
        match self.index_of(label) {
            Some(k) => {
                proof {
                    lemma_found(self.entries@, label@, k as int);
                }
                self.entries[k].1.is_dirty()
            },
            None => {
                proof {
                    lemma_absent(self.entries@, label@);
                }
                false
            },
        }
    }

    /// Drops the project of window `label` (when the window is destroyed).
    pub fn remove(&mut self, label: &str)
        ensures
            final(self).project_of(label@) is None,
            forall|l: Seq<char>|
                l != label@ ==> #[trigger] final(self).project_of(l) == old(self).project_of(l),
    {
        proof {
            use_type_invariant(&*self);
        }
        match self.index_of(label) {
            Some(k) => {
                let mut entries: Vec<(String, Project)> = Vec::new();
                std::mem::swap(&mut entries, &mut self.entries);
                let ghost e = entries@;
                proof {
                    lemma_removed(e, k as int);
                }
                let _ = entries.remove(k);
                self.entries = entries;
            },
            None => {
                proof {
                    lemma_absent(self.entries@, label@);
                }
            },
        }
    }

    /// Takes the project of window `label` out, to work on it; a window
    /// without one gets a new empty project with `settings`.
    pub fn take(&mut self, label: &str, settings: ProjectSettings) -> (p: Project)
        ensures
            p@ == match old(self).project_of(label@) {
                Some(m) => m,
                None => fresh_project(settings),
            },
            final(self).project_of(label@) is None,
            forall|l: Seq<char>|
                l != label@ ==> #[trigger] final(self).project_of(l) == old(self).project_of(l),
    {
        proof {
            use_type_invariant(&*self);
        }
        match self.index_of(label) {
            Some(k) => {
                let mut entries: Vec<(String, Project)> = Vec::new();
                std::mem::swap(&mut entries, &mut self.entries);
                let ghost e = entries@;
                proof {
                    lemma_found(e, label@, k as int);
                    lemma_removed(e, k as int);
                }
                let (_, p) = entries.remove(k);
                self.entries = entries;
                p
            },
            None => {
                proof {
                    lemma_absent(self.entries@, label@);
                }
                let p = Project::new(settings);
                assert(p@ == fresh_project(settings));
                p
            },
        }
    }

    /// Gives window `label` the project `project`.
    pub fn put(&mut self, label: String, project: Project)
        ensures
            final(self).project_of(label@) == Some(project@),
            forall|l: Seq<char>|
                l != label@ ==> #[trigger] final(self).project_of(l) == old(self).project_of(l),
    {
        proof {
            use_type_invariant(&*self);
        }
        let found = self.index_of(label.as_str());
        let mut entries: Vec<(String, Project)> = Vec::new();
        std::mem::swap(&mut entries, &mut self.entries);
        let ghost e = entries@;
        let entry = (label, project);
        match found {
            Some(k) => {
                proof {
                    lemma_replaced(e, k as int, entry);
                }
                entries.set(k, entry);
            },
            None => {
                proof {
                    lemma_appended(e, entry);
                }
                entries.push(entry);
            },
        }
        self.entries = entries;
    }

    /// What saving window `label`'s project (`project`, taken out to work
    /// on) writes, as `Project::save_plan` plans it, unless another window
    /// holds a project saved at the target: one window per project file, so
    /// that save is refused and nothing is to be written.
    pub fn save_plan(&self, label: &str, project: &Project, path: Option<String>) -> (r: Result<
        (String, ProjectFile),
        String,
    >)
        ensures
            match r {
                Ok((target, file)) => {
                    &&& save_target(project@, opt_view(path)) == Some(target@)
                    &&& saves_as(project@, target@, file)
                    &&& forall|l: Seq<char>|
                        l != label@ ==> match #[trigger] self.project_of(l) {
                            Some(p) => !saved_at(p, target@),
                            None => true,
                        }
                },
                Err(e) => match save_target(project@, opt_view(path)) {
                    None => e@ == "no project file path; use Save As"@,
                    Some(t) => {
                        &&& e@ == already_open_message()
                        &&& exists|l: Seq<char>|
                            l != label@ && match #[trigger] self.project_of(l) {
                                Some(p) => saved_at(p, t),
                                None => false,
                            }
                    },
                },
            },
    {
        let (target, file) = match project.save_plan(path) {
            Ok(plan) => plan,
            Err(e) => {
                return Err(e);
            },
        };
        match self.holder_of(label, target.as_str()) {
            Some(other) => {
                assert(other@ != label@);
                Err(owned("that project file is already open in another window"))
            },
            None => Ok((target, file)),
        }
    }

    /// Another window than `label` whose project was saved at
    /// `project_path`, if there is one (one window per project).
    pub fn holder_of(&self, label: &str, project_path: &str) -> (r: Option<String>)
        ensures
            match r {
                Some(l) => l@ != label@ && match self.project_of(l@) {
                    Some(p) => saved_at(p, project_path@),
                    None => false,
                },
                None => forall|l: Seq<char>|
                    l != label@ ==> match #[trigger] self.project_of(l) {
                        Some(p) => !saved_at(p, project_path@),
                        None => true,
                    },
            },
    {
        proof {
            use_type_invariant(self);
        }
        let mine = owned(label);
        let mut i: usize = 0;
        while i < self.entries.len()
            invariant
                i <= self.entries@.len(),
                mine@ == label@,
                distinct(self.entries@),
                forall|k: int|
                    0 <= k < i ==> (#[trigger] self.entries@[k]).0@ == label@ || !saved_at(
                        self.entries@[k].1@,
                        project_path@,
                    ),
            decreases self.entries.len() - i,
        {
            let entry = &self.entries[i];
            let other = entry.0 != mine;
            let here = match entry.1.project_path() {
                Some(pp) => same_path_exec(pp, project_path),
                None => false,
            };
            if other && here {
                proof {
                    lemma_found(self.entries@, entry.0@, i as int);
                }
                return Some(entry.0.clone());
            }
            i += 1;
        }
        assert forall|l: Seq<char>|
            l != label@ implies match #[trigger] self.project_of(l) {
                Some(p) => !saved_at(p, project_path@),
                None => true,
            } by {
            if exists|x: int| has_label(self.entries@, l, x) {
                let c = choose|x: int| has_label(self.entries@, l, x);
                lemma_found(self.entries@, l, c);
            }
        }
        None
    }
}

impl Default for Workareas {
    fn default() -> (w: Self)
        ensures
            forall|l: Seq<char>| #[trigger] w.project_of(l) is None,
    {
        Workareas::new()
    }
}

/// Projects the OS asked to open before a window was ready for them, kept
/// until a window drains them.
pub struct PendingOpenProjects {
    paths: Vec<String>,
}

impl PendingOpenProjects {
    /// The waiting project paths, oldest first.
    pub closed spec fn pending(&self) -> Seq<Seq<char>> {
        string_views(self.paths@)
    }

    /// Nothing waiting.
    pub fn new() -> (q: Self)
        ensures
            q.pending() == Seq::<Seq<char>>::empty(),
    {
        let q = PendingOpenProjects { paths: Vec::new() };
        assert(q.pending() =~= Seq::<Seq<char>>::empty());
        q
    }

    /// Queues `paths` behind those already waiting.
    pub fn push(&mut self, paths: Vec<String>)
        ensures
            final(self).pending() == old(self).pending() + string_views(paths@),
    {
        let ghost before = self.pending();
        let mut i: usize = 0;
        while i < paths.len()
            invariant
                i <= paths@.len(),
                self.pending() == before + string_views(paths@).take(i as int),
            decreases paths.len() - i,
        {
            let ghost mid = self.pending();
            self.paths.push(paths[i].clone());
            assert(self.pending() =~= mid.push(paths@[i as int]@));
            assert(string_views(paths@).take(i + 1) =~= string_views(paths@).take(i as int).push(
                paths@[i as int]@,
            ));
            i += 1;
        }
        assert(string_views(paths@).take(i as int) =~= string_views(paths@));
    }

    /// Hands out everything waiting, oldest first, and forgets it.
    pub fn take(&mut self) -> (r: Vec<String>)
        ensures
            string_views(r@) == old(self).pending(),
            final(self).pending() == Seq::<Seq<char>>::empty(),
    {
        let r = copy_strings(&self.paths);
        self.paths = Vec::new();
        assert(self.pending() =~= Seq::<Seq<char>>::empty());
        r
    }
}

impl Default for PendingOpenProjects {
    fn default() -> (q: Self)
        ensures
            q.pending() == Seq::<Seq<char>>::empty(),
    {
        PendingOpenProjects::new()
    }
}

/// What adding files gives back: the workarea and the files left out.
#[derive(Clone, Debug, PartialEq, Eq)]
pub struct AddResult {
    pub project: ProjectView,
    pub skipped: Vec<Skipped>,
}

/// `url::Url::parse` of `arg`, then `Url::to_file_path`: the file path that
/// `arg` names when it is a URL whose path can be a file path (on Unix one
/// with no host but `localhost` and no NUL once percent-decoded). Stated:
/// text without a `:` has no scheme, so the parser refuses it as a relative
/// URL without a base. Which path a file URL gives depends on the platform's
/// path rules and is left unsaid.
#[verifier::external_body]
fn url_file_path(arg: &str) -> (r: Option<String>)
    ensures
        !arg@.contains(':') ==> r is None,
{
    match url::Url::parse(arg) {
        Ok(u) => match u.to_file_path() {
            Ok(p) => Some(p.display().to_string()),
            Err(_) => None,
        },
        Err(_) => None,
    }
}

/// The project file one command-line argument names, if any: the path of a
/// file URL (`url_path`, what the URL parser made of `arg`), else `arg`
/// itself; a relative path is taken from `cwd`; only `.bmd` files count.
pub open spec fn open_candidate(arg: Seq<char>, url_path: Option<Seq<char>>, cwd: Seq<char>) -> Option<
    Seq<char>,
> {
    let path = match url_path {
        Some(p) => p,
        None => arg,
    };
    let full = if is_absolute(path) {
        path
    } else {
        join(cwd, path)
    };
    if is_bmd(full) {
        Some(full)
    } else {
        None
    }
}

/// The project files the first `n` arguments name, in order.
pub open spec fn open_candidates(
    args: Seq<Seq<char>>,
    urls: Seq<Option<Seq<char>>>,
    cwd: Seq<char>,
    n: nat,
) -> Seq<Seq<char>>
    decreases n,
{
    if n == 0 {
        Seq::empty()
    } else {
        let rest = open_candidates(args, urls, cwd, (n - 1) as nat);
        match open_candidate(args[n - 1], urls[n - 1], cwd) {
            Some(p) => rest.push(p),
            None => rest,
        }
    }
}

/// The project file one command-line argument names, given what the URL
/// parser made of it (`url_path`), with relative paths taken from `cwd`.
pub fn open_project_path_from_arg(arg: &str, url_path: Option<String>, cwd: &str) -> (r: Option<
    String,
>)
    ensures
        opt_view(r) == open_candidate(arg@, opt_view(url_path), cwd@),
{
    let path = match url_path {
        Some(p) => p,
        None => owned(arg),
    };
    let v = crate::text::chars_of(path.as_str());
    let full = if v.len() > 0 && v[0] == '/' {
        path
    } else {
        join_path(cwd, path.as_str())
    };
    if is_bmd_path(full.as_str()) {
        Some(full)
    } else {
        None
    }
}

/// The `.bmd` project files named by command-line arguments, in order:
/// file URLs or paths, relative ones taken from `cwd`. Each is what
/// `open_project_path_from_arg` makes of its argument and of what the URL
/// parser read in it. The caller canonicalizes them.
pub fn open_project_paths_from_args(args: &[String], cwd: &str) -> (r: Vec<String>)
    ensures
        exists|urls: Seq<Option<Seq<char>>>|
            {
                &&& urls.len() == args@.len()
                &&& forall|i: int|
                    0 <= i < args@.len() && !(#[trigger] args@[i])@.contains(':') ==> urls[i] is None
                &&& string_views(r@) == open_candidates(string_views(args@), urls, cwd@, args@.len())
            },
{
    let ghost av = string_views(args@);
    let ghost mut urls: Seq<Option<Seq<char>>> = Seq::empty();
    let mut out: Vec<String> = Vec::new();
    let mut i: usize = 0;
    assert(string_views(out@) =~= Seq::<Seq<char>>::empty());
    while i < args.len()
        invariant
            i <= args@.len(),
            av == string_views(args@),
            urls.len() == i,
            forall|j: int| 0 <= j < i && !(#[trigger] args@[j])@.contains(':') ==> urls[j] is None,
            string_views(out@) == open_candidates(av, urls, cwd@, i as nat),
        decreases args.len() - i,
    {
        let arg = args[i].as_str();
        let url_path = url_file_path(arg);
        let ghost uv = opt_view(url_path);
        let ghost before = string_views(out@);
        let ghost prior = urls;
        proof {
            urls = urls.push(uv);
        }
        assert(av[i as int] == arg@);
        assert forall|j: int| 0 <= j < i implies urls[j] == prior[j] by {}
        assert(open_candidates(av, urls, cwd@, i as nat) == open_candidates(
            av,
            prior,
            cwd@,
            i as nat,
        )) by {
            lemma_candidates_prefix(av, prior, urls, cwd@, i as nat);
        }
        match open_project_path_from_arg(arg, url_path, cwd) {
            Some(p) => {
                let ghost pv = p@;
                out.push(p);
                assert(string_views(out@) =~= before.push(pv));
            },
            None => {},
        }
        i += 1;
    }
    out
}

/// The project file a URL names, given the file path the URL parser read in
/// it: kept when it is absolute and a `.bmd` file.
pub open spec fn url_candidate(url_path: Option<Seq<char>>) -> Option<Seq<char>> {
    match url_path {
        Some(p) => if is_absolute(p) && is_bmd(p) {
            Some(p)
        } else {
            None
        },
        None => None,
    }
}

/// The project files that URLs name, in order, given the file path the URL
/// parser read in each.
pub open spec fn url_candidates(url_paths: Seq<Option<Seq<char>>>) -> Seq<Seq<char>>
    decreases url_paths.len(),
{
    if url_paths.len() == 0 {
        Seq::empty()
    } else {
        let rest = url_candidates(url_paths.drop_last());
        match url_candidate(url_paths.last()) {
            Some(p) => rest.push(p),
            None => rest,
        }
    }
}

/// The project file a URL names, given the file path the URL parser read
/// in it (`url_path`).
pub fn open_project_path_from_url_path(url_path: Option<String>) -> (r: Option<String>)
    ensures
        opt_view(r) == url_candidate(opt_view(url_path)),
{
    match url_path {
        Some(p) => {
            let v = crate::text::chars_of(p.as_str());
            if v.len() > 0 && v[0] == '/' && is_bmd_path(p.as_str()) {
                Some(p)
            } else {
                None
            }
        },
        None => None,
    }
}

/// The `.bmd` project files that URLs handed to the application name, in
/// order: each URL's file path, when it has one, is absolute and ends in
/// `.bmd`. The caller canonicalizes them.
pub fn open_project_paths_from_urls(urls: &[String]) -> (r: Vec<String>)
    ensures
        exists|url_paths: Seq<Option<Seq<char>>>|
            {
                &&& url_paths.len() == urls@.len()
                &&& forall|i: int|
                    0 <= i < urls@.len() && !(#[trigger] urls@[i])@.contains(':') ==> url_paths[i] is None
                &&& string_views(r@) == url_candidates(url_paths)
            },
{
    let ghost mut url_paths: Seq<Option<Seq<char>>> = Seq::empty();
    let mut out: Vec<String> = Vec::new();
    let mut i: usize = 0;
    assert(string_views(out@) =~= Seq::<Seq<char>>::empty());
    while i < urls.len()
        invariant
            i <= urls@.len(),
            url_paths.len() == i,
            forall|j: int| 0 <= j < i && !(#[trigger] urls@[j])@.contains(':') ==> url_paths[j] is None,
            string_views(out@) == url_candidates(url_paths),
        decreases urls.len() - i,
    {
        let path = url_file_path(urls[i].as_str());
        let ghost before = string_views(out@);
        let ghost prior = url_paths;
        proof {
            url_paths = url_paths.push(opt_view(path));
            assert(url_paths.drop_last() =~= prior);
        }
        match open_project_path_from_url_path(path) {
            Some(p) => {
                let ghost pv = p@;
                out.push(p);
                assert(string_views(out@) =~= before.push(pv));
            },
            None => {},
        }
        i += 1;
    }
    out
}

proof fn lemma_candidates_prefix(
    args: Seq<Seq<char>>,
    a: Seq<Option<Seq<char>>>,
    b: Seq<Option<Seq<char>>>,
    cwd: Seq<char>,
    n: nat,
)
    requires
        n <= a.len(),
        n <= b.len(),
        forall|j: int| 0 <= j < n ==> a[j] == b[j],
    ensures
        open_candidates(args, a, cwd, n) == open_candidates(args, b, cwd, n),
    decreases n,
{
    if n > 0 {
        lemma_candidates_prefix(args, a, b, cwd, (n - 1) as nat);
        assert(a[n - 1] == b[n - 1]);
    }
}

/// A best-effort export in progress, file by file, for a caller that reads
/// a file only when the size checks let it through.
pub struct BundleExport {
    state: ExportState,
    limits: Limits,
    tag_fences: bool,
}

impl BundleExport {
    #[verifier::type_invariant]
    spec fn within_limits(self) -> bool {
        self.state.total <= self.limits.max_total_bytes
    }

    /// What the export holds so far.
    pub closed spec fn model(&self) -> ExportModel {
        self.state.model()
    }

    /// The size limits the export keeps to.
    pub closed spec fn limits(&self) -> Limits {
        self.limits
    }

    /// Whether fences get the tags of the files' detected languages.
    pub closed spec fn tag_fences(&self) -> bool {
        self.tag_fences
    }

    /// An export that holds nothing yet; `tag_fences` is the project's
    /// language-tag setting.
    pub fn new(limits: Limits, tag_fences: bool) -> (e: Self)
        ensures
            e.model() == (ExportModel { files: Seq::empty(), problems: Seq::empty(), total: 0 }),
            e.limits() == limits,
            e.tag_fences() == tag_fences,
    {
        BundleExport { state: ExportState::new(), limits, tag_fences }
    }

    /// Whether a file of `size` bytes passes the size checks, so that it
    /// has to be read.
    pub fn may_read(&self, size: u64) -> (r: bool)
        ensures
            r == (size_gate(self.model().total, size as nat, self.limits()) is None),
    {
        proof {
            use_type_invariant(self);
        }
        !(size > self.limits.max_file_bytes || size as u128 + self.state.total as u128
            > self.limits.max_total_bytes as u128)
    }

    /// Considers one more file: `path` as listed, `display` as shown, its
    /// size on disk, and what reading it gave (not looked at when the size
    /// checks refuse the file).
    pub fn record(&mut self, path: &String, display: &String, size: u64, read: Result<FileContent, String>)
        ensures
            final(self).model() == export_step(
                old(self).model(),
                path@,
                display@,
                size as nat,
                read_view(read),
                old(self).limits(),
                old(self).tag_fences(),
            ),
            final(self).limits() == old(self).limits(),
            final(self).tag_fences() == old(self).tag_fences(),
    {
        proof {
            use_type_invariant(&*self);
        }
        let limits = self.limits;
        let mut st = ExportState::new();
        std::mem::swap(&mut st, &mut self.state);
        if st.gate(path, size, limits) {
            st.record(path, display, size, read, limits, self.tag_fences);
        }
        self.state = st;
    }

    /// Whether the included files can be assembled under `settings` (see
    /// `bundle_fits`).
    pub fn fits(&self, settings: &ProjectSettings) -> (r: bool)
        ensures
            r == (self.model().files.len() + 2 < u32::MAX && (settings.include_line_ranges_in_headings
                ==> lines_fit(exported_description(*settings), self.model().files))),
    {
        bundle_fits(settings, &self.state.files)
    }

    /// The bundle of the included files under `title` and `settings`, and
    /// the problems met.
    pub fn finish(self, title: &str, settings: &ProjectSettings) -> (r: (String, Vec<Problem>))
        requires
            self.model().files.len() + 2 < u32::MAX,
            settings.include_line_ranges_in_headings ==> lines_fit(
                exported_description(*settings),
                self.model().files,
            ),
        ensures
            problem_views(r.1@) == self.model().problems,
            is_bundle_of(r.0@, title@, *settings, self.model()),
    {
        let st = self.state;
        assert(st.files@.len() == st.model().files.len());
        let markdown = assemble_model(title, settings, &st.files);
        (markdown, st.problems)
    }
}

} // verus!
