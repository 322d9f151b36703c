//! The editor's state: an open project with its tabs, and what opening, editing, saving, adding and
//! running come to. The files themselves are read and written by the caller.

use vstd::prelude::*;
use vstd::string::*;

use crate::error::{self, Error, failure};
use crate::explorer::{self, ExplorerNode, ExplorerView, build_explorer, find_node_by_key};
use crate::order;
use crate::path::{self, extend_path, extend_path_all, file_name, file_stem, path_eq};
use crate::project::{self, FileView, LoadedProject, ProjectFile, ScriptKind, copy_opt_text};
use crate::text::{
    self, Text, bytes_of, concat2, concat3, copy_bytes, copy_texts, decimal_text, decode_lossy,
    text_eq, trimmed,
};

verus! {

// ---------------------------------------------------------------------------------------------
// Files of the open project
// ---------------------------------------------------------------------------------------------

/// The position of the first file with the given path, or the number of files.
pub open spec fn file_at(files: Seq<FileView>, path: Text) -> int
    decreases files.len(),
{
    if files.len() == 0 {
        0
    } else {
        let k = file_at(files.drop_last(), path);
        if k < files.len() - 1 {
            k
        } else if path::same_path(files.last().path, path) {
            files.len() - 1
        } else {
            files.len() as int
        }
    }
}

/// What the first file with the given path holds.
pub open spec fn content_at(files: Seq<FileView>, path: Text) -> Option<Seq<u8>> {
    let k = file_at(files, path);
    if k < files.len() {
        Some(files[k].bytes)
    } else {
        None
    }
}

/// Files after bytes were put at a path: the first file with that path holds them, or a new file in
/// its place in the order of paths.
pub open spec fn upserted(files: Seq<FileView>, path: Text, bytes: Seq<u8>) -> Seq<FileView> {
    let k = file_at(files, path);
    if k < files.len() {
        files.update(k, FileView { path: files[k].path, bytes })
    } else {
        order::sort_by(files.push(FileView { path, bytes }), project::by_path())
    }
}

proof fn lemma_file_at(files: Seq<FileView>, path: Text, k: int)
    requires
        0 <= k < files.len(),
        file_at(files.take(k), path) == k,
        path::same_path(files[k].path, path),
    ensures
        file_at(files, path) == k,
    decreases files.len() - k,
{
    assert(files.take(k + 1).drop_last() =~= files.take(k));
    assert(files.take(k + 1).last() == files[k]);
    lemma_file_at_stays(files, path, k, k + 1);
}

proof fn lemma_file_at_stays(files: Seq<FileView>, path: Text, k: int, n: int)
    requires
        0 <= k < n <= files.len(),
        file_at(files.take(n), path) == k,
    ensures
        file_at(files, path) == k,
    decreases files.len() - n,
{
    if n == files.len() {
        assert(files.take(n) =~= files);
    } else {
        assert(files.take(n + 1).drop_last() =~= files.take(n));
        lemma_file_at_stays(files, path, k, n + 1);
    }
}

/// The position of the first file with the given path.
fn find_file(files: &Vec<ProjectFile>, path: &str) -> (r: Option<usize>)
    ensures
        match r {
            Some(k) => k < files@.len() && file_at(text::views(files@), path@) == k,
            None => file_at(text::views(files@), path@) == files@.len(),
        },
{
    let ghost all = text::views(files@);
    let mut i: usize = 0;
    assert(all.take(0) =~= Seq::empty());
    while i < files.len()
        invariant
            i <= files@.len(),
            all == text::views(files@),
            file_at(all.take(i as int), path@) == i,
        decreases files@.len() - i,
    {
        assert(all.take(i + 1).drop_last() =~= all.take(i as int));
        assert(all.take(i + 1).last() == files@[i as int]@);
        if path_eq(files[i].relative_path.as_str(), path) {
            proof {
                lemma_file_at(all, path@, i as int);
            }
            return Some(i);
        }
        i += 1;
    }
    assert(all.take(i as int) =~= all);
    None
}

/// Puts bytes at a path of a project.
pub fn upsert_project_file(project: &mut LoadedProject, relative_path: &str, bytes: Vec<u8>)
    ensures
        final(project)@ == upserted(old(project)@, relative_path@, bytes@),
{
    let ghost before = project@;
    match find_file(&project.files, relative_path) {
        Some(k) => {
            let ghost name = project.files@[k as int].relative_path@;
            let ghost content = bytes@;
            project.files[k].bytes = bytes;
            assert(project@ =~= before.update(
                k as int,
                FileView { path: before[k as int].path, bytes: content },
            ));
        },
        None => {
            let mut files: Vec<ProjectFile> = Vec::new();
            std::mem::swap(&mut files, &mut project.files);
            let file = ProjectFile { relative_path: relative_path.to_owned(), bytes };
            proof {
                text::lemma_views_push(files@, file);
            }
            files.push(file);
            *project = LoadedProject::from_files(files);
        },
    }
}

proof fn lemma_file_at_range(files: Seq<FileView>, path: Text)
    ensures
        0 <= file_at(files, path) <= files.len(),
        file_at(files, path) < files.len() ==> path::same_path(files[file_at(files, path)].path, path),
    decreases files.len(),
{
    if files.len() > 0 {
        lemma_file_at_range(files.drop_last(), path);
    }
}

proof fn lemma_content_push(files: Seq<FileView>, file: FileView, path: Text)
    ensures
        content_at(files.push(file), path) == (if content_at(files, path) is Some {
            content_at(files, path)
        } else if path::same_path(file.path, path) {
            Some(file.bytes)
        } else {
            None
        }),
{
    assert(files.push(file).drop_last() =~= files);
    lemma_file_at_range(files, path);
}

proof fn lemma_content_insert(files: Seq<FileView>, file: FileView, path: Text)
    ensures
        content_at(order::insert_by(files, file, project::by_path()), path) == (if content_at(
            files,
            path,
        ) is Some {
            content_at(files, path)
        } else if path::same_path(file.path, path) {
            Some(file.bytes)
        } else {
            None
        }),
    decreases files.len(),
{
    lemma_content_push(files, file, path);
    if files.len() > 0 && !project::by_path()(files.last(), file) {
        let rest = order::insert_by(files.drop_last(), file, project::by_path());
        lemma_content_insert(files.drop_last(), file, path);
        lemma_content_push(rest, files.last(), path);
        lemma_content_push(files.drop_last(), files.last(), path);
        assert(files.drop_last().push(files.last()) =~= files);
        if path::same_path(file.path, path) && path::same_path(files.last().path, path) {
            path::lemma_path_le_orders();
            assert(path::path_le(files.last().path, files.last().path));
            assert(path::path_le(files.last().path, file.path));
        }
    }
}

proof fn lemma_content_sorted(files: Seq<FileView>, path: Text)
    ensures
        content_at(order::sort_by(files, project::by_path()), path) == content_at(files, path),
    decreases files.len(),
{
    if files.len() > 0 {
        lemma_content_sorted(files.drop_last(), path);
        lemma_content_insert(order::sort_by(files.drop_last(), project::by_path()), files.last(), path);
        lemma_content_push(files.drop_last(), files.last(), path);
        assert(files.drop_last().push(files.last()) =~= files);
    }
}

proof fn lemma_file_at_update(files: Seq<FileView>, k: int, bytes: Seq<u8>, path: Text)
    requires
        0 <= k < files.len(),
    ensures
        file_at(files.update(k, FileView { path: files[k].path, bytes }), path) == file_at(
            files,
            path,
        ),
    decreases files.len(),
{
    let changed = files.update(k, FileView { path: files[k].path, bytes });
    if k < files.len() - 1 {
        assert(changed.drop_last() =~= files.drop_last().update(
            k,
            FileView { path: files[k].path, bytes },
        ));
        lemma_file_at_update(files.drop_last(), k, bytes, path);
    } else {
        assert(changed.drop_last() =~= files.drop_last());
    }
}

/// What is put at a path is read there, and every other path reads as before.
pub proof fn law_upsert_reads_back(files: Seq<FileView>, path: Text, bytes: Seq<u8>, other: Text)
    ensures
        content_at(upserted(files, path, bytes), path) == Some(bytes),
        !path::same_path(path, other) ==> content_at(upserted(files, path, bytes), other) == content_at(
            files,
            other,
        ),
{
    lemma_file_at_range(files, path);
    lemma_file_at_range(files, other);
    let k = file_at(files, path);
    if k < files.len() {
        lemma_file_at_update(files, k, bytes, path);
        lemma_file_at_update(files, k, bytes, other);
    } else {
        let file = FileView { path, bytes };
        lemma_content_sorted(files.push(file), path);
        lemma_content_push(files, file, path);
        lemma_content_sorted(files.push(file), other);
        lemma_content_push(files, file, other);
    }
}

/// Whether the paths of files ascend, so that none stands twice.
pub open spec fn paths_ascend(files: Seq<FileView>) -> bool {
    forall|i: int, j: int|
        0 <= i < j < files.len() ==> path::path_le(
            (#[trigger] files[i]).path,
            (#[trigger] files[j]).path,
        ) && !path::same_path(files[i].path, files[j].path)
}

proof fn lemma_path_absent(files: Seq<FileView>, path: Text)
    requires
        file_at(files, path) == files.len(),
    ensures
        forall|i: int| 0 <= i < files.len() ==> !path::same_path((#[trigger] files[i]).path, path),
    decreases files.len(),
{
    if files.len() > 0 {
        let init = files.drop_last();
        lemma_file_at_range(init, path);
        lemma_path_absent(init, path);
        assert forall|i: int| 0 <= i < files.len() implies !path::same_path(
            (#[trigger] files[i]).path,
            path,
        ) by {
            if i < init.len() {
                assert(files[i] == init[i]);
            }
        }
    }
}

proof fn lemma_insert_ascends(files: Seq<FileView>, file: FileView)
    requires
        paths_ascend(files),
        forall|i: int| 0 <= i < files.len() ==> !path::same_path((#[trigger] files[i]).path, file.path),
    ensures
        paths_ascend(order::insert_by(files, file, project::by_path())),
    decreases files.len(),
{
    let le = project::by_path();
    let r = order::insert_by(files, file, le);
    path::lemma_path_le_orders();
    assert(order::orders(le));
    assert(order::in_order(files, le));
    order::lemma_insert_in_order(files, file, le);
    let init = files.drop_last();
    if files.len() > 0 && !le(files.last(), file) {
        assert(paths_ascend(init)) by {
            assert forall|i: int, j: int| 0 <= i < j < init.len() implies path::path_le(
                (#[trigger] init[i]).path,
                (#[trigger] init[j]).path,
            ) && !path::same_path(init[i].path, init[j].path) by {
                assert(path::path_le(files[i].path, files[j].path));
            }
        }
        assert forall|i: int| 0 <= i < init.len() implies !path::same_path(
            (#[trigger] init[i]).path,
            file.path,
        ) by {
            assert(init[i] == files[i]);
        }
        lemma_insert_ascends(init, file);
        order::lemma_insert_members(init, file, le);
    }
    assert forall|i: int, j: int| 0 <= i < j < r.len() implies path::path_le(
        (#[trigger] r[i]).path,
        (#[trigger] r[j]).path,
    ) && !path::same_path(r[i].path, r[j].path) by {
        assert(le(r[i], r[j]));
        if files.len() == 0 || le(files.last(), file) {
            assert(r[i] == files[i]);
            if j < files.len() {
                assert(r[j] == files[j]);
            }
        } else {
            let head = order::insert_by(init, file, le);
            let last = files[files.len() - 1];
            assert(r[i] == head[i]);
            if j < head.len() {
                assert(r[j] == head[j]);
            } else {
                assert(r[j] == last);
                if head[i] != file {
                    let k = choose|k: int| 0 <= k < init.len() && init[k] == head[i];
                    assert(files[k] == r[i]);
                }
            }
        }
    }
}

/// Files whose paths ascend still ascend after bytes were put at a path.
pub proof fn law_paths_stay_ascending(files: Seq<FileView>, path: Text, bytes: Seq<u8>)
    requires
        paths_ascend(files),
    ensures
        paths_ascend(upserted(files, path, bytes)),
{
    let k = file_at(files, path);
    lemma_file_at_range(files, path);
    if k < files.len() {
        let changed = upserted(files, path, bytes);
        assert forall|i: int, j: int| 0 <= i < j < changed.len() implies path::path_le(
            (#[trigger] changed[i]).path,
            (#[trigger] changed[j]).path,
        ) && !path::same_path(changed[i].path, changed[j].path) by {
            assert(path::path_le(files[i].path, files[j].path));
        }
    } else {
        let file = FileView { path, bytes };
        let le = project::by_path();
        assert(files.push(file).drop_last() =~= files);
        assert forall|i: int, j: int| 0 <= i < j < files.len() implies le(
            #[trigger] files[i],
            #[trigger] files[j],
        ) by {}
        order::lemma_sorted_stays(files, le);
        lemma_path_absent(files, path);
        lemma_insert_ascends(files, file);
    }
}

// ---------------------------------------------------------------------------------------------
// The open project
// ---------------------------------------------------------------------------------------------

/// Where an open project comes from.
#[derive(Clone, Debug)]
pub enum ProjectSource {
    Directory { root: String },
    Image { path: String },
}

/// The content of a [`ProjectSource`].
pub enum SourceView {
    Directory { root: Text },
    Image { path: Text },
}

impl View for ProjectSource {
    type V = SourceView;

    open spec fn view(&self) -> SourceView {
        match self {
            ProjectSource::Directory { root } => SourceView::Directory { root: root@ },
            ProjectSource::Image { path } => SourceView::Image { path: path@ },
        }
    }
}

/// A file that is being edited.
#[derive(Clone, Debug)]
pub struct EditorTab {
    pub title: String,
    pub relative_path: String,
    pub absolute_path: Option<String>,
    pub buffer: String,
    pub dirty: bool,
}

/// The content of an [`EditorTab`].
#[verifier::ext_equal]
pub struct TabView {
    pub title: Text,
    pub relative_path: Text,
    pub absolute_path: Option<Text>,
    pub buffer: Text,
    pub dirty: bool,
}

impl View for EditorTab {
    type V = TabView;

    open spec fn view(&self) -> TabView {
        TabView {
            title: self.title@,
            relative_path: self.relative_path@,
            absolute_path: text::opt_view(self.absolute_path),
            buffer: self.buffer@,
            dirty: self.dirty,
        }
    }
}

/// A project that is open in the editor.
#[derive(Debug)]
pub struct OpenProject {
    pub title: String,
    pub source: ProjectSource,
    pub project: LoadedProject,
    pub explorer: Vec<ExplorerNode>,
    pub selected_key: Option<String>,
    pub open_tabs: Vec<EditorTab>,
    pub active_tab: Option<usize>,
}

/// The content of an [`OpenProject`].
#[verifier::ext_equal]
pub struct OpenView {
    pub title: Text,
    pub source: SourceView,
    pub files: Seq<FileView>,
    pub explorer: Seq<ExplorerView>,
    pub selected_key: Option<Text>,
    pub tabs: Seq<TabView>,
    pub active: Option<usize>,
}

impl View for OpenProject {
    type V = OpenView;

    open spec fn view(&self) -> OpenView {
        OpenView {
            title: self.title@,
            source: self.source@,
            files: self.project@,
            explorer: text::views(self.explorer@),
            selected_key: text::opt_view(self.selected_key),
            tabs: text::views(self.open_tabs@),
            active: self.active_tab,
        }
    }
}

impl OpenView {
    /// The active tab is one of the open ones, and no two tabs edit the same file.
    pub open spec fn wf(self) -> bool {
        &&& self.active matches Some(k) ==> k < self.tabs.len()
        &&& forall|i: int, j: int|
            #![trigger self.tabs[i], self.tabs[j]]
            0 <= i < j < self.tabs.len() ==> !path::same_path(
                self.tabs[i].relative_path,
                self.tabs[j].relative_path,
            )
    }
}

/// The path of a file outside the project, where the project is a folder.
pub open spec fn absolute(source: SourceView, path: Text) -> Option<Text> {
    match source {
        SourceView::Directory { root } => Some(path::extended(root, path)),
        SourceView::Image { .. } => None,
    }
}

/// A name, or a stand-in where there is none.
pub open spec fn name_or(name: Option<Text>, fallback: Text) -> Text {
    match name {
        Some(name) => name,
        None => fallback,
    }
}

fn or_fallback(name: Option<String>, fallback: &str) -> (r: String)
    ensures
        r@ == name_or(text::opt_view(name), fallback@),
{
    match name {
        Some(name) => name,
        None => fallback.to_owned(),
    }
}

/// A project as it is when it was just opened.
pub open spec fn opened(title: Text, source: SourceView, files: Seq<FileView>) -> Result<
    OpenView,
    Text,
> {
    match explorer::explorer_of(files) {
        Ok(explorer) => Ok(
            OpenView {
                title,
                source,
                files,
                explorer,
                selected_key: None,
                tabs: Seq::empty(),
                active: None,
            },
        ),
        Err(message) => Err(message),
    }
}

/// The position of the tab of a file, or the number of tabs.
pub open spec fn tab_at(tabs: Seq<TabView>, path: Text) -> int
    decreases tabs.len(),
{
    if tabs.len() == 0 {
        0
    } else {
        let k = tab_at(tabs.drop_last(), path);
        if k < tabs.len() - 1 {
            k
        } else if path::same_path(tabs.last().relative_path, path) {
            tabs.len() - 1
        } else {
            tabs.len() as int
        }
    }
}

/// The tab of a file that was just opened.
pub open spec fn fresh_tab(source: SourceView, file: FileView, path: Text) -> TabView {
    TabView {
        title: name_or(path::name_of(file.path), "script"@),
        relative_path: file.path,
        absolute_path: absolute(source, path),
        buffer: text::lossy_text(file.bytes),
        dirty: false,
    }
}

/// The project after a file was opened: its tab is the active one. A path that names no file
/// changes nothing.
pub open spec fn with_tab(open: OpenView, path: Text) -> OpenView {
    let k = tab_at(open.tabs, path);
    let f = file_at(open.files, path);
    if k < open.tabs.len() {
        OpenView { active: Some(k as usize), ..open }
    } else if f < open.files.len() {
        OpenView {
            tabs: open.tabs.push(fresh_tab(open.source, open.files[f], path)),
            active: Some(open.tabs.len() as usize),
            ..open
        }
    } else {
        open
    }
}

/// Files after the buffers of tabs were put into them.
pub open spec fn synced(files: Seq<FileView>, tabs: Seq<TabView>) -> Seq<FileView>
    decreases tabs.len(),
{
    if tabs.len() == 0 {
        files
    } else {
        upserted(
            synced(files, tabs.drop_last()),
            tabs.last().relative_path,
            vstd::utf8::encode_utf8(tabs.last().buffer),
        )
    }
}

/// A tab without unsaved changes.
pub open spec fn clean(tab: TabView) -> TabView {
    TabView { dirty: false, ..tab }
}

/// The project after the buffers of all tabs were put into its files.
pub open spec fn all_synced(open: OpenView) -> OpenView {
    OpenView {
        files: synced(open.files, open.tabs),
        tabs: open.tabs.map_values(|tab: TabView| clean(tab)),
        ..open
    }
}

/// The active tab after a tab was closed and others are left: the one that was active, or the
/// neighbour of the closed one.
pub open spec fn active_after_close(active: Option<usize>, closed: int, left: int) -> Option<
    usize,
> {
    match active {
        Some(_) if left == 0 => None,
        Some(k) if k == closed => Some((if closed < left { closed } else { left - 1 }) as usize),
        Some(k) if k > closed => Some((k - 1) as usize),
        other => other,
    }
}

/// The project after a tab was closed.
pub open spec fn without_tab(open: OpenView, closed: int) -> OpenView {
    OpenView {
        tabs: open.tabs.remove(closed),
        active: active_after_close(open.active, closed, open.tabs.len() - 1),
        ..open
    }
}

/// A place where a script can be added.
#[derive(Clone, Debug)]
pub struct AddTarget {
    pub label: String,
    pub container_path: Vec<String>,
}

/// What is asked before a script is added.
#[derive(Clone, Debug)]
pub struct AddScriptDialog {
    pub target_label: String,
    pub container_path: Vec<String>,
    pub kind: ScriptKind,
    pub name: String,
}

/// The place where a script is added unless another is named: that of the selected node.
pub open spec fn add_target(open: OpenView) -> (Text, Seq<Text>) {
    let fallback = ("Workspace"@, seq!["Workspace"@]);
    match open.selected_key {
        Some(key) => match explorer::find_key(open.explorer, key) {
            Some(node) => (explorer::label_of(node), node.container_path),
            None => fallback,
        },
        None => fallback,
    }
}

/// What a new script holds.
pub open spec fn template_of(kind: ScriptKind) -> Text {
    match kind {
        ScriptKind::ModuleScript => "local module = {}\n\nreturn module\n"@,
        ScriptKind::ServerScript => "print(\"server script booted\")\n"@,
        ScriptKind::LegacyScript => "print(\"server script booted\")\n"@,
        ScriptKind::LocalScript => "print(\"client script booted\")\n"@,
        ScriptKind::ClientScript => "print(\"client script booted\")\n"@,
    }
}

/// What a new script holds.
pub fn default_script_template(kind: ScriptKind) -> (r: &'static str)
    ensures
        r@ == template_of(kind),
{
    match kind {
        ScriptKind::ModuleScript => "local module = {}\n\nreturn module\n",
        ScriptKind::ServerScript => "print(\"server script booted\")\n",
        ScriptKind::LegacyScript => "print(\"server script booted\")\n",
        ScriptKind::LocalScript => "print(\"client script booted\")\n",
        ScriptKind::ClientScript => "print(\"client script booted\")\n",
    }
}

/// What the file name of a script ends in.
pub open spec fn kind_ending(kind: ScriptKind) -> Text {
    match kind {
        ScriptKind::ModuleScript => ".luau"@,
        ScriptKind::ServerScript => ".server.luau"@,
        ScriptKind::LocalScript => ".client.luau"@,
        ScriptKind::ClientScript => ".client.luau"@,
        ScriptKind::LegacyScript => ".legacy.luau"@,
    }
}

fn ending_of(kind: ScriptKind) -> (r: &'static str)
    ensures
        r@ == kind_ending(kind),
{
    match kind {
        ScriptKind::ModuleScript => ".luau",
        ScriptKind::ServerScript => ".server.luau",
        ScriptKind::LocalScript => ".client.luau",
        ScriptKind::ClientScript => ".client.luau",
        ScriptKind::LegacyScript => ".legacy.luau",
    }
}

/// The path of a new script.
pub open spec fn added_path(container: Seq<Text>, kind: ScriptKind, name: Text) -> Text {
    path::extended(path::extended_all(text::blank(), container), text::trim(name) + kind_ending(kind))
}

/// The path of the script that is added, where none of that path exists.
pub open spec fn added(
    files: Seq<FileView>,
    container: Seq<Text>,
    kind: ScriptKind,
    name: Text,
) -> Result<Text, Text> {
    let path = added_path(container, kind, name);
    if text::trim(name).len() == 0 {
        Err("Script name cannot be empty"@)
    } else if file_at(files, path) < files.len() {
        Err(path + " already exists"@)
    } else {
        Ok(path)
    }
}

/// Bytes that are to be written to a file; there is no place for those of an image's files.
#[derive(Debug)]
pub struct PendingWrite {
    pub relative_path: String,
    pub destination: Option<String>,
    pub bytes: Vec<u8>,
}

/// The content of a [`PendingWrite`].
#[verifier::ext_equal]
pub struct PendingView {
    pub relative_path: Text,
    pub destination: Option<Text>,
    pub bytes: Seq<u8>,
}

impl View for PendingWrite {
    type V = PendingView;

    open spec fn view(&self) -> PendingView {
        PendingView {
            relative_path: self.relative_path@,
            destination: text::opt_view(self.destination),
            bytes: self.bytes@,
        }
    }
}

/// What saving a project writes: each file to its place, or the image as a whole.
#[derive(Debug)]
pub enum SavePlan {
    Files(LoadedProject),
    Image(String),
}

/// The content of a [`SavePlan`].
pub enum SaveView {
    Files(Seq<FileView>),
    Image(Text),
}

impl View for SavePlan {
    type V = SaveView;

    open spec fn view(&self) -> SaveView {
        match self {
            SavePlan::Files(files) => SaveView::Files(files@),
            SavePlan::Image(path) => SaveView::Image(path@),
        }
    }
}

/// Files at their paths below a folder.
pub open spec fn files_below(files: Seq<FileView>, root: Text) -> Seq<FileView> {
    files.map_values(
        |file: FileView| FileView { path: path::extended(root, file.path), bytes: file.bytes },
    )
}

/// What saving a project writes.
pub open spec fn saved(open: OpenView) -> SaveView {
    match open.source {
        SourceView::Directory { root } => SaveView::Files(files_below(open.files, root)),
        SourceView::Image { path } => SaveView::Image(path),
    }
}

/// The project after the outcome of saving a tab is known, and the words that report it.
pub open spec fn tab_saved(open: OpenView, index: int, written: Result<(), Text>) -> (
    OpenView,
    Text,
) {
    let tab = open.tabs[index];
    let cleaned = OpenView { tabs: open.tabs.update(index, clean(tab)), ..open };
    match tab.absolute_path {
        None => (cleaned, "Updated "@ + tab.relative_path + " in-memory."@),
        Some(path) => match written {
            Ok(_) => (cleaned, "Saved "@ + path),
            Err(error) => (open, "Could not save "@ + path + ": "@ + error),
        },
    }
}

/// What comes of a write, by the words of its error.
pub open spec fn written_view(r: Result<(), String>) -> Result<(), Text> {
    match r {
        Ok(_) => Ok(()),
        Err(error) => Err(error@),
    }
}

proof fn lemma_tab_at_range(tabs: Seq<TabView>, path: Text)
    ensures
        0 <= tab_at(tabs, path) <= tabs.len(),
        tab_at(tabs, path) == tabs.len() ==> forall|i: int|
            0 <= i < tabs.len() ==> !path::same_path((#[trigger] tabs[i]).relative_path, path),
    decreases tabs.len(),
{
    if tabs.len() > 0 {
        lemma_tab_at_range(tabs.drop_last(), path);
        if tab_at(tabs, path) == tabs.len() {
            assert forall|i: int| 0 <= i < tabs.len() implies !path::same_path(
                (#[trigger] tabs[i]).relative_path,
                path,
            ) by {
                if i < tabs.len() - 1 {
                    assert(tabs[i] == tabs.drop_last()[i]);
                }
            }
        }
    }
}

proof fn lemma_tab_at_stays(tabs: Seq<TabView>, path: Text, k: int, n: int)
    requires
        0 <= k < n <= tabs.len(),
        tab_at(tabs.take(n), path) == k,
    ensures
        tab_at(tabs, path) == k,
    decreases tabs.len() - n,
{
    if n == tabs.len() {
        assert(tabs.take(n) =~= tabs);
    } else {
        assert(tabs.take(n + 1).drop_last() =~= tabs.take(n));
        lemma_tab_at_stays(tabs, path, k, n + 1);
    }
}

/// The position of the tab of a file.
fn find_tab(tabs: &Vec<EditorTab>, path: &str) -> (r: Option<usize>)
    ensures
        match r {
            Some(k) => k < tabs@.len() && tab_at(text::views(tabs@), path@) == k,
            None => tab_at(text::views(tabs@), path@) == tabs@.len(),
        },
{
    let ghost all = text::views(tabs@);
    let mut i: usize = 0;
    assert(all.take(0) =~= Seq::empty());
    while i < tabs.len()
        invariant
            i <= tabs@.len(),
            all == text::views(tabs@),
            tab_at(all.take(i as int), path@) == i,
        decreases tabs@.len() - i,
    {
        assert(all.take(i + 1).drop_last() =~= all.take(i as int));
        assert(all.take(i + 1).last() == tabs@[i as int]@);
        if path_eq(tabs[i].relative_path.as_str(), path) {
            proof {
                lemma_tab_at_stays(all, path@, i as int, i + 1);
            }
            return Some(i);
        }
        i += 1;
    }
    assert(all.take(i as int) =~= all);
    None
}

/// A project that was opened or could not be, by its views.
pub open spec fn open_outcome(r: Result<OpenProject, Error>) -> Result<OpenView, Text> {
    match r {
        Ok(open) => Ok(open@),
        Err(error) => Err(error@),
    }
}

fn open_project(title: String, source: ProjectSource, project: LoadedProject) -> (r: Result<
    OpenProject,
    Error,
>)
    ensures
        open_outcome(r) == opened(title@, source@, project@),
        r matches Ok(open) ==> open@.wf(),
{
    match build_explorer(&project) {
        Ok(explorer) => {
            let open = OpenProject {
                title,
                source,
                project,
                explorer,
                selected_key: None,
                open_tabs: Vec::new(),
                active_tab: None,
            };
            assert(open@.tabs =~= Seq::empty());
            Ok(open)
        },
        Err(error) => Err(error),
    }
}

impl OpenProject {
    /// The project of a folder, as it was read.
    pub fn from_directory(root: String, project: LoadedProject) -> (r: Result<OpenProject, Error>)
        ensures
            open_outcome(r) == opened(
                name_or(path::name_of(root@), "project"@),
                SourceView::Directory { root: root@ },
                project@,
            ),
            r matches Ok(open) ==> open@.wf(),
    {
        let title = or_fallback(file_name(root.as_str()), "project");
        open_project(title, ProjectSource::Directory { root }, project)
    }

    /// The project of an image, as it was read.
    pub fn from_image(path: String, project: LoadedProject) -> (r: Result<OpenProject, Error>)
        ensures
            open_outcome(r) == opened(
                name_or(path::name_of(path@), "image"@),
                SourceView::Image { path: path@ },
                project@,
            ),
            r matches Ok(open) ==> open@.wf(),
    {
        let title = or_fallback(file_name(path.as_str()), "image");
        open_project(title, ProjectSource::Image { path }, project)
    }

    /// A line on where the project comes from.
    pub fn subtitle(&self) -> (r: String)
        ensures
            r@ == (match self@.source {
                SourceView::Directory { root } => "Folder-backed: "@ + root,
                SourceView::Image { path } => "Image-backed: "@ + path + " (opened in-memory)"@,
            }),
    {
        match &self.source {
            ProjectSource::Directory { root } => concat2("Folder-backed: ", root.as_str()),
            ProjectSource::Image { path } => concat3(
                "Image-backed: ",
                path.as_str(),
                " (opened in-memory)",
            ),
        }
    }

    /// The tab that is being edited.
    pub fn active_tab(&self) -> (r: Option<&EditorTab>)
        ensures
            match r {
                Some(tab) => self@.active matches Some(k) && k < self@.tabs.len() && tab@
                    == self@.tabs[k as int],
                None => self@.active matches Some(k) ==> k >= self@.tabs.len(),
            },
    {
        match self.active_tab {
            Some(k) => if k < self.open_tabs.len() {
                Some(&self.open_tabs[k])
            } else {
                None
            },
            None => None,
        }
    }

    /// The path that the active tab can be opened at by another program.
    pub fn active_path(&self) -> (r: Result<String, Error>)
        ensures
            error::res_view(r) == (match self@.active {
                Some(k) if k < self@.tabs.len() => match self@.tabs[k as int].absolute_path {
                    Some(path) => Ok::<Text, Text>(path),
                    None => Err(
                        "Open in VS Code is only available for folder-backed scripts."@,
                    ),
                },
                _ => Err("Open a script tab first."@),
            }),
    {
        match self.active_tab() {
            Some(tab) => match &tab.absolute_path {
                Some(path) => Ok(path.as_str().to_owned()),
                None => Err(
                    failure("Open in VS Code is only available for folder-backed scripts."),
                ),
            },
            None => Err(failure("Open a script tab first.")),
        }
    }

    /// The path of a file outside the project, where the project is a folder.
    pub fn absolute_path(&self, relative_path: &str) -> (r: Option<String>)
        ensures
            text::opt_view(r) == absolute(self@.source, relative_path@),
    {
        match &self.source {
            ProjectSource::Directory { root } => Some(extend_path(root.as_str(), relative_path)),
            ProjectSource::Image { .. } => None,
        }
    }

    /// Opens a file, or goes to its tab.
    pub fn open_tab(&mut self, relative_path: &str)
        requires
            old(self)@.wf(),
        ensures
            final(self)@ == with_tab(old(self)@, relative_path@),
            final(self)@.wf(),
    {
        let ghost before = self@;
        proof {
            lemma_tab_at_range(before.tabs, relative_path@);
            lemma_file_at_range(before.files, relative_path@);
        }
        if let Some(k) = find_tab(&self.open_tabs, relative_path) {
            self.active_tab = Some(k);
            return;
        }
        if let Some(f) = find_file(&self.project.files, relative_path) {
            let file = &self.project.files[f];
            let tab = EditorTab {
                title: or_fallback(file_name(file.relative_path.as_str()), "script"),
                relative_path: file.relative_path.as_str().to_owned(),
                absolute_path: self.absolute_path(relative_path),
                buffer: decode_lossy(file.bytes.as_slice()),
                dirty: false,
            };
            assert(tab@ == fresh_tab(before.source, before.files[f as int], relative_path@));
            let at: usize = self.open_tabs.len();
            proof {
                text::lemma_views_push(self.open_tabs@, tab);
            }
            self.open_tabs.push(tab);
            self.active_tab = Some(at);
        }
    }

    /// Selects a node of the explorer, and opens its file where it has one.
    pub fn select(&mut self, key: &str, relative_path: &Option<String>)
        requires
            old(self)@.wf(),
        ensures
            final(self)@ == ({
                let selected = OpenView { selected_key: Some(key@), ..old(self)@ };
                match relative_path {
                    Some(path) => with_tab(selected, path@),
                    None => selected,
                }
            }),
            final(self)@.wf(),
    {
        self.selected_key = Some(key.to_owned());
        match relative_path {
            Some(path) => self.open_tab(path.as_str()),
            None => {},
        }
    }

    /// Goes to a tab.
    pub fn activate_tab(&mut self, index: usize)
        requires
            old(self)@.wf(),
            index < old(self)@.tabs.len(),
        ensures
            final(self)@ == (OpenView { active: Some(index), ..old(self)@ }),
            final(self)@.wf(),
    {
        self.active_tab = Some(index);
    }

    /// What a tab is labelled with: its title, marked where it has unsaved changes.
    pub fn tab_label(&self, index: usize) -> (r: String)
        requires
            index < self@.tabs.len(),
        ensures
            r@ == (if self@.tabs[index as int].dirty {
                self@.tabs[index as int].title + " *"@
            } else {
                self@.tabs[index as int].title
            }),
    {
        let tab = &self.open_tabs[index];
        if tab.dirty {
            concat2(tab.title.as_str(), " *")
        } else {
            tab.title.as_str().to_owned()
        }
    }

    /// Sets the text of a tab.
    pub fn edit_tab(&mut self, index: usize, buffer: String)
        requires
            old(self)@.wf(),
            index < old(self)@.tabs.len(),
        ensures
            final(self)@ == (OpenView {
                tabs: old(self)@.tabs.update(
                    index as int,
                    (TabView { buffer: buffer@, dirty: true, ..old(self)@.tabs[index as int] }),
                ),
                ..old(self)@
            }),
            final(self)@.wf(),
    {
        let ghost before = self@;
        let ghost words = buffer@;
        self.open_tabs[index].buffer = buffer;
        self.open_tabs[index].dirty = true;
        assert(self@.tabs =~= before.tabs.update(
            index as int,
            TabView { buffer: words, dirty: true, ..before.tabs[index as int] },
        ));
    }

    /// Closes a tab.
    pub fn close_tab(&mut self, index: usize)
        requires
            old(self)@.wf(),
            index < old(self)@.tabs.len(),
        ensures
            final(self)@ == without_tab(old(self)@, index as int),
            final(self)@.wf(),
    {
        let ghost before = self@;
        let _ = self.open_tabs.remove(index);
        assert(self@.tabs =~= before.tabs.remove(index as int));
        let left: usize = self.open_tabs.len();
        match self.active_tab {
            Some(active) => {
                if left == 0 {
                    self.active_tab = None;
                } else if active == index {
                    self.active_tab = Some(if index < left {
                        index
                    } else {
                        left - 1
                    });
                } else if active > index {
                    self.active_tab = Some(active - 1);
                }
            },
            None => {},
        }
    }

    /// Puts the buffers of all tabs into the files of the project.
    pub fn sync_tabs_into_project(&mut self)
        requires
            old(self)@.wf(),
        ensures
            final(self)@ == all_synced(old(self)@),
            final(self)@.wf(),
    {
        let ghost before = self@;
        let ghost tabs = before.tabs;
        let mut i: usize = 0;
        assert(tabs.take(0) =~= Seq::empty());
        while i < self.open_tabs.len()
            invariant
                i <= tabs.len(),
                tabs == before.tabs,
                self@ == (OpenView { files: self@.files, tabs: self@.tabs, ..before }),
                self@.tabs.len() == tabs.len(),
                self@.files == synced(before.files, tabs.take(i as int)),
                forall|k: int|
                    #![trigger self@.tabs[k]]
                    0 <= k < tabs.len() ==> self@.tabs[k] == (if k < i {
                        clean(tabs[k])
                    } else {
                        tabs[k]
                    }),
            decreases tabs.len() - i,
        {
            let ghost now = self@;
            proof {
                assert(tabs.take(i + 1).drop_last() =~= tabs.take(i as int));
                assert(tabs.take(i + 1).last() == tabs[i as int]);
                assert(now.tabs[i as int] == tabs[i as int]);
            }
            let bytes = bytes_of(self.open_tabs[i].buffer.as_str());
            let path = self.open_tabs[i].relative_path.as_str().to_owned();
            upsert_project_file(&mut self.project, path.as_str(), bytes);
            self.open_tabs[i].dirty = false;
            assert(self@.tabs =~= now.tabs.update(i as int, clean(tabs[i as int])));
            i += 1;
        }
        proof {
            assert(tabs.take(i as int) =~= tabs);
            assert(self@.tabs =~= tabs.map_values(|tab: TabView| clean(tab)));
            assert forall|a: int, b: int|
                #![trigger self@.tabs[a], self@.tabs[b]]
                0 <= a < b < self@.tabs.len() implies !path::same_path(
                self@.tabs[a].relative_path,
                self@.tabs[b].relative_path,
            ) by {
                assert(!path::same_path(tabs[a].relative_path, tabs[b].relative_path));
            }
        }
    }

    /// Brings the files up to date with the tabs, and says what saving writes.
    pub fn save(&mut self) -> (r: SavePlan)
        requires
            old(self)@.wf(),
        ensures
            final(self)@ == all_synced(old(self)@),
            final(self)@.wf(),
            r@ == saved(final(self)@),
    {
        self.sync_tabs_into_project();
        match &self.source {
            ProjectSource::Directory { root } => {
                let mut files: Vec<ProjectFile> = Vec::new();
                let mut i: usize = 0;
                while i < self.project.files.len()
                    invariant
                        i <= self.project.files@.len(),
                        files@.len() == i,
                        forall|k: int|
                            0 <= k < i ==> (#[trigger] files@[k])@ == (FileView {
                                path: path::extended(root@, self.project.files@[k].relative_path@),
                                bytes: self.project.files@[k].bytes@,
                            }),
                    decreases self.project.files@.len() - i,
                {
                    let file = &self.project.files[i];
                    files.push(
                        ProjectFile {
                            relative_path: extend_path(
                                root.as_str(),
                                file.relative_path.as_str(),
                            ),
                            bytes: copy_bytes(file.bytes.as_slice()),
                        },
                    );
                    i += 1;
                }
                let plan = LoadedProject { files };
                assert(plan@ =~= files_below(self@.files, root@));
                SavePlan::Files(plan)
            },
            ProjectSource::Image { path } => SavePlan::Image(path.as_str().to_owned()),
        }
    }

    /// The words that report that the project was saved.
    pub fn saved_message(&self) -> (r: String)
        ensures
            r@ == (match self@.source {
                SourceView::Directory { root } => "Saved project files to "@ + root,
                SourceView::Image { path } => "Saved image "@ + path,
            }),
    {
        match &self.source {
            ProjectSource::Directory { root } => concat2("Saved project files to ", root.as_str()),
            ProjectSource::Image { path } => concat2("Saved image ", path.as_str()),
        }
    }

    /// The name that an image of the project is offered under.
    pub fn default_image_name(&self) -> (r: String)
        ensures
            r@ == (match self@.source {
                SourceView::Directory { root } => name_or(path::name_of(root), "project"@)
                    + ".rleimg"@,
                SourceView::Image { path } => name_or(path::name_of(path), "project.rleimg"@),
            }),
    {
        match &self.source {
            ProjectSource::Directory { root } => concat2(
                or_fallback(file_name(root.as_str()), "project").as_str(),
                ".rleimg",
            ),
            ProjectSource::Image { path } => or_fallback(
                file_name(path.as_str()),
                "project.rleimg",
            ),
        }
    }

    /// The name that an exported place is offered under.
    pub fn default_rbxlx_name(&self) -> (r: String)
        ensures
            r@ == (match self@.source {
                SourceView::Directory { root } => name_or(path::name_of(root), "project"@)
                    + ".rbxlx"@,
                SourceView::Image { path } => name_or(path::stem_of(path), "project"@) + ".rbxlx"@,
            }),
    {
        match &self.source {
            ProjectSource::Directory { root } => concat2(
                or_fallback(file_name(root.as_str()), "project").as_str(),
                ".rbxlx",
            ),
            ProjectSource::Image { path } => concat2(
                or_fallback(file_stem(path.as_str()), "project").as_str(),
                ".rbxlx",
            ),
        }
    }

    /// The place where a script is added unless another is named.
    pub fn default_add_target(&self) -> (r: AddTarget)
        ensures
            (r.label@, text::views(r.container_path@)) == add_target(self@),
    {
        if let Some(key) = &self.selected_key {
            if let Some(node) = find_node_by_key(&self.explorer, key.as_str()) {
                return AddTarget {
                    label: node.tree_label(),
                    container_path: copy_texts(&node.container_path),
                };
            }
        }
        let mut container_path: Vec<String> = Vec::new();
        container_path.push("Workspace".to_owned());
        assert(text::views(container_path@) =~= seq!["Workspace"@]);
        AddTarget { label: "Workspace".to_owned(), container_path }
    }

    /// What is first asked before a script is added.
    pub fn add_script_dialog(&self) -> (r: AddScriptDialog)
        ensures
            (r.target_label@, text::views(r.container_path@)) == add_target(self@),
            r.kind == ScriptKind::ModuleScript,
            r.name@ == "NewScript"@,
    {
        let target = self.default_add_target();
        AddScriptDialog {
            target_label: target.label,
            container_path: target.container_path,
            kind: ScriptKind::ModuleScript,
            name: "NewScript".to_owned(),
        }
    }

    /// Adds a script to the files of the project and says what is to be written. The explorer shows
    /// it once [`OpenProject::finish_add_script`] was told that it was.
    pub fn add_script(&mut self, container_path: &Vec<String>, kind: ScriptKind, name: &str) -> (r:
        Result<PendingWrite, Error>)
        ensures
            match added(old(self)@.files, text::views(container_path@), kind, name@) {
                Ok(path) => {
                    let content = vstd::utf8::encode_utf8(template_of(kind));
                    &&& error::res_view(r) == Ok::<PendingView, Text>(
                        PendingView {
                            relative_path: path,
                            destination: absolute(old(self)@.source, path),
                            bytes: content,
                        },
                    )
                    &&& final(self)@ == (OpenView {
                        files: upserted(old(self)@.files, path, content),
                        ..old(self)@
                    })
                },
                Err(message) => {
                    &&& error::res_view(r) == Err::<PendingView, Text>(message)
                    &&& final(self)@ == old(self)@
                },
            },
    {
        let plain = trimmed(name);
        proof {
            reveal_strlit("");
            assert(plain@.len() == 0 ==> plain@ =~= ""@);
        }
        if text_eq(plain.as_str(), "") {
            return Err(failure("Script name cannot be empty"));
        }
        let filename = concat2(plain.as_str(), ending_of(kind));
        let folder = extend_path_all("", container_path);
        proof {
            assert(""@ =~= text::blank());
            lemma_file_at_range(self@.files, added_path(text::views(container_path@), kind, name@));
        }
        let relative_path = extend_path(folder.as_str(), filename.as_str());
        if find_file(&self.project.files, relative_path.as_str()).is_some() {
            return Err(failure(concat2(relative_path.as_str(), " already exists").as_str()));
        }
        let template = default_script_template(kind);
        let destination = self.absolute_path(relative_path.as_str());
        upsert_project_file(&mut self.project, relative_path.as_str(), bytes_of(template));
        Ok(PendingWrite { relative_path, destination, bytes: bytes_of(template) })
    }

    /// Shows and selects a script that was added, once it is known what came of writing it.
    pub fn finish_add_script(&mut self, relative_path: &str, written: Result<(), String>) -> (r:
        Result<(), Error>)
        ensures
            match (written_view(written), explorer::explorer_of(old(self)@.files)) {
                (Err(error), _) => {
                    &&& error::unit_view(r) == Err::<(), Text>("I/O error: "@ + error)
                    &&& final(self)@ == old(self)@
                },
                (Ok(_), Err(message)) => {
                    &&& error::unit_view(r) == Err::<(), Text>(message)
                    &&& final(self)@ == old(self)@
                },
                (Ok(_), Ok(explorer)) => {
                    &&& r is Ok
                    &&& final(self)@ == (OpenView {
                        explorer,
                        selected_key: Some(explorer::script_key(relative_path@)),
                        ..old(self)@
                    })
                },
            },
    {
        match written {
            Err(error) => Err(failure(concat2("I/O error: ", error.as_str()).as_str())),
            Ok(_) => match build_explorer(&self.project) {
                Err(error) => Err(error),
                Ok(explorer) => {
                    self.explorer = explorer;
                    self.selected_key = Some(concat2("script:", relative_path));
                    Ok(())
                },
            },
        }
    }

    /// Puts the text of a tab into its file and says what is to be written. The tab counts as saved
    /// once [`OpenProject::finish_save_tab`] was told that it was.
    pub fn save_tab(&mut self, index: usize) -> (r: PendingWrite)
        requires
            old(self)@.wf(),
            index < old(self)@.tabs.len(),
        ensures
            ({
                let tab = old(self)@.tabs[index as int];
                let content = vstd::utf8::encode_utf8(tab.buffer);
                &&& r@ == (PendingView {
                    relative_path: tab.relative_path,
                    destination: tab.absolute_path,
                    bytes: content,
                })
                &&& final(self)@ == (OpenView {
                    files: upserted(old(self)@.files, tab.relative_path, content),
                    ..old(self)@
                })
            }),
            final(self)@.wf(),
    {
        let relative_path = self.open_tabs[index].relative_path.as_str().to_owned();
        let destination = copy_opt_text(&self.open_tabs[index].absolute_path);
        let bytes = bytes_of(self.open_tabs[index].buffer.as_str());
        upsert_project_file(
            &mut self.project,
            relative_path.as_str(),
            copy_bytes(bytes.as_slice()),
        );
        PendingWrite { relative_path, destination, bytes }
    }

    /// Marks a tab as saved where it was, and gives the words that report what came of it.
    pub fn finish_save_tab(&mut self, index: usize, written: Result<(), String>) -> (r: String)
        requires
            old(self)@.wf(),
            index < old(self)@.tabs.len(),
        ensures
            (final(self)@, r@) == tab_saved(old(self)@, index as int, written_view(written)),
            final(self)@.wf(),
    {
        let ghost before = self@;
        let destination = copy_opt_text(&self.open_tabs[index].absolute_path);
        match destination {
            None => {
                let message = concat3(
                    "Updated ",
                    self.open_tabs[index].relative_path.as_str(),
                    " in-memory.",
                );
                self.open_tabs[index].dirty = false;
                assert(self@.tabs =~= before.tabs.update(
                    index as int,
                    clean(before.tabs[index as int]),
                ));
                message
            },
            Some(path) => match written {
                Ok(_) => {
                    self.open_tabs[index].dirty = false;
                    assert(self@.tabs =~= before.tabs.update(
                        index as int,
                        clean(before.tabs[index as int]),
                    ));
                    concat2("Saved ", path.as_str())
                },
                Err(error) => {
                    let head = concat3("Could not save ", path.as_str(), ": ");
                    concat2(head.as_str(), error.as_str())
                },
            },
        }
    }
}

// ---------------------------------------------------------------------------------------------
// What holds of the open project
// ---------------------------------------------------------------------------------------------

proof fn lemma_synced_reads(files: Seq<FileView>, tabs: Seq<TabView>, i: int)
    requires
        0 <= i < tabs.len(),
        forall|a: int, b: int|
            #![trigger tabs[a], tabs[b]]
            0 <= a < b < tabs.len() ==> !path::same_path(tabs[a].relative_path, tabs[b].relative_path),
    ensures
        content_at(synced(files, tabs), tabs[i].relative_path) == Some(
            vstd::utf8::encode_utf8(tabs[i].buffer),
        ),
    decreases tabs.len(),
{
    let before = synced(files, tabs.drop_last());
    let last = tabs.last();
    law_upsert_reads_back(
        before,
        last.relative_path,
        vstd::utf8::encode_utf8(last.buffer),
        tabs[i].relative_path,
    );
    if i < tabs.len() - 1 {
        assert(tabs.drop_last()[i] == tabs[i]);
        assert(!path::same_path(tabs[i].relative_path, tabs[tabs.len() - 1].relative_path));
        lemma_synced_reads(files, tabs.drop_last(), i);
    }
}

/// Once the tabs are put into the project, each file that is being edited holds what its tab shows,
/// and no tab has unsaved changes.
pub proof fn law_synced_files_hold_the_tabs(open: OpenView, i: int)
    requires
        open.wf(),
        0 <= i < open.tabs.len(),
    ensures
        content_at(all_synced(open).files, open.tabs[i].relative_path) == Some(
            vstd::utf8::encode_utf8(open.tabs[i].buffer),
        ),
        !all_synced(open).tabs[i].dirty,
        all_synced(open).tabs[i].buffer == open.tabs[i].buffer,
{
    lemma_synced_reads(open.files, open.tabs, i);
}

/// A script that was added holds its template, and cannot be added a second time.
pub proof fn law_added_once(
    files: Seq<FileView>,
    container: Seq<Text>,
    kind: ScriptKind,
    name: Text,
)
    requires
        added(files, container, kind, name) is Ok,
    ensures
        ({
            let path = added_path(container, kind, name);
            let content = vstd::utf8::encode_utf8(template_of(kind));
            let after = upserted(files, path, content);
            &&& content_at(files, path) is None
            &&& content_at(after, path) == Some(content)
            &&& added(after, container, kind, name) == Err::<Text, Text>(path + " already exists"@)
        }),
{
    let path = added_path(container, kind, name);
    let content = vstd::utf8::encode_utf8(template_of(kind));
    law_upsert_reads_back(files, path, content, path);
    lemma_file_at_range(files, path);
    lemma_file_at_range(upserted(files, path, content), path);
}

/// Opening a file twice opens one tab, and opening an open file only goes to it.
pub proof fn law_one_tab_for_a_file(open: OpenView, path: Text)
    requires
        open.wf(),
    ensures
        with_tab(with_tab(open, path), path) == with_tab(open, path),
        with_tab(open, path).tabs.len() <= open.tabs.len() + 1,
{
    lemma_tab_at_range(open.tabs, path);
    lemma_file_at_range(open.files, path);
    let k = tab_at(open.tabs, path);
    let f = file_at(open.files, path);
    let after = with_tab(open, path);
    if k == open.tabs.len() && f < open.files.len() {
        assert(after.tabs.drop_last() =~= open.tabs);
        assert(tab_at(after.tabs, path) == open.tabs.len());
    }
}

/// Closing a tab that was just opened gives back the tabs that were open.
pub proof fn law_close_undoes_open(open: OpenView, path: Text)
    requires
        open.wf(),
        with_tab(open, path).tabs.len() > open.tabs.len(),
    ensures
        without_tab(with_tab(open, path), open.tabs.len() as int).tabs == open.tabs,
{
    lemma_tab_at_range(open.tabs, path);
    lemma_file_at_range(open.files, path);
    let after = with_tab(open, path);
    assert(after.tabs.remove(open.tabs.len() as int) =~= open.tabs);
}

/// Opening a file shows it: its tab is the active one, under the name of the file. A file that was not
/// open yet is shown as it stands in the project, without unsaved changes, and the other tabs stay as
/// they are. A path that names no file opens nothing.
pub proof fn law_opening_shows_the_file(open: OpenView, path: Text)
    requires
        open.wf(),
        open.tabs.len() < usize::MAX,
    ensures
        ({
            let after = with_tab(open, path);
            let was_open = exists|i: int|
                0 <= i < open.tabs.len() && path::components((#[trigger] open.tabs[i]).relative_path)
                    == path::components(path);
            let is_file = exists|k: int|
                0 <= k < open.files.len() && path::components((#[trigger] open.files[k]).path)
                    == path::components(path);
            &&& was_open || is_file ==> (after.active matches Some(k) && k < after.tabs.len()
                && path::components(after.tabs[k as int].relative_path) == path::components(path))
            &&& was_open || !is_file ==> after.tabs == open.tabs
            &&& !was_open && !is_file ==> after == open
            &&& !was_open && is_file ==> {
                let tab = after.tabs.last();
                &&& after.tabs.len() == open.tabs.len() + 1
                &&& after.active == Some(open.tabs.len() as usize)
                &&& after.tabs.drop_last() == open.tabs
                &&& !tab.dirty
                &&& exists|k: int|
                    0 <= k < open.files.len() && (#[trigger] open.files[k]).path == tab.relative_path
                        && tab.buffer == text::lossy_text(open.files[k].bytes)
                &&& match path::name_of(tab.relative_path) {
                    Some(name) => tab.title == name,
                    None => tab.title == "script"@,
                }
                &&& match open.source {
                    SourceView::Directory { root } => tab.absolute_path == Some(
                        path::extended(root, path),
                    ),
                    SourceView::Image { .. } => tab.absolute_path is None,
                }
            }
            &&& after == (OpenView { tabs: after.tabs, active: after.active, ..open })
        }),
{
    lemma_tab_at_range(open.tabs, path);
    lemma_tab_found(open.tabs, path);
    lemma_file_at_range(open.files, path);
    if file_at(open.files, path) == open.files.len() {
        lemma_path_absent(open.files, path);
    }
    let after = with_tab(open, path);
    let k = tab_at(open.tabs, path);
    let f = file_at(open.files, path);
    if k < open.tabs.len() {
        assert(path::components(open.tabs[k].relative_path) == path::components(path));
    } else if f < open.files.len() {
        assert(after.tabs.drop_last() =~= open.tabs);
        assert(path::components(open.files[f].path) == path::components(path));
    }
}

proof fn lemma_tab_found(tabs: Seq<TabView>, path: Text)
    ensures
        tab_at(tabs, path) < tabs.len() ==> path::same_path(
            tabs[tab_at(tabs, path)].relative_path,
            path,
        ),
        tab_at(tabs, path) >= 0,
    decreases tabs.len(),
{
    if tabs.len() > 0 {
        lemma_tab_found(tabs.drop_last(), path);
    }
}

/// Closing a tab leaves the others in their order. A tab that was active stays active unless it is the
/// one that was closed; then a neighbour becomes active, where one is left.
pub proof fn law_closing_keeps_the_others(open: OpenView, closed: int)
    requires
        open.wf(),
        0 <= closed < open.tabs.len(),
    ensures
        ({
            let after = without_tab(open, closed);
            &&& after.tabs == open.tabs.take(closed) + open.tabs.skip(closed + 1)
            &&& open.active is None ==> after.active is None
            &&& open.active is Some && open.tabs.len() == 1 ==> after.active is None
            &&& open.active matches Some(k) ==> (open.tabs.len() > 1 ==> (after.active matches Some(now)
                && now < after.tabs.len() && (if k != closed {
                after.tabs[now as int] == open.tabs[k as int]
            } else if closed + 1 < open.tabs.len() {
                now == closed
            } else {
                now == closed - 1
            })))
            &&& after == (OpenView { tabs: after.tabs, active: after.active, ..open })
        }),
{
    let after = without_tab(open, closed);
    assert(after.tabs =~= open.tabs.take(closed) + open.tabs.skip(closed + 1));
}

/// Saving the project of a folder writes every file of it to its path below the folder, the files that
/// are being edited as their tabs show them; saving the project of an image writes the image.
pub proof fn law_saving_writes_everything(open: OpenView)
    requires
        open.wf(),
    ensures
        match (open.source, saved(all_synced(open))) {
            (SourceView::Directory { root }, SaveView::Files(written)) => {
                &&& written.len() == all_synced(open).files.len()
                &&& forall|k: int|
                    0 <= k < written.len() ==> (#[trigger] written[k]).bytes == all_synced(
                        open,
                    ).files[k].bytes && written[k].path == path::extended(
                        root,
                        all_synced(open).files[k].path,
                    )
                &&& forall|i: int|
                    0 <= i < open.tabs.len() ==> is_written(written, root, #[trigger] open.tabs[i])
                &&& forall|k: int|
                    0 <= k < open.files.len() ==> still_written(
                        written,
                        root,
                        open.tabs,
                        #[trigger] open.files[k].path,
                        content_at(open.files, open.files[k].path),
                    )
            },
            (SourceView::Image { path }, SaveView::Image(written)) => written == path,
            _ => false,
        },
{
    if let SourceView::Directory { root } = open.source {
        let synced_files = all_synced(open).files;
        let written = files_below(synced_files, root);
        assert forall|i: int| 0 <= i < open.tabs.len() implies is_written(
            written,
            root,
            #[trigger] open.tabs[i],
        ) by {
            let path = open.tabs[i].relative_path;
            law_synced_files_hold_the_tabs(open, i);
            lemma_file_at_range(synced_files, path);
            let k = file_at(synced_files, path);
            assert(written[k].bytes == vstd::utf8::encode_utf8(open.tabs[i].buffer));
            assert(reads_as(written[k], root, synced_files[k].path, path));
        }
        assert forall|k: int| 0 <= k < open.files.len() implies still_written(
            written,
            root,
            open.tabs,
            #[trigger] open.files[k].path,
            content_at(open.files, open.files[k].path),
        ) by {
            let path = open.files[k].path;
            if !has_tab(open.tabs, path) {
                lemma_synced_leaves(open.files, open.tabs, path);
                if file_at(open.files, path) == open.files.len() {
                    lemma_path_absent(open.files, path);
                }
                lemma_file_at_range(open.files, path);
                lemma_file_at_range(synced_files, path);
                let f = file_at(synced_files, path);
                assert(path::same_path(open.files[k].path, path));
                assert(reads_as(written[f], root, synced_files[f].path, path));
            }
        }
    }
}

/// Whether a file that is written below a folder is the one with the given path in the project.
pub open spec fn reads_as(file: FileView, root: Text, stored: Text, path: Text) -> bool {
    file.path == path::extended(root, stored) && path::components(stored) == path::components(path)
}

/// Whether what a tab shows is written to its file below the folder.
pub open spec fn is_written(written: Seq<FileView>, root: Text, tab: TabView) -> bool {
    exists|k: int, stored: Text|
        0 <= k < written.len() && #[trigger] reads_as(written[k], root, stored, tab.relative_path)
            && written[k].bytes == vstd::utf8::encode_utf8(tab.buffer)
}

/// Whether a tab edits the file with the given path.
pub open spec fn has_tab(tabs: Seq<TabView>, path: Text) -> bool {
    exists|i: int|
        0 <= i < tabs.len() && path::components((#[trigger] tabs[i]).relative_path) == path::components(
            path,
        )
}

/// Whether a file that no tab edits is written with what it holds.
pub open spec fn still_written(
    written: Seq<FileView>,
    root: Text,
    tabs: Seq<TabView>,
    path: Text,
    content: Option<Seq<u8>>,
) -> bool {
    !has_tab(tabs, path) ==> exists|k: int, stored: Text|
        0 <= k < written.len() && #[trigger] reads_as(written[k], root, stored, path) && content
            == Some(written[k].bytes)
}

proof fn lemma_synced_leaves(files: Seq<FileView>, tabs: Seq<TabView>, path: Text)
    requires
        !has_tab(tabs, path),
    ensures
        content_at(synced(files, tabs), path) == content_at(files, path),
    decreases tabs.len(),
{
    if tabs.len() > 0 {
        let init = tabs.drop_last();
        if has_tab(init, path) {
            let i = choose|i: int|
                0 <= i < init.len() && path::components((#[trigger] init[i]).relative_path)
                    == path::components(path);
            assert(path::components(tabs[i].relative_path) == path::components(path));
        }
        lemma_synced_leaves(files, init, path);
        let last = tabs.last();
        assert(tabs[tabs.len() - 1] == last);
        assert(!path::same_path(last.relative_path, path));
        law_upsert_reads_back(
            synced(files, init),
            last.relative_path,
            vstd::utf8::encode_utf8(last.buffer),
            path,
        );
    }
}

/// Saving a tab marks it as saved, unless it could not be written; what it shows stays as it is, and so
/// does every other tab.
pub proof fn law_saving_a_tab(open: OpenView, index: int, written: Result<(), Text>)
    requires
        0 <= index < open.tabs.len(),
    ensures
        ({
            let after = tab_saved(open, index, written).0;
            let tab = open.tabs[index];
            let lost = tab.absolute_path is Some && written is Err;
            &&& after.tabs.len() == open.tabs.len()
            &&& after.tabs[index].dirty == (lost && tab.dirty)
            &&& after.tabs[index].buffer == tab.buffer
            &&& after.tabs[index].relative_path == tab.relative_path
            &&& after.tabs[index].absolute_path == tab.absolute_path
            &&& after.tabs[index].title == tab.title
            &&& forall|i: int|
                0 <= i < open.tabs.len() && i != index ==> #[trigger] after.tabs[i] == open.tabs[i]
            &&& after == (OpenView { tabs: after.tabs, ..open })
        }),
{
}

/// The script that is added stands in its container, under its name and the ending of its kind, where
/// the container is one of names and the name has nothing but itself in it.
pub proof fn law_added_stands_in_its_container(container: Seq<Text>, kind: ScriptKind, name: Text)
    requires
        forall|i: int|
            0 <= i < container.len() ==> (#[trigger] container[i]).len() > 0 && !container[i].contains(
                '/',
            ) && container[i] != seq!['.'],
        !text::trim(name).contains('/'),
    ensures
        ({
            let ending = match kind {
                ScriptKind::ModuleScript => ".luau"@,
                ScriptKind::ServerScript => ".server.luau"@,
                ScriptKind::LegacyScript => ".legacy.luau"@,
                ScriptKind::LocalScript | ScriptKind::ClientScript => ".client.luau"@,
            };
            path::components(added_path(container, kind, name)) == container.push(
                text::trim(name) + ending,
            )
        }),
{
    reveal_strlit(".luau");
    reveal_strlit(".server.luau");
    reveal_strlit(".client.luau");
    reveal_strlit(".legacy.luau");
    let own = text::trim(name);
    let whole = own + kind_ending(kind);
    let names = container.push(whole);
    assert(kind_ending(kind).len() >= 5 && !kind_ending(kind).contains('/'));
    assert(!whole.contains('/')) by {
        if whole.contains('/') {
            let k = choose|k: int| 0 <= k < whole.len() && whole[k] == '/';
            if k < own.len() {
                assert(own[k] == '/');
            } else {
                assert(kind_ending(kind)[k - own.len()] == '/');
            }
        }
    }
    assert(whole != seq!['.']) by {
        assert(whole.len() >= 5);
    }
    assert forall|i: int| 0 <= i < names.len() implies (#[trigger] names[i]).len() > 0
        && !names[i].contains('/') && names[i] != seq!['.'] by {
        if i < container.len() {
            assert(names[i] == container[i]);
        }
    }
    path::law_names_extend(text::blank(), names);
    assert(names.drop_last() =~= container);
    assert(path::components(text::blank()) + names =~= names) by {
        path::law_names_extend(text::blank(), Seq::empty());
        path::lemma_nothing();
    }
}

// ---------------------------------------------------------------------------------------------
// Sessions and the console
// ---------------------------------------------------------------------------------------------

/// What a session runs as.
#[derive(Clone, Copy, Debug, PartialEq, Eq, Structural)]
pub enum RunMode {
    Server,
    Client,
}

impl RunMode {
    /// The name of the mode.
    pub fn label(self) -> (r: &'static str)
        ensures
            r@ == (match self {
                RunMode::Server => "server"@,
                RunMode::Client => "client"@,
            }),
    {
        match self {
            RunMode::Server => "server",
            RunMode::Client => "client",
        }
    }

    /// The command that runs a session of the mode.
    pub fn command_name(self) -> (r: &'static str)
        ensures
            r@ == (match self {
                RunMode::Server => "run-server"@,
                RunMode::Client => "emulate-client"@,
            }),
    {
        match self {
            RunMode::Server => "run-server",
            RunMode::Client => "emulate-client",
        }
    }

    /// The words that report that a session was started.
    pub fn started_message(self) -> (r: &'static str)
        ensures
            r@ == (match self {
                RunMode::Server => "Started server session."@,
                RunMode::Client => "Started client emulation session."@,
            }),
    {
        match self {
            RunMode::Server => "Started server session.",
            RunMode::Client => "Started client emulation session.",
        }
    }

    /// The words that report how a session ended.
    pub fn exited_message(self, status: &str) -> (r: String)
        ensures
            r@ == (match self {
                RunMode::Server => "server"@,
                RunMode::Client => "client"@,
            }) + " session exited with "@ + status@ + "."@,
    {
        let head = concat3(self.label(), " session exited with ", status);
        concat2(head.as_str(), ".")
    }

    /// The name of the image that a session started at the given time runs.
    pub fn image_name(self, stamp: u64) -> (r: String)
        ensures
            r@ == "rle-gui-"@ + (match self {
                RunMode::Server => "server"@,
                RunMode::Client => "client"@,
            }) + "-"@ + text::decimal(stamp as nat) + ".rleimg"@,
    {
        let head = concat3("rle-gui-", self.label(), "-");
        concat3(head.as_str(), decimal_text(stamp).as_str(), ".rleimg")
    }
}

/// Where a line on the console comes from.
#[derive(Clone, Copy, Debug, PartialEq, Eq, Structural)]
pub enum ConsoleStream {
    Stdout,
    Stderr,
    System,
}

/// The short name of a stream.
pub open spec fn stream_label(stream: ConsoleStream) -> Text {
    match stream {
        ConsoleStream::Stdout => "out"@,
        ConsoleStream::Stderr => "err"@,
        ConsoleStream::System => "rle"@,
    }
}

impl ConsoleStream {
    /// The short name of the stream.
    pub fn label(&self) -> (r: &'static str)
        ensures
            r@ == stream_label(*self),
    {
        match self {
            ConsoleStream::Stdout => "out",
            ConsoleStream::Stderr => "err",
            ConsoleStream::System => "rle",
        }
    }
}

/// A line on the console.
#[derive(Clone, Debug)]
pub struct LogEntry {
    pub stream: ConsoleStream,
    pub text: String,
}

impl LogEntry {
    /// The line of a stream with the given words.
    pub fn new(stream: ConsoleStream, text: String) -> (r: LogEntry)
        ensures
            r.stream == stream,
            r.text@ == text@,
    {
        LogEntry { stream, text }
    }

    /// The line as it is shown.
    pub fn line(&self) -> (r: String)
        ensures
            r@ == "["@ + stream_label(self.stream) + "] "@ + self.text@,
    {
        let head = concat3("[", self.stream.label(), "] ");
        concat2(head.as_str(), self.text.as_str())
    }
}

/// How many lines the console keeps.
pub const CONSOLE_LINES: usize = 2000;

/// Adds a line to the console, which keeps the last lines only.
pub fn log_line(console: &mut Vec<LogEntry>, entry: LogEntry)
    ensures
        final(console)@ == ({
            let all = old(console)@.push(entry);
            if all.len() > CONSOLE_LINES {
                all.skip(all.len() - CONSOLE_LINES)
            } else {
                all
            }
        }),
{
    let ghost all = console@.push(entry);
    console.push(entry);
    let ghost mut gone: int = 0;
    assert(all.skip(0) =~= all);
    while console.len() > CONSOLE_LINES
        invariant
            0 <= gone <= all.len(),
            console@ == all.skip(gone),
            gone > 0 ==> console@.len() >= CONSOLE_LINES,
        decreases console@.len(),
    {
        let ghost now = console@;
        let _ = console.remove(0);
        proof {
            assert(now.remove(0) =~= all.skip(gone + 1));
            gone = gone + 1;
        }
    }
}

} // verus!
