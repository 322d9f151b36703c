//! Projects: the files of a project directory, the scripts and data files among them, and the
//! instance tree that their layout describes.

use vstd::prelude::*;
use vstd::string::*;

use crate::error::{self, Error, failure};
use crate::order::{self, reversed};
use crate::path::{self, file_name, path_at_most, path_segments};
use crate::text::{
    self, Text, after_prefix, before_suffix, chars_of, concat2, concat3, copy_bytes,
    decode_text, has_prefix, pieces, text_eq, trimmed,
};

verus! {

/// A file of a project, named by its path below the project's root.
#[derive(Clone, Debug)]
pub struct ProjectFile {
    pub relative_path: String,
    pub bytes: Vec<u8>,
}

/// The content of a [`ProjectFile`].
#[verifier::ext_equal]
pub struct FileView {
    pub path: Text,
    pub bytes: Seq<u8>,
}

impl View for ProjectFile {
    type V = FileView;

    open spec fn view(&self) -> FileView {
        FileView { path: self.relative_path@, bytes: self.bytes@ }
    }
}

/// The files of a project.
#[derive(Clone, Debug)]
pub struct LoadedProject {
    pub files: Vec<ProjectFile>,
}

impl View for LoadedProject {
    type V = Seq<FileView>;

    open spec fn view(&self) -> Seq<FileView> {
        text::views(self.files@)
    }
}

impl Default for LoadedProject {
    /// The project without files.
    fn default() -> (r: LoadedProject)
        ensures
            r@ == Seq::<FileView>::empty(),
    {
        let r = LoadedProject { files: Vec::new() };
        assert(r@ =~= Seq::<FileView>::empty());
        r
    }
}

/// What kind of script a file holds.
#[derive(Clone, Copy, Debug, PartialEq, Eq, Structural)]
pub enum ScriptKind {
    ModuleScript,
    ServerScript,
    ClientScript,
    LegacyScript,
    LocalScript,
}

/// The class of the instance that a script of this kind becomes.
pub open spec fn kind_class(kind: ScriptKind) -> Text {
    match kind {
        ScriptKind::ModuleScript => "ModuleScript"@,
        ScriptKind::LocalScript => "LocalScript"@,
        _ => "Script"@,
    }
}

/// The run context that a script of this kind carries.
pub open spec fn kind_context(kind: ScriptKind) -> Option<Text> {
    match kind {
        ScriptKind::ServerScript => Some("Server"@),
        ScriptKind::ClientScript => Some("Client"@),
        ScriptKind::LegacyScript => Some("Legacy"@),
        _ => None,
    }
}

impl ScriptKind {
    /// The class of the instance that a script of this kind becomes.
    pub fn class_name(self) -> (r: &'static str)
        ensures
            r@ == kind_class(self),
    {
        match self {
            ScriptKind::ModuleScript => "ModuleScript",
            ScriptKind::ServerScript | ScriptKind::ClientScript | ScriptKind::LegacyScript => {
                "Script"
            },
            ScriptKind::LocalScript => "LocalScript",
        }
    }

    /// The run context that a script of this kind carries.
    pub fn run_context(self) -> (r: Option<&'static str>)
        ensures
            r is Some == kind_context(self) is Some,
            r matches Some(context) ==> Some(context@) == kind_context(self),
    {
        match self {
            ScriptKind::ServerScript => Some("Server"),
            ScriptKind::ClientScript => Some("Client"),
            ScriptKind::LegacyScript => Some("Legacy"),
            ScriptKind::ModuleScript | ScriptKind::LocalScript => None,
        }
    }
}

/// A script of a project.
#[derive(Clone, Debug)]
pub struct ProjectScript {
    pub relative_path: String,
    pub container_path: Vec<String>,
    pub name: String,
    pub kind: ScriptKind,
    pub source: String,
    pub auto_run: bool,
}

/// The content of a [`ProjectScript`].
#[verifier::ext_equal]
pub struct ScriptView {
    pub relative_path: Text,
    pub container_path: Seq<Text>,
    pub name: Text,
    pub kind: ScriptKind,
    pub source: Text,
    pub auto_run: bool,
}

impl View for ProjectScript {
    type V = ScriptView;

    open spec fn view(&self) -> ScriptView {
        ScriptView {
            relative_path: self.relative_path@,
            container_path: text::views(self.container_path@),
            name: self.name@,
            kind: self.kind,
            source: self.source@,
            auto_run: self.auto_run,
        }
    }
}

/// A data file of a project.
#[derive(Clone, Debug)]
pub struct ExternalFile {
    pub relative_path: String,
    pub container_path: Vec<String>,
    pub name: String,
    pub bytes: Vec<u8>,
}

/// The content of an [`ExternalFile`].
#[verifier::ext_equal]
pub struct ExternalView {
    pub relative_path: Text,
    pub container_path: Seq<Text>,
    pub name: Text,
    pub bytes: Seq<u8>,
}

impl View for ExternalFile {
    type V = ExternalView;

    open spec fn view(&self) -> ExternalView {
        ExternalView {
            relative_path: self.relative_path@,
            container_path: text::views(self.container_path@),
            name: self.name@,
            bytes: self.bytes@,
        }
    }
}

/// A node of the instance tree that a project describes.
#[derive(Debug)]
pub struct ProjectNode {
    pub name: String,
    pub class_name: String,
    pub source: Option<String>,
    pub run_context: Option<String>,
    pub value: Option<Vec<u8>>,
    pub script_path: Option<String>,
    pub auto_run: bool,
    pub children: Vec<ProjectNode>,
}

/// The content of a [`ProjectNode`].
#[verifier::ext_equal]
pub struct NodeView {
    pub name: Text,
    pub class_name: Text,
    pub source: Option<Text>,
    pub run_context: Option<Text>,
    pub value: Option<Seq<u8>>,
    pub script_path: Option<Text>,
    pub auto_run: bool,
    pub children: Seq<NodeView>,
}

impl View for ProjectNode {
    type V = NodeView;

    open spec fn view(&self) -> NodeView
        decreases self,
    {
        NodeView {
            name: self.name@,
            class_name: self.class_name@,
            source: text::opt_view(self.source),
            run_context: text::opt_view(self.run_context),
            value: text::opt_view(self.value),
            script_path: text::opt_view(self.script_path),
            auto_run: self.auto_run,
            children: Seq::new(
                self.children@.len(),
                |i: int|
                    if 0 <= i < self.children@.len() {
                        self.children@[i].view()
                    } else {
                        arbitrary()
                    },
            ),
        }
    }
}

/// The children of a node's view are the views of its children.
pub proof fn lemma_node_children(node: ProjectNode)
    ensures
        node@.children == text::views(node.children@),
{
    reveal_with_fuel(<ProjectNode as View>::view, 2);
    assert(node@.children =~= text::views(node.children@));
}

/// A text that may be missing, copied.
pub fn copy_opt_text(o: &Option<String>) -> (r: Option<String>)
    ensures
        text::opt_view(r) == text::opt_view(*o),
{
    match o {
        Some(s) => Some(s.as_str().to_owned()),
        None => None,
    }
}

/// A node with everything below it, copied.
fn copy_node(node: &ProjectNode) -> (r: ProjectNode)
    ensures
        r@ == node@,
    decreases node,
{
    let mut children: Vec<ProjectNode> = Vec::new();
    let mut i: usize = 0;
    while i < node.children.len()
        invariant
            i <= node.children@.len(),
            children@.len() == i,
            forall|k: int| 0 <= k < i ==> (#[trigger] children@[k])@ == node.children@[k]@,
        decreases node.children@.len() - i,
    {
        assert(decreases_to!(node => node.children@[i as int]));
        children.push(copy_node(&node.children[i]));
        i += 1;
    }
    assert(text::views(children@) =~= text::views(node.children@));
    let value = match &node.value {
        Some(bytes) => Some(copy_bytes(bytes.as_slice())),
        None => None,
    };
    let r = ProjectNode {
        name: node.name.as_str().to_owned(),
        class_name: node.class_name.as_str().to_owned(),
        source: copy_opt_text(&node.source),
        run_context: copy_opt_text(&node.run_context),
        value,
        script_path: copy_opt_text(&node.script_path),
        auto_run: node.auto_run,
        children,
    };
    proof {
        lemma_node_children(r);
        lemma_node_children(*node);
        assert(r@ =~= node@);
    }
    r
}

impl Clone for ProjectNode {
    fn clone(&self) -> (r: ProjectNode)
        ensures
            r@ == self@,
    {
        copy_node(self)
    }
}

/// Where a part of the tree is mounted.
#[derive(Clone, Debug)]
pub enum ProjectMount {
    /// A node directly below the data model.
    DataModelChild(ProjectNode),
    /// Nodes below one of the services.
    ServiceContents { service_name: String, children: Vec<ProjectNode> },
}

/// The content of a [`ProjectMount`].
#[verifier::ext_equal]
pub enum MountView {
    DataModelChild(NodeView),
    ServiceContents { service_name: Text, children: Seq<NodeView> },
}

impl View for ProjectMount {
    type V = MountView;

    open spec fn view(&self) -> MountView {
        match self {
            ProjectMount::DataModelChild(node) => MountView::DataModelChild(node@),
            ProjectMount::ServiceContents { service_name, children } => MountView::ServiceContents {
                service_name: service_name@,
                children: text::views(children@),
            },
        }
    }
}

/// The instance tree that a project describes.
#[derive(Clone, Debug)]
pub struct ProjectLayout {
    pub top_level: Vec<ProjectMount>,
}

impl View for ProjectLayout {
    type V = Seq<MountView>;

    open spec fn view(&self) -> Seq<MountView> {
        text::views(self.top_level@)
    }
}

// ---------------------------------------------------------------------------------------------
// Loading
// ---------------------------------------------------------------------------------------------

/// The order of files by their paths.
pub open spec fn by_path() -> spec_fn(FileView, FileView) -> bool {
    |a: FileView, b: FileView| path::path_le(a.path, b.path)
}

/// What is wrong with a path as that of a project.
pub fn check_project_path(path: &str, exists: bool, is_dir: bool) -> (r: Result<(), Error>)
    ensures
        error::unit_view(r) == (if !exists {
            Err("Project path does not exist: "@ + path@)
        } else if !is_dir {
            Err("Project path must be a directory: "@ + path@)
        } else {
            Ok::<(), Text>(())
        }),
{
    if !exists {
        Err(failure(concat2("Project path does not exist: ", path).as_str()))
    } else if !is_dir {
        Err(failure(concat2("Project path must be a directory: ", path).as_str()))
    } else {
        Ok(())
    }
}

/// Adds a file to files in the order of their paths, behind those of the same path.
fn place_file(files: &mut Vec<ProjectFile>, file: ProjectFile)
    ensures
        text::views(final(files)@) == order::insert_by(text::views(old(files)@), file@, by_path()),
{
    let ghost all = text::views(files@);
    let ghost le = by_path();
    let mut at: usize = files.len();
    assert(all.take(at as int) =~= all);
    assert(order::insert_by(all, file@, le) =~= order::insert_by(all.take(at as int), file@, le) + all.skip(
        at as int,
    ));
    while at > 0 && !path_at_most(
        files[at - 1].relative_path.as_str(),
        file.relative_path.as_str(),
    )
        invariant
            at <= files@.len(),
            all == text::views(files@),
            le == by_path(),
            order::insert_by(all, file@, le) == order::insert_by(all.take(at as int), file@, le) + all.skip(
                at as int,
            ),
        decreases at,
    {
        proof {
            let head = all.take(at as int);
            assert(head.last() == all[at - 1]);
            assert(head.drop_last() =~= all.take(at - 1));
            assert(order::insert_by(all.take(at - 1), file@, le).push(all[at - 1]) + all.skip(at as int)
                =~= order::insert_by(all.take(at - 1), file@, le) + all.skip(at - 1));
        }
        at -= 1;
    }
    proof {
        let head = all.take(at as int);
        if at > 0 {
            assert(head.last() == all[at - 1]);
        }
        assert(order::insert_by(head, file@, le) == head.push(file@));
        assert(head.push(file@) + all.skip(at as int) =~= all.insert(at as int, file@));
        assert(text::views(files@.insert(at as int, file)) =~= all.insert(at as int, file@));
    }
    files.insert(at, file);
}

impl LoadedProject {
    /// The project with the given files, in the order of their paths.
    pub fn from_files(files: Vec<ProjectFile>) -> (r: LoadedProject)
        ensures
            r@ == order::sort_by(text::views(files@), by_path()),
    {
        let ghost all = text::views(files@);
        let mut left = reversed(files);
        let mut out: Vec<ProjectFile> = Vec::new();
        let ghost mut done: int = 0;
        assert(text::views(out@) =~= Seq::empty());
        assert(all.take(0) =~= Seq::empty());
        while left.len() > 0
            invariant
                0 <= done <= all.len(),
                left@.len() == all.len() - done,
                forall|k: int|
                    0 <= k < left@.len() ==> (#[trigger] left@[k])@ == all[all.len() - 1 - k],
                text::views(out@) == order::sort_by(all.take(done), by_path()),
            decreases left@.len(),
        {
            let ghost k = left@.len() - 1;
            assert(left@[k]@ == all[done]);
            let file = left.pop().unwrap();
            place_file(&mut out, file);
            proof {
                assert(all.take(done + 1).drop_last() =~= all.take(done));
                assert(all.take(done + 1).last() == file@);
                done = done + 1;
            }
        }
        assert(all.take(done) =~= all);
        LoadedProject { files: out }
    }
}

/// A loaded project holds the files that were found, each once, in the order of their paths.
pub proof fn law_loaded_in_order(files: Seq<FileView>)
    ensures
        order::sort_by(files, by_path()).to_multiset() == files.to_multiset(),
        forall|i: int, j: int|
            0 <= i < j < order::sort_by(files, by_path()).len() ==> path::path_le(
                (#[trigger] order::sort_by(files, by_path())[i]).path,
                (#[trigger] order::sort_by(files, by_path())[j]).path,
            ),
{
    let le = by_path();
    path::lemma_path_le_orders();
    assert(order::orders(le));
    order::lemma_sort_by(files, le);
    assert forall|i: int, j: int| 0 <= i < j < order::sort_by(files, by_path()).len() implies path::path_le(
        (#[trigger] order::sort_by(files, by_path())[i]).path,
        (#[trigger] order::sort_by(files, by_path())[j]).path,
    ) by {
        assert(le(order::sort_by(files, le)[i], order::sort_by(files, le)[j]));
    }
}

// ---------------------------------------------------------------------------------------------
// Directives
// ---------------------------------------------------------------------------------------------

/// The characters between the words of a directive.
pub open spec fn is_gap(c: char) -> bool {
    c == ' ' || c == '\t' || c == '\n' || c == '\r' || c == '\u{c}' || c == ','
}

/// The words of a directive.
pub open spec fn words(s: Text) -> Seq<Text> {
    text::split(s, |c: char| is_gap(c))
}

/// Whether the comment lines at the head of a script hold a directive that keeps the script from
/// running by itself. Blank lines and other comments may stand among them; the first line of code
/// ends them.
pub open spec fn head_disables(lines: Seq<Text>) -> bool
    decreases lines.len(),
{
    if lines.len() == 0 {
        false
    } else {
        let line = text::trim(lines[0]);
        let rest = lines.drop_first();
        if line.len() == 0 {
            head_disables(rest)
        } else if text::begins_with(line, "--!rle"@) {
            words(line.skip("--!rle"@.len() as int)).contains("script-disable"@) || head_disables(
                rest,
            )
        } else if text::begins_with(line, "--"@) {
            head_disables(rest)
        } else {
            false
        }
    }
}

/// What the directives of a script ask for.
#[derive(Clone, Copy, Debug)]
pub struct RleDirectives {
    pub script_disable: bool,
}

fn gap(c: char) -> (r: bool)
    ensures
        r == is_gap(c),
{
    c == ' ' || c == '\t' || c == '\n' || c == '\r' || c == '\u{c}' || c == ','
}

/// Whether `word` is one of the words of `s`.
fn has_word(s: &str, word: &str) -> (r: bool)
    ensures
        r == words(s@).contains(word@),
{
    let chars = chars_of(s);
    let ghost at = |c: char| is_gap(c);
    let ghost mut done: Seq<Text> = Seq::empty();
    let mut current = String::new();
    let mut seen = false;
    let mut i: usize = 0;
    assert(done.push(current@) =~= seq![text::blank()]);
    while i < chars.len()
        invariant
            i <= chars@.len(),
            chars@ == s@,
            at == (|c: char| is_gap(c)),
            done.push(current@) == text::split(chars@.take(i as int), at),
            seen == done.contains(word@),
        decreases chars@.len() - i,
    {
        let c = chars[i];
        assert(chars@.take(i + 1).drop_last() =~= chars@.take(i as int));
        assert(done.push(current@).drop_last() =~= done);
        if gap(c) {
            let same = text_eq(current.as_str(), word);
            proof {
                let more = done.push(current@);
                assert(more[done.len() as int] == current@);
                assert(forall|k: int| 0 <= k < done.len() ==> more[k] == done[k]);
                if done.contains(word@) {
                    let k = choose|k: int| 0 <= k < done.len() && done[k] == word@;
                    assert(more[k] == word@);
                }
                done = more;
            }
            if same {
                seen = true;
            }
            current = String::new();
        } else {
            current.push(c);
        }
        i += 1;
    }
    assert(chars@.take(i as int) =~= s@);
    let same = text_eq(current.as_str(), word);
    proof {
        let more = done.push(current@);
        assert(more == words(s@));
        assert(more[done.len() as int] == current@);
        assert(forall|k: int| 0 <= k < done.len() ==> more[k] == done[k]);
        if done.contains(word@) {
            let k = choose|k: int| 0 <= k < done.len() && done[k] == word@;
            assert(more[k] == word@);
        }
    }
    seen || same
}

/// Reads the directives at the head of a script.
pub fn parse_rle_directives(source: &str) -> (r: RleDirectives)
    ensures
        r.script_disable == head_disables(text::split_char(source@, '\n')),
{
    let lines = pieces(source, '\n');
    let ghost all = text::views(lines@);
    let mut found = false;
    let mut i: usize = 0;
    assert(all.skip(0) =~= all);
    while i < lines.len()
        invariant
            i <= lines@.len(),
            all == text::views(lines@),
            all == text::split_char(source@, '\n'),
            head_disables(all) == (found || head_disables(all.skip(i as int))),
        decreases lines@.len() - i,
    {
        assert(all.skip(i as int).drop_first() =~= all.skip(i + 1));
        assert(all.skip(i as int)[0] == lines@[i as int]@);
        let line = trimmed(lines[i].as_str());
        if !line.as_str().is_empty() {
            match after_prefix(line.as_str(), "--!rle") {
                Some(rest) => {
                    if has_word(rest.as_str(), "script-disable") {
                        found = true;
                    }
                },
                None => {
                    if !has_prefix(line.as_str(), "--") {
                        return RleDirectives { script_disable: found };
                    }
                },
            }
        }
        i += 1;
    }
    RleDirectives { script_disable: found }
}

// ---------------------------------------------------------------------------------------------
// Classification of files
// ---------------------------------------------------------------------------------------------

/// The kind of script that a file name announces, and the name without the ending that does so.
pub open spec fn script_name(name: Text) -> Option<(ScriptKind, Text)> {
    if text::finishes_with(name, ".server.luau"@) {
        Some((ScriptKind::ServerScript, name.take(name.len() - ".server.luau"@.len())))
    } else if text::finishes_with(name, ".server.lua"@) {
        Some((ScriptKind::ServerScript, name.take(name.len() - ".server.lua"@.len())))
    } else if text::finishes_with(name, ".client.luau"@) {
        Some((ScriptKind::ClientScript, name.take(name.len() - ".client.luau"@.len())))
    } else if text::finishes_with(name, ".client.lua"@) {
        Some((ScriptKind::ClientScript, name.take(name.len() - ".client.lua"@.len())))
    } else if text::finishes_with(name, ".legacy.luau"@) {
        Some((ScriptKind::LegacyScript, name.take(name.len() - ".legacy.luau"@.len())))
    } else if text::finishes_with(name, ".legacy.lua"@) {
        Some((ScriptKind::LegacyScript, name.take(name.len() - ".legacy.lua"@.len())))
    } else if text::finishes_with(name, ".local.luau"@) {
        Some((ScriptKind::LocalScript, name.take(name.len() - ".local.luau"@.len())))
    } else if text::finishes_with(name, ".local.lua"@) {
        Some((ScriptKind::LocalScript, name.take(name.len() - ".local.lua"@.len())))
    } else if text::finishes_with(name, ".luau"@) {
        Some((ScriptKind::ModuleScript, name.take(name.len() - ".luau"@.len())))
    } else if text::finishes_with(name, ".lua"@) {
        Some((ScriptKind::ModuleScript, name.take(name.len() - ".lua"@.len())))
    } else {
        None
    }
}

/// Whether the path lies in the directory of data files.
pub open spec fn in_external_data(path: Text) -> bool {
    path::components(path).len() > 0 && path::components(path)[0] == "ExternalData"@
}

/// The script that a file holds, where it holds one. Files in the directory of data files are
/// never scripts. A script has to be UTF-8 text.
pub open spec fn script_of(file: FileView) -> Result<Option<ScriptView>, Text> {
    if in_external_data(file.path) {
        Ok(None)
    } else {
        match path::name_of(file.path) {
            None => Ok(None),
            Some(name) => match script_name(name) {
                None => Ok(None),
                Some((kind, base)) => if !vstd::utf8::valid_utf8(file.bytes) {
                    Err(
                        "Script "@ + file.path + " is not valid UTF-8: "@ + text::utf8_error_text(
                            file.bytes,
                        ),
                    )
                } else {
                    let source = vstd::utf8::decode_utf8(file.bytes);
                    Ok(
                        Some(
                            ScriptView {
                                relative_path: file.path,
                                container_path: path::components(file.path).drop_last(),
                                name: base,
                                kind,
                                source,
                                auto_run: kind != ScriptKind::ModuleScript && !head_disables(
                                    text::split_char(source, '\n'),
                                ),
                            },
                        ),
                    )
                },
            },
        }
    }
}

/// The directories between the directory of data files and the file.
pub open spec fn external_container(path: Text) -> Seq<Text> {
    let parts = path::components(path);
    if parts.len() >= 2 {
        parts.subrange(1, parts.len() - 1)
    } else {
        Seq::empty()
    }
}

/// The data file that a file is, where it is one.
pub open spec fn external_of(file: FileView) -> Option<ExternalView> {
    if in_external_data(file.path) {
        match path::name_of(file.path) {
            None => None,
            Some(name) => Some(
                ExternalView {
                    relative_path: file.path,
                    container_path: external_container(file.path),
                    name,
                    bytes: file.bytes,
                },
            ),
        }
    } else {
        None
    }
}

/// The scripts of a project in the order of its files, or the first error among them.
pub open spec fn scripts_of(files: Seq<FileView>) -> Result<Seq<ScriptView>, Text>
    decreases files.len(),
{
    if files.len() == 0 {
        Ok(Seq::empty())
    } else {
        match scripts_of(files.drop_last()) {
            Err(e) => Err(e),
            Ok(head) => match script_of(files.last()) {
                Err(e) => Err(e),
                Ok(None) => Ok(head),
                Ok(Some(script)) => Ok(head.push(script)),
            },
        }
    }
}

/// The data files of a project in the order of its files.
pub open spec fn externals_of(files: Seq<FileView>) -> Seq<ExternalView>
    decreases files.len(),
{
    if files.len() == 0 {
        Seq::empty()
    } else {
        let head = externals_of(files.drop_last());
        match external_of(files.last()) {
            None => head,
            Some(file) => head.push(file),
        }
    }
}

/// Splits a file name into the kind of script that it announces and the rest of the name.
fn split_script_name(name: &str) -> (r: Option<(ScriptKind, String)>)
    ensures
        r is Some == script_name(name@) is Some,
        r matches Some((kind, base)) ==> Some((kind, base@)) == script_name(name@),
{
    if let Some(base) = before_suffix(name, ".server.luau") {
        Some((ScriptKind::ServerScript, base))
    } else if let Some(base) = before_suffix(name, ".server.lua") {
        Some((ScriptKind::ServerScript, base))
    } else if let Some(base) = before_suffix(name, ".client.luau") {
        Some((ScriptKind::ClientScript, base))
    } else if let Some(base) = before_suffix(name, ".client.lua") {
        Some((ScriptKind::ClientScript, base))
    } else if let Some(base) = before_suffix(name, ".legacy.luau") {
        Some((ScriptKind::LegacyScript, base))
    } else if let Some(base) = before_suffix(name, ".legacy.lua") {
        Some((ScriptKind::LegacyScript, base))
    } else if let Some(base) = before_suffix(name, ".local.luau") {
        Some((ScriptKind::LocalScript, base))
    } else if let Some(base) = before_suffix(name, ".local.lua") {
        Some((ScriptKind::LocalScript, base))
    } else if let Some(base) = before_suffix(name, ".luau") {
        Some((ScriptKind::ModuleScript, base))
    } else if let Some(base) = before_suffix(name, ".lua") {
        Some((ScriptKind::ModuleScript, base))
    } else {
        None
    }
}

/// The outcome of looking for a script in a file.
pub open spec fn script_outcome(r: Result<Option<ProjectScript>, Error>) -> Result<
    Option<ScriptView>,
    Text,
> {
    match r {
        Ok(script) => Ok(text::opt_view(script)),
        Err(error) => Err(error@),
    }
}

/// The script that a file holds, where it holds one.
pub fn classify_script_file(file: &ProjectFile) -> (r: Result<Option<ProjectScript>, Error>)
    ensures
        script_outcome(r) == script_of(file@),
{
    let path = file.relative_path.as_str();
    let mut container_path = path_segments(path);
    let ghost parts = text::views(container_path@);
    if container_path.len() > 0 && text_eq(container_path[0].as_str(), "ExternalData") {
        return Ok(None);
    }
    let name = match file_name(path) {
        Some(name) => name,
        None => {
            return Ok(None);
        },
    };
    let (kind, base) = match split_script_name(name.as_str()) {
        Some(found) => found,
        None => {
            return Ok(None);
        },
    };
    let source = match decode_text(file.bytes.as_slice()) {
        Ok(source) => source,
        Err(error) => {
            let mut message = concat3("Script ", path, " is not valid UTF-8: ");
            message.append(error.as_str());
            return Err(Error::RuntimeError(message));
        },
    };
    let directives = parse_rle_directives(source.as_str());
    let runs_by_itself = match kind {
        ScriptKind::ModuleScript => false,
        _ => true,
    };
    let _ = container_path.pop();
    proof {
        assert(text::views(container_path@) =~= parts.drop_last());
    }
    Ok(
        Some(
            ProjectScript {
                relative_path: file.relative_path.clone(),
                container_path,
                name: base,
                kind,
                source,
                auto_run: runs_by_itself && !directives.script_disable,
            },
        ),
    )
}

/// The data file that a file is, where it is one.
pub fn classify_external_file(file: &ProjectFile) -> (r: Option<ExternalFile>)
    ensures
        text::opt_view(r) == external_of(file@),
{
    let path = file.relative_path.as_str();
    let mut container_path = path_segments(path);
    let ghost parts = text::views(container_path@);
    if container_path.len() == 0 || !text_eq(container_path[0].as_str(), "ExternalData") {
        return None;
    }
    let name = match file_name(path) {
        Some(name) => name,
        None => {
            return None;
        },
    };
    let _ = container_path.remove(0);
    let _ = container_path.pop();
    proof {
        if parts.len() >= 2 {
            assert(text::views(container_path@) =~= parts.subrange(1, parts.len() - 1));
        } else {
            assert(text::views(container_path@) =~= Seq::<Text>::empty());
        }
    }
    Some(
        ExternalFile {
            relative_path: file.relative_path.clone(),
            container_path,
            name,
            bytes: copy_bytes(file.bytes.as_slice()),
        },
    )
}

/// A list of scripts or the error that stood in its way.
pub open spec fn scripts_outcome(r: Result<Vec<ProjectScript>, Error>) -> Result<
    Seq<ScriptView>,
    Text,
> {
    match r {
        Ok(scripts) => Ok(text::views(scripts@)),
        Err(error) => Err(error@),
    }
}

proof fn lemma_scripts_error(files: Seq<FileView>, i: int)
    requires
        0 <= i <= files.len(),
        scripts_of(files.take(i)) is Err,
    ensures
        scripts_of(files) == scripts_of(files.take(i)),
    decreases files.len() - i,
{
    if i == files.len() {
        assert(files.take(i) =~= files);
    } else {
        assert(files.take(i + 1).drop_last() =~= files.take(i));
        lemma_scripts_error(files, i + 1);
    }
}

impl LoadedProject {
    /// The scripts of the project in the order of its files.
    pub fn scripts(&self) -> (r: Result<Vec<ProjectScript>, Error>)
        ensures
            scripts_outcome(r) == scripts_of(self@),
    {
        let ghost all = self@;
        let mut out: Vec<ProjectScript> = Vec::new();
        let mut i: usize = 0;
        assert(text::views(out@) =~= Seq::<ScriptView>::empty());
        while i < self.files.len()
            invariant
                i <= self.files@.len(),
                all == text::views(self.files@),
                scripts_of(all.take(i as int)) == Ok::<Seq<ScriptView>, Text>(text::views(out@)),
            decreases self.files@.len() - i,
        {
            assert(all.take(i + 1).drop_last() =~= all.take(i as int));
            assert(all.take(i + 1).last() == self.files@[i as int]@);
            match classify_script_file(&self.files[i]) {
                Ok(Some(script)) => {
                    proof {
                        text::lemma_views_push(out@, script);
                    }
                    out.push(script);
                },
                Ok(None) => {},
                Err(error) => {
                    proof {
                        lemma_scripts_error(all, i + 1);
                    }
                    return Err(error);
                },
            }
            i += 1;
        }
        assert(all.take(i as int) =~= all);
        Ok(out)
    }

    /// The data files of the project in the order of its files.
    pub fn external_files(&self) -> (r: Result<Vec<ExternalFile>, Error>)
        ensures
            r matches Ok(files) && text::views(files@) == externals_of(self@),
    {
        let ghost all = self@;
        let mut out: Vec<ExternalFile> = Vec::new();
        let mut i: usize = 0;
        assert(text::views(out@) =~= Seq::<ExternalView>::empty());
        while i < self.files.len()
            invariant
                i <= self.files@.len(),
                all == text::views(self.files@),
                externals_of(all.take(i as int)) == text::views(out@),
            decreases self.files@.len() - i,
        {
            assert(all.take(i + 1).drop_last() =~= all.take(i as int));
            assert(all.take(i + 1).last() == self.files@[i as int]@);
            if let Some(file) = classify_external_file(&self.files[i]) {
                proof {
                    text::lemma_views_push(out@, file);
                }
                out.push(file);
            }
            i += 1;
        }
        assert(all.take(i as int) =~= all);
        Ok(out)
    }
}

// ---------------------------------------------------------------------------------------------
// Laws
// ---------------------------------------------------------------------------------------------

/// Whether the file of this name announces a script: its name ends in `.luau` or `.lua`.
pub open spec fn announces_script(name: Text) -> bool {
    text::finishes_with(name, ".luau"@) || text::finishes_with(name, ".lua"@)
}

proof fn lemma_ending(name: Text, ending: Text)
    ensures
        text::finishes_with(name, ending) ==> ending.len() <= name.len() && name == name.take(
            name.len() - ending.len(),
        ) + ending,
        text::finishes_with(name, ending) ==> forall|i: int|
            0 <= i < ending.len() ==> #[trigger] ending[i] == name[name.len() - ending.len() + i],
        forall|start: Text| name == #[trigger] (start + ending) ==> text::finishes_with(name, ending),
{
    if text::finishes_with(name, ending) {
        let at = name.len() - ending.len();
        assert(name =~= name.take(at) + name.subrange(at, at + ending.len()));
        assert forall|i: int| 0 <= i < ending.len() implies #[trigger] ending[i] == name[at + i] by {
            assert(name.subrange(at, at + ending.len())[i] == name[at + i]);
        }
    }
    assert forall|start: Text| name == #[trigger] (start + ending) implies text::finishes_with(
        name,
        ending,
    ) by {
        assert(name.subrange(name.len() - ending.len(), name.len() as int) =~= ending);
    }
}

proof fn lemma_shorter_ending(name: Text, long: Text, short: Text, between: Text)
    requires
        long =~= between + short,
    ensures
        text::finishes_with(name, long) ==> text::finishes_with(name, short),
{
    lemma_ending(name, long);
    lemma_ending(name, short);
    if text::finishes_with(name, long) {
        let start = name.take(name.len() - long.len());
        assert(name =~= (start + between) + short);
    }
}

/// A file outside the directory of data files holds a script where its name ends in `.luau` or
/// `.lua`, and only there. The directories of the script and then the name of the file are the
/// components of the path; the name of the script and then the ending are the name of the file, and
/// the ending decides what kind of script it is; the source code is the content of the file. What
/// is not text is an error.
pub proof fn law_script_files(file: FileView, name: Text)
    requires
        path::name_of(file.path) == Some(name),
        path::components(file.path)[0] != "ExternalData"@,
    ensures
        !announces_script(name) ==> script_of(file) == Ok::<Option<ScriptView>, Text>(None),
        announces_script(name) && !vstd::utf8::valid_utf8(file.bytes) ==> script_of(file) is Err,
        announces_script(name) && vstd::utf8::valid_utf8(file.bytes) ==> {
            let script = script_of(file)->Ok_0->Some_0;
            &&& script_of(file) == Ok::<Option<ScriptView>, Text>(Some(script))
            &&& script.relative_path == file.path
            &&& script.container_path.push(name) == path::components(file.path)
            &&& script.source == vstd::utf8::decode_utf8(file.bytes)
            &&& script.kind == ScriptKind::ModuleScript ==> !script.auto_run
            &&& text::finishes_with(name, ".server.luau"@) ==> script.kind == ScriptKind::ServerScript && name == script.name + ".server.luau"@
            &&& text::finishes_with(name, ".server.lua"@) ==> script.kind == ScriptKind::ServerScript && name == script.name + ".server.lua"@
            &&& text::finishes_with(name, ".client.luau"@) ==> script.kind == ScriptKind::ClientScript && name == script.name + ".client.luau"@
            &&& text::finishes_with(name, ".client.lua"@) ==> script.kind == ScriptKind::ClientScript && name == script.name + ".client.lua"@
            &&& text::finishes_with(name, ".legacy.luau"@) ==> script.kind == ScriptKind::LegacyScript && name == script.name + ".legacy.luau"@
            &&& text::finishes_with(name, ".legacy.lua"@) ==> script.kind == ScriptKind::LegacyScript && name == script.name + ".legacy.lua"@
            &&& text::finishes_with(name, ".local.luau"@) ==> script.kind == ScriptKind::LocalScript && name == script.name + ".local.luau"@
            &&& text::finishes_with(name, ".local.lua"@) ==> script.kind == ScriptKind::LocalScript && name == script.name + ".local.lua"@
            &&& text::finishes_with(name, ".luau"@) && !text::finishes_with(name, ".server.luau"@) && !text::finishes_with(name, ".client.luau"@) && !text::finishes_with(name, ".legacy.luau"@) && !text::finishes_with(name, ".local.luau"@)
                ==> script.kind == ScriptKind::ModuleScript && name == script.name + ".luau"@
            &&& text::finishes_with(name, ".lua"@) && !text::finishes_with(name, ".server.lua"@) && !text::finishes_with(name, ".client.lua"@) && !text::finishes_with(name, ".legacy.lua"@) && !text::finishes_with(name, ".local.lua"@)
                ==> script.kind == ScriptKind::ModuleScript && name == script.name + ".lua"@
        },
{
    reveal_strlit(".server.luau");
    reveal_strlit(".server.lua");
    reveal_strlit(".client.luau");
    reveal_strlit(".client.lua");
    reveal_strlit(".legacy.luau");
    reveal_strlit(".legacy.lua");
    reveal_strlit(".local.luau");
    reveal_strlit(".local.lua");
    reveal_strlit(".luau");
    reveal_strlit(".lua");
    let parts = path::components(file.path);
    assert(parts.drop_last().push(name) =~= parts);
    reveal_strlit(".server");
    reveal_strlit(".client");
    reveal_strlit(".legacy");
    reveal_strlit(".local");
    lemma_shorter_ending(name, ".server.luau"@, ".luau"@, ".server"@);
    lemma_shorter_ending(name, ".server.lua"@, ".lua"@, ".server"@);
    lemma_shorter_ending(name, ".client.luau"@, ".luau"@, ".client"@);
    lemma_shorter_ending(name, ".client.lua"@, ".lua"@, ".client"@);
    lemma_shorter_ending(name, ".legacy.luau"@, ".luau"@, ".legacy"@);
    lemma_shorter_ending(name, ".legacy.lua"@, ".lua"@, ".legacy"@);
    lemma_shorter_ending(name, ".local.luau"@, ".luau"@, ".local"@);
    lemma_shorter_ending(name, ".local.lua"@, ".lua"@, ".local"@);
    lemma_ending(name, ".server.luau"@);
    lemma_ending(name, ".server.lua"@);
    lemma_ending(name, ".client.luau"@);
    lemma_ending(name, ".client.lua"@);
    lemma_ending(name, ".legacy.luau"@);
    lemma_ending(name, ".legacy.lua"@);
    lemma_ending(name, ".local.luau"@);
    lemma_ending(name, ".local.lua"@);
    lemma_ending(name, ".luau"@);
    lemma_ending(name, ".lua"@);
    assert(text::finishes_with(name, ".server.luau"@) ==> name.len() >= 12 && name[name.len() - 6] == 'r' && name.last() == 'u');
    assert(text::finishes_with(name, ".server.lua"@) ==> name.len() >= 11 && name[name.len() - 5] == 'r' && name.last() == 'a');
    assert(text::finishes_with(name, ".client.luau"@) ==> name.len() >= 12 && name[name.len() - 6] == 't' && name.last() == 'u');
    assert(text::finishes_with(name, ".client.lua"@) ==> name.len() >= 11 && name[name.len() - 5] == 't' && name.last() == 'a');
    assert(text::finishes_with(name, ".legacy.luau"@) ==> name.len() >= 12 && name[name.len() - 6] == 'y' && name.last() == 'u');
    assert(text::finishes_with(name, ".legacy.lua"@) ==> name.len() >= 11 && name[name.len() - 5] == 'y' && name.last() == 'a');
    assert(text::finishes_with(name, ".local.luau"@) ==> name.len() >= 11 && name[name.len() - 6] == 'l' && name.last() == 'u');
    assert(text::finishes_with(name, ".local.lua"@) ==> name.len() >= 10 && name[name.len() - 5] == 'l' && name.last() == 'a');
    assert(text::finishes_with(name, ".luau"@) ==> name.last() == 'u');
    assert(text::finishes_with(name, ".lua"@) ==> name.last() == 'a');
}

/// A file in the directory of data files is a data file, whatever it is called, and never a script:
/// the components of its path are that directory, then the directories of the data file, then its
/// name, and its content is that of the file. No other file is a data file.
pub proof fn law_data_files(file: FileView)
    ensures
        external_of(file) is Some ==> {
            let found = external_of(file)->Some_0;
            &&& path::components(file.path) == (seq!["ExternalData"@] + found.container_path).push(
                found.name,
            ) || path::components(file.path) == seq!["ExternalData"@]
            &&& path::components(file.path).last() == found.name
            &&& found.relative_path == file.path
            &&& found.bytes == file.bytes
            &&& script_of(file) == Ok::<Option<ScriptView>, Text>(None)
        },
        external_of(file) is Some <==> path::name_of(file.path) is Some && path::components(
            file.path,
        )[0] == "ExternalData"@,
        path::components(file.path) == seq!["ExternalData"@] && external_of(file) is Some
            ==> external_of(file)->Some_0.container_path.len() == 0,
{
    let parts = path::components(file.path);
    if external_of(file) is Some {
        let found = external_of(file)->Some_0;
        if parts.len() >= 2 {
            assert((seq!["ExternalData"@] + found.container_path).push(found.name) =~= parts);
        } else {
            assert(parts =~= seq!["ExternalData"@]);
        }
    }
}

/// Whether a line may stand before the first line of code: it is blank or a comment.
pub open spec fn before_code(line: Text) -> bool {
    text::trim(line).len() == 0 || text::begins_with(text::trim(line), "--"@)
}

/// Whether a line asks that the script does not run by itself: it begins with `--!rle`, and one of
/// the words behind that is `script-disable`.
pub open spec fn asks_to_disable(line: Text) -> bool {
    exists|rest: Text|
        text::trim(line) == #[trigger] ("--!rle"@ + rest) && words(rest).contains("script-disable"@)
}

/// Whether one of the lines asks that the script does not run by itself, and all lines before that
/// one are blank or comments.
pub open spec fn disabled_at_head(lines: Seq<Text>) -> bool {
    exists|k: int|
        0 <= k < lines.len() && asks_to_disable(#[trigger] lines[k]) && forall|j: int|
            0 <= j < k ==> before_code(#[trigger] lines[j])
}

/// The head of a script disables it where one of its lines asks for that and all lines before that
/// one are blank or comments, and only there.
pub proof fn law_head_disables(lines: Seq<Text>)
    ensures
        head_disables(lines) <==> disabled_at_head(lines),
    decreases lines.len(),
{
    if lines.len() > 0 {
        reveal_strlit("--!rle");
        reveal_strlit("--");
        let line = text::trim(lines[0]);
        let rest = lines.drop_first();
        law_head_disables(rest);
        lemma_begins(line, "--!rle"@);
        lemma_begins(line, "--"@);
        let asks = text::begins_with(line, "--!rle"@) && words(
            line.skip("--!rle"@.len() as int),
        ).contains("script-disable"@);
        assert(asks == asks_to_disable(lines[0])) by {
            if asks {
                let tail = line.skip("--!rle"@.len() as int);
                assert(line == "--!rle"@ + tail);
            }
            if asks_to_disable(lines[0]) {
                let tail = choose|tail: Text|
                    line == #[trigger] ("--!rle"@ + tail) && words(tail).contains("script-disable"@);
                assert(line.skip("--!rle"@.len() as int) =~= tail);
            }
        }
        assert(text::begins_with(line, "--!rle"@) ==> text::begins_with(line, "--"@)) by {
            if text::begins_with(line, "--!rle"@) {
                assert(line[0] == "--!rle"@[0] && line[1] == "--!rle"@[1]);
                assert(line == "--"@ + line.skip(2)) by {
                    assert(line =~= "--"@ + line.skip(2));
                }
            }
        }
        if head_disables(lines) {
            if asks {
                assert(asks_to_disable(lines[0]));
            } else {
                let k = choose|k: int|
                    0 <= k < rest.len() && asks_to_disable(#[trigger] rest[k]) && forall|j: int|
                        0 <= j < k ==> before_code(#[trigger] rest[j]);
                assert(lines[k + 1] == rest[k]);
                assert forall|j: int| 0 <= j < k + 1 implies before_code(#[trigger] lines[j]) by {
                    if j > 0 {
                        assert(lines[j] == rest[j - 1]);
                    }
                }
            }
        }
        if disabled_at_head(lines) {
            let k = choose|k: int|
                0 <= k < lines.len() && asks_to_disable(#[trigger] lines[k]) && forall|j: int|
                    0 <= j < k ==> before_code(#[trigger] lines[j]);
            if k > 0 {
                assert(before_code(lines[0]));
                assert(rest[k - 1] == lines[k]);
                assert forall|j: int| 0 <= j < k - 1 implies before_code(#[trigger] rest[j]) by {
                    assert(rest[j] == lines[j + 1]);
                }
            }
        }
    }
}

proof fn lemma_begins(line: Text, start: Text)
    ensures
        text::begins_with(line, start) ==> line == start + line.skip(start.len() as int),
        text::begins_with(line, start) ==> forall|i: int|
            0 <= i < start.len() ==> #[trigger] start[i] == line[i],
        forall|rest: Text| line == #[trigger] (start + rest) ==> text::begins_with(line, start),
{
    if text::begins_with(line, start) {
        assert(line =~= line.subrange(0, start.len() as int) + line.skip(start.len() as int));
        assert forall|i: int| 0 <= i < start.len() implies #[trigger] start[i] == line[i] by {
            assert(line.subrange(0, start.len() as int)[i] == line[i]);
        }
    }
    assert forall|rest: Text| line == #[trigger] (start + rest) implies text::begins_with(
        line,
        start,
    ) by {
        assert(line.subrange(0, start.len() as int) =~= start);
    }
}

/// A script that is no module runs by itself unless a line at its head asks that it does not.
pub proof fn law_scripts_run_unless_disabled(file: FileView)
    requires
        script_of(file) matches Ok(Some(script)) && script.kind != ScriptKind::ModuleScript,
    ensures
        script_of(file)->Ok_0->Some_0.auto_run <==> !disabled_at_head(
            text::split_char(vstd::utf8::decode_utf8(file.bytes), '\n'),
        ),
{
    law_head_disables(text::split_char(vstd::utf8::decode_utf8(file.bytes), '\n'));
}

/// Scripts for the server, for clients and of the old kind become instances of `Script`, scripts of
/// a player those of `LocalScript`, and modules those of `ModuleScript`. The first three carry their
/// run context; two kinds never agree in both.
pub proof fn law_kinds_are_told_apart(a: ScriptKind, b: ScriptKind)
    ensures
        kind_class(a) == kind_class(b) && kind_context(a) == kind_context(b) ==> a == b,
        a == ScriptKind::ModuleScript <==> kind_class(a) == "ModuleScript"@,
        a == ScriptKind::LocalScript <==> kind_class(a) == "LocalScript"@,
        kind_class(a) == "Script"@ <==> kind_context(a) is Some,
        a == ScriptKind::ServerScript <==> kind_context(a) == Some("Server"@),
        a == ScriptKind::ClientScript <==> kind_context(a) == Some("Client"@),
        a == ScriptKind::LegacyScript <==> kind_context(a) == Some("Legacy"@),
{
    reveal_strlit("ModuleScript");
    reveal_strlit("LocalScript");
    reveal_strlit("Script");
    reveal_strlit("Server");
    reveal_strlit("Client");
    reveal_strlit("Legacy");
    assert("ModuleScript"@.len() == 12 && "LocalScript"@.len() == 11 && "Script"@.len() == 6);
    assert("Server"@[0] == 'S' && "Client"@[0] == 'C' && "Legacy"@[0] == 'L');
}

/// Whether the script is that of one of the files.
pub open spec fn script_from(files: Seq<FileView>, script: ScriptView) -> bool {
    exists|k: int|
        0 <= k < files.len() && script_of(#[trigger] files[k]) == Ok::<Option<ScriptView>, Text>(
            Some(script),
        )
}

/// Whether a file is no bad script, and its script, where it is one, is among the given ones.
pub open spec fn script_among(file: FileView, scripts: Seq<ScriptView>) -> bool {
    match script_of(file) {
        Ok(Some(script)) => scripts.contains(script),
        Ok(None) => true,
        Err(_) => false,
    }
}

/// The scripts of a project are those of its files, each file looked at once and in order; there is an
/// error where there is one with a file.
pub proof fn law_scripts_are_collected(files: Seq<FileView>, file: FileView)
    ensures
        scripts_of(Seq::empty()) == Ok::<Seq<ScriptView>, Text>(Seq::empty()),
        match scripts_of(files) {
            Ok(scripts) => {
                &&& scripts.len() <= files.len()
                &&& forall|k: int|
                    0 <= k < files.len() ==> script_among(#[trigger] files[k], scripts)
                &&& forall|j: int|
                    0 <= j < scripts.len() ==> script_from(files, #[trigger] scripts[j])
                &&& match script_of(file) {
                    Ok(Some(script)) => scripts_of(files.push(file)) == Ok::<Seq<ScriptView>, Text>(
                        scripts.push(script),
                    ),
                    Ok(None) => scripts_of(files.push(file)) == Ok::<Seq<ScriptView>, Text>(scripts),
                    Err(_) => scripts_of(files.push(file)) is Err,
                }
            },
            Err(_) => exists|k: int| 0 <= k < files.len() && script_of(#[trigger] files[k]) is Err,
        },
    decreases files.len(),
{
    assert(files.push(file).drop_last() =~= files);
    if files.len() > 0 {
        let init = files.drop_last();
        let n = files.len() - 1;
        assert(files[n] == files.last());
        law_scripts_are_collected(init, files.last());
        assert(init.push(files.last()) =~= files);
        match scripts_of(init) {
            Ok(before) => {
                if let Ok(scripts) = scripts_of(files) {
                    assert forall|k: int| 0 <= k < files.len() implies script_among(
                        #[trigger] files[k],
                        scripts,
                    ) by {
                        if k < n {
                            assert(init[k] == files[k]);
                            assert(script_among(init[k], before));
                            if let Ok(Some(script)) = script_of(files[k]) {
                                let j = choose|j: int| 0 <= j < before.len() && before[j] == script;
                                assert(scripts[j] == script);
                            }
                        } else if let Ok(Some(script)) = script_of(files[k]) {
                            assert(scripts[scripts.len() - 1] == script);
                        }
                    }
                    assert forall|j: int| 0 <= j < scripts.len() implies script_from(
                        files,
                        #[trigger] scripts[j],
                    ) by {
                        if j < before.len() {
                            assert(scripts[j] == before[j]);
                            assert(script_from(init, before[j]));
                            let k = choose|k: int|
                                0 <= k < init.len() && script_of(#[trigger] init[k]) == Ok::<
                                    Option<ScriptView>,
                                    Text,
                                >(Some(before[j]));
                            assert(init[k] == files[k]);
                        } else {
                            assert(script_of(files[n]) == Ok::<Option<ScriptView>, Text>(
                                Some(scripts[j]),
                            ));
                        }
                    }
                }
            },
            Err(_) => {
                let k = choose|k: int| 0 <= k < init.len() && script_of(#[trigger] init[k]) is Err;
                assert(files[k] == init[k]);
            },
        }
    }
}

/// The data files of a project are those of its files that are such, in their order.
pub proof fn law_data_files_are_collected(files: Seq<FileView>, file: FileView)
    ensures
        externals_of(Seq::empty()).len() == 0,
        externals_of(files.push(file)) == (match external_of(file) {
            Some(data) => externals_of(files).push(data),
            None => externals_of(files),
        }),
{
    assert(files.push(file).drop_last() =~= files);
}

/// Whether a word stands in a text: what is before it and behind it is set off by blanks, tabs, line
/// ends, form feeds or commas, and there is none of these in it.
pub open spec fn stands_out(s: Text, before: Text, word: Text, after: Text) -> bool {
    let gaps = seq![' ', '\t', '\n', '\r', '\u{c}', ','];
    &&& s == before + word + after
    &&& before.len() > 0 ==> gaps.contains(before.last())
    &&& after.len() > 0 ==> gaps.contains(after[0])
    &&& forall|k: int| 0 <= k < word.len() ==> !gaps.contains(#[trigger] word[k])
}

/// The words of a directive are what stands between gaps in it.
pub proof fn law_words_stand_out(s: Text, word: Text)
    ensures
        words(s).contains(word) <==> exists|before: Text, after: Text|
            #[trigger] stands_out(s, before, word, after),
{
    if words(s).contains(word) {
        lemma_word_stands_out(s, word);
    }
    if exists|before: Text, after: Text| #[trigger] stands_out(s, before, word, after) {
        let (before, after) = choose|before: Text, after: Text|
            #[trigger] stands_out(s, before, word, after);
        lemma_standing_out(s, before, word, after);
    }
}

proof fn lemma_gaps()
    ensures
        forall|c: char| seq![' ', '\t', '\n', '\r', '\u{c}', ','].contains(c) == #[trigger] is_gap(c),
{
    let gaps = seq![' ', '\t', '\n', '\r', '\u{c}', ','];
    assert forall|c: char| gaps.contains(c) == #[trigger] is_gap(c) by {
        if is_gap(c) {
            assert(gaps[0] == ' ' && gaps[1] == '\t' && gaps[2] == '\n' && gaps[3] == '\r' && gaps[4]
                == '\u{c}' && gaps[5] == ',');
        }
    }
}

proof fn lemma_word_stands_out(s: Text, word: Text)
    requires
        words(s).contains(word),
    ensures
        exists|before: Text, after: Text| #[trigger] stands_out(s, before, word, after),
    decreases s.len(),
{
    let at = |c: char| is_gap(c);
    lemma_gaps();
    if text::free_of(s, at) {
        text::lemma_split_whole(s, at);
        assert(words(s) == seq![s]);
        assert(word == s);
        assert(s =~= text::blank() + s + text::blank());
        assert forall|k: int| 0 <= k < word.len() implies !seq![
            ' ',
            '\t',
            '\n',
            '\r',
            '\u{c}',
            ',',
        ].contains(#[trigger] word[k]) by {
            assert(!at(s[k]));
            assert(!is_gap(s[k]));
        }
        assert(stands_out(s, text::blank(), word, text::blank()));
    } else {
        let p = first_gap(s, 0);
        lemma_first_gap(s, 0);
        let head = s.take(p);
        let tail = s.skip(p + 1);
        assert(s =~= head + seq![s[p]] + tail);
        text::lemma_split_append(head, s[p], tail, at);
        assert(text::free_of(head, at)) by {
            assert forall|i: int| 0 <= i < head.len() implies !at(#[trigger] head[i]) by {
                assert(!is_gap(s[i]));
            }
        }
        text::lemma_split_whole(head, at);
        assert(words(s) == seq![head] + words(tail));
        let j = choose|j: int| 0 <= j < words(s).len() && words(s)[j] == word;
        if j == 0 {
            let after = seq![s[p]] + tail;
            assert(s =~= text::blank() + head + after);
            assert(is_gap(after[0]));
            assert forall|k: int| 0 <= k < word.len() implies !seq![
                ' ',
                '\t',
                '\n',
                '\r',
                '\u{c}',
                ',',
            ].contains(#[trigger] word[k]) by {
                assert(!is_gap(s[k]));
            }
            assert(stands_out(s, text::blank(), word, after));
        } else {
            assert(words(tail)[j - 1] == word);
            lemma_word_stands_out(tail, word);
            let (before, after) = choose|before: Text, after: Text|
                #[trigger] stands_out(tail, before, word, after);
            let longer = head + seq![s[p]] + before;
            assert(s =~= longer + word + after);
            assert(is_gap(s[p]));
            assert(before.len() > 0 ==> longer.last() == before.last());
            assert(before.len() == 0 ==> longer.last() == s[p]);
            assert(stands_out(s, longer, word, after));
        }
    }
}

/// The position of the first gap from a position on.
spec fn first_gap(s: Text, from: int) -> int
    decreases s.len() - from,
{
    if from >= s.len() || is_gap(s[from]) {
        from
    } else {
        first_gap(s, from + 1)
    }
}

proof fn lemma_first_gap(s: Text, from: int)
    requires
        0 <= from <= s.len(),
        exists|k: int| from <= k < s.len() && is_gap(#[trigger] s[k]),
    ensures
        from <= first_gap(s, from) < s.len(),
        is_gap(s[first_gap(s, from)]),
        forall|k: int| from <= k < first_gap(s, from) ==> !is_gap(#[trigger] s[k]),
    decreases s.len() - from,
{
    if !is_gap(s[from]) {
        lemma_first_gap(s, from + 1);
    }
}

proof fn lemma_standing_out(s: Text, before: Text, word: Text, after: Text)
    requires
        stands_out(s, before, word, after),
    ensures
        words(s).contains(word),
{
    let at = |c: char| is_gap(c);
    lemma_gaps();
    assert(text::free_of(word, at)) by {
        assert forall|i: int| 0 <= i < word.len() implies !at(#[trigger] word[i]) by {
            assert(!is_gap(word[i]));
        }
    }
    text::lemma_split_whole(word, at);
    let right = word + after;
    let tail = if after.len() > 0 {
        text::split(after.drop_first(), at)
    } else {
        Seq::empty()
    };
    if after.len() > 0 {
        assert(is_gap(after[0]));
        assert(right =~= word + seq![after[0]] + after.drop_first());
        text::lemma_split_append(word, after[0], after.drop_first(), at);
    } else {
        assert(right =~= word);
        assert(seq![word] + tail =~= seq![word]);
    }
    assert(text::split(right, at) == seq![word] + tail);
    assert(text::split(right, at)[0] == word);
    if before.len() > 0 {
        let head = before.drop_last();
        assert(is_gap(before.last()));
        assert(s =~= head + seq![before.last()] + right);
        text::lemma_split_append(head, before.last(), right, at);
        let n = text::split(head, at).len() as int;
        assert(words(s)[n] == word);
    } else {
        assert(s =~= right);
        assert(words(s)[0] == word);
    }
}

} // verus!
