//! The tree that the explorer of the editor shows: services, folders and modules with the scripts in
//! them, each under a key by which it is found again.

use vstd::prelude::*;
use vstd::string::*;

use crate::error::Error;
use crate::laws;
use crate::layout::{self, DirNode, DirView, ItemView, find_init, is_init_module, sort_scripts};
use crate::order;
use crate::placement;
use crate::project::{self, FileView, LoadedProject, ProjectScript, ScriptKind, ScriptView};
use crate::text::{self, Text, concat2, concat3, copy_texts, joined, text_at_most, text_eq};

verus! {

// ---------------------------------------------------------------------------------------------
// The explorer's tree
// ---------------------------------------------------------------------------------------------

/// What a node of the explorer stands for.
#[derive(Clone, Copy, Debug, PartialEq, Eq, Structural)]
pub enum ExplorerNodeKind {
    Service,
    Folder,
    /// A directory that a script stands for.
    ModuleFolder,
    Script(ScriptKind),
}

/// A node of the explorer.
#[derive(Debug)]
pub struct ExplorerNode {
    pub key: String,
    pub title: String,
    pub kind: ExplorerNodeKind,
    pub container_path: Vec<String>,
    pub relative_path: Option<String>,
    pub children: Vec<ExplorerNode>,
}

/// The content of an [`ExplorerNode`].
#[verifier::ext_equal]
pub struct ExplorerView {
    pub key: Text,
    pub title: Text,
    pub kind: ExplorerNodeKind,
    pub container_path: Seq<Text>,
    pub relative_path: Option<Text>,
    pub children: Seq<ExplorerView>,
}

impl View for ExplorerNode {
    type V = ExplorerView;

    open spec fn view(&self) -> ExplorerView
        decreases self,
    {
        ExplorerView {
            key: self.key@,
            title: self.title@,
            kind: self.kind,
            container_path: text::views(self.container_path@),
            relative_path: text::opt_view(self.relative_path),
            children: Seq::new(
                self.children@.len(),
                |i: int|
                    if 0 <= i < self.children@.len() {
                        self.children@[i].view()
                    } else {
                        arbitrary()
                    },
            ),
        }
    }
}

/// The children of a node's view are the views of its children.
pub proof fn lemma_explorer_children(node: ExplorerNode)
    ensures
        node@.children == text::views(node.children@),
{
    reveal_with_fuel(<ExplorerNode as View>::view, 2);
    assert(node@.children =~= text::views(node.children@));
}

proof fn lemma_explorer_key(node: ExplorerNode)
    ensures
        node@.key == node.key@,
{
}

/// The name of a kind of script.
pub open spec fn kind_label(kind: ScriptKind) -> Text {
    match kind {
        ScriptKind::ModuleScript => "ModuleScript"@,
        ScriptKind::LocalScript => "LocalScript"@,
        _ => "Script"@,
    }
}

/// The name of a kind of script.
pub fn script_kind_name(kind: ScriptKind) -> (r: &'static str)
    ensures
        r@ == kind_label(kind),
{
    match kind {
        ScriptKind::ModuleScript => "ModuleScript",
        ScriptKind::LocalScript => "LocalScript",
        ScriptKind::ServerScript | ScriptKind::ClientScript | ScriptKind::LegacyScript => "Script",
    }
}

/// How a node is labelled.
pub open spec fn label_of(node: ExplorerView) -> Text {
    node.title + (match node.kind {
        ExplorerNodeKind::Service => " [Service]"@,
        ExplorerNodeKind::Folder => " [Folder]"@,
        ExplorerNodeKind::ModuleFolder => " [ModuleScript]"@,
        ExplorerNodeKind::Script(kind) => " ["@ + kind_label(kind) + "]"@,
    })
}

impl ExplorerNode {
    /// How the node is labelled.
    pub fn tree_label(&self) -> (r: String)
        ensures
            r@ == label_of(self@),
    {
        match self.kind {
            ExplorerNodeKind::Service => concat2(self.title.as_str(), " [Service]"),
            ExplorerNodeKind::Folder => concat2(self.title.as_str(), " [Folder]"),
            ExplorerNodeKind::ModuleFolder => concat2(self.title.as_str(), " [ModuleScript]"),
            ExplorerNodeKind::Script(kind) => {
                let tag = concat3(" [", script_kind_name(kind), "]");
                concat2(self.title.as_str(), tag.as_str())
            },
        }
    }
}

/// The names of the services that the explorer shows as such.
pub open spec fn is_shown_service(name: Text) -> bool {
    name == "Workspace"@ || name == "ReplicatedStorage"@ || name == "ServerStorage"@ || name
        == "ServerScriptService"@ || name == "Lighting"@ || name == "Players"@ || name
        == "RunService"@ || name == "HttpService"@ || name == "TweenService"@
}

fn shown_service(name: &str) -> (r: bool)
    ensures
        r == is_shown_service(name@),
{
    text_eq(name, "Workspace") || text_eq(name, "ReplicatedStorage") || text_eq(
        name,
        "ServerStorage",
    ) || text_eq(name, "ServerScriptService") || text_eq(name, "Lighting") || text_eq(
        name,
        "Players",
    ) || text_eq(name, "RunService") || text_eq(name, "HttpService") || text_eq(
        name,
        "TweenService",
    )
}

/// The key of a script.
pub open spec fn script_key(path: Text) -> Text {
    "script:"@ + path
}

/// The node of a script.
pub open spec fn script_entry(script: ScriptView) -> ExplorerView {
    ExplorerView {
        key: script_key(script.relative_path),
        title: script.name,
        kind: ExplorerNodeKind::Script(script.kind),
        container_path: script.container_path,
        relative_path: Some(script.relative_path),
        children: Seq::empty(),
    }
}

/// The nodes of the scripts of a directory. A script that stands for its directory is among them only
/// where it is kept.
pub open spec fn script_entries(scripts: Seq<ScriptView>, keep_init: bool) -> Seq<ExplorerView>
    decreases scripts.len(),
{
    if scripts.len() == 0 {
        Seq::empty()
    } else {
        let head = script_entries(scripts.drop_last(), keep_init);
        if layout::is_init(scripts.last()) && !keep_init {
            head
        } else {
            head.push(script_entry(scripts.last()))
        }
    }
}

/// The order of nodes by their titles.
pub open spec fn by_title() -> spec_fn(ExplorerView, ExplorerView) -> bool {
    |a: ExplorerView, b: ExplorerView| text::text_le(a.title, b.title)
}

/// The nodes of subdirectories, without those that hold nothing.
pub open spec fn dir_entries(dirs: Seq<(Text, DirView)>, path: Seq<Text>) -> Seq<ExplorerView>
    decreases dirs, 0nat,
{
    if dirs.len() == 0 {
        Seq::empty()
    } else {
        let head = dir_entries(dirs.drop_last(), path);
        match dir_entry(dirs.last().0, dirs.last().1, path.push(dirs.last().0)) {
            Some(node) => head.push(node),
            None => head,
        }
    }
}

/// The nodes of everything in a directory, in the order of their titles.
pub open spec fn dir_children(dir: DirView, path: Seq<Text>, keep_init: bool) -> Seq<ExplorerView>
    decreases dir, 1nat,
{
    order::sort_by(
        script_entries(dir.scripts, keep_init) + dir_entries(dir.directories, path),
        by_title(),
    )
}

/// The node of a directory: a module where a script stands for it, else a folder. A folder that
/// holds nothing leaves no node.
pub open spec fn dir_entry(name: Text, dir: DirView, path: Seq<Text>) -> Option<ExplorerView>
    decreases dir, 2nat,
{
    let children = dir_children(dir, path, false);
    match layout::init_of(dir.scripts) {
        Some(init) => Some(
            ExplorerView {
                key: script_key(init.relative_path),
                title: name,
                kind: ExplorerNodeKind::ModuleFolder,
                container_path: path,
                relative_path: Some(init.relative_path),
                children,
            },
        ),
        None => if children.len() == 0 {
            None
        } else {
            Some(
                ExplorerView {
                    key: "folder:"@ + text::join(path, seq!['/']),
                    title: name,
                    kind: ExplorerNodeKind::Folder,
                    container_path: path,
                    relative_path: None,
                    children,
                },
            )
        },
    }
}

/// The node of a directory at the top of a project: a service where its name is that of one.
pub open spec fn top_entry(name: Text, dir: DirView) -> Option<ExplorerView> {
    if is_shown_service(name) {
        Some(
            ExplorerView {
                key: "service:"@ + name,
                title: name,
                kind: ExplorerNodeKind::Service,
                container_path: seq![name],
                relative_path: None,
                children: dir_children(dir, seq![name], true),
            },
        )
    } else {
        dir_entry(name, dir, seq![name])
    }
}

/// The nodes of the directories at the top of a project.
pub open spec fn top_entries(dirs: Seq<(Text, DirView)>) -> Seq<ExplorerView>
    decreases dirs.len(),
{
    if dirs.len() == 0 {
        Seq::empty()
    } else {
        let head = top_entries(dirs.drop_last());
        match top_entry(dirs.last().0, dirs.last().1) {
            Some(node) => head.push(node),
            None => head,
        }
    }
}

/// The tree that the explorer shows of scripts sorted into directories.
pub open spec fn explorer_nodes(root: DirView) -> Seq<ExplorerView> {
    order::sort_by(script_entries(root.scripts, false) + top_entries(root.directories), by_title())
}

/// The tree that the explorer shows of files.
pub open spec fn explorer_of(files: Seq<FileView>) -> Result<Seq<ExplorerView>, Text> {
    match project::scripts_of(files) {
        Ok(scripts) => Ok(explorer_nodes(layout::insert_scripts(layout::empty_dir(), scripts))),
        Err(message) => Err(message),
    }
}

/// Adds a node to nodes in the order of their titles, behind those of the same title.
fn place_entry(nodes: &mut Vec<ExplorerNode>, node: ExplorerNode)
    ensures
        text::views(final(nodes)@) == order::insert_by(text::views(old(nodes)@), node@, by_title()),
{
    let ghost all = text::views(nodes@);
    let ghost le = by_title();
    let mut at: usize = nodes.len();
    assert(all.take(at as int) =~= all);
    assert(order::insert_by(all, node@, le) =~= order::insert_by(all.take(at as int), node@, le) + all.skip(
        at as int,
    ));
    while at > 0 && !text_at_most(nodes[at - 1].title.as_str(), node.title.as_str())
        invariant
            at <= nodes@.len(),
            all == text::views(nodes@),
            le == by_title(),
            order::insert_by(all, node@, le) == order::insert_by(all.take(at as int), node@, le) + all.skip(
                at as int,
            ),
        decreases at,
    {
        proof {
            let head = all.take(at as int);
            assert(head.last() == all[at - 1]);
            assert(head.drop_last() =~= all.take(at - 1));
            assert(order::insert_by(all.take(at - 1), node@, le).push(all[at - 1]) + all.skip(at as int)
                =~= order::insert_by(all.take(at - 1), node@, le) + all.skip(at - 1));
        }
        at -= 1;
    }
    proof {
        let head = all.take(at as int);
        if at > 0 {
            assert(head.last() == all[at - 1]);
        }
        assert(order::insert_by(head, node@, le) == head.push(node@));
        assert(head.push(node@) + all.skip(at as int) =~= all.insert(at as int, node@));
        assert(text::views(nodes@.insert(at as int, node)) =~= all.insert(at as int, node@));
    }
    nodes.insert(at, node);
}

proof fn lemma_title_push(nodes: Seq<ExplorerView>, node: ExplorerView)
    ensures
        order::sort_by(nodes.push(node), by_title()) == order::insert_by(
            order::sort_by(nodes, by_title()),
            node,
            by_title(),
        ),
{
    assert(nodes.push(node).drop_last() =~= nodes);
}

fn make_node(
    key: String,
    title: &str,
    kind: ExplorerNodeKind,
    container_path: &Vec<String>,
    relative_path: Option<String>,
    children: Vec<ExplorerNode>,
) -> (r: ExplorerNode)
    ensures
        r@ == (ExplorerView {
            key: key@,
            title: title@,
            kind,
            container_path: text::views(container_path@),
            relative_path: text::opt_view(relative_path),
            children: text::views(children@),
        }),
{
    let r = ExplorerNode {
        key,
        title: title.to_owned(),
        kind,
        container_path: copy_texts(container_path),
        relative_path,
        children,
    };
    proof {
        lemma_explorer_children(r);
    }
    r
}

/// The node of a script.
fn script_to_entry(script: &ProjectScript) -> (r: ExplorerNode)
    ensures
        r@ == script_entry(script@),
{
    let children: Vec<ExplorerNode> = Vec::new();
    assert(text::views(children@) =~= Seq::empty());
    make_node(
        concat2("script:", script.relative_path.as_str()),
        script.name.as_str(),
        ExplorerNodeKind::Script(script.kind),
        &script.container_path,
        Some(script.relative_path.as_str().to_owned()),
        children,
    )
}

/// The path of a subdirectory.
fn deeper_path(path: &Vec<String>, name: &str) -> (r: Vec<String>)
    ensures
        text::views(r@) == text::views(path@).push(name@),
{
    let mut r = copy_texts(path);
    let last = name.to_owned();
    proof {
        text::lemma_views_push(r@, last);
    }
    r.push(last);
    r
}

/// The nodes of everything in a directory, in the order of their titles.
pub fn build_directory_children(
    directory: &DirNode,
    path: &Vec<String>,
    skip_init_replacement: bool,
) -> (r: Vec<ExplorerNode>)
    ensures
        text::views(r@) == dir_children(directory@, text::views(path@), skip_init_replacement),
    decreases directory, 1nat,
{
    proof {
        layout::lemma_dir_view(*directory);
    }
    let ghost keep = skip_init_replacement;
    let ghost here = text::views(path@);
    let ghost scripts = text::views(directory.scripts@);
    let ghost dirs = layout::entries(directory.directories@);
    let mut out: Vec<ExplorerNode> = Vec::new();
    let ghost mut listed: Seq<ExplorerView> = Seq::empty();
    assert(text::views(out@) =~= order::sort_by(listed, by_title()));
    let mut i: usize = 0;
    assert(script_entries(scripts.take(0), keep) =~= Seq::empty());
    while i < directory.scripts.len()
        invariant
            i <= directory.scripts@.len(),
            scripts == text::views(directory.scripts@),
            keep == skip_init_replacement,
            listed == script_entries(scripts.take(i as int), keep),
            text::views(out@) == order::sort_by(listed, by_title()),
        decreases directory.scripts@.len() - i,
    {
        assert(scripts.take(i + 1).drop_last() =~= scripts.take(i as int));
        assert(scripts.take(i + 1).last() == directory.scripts@[i as int]@);
        if skip_init_replacement || !is_init_module(&directory.scripts[i]) {
            let node = script_to_entry(&directory.scripts[i]);
            proof {
                lemma_title_push(listed, node@);
                listed = listed.push(node@);
            }
            place_entry(&mut out, node);
        }
        i += 1;
    }
    assert(scripts.take(i as int) =~= scripts);
    let ghost first = listed;
    let mut k: usize = 0;
    assert(first + dir_entries(dirs.take(0), here) =~= first);
    while k < directory.directories.len()
        invariant
            k <= directory.directories@.len(),
            here == text::views(path@),
            dirs == layout::entries(directory.directories@),
            listed == first + dir_entries(dirs.take(k as int), here),
            text::views(out@) == order::sort_by(listed, by_title()),
        decreases directory.directories@.len() - k,
    {
        let entry = &directory.directories[k];
        assert(dirs.take(k + 1).drop_last() =~= dirs.take(k as int));
        assert(dirs.take(k + 1).last() == (entry.name@, entry.node@));
        assert(decreases_to!(directory => directory.directories@[k as int].node));
        let below = deeper_path(path, entry.name.as_str());
        match build_directory_node(entry.name.as_str(), &entry.node, &below) {
            Some(node) => {
                proof {
                    lemma_title_push(listed, node@);
                    assert((first + dir_entries(dirs.take(k as int), here)).push(node@) =~= first
                        + dir_entries(dirs.take(k as int), here).push(node@));
                    listed = listed.push(node@);
                }
                place_entry(&mut out, node);
            },
            None => {},
        }
        k += 1;
    }
    assert(dirs.take(k as int) =~= dirs);
    out
}

/// A path as text.
pub fn path_to_string(path: &Vec<String>) -> (r: String)
    ensures
        r@ == text::join(text::views(path@), seq!['/']),
{
    proof {
        reveal_strlit("/");
        assert("/"@ =~= seq!['/']);
    }
    joined(path, "/")
}

/// The node of a directory, where it leaves one.
pub fn build_directory_node(name: &str, directory: &DirNode, path: &Vec<String>) -> (r: Option<
    ExplorerNode,
>)
    ensures
        text::opt_view(r) == dir_entry(name@, directory@, text::views(path@)),
    decreases directory, 2nat,
{
    proof {
        layout::lemma_dir_view(*directory);
    }
    let children = build_directory_children(directory, path, false);
    if let Some(at) = find_init(&directory.scripts) {
        let init = &directory.scripts[at];
        return Some(
            make_node(
                concat2("script:", init.relative_path.as_str()),
                name,
                ExplorerNodeKind::ModuleFolder,
                path,
                Some(init.relative_path.as_str().to_owned()),
                children,
            ),
        );
    }
    if children.len() == 0 {
        return None;
    }
    Some(
        make_node(
            concat2("folder:", path_to_string(path).as_str()),
            name,
            ExplorerNodeKind::Folder,
            path,
            None,
            children,
        ),
    )
}

/// The node of a directory at the top of a project.
fn build_top_node(name: &str, directory: &DirNode) -> (r: Option<ExplorerNode>)
    ensures
        text::opt_view(r) == top_entry(name@, directory@),
{
    let mut path: Vec<String> = Vec::new();
    path.push(name.to_owned());
    assert(text::views(path@) =~= seq![name@]);
    if shown_service(name) {
        let children = build_directory_children(directory, &path, true);
        Some(
            make_node(
                concat2("service:", name),
                name,
                ExplorerNodeKind::Service,
                &path,
                None,
                children,
            ),
        )
    } else {
        build_directory_node(name, directory, &path)
    }
}

/// The tree that the explorer shows of scripts sorted into directories.
fn build_nodes(root: &DirNode) -> (r: Vec<ExplorerNode>)
    ensures
        text::views(r@) == explorer_nodes(root@),
{
    proof {
        layout::lemma_dir_view(*root);
    }
    let ghost scripts = text::views(root.scripts@);
    let ghost dirs = layout::entries(root.directories@);
    let mut out: Vec<ExplorerNode> = Vec::new();
    let ghost mut listed: Seq<ExplorerView> = Seq::empty();
    assert(text::views(out@) =~= order::sort_by(listed, by_title()));
    let mut i: usize = 0;
    assert(script_entries(scripts.take(0), false) =~= Seq::empty());
    while i < root.scripts.len()
        invariant
            i <= root.scripts@.len(),
            scripts == text::views(root.scripts@),
            listed == script_entries(scripts.take(i as int), false),
            text::views(out@) == order::sort_by(listed, by_title()),
        decreases root.scripts@.len() - i,
    {
        assert(scripts.take(i + 1).drop_last() =~= scripts.take(i as int));
        assert(scripts.take(i + 1).last() == root.scripts@[i as int]@);
        if !is_init_module(&root.scripts[i]) {
            let node = script_to_entry(&root.scripts[i]);
            proof {
                lemma_title_push(listed, node@);
                listed = listed.push(node@);
            }
            place_entry(&mut out, node);
        }
        i += 1;
    }
    assert(scripts.take(i as int) =~= scripts);
    let ghost first = listed;
    let mut k: usize = 0;
    assert(first + top_entries(dirs.take(0)) =~= first);
    while k < root.directories.len()
        invariant
            k <= root.directories@.len(),
            dirs == layout::entries(root.directories@),
            listed == first + top_entries(dirs.take(k as int)),
            text::views(out@) == order::sort_by(listed, by_title()),
        decreases root.directories@.len() - k,
    {
        let entry = &root.directories[k];
        assert(dirs.take(k + 1).drop_last() =~= dirs.take(k as int));
        assert(dirs.take(k + 1).last() == (entry.name@, entry.node@));
        match build_top_node(entry.name.as_str(), &entry.node) {
            Some(node) => {
                proof {
                    lemma_title_push(listed, node@);
                    assert((first + top_entries(dirs.take(k as int))).push(node@) =~= first
                        + top_entries(dirs.take(k as int)).push(node@));
                    listed = listed.push(node@);
                }
                place_entry(&mut out, node);
            },
            None => {},
        }
        k += 1;
    }
    assert(dirs.take(k as int) =~= dirs);
    out
}

/// A tree or an error, by its views.
pub open spec fn explorer_outcome(r: Result<Vec<ExplorerNode>, Error>) -> Result<
    Seq<ExplorerView>,
    Text,
> {
    match r {
        Ok(nodes) => Ok(text::views(nodes@)),
        Err(error) => Err(error@),
    }
}

/// The tree that the explorer shows of a project.
pub fn build_explorer(project: &LoadedProject) -> (r: Result<Vec<ExplorerNode>, Error>)
    ensures
        explorer_outcome(r) == explorer_of(project@),
{
    match project.scripts() {
        Ok(scripts) => {
            let root = sort_scripts(scripts);
            Ok(build_nodes(&root))
        },
        Err(error) => Err(error),
    }
}

/// The first node with the given key, each node before the ones below it.
pub open spec fn find_key(nodes: Seq<ExplorerView>, key: Text) -> Option<ExplorerView>
    decreases nodes, 0nat,
{
    if nodes.len() == 0 {
        None
    } else {
        match find_key(nodes.drop_last(), key) {
            Some(node) => Some(node),
            None => find_key_in(nodes.last(), key),
        }
    }
}

/// The first node with the given key among a node and the ones below it.
pub open spec fn find_key_in(node: ExplorerView, key: Text) -> Option<ExplorerView>
    decreases node, 1nat,
{
    if node.key == key {
        Some(node)
    } else {
        find_key(node.children, key)
    }
}

proof fn lemma_found(nodes: Seq<ExplorerView>, key: Text, k: int)
    requires
        0 <= k <= nodes.len(),
        find_key(nodes.take(k), key) is Some,
    ensures
        find_key(nodes, key) == find_key(nodes.take(k), key),
    decreases nodes.len() - k,
{
    if k == nodes.len() {
        assert(nodes.take(k) =~= nodes);
    } else {
        assert(nodes.take(k + 1).drop_last() =~= nodes.take(k));
        lemma_found(nodes, key, k + 1);
    }
}

/// The first node with the given key, each node before the ones below it.
pub fn find_node_by_key<'a>(nodes: &'a Vec<ExplorerNode>, key: &str) -> (r: Option<
    &'a ExplorerNode,
>)
    ensures
        match r {
            Some(node) => find_key(text::views(nodes@), key@) == Some(node@),
            None => find_key(text::views(nodes@), key@) is None,
        },
    decreases nodes,
{
    let ghost all = text::views(nodes@);
    let mut i: usize = 0;
    assert(all.take(0) =~= Seq::empty());
    while i < nodes.len()
        invariant
            i <= nodes@.len(),
            all == text::views(nodes@),
            find_key(all.take(i as int), key@) is None,
        decreases nodes@.len() - i,
    {
        proof {
            assert(all.take(i + 1).drop_last() =~= all.take(i as int));
            assert(all.take(i + 1).last() == nodes@[i as int]@);
            lemma_explorer_children(nodes@[i as int]);
            lemma_explorer_key(nodes@[i as int]);
            reveal_with_fuel(find_key, 2);
            reveal_with_fuel(find_key_in, 2);
        }
        if text_eq(nodes[i].key.as_str(), key) {
            proof {
                lemma_found(all, key@, i + 1);
            }
            return Some(&nodes[i]);
        }
        assert(decreases_to!(nodes => nodes@[i as int].children));
        if let Some(found) = find_node_by_key(&nodes[i].children, key) {
            proof {
                lemma_found(all, key@, i + 1);
            }
            return Some(found);
        }
        i += 1;
    }
    assert(all.take(i as int) =~= all);
    None
}

// ---------------------------------------------------------------------------------------------
// What the explorer shows
// ---------------------------------------------------------------------------------------------

/// Whether a node stands where the titles lead to from the given nodes.
pub open spec fn listed(nodes: Seq<ExplorerView>, steps: Seq<Text>, node: ExplorerView) -> bool
    decreases steps.len(),
{
    if steps.len() == 0 {
        nodes.contains(node)
    } else {
        exists|i: int|
            0 <= i < nodes.len() && (#[trigger] nodes[i]).title == steps[0] && nodes[i].kind !is Script
                && nodes[i].container_path.len() > 0 && nodes[i].container_path.last() == steps[0]
                && listed(
                nodes[i].children,
                steps.drop_first(),
                node,
            )
    }
}

/// Nodes that are sorted by title are in the order of their titles, and none is lost or added.
pub proof fn law_explorer_sorted(nodes: Seq<ExplorerView>)
    ensures
        forall|i: int, j: int|
            0 <= i < j < order::sort_by(nodes, by_title()).len() ==> text::text_le(
                (#[trigger] order::sort_by(nodes, by_title())[i]).title,
                (#[trigger] order::sort_by(nodes, by_title())[j]).title,
            ),
        order::sort_by(nodes, by_title()).to_multiset() == nodes.to_multiset(),
{
    let le = by_title();
    assert forall|a: ExplorerView, b: ExplorerView| #[trigger] le(a, b) || le(b, a) by {
        text::lemma_text_le_total(a.title, b.title);
    }
    assert forall|a: ExplorerView, b: ExplorerView, c: ExplorerView| #[trigger]
        le(a, b) && #[trigger] le(b, c) implies le(a, c) by {
        text::lemma_text_le_transitive(a.title, b.title, c.title);
    }
    order::lemma_sort_by(nodes, le);
    let sorted = order::sort_by(nodes, le);
    assert forall|i: int, j: int| 0 <= i < j < sorted.len() implies text::text_le(
        (#[trigger] sorted[i]).title,
        (#[trigger] sorted[j]).title,
    ) by {
        assert(le(sorted[i], sorted[j]));
    }
}

proof fn lemma_sorted_lists(nodes: Seq<ExplorerView>, node: ExplorerView)
    requires
        nodes.contains(node),
    ensures
        order::sort_by(nodes, by_title()).contains(node),
{
    law_explorer_sorted(nodes);
    nodes.to_multiset_ensures();
    order::sort_by(nodes, by_title()).to_multiset_ensures();
    assert(nodes.to_multiset().count(node) > 0);
}

proof fn lemma_script_entries(scripts: Seq<ScriptView>, keep_init: bool, script: ScriptView)
    requires
        scripts.contains(script),
        keep_init || !layout::is_init(script),
    ensures
        script_entries(scripts, keep_init).contains(script_entry(script)),
    decreases scripts.len(),
{
    let i = choose|i: int| 0 <= i < scripts.len() && scripts[i] == script;
    let init = scripts.drop_last();
    let all = script_entries(scripts, keep_init);
    let head = script_entries(init, keep_init);
    if i < init.len() {
        assert(init[i] == script);
        lemma_script_entries(init, keep_init, script);
        let j = choose|j: int| 0 <= j < head.len() && head[j] == script_entry(script);
        assert(all[j] == script_entry(script));
    } else {
        assert(all[head.len() as int] == script_entry(script));
    }
}

proof fn lemma_dir_entries(dirs: Seq<(Text, DirView)>, path: Seq<Text>, i: int)
    requires
        0 <= i < dirs.len(),
        dir_entry(dirs[i].0, dirs[i].1, path.push(dirs[i].0)) is Some,
    ensures
        dir_entries(dirs, path).contains(
            dir_entry(dirs[i].0, dirs[i].1, path.push(dirs[i].0))->Some_0,
        ),
    decreases dirs.len(),
{
    let node = dir_entry(dirs[i].0, dirs[i].1, path.push(dirs[i].0))->Some_0;
    let init = dirs.drop_last();
    let head = dir_entries(init, path);
    let all = dir_entries(dirs, path);
    if i < init.len() {
        assert(init[i] == dirs[i]);
        lemma_dir_entries(init, path, i);
        let j = choose|j: int| 0 <= j < head.len() && head[j] == node;
        assert(all[j] == node);
    } else {
        assert(all[head.len() as int] == node);
    }
}

proof fn lemma_top_entries(dirs: Seq<(Text, DirView)>, i: int)
    requires
        0 <= i < dirs.len(),
        top_entry(dirs[i].0, dirs[i].1) is Some,
    ensures
        top_entries(dirs).contains(top_entry(dirs[i].0, dirs[i].1)->Some_0),
    decreases dirs.len(),
{
    let node = top_entry(dirs[i].0, dirs[i].1)->Some_0;
    let init = dirs.drop_last();
    let head = top_entries(init);
    let all = top_entries(dirs);
    if i < init.len() {
        assert(init[i] == dirs[i]);
        lemma_top_entries(init, i);
        let j = choose|j: int| 0 <= j < head.len() && head[j] == node;
        assert(all[j] == node);
    } else {
        assert(all[head.len() as int] == node);
    }
}

proof fn lemma_listed(
    dir: DirView,
    here: Seq<Text>,
    keep_init: bool,
    steps: Seq<Text>,
    script: ScriptView,
)
    requires
        placement::holds(dir, steps, ItemView::Script(script)),
        !layout::is_init(script) || (steps.len() == 0 && keep_init),
    ensures
        listed(dir_children(dir, here, keep_init), steps, script_entry(script)),
    decreases steps.len(),
{
    let item = ItemView::Script(script);
    let scripts = script_entries(dir.scripts, keep_init);
    let dirs = dir_entries(dir.directories, here);
    let node = script_entry(script);
    if steps.len() == 0 {
        lemma_script_entries(dir.scripts, keep_init, script);
        placement::lemma_contains_left(scripts, dirs, node);
        lemma_sorted_lists(scripts + dirs, node);
    } else {
        let i = choose|i: int|
            0 <= i < dir.directories.len() && (#[trigger] dir.directories[i]).0 == steps[0]
                && placement::holds(dir.directories[i].1, steps.drop_first(), item);
        let sub = dir.directories[i].1;
        let below_path = here.push(steps[0]);
        lemma_listed(sub, below_path, false, steps.drop_first(), script);
        let below = dir_entry(steps[0], sub, below_path)->Some_0;
        assert(below.title == steps[0] && below.children == dir_children(sub, below_path, false));
        lemma_dir_entries(dir.directories, here, i);
        placement::lemma_contains_left(scripts, dirs, below);
        lemma_sorted_lists(scripts + dirs, below);
        let sorted = order::sort_by(scripts + dirs, by_title());
        let j = choose|j: int| 0 <= j < sorted.len() && sorted[j] == below;
        assert(sorted[j].title == steps[0]);
    }
}

/// The explorer shows every script under the directories of its path. Only a script that stands for
/// its directory has no node of its own, unless the directory is a service.
pub proof fn law_explorer_shows_scripts(scripts: Seq<ScriptView>, k: int)
    requires
        0 <= k < scripts.len(),
        !layout::is_init(scripts[k]) || (scripts[k].container_path.len() == 1 && is_shown_service(
            scripts[k].container_path[0],
        )),
    ensures
        listed(
            explorer_nodes(layout::insert_scripts(layout::empty_dir(), scripts)),
            scripts[k].container_path,
            script_entry(scripts[k]),
        ),
        script_entry(scripts[k]).title == scripts[k].name,
        script_entry(scripts[k]).kind == ExplorerNodeKind::Script(scripts[k].kind),
        script_entry(scripts[k]).container_path == scripts[k].container_path,
        script_entry(scripts[k]).relative_path == Some(scripts[k].relative_path),
        script_entry(scripts[k]).children.len() == 0,
{
    let script = scripts[k];
    let path = script.container_path;
    let item = ItemView::Script(script);
    let root = layout::insert_scripts(layout::empty_dir(), scripts);
    let node = script_entry(script);
    placement::lemma_scripts_held(scripts, k);
    let own = script_entries(root.scripts, false);
    let tops = top_entries(root.directories);
    if path.len() == 0 {
        lemma_script_entries(root.scripts, false, script);
        placement::lemma_contains_left(own, tops, node);
        lemma_sorted_lists(own + tops, node);
    } else {
        let steps = path.drop_first();
        let i = choose|i: int|
            0 <= i < root.directories.len() && (#[trigger] root.directories[i]).0 == path[0]
                && placement::holds(root.directories[i].1, steps, item);
        let dir = root.directories[i].1;
        let here = seq![path[0]];
        let keep = is_shown_service(path[0]);
        lemma_listed(dir, here, keep, steps, script);
        let top = top_entry(path[0], dir)->Some_0;
        assert(top.title == path[0] && top.children == dir_children(dir, here, keep));
        lemma_top_entries(root.directories, i);
        placement::lemma_contains_left(own, tops, top);
        lemma_sorted_lists(own + tops, top);
        let sorted = explorer_nodes(root);
        let j = choose|j: int| 0 <= j < sorted.len() && sorted[j] == top;
        assert(sorted[j].title == path[0]);
    }
}

/// Whether a node is one of the given ones or stands below one of them.
pub open spec fn among(nodes: Seq<ExplorerView>, node: ExplorerView) -> bool
    decreases nodes, 0nat,
{
    nodes.len() > 0 && (among(nodes.drop_last(), node) || within(nodes.last(), node))
}

/// Whether a node is the given one or stands below it.
pub open spec fn within(top: ExplorerView, node: ExplorerView) -> bool
    decreases top, 1nat,
{
    node == top || among(top.children, node)
}

/// Looking for a key finds a node of the tree that has it, and nothing where none has it.
pub proof fn law_keys_are_found(nodes: Seq<ExplorerView>, key: Text)
    ensures
        match find_key(nodes, key) {
            Some(node) => node.key == key && among(nodes, node),
            None => forall|node: ExplorerView| #[trigger] among(nodes, node) ==> node.key != key,
        },
    decreases nodes, 0nat,
{
    if nodes.len() > 0 {
        law_keys_are_found(nodes.drop_last(), key);
        lemma_key_within(nodes.last(), key);
        if find_key(nodes, key) is None {
            assert forall|node: ExplorerView| #[trigger] among(nodes, node) implies node.key != key by {
                assert(among(nodes.drop_last(), node) || within(nodes.last(), node));
            }
        }
    }
}

proof fn lemma_key_within(top: ExplorerView, key: Text)
    ensures
        match find_key_in(top, key) {
            Some(node) => node.key == key && within(top, node),
            None => forall|node: ExplorerView| #[trigger] within(top, node) ==> node.key != key,
        },
    decreases top, 1nat,
{
    law_keys_are_found(top.children, key);
    if find_key_in(top, key) is None {
        assert forall|node: ExplorerView| #[trigger] within(top, node) implies node.key != key by {
            assert(node == top || among(top.children, node));
        }
    }
}

/// A script is found under its own key alone: different files have different keys.
pub proof fn law_keys_tell_scripts_apart(a: ScriptView, b: ScriptView)
    ensures
        script_entry(a).key == script_entry(b).key ==> a.relative_path == b.relative_path,
        script_entry(a).key == script_key(a.relative_path),
{
    if script_entry(a).key == script_entry(b).key {
        let n = "script:"@.len() as int;
        assert(script_entry(a).key.skip(n) =~= a.relative_path);
        assert(script_entry(b).key.skip(n) =~= b.relative_path);
    }
}

/// A service that stands at the top of a project is shown as such even where it holds nothing; any other
/// directory is shown as what its contents make of it.
pub proof fn law_services_are_shown(name: Text, dir: DirView)
    ensures
        ({
            let shown = top_entry(name, dir);
            if laws::server_services().contains(name) {
                &&& shown matches Some(node)
                &&& node.kind == ExplorerNodeKind::Service
                &&& node.title == name
                &&& node.container_path == seq![name]
                &&& node.relative_path is None
            } else {
                shown matches Some(node) ==> node.kind != ExplorerNodeKind::Service && node.title
                    == name && node.container_path == seq![name]
            }
        }),
{
    let names = laws::server_services();
    if is_shown_service(name) {
        assert(names[0] == "Workspace"@ && names[1] == "ReplicatedStorage"@ && names[2]
            == "ServerStorage"@ && names[3] == "ServerScriptService"@ && names[4] == "Lighting"@
            && names[5] == "Players"@ && names[6] == "RunService"@ && names[7] == "HttpService"@
            && names[8] == "TweenService"@);
        assert(names.contains(name));
    } else if names.contains(name) {
        let k = choose|k: int| 0 <= k < names.len() && names[k] == name;
        assert(is_shown_service(names[k]));
    }
}

/// A directory that a script stands for is shown as a module with the file of that script; one that
/// holds something else is shown as a folder without a file, and one that holds nothing is not shown.
pub proof fn law_directories_are_shown(name: Text, dir: DirView, path: Seq<Text>)
    ensures
        ({
            let has_init = exists|k: int|
                0 <= k < dir.scripts.len() && layout::is_init(#[trigger] dir.scripts[k]);
            match dir_entry(name, dir, path) {
                Some(node) => {
                    &&& node.title == name
                    &&& node.container_path == path
                    &&& if has_init {
                        &&& node.kind == ExplorerNodeKind::ModuleFolder
                        &&& exists|k: int|
                            0 <= k < dir.scripts.len() && layout::is_init(#[trigger] dir.scripts[k])
                                && node.relative_path == Some(dir.scripts[k].relative_path)
                                && node.key == script_entry(dir.scripts[k]).key
                    } else {
                        &&& node.kind == ExplorerNodeKind::Folder
                        &&& node.relative_path is None
                        &&& node.children.len() > 0
                    }
                },
                None => !has_init && dir_children(dir, path, false).len() == 0,
            }
        }),
{
    lemma_init_found(dir.scripts);
}

proof fn lemma_init_found(scripts: Seq<ScriptView>)
    ensures
        match layout::init_of(scripts) {
            Some(init) => exists|k: int|
                0 <= k < scripts.len() && layout::is_init(#[trigger] scripts[k]) && scripts[k] == init,
            None => forall|k: int| 0 <= k < scripts.len() ==> !layout::is_init(#[trigger] scripts[k]),
        },
    decreases scripts.len(),
{
    if scripts.len() > 0 {
        let rest = scripts.drop_first();
        lemma_init_found(rest);
        assert(forall|k: int| 0 <= k < rest.len() ==> #[trigger] rest[k] == scripts[k + 1]);
        if !layout::is_init(scripts[0]) {
            match layout::init_of(rest) {
                Some(init) => {
                    let k = choose|k: int|
                        0 <= k < rest.len() && layout::is_init(#[trigger] rest[k]) && rest[k] == init;
                    assert(scripts[k + 1] == init);
                },
                None => {
                    assert forall|k: int| 0 <= k < scripts.len() implies !layout::is_init(
                        #[trigger] scripts[k],
                    ) by {
                        if k > 0 {
                            assert(rest[k - 1] == scripts[k]);
                        }
                    }
                },
            }
        }
    }
}

} // verus!
