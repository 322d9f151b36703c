//! The layout of a project: its scripts and data files sorted into directories, and the instance
//! tree that the directories describe.

use vstd::prelude::*;
use vstd::string::*;

use crate::error::Error;
use crate::order::{self, reversed};
use crate::project::{
    self, ExternalFile, ExternalView, FileView, LoadedProject, MountView, NodeView,
    ProjectLayout, ProjectMount, ProjectNode, ProjectScript, ScriptKind, ScriptView,
};
use crate::text::{self, Text, copy_bytes, copy_texts, text_at_most, text_eq};

verus! {

// ---------------------------------------------------------------------------------------------
// Directories
// ---------------------------------------------------------------------------------------------

/// A directory of a project: its subdirectories in the order of their names, and the scripts and
/// data files that stand in it.
pub struct DirNode {
    pub directories: Vec<DirEntry>,
    pub scripts: Vec<ProjectScript>,
    pub external_files: Vec<ExternalFile>,
}

/// A subdirectory under its name.
pub struct DirEntry {
    pub name: String,
    pub node: DirNode,
}

/// The content of a [`DirNode`].
#[verifier::ext_equal]
pub struct DirView {
    pub directories: Seq<(Text, DirView)>,
    pub scripts: Seq<ScriptView>,
    pub external_files: Seq<ExternalView>,
}

impl View for DirNode {
    type V = DirView;

    open spec fn view(&self) -> DirView
        decreases self,
    {
        DirView {
            directories: Seq::new(
                self.directories@.len(),
                |i: int|
                    if 0 <= i < self.directories@.len() {
                        (self.directories@[i].name@, self.directories@[i].node.view())
                    } else {
                        arbitrary()
                    },
            ),
            scripts: text::views(self.scripts@),
            external_files: text::views(self.external_files@),
        }
    }
}

/// The named contents of a list of subdirectories.
pub open spec fn entries(list: Seq<DirEntry>) -> Seq<(Text, DirView)> {
    Seq::new(list.len(), |i: int| (list[i].name@, list[i].node@))
}

/// The subdirectories of a directory's view are the named contents of its subdirectories.
pub proof fn lemma_dir_view(dir: DirNode)
    ensures
        dir@.directories == entries(dir.directories@),
        dir@.scripts == text::views(dir.scripts@),
        dir@.external_files == text::views(dir.external_files@),
{
    reveal_with_fuel(<DirNode as View>::view, 2);
    assert(dir@.directories =~= entries(dir.directories@));
}

/// The directory that holds nothing.
pub open spec fn empty_dir() -> DirView {
    DirView {
        directories: Seq::empty(),
        scripts: Seq::empty(),
        external_files: Seq::empty(),
    }
}

/// Something that stands in a directory.
pub enum ItemView {
    Script(ScriptView),
    External(ExternalView),
}

/// The position at which a subdirectory of this name stands or belongs: behind all names that come
/// before it.
pub open spec fn slot(dirs: Seq<(Text, DirView)>, name: Text) -> nat
    decreases dirs.len(),
{
    if dirs.len() > 0 && text::text_lt(dirs[0].0, name) {
        1 + slot(dirs.drop_first(), name)
    } else {
        0
    }
}

/// The directory with an item added behind the others of its kind, in the subdirectory that `path`
/// leads to. Missing subdirectories come into being.
pub open spec fn dir_insert(dir: DirView, path: Seq<Text>, item: ItemView) -> DirView
    decreases path.len(),
{
    if path.len() == 0 {
        match item {
            ItemView::Script(script) => DirView { scripts: dir.scripts.push(script), ..dir },
            ItemView::External(file) => DirView {
                external_files: dir.external_files.push(file),
                ..dir
            },
        }
    } else {
        let at = slot(dir.directories, path[0]) as int;
        let rest = path.drop_first();
        if at < dir.directories.len() && dir.directories[at].0 == path[0] {
            DirView {
                directories: dir.directories.update(
                    at,
                    (path[0], dir_insert(dir.directories[at].1, rest, item)),
                ),
                ..dir
            }
        } else {
            DirView {
                directories: dir.directories.insert(
                    at,
                    (path[0], dir_insert(empty_dir(), rest, item)),
                ),
                ..dir
            }
        }
    }
}

/// A script or a data file.
pub enum DirItem {
    Script(ProjectScript),
    External(ExternalFile),
}

impl View for DirItem {
    type V = ItemView;

    open spec fn view(&self) -> ItemView {
        match self {
            DirItem::Script(script) => ItemView::Script(script@),
            DirItem::External(file) => ItemView::External(file@),
        }
    }
}

/// The position at which a subdirectory of this name stands or belongs.
fn find_slot(list: &Vec<DirEntry>, name: &str) -> (r: usize)
    ensures
        r == slot(entries(list@), name@),
        r <= list@.len(),
{
    let ghost all = entries(list@);
    let mut i: usize = 0;
    assert(all.skip(0) =~= all);
    while i < list.len() && text_at_most(list[i].name.as_str(), name) && !text_eq(
        list[i].name.as_str(),
        name,
    )
        invariant
            i <= list@.len(),
            all == entries(list@),
            slot(all, name@) == i + slot(all.skip(i as int), name@),
        decreases list@.len() - i,
    {
        assert(all.skip(i as int).drop_first() =~= all.skip(i + 1));
        i += 1;
    }
    proof {
        if i < list@.len() {
            assert(all.skip(i as int)[0] == all[i as int]);
        }
    }
    i
}

impl DirNode {
    /// The directory that holds nothing.
    pub fn empty() -> (r: DirNode)
        ensures
            r@ == empty_dir(),
    {
        let r = DirNode {
            directories: Vec::new(),
            scripts: Vec::new(),
            external_files: Vec::new(),
        };
        proof {
            lemma_dir_view(r);
            assert(r@.directories =~= Seq::empty());
            assert(r@.scripts =~= Seq::empty());
            assert(r@.external_files =~= Seq::empty());
        }
        r
    }
}

/// Adds an item to the directory that `path` leads to from position `from` on.
fn insert_item(root: &mut DirNode, path: &Vec<String>, from: usize, item: DirItem)
    requires
        from <= path@.len(),
    ensures
        final(root)@ == dir_insert(old(root)@, text::views(path@).skip(from as int), item@),
    decreases path@.len() - from,
{
    let ghost rest = text::views(path@).skip(from as int);
    let ghost before = root@;
    proof {
        lemma_dir_view(*root);
    }
    if from == path.len() {
        match item {
            DirItem::Script(script) => {
                proof {
                    text::lemma_views_push(root.scripts@, script);
                }
                root.scripts.push(script);
            },
            DirItem::External(file) => {
                proof {
                    text::lemma_views_push(root.external_files@, file);
                }
                root.external_files.push(file);
            },
        }
        proof {
            lemma_dir_view(*root);
            assert(root@ =~= dir_insert(before, rest, item@));
        }
    } else {
        let name = path[from].as_str();
        let at = find_slot(&root.directories, name);
        let ghost old_list = root.directories@;
        assert(rest[0] == name@);
        assert(rest.drop_first() =~= text::views(path@).skip(from + 1));
        if at < root.directories.len() && text_eq(root.directories[at].name.as_str(), name) {
            let mut entry = root.directories.remove(at);
            insert_item(&mut entry.node, path, from + 1, item);
            root.directories.insert(at, entry);
            proof {
                lemma_dir_view(*root);
                assert(root@.directories =~= before.directories.update(
                    at as int,
                    (name@, dir_insert(before.directories[at as int].1, rest.drop_first(), item@)),
                ));
                assert(root@ =~= dir_insert(before, rest, item@));
            }
        } else {
            let mut node = DirNode::empty();
            insert_item(&mut node, path, from + 1, item);
            root.directories.insert(at, DirEntry { name: path[from].clone(), node });
            proof {
                lemma_dir_view(*root);
                assert(root@.directories =~= before.directories.insert(
                    at as int,
                    (name@, dir_insert(empty_dir(), rest.drop_first(), item@)),
                ));
                assert(root@ =~= dir_insert(before, rest, item@));
            }
        }
    }
}

/// Adds a script to the directory that `path` leads to.
pub fn insert_script(root: &mut DirNode, path: &Vec<String>, script: ProjectScript)
    ensures
        final(root)@ == dir_insert(old(root)@, text::views(path@), ItemView::Script(script@)),
{
    assert(text::views(path@).skip(0) =~= text::views(path@));
    insert_item(root, path, 0, DirItem::Script(script));
}

/// Adds a data file to the directory that `path` leads to.
pub fn insert_external_file(root: &mut DirNode, path: &Vec<String>, external_file: ExternalFile)
    ensures
        final(root)@ == dir_insert(old(root)@, text::views(path@), ItemView::External(external_file@)),
{
    assert(text::views(path@).skip(0) =~= text::views(path@));
    insert_item(root, path, 0, DirItem::External(external_file));
}

// ---------------------------------------------------------------------------------------------
// Names with a meaning
// ---------------------------------------------------------------------------------------------

/// The names of top-level directories whose contents go below the service of the same name.
pub open spec fn is_service(name: Text) -> bool {
    ||| name == "Workspace"@
    ||| name == "ReplicatedFirst"@
    ||| name == "ReplicatedStorage"@
    ||| name == "ServerStorage"@
    ||| name == "ServerScriptService"@
    ||| name == "StarterPlayer"@
    ||| name == "Lighting"@
    ||| name == "Players"@
    ||| name == "RunService"@
    ||| name == "HttpService"@
    ||| name == "TweenService"@
}

/// Whether the contents of a top-level directory of this name go below a service.
pub fn is_service_name(name: &str) -> (r: bool)
    ensures
        r == is_service(name@),
{
    text_eq(name, "Workspace") || text_eq(name, "ReplicatedFirst") || text_eq(
        name,
        "ReplicatedStorage",
    ) || text_eq(name, "ServerStorage") || text_eq(name, "ServerScriptService") || text_eq(
        name,
        "StarterPlayer",
    ) || text_eq(name, "Lighting") || text_eq(name, "Players") || text_eq(name, "RunService")
        || text_eq(name, "HttpService") || text_eq(name, "TweenService")
}

/// The class of the containers that have one of their own.
pub open spec fn special_class(name: Text) -> Option<Text> {
    if name == "StarterPlayerScripts"@ {
        Some("StarterPlayerScripts"@)
    } else if name == "PlayerScripts"@ {
        Some("PlayerScripts"@)
    } else {
        None
    }
}

/// The class of a directory whose name gives it one of its own.
pub fn special_container_class_name(name: &str) -> (r: Option<&'static str>)
    ensures
        r is Some == special_class(name@) is Some,
        r matches Some(class) ==> Some(class@) == special_class(name@),
{
    if text_eq(name, "StarterPlayerScripts") {
        Some("StarterPlayerScripts")
    } else if text_eq(name, "PlayerScripts") {
        Some("PlayerScripts")
    } else {
        None
    }
}

/// Whether a script stands for the directory that it is in.
pub open spec fn is_init(script: ScriptView) -> bool {
    script.kind == ScriptKind::ModuleScript && script.name == "init"@
}

/// Whether a script stands for the directory that it is in.
pub fn is_init_module(script: &ProjectScript) -> (r: bool)
    ensures
        r == is_init(script@),
{
    match script.kind {
        ScriptKind::ModuleScript => text_eq(script.name.as_str(), "init"),
        _ => false,
    }
}

/// Whether the contents of a top-level directory of this name go below a service: the service of that
/// name, or the one that holds the scripts of starting players.
pub open spec fn goes_below_service(name: Text) -> bool {
    is_service(name) || name == "StarterPlayerScripts"@
}

// ---------------------------------------------------------------------------------------------
// Nodes
// ---------------------------------------------------------------------------------------------

/// The node of a script.
pub open spec fn script_node(script: ScriptView) -> NodeView {
    NodeView {
        name: script.name,
        class_name: project::kind_class(script.kind),
        source: Some(script.source),
        run_context: project::kind_context(script.kind),
        value: None,
        script_path: Some(script.relative_path),
        auto_run: script.auto_run,
        children: Seq::empty(),
    }
}

/// The node of a data file: a string value that holds the bytes of the file.
pub open spec fn external_node(file: ExternalView) -> NodeView {
    NodeView {
        name: file.name,
        class_name: "StringValue"@,
        source: None,
        run_context: None,
        value: Some(file.bytes),
        script_path: Some(file.relative_path),
        auto_run: false,
        children: Seq::empty(),
    }
}

/// A node of the given class that only holds other nodes.
pub open spec fn container_node(name: Text, class_name: Text, children: Seq<NodeView>) -> NodeView {
    NodeView {
        name,
        class_name,
        source: None,
        run_context: None,
        value: None,
        script_path: None,
        auto_run: false,
        children,
    }
}

/// The node of a script.
pub fn script_to_node(script: &ProjectScript) -> (r: ProjectNode)
    ensures
        r@ == script_node(script@),
{
    let run_context = match script.kind.run_context() {
        Some(context) => Some(context.to_owned()),
        None => None,
    };
    let node = ProjectNode {
        name: script.name.clone(),
        class_name: script.kind.class_name().to_owned(),
        source: Some(script.source.clone()),
        run_context,
        value: None,
        script_path: Some(script.relative_path.clone()),
        auto_run: script.auto_run,
        children: Vec::new(),
    };
    assert(node@.children =~= Seq::empty());
    node
}

/// The node of a data file.
pub fn external_file_to_node(external_file: &ExternalFile) -> (r: ProjectNode)
    ensures
        r@ == external_node(external_file@),
{
    let node = ProjectNode {
        name: external_file.name.clone(),
        class_name: "StringValue".to_owned(),
        source: None,
        run_context: None,
        value: Some(copy_bytes(external_file.bytes.as_slice())),
        script_path: Some(external_file.relative_path.clone()),
        auto_run: false,
        children: Vec::new(),
    };
    assert(node@.children =~= Seq::empty());
    node
}

/// A node of the given class that only holds other nodes.
pub fn make_container(name: &str, class_name: &str, children: Vec<ProjectNode>) -> (r: ProjectNode)
    ensures
        r@ == container_node(name@, class_name@, text::views(children@)),
{
    let node = ProjectNode {
        name: name.to_owned(),
        class_name: class_name.to_owned(),
        source: None,
        run_context: None,
        value: None,
        script_path: None,
        auto_run: false,
        children,
    };
    proof {
        project::lemma_node_children(node);
        assert(node@ =~= container_node(name@, class_name@, text::views(children@)));
    }
    node
}

// ---------------------------------------------------------------------------------------------
// Sorting
// ---------------------------------------------------------------------------------------------

/// The order of nodes by their names.
pub open spec fn by_name() -> spec_fn(NodeView, NodeView) -> bool {
    |a: NodeView, b: NodeView| text::text_le(a.name, b.name)
}

/// A node added to nodes in the order of their names, behind those of the same name.
pub open spec fn insert_node(nodes: Seq<NodeView>, node: NodeView) -> Seq<NodeView> {
    order::insert_by(nodes, node, by_name())
}

/// The nodes in the order of their names; nodes of the same name keep their order.
pub open spec fn sort_nodes(nodes: Seq<NodeView>) -> Seq<NodeView> {
    order::sort_by(nodes, by_name())
}

/// Sorting nodes puts them in the order of their names and neither loses nor adds any.
pub proof fn law_nodes_sorted(nodes: Seq<NodeView>)
    ensures
        forall|i: int, j: int|
            0 <= i < j < sort_nodes(nodes).len() ==> text::text_le(
                (#[trigger] sort_nodes(nodes)[i]).name,
                (#[trigger] sort_nodes(nodes)[j]).name,
            ),
        sort_nodes(nodes).to_multiset() == nodes.to_multiset(),
        sort_nodes(nodes).len() == nodes.len(),
{
    let le = by_name();
    assert forall|a: NodeView, b: NodeView| #[trigger] le(a, b) || le(b, a) by {
        text::lemma_text_le_total(a.name, b.name);
    }
    assert forall|a: NodeView, b: NodeView, c: NodeView| #[trigger]
        le(a, b) && #[trigger] le(b, c) implies le(a, c) by {
        text::lemma_text_le_transitive(a.name, b.name, c.name);
    }
    order::lemma_sort_by(nodes, le);
    assert forall|i: int, j: int| 0 <= i < j < sort_nodes(nodes).len() implies text::text_le(
        (#[trigger] sort_nodes(nodes)[i]).name,
        (#[trigger] sort_nodes(nodes)[j]).name,
    ) by {
        assert(le(order::sort_by(nodes, le)[i], order::sort_by(nodes, le)[j]));
    }
}

/// Adds a node to nodes in the order of their names, behind those of the same name.
fn place_node(nodes: &mut Vec<ProjectNode>, node: ProjectNode)
    ensures
        text::views(final(nodes)@) == insert_node(text::views(old(nodes)@), node@),
{
    let ghost all = text::views(nodes@);
    let mut at: usize = nodes.len();
    assert(all.take(at as int) =~= all);
    assert(insert_node(all, node@) =~= insert_node(all.take(at as int), node@) + all.skip(
        at as int,
    ));
    while at > 0 && !text_at_most(nodes[at - 1].name.as_str(), node.name.as_str())
        invariant
            at <= nodes@.len(),
            all == text::views(nodes@),
            insert_node(all, node@) == insert_node(all.take(at as int), node@) + all.skip(
                at as int,
            ),
        decreases at,
    {
        proof {
            let head = all.take(at as int);
            assert(head.last() == all[at - 1]);
            assert(head.drop_last() =~= all.take(at - 1));
            assert(insert_node(all.take(at - 1), node@).push(all[at - 1]) + all.skip(at as int)
                =~= insert_node(all.take(at - 1), node@) + all.skip(at - 1));
        }
        at -= 1;
    }
    proof {
        let head = all.take(at as int);
        if at > 0 {
            assert(head.last() == all[at - 1]);
        }
        assert(insert_node(head, node@) == head.push(node@));
        assert(head.push(node@) + all.skip(at as int) =~= all.insert(at as int, node@));
        assert(text::views(nodes@.insert(at as int, node)) =~= all.insert(at as int, node@));
    }
    nodes.insert(at, node);
}

// ---------------------------------------------------------------------------------------------
// Directories as nodes
// ---------------------------------------------------------------------------------------------

/// The nodes of the scripts of a directory. A script that stands for its directory is among them
/// only where the directory does not become a module.
pub open spec fn script_nodes(scripts: Seq<ScriptView>, keep_init: bool) -> Seq<NodeView>
    decreases scripts.len(),
{
    if scripts.len() == 0 {
        Seq::empty()
    } else {
        let head = script_nodes(scripts.drop_last(), keep_init);
        if is_init(scripts.last()) && !keep_init {
            head
        } else {
            head.push(script_node(scripts.last()))
        }
    }
}

/// The nodes of data files.
pub open spec fn external_nodes(files: Seq<ExternalView>) -> Seq<NodeView> {
    Seq::new(files.len(), |i: int| external_node(files[i]))
}

/// The first script that stands for its directory.
pub open spec fn init_of(scripts: Seq<ScriptView>) -> Option<ScriptView>
    decreases scripts.len(),
{
    if scripts.len() == 0 {
        None
    } else if is_init(scripts[0]) {
        Some(scripts[0])
    } else {
        init_of(scripts.drop_first())
    }
}

/// Whether a directory becomes a plain folder: its name gives it no class of its own, and no script
/// stands for it.
pub open spec fn is_folder(name: Text, dir: DirView) -> bool {
    special_class(name) is None && init_of(dir.scripts) is None
}

/// A node, where there is one.
pub open spec fn listed(node: Option<NodeView>) -> Seq<NodeView> {
    match node {
        Some(node) => seq![node],
        None => Seq::empty(),
    }
}

/// The folders of subdirectories for the data files in them, without those that hold none.
pub open spec fn plain_nodes(dirs: Seq<(Text, DirView)>) -> Seq<NodeView>
    decreases dirs, 0nat,
{
    if dirs.len() == 0 {
        Seq::empty()
    } else {
        plain_nodes(dirs.drop_last()) + listed(plain_node(dirs.last().0, dirs.last().1))
    }
}

/// The nodes of the data files in a directory and of the folders with data files below it, in the
/// order of their names.
pub open spec fn plain_children(dir: DirView) -> Seq<NodeView>
    decreases dir, 1nat,
{
    sort_nodes(external_nodes(dir.external_files) + plain_nodes(dir.directories))
}

/// The folder of a directory for the data files in it and below it, where there are any.
pub open spec fn plain_node(name: Text, dir: DirView) -> Option<NodeView>
    decreases dir, 2nat,
{
    let children = plain_children(dir);
    if children.len() == 0 {
        None
    } else {
        Some(container_node(name, "Folder"@, children))
    }
}

/// The nodes of subdirectories, with or without the data files in them.
pub open spec fn directory_nodes(dirs: Seq<(Text, DirView)>, with_data: bool) -> Seq<NodeView>
    decreases dirs, 0nat,
{
    if dirs.len() == 0 {
        Seq::empty()
    } else {
        directory_nodes(dirs.drop_last(), with_data) + directory_entry(
            dirs.last().0,
            dirs.last().1,
            with_data,
        )
    }
}

/// The nodes of everything in a directory, with or without data files, in the order of their names.
pub open spec fn directory_children(dir: DirView, keep_init: bool, with_data: bool) -> Seq<NodeView>
    decreases dir, 1nat,
{
    sort_nodes(
        script_nodes(dir.scripts, keep_init) + (if with_data {
            external_nodes(dir.external_files)
        } else {
            Seq::empty()
        }) + directory_nodes(dir.directories, with_data),
    )
}

/// The node of a directory: a container with a class of its own, a module where a script stands
/// for the directory, or a folder. Containers and folders that hold nothing leave no node. Data files
/// are held by folders only.
pub open spec fn directory_node(name: Text, dir: DirView, with_data: bool) -> Option<NodeView>
    decreases dir, 2nat,
{
    let children = directory_children(dir, false, with_data && is_folder(name, dir));
    match special_class(name) {
        Some(class) => if children.len() == 0 {
            None
        } else {
            Some(container_node(name, class, children))
        },
        None => match init_of(dir.scripts) {
            Some(init) => Some(
                NodeView {
                    source: Some(init.source),
                    script_path: Some(init.relative_path),
                    ..container_node(name, "ModuleScript"@, children)
                },
            ),
            None => if children.len() == 0 {
                None
            } else {
                Some(container_node(name, "Folder"@, children))
            },
        },
    }
}

/// The nodes of a directory: where it becomes something else than a folder, its data files stand in a
/// folder of the same name beside it.
pub open spec fn directory_entry(name: Text, dir: DirView, with_data: bool) -> Seq<NodeView>
    decreases dir, 3nat,
{
    listed(directory_node(name, dir, with_data)) + (if with_data && !is_folder(name, dir) {
        listed(plain_node(name, dir))
    } else {
        Seq::empty()
    })
}

/// The first script that stands for its directory.
pub fn find_init(scripts: &Vec<ProjectScript>) -> (r: Option<usize>)
    ensures
        r matches Some(i) ==> i < scripts@.len() && init_of(text::views(scripts@)) == Some(
            scripts@[i as int]@,
        ),
        r is None ==> init_of(text::views(scripts@)) is None,
{
    let ghost all = text::views(scripts@);
    let mut i: usize = 0;
    assert(all.skip(0) =~= all);
    while i < scripts.len()
        invariant
            i <= scripts@.len(),
            all == text::views(scripts@),
            init_of(all) == init_of(all.skip(i as int)),
        decreases scripts@.len() - i,
    {
        assert(all.skip(i as int)[0] == scripts@[i as int]@);
        if is_init_module(&scripts[i]) {
            return Some(i);
        }
        assert(all.skip(i as int).drop_first() =~= all.skip(i + 1));
        i += 1;
    }
    None
}

proof fn lemma_sort_push(nodes: Seq<NodeView>, node: NodeView)
    ensures
        sort_nodes(nodes.push(node)) == insert_node(sort_nodes(nodes), node),
{
    assert(nodes.push(node).drop_last() =~= nodes);
}

/// Whether a directory becomes a plain folder.
fn becomes_folder(name: &str, directory: &DirNode) -> (r: bool)
    ensures
        r == is_folder(name@, directory@),
{
    proof {
        lemma_dir_view(*directory);
    }
    special_container_class_name(name).is_none() && find_init(&directory.scripts).is_none()
}

/// Adds a node, where there is one, to nodes in the order of their names.
fn place_listed(nodes: &mut Vec<ProjectNode>, node: Option<ProjectNode>, Ghost(before): Ghost<Seq<NodeView>>)
    requires
        text::views(old(nodes)@) == sort_nodes(before),
    ensures
        text::views(final(nodes)@) == sort_nodes(before + listed(text::opt_view(node))),
{
    match node {
        Some(node) => {
            proof {
                lemma_sort_push(before, node@);
                assert(before + seq![node@] =~= before.push(node@));
            }
            place_node(nodes, node);
        },
        None => {
            assert(before + Seq::<NodeView>::empty() =~= before);
        },
    }
}

/// Adds the nodes of data files to nodes in the order of their names.
fn place_externals(nodes: &mut Vec<ProjectNode>, list: &Vec<ExternalFile>, Ghost(before): Ghost<Seq<NodeView>>)
    requires
        text::views(old(nodes)@) == sort_nodes(before),
    ensures
        text::views(final(nodes)@) == sort_nodes(before + external_nodes(text::views(list@))),
{
    let ghost files = text::views(list@);
    let mut j: usize = 0;
    assert(before + external_nodes(files.take(0)) =~= before);
    while j < list.len()
        invariant
            j <= list@.len(),
            files == text::views(list@),
            text::views(nodes@) == sort_nodes(before + external_nodes(files.take(j as int))),
        decreases list@.len() - j,
    {
        let node = external_file_to_node(&list[j]);
        proof {
            let now = before + external_nodes(files.take(j as int));
            assert(before + external_nodes(files.take(j + 1)) =~= now.push(node@));
            lemma_sort_push(now, node@);
        }
        place_node(nodes, node);
        j += 1;
    }
    assert(files.take(j as int) =~= files);
}

/// The nodes of everything in a directory, with or without data files, in the order of their names.
pub fn build_children_from_directory(
    directory: &DirNode,
    skip_directory_init_replacement: bool,
    with_data: bool,
) -> (r: Vec<ProjectNode>)
    ensures
        text::views(r@) == directory_children(
            directory@,
            skip_directory_init_replacement,
            with_data,
        ),
    decreases directory, 1nat,
{
    proof {
        lemma_dir_view(*directory);
    }
    let ghost keep = skip_directory_init_replacement;
    let ghost scripts = text::views(directory.scripts@);
    let ghost files = text::views(directory.external_files@);
    let ghost dirs = entries(directory.directories@);
    let mut out: Vec<ProjectNode> = Vec::new();
    let ghost mut made: Seq<NodeView> = Seq::empty();
    assert(text::views(out@) =~= sort_nodes(made));
    let mut i: usize = 0;
    assert(script_nodes(scripts.take(0), keep) =~= Seq::empty());
    while i < directory.scripts.len()
        invariant
            i <= directory.scripts@.len(),
            scripts == text::views(directory.scripts@),
            keep == skip_directory_init_replacement,
            made == script_nodes(scripts.take(i as int), keep),
            text::views(out@) == sort_nodes(made),
        decreases directory.scripts@.len() - i,
    {
        assert(scripts.take(i + 1).drop_last() =~= scripts.take(i as int));
        assert(scripts.take(i + 1).last() == directory.scripts@[i as int]@);
        if skip_directory_init_replacement || !is_init_module(&directory.scripts[i]) {
            let node = script_to_node(&directory.scripts[i]);
            proof {
                lemma_sort_push(made, node@);
                made = made.push(node@);
            }
            place_node(&mut out, node);
        }
        i += 1;
    }
    assert(scripts.take(i as int) =~= scripts);
    let ghost data = if with_data {
        external_nodes(files)
    } else {
        Seq::empty()
    };
    if with_data {
        place_externals(&mut out, &directory.external_files, Ghost(made));
    } else {
        assert(made + data =~= made);
    }
    let ghost first = made + data;
    let mut k: usize = 0;
    assert(first + directory_nodes(dirs.take(0), with_data) =~= first);
    while k < directory.directories.len()
        invariant
            k <= directory.directories@.len(),
            dirs == entries(directory.directories@),
            text::views(out@) == sort_nodes(
                first + directory_nodes(dirs.take(k as int), with_data),
            ),
        decreases directory.directories@.len() - k,
    {
        let entry = &directory.directories[k];
        let ghost done = directory_nodes(dirs.take(k as int), with_data);
        let ghost own = listed(directory_node(entry.name@, entry.node@, with_data));
        assert(dirs.take(k + 1).drop_last() =~= dirs.take(k as int));
        assert(dirs.take(k + 1).last() == (entry.name@, entry.node@));
        assert(decreases_to!(directory => directory.directories@[k as int].node));
        let node = build_directory_mount(entry.name.as_str(), &entry.node, with_data);
        place_listed(&mut out, node, Ghost(first + done));
        if with_data && !becomes_folder(entry.name.as_str(), &entry.node) {
            let beside = build_plain_folder(entry.name.as_str(), &entry.node);
            place_listed(&mut out, beside, Ghost(first + done + own));
        }
        proof {
            let beside = if with_data && !is_folder(entry.name@, entry.node@) {
                listed(plain_node(entry.name@, entry.node@))
            } else {
                Seq::empty()
            };
            assert(directory_entry(entry.name@, entry.node@, with_data) == own + beside);
            assert(first + done + own + beside =~= first + (done + (own + beside)));
            assert(first + done + own =~= first + done + own + Seq::<NodeView>::empty());
        }
        k += 1;
    }
    assert(dirs.take(k as int) =~= dirs);
    out
}

/// The node of a directory, where it leaves one.
pub fn build_directory_mount(name: &str, directory: &DirNode, with_data: bool) -> (r: Option<
    ProjectNode,
>)
    ensures
        text::opt_view(r) == directory_node(name@, directory@, with_data),
    decreases directory, 2nat,
{
    proof {
        lemma_dir_view(*directory);
    }
    let shared = with_data && becomes_folder(name, directory);
    let children = build_children_from_directory(directory, false, shared);
    if let Some(class_name) = special_container_class_name(name) {
        if children.len() == 0 {
            return None;
        }
        return Some(make_container(name, class_name, children));
    }
    if let Some(at) = find_init(&directory.scripts) {
        let init = &directory.scripts[at];
        let mut node = make_container(name, "ModuleScript", children);
        let ghost plain = node;
        node.source = Some(init.source.clone());
        node.script_path = Some(init.relative_path.clone());
        proof {
            project::lemma_node_children(node);
            project::lemma_node_children(plain);
        }
        return Some(node);
    }
    if children.len() == 0 {
        return None;
    }
    Some(make_container(name, "Folder", children))
}

/// The folder of a directory for the data files in it and below it, where there are any.
fn build_plain_folder(name: &str, directory: &DirNode) -> (r: Option<ProjectNode>)
    ensures
        text::opt_view(r) == plain_node(name@, directory@),
    decreases directory,
{
    proof {
        lemma_dir_view(*directory);
    }
    let ghost files = text::views(directory.external_files@);
    let ghost dirs = entries(directory.directories@);
    let mut out: Vec<ProjectNode> = Vec::new();
    let ghost nothing: Seq<NodeView> = Seq::empty();
    assert(text::views(out@) =~= sort_nodes(nothing));
    place_externals(&mut out, &directory.external_files, Ghost(nothing));
    let ghost first = external_nodes(files);
    assert(nothing + first =~= first);
    let mut k: usize = 0;
    assert(first + plain_nodes(dirs.take(0)) =~= first);
    while k < directory.directories.len()
        invariant
            k <= directory.directories@.len(),
            dirs == entries(directory.directories@),
            text::views(out@) == sort_nodes(first + plain_nodes(dirs.take(k as int))),
        decreases directory.directories@.len() - k,
    {
        let entry = &directory.directories[k];
        let ghost done = plain_nodes(dirs.take(k as int));
        assert(dirs.take(k + 1).drop_last() =~= dirs.take(k as int));
        assert(dirs.take(k + 1).last() == (entry.name@, entry.node@));
        assert(decreases_to!(directory => directory.directories@[k as int].node));
        let node = build_plain_folder(entry.name.as_str(), &entry.node);
        place_listed(&mut out, node, Ghost(first + done));
        proof {
            let last = listed(plain_node(entry.name@, entry.node@));
            assert(first + done + last =~= first + (done + last));
        }
        k += 1;
    }
    assert(dirs.take(k as int) =~= dirs);
    if out.len() == 0 {
        None
    } else {
        Some(make_container(name, "Folder", out))
    }
}

// ---------------------------------------------------------------------------------------------
// The layout
// ---------------------------------------------------------------------------------------------

/// The directory with the scripts added, each where its container path leads.
pub open spec fn insert_scripts(dir: DirView, scripts: Seq<ScriptView>) -> DirView
    decreases scripts.len(),
{
    if scripts.len() == 0 {
        dir
    } else {
        dir_insert(
            insert_scripts(dir, scripts.drop_last()),
            scripts.last().container_path,
            ItemView::Script(scripts.last()),
        )
    }
}

/// The directory with data files added, each where its container path leads.
pub open spec fn insert_externals(dir: DirView, files: Seq<ExternalView>) -> DirView
    decreases files.len(),
{
    if files.len() == 0 {
        dir
    } else {
        dir_insert(
            insert_externals(dir, files.drop_last()),
            files.last().container_path,
            ItemView::External(files.last()),
        )
    }
}

/// Nodes directly below the data model.
pub open spec fn child_mounts(nodes: Seq<NodeView>) -> Seq<MountView> {
    Seq::new(nodes.len(), |i: int| MountView::DataModelChild(nodes[i]))
}

/// Whether a script stands in a directory or below it.
pub open spec fn has_scripts(dir: DirView) -> bool
    decreases dir,
{
    ||| dir.scripts.len() > 0
    ||| exists|i: int|
        0 <= i < dir.directories.len() && has_scripts((#[trigger] dir.directories[i]).1)
}

/// The part of a service that a top-level directory of this name becomes, without its data files: the
/// contents of the service of its name, or a container below the service of starting players.
pub open spec fn service_mount(name: Text, dir: DirView) -> Seq<MountView> {
    let children = directory_children(dir, true, false);
    if name == "StarterPlayerScripts"@ {
        if has_scripts(dir) {
            seq![
                MountView::ServiceContents {
                    service_name: "StarterPlayer"@,
                    children: seq![container_node(name, "StarterPlayerScripts"@, children)],
                },
            ]
        } else {
            Seq::empty()
        }
    } else if children.len() > 0 {
        seq![MountView::ServiceContents { service_name: name, children }]
    } else {
        Seq::empty()
    }
}

/// Where a top-level directory is mounted: as nodes below the data model, or below a service. The
/// data files of a directory that goes below a service stand in a folder below the data model.
pub open spec fn directory_mount(name: Text, dir: DirView) -> Seq<MountView> {
    if goes_below_service(name) {
        service_mount(name, dir) + child_mounts(listed(plain_node(name, dir)))
    } else {
        child_mounts(directory_entry(name, dir, true))
    }
}

/// Where the top-level directories are mounted.
pub open spec fn directory_mounts(dirs: Seq<(Text, DirView)>) -> Seq<MountView>
    decreases dirs.len(),
{
    if dirs.len() == 0 {
        Seq::empty()
    } else {
        directory_mounts(dirs.drop_last()) + directory_mount(dirs.last().0, dirs.last().1)
    }
}

/// The directories that hold the scripts and the data files of a project.
pub open spec fn root_dir(scripts: Seq<ScriptView>, files: Seq<ExternalView>) -> DirView {
    insert_externals(insert_scripts(empty_dir(), scripts), files)
}

/// The tree of the given scripts and data files: scripts and data files at the top first, then the
/// top-level directories in the order of their names.
pub open spec fn mounts_of(scripts: Seq<ScriptView>, files: Seq<ExternalView>) -> Seq<MountView> {
    let root = root_dir(scripts, files);
    child_mounts(script_nodes(root.scripts, false)) + child_mounts(
        external_nodes(root.external_files),
    ) + directory_mounts(root.directories)
}

/// The tree that the files of a project describe, or the error of the first script that is no
/// text.
pub open spec fn layout_of(files: Seq<FileView>) -> Result<Seq<MountView>, Text> {
    match project::scripts_of(files) {
        Ok(scripts) => Ok(mounts_of(scripts, project::externals_of(files))),
        Err(e) => Err(e),
    }
}

/// Sorts scripts into directories.
pub fn sort_scripts(scripts: Vec<ProjectScript>) -> (r: DirNode)
    ensures
        r@ == insert_scripts(empty_dir(), text::views(scripts@)),
{
    let ghost list = scripts@;
    let ghost all = text::views(list);
    let mut root = DirNode::empty();
    let mut rest = reversed(scripts);
    let ghost mut n: int = 0;
    assert(all.take(0) =~= Seq::empty());
    while rest.len() > 0
        invariant
            all == text::views(list),
            0 <= n <= list.len(),
            rest@.len() == list.len() - n,
            forall|i: int| 0 <= i < rest@.len() ==> rest@[i] == list[list.len() - 1 - i],
            root@ == insert_scripts(empty_dir(), all.take(n)),
        decreases rest@.len(),
    {
        if let Some(script) = rest.pop() {
            assert(script == list[n]);
            assert(all.take(n + 1).drop_last() =~= all.take(n));
            assert(all.take(n + 1).last() == script@);
            let container_path = copy_texts(&script.container_path);
            insert_script(&mut root, &container_path, script);
        }
        proof {
            n = n + 1;
        }
    }
    assert(all.take(n) =~= all);
    root
}

/// Sorts data files into directories.
fn sort_externals(root: DirNode, files: Vec<ExternalFile>) -> (r: DirNode)
    ensures
        r@ == insert_externals(root@, text::views(files@)),
{
    let ghost list = files@;
    let ghost all = text::views(list);
    let ghost start = root@;
    let mut root = root;
    let mut rest = reversed(files);
    let ghost mut n: int = 0;
    assert(all.take(0) =~= Seq::empty());
    while rest.len() > 0
        invariant
            all == text::views(list),
            0 <= n <= list.len(),
            rest@.len() == list.len() - n,
            forall|i: int| 0 <= i < rest@.len() ==> rest@[i] == list[list.len() - 1 - i],
            root@ == insert_externals(start, all.take(n)),
        decreases rest@.len(),
    {
        if let Some(file) = rest.pop() {
            assert(file == list[n]);
            assert(all.take(n + 1).drop_last() =~= all.take(n));
            assert(all.take(n + 1).last() == file@);
            let container_path = copy_texts(&file.container_path);
            insert_external_file(&mut root, &container_path, file);
        }
        proof {
            n = n + 1;
        }
    }
    assert(all.take(n) =~= all);
    root
}

/// Whether a script stands in a directory or below it.
fn holds_scripts(directory: &DirNode) -> (r: bool)
    ensures
        r == has_scripts(directory@),
    decreases directory,
{
    proof {
        lemma_dir_view(*directory);
    }
    if directory.scripts.len() > 0 {
        return true;
    }
    let ghost dirs = entries(directory.directories@);
    let mut i: usize = 0;
    while i < directory.directories.len()
        invariant
            i <= directory.directories@.len(),
            dirs == entries(directory.directories@),
            directory@.directories == dirs,
            forall|j: int| 0 <= j < i ==> !has_scripts((#[trigger] dirs[j]).1),
        decreases directory.directories@.len() - i,
    {
        assert(dirs[i as int].1 == directory.directories@[i as int].node@);
        assert(decreases_to!(directory => directory.directories@[i as int].node));
        if holds_scripts(&directory.directories[i].node) {
            return true;
        }
        i += 1;
    }
    false
}

/// The part of a service that a top-level directory becomes, where it becomes one.
fn build_service_mount(name: &str, directory: &DirNode) -> (r: Option<ProjectMount>)
    ensures
        match r {
            Some(mount) => service_mount(name@, directory@) == seq![mount@],
            None => service_mount(name@, directory@).len() == 0,
        },
{
    let children = build_children_from_directory(directory, true, false);
    if text_eq(name, "StarterPlayerScripts") {
        if !holds_scripts(directory) {
            return None;
        }
        let node = make_container(name, "StarterPlayerScripts", children);
        let mut nodes: Vec<ProjectNode> = Vec::new();
        nodes.push(node);
        assert(text::views(nodes@) =~= seq![node@]);
        Some(
            ProjectMount::ServiceContents {
                service_name: "StarterPlayer".to_owned(),
                children: nodes,
            },
        )
    } else if children.len() == 0 {
        None
    } else {
        Some(ProjectMount::ServiceContents { service_name: name.to_owned(), children })
    }
}

/// Mounts a node, where there is one, below the data model.
fn mount_child(out: &mut Vec<ProjectMount>, node: Option<ProjectNode>)
    ensures
        text::views(final(out)@) == text::views(old(out)@) + child_mounts(
            listed(text::opt_view(node)),
        ),
{
    let ghost before = text::views(out@);
    match node {
        Some(node) => {
            let mount = ProjectMount::DataModelChild(node);
            proof {
                text::lemma_views_push(out@, mount);
                assert(before.push(mount@) =~= before + child_mounts(seq![node@]));
            }
            out.push(mount);
        },
        None => {
            assert(before + child_mounts(Seq::empty()) =~= before);
        },
    }
}

/// Mounts a top-level directory.
fn mount_directory(out: &mut Vec<ProjectMount>, name: &str, directory: &DirNode)
    ensures
        text::views(final(out)@) == text::views(old(out)@) + directory_mount(name@, directory@),
{
    let ghost before = text::views(out@);
    if is_service_name(name) || text_eq(name, "StarterPlayerScripts") {
        if let Some(mount) = build_service_mount(name, directory) {
            proof {
                text::lemma_views_push(out@, mount);
                assert(before.push(mount@) =~= before + service_mount(name@, directory@));
            }
            out.push(mount);
        }
        assert(text::views(out@) =~= before + service_mount(name@, directory@));
        mount_child(out, build_plain_folder(name, directory));
        assert(text::views(out@) =~= before + directory_mount(name@, directory@));
    } else {
        let ghost own = listed(directory_node(name@, directory@, true));
        mount_child(out, build_directory_mount(name, directory, true));
        if !becomes_folder(name, directory) {
            mount_child(out, build_plain_folder(name, directory));
        }
        proof {
            let beside = if is_folder(name@, directory@) {
                Seq::empty()
            } else {
                listed(plain_node(name@, directory@))
            };
            assert(directory_entry(name@, directory@, true) =~= own + beside);
            assert(child_mounts(own + beside) =~= child_mounts(own) + child_mounts(beside));
            assert(text::views(out@) =~= before + directory_mount(name@, directory@));
        }
    }
}

/// A layout or the error that stood in its way.
pub open spec fn layout_outcome(r: Result<ProjectLayout, Error>) -> Result<Seq<MountView>, Text> {
    match r {
        Ok(layout) => Ok(layout@),
        Err(error) => Err(error@),
    }
}

/// The mounts of the directories that hold a project.
fn build_mounts(root: &DirNode) -> (r: Vec<ProjectMount>)
    ensures
        text::views(r@) == child_mounts(script_nodes(root@.scripts, false)) + child_mounts(
            external_nodes(root@.external_files),
        ) + directory_mounts(root@.directories),
{
    proof {
        lemma_dir_view(*root);
    }
    let ghost scripts = text::views(root.scripts@);
    let ghost files = text::views(root.external_files@);
    let ghost dirs = entries(root.directories@);
    let mut out: Vec<ProjectMount> = Vec::new();
    let mut i: usize = 0;
    assert(text::views(out@) =~= child_mounts(script_nodes(scripts.take(0), false)));
    while i < root.scripts.len()
        invariant
            i <= root.scripts@.len(),
            scripts == text::views(root.scripts@),
            text::views(out@) == child_mounts(script_nodes(scripts.take(i as int), false)),
        decreases root.scripts@.len() - i,
    {
        assert(scripts.take(i + 1).drop_last() =~= scripts.take(i as int));
        assert(scripts.take(i + 1).last() == root.scripts@[i as int]@);
        if !is_init_module(&root.scripts[i]) {
            let mount = ProjectMount::DataModelChild(script_to_node(&root.scripts[i]));
            proof {
                text::lemma_views_push(out@, mount);
                assert(text::views(out@).push(mount@) =~= child_mounts(
                    script_nodes(scripts.take(i + 1), false),
                ));
            }
            out.push(mount);
        }
        i += 1;
    }
    assert(scripts.take(i as int) =~= scripts);
    let ghost first = text::views(out@);
    let mut j: usize = 0;
    assert(first + child_mounts(external_nodes(files.take(0))) =~= first);
    while j < root.external_files.len()
        invariant
            j <= root.external_files@.len(),
            files == text::views(root.external_files@),
            text::views(out@) == first + child_mounts(external_nodes(files.take(j as int))),
        decreases root.external_files@.len() - j,
    {
        let mount = ProjectMount::DataModelChild(external_file_to_node(&root.external_files[j]));
        proof {
            text::lemma_views_push(out@, mount);
            assert(text::views(out@).push(mount@) =~= first + child_mounts(
                external_nodes(files.take(j + 1)),
            ));
        }
        out.push(mount);
        j += 1;
    }
    assert(files.take(j as int) =~= files);
    let ghost second = text::views(out@);
    let mut k: usize = 0;
    assert(second + directory_mounts(dirs.take(0)) =~= second);
    while k < root.directories.len()
        invariant
            k <= root.directories@.len(),
            dirs == entries(root.directories@),
            text::views(out@) == second + directory_mounts(dirs.take(k as int)),
        decreases root.directories@.len() - k,
    {
        let entry = &root.directories[k];
        assert(dirs.take(k + 1).drop_last() =~= dirs.take(k as int));
        assert(dirs.take(k + 1).last() == (entry.name@, entry.node@));
        let ghost done = directory_mounts(dirs.take(k as int));
        mount_directory(&mut out, entry.name.as_str(), &entry.node);
        proof {
            let last = directory_mount(entry.name@, entry.node@);
            assert(second + done + last =~= second + (done + last));
        }
        k += 1;
    }
    assert(dirs.take(k as int) =~= dirs);
    out
}

impl LoadedProject {
    /// The instance tree that the files of the project describe.
    pub fn layout(&self) -> (r: Result<ProjectLayout, Error>)
        ensures
            layout_outcome(r) == layout_of(self@),
    {
        let scripts = match self.scripts() {
            Ok(scripts) => scripts,
            Err(error) => {
                return Err(error);
            },
        };
        let external_files = match self.external_files() {
            Ok(files) => files,
            Err(error) => {
                return Err(error);
            },
        };
        let root = sort_externals(sort_scripts(scripts), external_files);
        Ok(ProjectLayout { top_level: build_mounts(&root) })
    }
}

/// The nodes in a directory stand in the order of their names, also where they come from scripts, data
/// files and directories alike.
pub proof fn law_children_in_order(dir: DirView, keep_init: bool, with_data: bool, i: int, j: int)
    requires
        0 <= i < j < directory_children(dir, keep_init, with_data).len(),
    ensures
        text::text_le(
            directory_children(dir, keep_init, with_data)[i].name,
            directory_children(dir, keep_init, with_data)[j].name,
        ),
{
    law_nodes_sorted(
        script_nodes(dir.scripts, keep_init) + (if with_data {
            external_nodes(dir.external_files)
        } else {
            Seq::empty()
        }) + directory_nodes(dir.directories, with_data),
    );
}

} // verus!
