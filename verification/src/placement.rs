//! What the layout of a project keeps: every script and every data file has its node, in the place
//! that its path describes, and data files stay out of the services.

use vstd::prelude::*;
use vstd::string::*;

use crate::layout::{self, DirView, ItemView};
use crate::project::{self, ExternalView, MountView, NodeView, ScriptKind, ScriptView};
use crate::text::{self, Text};

verus! {

// ---------------------------------------------------------------------------------------------
// Directories
// ---------------------------------------------------------------------------------------------

/// Whether an item stands in the subdirectory that `path` leads to.
pub open spec fn holds(dir: DirView, path: Seq<Text>, item: ItemView) -> bool
    decreases path.len(),
{
    if path.len() == 0 {
        match item {
            ItemView::Script(script) => dir.scripts.contains(script),
            ItemView::External(file) => dir.external_files.contains(file),
        }
    } else {
        exists|i: int|
            0 <= i < dir.directories.len() && (#[trigger] dir.directories[i]).0 == path[0] && holds(
                dir.directories[i].1,
                path.drop_first(),
                item,
            )
    }
}

/// The names before the position of a name come before it.
pub proof fn lemma_slot(dirs: Seq<(Text, DirView)>, name: Text)
    ensures
        layout::slot(dirs, name) <= dirs.len(),
        forall|i: int| 0 <= i < layout::slot(dirs, name) ==> text::text_lt((#[trigger] dirs[i]).0, name),
        layout::slot(dirs, name) < dirs.len() ==> !text::text_lt(dirs[layout::slot(dirs, name) as int].0, name),
    decreases dirs.len(),
{
    if dirs.len() > 0 && text::text_lt(dirs[0].0, name) {
        let rest = dirs.drop_first();
        lemma_slot(rest, name);
        assert forall|i: int| 0 <= i < layout::slot(dirs, name) implies text::text_lt(
            (#[trigger] dirs[i]).0,
            name,
        ) by {
            if i > 0 {
                assert(dirs[i] == rest[i - 1]);
            }
        }
        if layout::slot(dirs, name) < dirs.len() {
            assert(dirs[layout::slot(dirs, name) as int] == rest[layout::slot(rest, name) as int]);
        }
    }
}

proof fn lemma_inserted(dir: DirView, path: Seq<Text>, item: ItemView)
    ensures
        holds(layout::dir_insert(dir, path, item), path, item),
    decreases path.len(),
{
    let after = layout::dir_insert(dir, path, item);
    if path.len() == 0 {
        match item {
            ItemView::Script(script) => {
                assert(after.scripts[dir.scripts.len() as int] == script);
            },
            ItemView::External(file) => {
                assert(after.external_files[dir.external_files.len() as int] == file);
            },
        }
    } else {
        let at = layout::slot(dir.directories, path[0]) as int;
        lemma_slot(dir.directories, path[0]);
        if at < dir.directories.len() && dir.directories[at].0 == path[0] {
            lemma_inserted(dir.directories[at].1, path.drop_first(), item);
        } else {
            lemma_inserted(layout::empty_dir(), path.drop_first(), item);
        }
        assert(after.directories[at].0 == path[0]);
    }
}

proof fn lemma_kept(dir: DirView, path: Seq<Text>, item: ItemView, old_path: Seq<Text>, old_item: ItemView)
    requires
        holds(dir, old_path, old_item),
    ensures
        holds(layout::dir_insert(dir, path, item), old_path, old_item),
    decreases path.len(),
{
    let after = layout::dir_insert(dir, path, item);
    if path.len() == 0 {
        if old_path.len() == 0 {
            match old_item {
                ItemView::Script(script) => {
                    let i = choose|i: int| 0 <= i < dir.scripts.len() && dir.scripts[i] == script;
                    assert(after.scripts[i] == script);
                },
                ItemView::External(file) => {
                    let i = choose|i: int|
                        0 <= i < dir.external_files.len() && dir.external_files[i] == file;
                    assert(after.external_files[i] == file);
                },
            }
        } else {
            assert(after.directories == dir.directories);
        }
    } else {
        let at = layout::slot(dir.directories, path[0]) as int;
        lemma_slot(dir.directories, path[0]);
        if old_path.len() > 0 {
            let i = choose|i: int|
                0 <= i < dir.directories.len() && (#[trigger] dir.directories[i]).0 == old_path[0]
                    && holds(dir.directories[i].1, old_path.drop_first(), old_item);
            if at < dir.directories.len() && dir.directories[at].0 == path[0] {
                if i == at {
                    lemma_kept(
                        dir.directories[at].1,
                        path.drop_first(),
                        item,
                        old_path.drop_first(),
                        old_item,
                    );
                }
                assert(after.directories[i].0 == old_path[0]);
            } else if i < at {
                assert(after.directories[i] == dir.directories[i]);
            } else {
                assert(after.directories[i + 1] == dir.directories[i]);
            }
        }
    }
}

/// Every script stands in the directory that its path leads to.
pub proof fn lemma_scripts_held(scripts: Seq<ScriptView>, k: int)
    requires
        0 <= k < scripts.len(),
    ensures
        holds(
            layout::insert_scripts(layout::empty_dir(), scripts),
            scripts[k].container_path,
            ItemView::Script(scripts[k]),
        ),
    decreases scripts.len(),
{
    let init = scripts.drop_last();
    let last = scripts.last();
    let before = layout::insert_scripts(layout::empty_dir(), init);
    if k < init.len() {
        assert(init[k] == scripts[k]);
        lemma_scripts_held(init, k);
        lemma_kept(
            before,
            last.container_path,
            ItemView::Script(last),
            scripts[k].container_path,
            ItemView::Script(scripts[k]),
        );
    } else {
        lemma_inserted(before, last.container_path, ItemView::Script(last));
    }
}

/// Adding data files keeps what a directory holds.
pub proof fn lemma_externals_keep(
    dir: DirView,
    files: Seq<ExternalView>,
    path: Seq<Text>,
    item: ItemView,
)
    requires
        holds(dir, path, item),
    ensures
        holds(layout::insert_externals(dir, files), path, item),
    decreases files.len(),
{
    if files.len() > 0 {
        let last = files.last();
        lemma_externals_keep(dir, files.drop_last(), path, item);
        lemma_kept(
            layout::insert_externals(dir, files.drop_last()),
            last.container_path,
            ItemView::External(last),
            path,
            item,
        );
    }
}

/// Every data file stands in the directory that its path leads to.
pub proof fn lemma_externals_held(dir: DirView, files: Seq<ExternalView>, k: int)
    requires
        0 <= k < files.len(),
    ensures
        holds(
            layout::insert_externals(dir, files),
            files[k].container_path,
            ItemView::External(files[k]),
        ),
    decreases files.len(),
{
    let init = files.drop_last();
    let last = files.last();
    let before = layout::insert_externals(dir, init);
    if k < init.len() {
        assert(init[k] == files[k]);
        lemma_externals_held(dir, init, k);
        lemma_kept(
            before,
            last.container_path,
            ItemView::External(last),
            files[k].container_path,
            ItemView::External(files[k]),
        );
    } else {
        lemma_inserted(before, last.container_path, ItemView::External(last));
    }
}

// ---------------------------------------------------------------------------------------------
// Nodes
// ---------------------------------------------------------------------------------------------

/// Whether a node may stand for a directory: it is a container with a class of its own, a module with
/// source code, or a folder, and it holds no value and does not run.
pub open spec fn for_directory(node: NodeView) -> bool {
    &&& node.value is None
    &&& node.run_context is None
    &&& !node.auto_run
    &&& if node.name == "StarterPlayerScripts"@ || node.name == "PlayerScripts"@ {
        node.class_name == node.name && node.source is None
    } else if node.source is Some {
        node.class_name == "ModuleScript"@
    } else {
        node.class_name == "Folder"@
    }
}

/// Whether a node stands where the names lead to from the given nodes. Each node on the way stands
/// for a directory.
pub open spec fn shown(nodes: Seq<NodeView>, steps: Seq<Text>, node: NodeView) -> bool
    decreases steps.len(),
{
    if steps.len() == 0 {
        nodes.contains(node)
    } else {
        exists|i: int|
            0 <= i < nodes.len() && (#[trigger] nodes[i]).name == steps[0] && for_directory(
                nodes[i],
            ) && shown(nodes[i].children, steps.drop_first(), node)
    }
}

/// The node of a directory stands for a directory.
pub proof fn lemma_for_directory(name: Text, dir: DirView, with_data: bool)
    ensures
        layout::directory_node(name, dir, with_data) matches Some(node) ==> node.name == name
            && for_directory(node),
{
    lemma_special_names();
}

proof fn lemma_special_names()
    ensures
        "StarterPlayerScripts"@ != "PlayerScripts"@,
{
    reveal_strlit("StarterPlayerScripts");
    reveal_strlit("PlayerScripts");
    assert("StarterPlayerScripts"@.len() == 20 && "PlayerScripts"@.len() == 13);
}

/// Sorting keeps the nodes that there are.
pub proof fn lemma_sorted_contains(nodes: Seq<NodeView>, node: NodeView)
    ensures
        layout::sort_nodes(nodes).contains(node) == nodes.contains(node),
{
    layout::law_nodes_sorted(nodes);
    nodes.to_multiset_ensures();
    layout::sort_nodes(nodes).to_multiset_ensures();
    assert(nodes.contains(node) == (nodes.to_multiset().count(node) > 0));
    assert(layout::sort_nodes(nodes).contains(node) == (layout::sort_nodes(nodes).to_multiset().count(node) > 0));
}

/// A script that has a node of its own has it among the nodes of the scripts.
pub proof fn lemma_script_nodes(scripts: Seq<ScriptView>, keep_init: bool, script: ScriptView)
    requires
        scripts.contains(script),
        keep_init || !layout::is_init(script),
    ensures
        layout::script_nodes(scripts, keep_init).contains(layout::script_node(script)),
    decreases scripts.len(),
{
    let i = choose|i: int| 0 <= i < scripts.len() && scripts[i] == script;
    let init = scripts.drop_last();
    let all = layout::script_nodes(scripts, keep_init);
    let head = layout::script_nodes(init, keep_init);
    if i < init.len() {
        assert(init[i] == script);
        lemma_script_nodes(init, keep_init, script);
        let j = choose|j: int| 0 <= j < head.len() && head[j] == layout::script_node(script);
        assert(all[j] == layout::script_node(script));
    } else {
        assert(all[head.len() as int] == layout::script_node(script));
    }
}

proof fn lemma_external_nodes(files: Seq<ExternalView>, file: ExternalView)
    requires
        files.contains(file),
    ensures
        layout::external_nodes(files).contains(layout::external_node(file)),
{
    let i = choose|i: int| 0 <= i < files.len() && files[i] == file;
    assert(layout::external_nodes(files)[i] == layout::external_node(file));
}

proof fn lemma_directory_nodes(dirs: Seq<(Text, DirView)>, with_data: bool, i: int, node: NodeView)
    requires
        0 <= i < dirs.len(),
        layout::directory_entry(dirs[i].0, dirs[i].1, with_data).contains(node),
    ensures
        layout::directory_nodes(dirs, with_data).contains(node),
    decreases dirs.len(),
{
    let init = dirs.drop_last();
    let head = layout::directory_nodes(init, with_data);
    let last = layout::directory_entry(dirs.last().0, dirs.last().1, with_data);
    if i < init.len() {
        assert(init[i] == dirs[i]);
        lemma_directory_nodes(init, with_data, i, node);
    }
    lemma_contains_left(head, last, node);
}

/// The node of an item.
pub open spec fn item_node(item: ItemView) -> NodeView {
    match item {
        ItemView::Script(script) => layout::script_node(script),
        ItemView::External(file) => layout::external_node(file),
    }
}

/// Whether an item has a node of its own: a script that stands for its directory has none.
pub open spec fn own_node(item: ItemView) -> bool {
    item matches ItemView::Script(script) ==> !layout::is_init(script)
}

pub proof fn lemma_contains_left<A>(a: Seq<A>, b: Seq<A>, x: A)
    requires
        a.contains(x) || b.contains(x),
    ensures
        (a + b).contains(x),
{
    if a.contains(x) {
        let i = choose|i: int| 0 <= i < a.len() && a[i] == x;
        assert((a + b)[i] == x);
    } else {
        let i = choose|i: int| 0 <= i < b.len() && b[i] == x;
        assert((a + b)[a.len() + i] == x);
    }
}

/// A node of a subdirectory is shown among the nodes of its directory.
pub proof fn lemma_entry_shown(dir: DirView, keep_init: bool, with_data: bool, i: int, node: NodeView) -> (j: int)
    requires
        0 <= i < dir.directories.len(),
        layout::directory_entry(dir.directories[i].0, dir.directories[i].1, with_data).contains(node),
    ensures
        0 <= j < layout::directory_children(dir, keep_init, with_data).len(),
        layout::directory_children(dir, keep_init, with_data)[j] == node,
{
    let scripts = layout::script_nodes(dir.scripts, keep_init);
    let files = if with_data {
        layout::external_nodes(dir.external_files)
    } else {
        Seq::empty()
    };
    let dirs = layout::directory_nodes(dir.directories, with_data);
    lemma_directory_nodes(dir.directories, with_data, i, node);
    lemma_contains_left(scripts + files, dirs, node);
    lemma_sorted_contains(scripts + files + dirs, node);
    let children = layout::directory_children(dir, keep_init, with_data);
    choose|j: int| 0 <= j < children.len() && children[j] == node
}

/// The node of a directory is among the nodes that the directory becomes.
pub proof fn lemma_own_entry(name: Text, dir: DirView, with_data: bool)
    requires
        layout::directory_node(name, dir, with_data) is Some,
    ensures
        layout::directory_entry(name, dir, with_data).contains(
            layout::directory_node(name, dir, with_data)->Some_0,
        ),
{
    let node = layout::directory_node(name, dir, with_data)->Some_0;
    assert(layout::directory_entry(name, dir, with_data)[0] == node);
}

/// A script is shown where its path leads.
pub proof fn lemma_shown(dir: DirView, keep_init: bool, with_data: bool, path: Seq<Text>, script: ScriptView)
    requires
        holds(dir, path, ItemView::Script(script)),
        !layout::is_init(script) || (path.len() == 0 && keep_init),
    ensures
        shown(
            layout::directory_children(dir, keep_init, with_data),
            path,
            layout::script_node(script),
        ),
    decreases path.len(),
{
    let scripts = layout::script_nodes(dir.scripts, keep_init);
    let files = if with_data {
        layout::external_nodes(dir.external_files)
    } else {
        Seq::empty()
    };
    let dirs = layout::directory_nodes(dir.directories, with_data);
    let node = layout::script_node(script);
    let children = layout::directory_children(dir, keep_init, with_data);
    if path.len() == 0 {
        lemma_script_nodes(dir.scripts, keep_init, script);
        lemma_contains_left(scripts, files, node);
        lemma_contains_left(scripts + files, dirs, node);
        lemma_sorted_contains(scripts + files + dirs, node);
    } else {
        let i = choose|i: int|
            0 <= i < dir.directories.len() && (#[trigger] dir.directories[i]).0 == path[0] && holds(
                dir.directories[i].1,
                path.drop_first(),
                ItemView::Script(script),
            );
        let sub = dir.directories[i].1;
        let shared = with_data && layout::is_folder(path[0], sub);
        lemma_shown(sub, false, shared, path.drop_first(), script);
        let below = layout::directory_node(path[0], sub, with_data)->Some_0;
        assert(below.children == layout::directory_children(sub, false, shared) && below.name
            == path[0]);
        lemma_own_entry(path[0], sub, with_data);
        lemma_for_directory(path[0], sub, with_data);
        let j = lemma_entry_shown(dir, keep_init, with_data, i, below);
        assert(children[j].name == path[0]);
    }
}

/// Whether a node stands where the names lead to from the given nodes, and all nodes on the way are
/// folders.
pub open spec fn in_folders(nodes: Seq<NodeView>, steps: Seq<Text>, node: NodeView) -> bool
    decreases steps.len(),
{
    if steps.len() == 0 {
        nodes.contains(node)
    } else {
        exists|i: int|
            0 <= i < nodes.len() && (#[trigger] nodes[i]).name == steps[0] && nodes[i].class_name
                == "Folder"@ && in_folders(nodes[i].children, steps.drop_first(), node)
    }
}

/// The nodes in the folder for the data files of a subdirectory.
pub open spec fn data_children(name: Text, dir: DirView) -> Seq<NodeView> {
    if layout::is_folder(name, dir) {
        layout::directory_children(dir, false, true)
    } else {
        layout::plain_children(dir)
    }
}

/// A directory with data files has a folder for them.
proof fn lemma_data_entry(name: Text, dir: DirView)
    requires
        data_children(name, dir).len() > 0,
    ensures
        layout::directory_entry(name, dir, true).contains(
            layout::container_node(name, "Folder"@, data_children(name, dir)),
        ),
{
    let node = layout::container_node(name, "Folder"@, data_children(name, dir));
    if layout::is_folder(name, dir) {
        lemma_own_entry(name, dir, true);
    } else {
        let own = layout::listed(layout::directory_node(name, dir, true));
        let beside = layout::listed(layout::plain_node(name, dir));
        assert(beside[0] == node);
        lemma_contains_left(own, beside, node);
    }
}

/// The folder for the data files of a subdirectory is shown among the nodes of its directory.
pub proof fn lemma_data_shown(dir: DirView, keep_init: bool, i: int) -> (j: int)
    requires
        0 <= i < dir.directories.len(),
        data_children(dir.directories[i].0, dir.directories[i].1).len() > 0,
    ensures
        0 <= j < layout::directory_children(dir, keep_init, true).len(),
        layout::directory_children(dir, keep_init, true)[j] == layout::container_node(
            dir.directories[i].0,
            "Folder"@,
            data_children(dir.directories[i].0, dir.directories[i].1),
        ),
{
    let (name, sub) = dir.directories[i];
    lemma_data_entry(name, sub);
    lemma_entry_shown(
        dir,
        keep_init,
        true,
        i,
        layout::container_node(name, "Folder"@, data_children(name, sub)),
    )
}

/// The folder for the data files of a subdirectory is shown among those of its directory.
pub proof fn lemma_plain_shown(dir: DirView, i: int) -> (j: int)
    requires
        0 <= i < dir.directories.len(),
        layout::plain_children(dir.directories[i].1).len() > 0,
    ensures
        0 <= j < layout::plain_children(dir).len(),
        layout::plain_children(dir)[j] == layout::container_node(
            dir.directories[i].0,
            "Folder"@,
            layout::plain_children(dir.directories[i].1),
        ),
{
    let files = layout::external_nodes(dir.external_files);
    let dirs = layout::plain_nodes(dir.directories);
    let node = layout::plain_node(dir.directories[i].0, dir.directories[i].1)->Some_0;
    lemma_plain_nodes(dir.directories, i);
    lemma_contains_left(files, dirs, node);
    lemma_sorted_contains(files + dirs, node);
    choose|j: int|
        0 <= j < layout::plain_children(dir).len() && layout::plain_children(dir)[j] == node
}

proof fn lemma_plain_nodes(dirs: Seq<(Text, DirView)>, i: int)
    requires
        0 <= i < dirs.len(),
        layout::plain_node(dirs[i].0, dirs[i].1) is Some,
    ensures
        layout::plain_nodes(dirs).contains(layout::plain_node(dirs[i].0, dirs[i].1)->Some_0),
    decreases dirs.len(),
{
    let node = layout::plain_node(dirs[i].0, dirs[i].1)->Some_0;
    let init = dirs.drop_last();
    let head = layout::plain_nodes(init);
    let last = layout::listed(layout::plain_node(dirs.last().0, dirs.last().1));
    if i < init.len() {
        assert(init[i] == dirs[i]);
        lemma_plain_nodes(init, i);
    } else {
        assert(last[0] == node);
    }
    lemma_contains_left(head, last, node);
}

/// Among nodes that hold data files only, a data file stands in folders where its path leads.
pub proof fn lemma_in_plain_folders(dir: DirView, path: Seq<Text>, file: ExternalView)
    requires
        holds(dir, path, ItemView::External(file)),
    ensures
        in_folders(layout::plain_children(dir), path, layout::external_node(file)),
        layout::plain_children(dir).len() > 0,
    decreases path.len(),
{
    let children = layout::plain_children(dir);
    let node = layout::external_node(file);
    if path.len() == 0 {
        let files = layout::external_nodes(dir.external_files);
        let dirs = layout::plain_nodes(dir.directories);
        lemma_external_nodes(dir.external_files, file);
        lemma_contains_left(files, dirs, node);
        lemma_sorted_contains(files + dirs, node);
    } else {
        let i = choose|i: int|
            0 <= i < dir.directories.len() && (#[trigger] dir.directories[i]).0 == path[0] && holds(
                dir.directories[i].1,
                path.drop_first(),
                ItemView::External(file),
            );
        lemma_in_plain_folders(dir.directories[i].1, path.drop_first(), file);
        let j = lemma_plain_shown(dir, i);
        assert(children[j].name == path[0]);
    }
}

/// A data file stands in folders where its path leads.
pub proof fn lemma_in_folders(dir: DirView, keep_init: bool, path: Seq<Text>, file: ExternalView)
    requires
        holds(dir, path, ItemView::External(file)),
    ensures
        in_folders(
            layout::directory_children(dir, keep_init, true),
            path,
            layout::external_node(file),
        ),
        layout::directory_children(dir, keep_init, true).len() > 0,
    decreases path.len(), 0nat,
{
    let children = layout::directory_children(dir, keep_init, true);
    let node = layout::external_node(file);
    if path.len() == 0 {
        let scripts = layout::script_nodes(dir.scripts, keep_init);
        let files = layout::external_nodes(dir.external_files);
        let dirs = layout::directory_nodes(dir.directories, true);
        lemma_external_nodes(dir.external_files, file);
        lemma_contains_left(scripts, files, node);
        lemma_contains_left(scripts + files, dirs, node);
        lemma_sorted_contains(scripts + files + dirs, node);
    } else {
        let i = choose|i: int|
            0 <= i < dir.directories.len() && (#[trigger] dir.directories[i]).0 == path[0] && holds(
                dir.directories[i].1,
                path.drop_first(),
                ItemView::External(file),
            );
        lemma_in_data_children(path[0], dir.directories[i].1, path.drop_first(), file);
        let j = lemma_data_shown(dir, keep_init, i);
        assert(children[j].name == path[0]);
    }
}

/// In the folder for the data files of a directory, a data file stands in folders where its path leads.
pub proof fn lemma_in_data_children(name: Text, dir: DirView, path: Seq<Text>, file: ExternalView)
    requires
        holds(dir, path, ItemView::External(file)),
    ensures
        in_folders(data_children(name, dir), path, layout::external_node(file)),
        data_children(name, dir).len() > 0,
    decreases path.len(), 1nat,
{
    if layout::is_folder(name, dir) {
        lemma_in_folders(dir, false, path, file);
    } else {
        lemma_in_plain_folders(dir, path, file);
    }
}

// ---------------------------------------------------------------------------------------------
// The layout
// ---------------------------------------------------------------------------------------------

/// Whether a node stands where the names lead to from the data model. Each node on the way stands for
/// a directory.
pub open spec fn below_data_model(mounts: Seq<MountView>, steps: Seq<Text>, node: NodeView) -> bool {
    if steps.len() == 0 {
        mounts.contains(MountView::DataModelChild(node))
    } else {
        exists|i: int, top: NodeView|
            0 <= i < mounts.len() && #[trigger] mounts[i] == MountView::DataModelChild(top)
                && top.name == steps[0] && for_directory(top) && #[trigger] shown(
                top.children,
                steps.drop_first(),
                node,
            )
    }
}

/// Whether a node stands where the names lead to from a service.
pub open spec fn below_service(
    mounts: Seq<MountView>,
    service_name: Text,
    steps: Seq<Text>,
    node: NodeView,
) -> bool {
    exists|i: int, children: Seq<NodeView>|
        0 <= i < mounts.len() && #[trigger] mounts[i] == (MountView::ServiceContents {
            service_name,
            children,
        }) && #[trigger] shown(children, steps, node)
}

/// Whether a node stands where the names lead to from the data model, and all nodes on the way are
/// folders.
pub open spec fn in_folders_below_data_model(
    mounts: Seq<MountView>,
    steps: Seq<Text>,
    node: NodeView,
) -> bool {
    if steps.len() == 0 {
        mounts.contains(MountView::DataModelChild(node))
    } else {
        exists|i: int, top: NodeView|
            0 <= i < mounts.len() && #[trigger] mounts[i] == MountView::DataModelChild(top)
                && top.name == steps[0] && top.class_name == "Folder"@ && #[trigger] in_folders(
                top.children,
                steps.drop_first(),
                node,
            )
    }
}

/// What a top-level directory becomes is mounted.
pub proof fn lemma_directory_mounts(dirs: Seq<(Text, DirView)>, i: int, mount: MountView)
    requires
        0 <= i < dirs.len(),
        layout::directory_mount(dirs[i].0, dirs[i].1).contains(mount),
    ensures
        layout::directory_mounts(dirs).contains(mount),
    decreases dirs.len(),
{
    let init = dirs.drop_last();
    let head = layout::directory_mounts(init);
    let last = layout::directory_mount(dirs.last().0, dirs.last().1);
    if i < init.len() {
        assert(init[i] == dirs[i]);
        lemma_directory_mounts(init, i, mount);
    }
    lemma_contains_left(head, last, mount);
}

/// A node below the data model is mounted there.
pub proof fn lemma_child_mounts(nodes: Seq<NodeView>, node: NodeView)
    requires
        nodes.contains(node),
    ensures
        layout::child_mounts(nodes).contains(MountView::DataModelChild(node)),
{
    let i = choose|i: int| 0 <= i < nodes.len() && nodes[i] == node;
    assert(layout::child_mounts(nodes)[i] == MountView::DataModelChild(node));
}

/// What the directories of a project become is mounted.
pub proof fn lemma_mounted(scripts: Seq<ScriptView>, files: Seq<ExternalView>, mount: MountView) -> (j: int)
    requires
        ({
            let root = layout::root_dir(scripts, files);
            ||| layout::child_mounts(layout::script_nodes(root.scripts, false)).contains(mount)
            ||| layout::child_mounts(layout::external_nodes(root.external_files)).contains(mount)
            ||| layout::directory_mounts(root.directories).contains(mount)
        }),
    ensures
        0 <= j < layout::mounts_of(scripts, files).len(),
        layout::mounts_of(scripts, files)[j] == mount,
        layout::mounts_of(scripts, files).contains(mount),
{
    let root = layout::root_dir(scripts, files);
    let mounts = layout::mounts_of(scripts, files);
    let a = layout::child_mounts(layout::script_nodes(root.scripts, false));
    let b = layout::child_mounts(layout::external_nodes(root.external_files));
    let c = layout::directory_mounts(root.directories);
    if a.contains(mount) || b.contains(mount) {
        lemma_contains_left(a, b, mount);
    }
    lemma_contains_left(a + b, c, mount);
    choose|j: int| 0 <= j < mounts.len() && mounts[j] == mount
}

/// The nodes in the folder for the data files of a top-level directory.
pub open spec fn top_children(name: Text, dir: DirView) -> Seq<NodeView> {
    if layout::goes_below_service(name) {
        layout::plain_children(dir)
    } else {
        data_children(name, dir)
    }
}

/// The folder for the data files of a top-level directory is mounted below the data model.
pub proof fn lemma_data_mounted(scripts: Seq<ScriptView>, files: Seq<ExternalView>, i: int) -> (j: int)
    requires
        0 <= i < layout::root_dir(scripts, files).directories.len(),
        ({
            let (name, dir) = layout::root_dir(scripts, files).directories[i];
            top_children(name, dir).len() > 0
        }),
    ensures
        0 <= j < layout::mounts_of(scripts, files).len(),
        ({
            let (name, dir) = layout::root_dir(scripts, files).directories[i];
            layout::mounts_of(scripts, files)[j] == MountView::DataModelChild(
                layout::container_node(name, "Folder"@, top_children(name, dir)),
            )
        }),
{
    let root = layout::root_dir(scripts, files);
    let (name, dir) = root.directories[i];
    let top = layout::container_node(name, "Folder"@, top_children(name, dir));
    let mount = MountView::DataModelChild(top);
    if layout::goes_below_service(name) {
        let plain = layout::listed(layout::plain_node(name, dir));
        assert(plain[0] == top);
        lemma_child_mounts(plain, top);
        lemma_contains_left(
            layout::service_mount(name, dir),
            layout::child_mounts(plain),
            mount,
        );
    } else {
        lemma_data_entry(name, dir);
        lemma_child_mounts(layout::directory_entry(name, dir, true), top);
    }
    lemma_directory_mounts(root.directories, i, mount);
    lemma_mounted(scripts, files, mount)
}

/// A directory that leads to a script has scripts.
pub proof fn lemma_has_scripts(dir: DirView, path: Seq<Text>, script: ScriptView)
    requires
        holds(dir, path, ItemView::Script(script)),
    ensures
        layout::has_scripts(dir),
    decreases path.len(),
{
    if path.len() > 0 {
        let i = choose|i: int|
            0 <= i < dir.directories.len() && (#[trigger] dir.directories[i]).0 == path[0] && holds(
                dir.directories[i].1,
                path.drop_first(),
                ItemView::Script(script),
            );
        lemma_has_scripts(dir.directories[i].1, path.drop_first(), script);
    }
}

/// Every script has its node where its path leads: below the service that its first directory names,
/// or else below the data model. Only a script that stands for its directory has no node of its own,
/// unless the directory is a service.
pub proof fn law_scripts_have_nodes(scripts: Seq<ScriptView>, files: Seq<ExternalView>, k: int)
    requires
        0 <= k < scripts.len(),
        !layout::is_init(scripts[k]) || (scripts[k].container_path.len() == 1 && (layout::is_service(
            scripts[k].container_path[0],
        ) || scripts[k].container_path[0] == "StarterPlayerScripts"@)),
    ensures
        ({
            let script = scripts[k];
            let path = script.container_path;
            let mounts = layout::mounts_of(scripts, files);
            if path.len() > 0 && path[0] == "StarterPlayerScripts"@ {
                below_service(mounts, "StarterPlayer"@, path, layout::script_node(script))
            } else if path.len() > 0 && layout::is_service(path[0]) {
                below_service(mounts, path[0], path.drop_first(), layout::script_node(script))
            } else {
                below_data_model(mounts, path, layout::script_node(script))
            }
        }),
{
    let script = scripts[k];
    let item = ItemView::Script(script);
    let path = script.container_path;
    let mounts = layout::mounts_of(scripts, files);
    let root = layout::root_dir(scripts, files);
    lemma_scripts_held(scripts, k);
    lemma_externals_keep(layout::insert_scripts(layout::empty_dir(), scripts), files, path, item);
    let node = layout::script_node(script);
    if path.len() == 0 {
        lemma_script_nodes(root.scripts, false, script);
        lemma_child_mounts(layout::script_nodes(root.scripts, false), node);
        let j = lemma_mounted(scripts, files, MountView::DataModelChild(node));
    } else {
        let steps = path.drop_first();
        let i = choose|i: int|
            0 <= i < root.directories.len() && (#[trigger] root.directories[i]).0 == path[0]
                && holds(root.directories[i].1, steps, item);
        let dir = root.directories[i].1;
        if layout::goes_below_service(path[0]) {
            lemma_shown(dir, true, false, steps, script);
            lemma_has_scripts(dir, steps, script);
            let inner = layout::directory_children(dir, true, false);
            let top = layout::container_node(path[0], "StarterPlayerScripts"@, inner);
            let starting = path[0] == "StarterPlayerScripts"@;
            let children = if starting {
                seq![top]
            } else {
                inner
            };
            let service_name = if starting {
                "StarterPlayer"@
            } else {
                path[0]
            };
            let mount = MountView::ServiceContents { service_name, children };
            assert(layout::service_mount(path[0], dir)[0] == mount);
            lemma_contains_left(
                layout::service_mount(path[0], dir),
                layout::child_mounts(layout::listed(layout::plain_node(path[0], dir))),
                mount,
            );
            lemma_directory_mounts(root.directories, i, mount);
            let j = lemma_mounted(scripts, files, mount);
            assert(mounts[j] == mount);
            if starting {
                assert(children[0].name == path[0]);
                assert(shown(children, path, node));
            }
        } else {
            let shared = layout::is_folder(path[0], dir);
            lemma_shown(dir, false, shared, steps, script);
            let top = layout::directory_node(path[0], dir, true)->Some_0;
            assert(top.name == path[0] && top.children == layout::directory_children(
                dir,
                false,
                shared,
            ));
            lemma_own_entry(path[0], dir, true);
            lemma_for_directory(path[0], dir, true);
            lemma_child_mounts(layout::directory_entry(path[0], dir, true), top);
            let mount = MountView::DataModelChild(top);
            lemma_directory_mounts(root.directories, i, mount);
            let j = lemma_mounted(scripts, files, mount);
            assert(mounts[j] == MountView::DataModelChild(top));
            assert(shown(top.children, steps, node));
        }
    }
}

/// Every data file has its node below the data model, in folders named after the directories of its
/// path, and the node holds the bytes of the file.
pub proof fn law_data_files_have_nodes(scripts: Seq<ScriptView>, files: Seq<ExternalView>, k: int)
    requires
        0 <= k < files.len(),
    ensures
        in_folders_below_data_model(
            layout::mounts_of(scripts, files),
            files[k].container_path,
            layout::external_node(files[k]),
        ),
        layout::external_node(files[k]).class_name == "StringValue"@,
        layout::external_node(files[k]).name == files[k].name,
        layout::external_node(files[k]).value == Some(files[k].bytes),
{
    let file = files[k];
    let item = ItemView::External(file);
    let path = file.container_path;
    let node = layout::external_node(file);
    let mounts = layout::mounts_of(scripts, files);
    let root = layout::root_dir(scripts, files);
    lemma_externals_held(layout::insert_scripts(layout::empty_dir(), scripts), files, k);
    if path.len() == 0 {
        lemma_external_nodes(root.external_files, file);
        lemma_child_mounts(layout::external_nodes(root.external_files), node);
        let j = lemma_mounted(scripts, files, MountView::DataModelChild(node));
    } else {
        let steps = path.drop_first();
        let i = choose|i: int|
            0 <= i < root.directories.len() && (#[trigger] root.directories[i]).0 == path[0]
                && holds(root.directories[i].1, steps, item);
        let dir = root.directories[i].1;
        lemma_in_top_children(path[0], dir, steps, file);
        let top = layout::container_node(path[0], "Folder"@, top_children(path[0], dir));
        let j = lemma_data_mounted(scripts, files, i);
        assert(mounts[j] == MountView::DataModelChild(top));
        assert(in_folders(top.children, steps, node));
    }
}

/// In the folder for the data files of a top-level directory, a data file stands in folders where its
/// path leads.
pub proof fn lemma_in_top_children(name: Text, dir: DirView, path: Seq<Text>, file: ExternalView)
    requires
        holds(dir, path, ItemView::External(file)),
    ensures
        in_folders(top_children(name, dir), path, layout::external_node(file)),
        top_children(name, dir).len() > 0,
{
    if layout::goes_below_service(name) {
        lemma_in_plain_folders(dir, path, file);
    } else {
        lemma_in_data_children(name, dir, path, file);
    }
}

// ---------------------------------------------------------------------------------------------
// Directories that a script stands for
// ---------------------------------------------------------------------------------------------

/// A directory that a script stands for becomes a module named after the directory, with the source
/// of that script, and every other script in it comes below. Data files of a directory of the same
/// path stand in a folder beside it.
pub proof fn law_init_makes_a_module(name: Text, dir: DirView)
    requires
        layout::special_class(name) is None,
        layout::init_of(dir.scripts) is Some,
    ensures
        ({
            let init = layout::init_of(dir.scripts)->Some_0;
            &&& dir.scripts.contains(init) && layout::is_init(init)
            &&& layout::directory_node(name, dir, true) matches Some(node) && node.name == name
                && node.class_name == "ModuleScript"@ && node.source == Some(init.source)
                && node.script_path == Some(init.relative_path) && node.children
                == layout::directory_children(dir, false, false)
            &&& layout::directory_entry(name, dir, true) == seq![
                layout::directory_node(name, dir, true)->Some_0,
            ] + layout::listed(layout::plain_node(name, dir))
        }),
{
    lemma_init_of(dir.scripts);
}

/// A script that stands for its directory is one of the scripts in it.
pub proof fn lemma_init_of(scripts: Seq<ScriptView>)
    requires
        layout::init_of(scripts) is Some,
    ensures
        scripts.contains(layout::init_of(scripts)->Some_0),
        layout::is_init(layout::init_of(scripts)->Some_0),
    decreases scripts.len(),
{
    if layout::is_init(scripts[0]) {
        assert(scripts.contains(scripts[0]));
    } else {
        let rest = scripts.drop_first();
        lemma_init_of(rest);
        let i = choose|i: int| 0 <= i < rest.len() && rest[i] == layout::init_of(rest)->Some_0;
        assert(scripts[i + 1] == rest[i]);
    }
}

// ---------------------------------------------------------------------------------------------
// Data files and services
// ---------------------------------------------------------------------------------------------

/// Whether no node holds the content of a data file, nor any node below.
pub open spec fn without_data(nodes: Seq<NodeView>) -> bool
    decreases nodes,
{
    forall|i: int|
        0 <= i < nodes.len() ==> (#[trigger] nodes[i]).value is None && nodes[i].class_name
            != "StringValue"@ && without_data(nodes[i].children)
}

proof fn lemma_kind_class(kind: ScriptKind)
    ensures
        project::kind_class(kind) != "StringValue"@,
        "Folder"@ != "StringValue"@,
        "ModuleScript"@ != "StringValue"@,
        "StarterPlayerScripts"@ != "StringValue"@,
        "PlayerScripts"@ != "StringValue"@,
{
    reveal_strlit("StringValue");
    reveal_strlit("Folder");
    reveal_strlit("ModuleScript");
    reveal_strlit("Script");
    reveal_strlit("LocalScript");
    reveal_strlit("StarterPlayerScripts");
    reveal_strlit("PlayerScripts");
    assert("StringValue"@.len() == 11);
    assert("Folder"@.len() == 6);
    assert("ModuleScript"@.len() == 12);
    assert("Script"@.len() == 6);
    assert("LocalScript"@.len() == 11);
    assert("StringValue"@[0] == 'S');
    assert("LocalScript"@[0] == 'L');
    assert("StarterPlayerScripts"@.len() == 20);
    assert("PlayerScripts"@.len() == 13);
}

spec fn plain_one(node: NodeView) -> bool {
    node.value is None && node.class_name != "StringValue"@ && without_data(node.children)
}

proof fn lemma_scripts_without_data(scripts: Seq<ScriptView>, keep_init: bool)
    ensures
        forall|i: int|
            0 <= i < layout::script_nodes(scripts, keep_init).len() ==> plain_one(
                #[trigger] layout::script_nodes(scripts, keep_init)[i],
            ),
    decreases scripts.len(),
{
    if scripts.len() > 0 {
        let head = layout::script_nodes(scripts.drop_last(), keep_init);
        let all = layout::script_nodes(scripts, keep_init);
        let last = layout::script_node(scripts.last());
        lemma_scripts_without_data(scripts.drop_last(), keep_init);
        lemma_kind_class(scripts.last().kind);
        assert(without_data(last.children));
        assert forall|i: int| 0 <= i < all.len() implies plain_one(#[trigger] all[i]) by {
            if i < head.len() {
                assert(all[i] == head[i]);
            }
        }
    }
}

proof fn lemma_children_without_data(dir: DirView, keep_init: bool)
    ensures
        without_data(layout::directory_children(dir, keep_init, false)),
    decreases dir, 1nat,
{
    let scripts = layout::script_nodes(dir.scripts, keep_init);
    let none = Seq::<NodeView>::empty();
    let dirs = layout::directory_nodes(dir.directories, false);
    let all = scripts + none + dirs;
    lemma_scripts_without_data(dir.scripts, keep_init);
    lemma_dirs_without_data(dir.directories);
    let sorted = layout::sort_nodes(all);
    assert forall|i: int| 0 <= i < sorted.len() implies plain_one(#[trigger] sorted[i]) by {
        assert(sorted.contains(sorted[i]));
        lemma_sorted_contains(all, sorted[i]);
        let j = choose|j: int| 0 <= j < all.len() && all[j] == sorted[i];
        if j < scripts.len() {
            assert(all[j] == scripts[j]);
        } else {
            assert(all[j] == dirs[j - scripts.len()]);
        }
    }
}

proof fn lemma_dirs_without_data(dirs: Seq<(Text, DirView)>)
    ensures
        forall|i: int|
            0 <= i < layout::directory_nodes(dirs, false).len() ==> plain_one(
                #[trigger] layout::directory_nodes(dirs, false)[i],
            ),
    decreases dirs, 0nat,
{
    if dirs.len() > 0 {
        let name = dirs.last().0;
        let dir = dirs.last().1;
        lemma_dirs_without_data(dirs.drop_last());
        lemma_children_without_data(dir, false);
        lemma_kind_class(ScriptKind::ModuleScript);
        let head = layout::directory_nodes(dirs.drop_last(), false);
        let all = layout::directory_nodes(dirs, false);
        let made = layout::directory_node(name, dir, false);
        if let Some(node) = made {
            assert(node.children == layout::directory_children(dir, false, false));
            assert(plain_one(node));
        }
        assert(layout::directory_entry(name, dir, false) =~= layout::listed(made));
        assert forall|i: int| 0 <= i < all.len() implies plain_one(#[trigger] all[i]) by {
            if i < head.len() {
                assert(all[i] == head[i]);
            } else {
                assert(made == Some(all[i]));
            }
        }
    }
}

/// Data files do not appear below services.
pub proof fn law_services_hold_no_data(
    scripts: Seq<ScriptView>,
    files: Seq<ExternalView>,
    i: int,
)
    requires
        0 <= i < layout::mounts_of(scripts, files).len(),
    ensures
        layout::mounts_of(scripts, files)[i] matches MountView::ServiceContents { children, .. }
            ==> without_data(children),
{
    let mounts = layout::mounts_of(scripts, files);
    let root = layout::root_dir(scripts, files);
    let a = layout::child_mounts(layout::script_nodes(root.scripts, false));
    let b = layout::child_mounts(layout::external_nodes(root.external_files));
    let c = layout::directory_mounts(root.directories);
    lemma_mounts_without_data(root.directories);
    if i < a.len() {
        assert(mounts[i] == a[i]);
    } else if i < a.len() + b.len() {
        assert(mounts[i] == b[i - a.len()]);
    } else {
        assert(mounts[i] == c[i - a.len() - b.len()]);
    }
}

proof fn lemma_mounts_without_data(dirs: Seq<(Text, DirView)>)
    ensures
        forall|i: int|
            0 <= i < layout::directory_mounts(dirs).len() ==> ((
            #[trigger] layout::directory_mounts(dirs)[i]) matches MountView::ServiceContents {
                children,
                ..
            } ==> without_data(children)),
    decreases dirs.len(),
{
    if dirs.len() > 0 {
        let name = dirs.last().0;
        let dir = dirs.last().1;
        lemma_mounts_without_data(dirs.drop_last());
        lemma_children_without_data(dir, true);
        lemma_kind_class(ScriptKind::ModuleScript);
        let head = layout::directory_mounts(dirs.drop_last());
        let last = layout::directory_mount(name, dir);
        let all = layout::directory_mounts(dirs);
        assert forall|i: int| 0 <= i < all.len() implies ((
        #[trigger] all[i]) matches MountView::ServiceContents { children, .. } ==> without_data(
            children,
        )) by {
            if i < head.len() {
                assert(all[i] == head[i]);
            } else {
                assert(all[i] == last[i - head.len()]);
                if layout::goes_below_service(name) {
                    let service = layout::service_mount(name, dir);
                    if i - head.len() < service.len() {
                        assert(all[i] == service[i - head.len()]);
                    }
                }
            }
        }
    }
}

} // verus!
