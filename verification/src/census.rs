//! How many nodes of a layout stand for a file of the project: one for each script and each data file.

use vstd::multiset::Multiset;
use vstd::prelude::*;
use vstd::string::*;

use crate::layout::{self, DirView, ItemView};
use crate::placement;
use crate::project::{self, ExternalView, FileView, MountView, NodeView, ScriptView};
use crate::rbxlx;
use crate::text::Text;

verus! {

// ---------------------------------------------------------------------------------------------
// Nodes
// ---------------------------------------------------------------------------------------------

/// The nodes that stand for the file at a path, among a node and everything below it.
pub open spec fn nodes_for(node: NodeView, path: Text) -> Multiset<NodeView>
    decreases node, 1nat,
{
    (if node.script_path == Some(path) {
        Multiset::singleton(node)
    } else {
        Multiset::empty()
    }).add(list_nodes_for(node.children, path))
}

/// The nodes that stand for the file at a path, among nodes and everything below them.
pub open spec fn list_nodes_for(nodes: Seq<NodeView>, path: Text) -> Multiset<NodeView>
    decreases nodes, 0nat,
{
    if nodes.len() == 0 {
        Multiset::empty()
    } else {
        list_nodes_for(nodes.drop_last(), path).add(nodes_for(nodes.last(), path))
    }
}

/// The nodes of a layout that stand for the file at a path.
pub open spec fn layout_nodes_for(mounts: Seq<MountView>, path: Text) -> Multiset<NodeView>
    decreases mounts.len(),
{
    if mounts.len() == 0 {
        Multiset::empty()
    } else {
        layout_nodes_for(mounts.drop_last(), path).add(
            list_nodes_for(rbxlx::model_part(mounts.last()), path),
        )
    }
}

proof fn lemma_push(nodes: Seq<NodeView>, node: NodeView, path: Text)
    ensures
        list_nodes_for(nodes.push(node), path) == list_nodes_for(nodes, path).add(
            nodes_for(node, path),
        ),
{
    assert(nodes.push(node).drop_last() =~= nodes);
}

proof fn lemma_append(a: Seq<NodeView>, b: Seq<NodeView>, path: Text)
    ensures
        list_nodes_for(a + b, path) == list_nodes_for(a, path).add(list_nodes_for(b, path)),
    decreases b.len(),
{
    if b.len() == 0 {
        assert(a + b =~= a);
        assert(list_nodes_for(a, path) =~= list_nodes_for(a, path).add(list_nodes_for(b, path)));
    } else {
        lemma_append(a, b.drop_last(), path);
        assert((a + b).drop_last() =~= a + b.drop_last());
        assert(list_nodes_for(a + b, path) =~= list_nodes_for(a, path).add(
            list_nodes_for(b, path),
        ));
    }
}

proof fn lemma_insert_node(nodes: Seq<NodeView>, node: NodeView, path: Text)
    ensures
        list_nodes_for(layout::insert_node(nodes, node), path) == list_nodes_for(nodes, path).add(
            nodes_for(node, path),
        ),
    decreases nodes.len(),
{
    let le = layout::by_name();
    if nodes.len() == 0 || le(nodes.last(), node) {
        lemma_push(nodes, node, path);
    } else {
        let init = nodes.drop_last();
        lemma_insert_node(init, node, path);
        lemma_push(layout::insert_node(init, node), nodes.last(), path);
        assert(list_nodes_for(layout::insert_node(nodes, node), path) =~= list_nodes_for(
            nodes,
            path,
        ).add(nodes_for(node, path)));
    }
}

proof fn lemma_sort(nodes: Seq<NodeView>, path: Text)
    ensures
        list_nodes_for(layout::sort_nodes(nodes), path) == list_nodes_for(nodes, path),
    decreases nodes.len(),
{
    if nodes.len() > 0 {
        let init = nodes.drop_last();
        lemma_sort(init, path);
        lemma_insert_node(layout::sort_nodes(init), nodes.last(), path);
    }
}

// ---------------------------------------------------------------------------------------------
// Directories
// ---------------------------------------------------------------------------------------------

spec fn item_path(item: ItemView) -> Text {
    match item {
        ItemView::Script(script) => script.relative_path,
        ItemView::External(file) => file.relative_path,
    }
}

/// The node of an item that is the file at a path and has a node of its own.
spec fn item_for(item: ItemView, path: Text) -> Multiset<NodeView> {
    if item_path(item) == path && placement::own_node(item) {
        Multiset::singleton(placement::item_node(item))
    } else {
        Multiset::empty()
    }
}

spec fn scripts_for(scripts: Seq<ScriptView>, path: Text) -> Multiset<NodeView>
    decreases scripts.len(),
{
    if scripts.len() == 0 {
        Multiset::empty()
    } else {
        scripts_for(scripts.drop_last(), path).add(item_for(ItemView::Script(scripts.last()), path))
    }
}

spec fn files_for(files: Seq<ExternalView>, path: Text) -> Multiset<NodeView>
    decreases files.len(),
{
    if files.len() == 0 {
        Multiset::empty()
    } else {
        files_for(files.drop_last(), path).add(item_for(ItemView::External(files.last()), path))
    }
}

/// The nodes for the scripts and the data files in a directory and below it, or for one of the two.
spec fn dir_for(dir: DirView, path: Text, scripts: bool, data: bool) -> Multiset<NodeView>
    decreases dir, 1nat,
{
    (if scripts {
        scripts_for(dir.scripts, path)
    } else {
        Multiset::empty()
    }).add(
        if data {
            files_for(dir.external_files, path)
        } else {
            Multiset::empty()
        },
    ).add(dirs_for(dir.directories, path, scripts, data))
}

spec fn dirs_for(dirs: Seq<(Text, DirView)>, path: Text, scripts: bool, data: bool) -> Multiset<
    NodeView,
>
    decreases dirs, 0nat,
{
    if dirs.len() == 0 {
        Multiset::empty()
    } else {
        dirs_for(dirs.drop_last(), path, scripts, data).add(
            dir_for(dirs.last().1, path, scripts, data),
        )
    }
}

/// Scripts and data files together are what each of the two is.
proof fn lemma_split(dir: DirView, path: Text)
    ensures
        dir_for(dir, path, true, true) == dir_for(dir, path, true, false).add(
            dir_for(dir, path, false, true),
        ),
    decreases dir, 1nat,
{
    lemma_split_dirs(dir.directories, path);
    assert(dir_for(dir, path, true, true) =~= dir_for(dir, path, true, false).add(
        dir_for(dir, path, false, true),
    ));
}

proof fn lemma_split_dirs(dirs: Seq<(Text, DirView)>, path: Text)
    ensures
        dirs_for(dirs, path, true, true) == dirs_for(dirs, path, true, false).add(
            dirs_for(dirs, path, false, true),
        ),
    decreases dirs, 0nat,
{
    if dirs.len() > 0 {
        lemma_split_dirs(dirs.drop_last(), path);
        lemma_split(dirs.last().1, path);
    }
    assert(dirs_for(dirs, path, true, true) =~= dirs_for(dirs, path, true, false).add(
        dirs_for(dirs, path, false, true),
    ));
}

/// Where no script stands in a directory or below it, no node stands for one.
proof fn lemma_scriptless(dir: DirView, path: Text)
    requires
        !layout::has_scripts(dir),
    ensures
        dir_for(dir, path, true, false) == Multiset::<NodeView>::empty(),
    decreases dir, 1nat,
{
    lemma_scriptless_dirs(dir.directories, path);
    assert(dir_for(dir, path, true, false) =~= Multiset::<NodeView>::empty());
}

proof fn lemma_scriptless_dirs(dirs: Seq<(Text, DirView)>, path: Text)
    requires
        forall|i: int| 0 <= i < dirs.len() ==> !layout::has_scripts((#[trigger] dirs[i]).1),
    ensures
        dirs_for(dirs, path, true, false) == Multiset::<NodeView>::empty(),
    decreases dirs, 0nat,
{
    if dirs.len() > 0 {
        let init = dirs.drop_last();
        assert forall|i: int| 0 <= i < init.len() implies !layout::has_scripts(
            (#[trigger] init[i]).1,
        ) by {
            assert(init[i] == dirs[i]);
        }
        lemma_scriptless_dirs(init, path);
        assert(dirs[dirs.len() - 1] == dirs.last());
        lemma_scriptless(dirs.last().1, path);
        assert(dirs_for(dirs, path, true, false) =~= Multiset::<NodeView>::empty());
    }
}

/// Whether no script at the path stands for its directory.
spec fn no_init_at(scripts: Seq<ScriptView>, path: Text) -> bool {
    forall|i: int|
        0 <= i < scripts.len() && layout::is_init(#[trigger] scripts[i])
            ==> scripts[i].relative_path != path
}

spec fn no_init_in(dir: DirView, path: Text) -> bool
    decreases dir,
{
    &&& no_init_at(dir.scripts, path)
    &&& forall|i: int|
        0 <= i < dir.directories.len() ==> no_init_in((#[trigger] dir.directories[i]).1, path)
}

proof fn lemma_script_nodes(scripts: Seq<ScriptView>, keep_init: bool, path: Text)
    requires
        no_init_at(scripts, path),
    ensures
        list_nodes_for(layout::script_nodes(scripts, keep_init), path) == scripts_for(scripts, path),
    decreases scripts.len(),
{
    if scripts.len() > 0 {
        let init = scripts.drop_last();
        let last = scripts.last();
        assert forall|i: int|
            0 <= i < init.len() && layout::is_init(#[trigger] init[i]) implies init[i].relative_path
            != path by {
            assert(init[i] == scripts[i]);
        }
        assert(layout::is_init(scripts[scripts.len() - 1]) ==> last.relative_path != path);
        lemma_script_nodes(init, keep_init, path);
        let head = layout::script_nodes(init, keep_init);
        let node = layout::script_node(last);
        lemma_push(head, node, path);
        assert(nodes_for(node, path) =~= item_for(ItemView::Script(last), path)) by {
            assert(list_nodes_for(node.children, path) == Multiset::<NodeView>::empty());
        }
        assert(scripts_for(scripts, path) =~= list_nodes_for(
            layout::script_nodes(scripts, keep_init),
            path,
        ));
    }
}

proof fn lemma_external_nodes(files: Seq<ExternalView>, path: Text)
    ensures
        list_nodes_for(layout::external_nodes(files), path) == files_for(files, path),
    decreases files.len(),
{
    let nodes = layout::external_nodes(files);
    if files.len() > 0 {
        lemma_external_nodes(files.drop_last(), path);
        assert(nodes.drop_last() =~= layout::external_nodes(files.drop_last()));
        let node = layout::external_node(files.last());
        assert(nodes.last() == node);
        assert(nodes_for(node, path) =~= item_for(ItemView::External(files.last()), path)) by {
            assert(list_nodes_for(node.children, path) == Multiset::<NodeView>::empty());
        }
    }
}

proof fn lemma_one(node: NodeView, path: Text)
    ensures
        list_nodes_for(seq![node], path) == nodes_for(node, path),
{
    lemma_push(Seq::empty(), node, path);
    assert(Seq::<NodeView>::empty().push(node) =~= seq![node]);
    assert(list_nodes_for(seq![node], path) =~= nodes_for(node, path));
}

proof fn lemma_children(dir: DirView, keep_init: bool, with_data: bool, path: Text)
    requires
        no_init_in(dir, path),
    ensures
        list_nodes_for(layout::directory_children(dir, keep_init, with_data), path) == dir_for(
            dir,
            path,
            true,
            with_data,
        ),
    decreases dir, 1nat,
{
    let scripts = layout::script_nodes(dir.scripts, keep_init);
    let files = if with_data {
        layout::external_nodes(dir.external_files)
    } else {
        Seq::empty()
    };
    let dirs = layout::directory_nodes(dir.directories, with_data);
    lemma_script_nodes(dir.scripts, keep_init, path);
    lemma_external_nodes(dir.external_files, path);
    lemma_dirs(dir.directories, with_data, path);
    lemma_append(scripts, files, path);
    lemma_append(scripts + files, dirs, path);
    lemma_sort(scripts + files + dirs, path);
}

proof fn lemma_dirs(dirs: Seq<(Text, DirView)>, with_data: bool, path: Text)
    requires
        forall|i: int| 0 <= i < dirs.len() ==> no_init_in((#[trigger] dirs[i]).1, path),
    ensures
        list_nodes_for(layout::directory_nodes(dirs, with_data), path) == dirs_for(
            dirs,
            path,
            true,
            with_data,
        ),
    decreases dirs, 0nat,
{
    if dirs.len() > 0 {
        let init = dirs.drop_last();
        assert forall|i: int| 0 <= i < init.len() implies no_init_in(
            (#[trigger] init[i]).1,
            path,
        ) by {
            assert(init[i] == dirs[i]);
        }
        lemma_dirs(init, with_data, path);
        assert(dirs[dirs.len() - 1] == dirs.last());
        lemma_entry(dirs.last().0, dirs.last().1, with_data, path);
        lemma_append(
            layout::directory_nodes(init, with_data),
            layout::directory_entry(dirs.last().0, dirs.last().1, with_data),
            path,
        );
    }
}

proof fn lemma_directory(name: Text, dir: DirView, with_data: bool, path: Text)
    requires
        no_init_in(dir, path),
    ensures
        list_nodes_for(layout::listed(layout::directory_node(name, dir, with_data)), path)
            == dir_for(dir, path, true, with_data && layout::is_folder(name, dir)),
    decreases dir, 2nat,
{
    let shared = with_data && layout::is_folder(name, dir);
    lemma_children(dir, false, shared, path);
    if let Some(init) = layout::init_of(dir.scripts) {
        placement::lemma_init_of(dir.scripts);
        let i = choose|i: int| 0 <= i < dir.scripts.len() && dir.scripts[i] == init;
        assert(dir.scripts[i].relative_path != path);
    }
    if let Some(node) = layout::directory_node(name, dir, with_data) {
        assert(node.script_path != Some(path));
        assert(node.children == layout::directory_children(dir, false, shared));
        assert(nodes_for(node, path) =~= dir_for(dir, path, true, shared));
        lemma_one(node, path);
    }
}

proof fn lemma_entry(name: Text, dir: DirView, with_data: bool, path: Text)
    requires
        no_init_in(dir, path),
    ensures
        list_nodes_for(layout::directory_entry(name, dir, with_data), path) == dir_for(
            dir,
            path,
            true,
            with_data,
        ),
    decreases dir, 3nat,
{
    let own = layout::listed(layout::directory_node(name, dir, with_data));
    lemma_directory(name, dir, with_data, path);
    if with_data && !layout::is_folder(name, dir) {
        let beside = layout::listed(layout::plain_node(name, dir));
        lemma_plain(name, dir, path);
        lemma_append(own, beside, path);
        lemma_split(dir, path);
    } else {
        assert(layout::directory_entry(name, dir, with_data) =~= own);
    }
}

proof fn lemma_plain(name: Text, dir: DirView, path: Text)
    ensures
        list_nodes_for(layout::listed(layout::plain_node(name, dir)), path) == dir_for(
            dir,
            path,
            false,
            true,
        ),
    decreases dir, 1nat,
{
    lemma_plain_dirs(dir.directories, path);
    lemma_external_nodes(dir.external_files, path);
    let files = layout::external_nodes(dir.external_files);
    let below = layout::plain_nodes(dir.directories);
    lemma_append(files, below, path);
    lemma_sort(files + below, path);
    assert(list_nodes_for(layout::plain_children(dir), path) =~= dir_for(dir, path, false, true));
    if let Some(node) = layout::plain_node(name, dir) {
        assert(nodes_for(node, path) =~= dir_for(dir, path, false, true));
        lemma_one(node, path);
    }
}

proof fn lemma_plain_dirs(dirs: Seq<(Text, DirView)>, path: Text)
    ensures
        list_nodes_for(layout::plain_nodes(dirs), path) == dirs_for(dirs, path, false, true),
    decreases dirs, 0nat,
{
    if dirs.len() > 0 {
        lemma_plain_dirs(dirs.drop_last(), path);
        lemma_plain(dirs.last().0, dirs.last().1, path);
        lemma_append(
            layout::plain_nodes(dirs.drop_last()),
            layout::listed(layout::plain_node(dirs.last().0, dirs.last().1)),
            path,
        );
    }
}

// ---------------------------------------------------------------------------------------------
// Sorting files into directories
// ---------------------------------------------------------------------------------------------

/// The nodes for everything in a directory and below it.
spec fn all_for(dir: DirView, path: Text) -> Multiset<NodeView> {
    dir_for(dir, path, true, true)
}

spec fn all_dirs_for(dirs: Seq<(Text, DirView)>, path: Text) -> Multiset<NodeView> {
    dirs_for(dirs, path, true, true)
}

proof fn lemma_dirs_update(dirs: Seq<(Text, DirView)>, at: int, entry: (Text, DirView), path: Text)
    requires
        0 <= at < dirs.len(),
    ensures
        all_dirs_for(dirs.update(at, entry), path).add(all_for(dirs[at].1, path)) == all_dirs_for(
            dirs,
            path,
        ).add(all_for(entry.1, path)),
    decreases dirs.len(),
{
    let after = dirs.update(at, entry);
    let init = dirs.drop_last();
    let left = all_dirs_for(after, path).add(all_for(dirs[at].1, path));
    let right = all_dirs_for(dirs, path).add(all_for(entry.1, path));
    assert(after.len() == dirs.len());
    if at == dirs.len() - 1 {
        assert(after.drop_last() =~= init);
        assert(after.last() == entry);
        assert(left =~= right);
    } else {
        lemma_dirs_update(init, at, entry, path);
        assert(after.drop_last() =~= init.update(at, entry));
        assert(after.last() == dirs.last());
        assert(init[at] == dirs[at]);
        let a = all_dirs_for(init.update(at, entry), path).add(all_for(dirs[at].1, path));
        let b = all_dirs_for(init, path).add(all_for(entry.1, path));
        assert forall|n: NodeView| left.count(n) == #[trigger] right.count(n) by {
            assert(a.count(n) == b.count(n));
        }
        assert(left =~= right);
    }
}

proof fn lemma_dirs_insert(dirs: Seq<(Text, DirView)>, at: int, entry: (Text, DirView), path: Text)
    requires
        0 <= at <= dirs.len(),
    ensures
        all_dirs_for(dirs.insert(at, entry), path) == all_dirs_for(dirs, path).add(all_for(entry.1, path)),
    decreases dirs.len(),
{
    let after = dirs.insert(at, entry);
    if at == dirs.len() {
        assert(after.drop_last() =~= dirs);
        assert(after.last() == entry);
    } else {
        let init = dirs.drop_last();
        lemma_dirs_insert(init, at, entry, path);
        assert(after.drop_last() =~= init.insert(at, entry));
        assert(after.last() == dirs.last());
        assert(all_dirs_for(after, path) =~= all_dirs_for(dirs, path).add(all_for(entry.1, path)));
    }
}

/// Adding an item adds its node.
proof fn lemma_dir_insert(dir: DirView, steps: Seq<Text>, item: ItemView, path: Text)
    ensures
        all_for(layout::dir_insert(dir, steps, item), path) == all_for(dir, path).add(
            item_for(item, path),
        ),
    decreases steps.len(),
{
    let after = layout::dir_insert(dir, steps, item);
    if steps.len() == 0 {
        match item {
            ItemView::Script(script) => {
                assert(dir.scripts.push(script).drop_last() =~= dir.scripts);
            },
            ItemView::External(file) => {
                assert(dir.external_files.push(file).drop_last() =~= dir.external_files);
            },
        }
    } else {
        let dirs = dir.directories;
        let at = layout::slot(dirs, steps[0]) as int;
        placement::lemma_slot(dirs, steps[0]);
        let rest = steps.drop_first();
        if at < dirs.len() && dirs[at].0 == steps[0] {
            let entry = (steps[0], layout::dir_insert(dirs[at].1, rest, item));
            lemma_dir_insert(dirs[at].1, rest, item, path);
            lemma_dirs_update(dirs, at, entry, path);
            assert forall|n: NodeView|
                all_dirs_for(after.directories, path).count(n) == #[trigger] all_dirs_for(dirs, path).add(
                    item_for(item, path),
                ).count(n) by {
                let a = all_dirs_for(after.directories, path).add(all_for(dirs[at].1, path));
                let b = all_dirs_for(dirs, path).add(all_for(entry.1, path));
                assert(a.count(n) == b.count(n));
            }
            assert(all_dirs_for(after.directories, path) =~= all_dirs_for(dirs, path).add(
                item_for(item, path),
            ));
        } else {
            let entry = (steps[0], layout::dir_insert(layout::empty_dir(), rest, item));
            lemma_dir_insert(layout::empty_dir(), rest, item, path);
            lemma_dirs_insert(dirs, at, entry, path);
            assert(all_for(layout::empty_dir(), path) =~= Multiset::<NodeView>::empty());
        }
    }
    assert(all_for(after, path) =~= all_for(dir, path).add(item_for(item, path)));
}

proof fn lemma_no_init(dir: DirView, steps: Seq<Text>, item: ItemView, path: Text)
    requires
        no_init_in(dir, path),
        item matches ItemView::Script(script) ==> (layout::is_init(script) ==> script.relative_path
            != path),
    ensures
        no_init_in(layout::dir_insert(dir, steps, item), path),
    decreases steps.len(),
{
    let after = layout::dir_insert(dir, steps, item);
    if steps.len() == 0 {
        assert(after.directories == dir.directories);
        assert forall|i: int|
            0 <= i < after.scripts.len() && layout::is_init(
                #[trigger] after.scripts[i],
            ) implies after.scripts[i].relative_path != path by {
            if i < dir.scripts.len() {
                assert(after.scripts[i] == dir.scripts[i]);
            }
        }
        assert forall|i: int| 0 <= i < after.directories.len() implies no_init_in(
            (#[trigger] after.directories[i]).1,
            path,
        ) by {
            assert(after.directories[i] == dir.directories[i]);
        }
    } else {
        let at = layout::slot(dir.directories, steps[0]) as int;
        placement::lemma_slot(dir.directories, steps[0]);
        let present = at < dir.directories.len() && dir.directories[at].0 == steps[0];
        if present {
            lemma_no_init(dir.directories[at].1, steps.drop_first(), item, path);
        } else {
            lemma_no_init(layout::empty_dir(), steps.drop_first(), item, path);
        }
        assert forall|i: int| 0 <= i < after.directories.len() implies no_init_in(
            (#[trigger] after.directories[i]).1,
            path,
        ) by {
            if i != at {
                if present || i < at {
                    assert(after.directories[i] == dir.directories[i]);
                } else {
                    assert(after.directories[i] == dir.directories[i - 1]);
                }
            }
        }
    }
}

proof fn lemma_insert_scripts(scripts: Seq<ScriptView>, path: Text)
    requires
        no_init_at(scripts, path),
    ensures
        no_init_in(layout::insert_scripts(layout::empty_dir(), scripts), path),
        all_for(layout::insert_scripts(layout::empty_dir(), scripts), path) == scripts_for(
            scripts,
            path,
        ),
    decreases scripts.len(),
{
    if scripts.len() == 0 {
        assert(all_for(layout::empty_dir(), path) =~= Multiset::<NodeView>::empty());
    } else {
        let init = scripts.drop_last();
        let last = scripts.last();
        assert forall|i: int|
            0 <= i < init.len() && layout::is_init(#[trigger] init[i]) implies init[i].relative_path
            != path by {
            assert(init[i] == scripts[i]);
        }
        assert(layout::is_init(scripts[scripts.len() - 1]) ==> last.relative_path != path);
        lemma_insert_scripts(init, path);
        let before = layout::insert_scripts(layout::empty_dir(), init);
        lemma_no_init(before, last.container_path, ItemView::Script(last), path);
        lemma_dir_insert(before, last.container_path, ItemView::Script(last), path);
    }
}

proof fn lemma_insert_externals(dir: DirView, files: Seq<ExternalView>, path: Text)
    requires
        no_init_in(dir, path),
    ensures
        no_init_in(layout::insert_externals(dir, files), path),
        all_for(layout::insert_externals(dir, files), path) == all_for(dir, path).add(
            files_for(files, path),
        ),
    decreases files.len(),
{
    if files.len() == 0 {
        assert(all_for(dir, path) =~= all_for(dir, path).add(files_for(files, path)));
    } else {
        let last = files.last();
        let item = ItemView::External(last);
        lemma_insert_externals(dir, files.drop_last(), path);
        let before = layout::insert_externals(dir, files.drop_last());
        lemma_no_init(before, last.container_path, item, path);
        lemma_dir_insert(before, last.container_path, item, path);
        assert(all_for(layout::insert_externals(dir, files), path) =~= all_for(dir, path).add(
            files_for(files, path),
        ));
    }
}

// ---------------------------------------------------------------------------------------------
// Mounts
// ---------------------------------------------------------------------------------------------

proof fn lemma_mounts_append(a: Seq<MountView>, b: Seq<MountView>, path: Text)
    ensures
        layout_nodes_for(a + b, path) == layout_nodes_for(a, path).add(layout_nodes_for(b, path)),
    decreases b.len(),
{
    if b.len() == 0 {
        assert(a + b =~= a);
    } else {
        lemma_mounts_append(a, b.drop_last(), path);
        assert((a + b).drop_last() =~= a + b.drop_last());
    }
    assert(layout_nodes_for(a + b, path) =~= layout_nodes_for(a, path).add(
        layout_nodes_for(b, path),
    ));
}

proof fn lemma_child_mounts(nodes: Seq<NodeView>, path: Text)
    ensures
        layout_nodes_for(layout::child_mounts(nodes), path) == list_nodes_for(nodes, path),
    decreases nodes.len(),
{
    if nodes.len() > 0 {
        let mounts = layout::child_mounts(nodes);
        lemma_child_mounts(nodes.drop_last(), path);
        assert(mounts.drop_last() =~= layout::child_mounts(nodes.drop_last()));
        lemma_one(nodes.last(), path);
    }
}

proof fn lemma_directory_mounts(dirs: Seq<(Text, DirView)>, path: Text)
    requires
        forall|i: int| 0 <= i < dirs.len() ==> no_init_in((#[trigger] dirs[i]).1, path),
    ensures
        layout_nodes_for(layout::directory_mounts(dirs), path) == all_dirs_for(dirs, path),
    decreases dirs.len(),
{
    if dirs.len() > 0 {
        let init = dirs.drop_last();
        let name = dirs.last().0;
        let dir = dirs.last().1;
        assert forall|i: int| 0 <= i < init.len() implies no_init_in(
            (#[trigger] init[i]).1,
            path,
        ) by {
            assert(init[i] == dirs[i]);
        }
        lemma_directory_mounts(init, path);
        assert(dirs[dirs.len() - 1] == dirs.last());
        lemma_mount(name, dir, path);
        lemma_mounts_append(
            layout::directory_mounts(init),
            layout::directory_mount(name, dir),
            path,
        );
    }
}

proof fn lemma_mount(name: Text, dir: DirView, path: Text)
    requires
        no_init_in(dir, path),
    ensures
        layout_nodes_for(layout::directory_mount(name, dir), path) == all_for(dir, path),
{
    if layout::goes_below_service(name) {
        let inner = layout::directory_children(dir, true, false);
        let service = layout::service_mount(name, dir);
        let plain = layout::listed(layout::plain_node(name, dir));
        lemma_children(dir, true, false, path);
        lemma_plain(name, dir, path);
        lemma_child_mounts(plain, path);
        lemma_mounts_append(service, layout::child_mounts(plain), path);
        lemma_split(dir, path);
        assert(layout_nodes_for(service, path) == dir_for(dir, path, true, false)) by {
            if service.len() == 0 {
                if name == "StarterPlayerScripts"@ {
                    lemma_scriptless(dir, path);
                }
            } else {
                let mount = service[0];
                assert(layout_nodes_for(service.drop_last(), path) == Multiset::<NodeView>::empty());
                assert(service.last() == mount);
                if name == "StarterPlayerScripts"@ {
                    let node = layout::container_node(name, "StarterPlayerScripts"@, inner);
                    lemma_one(node, path);
                    assert(rbxlx::model_part(mount) == seq![node]);
                    assert(nodes_for(node, path) =~= list_nodes_for(inner, path));
                }
                assert(layout_nodes_for(service, path) =~= list_nodes_for(
                    rbxlx::model_part(mount),
                    path,
                ));
            }
        }
    } else {
        lemma_entry(name, dir, true, path);
        lemma_child_mounts(layout::directory_entry(name, dir, true), path);
    }
}

proof fn lemma_mounts_of(scripts: Seq<ScriptView>, files: Seq<ExternalView>, path: Text)
    requires
        no_init_at(scripts, path),
    ensures
        layout_nodes_for(layout::mounts_of(scripts, files), path) == scripts_for(scripts, path).add(
            files_for(files, path),
        ),
{
    let start = layout::insert_scripts(layout::empty_dir(), scripts);
    let root = layout::root_dir(scripts, files);
    lemma_insert_scripts(scripts, path);
    lemma_insert_externals(start, files, path);
    let tops = layout::script_nodes(root.scripts, false);
    let data = layout::external_nodes(root.external_files);
    let a = layout::child_mounts(tops);
    let b = layout::child_mounts(data);
    let c = layout::directory_mounts(root.directories);
    lemma_script_nodes(root.scripts, false, path);
    lemma_external_nodes(root.external_files, path);
    lemma_child_mounts(tops, path);
    lemma_child_mounts(data, path);
    lemma_directory_mounts(root.directories, path);
    lemma_mounts_append(a, b, path);
    lemma_mounts_append(a + b, c, path);
    assert(layout_nodes_for(a + b + c, path) =~= all_for(root, path));
}

// ---------------------------------------------------------------------------------------------
// The files of a project
// ---------------------------------------------------------------------------------------------

/// Whether no two files have the same path.
pub open spec fn distinct_paths(files: Seq<FileView>) -> bool {
    forall|i: int, j: int|
        0 <= i < j < files.len() ==> (#[trigger] files[i]).path != (#[trigger] files[j]).path
}

/// The node of the script or the data file that a file at a path is.
spec fn file_for(file: FileView, path: Text) -> Multiset<NodeView> {
    match project::script_of(file) {
        Ok(Some(script)) => item_for(ItemView::Script(script), path),
        _ => match project::external_of(file) {
            Some(data) => item_for(ItemView::External(data), path),
            None => Multiset::empty(),
        },
    }
}

spec fn total_for(files: Seq<FileView>, path: Text) -> Multiset<NodeView>
    decreases files.len(),
{
    if files.len() == 0 {
        Multiset::empty()
    } else {
        total_for(files.drop_last(), path).add(file_for(files.last(), path))
    }
}

proof fn lemma_total(files: Seq<FileView>, path: Text)
    requires
        project::scripts_of(files) is Ok,
    ensures
        scripts_for(project::scripts_of(files)->Ok_0, path).add(
            files_for(project::externals_of(files), path),
        ) == total_for(files, path),
    decreases files.len(),
{
    if files.len() > 0 {
        let init = files.drop_last();
        lemma_total(init, path);
        let scripts = project::scripts_of(init)->Ok_0;
        let externals = project::externals_of(init);
        if let Ok(Some(script)) = project::script_of(files.last()) {
            assert(scripts.push(script).drop_last() =~= scripts);
        }
        if let Some(data) = project::external_of(files.last()) {
            assert(externals.push(data).drop_last() =~= externals);
        }
    }
    assert(scripts_for(project::scripts_of(files)->Ok_0, path).add(
        files_for(project::externals_of(files), path),
    ) =~= total_for(files, path));
}

proof fn lemma_total_one(files: Seq<FileView>, k: int)
    requires
        distinct_paths(files),
        0 <= k < files.len(),
    ensures
        total_for(files, files[k].path) == file_for(files[k], files[k].path),
    decreases files.len(),
{
    let path = files[k].path;
    let init = files.drop_last();
    assert forall|i: int, j: int| 0 <= i < j < init.len() implies (#[trigger] init[i]).path != (
    #[trigger] init[j]).path by {
        assert(init[i] == files[i] && init[j] == files[j]);
    }
    if k < init.len() {
        assert(init[k] == files[k]);
        lemma_total_one(init, k);
        assert(files[k].path != files[files.len() - 1].path);
        assert(total_for(files, path) =~= file_for(files[k], path));
    } else {
        lemma_total_none(init, path);
        assert(total_for(files, path) =~= file_for(files[k], path));
    }
}

proof fn lemma_total_none(files: Seq<FileView>, path: Text)
    requires
        forall|i: int| 0 <= i < files.len() ==> (#[trigger] files[i]).path != path,
    ensures
        total_for(files, path) == Multiset::<NodeView>::empty(),
    decreases files.len(),
{
    if files.len() > 0 {
        let init = files.drop_last();
        assert forall|i: int| 0 <= i < init.len() implies (#[trigger] init[i]).path != path by {
            assert(init[i] == files[i]);
        }
        lemma_total_none(init, path);
        assert(files[files.len() - 1].path != path);
        assert(total_for(files, path) =~= Multiset::<NodeView>::empty());
    }
}

/// Every script comes from a file.
proof fn lemma_script_file(files: Seq<FileView>, j: int) -> (k: int)
    requires
        project::scripts_of(files) is Ok,
        0 <= j < project::scripts_of(files)->Ok_0.len(),
    ensures
        0 <= k < files.len(),
        project::script_of(files[k]) == Ok::<Option<ScriptView>, Text>(
            Some(project::scripts_of(files)->Ok_0[j]),
        ),
    decreases files.len(),
{
    let init = files.drop_last();
    let scripts = project::scripts_of(init)->Ok_0;
    if j < scripts.len() {
        let k = lemma_script_file(init, j);
        assert(init[k] == files[k]);
        k
    } else {
        files.len() - 1
    }
}

/// Every data file comes from a file.
proof fn lemma_external_file(files: Seq<FileView>, j: int) -> (k: int)
    requires
        0 <= j < project::externals_of(files).len(),
    ensures
        0 <= k < files.len(),
        project::external_of(files[k]) == Some(project::externals_of(files)[j]),
    decreases files.len(),
{
    let init = files.drop_last();
    if j < project::externals_of(init).len() {
        let k = lemma_external_file(init, j);
        assert(init[k] == files[k]);
        k
    } else {
        files.len() - 1
    }
}

/// A file that is no script that stands for its directory has the nodes that it makes.
proof fn lemma_file_nodes(files: Seq<FileView>, k: int)
    requires
        distinct_paths(files),
        project::scripts_of(files) is Ok,
        0 <= k < files.len(),
        project::script_of(files[k]) matches Ok(Some(script)) ==> !layout::is_init(script),
    ensures
        layout::layout_of(files) is Ok,
        layout_nodes_for(layout::layout_of(files)->Ok_0, files[k].path) == file_for(
            files[k],
            files[k].path,
        ),
{
    let path = files[k].path;
    let scripts = project::scripts_of(files)->Ok_0;
    assert forall|j: int|
        0 <= j < scripts.len() && layout::is_init(#[trigger] scripts[j]) implies scripts[j].relative_path
        != path by {
        let i = lemma_script_file(files, j);
        if i < k {
            assert(files[i].path != files[k].path);
        } else if k < i {
            assert(files[k].path != files[i].path);
        }
    }
    lemma_mounts_of(scripts, project::externals_of(files), path);
    lemma_total(files, path);
    lemma_total_one(files, k);
}

/// Where no two files have the same path, exactly one node of the layout stands for each script that
/// does not stand for its directory: the node with the name, the class, the source code and the run
/// flag of the script.
pub proof fn law_scripts_have_one_node(files: Seq<FileView>, j: int)
    requires
        distinct_paths(files),
        project::scripts_of(files) is Ok,
        0 <= j < project::scripts_of(files)->Ok_0.len(),
        !layout::is_init(project::scripts_of(files)->Ok_0[j]),
    ensures
        ({
            let script = project::scripts_of(files)->Ok_0[j];
            let node = layout::script_node(script);
            &&& layout::layout_of(files) is Ok
            &&& layout_nodes_for(layout::layout_of(files)->Ok_0, script.relative_path)
                == Multiset::singleton(node)
            &&& node.name == script.name
            &&& node.class_name == project::kind_class(script.kind)
            &&& node.source == Some(script.source)
            &&& node.auto_run == script.auto_run
        }),
{
    let k = lemma_script_file(files, j);
    lemma_file_nodes(files, k);
}

/// Where no two files have the same path, exactly one node of the layout stands for each data file:
/// the node with the name and the bytes of the file.
pub proof fn law_data_files_have_one_node(files: Seq<FileView>, j: int)
    requires
        distinct_paths(files),
        project::scripts_of(files) is Ok,
        0 <= j < project::externals_of(files).len(),
    ensures
        ({
            let file = project::externals_of(files)[j];
            let node = layout::external_node(file);
            &&& layout::layout_of(files) is Ok
            &&& layout_nodes_for(layout::layout_of(files)->Ok_0, file.relative_path)
                == Multiset::singleton(node)
            &&& node.name == file.name
            &&& node.value == Some(file.bytes)
        }),
{
    let k = lemma_external_file(files, j);
    lemma_file_nodes(files, k);
}

} // verus!
