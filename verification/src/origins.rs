//! What becomes of the files of a project: where in the instance tree the node of each file stands, and
//! what it holds.

use vstd::prelude::*;
use vstd::string::*;

use crate::folders;
use crate::layout::{self, DirView, ItemView};
use crate::path;
use crate::placement;
use crate::project::{self, ExternalView, FileView, MountView, NodeView, ScriptKind, ScriptView};
use crate::text::{self, Text};

verus! {

/// The names of the top-level directories that stand for services.
pub open spec fn service_directories() -> Seq<Text> {
    seq![
        "Workspace"@,
        "ReplicatedFirst"@,
        "ReplicatedStorage"@,
        "ServerStorage"@,
        "ServerScriptService"@,
        "StarterPlayer"@,
        "Lighting"@,
        "Players"@,
        "RunService"@,
        "HttpService"@,
        "TweenService"@,
    ]
}

/// Whether a node stands where directories lead to: below the service that the first of them names,
/// below the service of starting players for their scripts, or else below the data model. Each node on
/// the way is named after its directory and stands for it.
pub open spec fn stands_in(mounts: Seq<MountView>, dirs: Seq<Text>, node: NodeView) -> bool {
    if dirs.len() > 0 && dirs[0] == "StarterPlayerScripts"@ {
        placement::below_service(mounts, "StarterPlayer"@, dirs, node)
    } else if dirs.len() > 0 && service_directories().contains(dirs[0]) {
        placement::below_service(mounts, dirs[0], dirs.drop_first(), node)
    } else {
        placement::below_data_model(mounts, dirs, node)
    }
}

proof fn lemma_service_directories(name: Text)
    ensures
        service_directories().contains(name) <==> layout::is_service(name),
{
    let names = service_directories();
    if layout::is_service(name) {
        assert(names[0] == "Workspace"@);
        assert(names[1] == "ReplicatedFirst"@);
        assert(names[2] == "ReplicatedStorage"@);
        assert(names[3] == "ServerStorage"@);
        assert(names[4] == "ServerScriptService"@);
        assert(names[5] == "StarterPlayer"@);
        assert(names[6] == "Lighting"@);
        assert(names[7] == "Players"@);
        assert(names[8] == "RunService"@);
        assert(names[9] == "HttpService"@);
        assert(names[10] == "TweenService"@);
    }
}

// ---------------------------------------------------------------------------------------------
// Files and scripts
// ---------------------------------------------------------------------------------------------

/// The script of a file is among the scripts of the project.
proof fn lemma_file_script(files: Seq<FileView>, k: int) -> (j: int)
    requires
        0 <= k < files.len(),
        project::scripts_of(files) is Ok,
        project::script_of(files[k]) matches Ok(Some(_)),
    ensures
        0 <= j < project::scripts_of(files)->Ok_0.len(),
        project::scripts_of(files)->Ok_0[j] == project::script_of(files[k])->Ok_0->Some_0,
    decreases files.len(),
{
    let init = files.drop_last();
    if k < init.len() {
        assert(init[k] == files[k]);
        let j = lemma_file_script(init, k);
        assert(project::scripts_of(files)->Ok_0[j] == project::scripts_of(init)->Ok_0[j]);
        j
    } else {
        project::scripts_of(init)->Ok_0.len() as int
    }
}

/// The data file that a file is is among those of the project.
proof fn lemma_file_external(files: Seq<FileView>, k: int) -> (j: int)
    requires
        0 <= k < files.len(),
        project::external_of(files[k]) is Some,
    ensures
        0 <= j < project::externals_of(files).len(),
        project::externals_of(files)[j] == project::external_of(files[k])->Some_0,
    decreases files.len(),
{
    let init = files.drop_last();
    if k < init.len() {
        assert(init[k] == files[k]);
        let j = lemma_file_external(init, k);
        assert(project::externals_of(files)[j] == project::externals_of(init)[j]);
        j
    } else {
        project::externals_of(init).len() as int
    }
}

/// Every script comes from a file.
proof fn lemma_script_file(files: Seq<FileView>, j: int) -> (k: int)
    requires
        project::scripts_of(files) is Ok,
        0 <= j < project::scripts_of(files)->Ok_0.len(),
    ensures
        0 <= k < files.len(),
        project::script_of(files[k]) == Ok::<Option<ScriptView>, Text>(
            Some(project::scripts_of(files)->Ok_0[j]),
        ),
    decreases files.len(),
{
    let init = files.drop_last();
    if j < project::scripts_of(init)->Ok_0.len() {
        let k = lemma_script_file(init, j);
        assert(init[k] == files[k]);
        k
    } else {
        files.len() - 1
    }
}

/// Whether a file holds a module that stands for its directory.
pub open spec fn holds_init(file: FileView) -> bool {
    project::script_of(file) matches Ok(Some(script)) && script.kind == ScriptKind::ModuleScript
        && script.name == "init"@
}

/// Whether a node shows a script: it has the name, the class, the source code, the run context, the
/// run flag and the path of the script, and nothing below it.
pub open spec fn shows_script(node: NodeView, script: ScriptView) -> bool {
    &&& node.name == script.name
    &&& node.class_name == project::kind_class(script.kind)
    &&& node.source == Some(script.source)
    &&& node.run_context == project::kind_context(script.kind)
    &&& node.auto_run == script.auto_run
    &&& node.script_path == Some(script.relative_path)
    &&& node.value is None
    &&& node.children.len() == 0
}

/// Every file that holds a script has a node in the tree that shows the script, in the place that the
/// directories of the path of the file lead to. Only a module that stands for its directory has none
/// of its own, unless the directory is that of a service.
pub proof fn law_script_files_have_nodes(files: Seq<FileView>, k: int)
    requires
        0 <= k < files.len(),
        layout::layout_of(files) is Ok,
        project::script_of(files[k]) matches Ok(Some(_)),
        ({
            let dirs = path::components(files[k].path).drop_last();
            !holds_init(files[k]) || (dirs.len() == 1 && (service_directories().contains(dirs[0])
                || dirs[0] == "StarterPlayerScripts"@))
        }),
    ensures
        exists|node: NodeView| #[trigger]
            stands_in(
                layout::layout_of(files)->Ok_0,
                path::components(files[k].path).drop_last(),
                node,
            ) && shows_script(node, project::script_of(files[k])->Ok_0->Some_0),
{
    let scripts = project::scripts_of(files)->Ok_0;
    let externals = project::externals_of(files);
    let script = project::script_of(files[k])->Ok_0->Some_0;
    let dirs = path::components(files[k].path).drop_last();
    let name = path::name_of(files[k].path)->Some_0;
    project::law_script_files(files[k], name);
    assert(script.container_path.push(name).drop_last() =~= script.container_path);
    assert(script.container_path == dirs);
    let j = lemma_file_script(files, k);
    if dirs.len() > 0 {
        lemma_service_directories(dirs[0]);
    }
    placement::law_scripts_have_nodes(scripts, externals, j);
    assert(stands_in(layout::layout_of(files)->Ok_0, dirs, layout::script_node(script)));
}

/// Every data file has a string value in the tree, in folders below the data model that are named
/// after the directories between the directory of data files and the file. It has the name of the
/// file and holds its bytes.
pub proof fn law_data_files_become_values(files: Seq<FileView>, k: int)
    requires
        0 <= k < files.len(),
        layout::layout_of(files) is Ok,
        path::name_of(files[k].path) is Some,
        path::components(files[k].path).len() >= 2,
        path::components(files[k].path)[0] == "ExternalData"@,
    ensures
        exists|node: NodeView| #[trigger]
            placement::in_folders_below_data_model(
                layout::layout_of(files)->Ok_0,
                path::components(files[k].path).drop_last().drop_first(),
                node,
            ) && node.name == path::components(files[k].path).last() && node.class_name
                == "StringValue"@ && node.value == Some(files[k].bytes) && node.source is None
                && !node.auto_run && node.children.len() == 0,
{
    let scripts = project::scripts_of(files)->Ok_0;
    let externals = project::externals_of(files);
    let parts = path::components(files[k].path);
    project::law_data_files(files[k]);
    let file = project::external_of(files[k])->Some_0;
    let j = lemma_file_external(files, k);
    placement::law_data_files_have_nodes(scripts, externals, j);
    assert((seq!["ExternalData"@] + file.container_path).push(file.name).drop_last().drop_first()
        =~= file.container_path);
    assert(parts.len() != seq!["ExternalData"@].len());
    assert(placement::in_folders_below_data_model(
        layout::layout_of(files)->Ok_0,
        parts.drop_last().drop_first(),
        layout::external_node(file),
    ));
}

// ---------------------------------------------------------------------------------------------
// What directories hold
// ---------------------------------------------------------------------------------------------

/// A directory to which an item was added holds that item where it was put, and otherwise what it held
/// before.
proof fn lemma_held_before(dir: DirView, to: Seq<Text>, item: ItemView, at: Seq<Text>, found: ItemView)
    requires
        placement::holds(layout::dir_insert(dir, to, item), at, found),
    ensures
        placement::holds(dir, at, found) || (at == to && found == item),
    decreases to.len(),
{
    let after = layout::dir_insert(dir, to, item);
    if to.len() == 0 {
        if at.len() == 0 {
            assert(at =~= to);
            match found {
                ItemView::Script(script) => {
                    let i = choose|i: int| 0 <= i < after.scripts.len() && after.scripts[i] == script;
                    if i < dir.scripts.len() {
                        assert(dir.scripts[i] == script);
                    }
                },
                ItemView::External(file) => {
                    let i = choose|i: int|
                        0 <= i < after.external_files.len() && after.external_files[i] == file;
                    if i < dir.external_files.len() {
                        assert(dir.external_files[i] == file);
                    }
                },
            }
        } else {
            assert(after.directories == dir.directories);
        }
    } else if at.len() > 0 {
        let slot = layout::slot(dir.directories, to[0]) as int;
        placement::lemma_slot(dir.directories, to[0]);
        let i = choose|i: int|
            0 <= i < after.directories.len() && (#[trigger] after.directories[i]).0 == at[0]
                && placement::holds(after.directories[i].1, at.drop_first(), found);
        let there = slot < dir.directories.len() && dir.directories[slot].0 == to[0];
        if i == slot {
            if there {
                lemma_held_before(
                    dir.directories[slot].1,
                    to.drop_first(),
                    item,
                    at.drop_first(),
                    found,
                );
            } else {
                lemma_held_before(
                    layout::empty_dir(),
                    to.drop_first(),
                    item,
                    at.drop_first(),
                    found,
                );
                lemma_empty_holds_nothing(at.drop_first(), found);
            }
            if at.drop_first() == to.drop_first() {
                assert(at =~= seq![at[0]] + at.drop_first());
                assert(to =~= seq![to[0]] + to.drop_first());
            }
            if there && placement::holds(dir.directories[slot].1, at.drop_first(), found) {
                assert(dir.directories[slot].0 == at[0]);
            }
        } else if there || i < slot {
            assert(dir.directories[i] == after.directories[i]);
        } else {
            assert(dir.directories[i - 1] == after.directories[i]);
        }
    } else {
        assert(after.scripts == dir.scripts && after.external_files == dir.external_files);
    }
}

proof fn lemma_empty_holds_nothing(at: Seq<Text>, found: ItemView)
    ensures
        !placement::holds(layout::empty_dir(), at, found),
{
}

/// A script that stands in a directory of a project is one of its scripts, and its path leads there.
proof fn lemma_held_script(
    scripts: Seq<ScriptView>,
    files: Seq<ExternalView>,
    at: Seq<Text>,
    script: ScriptView,
)
    requires
        placement::holds(layout::root_dir(scripts, files), at, ItemView::Script(script)),
    ensures
        scripts.contains(script),
        script.container_path == at,
    decreases files.len() + scripts.len(),
{
    let found = ItemView::Script(script);
    if files.len() > 0 {
        let init = files.drop_last();
        let last = files.last();
        lemma_held_before(
            layout::root_dir(scripts, init),
            last.container_path,
            ItemView::External(last),
            at,
            found,
        );
        lemma_held_script(scripts, init, at, script);
    } else if scripts.len() > 0 {
        let init = scripts.drop_last();
        let last = scripts.last();
        lemma_held_before(
            layout::root_dir(init, files),
            last.container_path,
            ItemView::Script(last),
            at,
            found,
        );
        if placement::holds(layout::root_dir(init, files), at, found) {
            lemma_held_script(init, files, at, script);
            let i = choose|i: int| 0 <= i < init.len() && init[i] == script;
            assert(scripts[i] == script);
        } else {
            assert(scripts[scripts.len() - 1] == script);
        }
    } else {
        lemma_empty_holds_nothing(at, found);
    }
}

// ---------------------------------------------------------------------------------------------
// Modules that stand for directories
// ---------------------------------------------------------------------------------------------

/// Whether a node is the module that a directory becomes through the given script.
pub open spec fn module_for(node: NodeView, name: Text, script: ScriptView) -> bool {
    &&& node.name == name
    &&& node.class_name == "ModuleScript"@
    &&& node.source == Some(script.source)
    &&& node.script_path == Some(script.relative_path)
    &&& node.value is None
    &&& node.run_context is None
    &&& !node.auto_run
}

/// Whether the scripts that stand directly in a directory have nodes directly below a node.
spec fn keeps_scripts(node: NodeView, dir: DirView) -> bool {
    forall|script: ScriptView| #[trigger]
        dir.scripts.contains(script) && !layout::is_init(script) ==> node.children.contains(
            layout::script_node(script),
        )
}

/// The subdirectory that holds a script.
spec fn leads_to(dir: DirView, path: Seq<Text>, sub: DirView) -> bool
    decreases path.len(),
{
    if path.len() == 0 {
        sub == dir
    } else {
        exists|i: int|
            0 <= i < dir.directories.len() && (#[trigger] dir.directories[i]).0 == path[0]
                && leads_to(dir.directories[i].1, path.drop_first(), sub)
    }
}

proof fn lemma_leads_to(dir: DirView, path: Seq<Text>, sub: DirView, script: ScriptView)
    requires
        leads_to(dir, path, sub),
        sub.scripts.contains(script),
    ensures
        placement::holds(dir, path, ItemView::Script(script)),
    decreases path.len(),
{
    if path.len() > 0 {
        let i = choose|i: int|
            0 <= i < dir.directories.len() && (#[trigger] dir.directories[i]).0 == path[0]
                && leads_to(dir.directories[i].1, path.drop_first(), sub);
        lemma_leads_to(dir.directories[i].1, path.drop_first(), sub, script);
    }
}

proof fn lemma_directory_module(name: Text, dir: DirView, with_data: bool, script: ScriptView) -> (node:
    NodeView)
    requires
        dir.scripts.contains(script),
        layout::is_init(script),
        name != "StarterPlayerScripts"@,
        name != "PlayerScripts"@,
    ensures
        layout::directory_node(name, dir, with_data) == Some(node),
        layout::init_of(dir.scripts) matches Some(init) && dir.scripts.contains(init)
            && layout::is_init(init) && module_for(node, name, init),
        keeps_scripts(node, dir),
{
    lemma_init_found(dir.scripts, script);
    placement::lemma_init_of(dir.scripts);
    let node = layout::directory_node(name, dir, with_data)->Some_0;
    assert(node.children == layout::directory_children(dir, false, false));
    assert forall|other: ScriptView| #[trigger]
        dir.scripts.contains(other) && !layout::is_init(other) implies node.children.contains(
        layout::script_node(other),
    ) by {
        assert(placement::holds(dir, Seq::empty(), ItemView::Script(other)));
        placement::lemma_shown(dir, false, false, Seq::empty(), other);
    }
    node
}

proof fn lemma_init_found(scripts: Seq<ScriptView>, script: ScriptView)
    requires
        scripts.contains(script),
        layout::is_init(script),
    ensures
        layout::init_of(scripts) is Some,
    decreases scripts.len(),
{
    if !layout::is_init(scripts[0]) {
        let i = choose|i: int| 0 <= i < scripts.len() && scripts[i] == script;
        assert(scripts.drop_first()[i - 1] == script);
        lemma_init_found(scripts.drop_first(), script);
    }
}

/// A directory below another one that a script stands for is shown as a module.
proof fn lemma_module_shown(
    dir: DirView,
    keep_init: bool,
    with_data: bool,
    path: Seq<Text>,
    script: ScriptView,
) -> (found: (NodeView, DirView))
    requires
        path.len() > 0,
        placement::holds(dir, path, ItemView::Script(script)),
        layout::is_init(script),
        path.last() != "StarterPlayerScripts"@,
        path.last() != "PlayerScripts"@,
    ensures
        placement::shown(
            layout::directory_children(dir, keep_init, with_data),
            path.drop_last(),
            found.0,
        ),
        leads_to(dir, path, found.1),
        layout::init_of(found.1.scripts) matches Some(init) && found.1.scripts.contains(init)
            && layout::is_init(init) && module_for(found.0, path.last(), init),
        keeps_scripts(found.0, found.1),
    decreases path.len(),
{
    let i = choose|i: int|
        0 <= i < dir.directories.len() && (#[trigger] dir.directories[i]).0 == path[0]
            && placement::holds(dir.directories[i].1, path.drop_first(), ItemView::Script(script));
    let sub = dir.directories[i].1;
    let rest = path.drop_first();
    let children = layout::directory_children(dir, keep_init, with_data);
    if path.len() == 1 {
        let node = lemma_directory_module(path[0], sub, with_data, script);
        placement::lemma_own_entry(path[0], sub, with_data);
        let j = placement::lemma_entry_shown(dir, keep_init, with_data, i, node);
        assert(leads_to(sub, rest, sub));
        assert(path.drop_last().len() == 0);
        assert(children.contains(children[j]));
        (node, sub)
    } else {
        let shared = with_data && layout::is_folder(path[0], sub);
        let found = lemma_module_shown(sub, false, shared, rest, script);
        assert(layout::directory_children(sub, false, shared).len() > 0);
        let below = layout::directory_node(path[0], sub, with_data)->Some_0;
        placement::lemma_for_directory(path[0], sub, with_data);
        placement::lemma_own_entry(path[0], sub, with_data);
        let j = placement::lemma_entry_shown(dir, keep_init, with_data, i, below);
        assert(children[j].name == path.drop_last()[0]);
        assert(path.drop_last().drop_first() =~= rest.drop_last());
        found
    }
}

/// A directory with a module `init` becomes a module that is named after the directory and has the
/// source code of such a module, in the place that the directories above lead to, and the other
/// scripts of the directory stand directly below it. The directories of services are an exception, and
/// so are those with a class of their own.
pub proof fn law_init_files_make_modules(files: Seq<FileView>, k: int)
    requires
        0 <= k < files.len(),
        layout::layout_of(files) is Ok,
        holds_init(files[k]),
        ({
            let dirs = path::components(files[k].path).drop_last();
            &&& dirs.len() > 0
            &&& dirs.len() == 1 ==> !service_directories().contains(dirs[0])
            &&& dirs.last() != "StarterPlayerScripts"@ && dirs.last() != "PlayerScripts"@
        }),
    ensures
        exists|node: NodeView, j: int|
            #![trigger stands_in(
                layout::layout_of(files)->Ok_0,
                path::components(files[k].path).drop_last().drop_last(),
                node,
            ), files[j]]
            {
                let dirs = path::components(files[k].path).drop_last();
                &&& 0 <= j < files.len()
                &&& stands_in(layout::layout_of(files)->Ok_0, dirs.drop_last(), node)
                &&& holds_init(files[j])
                &&& path::components(files[j].path).drop_last() == dirs
                &&& module_for(node, dirs.last(), project::script_of(files[j])->Ok_0->Some_0)
                &&& forall|l: int|
                    0 <= l < files.len() && script_beside(#[trigger] files[l], dirs)
                        ==> has_script_below(node, project::script_of(files[l])->Ok_0->Some_0)
            },
{
    let scripts = project::scripts_of(files)->Ok_0;
    let externals = project::externals_of(files);
    let mounts = layout::layout_of(files)->Ok_0;
    let root = layout::root_dir(scripts, externals);
    let script = lemma_container(files, k);
    let dirs = path::components(files[k].path).drop_last();
    let item = ItemView::Script(script);
    let at = lemma_file_script(files, k);
    lemma_service_directories(dirs[0]);
    placement::lemma_scripts_held(scripts, at);
    placement::lemma_externals_keep(
        layout::insert_scripts(layout::empty_dir(), scripts),
        externals,
        dirs,
        item,
    );
    let steps = dirs.drop_first();
    let i = choose|i: int|
        0 <= i < root.directories.len() && (#[trigger] root.directories[i]).0 == dirs[0]
            && placement::holds(root.directories[i].1, steps, item);
    let top = root.directories[i].1;
    let (node, sub) = if steps.len() == 0 {
        let node = lemma_directory_module(dirs[0], top, true, script);
        placement::lemma_own_entry(dirs[0], top, true);
        placement::lemma_child_mounts(layout::directory_entry(dirs[0], top, true), node);
        let mount = MountView::DataModelChild(node);
        placement::lemma_directory_mounts(root.directories, i, mount);
        let m = placement::lemma_mounted(scripts, externals, mount);
        assert(dirs.drop_last().len() == 0);
        assert(stands_in(mounts, dirs.drop_last(), node));
        assert(leads_to(top, steps, top));
        (node, top)
    } else {
        let above = dirs.drop_last();
        assert(above[0] == dirs[0]);
        assert(above.drop_first() =~= steps.drop_last());
        assert(steps.last() == dirs.last());
        if layout::goes_below_service(dirs[0]) {
            let (node, sub) = lemma_module_shown(top, true, false, steps, script);
            placement::lemma_has_scripts(top, steps, script);
            let inner = layout::directory_children(top, true, false);
            assert(inner.len() > 0);
            let holder = layout::container_node(dirs[0], "StarterPlayerScripts"@, inner);
            let starting = dirs[0] == "StarterPlayerScripts"@;
            let children = if starting {
                seq![holder]
            } else {
                inner
            };
            let service_name = if starting {
                "StarterPlayer"@
            } else {
                dirs[0]
            };
            let mount = MountView::ServiceContents { service_name, children };
            assert(layout::service_mount(dirs[0], top)[0] == mount);
            placement::lemma_contains_left(
                layout::service_mount(dirs[0], top),
                layout::child_mounts(layout::listed(layout::plain_node(dirs[0], top))),
                mount,
            );
            placement::lemma_directory_mounts(root.directories, i, mount);
            let m = placement::lemma_mounted(scripts, externals, mount);
            assert(mounts[m] == mount);
            if starting {
                assert(children[0].name == above[0]);
                assert(placement::for_directory(children[0]));
                assert(placement::shown(children, above, node));
            }
            assert(stands_in(mounts, above, node));
            (node, sub)
        } else {
            let shared = layout::is_folder(dirs[0], top);
            let (node, sub) = lemma_module_shown(top, false, shared, steps, script);
            assert(layout::directory_children(top, false, shared).len() > 0);
            let holder = layout::directory_node(dirs[0], top, true)->Some_0;
            placement::lemma_for_directory(dirs[0], top, true);
            placement::lemma_own_entry(dirs[0], top, true);
            placement::lemma_child_mounts(layout::directory_entry(dirs[0], top, true), holder);
            let mount = MountView::DataModelChild(holder);
            placement::lemma_directory_mounts(root.directories, i, mount);
            let m = placement::lemma_mounted(scripts, externals, mount);
            assert(mounts[m] == MountView::DataModelChild(holder));
            assert(placement::shown(holder.children, above.drop_first(), node));
            assert(stands_in(mounts, above, node));
            (node, sub)
        }
    };
    assert(leads_to(root, dirs, sub));
    let init = layout::init_of(sub.scripts)->Some_0;
    lemma_leads_to(root, dirs, sub, init);
    lemma_held_script(scripts, externals, dirs, init);
    let t = choose|t: int| 0 <= t < scripts.len() && scripts[t] == init;
    let j = lemma_script_file(files, t);
    let found = lemma_container(files, j);
    assert forall|l: int| 0 <= l < files.len() && script_beside(#[trigger] files[l], dirs) implies has_script_below(
        node,
        project::script_of(files[l])->Ok_0->Some_0,
    ) by {
        let other = lemma_container(files, l);
        let u = lemma_file_script(files, l);
        lemma_in_sub(scripts, externals, dirs, sub, u);
        let c = choose|c: int|
            0 <= c < node.children.len() && node.children[c] == layout::script_node(other);
        assert(shows_script(node.children[c], other));
    }
    assert(module_for(node, dirs.last(), project::script_of(files[j])->Ok_0->Some_0));
}

/// Whether a file holds a script in the given directory that does not stand for it.
pub open spec fn script_beside(file: FileView, dirs: Seq<Text>) -> bool {
    &&& project::script_of(file) matches Ok(Some(_))
    &&& path::components(file.path).drop_last() == dirs
    &&& !holds_init(file)
}

/// Whether a node has a node directly below it that shows a script.
pub open spec fn has_script_below(node: NodeView, script: ScriptView) -> bool {
    exists|c: int| 0 <= c < node.children.len() && shows_script(#[trigger] node.children[c], script)
}

/// No two subdirectories have the same name, so a script stands in the directory that its path leads
/// to.
proof fn lemma_one_sub(dir: DirView, path: Seq<Text>, sub: DirView, script: ScriptView)
    requires
        folders::ascending(dir),
        leads_to(dir, path, sub),
        placement::holds(dir, path, ItemView::Script(script)),
    ensures
        sub.scripts.contains(script),
    decreases path.len(),
{
    if path.len() > 0 {
        let rest = path.drop_first();
        let i = choose|i: int|
            0 <= i < dir.directories.len() && (#[trigger] dir.directories[i]).0 == path[0]
                && leads_to(dir.directories[i].1, rest, sub);
        let j = choose|j: int|
            0 <= j < dir.directories.len() && (#[trigger] dir.directories[j]).0 == path[0]
                && placement::holds(dir.directories[j].1, rest, ItemView::Script(script));
        if i < j {
            assert(text::text_lt(dir.directories[i].0, dir.directories[j].0));
        } else if j < i {
            assert(text::text_lt(dir.directories[j].0, dir.directories[i].0));
        }
        lemma_one_sub(dir.directories[i].1, rest, sub, script);
    }
}

proof fn lemma_in_sub(
    scripts: Seq<ScriptView>,
    files: Seq<ExternalView>,
    path: Seq<Text>,
    sub: DirView,
    k: int,
)
    requires
        0 <= k < scripts.len(),
        leads_to(layout::root_dir(scripts, files), path, sub),
        scripts[k].container_path == path,
    ensures
        sub.scripts.contains(scripts[k]),
{
    let start = layout::insert_scripts(layout::empty_dir(), scripts);
    folders::lemma_scripts_ascending(scripts);
    folders::lemma_externals_ascending(start, files);
    placement::lemma_scripts_held(scripts, k);
    placement::lemma_externals_keep(start, files, path, ItemView::Script(scripts[k]));
    lemma_one_sub(layout::root_dir(scripts, files), path, sub, scripts[k]);
}

/// The script of a file stands in the directories of the path of the file.
proof fn lemma_container(files: Seq<FileView>, k: int) -> (script: ScriptView)
    requires
        0 <= k < files.len(),
        project::script_of(files[k]) matches Ok(Some(_)),
    ensures
        project::script_of(files[k]) == Ok::<Option<ScriptView>, Text>(Some(script)),
        script.container_path == path::components(files[k].path).drop_last(),
{
    let script = project::script_of(files[k])->Ok_0->Some_0;
    let name = path::name_of(files[k].path)->Some_0;
    project::law_script_files(files[k], name);
    assert(script.container_path.push(name).drop_last() =~= script.container_path);
    script
}

} // verus!
