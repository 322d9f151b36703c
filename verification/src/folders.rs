//! The folders of data files: each directory has one, whatever scripts stand in a directory of the same
//! name.

use vstd::prelude::*;
use vstd::string::*;

use crate::layout::{self, DirView, ItemView};
use crate::placement;
use crate::project::{ExternalView, MountView, NodeView, ScriptView};
use crate::text::{self, Text};

verus! {

// ---------------------------------------------------------------------------------------------
// One entry for each directory
// ---------------------------------------------------------------------------------------------

/// Whether subdirectories stand in the order of their names, no two of them with the same name, in a
/// directory and in everything below it.
pub open spec fn ascending(dir: DirView) -> bool
    decreases dir,
{
    &&& forall|i: int, j: int|
        0 <= i < j < dir.directories.len() ==> text::text_lt(
            (#[trigger] dir.directories[i]).0,
            (#[trigger] dir.directories[j]).0,
        )
    &&& forall|i: int|
        0 <= i < dir.directories.len() ==> ascending((#[trigger] dir.directories[i]).1)
}

proof fn lemma_lt_transitive(a: Text, b: Text, c: Text)
    requires
        text::text_lt(a, b),
        text::text_lt(b, c),
    ensures
        text::text_lt(a, c),
{
    text::lemma_text_le_transitive(a, b, c);
    if a == c {
        text::lemma_text_le_antisymmetric(a, b);
    }
}

proof fn lemma_ascending(dir: DirView, path: Seq<Text>, item: ItemView)
    requires
        ascending(dir),
    ensures
        ascending(layout::dir_insert(dir, path, item)),
    decreases path.len(),
{
    let dirs = dir.directories;
    let after = layout::dir_insert(dir, path, item).directories;
    if path.len() == 0 {
        assert(after == dirs);
    } else {
        let at = layout::slot(dirs, path[0]) as int;
        placement::lemma_slot(dirs, path[0]);
        let present = at < dirs.len() && dirs[at].0 == path[0];
        if present {
            lemma_ascending(dirs[at].1, path.drop_first(), item);
        } else {
            lemma_ascending(layout::empty_dir(), path.drop_first(), item);
            if at < dirs.len() {
                text::lemma_text_le_total(path[0], dirs[at].0);
                assert(text::text_lt(path[0], dirs[at].0));
            }
        }
        assert forall|i: int, j: int| 0 <= i < j < after.len() implies text::text_lt(
            (#[trigger] after[i]).0,
            (#[trigger] after[j]).0,
        ) by {
            if present {
                assert(after[i].0 == dirs[i].0 && after[j].0 == dirs[j].0);
            } else {
                let old_i = if i < at {
                    i
                } else {
                    i - 1
                };
                let old_j = if j < at {
                    j
                } else {
                    j - 1
                };
                if i != at {
                    assert(after[i] == dirs[old_i]);
                }
                if j != at {
                    assert(after[j] == dirs[old_j]);
                }
                if i == at && old_j != at {
                    lemma_lt_transitive(path[0], dirs[at].0, dirs[old_j].0);
                }
            }
        }
        assert forall|i: int| 0 <= i < after.len() implies ascending((#[trigger] after[i]).1) by {
            if i != at {
                if present || i < at {
                    assert(after[i] == dirs[i]);
                } else {
                    assert(after[i] == dirs[i - 1]);
                }
            }
        }
    }
}

pub proof fn lemma_scripts_ascending(scripts: Seq<ScriptView>)
    ensures
        ascending(layout::insert_scripts(layout::empty_dir(), scripts)),
    decreases scripts.len(),
{
    if scripts.len() > 0 {
        lemma_scripts_ascending(scripts.drop_last());
        lemma_ascending(
            layout::insert_scripts(layout::empty_dir(), scripts.drop_last()),
            scripts.last().container_path,
            ItemView::Script(scripts.last()),
        );
    }
}

pub proof fn lemma_externals_ascending(dir: DirView, files: Seq<ExternalView>)
    requires
        ascending(dir),
    ensures
        ascending(layout::insert_externals(dir, files)),
    decreases files.len(),
{
    if files.len() > 0 {
        lemma_externals_ascending(dir, files.drop_last());
        lemma_ascending(
            layout::insert_externals(dir, files.drop_last()),
            files.last().container_path,
            ItemView::External(files.last()),
        );
    }
}

// ---------------------------------------------------------------------------------------------
// One folder for each directory
// ---------------------------------------------------------------------------------------------

/// Whether the names in `common` lead from the given nodes through folders to one place, and from
/// there `first` leads through folders to the node `a` and `second` to the node `b`.
pub open spec fn share(
    nodes: Seq<NodeView>,
    common: Seq<Text>,
    first: Seq<Text>,
    a: NodeView,
    second: Seq<Text>,
    b: NodeView,
) -> bool
    decreases common.len(),
{
    if common.len() == 0 {
        placement::in_folders(nodes, first, a) && placement::in_folders(nodes, second, b)
    } else {
        exists|i: int|
            0 <= i < nodes.len() && (#[trigger] nodes[i]).name == common[0] && nodes[i].class_name
                == "Folder"@ && share(
                nodes[i].children,
                common.drop_first(),
                first,
                a,
                second,
                b,
            )
    }
}

/// The same from the data model.
pub open spec fn share_below_data_model(
    mounts: Seq<MountView>,
    common: Seq<Text>,
    first: Seq<Text>,
    a: NodeView,
    second: Seq<Text>,
    b: NodeView,
) -> bool {
    exists|i: int, top: NodeView|
        0 <= i < mounts.len() && #[trigger] mounts[i] == MountView::DataModelChild(top) && top.name
            == common[0] && top.class_name == "Folder"@ && #[trigger] share(
            top.children,
            common.drop_first(),
            first,
            a,
            second,
            b,
        )
}

/// The subdirectory that two paths with the same first name lead into.
proof fn lemma_same_entry(dir: DirView, name: Text, first: Seq<Text>, a: ItemView, second: Seq<Text>, b: ItemView) -> (i:
    int)
    requires
        ascending(dir),
        first.len() > 0,
        second.len() > 0,
        first[0] == name,
        second[0] == name,
        placement::holds(dir, first, a),
        placement::holds(dir, second, b),
    ensures
        0 <= i < dir.directories.len(),
        dir.directories[i].0 == name,
        ascending(dir.directories[i].1),
        placement::holds(dir.directories[i].1, first.drop_first(), a),
        placement::holds(dir.directories[i].1, second.drop_first(), b),
{
    let i = choose|i: int|
        0 <= i < dir.directories.len() && (#[trigger] dir.directories[i]).0 == first[0]
            && placement::holds(dir.directories[i].1, first.drop_first(), a);
    let j = choose|j: int|
        0 <= j < dir.directories.len() && (#[trigger] dir.directories[j]).0 == second[0]
            && placement::holds(dir.directories[j].1, second.drop_first(), b);
    if i < j {
        assert(text::text_lt(dir.directories[i].0, dir.directories[j].0));
    } else if j < i {
        assert(text::text_lt(dir.directories[j].0, dir.directories[i].0));
    }
    i
}

proof fn lemma_prefix_steps(common: Seq<Text>, rest: Seq<Text>)
    requires
        common.len() > 0,
    ensures
        (common + rest).drop_first() == common.drop_first() + rest,
        (common + rest)[0] == common[0],
        (common + rest).len() > 0,
{
    assert((common + rest).drop_first() =~= common.drop_first() + rest);
}

/// The nodes for data files among which two data files of a directory share their folders.
proof fn lemma_share(
    dir: DirView,
    keep_init: bool,
    common: Seq<Text>,
    first: Seq<Text>,
    a: ExternalView,
    second: Seq<Text>,
    b: ExternalView,
)
    requires
        ascending(dir),
        placement::holds(dir, common + first, ItemView::External(a)),
        placement::holds(dir, common + second, ItemView::External(b)),
    ensures
        share(
            layout::directory_children(dir, keep_init, true),
            common,
            first,
            layout::external_node(a),
            second,
            layout::external_node(b),
        ),
    decreases common.len(),
{
    if common.len() == 0 {
        assert(common + first =~= first);
        assert(common + second =~= second);
        placement::lemma_in_folders(dir, keep_init, first, a);
        placement::lemma_in_folders(dir, keep_init, second, b);
    } else {
        lemma_prefix_steps(common, first);
        lemma_prefix_steps(common, second);
        let i = lemma_same_entry(
            dir,
            common[0],
            common + first,
            ItemView::External(a),
            common + second,
            ItemView::External(b),
        );
        let sub = dir.directories[i].1;
        let rest = common.drop_first();
        if layout::is_folder(common[0], sub) {
            lemma_share(sub, false, rest, first, a, second, b);
        } else {
            lemma_share_plain(sub, rest, first, a, second, b);
        }
        placement::lemma_in_data_children(common[0], sub, rest + first, a);
        let j = placement::lemma_data_shown(dir, keep_init, i);
        let children = layout::directory_children(dir, keep_init, true);
        assert(children[j].name == common[0]);
    }
}

proof fn lemma_share_plain(
    dir: DirView,
    common: Seq<Text>,
    first: Seq<Text>,
    a: ExternalView,
    second: Seq<Text>,
    b: ExternalView,
)
    requires
        ascending(dir),
        placement::holds(dir, common + first, ItemView::External(a)),
        placement::holds(dir, common + second, ItemView::External(b)),
    ensures
        share(
            layout::plain_children(dir),
            common,
            first,
            layout::external_node(a),
            second,
            layout::external_node(b),
        ),
    decreases common.len(),
{
    if common.len() == 0 {
        assert(common + first =~= first);
        assert(common + second =~= second);
        placement::lemma_in_plain_folders(dir, first, a);
        placement::lemma_in_plain_folders(dir, second, b);
    } else {
        lemma_prefix_steps(common, first);
        lemma_prefix_steps(common, second);
        let i = lemma_same_entry(
            dir,
            common[0],
            common + first,
            ItemView::External(a),
            common + second,
            ItemView::External(b),
        );
        let sub = dir.directories[i].1;
        let rest = common.drop_first();
        lemma_share_plain(sub, rest, first, a, second, b);
        placement::lemma_in_plain_folders(sub, rest + first, a);
        let j = placement::lemma_plain_shown(dir, i);
        let children = layout::plain_children(dir);
        assert(children[j].name == common[0]);
    }
}

/// Data files have one folder for each directory: two data files whose paths begin with the same
/// directories stand below the same folders.
pub proof fn law_one_folder_for_a_directory(
    scripts: Seq<ScriptView>,
    files: Seq<ExternalView>,
    k: int,
    l: int,
    common: Seq<Text>,
)
    requires
        0 <= k < files.len(),
        0 <= l < files.len(),
        common.len() > 0,
        common.is_prefix_of(files[k].container_path),
        common.is_prefix_of(files[l].container_path),
    ensures
        share_below_data_model(
            layout::mounts_of(scripts, files),
            common,
            files[k].container_path.skip(common.len() as int),
            layout::external_node(files[k]),
            files[l].container_path.skip(common.len() as int),
            layout::external_node(files[l]),
        ),
{
    let a = ItemView::External(files[k]);
    let b = ItemView::External(files[l]);
    let first = files[k].container_path.skip(common.len() as int);
    let second = files[l].container_path.skip(common.len() as int);
    assert(common + first =~= files[k].container_path);
    assert(common + second =~= files[l].container_path);
    lemma_prefix_steps(common, first);
    lemma_prefix_steps(common, second);
    let mounts = layout::mounts_of(scripts, files);
    let rest = common.drop_first();
    let start = layout::insert_scripts(layout::empty_dir(), scripts);
    let root = layout::root_dir(scripts, files);
    placement::lemma_externals_held(start, files, k);
    placement::lemma_externals_held(start, files, l);
    lemma_scripts_ascending(scripts);
    lemma_externals_ascending(start, files);
    let i = lemma_same_entry(root, common[0], common + first, a, common + second, b);
    let dir = root.directories[i].1;
    if !layout::goes_below_service(common[0]) && layout::is_folder(common[0], dir) {
        lemma_share(dir, false, rest, first, files[k], second, files[l]);
    } else {
        lemma_share_plain(dir, rest, first, files[k], second, files[l]);
    }
    placement::lemma_in_top_children(common[0], dir, rest + first, files[k]);
    let top = layout::container_node(
        common[0],
        "Folder"@,
        placement::top_children(common[0], dir),
    );
    let j = placement::lemma_data_mounted(scripts, files, i);
    assert(mounts[j] == MountView::DataModelChild(top));
    assert(share(
        top.children,
        rest,
        first,
        layout::external_node(files[k]),
        second,
        layout::external_node(files[l]),
    ));
}

} // verus!
