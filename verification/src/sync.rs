//! Serving the files of a folder to an editor: what a request asks for, which file it may have, and
//! which files have changed.

use vstd::prelude::*;
use vstd::string::*;

use crate::error::{self, Error, failure};
use crate::path::{self, extend_path, names_entry, path_segments};
use crate::text::{self, Text, after_prefix, concat2, concat3, decimal_text, text_eq};

verus! {

// ---------------------------------------------------------------------------------------------
// Starting
// ---------------------------------------------------------------------------------------------

/// What is wrong with a folder as one to be served.
pub fn check_sync_folder(folder: &str, exists: bool, is_dir: bool) -> (r: Result<(), Error>)
    ensures
        error::unit_view(r) == (if !exists {
            Err("Folder does not exist: "@ + folder@)
        } else if !is_dir {
            Err("Path is not a directory: "@ + folder@)
        } else {
            Ok::<(), Text>(())
        }),
{
    if !exists {
        Err(failure(concat2("Folder does not exist: ", folder).as_str()))
    } else if !is_dir {
        Err(failure(concat2("Path is not a directory: ", folder).as_str()))
    } else {
        Ok(())
    }
}

/// The address at which the files are served: this machine alone can reach it.
pub fn sync_address(port: u16) -> (r: String)
    ensures
        r@ == "127.0.0.1:"@ + text::decimal(port as nat),
{
    concat2("127.0.0.1:", decimal_text(port as u64).as_str())
}

/// Why the files cannot be served.
pub fn sync_start_error(address: &str, error: &str) -> (r: Error)
    ensures
        r@ == "Failed to start server on "@ + address@ + ": "@ + error@,
{
    let mut message = concat3("Failed to start server on ", address, ": ");
    message.append(error);
    failure(message.as_str())
}

// ---------------------------------------------------------------------------------------------
// Requests
// ---------------------------------------------------------------------------------------------

/// What a request asks for.
#[derive(Debug)]
pub enum Route {
    Ping,
    Files,
    File(String),
    FileDeleted,
    NotFound,
}

/// The content of a [`Route`].
#[verifier::ext_equal]
pub enum RouteView {
    Ping,
    Files,
    File(Text),
    FileDeleted,
    NotFound,
}

impl View for Route {
    type V = RouteView;

    open spec fn view(&self) -> RouteView {
        match self {
            Route::Ping => RouteView::Ping,
            Route::Files => RouteView::Files,
            Route::File(path) => RouteView::File(path@),
            Route::FileDeleted => RouteView::FileDeleted,
            Route::NotFound => RouteView::NotFound,
        }
    }
}

/// What a request asks for.
pub open spec fn route_of(method: Text, url: Text) -> RouteView {
    if method == "GET"@ && url == "/ping"@ {
        RouteView::Ping
    } else if method == "GET"@ && url == "/files"@ {
        RouteView::Files
    } else if text::begins_with(url, "/file/"@) {
        RouteView::File(url.skip("/file/"@.len() as int))
    } else if method == "POST"@ && url == "/file-deleted"@ {
        RouteView::FileDeleted
    } else {
        RouteView::NotFound
    }
}

/// What a request asks for.
pub fn route(method: &str, url: &str) -> (r: Route)
    ensures
        r@ == route_of(method@, url@),
{
    if text_eq(method, "GET") && text_eq(url, "/ping") {
        Route::Ping
    } else if text_eq(method, "GET") && text_eq(url, "/files") {
        Route::Files
    } else if let Some(path) = after_prefix(url, "/file/") {
        Route::File(path)
    } else if text_eq(method, "POST") && text_eq(url, "/file-deleted") {
        Route::FileDeleted
    } else {
        Route::NotFound
    }
}

/// Where the components of a path lead: a step back undoes the name before it, and leads nowhere from
/// the root. Names alone count, whatever stands on the disk under them.
pub open spec fn settled(parts: Seq<Text>) -> Seq<Text>
    decreases parts.len(),
{
    if parts.len() == 0 {
        Seq::empty()
    } else {
        let done = settled(parts.drop_last());
        let part = parts.last();
        if part == path::here_part() {
            done
        } else if part != path::up_part() {
            done.push(part)
        } else if done.len() > 0 && path::is_name(done.last()) {
            done.drop_last()
        } else if done.len() > 0 && done.last() == path::root_part() {
            done
        } else {
            done.push(part)
        }
    }
}

/// Where a path leads from the current directory.
pub open spec fn place(current: Text, path: Text) -> Seq<Text> {
    settled(path::components(path::extended(current, path)))
}

/// Whether `parts` begins with the components in `base`.
pub open spec fn starts_with(parts: Seq<Text>, base: Seq<Text>) -> bool {
    base.len() <= parts.len() && parts.take(base.len() as int) == base
}

/// Whether a place is another one or lies below it: names alone lead from there to it.
pub open spec fn lies_in(place: Seq<Text>, base: Seq<Text>) -> bool {
    &&& starts_with(place, base)
    &&& forall|k: int| base.len() <= k < place.len() ==> path::is_name(#[trigger] place[k])
}

/// The file that a request may have. The folder is extended by the path of the request; what comes out
/// has to begin with the folder and to lead to a place in it.
pub open spec fn served_file(current: Text, folder: Text, path: Text) -> Option<Text> {
    let file = path::extended(folder, path);
    if starts_with(path::components(file), path::components(folder)) && lies_in(
        place(current, file),
        place(current, folder),
    ) {
        Some(file)
    } else {
        None
    }
}

/// Where the components of a path lead.
fn settle(parts: &Vec<String>) -> (r: Vec<String>)
    ensures
        text::views(r@) == settled(text::views(parts@)),
{
    let ghost all = text::views(parts@);
    let mut done: Vec<String> = Vec::new();
    let mut i: usize = 0;
    proof {
        reveal_strlit("/");
        reveal_strlit(".");
        reveal_strlit("..");
        assert("/"@ =~= path::root_part());
        assert("."@ =~= path::here_part());
        assert(".."@ =~= path::up_part());
        assert(all.take(0) =~= Seq::empty());
        assert(text::views(done@) =~= Seq::empty());
    }
    while i < parts.len()
        invariant
            i <= parts@.len(),
            all == text::views(parts@),
            "/"@ == path::root_part(),
            "."@ == path::here_part(),
            ".."@ == path::up_part(),
            text::views(done@) == settled(all.take(i as int)),
        decreases parts@.len() - i,
    {
        let part = parts[i].as_str();
        let ghost before = done@;
        proof {
            assert(all.take(i + 1).drop_last() =~= all.take(i as int));
            assert(all.take(i + 1).last() == part@);
            assert(before.len() > 0 ==> text::views(before).last() == before.last()@);
        }
        if text_eq(part, ".") {
        } else if !text_eq(part, "..") {
            let step = part.to_owned();
            proof {
                text::lemma_views_push(before, step);
            }
            done.push(step);
        } else if done.len() > 0 && names_entry(done[done.len() - 1].as_str()) {
            let _ = done.pop();
            assert(text::views(done@) =~= text::views(before).drop_last());
        } else if done.len() > 0 && text_eq(done[done.len() - 1].as_str(), "/") {
        } else {
            let step = part.to_owned();
            proof {
                text::lemma_views_push(before, step);
            }
            done.push(step);
        }
        i += 1;
    }
    assert(all.take(i as int) =~= all);
    done
}

/// Whether a list begins with the texts of another one.
fn list_starts_with(parts: &Vec<String>, base: &Vec<String>) -> (r: bool)
    ensures
        r == starts_with(text::views(parts@), text::views(base@)),
{
    let ghost p = text::views(parts@);
    let ghost b = text::views(base@);
    if base.len() > parts.len() {
        return false;
    }
    let mut i: usize = 0;
    while i < base.len()
        invariant
            i <= base@.len() <= parts@.len(),
            p == text::views(parts@),
            b == text::views(base@),
            forall|k: int| 0 <= k < i ==> #[trigger] b[k] == p[k],
        decreases base@.len() - i,
    {
        assert(b[i as int] == base@[i as int]@ && p[i as int] == parts@[i as int]@);
        if !text_eq(base[i].as_str(), parts[i].as_str()) {
            assert(p.take(b.len() as int)[i as int] == p[i as int]);
            return false;
        }
        i += 1;
    }
    assert(p.take(b.len() as int) =~= b);
    true
}

/// Whether a place is another one or lies below it.
fn place_lies_in(place: &Vec<String>, base: &Vec<String>) -> (r: bool)
    ensures
        r == lies_in(text::views(place@), text::views(base@)),
{
    let ghost p = text::views(place@);
    if !list_starts_with(place, base) {
        return false;
    }
    let mut i: usize = base.len();
    while i < place.len()
        invariant
            base@.len() <= i <= place@.len(),
            p == text::views(place@),
            forall|k: int| base@.len() <= k < i ==> path::is_name(#[trigger] p[k]),
        decreases place@.len() - i,
    {
        assert(p[i as int] == place@[i as int]@);
        if !names_entry(place[i].as_str()) {
            return false;
        }
        i += 1;
    }
    true
}

/// Where a path leads from the current directory.
fn place_of(current: &str, path: &str) -> (r: Vec<String>)
    ensures
        text::views(r@) == place(current@, path@),
{
    settle(&path_segments(extend_path(current, path).as_str()))
}

/// The file that a request may have: one in the folder, or none.
pub fn resolve_file(current: &str, folder: &str, path: &str) -> (r: Option<String>)
    ensures
        text::opt_view(r) == served_file(current@, folder@, path@),
{
    let file = extend_path(folder, path);
    if list_starts_with(&path_segments(file.as_str()), &path_segments(folder)) && place_lies_in(
        &place_of(current, file.as_str()),
        &place_of(current, folder),
    ) {
        Some(file)
    } else {
        None
    }
}

// ---------------------------------------------------------------------------------------------
// Replies
// ---------------------------------------------------------------------------------------------

/// The reply to a request.
#[derive(Debug)]
pub struct SyncReply {
    pub status: u16,
    pub body: String,
    /// Whether the reply says that it is JSON.
    pub is_json: bool,
}

/// The content of a [`SyncReply`].
#[verifier::ext_equal]
pub struct ReplyView {
    pub status: u16,
    pub body: Text,
    pub is_json: bool,
}

impl View for SyncReply {
    type V = ReplyView;

    open spec fn view(&self) -> ReplyView {
        ReplyView { status: self.status, body: self.body@, is_json: self.is_json }
    }
}

/// What became of a request.
#[derive(Debug)]
pub enum SyncOutcome {
    /// The server answers.
    Alive,
    /// The list of files as JSON, or nothing where it could not be written.
    Listed(Option<String>),
    /// The path leads out of the folder.
    Outside,
    /// The file could not be read.
    Unreadable,
    /// The content of the file as JSON, or nothing where it could not be written.
    Content(Option<String>),
    /// The notice that a file was deleted has arrived.
    Noticed,
    /// There is nothing of the kind.
    Unknown,
}

/// The reply that tells what became of a request.
pub open spec fn reply_to(outcome: SyncOutcome) -> ReplyView {
    match outcome {
        SyncOutcome::Alive => ReplyView {
            status: 200,
            body: "{\"status\": \"ok\"}"@,
            is_json: false,
        },
        SyncOutcome::Listed(Some(json)) => ReplyView { status: 200, body: json@, is_json: true },
        SyncOutcome::Listed(None) => ReplyView {
            status: 500,
            body: "{\"error\": \"Failed to serialize files\"}"@,
            is_json: false,
        },
        SyncOutcome::Outside => ReplyView {
            status: 403,
            body: "{\"error\": \"Path traversal not allowed\"}"@,
            is_json: false,
        },
        SyncOutcome::Unreadable => ReplyView {
            status: 404,
            body: "{\"error\": \"File not found\"}"@,
            is_json: false,
        },
        SyncOutcome::Content(Some(json)) => ReplyView { status: 200, body: json@, is_json: true },
        SyncOutcome::Content(None) => ReplyView {
            status: 500,
            body: "{\"error\": \"Failed to serialize content\"}"@,
            is_json: false,
        },
        SyncOutcome::Noticed => ReplyView {
            status: 200,
            body: "{\"status\": \"received\"}"@,
            is_json: false,
        },
        SyncOutcome::Unknown => ReplyView {
            status: 404,
            body: "{\"error\": \"Not found\"}"@,
            is_json: false,
        },
    }
}

fn plain_reply(status: u16, body: &str) -> (r: SyncReply)
    ensures
        r@ == (ReplyView { status, body: body@, is_json: false }),
{
    SyncReply { status, body: body.to_owned(), is_json: false }
}

/// The reply that tells what became of a request.
pub fn reply(outcome: SyncOutcome) -> (r: SyncReply)
    ensures
        r@ == reply_to(outcome),
{
    match outcome {
        SyncOutcome::Alive => plain_reply(200, "{\"status\": \"ok\"}"),
        SyncOutcome::Listed(Some(json)) => SyncReply { status: 200, body: json, is_json: true },
        SyncOutcome::Listed(None) => plain_reply(
            500,
            "{\"error\": \"Failed to serialize files\"}",
        ),
        SyncOutcome::Outside => plain_reply(403, "{\"error\": \"Path traversal not allowed\"}"),
        SyncOutcome::Unreadable => plain_reply(404, "{\"error\": \"File not found\"}"),
        SyncOutcome::Content(Some(json)) => SyncReply { status: 200, body: json, is_json: true },
        SyncOutcome::Content(None) => plain_reply(
            500,
            "{\"error\": \"Failed to serialize content\"}",
        ),
        SyncOutcome::Noticed => plain_reply(200, "{\"status\": \"received\"}"),
        SyncOutcome::Unknown => plain_reply(404, "{\"error\": \"Not found\"}"),
    }
}

// ---------------------------------------------------------------------------------------------
// Changes
// ---------------------------------------------------------------------------------------------

/// A file in the folder and when it was last changed, in seconds.
#[derive(Clone, Debug)]
pub struct FileInfo {
    pub path: String,
    pub modified_at: u64,
}

/// The content of a [`FileInfo`].
#[verifier::ext_equal]
pub struct InfoView {
    pub path: Text,
    pub modified_at: u64,
}

impl View for FileInfo {
    type V = InfoView;

    open spec fn view(&self) -> InfoView {
        InfoView { path: self.path@, modified_at: self.modified_at }
    }
}

/// When files were last changed, as far as that was seen.
#[derive(Debug)]
pub struct Modifications {
    seen: Vec<FileInfo>,
}

/// The times by path; of two entries with the same path the later one counts.
spec fn time_map(list: Seq<FileInfo>) -> Map<Text, u64>
    decreases list.len(),
{
    if list.len() == 0 {
        Map::empty()
    } else {
        time_map(list.drop_last()).insert(list.last().path@, list.last().modified_at)
    }
}

impl View for Modifications {
    type V = Map<Text, u64>;

    closed spec fn view(&self) -> Map<Text, u64> {
        time_map(self.seen@)
    }
}

/// Whether a file is newer than it was when it was last seen.
pub open spec fn is_newer(seen: Map<Text, u64>, file: InfoView) -> bool {
    file.modified_at > (if seen.contains_key(file.path) {
        seen[file.path]
    } else {
        0
    })
}

/// What has been seen when the given files have been looked at.
pub open spec fn after_seeing(seen: Map<Text, u64>, files: Seq<InfoView>) -> Map<Text, u64>
    decreases files.len(),
{
    if files.len() == 0 {
        seen
    } else {
        let before = after_seeing(seen, files.drop_last());
        if is_newer(before, files.last()) {
            before.insert(files.last().path, files.last().modified_at)
        } else {
            before
        }
    }
}

/// The files among the given ones that are newer than when they were last seen.
pub open spec fn newer_files(seen: Map<Text, u64>, files: Seq<InfoView>) -> Seq<Text>
    decreases files.len(),
{
    if files.len() == 0 {
        Seq::empty()
    } else {
        let before = newer_files(seen, files.drop_last());
        if is_newer(after_seeing(seen, files.drop_last()), files.last()) {
            before.push(files.last().path)
        } else {
            before
        }
    }
}

proof fn lemma_time_update(list: Seq<FileInfo>, k: int, info: FileInfo)
    requires
        0 <= k < list.len(),
        list[k].path@ == info.path@,
        forall|i: int| k < i < list.len() ==> (#[trigger] list[i]).path@ != info.path@,
    ensures
        time_map(list.update(k, info)) == time_map(list).insert(info.path@, info.modified_at),
        time_map(list).contains_key(info.path@),
        time_map(list)[info.path@] == list[k].modified_at,
    decreases list.len(),
{
    let changed = list.update(k, info);
    let init = list.drop_last();
    if k == list.len() - 1 {
        assert(changed.drop_last() =~= init);
        assert(time_map(changed) =~= time_map(list).insert(info.path@, info.modified_at));
    } else {
        assert(changed.drop_last() =~= init.update(k, info));
        assert forall|i: int| k < i < init.len() implies (#[trigger] init[i]).path@
            != info.path@ by {
            assert(init[i] == list[i]);
        }
        lemma_time_update(init, k, info);
        assert(list[list.len() - 1].path@ != info.path@);
        assert(time_map(changed) =~= time_map(list).insert(info.path@, info.modified_at));
    }
}

proof fn lemma_time_absent(list: Seq<FileInfo>, path: Text)
    requires
        forall|i: int| 0 <= i < list.len() ==> (#[trigger] list[i]).path@ != path,
    ensures
        !time_map(list).contains_key(path),
    decreases list.len(),
{
    if list.len() > 0 {
        let init = list.drop_last();
        assert forall|i: int| 0 <= i < init.len() implies (#[trigger] init[i]).path@ != path by {
            assert(init[i] == list[i]);
        }
        lemma_time_absent(init, path);
        assert(list[list.len() - 1].path@ != path);
    }
}

impl Modifications {
    /// Nothing has been seen yet.
    pub fn new() -> (r: Modifications)
        ensures
            r@ == Map::<Text, u64>::empty(),
    {
        Modifications { seen: Vec::new() }
    }

    /// Looks at a file. The result says whether it is newer than when it was last seen.
    fn see(&mut self, file: &FileInfo) -> (r: bool)
        ensures
            r == is_newer(old(self)@, file@),
            final(self)@ == after_seeing(old(self)@, seq![file@]),
    {
        let ghost before = self@;
        let ghost list = self.seen@;
        proof {
            assert(seq![file@].drop_last() =~= Seq::empty());
            reveal_with_fuel(after_seeing, 2);
        }
        let entry = FileInfo {
            path: file.path.as_str().to_owned(),
            modified_at: file.modified_at,
        };
        let mut i: usize = self.seen.len();
        while i > 0
            invariant
                i <= self.seen@.len(),
                list == self.seen@,
                before == time_map(list),
                before == self@,
                *old(self) == *self,
                after_seeing(before, seq![file@]) == (if is_newer(before, file@) {
                    before.insert(file@.path, file@.modified_at)
                } else {
                    before
                }),
                entry@ == file@,
                forall|k: int| i <= k < list.len() ==> (#[trigger] list[k]).path@ != file.path@,
            decreases i,
        {
            i -= 1;
            if text_eq(self.seen[i].path.as_str(), file.path.as_str()) {
                proof {
                    lemma_time_update(list, i as int, entry);
                }
                if file.modified_at > self.seen[i].modified_at {
                    self.seen.set(i, entry);
                    return true;
                }
                return false;
            }
        }
        proof {
            lemma_time_absent(list, file.path@);
        }
        if file.modified_at > 0 {
            self.seen.push(entry);
            assert(list.push(entry).drop_last() =~= list);
            return true;
        }
        false
    }

    /// Looks at the files of the folder. The result lists those that are newer than when they were
    /// last seen.
    pub fn changed_files(&mut self, files: &Vec<FileInfo>) -> (r: Vec<String>)
        ensures
            final(self)@ == after_seeing(old(self)@, text::views(files@)),
            text::views(r@) == newer_files(old(self)@, text::views(files@)),
    {
        let ghost before = self@;
        let ghost all = text::views(files@);
        let mut out: Vec<String> = Vec::new();
        let mut i: usize = 0;
        proof {
            assert(all.take(0) =~= Seq::empty());
            assert(text::views(out@) =~= Seq::empty());
        }
        while i < files.len()
            invariant
                i <= files@.len(),
                all == text::views(files@),
                self@ == after_seeing(before, all.take(i as int)),
                text::views(out@) == newer_files(before, all.take(i as int)),
            decreases files@.len() - i,
        {
            let ghost so_far = self@;
            let file = &files[i];
            proof {
                assert(all.take(i + 1).drop_last() =~= all.take(i as int));
                assert(all.take(i + 1).last() == file@);
                assert(seq![file@].drop_last() =~= Seq::empty());
                reveal_with_fuel(after_seeing, 2);
            }
            if self.see(file) {
                let path = file.path.as_str().to_owned();
                proof {
                    text::lemma_views_push(out@, path);
                }
                out.push(path);
            }
            i += 1;
        }
        assert(all.take(i as int) =~= all);
        out
    }
}

// ---------------------------------------------------------------------------------------------
// Laws
// ---------------------------------------------------------------------------------------------

/// Only files in the folder are served: a request is refused, or it gets the file that its path leads
/// to from the folder, and names alone lead from the place of the folder to the place of the file.
pub proof fn law_only_the_folder_is_served(current: Text, folder: Text, path: Text)
    ensures
        served_file(current, folder, path) matches Some(file) ==> {
            &&& file == path::extended(folder, path)
            &&& exists|names: Seq<Text>|
                place(current, file) == place(current, folder) + names && (forall|k: int|
                    0 <= k < names.len() ==> path::is_name(#[trigger] names[k]))
        },
{
    if let Some(file) = served_file(current, folder, path) {
        let base = place(current, folder);
        let there = place(current, file);
        let names = there.skip(base.len() as int);
        assert(there =~= base + names);
        assert forall|k: int| 0 <= k < names.len() implies path::is_name(#[trigger] names[k]) by {
            assert(names[k] == there[base.len() + k]);
        }
    }
}

/// Every path that consists of names is served: nothing but a step out of the folder is refused.
pub proof fn law_names_are_served(current: Text, folder: Text, path: Text)
    requires
        folder.len() > 0,
        !path::is_absolute(path),
        forall|k: int|
            0 <= k < path::components(path).len() ==> path::is_name(
                #[trigger] path::components(path)[k],
            ),
    ensures
        served_file(current, folder, path) == Some(path::extended(folder, path)),
{
    let parts = path::components(path);
    let file = path::extended(folder, path);
    let from = path::extended(current, folder);
    assert(parts.len() > 0 ==> parts[0] != path::here_part());
    path::lemma_components_extended(folder, path);
    assert(path::components(file).take(path::components(folder).len() as int) =~= path::components(
        folder,
    ));
    assert(path::extended(current, file) =~= path::extended(from, path));
    path::lemma_components_extended(from, path);
    lemma_settled_names(path::components(from), parts);
    let base = place(current, folder);
    let there = place(current, file);
    assert(there.take(base.len() as int) =~= base);
    assert forall|k: int| base.len() <= k < there.len() implies path::is_name(
        #[trigger] there[k],
    ) by {
        assert(there[k] == parts[k - base.len()]);
    }
}

proof fn lemma_settled_names(parts: Seq<Text>, names: Seq<Text>)
    requires
        forall|k: int| 0 <= k < names.len() ==> path::is_name(#[trigger] names[k]),
    ensures
        settled(parts + names) == settled(parts) + names,
    decreases names.len(),
{
    if names.len() == 0 {
        assert(parts + names =~= parts);
        assert(settled(parts) + names =~= settled(parts));
    } else {
        let init = names.drop_last();
        assert forall|k: int| 0 <= k < init.len() implies path::is_name(#[trigger] init[k]) by {
            assert(init[k] == names[k]);
        }
        lemma_settled_names(parts, init);
        assert((parts + names).drop_last() =~= parts + init);
        assert(path::is_name(names[names.len() - 1]));
        assert((settled(parts) + init).push(names.last()) =~= settled(parts) + names);
    }
}

/// A file that was seen to have changed is not reported again until it changes again.
pub proof fn law_changes_are_seen_once(seen: Map<Text, u64>, file: InfoView)
    requires
        is_newer(seen, file),
    ensures
        !is_newer(after_seeing(seen, seq![file]), file),
{
    assert(seq![file].drop_last() =~= Seq::empty());
    reveal_with_fuel(after_seeing, 2);
}

/// A file is asked for by the path behind `/file/`, whatever the method. The list of files, the sign of
/// life and the notice of a deletion have an address and a method of their own. Nothing else is served.
pub proof fn law_routes(method: Text, url: Text, path: Text)
    ensures
        route_of(method, "/file/"@ + path) == RouteView::File(path),
        route_of(method, url) matches RouteView::File(asked) ==> url == "/file/"@ + asked,
        route_of(method, url) == RouteView::Ping <==> method == "GET"@ && url == "/ping"@,
        route_of(method, url) == RouteView::Files <==> method == "GET"@ && url == "/files"@,
        route_of(method, url) == RouteView::FileDeleted <==> method == "POST"@ && url
            == "/file-deleted"@,
{
    reveal_strlit("/file/");
    reveal_strlit("/files");
    reveal_strlit("/ping");
    reveal_strlit("/file-deleted");
    reveal_strlit("GET");
    reveal_strlit("POST");
    let start = "/file/"@;
    let whole = start + path;
    assert("/files"@[5] == 's' && "/file-deleted"@[5] == '-' && "/ping"@[1] == 'p');
    assert(start[5] == '/' && start[1] == 'f');
    assert(whole[5] == '/' && whole[1] == 'f');
    assert(whole.take(6) =~= start);
    assert(whole.skip(6) =~= path);
    assert(text::begins_with(whole, start));
    if text::begins_with(url, start) {
        assert(url =~= start + url.skip(6));
        assert(url[5] == '/' && url[1] == 'f');
    }
    assert("/files"@.len() == 6 && "/ping"@.len() == 5 && "/file-deleted"@.len() == 13);
    assert("GET"@.len() == 3 && "POST"@.len() == 4);
}

/// A reply says that a request succeeded exactly where it did; it then hands over what was asked for as
/// it is. A step out of the folder is refused with a status of its own, and so is what could not be
/// written down.
pub proof fn law_replies(outcome: SyncOutcome)
    ensures
        ({
            let reply = reply_to(outcome);
            match outcome {
                SyncOutcome::Listed(Some(json)) | SyncOutcome::Content(Some(json)) => reply.status == 200
                    && reply.body == json@ && reply.is_json,
                SyncOutcome::Alive | SyncOutcome::Noticed => reply.status == 200 && !reply.is_json,
                SyncOutcome::Listed(None) | SyncOutcome::Content(None) => reply.status == 500
                    && !reply.is_json,
                SyncOutcome::Outside => reply.status == 403 && !reply.is_json,
                SyncOutcome::Unreadable | SyncOutcome::Unknown => reply.status == 404
                    && !reply.is_json,
            }
        }),
{
}

/// Whether no two files have the same path.
pub open spec fn apart(files: Seq<InfoView>) -> bool {
    forall|i: int, j: int|
        0 <= i < j < files.len() ==> (#[trigger] files[i]).path != (#[trigger] files[j]).path
}

/// When a file was last changed, as far as that was seen; before everything where it was not seen yet.
pub open spec fn last_seen(seen: Map<Text, u64>, path: Text) -> u64 {
    if seen.contains_key(path) {
        seen[path]
    } else {
        0
    }
}

/// Exactly the files that were changed after they were last seen are reported, and for each file the
/// later of the two times is known afterwards. Nothing changes for files that were not looked at.
pub proof fn law_changes_are_reported(seen: Map<Text, u64>, files: Seq<InfoView>, path: Text)
    requires
        apart(files),
    ensures
        newer_files(seen, files).contains(path) <==> exists|k: int|
            0 <= k < files.len() && (#[trigger] files[k]).path == path && files[k].modified_at
                > last_seen(seen, path),
        forall|k: int|
            0 <= k < files.len() && (#[trigger] files[k]).path == path ==> last_seen(
                after_seeing(seen, files),
                path,
            ) == (if files[k].modified_at > last_seen(seen, path) {
                files[k].modified_at
            } else {
                last_seen(seen, path)
            }),
        (forall|k: int| 0 <= k < files.len() ==> (#[trigger] files[k]).path != path) ==> last_seen(
            after_seeing(seen, files),
            path,
        ) == last_seen(seen, path),
    decreases files.len(),
{
    if files.len() > 0 {
        let init = files.drop_last();
        let last = files.last();
        let n = files.len() - 1;
        assert(files[n] == last);
        assert forall|i: int, j: int| 0 <= i < j < init.len() implies (#[trigger] init[i]).path != (
        #[trigger] init[j]).path by {
            assert(files[i].path != files[j].path);
        }
        law_changes_are_reported(seen, init, path);
        law_changes_are_reported(seen, init, last.path);
        assert forall|k: int| 0 <= k < init.len() implies (#[trigger] init[k]).path != last.path by {
            assert(files[k].path != files[n].path);
        }
        let before = newer_files(seen, init);
        let grown = before.push(last.path);
        assert(grown[grown.len() - 1] == last.path);
        if before.contains(path) {
            let j = choose|j: int| 0 <= j < before.len() && before[j] == path;
            assert(grown[j] == path);
            let k = choose|k: int|
                0 <= k < init.len() && (#[trigger] init[k]).path == path && init[k].modified_at
                    > last_seen(seen, path);
            assert(files[k] == init[k]);
        }
        if newer_files(seen, files).contains(path) && path != last.path {
            let all = newer_files(seen, files);
            let j = choose|j: int| 0 <= j < all.len() && all[j] == path;
            assert(before[j] == path);
            assert(before.contains(path));
        }
        if exists|k: int|
            0 <= k < files.len() && (#[trigger] files[k]).path == path && files[k].modified_at
                > last_seen(seen, path) {
            let k = choose|k: int|
                0 <= k < files.len() && (#[trigger] files[k]).path == path && files[k].modified_at
                    > last_seen(seen, path);
            if k < n {
                assert(init[k] == files[k]);
                assert(before.contains(path));
            }
        }
        assert forall|k: int| 0 <= k < files.len() && (#[trigger] files[k]).path == path implies last_seen(
            after_seeing(seen, files),
            path,
        ) == (if files[k].modified_at > last_seen(seen, path) {
            files[k].modified_at
        } else {
            last_seen(seen, path)
        }) by {
            if k < n {
                assert(init[k] == files[k]);
            }
        }
        if forall|k: int| 0 <= k < files.len() ==> (#[trigger] files[k]).path != path {
            assert forall|k: int| 0 <= k < init.len() implies (#[trigger] init[k]).path != path by {
                assert(files[k] == init[k]);
            }
        }
    }
}

/// A name leads one step down, a step back undoes a step down and leads nowhere from the root, and a
/// step to where one is leads nowhere either.
pub proof fn law_steps_back(parts: Seq<Text>, name: Text)
    requires
        path::is_name(name),
    ensures
        settled(parts.push(name)) == settled(parts).push(name),
        settled(parts.push(name).push(seq!['.', '.'])) == settled(parts),
        settled(parts.push(seq!['.'])) == settled(parts),
        settled(parts) == seq![seq!['/']] ==> settled(parts.push(seq!['.', '.'])) == settled(parts),
        settled(parts).len() > 0 && path::is_name(settled(parts).last()) ==> settled(
            parts.push(seq!['.', '.']),
        ) == settled(parts).drop_last(),
{
    let down = parts.push(name);
    assert(down.drop_last() =~= parts);
    assert(down.push(seq!['.', '.']).drop_last() =~= down);
    assert(parts.push(seq!['.']).drop_last() =~= parts);
    assert(parts.push(seq!['.', '.']).drop_last() =~= parts);
    assert(settled(parts).push(name).drop_last() =~= settled(parts));
    assert(seq!['.', '.'].len() == 2 && seq!['.'].len() == 1 && seq!['/'].len() == 1);
    assert(seq!['.'][0] == '.' && seq!['/'][0] == '/');
}

} // verus!
