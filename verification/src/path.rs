//! Paths as text with `/` between their parts: how a path falls into components, which name and
//! extension it ends in, and how paths are extended and ordered.

use vstd::prelude::*;
use vstd::string::*;

use crate::text::{
    self, Text, chars_of, concat2, has_prefix, joined, lowered, pieces, text_at_most,
    text_between, text_eq,
};

verus! {

/// The component that stands for the root of an absolute path.
pub open spec fn root_part() -> Text {
    seq!['/']
}

/// The component that stands for the current directory.
pub open spec fn here_part() -> Text {
    seq!['.']
}

/// The component that stands for the parent directory.
pub open spec fn up_part() -> Text {
    seq!['.', '.']
}

/// Whether a piece between slashes counts as a component: empty pieces never do, and `.` does only
/// at the very beginning.
pub open spec fn counts(piece: Text, first: bool) -> bool {
    piece.len() > 0 && (first || piece != here_part())
}

/// The pieces that count as components.
pub open spec fn counted(parts: Seq<Text>) -> Seq<Text>
    decreases parts.len(),
{
    if parts.len() == 0 {
        Seq::empty()
    } else {
        let head = counted(parts.drop_last());
        if counts(parts.last(), parts.len() == 1) {
            head.push(parts.last())
        } else {
            head
        }
    }
}

/// Whether the path starts at the root.
pub open spec fn is_absolute(path: Text) -> bool {
    path.len() > 0 && path[0] == '/'
}

/// The components of a path: the root first where the path is absolute, then the pieces between
/// slashes. Repeated and trailing slashes and inner `.` pieces leave no trace.
pub open spec fn components(path: Text) -> Seq<Text> {
    let body = counted(text::split_char(path, '/'));
    if is_absolute(path) {
        seq![root_part()] + body
    } else {
        body
    }
}

/// The components of a path as a list of strings.
pub fn path_segments(path: &str) -> (r: Vec<String>)
    ensures
        text::views(r@) == components(path@),
{
    let parts = pieces(path, '/');
    let ghost texts = text::views(parts@);
    let mut out: Vec<String> = Vec::new();
    let ghost mut lead: Seq<Text> = Seq::empty();
    if has_prefix(path, "/") {
        let mut root = String::new();
        root.push('/');
        out.push(root);
        proof {
            reveal_strlit("/");
            assert(path@.subrange(0, 1)[0] == path@[0]);
            assert(root@ =~= root_part());
            lead = seq![root_part()];
            assert(text::views(out@) =~= lead);
        }
    } else {
        proof {
            reveal_strlit("/");
            if is_absolute(path@) {
                assert(path@.subrange(0, 1) =~= "/"@);
            }
            assert(text::views(out@) =~= lead);
        }
    }
    let mut i: usize = 0;
    assert(lead + counted(texts.take(0)) =~= lead);
    while i < parts.len()
        invariant
            i <= parts@.len(),
            texts == text::views(parts@),
            text::views(out@) == lead + counted(texts.take(i as int)),
        decreases parts@.len() - i,
    {
        let piece = parts[i].as_str();
        let ghost before = out@;
        assert(texts.take(i + 1).drop_last() =~= texts.take(i as int));
        assert(texts.take(i + 1).last() == piece@);
        proof {
            reveal_strlit(".");
            assert("."@ =~= here_part());
        }
        if !piece.is_empty() && (i == 0 || !text_eq(piece, ".")) {
            out.push(parts[i].clone());
            proof {
                text::lemma_views_push(before, parts@[i as int]);
                assert((lead + counted(texts.take(i as int))).push(piece@) =~= lead + counted(
                    texts.take(i as int),
                ).push(piece@));
            }
        }
        i += 1;
    }
    assert(texts.take(i as int) =~= texts);
    assert(!is_absolute(path@) ==> lead + counted(texts) =~= counted(texts));
    out
}

// ---------------------------------------------------------------------------------------------
// Names
// ---------------------------------------------------------------------------------------------

/// Whether a component names a file or directory.
pub open spec fn is_name(part: Text) -> bool {
    part != root_part() && part != here_part() && part != up_part()
}

/// The name that the path ends in.
pub open spec fn name_of(path: Text) -> Option<Text> {
    let parts = components(path);
    if parts.len() > 0 && is_name(parts.last()) {
        Some(parts.last())
    } else {
        None
    }
}

/// Whether a component names a file or directory.
pub fn names_entry(part: &str) -> (r: bool)
    ensures
        r == is_name(part@),
{
    proof {
        reveal_strlit("/");
        reveal_strlit(".");
        reveal_strlit("..");
        assert("/"@ =~= root_part());
        assert("."@ =~= here_part());
        assert(".."@ =~= up_part());
    }
    !text_eq(part, "/") && !text_eq(part, ".") && !text_eq(part, "..")
}

/// The name that the path ends in.
pub fn file_name(path: &str) -> (r: Option<String>)
    ensures
        text::opt_view(r) == name_of(path@),
{
    let mut parts = path_segments(path);
    let ghost all = text::views(parts@);
    match parts.pop() {
        Some(last) => {
            assert(all.last() == last@);
            if names_entry(last.as_str()) {
                Some(last)
            } else {
                None
            }
        },
        None => None,
    }
}

/// The position of the last dot, or -1.
pub open spec fn last_dot(name: Text) -> int
    decreases name.len(),
{
    if name.len() == 0 {
        -1
    } else if name.last() == '.' {
        name.len() - 1
    } else {
        last_dot(name.drop_last())
    }
}

/// The part of the final name after its last dot. A dot at the beginning of the name starts no
/// extension.
pub open spec fn extension_of(path: Text) -> Option<Text> {
    match name_of(path) {
        Some(name) => if last_dot(name) > 0 {
            Some(name.skip(last_dot(name) + 1))
        } else {
            None
        },
        None => None,
    }
}

/// The final name without its extension.
pub open spec fn stem_of(path: Text) -> Option<Text> {
    match name_of(path) {
        Some(name) => if last_dot(name) > 0 {
            Some(name.take(last_dot(name)))
        } else {
            Some(name)
        },
        None => None,
    }
}

fn dot_position(chars: &Vec<char>) -> (r: Option<usize>)
    ensures
        r matches Some(i) ==> i == last_dot(chars@) && i < chars@.len(),
        r is None ==> last_dot(chars@) == -1,
{
    let mut n: usize = chars.len();
    assert(chars@.take(n as int) =~= chars@);
    while n > 0
        invariant
            n <= chars@.len(),
            last_dot(chars@) == last_dot(chars@.take(n as int)),
        decreases n,
    {
        if chars[n - 1] == '.' {
            return Some(n - 1);
        }
        assert(chars@.take(n as int).drop_last() =~= chars@.take(n - 1));
        n -= 1;
    }
    None
}

/// The extension of the final name.
pub fn extension(path: &str) -> (r: Option<String>)
    ensures
        text::opt_view(r) == extension_of(path@),
{
    match file_name(path) {
        Some(name) => {
            let chars = chars_of(name.as_str());
            match dot_position(&chars) {
                Some(i) if i > 0 => {
                    let n: usize = chars.len();
                    let ext = text_between(&chars, i + 1, n);
                    assert(ext@ =~= name@.skip(i + 1));
                    Some(ext)
                },
                _ => None,
            }
        },
        None => None,
    }
}

/// The final name without its extension.
pub fn file_stem(path: &str) -> (r: Option<String>)
    ensures
        text::opt_view(r) == stem_of(path@),
{
    match file_name(path) {
        Some(name) => {
            let chars = chars_of(name.as_str());
            match dot_position(&chars) {
                Some(i) if i > 0 => {
                    let stem = text_between(&chars, 0, i);
                    assert(stem@ =~= name@.take(i as int));
                    Some(stem)
                },
                _ => Some(name),
            }
        },
        None => None,
    }
}

/// Whether the path ends in the extension of packed images, in any letter case.
pub open spec fn is_image_path(path: Text) -> bool {
    match extension_of(path) {
        Some(ext) => text::lower(ext) == "rleimg"@,
        None => false,
    }
}

/// Whether the path names a packed project image (`.rleimg`, in any letter case).
pub fn is_rleimg_path(path: &str) -> (r: bool)
    ensures
        r == is_image_path(path@),
{
    match extension(path) {
        Some(ext) => text_eq(lowered(ext.as_str()).as_str(), "rleimg"),
        None => false,
    }
}

// ---------------------------------------------------------------------------------------------
// Extending
// ---------------------------------------------------------------------------------------------

/// `base` extended by `part`: an absolute part takes the place of the base, any other part is set
/// off by one slash.
pub open spec fn extended(base: Text, part: Text) -> Text {
    if is_absolute(part) {
        part
    } else if base.len() == 0 || base.last() == '/' {
        base + part
    } else {
        base + seq!['/'] + part
    }
}

/// `base` extended by each part in turn.
pub open spec fn extended_all(base: Text, parts: Seq<Text>) -> Text
    decreases parts.len(),
{
    if parts.len() == 0 {
        base
    } else {
        extended(extended_all(base, parts.drop_last()), parts.last())
    }
}

/// `base` extended by `part`.
pub fn extend_path(base: &str, part: &str) -> (r: String)
    ensures
        r@ == extended(base@, part@),
{
    let head = chars_of(base);
    let tail = chars_of(part);
    if tail.len() > 0 && tail[0] == '/' {
        part.to_owned()
    } else if head.len() == 0 || head[head.len() - 1] == '/' {
        concat2(base, part)
    } else {
        let mut out = base.to_owned();
        out.push('/');
        out.append(part);
        assert(base@.push('/') =~= base@ + seq!['/']);
        out
    }
}

/// `base` extended by each part in turn.
pub fn extend_path_all(base: &str, parts: &Vec<String>) -> (r: String)
    ensures
        r@ == extended_all(base@, text::views(parts@)),
{
    let ghost all = text::views(parts@);
    let mut out = base.to_owned();
    let mut i: usize = 0;
    while i < parts.len()
        invariant
            i <= parts@.len(),
            all == text::views(parts@),
            out@ == extended_all(base@, all.take(i as int)),
        decreases parts@.len() - i,
    {
        assert(all.take(i + 1).drop_last() =~= all.take(i as int));
        out = extend_path(out.as_str(), parts[i].as_str());
        i += 1;
    }
    assert(all.take(i as int) =~= all);
    out
}

/// The components of a path with one slash between each two.
pub open spec fn normalized(path: Text) -> Text {
    text::join(components(path), seq!['/'])
}

/// The components of a path with one slash between each two.
pub fn normalize_rel_path(path: &str) -> (r: String)
    ensures
        r@ == normalized(path@),
{
    proof {
        reveal_strlit("/");
        assert("/"@ =~= seq!['/']);
    }
    joined(&path_segments(path), "/")
}

proof fn lemma_counted(parts: Seq<Text>)
    requires
        forall|i: int| 0 <= i < parts.len() ==> text::free_of(#[trigger] parts[i], text::is_char('/')),
    ensures
        counted(parts).len() <= parts.len(),
        forall|i: int|
            0 <= i < counted(parts).len() ==> {
                let part = #[trigger] counted(parts)[i];
                &&& part.len() > 0
                &&& text::free_of(part, text::is_char('/'))
                &&& part == here_part() ==> i == 0 && parts[0].len() > 0
            },
    decreases parts.len(),
{
    if parts.len() > 0 {
        let init = parts.drop_last();
        assert forall|i: int| 0 <= i < init.len() implies text::free_of(
            #[trigger] init[i],
            text::is_char('/'),
        ) by {
            assert(init[i] == parts[i]);
        }
        lemma_counted(init);
        assert(text::free_of(parts[parts.len() - 1], text::is_char('/')));
        assert(init.len() > 0 ==> init[0] == parts[0]);
    }
}

proof fn lemma_counted_append(a: Seq<Text>, b: Seq<Text>)
    requires
        forall|i: int| 0 <= i < b.len() ==> (#[trigger] b[i]).len() > 0 && b[i] != here_part(),
    ensures
        counted(a + b) == counted(a) + b,
    decreases b.len(),
{
    if b.len() == 0 {
        assert(a + b =~= a);
        assert(counted(a) + b =~= counted(a));
    } else {
        let init = b.drop_last();
        assert forall|i: int| 0 <= i < init.len() implies (#[trigger] init[i]).len() > 0 && init[i]
            != here_part() by {
            assert(init[i] == b[i]);
        }
        lemma_counted_append(a, init);
        assert((a + b).drop_last() =~= a + init);
        assert((a + b).last() == b[b.len() - 1]);
        assert((counted(a) + init).push(b.last()) =~= counted(a) + b);
    }
}

proof fn lemma_counted_parts(a: Seq<Text>, b: Seq<Text>)
    requires
        a.len() > 0,
        b.len() > 0 ==> b[0] != here_part(),
    ensures
        counted(a + b) == counted(a) + counted(b),
    decreases b.len(),
{
    if b.len() == 0 {
        assert(a + b =~= a);
        assert(counted(a) + counted(b) =~= counted(a));
    } else {
        let init = b.drop_last();
        assert(init.len() > 0 ==> init[0] == b[0]);
        lemma_counted_parts(a, init);
        assert((a + b).drop_last() =~= a + init);
        assert((a + b).last() == b.last());
        assert(counted(a + b) =~= counted(a) + counted(b));
    }
}

proof fn lemma_counted_first(parts: Seq<Text>)
    requires
        parts.len() > 0,
        parts[0].len() > 0,
    ensures
        counted(parts).len() > 0,
        counted(parts)[0] == parts[0],
    decreases parts.len(),
{
    if parts.len() > 1 {
        assert(parts.drop_last()[0] == parts[0]);
        lemma_counted_first(parts.drop_last());
    } else {
        assert(parts.drop_last() =~= Seq::empty());
        assert(counted(parts.drop_last()) =~= Seq::empty());
    }
}

/// The components of an extended path are those of the path and then those of the extension.
pub proof fn lemma_components_extended(base: Text, part: Text)
    requires
        base.len() > 0,
        !is_absolute(part),
        components(part).len() > 0 ==> components(part)[0] != here_part(),
    ensures
        components(extended(base, part)) == components(base) + components(part),
{
    let at = text::is_char('/');
    let pieces = text::split_char(part, '/');
    let whole = extended(base, part);
    text::lemma_split_nonempty(part, at);
    if pieces[0] == here_part() {
        lemma_counted_first(pieces);
    }
    if base.last() == '/' {
        let head = base.drop_last();
        assert(whole =~= head + seq!['/'] + part);
        assert(base =~= head + seq!['/'] + text::blank());
        text::lemma_split_append(head, '/', part, at);
        text::lemma_split_append(head, '/', text::blank(), at);
        text::lemma_split_nonempty(head, at);
        lemma_counted_parts(text::split(head, at), pieces);
        let nothing = text::split(text::blank(), at);
        assert(nothing =~= seq![text::blank()]);
        assert((text::split(head, at) + nothing).drop_last() =~= text::split(head, at));
        assert((text::split(head, at) + nothing).last() == text::blank());
        assert(counted(text::split_char(base, '/')) == counted(text::split(head, at)));
    } else {
        text::lemma_split_append(base, '/', part, at);
        text::lemma_split_nonempty(base, at);
        lemma_counted_parts(text::split(base, at), pieces);
    }
    assert(whole[0] == base[0]);
    assert(components(whole) =~= components(base) + components(part));
}

/// A path and its normalized form lead to the same place: they have the same components.
pub proof fn law_normalized_components(path: Text)
    ensures
        components(normalized(path)) == components(path),
{
    let pieces = text::split_char(path, '/');
    let body = counted(pieces);
    let text = normalized(path);
    text::lemma_split_pieces(path, text::is_char('/'));
    lemma_counted(pieces);
    if is_absolute(path) {
        assert(pieces[0].len() == 0) by {
            let rest = path.skip(1);
            assert(path =~= text::blank() + seq!['/'] + rest);
            text::lemma_split_append(text::blank(), '/', rest, text::is_char('/'));
            assert(text::split(text::blank(), text::is_char('/')) =~= seq![text::blank()]);
            assert((seq![text::blank()] + text::split(rest, text::is_char('/')))[0] == text::blank());
        }
        if body.len() == 0 {
            assert(components(path) =~= seq![root_part()]);
            assert(text =~= seq!['/']);
            assert(text =~= text::blank() + seq!['/'] + text::blank());
            text::lemma_split_append(text::blank(), '/', text::blank(), text::is_char('/'));
            assert(text::split_char(text, '/') =~= seq![text::blank()] + seq![text::blank()]);
            assert((seq![text::blank()] + seq![text::blank()]).drop_last() =~= seq![text::blank()]);
            assert(seq![text::blank()].drop_last() =~= Seq::empty());
            reveal_with_fuel(counted, 3);
            assert(counted(text::split_char(text, '/')) =~= Seq::empty());
            assert(components(text) =~= components(path));
        } else {
            text::lemma_join_front(root_part(), body, seq!['/']);
            let inner = text::join(body, seq!['/']);
            assert(text =~= text::blank() + seq!['/'] + (text::blank() + seq!['/'] + inner));
            text::lemma_split_append(text::blank(), '/', inner, text::is_char('/'));
            text::lemma_split_append(text::blank(), '/', text::blank() + seq!['/'] + inner, text::is_char('/'));
            text::lemma_split_join(body, '/');
            assert(text::split(text::blank(), text::is_char('/')) =~= seq![text::blank()]);
            let lead = seq![text::blank(), text::blank()];
            assert(text::split_char(text, '/') =~= lead + body);
            lemma_counted_append(lead, body);
            assert(lead.drop_last() =~= seq![text::blank()]);
            assert(seq![text::blank()].drop_last() =~= Seq::empty());
            reveal_with_fuel(counted, 3);
            assert(counted(lead) =~= Seq::empty());
            assert(counted(text::split_char(text, '/')) =~= body);
        }
    } else if body.len() == 0 {
        assert(components(path) =~= Seq::empty());
        assert(text =~= text::blank());
        assert(text::split_char(text, '/') =~= seq![text::blank()]);
        assert(seq![text::blank()].drop_last() =~= Seq::empty());
        reveal_with_fuel(counted, 2);
        assert(components(text) =~= Seq::empty());
    } else {
        text::lemma_split_join(body, '/');
        let first = seq![body[0]];
        let rest = body.skip(1);
        assert(first + rest =~= body);
        assert forall|i: int| 0 <= i < rest.len() implies (#[trigger] rest[i]).len() > 0 && rest[i]
            != here_part() by {
            assert(rest[i] == body[i + 1]);
        }
        lemma_counted_append(first, rest);
        assert(first.drop_last() =~= Seq::empty());
        reveal_with_fuel(counted, 2);
        assert(counted(first) =~= first);
        if body.len() > 1 {
            text::lemma_join_front(body[0], rest, seq!['/']);
        }
        assert(text::free_of(body[0], text::is_char('/')));
        assert(text[0] == body[0][0]);
        assert(!text::is_char('/')(body[0][0]));
    }
}

/// A path that is made of names with one slash between each two has exactly these names as its
/// components, in their order.
pub proof fn law_names_are_components(names: Seq<Text>)
    requires
        names.len() > 0,
        forall|i: int|
            0 <= i < names.len() ==> (#[trigger] names[i]).len() > 0 && !names[i].contains('/')
                && names[i] != seq!['.'],
    ensures
        components(text::join(names, seq!['/'])) == names,
{
    assert forall|i: int| 0 <= i < names.len() implies text::free_of(
        #[trigger] names[i],
        text::is_char('/'),
    ) by {
        assert forall|k: int| 0 <= k < names[i].len() implies !text::is_char('/')(
            #[trigger] names[i][k],
        ) by {
            assert(names[i].contains(names[i][k]));
        }
    }
    text::lemma_split_join(names, '/');
    let none = Seq::<Text>::empty();
    lemma_counted_append(none, names);
    assert(none + names =~= names);
    assert(counted(none) + names =~= names);
    lemma_join_begins(names);
    assert(names[0].contains(names[0][0]));
}

proof fn lemma_join_begins(names: Seq<Text>)
    requires
        names.len() > 0,
        names[0].len() > 0,
    ensures
        text::join(names, seq!['/']).len() > 0,
        text::join(names, seq!['/'])[0] == names[0][0],
    decreases names.len(),
{
    if names.len() > 1 {
        lemma_join_begins(names.drop_last());
    }
}

// ---------------------------------------------------------------------------------------------
// Order
// ---------------------------------------------------------------------------------------------

/// The group that a component belongs to in the order of components: the root, the current
/// directory, the parent directory, then names.
pub open spec fn part_rank(part: Text) -> int {
    if part == root_part() {
        0
    } else if part == here_part() {
        1
    } else if part == up_part() {
        2
    } else {
        3
    }
}

/// The order of components: by group, and names by dictionary order.
pub open spec fn part_le(a: Text, b: Text) -> bool {
    if part_rank(a) != part_rank(b) {
        part_rank(a) < part_rank(b)
    } else {
        text::text_le(a, b)
    }
}

/// The order of component sequences, component by component.
pub open spec fn parts_le(a: Seq<Text>, b: Seq<Text>) -> bool
    decreases a.len(),
{
    if a.len() == 0 {
        true
    } else if b.len() == 0 {
        false
    } else if a[0] == b[0] {
        parts_le(a.drop_first(), b.drop_first())
    } else {
        part_le(a[0], b[0])
    }
}

/// The order of paths, component by component.
pub open spec fn path_le(a: Text, b: Text) -> bool {
    parts_le(components(a), components(b))
}

proof fn lemma_part_le(a: Text, b: Text, c: Text)
    ensures
        part_le(a, b) || part_le(b, a),
        part_le(a, b) && part_le(b, a) ==> a == b,
        part_le(a, b) && part_le(b, c) ==> part_le(a, c),
{
    text::lemma_text_le_total(a, b);
    if text::text_le(a, b) && text::text_le(b, a) {
        text::lemma_text_le_antisymmetric(a, b);
    }
    if text::text_le(a, b) && text::text_le(b, c) {
        text::lemma_text_le_transitive(a, b, c);
    }
}

proof fn lemma_parts_le_total(a: Seq<Text>, b: Seq<Text>)
    ensures
        parts_le(a, b) || parts_le(b, a),
    decreases a.len(),
{
    if a.len() > 0 && b.len() > 0 {
        if a[0] == b[0] {
            lemma_parts_le_total(a.drop_first(), b.drop_first());
        } else {
            lemma_part_le(a[0], b[0], b[0]);
        }
    }
}

proof fn lemma_parts_le_transitive(a: Seq<Text>, b: Seq<Text>, c: Seq<Text>)
    requires
        parts_le(a, b),
        parts_le(b, c),
    ensures
        parts_le(a, c),
    decreases a.len(),
{
    if a.len() > 0 {
        if a[0] == b[0] && b[0] == c[0] {
            lemma_parts_le_transitive(a.drop_first(), b.drop_first(), c.drop_first());
        } else {
            lemma_part_le(a[0], b[0], c[0]);
            lemma_part_le(b[0], a[0], a[0]);
            lemma_part_le(b[0], c[0], c[0]);
            lemma_part_le(a[0], c[0], c[0]);
        }
    }
}

/// Paths are ordered: each two compare, and comparing is transitive.
pub proof fn lemma_path_le_orders()
    ensures
        forall|a: Text, b: Text| #[trigger] path_le(a, b) || path_le(b, a),
        forall|a: Text, b: Text, c: Text| #[trigger]
            path_le(a, b) && #[trigger] path_le(b, c) ==> path_le(a, c),
{
    assert forall|a: Text, b: Text| #[trigger] path_le(a, b) || path_le(b, a) by {
        lemma_parts_le_total(components(a), components(b));
    }
    assert forall|a: Text, b: Text, c: Text| #[trigger]
        path_le(a, b) && #[trigger] path_le(b, c) implies path_le(a, c) by {
        lemma_parts_le_transitive(components(a), components(b), components(c));
    }
}

/// Whether two paths have the same components.
pub open spec fn same_path(a: Text, b: Text) -> bool {
    components(a) == components(b)
}

fn rank_of(part: &str) -> (r: u8)
    ensures
        r == part_rank(part@),
{
    proof {
        reveal_strlit("/");
        reveal_strlit(".");
        reveal_strlit("..");
        assert("/"@ =~= root_part());
        assert("."@ =~= here_part());
        assert(".."@ =~= up_part());
    }
    if text_eq(part, "/") {
        0
    } else if text_eq(part, ".") {
        1
    } else if text_eq(part, "..") {
        2
    } else {
        3
    }
}

fn part_at_most(a: &str, b: &str) -> (r: bool)
    ensures
        r == part_le(a@, b@),
{
    let x: u8 = rank_of(a);
    let y: u8 = rank_of(b);
    if x != y {
        x < y
    } else {
        text_at_most(a, b)
    }
}

proof fn lemma_parts_le_skip(a: Seq<Text>, b: Seq<Text>, i: int)
    requires
        0 <= i <= a.len(),
        i <= b.len(),
        a.take(i) == b.take(i),
    ensures
        parts_le(a, b) == parts_le(a.skip(i), b.skip(i)),
    decreases i,
{
    if i == 0 {
        assert(a.skip(0) =~= a);
        assert(b.skip(0) =~= b);
    } else {
        assert(a[0] == a.take(i)[0]);
        assert(b[0] == b.take(i)[0]);
        let a1 = a.drop_first();
        let b1 = b.drop_first();
        assert(a1.take(i - 1) =~= a.take(i).drop_first());
        assert(b1.take(i - 1) =~= b.take(i).drop_first());
        lemma_parts_le_skip(a1, b1, i - 1);
        assert(a1.skip(i - 1) =~= a.skip(i));
        assert(b1.skip(i - 1) =~= b.skip(i));
    }
}

/// Whether path `a` comes before path `b` in the order of paths, or has the same components.
pub fn path_at_most(a: &str, b: &str) -> (r: bool)
    ensures
        r == path_le(a@, b@),
{
    let x = path_segments(a);
    let y = path_segments(b);
    let ghost xs = text::views(x@);
    let ghost ys = text::views(y@);
    let mut i: usize = 0;
    while i < x.len() && i < y.len()
        invariant
            i <= x@.len(),
            i <= y@.len(),
            xs == text::views(x@),
            ys == text::views(y@),
            xs == components(a@),
            ys == components(b@),
            xs.take(i as int) == ys.take(i as int),
        decreases x@.len() - i,
    {
        if !text_eq(x[i].as_str(), y[i].as_str()) {
            proof {
                lemma_parts_le_skip(xs, ys, i as int);
                assert(xs.skip(i as int)[0] == x@[i as int]@);
                assert(ys.skip(i as int)[0] == y@[i as int]@);
            }
            return part_at_most(x[i].as_str(), y[i].as_str());
        }
        i += 1;
        assert(xs.take(i as int) =~= xs.take(i - 1).push(xs[i - 1]));
        assert(ys.take(i as int) =~= ys.take(i - 1).push(ys[i - 1]));
    }
    proof {
        lemma_parts_le_skip(xs, ys, i as int);
    }
    i >= x.len()
}

/// Whether two lists hold the same texts in the same order.
pub fn texts_eq(a: &Vec<String>, b: &Vec<String>) -> (r: bool)
    ensures
        r == (text::views(a@) == text::views(b@)),
{
    if a.len() != b.len() {
        assert(text::views(a@).len() != text::views(b@).len());
        return false;
    }
    let mut i: usize = 0;
    while i < a.len()
        invariant
            a@.len() == b@.len(),
            i <= a@.len(),
            forall|j: int| 0 <= j < i ==> a@[j]@ == b@[j]@,
        decreases a@.len() - i,
    {
        if !text_eq(a[i].as_str(), b[i].as_str()) {
            assert(text::views(a@)[i as int] != text::views(b@)[i as int]);
            return false;
        }
        i += 1;
    }
    assert(text::views(a@) =~= text::views(b@));
    true
}

/// Whether two paths have the same components.
pub fn path_eq(a: &str, b: &str) -> (r: bool)
    ensures
        r == same_path(a@, b@),
{
    texts_eq(&path_segments(a), &path_segments(b))
}

// ---------------------------------------------------------------------------------------------
// Laws
// ---------------------------------------------------------------------------------------------

/// A name falls into its stem, a dot and its extension, which holds no dot; a name without an
/// extension is its stem.
pub proof fn law_stem_and_extension(path: Text)
    ensures
        match (name_of(path), stem_of(path), extension_of(path)) {
            (Some(name), Some(stem), Some(ext)) => {
                &&& name == stem + seq!['.'] + ext
                &&& stem.len() > 0
                &&& !ext.contains('.')
            },
            (Some(name), Some(stem), None) => {
                &&& name == stem
                &&& forall|k: int| 0 < k < name.len() ==> #[trigger] name[k] != '.'
            },
            (None, None, None) => true,
            _ => false,
        },
{
    if let Some(name) = name_of(path) {
        lemma_last_dot(name);
        let at = last_dot(name);
        if at > 0 {
            assert(name =~= name.take(at) + seq!['.'] + name.skip(at + 1));
            let ext = name.skip(at + 1);
            if ext.contains('.') {
                let k = choose|k: int| 0 <= k < ext.len() && ext[k] == '.';
                assert(name[at + 1 + k] == '.');
            }
        }
    }
}

proof fn lemma_last_dot(name: Text)
    ensures
        -1 <= last_dot(name) < name.len(),
        last_dot(name) >= 0 ==> name[last_dot(name)] == '.',
        forall|k: int| last_dot(name) < k < name.len() ==> #[trigger] name[k] != '.',
    decreases name.len(),
{
    if name.len() > 0 && name.last() != '.' {
        let rest = name.drop_last();
        lemma_last_dot(rest);
        assert forall|k: int| last_dot(name) < k < name.len() implies #[trigger] name[k] != '.' by {
            if k < rest.len() {
                assert(rest[k] == name[k]);
            }
        }
    }
}

/// Extending a path by names, one after the other, adds these names to its components.
pub proof fn law_names_extend(base: Text, names: Seq<Text>)
    requires
        forall|i: int|
            0 <= i < names.len() ==> (#[trigger] names[i]).len() > 0 && !names[i].contains('/')
                && names[i] != seq!['.'],
    ensures
        components(extended_all(base, names)) == components(base) + names,
    decreases names.len(),
{
    if names.len() == 0 {
        assert(components(base) + names =~= components(base));
    } else {
        let init = names.drop_last();
        let name = names.last();
        assert forall|i: int| 0 <= i < init.len() implies (#[trigger] init[i]).len() > 0
            && !init[i].contains('/') && init[i] != seq!['.'] by {
            assert(init[i] == names[i]);
        }
        law_names_extend(base, init);
        assert(names[names.len() - 1] == name);
        lemma_one_name(name);
        assert(!is_absolute(name)) by {
            if is_absolute(name) {
                assert(name.contains(name[0]));
            }
        }
        let before = extended_all(base, init);
        if before.len() > 0 {
            lemma_components_extended(before, name);
        } else {
            assert(extended(before, name) =~= name);
            assert(components(before).len() == 0) by {
                lemma_nothing();
                assert(before =~= text::blank());
            }
        }
        assert(components(base) + names =~= components(base) + init + seq![name]);
    }
}

/// The empty path has no components.
pub proof fn lemma_nothing()
    ensures
        components(text::blank()).len() == 0,
{
    let pieces = text::split_char(text::blank(), '/');
    assert(pieces =~= seq![text::blank()]);
    assert(pieces.drop_last() =~= Seq::empty());
    assert(counted(pieces.drop_last()) =~= Seq::empty());
}

proof fn lemma_one_name(name: Text)
    requires
        name.len() > 0,
        !name.contains('/'),
        name != seq!['.'],
    ensures
        components(name) == seq![name],
{
    law_names_are_components(seq![name]);
    let one = seq![name];
    assert(text::join(one, seq!['/']) =~= name) by {
        reveal_with_fuel(text::join, 2);
        assert(one.drop_last() =~= Seq::empty());
    }
}

/// A directory comes before everything in it, and the files of a directory, with everything below them,
/// come in the order of their names.
pub proof fn law_paths_in_order(common: Seq<Text>, a: Text, b: Text, more: Seq<Text>, rest: Seq<Text>)
    requires
        is_name(a),
        is_name(b),
        a != b,
    ensures
        parts_le(common, common + more),
        parts_le(common + more, common) ==> more.len() == 0,
        parts_le(common + seq![a] + more, common + seq![b] + rest) <==> text::text_le(a, b),
    decreases common.len(),
{
    let left = common + seq![a] + more;
    let right = common + seq![b] + rest;
    if common.len() == 0 {
        assert(common + more =~= more);
        assert(left[0] == a && right[0] == b);
    } else {
        let tail = common.drop_first();
        law_paths_in_order(tail, a, b, more, rest);
        assert((common + more).drop_first() =~= tail + more);
        assert((common + more)[0] == common[0]);
        assert(left.drop_first() =~= tail + seq![a] + more);
        assert(right.drop_first() =~= tail + seq![b] + rest);
        assert(left[0] == common[0] && right[0] == common[0]);
    }
}

} // verus!
