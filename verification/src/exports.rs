//! What a reader of exported documents gets: the instance tree that was exported, item by item.

use vstd::prelude::*;
use vstd::string::*;

use crate::layout;
use crate::project::{FileView, MountView, NodeView};
use crate::rbxlx;
use crate::text::{self, Text};

verus! {

// ---------------------------------------------------------------------------------------------
// Reading
// ---------------------------------------------------------------------------------------------

/// What follows a piece of markup, where the text begins with it.
pub open spec fn after(t: Text, markup: Text) -> Option<Text> {
    if text::begins_with(t, markup) {
        Some(t.skip(markup.len() as int))
    } else {
        None
    }
}

/// The text without the spaces and line ends at its beginning.
pub open spec fn skip_blank(t: Text) -> Text
    decreases t.len(),
{
    if t.len() > 0 && (t[0] == ' ' || t[0] == '\n') {
        skip_blank(t.skip(1))
    } else {
        t
    }
}

/// The text up to the first of the given characters.
pub open spec fn up_to(t: Text, stop: char) -> Text
    decreases t.len(),
{
    if t.len() == 0 || t[0] == stop {
        text::blank()
    } else {
        seq![t[0]] + up_to(t.skip(1), stop)
    }
}

/// The text from the first of the given characters on.
pub open spec fn from_there(t: Text, stop: char) -> Text {
    t.skip(up_to(t, stop).len() as int)
}

/// What follows CDATA sections that follow each other directly, read from inside the first one.
pub open spec fn after_sections(t: Text) -> Text
    decreases t.len(),
{
    if t.len() == 0 {
        text::blank()
    } else if rbxlx::ends_section(t) {
        if text::begins_with(t.skip(3), "<![CDATA["@) && "<![CDATA["@.len() > 0 {
            after_sections(t.skip(3int + "<![CDATA["@.len()))
        } else {
            t.skip(3)
        }
    } else {
        after_sections(t.skip(1))
    }
}

/// A property of an item.
#[verifier::ext_equal]
pub struct Field {
    /// Whether the property holds source code.
    pub protected: bool,
    pub name: Text,
    pub value: Text,
}

/// An item of a document with everything below it.
#[verifier::ext_equal]
pub struct Item {
    pub class_name: Text,
    pub referent: Text,
    pub fields: Seq<Field>,
    pub items: Seq<Item>,
}

/// Reads a property with plain text from behind its first piece of markup.
pub open spec fn read_plain(t: Text) -> Option<(Field, Text)> {
    match after(from_there(t, '"'), "\">"@) {
        None => None,
        Some(u) => match after(from_there(u, '<'), "</string>"@) {
            None => None,
            Some(rest) => Some(
                (
                    Field {
                        protected: false,
                        name: rbxlx::unescape(up_to(t, '"')),
                        value: rbxlx::unescape(up_to(u, '<')),
                    },
                    rest,
                ),
            ),
        },
    }
}

/// Reads a property with source code from behind its first piece of markup.
pub open spec fn read_protected(t: Text) -> Option<(Field, Text)> {
    match after(from_there(t, '"'), "\"><![CDATA["@) {
        None => None,
        Some(u) => match after(after_sections(u), "</ProtectedString>"@) {
            None => None,
            Some(rest) => Some(
                (
                    Field {
                        protected: true,
                        name: rbxlx::unescape(up_to(t, '"')),
                        value: rbxlx::read_sections(u),
                    },
                    rest,
                ),
            ),
        },
    }
}

/// Reads a property.
pub open spec fn read_field(t: Text) -> Option<(Field, Text)> {
    match after(skip_blank(t), "<string name=\""@) {
        Some(u) => read_plain(u),
        None => match after(skip_blank(t), "<ProtectedString name=\""@) {
            Some(u) => read_protected(u),
            None => None,
        },
    }
}

/// Reads properties as long as there are any.
pub open spec fn read_fields(t: Text) -> (Seq<Field>, Text)
    decreases t.len(),
{
    match read_field(t) {
        Some((field, rest)) => if rest.len() < t.len() {
            let (more, end) = read_fields(rest);
            (seq![field] + more, end)
        } else {
            (Seq::empty(), t)
        },
        None => (Seq::empty(), t),
    }
}

/// The class, the referent and the properties of an item, and what follows them.
pub open spec fn read_opening(t: Text) -> Option<(Item, Text)> {
    match after(skip_blank(t), "<Item class=\""@) {
        None => None,
        Some(u) => match after(from_there(u, '"'), "\" referent=\""@) {
            None => None,
            Some(v) => match after(from_there(v, '"'), "\">"@) {
                None => None,
                Some(w) => match after(skip_blank(w), "<Properties>"@) {
                    None => None,
                    Some(x) => match after(skip_blank(read_fields(x).1), "</Properties>"@) {
                        None => None,
                        Some(rest) => Some(
                            (
                                Item {
                                    class_name: rbxlx::unescape(up_to(u, '"')),
                                    referent: rbxlx::unescape(up_to(v, '"')),
                                    fields: read_fields(x).0,
                                    items: Seq::empty(),
                                },
                                rest,
                            ),
                        ),
                    },
                },
            },
        },
    }
}

/// Reads an item with everything below it.
pub open spec fn read_item(t: Text) -> Option<(Item, Text)>
    decreases t.len(), 0nat,
{
    match read_opening(t) {
        None => None,
        Some((item, inner)) => if inner.len() < t.len() {
            let (items, end) = read_items(inner);
            match after(skip_blank(end), "</Item>"@) {
                None => None,
                Some(rest) => Some((Item { items, ..item }, rest)),
            }
        } else {
            None
        },
    }
}

/// Reads items as long as there are any.
pub open spec fn read_items(t: Text) -> (Seq<Item>, Text)
    decreases t.len(), 1nat,
{
    match read_item(t) {
        Some((item, rest)) => if rest.len() < t.len() {
            let (more, end) = read_items(rest);
            (seq![item] + more, end)
        } else {
            (Seq::empty(), t)
        },
        None => (Seq::empty(), t),
    }
}

/// The items of a document.
pub open spec fn read_document(t: Text) -> Option<Seq<Item>> {
    match after(
        t,
        "<?xml version=\"1.0\" encoding=\"utf-8\"?>\n<roblox version=\"4\">\n  <External>null</External>\n  <External>null</External>\n"@,
    ) {
        None => None,
        Some(u) => match after(skip_blank(read_items(u).1), "</roblox>"@) {
            None => None,
            Some(_) => Some(read_items(u).0),
        },
    }
}

// ---------------------------------------------------------------------------------------------
// What items tell of nodes
// ---------------------------------------------------------------------------------------------

/// Whether the properties of an item hold a value under a name exactly where there is one.
pub open spec fn field_is(fields: Seq<Field>, name: Text, protected: bool, value: Option<Text>) -> bool {
    match value {
        Some(value) => fields.contains(Field { protected, name, value }) && forall|i: int|
            0 <= i < fields.len() && (#[trigger] fields[i]).name == name ==> fields[i].value == value
                && fields[i].protected == protected,
        None => forall|i: int| 0 <= i < fields.len() ==> (#[trigger] fields[i]).name != name,
    }
}

/// Whether an item tells of a node and of everything below it: its class, its name, its source code
/// and its run context where it has them, and its value where that is text. Items go by the numbers in
/// whose order they begin.
pub open spec fn tells(item: Item, node: NodeView, before: nat) -> bool
    decreases node,
{
    &&& item.class_name == node.class_name
    &&& item.referent == "RBX"@ + text::decimal(before + 1)
    &&& field_is(item.fields, "Name"@, false, Some(node.name))
    &&& field_is(item.fields, "Source"@, true, node.source)
    &&& field_is(item.fields, "RunContext"@, false, node.run_context)
    &&& field_is(
        item.fields,
        "Value"@,
        false,
        match node.value {
            Some(bytes) => if vstd::utf8::valid_utf8(bytes) {
                Some(vstd::utf8::decode_utf8(bytes))
            } else {
                None
            },
            None => None,
        },
    )
    &&& item.items.len() == node.children.len()
    &&& forall|k: int|
        0 <= k < node.children.len() ==> tells(
            item.items[k],
            #[trigger] node.children[k],
            before + 1 + rbxlx::nodes_count(node.children.take(k)),
        )
}

/// Whether items tell of nodes, one after the other.
pub open spec fn tell_all(items: Seq<Item>, nodes: Seq<NodeView>, before: nat) -> bool {
    &&& items.len() == nodes.len()
    &&& forall|k: int|
        0 <= k < nodes.len() ==> tells(
            items[k],
            #[trigger] nodes[k],
            before + rbxlx::nodes_count(nodes.take(k)),
        )
}

// ---------------------------------------------------------------------------------------------
// Steps of reading
// ---------------------------------------------------------------------------------------------

proof fn lemma_after(markup: Text, rest: Text)
    ensures
        after(markup + rest, markup) == Some(rest),
        (markup + rest).len() == markup.len() + rest.len(),
{
    let t = markup + rest;
    assert(t.subrange(0, markup.len() as int) =~= markup);
    assert(t.skip(markup.len() as int) =~= rest);
}

proof fn lemma_not_after(t: Text, markup: Text, i: int)
    requires
        0 <= i < markup.len(),
        t.len() <= i || t[i] != markup[i],
    ensures
        after(t, markup) is None,
{
    if text::begins_with(t, markup) {
        assert(t.subrange(0, markup.len() as int)[i] == t[i]);
    }
}

proof fn lemma_skip_blank(spaces: Text, rest: Text)
    requires
        forall|i: int| 0 <= i < spaces.len() ==> #[trigger] spaces[i] == ' ' || spaces[i] == '\n',
    ensures
        skip_blank(spaces + rest) == skip_blank(rest),
    decreases spaces.len(),
{
    if spaces.len() == 0 {
        assert(spaces + rest =~= rest);
    } else {
        assert((spaces + rest)[0] == spaces[0]);
        assert((spaces + rest).skip(1) =~= spaces.skip(1) + rest);
        lemma_skip_blank(spaces.skip(1), rest);
    }
}

proof fn lemma_up_to(s: Text, stop: char, rest: Text)
    requires
        forall|i: int| 0 <= i < s.len() ==> #[trigger] s[i] != stop,
        rest.len() > 0,
        rest[0] == stop,
    ensures
        up_to(s + rest, stop) == s,
        from_there(s + rest, stop) == rest,
    decreases s.len(),
{
    let t = s + rest;
    if s.len() == 0 {
        assert(t =~= rest);
        assert(up_to(t, stop) =~= s);
        assert(t.skip(0) =~= rest);
    } else {
        assert(t[0] == s[0]);
        assert(t.skip(1) =~= s.skip(1) + rest);
        lemma_up_to(s.skip(1), stop, rest);
        assert(seq![s[0]] + s.skip(1) =~= s);
        assert(t.skip(s.len() as int) =~= rest);
    }
}

proof fn lemma_sections(v: Text, more: Text)
    requires
        !text::begins_with(more, "<![CDATA["@),
    ensures
        rbxlx::read_sections(rbxlx::cdata(v) + ("]]>"@ + more)) == v,
        after_sections(rbxlx::cdata(v) + ("]]>"@ + more)) == more,
    decreases v.len(),
{
    reveal_strlit("]]>");
    reveal_strlit("<![CDATA[");
    reveal_strlit("]]]]><![CDATA[>");
    let t = rbxlx::cdata(v) + ("]]>"@ + more);
    lemma_starts_alike(v, more);
    assert(text::begins_with(v, "]]>"@) == rbxlx::ends_section(v)) by {
        if rbxlx::ends_section(v) {
            assert(v.subrange(0, 3) =~= "]]>"@);
        } else if text::begins_with(v, "]]>"@) {
            assert(v.subrange(0, 3)[0] == v[0]);
            assert(v.subrange(0, 3)[1] == v[1]);
            assert(v.subrange(0, 3)[2] == v[2]);
        }
    }
    if v.len() == 0 {
        assert(t =~= "]]>"@ + more);
        assert(t.skip(3) =~= more);
        assert(t[0] == ']' && t[1] == ']' && t[2] == '>');
        assert(rbxlx::read_sections(t) =~= v);
    } else if rbxlx::ends_section(v) {
        let rest = rbxlx::cdata(v.skip(3)) + ("]]>"@ + more);
        lemma_sections(v.skip(3), more);
        assert(t =~= "]]]]><![CDATA[>"@ + rest);
        let t1 = t.skip(1);
        let t2 = t1.skip(1);
        let t3 = t2.skip(3int + "<![CDATA["@.len());
        assert(t2.skip(3).subrange(0, 9) =~= "<![CDATA["@);
        assert(t3[0] == '>');
        assert(t3.skip(1) =~= rest);
        assert(rbxlx::read_sections(t3) == seq!['>'] + rbxlx::read_sections(rest));
        assert(rbxlx::read_sections(t2) == rbxlx::read_sections(t3));
        assert(rbxlx::read_sections(t1) == seq![']'] + rbxlx::read_sections(t2));
        assert(rbxlx::read_sections(t) == seq![']'] + rbxlx::read_sections(t1));
        assert(seq![']'] + (seq![']'] + (seq!['>'] + v.skip(3))) =~= v);
        assert(after_sections(t3) == after_sections(rest));
        assert(after_sections(t2) == after_sections(t3));
        assert(after_sections(t1) == after_sections(t2));
        assert(after_sections(t) == after_sections(t1));
    } else {
        let w = v.skip(1);
        let rest = rbxlx::cdata(w) + ("]]>"@ + more);
        assert(v.drop_first() =~= w);
        rbxlx::lemma_not_ending(v);
        assert(t =~= seq![v[0]] + rest);
        assert(t.skip(1) =~= rest);
        lemma_sections(w, more);
        if rbxlx::ends_section(t) {
            lemma_starts_alike(w, more);
            assert(rest[0] == ']' && rest[1] == '>');
            assert(w.len() > 0 && !rbxlx::ends_section(w));
            let x = w.skip(1);
            assert(w.drop_first() =~= x);
            lemma_starts_alike(x, more);
            rbxlx::lemma_not_ending(w);
            assert(rest =~= seq![w[0]] + (rbxlx::cdata(x) + ("]]>"@ + more)));
            assert((rbxlx::cdata(x) + ("]]>"@ + more))[0] == '>');
            assert(x.len() > 0 && x[0] == '>');
            assert(rbxlx::ends_section(v));
        }
        assert(rbxlx::read_sections(t) =~= seq![v[0]] + rbxlx::read_sections(rest));
        assert(seq![v[0]] + w =~= v);
    }
}

proof fn lemma_starts_alike(v: Text, more: Text)
    ensures
        ({
            let t = rbxlx::cdata(v) + ("]]>"@ + more);
            &&& t.len() >= 2
            &&& v.len() > 0 && !rbxlx::ends_section(v) ==> t[0] == v[0]
            &&& v.len() == 0 || rbxlx::ends_section(v) ==> t[0] == ']' && t[1] == ']'
        }),
{
    rbxlx::lemma_cdata_start(v);
    let t = rbxlx::cdata(v) + ("]]>"@ + more);
    assert(t =~= (rbxlx::cdata(v) + "]]>"@) + more);
}

/// The line of a property.
spec fn line(depth: nat, field: Field) -> Text {
    if field.protected {
        rbxlx::protected_property(depth, field.name, field.value)
    } else {
        rbxlx::string_property(depth, field.name, field.value)
    }
}

/// The lines of properties.
spec fn lines(depth: nat, fields: Seq<Field>) -> Text
    decreases fields.len(),
{
    if fields.len() == 0 {
        text::blank()
    } else {
        line(depth, fields[0]) + lines(depth, fields.drop_first())
    }
}

proof fn lemma_indent(depth: nat)
    ensures
        forall|i: int| 0 <= i < rbxlx::indent(depth).len() ==> #[trigger] rbxlx::indent(depth)[i] == ' ',
{
}

proof fn lemma_escaped(s: Text)
    ensures
        rbxlx::unescape(rbxlx::escape(s)) == s,
        forall|i: int| 0 <= i < rbxlx::escape(s).len() ==> #[trigger] rbxlx::escape(s)[i] != '"',
        forall|i: int| 0 <= i < rbxlx::escape(s).len() ==> #[trigger] rbxlx::escape(s)[i] != '<',
{
    rbxlx::law_escape_reads_back(s);
    rbxlx::law_escape_holds_no_markup(s);
}

proof fn lemma_markup_first(t: Text)
    requires
        t.len() > 0,
        t[0] == '<',
    ensures
        skip_blank(t) == t,
{
}

/// A line with plain text is read as what was written.
proof fn lemma_read_plain(depth: nat, name: Text, value: Text, rest: Text)
    ensures
        read_field(rbxlx::string_property(depth, name, value) + rest) == Some(
            (Field { protected: false, name, value }, seq!['\n'] + rest),
        ),
        skip_blank(rbxlx::string_property(depth, name, value) + rest).len() > 0,
{
    reveal_strlit("<string name=\"");
    reveal_strlit("\">");
    reveal_strlit("</string>\n");
    reveal_strlit("</string>");
    let ind = rbxlx::indent(depth);
    let n = rbxlx::escape(name);
    let v = rbxlx::escape(value);
    let end = seq!['\n'] + rest;
    let d = "</string>"@ + end;
    let c = v + d;
    let b = "\">"@ + c;
    let a = n + b;
    let all = "<string name=\""@ + a;
    let t = rbxlx::string_property(depth, name, value) + rest;
    assert("</string>\n"@ + rest =~= d) by {
        assert("</string>\n"@ =~= "</string>"@ + seq!['\n']);
    }
    assert(t =~= ind + all) by {
        let x = ind + "<string name=\""@;
        assert(t =~= x + (n + ("\">"@ + (v + ("</string>\n"@ + rest)))));
    }
    lemma_indent(depth);
    lemma_skip_blank(ind, all);
    lemma_escaped(name);
    lemma_escaped(value);
    assert(all[0] == '<');
    lemma_markup_first(all);
    lemma_after("<string name=\""@, a);
    assert(b[0] == '"');
    lemma_up_to(n, '"', b);
    lemma_after("\">"@, c);
    assert(d[0] == '<');
    lemma_up_to(v, '<', d);
    lemma_after("</string>"@, end);
}

/// A line with source code is read as what was written.
proof fn lemma_read_protected(depth: nat, name: Text, value: Text, rest: Text)
    ensures
        read_field(rbxlx::protected_property(depth, name, value) + rest) == Some(
            (Field { protected: true, name, value }, seq!['\n'] + rest),
        ),
{
    reveal_strlit("<string name=\"");
    reveal_strlit("<ProtectedString name=\"");
    reveal_strlit("\"><![CDATA[");
    reveal_strlit("]]></ProtectedString>\n");
    reveal_strlit("]]>");
    reveal_strlit("</ProtectedString>");
    reveal_strlit("<![CDATA[");
    let ind = rbxlx::indent(depth);
    let n = rbxlx::escape(name);
    let v = rbxlx::cdata(value);
    let end = seq!['\n'] + rest;
    let e = "</ProtectedString>"@ + end;
    let d = "]]>"@ + e;
    let c = v + d;
    let b = "\"><![CDATA["@ + c;
    let a = n + b;
    let all = "<ProtectedString name=\""@ + a;
    let t = rbxlx::protected_property(depth, name, value) + rest;
    assert("]]></ProtectedString>\n"@ + rest =~= d) by {
        assert("]]></ProtectedString>\n"@ =~= "]]>"@ + ("</ProtectedString>"@ + seq!['\n']));
    }
    assert(t =~= ind + all) by {
        let x = ind + "<ProtectedString name=\""@;
        assert(t =~= x + (n + ("\"><![CDATA["@ + (v + ("]]></ProtectedString>\n"@ + rest)))));
    }
    lemma_indent(depth);
    lemma_skip_blank(ind, all);
    lemma_escaped(name);
    assert(all[0] == '<' && all[1] == 'P');
    lemma_markup_first(all);
    lemma_not_after(all, "<string name=\""@, 1);
    lemma_after("<ProtectedString name=\""@, a);
    assert(b[0] == '"');
    lemma_up_to(n, '"', b);
    lemma_after("\"><![CDATA["@, c);
    assert(e[0] == '<' && e[1] == '/');
    lemma_not_after(e, "<![CDATA["@, 1);
    lemma_sections(value, e);
    lemma_after("</ProtectedString>"@, end);
}

proof fn lemma_read_line(depth: nat, field: Field, rest: Text)
    ensures
        read_field(line(depth, field) + rest) == Some((field, seq!['\n'] + rest)),
        line(depth, field).len() > 1,
{
    reveal_strlit("<string name=\"");
    reveal_strlit("<ProtectedString name=\"");
    if field.protected {
        lemma_read_protected(depth, field.name, field.value, rest);
    } else {
        lemma_read_plain(depth, field.name, field.value, rest);
    }
}

proof fn lemma_blank_first(blank: Text, t: Text)
    requires
        forall|i: int| 0 <= i < blank.len() ==> #[trigger] blank[i] == ' ' || blank[i] == '\n',
    ensures
        read_field(blank + t) == read_field(t),
        read_opening(blank + t) == read_opening(t),
{
    lemma_skip_blank(blank, t);
}

/// Lines of properties are read as what was written.
proof fn lemma_read_lines(blank: Text, depth: nat, fields: Seq<Field>, tail: Text)
    requires
        forall|i: int| 0 <= i < blank.len() ==> #[trigger] blank[i] == ' ' || blank[i] == '\n',
        read_field(tail) is None,
    ensures
        read_fields(blank + (lines(depth, fields) + tail)).0 == fields,
        skip_blank(read_fields(blank + (lines(depth, fields) + tail)).1) == skip_blank(tail),
    decreases fields.len(),
{
    let t = blank + (lines(depth, fields) + tail);
    if fields.len() == 0 {
        assert(lines(depth, fields) + tail =~= tail);
        lemma_blank_first(blank, tail);
        lemma_skip_blank(blank, tail);
        assert(read_fields(t).0 =~= fields);
    } else {
        let others = fields.drop_first();
        let rest = lines(depth, others) + tail;
        let first = line(depth, fields[0]);
        assert(lines(depth, fields) + tail =~= first + rest);
        lemma_blank_first(blank, first + rest);
        lemma_read_line(depth, fields[0], rest);
        lemma_read_lines(seq!['\n'], depth, others, tail);
        assert((seq!['\n'] + rest).len() < t.len());
        assert(seq![fields[0]] + others =~= fields);
    }
}

/// The properties that an item of a node has.
spec fn fields_of(node: NodeView) -> Seq<Field> {
    seq![Field { protected: false, name: "Name"@, value: node.name }] + (match node.source {
        Some(source) => seq![Field { protected: true, name: "Source"@, value: source }],
        None => Seq::empty(),
    }) + (match node.run_context {
        Some(context) => seq![Field { protected: false, name: "RunContext"@, value: context }],
        None => Seq::empty(),
    }) + (match node.value {
        Some(value) => if vstd::utf8::valid_utf8(value) {
            seq![
                Field { protected: false, name: "Value"@, value: vstd::utf8::decode_utf8(value) },
            ]
        } else {
            Seq::empty()
        },
        None => Seq::empty(),
    })
}

proof fn lemma_lines_one(depth: nat, field: Field)
    ensures
        lines(depth, seq![field]) == line(depth, field),
{
    assert(seq![field].drop_first() =~= Seq::empty());
    assert(lines(depth, Seq::<Field>::empty()) == text::blank());
    assert(line(depth, field) + text::blank() =~= line(depth, field));
}

proof fn lemma_lines_joined(depth: nat, a: Seq<Field>, b: Seq<Field>)
    ensures
        lines(depth, a + b) == lines(depth, a) + lines(depth, b),
    decreases a.len(),
{
    if a.len() == 0 {
        assert(a + b =~= b);
        assert(text::blank() + lines(depth, b) =~= lines(depth, b));
    } else {
        assert((a + b).drop_first() =~= a.drop_first() + b);
        lemma_lines_joined(depth, a.drop_first(), b);
        let x = line(depth, a[0]);
        let y = lines(depth, a.drop_first());
        let z = lines(depth, b);
        assert(x + (y + z) =~= (x + y) + z);
    }
}

proof fn lemma_properties(node: NodeView, depth: nat)
    ensures
        rbxlx::properties_xml(node, depth) == lines(depth, fields_of(node)),
{
    let name = Field { protected: false, name: "Name"@, value: node.name };
    let a = seq![name];
    let b = match node.source {
        Some(source) => seq![Field { protected: true, name: "Source"@, value: source }],
        None => Seq::empty(),
    };
    let c = match node.run_context {
        Some(context) => seq![Field { protected: false, name: "RunContext"@, value: context }],
        None => Seq::empty(),
    };
    let d = match node.value {
        Some(value) => if vstd::utf8::valid_utf8(value) {
            seq![
                Field { protected: false, name: "Value"@, value: vstd::utf8::decode_utf8(value) },
            ]
        } else {
            Seq::empty()
        },
        None => Seq::empty(),
    };
    lemma_lines_joined(depth, a + b + c, d);
    lemma_lines_joined(depth, a + b, c);
    lemma_lines_joined(depth, a, b);
    lemma_lines_one(depth, name);
    if b.len() > 0 {
        lemma_lines_one(depth, b[0]);
        assert(b =~= seq![b[0]]);
    }
    if c.len() > 0 {
        lemma_lines_one(depth, c[0]);
        assert(c =~= seq![c[0]]);
    }
    if d.len() > 0 {
        lemma_lines_one(depth, d[0]);
        assert(d =~= seq![d[0]]);
    }
    assert(lines(depth, Seq::<Field>::empty()) == text::blank());
    assert(fields_of(node) == a + b + c + d);
}

proof fn lemma_fields(node: NodeView)
    ensures
        ({
            let fields = fields_of(node);
            &&& field_is(fields, "Name"@, false, Some(node.name))
            &&& field_is(fields, "Source"@, true, node.source)
            &&& field_is(fields, "RunContext"@, false, node.run_context)
            &&& field_is(
                fields,
                "Value"@,
                false,
                match node.value {
                    Some(bytes) => if vstd::utf8::valid_utf8(bytes) {
                        Some(vstd::utf8::decode_utf8(bytes))
                    } else {
                        None
                    },
                    None => None,
                },
            )
        }),
{
    reveal_strlit("Name");
    reveal_strlit("Source");
    reveal_strlit("RunContext");
    reveal_strlit("Value");
    assert("Name"@.len() == 4 && "Source"@.len() == 6 && "RunContext"@.len() == 10 && "Value"@.len()
        == 5);
    let fields = fields_of(node);
    assert(fields[0] == (Field { protected: false, name: "Name"@, value: node.name }));
    if let Some(source) = node.source {
        assert(fields[1] == (Field { protected: true, name: "Source"@, value: source }));
    }
    let s: int = if node.source is Some {
        1
    } else {
        0
    };
    if let Some(context) = node.run_context {
        assert(fields[1 + s] == (Field { protected: false, name: "RunContext"@, value: context }));
    }
    let c: int = if node.run_context is Some {
        1
    } else {
        0
    };
    if let Some(value) = node.value {
        if vstd::utf8::valid_utf8(value) {
            assert(fields[1 + s + c] == (Field {
                protected: false,
                name: "Value"@,
                value: vstd::utf8::decode_utf8(value),
            }));
        }
    }
}

// ---------------------------------------------------------------------------------------------
// Items
// ---------------------------------------------------------------------------------------------

proof fn lemma_decimal_digits(n: nat)
    ensures
        forall|i: int|
            0 <= i < text::decimal(n).len() ==> 48 <= (#[trigger] text::decimal(n)[i] as int) <= 57,
    decreases n,
{
    assert(text::digit_char(n % 10) as int == 48 + n % 10);
    if n >= 10 {
        lemma_decimal_digits(n / 10);
        let head = text::decimal(n / 10);
        assert forall|i: int| 0 <= i < text::decimal(n).len() implies 48 <= (
        #[trigger] text::decimal(n)[i] as int) <= 57 by {
            if i < head.len() {
                assert(text::decimal(n)[i] == head[i]);
            }
        }
    } else {
        assert(n % 10 == n);
    }
}

proof fn lemma_unescape_plain(s: Text)
    requires
        forall|i: int| 0 <= i < s.len() ==> #[trigger] s[i] != '&',
    ensures
        rbxlx::unescape(s) == s,
    decreases s.len(),
{
    if s.len() > 0 {
        assert forall|i: int| 0 <= i < s.skip(1).len() implies #[trigger] s.skip(1)[i] != '&' by {
            assert(s.skip(1)[i] == s[i + 1]);
        }
        lemma_unescape_plain(s.skip(1));
        assert(s[0] != '&');
        assert(seq![s[0]] + s.skip(1) =~= s);
    }
}

proof fn lemma_referent(number: nat)
    ensures
        rbxlx::unescape(rbxlx::referent(number)) == "RBX"@ + text::decimal(number),
        forall|i: int|
            0 <= i < rbxlx::referent(number).len() ==> #[trigger] rbxlx::referent(number)[i] != '"',
{
    reveal_strlit("RBX");
    lemma_decimal_digits(number);
    let r = rbxlx::referent(number);
    assert forall|i: int| 0 <= i < r.len() implies #[trigger] r[i] != '"' && r[i] != '&' by {
        if i >= 3 {
            assert(r[i] == text::decimal(number)[i - 3]);
        }
    }
    lemma_unescape_plain(r);
}

proof fn lemma_assoc(a: Text, b: Text, c: Text)
    ensures
        (a + b) + c == a + (b + c),
{
    assert((a + b) + c =~= a + (b + c));
}

proof fn lemma_opening_shape(node: NodeView, depth: nat, number: nat, rest: Text)
    ensures
        ({
            let ind = rbxlx::indent(depth);
            let wide = ind + seq![' ', ' '];
            let tail = wide + ("</Properties>"@ + (seq!['\n'] + rest));
            let inner = seq!['\n'] + (rbxlx::properties_xml(node, depth + 2) + tail);
            let gap = seq!['\n'] + wide;
            let d = "\">"@ + (gap + ("<Properties>"@ + inner));
            let c = rbxlx::referent(number) + d;
            let a = rbxlx::escape(node.class_name) + ("\" referent=\""@ + c);
            rbxlx::item_open(node, depth, number) + rest == ind + ("<Item class=\""@ + a)
        }),
{
    reveal_strlit("\">\n");
    reveal_strlit("\">");
    reveal_strlit("  <Properties>\n");
    reveal_strlit("<Properties>");
    reveal_strlit("  </Properties>\n");
    reveal_strlit("</Properties>");
    let ind = rbxlx::indent(depth);
    let two = seq![' ', ' '];
    let new = seq!['\n'];
    let wide = ind + two;
    let props = rbxlx::properties_xml(node, depth + 2);
    let class = rbxlx::escape(node.class_name);
    let name = rbxlx::referent(number);
    let tail = wide + ("</Properties>"@ + (new + rest));
    let inner = new + (props + tail);
    let gap = new + wide;
    let p1 = ind + "<Item class=\""@;
    let p2 = p1 + class;
    let p3 = p2 + "\" referent=\""@;
    let p4 = p3 + name;
    let p5 = p4 + "\">\n"@;
    let p6 = p5 + ind;
    let p7 = p6 + "  <Properties>\n"@;
    let p8 = p7 + props;
    let p9 = p8 + ind;
    let r9 = "  </Properties>\n"@ + rest;
    let r8 = ind + r9;
    let r7 = props + r8;
    let r6 = "  <Properties>\n"@ + r7;
    let r5 = ind + r6;
    let r4 = "\">\n"@ + r5;
    let r3 = name + r4;
    let r2 = "\" referent=\""@ + r3;
    let r1 = class + r2;
    lemma_assoc(p9, "  </Properties>\n"@, rest);
    lemma_assoc(p8, ind, r9);
    lemma_assoc(p7, props, r8);
    lemma_assoc(p6, "  <Properties>\n"@, r7);
    lemma_assoc(p5, ind, r6);
    lemma_assoc(p4, "\">\n"@, r5);
    lemma_assoc(p3, name, r4);
    lemma_assoc(p2, "\" referent=\""@, r3);
    lemma_assoc(p1, class, r2);
    lemma_assoc(ind, "<Item class=\""@, r1);
    assert("  </Properties>\n"@ =~= two + ("</Properties>"@ + new));
    assert("  <Properties>\n"@ =~= two + ("<Properties>"@ + new));
    assert("\">\n"@ =~= "\">"@ + new);
    assert(r8 == tail) by {
        lemma_assoc(two, "</Properties>"@ + new, rest);
        lemma_assoc("</Properties>"@, new, rest);
        lemma_assoc(ind, two, "</Properties>"@ + (new + rest));
    }
    assert(r5 == wide + ("<Properties>"@ + inner)) by {
        lemma_assoc(two, "<Properties>"@ + new, r7);
        lemma_assoc("<Properties>"@, new, r7);
        lemma_assoc(ind, two, "<Properties>"@ + inner);
    }
    assert(r4 == "\">"@ + (gap + ("<Properties>"@ + inner))) by {
        lemma_assoc("\">"@, new, r5);
        lemma_assoc(new, wide, "<Properties>"@ + inner);
    }
}

/// What stands before the items below a node is read as what was written.
#[verifier::rlimit(30)]
proof fn lemma_read_opening(node: NodeView, depth: nat, number: nat, rest: Text)
    ensures
        read_opening(rbxlx::item_open(node, depth, number) + rest) == Some(
            (
                Item {
                    class_name: node.class_name,
                    referent: "RBX"@ + text::decimal(number),
                    fields: fields_of(node),
                    items: Seq::empty(),
                },
                seq!['\n'] + rest,
            ),
        ),
        rbxlx::item_open(node, depth, number).len() > 1,
{
    reveal_strlit("<Item class=\"");
    reveal_strlit("\" referent=\"");
    reveal_strlit("\">\n");
    reveal_strlit("\">");
    reveal_strlit("  <Properties>\n");
    reveal_strlit("<Properties>");
    reveal_strlit("  </Properties>\n");
    reveal_strlit("</Properties>");
    reveal_strlit("<string name=\"");
    reveal_strlit("<ProtectedString name=\"");
    let ind = rbxlx::indent(depth);
    let class = rbxlx::escape(node.class_name);
    let name = rbxlx::referent(number);
    let props = rbxlx::properties_xml(node, depth + 2);
    let wide = ind + seq![' ', ' '];
    let end = seq!['\n'] + rest;
    let close = "</Properties>"@ + end;
    let tail = wide + close;
    let inner = seq!['\n'] + (props + tail);
    let open = "<Properties>"@ + inner;
    let gap = seq!['\n'] + wide;
    let d = "\">"@ + (gap + open);
    let c = name + d;
    let b = "\" referent=\""@ + c;
    let a = class + b;
    let all = "<Item class=\""@ + a;
    let t = rbxlx::item_open(node, depth, number) + rest;
    lemma_opening_shape(node, depth, number, rest);
    lemma_indent(depth);
    lemma_skip_blank(ind, all);
    assert(all[0] == '<');
    lemma_markup_first(all);
    lemma_after("<Item class=\""@, a);
    lemma_escaped(node.class_name);
    assert(b[0] == '"');
    lemma_up_to(class, '"', b);
    lemma_after("\" referent=\""@, c);
    lemma_referent(number);
    assert(d[0] == '"');
    lemma_up_to(name, '"', d);
    lemma_after("\">"@, gap + open);
    assert forall|i: int| 0 <= i < gap.len() implies #[trigger] gap[i] == ' ' || gap[i] == '\n' by {
        if 1 <= i < 1 + ind.len() {
            assert(gap[i] == ind[i - 1]);
        }
    }
    lemma_skip_blank(gap, open);
    assert(open[0] == '<');
    lemma_markup_first(open);
    lemma_after("<Properties>"@, inner);
    assert forall|i: int| 0 <= i < wide.len() implies #[trigger] wide[i] == ' ' || wide[i] == '\n' by {
        if i < ind.len() {
            assert(wide[i] == ind[i]);
        }
    }
    lemma_skip_blank(wide, close);
    assert(close[0] == '<' && close[1] == '/');
    lemma_markup_first(close);
    lemma_not_after(close, "<string name=\""@, 1);
    lemma_not_after(close, "<ProtectedString name=\""@, 1);
    assert(read_field(tail) is None);
    lemma_properties(node, depth + 2);
    lemma_read_lines(seq!['\n'], depth + 2, fields_of(node), tail);
    lemma_after("</Properties>"@, end);
}

proof fn lemma_count_front(nodes: Seq<NodeView>)
    requires
        nodes.len() > 0,
    ensures
        rbxlx::nodes_count(nodes) == rbxlx::node_count(nodes[0]) + rbxlx::nodes_count(
            nodes.drop_first(),
        ),
    decreases nodes.len(),
{
    if nodes.len() == 1 {
        assert(nodes.drop_last() =~= Seq::empty());
        assert(nodes.drop_first() =~= Seq::empty());
        assert(rbxlx::nodes_count(Seq::empty()) == 0);
    } else {
        assert(nodes.drop_last()[0] == nodes[0]);
        assert(nodes.drop_last().drop_first() =~= nodes.drop_first().drop_last());
        assert(nodes.drop_first().last() == nodes.last());
        lemma_count_front(nodes.drop_last());
    }
}

proof fn lemma_xml_front(nodes: Seq<NodeView>, depth: nat, before: nat)
    requires
        nodes.len() > 0,
    ensures
        rbxlx::nodes_xml(nodes, depth, before) == rbxlx::node_xml(nodes[0], depth, before)
            + rbxlx::nodes_xml(
            nodes.drop_first(),
            depth,
            before + rbxlx::node_count(nodes[0]),
        ),
    decreases nodes.len(),
{
    let init = nodes.drop_last();
    let others = nodes.drop_first();
    let first = rbxlx::node_xml(nodes[0], depth, before);
    if nodes.len() == 1 {
        assert(init =~= Seq::empty());
        assert(others =~= Seq::empty());
        assert(rbxlx::nodes_count(init) == 0);
        assert(rbxlx::nodes_xml(init, depth, before) == text::blank());
        assert(rbxlx::nodes_xml(
            others,
            depth,
            before + rbxlx::node_count(nodes[0]),
        ) == text::blank());
        assert(text::blank() + first =~= first + text::blank());
    } else {
        assert(init[0] == nodes[0]);
        assert(init.drop_first() =~= others.drop_last());
        assert(others.last() == nodes.last());
        lemma_xml_front(init, depth, before);
        lemma_count_front(init);
        let n = before + rbxlx::node_count(nodes[0]);
        let y = rbxlx::nodes_xml(others.drop_last(), depth, n);
        let z = rbxlx::node_xml(
            nodes.last(),
            depth,
            before + rbxlx::nodes_count(init),
        );
        assert(rbxlx::nodes_xml(others, depth, n) == y + z);
        assert((first + y) + z =~= first + (y + z));
    }
}

/// The item of a node is read as one that tells of the node.
proof fn lemma_read_node(blank: Text, node: NodeView, depth: nat, before: nat, rest: Text)
    requires
        forall|i: int| 0 <= i < blank.len() ==> #[trigger] blank[i] == ' ' || blank[i] == '\n',
    ensures
        read_item(blank + (rbxlx::node_xml(node, depth, before) + rest)) matches Some((item, end))
            && end == seq!['\n'] + rest && tells(item, node, before),
        rbxlx::node_xml(node, depth, before).len() > 1,
    decreases node, 1nat,
{
    reveal_strlit("</Item>\n");
    reveal_strlit("</Item>");
    reveal_strlit("<Item class=\"");
    let ind = rbxlx::indent(depth);
    let open = rbxlx::item_open(node, depth, before + 1);
    let below = rbxlx::nodes_xml(node.children, depth + 1, before + 1);
    let end = seq!['\n'] + rest;
    let close = "</Item>"@ + end;
    let tail = ind + close;
    let inner = below + tail;
    let t = rbxlx::node_xml(node, depth, before) + rest;
    assert("</Item>\n"@ =~= "</Item>"@ + seq!['\n']);
    assert(t =~= open + inner) by {
        assert(t =~= open + (below + (ind + ("</Item>\n"@ + rest))));
        assert("</Item>\n"@ + rest =~= close);
    }
    lemma_read_opening(node, depth, before + 1, inner);
    lemma_blank_first(blank, open + inner);
    lemma_indent(depth);
    lemma_skip_blank(ind, close);
    assert(close[0] == '<' && close[1] == '/');
    lemma_markup_first(close);
    lemma_not_after(close, "<Item class=\""@, 1);
    assert(read_opening(tail) is None);
    lemma_read_nodes(seq!['\n'], node.children, depth + 1, before + 1, tail);
    lemma_after("</Item>"@, end);
    let whole = blank + t;
    assert((seq!['\n'] + inner).len() < whole.len());
    lemma_fields(node);
    let (items, left) = read_items(seq!['\n'] + inner);
    let item = Item {
        class_name: node.class_name,
        referent: "RBX"@ + text::decimal(before + 1),
        fields: fields_of(node),
        items,
    };
    assert(skip_blank(left) == close);
    assert(read_item(whole) == Some((item, end)));
    assert(tells(item, node, before));
}

/// The items of nodes are read as ones that tell of the nodes.
proof fn lemma_read_nodes(blank: Text, nodes: Seq<NodeView>, depth: nat, before: nat, tail: Text)
    requires
        forall|i: int| 0 <= i < blank.len() ==> #[trigger] blank[i] == ' ' || blank[i] == '\n',
        read_opening(tail) is None,
    ensures
        ({
            let (items, end) = read_items(blank + (rbxlx::nodes_xml(nodes, depth, before) + tail));
            tell_all(items, nodes, before) && skip_blank(end) == skip_blank(tail)
        }),
    decreases nodes, 0nat,
{
    let t = blank + (rbxlx::nodes_xml(nodes, depth, before) + tail);
    if nodes.len() == 0 {
        assert(rbxlx::nodes_xml(nodes, depth, before) + tail =~= tail);
        lemma_blank_first(blank, tail);
        lemma_skip_blank(blank, tail);
        assert(read_item(t) is None);
    } else {
        let others = nodes.drop_first();
        let n = before + rbxlx::node_count(nodes[0]);
        let first = rbxlx::node_xml(nodes[0], depth, before);
        let rest = rbxlx::nodes_xml(others, depth, n) + tail;
        lemma_xml_front(nodes, depth, before);
        assert(rbxlx::nodes_xml(nodes, depth, before) + tail =~= first + rest);
        lemma_read_node(blank, nodes[0], depth, before, rest);
        lemma_read_nodes(seq!['\n'], others, depth, n, tail);
        assert((seq!['\n'] + rest).len() < t.len());
        let item = read_item(t)->Some_0.0;
        let (more, end) = read_items(seq!['\n'] + rest);
        let items = seq![item] + more;
        assert(read_items(t) == (items, end));
        assert forall|k: int| 0 <= k < nodes.len() implies tells(
            items[k],
            #[trigger] nodes[k],
            before + rbxlx::nodes_count(nodes.take(k)),
        ) by {
            if k == 0 {
                assert(nodes.take(0) =~= Seq::empty());
                assert(rbxlx::nodes_count(nodes.take(0)) == 0);
            } else {
                assert(nodes[k] == others[k - 1]);
                assert(items[k] == more[k - 1]);
                lemma_count_front(nodes.take(k));
                assert(nodes.take(k).drop_first() =~= others.take(k - 1));
                assert(nodes.take(k)[0] == nodes[0]);
            }
        }
    }
}

// ---------------------------------------------------------------------------------------------
// Laws
// ---------------------------------------------------------------------------------------------

proof fn lemma_read_document(nodes: Seq<NodeView>)
    ensures
        read_document(rbxlx::document(nodes)) matches Some(items) && tell_all(items, nodes, 0),
{
    reveal_strlit("</roblox>\n");
    reveal_strlit("</roblox>");
    reveal_strlit("<Item class=\"");
    let xml = rbxlx::nodes_xml(nodes, 1, 0);
    let end = "</roblox>"@ + seq!['\n'];
    let none = text::blank();
    let body = none + (xml + end);
    assert("</roblox>\n"@ =~= end);
    assert(rbxlx::document(nodes) =~= rbxlx::document_start() + body);
    lemma_after(rbxlx::document_start(), body);
    assert(end[0] == '<' && end[1] == '/');
    lemma_markup_first(end);
    lemma_not_after(end, "<Item class=\""@, 1);
    assert(read_opening(end) is None);
    lemma_read_nodes(none, nodes, 1, 0, end);
    lemma_after("</roblox>"@, seq!['\n']);
}

/// Whoever reads an exported place gets the instance tree of the project: one item for each node below
/// the data model and one for each service with its nodes below it, and in them everything that the
/// tree holds, the source code of every script among it.
pub proof fn law_places_read_back(files: Seq<FileView>)
    requires
        layout::layout_of(files) is Ok,
    ensures
        ({
            let mounts = layout::layout_of(files)->Ok_0;
            &&& rbxlx::place_of(files) is Ok
            &&& read_document(rbxlx::place_of(files)->Ok_0) is Some
            &&& place_told(read_document(rbxlx::place_of(files)->Ok_0)->Some_0, mounts)
        }),
{
    let mounts = layout::layout_of(files)->Ok_0;
    let nodes = rbxlx::place_nodes(mounts);
    lemma_read_document(nodes);
    let items = read_document(rbxlx::document(nodes))->Some_0;
    assert forall|i: int| 0 <= i < mounts.len() implies mount_told(items[i], #[trigger] mounts[i]) by {
        assert(nodes[i] == rbxlx::place_node(mounts[i]));
        lemma_mount_told(items[i], mounts[i], rbxlx::nodes_count(nodes.take(i)));
    }
}

proof fn lemma_mount_told(item: Item, mount: MountView, before: nat)
    requires
        tells(item, rbxlx::place_node(mount), before),
    ensures
        mount_told(item, mount),
{
    let node = rbxlx::place_node(mount);
    if let MountView::DataModelChild(top) = mount {
        assert(tells(item, top, before));
    }
    if let MountView::ServiceContents { service_name, children } = mount {
        assert(node.children == children && node.name == service_name);
        assert forall|k: int| 0 <= k < children.len() implies tells_somewhere(
            item.items[k],
            #[trigger] children[k],
        ) by {
            assert(tells(
                item.items[k],
                node.children[k],
                before + 1 + rbxlx::nodes_count(node.children.take(k)),
            ));
        }
    }
}

/// Whether an item tells of a node, whatever its number.
pub open spec fn tells_somewhere(item: Item, node: NodeView) -> bool {
    exists|before: nat| #[trigger] tells(item, node, before)
}

/// Whether an item of a place tells of what is mounted: of a node below the data model, or of a
/// service and of each node below it.
pub open spec fn mount_told(item: Item, mount: MountView) -> bool {
    match mount {
        MountView::DataModelChild(node) => tells_somewhere(item, node),
        MountView::ServiceContents { service_name, children } => {
            &&& item.class_name == service_name
            &&& field_is(item.fields, "Name"@, false, Some(service_name))
            &&& item.items.len() == children.len()
            &&& forall|k: int|
                0 <= k < children.len() ==> tells_somewhere(item.items[k], #[trigger] children[k])
        },
    }
}

/// Whether the items of a place tell of everything that is mounted, in its order.
pub open spec fn place_told(items: Seq<Item>, mounts: Seq<MountView>) -> bool {
    &&& items.len() == mounts.len()
    &&& forall|i: int| 0 <= i < mounts.len() ==> mount_told(items[i], #[trigger] mounts[i])
}

/// The nodes that stand at the top of a model: those below the data model and those directly below
/// services.
pub open spec fn top_nodes(mounts: Seq<MountView>) -> Seq<NodeView> {
    mounts.map_values(
        |mount: MountView|
            match mount {
                MountView::DataModelChild(node) => seq![node],
                MountView::ServiceContents { children, .. } => children,
            },
    ).flatten()
}

/// Whoever reads an exported model gets the nodes at the top of the instance tree of the project, and in
/// them everything that the tree holds.
pub proof fn law_models_read_back(files: Seq<FileView>)
    requires
        layout::layout_of(files) is Ok,
    ensures
        ({
            let mounts = layout::layout_of(files)->Ok_0;
            &&& rbxlx::model_of(files) is Ok
            &&& read_document(rbxlx::model_of(files)->Ok_0) matches Some(items) && tell_all(
                items,
                top_nodes(mounts),
                0,
            )
        }),
{
    let mounts = layout::layout_of(files)->Ok_0;
    lemma_model_nodes(mounts);
    lemma_read_document(rbxlx::model_nodes(mounts));
}

proof fn lemma_model_nodes(mounts: Seq<MountView>)
    ensures
        rbxlx::model_nodes(mounts) == top_nodes(mounts),
    decreases mounts.len(),
{
    let part = |mount: MountView|
        match mount {
            MountView::DataModelChild(node) => seq![node],
            MountView::ServiceContents { children, .. } => children,
        };
    let parts = mounts.map_values(part);
    if mounts.len() > 0 {
        let init = mounts.drop_last();
        lemma_model_nodes(init);
        assert(parts.drop_last() =~= init.map_values(part));
        Seq::lemma_flatten_push(parts.drop_last(), parts.last());
        assert(parts.drop_last().push(parts.last()) =~= parts);
        assert(parts.last() == rbxlx::model_part(mounts.last()));
    } else {
        assert(parts =~= Seq::empty());
    }
}

} // verus!
