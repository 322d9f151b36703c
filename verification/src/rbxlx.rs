//! Export of a project's instance tree to Roblox XML, as a place (`rbxlx`) or a model (`rbxmx`).

use vstd::prelude::*;
use vstd::string::*;

use crate::error::{self, Error};
use crate::layout::{self, make_container};
use crate::project::{
    self, FileView, LoadedProject, MountView, NodeView, ProjectLayout, ProjectMount,
    ProjectNode,
};
use crate::text::{self, Text, chars_of, concat2, decode_text, matches_at};

verus! {

// ---------------------------------------------------------------------------------------------
// Escaping
// ---------------------------------------------------------------------------------------------

/// How a character is written in XML text and attribute values.
pub open spec fn escape_char(c: char) -> Text {
    if c == '&' {
        "&amp;"@
    } else if c == '<' {
        "&lt;"@
    } else if c == '>' {
        "&gt;"@
    } else if c == '"' {
        "&quot;"@
    } else if c == '\'' {
        "&apos;"@
    } else {
        seq![c]
    }
}

/// How a text is written in XML text and attribute values.
pub open spec fn escape(s: Text) -> Text
    decreases s.len(),
{
    if s.len() == 0 {
        text::blank()
    } else {
        escape(s.drop_last()) + escape_char(s.last())
    }
}

/// How a text is written in XML text and attribute values.
pub fn xml_escape(value: &str) -> (r: String)
    ensures
        r@ == escape(value@),
{
    let chars = chars_of(value);
    let mut out = String::new();
    let mut i: usize = 0;
    while i < chars.len()
        invariant
            i <= chars@.len(),
            out@ == escape(chars@.take(i as int)),
        decreases chars@.len() - i,
    {
        let c = chars[i];
        let ghost before = out@;
        if c == '&' {
            out.append("&amp;");
        } else if c == '<' {
            out.append("&lt;");
        } else if c == '>' {
            out.append("&gt;");
        } else if c == '"' {
            out.append("&quot;");
        } else if c == '\'' {
            out.append("&apos;");
        } else {
            out.push(c);
            assert(before.push(c) =~= before + seq![c]);
        }
        i += 1;
        assert(chars@.take(i as int).drop_last() =~= chars@.take(i - 1));
    }
    assert(chars@.take(i as int) =~= value@);
    out
}

/// How a text is written inside a CDATA section: wherever it holds the end of a section, the
/// section is closed before the last character of that end and a new one begins.
pub open spec fn cdata(s: Text) -> Text
    decreases s.len(),
{
    if s.len() == 0 {
        text::blank()
    } else if text::begins_with(s, "]]>"@) && "]]>"@.len() > 0 {
        "]]]]><![CDATA[>"@ + cdata(s.skip("]]>"@.len() as int))
    } else {
        seq![s[0]] + cdata(s.drop_first())
    }
}

/// How a text is written inside a CDATA section.
pub fn escape_cdata(value: &str) -> (r: String)
    ensures
        r@ == cdata(value@),
{
    let chars = chars_of(value);
    let mark = chars_of("]]>");
    proof {
        reveal_strlit("]]>");
    }
    let total: usize = chars.len();
    let mut out = String::new();
    let mut i: usize = 0;
    assert(chars@.skip(0) =~= chars@);
    assert(out@ + cdata(chars@) =~= cdata(chars@));
    while i < total
        invariant
            total == chars@.len(),
            i <= chars@.len(),
            mark@ == "]]>"@,
            "]]>"@.len() == 3,
            cdata(chars@) == out@ + cdata(chars@.skip(i as int)),
        decreases chars@.len() - i,
    {
        let ghost rest = chars@.skip(i as int);
        let ghost before = out@;
        if matches_at(&chars, &mark, i) {
            assert(rest.subrange(0, 3) =~= chars@.subrange(i as int, i + 3));
            out.append("]]]]><![CDATA[>");
            i += 3;
            assert(rest.skip(3) =~= chars@.skip(i as int));
            assert(before + ("]]]]><![CDATA[>"@ + cdata(chars@.skip(i as int))) =~= out@ + cdata(
                chars@.skip(i as int),
            ));
        } else {
            proof {
                if text::begins_with(rest, "]]>"@) {
                    assert(chars@.subrange(i as int, i + 3) =~= rest.subrange(0, 3));
                }
            }
            out.push(chars[i]);
            i += 1;
            assert(rest.drop_first() =~= chars@.skip(i as int));
            assert(before + (seq![rest[0]] + cdata(chars@.skip(i as int))) =~= out@ + cdata(
                chars@.skip(i as int),
            ));
        }
    }
    assert(out@ + cdata(chars@.skip(i as int)) =~= out@);
    out
}

// ---------------------------------------------------------------------------------------------
// Referents
// ---------------------------------------------------------------------------------------------

/// The name under which the item with the given number is referred to.
pub open spec fn referent(number: nat) -> Text {
    "RBX"@ + text::decimal(number)
}

/// The number that decimal digits stand for, the lowest digit first.
pub open spec fn digits_value(digits: Seq<u8>) -> nat
    decreases digits.len(),
{
    if digits.len() == 0 {
        0
    } else {
        digits[0] as nat + 10 * digits_value(digits.drop_first())
    }
}

/// Whether the digits are decimal digits without a leading zero.
pub open spec fn digits_ok(digits: Seq<u8>) -> bool {
    &&& forall|i: int| 0 <= i < digits.len() ==> #[trigger] digits[i] < 10
    &&& digits.len() > 0 ==> digits.last() > 0
}

/// Hands out the names of items, counting from 1. The count is kept in decimal digits, the lowest
/// first, and has no upper bound.
pub struct ReferentAllocator {
    digits: Vec<u8>,
}

impl ReferentAllocator {
    /// How many names have been handed out.
    pub closed spec fn count(&self) -> nat {
        digits_value(self.digits@)
    }

    /// Whether the count is written properly.
    pub closed spec fn wf(&self) -> bool {
        digits_ok(self.digits@)
    }

    /// Nothing handed out yet.
    pub fn new() -> (r: ReferentAllocator)
        ensures
            r.wf(),
            r.count() == 0,
    {
        ReferentAllocator { digits: Vec::new() }
    }

    /// The next name.
    pub fn next(&mut self) -> (r: String)
        requires
            old(self).wf(),
        ensures
            final(self).wf(),
            final(self).count() == old(self).count() + 1,
            r@ == referent(final(self).count()),
    {
        let ghost start = self.digits@;
        let mut i: usize = 0;
        // The digits below `i` were nines and are zeros now.
        while i < self.digits.len() && self.digits[i] == 9
            invariant
                i <= self.digits@.len(),
                self.digits@.len() == start.len(),
                digits_ok(start),
                forall|k: int| 0 <= k < i ==> start[k] == 9 && self.digits@[k] == 0,
                forall|k: int| i <= k < start.len() ==> self.digits@[k] == start[k],
            decreases self.digits@.len() - i,
        {
            self.digits.set(i, 0);
            i += 1;
        }
        let ghost zeroed = self.digits@;
        assert(forall|k: int| 0 <= k < i ==> start[k] == 9 && zeroed[k] == 0);
        if i == self.digits.len() {
            self.digits.push(1);
        } else {
            let d: u8 = self.digits[i];
            assert(start[i as int] < 10);
            self.digits.set(i, d + 1);
        }
        proof {
            let digits = self.digits@;
            assert forall|k: int| 0 <= k < i implies start[k] == 9 && digits[k] == 0 by {
                assert(start[k] == 9 && zeroed[k] == 0);
                assert(digits[k] == zeroed[k]);
            }
            lemma_increment(start, digits, i as int);
            assert forall|k: int| 0 <= k < digits.len() implies #[trigger] digits[k] < 10 by {
                if i < k {
                    assert(digits[k] == start[k]);
                }
            }
            if i < start.len() - 1 {
                assert(digits.last() == start.last());
            }
            assert(digits_ok(digits));
            lemma_digits_decimal(self.digits@);
        }
        let mut out = "RBX".to_owned();
        let mut k: usize = self.digits.len();
        let ghost all = self.digits@;
        assert("RBX"@ + high_digits(all, all.len() as int) =~= "RBX"@);
        while k > 0
            invariant
                k <= self.digits@.len(),
                all == self.digits@,
                digits_ok(all),
                out@ == "RBX"@ + high_digits(all, k as int),
            decreases k,
        {
            k -= 1;
            assert(all[k as int] < 10);
            out.push((48 + self.digits[k]) as char);
            assert(out@ =~= "RBX"@ + high_digits(all, k as int));
        }
        out
    }
}

/// The characters of the digits from the highest down to the one at position `k`.
spec fn high_digits(digits: Seq<u8>, k: int) -> Text {
    Seq::new(
        (digits.len() - k) as nat,
        |i: int| text::digit_char(digits[digits.len() - 1 - i] as nat),
    )
}

proof fn lemma_increment(old_digits: Seq<u8>, new_digits: Seq<u8>, i: int)
    requires
        0 <= i <= old_digits.len(),
        forall|k: int| 0 <= k < i ==> old_digits[k] == 9 && new_digits[k] == 0,
        forall|k: int| i < k < old_digits.len() ==> new_digits[k] == old_digits[k],
        i < old_digits.len() ==> new_digits.len() == old_digits.len() && new_digits[i]
            == old_digits[i] + 1,
        i == old_digits.len() ==> new_digits.len() == old_digits.len() + 1 && new_digits[i] == 1,
    ensures
        digits_value(new_digits) == digits_value(old_digits) + 1,
    decreases i,
{
    reveal_with_fuel(digits_value, 2);
    if i == 0 {
        if old_digits.len() > 0 {
            assert(new_digits.drop_first() =~= old_digits.drop_first());
        } else {
            assert(new_digits.drop_first() =~= Seq::empty());
        }
    } else {
        let o = old_digits.drop_first();
        let n = new_digits.drop_first();
        assert forall|k: int| 0 <= k < i - 1 implies o[k] == 9 && n[k] == 0 by {
            assert(old_digits[k + 1] == 9 && new_digits[k + 1] == 0);
        }
        assert forall|k: int| i - 1 < k < o.len() implies n[k] == o[k] by {
            assert(new_digits[k + 1] == old_digits[k + 1]);
        }
        lemma_increment(o, n, i - 1);
        assert(old_digits[0] == 9 && new_digits[0] == 0);
    }
}

proof fn lemma_digits_positive(digits: Seq<u8>)
    requires
        digits_ok(digits),
        digits.len() > 0,
    ensures
        digits_value(digits) > 0,
    decreases digits.len(),
{
    if digits.len() > 1 {
        assert(digits.drop_first().last() == digits.last());
        assert forall|i: int| 0 <= i < digits.drop_first().len() implies #[trigger] digits.drop_first()[i]
            < 10 by {
            assert(digits[i + 1] < 10);
        }
        lemma_digits_positive(digits.drop_first());
    } else {
        assert(digits.last() == digits[0]);
    }
}

proof fn lemma_digits_decimal(digits: Seq<u8>)
    requires
        digits_ok(digits),
        digits.len() > 0,
    ensures
        text::decimal(digits_value(digits)) == high_digits(digits, 0),
    decreases digits.len(),
{
    let n = digits_value(digits);
    let rest = digits.drop_first();
    assert(digits[0] < 10);
    if digits.len() == 1 {
        assert(digits_value(rest) == 0);
        assert(text::decimal(n) =~= high_digits(digits, 0));
    } else {
        assert(rest.last() == digits.last());
        assert forall|i: int| 0 <= i < rest.len() implies #[trigger] rest[i] < 10 by {
            assert(digits[i + 1] < 10);
        }
        lemma_digits_positive(rest);
        lemma_digits_decimal(rest);
        assert(n / 10 == digits_value(rest));
        assert(n % 10 == digits[0]);
        assert(high_digits(digits, 0) =~= high_digits(rest, 0).push(text::digit_char(digits[0] as nat)));
    }
}

// ---------------------------------------------------------------------------------------------
// Items
// ---------------------------------------------------------------------------------------------

/// Two spaces for each level.
pub open spec fn indent(depth: nat) -> Text {
    Seq::new(2 * depth, |i: int| ' ')
}

/// A line with a property that holds plain text.
pub open spec fn string_property(depth: nat, name: Text, value: Text) -> Text {
    indent(depth) + "<string name=\""@ + escape(name) + "\">"@ + escape(value) + "</string>\n"@
}

/// A line with a property that holds source code.
pub open spec fn protected_property(depth: nat, name: Text, value: Text) -> Text {
    indent(depth) + "<ProtectedString name=\""@ + escape(name) + "\"><![CDATA["@ + cdata(value)
        + "]]></ProtectedString>\n"@
}

/// The properties of a node. A value is among them only where it is text.
pub open spec fn properties_xml(node: NodeView, depth: nat) -> Text {
    string_property(depth, "Name"@, node.name) + (match node.source {
        Some(source) => protected_property(depth, "Source"@, source),
        None => text::blank(),
    }) + (match node.run_context {
        Some(context) => string_property(depth, "RunContext"@, context),
        None => text::blank(),
    }) + (match node.value {
        Some(value) => if vstd::utf8::valid_utf8(value) {
            string_property(depth, "Value"@, vstd::utf8::decode_utf8(value))
        } else {
            text::blank()
        },
        None => text::blank(),
    })
}

/// How many nodes the tree below and including a node has.
pub open spec fn node_count(node: NodeView) -> nat
    decreases node, 1nat,
{
    1 + nodes_count(node.children)
}

/// How many nodes the given trees have.
pub open spec fn nodes_count(nodes: Seq<NodeView>) -> nat
    decreases nodes, 0nat,
{
    if nodes.len() == 0 {
        0
    } else {
        nodes_count(nodes.drop_last()) + node_count(nodes.last())
    }
}

/// What stands before the items below a node: the item's first line and the node's properties.
pub open spec fn item_open(node: NodeView, depth: nat, number: nat) -> Text {
    indent(depth) + "<Item class=\""@ + escape(node.class_name) + "\" referent=\""@ + referent(
        number,
    ) + "\">\n"@ + indent(depth) + "  <Properties>\n"@ + properties_xml(node, depth + 2) + indent(
        depth,
    ) + "  </Properties>\n"@
}

/// The item of a node with everything below it. Items are numbered in the order in which they
/// begin; `before` of them stand before this one.
pub open spec fn node_xml(node: NodeView, depth: nat, before: nat) -> Text
    decreases node, 1nat,
{
    item_open(node, depth, before + 1) + nodes_xml(node.children, depth + 1, before + 1) + indent(
        depth,
    ) + "</Item>\n"@
}

/// The items of the given nodes one after the other.
pub open spec fn nodes_xml(nodes: Seq<NodeView>, depth: nat, before: nat) -> Text
    decreases nodes, 0nat,
{
    if nodes.len() == 0 {
        text::blank()
    } else {
        nodes_xml(nodes.drop_last(), depth, before) + node_xml(
            nodes.last(),
            depth,
            before + nodes_count(nodes.drop_last()),
        )
    }
}

/// One level more.
fn deeper(indentation: &str, Ghost(depth): Ghost<nat>) -> (r: String)
    requires
        indentation@ == indent(depth),
    ensures
        r@ == indent(depth + 1),
{
    proof {
        reveal_strlit("  ");
    }
    let r = concat2(indentation, "  ");
    assert(r@ =~= indent(depth + 1));
    r
}

/// Writes a line with a property that holds plain text.
fn write_string_property(
    out: &mut String,
    indentation: &str,
    name: &str,
    value: &str,
    Ghost(depth): Ghost<nat>,
)
    requires
        indentation@ == indent(depth),
    ensures
        final(out)@ == old(out)@ + string_property(depth, name@, value@),
{
    let ghost before = out@;
    out.append(indentation);
    out.append("<string name=\"");
    out.append(xml_escape(name).as_str());
    out.append("\">");
    out.append(xml_escape(value).as_str());
    out.append("</string>\n");
    assert(out@ =~= before + string_property(depth, name@, value@));
}

/// Writes a line with a property that holds source code.
fn write_protected_string_property(
    out: &mut String,
    indentation: &str,
    name: &str,
    value: &str,
    Ghost(depth): Ghost<nat>,
)
    requires
        indentation@ == indent(depth),
    ensures
        final(out)@ == old(out)@ + protected_property(depth, name@, value@),
{
    let ghost before = out@;
    out.append(indentation);
    out.append("<ProtectedString name=\"");
    out.append(xml_escape(name).as_str());
    out.append("\"><![CDATA[");
    out.append(escape_cdata(value).as_str());
    out.append("]]></ProtectedString>\n");
    assert(out@ =~= before + protected_property(depth, name@, value@));
}

/// Writes the properties of a node.
fn write_properties(
    out: &mut String,
    node: &ProjectNode,
    indentation: &str,
    Ghost(depth): Ghost<nat>,
)
    requires
        indentation@ == indent(depth),
    ensures
        final(out)@ == old(out)@ + properties_xml(node@, depth),
{
    let ghost start = out@;
    write_string_property(out, indentation, "Name", node.name.as_str(), Ghost(depth));
    let ghost name_part = string_property(depth, "Name"@, node@.name);
    let ghost mut source_part = text::blank();
    if let Some(source) = &node.source {
        proof {
            source_part = protected_property(depth, "Source"@, source@);
        }
        write_protected_string_property(
            out,
            indentation,
            "Source",
            source.as_str(),
            Ghost(depth),
        );
    }
    assert(out@ =~= start + name_part + source_part);
    let ghost mut context_part = text::blank();
    if let Some(run_context) = &node.run_context {
        proof {
            context_part = string_property(depth, "RunContext"@, run_context@);
        }
        write_string_property(out, indentation, "RunContext", run_context.as_str(), Ghost(depth));
    }
    assert(out@ =~= start + name_part + source_part + context_part);
    let ghost mut value_part = text::blank();
    if let Some(value) = &node.value {
        if let Ok(value_text) = decode_text(value.as_slice()) {
            proof {
                value_part = string_property(depth, "Value"@, value_text@);
            }
            write_string_property(out, indentation, "Value", value_text.as_str(), Ghost(depth));
        }
    }
    assert(out@ =~= start + (name_part + source_part + context_part + value_part));
}

/// Writes what stands before the items below a node.
fn write_item_open(
    out: &mut String,
    node: &ProjectNode,
    indentation: &str,
    referent_name: &str,
    Ghost(depth): Ghost<nat>,
    Ghost(number): Ghost<nat>,
)
    requires
        indentation@ == indent(depth),
        referent_name@ == referent(number),
    ensures
        final(out)@ == old(out)@ + item_open(node@, depth, number),
{
    let ghost start = out@;
    let inner = deeper(indentation, Ghost(depth));
    let innermost = deeper(inner.as_str(), Ghost(depth + 1));
    let class = xml_escape(node.class_name.as_str());
    out.append(indentation);
    out.append("<Item class=\"");
    out.append(class.as_str());
    out.append("\" referent=\"");
    out.append(referent_name);
    out.append("\">\n");
    out.append(indentation);
    out.append("  <Properties>\n");
    let ghost opened = indent(depth) + "<Item class=\""@ + escape(node@.class_name)
        + "\" referent=\""@ + referent(number) + "\">\n"@ + indent(depth) + "  <Properties>\n"@;
    assert(out@ =~= start + opened);
    write_properties(out, node, innermost.as_str(), Ghost(depth + 2));
    out.append(indentation);
    out.append("  </Properties>\n");
    assert(out@ =~= start + (opened + properties_xml(node@, depth + 2) + indent(depth)
        + "  </Properties>\n"@));
}

/// Writes the item of a node with everything below it.
fn write_node(
    out: &mut String,
    node: &ProjectNode,
    indentation: &str,
    referents: &mut ReferentAllocator,
    Ghost(depth): Ghost<nat>,
)
    requires
        indentation@ == indent(depth),
        old(referents).wf(),
    ensures
        final(referents).wf(),
        final(referents).count() == old(referents).count() + node_count(node@),
        final(out)@ == old(out)@ + node_xml(node@, depth, old(referents).count()),
    decreases node,
{
    let ghost start = out@;
    let ghost before = referents.count();
    let inner = deeper(indentation, Ghost(depth));
    let name = referents.next();
    write_item_open(out, node, indentation, name.as_str(), Ghost(depth), Ghost(before + 1));
    let ghost head = item_open(node@, depth, before + 1);
    let ghost opened = out@;
    proof {
        project::lemma_node_children(*node);
    }
    let ghost kids = text::views(node.children@);
    let mut i: usize = 0;
    assert(kids.take(0) =~= Seq::empty());
    assert(opened + nodes_xml(kids.take(0), depth + 1, before + 1) =~= opened);
    while i < node.children.len()
        invariant
            i <= node.children@.len(),
            kids == text::views(node.children@),
            inner@ == indent(depth + 1),
            referents.wf(),
            referents.count() == before + 1 + nodes_count(kids.take(i as int)),
            out@ == opened + nodes_xml(kids.take(i as int), depth + 1, before + 1),
        decreases node.children@.len() - i,
    {
        let ghost done = nodes_xml(kids.take(i as int), depth + 1, before + 1);
        let ghost count = referents.count();
        assert(kids.take(i + 1).drop_last() =~= kids.take(i as int));
        assert(kids.take(i + 1).last() == node.children@[i as int]@);
        assert(decreases_to!(node => node.children@[i as int]));
        write_node(out, &node.children[i], inner.as_str(), referents, Ghost(depth + 1));
        assert(out@ =~= opened + (done + node_xml(node.children@[i as int]@, depth + 1, count)));
        i += 1;
    }
    assert(kids.take(i as int) =~= kids);
    out.append(indentation);
    out.append("</Item>\n");
    assert(out@ =~= start + (head + nodes_xml(kids, depth + 1, before + 1) + indent(depth)
        + "</Item>\n"@));
}

/// The items of more nodes follow those of the nodes before them.
pub proof fn lemma_nodes_xml_append(
    a: Seq<NodeView>,
    b: Seq<NodeView>,
    depth: nat,
    before: nat,
)
    ensures
        nodes_count(a + b) == nodes_count(a) + nodes_count(b),
        nodes_xml(a + b, depth, before) == nodes_xml(a, depth, before) + nodes_xml(
            b,
            depth,
            before + nodes_count(a),
        ),
    decreases b.len(),
{
    let first = nodes_xml(a, depth, before);
    if b.len() == 0 {
        assert(a + b =~= a);
        assert(first + nodes_xml(b, depth, before + nodes_count(a)) =~= first);
    } else {
        lemma_nodes_xml_append(a, b.drop_last(), depth, before);
        assert((a + b).drop_last() =~= a + b.drop_last());
        assert((a + b).last() == b.last());
        let second = nodes_xml(b.drop_last(), depth, before + nodes_count(a));
        let third = node_xml(b.last(), depth, before + nodes_count(a + b.drop_last()));
        assert(first + second + third =~= first + (second + third));
    }
}

/// Writes the items of the given nodes one after the other.
fn write_nodes(
    out: &mut String,
    nodes: &Vec<ProjectNode>,
    indentation: &str,
    referents: &mut ReferentAllocator,
    Ghost(depth): Ghost<nat>,
)
    requires
        indentation@ == indent(depth),
        old(referents).wf(),
    ensures
        final(referents).wf(),
        final(referents).count() == old(referents).count() + nodes_count(text::views(nodes@)),
        final(out)@ == old(out)@ + nodes_xml(text::views(nodes@), depth, old(referents).count()),
{
    let ghost start = out@;
    let ghost before = referents.count();
    let ghost all = text::views(nodes@);
    let mut i: usize = 0;
    assert(all.take(0) =~= Seq::empty());
    assert(start + nodes_xml(all.take(0), depth, before) =~= start);
    while i < nodes.len()
        invariant
            i <= nodes@.len(),
            all == text::views(nodes@),
            indentation@ == indent(depth),
            referents.wf(),
            referents.count() == before + nodes_count(all.take(i as int)),
            out@ == start + nodes_xml(all.take(i as int), depth, before),
        decreases nodes@.len() - i,
    {
        let ghost done = nodes_xml(all.take(i as int), depth, before);
        let ghost count = referents.count();
        assert(all.take(i + 1).drop_last() =~= all.take(i as int));
        assert(all.take(i + 1).last() == nodes@[i as int]@);
        write_node(out, &nodes[i], indentation, referents, Ghost(depth));
        assert(out@ =~= start + (done + node_xml(nodes@[i as int]@, depth, count)));
        i += 1;
    }
    assert(all.take(i as int) =~= all);
}

// ---------------------------------------------------------------------------------------------
// Documents
// ---------------------------------------------------------------------------------------------

/// The lines before the items of a document.
pub open spec fn document_start() -> Text {
    "<?xml version=\"1.0\" encoding=\"utf-8\"?>\n<roblox version=\"4\">\n  <External>null</External>\n  <External>null</External>\n"@
}

/// A document with the given items.
pub open spec fn document(nodes: Seq<NodeView>) -> Text {
    document_start() + nodes_xml(nodes, 1, 0) + "</roblox>\n"@
}

/// The item that a mount becomes in a place: the contents of a service stand below an item of the
/// service.
pub open spec fn place_node(mount: MountView) -> NodeView {
    match mount {
        MountView::DataModelChild(node) => node,
        MountView::ServiceContents { service_name, children } => layout::container_node(
            service_name,
            service_name,
            children,
        ),
    }
}

/// The items of a place.
pub open spec fn place_nodes(mounts: Seq<MountView>) -> Seq<NodeView> {
    mounts.map_values(|mount: MountView| place_node(mount))
}

/// The items that a mount becomes in a model: the contents of a service stand by themselves.
pub open spec fn model_part(mount: MountView) -> Seq<NodeView> {
    match mount {
        MountView::DataModelChild(node) => seq![node],
        MountView::ServiceContents { children, .. } => children,
    }
}

/// The items of a model.
pub open spec fn model_nodes(mounts: Seq<MountView>) -> Seq<NodeView>
    decreases mounts.len(),
{
    if mounts.len() == 0 {
        Seq::empty()
    } else {
        model_nodes(mounts.drop_last()) + model_part(mounts.last())
    }
}

proof fn lemma_nodes_xml_one(node: NodeView, depth: nat, before: nat)
    ensures
        nodes_xml(seq![node], depth, before) == node_xml(node, depth, before),
        nodes_count(seq![node]) == node_count(node),
{
    assert(seq![node].drop_last() =~= Seq::empty());
    reveal_with_fuel(nodes_xml, 2);
    reveal_with_fuel(nodes_count, 2);
    assert(nodes_xml(seq![node], depth, before) =~= node_xml(node, depth, before));
}

/// Writes the item that a mount becomes in a place.
fn write_place_mount(
    out: &mut String,
    mount: &ProjectMount,
    indentation: &str,
    referents: &mut ReferentAllocator,
    Ghost(depth): Ghost<nat>,
)
    requires
        indentation@ == indent(depth),
        old(referents).wf(),
    ensures
        final(referents).wf(),
        final(referents).count() == old(referents).count() + node_count(place_node(mount@)),
        final(out)@ == old(out)@ + node_xml(place_node(mount@), depth, old(referents).count()),
{
    match mount {
        ProjectMount::DataModelChild(node) => {
            write_node(out, node, indentation, referents, Ghost(depth));
        },
        ProjectMount::ServiceContents { service_name, children } => {
            let ghost start = out@;
            let ghost before = referents.count();
            let service = make_container(
                service_name.as_str(),
                service_name.as_str(),
                Vec::new(),
            );
            let name = referents.next();
            write_item_open(
                out,
                &service,
                indentation,
                name.as_str(),
                Ghost(depth),
                Ghost(before + 1),
            );
            let inner = deeper(indentation, Ghost(depth));
            write_nodes(out, children, inner.as_str(), referents, Ghost(depth + 1));
            out.append(indentation);
            out.append("</Item>\n");
            proof {
                let node = place_node(mount@);
                let head = item_open(node, depth, before + 1);
                assert(head == item_open(service@, depth, before + 1));
                assert(out@ =~= start + (head + nodes_xml(node.children, depth + 1, before + 1)
                    + indent(depth) + "</Item>\n"@));
            }
        },
    }
}

/// Writes the items that a mount becomes in a model.
fn write_model_mount(
    out: &mut String,
    mount: &ProjectMount,
    indentation: &str,
    referents: &mut ReferentAllocator,
    Ghost(depth): Ghost<nat>,
)
    requires
        indentation@ == indent(depth),
        old(referents).wf(),
    ensures
        final(referents).wf(),
        final(referents).count() == old(referents).count() + nodes_count(model_part(mount@)),
        final(out)@ == old(out)@ + nodes_xml(model_part(mount@), depth, old(referents).count()),
{
    match mount {
        ProjectMount::DataModelChild(node) => {
            proof {
                lemma_nodes_xml_one(node@, depth, referents.count());
            }
            write_node(out, node, indentation, referents, Ghost(depth));
        },
        ProjectMount::ServiceContents { service_name, children } => {
            write_nodes(out, children, indentation, referents, Ghost(depth));
        },
    }
}

/// The lines before the items of a document.
fn document_head() -> (r: String)
    ensures
        r@ == document_start(),
{
    "<?xml version=\"1.0\" encoding=\"utf-8\"?>\n<roblox version=\"4\">\n  <External>null</External>\n  <External>null</External>\n".to_owned()
}

/// Writes a layout as a place.
pub fn layout_to_rbxlx(layout: &ProjectLayout) -> (r: String)
    ensures
        r@ == document(place_nodes(layout@)),
{
    proof {
        reveal_strlit("  ");
        assert("  "@ =~= indent(1));
    }
    let mut out = document_head();
    let ghost head = out@;
    let ghost all = place_nodes(layout@);
    let mut referents = ReferentAllocator::new();
    let mut i: usize = 0;
    assert(all.take(0) =~= Seq::empty());
    assert(head + nodes_xml(all.take(0), 1, 0) =~= head);
    while i < layout.top_level.len()
        invariant
            i <= layout.top_level@.len(),
            all == place_nodes(layout@),
            "  "@ == indent(1),
            referents.wf(),
            referents.count() == nodes_count(all.take(i as int)),
            out@ == head + nodes_xml(all.take(i as int), 1, 0),
        decreases layout.top_level@.len() - i,
    {
        let ghost done = nodes_xml(all.take(i as int), 1, 0);
        let ghost count = referents.count();
        let ghost node = place_node(layout.top_level@[i as int]@);
        assert(all.take(i + 1).drop_last() =~= all.take(i as int));
        assert(all.take(i + 1).last() == node);
        write_place_mount(&mut out, &layout.top_level[i], "  ", &mut referents, Ghost(1));
        assert(out@ =~= head + (done + node_xml(node, 1, count)));
        i += 1;
    }
    assert(all.take(i as int) =~= all);
    out.append("</roblox>\n");
    out
}

/// Writes a layout as a model.
pub fn layout_to_rbxmx(layout: &ProjectLayout) -> (r: String)
    ensures
        r@ == document(model_nodes(layout@)),
{
    proof {
        reveal_strlit("  ");
        assert("  "@ =~= indent(1));
    }
    let mut out = document_head();
    let ghost head = out@;
    let ghost all = layout@;
    let mut referents = ReferentAllocator::new();
    let mut i: usize = 0;
    assert(all.take(0) =~= Seq::empty());
    assert(head + nodes_xml(model_nodes(all.take(0)), 1, 0) =~= head);
    while i < layout.top_level.len()
        invariant
            i <= layout.top_level@.len(),
            all == layout@,
            "  "@ == indent(1),
            referents.wf(),
            referents.count() == nodes_count(model_nodes(all.take(i as int))),
            out@ == head + nodes_xml(model_nodes(all.take(i as int)), 1, 0),
        decreases layout.top_level@.len() - i,
    {
        let ghost before = model_nodes(all.take(i as int));
        let ghost part = model_part(all[i as int]);
        assert(all.take(i + 1).drop_last() =~= all.take(i as int));
        proof {
            lemma_nodes_xml_append(before, part, 1, 0);
        }
        write_model_mount(&mut out, &layout.top_level[i], "  ", &mut referents, Ghost(1));
        assert(out@ =~= head + (nodes_xml(before, 1, 0) + nodes_xml(part, 1, nodes_count(before))));
        i += 1;
    }
    assert(all.take(i as int) =~= all);
    out.append("</roblox>\n");
    out
}

/// What a place export of the given files holds.
pub open spec fn place_of(files: Seq<FileView>) -> Result<Text, Text> {
    match layout::layout_of(files) {
        Ok(mounts) => Ok(document(place_nodes(mounts))),
        Err(message) => Err(message),
    }
}

/// What a model export of the given files holds.
pub open spec fn model_of(files: Seq<FileView>) -> Result<Text, Text> {
    match layout::layout_of(files) {
        Ok(mounts) => Ok(document(model_nodes(mounts))),
        Err(message) => Err(message),
    }
}

/// Writes a project as a place.
pub fn project_to_rbxlx(project: &LoadedProject) -> (r: Result<String, Error>)
    ensures
        error::res_view(r) == place_of(project@),
{
    match project.layout() {
        Ok(layout) => Ok(layout_to_rbxlx(&layout)),
        Err(error) => Err(error),
    }
}

/// Writes a project as a model.
pub fn project_to_rbxmx(project: &LoadedProject) -> (r: Result<String, Error>)
    ensures
        error::res_view(r) == model_of(project@),
{
    match project.layout() {
        Ok(layout) => Ok(layout_to_rbxmx(&layout)),
        Err(error) => Err(error),
    }
}

// ---------------------------------------------------------------------------------------------
// Laws
// ---------------------------------------------------------------------------------------------

/// What a reader of XML makes of text in which markup characters were replaced.
pub open spec fn unescape(s: Text) -> Text
    decreases s.len(),
{
    if s.len() == 0 {
        text::blank()
    } else if s[0] == '&' && s.len() >= 5 && s[1] == 'a' && s[2] == 'm' && s[3] == 'p' && s[4]
        == ';' {
        seq!['&'] + unescape(s.skip(5))
    } else if s[0] == '&' && s.len() >= 4 && s[1] == 'l' && s[2] == 't' && s[3] == ';' {
        seq!['<'] + unescape(s.skip(4))
    } else if s[0] == '&' && s.len() >= 4 && s[1] == 'g' && s[2] == 't' && s[3] == ';' {
        seq!['>'] + unescape(s.skip(4))
    } else if s[0] == '&' && s.len() >= 6 && s[1] == 'q' && s[2] == 'u' && s[3] == 'o' && s[4]
        == 't' && s[5] == ';' {
        seq!['"'] + unescape(s.skip(6))
    } else if s[0] == '&' && s.len() >= 6 && s[1] == 'a' && s[2] == 'p' && s[3] == 'o' && s[4]
        == 's' && s[5] == ';' {
        seq!['\''] + unescape(s.skip(6))
    } else {
        seq![s[0]] + unescape(s.skip(1))
    }
}

proof fn lemma_escape_first(s: Text)
    requires
        s.len() > 0,
    ensures
        escape(s) == escape_char(s[0]) + escape(s.skip(1)),
    decreases s.len(),
{
    if s.len() == 1 {
        assert(s.drop_last() =~= text::blank());
        assert(s.skip(1) =~= text::blank());
        assert(escape(s.drop_last()) + escape_char(s.last()) =~= escape_char(s[0]) + text::blank());
    } else {
        lemma_escape_first(s.drop_last());
        assert(s.drop_last().skip(1) =~= s.skip(1).drop_last());
        let a = escape_char(s[0]);
        let b = escape(s.skip(1).drop_last());
        let c = escape_char(s.last());
        assert(a + b + c =~= a + (b + c));
    }
}

/// A reader of XML gets back the text that was escaped.
pub proof fn law_escape_reads_back(s: Text)
    ensures
        unescape(escape(s)) == s,
    decreases s.len(),
{
    if s.len() > 0 {
        reveal_strlit("&amp;");
        reveal_strlit("&lt;");
        reveal_strlit("&gt;");
        reveal_strlit("&quot;");
        reveal_strlit("&apos;");
        lemma_escape_first(s);
        law_escape_reads_back(s.skip(1));
        let head = escape_char(s[0]);
        let rest = escape(s.skip(1));
        let all = head + rest;
        assert(all.skip(head.len() as int) =~= rest);
        assert(forall|i: int| 0 <= i < head.len() ==> all[i] == head[i]);
        assert(unescape(all) =~= seq![s[0]] + unescape(rest));
        assert(seq![s[0]] + s.skip(1) =~= s);
    }
}

/// Escaped text holds no character that would end the text or the attribute it stands in.
pub proof fn law_escape_holds_no_markup(s: Text)
    ensures
        forall|i: int|
            0 <= i < escape(s).len() ==> #[trigger] escape(s)[i] != '<' && escape(s)[i] != '>'
                && escape(s)[i] != '"' && escape(s)[i] != '\'',
    decreases s.len(),
{
    if s.len() > 0 {
        reveal_strlit("&amp;");
        reveal_strlit("&lt;");
        reveal_strlit("&gt;");
        reveal_strlit("&quot;");
        reveal_strlit("&apos;");
        law_escape_holds_no_markup(s.drop_last());
        let head = escape(s.drop_last());
        let tail = escape_char(s.last());
        assert(escape(s) == head + tail);
        assert forall|i: int| 0 <= i < escape(s).len() implies #[trigger] escape(s)[i] != '<'
            && escape(s)[i] != '>' && escape(s)[i] != '"' && escape(s)[i] != '\'' by {
            if i < head.len() {
                assert(escape(s)[i] == head[i]);
            } else {
                assert(escape(s)[i] == tail[i - head.len()]);
            }
        }
    }
}

/// Whether one of the five entities of XML stands at the start of a text.
pub open spec fn begins_entity(t: Text) -> bool {
    text::begins_with(t, "&amp;"@) || text::begins_with(t, "&lt;"@) || text::begins_with(t, "&gt;"@)
        || text::begins_with(t, "&quot;"@) || text::begins_with(t, "&apos;"@)
}

proof fn lemma_entity_stays(t: Text, more: Text)
    requires
        begins_entity(t),
    ensures
        begins_entity(t + more),
{
    let all = t + more;
    assert("&amp;"@.len() <= t.len() ==> all.subrange(0, "&amp;"@.len() as int) =~= t.subrange(
        0,
        "&amp;"@.len() as int,
    ));
    assert("&lt;"@.len() <= t.len() ==> all.subrange(0, "&lt;"@.len() as int) =~= t.subrange(
        0,
        "&lt;"@.len() as int,
    ));
    assert("&gt;"@.len() <= t.len() ==> all.subrange(0, "&gt;"@.len() as int) =~= t.subrange(
        0,
        "&gt;"@.len() as int,
    ));
    assert("&quot;"@.len() <= t.len() ==> all.subrange(0, "&quot;"@.len() as int) =~= t.subrange(
        0,
        "&quot;"@.len() as int,
    ));
    assert("&apos;"@.len() <= t.len() ==> all.subrange(0, "&apos;"@.len() as int) =~= t.subrange(
        0,
        "&apos;"@.len() as int,
    ));
}

/// Every ampersand in escaped text begins an entity.
pub proof fn law_ampersands_begin_entities(s: Text, i: int)
    requires
        0 <= i < escape(s).len(),
        escape(s)[i] == '&',
    ensures
        begins_entity(escape(s).skip(i)),
    decreases s.len(),
{
    reveal_strlit("&amp;");
    reveal_strlit("&lt;");
    reveal_strlit("&gt;");
    reveal_strlit("&quot;");
    reveal_strlit("&apos;");
    let head = escape(s.drop_last());
    let tail = escape_char(s.last());
    assert(escape(s) == head + tail);
    if i < head.len() {
        law_ampersands_begin_entities(s.drop_last(), i);
        lemma_entity_stays(head.skip(i), tail);
        assert(escape(s).skip(i) =~= head.skip(i) + tail);
    } else {
        assert(tail[i - head.len()] == '&');
        assert(escape(s).skip(i) =~= tail);
        assert(tail.subrange(0, tail.len() as int) =~= tail);
    }
}

/// Whether the end of a CDATA section stands at the start of a text.
pub open spec fn ends_section(t: Text) -> bool {
    t.len() >= 3 && t[0] == ']' && t[1] == ']' && t[2] == '>'
}

/// What a reader of XML gets from CDATA sections that follow each other directly, read from
/// inside the first one to the end of the last.
pub open spec fn read_sections(t: Text) -> Text
    decreases t.len(),
{
    if t.len() == 0 {
        text::blank()
    } else if ends_section(t) {
        if text::begins_with(t.skip(3), "<![CDATA["@) && "<![CDATA["@.len() > 0 {
            read_sections(t.skip(3int + "<![CDATA["@.len()))
        } else {
            text::blank()
        }
    } else {
        seq![t[0]] + read_sections(t.skip(1))
    }
}

/// How text in CDATA sections begins.
pub proof fn lemma_cdata_start(v: Text)
    ensures
        ({
            let t = cdata(v) + "]]>"@;
            &&& t.len() >= 2
            &&& v.len() > 0 && !ends_section(v) ==> t[0] == v[0]
            &&& v.len() == 0 || ends_section(v) ==> t[0] == ']' && t[1] == ']'
        }),
{
    reveal_strlit("]]>");
    reveal_strlit("]]]]><![CDATA[>");
    assert(text::begins_with(v, "]]>"@) == ends_section(v)) by {
        if ends_section(v) {
            assert(v.subrange(0, 3) =~= "]]>"@);
        } else if text::begins_with(v, "]]>"@) {
            assert(v.subrange(0, 3)[0] == v[0]);
            assert(v.subrange(0, 3)[1] == v[1]);
            assert(v.subrange(0, 3)[2] == v[2]);
        }
    }
    let t = cdata(v) + "]]>"@;
    if v.len() > 0 && !ends_section(v) {
        assert(cdata(v)[0] == v[0]);
    }
}

/// A reader of XML gets back the text that was written in CDATA sections.
pub proof fn law_cdata_reads_back(v: Text)
    ensures
        read_sections(cdata(v) + "]]>"@) == v,
    decreases v.len(),
{
    reveal_strlit("]]>");
    reveal_strlit("<![CDATA[");
    reveal_strlit("]]]]><![CDATA[>");
    let t = cdata(v) + "]]>"@;
    lemma_cdata_start(v);
    assert(text::begins_with(v, "]]>"@) == ends_section(v)) by {
        if ends_section(v) {
            assert(v.subrange(0, 3) =~= "]]>"@);
        } else if text::begins_with(v, "]]>"@) {
            assert(v.subrange(0, 3)[0] == v[0]);
            assert(v.subrange(0, 3)[1] == v[1]);
            assert(v.subrange(0, 3)[2] == v[2]);
        }
    }
    if v.len() == 0 {
        assert(t =~= "]]>"@);
        assert(t.skip(3) =~= text::blank());
        assert(read_sections(t) =~= v);
    } else if ends_section(v) {
        let rest = cdata(v.skip(3)) + "]]>"@;
        law_cdata_reads_back(v.skip(3));
        assert(t =~= "]]]]><![CDATA[>"@ + rest);
        let t1 = t.skip(1);
        let t2 = t1.skip(1);
        let t3 = t2.skip(3int + "<![CDATA["@.len());
        assert(t2.skip(3).subrange(0, 9) =~= "<![CDATA["@);
        assert(t3[0] == '>');
        assert(t3.skip(1) =~= rest);
        assert(read_sections(t3) == seq!['>'] + read_sections(rest));
        assert(read_sections(t2) == read_sections(t3));
        assert(read_sections(t1) == seq![']'] + read_sections(t2));
        assert(read_sections(t) == seq![']'] + read_sections(t1));
        assert(seq![']'] + (seq![']'] + (seq!['>'] + v.skip(3))) =~= v);
    } else {
        let w = v.skip(1);
        let rest = cdata(w) + "]]>"@;
        assert(v.drop_first() =~= w);
        assert(t =~= seq![v[0]] + rest);
        assert(t.skip(1) =~= rest);
        law_cdata_reads_back(w);
        if ends_section(t) {
            lemma_cdata_start(w);
            assert(rest[0] == ']' && rest[1] == '>');
            assert(w.len() > 0 && !ends_section(w));
            let x = w.skip(1);
            assert(w.drop_first() =~= x);
            lemma_cdata_start(x);
            lemma_not_ending(w);
            assert(rest =~= seq![w[0]] + (cdata(x) + "]]>"@));
            assert((cdata(x) + "]]>"@)[0] == '>');
            assert(x.len() > 0 && x[0] == '>');
            assert(ends_section(v));
        }
        assert(read_sections(t) =~= seq![v[0]] + read_sections(rest));
        assert(seq![v[0]] + w =~= v);
    }
}

/// Where the end of a section does not stand at the start of a text, its first character is kept.
pub proof fn lemma_not_ending(w: Text)
    requires
        w.len() > 0,
        !ends_section(w),
    ensures
        cdata(w) == seq![w[0]] + cdata(w.drop_first()),
{
    reveal_strlit("]]>");
    if text::begins_with(w, "]]>"@) {
        assert(w.subrange(0, 3)[0] == w[0]);
        assert(w.subrange(0, 3)[1] == w[1]);
        assert(w.subrange(0, 3)[2] == w[2]);
    }
}

/// Two items of a document never go by the same name.
pub proof fn law_referents_distinct(a: nat, b: nat)
    requires
        a != b,
    ensures
        referent(a) != referent(b),
{
    if referent(a) == referent(b) {
        reveal_strlit("RBX");
        assert(referent(a).skip(3) =~= text::decimal(a));
        assert(referent(b).skip(3) =~= text::decimal(b));
        text::lemma_decimal_injective(a, b);
    }
}

} // verus!
