//! What scripts print: values and tables as text, and lines with the time and the place they come
//! from.

use vstd::prelude::*;
use vstd::string::*;

use crate::error::Error;
use crate::math::Number;
use crate::rbxlx;
use crate::text::{self, Text, after_prefix, before_suffix, concat2, concat3, decimal_text, joined};

verus! {

// ---------------------------------------------------------------------------------------------
// Values
// ---------------------------------------------------------------------------------------------

/// A value that is shown by what it is alone.
#[derive(Clone, Copy, Debug, PartialEq, Eq, Structural)]
pub enum OpaqueKind {
    UserData,
    Function,
    Thread,
    LightUserData,
    Buffer,
    Other,
}

/// A value that is shown on the console. A table is given by its position in a list of tables,
/// since tables may hold each other. Numbers that are no integers come as they are shown.
#[derive(Debug)]
pub enum ConsoleValue {
    Nil,
    Boolean(bool),
    Integer(i64),
    Number(String),
    Text(String),
    Table(usize),
    Opaque(OpaqueKind),
    Error(String),
    Vector(String, String, String),
}

/// The content of a [`ConsoleValue`].
#[verifier::ext_equal]
pub enum ConsoleView {
    Nil,
    Boolean(bool),
    Integer(i64),
    Number(Text),
    Text(Text),
    Table(usize),
    Opaque(OpaqueKind),
    Error(Text),
    Vector(Text, Text, Text),
}

impl View for ConsoleValue {
    type V = ConsoleView;

    open spec fn view(&self) -> ConsoleView {
        match self {
            ConsoleValue::Nil => ConsoleView::Nil,
            ConsoleValue::Boolean(b) => ConsoleView::Boolean(*b),
            ConsoleValue::Integer(i) => ConsoleView::Integer(*i),
            ConsoleValue::Number(s) => ConsoleView::Number(s@),
            ConsoleValue::Text(s) => ConsoleView::Text(s@),
            ConsoleValue::Table(t) => ConsoleView::Table(*t),
            ConsoleValue::Opaque(kind) => ConsoleView::Opaque(*kind),
            ConsoleValue::Error(s) => ConsoleView::Error(s@),
            ConsoleValue::Vector(x, y, z) => ConsoleView::Vector(x@, y@, z@),
        }
    }
}

/// An entry of a table.
#[derive(Debug)]
pub enum ConsoleEntry {
    Pair(ConsoleValue, ConsoleValue),
    /// An entry that could not be read, with what went wrong.
    Error(String),
}

/// The content of a [`ConsoleEntry`].
#[verifier::ext_equal]
pub enum ConsoleEntryView {
    Pair(ConsoleView, ConsoleView),
    Error(Text),
}

impl View for ConsoleEntry {
    type V = ConsoleEntryView;

    open spec fn view(&self) -> ConsoleEntryView {
        match self {
            ConsoleEntry::Pair(key, value) => ConsoleEntryView::Pair(key@, value@),
            ConsoleEntry::Error(s) => ConsoleEntryView::Error(s@),
        }
    }
}

/// A table.
#[derive(Debug)]
pub struct ConsoleTable {
    pub entries: Vec<ConsoleEntry>,
}

impl View for ConsoleTable {
    type V = Seq<ConsoleEntryView>;

    open spec fn view(&self) -> Seq<ConsoleEntryView> {
        text::views(self.entries@)
    }
}

/// Whether a value speaks of the first `n` tables only.
pub open spec fn known_value(value: ConsoleView, n: nat) -> bool {
    value matches ConsoleView::Table(t) ==> t < n
}

/// Whether the tables speak of each other only.
pub open spec fn tables_wf(tables: Seq<Seq<ConsoleEntryView>>) -> bool {
    forall|t: int, k: int|
        0 <= t < tables.len() && 0 <= k < tables[t].len() ==> (#[trigger] tables[t][k] matches
            ConsoleEntryView::Pair(key, value) ==> known_value(key, tables.len()) && known_value(
            value,
            tables.len(),
        ))
}

/// The decimal notation of an integer.
pub open spec fn integer_text(i: int) -> Text {
    if i < 0 {
        seq!['-'] + text::decimal((-i) as nat)
    } else {
        text::decimal(i as nat)
    }
}

/// How a value that is shown by what it is alone is shown.
pub open spec fn opaque_text(kind: OpaqueKind) -> Text {
    match kind {
        OpaqueKind::UserData => "<userdata>"@,
        OpaqueKind::Function => "<function>"@,
        OpaqueKind::Thread => "<thread>"@,
        OpaqueKind::LightUserData => "<lightuserdata>"@,
        OpaqueKind::Buffer => "<buffer>"@,
        OpaqueKind::Other => "<other>"@,
    }
}

/// How a value is shown at the given depth, inside the tables that are open.
pub open spec fn value_text(
    tables: Seq<Seq<ConsoleEntryView>>,
    value: ConsoleView,
    depth: nat,
    open: Seq<usize>,
) -> Text
    decreases tables.len() - open.len(), 3nat, 0nat,
{
    match value {
        ConsoleView::Nil => "nil"@,
        ConsoleView::Boolean(b) => if b {
            "true"@
        } else {
            "false"@
        },
        ConsoleView::Integer(i) => integer_text(i as int),
        ConsoleView::Number(s) => s,
        ConsoleView::Text(s) => s,
        ConsoleView::Table(t) => table_text(tables, t, depth, open),
        ConsoleView::Opaque(kind) => opaque_text(kind),
        ConsoleView::Error(s) => s,
        ConsoleView::Vector(x, y, z) => "Vector("@ + x + ", "@ + y + ", "@ + z + ")"@,
    }
}

/// How a table is shown: an entry on each line, or a mark where the table is open already.
pub open spec fn table_text(
    tables: Seq<Seq<ConsoleEntryView>>,
    t: usize,
    depth: nat,
    open: Seq<usize>,
) -> Text
    decreases tables.len() - open.len(), 2nat, 0nat,
{
    if open.contains(t) || open.len() >= tables.len() {
        "{<cycle>}"@
    } else if tables[t as int].len() == 0 {
        "{}"@
    } else {
        "{\n"@ + text::join(entry_lines(tables, tables[t as int], depth, open.push(t)), ",\n"@) + "\n"@
            + rbxlx::indent(depth) + "}"@
    }
}

/// The lines of the entries of a table at the given depth.
pub open spec fn entry_lines(
    tables: Seq<Seq<ConsoleEntryView>>,
    entries: Seq<ConsoleEntryView>,
    depth: nat,
    open: Seq<usize>,
) -> Seq<Text>
    decreases tables.len() - open.len(), 5nat, entries.len(),
{
    if entries.len() == 0 {
        Seq::empty()
    } else {
        entry_lines(tables, entries.drop_last(), depth, open).push(
            entry_line(tables, entries.last(), depth, open),
        )
    }
}

/// The line of an entry.
pub open spec fn entry_line(
    tables: Seq<Seq<ConsoleEntryView>>,
    entry: ConsoleEntryView,
    depth: nat,
    open: Seq<usize>,
) -> Text
    decreases tables.len() - open.len(), 4nat, 1nat,
{
    match entry {
        ConsoleEntryView::Pair(key, value) => rbxlx::indent(depth + 1) + key_text(
            tables,
            key,
            depth + 1,
            open,
        ) + " = "@ + value_text(tables, value, depth + 1, open),
        ConsoleEntryView::Error(s) => rbxlx::indent(depth + 1) + "<error> = "@ + s,
    }
}

/// How a key is shown.
pub open spec fn key_text(
    tables: Seq<Seq<ConsoleEntryView>>,
    key: ConsoleView,
    depth: nat,
    open: Seq<usize>,
) -> Text
    decreases tables.len() - open.len(), 4nat, 0nat,
{
    match key {
        ConsoleView::Text(s) => "[\""@ + s + "\"]"@,
        _ => "["@ + value_text(tables, key, depth, open) + "]"@,
    }
}

/// The decimal notation of an integer.
pub fn integer_to_text(i: i64) -> (r: String)
    ensures
        r@ == integer_text(i as int),
{
    if i < 0 {
        let below: u64 = (-(i + 1)) as u64;
        let digits = decimal_text(below + 1);
        let mut out = String::new();
        out.push('-');
        out.append(digits.as_str());
        assert(out@ =~= integer_text(i as int));
        out
    } else {
        decimal_text(i as u64)
    }
}

/// How a value that is shown by what it is alone is shown.
fn opaque_to_text(kind: OpaqueKind) -> (r: &'static str)
    ensures
        r@ == opaque_text(kind),
{
    match kind {
        OpaqueKind::UserData => "<userdata>",
        OpaqueKind::Function => "<function>",
        OpaqueKind::Thread => "<thread>",
        OpaqueKind::LightUserData => "<lightuserdata>",
        OpaqueKind::Buffer => "<buffer>",
        OpaqueKind::Other => "<other>",
    }
}

/// There are always fewer tables open than there are tables where another one can be opened.
proof fn lemma_room(open: Seq<usize>, t: usize, n: nat)
    requires
        open.no_duplicates(),
        forall|k: int| 0 <= k < open.len() ==> #[trigger] open[k] < n,
        t < n,
        !open.contains(t),
    ensures
        open.len() < n,
{
    let all = open.push(t);
    let numbers = all.map_values(|x: usize| x as int);
    assert forall|i: int, j: int| 0 <= i < numbers.len() && 0 <= j < numbers.len() && i
        != j implies numbers[i] != numbers[j] by {
        if i < open.len() && j < open.len() {
            assert(open[i] != open[j]);
        } else if i < open.len() {
            assert(open.contains(open[i]));
        } else {
            assert(open.contains(open[j]));
        }
    }
    assert(numbers.no_duplicates());
    numbers.unique_seq_to_set();
    let range = vstd::set_lib::set_int_range(0, n as int);
    vstd::set_lib::lemma_int_range(0, n as int);
    assert(numbers.to_set().subset_of(range)) by {
        assert forall|x: int| numbers.to_set().contains(x) implies range.contains(x) by {
            assert(numbers.contains(x));
            let k = choose|k: int| 0 <= k < numbers.len() && numbers[k] == x;
            assert(numbers[k] == all[k] as int);
            if k < open.len() {
                assert(open[k] < n);
            }
        }
    }
    vstd::set_lib::lemma_len_subset(numbers.to_set(), range);
}

/// Whether the open tables are tables, each open once.
spec fn opened(open: Seq<usize>, n: nat) -> bool {
    open.no_duplicates() && forall|k: int| 0 <= k < open.len() ==> #[trigger] open[k] < n
}

fn is_open(open: &Vec<usize>, t: usize) -> (r: bool)
    ensures
        r == open@.contains(t),
{
    let mut i: usize = 0;
    while i < open.len()
        invariant
            i <= open@.len(),
            forall|k: int| 0 <= k < i ==> open@[k] != t,
        decreases open@.len() - i,
    {
        if open[i] == t {
            return true;
        }
        i += 1;
    }
    false
}

/// How a value is shown at the depth of the given indentation, inside the tables that are open.
fn value_to_console_string_inner(
    tables: &Vec<ConsoleTable>,
    value: &ConsoleValue,
    indentation: &str,
    open: &mut Vec<usize>,
    Ghost(depth): Ghost<nat>,
) -> (r: String)
    requires
        tables_wf(text::views(tables@)),
        known_value(value@, tables@.len()),
        opened(old(open)@, tables@.len()),
        indentation@ == rbxlx::indent(depth),
    ensures
        final(open)@ == old(open)@,
        r@ == value_text(text::views(tables@), value@, depth, old(open)@),
    decreases tables@.len() - old(open)@.len(), 3nat,
{
    match value {
        ConsoleValue::Nil => "nil".to_owned(),
        ConsoleValue::Boolean(b) => if *b {
            "true".to_owned()
        } else {
            "false".to_owned()
        },
        ConsoleValue::Integer(i) => integer_to_text(*i),
        ConsoleValue::Number(s) => s.as_str().to_owned(),
        ConsoleValue::Text(s) => s.as_str().to_owned(),
        ConsoleValue::Table(t) => format_table_for_console(
            tables,
            *t,
            indentation,
            open,
            Ghost(depth),
        ),
        ConsoleValue::Opaque(kind) => opaque_to_text(*kind).to_owned(),
        ConsoleValue::Error(s) => s.as_str().to_owned(),
        ConsoleValue::Vector(x, y, z) => {
            let mut out = concat3("Vector(", x.as_str(), ", ");
            out.append(y.as_str());
            out.append(", ");
            out.append(z.as_str());
            out.append(")");
            out
        },
    }
}

/// How a table is shown: an entry on each line, or a mark where the table is open already.
fn format_table_for_console(
    tables: &Vec<ConsoleTable>,
    t: usize,
    indentation: &str,
    open: &mut Vec<usize>,
    Ghost(depth): Ghost<nat>,
) -> (r: String)
    requires
        tables_wf(text::views(tables@)),
        t < tables@.len(),
        opened(old(open)@, tables@.len()),
        indentation@ == rbxlx::indent(depth),
    ensures
        final(open)@ == old(open)@,
        r@ == table_text(text::views(tables@), t, depth, old(open)@),
    decreases tables@.len() - old(open)@.len(), 2nat,
{
    let ghost all = text::views(tables@);
    let ghost before = open@;
    if is_open(open, t) {
        return "{<cycle>}".to_owned();
    }
    proof {
        lemma_room(before, t, tables@.len());
        reveal_strlit("  ");
    }
    let child_indentation = concat2(indentation, "  ");
    assert(child_indentation@ =~= rbxlx::indent(depth + 1));
    open.push(t);
    let ghost inner = open@;
    proof {
        assert(inner == before.push(t));
        assert forall|i: int, j: int| 0 <= i < inner.len() && 0 <= j < inner.len() && i
            != j implies inner[i] != inner[j] by {
            if i < before.len() && j < before.len() {
                assert(before[i] != before[j]);
            } else if i < before.len() {
                assert(before.contains(before[i]));
            } else {
                assert(before.contains(before[j]));
            }
        }
        assert forall|k: int| 0 <= k < inner.len() implies #[trigger] inner[k]
            < tables@.len() by {
            if k < before.len() {
                assert(inner[k] == before[k]);
            }
        }
    }
    let entries = &tables[t].entries;
    let ghost list = all[t as int];
    assert(list == text::views(entries@));
    let mut lines: Vec<String> = Vec::new();
    let mut i: usize = 0;
    assert(list.take(0) =~= Seq::empty());
    assert(text::views(lines@) =~= Seq::empty());
    while i < entries.len()
        invariant
            i <= entries@.len(),
            t < tables@.len(),
            all == text::views(tables@),
            tables_wf(all),
            list == text::views(entries@),
            list == all[t as int],
            before == old(open)@,
            open@ == inner,
            opened(inner, tables@.len()),
            inner.len() == before.len() + 1,
            before.len() < tables@.len(),
            child_indentation@ == rbxlx::indent(depth + 1),
            text::views(lines@) == entry_lines(all, list.take(i as int), depth, inner),
        decreases entries@.len() - i,
    {
        let ghost entry = list[i as int];
        assert(all[t as int][i as int] == entries@[i as int]@);
        let mut line = child_indentation.as_str().to_owned();
        match &entries[i] {
            ConsoleEntry::Pair(key, value) => {
                let key_string = format_console_key(
                    tables,
                    key,
                    child_indentation.as_str(),
                    open,
                    Ghost(depth + 1),
                );
                let value_string = value_to_console_string_inner(
                    tables,
                    value,
                    child_indentation.as_str(),
                    open,
                    Ghost(depth + 1),
                );
                line.append(key_string.as_str());
                line.append(" = ");
                line.append(value_string.as_str());
            },
            ConsoleEntry::Error(error) => {
                line.append("<error> = ");
                line.append(error.as_str());
            },
        }
        proof {
            assert(line@ == entry_line(all, entry, depth, inner));
            text::lemma_views_push(lines@, line);
            assert(list.take(i + 1).drop_last() =~= list.take(i as int));
            assert(list.take(i + 1).last() == entry);
        }
        lines.push(line);
        i += 1;
    }
    assert(list.take(i as int) =~= list);
    let _ = open.pop();
    assert(open@ =~= before);
    if lines.len() == 0 {
        proof {
            lemma_line_count(all, list, depth, inner);
        }
        "{}".to_owned()
    } else {
        proof {
            lemma_line_count(all, list, depth, inner);
        }
        let mut out = "{\n".to_owned();
        out.append(joined(&lines, ",\n").as_str());
        out.append("\n");
        out.append(indentation);
        out.append("}");
        out
    }
}

proof fn lemma_line_count(
    tables: Seq<Seq<ConsoleEntryView>>,
    entries: Seq<ConsoleEntryView>,
    depth: nat,
    open: Seq<usize>,
)
    ensures
        entry_lines(tables, entries, depth, open).len() == entries.len(),
    decreases entries.len(),
{
    if entries.len() > 0 {
        lemma_line_count(tables, entries.drop_last(), depth, open);
    }
}

/// How a key is shown.
fn format_console_key(
    tables: &Vec<ConsoleTable>,
    key: &ConsoleValue,
    indentation: &str,
    open: &mut Vec<usize>,
    Ghost(depth): Ghost<nat>,
) -> (r: String)
    requires
        tables_wf(text::views(tables@)),
        known_value(key@, tables@.len()),
        opened(old(open)@, tables@.len()),
        indentation@ == rbxlx::indent(depth),
    ensures
        final(open)@ == old(open)@,
        r@ == key_text(text::views(tables@), key@, depth, old(open)@),
    decreases tables@.len() - old(open)@.len(), 4nat,
{
    match key {
        ConsoleValue::Text(s) => concat3("[\"", s.as_str(), "\"]"),
        _ => {
            let shown = value_to_console_string_inner(tables, key, indentation, open, Ghost(depth));
            concat3("[", shown.as_str(), "]")
        },
    }
}

/// How a value is shown.
pub fn value_to_console_string(tables: &Vec<ConsoleTable>, value: &ConsoleValue) -> (r: String)
    requires
        tables_wf(text::views(tables@)),
        known_value(value@, tables@.len()),
    ensures
        r@ == value_text(text::views(tables@), value@, 0, Seq::empty()),
{
    let mut open: Vec<usize> = Vec::new();
    let indentation = String::new();
    assert(indentation@ =~= rbxlx::indent(0));
    assert(open@ =~= Seq::empty());
    value_to_console_string_inner(tables, value, indentation.as_str(), &mut open, Ghost(0))
}

/// How values are shown one after the other, with tabs between them.
pub fn values_to_console_string(tables: &Vec<ConsoleTable>, values: &Vec<ConsoleValue>) -> (r:
    String)
    requires
        tables_wf(text::views(tables@)),
        forall|k: int| 0 <= k < values@.len() ==> known_value(
            (#[trigger] values@[k])@,
            tables@.len(),
        ),
    ensures
        r@ == text::join(
            values@.map_values(
                |value: ConsoleValue| value_text(text::views(tables@), value@, 0, Seq::empty()),
            ),
            "\t"@,
        ),
{
    let mut parts: Vec<String> = Vec::new();
    let mut i: usize = 0;
    while i < values.len()
        invariant
            i <= values@.len(),
            tables_wf(text::views(tables@)),
            forall|k: int| 0 <= k < values@.len() ==> known_value(
                (#[trigger] values@[k])@,
                tables@.len(),
            ),
            parts@.len() == i,
            forall|k: int|
                0 <= k < i ==> (#[trigger] parts@[k])@ == value_text(
                    text::views(tables@),
                    values@[k]@,
                    0,
                    Seq::empty(),
                ),
        decreases values@.len() - i,
    {
        parts.push(value_to_console_string(tables, &values[i]));
        i += 1;
    }
    assert(text::views(parts@) =~= values@.map_values(
        |value: ConsoleValue| value_text(text::views(tables@), value@, 0, Seq::empty()),
    ));
    joined(&parts, "\t")
}

// ---------------------------------------------------------------------------------------------
// Lines
// ---------------------------------------------------------------------------------------------

/// A text without any number of the given parts at its start.
pub open spec fn strip_starts(s: Text, part: Text) -> Text
    decreases s.len(),
{
    if part.len() > 0 && text::begins_with(s, part) {
        strip_starts(s.skip(part.len() as int), part)
    } else {
        s
    }
}

/// A text without any number of the given parts at its end.
pub open spec fn strip_ends(s: Text, part: Text) -> Text
    decreases s.len(),
{
    if part.len() > 0 && text::finishes_with(s, part) {
        strip_ends(s.take(s.len() - part.len()), part)
    } else {
        s
    }
}

/// A text without any number of the given parts at its start.
fn without_starts(s: &str, part: &str) -> (r: String)
    requires
        part@.len() > 0,
    ensures
        r@ == strip_starts(s@, part@),
{
    let mut out = s.to_owned();
    let mut more = true;
    while more
        invariant
            part@.len() > 0,
            strip_starts(out@, part@) == strip_starts(s@, part@),
            !more ==> !text::begins_with(out@, part@),
        decreases
            out@.len(),
            if more {
                1nat
            } else {
                0nat
            },
    {
        match after_prefix(out.as_str(), part) {
            Some(rest) => {
                out = rest;
            },
            None => {
                more = false;
            },
        }
    }
    out
}

/// A text without any number of the given parts at its end.
fn without_ends(s: &str, part: &str) -> (r: String)
    requires
        part@.len() > 0,
    ensures
        r@ == strip_ends(s@, part@),
{
    let mut out = s.to_owned();
    let mut more = true;
    while more
        invariant
            part@.len() > 0,
            strip_ends(out@, part@) == strip_ends(s@, part@),
            !more ==> !text::finishes_with(out@, part@),
        decreases
            out@.len(),
            if more {
                1nat
            } else {
                0nat
            },
    {
        match before_suffix(out.as_str(), part) {
            Some(rest) => {
                out = rest;
            },
            None => {
                more = false;
            },
        }
    }
    out
}

/// The name of a script without the marks that the interpreter puts around it.
pub open spec fn plain_source(source: Text) -> Text {
    strip_ends(strip_starts(strip_starts(source, "@"@), "[string \""@), "\"]"@)
}

/// The name of a script without the marks that the interpreter puts around it.
pub fn sanitize_debug_source(source: &str) -> (r: String)
    ensures
        r@ == plain_source(source@),
{
    proof {
        reveal_strlit("@");
        reveal_strlit("[string \"");
        reveal_strlit("\"]");
    }
    let bare = without_starts(source, "@");
    let inner = without_starts(bare.as_str(), "[string \"");
    without_ends(inner.as_str(), "\"]")
}

/// An optional string by its view.
pub open spec fn opt_text(o: Option<&str>) -> Option<Text> {
    match o {
        Some(s) => Some(s@),
        None => None,
    }
}

/// The place in a script: its name, the line and the column.
pub open spec fn location_text(short: Option<Text>, source: Option<Text>, line: nat) -> Text {
    (match (short, source) {
        (Some(name), _) => plain_source(name),
        (None, Some(name)) => plain_source(name),
        (None, None) => "<unknown>"@,
    }) + ":"@ + text::decimal(line) + ":1"@
}

/// The place in a script that prints: its name in short or in full, and the line where it is known.
pub fn console_location(short_src: Option<&str>, source: Option<&str>, line: Option<u64>) -> (r:
    String)
    ensures
        r@ == location_text(
            opt_text(short_src),
            opt_text(source),
            match line {
                Some(line) => line as nat,
                None => 0,
            },
        ),
{
    let name = match (short_src, source) {
        (Some(name), _) => sanitize_debug_source(name),
        (None, Some(name)) => sanitize_debug_source(name),
        (None, None) => "<unknown>".to_owned(),
    };
    let line: u64 = match line {
        Some(line) => line,
        None => 0,
    };
    let mut out = concat3(name.as_str(), ":", decimal_text(line).as_str());
    out.append(":1");
    out
}

/// A line on the console.
pub open spec fn console_line(
    timestamp: Text,
    location: Option<Text>,
    message: Text,
    warning: bool,
) -> Text {
    "["@ + timestamp + "] "@ + (if warning {
        "[warn] "@
    } else {
        text::blank()
    }) + message + ": "@ + (match location {
        Some(location) => location,
        None => "<unknown>:0:1"@,
    })
}

/// A line on the console.
pub fn format_console_output_line(
    timestamp: &str,
    location: Option<&str>,
    message: &str,
    warning: bool,
) -> (r: String)
    ensures
        r@ == console_line(timestamp@, opt_text(location), message@, warning),
{
    let mut out = concat3("[", timestamp, "] ");
    let ghost head = out@;
    if warning {
        out.append("[warn] ");
    }
    assert(head + text::blank() =~= head);
    out.append(message);
    out.append(": ");
    match location {
        Some(location) => {
            out.append(location);
        },
        None => {
            out.append("<unknown>:0:1");
        },
    }
    out
}

// ---------------------------------------------------------------------------------------------
// Laws
// ---------------------------------------------------------------------------------------------

/// Whether a line shows an entry: white space, then the key in brackets, quoted where it is a text, and
/// the value behind an equals sign.
pub open spec fn shows_entry(
    tables: Seq<Seq<ConsoleEntryView>>,
    line: Text,
    margin: Text,
    entry: ConsoleEntryView,
    depth: nat,
    open: Seq<usize>,
) -> bool {
    match entry {
        ConsoleEntryView::Pair(ConsoleView::Text(key), value) => line == margin + "[\""@ + key + "\"]"@
            + " = "@ + value_text(tables, value, depth, open),
        ConsoleEntryView::Pair(key, value) => line == margin + "["@ + value_text(
            tables,
            key,
            depth,
            open,
        ) + "]"@ + " = "@ + value_text(tables, value, depth, open),
        ConsoleEntryView::Error(message) => line == margin + "<error> = "@ + message,
    }
}

/// Whether the lines show the entries of a table one after the other, each one level deeper than the
/// table.
pub open spec fn shows_entries(
    tables: Seq<Seq<ConsoleEntryView>>,
    lines: Seq<Text>,
    entries: Seq<ConsoleEntryView>,
    depth: nat,
    open: Seq<usize>,
) -> bool {
    &&& lines.len() == entries.len()
    &&& forall|k: int|
        0 <= k < lines.len() ==> shows_entry(
            tables,
            #[trigger] lines[k],
            rbxlx::indent(depth + 1),
            entries[k],
            depth + 1,
            open,
        )
}

/// A table is shown in braces with its entries on lines of their own, in their order. A table inside
/// itself is shown as a mark, and one without entries as a pair of braces.
pub proof fn law_tables_are_shown(
    tables: Seq<Seq<ConsoleEntryView>>,
    t: usize,
    depth: nat,
    open: Seq<usize>,
)
    requires
        t < tables.len(),
        open.no_duplicates(),
        forall|k: int| 0 <= k < open.len() ==> #[trigger] open[k] < tables.len(),
    ensures
        ({
            let shown = value_text(tables, ConsoleView::Table(t), depth, open);
            if open.contains(t) {
                shown == "{<cycle>}"@
            } else if tables[t as int].len() == 0 {
                shown == "{}"@
            } else {
                exists|lines: Seq<Text>|
                    shows_entries(tables, lines, tables[t as int], depth, open.push(t)) && shown
                        == "{\n"@ + #[trigger] text::join(lines, ",\n"@) + "\n"@ + rbxlx::indent(depth)
                        + "}"@
            }
        }),
{
    let entries = tables[t as int];
    if !open.contains(t) {
        lemma_room(open, t, tables.len());
        let lines = entry_lines(tables, entries, depth, open.push(t));
        lemma_entry_lines(tables, entries, depth, open.push(t));
        assert(shows_entries(tables, lines, entries, depth, open.push(t)));
        assert(value_text(tables, ConsoleView::Table(t), depth, open) == table_text(
            tables,
            t,
            depth,
            open,
        ));
    }
}

proof fn lemma_entry_lines(
    tables: Seq<Seq<ConsoleEntryView>>,
    entries: Seq<ConsoleEntryView>,
    depth: nat,
    open: Seq<usize>,
)
    ensures
        shows_entries(tables, entry_lines(tables, entries, depth, open), entries, depth, open),
    decreases entries.len(),
{
    if entries.len() > 0 {
        let init = entries.drop_last();
        lemma_entry_lines(tables, init, depth, open);
        let lines = entry_lines(tables, entries, depth, open);
        let before = entry_lines(tables, init, depth, open);
        assert(lines == before.push(entry_line(tables, entries.last(), depth, open)));
        let margin = rbxlx::indent(depth + 1);
        match entries.last() {
            ConsoleEntryView::Pair(ConsoleView::Text(key), value) => {
                let shown = value_text(tables, value, depth + 1, open);
                assert(margin + ("[\""@ + key + "\"]"@) + " = "@ + shown =~= margin + "[\""@ + key
                    + "\"]"@ + " = "@ + shown);
            },
            ConsoleEntryView::Pair(key, value) => {
                let name = value_text(tables, key, depth + 1, open);
                let shown = value_text(tables, value, depth + 1, open);
                assert(margin + ("["@ + name + "]"@) + " = "@ + shown =~= margin + "["@ + name + "]"@
                    + " = "@ + shown);
            },
            ConsoleEntryView::Error(message) => {},
        }
        assert forall|k: int| 0 <= k < lines.len() implies shows_entry(
            tables,
            #[trigger] lines[k],
            margin,
            entries[k],
            depth + 1,
            open,
        ) by {
            if k < before.len() {
                assert(lines[k] == before[k]);
                assert(init[k] == entries[k]);
            }
        }
    }
}

/// Values that are no tables are shown as they are: texts and errors without any mark around them, and
/// integers by their digits, with a minus sign where they are negative.
pub proof fn law_values_are_shown(
    tables: Seq<Seq<ConsoleEntryView>>,
    value: ConsoleView,
    depth: nat,
    open: Seq<usize>,
)
    ensures
        ({
            let shown = value_text(tables, value, depth, open);
            match value {
                ConsoleView::Text(s) | ConsoleView::Number(s) | ConsoleView::Error(s) => shown == s,
                ConsoleView::Nil => shown == "nil"@,
                ConsoleView::Boolean(b) => shown == (if b {
                    "true"@
                } else {
                    "false"@
                }),
                ConsoleView::Integer(i) => if i < 0 {
                    shown.len() > 0 && shown[0] == '-' && text::number_of(shown.drop_first()) == -i
                } else {
                    text::number_of(shown) == i
                },
                ConsoleView::Vector(x, y, z) => shown == "Vector("@ + x + ", "@ + y + ", "@ + z + ")"@,
                _ => true,
            }
        }),
{
    if let ConsoleView::Integer(i) = value {
        if i < 0 {
            text::law_decimal((-i) as nat);
            let digits = text::decimal((-i) as nat);
            assert((seq!['-'] + digits).drop_first() =~= digits);
        } else {
            text::law_decimal(i as nat);
        }
    }
}

/// A text a number of times in a row.
pub open spec fn repeated(part: Text, times: nat) -> Text
    decreases times,
{
    if times == 0 {
        text::blank()
    } else {
        part + repeated(part, (times - 1) as nat)
    }
}

/// Whether a text is another one with parts in front of it.
pub open spec fn led_by(s: Text, part: Text, times: nat, rest: Text) -> bool {
    s == repeated(part, times) + rest
}

/// Whether a text is another one with parts behind it.
pub open spec fn followed_by(s: Text, rest: Text, part: Text, times: nat) -> bool {
    s == rest + repeated(part, times)
}

/// Stripping takes away the parts at the start of a text, or at its end, until there are no more, and
/// nothing else.
pub proof fn law_stripping(s: Text, part: Text)
    requires
        part.len() > 0,
    ensures
        exists|times: nat| #[trigger] led_by(s, part, times, strip_starts(s, part)),
        !part.is_prefix_of(strip_starts(s, part)),
        exists|times: nat| #[trigger] followed_by(s, strip_ends(s, part), part, times),
        !part.is_suffix_of(strip_ends(s, part)),
{
    lemma_strip_starts(s, part);
    lemma_strip_ends(s, part);
}

proof fn lemma_strip_starts(s: Text, part: Text)
    requires
        part.len() > 0,
    ensures
        exists|times: nat| #[trigger] led_by(s, part, times, strip_starts(s, part)),
        !part.is_prefix_of(strip_starts(s, part)),
    decreases s.len(),
{
    let n = part.len() as int;
    if text::begins_with(s, part) {
        let rest = s.skip(n);
        lemma_strip_starts(rest, part);
        let times = choose|times: nat| #[trigger] led_by(rest, part, times, strip_starts(rest, part));
        assert(s =~= part + rest);
        assert(repeated(part, times + 1) == part + repeated(part, times));
        assert(s =~= repeated(part, times + 1) + strip_starts(rest, part));
        assert(led_by(s, part, times + 1, strip_starts(s, part)));
    } else {
        assert(s =~= repeated(part, 0) + s);
        assert(led_by(s, part, 0nat, strip_starts(s, part)));
        if part.is_prefix_of(s) {
            assert(part =~= s.take(n));
            assert(text::begins_with(s, part));
        }
    }
}

proof fn lemma_repeated_back(part: Text, times: nat)
    ensures
        repeated(part, times + 1) == repeated(part, times) + part,
    decreases times,
{
    if times == 0 {
        assert(repeated(part, 1) == part + repeated(part, 0));
        assert(part + repeated(part, 0) =~= repeated(part, 0) + part);
    } else {
        lemma_repeated_back(part, (times - 1) as nat);
        assert(repeated(part, times + 1) == part + repeated(part, times));
        assert(repeated(part, times + 1) =~= part + repeated(part, (times - 1) as nat) + part);
    }
}

proof fn lemma_strip_ends(s: Text, part: Text)
    requires
        part.len() > 0,
    ensures
        exists|times: nat| #[trigger] followed_by(s, strip_ends(s, part), part, times),
        !part.is_suffix_of(strip_ends(s, part)),
    decreases s.len(),
{
    let n = s.len() - part.len();
    if text::finishes_with(s, part) {
        let rest = s.take(n);
        lemma_strip_ends(rest, part);
        let times = choose|times: nat| #[trigger] followed_by(rest, strip_ends(rest, part), part, times);
        assert(s =~= rest + part);
        lemma_repeated_back(part, times);
        assert(s =~= strip_ends(rest, part) + repeated(part, times + 1));
        assert(followed_by(s, strip_ends(s, part), part, times + 1));
    } else {
        assert(s =~= s + repeated(part, 0));
        assert(followed_by(s, strip_ends(s, part), part, 0nat));
        if part.is_suffix_of(s) {
            assert(part =~= s.skip(n));
            assert(text::finishes_with(s, part));
        }
    }
}

/// A line on the console shows the time, the message and the place, and marks warnings.
pub proof fn law_lines_are_shown(timestamp: Text, location: Option<Text>, message: Text)
    ensures
        ({
            let at = match location {
                Some(place) => place,
                None => "<unknown>:0:1"@,
            };
            &&& console_line(timestamp, location, message, false) == "["@ + timestamp + "] "@ + message
                + ": "@ + at
            &&& console_line(timestamp, location, message, true) == "["@ + timestamp + "] [warn] "@
                + message + ": "@ + at
        }),
{
    reveal_strlit("] ");
    reveal_strlit("[warn] ");
    reveal_strlit("] [warn] ");
    let head = "["@ + timestamp;
    assert(head + "] "@ + text::blank() =~= head + "] "@);
    assert("] "@ + "[warn] "@ =~= "] [warn] "@);
    assert(head + "] "@ + "[warn] "@ =~= head + ("] "@ + "[warn] "@));
}

/// A script goes by its own name on the console, without the marks that the interpreter puts around it,
/// and by its short name where it has one; the line follows the name.
pub proof fn law_places_are_shown(name: Text, source: Option<Text>, line: nat)
    requires
        !"@"@.is_prefix_of(name),
        !"[string \""@.is_prefix_of(name + "\"]"@),
        !"\"]"@.is_suffix_of(name),
    ensures
        ({
            let place = name + ":"@ + text::decimal(line) + ":1"@;
            &&& location_text(Some(name), source, line) == place
            &&& location_text(Some("@"@ + name), source, line) == place
            &&& location_text(Some("[string \""@ + name + "\"]"@), source, line) == place
            &&& location_text(None, Some(name), line) == place
            &&& location_text(None, Some("@"@ + name), line) == place
            &&& location_text(None, Some("[string \""@ + name + "\"]"@), line) == place
            &&& location_text(None, None, line) == "<unknown>"@ + ":"@ + text::decimal(line) + ":1"@
        }),
{
    reveal_strlit("@");
    reveal_strlit("[string \"");
    reveal_strlit("\"]");
    let quoted = "[string \""@ + name + "\"]"@;
    lemma_unmarked(name, "@"@);
    if "[string \""@.is_prefix_of(name) {
        assert("[string \""@ =~= (name + "\"]"@).subrange(0, "[string \""@.len() as int));
    }
    lemma_unmarked(name, "[string \""@);
    lemma_unended(name, "\"]"@);
    assert(strip_starts("@"@ + name, "@"@) == name) by {
        let marked = "@"@ + name;
        assert(marked.subrange(0, 1) =~= "@"@);
        assert(marked.skip(1) =~= name);
    }
    assert(strip_starts(quoted, "@"@) == quoted) by {
        assert(quoted[0] == '[');
        if "@"@.is_prefix_of(quoted) {
            assert(quoted.subrange(0, 1)[0] == '[');
        }
        lemma_unmarked(quoted, "@"@);
    }
    let n = "[string \""@.len() as int;
    let inner = name + "\"]"@;
    assert(quoted =~= "[string \""@ + inner);
    assert(quoted.subrange(0, n) =~= "[string \""@);
    assert(quoted.skip(n) =~= inner);
    assert(inner.subrange(name.len() as int, inner.len() as int) =~= "\"]"@);
    assert(inner.take(name.len() as int) =~= name);
    lemma_unmarked(inner, "[string \""@);
    assert(strip_ends(inner, "\"]"@) == strip_ends(name, "\"]"@));
}

proof fn lemma_unmarked(s: Text, part: Text)
    requires
        !part.is_prefix_of(s),
    ensures
        strip_starts(s, part) == s,
{
    if text::begins_with(s, part) {
        assert(part =~= s.subrange(0, part.len() as int));
    }
}

proof fn lemma_unended(s: Text, part: Text)
    requires
        !part.is_suffix_of(s),
    ensures
        strip_ends(s, part) == s,
{
    if text::finishes_with(s, part) {
        assert(part =~= s.subrange((s.len() - part.len()) as int, s.len() as int));
    }
}

} // verus!
