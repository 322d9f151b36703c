//! Instances: the objects of the instance tree, with their properties and signals.

use vstd::prelude::*;
use vstd::string::*;

use crate::error::{self, Error, failure};
use crate::math::{self, Color3, Number, Vector3};
use crate::order::reversed;
use crate::project::copy_opt_text;
use crate::signal::{self, Signal, SignalView};
use crate::text::{self, Text, bytes_eq, concat2, concat3, copy_bytes, joined, text_eq};
use crate::tree;

verus! {

// ---------------------------------------------------------------------------------------------
// Property values
// ---------------------------------------------------------------------------------------------

/// The value of a property.
#[derive(Clone, Debug)]
pub enum PropertyValue {
    Bool(bool),
    Number(Number),
    String(String),
    BinaryString(Vec<u8>),
    Vector3(Vector3),
    Color3(Color3),
}

/// The content of a [`PropertyValue`].
#[verifier::ext_equal]
pub enum ValueView {
    Bool(bool),
    Number(Number),
    String(Text),
    BinaryString(Seq<u8>),
    Vector3(Vector3),
    Color3(Color3),
}

impl View for PropertyValue {
    type V = ValueView;

    open spec fn view(&self) -> ValueView {
        match self {
            PropertyValue::Bool(b) => ValueView::Bool(*b),
            PropertyValue::Number(n) => ValueView::Number(*n),
            PropertyValue::String(s) => ValueView::String(s@),
            PropertyValue::BinaryString(s) => ValueView::BinaryString(s@),
            PropertyValue::Vector3(v) => ValueView::Vector3(*v),
            PropertyValue::Color3(c) => ValueView::Color3(*c),
        }
    }
}

/// Equality of values. Numbers are compared as numbers.
pub open spec fn same_value(a: ValueView, b: ValueView) -> bool {
    match (a, b) {
        (ValueView::Bool(x), ValueView::Bool(y)) => x == y,
        (ValueView::Number(x), ValueView::Number(y)) => math::same_number(x, y),
        (ValueView::String(x), ValueView::String(y)) => x == y,
        (ValueView::BinaryString(x), ValueView::BinaryString(y)) => x == y,
        (ValueView::Vector3(x), ValueView::Vector3(y)) => math::same_vector(x, y),
        (ValueView::Color3(x), ValueView::Color3(y)) => math::same_color(x, y),
        _ => false,
    }
}

impl PropertyValue {
    /// Whether two values are equal.
    pub fn equals(&self, other: &PropertyValue) -> (r: bool)
        ensures
            r == same_value(self@, other@),
    {
        match (self, other) {
            (PropertyValue::Bool(x), PropertyValue::Bool(y)) => *x == *y,
            (PropertyValue::Number(x), PropertyValue::Number(y)) => x.equals(*y),
            (PropertyValue::String(x), PropertyValue::String(y)) => text_eq(
                x.as_str(),
                y.as_str(),
            ),
            (PropertyValue::BinaryString(x), PropertyValue::BinaryString(y)) => bytes_eq(
                x.as_slice(),
                y.as_slice(),
            ),
            (PropertyValue::Vector3(x), PropertyValue::Vector3(y)) => x.equals(*y),
            (PropertyValue::Color3(x), PropertyValue::Color3(y)) => x.equals(*y),
            _ => false,
        }
    }

    /// The value, copied.
    pub fn copied(&self) -> (r: PropertyValue)
        ensures
            r@ == self@,
    {
        match self {
            PropertyValue::Bool(b) => PropertyValue::Bool(*b),
            PropertyValue::Number(n) => PropertyValue::Number(*n),
            PropertyValue::String(s) => PropertyValue::String(s.as_str().to_owned()),
            PropertyValue::BinaryString(s) => PropertyValue::BinaryString(
                copy_bytes(s.as_slice()),
            ),
            PropertyValue::Vector3(v) => PropertyValue::Vector3(*v),
            PropertyValue::Color3(c) => PropertyValue::Color3(*c),
        }
    }
}

impl PartialEq for PropertyValue {
    fn eq(&self, other: &PropertyValue) -> (r: bool) {
        self.equals(other)
    }
}

impl vstd::std_specs::cmp::PartialEqSpecImpl for PropertyValue {
    open spec fn obeys_eq_spec() -> bool {
        true
    }

    open spec fn eq_spec(&self, other: &PropertyValue) -> bool {
        same_value(self@, other@)
    }
}

/// The type of a property.
#[derive(Clone, Copy, Debug, PartialEq, Eq, Structural)]
pub enum PropertyKind {
    Bool,
    Number,
    String,
    Vector3,
    Color3,
}

/// The type that a value has.
pub open spec fn kind_of(value: ValueView) -> PropertyKind {
    match value {
        ValueView::Bool(_) => PropertyKind::Bool,
        ValueView::Number(_) => PropertyKind::Number,
        ValueView::String(_) | ValueView::BinaryString(_) => PropertyKind::String,
        ValueView::Vector3(_) => PropertyKind::Vector3,
        ValueView::Color3(_) => PropertyKind::Color3,
    }
}

/// The name of a type.
pub open spec fn kind_name(kind: PropertyKind) -> Text {
    match kind {
        PropertyKind::Bool => "Bool"@,
        PropertyKind::Number => "Number"@,
        PropertyKind::String => "String"@,
        PropertyKind::Vector3 => "Vector3"@,
        PropertyKind::Color3 => "Color3"@,
    }
}

impl PropertyKind {
    /// The name of the type.
    pub fn name(self) -> (r: &'static str)
        ensures
            r@ == kind_name(self),
    {
        match self {
            PropertyKind::Bool => "Bool",
            PropertyKind::Number => "Number",
            PropertyKind::String => "String",
            PropertyKind::Vector3 => "Vector3",
            PropertyKind::Color3 => "Color3",
        }
    }
}

/// What comes of checking that a value has the expected type.
pub open spec fn kind_check(expected: PropertyKind, value: ValueView) -> Result<(), Text> {
    if expected == kind_of(value) {
        Ok(())
    } else {
        Err(
            "Expected property type "@ + kind_name(expected) + ", got "@ + kind_name(
                kind_of(value),
            ),
        )
    }
}

/// Checks that a value has the expected type.
pub fn validate_property_kind(expected: PropertyKind, value: &PropertyValue) -> (r: Result<
    (),
    Error,
>)
    ensures
        error::unit_view(r) == kind_check(expected, value@),
{
    let actual = match value {
        PropertyValue::Bool(_) => PropertyKind::Bool,
        PropertyValue::Number(_) => PropertyKind::Number,
        PropertyValue::String(_) | PropertyValue::BinaryString(_) => PropertyKind::String,
        PropertyValue::Vector3(_) => PropertyKind::Vector3,
        PropertyValue::Color3(_) => PropertyKind::Color3,
    };
    if expected == actual {
        Ok(())
    } else {
        let mut message = concat3("Expected property type ", expected.name(), ", got ");
        message.append(actual.name());
        Err(failure(message.as_str()))
    }
}

// ---------------------------------------------------------------------------------------------
// Classes
// ---------------------------------------------------------------------------------------------

/// Whether instances of the class hold source code.
pub open spec fn is_script_class(class_name: Text) -> bool {
    class_name == "Script"@ || class_name == "LocalScript"@ || class_name == "ModuleScript"@
}

fn script_class(class_name: &str) -> (r: bool)
    ensures
        r == is_script_class(class_name@),
{
    text_eq(class_name, "Script") || text_eq(class_name, "LocalScript") || text_eq(
        class_name,
        "ModuleScript",
    )
}

/// The type of a property that instances of a class have.
pub open spec fn kind_for(class_name: Text, property: Text) -> Option<PropertyKind> {
    if property == "Archivable"@ {
        Some(PropertyKind::Bool)
    } else if class_name == "Players"@ && property == "CharacterAutoLoads"@ {
        Some(PropertyKind::Bool)
    } else if class_name == "Player"@ && property == "UserId"@ {
        Some(PropertyKind::Number)
    } else if class_name == "Player"@ && property == "DisplayName"@ {
        Some(PropertyKind::String)
    } else if class_name == "HttpService"@ && property == "HttpEnabled"@ {
        Some(PropertyKind::Bool)
    } else if is_script_class(class_name) && property == "Source"@ {
        Some(PropertyKind::String)
    } else if class_name == "StringValue"@ && property == "Value"@ {
        Some(PropertyKind::String)
    } else if class_name == "Workspace"@ && property == "StreamingEnabled"@ {
        Some(PropertyKind::Bool)
    } else if class_name == "Part"@ {
        if property == "Anchored"@ || property == "CanCollide"@ {
            Some(PropertyKind::Bool)
        } else if property == "Transparency"@ {
            Some(PropertyKind::Number)
        } else if property == "Material"@ {
            Some(PropertyKind::String)
        } else if property == "Position"@ || property == "Size"@ {
            Some(PropertyKind::Vector3)
        } else if property == "Color"@ {
            Some(PropertyKind::Color3)
        } else {
            None
        }
    } else {
        None
    }
}

/// The type of a property that instances of a class have.
pub fn property_kind(class_name: &str, property_name: &str) -> (r: Option<PropertyKind>)
    ensures
        r == kind_for(class_name@, property_name@),
{
    if text_eq(property_name, "Archivable") {
        Some(PropertyKind::Bool)
    } else if text_eq(class_name, "Players") && text_eq(property_name, "CharacterAutoLoads") {
        Some(PropertyKind::Bool)
    } else if text_eq(class_name, "Player") && text_eq(property_name, "UserId") {
        Some(PropertyKind::Number)
    } else if text_eq(class_name, "Player") && text_eq(property_name, "DisplayName") {
        Some(PropertyKind::String)
    } else if text_eq(class_name, "HttpService") && text_eq(property_name, "HttpEnabled") {
        Some(PropertyKind::Bool)
    } else if script_class(class_name) && text_eq(property_name, "Source") {
        Some(PropertyKind::String)
    } else if text_eq(class_name, "StringValue") && text_eq(property_name, "Value") {
        Some(PropertyKind::String)
    } else if text_eq(class_name, "Workspace") && text_eq(property_name, "StreamingEnabled") {
        Some(PropertyKind::Bool)
    } else if text_eq(class_name, "Part") {
        if text_eq(property_name, "Anchored") || text_eq(property_name, "CanCollide") {
            Some(PropertyKind::Bool)
        } else if text_eq(property_name, "Transparency") {
            Some(PropertyKind::Number)
        } else if text_eq(property_name, "Material") {
            Some(PropertyKind::String)
        } else if text_eq(property_name, "Position") || text_eq(property_name, "Size") {
            Some(PropertyKind::Vector3)
        } else if text_eq(property_name, "Color") {
            Some(PropertyKind::Color3)
        } else {
            None
        }
    } else {
        None
    }
}

/// The classes above a class, from the nearest to the root.
pub open spec fn class_ancestors(class_name: Text) -> Seq<Text> {
    if class_name == "DataModel"@ {
        seq!["ServiceProvider"@, "Instance"@]
    } else if class_name == "Workspace"@ {
        seq!["WorldRoot"@, "Model"@, "PVInstance"@, "Instance"@]
    } else if class_name == "Model"@ {
        seq!["PVInstance"@, "Instance"@]
    } else if class_name == "Part"@ {
        seq!["BasePart"@, "PVInstance"@, "Instance"@]
    } else if class_name == "StringValue"@ {
        seq!["ValueBase"@, "Instance"@]
    } else if class_name == "ReplicatedStorage"@ || class_name == "ServerStorage"@ || class_name
        == "ServerScriptService"@ || class_name == "Lighting"@ || class_name == "Players"@
        || class_name == "RunService"@ || class_name == "HttpService"@ || class_name
        == "TweenService"@ {
        seq!["Service"@, "Instance"@]
    } else if is_script_class(class_name) {
        seq!["LuaSourceContainer"@, "Instance"@]
    } else {
        seq!["Instance"@]
    }
}

/// Whether instances of a class count as instances of another.
pub open spec fn derives(class_name: Text, query: Text) -> bool {
    class_name == query || class_ancestors(class_name).contains(query)
}

fn list_has(list: &Vec<&'static str>, query: &str) -> (r: bool)
    ensures
        r == list@.map_values(|s: &'static str| s@).contains(query@),
{
    let ghost all = list@.map_values(|s: &'static str| s@);
    let mut i: usize = 0;
    while i < list.len()
        invariant
            i <= list@.len(),
            all == list@.map_values(|s: &'static str| s@),
            forall|k: int| 0 <= k < i ==> all[k] != query@,
        decreases list@.len() - i,
    {
        assert(all[i as int] == list@[i as int]@);
        if text_eq(list[i], query) {
            return true;
        }
        i += 1;
    }
    false
}

/// Whether instances of a class count as instances of another.
pub fn is_a_class(class_name: &str, query: &str) -> (r: bool)
    ensures
        r == derives(class_name@, query@),
{
    if text_eq(class_name, query) {
        return true;
    }
    let ancestors: Vec<&'static str> = if text_eq(class_name, "DataModel") {
        vec!["ServiceProvider", "Instance"]
    } else if text_eq(class_name, "Workspace") {
        vec!["WorldRoot", "Model", "PVInstance", "Instance"]
    } else if text_eq(class_name, "Model") {
        vec!["PVInstance", "Instance"]
    } else if text_eq(class_name, "Part") {
        vec!["BasePart", "PVInstance", "Instance"]
    } else if text_eq(class_name, "StringValue") {
        vec!["ValueBase", "Instance"]
    } else if text_eq(class_name, "ReplicatedStorage") || text_eq(class_name, "ServerStorage")
        || text_eq(class_name, "ServerScriptService") || text_eq(class_name, "Lighting") || text_eq(
        class_name,
        "Players",
    ) || text_eq(class_name, "RunService") || text_eq(class_name, "HttpService") || text_eq(
        class_name,
        "TweenService",
    ) {
        vec!["Service", "Instance"]
    } else if script_class(class_name) {
        vec!["LuaSourceContainer", "Instance"]
    } else {
        vec!["Instance"]
    };
    assert(ancestors@.map_values(|s: &'static str| s@) =~= class_ancestors(class_name@));
    list_has(&ancestors, query)
}

/// The classes above the classes that stand above others.
proof fn lemma_upper_classes()
    ensures
        class_ancestors("ServiceProvider"@) == seq!["Instance"@],
        class_ancestors("Instance"@) == seq!["Instance"@],
        class_ancestors("WorldRoot"@) == seq!["Instance"@],
        class_ancestors("PVInstance"@) == seq!["Instance"@],
        class_ancestors("BasePart"@) == seq!["Instance"@],
        class_ancestors("ValueBase"@) == seq!["Instance"@],
        class_ancestors("Service"@) == seq!["Instance"@],
        class_ancestors("LuaSourceContainer"@) == seq!["Instance"@],
        class_ancestors("Model"@) == seq!["PVInstance"@, "Instance"@],
        "ServiceProvider"@ != "Instance"@,
        "WorldRoot"@ != "Instance"@,
        "Model"@ != "Instance"@,
        "PVInstance"@ != "Instance"@,
        "BasePart"@ != "Instance"@,
        "ValueBase"@ != "Instance"@,
        "Service"@ != "Instance"@,
        "LuaSourceContainer"@ != "Instance"@,
        "Model"@ != "PVInstance"@,
{
    reveal_strlit("DataModel");
    reveal_strlit("Workspace");
    reveal_strlit("Model");
    reveal_strlit("Part");
    reveal_strlit("StringValue");
    reveal_strlit("ReplicatedStorage");
    reveal_strlit("ServerStorage");
    reveal_strlit("ServerScriptService");
    reveal_strlit("Lighting");
    reveal_strlit("Players");
    reveal_strlit("RunService");
    reveal_strlit("HttpService");
    reveal_strlit("TweenService");
    reveal_strlit("Script");
    reveal_strlit("LocalScript");
    reveal_strlit("ModuleScript");
    reveal_strlit("ServiceProvider");
    reveal_strlit("Instance");
    reveal_strlit("WorldRoot");
    reveal_strlit("PVInstance");
    reveal_strlit("BasePart");
    reveal_strlit("ValueBase");
    reveal_strlit("Service");
    reveal_strlit("LuaSourceContainer");
    assert("DataModel"@.len() == 9 && "DataModel"@[0] == 'D');
    assert("Workspace"@.len() == 9 && "Workspace"@[3] == 'k');
    assert("Model"@.len() == 5 && "Model"@[0] == 'M');
    assert("Part"@.len() == 4 && "Part"@[0] == 'P');
    assert("StringValue"@.len() == 11 && "StringValue"@[0] == 'S');
    assert("ReplicatedStorage"@.len() == 17 && "ReplicatedStorage"@[0] == 'R');
    assert("ServerStorage"@.len() == 13 && "ServerStorage"@[0] == 'S');
    assert("ServerScriptService"@.len() == 19 && "ServerScriptService"@[0] == 'S');
    assert("Lighting"@.len() == 8 && "Lighting"@[0] == 'L');
    assert("Players"@.len() == 7 && "Players"@[0] == 'P');
    assert("RunService"@.len() == 10 && "RunService"@[0] == 'R');
    assert("HttpService"@.len() == 11 && "HttpService"@[0] == 'H');
    assert("TweenService"@.len() == 12 && "TweenService"@[0] == 'T');
    assert("Script"@.len() == 6 && "Script"@[0] == 'S');
    assert("LocalScript"@.len() == 11 && "LocalScript"@[0] == 'L');
    assert("ModuleScript"@.len() == 12 && "ModuleScript"@[0] == 'M');
    assert("ServiceProvider"@.len() == 15 && "ServiceProvider"@[0] == 'S');
    assert("Instance"@.len() == 8 && "Instance"@[0] == 'I');
    assert("WorldRoot"@.len() == 9 && "WorldRoot"@[3] == 'l');
    assert("PVInstance"@.len() == 10 && "PVInstance"@[0] == 'P');
    assert("BasePart"@.len() == 8 && "BasePart"@[0] == 'B');
    assert("ValueBase"@.len() == 9 && "ValueBase"@[0] == 'V');
    assert("Service"@.len() == 7 && "Service"@[0] == 'S');
    assert("LuaSourceContainer"@.len() == 18 && "LuaSourceContainer"@[0] == 'L');
}

/// Among classes, to count as instances of another is a partial order, and everything counts as an
/// instance of `Instance`.
pub proof fn law_classes_are_ordered(a: Text, b: Text, c: Text)
    ensures
        derives(a, a),
        derives(a, "Instance"@),
        derives(a, b) && derives(b, a) ==> a == b,
        derives(a, b) && derives(b, c) ==> derives(a, c),
{
    let above = class_ancestors(a);
    lemma_upper_classes();
    assert(above.last() == "Instance"@);
    assert(above.contains(above[above.len() - 1]));
    if derives(a, b) && a != b {
        let i = choose|i: int| 0 <= i < above.len() && above[i] == b;
        let upper = class_ancestors(b);
        assert(upper.len() <= 2);
        assert(above.contains(above[i]));
        if derives(b, c) && b != c {
            let j = choose|j: int| 0 <= j < upper.len() && upper[j] == c;
            if b == "Model"@ {
                assert(a == "Workspace"@);
                assert(above[2] == "PVInstance"@);
            }
        }
    }
}

/// The names of the events that instances of a class have.
pub open spec fn event_names(class_name: Text) -> Seq<Text> {
    let common = seq![
        "AncestryChanged"@,
        "Changed"@,
        "ChildAdded"@,
        "ChildRemoved"@,
        "DescendantAdded"@,
        "DescendantRemoving"@,
        "Destroying"@,
    ];
    if class_name == "Part"@ {
        common + seq!["Touched"@, "TouchEnded"@]
    } else if class_name == "Players"@ {
        common + seq!["PlayerAdded"@, "PlayerRemoving"@]
    } else {
        common
    }
}

/// The names of the events that instances of a class have.
pub fn default_events(class_name: &str) -> (r: Vec<&'static str>)
    ensures
        r@.map_values(|s: &'static str| s@) == event_names(class_name@),
{
    let mut events: Vec<&'static str> =
        vec![
            "AncestryChanged",
            "Changed",
            "ChildAdded",
            "ChildRemoved",
            "DescendantAdded",
            "DescendantRemoving",
            "Destroying",
        ];
    proof {
        reveal_strlit("Part");
        reveal_strlit("Players");
        assert("Part"@.len() != "Players"@.len());
    }
    if text_eq(class_name, "Part") {
        events.push("Touched");
        events.push("TouchEnded");
    }
    if text_eq(class_name, "Players") {
        events.push("PlayerAdded");
        events.push("PlayerRemoving");
    }
    assert(events@.map_values(|s: &'static str| s@) =~= event_names(class_name@));
    events
}

// ---------------------------------------------------------------------------------------------
// Lists of properties
// ---------------------------------------------------------------------------------------------

/// A property of an instance.
#[derive(Clone, Debug)]
pub struct Property {
    pub name: String,
    pub value: PropertyValue,
}

/// The values by name; of two properties with the same name the later one counts.
pub open spec fn property_map(list: Seq<Property>) -> Map<Text, ValueView>
    decreases list.len(),
{
    if list.len() == 0 {
        Map::empty()
    } else {
        property_map(list.drop_last()).insert(list.last().name@, list.last().value@)
    }
}

proof fn lemma_property_push(list: Seq<Property>, property: Property)
    ensures
        property_map(list.push(property)) == property_map(list).insert(
            property.name@,
            property.value@,
        ),
{
    assert(list.push(property).drop_last() =~= list);
}

proof fn lemma_property_update(list: Seq<Property>, k: int, property: Property)
    requires
        0 <= k < list.len(),
        list[k].name@ == property.name@,
        forall|i: int| k < i < list.len() ==> (#[trigger] list[i]).name@ != property.name@,
    ensures
        property_map(list.update(k, property)) == property_map(list).insert(
            property.name@,
            property.value@,
        ),
        property_map(list).contains_key(property.name@),
        property_map(list)[property.name@] == list[k].value@,
    decreases list.len(),
{
    let changed = list.update(k, property);
    let init = list.drop_last();
    if k == list.len() - 1 {
        assert(changed.drop_last() =~= init);
        assert(property_map(changed) =~= property_map(list).insert(
            property.name@,
            property.value@,
        ));
    } else {
        assert(changed.drop_last() =~= init.update(k, property));
        assert forall|i: int| k < i < init.len() implies (#[trigger] init[i]).name@
            != property.name@ by {
            assert(init[i] == list[i]);
        }
        lemma_property_update(init, k, property);
        assert(list[list.len() - 1].name@ != property.name@);
        assert(property_map(changed) =~= property_map(list).insert(
            property.name@,
            property.value@,
        ));
    }
}

proof fn lemma_property_absent(list: Seq<Property>, name: Text)
    requires
        forall|i: int| 0 <= i < list.len() ==> (#[trigger] list[i]).name@ != name,
    ensures
        !property_map(list).contains_key(name),
    decreases list.len(),
{
    if list.len() > 0 {
        let init = list.drop_last();
        assert forall|i: int| 0 <= i < init.len() implies (#[trigger] init[i]).name@ != name by {
            assert(init[i] == list[i]);
        }
        lemma_property_absent(init, name);
        assert(list[list.len() - 1].name@ != name);
    }
}

/// The position of the property with the given name.
fn property_at(list: &Vec<Property>, name: &str) -> (r: Option<usize>)
    ensures
        match r {
            Some(k) => {
                &&& k < list@.len()
                &&& list@[k as int].name@ == name@
                &&& forall|i: int| k < i < list@.len() ==> (#[trigger] list@[i]).name@ != name@
            },
            None => forall|i: int| 0 <= i < list@.len() ==> (#[trigger] list@[i]).name@ != name@,
        },
{
    let mut i: usize = list.len();
    while i > 0
        invariant
            i <= list@.len(),
            forall|k: int| i <= k < list@.len() ==> (#[trigger] list@[k]).name@ != name@,
        decreases i,
    {
        i -= 1;
        if text_eq(list[i].name.as_str(), name) {
            return Some(i);
        }
    }
    None
}

/// The value of a property.
fn property_value(list: &Vec<Property>, name: &str) -> (r: Option<PropertyValue>)
    ensures
        text::opt_view(r) == (if property_map(list@).contains_key(name@) {
            Some(property_map(list@)[name@])
        } else {
            None
        }),
{
    match property_at(list, name) {
        Some(k) => {
            proof {
                lemma_property_update(list@, k as int, list@[k as int]);
            }
            Some(list[k].value.copied())
        },
        None => {
            proof {
                lemma_property_absent(list@, name@);
            }
            None
        },
    }
}

/// Gives a property a value.
fn put_property(list: &mut Vec<Property>, name: &str, value: PropertyValue)
    ensures
        property_map(final(list)@) == property_map(old(list)@).insert(name@, value@),
{
    let property = Property { name: name.to_owned(), value };
    match property_at(list, name) {
        Some(k) => {
            proof {
                lemma_property_update(list@, k as int, property);
            }
            list.set(k, property);
        },
        None => {
            proof {
                lemma_property_push(list@, property);
            }
            list.push(property);
        },
    }
}

/// The properties, copied.
fn copy_properties(list: &Vec<Property>) -> (r: Vec<Property>)
    ensures
        property_map(r@) == property_map(list@),
{
    let mut out: Vec<Property> = Vec::new();
    let mut i: usize = 0;
    assert(list@.take(0) =~= Seq::empty());
    assert(out@ =~= Seq::empty());
    while i < list.len()
        invariant
            i <= list@.len(),
            property_map(out@) == property_map(list@.take(i as int)),
        decreases list@.len() - i,
    {
        let property = Property {
            name: list[i].name.as_str().to_owned(),
            value: list[i].value.copied(),
        };
        proof {
            lemma_property_push(out@, property);
            assert(list@.take(i + 1).drop_last() =~= list@.take(i as int));
        }
        out.push(property);
        i += 1;
    }
    assert(list@.take(i as int) =~= list@);
    out
}

/// The properties with which instances of a class begin.
pub open spec fn initial_properties(class_name: Text) -> Map<Text, ValueView> {
    let common = map!["Archivable"@ => ValueView::Bool(true)];
    if class_name == "Workspace"@ {
        common.insert("StreamingEnabled"@, ValueView::Bool(false))
    } else if class_name == "Players"@ {
        common.insert("CharacterAutoLoads"@, ValueView::Bool(true))
    } else if class_name == "Player"@ {
        common.insert("UserId"@, ValueView::Number(Number { bits: 0x3ff0_0000_0000_0000 })).insert(
            "DisplayName"@,
            ValueView::String("Player"@),
        )
    } else if class_name == "HttpService"@ {
        common.insert("HttpEnabled"@, ValueView::Bool(true))
    } else if class_name == "Part"@ {
        common.insert("Anchored"@, ValueView::Bool(true)).insert(
            "CanCollide"@,
            ValueView::Bool(false),
        ).insert("Position"@, ValueView::Vector3(math::zero_vector())).insert(
            "Size"@,
            ValueView::Vector3(
                Vector3 {
                    x: Number { bits: 0x4010_0000_0000_0000 },
                    y: Number { bits: 0x3ff0_0000_0000_0000 },
                    z: Number { bits: 0x4000_0000_0000_0000 },
                },
            ),
        ).insert("Color"@, ValueView::Color3(math::gray_color())).insert(
            "Transparency"@,
            ValueView::Number(Number { bits: 0 }),
        ).insert("Material"@, ValueView::String("Plastic"@))
    } else if is_script_class(class_name) {
        common.insert("Source"@, ValueView::String(text::blank()))
    } else if class_name == "StringValue"@ {
        common.insert("Value"@, ValueView::BinaryString(Seq::empty()))
    } else {
        common
    }
}

/// Parts begin anchored.
pub proof fn lemma_part_properties()
    ensures
        initial_properties("Part"@).contains_key("Anchored"@),
        initial_properties("Part"@)["Anchored"@] == ValueView::Bool(true),
{
    reveal_strlit("Part");
    reveal_strlit("Workspace");
    reveal_strlit("Players");
    reveal_strlit("Player");
    reveal_strlit("HttpService");
    reveal_strlit("Anchored");
    reveal_strlit("CanCollide");
    reveal_strlit("Position");
    reveal_strlit("Size");
    reveal_strlit("Color");
    reveal_strlit("Transparency");
    reveal_strlit("Material");
    assert("Part"@.len() == 4);
    assert("Workspace"@.len() == 9);
    assert("Players"@.len() == 7);
    assert("Player"@.len() == 6);
    assert("HttpService"@.len() == 11);
    assert("Anchored"@[0] == 'A');
    assert("CanCollide"@[0] == 'C');
    assert("Position"@[0] == 'P');
    assert("Size"@[0] == 'S');
    assert("Color"@[0] == 'C');
    assert("Transparency"@[0] == 'T');
    assert("Material"@[0] == 'M');
}

/// Instances of a class begin with exactly the properties that the class declares, each with a value
/// of the type that is declared for it.
pub proof fn law_declared_properties_have_defaults(class_name: Text, property: Text)
    ensures
        initial_properties(class_name).contains_key(property) <==> kind_for(
            class_name,
            property,
        ) is Some,
        initial_properties(class_name).contains_key(property) ==> kind_for(class_name, property)
            == Some(kind_of(initial_properties(class_name)[property])),
{
    lemma_property_texts();
}

proof fn lemma_property_texts()
    ensures
        "Workspace"@.len() == 9 && "Workspace"@[0] == 'W',
        "Players"@.len() == 7 && "Players"@[0] == 'P',
        "Player"@.len() == 6 && "Player"@[0] == 'P',
        "HttpService"@.len() == 11 && "HttpService"@[0] == 'H',
        "Part"@.len() == 4 && "Part"@[0] == 'P',
        "Script"@.len() == 6 && "Script"@[0] == 'S',
        "LocalScript"@.len() == 11 && "LocalScript"@[0] == 'L',
        "ModuleScript"@.len() == 12 && "ModuleScript"@[0] == 'M',
        "StringValue"@.len() == 11 && "StringValue"@[0] == 'S',
        "Archivable"@.len() == 10 && "Archivable"@[0] == 'A',
        "StreamingEnabled"@.len() == 16 && "StreamingEnabled"@[0] == 'S',
        "CharacterAutoLoads"@.len() == 18 && "CharacterAutoLoads"@[0] == 'C',
        "UserId"@.len() == 6 && "UserId"@[0] == 'U',
        "DisplayName"@.len() == 11 && "DisplayName"@[0] == 'D',
        "HttpEnabled"@.len() == 11 && "HttpEnabled"@[0] == 'H',
        "Anchored"@.len() == 8 && "Anchored"@[0] == 'A',
        "CanCollide"@.len() == 10 && "CanCollide"@[0] == 'C',
        "Position"@.len() == 8 && "Position"@[0] == 'P',
        "Size"@.len() == 4 && "Size"@[0] == 'S',
        "Color"@.len() == 5 && "Color"@[0] == 'C',
        "Transparency"@.len() == 12 && "Transparency"@[0] == 'T',
        "Material"@.len() == 8 && "Material"@[0] == 'M',
        "Source"@.len() == 6 && "Source"@[0] == 'S',
        "Value"@.len() == 5 && "Value"@[0] == 'V',
{
    reveal_strlit("Workspace");
    reveal_strlit("Players");
    reveal_strlit("Player");
    reveal_strlit("HttpService");
    reveal_strlit("Part");
    reveal_strlit("Script");
    reveal_strlit("LocalScript");
    reveal_strlit("ModuleScript");
    reveal_strlit("StringValue");
    reveal_strlit("Archivable");
    reveal_strlit("StreamingEnabled");
    reveal_strlit("CharacterAutoLoads");
    reveal_strlit("UserId");
    reveal_strlit("DisplayName");
    reveal_strlit("HttpEnabled");
    reveal_strlit("Anchored");
    reveal_strlit("CanCollide");
    reveal_strlit("Position");
    reveal_strlit("Size");
    reveal_strlit("Color");
    reveal_strlit("Transparency");
    reveal_strlit("Material");
    reveal_strlit("Source");
    reveal_strlit("Value");
    assert("Workspace"@.len() == 9 && "Workspace"@[0] == 'W');
    assert("Players"@.len() == 7 && "Players"@[0] == 'P');
    assert("Player"@.len() == 6 && "Player"@[0] == 'P');
    assert("HttpService"@.len() == 11 && "HttpService"@[0] == 'H');
    assert("Part"@.len() == 4 && "Part"@[0] == 'P');
    assert("Script"@.len() == 6 && "Script"@[0] == 'S');
    assert("LocalScript"@.len() == 11 && "LocalScript"@[0] == 'L');
    assert("ModuleScript"@.len() == 12 && "ModuleScript"@[0] == 'M');
    assert("StringValue"@.len() == 11 && "StringValue"@[0] == 'S');
    assert("Archivable"@.len() == 10 && "Archivable"@[0] == 'A');
    assert("StreamingEnabled"@.len() == 16 && "StreamingEnabled"@[0] == 'S');
    assert("CharacterAutoLoads"@.len() == 18 && "CharacterAutoLoads"@[0] == 'C');
    assert("UserId"@.len() == 6 && "UserId"@[0] == 'U');
    assert("DisplayName"@.len() == 11 && "DisplayName"@[0] == 'D');
    assert("HttpEnabled"@.len() == 11 && "HttpEnabled"@[0] == 'H');
    assert("Anchored"@.len() == 8 && "Anchored"@[0] == 'A');
    assert("CanCollide"@.len() == 10 && "CanCollide"@[0] == 'C');
    assert("Position"@.len() == 8 && "Position"@[0] == 'P');
    assert("Size"@.len() == 4 && "Size"@[0] == 'S');
    assert("Color"@.len() == 5 && "Color"@[0] == 'C');
    assert("Transparency"@.len() == 12 && "Transparency"@[0] == 'T');
    assert("Material"@.len() == 8 && "Material"@[0] == 'M');
    assert("Source"@.len() == 6 && "Source"@[0] == 'S');
    assert("Value"@.len() == 5 && "Value"@[0] == 'V');
}

/// The values with which properties begin: everything can be stored, parts are held in place and collide
/// with nothing, services are switched on, and scripts and values hold nothing yet.
pub proof fn law_first_values(class_name: Text)
    ensures
        ({
            let first = initial_properties(class_name);
            &&& first.contains_pair("Archivable"@, ValueView::Bool(true))
            &&& class_name == "Part"@ ==> {
                &&& first.contains_pair("Anchored"@, ValueView::Bool(true))
                &&& first.contains_pair("CanCollide"@, ValueView::Bool(false))
                &&& first.contains_pair("Transparency"@, ValueView::Number(Number { bits: 0 }))
                &&& first.contains_pair("Material"@, ValueView::String("Plastic"@))
                &&& first.contains_pair("Position"@, ValueView::Vector3(math::zero_vector()))
                &&& first.contains_pair("Color"@, ValueView::Color3(math::gray_color()))
                &&& first.contains_key("Size"@) && first["Size"@] is Vector3
            }
            &&& class_name == "Players"@ ==> first.contains_pair(
                "CharacterAutoLoads"@,
                ValueView::Bool(true),
            )
            &&& class_name == "HttpService"@ ==> first.contains_pair("HttpEnabled"@, ValueView::Bool(true))
            &&& class_name == "Workspace"@ ==> first.contains_pair(
                "StreamingEnabled"@,
                ValueView::Bool(false),
            )
            &&& class_name == "Player"@ ==> first.contains_pair(
                "DisplayName"@,
                ValueView::String("Player"@),
            ) && first.contains_key("UserId"@) && first["UserId"@] is Number
            &&& class_name == "Script"@ || class_name == "LocalScript"@ || class_name == "ModuleScript"@
                ==> first.contains_pair("Source"@, ValueView::String(Seq::empty()))
            &&& class_name == "StringValue"@ ==> first.contains_pair(
                "Value"@,
                ValueView::BinaryString(Seq::empty()),
            )
        }),
{
    lemma_property_texts();
}

/// The properties with which instances of a class begin.
pub fn default_properties(class_name: &str) -> (r: Vec<Property>)
    ensures
        property_map(r@) == initial_properties(class_name@),
{
    let mut list: Vec<Property> = Vec::new();
    put_property(&mut list, "Archivable", PropertyValue::Bool(true));
    assert(property_map(list@) =~= map!["Archivable"@ => ValueView::Bool(true)]);
    let one = Number { bits: 0x3ff0_0000_0000_0000 };
    if text_eq(class_name, "Workspace") {
        put_property(&mut list, "StreamingEnabled", PropertyValue::Bool(false));
    } else if text_eq(class_name, "Players") {
        put_property(&mut list, "CharacterAutoLoads", PropertyValue::Bool(true));
    } else if text_eq(class_name, "Player") {
        put_property(&mut list, "UserId", PropertyValue::Number(one));
        put_property(&mut list, "DisplayName", PropertyValue::String("Player".to_owned()));
    } else if text_eq(class_name, "HttpService") {
        put_property(&mut list, "HttpEnabled", PropertyValue::Bool(true));
    } else if text_eq(class_name, "Part") {
        let two = Number { bits: 0x4000_0000_0000_0000 };
        let four = Number { bits: 0x4010_0000_0000_0000 };
        put_property(&mut list, "Anchored", PropertyValue::Bool(true));
        put_property(&mut list, "CanCollide", PropertyValue::Bool(false));
        put_property(&mut list, "Position", PropertyValue::Vector3(Vector3::zero()));
        put_property(&mut list, "Size", PropertyValue::Vector3(Vector3::new(four, one, two)));
        put_property(&mut list, "Color", PropertyValue::Color3(Color3::gray()));
        put_property(&mut list, "Transparency", PropertyValue::Number(Number { bits: 0 }));
        put_property(&mut list, "Material", PropertyValue::String("Plastic".to_owned()));
    } else if script_class(class_name) {
        let empty = String::new();
        assert(empty@ =~= text::blank());
        put_property(&mut list, "Source", PropertyValue::String(empty));
    } else if text_eq(class_name, "StringValue") {
        put_property(&mut list, "Value", PropertyValue::BinaryString(Vec::new()));
    }
    list
}

// ---------------------------------------------------------------------------------------------
// Instances
// ---------------------------------------------------------------------------------------------

/// The signal for changes of one property.
#[derive(Clone, Debug)]
pub struct PropertySignal {
    pub property: String,
    pub signal: Signal,
}

/// The content of a [`PropertySignal`].
#[verifier::ext_equal]
pub struct PropertySignalView {
    pub property: Text,
    pub signal: SignalView,
}

impl View for PropertySignal {
    type V = PropertySignalView;

    open spec fn view(&self) -> PropertySignalView {
        PropertySignalView { property: self.property@, signal: self.signal@ }
    }
}

/// An object of the instance tree. Other instances are referred to by their positions in the list
/// of all instances.
#[derive(Debug)]
pub struct Instance {
    pub id: u64,
    pub class_name: String,
    pub name: String,
    pub parent: Option<usize>,
    pub children: Vec<usize>,
    pub properties: Vec<Property>,
    pub events: Vec<Signal>,
    pub property_signals: Vec<PropertySignal>,
    pub script_path: Option<String>,
    pub network_owner_name: Option<String>,
    pub client_authoritative: bool,
    pub is_service: bool,
    pub destroyed: bool,
}

/// The content of an [`Instance`].
#[verifier::ext_equal]
pub struct InstanceView {
    pub id: u64,
    pub class_name: Text,
    pub name: Text,
    pub parent: Option<usize>,
    pub children: Seq<usize>,
    pub properties: Map<Text, ValueView>,
    pub events: Seq<SignalView>,
    pub property_signals: Seq<PropertySignalView>,
    pub script_path: Option<Text>,
    pub network_owner_name: Option<Text>,
    pub client_authoritative: bool,
    pub is_service: bool,
    pub destroyed: bool,
}

impl View for Instance {
    type V = InstanceView;

    open spec fn view(&self) -> InstanceView {
        InstanceView {
            id: self.id,
            class_name: self.class_name@,
            name: self.name@,
            parent: self.parent,
            children: self.children@,
            properties: property_map(self.properties@),
            events: text::views(self.events@),
            property_signals: text::views(self.property_signals@),
            script_path: text::opt_view(self.script_path),
            network_owner_name: text::opt_view(self.network_owner_name),
            client_authoritative: self.client_authoritative,
            is_service: self.is_service,
            destroyed: self.destroyed,
        }
    }
}

/// Signals without listeners for the given names.
pub open spec fn fresh_signals(names: Seq<Text>) -> Seq<SignalView> {
    names.map_values(|name: Text| signal::new_signal(name))
}

/// A new instance.
pub open spec fn new_instance(
    id: u64,
    class_name: Text,
    name: Text,
    is_service: bool,
) -> InstanceView {
    InstanceView {
        id,
        class_name,
        name,
        parent: None,
        children: Seq::empty(),
        properties: initial_properties(class_name),
        events: fresh_signals(event_names(class_name)),
        property_signals: Seq::empty(),
        script_path: None,
        network_owner_name: None,
        client_authoritative: false,
        is_service,
        destroyed: false,
    }
}

/// The position of the first signal with the given name, or the number of signals where there is
/// none.
pub open spec fn event_at(events: Seq<SignalView>, name: Text) -> nat
    decreases events.len(),
{
    if events.len() == 0 {
        0
    } else {
        let k = event_at(events.drop_last(), name);
        if k < events.len() - 1 || events.last().name == name {
            k
        } else {
            events.len()
        }
    }
}

/// The position of the first signal for the given property, or the number of signals where there is
/// none.
pub open spec fn property_signal_at(signals: Seq<PropertySignalView>, property: Text) -> nat
    decreases signals.len(),
{
    if signals.len() == 0 {
        0
    } else {
        let k = property_signal_at(signals.drop_last(), property);
        if k < signals.len() - 1 || signals.last().property == property {
            k
        } else {
            signals.len()
        }
    }
}

/// Where a signal is found, its name stands there.
pub proof fn lemma_event_at(events: Seq<SignalView>, name: Text)
    ensures
        event_at(events, name) <= events.len(),
        event_at(events, name) < events.len() ==> events[event_at(events, name) as int].name
            == name,
        forall|i: int| 0 <= i < event_at(events, name) ==> (#[trigger] events[i]).name != name,
    decreases events.len(),
{
    if events.len() > 0 {
        let init = events.drop_last();
        lemma_event_at(init, name);
        assert forall|i: int| 0 <= i < event_at(events, name) implies (#[trigger] events[i]).name
            != name by {
            if i < init.len() {
                assert(init[i] == events[i]);
            }
        }
    }
}

/// Where a signal is found, its property stands there.
pub proof fn lemma_property_signal_at(signals: Seq<PropertySignalView>, property: Text)
    ensures
        property_signal_at(signals, property) <= signals.len(),
        property_signal_at(signals, property) < signals.len() ==> signals[property_signal_at(
            signals,
            property,
        ) as int].property == property,
        forall|i: int|
            0 <= i < property_signal_at(signals, property) ==> (#[trigger] signals[i]).property
                != property,
    decreases signals.len(),
{
    if signals.len() > 0 {
        let init = signals.drop_last();
        lemma_property_signal_at(init, property);
        assert forall|i: int| 0 <= i < property_signal_at(signals, property) implies (
        #[trigger] signals[i]).property != property by {
            if i < init.len() {
                assert(init[i] == signals[i]);
            }
        }
    }
}

/// What a property is, with the name and the class among the properties.
pub open spec fn property_of(instance: InstanceView, name: Text) -> Option<ValueView> {
    if name == "Name"@ {
        Some(ValueView::String(instance.name))
    } else if name == "ClassName"@ {
        Some(ValueView::String(instance.class_name))
    } else if instance.properties.contains_key(name) {
        Some(instance.properties[name])
    } else {
        None
    }
}

/// What comes of setting a property: whether the value was another one before, or why the property
/// cannot be set.
pub open spec fn set_outcome(instance: InstanceView, name: Text, value: ValueView) -> Result<
    bool,
    Text,
> {
    if name == "Name"@ {
        match value {
            ValueView::String(new_name) => Ok(new_name != instance.name),
            _ => Err("Name must be a string"@),
        }
    } else if name == "ClassName"@ {
        Err("ClassName is read-only"@)
    } else {
        match kind_for(instance.class_name, name) {
            None => Err(
                "Unknown property '"@ + name + "' on "@ + instance.class_name,
            ),
            Some(kind) => match kind_check(kind, value) {
                Err(message) => Err(message),
                Ok(()) => Ok(
                    !(instance.properties.contains_key(name) && same_value(
                        instance.properties[name],
                        value,
                    )),
                ),
            },
        }
    }
}

/// The instance after setting a property.
pub open spec fn with_property(
    instance: InstanceView,
    name: Text,
    value: ValueView,
) -> InstanceView {
    if set_outcome(instance, name, value) != Ok::<bool, Text>(true) {
        instance
    } else if name == "Name"@ {
        InstanceView { name: value->String_0, ..instance }
    } else {
        InstanceView { properties: instance.properties.insert(name, value), ..instance }
    }
}

/// An instance like the given one, with a number of its own and outside the tree. Nothing is
/// connected to its signals.
pub open spec fn shallow_clone(instance: InstanceView, new_id: u64) -> InstanceView {
    InstanceView {
        id: new_id,
        parent: None,
        children: Seq::empty(),
        events: fresh_signals(instance.events.map_values(|signal: SignalView| signal.name)),
        property_signals: Seq::empty(),
        is_service: false,
        destroyed: false,
        ..instance
    }
}

impl InstanceView {
    /// Whether all signals are well-formed.
    pub open spec fn wf(&self) -> bool {
        &&& forall|i: int| 0 <= i < self.events.len() ==> (#[trigger] self.events[i]).wf()
        &&& forall|i: int|
            0 <= i < self.property_signals.len() ==> (
            #[trigger] self.property_signals[i]).signal.wf()
    }
}

fn make_signals(names: &Vec<&'static str>) -> (r: Vec<Signal>)
    ensures
        text::views(r@) == fresh_signals(names@.map_values(|s: &'static str| s@)),
{
    let mut out: Vec<Signal> = Vec::new();
    let mut i: usize = 0;
    while i < names.len()
        invariant
            i <= names@.len(),
            out@.len() == i,
            forall|k: int| 0 <= k < i ==> (#[trigger] out@[k])@ == signal::new_signal(names@[k]@),
        decreases names@.len() - i,
    {
        out.push(Signal::named(names[i]));
        i += 1;
    }
    assert(text::views(out@) =~= fresh_signals(names@.map_values(|s: &'static str| s@)));
    out
}

impl Instance {
    /// A new instance, outside the tree.
    pub fn new(id: u64, class_name: &str, name: &str, is_service: bool) -> (r: Instance)
        ensures
            r@ == new_instance(id, class_name@, name@, is_service),
            r@.wf(),
    {
        let names = default_events(class_name);
        let r = Instance {
            id,
            class_name: class_name.to_owned(),
            name: name.to_owned(),
            parent: None,
            children: Vec::new(),
            properties: default_properties(class_name),
            events: make_signals(&names),
            property_signals: Vec::new(),
            script_path: None,
            network_owner_name: None,
            client_authoritative: false,
            is_service,
            destroyed: false,
        };
        assert(r@ =~= new_instance(id, class_name@, name@, is_service));
        r
    }

    /// The parent, which stays whether or not anything else refers to it.
    pub fn get_parent(&self) -> (r: Option<usize>)
        ensures
            r == self@.parent,
    {
        self.parent
    }

    /// The position of the event with the given name.
    pub fn find_event(&self, name: &str) -> (r: Option<usize>)
        ensures
            match r {
                Some(k) => k == event_at(self@.events, name@) && k < self@.events.len(),
                None => event_at(self@.events, name@) == self@.events.len(),
            },
    {
        let ghost all = self@.events;
        let mut i: usize = 0;
        while i < self.events.len()
            invariant
                i <= self.events@.len(),
                all == self@.events,
                forall|k: int| 0 <= k < i ==> (#[trigger] all[k]).name != name@,
            decreases self.events@.len() - i,
        {
            let found = text_eq(self.events[i].name().as_str(), name);
            assert(all[i as int] == self.events@[i as int]@);
            if found {
                proof {
                    lemma_event_at(all, name@);
                    let p = event_at(all, name@);
                    if p > i {
                        assert(all[i as int].name != name@);
                    }
                }
                return Some(i);
            }
            i += 1;
        }
        proof {
            lemma_event_at(all, name@);
        }
        None
    }

    /// The position of the signal for changes of a property.
    pub fn find_property_signal(&self, property_name: &str) -> (r: Option<usize>)
        ensures
            match r {
                Some(k) => k == property_signal_at(self@.property_signals, property_name@) && k
                    < self@.property_signals.len(),
                None => property_signal_at(self@.property_signals, property_name@)
                    == self@.property_signals.len(),
            },
    {
        let ghost all = self@.property_signals;
        let mut i: usize = 0;
        while i < self.property_signals.len()
            invariant
                i <= self.property_signals@.len(),
                all == self@.property_signals,
                forall|k: int| 0 <= k < i ==> (#[trigger] all[k]).property != property_name@,
            decreases self.property_signals@.len() - i,
        {
            let found = text_eq(self.property_signals[i].property.as_str(), property_name);
            assert(all[i as int] == self.property_signals@[i as int]@);
            if found {
                proof {
                    lemma_property_signal_at(all, property_name@);
                    let p = property_signal_at(all, property_name@);
                    if p > i {
                        assert(all[i as int].property != property_name@);
                    }
                }
                return Some(i);
            }
            i += 1;
        }
        proof {
            lemma_property_signal_at(all, property_name@);
        }
        None
    }

    /// The position of the signal for changes of a property, which is made where there is none yet.
    pub fn ensure_property_signal(&mut self, property_name: &str) -> (r: usize)
        requires
            old(self)@.wf(),
        ensures
            final(self)@.wf(),
            r == property_signal_at(old(self)@.property_signals, property_name@),
            r < final(self)@.property_signals.len(),
            final(self)@ == with_property_signal(old(self)@, property_name@),
    {
        let ghost before = self@;
        match self.find_property_signal(property_name) {
            Some(k) => k,
            None => {
                let signal = PropertySignal {
                    property: property_name.to_owned(),
                    signal: Signal::named(concat2(property_name, ".Changed").as_str()),
                };
                let k = self.property_signals.len();
                proof {
                    text::lemma_views_push(self.property_signals@, signal);
                }
                self.property_signals.push(signal);
                assert(self@ =~= with_property_signal(before, property_name@));
                k
            },
        }
    }

    /// What a property is, with the name and the class among the properties.
    pub fn get_property(&self, name: &str) -> (r: Option<PropertyValue>)
        ensures
            text::opt_view(r) == property_of(self@, name@),
    {
        if text_eq(name, "Name") {
            Some(PropertyValue::String(self.name.as_str().to_owned()))
        } else if text_eq(name, "ClassName") {
            Some(PropertyValue::String(self.class_name.as_str().to_owned()))
        } else {
            property_value(&self.properties, name)
        }
    }

    /// Sets a property. The result says whether the value was another one before.
    pub fn set_property(&mut self, name: &str, value: PropertyValue) -> (r: Result<bool, Error>)
        ensures
            error::flag_view(r) == set_outcome(old(self)@, name@, value@),
            final(self)@ == with_property(old(self)@, name@, value@),
    {
        let ghost before = self@;
        if text_eq(name, "Name") {
            match value {
                PropertyValue::String(new_name) => {
                    let changed = !text_eq(self.name.as_str(), new_name.as_str());
                    if changed {
                        self.name = new_name;
                    }
                    assert(self@ =~= with_property(before, name@, value@));
                    Ok(changed)
                },
                _ => Err(failure("Name must be a string")),
            }
        } else if text_eq(name, "ClassName") {
            Err(failure("ClassName is read-only"))
        } else {
            let kind = match property_kind(self.class_name.as_str(), name) {
                Some(kind) => kind,
                None => {
                    let mut message = concat3("Unknown property '", name, "' on ");
                    message.append(self.class_name.as_str());
                    return Err(failure(message.as_str()));
                },
            };
            if let Err(error) = validate_property_kind(kind, &value) {
                return Err(error);
            }
            let changed = match property_value(&self.properties, name) {
                Some(current) => !current.equals(&value),
                None => true,
            };
            if changed {
                put_property(&mut self.properties, name, value);
            }
            assert(self@ =~= with_property(before, name@, value@));
            Ok(changed)
        }
    }

    /// Whether the instance counts as one of the given class.
    pub fn is_a(&self, class_name: &str) -> (r: bool)
        ensures
            r == derives(self@.class_name, class_name@),
    {
        is_a_class(self.class_name.as_str(), class_name)
    }

    /// Fails where the instance has been destroyed.
    pub fn assert_alive(&self) -> (r: Result<(), Error>)
        ensures
            error::unit_view(r) == alive_check(self@),
    {
        if self.destroyed {
            Err(failure(concat2(self.name.as_str(), " has been destroyed").as_str()))
        } else {
            Ok(())
        }
    }

    /// An instance like this one, with a number of its own and outside the tree.
    pub fn clone_shallow(&self, new_id: u64) -> (r: Instance)
        ensures
            r@ == shallow_clone(self@, new_id),
            r@.wf(),
    {
        let mut events: Vec<Signal> = Vec::new();
        let mut i: usize = 0;
        while i < self.events.len()
            invariant
                i <= self.events@.len(),
                events@.len() == i,
                forall|k: int|
                    0 <= k < i ==> (#[trigger] events@[k])@ == signal::new_signal(self.events@[k]@.name),
            decreases self.events@.len() - i,
        {
            events.push(Signal::named(self.events[i].name().as_str()));
            i += 1;
        }
        let r = Instance {
            id: new_id,
            class_name: self.class_name.as_str().to_owned(),
            name: self.name.as_str().to_owned(),
            parent: None,
            children: Vec::new(),
            properties: copy_properties(&self.properties),
            events,
            property_signals: Vec::new(),
            script_path: copy_opt_text(&self.script_path),
            network_owner_name: copy_opt_text(&self.network_owner_name),
            client_authoritative: self.client_authoritative,
            is_service: false,
            destroyed: false,
        };
        assert(r@ =~= shallow_clone(self@, new_id));
        r
    }
}

/// The instance with a signal for changes of the given property.
pub open spec fn with_property_signal(instance: InstanceView, property: Text) -> InstanceView {
    if property_signal_at(instance.property_signals, property)
        < instance.property_signals.len() {
        instance
    } else {
        InstanceView {
            property_signals: instance.property_signals.push(
                PropertySignalView { property, signal: signal::new_signal(property + ".Changed"@) },
            ),
            ..instance
        }
    }
}

/// What comes of asking whether an instance has not been destroyed.
pub open spec fn alive_check(instance: InstanceView) -> Result<(), Text> {
    if instance.destroyed {
        Err(instance.name + " has been destroyed"@)
    } else {
        Ok(())
    }
}

// ---------------------------------------------------------------------------------------------
// The tree of instances
// ---------------------------------------------------------------------------------------------

/// The lists of children.
pub open spec fn kids_of(nodes: Seq<InstanceView>) -> Seq<Seq<usize>> {
    nodes.map_values(|node: InstanceView| node.children)
}

/// The parents.
pub open spec fn ups_of(nodes: Seq<InstanceView>) -> Seq<Option<usize>> {
    nodes.map_values(|node: InstanceView| node.parent)
}

/// Whether walks through the tree stay in range and end.
pub open spec fn tree_wf(nodes: Seq<InstanceView>) -> bool {
    &&& nodes.len() <= usize::MAX
    &&& tree::in_range(kids_of(nodes))
    &&& tree::acyclic(kids_of(nodes))
    &&& tree::rooted(ups_of(nodes))
}

/// The names from the top of the tree down to an instance, with dots between them.
pub open spec fn full_name_of(nodes: Seq<InstanceView>, i: usize) -> Text {
    text::join(
        tree::lineage(ups_of(nodes), i).reverse().map_values(|k: usize| nodes[k as int].name),
        seq!['.'],
    )
}

fn collect_below(
    instances: &Vec<Instance>,
    i: usize,
    out: &mut Vec<usize>,
    Ghost(rank): Ghost<spec_fn(int) -> nat>,
)
    requires
        tree::in_range(kids_of(text::views(instances@))),
        tree::ranked(kids_of(text::views(instances@)), rank),
        i < instances@.len(),
    ensures
        final(out)@ == old(out)@ + tree::descendants(kids_of(text::views(instances@)), i),
    decreases rank(i as int),
{
    let ghost kids = kids_of(text::views(instances@));
    let ghost start = out@;
    let ghost list = kids[i as int];
    let ghost n = kids.len();
    assert(tree::acyclic(kids));
    assert(list == instances@[i as int].children@);
    let mut k: usize = 0;
    assert(list.take(0) =~= Seq::empty());
    assert(start + tree::list_below(kids, list.take(0), n) =~= start);
    while k < instances[i].children.len()
        invariant
            i < instances@.len(),
            k <= list.len(),
            kids == kids_of(text::views(instances@)),
            n == kids.len(),
            tree::in_range(kids),
            tree::ranked(kids, rank),
            tree::acyclic(kids),
            list == kids[i as int],
            list == instances@[i as int].children@,
            out@ == start + tree::list_below(kids, list.take(k as int), n),
        decreases list.len() - k,
    {
        let child = instances[i].children[k];
        let ghost done = tree::list_below(kids, list.take(k as int), n);
        assert(kids[i as int][k as int] == child);
        assert(child < kids.len());
        assert(rank(kids[i as int][k as int] as int) < rank(i as int));
        out.push(child);
        collect_below(instances, child, out, Ghost(rank));
        proof {
            tree::lemma_subtree_unfold(kids, child);
            assert(list.take(k + 1).drop_last() =~= list.take(k as int));
            assert(list.take(k + 1).last() == child);
            assert(out@ =~= start + (done + tree::subtree(kids, child)));
        }
        k += 1;
    }
    assert(list.take(k as int) =~= list);
}

impl Instance {
    /// Everything below an instance, each instance before the ones below it.
    pub fn all_descendants(instances: &Vec<Instance>, instance: usize) -> (r: Vec<usize>)
        requires
            tree_wf(text::views(instances@)),
            instance < instances@.len(),
        ensures
            r@ == tree::descendants(kids_of(text::views(instances@)), instance),
    {
        let mut out: Vec<usize> = Vec::new();
        let ghost rank = choose|rank: spec_fn(int) -> nat|
            tree::ranked(kids_of(text::views(instances@)), rank);
        collect_below(instances, instance, &mut out, Ghost(rank));
        assert(out@ =~= tree::descendants(kids_of(text::views(instances@)), instance));
        out
    }

    /// The names from the top of the tree down to an instance, with dots between them.
    pub fn full_name(instances: &Vec<Instance>, instance: usize) -> (r: String)
        requires
            tree_wf(text::views(instances@)),
            instance < instances@.len(),
        ensures
            r@ == full_name_of(text::views(instances@), instance),
    {
        let ghost nodes = text::views(instances@);
        let ghost ups = ups_of(nodes);
        let ghost line = tree::lineage(ups, instance);
        let ghost mut left = line;
        let ghost mut done: Seq<usize> = Seq::empty();
        let mut names: Vec<String> = Vec::new();
        let mut cursor: Option<usize> = Some(instance);
        assert(done + left =~= line);
        while cursor.is_some()
            invariant
                nodes == text::views(instances@),
                ups == ups_of(nodes),
                tree::rooted(ups),
                ups.len() == instances@.len(),
                line == done + left,
                match cursor {
                    Some(at) => at < instances@.len() && left == tree::lineage(ups, at),
                    None => left.len() == 0,
                },
                names@.len() == done.len(),
                forall|k: int|
                    0 <= k < done.len() ==> (#[trigger] names@[k])@ == nodes[done[k] as int].name,
            decreases left.len(),
        {
            let current: usize = cursor.unwrap();
            proof {
                tree::lemma_lineage(ups, current);
            }
            names.push(instances[current].name.as_str().to_owned());
            cursor = instances[current].parent;
            proof {
                let rest = left.skip(1);
                assert(left[0] == current);
                assert(line =~= done.push(current) + rest);
                match ups[current as int] {
                    Some(up) => {
                        assert(rest =~= tree::lineage(ups, up));
                    },
                    None => {
                        assert(rest =~= Seq::empty());
                    },
                }
                done = done.push(current);
                left = rest;
            }
        }
        assert(line =~= done);
        let names = reversed(names);
        proof {
            reveal_strlit(".");
            assert("."@ =~= seq!['.']);
            assert(text::views(names@) =~= line.reverse().map_values(
                |k: usize| nodes[k as int].name,
            ));
        }
        joined(&names, ".")
    }
}

} // verus!
