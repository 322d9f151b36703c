use roblox_luau_env::project::{LoadedProject, ProjectFile};
use roblox_luau_env::rbxlx::{
    ReferentAllocator, escape_cdata, project_to_rbxlx, project_to_rbxmx, xml_escape,
};

fn file(path: &str, bytes: &[u8]) -> ProjectFile {
    ProjectFile { relative_path: path.to_string(), bytes: bytes.to_vec() }
}

#[test]
fn exports_init_directory_as_module_script() {
    let project = LoadedProject {
        files: vec![
            file("ReplicatedStorage/Foo/init.luau", b"return {}"),
            file("ReplicatedStorage/Foo/Child.luau", b"return 5"),
        ],
    };

    let xml = project_to_rbxlx(&project).expect("xml");
    assert!(xml.contains("<Item class=\"ReplicatedStorage\""));
    assert!(xml.contains("<Item class=\"ModuleScript\""));
    assert!(xml.contains("<string name=\"Name\">Foo</string>"));
    assert!(xml.contains("<string name=\"Name\">Child</string>"));
}

#[test]
fn markup_is_escaped() {
    assert_eq!(xml_escape("a<b>&\"c\"'d'"), "a&lt;b&gt;&amp;&quot;c&quot;&apos;d&apos;");
    assert_eq!(xml_escape("plain é"), "plain é");
    assert_eq!(xml_escape("&amp;"), "&amp;amp;");
}

#[test]
fn ampersands_begin_entities() {
    let escaped = xml_escape("a&b &amp; <&> '\" && &#38;");
    let entities = ["&amp;", "&lt;", "&gt;", "&quot;", "&apos;"];
    assert_eq!(escaped.matches('&').count(), 10);
    for (at, _) in escaped.match_indices('&') {
        assert!(entities.iter().any(|entity| escaped[at..].starts_with(entity)), "{escaped}");
    }
}

#[test]
fn sections_are_split_where_they_would_end() {
    assert_eq!(escape_cdata("a]]>b"), "a]]]]><![CDATA[>b");
    assert_eq!(escape_cdata("]]>]]>"), "]]]]><![CDATA[>]]]]><![CDATA[>");
    assert_eq!(escape_cdata("]]"), "]]");
    assert_eq!(escape_cdata("a]]>b"), "a]]>b".replace("]]>", "]]]]><![CDATA[>"));
}

#[test]
fn referents_count_up() {
    let mut referents = ReferentAllocator::new();
    let first: Vec<String> = (0..12).map(|_| referents.next()).collect();
    assert_eq!(first[0], "RBX1");
    assert_eq!(first[9], "RBX10");
    assert_eq!(first[11], "RBX12");
}

#[test]
fn a_model_holds_the_project_without_services() {
    let project = LoadedProject {
        files: vec![file("Workspace/Boot.server.luau", b"print(\"]]>\")")],
    };
    let xml = project_to_rbxmx(&project).expect("xml");
    assert!(xml.starts_with("<?xml version=\"1.0\" encoding=\"utf-8\"?>\n<roblox version=\"4\">\n"));
    assert!(xml.contains("<Item class=\"Script\""));
    assert!(xml.contains("]]]]><![CDATA[>"));
    assert_eq!(xml.matches("</Item>").count(), xml.matches("<Item ").count());
}

#[test]
fn exports_report_scripts_that_are_no_text() {
    let project = LoadedProject { files: vec![file("Workspace/a.luau", &[0x80])] };
    assert!(project_to_rbxlx(&project).is_err());
    assert!(project_to_rbxmx(&project).is_err());
}

#[test]
fn a_place_is_written_item_by_item() {
    let project = LoadedProject {
        files: vec![
            file("ExternalData/raw.bin", &[0xff]),
            file("ExternalData/note.txt", b"a&b"),
            file("Workspace/Boot.server.luau", b"x"),
        ],
    };
    let xml = project_to_rbxlx(&project).expect("xml");
    assert_eq!(
        xml,
        "<?xml version=\"1.0\" encoding=\"utf-8\"?>\n\
<roblox version=\"4\">\n\
\x20 <External>null</External>\n\
\x20 <External>null</External>\n\
\x20 <Item class=\"StringValue\" referent=\"RBX1\">\n\
\x20   <Properties>\n\
\x20     <string name=\"Name\">raw.bin</string>\n\
\x20   </Properties>\n\
\x20 </Item>\n\
\x20 <Item class=\"StringValue\" referent=\"RBX2\">\n\
\x20   <Properties>\n\
\x20     <string name=\"Name\">note.txt</string>\n\
\x20     <string name=\"Value\">a&amp;b</string>\n\
\x20   </Properties>\n\
\x20 </Item>\n\
\x20 <Item class=\"Workspace\" referent=\"RBX3\">\n\
\x20   <Properties>\n\
\x20     <string name=\"Name\">Workspace</string>\n\
\x20   </Properties>\n\
\x20   <Item class=\"Script\" referent=\"RBX4\">\n\
\x20     <Properties>\n\
\x20       <string name=\"Name\">Boot</string>\n\
\x20       <ProtectedString name=\"Source\"><![CDATA[x]]></ProtectedString>\n\
\x20       <string name=\"RunContext\">Server</string>\n\
\x20     </Properties>\n\
\x20   </Item>\n\
\x20 </Item>\n\
</roblox>\n"
    );
}
