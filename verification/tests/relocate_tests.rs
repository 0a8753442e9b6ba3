use csprojtool::paths::{absolute, parse_path, path_eq, FsPath};
use csprojtool::relocate::{
    check_nested, ensure_root_namespace_and_assembly_name, fix_inbound_references,
    out_of_tree_candidates, resolve_destination, rewrite_out_of_tree_values, select_dir_csproj,
    MoveCommand, MoveError,
};
use csprojtool::xml::{XmlElement, XmlNode};

fn p(s: &str) -> FsPath {
    parse_path(s).simplify()
}

fn elem(name: &str, attributes: Vec<(&str, &str)>, children: Vec<XmlNode>) -> XmlElement {
    XmlElement {
        name: name.to_string(),
        attributes: attributes
            .into_iter()
            .map(|(k, v)| (k.to_string(), v.to_string()))
            .collect(),
        children,
    }
}

fn attr_of(n: &XmlNode, key: &str) -> Option<String> {
    match n {
        XmlNode::Element(e) => e
            .attributes
            .iter()
            .find(|(k, _)| k == key)
            .map(|(_, v)| v.clone()),
        _ => None,
    }
}

#[test]
fn move_command_keeps_its_arguments() {
    let c = MoveCommand::new("old/path".to_string(), "new/path".to_string());
    assert_eq!(c.old, "old/path");
    assert_eq!(c.new, "new/path");
}

#[test]
fn select_dir_csproj_requires_exactly_one() {
    assert!(matches!(select_dir_csproj(&vec![]), Err(MoveError::NoProjectInDir)));
    let one = vec![p("/r/a/a.csproj")];
    let got = select_dir_csproj(&one).unwrap();
    assert!(path_eq(&got, &one[0]));
    let two = vec![p("/r/a/a.csproj"), p("/r/a/b.csproj")];
    assert!(matches!(select_dir_csproj(&two), Err(MoveError::MultipleProjectsInDir)));
}

#[test]
fn destination_with_extension_is_the_new_file() {
    let (dir, file) = resolve_destination(&parse_path("B/New.csproj"), &p("/repo"), &"Old.csproj".to_string());
    assert_eq!(dir.render(), "/repo/B");
    assert_eq!(file.render(), "/repo/B/New.csproj");
}

#[test]
fn destination_directory_keeps_the_original_file_name() {
    let (dir, file) = resolve_destination(&parse_path("B/sub"), &p("/repo"), &"Old.csproj".to_string());
    assert_eq!(dir.render(), "/repo/B/sub");
    assert_eq!(file.render(), "/repo/B/sub/Old.csproj");
}

#[test]
fn nested_project_is_fatal_before_any_mutation() {
    // The moved directory holds an unrelated project: fatal, and the check
    // itself mutates nothing - it only reads the discovered set.
    let projects = vec![p("/r/A/A.csproj"), p("/r/A/inner/B.csproj"), p("/r/C/C.csproj")];
    let r = check_nested(&projects, &p("/r/A"), &p("/r/A/A.csproj"));
    assert!(matches!(r, Err(MoveError::NestedProjects)));
    let ok = vec![p("/r/A/A.csproj"), p("/r/C/C.csproj")];
    assert!(check_nested(&ok, &p("/r/A"), &p("/r/A/A.csproj")).is_ok());
}

#[test]
fn inbound_reference_is_rewritten_and_resolves_to_the_new_path() {
    // Q at /repo/Q references P at /repo/A/A.csproj; P moves to
    // /repo/B/A/A.csproj.
    let mut doc = XmlNode::Element(elem(
        "Project",
        vec![],
        vec![XmlNode::Element(elem(
            "ItemGroup",
            vec![],
            vec![XmlNode::Element(elem(
                "ProjectReference",
                vec![("Include", "../A/A.csproj")],
                vec![],
            ))],
        ))],
    ));
    let q_dir = p("/repo/Q");
    let old_file = p("/repo/A/A.csproj");
    let new_file = p("/repo/B/A/A.csproj");
    let edited = fix_inbound_references(&mut doc, &q_dir, &old_file, &new_file);
    assert!(edited);
    let item_group = match &doc {
        XmlNode::Element(e) => &e.children[0],
        _ => panic!("element expected"),
    };
    let reference = match item_group {
        XmlNode::Element(e) => &e.children[0],
        _ => panic!("element expected"),
    };
    let new_value = attr_of(reference, "Include").unwrap();
    assert_eq!(new_value, "../B/A/A.csproj");
    // Reference integrity: the new value resolves to the new path.
    let resolved = absolute(&parse_path(&new_value), &q_dir);
    assert!(path_eq(&resolved, &new_file));
}

#[test]
fn unrelated_references_are_left_alone() {
    let mut doc = XmlNode::Element(elem(
        "ProjectReference",
        vec![("Include", "../Other/Other.csproj")],
        vec![],
    ));
    let edited = fix_inbound_references(
        &mut doc,
        &p("/repo/Q"),
        &p("/repo/A/A.csproj"),
        &p("/repo/B/A/A.csproj"),
    );
    assert!(!edited);
    assert_eq!(attr_of(&doc, "Include").unwrap(), "../Other/Other.csproj");
}

#[test]
fn out_of_tree_value_is_rewritten_when_its_target_exists() {
    let mut doc = XmlNode::Element(elem(
        "Project",
        vec![],
        vec![XmlNode::Element(elem(
            "HintPath",
            vec![],
            vec![XmlNode::Text("../shared/lib".to_string())],
        ))],
    ));
    let old_dir = p("/repo/A");
    let new_dir = p("/repo/B/A");
    let cands = out_of_tree_candidates(&doc, &old_dir);
    assert_eq!(cands.len(), 1);
    assert_eq!(cands[0].render(), "/repo/shared/lib");
    let edited = rewrite_out_of_tree_values(&mut doc, &old_dir, &new_dir, &cands);
    assert!(edited);
    let text = match &doc {
        XmlNode::Element(e) => match &e.children[0] {
            XmlNode::Element(h) => match &h.children[0] {
                XmlNode::Text(t) => t.clone(),
                _ => panic!("text expected"),
            },
            _ => panic!("element expected"),
        },
        _ => panic!("element expected"),
    };
    assert_eq!(text, "../../shared/lib");
    // The rewritten value resolves, from the new directory, to the same target.
    let back = absolute(&parse_path(&text), &new_dir);
    assert_eq!(back.render(), "/repo/shared/lib");
}

#[test]
fn value_without_existing_target_is_left_untouched() {
    // The old resolution is not on disk: the value may be a placeholder and
    // stays byte-for-byte as it was.
    let mut doc = XmlNode::Text("../missing/file".to_string());
    let existing: Vec<FsPath> = vec![];
    let edited = rewrite_out_of_tree_values(&mut doc, &p("/repo/A"), &p("/repo/B/A"), &existing);
    assert!(!edited);
    assert!(matches!(&doc, XmlNode::Text(t) if t == "../missing/file"));
}

#[test]
fn document_without_out_of_tree_values_is_untouched() {
    // The no-op round trip, outbound half: nothing is flagged, nothing
    // changes, nothing is persisted.
    let mut doc = XmlNode::Element(elem(
        "Project",
        vec![("Sdk", "Microsoft.NET.Sdk")],
        vec![XmlNode::Element(elem(
            "PropertyGroup",
            vec![],
            vec![XmlNode::Text("net6.0".to_string())],
        ))],
    ));
    let cands = out_of_tree_candidates(&doc, &p("/repo/A"));
    assert!(cands.is_empty());
    let edited = rewrite_out_of_tree_values(&mut doc, &p("/repo/A"), &p("/repo/B/A"), &cands);
    assert!(!edited);
}

fn prop_text(pg: &XmlNode, name: &str) -> Option<String> {
    match pg {
        XmlNode::Element(e) => e.children.iter().find_map(|c| match c {
            XmlNode::Element(el) if el.name == name => match el.children.first() {
                Some(XmlNode::Text(t)) => Some(t.clone()),
                _ => Some(String::new()),
            },
            _ => None,
        }),
        _ => None,
    }
}

#[test]
fn backfill_sets_both_identity_properties_from_the_stem() {
    let mut project = elem(
        "Project",
        vec![],
        vec![XmlNode::Element(elem("PropertyGroup", vec![], vec![]))],
    );
    let modified = ensure_root_namespace_and_assembly_name(&mut project, "NewName");
    assert!(modified);
    let pg = &project.children[0];
    assert_eq!(prop_text(pg, "RootNamespace").unwrap(), "NewName");
    assert_eq!(prop_text(pg, "AssemblyName").unwrap(), "NewName");
}

#[test]
fn backfill_adds_only_the_missing_property() {
    let mut project = elem(
        "Project",
        vec![],
        vec![XmlNode::Element(elem(
            "PropertyGroup",
            vec![],
            vec![XmlNode::Element(elem(
                "RootNamespace",
                vec![],
                vec![XmlNode::Text("Kept".to_string())],
            ))],
        ))],
    );
    let modified = ensure_root_namespace_and_assembly_name(&mut project, "NewName");
    assert!(modified);
    let pg = &project.children[0];
    assert_eq!(prop_text(pg, "RootNamespace").unwrap(), "Kept");
    assert_eq!(prop_text(pg, "AssemblyName").unwrap(), "NewName");
}

#[test]
fn backfill_leaves_a_complete_document_untouched() {
    // The no-op round trip, identity half.
    let mut project = elem(
        "Project",
        vec![],
        vec![XmlNode::Element(elem(
            "PropertyGroup",
            vec![],
            vec![
                XmlNode::Element(elem("RootNamespace", vec![], vec![XmlNode::Text("A".to_string())])),
                XmlNode::Element(elem("AssemblyName", vec![], vec![XmlNode::Text("A".to_string())])),
            ],
        ))],
    );
    let modified = ensure_root_namespace_and_assembly_name(&mut project, "NewName");
    assert!(!modified);
    let pg = &project.children[0];
    assert_eq!(prop_text(pg, "RootNamespace").unwrap(), "A");
    assert_eq!(prop_text(pg, "AssemblyName").unwrap(), "A");
    match pg {
        XmlNode::Element(e) => assert_eq!(e.children.len(), 2),
        _ => panic!("element expected"),
    }
}

#[test]
fn backfill_without_property_group_does_nothing() {
    let mut project = elem("Project", vec![], vec![]);
    let modified = ensure_root_namespace_and_assembly_name(&mut project, "NewName");
    assert!(!modified);
    assert!(project.children.is_empty());
}
