use csprojtool::paths::{parse_path, FsPath};
use csprojtool::tree::{create_solution, Options, Project, SlnDir, SlnError, SlnNode};

fn p(s: &str) -> FsPath {
    parse_path(s).simplify()
}

fn proj(path: &str, guid: &str) -> Project {
    Project { path: p(path), project_guid: guid.to_string() }
}

fn names(d: &SlnDir) -> Vec<String> {
    d.nodes.iter().map(|(n, _)| n.clone()).collect()
}

fn dir_at<'a>(d: &'a SlnDir, name: &str) -> &'a SlnDir {
    match d.nodes.iter().find(|(n, _)| n == name) {
        Some((_, SlnNode::Dir(sub))) => sub,
        _ => panic!("no directory named {}", name),
    }
}

fn guid_at(d: &SlnDir, name: &str) -> String {
    match d.nodes.iter().find(|(n, _)| n == name) {
        Some((_, SlnNode::Proj(pr))) => pr.guid.clone(),
        _ => panic!("no project named {}", name),
    }
}

fn same_dir(a: &SlnDir, b: &SlnDir) -> bool {
    a.nodes.len() == b.nodes.len()
        && a.nodes.iter().zip(b.nodes.iter()).all(|((na, xa), (nb, xb))| {
            na == nb
                && match (xa, xb) {
                    (SlnNode::Dir(da), SlnNode::Dir(db)) => same_dir(da, db),
                    (SlnNode::Proj(pa), SlnNode::Proj(pb)) => pa.guid == pb.guid,
                    _ => false,
                }
        })
}

#[test]
fn builds_nested_directories_in_discovery_order() {
    let sln = p("/sln/all.sln");
    let projects = vec![
        proj("/sln/src/B/B.csproj", "guid-b"),
        proj("/sln/src/A/A.csproj", "guid-a"),
        proj("/sln/Top.csproj", "guid-top"),
    ];
    let file = create_solution(&sln, &projects).unwrap();
    assert_eq!(names(&file.root), vec!["src".to_string(), "Top.csproj".to_string()]);
    let src = dir_at(&file.root, "src");
    // Children keep discovery order: B before A.
    assert_eq!(names(src), vec!["B".to_string(), "A".to_string()]);
    assert_eq!(guid_at(dir_at(src, "B"), "B.csproj"), "guid-b");
    assert_eq!(guid_at(dir_at(src, "A"), "A.csproj"), "guid-a");
    assert_eq!(guid_at(&file.root, "Top.csproj"), "guid-top");
}

#[test]
fn name_collision_between_directory_and_project_is_fatal() {
    // A project path and a same-named directory-implying path.
    let sln = p("/sln/all.sln");
    let projects = vec![
        proj("/sln/src/Foo/Foo.proj", "g1"),
        proj("/sln/src/Foo", "g2"),
    ];
    let r = create_solution(&sln, &projects);
    assert!(matches!(r, Err(SlnError::NameCollision)));
}

#[test]
fn project_used_as_directory_is_fatal() {
    let sln = p("/sln/all.sln");
    let projects = vec![
        proj("/sln/src/Foo", "g1"),
        proj("/sln/src/Foo/Foo.proj", "g2"),
    ];
    let r = create_solution(&sln, &projects);
    assert!(matches!(r, Err(SlnError::NameCollision)));
}

#[test]
fn project_outside_the_solution_directory_is_fatal() {
    let sln = p("/sln/all.sln");
    let projects = vec![proj("/Foo/Foo.proj", "g1")];
    let r = create_solution(&sln, &projects);
    assert!(matches!(r, Err(SlnError::OutOfSolutionDir)));
}

#[test]
fn generation_is_deterministic_across_runs() {
    let sln = p("/sln/all.sln");
    let projects = vec![
        proj("/sln/src/B/B.csproj", "guid-b"),
        proj("/sln/src/A/A.csproj", "guid-a"),
        proj("/sln/lib/C/C.csproj", "guid-c"),
    ];
    let first = create_solution(&sln, &projects).unwrap();
    let second = create_solution(&sln, &projects).unwrap();
    assert!(same_dir(&first.root, &second.root));
}

#[test]
fn options_carries_the_four_fields() {
    let o = Options {
        sln_path: "out/all.sln".to_string(),
        search_path: ".".to_string(),
        follow_incoming_project_references: true,
        follow_outgoing_project_references: false,
    };
    assert_eq!(o.sln_path, "out/all.sln");
    assert_eq!(o.search_path, ".");
    assert!(o.follow_incoming_project_references);
    assert!(!o.follow_outgoing_project_references);
}
