//! The solution tree builder: folds a flat, ordered set of discovered
//! projects into a nested directory/project tree keyed by the projects'
//! paths relative to the solution file's own directory.
//!
//! Children keep discovery order; a parent-directory component in a
//! project's relative path, and a name bound both ways at one level, are
//! fatal.

use vstd::prelude::*;

use crate::paths::{rel_segs, relative_path, seg_is_up_exec, seg_up, FsPath};

verus! {

broadcast use
    vstd::std_specs::vec::axiom_vec_decreases_to_view,
    vstd::seq::axiom_seq_index_decreases,
    vstd::seq::axiom_seq_subrange_decreases,
;

/// The fatal failures of solution generation.
#[derive(Clone, Copy, PartialEq, Eq, Structural, Debug)]
pub enum SlnError {
    /// A project's path relative to the solution directory climbs out of
    /// the solution's own subtree.
    OutOfSolutionDir,
    /// A name at one tree level is claimed both as a directory and as a
    /// project (or twice as a project).
    NameCollision,
}

/// A discovered project: its canonical descriptor path and its stable
/// identifier.
pub struct Project {
    pub path: FsPath,
    pub project_guid: String,
}

/// A project leaf of the tree.
pub struct SlnProject {
    pub guid: String,
}

pub enum SlnNode {
    Dir(SlnDir),
    Proj(SlnProject),
}

/// A directory node: child name to child node, names unique, children in
/// insertion order.
pub struct SlnDir {
    pub nodes: Vec<(String, SlnNode)>,
}

/// The built workspace index, ready for an external serializer.
pub struct SolutionFile {
    pub root: SlnDir,
}

#[verifier::ext_equal]
pub struct SlnProjectV {
    pub guid: Seq<char>,
}

#[verifier::ext_equal]
pub enum SlnNodeV {
    Dir(SlnDirV),
    Proj(SlnProjectV),
}

#[verifier::ext_equal]
pub struct SlnDirV {
    pub nodes: Seq<(Seq<char>, SlnNodeV)>,
}

pub open spec fn snode_view(n: SlnNode) -> SlnNodeV
    decreases n,
{
    match n {
        SlnNode::Dir(d) => SlnNodeV::Dir(SlnDirV { nodes: entries_view(d.nodes@) }),
        SlnNode::Proj(p) => SlnNodeV::Proj(SlnProjectV { guid: p.guid@ }),
    }
}

pub open spec fn entries_view(es: Seq<(String, SlnNode)>) -> Seq<(Seq<char>, SlnNodeV)>
    decreases es,
{
    if es.len() == 0 {
        Seq::empty()
    } else {
        seq![(es[0].0@, snode_view(es[0].1))] + entries_view(es.drop_first())
    }
}

impl View for SlnDir {
    type V = SlnDirV;

    open spec fn view(&self) -> SlnDirV {
        SlnDirV { nodes: entries_view(self.nodes@) }
    }
}

impl View for SolutionFile {
    type V = SlnDirV;

    open spec fn view(&self) -> SlnDirV {
        self.root@
    }
}

pub proof fn lemma_entries_view_index(es: Seq<(String, SlnNode)>)
    ensures
        entries_view(es).len() == es.len(),
        forall|i: int|
            0 <= i < es.len() ==> entries_view(es)[i] == (es[i].0@, snode_view(es[i].1)),
    decreases es.len(),
{
    if es.len() > 0 {
        lemma_entries_view_index(es.drop_first());
    }
}

// ---------------------------------------------------------------------------
// Folding one project into the tree.
// ---------------------------------------------------------------------------

/// The index of the entry bound to `name`, or `-1`.
pub open spec fn find_entry(es: Seq<(Seq<char>, SlnNodeV)>, name: Seq<char>) -> int
    decreases es.len(),
{
    if es.len() == 0 {
        -1
    } else if es[0].0 == name {
        0
    } else {
        let r = find_entry(es.drop_first(), name);
        if r < 0 {
            -1
        } else {
            r + 1
        }
    }
}

pub proof fn lemma_find_entry_props(es: Seq<(Seq<char>, SlnNodeV)>, name: Seq<char>)
    ensures
        find_entry(es, name) == -1 ==> forall|j: int|
            0 <= j < es.len() ==> (#[trigger] es[j]).0 != name,
        find_entry(es, name) >= 0 ==> 0 <= find_entry(es, name) < es.len() && es[find_entry(
            es,
            name,
        )].0 == name,
    decreases es.len(),
{
    if es.len() > 0 && es[0].0 != name {
        lemma_find_entry_props(es.drop_first(), name);
        let r = find_entry(es.drop_first(), name);
        if r == -1 {
            assert forall|j: int| 0 <= j < es.len() implies (#[trigger] es[j]).0 != name by {
                if j > 0 {
                    assert(es.drop_first()[j - 1] == es[j]);
                    assert(es.drop_first()[j - 1].0 != name);
                }
            }
        } else {
            assert(es[r + 1] == es.drop_first()[r]);
        }
    }
}

pub proof fn lemma_find_entry_at(es: Seq<(Seq<char>, SlnNodeV)>, name: Seq<char>, k: int)
    requires
        0 <= k < es.len(),
        es[k].0 == name,
        forall|j: int| 0 <= j < k ==> (#[trigger] es[j]).0 != name,
    ensures
        find_entry(es, name) == k,
    decreases es.len(),
{
    if k > 0 {
        assert(es[0].0 != name);
        assert(es.drop_first()[k - 1] == es[k]);
        assert(forall|j: int| 0 <= j < k - 1 ==> #[trigger] es.drop_first()[j] == es[j + 1]);
        lemma_find_entry_at(es.drop_first(), name, k - 1);
    }
}

pub proof fn lemma_find_entry_none(es: Seq<(Seq<char>, SlnNodeV)>, name: Seq<char>)
    requires
        forall|j: int| 0 <= j < es.len() ==> (#[trigger] es[j]).0 != name,
    ensures
        find_entry(es, name) == -1,
    decreases es.len(),
{
    if es.len() > 0 {
        assert(forall|j: int|
            0 <= j < es.len() - 1 ==> #[trigger] es.drop_first()[j] == es[j + 1]);
        lemma_find_entry_none(es.drop_first(), name);
    }
}

/// Folds one project, given by the components of its relative path, into
/// the tree: directories are created on demand, the final component becomes
/// a project leaf. A parent-directory component is fatal; so is a name
/// already bound at the level where the leaf would go, or bound to a leaf
/// where a directory is needed.
pub open spec fn tree_insert(d: SlnDirV, comps: Seq<Seq<char>>, guid: Seq<char>) -> Result<
    SlnDirV,
    SlnError,
>
    decreases comps.len(),
{
    if comps.len() == 0 {
        Ok(d)
    } else {
        let name = comps[0];
        if name == seg_up() {
            Err(SlnError::OutOfSolutionDir)
        } else {
            let j = find_entry(d.nodes, name);
            if comps.len() == 1 {
                if j >= 0 {
                    Err(SlnError::NameCollision)
                } else {
                    Ok(
                        SlnDirV {
                            nodes: d.nodes.push(
                                (name, SlnNodeV::Proj(SlnProjectV { guid })),
                            ),
                        },
                    )
                }
            } else {
                if j < 0 {
                    match tree_insert(SlnDirV { nodes: Seq::empty() }, comps.drop_first(), guid) {
                        Ok(sub) => Ok(
                            SlnDirV { nodes: d.nodes.push((name, SlnNodeV::Dir(sub))) },
                        ),
                        Err(e) => Err(e),
                    }
                } else {
                    match d.nodes[j].1 {
                        SlnNodeV::Dir(sub0) => match tree_insert(
                            sub0,
                            comps.drop_first(),
                            guid,
                        ) {
                            Ok(sub) => Ok(
                                SlnDirV {
                                    nodes: d.nodes.update(j, (name, SlnNodeV::Dir(sub))),
                                },
                            ),
                            Err(e) => Err(e),
                        },
                        SlnNodeV::Proj(_) => Err(SlnError::NameCollision),
                    }
                }
            }
        }
    }
}

// ---------------------------------------------------------------------------
// The tree invariant: names unique within each directory.
// ---------------------------------------------------------------------------

pub open spec fn entry_names_unique(es: Seq<(Seq<char>, SlnNodeV)>) -> bool {
    forall|i: int, j: int|
        0 <= i < j < es.len() ==> (#[trigger] es[i]).0 != (#[trigger] es[j]).0
}

pub open spec fn wf_dir(d: SlnDirV) -> bool
    decreases d,
{
    entry_names_unique(d.nodes) && (forall|i: int|
        0 <= i < d.nodes.len() ==> wf_node((#[trigger] d.nodes[i]).1))
}

pub open spec fn wf_node(n: SlnNodeV) -> bool
    decreases n,
{
    match n {
        SlnNodeV::Dir(d) => wf_dir(d),
        SlnNodeV::Proj(_) => true,
    }
}

/// Law: folding a project in keeps every directory's names unique — a name
/// bound at one level is never bound twice.
pub proof fn lemma_tree_insert_wf(d: SlnDirV, comps: Seq<Seq<char>>, guid: Seq<char>)
    requires
        wf_dir(d),
    ensures
        match tree_insert(d, comps, guid) {
            Ok(d2) => wf_dir(d2),
            Err(e) => true,
        },
    decreases comps.len(),
{
    if comps.len() > 0 {
        let name = comps[0];
        if name != seg_up() {
            let j = find_entry(d.nodes, name);
            lemma_find_entry_props(d.nodes, name);
            if comps.len() == 1 {
                if j < 0 {
                    let es2 = d.nodes.push((name, SlnNodeV::Proj(SlnProjectV { guid })));
                    assert(entry_names_unique(es2)) by {
                        assert(forall|i: int|
                            0 <= i < d.nodes.len() ==> (#[trigger] es2[i]) == d.nodes[i]);
                        assert(forall|i: int|
                            0 <= i < d.nodes.len() ==> (#[trigger] d.nodes[i]).0 != name);
                    }
                    assert(forall|i: int|
                        0 <= i < d.nodes.len() ==> (#[trigger] es2[i]) == d.nodes[i]);
                    assert(wf_node(es2[es2.len() - 1].1));
                }
            } else {
                if j < 0 {
                    let empty = SlnDirV { nodes: Seq::empty() };
                    assert(wf_dir(empty));
                    lemma_tree_insert_wf(empty, comps.drop_first(), guid);
                    match tree_insert(empty, comps.drop_first(), guid) {
                        Ok(sub) => {
                            let es2 = d.nodes.push((name, SlnNodeV::Dir(sub)));
                            assert(entry_names_unique(es2)) by {
                                assert(forall|i: int|
                                    0 <= i < d.nodes.len() ==> (#[trigger] es2[i]) == d.nodes[i]);
                                assert(forall|i: int|
                                    0 <= i < d.nodes.len() ==> (#[trigger] d.nodes[i]).0 != name);
                            }
                            assert(forall|i: int|
                                0 <= i < d.nodes.len() ==> (#[trigger] es2[i]) == d.nodes[i]);
                            assert(wf_node(es2[es2.len() - 1].1));
                        },
                        Err(e) => {},
                    }
                } else {
                    assert(wf_node(d.nodes[j].1));
                    match d.nodes[j].1 {
                        SlnNodeV::Dir(sub0) => {
                            lemma_tree_insert_wf(sub0, comps.drop_first(), guid);
                            match tree_insert(sub0, comps.drop_first(), guid) {
                                Ok(sub) => {
                                    let es2 = d.nodes.update(j, (name, SlnNodeV::Dir(sub)));
                                    assert(entry_names_unique(es2)) by {
                                        assert(forall|i: int|
                                            0 <= i < es2.len() ==> (#[trigger] es2[i]).0
                                                == d.nodes[i].0);
                                    }
                                    assert(forall|i: int|
                                        0 <= i < es2.len() && i != j ==> (#[trigger] es2[i])
                                            == d.nodes[i]);
                                    assert(wf_node(es2[j].1));
                                },
                                Err(e) => {},
                            }
                        },
                        SlnNodeV::Proj(_) => {},
                    }
                }
            }
        }
    }
}

/// Law: every tree that solution generation yields is well formed: within
/// each directory, child names are unique and children are themselves well
/// formed.
pub proof fn lemma_build_from_wf(
    d: SlnDirV,
    sln_dir: Seq<Seq<char>>,
    ps: Seq<(Seq<Seq<char>>, Seq<char>)>,
)
    requires
        wf_dir(d),
    ensures
        match build_from(d, sln_dir, ps) {
            Ok(d2) => wf_dir(d2),
            Err(e) => true,
        },
    decreases ps.len(),
{
    if ps.len() > 0 {
        lemma_tree_insert_wf(d, rel_segs(sln_dir, ps[0].0), ps[0].1);
        match tree_insert(d, rel_segs(sln_dir, ps[0].0), ps[0].1) {
            Ok(d2) => {
                lemma_build_from_wf(d2, sln_dir, ps.drop_first());
            },
            Err(e) => {},
        }
    }
}

/// The index of the child bound to `name`.
fn find_entry_exec(es: &Vec<(String, SlnNode)>, name: &String) -> (r: Option<usize>)
    ensures
        match r {
            Some(i) => i < es@.len() && find_entry(entries_view(es@), name@) == i,
            None => find_entry(entries_view(es@), name@) == -1,
        },
{
    proof {
        lemma_entries_view_index(es@);
    }
    let n = es.len();
    let mut i: usize = 0;
    while i < n
        invariant
            i <= n,
            n == es@.len(),
            entries_view(es@).len() == n,
            forall|j: int| 0 <= j < i ==> (#[trigger] es@[j]).0@ != name@,
        decreases n - i,
    {
        if es[i].0.eq(name) {
            proof {
                lemma_entries_view_index(es@);
                assert(forall|j: int|
                    0 <= j < i ==> (#[trigger] entries_view(es@)[j]).0 != name@);
                lemma_find_entry_at(entries_view(es@), name@, i as int);
            }
            return Some(i);
        }
        i = i + 1;
    }
    proof {
        lemma_entries_view_index(es@);
        assert(forall|j: int| 0 <= j < n ==> (#[trigger] entries_view(es@)[j]).0 != name@);
        lemma_find_entry_none(entries_view(es@), name@);
    }
    None
}

/// Folds one project into the tree, walking the components from `i` on.
fn insert_project(dir: &mut SlnDir, comps: &Vec<String>, i: usize, guid: &String) -> (r: Result<
    (),
    SlnError,
>)
    requires
        i <= comps@.len(),
    ensures
        match r {
            Ok(u) => tree_insert(old(dir)@, comps.deep_view().skip(i as int), guid@) == Ok::<
                SlnDirV,
                SlnError,
            >(final(dir)@),
            Err(e) => tree_insert(old(dir)@, comps.deep_view().skip(i as int), guid@) == Err::<
                SlnDirV,
                SlnError,
            >(e),
        },
    decreases comps@.len() - i,
{
    let n = comps.len();
    let ghost rest = comps.deep_view().skip(i as int);
    if i == n {
        proof {
            assert(rest.len() == 0);
        }
        return Ok(());
    }
    let name = &comps[i];
    proof {
        assert(rest[0] == comps.deep_view()[i as int]);
        assert(rest[0] == name@);
        assert(rest.drop_first() =~= comps.deep_view().skip(i as int + 1));
    }
    if seg_is_up_exec(name) {
        return Err(SlnError::OutOfSolutionDir);
    }
    let found = find_entry_exec(&dir.nodes, name);
    if i + 1 == n {
        proof {
            assert(rest.len() == 1);
        }
        match found {
            Some(_) => Err(SlnError::NameCollision),
            None => {
                let ghost es0 = dir.nodes@;
                let new_entry = (name.clone(), SlnNode::Proj(SlnProject { guid: guid.clone() }));
                let ghost ne = new_entry;
                dir.nodes.push(new_entry);
                proof {
                    lemma_entries_view_push(es0, ne);
                    assert(entries_view(dir.nodes@) =~~= entries_view(es0).push(
                        (name@, SlnNodeV::Proj(SlnProjectV { guid: guid@ })),
                    ));
                }
                Ok(())
            },
        }
    } else {
        match found {
            None => {
                let mut sub = SlnDir { nodes: Vec::new() };
                proof {
                    assert(entries_view(sub.nodes@) =~~= Seq::<(Seq<char>, SlnNodeV)>::empty());
                }
                match insert_project(&mut sub, comps, i + 1, guid) {
                    Ok(u) => {
                        let ghost subv = sub@;
                        let ghost es0 = dir.nodes@;
                        dir.nodes.push((name.clone(), SlnNode::Dir(sub)));
                        proof {
                            lemma_entries_view_index(es0);
                            lemma_entries_view_index(dir.nodes@);
                            assert(entries_view(dir.nodes@) =~~= entries_view(es0).push(
                                (name@, SlnNodeV::Dir(subv)),
                            ));
                        }
                        Ok(())
                    },
                    Err(e) => Err(e),
                }
            },
            Some(jj) => {
                let ghost es0 = dir.nodes@;
                proof {
                    lemma_entries_view_index(es0);
                }
                let (nm, node) = dir.nodes.remove(jj);
                match node {
                    SlnNode::Dir(mut subdir) => {
                        let ghost sub0 = subdir@;
                        match insert_project(&mut subdir, comps, i + 1, guid) {
                            Ok(u) => {
                                let ghost subv = subdir@;
                                let put = (nm, SlnNode::Dir(subdir));
                                let ghost pv = put;
                                dir.nodes.insert(jj, put);
                                proof {
                                    assert(es0.remove(jj as int).insert(jj as int, pv)
                                        =~= es0.update(jj as int, pv));
                                    lemma_entries_view_update(es0, jj as int, pv);
                                    lemma_find_entry_props(entries_view(es0), name@);
                                    assert(entries_view(es0)[jj as int] == (
                                        es0[jj as int].0@,
                                        snode_view(es0[jj as int].1),
                                    ));
                                    assert(pv.0@ == name@);
                                    assert(snode_view(pv.1) == SlnNodeV::Dir(subv));
                                    assert(entries_view(dir.nodes@) =~~= entries_view(
                                        es0,
                                    ).update(jj as int, (name@, SlnNodeV::Dir(subv))));
                                }
                                Ok(())
                            },
                            Err(e) => Err(e),
                        }
                    },
                    SlnNode::Proj(p) => {
                        dir.nodes.insert(jj, (nm, SlnNode::Proj(p)));
                        Err(SlnError::NameCollision)
                    },
                }
            },
        }
    }
}

// ---------------------------------------------------------------------------
// Building the whole tree.
// ---------------------------------------------------------------------------

/// What solution generation reads of each discovered project: the segments
/// of its canonical path, and its identifier.
pub open spec fn projects_view(ps: Seq<Project>) -> Seq<(Seq<Seq<char>>, Seq<char>)> {
    Seq::new(ps.len(), |i: int| (ps[i].path.segs(), ps[i].project_guid@))
}

/// The left fold of `tree_insert` over the discovered projects, each
/// relativized against the solution directory; the first fatal component
/// aborts the fold.
pub open spec fn build_from(
    d: SlnDirV,
    sln_dir: Seq<Seq<char>>,
    ps: Seq<(Seq<Seq<char>>, Seq<char>)>,
) -> Result<SlnDirV, SlnError>
    decreases ps.len(),
{
    if ps.len() == 0 {
        Ok(d)
    } else {
        match tree_insert(d, rel_segs(sln_dir, ps[0].0), ps[0].1) {
            Ok(d2) => build_from(d2, sln_dir, ps.drop_first()),
            Err(e) => Err(e),
        }
    }
}

impl SolutionFile {
    pub fn new(root: SlnDir) -> (r: Self)
        ensures
            r@ == root@,
    {
        SolutionFile { root }
    }
}

/// The options of solution generation, as given on the command line.
pub struct Options {
    pub sln_path: String,
    pub search_path: String,
    pub follow_incoming_project_references: bool,
    pub follow_outgoing_project_references: bool,
}

/// Folds the discovered projects, in discovery order, into the solution
/// tree rooted at the solution file's own directory. Children appear in
/// discovery order; a relative path climbing out of the solution directory,
/// and a directory/project name collision, are fatal.
pub fn create_solution(sln_path: &FsPath, projects: &Vec<Project>) -> (r: Result<
    SolutionFile,
    SlnError,
>)
    requires
        sln_path.is_canonical_abs(),
        sln_path.parts.len() > 0,
        forall|i: int|
            0 <= i < projects@.len() ==> (#[trigger] projects@[i]).path.is_canonical_abs(),
    ensures
        match r {
            Ok(s) => build_from(
                SlnDirV { nodes: Seq::empty() },
                sln_path.segs().drop_last(),
                projects_view(projects@),
            ) == Ok::<SlnDirV, SlnError>(s@),
            Err(e) => build_from(
                SlnDirV { nodes: Seq::empty() },
                sln_path.segs().drop_last(),
                projects_view(projects@),
            ) == Err::<SlnDirV, SlnError>(e),
        },
{
    let sln_dir = sln_path.dir_of();
    let ghost sd = sln_dir.segs();
    let ghost pv = projects_view(projects@);
    let mut root = SlnDir { nodes: Vec::new() };
    proof {
        assert(entries_view(root.nodes@) =~~= Seq::<(Seq<char>, SlnNodeV)>::empty());
        assert(root@ =~~= SlnDirV { nodes: Seq::empty() });
        assert(pv.skip(0) =~= pv);
    }
    let n = projects.len();
    let mut i: usize = 0;
    while i < n
        invariant
            i <= n,
            n == projects@.len(),
            pv == projects_view(projects@),
            pv.len() == n,
            sd == sln_dir.segs(),
            sd == sln_path.segs().drop_last(),
            sln_dir.is_canonical_abs(),
            forall|k: int|
                0 <= k < projects@.len() ==> (#[trigger] projects@[k]).path.is_canonical_abs(),
            build_from(SlnDirV { nodes: Seq::empty() }, sd, pv) == build_from(
                root@,
                sd,
                pv.skip(i as int),
            ),
        decreases n - i,
    {
        let ghost rest = pv.skip(i as int);
        proof {
            assert(rest[0] == pv[i as int]);
            assert(rest.drop_first() =~= pv.skip(i as int + 1));
            assert(projects@[i as int].path.is_canonical_abs());
        }
        let rel = relative_path(&sln_dir, &projects[i].path);
        proof {
            assert(rel.parts.deep_view().skip(0) =~= rel.segs());
            assert(rel.segs() == rel_segs(sd, pv[i as int].0));
        }
        let ghost r0 = root@;
        match insert_project(&mut root, &rel.parts, 0, &projects[i].project_guid) {
            Ok(u) => {
                proof {
                    assert(build_from(r0, sd, rest) == build_from(root@, sd, rest.drop_first()));
                }
            },
            Err(e) => {
                proof {
                    assert(build_from(r0, sd, rest) == Err::<SlnDirV, SlnError>(e));
                }
                return Err(e);
            },
        }
        i = i + 1;
    }
    proof {
        assert(pv.skip(n as int).len() == 0);
    }
    Ok(SolutionFile::new(root))
}

/// Law: solution generation is deterministic. The built tree — its
/// nesting, its leaves and their order — is a function of the discovered
/// sequence alone (each project's path and identifier), so two runs over
/// an unchanged project set produce the same tree.
pub proof fn lemma_solution_deterministic(
    sln_dir: Seq<Seq<char>>,
    ps1: Seq<Project>,
    ps2: Seq<Project>,
)
    requires
        projects_view(ps1) == projects_view(ps2),
    ensures
        build_from(SlnDirV { nodes: Seq::empty() }, sln_dir, projects_view(ps1)) == build_from(
            SlnDirV { nodes: Seq::empty() },
            sln_dir,
            projects_view(ps2),
        ),
{
}

pub proof fn lemma_entries_view_push(es: Seq<(String, SlnNode)>, x: (String, SlnNode))
    ensures
        entries_view(es.push(x)) == entries_view(es).push((x.0@, snode_view(x.1))),
{
    lemma_entries_view_index(es);
    lemma_entries_view_index(es.push(x));
    assert(entries_view(es.push(x)) =~~= entries_view(es).push((x.0@, snode_view(x.1))));
}

pub proof fn lemma_entries_view_update(es: Seq<(String, SlnNode)>, i: int, x: (String, SlnNode))
    requires
        0 <= i < es.len(),
    ensures
        entries_view(es.update(i, x)) == entries_view(es).update(i, (x.0@, snode_view(x.1))),
{
    lemma_entries_view_index(es);
    lemma_entries_view_index(es.update(i, x));
    assert(entries_view(es.update(i, x)) =~~= entries_view(es).update(
        i,
        (x.0@, snode_view(x.1)),
    ));
}

} // verus!
