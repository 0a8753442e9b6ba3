//! The relocation engine: planning a single project move and rewriting the
//! references it disturbs.
//!
//! Everything here is decision logic over plain values. The surrounding
//! program resolves what exists on disk, performs the version-controlled
//! move, and persists documents — strictly in the staged order the
//! functions below are written for, so a fatal answer from an early stage
//! aborts the move before anything was mutated.

use vstd::prelude::*;

use crate::paths::{
    absolute, all_normal, all_sep_free, is_sep, lemma_rel_value_resolves,
    looks_like_out_of_tree_relative_path, parse_path, path_eq,
    relative_path, render_segs, resolve_segs, rel_segs, seg_is_normal, seg_sep_free,
    spec_out_of_tree, split_segs, starts_with_dir, FsPath,
};
use crate::xml::{attrs_view, node_view, nodes_view, XmlElement, XmlElementV, XmlNode, XmlNodeV};

verus! {

broadcast use
    vstd::std_specs::vec::axiom_vec_decreases_to_view,
    vstd::seq::axiom_seq_index_decreases,
    vstd::seq::axiom_seq_subrange_decreases,
;

/// The fatal, unrecovered failures of a move.
#[derive(Clone, Copy, PartialEq, Eq, Structural, Debug)]
pub enum MoveError {
    /// The source directory holds no project descriptor.
    NoProjectInDir,
    /// The source directory holds more than one project descriptor.
    MultipleProjectsInDir,
    /// The computed destination directory already exists on disk.
    DestinationExists,
    /// Another discovered project lies inside the directory being moved.
    NestedProjects,
}

/// The move command's two arguments, as given on the command line.
pub struct MoveCommand {
    pub old: String,
    pub new: String,
}

impl MoveCommand {
    pub fn new(old: String, new: String) -> (r: Self)
        ensures
            r.old@ == old@,
            r.new@ == new@,
    {
        MoveCommand { old, new }
    }
}

/// Picks the single project descriptor of a source directory: zero or more
/// than one is fatal.
pub fn select_dir_csproj(found: &Vec<FsPath>) -> (r: Result<FsPath, MoveError>)
    ensures
        match r {
            Ok(p) => found@.len() == 1 && p.rooted == found@[0].rooted && p.segs()
                == found@[0].segs(),
            Err(e) => (e == MoveError::NoProjectInDir && found@.len() == 0) || (e
                == MoveError::MultipleProjectsInDir && found@.len() > 1),
        },
{
    if found.len() == 0 {
        Err(MoveError::NoProjectInDir)
    } else if found.len() > 1 {
        Err(MoveError::MultipleProjectsInDir)
    } else {
        Ok(found[0].clone_path())
    }
}

// ---------------------------------------------------------------------------
// Destination resolution.
// ---------------------------------------------------------------------------

/// The project-descriptor extension.
pub open spec fn ext_csproj() -> Seq<char> {
    seq!['.', 'c', 's', 'p', 'r', 'o', 'j']
}

pub open spec fn seg_ends_with(s: Seq<char>, suf: Seq<char>) -> bool {
    s.len() >= suf.len() && s.skip(s.len() - suf.len()) == suf
}

/// True iff the segment carries the project-descriptor extension.
pub fn seg_has_csproj_ext(s: &String) -> (r: bool)
    ensures
        r == seg_ends_with(s@, ext_csproj()),
{
    let ext = ".csproj";
    proof {
        reveal_strlit(".csproj");
        assert(ext@ =~= ext_csproj());
    }
    let n = s.as_str().unicode_len();
    if n < 7 {
        return false;
    }
    let mut t: usize = 0;
    while t < 7
        invariant
            t <= 7,
            7 <= n,
            n == s@.len(),
            ext@ == ext_csproj(),
            forall|j: int| 0 <= j < t ==> s@[n - 7 + j] == ext_csproj()[j],
        decreases 7 - t,
    {
        if s.as_str().get_char(n - 7 + t) != ext.get_char(t) {
            proof {
                assert(s@.skip(n - 7)[t as int] == s@[n - 7 + t]);
            }
            return false;
        }
        t = t + 1;
    }
    proof {
        assert(s@.skip(n - 7) =~= ext_csproj());
    }
    true
}

/// Resolves the destination argument. Joined against the working directory
/// and simplified, it is the new file path outright when it carries the
/// project-descriptor extension; otherwise it is the new directory, and the
/// new file keeps the moved project's original file name.
pub fn resolve_destination(new_arg: &FsPath, cur_dir: &FsPath, old_file_name: &String) -> (r: (
    FsPath,
    FsPath,
))
    requires
        cur_dir.is_canonical_abs(),
        all_sep_free(new_arg.segs()),
        seg_is_normal(old_file_name@),
        seg_sep_free(old_file_name@),
    ensures
        ({
            let d = resolve_segs(new_arg.rooted, new_arg.segs(), cur_dir.segs());
            &&& r.0.is_canonical_abs()
            &&& r.1.is_canonical_abs()
            &&& if d.len() > 0 && seg_ends_with(d.last(), ext_csproj()) {
                r.0.segs() == d.drop_last() && r.1.segs() == d
            } else {
                r.0.segs() == d && r.1.segs() == d.push(old_file_name@)
            }
        }),
{
    let dest = absolute(new_arg, cur_dir);
    let ghost d = dest.segs();
    let n = dest.parts.len();
    if n > 0 && seg_has_csproj_ext(&dest.parts[n - 1]) {
        proof {
            assert(d.last() == dest.segs()[n - 1]);
        }
        let dir = dest.dir_of();
        proof {
            assert(all_normal(dir.segs()) && all_sep_free(dir.segs())) by {
                assert(forall|i: int|
                    0 <= i < dir.segs().len() ==> dir.segs()[i] == #[trigger] d[i]);
            }
        }
        (dir, dest)
    } else {
        let f = dest.child(old_file_name);
        proof {
            assert(all_normal(f.segs()) && all_sep_free(f.segs())) by {
                assert(forall|i: int|
                    0 <= i < d.len() ==> f.segs()[i] == #[trigger] d[i]);
                assert(f.segs().last() == old_file_name@);
            }
        }
        let d2 = dest.clone_path();
        (d2, f)
    }
}

// ---------------------------------------------------------------------------
// The nested-project guard.
// ---------------------------------------------------------------------------

/// Another project's canonical path lies inside the moved directory's
/// subtree without being the moved descriptor itself.
pub open spec fn is_nested_conflict(p: FsPath, old_dir: FsPath, old_file: FsPath) -> bool {
    p.rooted == old_dir.rooted && old_dir.segs().is_prefix_of(p.segs()) && !(p.rooted
        == old_file.rooted && p.segs() == old_file.segs())
}

/// Fatal iff any discovered project other than the moved one lies inside
/// the source directory subtree. Pure: nothing has been mutated when this
/// answers, so a fatal answer aborts the move before any filesystem change.
pub fn check_nested(csproj_paths: &Vec<FsPath>, old_dir: &FsPath, old_file: &FsPath) -> (r: Result<
    (),
    MoveError,
>)
    ensures
        match r {
            Ok(u) => forall|i: int|
                0 <= i < csproj_paths@.len() ==> !is_nested_conflict(
                    #[trigger] csproj_paths@[i],
                    *old_dir,
                    *old_file,
                ),
            Err(e) => e == MoveError::NestedProjects && exists|i: int|
                0 <= i < csproj_paths@.len() && is_nested_conflict(
                    #[trigger] csproj_paths@[i],
                    *old_dir,
                    *old_file,
                ),
        },
{
    let n = csproj_paths.len();
    let mut i: usize = 0;
    while i < n
        invariant
            i <= n,
            n == csproj_paths@.len(),
            forall|j: int|
                0 <= j < i ==> !is_nested_conflict(
                    #[trigger] csproj_paths@[j],
                    *old_dir,
                    *old_file,
                ),
        decreases n - i,
    {
        let p = &csproj_paths[i];
        if starts_with_dir(p, old_dir) && !path_eq(p, old_file) {
            return Err(MoveError::NestedProjects);
        }
        i = i + 1;
    }
    Ok(())
}

// ---------------------------------------------------------------------------
// Inbound fixup: rewriting sibling projects' reference edges.
// ---------------------------------------------------------------------------

/// Whether a stored value is rooted: it begins with a separator.
pub open spec fn val_rooted(v: Seq<char>) -> bool {
    v.len() > 0 && is_sep(v[0])
}

/// The absolute segments a stored value resolves to from directory `dir`.
pub open spec fn val_resolution(v: Seq<char>, dir: Seq<Seq<char>>) -> Seq<Seq<char>> {
    resolve_segs(val_rooted(v), split_segs(v), dir)
}

/// A reference value that resolves, from the referencing project's own
/// directory, to the moved descriptor.
pub open spec fn ref_matches(v: Seq<char>, dir: Seq<Seq<char>>, oldf: Seq<Seq<char>>) -> bool {
    val_resolution(v, dir) == oldf
}

/// The text written into a matching edge: the relative path from the
/// referencing project's directory to the new descriptor.
pub open spec fn new_ref_text(dir: Seq<Seq<char>>, newf: Seq<Seq<char>>) -> Seq<char> {
    render_segs(false, rel_segs(dir, newf))
}

pub open spec fn fix_attr(
    kv: (Seq<char>, Seq<char>),
    dir: Seq<Seq<char>>,
    oldf: Seq<Seq<char>>,
    txt: Seq<char>,
) -> (Seq<char>, Seq<char>) {
    if kv.0 == "Include"@ && ref_matches(kv.1, dir, oldf) {
        (kv.0, txt)
    } else {
        kv
    }
}

pub open spec fn fix_attrs(
    attrs: Seq<(Seq<char>, Seq<char>)>,
    dir: Seq<Seq<char>>,
    oldf: Seq<Seq<char>>,
    txt: Seq<char>,
) -> Seq<(Seq<char>, Seq<char>)> {
    Seq::new(attrs.len(), |i: int| fix_attr(attrs[i], dir, oldf, txt))
}

pub open spec fn attrs_match(
    attrs: Seq<(Seq<char>, Seq<char>)>,
    dir: Seq<Seq<char>>,
    oldf: Seq<Seq<char>>,
) -> bool {
    exists|i: int|
        0 <= i < attrs.len() && (#[trigger] attrs[i]).0 == "Include"@ && ref_matches(
            attrs[i].1,
            dir,
            oldf,
        )
}

/// The inbound-fixup pass over one node: every `Include` attribute of a
/// `ProjectReference` element whose value resolves to the moved descriptor
/// is replaced by `txt`; everything else is kept as it stands. Elements are
/// visited parent before children.
pub open spec fn fix_node(
    n: XmlNodeV,
    dir: Seq<Seq<char>>,
    oldf: Seq<Seq<char>>,
    txt: Seq<char>,
) -> XmlNodeV
    decreases n,
{
    match n {
        XmlNodeV::Element(e) => XmlNodeV::Element(
            XmlElementV {
                name: e.name,
                attributes: if e.name == "ProjectReference"@ {
                    fix_attrs(e.attributes, dir, oldf, txt)
                } else {
                    e.attributes
                },
                children: fix_children(e.children, dir, oldf, txt),
            },
        ),
        XmlNodeV::Text(t) => XmlNodeV::Text(t),
        XmlNodeV::Other => XmlNodeV::Other,
    }
}

pub open spec fn fix_children(
    cs: Seq<XmlNodeV>,
    dir: Seq<Seq<char>>,
    oldf: Seq<Seq<char>>,
    txt: Seq<char>,
) -> Seq<XmlNodeV>
    decreases cs,
{
    if cs.len() == 0 {
        Seq::empty()
    } else {
        seq![fix_node(cs[0], dir, oldf, txt)] + fix_children(cs.drop_first(), dir, oldf, txt)
    }
}

/// Whether the pass changes anything in the node: some `ProjectReference`
/// element holds a matching `Include` attribute.
pub open spec fn node_ref_match(n: XmlNodeV, dir: Seq<Seq<char>>, oldf: Seq<Seq<char>>) -> bool
    decreases n,
{
    match n {
        XmlNodeV::Element(e) => (e.name == "ProjectReference"@ && attrs_match(
            e.attributes,
            dir,
            oldf,
        )) || children_ref_match(e.children, dir, oldf),
        _ => false,
    }
}

pub open spec fn children_ref_match(
    cs: Seq<XmlNodeV>,
    dir: Seq<Seq<char>>,
    oldf: Seq<Seq<char>>,
) -> bool
    decreases cs,
{
    if cs.len() == 0 {
        false
    } else {
        node_ref_match(cs[0], dir, oldf) || children_ref_match(cs.drop_first(), dir, oldf)
    }
}

pub proof fn lemma_fix_children_index(
    cs: Seq<XmlNodeV>,
    dir: Seq<Seq<char>>,
    oldf: Seq<Seq<char>>,
    txt: Seq<char>,
)
    ensures
        fix_children(cs, dir, oldf, txt).len() == cs.len(),
        forall|i: int|
            0 <= i < cs.len() ==> fix_children(cs, dir, oldf, txt)[i] == fix_node(
                cs[i],
                dir,
                oldf,
                txt,
            ),
    decreases cs.len(),
{
    if cs.len() > 0 {
        lemma_fix_children_index(cs.drop_first(), dir, oldf, txt);
    }
}

pub proof fn lemma_children_ref_match_exists(
    cs: Seq<XmlNodeV>,
    dir: Seq<Seq<char>>,
    oldf: Seq<Seq<char>>,
)
    ensures
        children_ref_match(cs, dir, oldf) == exists|i: int|
            0 <= i < cs.len() && node_ref_match(#[trigger] cs[i], dir, oldf),
    decreases cs.len(),
{
    if cs.len() > 0 {
        lemma_children_ref_match_exists(cs.drop_first(), dir, oldf);
        if children_ref_match(cs, dir, oldf) {
            if node_ref_match(cs[0], dir, oldf) {
                assert(0 <= 0 < cs.len() && node_ref_match(cs[0], dir, oldf));
            } else {
                let i = choose|i: int|
                    0 <= i < cs.drop_first().len() && node_ref_match(
                        #[trigger] cs.drop_first()[i],
                        dir,
                        oldf,
                    );
                assert(cs[i + 1] == cs.drop_first()[i]);
                assert(node_ref_match(cs[i + 1], dir, oldf));
            }
        }
        if exists|i: int| 0 <= i < cs.len() && node_ref_match(#[trigger] cs[i], dir, oldf) {
            let w = choose|i: int|
                0 <= i < cs.len() && node_ref_match(#[trigger] cs[i], dir, oldf);
            if w > 0 {
                assert(cs.drop_first()[w - 1] == cs[w]);
                assert(node_ref_match(cs.drop_first()[w - 1], dir, oldf));
                assert(children_ref_match(cs.drop_first(), dir, oldf));
            }
            assert(children_ref_match(cs, dir, oldf));
        }
    }
}

/// Rewrites the matching `Include` attributes of one `ProjectReference`
/// element's attribute list.
fn fix_attrs_exec(
    attrs: &mut Vec<(String, String)>,
    dir: &FsPath,
    oldf: &FsPath,
    txt: &String,
) -> (edited: bool)
    requires
        dir.is_canonical_abs(),
        oldf.rooted,
    ensures
        attrs_view(final(attrs)@) == fix_attrs(attrs_view(old(attrs)@), dir.segs(), oldf.segs(), txt@),
        edited == attrs_match(attrs_view(old(attrs)@), dir.segs(), oldf.segs()),
{
    let include_key = String::from_str("Include");
    let ghost a0 = attrs_view(old(attrs)@);
    let mut edited = false;
    let mut i: usize = 0;
    let n = attrs.len();
    while i < n
        invariant
            i <= n,
            n == attrs@.len(),
            a0.len() == n,
            include_key@ == "Include"@,
            dir.is_canonical_abs(),
            oldf.rooted,
            forall|j: int| i <= j < n ==> attrs@[j] == old(attrs)@[j],
            forall|j: int| 0 <= j < n ==> a0[j] == (old(attrs)@[j].0@, old(attrs)@[j].1@),
            forall|j: int|
                0 <= j < i ==> (attrs@[j].0@, attrs@[j].1@) == fix_attr(
                    a0[j],
                    dir.segs(),
                    oldf.segs(),
                    txt@,
                ),
            edited == exists|j: int|
                0 <= j < i && (#[trigger] a0[j]).0 == "Include"@ && ref_matches(
                    a0[j].1,
                    dir.segs(),
                    oldf.segs(),
                ),
        decreases n - i,
    {
        let is_include = attrs[i].0 == include_key;
        if is_include {
            let parsed = parse_path(attrs[i].1.as_str());
            let resolved = absolute(&parsed, dir);
            if path_eq(&resolved, oldf) {
                let key = attrs[i].0.clone();
                attrs[i] = (key, txt.clone());
                edited = true;
                proof {
                    assert(ref_matches(a0[i as int].1, dir.segs(), oldf.segs()));
                }
            } else {
                proof {
                    assert(!ref_matches(a0[i as int].1, dir.segs(), oldf.segs()));
                }
            }
        }
        i = i + 1;
    }
    proof {
        assert(attrs_view(attrs@) =~~= fix_attrs(a0, dir.segs(), oldf.segs(), txt@));
    }
    edited
}

/// The inbound-fixup pass over one node, in place. Parent elements are
/// rewritten before their children are visited.
fn fix_node_exec(n: &mut XmlNode, dir: &FsPath, oldf: &FsPath, txt: &String) -> (edited: bool)
    requires
        dir.is_canonical_abs(),
        oldf.rooted,
    ensures
        node_view(*final(n)) == fix_node(node_view(*old(n)), dir.segs(), oldf.segs(), txt@),
        edited == node_ref_match(node_view(*old(n)), dir.segs(), oldf.segs()),
    decreases *old(n),
{
    let pr_name = String::from_str("ProjectReference");
    match n {
        XmlNode::Element(e) => {
            let ghost e0 = *e;
            let mut edited = if e.name == pr_name {
                fix_attrs_exec(&mut e.attributes, dir, oldf, txt)
            } else {
                false
            };
            let ghost c0 = e0.children@;
            let mut i: usize = 0;
            let nc = e.children.len();
            while i < nc
                invariant
                    i <= nc,
                    nc == e.children@.len(),
                    nc == c0.len(),
                    c0 == e0.children@,
                    dir.is_canonical_abs(),
                    oldf.rooted,
                    *old(n) == XmlNode::Element(e0),
                    e.name == e0.name,
                    attrs_view(e.attributes@) == (if e0.name@ == "ProjectReference"@ {
                        fix_attrs(attrs_view(e0.attributes@), dir.segs(), oldf.segs(), txt@)
                    } else {
                        attrs_view(e0.attributes@)
                    }),
                    forall|j: int| i <= j < nc ==> e.children@[j] == c0[j],
                    forall|j: int|
                        0 <= j < i ==> node_view(e.children@[j]) == fix_node(
                            node_view(c0[j]),
                            dir.segs(),
                            oldf.segs(),
                            txt@,
                        ),
                    edited == ((e0.name@ == "ProjectReference"@ && attrs_match(
                        attrs_view(e0.attributes@),
                        dir.segs(),
                        oldf.segs(),
                    )) || exists|j: int|
                        0 <= j < i && node_ref_match(
                            node_view(#[trigger] c0[j]),
                            dir.segs(),
                            oldf.segs(),
                        )),
                decreases nc - i,
            {
                proof {
                    let m = *old(n);
                    assert(m->Element_0 == e0);
                    assert(decreases_to!(m => m->Element_0));
                    assert(decreases_to!(e0 => e0.children));
                    assert(decreases_to!(e0.children => e0.children@));
                    assert(decreases_to!(e0.children@ => e0.children@[i as int]));
                    assert(e.children@[i as int] == e0.children@[i as int]);
                }
                let ed = fix_node_exec(&mut e.children[i], dir, oldf, txt);
                edited = edited || ed;
                i = i + 1;
            }
            proof {
                let dv = dir.segs();
                let ov = oldf.segs();
                lemma_fix_children_index(nodes_view(c0), dv, ov, txt@);
                crate::xml::lemma_nodes_view_index(c0);
                crate::xml::lemma_nodes_view_index(e.children@);
                assert(nodes_view(e.children@) =~~= fix_children(nodes_view(c0), dv, ov, txt@));
                lemma_children_ref_match_exists(nodes_view(c0), dv, ov);
                assert(children_ref_match(nodes_view(c0), dv, ov) == (exists|j: int|
                    0 <= j < nc && node_ref_match(node_view(#[trigger] c0[j]), dv, ov))) by {
                    if children_ref_match(nodes_view(c0), dv, ov) {
                        let w = choose|i: int|
                            0 <= i < nodes_view(c0).len() && node_ref_match(
                                #[trigger] nodes_view(c0)[i],
                                dv,
                                ov,
                            );
                        assert(node_ref_match(node_view(c0[w]), dv, ov));
                    }
                    if exists|j: int|
                        0 <= j < nc && node_ref_match(node_view(#[trigger] c0[j]), dv, ov) {
                        let w = choose|j: int|
                            0 <= j < nc && node_ref_match(node_view(#[trigger] c0[j]), dv, ov);
                        assert(node_ref_match(nodes_view(c0)[w], dv, ov));
                    }
                }
                assert(node_view(*old(n)) == XmlNodeV::Element(
                    XmlElementV {
                        name: e0.name@,
                        attributes: attrs_view(e0.attributes@),
                        children: nodes_view(c0),
                    },
                ));
            }
            edited
        },
        XmlNode::Text(_) => false,
        XmlNode::Other => false,
    }
}

/// Inbound fixup for one sibling project's document: every reference edge
/// that resolved to the moved descriptor is rewritten to the relative path
/// that, from this project's own directory, resolves to the descriptor's
/// new location. Returns whether anything matched, which is exactly when
/// the document must be persisted and staged.
pub fn fix_inbound_references(
    doc: &mut XmlNode,
    csproj_dir: &FsPath,
    old_file: &FsPath,
    new_file: &FsPath,
) -> (edited: bool)
    requires
        csproj_dir.is_canonical_abs(),
        old_file.rooted,
        new_file.is_canonical_abs(),
    ensures
        node_view(*final(doc)) == fix_node(
            node_view(*old(doc)),
            csproj_dir.segs(),
            old_file.segs(),
            new_ref_text(csproj_dir.segs(), new_file.segs()),
        ),
        edited == node_ref_match(node_view(*old(doc)), csproj_dir.segs(), old_file.segs()),
{
    let rel = relative_path(csproj_dir, new_file);
    let txt = rel.render();
    fix_node_exec(doc, csproj_dir, old_file, &txt)
}

// ---------------------------------------------------------------------------
// Outbound fixup: rewriting the moved document's own relative values.
// ---------------------------------------------------------------------------

/// Membership of an absolute path among the paths known to exist on disk.
pub open spec fn path_in(ps: Seq<FsPath>, segs: Seq<Seq<char>>) -> bool {
    exists|i: int| 0 <= i < ps.len() && (#[trigger] ps[i]).rooted && ps[i].segs() == segs
}

/// Whether one stored value is rewritten: it looks out of tree, is not
/// rooted, and its resolution against the old directory exists on disk.
/// Values whose old resolution does not exist are left untouched — they may
/// be placeholders.
pub open spec fn rw_hit(v: Seq<char>, old_dir: Seq<Seq<char>>, existing: Seq<FsPath>) -> bool {
    spec_out_of_tree(v) && !val_rooted(v) && path_in(existing, val_resolution(v, old_dir))
}

/// The rewritten form of one stored value: the same target, expressed
/// relative to the new directory.
pub open spec fn rw_val(
    v: Seq<char>,
    old_dir: Seq<Seq<char>>,
    new_dir: Seq<Seq<char>>,
    existing: Seq<FsPath>,
) -> Seq<char> {
    if rw_hit(v, old_dir, existing) {
        render_segs(false, rel_segs(new_dir, val_resolution(v, old_dir)))
    } else {
        v
    }
}

pub open spec fn rw_attrs(
    attrs: Seq<(Seq<char>, Seq<char>)>,
    old_dir: Seq<Seq<char>>,
    new_dir: Seq<Seq<char>>,
    existing: Seq<FsPath>,
) -> Seq<(Seq<char>, Seq<char>)> {
    Seq::new(attrs.len(), |i: int| (attrs[i].0, rw_val(attrs[i].1, old_dir, new_dir, existing)))
}

pub open spec fn attrs_rw_hit(
    attrs: Seq<(Seq<char>, Seq<char>)>,
    old_dir: Seq<Seq<char>>,
    existing: Seq<FsPath>,
) -> bool {
    exists|i: int| 0 <= i < attrs.len() && rw_hit((#[trigger] attrs[i]).1, old_dir, existing)
}

/// The outbound pass over one node: every attribute value and text payload
/// flagged by the heuristic, whose old resolution exists, is re-expressed
/// relative to the new directory.
pub open spec fn rw_node(
    n: XmlNodeV,
    old_dir: Seq<Seq<char>>,
    new_dir: Seq<Seq<char>>,
    existing: Seq<FsPath>,
) -> XmlNodeV
    decreases n,
{
    match n {
        XmlNodeV::Element(e) => XmlNodeV::Element(
            XmlElementV {
                name: e.name,
                attributes: rw_attrs(e.attributes, old_dir, new_dir, existing),
                children: rw_children(e.children, old_dir, new_dir, existing),
            },
        ),
        XmlNodeV::Text(t) => XmlNodeV::Text(rw_val(t, old_dir, new_dir, existing)),
        XmlNodeV::Other => XmlNodeV::Other,
    }
}

pub open spec fn rw_children(
    cs: Seq<XmlNodeV>,
    old_dir: Seq<Seq<char>>,
    new_dir: Seq<Seq<char>>,
    existing: Seq<FsPath>,
) -> Seq<XmlNodeV>
    decreases cs,
{
    if cs.len() == 0 {
        Seq::empty()
    } else {
        seq![rw_node(cs[0], old_dir, new_dir, existing)] + rw_children(
            cs.drop_first(),
            old_dir,
            new_dir,
            existing,
        )
    }
}

/// Whether the outbound pass changes anything in the node.
pub open spec fn node_rw_hit(
    n: XmlNodeV,
    old_dir: Seq<Seq<char>>,
    existing: Seq<FsPath>,
) -> bool
    decreases n,
{
    match n {
        XmlNodeV::Element(e) => attrs_rw_hit(e.attributes, old_dir, existing)
            || children_rw_hit(e.children, old_dir, existing),
        XmlNodeV::Text(t) => rw_hit(t, old_dir, existing),
        XmlNodeV::Other => false,
    }
}

pub open spec fn children_rw_hit(
    cs: Seq<XmlNodeV>,
    old_dir: Seq<Seq<char>>,
    existing: Seq<FsPath>,
) -> bool
    decreases cs,
{
    if cs.len() == 0 {
        false
    } else {
        node_rw_hit(cs[0], old_dir, existing) || children_rw_hit(
            cs.drop_first(),
            old_dir,
            existing,
        )
    }
}

pub proof fn lemma_rw_children_index(
    cs: Seq<XmlNodeV>,
    old_dir: Seq<Seq<char>>,
    new_dir: Seq<Seq<char>>,
    existing: Seq<FsPath>,
)
    ensures
        rw_children(cs, old_dir, new_dir, existing).len() == cs.len(),
        forall|i: int|
            0 <= i < cs.len() ==> rw_children(cs, old_dir, new_dir, existing)[i] == rw_node(
                cs[i],
                old_dir,
                new_dir,
                existing,
            ),
    decreases cs.len(),
{
    if cs.len() > 0 {
        lemma_rw_children_index(cs.drop_first(), old_dir, new_dir, existing);
    }
}

pub proof fn lemma_children_rw_hit_exists(
    cs: Seq<XmlNodeV>,
    old_dir: Seq<Seq<char>>,
    existing: Seq<FsPath>,
)
    ensures
        children_rw_hit(cs, old_dir, existing) == exists|i: int|
            0 <= i < cs.len() && node_rw_hit(#[trigger] cs[i], old_dir, existing),
    decreases cs.len(),
{
    if cs.len() > 0 {
        lemma_children_rw_hit_exists(cs.drop_first(), old_dir, existing);
        if children_rw_hit(cs, old_dir, existing) {
            if node_rw_hit(cs[0], old_dir, existing) {
                assert(0 <= 0 < cs.len() && node_rw_hit(cs[0], old_dir, existing));
            } else {
                let i = choose|i: int|
                    0 <= i < cs.drop_first().len() && node_rw_hit(
                        #[trigger] cs.drop_first()[i],
                        old_dir,
                        existing,
                    );
                assert(cs[i + 1] == cs.drop_first()[i]);
                assert(node_rw_hit(cs[i + 1], old_dir, existing));
            }
        }
        if exists|i: int| 0 <= i < cs.len() && node_rw_hit(#[trigger] cs[i], old_dir, existing) {
            let w = choose|i: int|
                0 <= i < cs.len() && node_rw_hit(#[trigger] cs[i], old_dir, existing);
            if w > 0 {
                assert(cs.drop_first()[w - 1] == cs[w]);
                assert(node_rw_hit(cs.drop_first()[w - 1], old_dir, existing));
                assert(children_rw_hit(cs.drop_first(), old_dir, existing));
            }
            assert(children_rw_hit(cs, old_dir, existing));
        }
    }
}

/// True iff the resolved path is among the paths known to exist.
fn path_in_exec(existing: &Vec<FsPath>, p: &FsPath) -> (r: bool)
    requires
        p.rooted,
    ensures
        r == path_in(existing@, p.segs()),
{
    let n = existing.len();
    let mut i: usize = 0;
    while i < n
        invariant
            i <= n,
            n == existing@.len(),
            p.rooted,
            forall|j: int|
                0 <= j < i ==> !((#[trigger] existing@[j]).rooted && existing@[j].segs()
                    == p.segs()),
        decreases n - i,
    {
        if path_eq(&existing[i], p) {
            return true;
        }
        i = i + 1;
    }
    false
}

/// Rewrites one stored value if it is flagged, relative, and its old
/// resolution exists. Returns the rewritten text, or `None` to keep the
/// value as it stands.
fn rw_val_exec(v: &String, old_dir: &FsPath, new_dir: &FsPath, existing: &Vec<FsPath>) -> (r:
    Option<String>)
    requires
        old_dir.is_canonical_abs(),
        new_dir.is_canonical_abs(),
    ensures
        match r {
            Some(t) => rw_hit(v@, old_dir.segs(), existing@) && t@ == rw_val(
                v@,
                old_dir.segs(),
                new_dir.segs(),
                existing@,
            ),
            None => !rw_hit(v@, old_dir.segs(), existing@),
        },
{
    if !looks_like_out_of_tree_relative_path(v.as_str()) {
        return None;
    }
    let parsed = parse_path(v.as_str());
    if parsed.rooted {
        return None;
    }
    let resolved = absolute(&parsed, old_dir);
    if path_in_exec(existing, &resolved) {
        let rel = relative_path(new_dir, &resolved);
        Some(rel.render())
    } else {
        None
    }
}

fn rw_attrs_exec(
    attrs: &mut Vec<(String, String)>,
    old_dir: &FsPath,
    new_dir: &FsPath,
    existing: &Vec<FsPath>,
) -> (edited: bool)
    requires
        old_dir.is_canonical_abs(),
        new_dir.is_canonical_abs(),
    ensures
        attrs_view(final(attrs)@) == rw_attrs(
            attrs_view(old(attrs)@),
            old_dir.segs(),
            new_dir.segs(),
            existing@,
        ),
        edited == attrs_rw_hit(attrs_view(old(attrs)@), old_dir.segs(), existing@),
{
    let ghost a0 = attrs_view(old(attrs)@);
    let mut edited = false;
    let mut i: usize = 0;
    let n = attrs.len();
    while i < n
        invariant
            i <= n,
            n == attrs@.len(),
            a0.len() == n,
            old_dir.is_canonical_abs(),
            new_dir.is_canonical_abs(),
            forall|j: int| i <= j < n ==> attrs@[j] == old(attrs)@[j],
            forall|j: int| 0 <= j < n ==> a0[j] == (old(attrs)@[j].0@, old(attrs)@[j].1@),
            forall|j: int|
                0 <= j < i ==> (attrs@[j].0@, attrs@[j].1@) == (
                    a0[j].0,
                    rw_val(a0[j].1, old_dir.segs(), new_dir.segs(), existing@),
                ),
            edited == exists|j: int|
                0 <= j < i && rw_hit((#[trigger] a0[j]).1, old_dir.segs(), existing@),
        decreases n - i,
    {
        match rw_val_exec(&attrs[i].1, old_dir, new_dir, existing) {
            Some(t) => {
                let key = attrs[i].0.clone();
                attrs[i] = (key, t);
                edited = true;
                proof {
                    assert(rw_hit(a0[i as int].1, old_dir.segs(), existing@));
                }
            },
            None => {
                proof {
                    assert(!rw_hit(a0[i as int].1, old_dir.segs(), existing@));
                }
            },
        }
        i = i + 1;
    }
    proof {
        assert(attrs_view(attrs@) =~~= rw_attrs(a0, old_dir.segs(), new_dir.segs(), existing@));
    }
    edited
}

/// The outbound pass over one node, in place.
fn rw_node_exec(
    n: &mut XmlNode,
    old_dir: &FsPath,
    new_dir: &FsPath,
    existing: &Vec<FsPath>,
) -> (edited: bool)
    requires
        old_dir.is_canonical_abs(),
        new_dir.is_canonical_abs(),
    ensures
        node_view(*final(n)) == rw_node(
            node_view(*old(n)),
            old_dir.segs(),
            new_dir.segs(),
            existing@,
        ),
        edited == node_rw_hit(node_view(*old(n)), old_dir.segs(), existing@),
    decreases *old(n),
{
    match n {
        XmlNode::Element(e) => {
            let ghost e0 = *e;
            let mut edited = rw_attrs_exec(&mut e.attributes, old_dir, new_dir, existing);
            let ghost c0 = e0.children@;
            let mut i: usize = 0;
            let nc = e.children.len();
            while i < nc
                invariant
                    i <= nc,
                    nc == e.children@.len(),
                    nc == c0.len(),
                    c0 == e0.children@,
                    old_dir.is_canonical_abs(),
                    new_dir.is_canonical_abs(),
                    *old(n) == XmlNode::Element(e0),
                    e.name == e0.name,
                    attrs_view(e.attributes@) == rw_attrs(
                        attrs_view(e0.attributes@),
                        old_dir.segs(),
                        new_dir.segs(),
                        existing@,
                    ),
                    forall|j: int| i <= j < nc ==> e.children@[j] == c0[j],
                    forall|j: int|
                        0 <= j < i ==> node_view(e.children@[j]) == rw_node(
                            node_view(c0[j]),
                            old_dir.segs(),
                            new_dir.segs(),
                            existing@,
                        ),
                    edited == (attrs_rw_hit(attrs_view(e0.attributes@), old_dir.segs(), existing@)
                        || exists|j: int|
                        0 <= j < i && node_rw_hit(
                            node_view(#[trigger] c0[j]),
                            old_dir.segs(),
                            existing@,
                        )),
                decreases nc - i,
            {
                proof {
                    let m = *old(n);
                    assert(m->Element_0 == e0);
                    assert(decreases_to!(m => m->Element_0));
                    assert(decreases_to!(e0 => e0.children));
                    assert(decreases_to!(e0.children => e0.children@));
                    assert(decreases_to!(e0.children@ => e0.children@[i as int]));
                    assert(e.children@[i as int] == e0.children@[i as int]);
                }
                let ed = rw_node_exec(&mut e.children[i], old_dir, new_dir, existing);
                edited = edited || ed;
                i = i + 1;
            }
            proof {
                let odv = old_dir.segs();
                let ndv = new_dir.segs();
                lemma_rw_children_index(nodes_view(c0), odv, ndv, existing@);
                crate::xml::lemma_nodes_view_index(c0);
                crate::xml::lemma_nodes_view_index(e.children@);
                assert(nodes_view(e.children@) =~~= rw_children(nodes_view(c0), odv, ndv, existing@));
                lemma_children_rw_hit_exists(nodes_view(c0), odv, existing@);
                assert(children_rw_hit(nodes_view(c0), odv, existing@) == (exists|j: int|
                    0 <= j < nc && node_rw_hit(node_view(#[trigger] c0[j]), odv, existing@))) by {
                    if children_rw_hit(nodes_view(c0), odv, existing@) {
                        let w = choose|i2: int|
                            0 <= i2 < nodes_view(c0).len() && node_rw_hit(
                                #[trigger] nodes_view(c0)[i2],
                                odv,
                                existing@,
                            );
                        assert(node_rw_hit(node_view(c0[w]), odv, existing@));
                    }
                    if exists|j: int|
                        0 <= j < nc && node_rw_hit(node_view(#[trigger] c0[j]), odv, existing@) {
                        let w = choose|j: int|
                            0 <= j < nc && node_rw_hit(node_view(#[trigger] c0[j]), odv, existing@);
                        assert(node_rw_hit(nodes_view(c0)[w], odv, existing@));
                    }
                }
                assert(node_view(*old(n)) == XmlNodeV::Element(
                    XmlElementV {
                        name: e0.name@,
                        attributes: attrs_view(e0.attributes@),
                        children: nodes_view(c0),
                    },
                ));
            }
            edited
        },
        XmlNode::Text(t) => {
            match rw_val_exec(t, old_dir, new_dir, existing) {
                Some(new_text) => {
                    *t = new_text;
                    true
                },
                None => false,
            }
        },
        XmlNode::Other => false,
    }
}

/// Outbound fixup for the moved project's own document: every stored value
/// flagged by the heuristic whose resolution against the old directory is
/// among `existing` (the candidate resolutions that were found on disk) is
/// re-expressed relative to the new directory. Returns whether anything was
/// rewritten.
pub fn rewrite_out_of_tree_values(
    doc: &mut XmlNode,
    old_dir: &FsPath,
    new_dir: &FsPath,
    existing: &Vec<FsPath>,
) -> (edited: bool)
    requires
        old_dir.is_canonical_abs(),
        new_dir.is_canonical_abs(),
    ensures
        node_view(*final(doc)) == rw_node(
            node_view(*old(doc)),
            old_dir.segs(),
            new_dir.segs(),
            existing@,
        ),
        edited == node_rw_hit(node_view(*old(doc)), old_dir.segs(), existing@),
{
    rw_node_exec(doc, old_dir, new_dir, existing)
}

/// Law: a rewritten value, resolved from the new directory, resolves to the
/// very path its old text resolved to from the old directory.
pub proof fn lemma_rewrite_preserves_resolution(
    v: Seq<char>,
    old_dir: Seq<Seq<char>>,
    new_dir: Seq<Seq<char>>,
    existing: Seq<FsPath>,
)
    requires
        all_normal(old_dir),
        all_sep_free(old_dir),
        all_normal(new_dir),
        all_sep_free(new_dir),
        rw_hit(v, old_dir, existing),
    ensures
        val_resolution(rw_val(v, old_dir, new_dir, existing), new_dir) == val_resolution(
            v,
            old_dir,
        ),
{
    let target = val_resolution(v, old_dir);
    crate::paths::lemma_split_sep_free(v, Seq::empty());
    crate::paths::lemma_norm_abs_shape(Seq::empty(), old_dir + split_segs(v));
    assert(all_sep_free(old_dir + split_segs(v))) by {
        assert(forall|i: int|
            0 <= i < old_dir.len() ==> (old_dir + split_segs(v))[i] == #[trigger] old_dir[i]);
        assert(forall|i: int|
            0 <= i < split_segs(v).len() ==> (old_dir + split_segs(v))[i + old_dir.len()]
                == #[trigger] split_segs(v)[i]);
    }
    lemma_rel_value_resolves(new_dir, target);
    let t = rw_val(v, old_dir, new_dir, existing);
    assert(!val_rooted(t));
}

// ---------------------------------------------------------------------------
// Candidate collection for the outbound fixup.
// ---------------------------------------------------------------------------

/// The collected resolutions, as segment lists.
pub open spec fn fspaths_view(ps: Seq<FsPath>) -> Seq<Seq<Seq<char>>> {
    Seq::new(ps.len(), |i: int| ps[i].segs())
}

pub open spec fn cand_val(v: Seq<char>, old_dir: Seq<Seq<char>>) -> Seq<Seq<Seq<char>>> {
    if spec_out_of_tree(v) && !val_rooted(v) {
        seq![val_resolution(v, old_dir)]
    } else {
        Seq::empty()
    }
}

pub open spec fn cands_attrs(
    attrs: Seq<(Seq<char>, Seq<char>)>,
    old_dir: Seq<Seq<char>>,
) -> Seq<Seq<Seq<char>>>
    decreases attrs.len(),
{
    if attrs.len() == 0 {
        Seq::empty()
    } else {
        cand_val(attrs[0].1, old_dir) + cands_attrs(attrs.drop_first(), old_dir)
    }
}

/// The resolutions, against the old directory, of every value the
/// heuristic flags, in document order.
pub open spec fn cands_node(n: XmlNodeV, old_dir: Seq<Seq<char>>) -> Seq<Seq<Seq<char>>>
    decreases n,
{
    match n {
        XmlNodeV::Element(e) => cands_attrs(e.attributes, old_dir) + cands_children(
            e.children,
            old_dir,
        ),
        XmlNodeV::Text(t) => cand_val(t, old_dir),
        XmlNodeV::Other => Seq::empty(),
    }
}

pub open spec fn cands_children(cs: Seq<XmlNodeV>, old_dir: Seq<Seq<char>>) -> Seq<Seq<Seq<char>>>
    decreases cs,
{
    if cs.len() == 0 {
        Seq::empty()
    } else {
        cands_node(cs[0], old_dir) + cands_children(cs.drop_first(), old_dir)
    }
}

fn collect_attrs(
    attrs: &Vec<(String, String)>,
    old_dir: &FsPath,
    out: &mut Vec<FsPath>,
)
    requires
        old_dir.is_canonical_abs(),
    ensures
        fspaths_view(final(out)@) == fspaths_view(old(out)@) + cands_attrs(
            attrs_view(attrs@),
            old_dir.segs(),
        ),
        final(out)@.len() >= old(out)@.len(),
        forall|j: int| 0 <= j < old(out)@.len() ==> final(out)@[j] == old(out)@[j],
        forall|j: int|
            old(out)@.len() <= j < final(out)@.len() ==> (#[trigger] final(out)@[j]).is_canonical_abs(),
{
    let ghost a0 = attrs_view(attrs@);
    let ghost out0 = old(out)@;
    let mut i: usize = 0;
    let n = attrs.len();
    proof {
        assert(cands_attrs(a0.take(0), old_dir.segs()) =~~= Seq::<Seq<Seq<char>>>::empty());
        assert(fspaths_view(out@) =~~= fspaths_view(out0) + cands_attrs(
            a0.take(0),
            old_dir.segs(),
        ));
    }
    while i < n
        invariant
            i <= n,
            n == attrs@.len(),
            a0 == attrs_view(attrs@),
            a0.len() == n,
            old_dir.is_canonical_abs(),
            out0 == old(out)@,
            fspaths_view(out@) == fspaths_view(out0) + cands_attrs(
                a0.take(i as int),
                old_dir.segs(),
            ),
            out@.len() >= out0.len(),
            forall|j: int| 0 <= j < out0.len() ==> out@[j] == out0[j],
            forall|j: int|
                out0.len() <= j < out@.len() ==> (#[trigger] out@[j]).is_canonical_abs(),
        decreases n - i,
    {
        let ghost pre = out@;
        proof {
            lemma_cands_attrs_snoc(a0, i as int, old_dir.segs());
        }
        if looks_like_out_of_tree_relative_path(attrs[i].1.as_str()) {
            let parsed = parse_path(attrs[i].1.as_str());
            if !parsed.rooted {
                let resolved = absolute(&parsed, old_dir);
                out.push(resolved);
                proof {
                    assert(fspaths_view(out@) =~~= fspaths_view(pre).push(
                        out@[out@.len() - 1].segs(),
                    ));
                }
            }
        }
        proof {
            assert(fspaths_view(out@) =~~= fspaths_view(out0) + cands_attrs(
                a0.take(i as int + 1),
                old_dir.segs(),
            ));
        }
        i = i + 1;
    }
    proof {
        assert(a0.take(n as int) =~= a0);
    }
}

/// One step of unrolling `cands_attrs` from the right.
proof fn lemma_cands_attrs_snoc(attrs: Seq<(Seq<char>, Seq<char>)>, i: int, old_dir: Seq<Seq<char>>)
    requires
        0 <= i < attrs.len(),
    ensures
        cands_attrs(attrs.take(i + 1), old_dir) == cands_attrs(attrs.take(i), old_dir) + cand_val(
            attrs[i].1,
            old_dir,
        ),
    decreases i,
{
    if i == 0 {
        assert(attrs.take(1)[0] == attrs[0]);
        assert(attrs.take(1).drop_first() =~= attrs.take(0));
        assert(cands_attrs(attrs.take(0), old_dir) == Seq::<Seq<Seq<char>>>::empty());
        assert(cands_attrs(attrs.take(1), old_dir) == cand_val(attrs[0].1, old_dir)
            + Seq::<Seq<Seq<char>>>::empty());
        assert(cand_val(attrs[0].1, old_dir) + Seq::<Seq<Seq<char>>>::empty() =~~= Seq::<
            Seq<Seq<char>>,
        >::empty() + cand_val(attrs[0].1, old_dir));
    } else {
        lemma_cands_attrs_snoc(attrs.drop_first(), i - 1, old_dir);
        assert(attrs.take(i + 1)[0] == attrs[0]);
        assert(attrs.take(i + 1).drop_first() =~= attrs.drop_first().take(i));
        assert(attrs.take(i).drop_first() =~= attrs.drop_first().take(i - 1));
        assert(attrs.drop_first()[i - 1] == attrs[i]);
        assert(cand_val(attrs[0].1, old_dir) + (cands_attrs(attrs.drop_first().take(i - 1), old_dir)
            + cand_val(attrs[i].1, old_dir)) =~~= (cand_val(attrs[0].1, old_dir) + cands_attrs(
            attrs.drop_first().take(i - 1),
            old_dir,
        )) + cand_val(attrs[i].1, old_dir));
    }
}

fn collect_node(n: &XmlNode, old_dir: &FsPath, out: &mut Vec<FsPath>)
    requires
        old_dir.is_canonical_abs(),
    ensures
        fspaths_view(final(out)@) == fspaths_view(old(out)@) + cands_node(
            node_view(*n),
            old_dir.segs(),
        ),
        final(out)@.len() >= old(out)@.len(),
        forall|j: int| 0 <= j < old(out)@.len() ==> final(out)@[j] == old(out)@[j],
        forall|j: int|
            old(out)@.len() <= j < final(out)@.len() ==> (#[trigger] final(out)@[j]).is_canonical_abs(),
    decreases *n,
{
    match n {
        XmlNode::Element(e) => {
            collect_attrs(&e.attributes, old_dir, out);
            let ghost after_attrs = out@;
            let ghost c0 = e.children@;
            let mut i: usize = 0;
            let nc = e.children.len();
            proof {
                assert(cands_children(nodes_view(c0).take(0), old_dir.segs()) =~~= Seq::<
                    Seq<Seq<char>>,
                >::empty());
                crate::xml::lemma_nodes_view_index(c0);
                assert(fspaths_view(out@) =~~= fspaths_view(after_attrs) + cands_children(
                    nodes_view(c0).take(0),
                    old_dir.segs(),
                ));
            }
            while i < nc
                invariant
                    i <= nc,
                    nc == e.children@.len(),
                    c0 == e.children@,
                    nodes_view(c0).len() == nc,
                    *n == XmlNode::Element(*e),
                    old_dir.is_canonical_abs(),
                    fspaths_view(out@) == fspaths_view(after_attrs) + cands_children(
                        nodes_view(c0).take(i as int),
                        old_dir.segs(),
                    ),
                    after_attrs.len() >= old(out)@.len(),
                    forall|j: int| 0 <= j < old(out)@.len() ==> after_attrs[j] == old(out)@[j],
                    forall|j: int|
                        old(out)@.len() <= j < after_attrs.len() ==> (#[trigger] after_attrs[j]).is_canonical_abs(),
                    out@.len() >= after_attrs.len(),
                    forall|j: int| 0 <= j < after_attrs.len() ==> out@[j] == after_attrs[j],
                    forall|j: int|
                        after_attrs.len() <= j < out@.len() ==> (#[trigger] out@[j]).is_canonical_abs(),
                decreases nc - i,
            {
                proof {
                    let m = *n;
                    assert(m->Element_0 == *e);
                    assert(decreases_to!(m => m->Element_0));
                    let ee = *e;
                    assert(decreases_to!(ee => ee.children));
                    assert(decreases_to!(ee.children => ee.children@));
                    assert(decreases_to!(ee.children@ => ee.children@[i as int]));
                    lemma_cands_children_snoc(nodes_view(c0), i as int, old_dir.segs());
                    crate::xml::lemma_nodes_view_index(c0);
                }
                collect_node(&e.children[i], old_dir, out);
                i = i + 1;
            }
            proof {
                assert(nodes_view(c0).take(nc as int) =~= nodes_view(c0));
                assert(fspaths_view(out@) =~~= fspaths_view(old(out)@) + (cands_attrs(
                    attrs_view(e.attributes@),
                    old_dir.segs(),
                ) + cands_children(nodes_view(c0), old_dir.segs())));
                assert forall|j: int|
                    old(out)@.len() <= j < out@.len() implies (#[trigger] out@[j]).is_canonical_abs() by {
                    if j < after_attrs.len() {
                        assert(out@[j] == after_attrs[j]);
                    }
                }
            }
        },
        XmlNode::Text(t) => {
            let ghost pre = out@;
            if looks_like_out_of_tree_relative_path(t.as_str()) {
                let parsed = parse_path(t.as_str());
                if !parsed.rooted {
                    let resolved = absolute(&parsed, old_dir);
                    out.push(resolved);
                    proof {
                        assert(fspaths_view(out@) =~~= fspaths_view(pre).push(
                            out@[out@.len() - 1].segs(),
                        ));
                        assert(fspaths_view(out@) =~~= fspaths_view(pre) + cand_val(
                            t@,
                            old_dir.segs(),
                        ));
                    }
                    return ;
                }
            }
            proof {
                assert(fspaths_view(out@) =~~= fspaths_view(pre) + cand_val(t@, old_dir.segs()));
            }
        },
        XmlNode::Other => {
            proof {
                assert(fspaths_view(out@) =~~= fspaths_view(out@) + Seq::<Seq<Seq<char>>>::empty());
            }
        },
    }
}

/// One step of unrolling `cands_children` from the right.
proof fn lemma_cands_children_snoc(cs: Seq<XmlNodeV>, i: int, old_dir: Seq<Seq<char>>)
    requires
        0 <= i < cs.len(),
    ensures
        cands_children(cs.take(i + 1), old_dir) == cands_children(cs.take(i), old_dir)
            + cands_node(cs[i], old_dir),
    decreases i,
{
    if i == 0 {
        assert(cs.take(1)[0] == cs[0]);
        assert(cs.take(1).drop_first() =~= cs.take(0));
        assert(cands_children(cs.take(0), old_dir) == Seq::<Seq<Seq<char>>>::empty());
        assert(cands_children(cs.take(1), old_dir) == cands_node(cs[0], old_dir) + Seq::<
            Seq<Seq<char>>,
        >::empty());
        assert(cands_node(cs[0], old_dir) + Seq::<Seq<Seq<char>>>::empty() =~~= Seq::<
            Seq<Seq<char>>,
        >::empty() + cands_node(cs[0], old_dir));
    } else {
        lemma_cands_children_snoc(cs.drop_first(), i - 1, old_dir);
        assert(cs.take(i + 1)[0] == cs[0]);
        assert(cs.take(i + 1).drop_first() =~= cs.drop_first().take(i));
        assert(cs.take(i).drop_first() =~= cs.drop_first().take(i - 1));
        assert(cs.drop_first()[i - 1] == cs[i]);
        assert(cands_node(cs[0], old_dir) + (cands_children(cs.drop_first().take(i - 1), old_dir)
            + cands_node(cs[i], old_dir)) =~~= (cands_node(cs[0], old_dir) + cands_children(
            cs.drop_first().take(i - 1),
            old_dir,
        )) + cands_node(cs[i], old_dir));
    }
}

/// Collects, in document order, the resolution against the old directory
/// of every value the heuristic flags. The caller checks which of these
/// exist on disk and hands the surviving ones to
/// `rewrite_out_of_tree_values`.
pub fn out_of_tree_candidates(doc: &XmlNode, old_dir: &FsPath) -> (r: Vec<FsPath>)
    requires
        old_dir.is_canonical_abs(),
    ensures
        fspaths_view(r@) == cands_node(node_view(*doc), old_dir.segs()),
        forall|j: int| 0 <= j < r@.len() ==> (#[trigger] r@[j]).is_canonical_abs(),
{
    let mut out: Vec<FsPath> = Vec::new();
    proof {
        assert(fspaths_view(out@) =~~= Seq::<Seq<Seq<char>>>::empty());
    }
    collect_node(doc, old_dir, &mut out);
    proof {
        assert(Seq::<Seq<Seq<char>>>::empty() + cands_node(node_view(*doc), old_dir.segs())
            =~~= cands_node(node_view(*doc), old_dir.segs()));
    }
    out
}

/// Law: after the move, a rewritten reference edge again resolves — from
/// the referencing project's own directory — to the moved project's new
/// path. Together with `fix_node`, which replaces exactly the matching
/// edges by `new_ref_text`, this is reference integrity for every project
/// that referenced the moved one.
pub proof fn lemma_reference_integrity(dir: Seq<Seq<char>>, newf: Seq<Seq<char>>)
    requires
        all_normal(dir),
        all_sep_free(dir),
        all_normal(newf),
        all_sep_free(newf),
    ensures
        val_resolution(new_ref_text(dir, newf), dir) == newf,
{
    lemma_rel_value_resolves(dir, newf);
    let v = new_ref_text(dir, newf);
    assert(!val_rooted(v));
}

/// Law: in a fixed-up `ProjectReference` attribute list, every edge that
/// used to resolve to the moved descriptor now resolves to its new path,
/// and every other attribute is exactly what it was.
pub proof fn lemma_fixed_attrs_resolve(
    attrs: Seq<(Seq<char>, Seq<char>)>,
    dir: Seq<Seq<char>>,
    oldf: Seq<Seq<char>>,
    newf: Seq<Seq<char>>,
)
    requires
        all_normal(dir),
        all_sep_free(dir),
        all_normal(newf),
        all_sep_free(newf),
    ensures
        forall|i: int|
            0 <= i < attrs.len() && (#[trigger] attrs[i]).0 == "Include"@ && ref_matches(
                attrs[i].1,
                dir,
                oldf,
            ) ==> val_resolution(fix_attrs(attrs, dir, oldf, new_ref_text(dir, newf))[i].1, dir)
                == newf,
        forall|i: int|
            0 <= i < attrs.len() && !((#[trigger] attrs[i]).0 == "Include"@ && ref_matches(
                attrs[i].1,
                dir,
                oldf,
            )) ==> fix_attrs(attrs, dir, oldf, new_ref_text(dir, newf))[i] == attrs[i],
{
    lemma_reference_integrity(dir, newf);
}

// ---------------------------------------------------------------------------
// Identity backfill.
// ---------------------------------------------------------------------------

/// The node is an element carrying the given name.
pub open spec fn is_elem_named(n: XmlNodeV, name: Seq<char>) -> bool {
    match n {
        XmlNodeV::Element(e) => e.name == name,
        _ => false,
    }
}

/// The index of the first child element named `name`, or `-1`.
pub open spec fn find_elem(cs: Seq<XmlNodeV>, name: Seq<char>) -> int
    decreases cs.len(),
{
    if cs.len() == 0 {
        -1
    } else if is_elem_named(cs[0], name) {
        0
    } else {
        let r = find_elem(cs.drop_first(), name);
        if r < 0 {
            -1
        } else {
            r + 1
        }
    }
}

pub proof fn lemma_find_elem_props(cs: Seq<XmlNodeV>, name: Seq<char>)
    ensures
        find_elem(cs, name) == -1 ==> forall|j: int|
            0 <= j < cs.len() ==> !is_elem_named(#[trigger] cs[j], name),
        find_elem(cs, name) >= 0 ==> 0 <= find_elem(cs, name) < cs.len() && is_elem_named(
            cs[find_elem(cs, name)],
            name,
        ) && forall|j: int| 0 <= j < find_elem(cs, name) ==> !is_elem_named(#[trigger] cs[j], name),
    decreases cs.len(),
{
    if cs.len() > 0 && !is_elem_named(cs[0], name) {
        lemma_find_elem_props(cs.drop_first(), name);
        let r = find_elem(cs.drop_first(), name);
        if r == -1 {
            assert forall|j: int| 0 <= j < cs.len() implies !is_elem_named(
                #[trigger] cs[j],
                name,
            ) by {
                if j > 0 {
                    assert(cs.drop_first()[j - 1] == cs[j]);
                    assert(!is_elem_named(cs.drop_first()[j - 1], name));
                }
            }
        } else {
            assert(cs[r + 1] == cs.drop_first()[r]);
            assert forall|j: int| 0 <= j < r + 1 implies !is_elem_named(
                #[trigger] cs[j],
                name,
            ) by {
                if j > 0 {
                    assert(cs.drop_first()[j - 1] == cs[j]);
                    assert(!is_elem_named(cs.drop_first()[j - 1], name));
                }
            }
        }
    }
}

pub proof fn lemma_find_elem_at(cs: Seq<XmlNodeV>, name: Seq<char>, k: int)
    requires
        0 <= k < cs.len(),
        is_elem_named(cs[k], name),
        forall|j: int| 0 <= j < k ==> !is_elem_named(#[trigger] cs[j], name),
    ensures
        find_elem(cs, name) == k,
    decreases cs.len(),
{
    if k == 0 {
    } else {
        assert(!is_elem_named(cs[0], name));
        assert(cs.drop_first()[k - 1] == cs[k]);
        assert(forall|j: int|
            0 <= j < k - 1 ==> #[trigger] cs.drop_first()[j] == cs[j + 1]);
        lemma_find_elem_at(cs.drop_first(), name, k - 1);
    }
}

pub proof fn lemma_find_elem_none(cs: Seq<XmlNodeV>, name: Seq<char>)
    requires
        forall|j: int| 0 <= j < cs.len() ==> !is_elem_named(#[trigger] cs[j], name),
    ensures
        find_elem(cs, name) == -1,
    decreases cs.len(),
{
    if cs.len() > 0 {
        assert(forall|j: int|
            0 <= j < cs.len() - 1 ==> #[trigger] cs.drop_first()[j] == cs[j + 1]);
        lemma_find_elem_none(cs.drop_first(), name);
    }
}

/// Some child element carries the given name.
pub open spec fn has_child_elem(cs: Seq<XmlNodeV>, name: Seq<char>) -> bool {
    exists|i: int| 0 <= i < cs.len() && is_elem_named(#[trigger] cs[i], name)
}

fn node_is_elem_named(n: &XmlNode, name: &String) -> (r: bool)
    ensures
        r == is_elem_named(node_view(*n), name@),
{
    match n {
        XmlNode::Element(el) => el.name.eq(name),
        _ => false,
    }
}

/// The index of the first child element with the given name.
fn find_child_elem(cs: &Vec<XmlNode>, name: &String) -> (r: Option<usize>)
    ensures
        match r {
            Some(i) => i < cs@.len() && find_elem(nodes_view(cs@), name@) == i,
            None => find_elem(nodes_view(cs@), name@) == -1,
        },
{
    proof {
        crate::xml::lemma_nodes_view_index(cs@);
    }
    let n = cs.len();
    let mut i: usize = 0;
    while i < n
        invariant
            i <= n,
            n == cs@.len(),
            nodes_view(cs@).len() == n,
            forall|j: int|
                0 <= j < i ==> !is_elem_named(node_view(#[trigger] cs@[j]), name@),
        decreases n - i,
    {
        if node_is_elem_named(&cs[i], name) {
            proof {
                crate::xml::lemma_nodes_view_index(cs@);
                assert(forall|j: int|
                    0 <= j < i ==> !is_elem_named(#[trigger] nodes_view(cs@)[j], name@));
                lemma_find_elem_at(nodes_view(cs@), name@, i as int);
            }
            return Some(i);
        }
        i = i + 1;
    }
    proof {
        crate::xml::lemma_nodes_view_index(cs@);
        assert(forall|j: int|
            0 <= j < n ==> !is_elem_named(#[trigger] nodes_view(cs@)[j], name@));
        lemma_find_elem_none(nodes_view(cs@), name@);
    }
    None
}

fn has_child_elem_exec(cs: &Vec<XmlNode>, name: &String) -> (r: bool)
    ensures
        r == has_child_elem(nodes_view(cs@), name@),
{
    match find_child_elem(cs, name) {
        Some(i) => {
            proof {
                lemma_find_elem_props(nodes_view(cs@), name@);
            }
            true
        },
        None => {
            proof {
                lemma_find_elem_props(nodes_view(cs@), name@);
            }
            false
        },
    }
}

/// A synthesized identity property: an element of the given name holding
/// one text child.
pub open spec fn prop_node(name: Seq<char>, text: Seq<char>) -> XmlNodeV {
    XmlNodeV::Element(
        XmlElementV { name, attributes: Seq::empty(), children: seq![XmlNodeV::Text(text)] },
    )
}

/// Whether the backfill changes anything: the project has a first property
/// group and it lacks one of the two identity properties.
pub open spec fn ids_missing(ev: XmlElementV) -> bool {
    let k = find_elem(ev.children, "PropertyGroup"@);
    k >= 0 && {
        let pg = ev.children[k]->Element_0;
        !has_child_elem(pg.children, "RootNamespace"@) || !has_child_elem(
            pg.children,
            "AssemblyName"@,
        )
    }
}

/// The backfilled project element: each identity property missing from the
/// first property group is synthesized from the new file's base name and
/// appended to that group, root-namespace first.
pub open spec fn ensure_ids(ev: XmlElementV, stem: Seq<char>) -> XmlElementV {
    let k = find_elem(ev.children, "PropertyGroup"@);
    if k < 0 {
        ev
    } else {
        let pg = ev.children[k]->Element_0;
        let add_rn: Seq<XmlNodeV> = if !has_child_elem(pg.children, "RootNamespace"@) {
            seq![prop_node("RootNamespace"@, stem)]
        } else {
            Seq::empty()
        };
        let add_an: Seq<XmlNodeV> = if !has_child_elem(pg.children, "AssemblyName"@) {
            seq![prop_node("AssemblyName"@, stem)]
        } else {
            Seq::empty()
        };
        let pg2 = XmlElementV {
            name: pg.name,
            attributes: pg.attributes,
            children: pg.children + add_rn + add_an,
        };
        XmlElementV {
            name: ev.name,
            attributes: ev.attributes,
            children: ev.children.update(k, XmlNodeV::Element(pg2)),
        }
    }
}

/// Builds one synthesized identity property element.
fn make_prop(name: &String, text: &str) -> (r: XmlNode)
    ensures
        node_view(r) == prop_node(name@, text@),
{
    let payload = XmlNode::Text(text.to_owned());
    let ghost pv = payload;
    let mut children: Vec<XmlNode> = Vec::new();
    children.push(payload);
    let ghost cs = children@;
    proof {
        assert(cs.len() == 1 && cs[0] == pv);
        assert(node_view(pv) == XmlNodeV::Text(text@));
        assert(cs.drop_first() =~= Seq::<XmlNode>::empty());
        assert(nodes_view(cs.drop_first()) =~= Seq::<XmlNodeV>::empty());
        assert(nodes_view(cs) == seq![node_view(cs[0])] + nodes_view(cs.drop_first()));
        assert(nodes_view(cs) =~~= seq![XmlNodeV::Text(text@)]);
    }
    let el = XmlElement { name: name.clone(), attributes: Vec::new(), children };
    let r = XmlNode::Element(el);
    proof {
        assert(attrs_view(Seq::<(String, String)>::empty()) =~~= Seq::<
            (Seq<char>, Seq<char>),
        >::empty());
        assert(node_view(r) =~~= prop_node(name@, text@));
    }
    r
}

/// Identity backfill: if the project's first property group lacks the
/// root-namespace or assembly-name property, each missing one is
/// synthesized from `name` — the new file's base name — so that renaming
/// never silently changes build identity. Returns whether anything was
/// inserted.
pub fn ensure_root_namespace_and_assembly_name(element: &mut XmlElement, name: &str) -> (modified:
    bool)
    ensures
        final(element)@ == ensure_ids(old(element)@, name@),
        modified == ids_missing(old(element)@),
{
    let pg_name = String::from_str("PropertyGroup");
    let rn_name = String::from_str("RootNamespace");
    let an_name = String::from_str("AssemblyName");
    let ghost ev0 = old(element)@;
    match find_child_elem(&element.children, &pg_name) {
        None => {
            proof {
                assert(ensure_ids(ev0, name@) == ev0);
            }
            false
        },
        Some(k) => {
            let ghost c0 = element.children@;
            proof {
                lemma_find_elem_props(nodes_view(c0), "PropertyGroup"@);
                crate::xml::lemma_nodes_view_index(c0);
                assert(is_elem_named(node_view(c0[k as int]), "PropertyGroup"@));
            }
            let pg = &mut element.children[k];
            let ghost pg_node0 = *pg;
            match pg {
                XmlNode::Element(pgel) => {
                    let ghost pg0 = *pgel;
                    let has_rn = has_child_elem_exec(&pgel.children, &rn_name);
                    let has_an = has_child_elem_exec(&pgel.children, &an_name);
                    let mut modified = false;
                    if !has_rn {
                        let ghost pre = pgel.children@;
                        let node = make_prop(&rn_name, name);
                        pgel.children.push(node);
                        proof {
                            crate::xml::lemma_nodes_view_push(pre, node);
                        }
                        modified = true;
                    }
                    if !has_an {
                        let ghost pre = pgel.children@;
                        let node = make_prop(&an_name, name);
                        pgel.children.push(node);
                        proof {
                            crate::xml::lemma_nodes_view_push(pre, node);
                        }
                        modified = true;
                    }
                    proof {
                        let kk = k as int;
                        let pgv = node_view(c0[kk])->Element_0;
                        assert(pgv == pg0@);
                        let add_rn: Seq<XmlNodeV> = if !has_child_elem(
                            pgv.children,
                            "RootNamespace"@,
                        ) {
                            seq![prop_node("RootNamespace"@, name@)]
                        } else {
                            Seq::empty()
                        };
                        let add_an: Seq<XmlNodeV> = if !has_child_elem(
                            pgv.children,
                            "AssemblyName"@,
                        ) {
                            seq![prop_node("AssemblyName"@, name@)]
                        } else {
                            Seq::empty()
                        };
                        assert(nodes_view(pgel.children@) =~~= pgv.children + add_rn + add_an);
                        assert(pgel@ =~~= XmlElementV {
                            name: pgv.name,
                            attributes: pgv.attributes,
                            children: pgv.children + add_rn + add_an,
                        });
                        crate::xml::lemma_nodes_view_update(c0, kk, XmlNode::Element(*pgel));
                        assert(element@.children =~~= ev0.children.update(
                            kk,
                            XmlNodeV::Element(pgel@),
                        ));
                        assert(element@ =~~= ensure_ids(ev0, name@));
                        assert(modified == ids_missing(ev0));
                    }
                    modified
                },
                _ => {
                    proof {
                        assert(false);
                    }
                    false
                },
            }
        },
    }
}

/// Law: a project missing both identity properties gets both, each set to
/// the new file's base name with the extension stripped.
pub proof fn lemma_identity_backfill(ev: XmlElementV, stem: Seq<char>)
    requires
        find_elem(ev.children, "PropertyGroup"@) >= 0,
        !has_child_elem(
            ev.children[find_elem(ev.children, "PropertyGroup"@)]->Element_0.children,
            "RootNamespace"@,
        ),
        !has_child_elem(
            ev.children[find_elem(ev.children, "PropertyGroup"@)]->Element_0.children,
            "AssemblyName"@,
        ),
    ensures
        ({
            let k = find_elem(ev.children, "PropertyGroup"@);
            let pg = ev.children[k]->Element_0;
            let pg2 = ensure_ids(ev, stem).children[k]->Element_0;
            &&& pg2.children.len() == pg.children.len() + 2
            &&& pg2.children[pg.children.len() as int] == prop_node("RootNamespace"@, stem)
            &&& pg2.children[pg.children.len() as int + 1] == prop_node("AssemblyName"@, stem)
            &&& has_child_elem(pg2.children, "RootNamespace"@)
            &&& has_child_elem(pg2.children, "AssemblyName"@)
        }),
{
    lemma_find_elem_props(ev.children, "PropertyGroup"@);
    let k = find_elem(ev.children, "PropertyGroup"@);
    let pg = ev.children[k]->Element_0;
    let add_rn = seq![prop_node("RootNamespace"@, stem)];
    let add_an = seq![prop_node("AssemblyName"@, stem)];
    let r = ensure_ids(ev, stem);
    let pg2 = r.children[k]->Element_0;
    let m = pg.children.len() as int;
    assert(pg2.children == pg.children + add_rn + add_an);
    assert((pg.children + add_rn)[m] == add_rn[0]);
    assert((pg.children + add_rn + add_an)[m] == (pg.children + add_rn)[m]);
    assert((pg.children + add_rn + add_an)[m + 1] == add_an[0]);
    assert(is_elem_named(pg2.children[m], "RootNamespace"@));
    assert(is_elem_named(pg2.children[m + 1], "AssemblyName"@));
}

/// Law: the backfill leaves a document alone when nothing is missing — the
/// project has no first property group, or that group already carries both
/// identity properties.
pub proof fn lemma_noop_backfill(ev: XmlElementV, stem: Seq<char>)
    requires
        !ids_missing(ev),
    ensures
        ensure_ids(ev, stem) == ev,
{
    let k = find_elem(ev.children, "PropertyGroup"@);
    if k >= 0 {
        lemma_find_elem_props(ev.children, "PropertyGroup"@);
        let pg = ev.children[k]->Element_0;
        let pg2 = XmlElementV {
            name: pg.name,
            attributes: pg.attributes,
            children: pg.children + Seq::<XmlNodeV>::empty() + Seq::<XmlNodeV>::empty(),
        };
        assert(pg2 =~~= pg);
        assert(ev.children[k] =~~= XmlNodeV::Element(pg));
        assert(ev.children.update(k, XmlNodeV::Element(pg2)) =~= ev.children);
        assert(ensure_ids(ev, stem) =~~= ev);
    }
}

/// No value anywhere in the node is flagged by the out-of-tree heuristic.
pub open spec fn node_no_oot(n: XmlNodeV) -> bool
    decreases n,
{
    match n {
        XmlNodeV::Element(e) => (forall|i: int|
            0 <= i < e.attributes.len() ==> !spec_out_of_tree((#[trigger] e.attributes[i]).1))
            && children_no_oot(e.children),
        XmlNodeV::Text(t) => !spec_out_of_tree(t),
        XmlNodeV::Other => true,
    }
}

pub open spec fn children_no_oot(cs: Seq<XmlNodeV>) -> bool
    decreases cs,
{
    if cs.len() == 0 {
        true
    } else {
        node_no_oot(cs[0]) && children_no_oot(cs.drop_first())
    }
}

/// Law: the outbound pass leaves a document with no out-of-tree values
/// byte-for-byte alone, and reports nothing to persist. Together with
/// `lemma_noop_backfill` this is the no-op round trip: moving a project
/// whose document has no out-of-tree values and both identity properties
/// changes nothing but its location.
pub proof fn lemma_noop_rewrite(
    n: XmlNodeV,
    old_dir: Seq<Seq<char>>,
    new_dir: Seq<Seq<char>>,
    existing: Seq<FsPath>,
)
    requires
        node_no_oot(n),
    ensures
        rw_node(n, old_dir, new_dir, existing) == n,
        !node_rw_hit(n, old_dir, existing),
    decreases n,
{
    match n {
        XmlNodeV::Element(e) => {
            assert(rw_attrs(e.attributes, old_dir, new_dir, existing) =~~= e.attributes);
            assert(!attrs_rw_hit(e.attributes, old_dir, existing));
            lemma_noop_rw_children(e.children, old_dir, new_dir, existing);
            assert(rw_node(n, old_dir, new_dir, existing) =~~= n);
        },
        XmlNodeV::Text(t) => {},
        XmlNodeV::Other => {},
    }
}

/// Law: the no-op round trip. Moving a project whose document has no
/// out-of-tree relative values and already carries both identity properties
/// leaves the document's model exactly as it was, and neither pass reports
/// anything to persist — so the destination file is never rewritten, only
/// relocated.
pub proof fn lemma_noop_move_keeps_document(
    ev: XmlElementV,
    old_dir: Seq<Seq<char>>,
    new_dir: Seq<Seq<char>>,
    existing: Seq<FsPath>,
    stem: Seq<char>,
)
    requires
        node_no_oot(XmlNodeV::Element(ev)),
        !ids_missing(ev),
    ensures
        rw_node(XmlNodeV::Element(ev), old_dir, new_dir, existing) == XmlNodeV::Element(ev),
        !node_rw_hit(XmlNodeV::Element(ev), old_dir, existing),
        ensure_ids(ev, stem) == ev,
{
    lemma_noop_rewrite(XmlNodeV::Element(ev), old_dir, new_dir, existing);
    lemma_noop_backfill(ev, stem);
}

pub proof fn lemma_noop_rw_children(
    cs: Seq<XmlNodeV>,
    old_dir: Seq<Seq<char>>,
    new_dir: Seq<Seq<char>>,
    existing: Seq<FsPath>,
)
    requires
        children_no_oot(cs),
    ensures
        rw_children(cs, old_dir, new_dir, existing) == cs,
        !children_rw_hit(cs, old_dir, existing),
    decreases cs,
{
    if cs.len() > 0 {
        lemma_noop_rewrite(cs[0], old_dir, new_dir, existing);
        lemma_noop_rw_children(cs.drop_first(), old_dir, new_dir, existing);
        assert(rw_children(cs, old_dir, new_dir, existing) =~= cs);
    }
}

} // verus!
