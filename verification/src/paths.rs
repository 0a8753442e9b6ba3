//! Lexical path arithmetic: splitting path strings into segments,
//! simplifying `.`/`..` runs, absolutizing against a base directory,
//! computing relative paths, and the out-of-tree heuristic.
//!
//! Nothing here touches the filesystem: every operation is defined purely
//! on the text of the path, so it also works for paths whose target does
//! not exist yet.

use vstd::prelude::*;

verus! {

/// A separator character. Both conventions are accepted on input; rendered
/// paths always use `/`.
pub open spec fn is_sep(c: char) -> bool {
    c == '/' || c == '\\'
}

/// The current-directory segment `.`.
pub open spec fn seg_dot() -> Seq<char> {
    seq!['.']
}

/// The parent-directory segment `..`.
pub open spec fn seg_up() -> Seq<char> {
    seq!['.', '.']
}

/// A normal segment: a real file or directory name.
pub open spec fn seg_is_normal(s: Seq<char>) -> bool {
    s.len() > 0 && s != seg_dot() && s != seg_up()
}

pub open spec fn all_normal(segs: Seq<Seq<char>>) -> bool {
    forall|i: int| 0 <= i < segs.len() ==> seg_is_normal(#[trigger] segs[i])
}

/// No separator character inside the segment. Everything obtained by
/// splitting a string on separators has this shape, and it is what lets a
/// rendered path be split back into the same segments.
pub open spec fn seg_sep_free(s: Seq<char>) -> bool {
    forall|j: int| 0 <= j < s.len() ==> !is_sep(#[trigger] s[j])
}

pub open spec fn all_sep_free(segs: Seq<Seq<char>>) -> bool {
    forall|i: int| 0 <= i < segs.len() ==> seg_sep_free(#[trigger] segs[i])
}

/// A filesystem path split into segments. `rooted` records whether the
/// path began with a separator.
pub struct FsPath {
    pub rooted: bool,
    pub parts: Vec<String>,
}

impl FsPath {
    /// The segments as a mathematical sequence of character sequences.
    pub open spec fn segs(&self) -> Seq<Seq<char>> {
        self.parts.deep_view()
    }

    /// A canonical absolute path: rooted, and every segment a real name.
    pub open spec fn is_canonical_abs(&self) -> bool {
        self.rooted && all_normal(self.segs()) && all_sep_free(self.segs())
    }
}

// ---------------------------------------------------------------------------
// Splitting a string on separators.
// ---------------------------------------------------------------------------

/// Splits `s` on separator characters, with `cur` the segment accumulated so
/// far. Splitting keeps empty segments; simplification drops them later.
pub open spec fn split_from(s: Seq<char>, cur: Seq<char>) -> Seq<Seq<char>>
    decreases s.len(),
{
    if s.len() == 0 {
        seq![cur]
    } else if is_sep(s[0]) {
        seq![cur] + split_from(s.drop_first(), Seq::empty())
    } else {
        split_from(s.drop_first(), cur.push(s[0]))
    }
}

/// The segments of a path string.
pub open spec fn split_segs(s: Seq<char>) -> Seq<Seq<char>> {
    split_from(s, Seq::empty())
}

pub proof fn lemma_split_sep_free(s: Seq<char>, cur: Seq<char>)
    requires
        seg_sep_free(cur),
    ensures
        all_sep_free(split_from(s, cur)),
    decreases s.len(),
{
    if s.len() == 0 {
    } else if is_sep(s[0]) {
        lemma_split_sep_free(s.drop_first(), Seq::empty());
        assert(seg_sep_free(Seq::<char>::empty()));
        let r = split_from(s, cur);
        let tail = split_from(s.drop_first(), Seq::<char>::empty());
        assert forall|i: int| 0 <= i < r.len() implies seg_sep_free(#[trigger] r[i]) by {
            if i > 0 {
                assert(r[i] == tail[i - 1]);
            }
        }
    } else {
        assert(seg_sep_free(cur.push(s[0])));
        lemma_split_sep_free(s.drop_first(), cur.push(s[0]));
    }
}

/// Relies on String::push: appends the given character to the end of the
/// string.
#[verifier::external_body]
fn push_char(s: &mut String, c: char)
    ensures
        final(s)@ == old(s)@.push(c),
{
    s.push(c);
}

/// Splits a path string into `FsPath` form.
pub fn parse_path(s: &str) -> (r: FsPath)
    ensures
        r.segs() == split_segs(s@),
        r.rooted == (s@.len() > 0 && is_sep(s@[0])),
        all_sep_free(r.segs()),
{
    let n = s.unicode_len();
    let rooted = n > 0 && {
        let c = s.get_char(0);
        c == '/' || c == '\\'
    };
    let mut parts: Vec<String> = Vec::new();
    let mut cur = String::new();
    let mut i: usize = 0;
    proof {
        assert(s@.skip(0) =~= s@);
        assert(parts.deep_view() =~~= Seq::<Seq<char>>::empty());
    }
    while i < n
        invariant
            i <= n,
            n == s@.len(),
            split_segs(s@) == parts.deep_view() + split_from(s@.skip(i as int), cur@),
        decreases n - i,
    {
        let ghost prev_rest = s@.skip(i as int);
        let ghost old_parts = parts.deep_view();
        let ghost old_cur = cur@;
        let c = s.get_char(i);
        proof {
            assert(prev_rest[0] == c);
            assert(prev_rest.drop_first() =~= s@.skip(i as int + 1));
        }
        if c == '/' || c == '\\' {
            parts.push(cur);
            cur = String::new();
            proof {
                assert(parts.deep_view() =~~= old_parts.push(old_cur));
                assert(old_parts + split_from(prev_rest, old_cur) =~~= parts.deep_view()
                    + split_from(s@.skip(i as int + 1), cur@));
            }
        } else {
            push_char(&mut cur, c);
            proof {
                assert(split_from(prev_rest, old_cur) == split_from(
                    s@.skip(i as int + 1),
                    old_cur.push(c),
                ));
            }
        }
        i = i + 1;
    }
    proof {
        assert(s@.skip(n as int) =~= Seq::<char>::empty());
    }
    let ghost old_parts = parts.deep_view();
    let ghost last_cur = cur@;
    parts.push(cur);
    proof {
        assert(parts.deep_view() =~~= old_parts.push(last_cur));
        assert(old_parts + seq![last_cur] =~~= parts.deep_view());
        lemma_split_sep_free(s@, Seq::empty());
    }
    FsPath { rooted, parts }
}

// ---------------------------------------------------------------------------
// Simplification: collapsing `.`, `..` and empty segments.
// ---------------------------------------------------------------------------

/// One step of simplification: what segment `p` does to the already
/// simplified prefix `acc`. A `..` pops a poppable last segment, vanishes at
/// the root of a rooted path, and is kept otherwise.
pub open spec fn norm_step(acc: Seq<Seq<char>>, p: Seq<char>, rooted: bool) -> Seq<Seq<char>> {
    if p.len() == 0 || p == seg_dot() {
        acc
    } else if p == seg_up() {
        if acc.len() > 0 && acc.last() != seg_up() {
            acc.drop_last()
        } else if rooted {
            acc
        } else {
            acc.push(seg_up())
        }
    } else {
        acc.push(p)
    }
}

pub open spec fn norm_from(acc: Seq<Seq<char>>, segs: Seq<Seq<char>>, rooted: bool) -> Seq<
    Seq<char>,
>
    decreases segs.len(),
{
    if segs.len() == 0 {
        acc
    } else {
        norm_from(norm_step(acc, segs[0], rooted), segs.drop_first(), rooted)
    }
}

/// The simplified form of a segment list.
pub open spec fn norm(segs: Seq<Seq<char>>, rooted: bool) -> Seq<Seq<char>> {
    norm_from(Seq::empty(), segs, rooted)
}

/// True iff the segment is empty or the current-directory marker: the
/// segments simplification drops outright.
fn seg_skippable(s: &String) -> (r: bool)
    ensures
        r == (s@.len() == 0 || s@ == seg_dot()),
{
    let n = s.as_str().unicode_len();
    if n == 0 {
        true
    } else if n == 1 && s.as_str().get_char(0) == '.' {
        proof {
            assert(s@ =~= seg_dot());
        }
        true
    } else {
        proof {
            assert(seg_dot().len() == 1);
            if s@.len() == 1 {
                assert(s@[0] != seg_dot()[0]);
            }
        }
        false
    }
}

/// True iff the segment is the parent-directory marker.
pub(crate) fn seg_is_up_exec(s: &String) -> (r: bool)
    ensures
        r == (s@ == seg_up()),
{
    let n = s.as_str().unicode_len();
    if n == 2 && s.as_str().get_char(0) == '.' && s.as_str().get_char(1) == '.' {
        proof {
            assert(s@ =~= seg_up());
        }
        true
    } else {
        proof {
            assert(seg_up().len() == 2);
            if s@.len() == 2 {
                assert(seg_up()[0] == '.' && seg_up()[1] == '.');
            }
        }
        false
    }
}

impl FsPath {
    /// Lexical normalization: collapses `.`, `..` and empty segments without
    /// touching the filesystem.
    pub fn simplify(&self) -> (r: FsPath)
        ensures
            r.rooted == self.rooted,
            r.segs() == norm(self.segs(), self.rooted),
    {
        let rooted = self.rooted;
        let mut acc: Vec<String> = Vec::new();
        let mut i: usize = 0;
        let n = self.parts.len();
        proof {
            assert(acc.deep_view() =~~= Seq::<Seq<char>>::empty());
            assert(self.segs().skip(0) =~= self.segs());
        }
        while i < n
            invariant
                i <= n,
                n == self.parts.len(),
                norm(self.segs(), rooted) == norm_from(
                    acc.deep_view(),
                    self.segs().skip(i as int),
                    rooted,
                ),
            decreases n - i,
        {
            let ghost rest = self.segs().skip(i as int);
            let ghost old_acc = acc.deep_view();
            let p = &self.parts[i];
            proof {
                assert(rest[0] == p@);
                assert(rest.drop_first() =~= self.segs().skip(i as int + 1));
            }
            if seg_skippable(p) {
                proof {
                    assert(norm_step(old_acc, p@, rooted) == old_acc);
                }
            } else if seg_is_up_exec(p) {
                let m = acc.len();
                if m > 0 && !seg_is_up_exec(&acc[m - 1]) {
                    proof {
                        assert(acc.deep_view().last() == acc@[m - 1]@);
                    }
                    acc.pop();
                    proof {
                        assert(acc.deep_view() =~~= old_acc.drop_last());
                    }
                } else if rooted {
                    proof {
                        if m > 0 {
                            assert(acc.deep_view().last() == acc@[m - 1]@);
                        }
                        assert(norm_step(old_acc, p@, rooted) == old_acc);
                    }
                } else {
                    let mut up = String::new();
                    push_char(&mut up, '.');
                    push_char(&mut up, '.');
                    proof {
                        assert(up@ =~= seg_up());
                        if m > 0 {
                            assert(acc.deep_view().last() == acc@[m - 1]@);
                        }
                    }
                    acc.push(up);
                    proof {
                        assert(acc.deep_view() =~~= old_acc.push(seg_up()));
                    }
                }
            } else {
                acc.push(p.clone());
                proof {
                    assert(acc.deep_view() =~~= old_acc.push(p@));
                }
            }
            i = i + 1;
        }
        proof {
            assert(self.segs().skip(n as int) =~= Seq::<Seq<char>>::empty());
        }
        FsPath { rooted, parts: acc }
    }
}

// ---------------------------------------------------------------------------
// Rendering a segment list back into a string.
// ---------------------------------------------------------------------------

/// The segments joined with `/`, without a leading separator.
pub open spec fn join_segs(segs: Seq<Seq<char>>) -> Seq<char>
    decreases segs.len(),
{
    if segs.len() == 0 {
        Seq::empty()
    } else if segs.len() == 1 {
        segs[0]
    } else {
        segs[0] + seq!['/'] + join_segs(segs.drop_first())
    }
}

/// The rendered text of a path: a leading `/` when rooted, then the
/// segments joined with `/`.
pub open spec fn render_segs(rooted: bool, segs: Seq<Seq<char>>) -> Seq<char> {
    if rooted {
        seq!['/'] + join_segs(segs)
    } else {
        join_segs(segs)
    }
}

pub proof fn lemma_join_push(segs: Seq<Seq<char>>, x: Seq<char>)
    requires
        segs.len() >= 1,
    ensures
        join_segs(segs.push(x)) == join_segs(segs) + seq!['/'] + x,
    decreases segs.len(),
{
    if segs.len() == 1 {
        assert(segs.push(x).drop_first() =~= seq![x]);
        assert(join_segs(seq![x]) == x);
        assert(join_segs(segs.push(x)) == segs[0] + seq!['/'] + x);
    } else {
        assert(segs.push(x).drop_first() =~= segs.drop_first().push(x));
        lemma_join_push(segs.drop_first(), x);
        assert(join_segs(segs) + seq!['/'] + x =~= segs[0] + seq!['/'] + (join_segs(
            segs.drop_first(),
        ) + seq!['/'] + x));
    }
}

impl FsPath {
    /// Renders the path as a string, always with `/` separators.
    pub fn render(&self) -> (r: String)
        ensures
            r@ == render_segs(self.rooted, self.segs()),
    {
        let mut out = String::new();
        if self.rooted {
            push_char(&mut out, '/');
        }
        let mut i: usize = 0;
        let n = self.parts.len();
        proof {
            assert(self.segs().take(0) =~= Seq::<Seq<char>>::empty());
        }
        while i < n
            invariant
                i <= n,
                n == self.parts.len(),
                out@ == render_segs(self.rooted, self.segs().take(i as int)),
            decreases n - i,
        {
            let ghost pre = self.segs().take(i as int);
            proof {
                assert(self.segs().take(i as int + 1) =~= pre.push(self.segs()[i as int]));
                if i > 0 {
                    lemma_join_push(pre, self.segs()[i as int]);
                } else {
                    assert(pre.push(self.segs()[0])[0] == self.segs()[0]);
                }
            }
            if i > 0 {
                push_char(&mut out, '/');
            }
            out.append(self.parts[i].as_str());
            i = i + 1;
        }
        proof {
            assert(self.segs().take(n as int) =~= self.segs());
        }
        out
    }
}

// ---------------------------------------------------------------------------
// Splitting a rendered path gives the segments back.
// ---------------------------------------------------------------------------

pub proof fn lemma_split_append_seg(seg: Seq<char>, rest: Seq<char>, cur: Seq<char>)
    requires
        seg_sep_free(seg),
    ensures
        split_from(seg + rest, cur) == split_from(rest, cur + seg),
    decreases seg.len(),
{
    if seg.len() == 0 {
        assert(seg + rest =~= rest);
        assert(cur + seg =~= cur);
    } else {
        assert((seg + rest)[0] == seg[0]);
        assert(!is_sep(seg[0]));
        assert((seg + rest).drop_first() =~= seg.drop_first() + rest);
        assert(seg_sep_free(seg.drop_first()));
        lemma_split_append_seg(seg.drop_first(), rest, cur.push(seg[0]));
        assert(cur.push(seg[0]) + seg.drop_first() =~= cur + seg);
    }
}

pub proof fn lemma_split_join_from(segs: Seq<Seq<char>>, cur: Seq<char>)
    requires
        segs.len() >= 1,
        all_sep_free(segs),
    ensures
        split_from(join_segs(segs), cur) == seq![cur + segs[0]] + segs.drop_first(),
    decreases segs.len(),
{
    if segs.len() == 1 {
        assert(segs[0] + Seq::<char>::empty() =~= segs[0]);
        lemma_split_append_seg(segs[0], Seq::empty(), cur);
        assert(split_from(Seq::<char>::empty(), cur + segs[0]) == seq![cur + segs[0]]);
        assert(seq![cur + segs[0]] + segs.drop_first() =~= seq![cur + segs[0]]);
    } else {
        let rest = segs.drop_first();
        let tail = seq!['/'] + join_segs(rest);
        assert(join_segs(segs) == segs[0] + tail);
        lemma_split_append_seg(segs[0], tail, cur);
        assert(is_sep(tail[0]));
        assert(tail.drop_first() =~= join_segs(rest));
        assert(split_from(tail, cur + segs[0]) == seq![cur + segs[0]] + split_from(
            join_segs(rest),
            Seq::empty(),
        ));
        assert(all_sep_free(rest));
        lemma_split_join_from(rest, Seq::empty());
        assert(Seq::<char>::empty() + rest[0] =~= rest[0]);
        assert(seq![rest[0]] + rest.drop_first() =~= rest);
        assert(seq![cur + segs[0]] + rest =~= split_from(join_segs(segs), cur));
    }
}

/// Splitting the rendered text of a non-empty, separator-free segment list
/// gives the same list back.
pub proof fn lemma_split_join(segs: Seq<Seq<char>>)
    requires
        segs.len() >= 1,
        all_sep_free(segs),
    ensures
        split_segs(join_segs(segs)) == segs,
{
    lemma_split_join_from(segs, Seq::empty());
    assert(Seq::<char>::empty() + segs[0] =~= segs[0]);
    assert(seq![segs[0]] + segs.drop_first() =~= segs);
}

// ---------------------------------------------------------------------------
// Simplification lemmas.
// ---------------------------------------------------------------------------

pub proof fn lemma_norm_from_append(
    acc: Seq<Seq<char>>,
    x: Seq<Seq<char>>,
    y: Seq<Seq<char>>,
    rooted: bool,
)
    ensures
        norm_from(acc, x + y, rooted) == norm_from(norm_from(acc, x, rooted), y, rooted),
    decreases x.len(),
{
    if x.len() == 0 {
        assert(x + y =~= y);
    } else {
        assert((x + y)[0] == x[0]);
        assert((x + y).drop_first() =~= x.drop_first() + y);
        lemma_norm_from_append(norm_step(acc, x[0], rooted), x.drop_first(), y, rooted);
    }
}

/// Simplification appends a run of normal segments unchanged.
pub proof fn lemma_norm_from_normal(acc: Seq<Seq<char>>, segs: Seq<Seq<char>>, rooted: bool)
    requires
        all_normal(segs),
    ensures
        norm_from(acc, segs, rooted) == acc + segs,
    decreases segs.len(),
{
    if segs.len() == 0 {
        assert(acc + segs =~= acc);
    } else {
        assert(seg_is_normal(segs[0]));
        assert(norm_step(acc, segs[0], rooted) == acc.push(segs[0]));
        assert(all_normal(segs.drop_first()));
        lemma_norm_from_normal(acc.push(segs[0]), segs.drop_first(), rooted);
        assert(acc.push(segs[0]) + segs.drop_first() =~= acc + segs);
    }
}

/// A run of `k` parent-directory segments.
pub open spec fn ups(k: nat) -> Seq<Seq<char>> {
    Seq::new(k, |i: int| seg_up())
}

/// Simplification lets a run of `..` segments pop `k` normal segments off
/// the accumulated prefix.
pub proof fn lemma_norm_from_ups(acc: Seq<Seq<char>>, k: nat, rest: Seq<Seq<char>>, rooted: bool)
    requires
        all_normal(acc),
        k <= acc.len(),
    ensures
        norm_from(acc, ups(k) + rest, rooted) == norm_from(
            acc.take(acc.len() - k),
            rest,
            rooted,
        ),
    decreases k,
{
    if k == 0 {
        assert(ups(0) + rest =~= rest);
        assert(acc.take(acc.len() as int) =~= acc);
    } else {
        assert((ups(k) + rest)[0] == seg_up());
        assert(acc.len() > 0);
        assert(seg_is_normal(acc.last()));
        assert(acc.last() != seg_up());
        assert(norm_step(acc, seg_up(), rooted) == acc.drop_last());
        assert((ups(k) + rest).drop_first() =~= ups((k - 1) as nat) + rest);
        assert(acc.drop_last() =~= acc.take(acc.len() - 1));
        assert(all_normal(acc.drop_last()));
        lemma_norm_from_ups(acc.drop_last(), (k - 1) as nat, rest, rooted);
        assert(acc.drop_last().take(acc.drop_last().len() - (k - 1)) =~= acc.take(acc.len() - k));
    }
}

/// Simplifying under a root yields only normal segments, and keeps segments
/// separator-free.
pub proof fn lemma_norm_abs_shape(acc: Seq<Seq<char>>, segs: Seq<Seq<char>>)
    requires
        all_normal(acc),
        all_sep_free(acc),
        all_sep_free(segs),
    ensures
        all_normal(norm_from(acc, segs, true)),
        all_sep_free(norm_from(acc, segs, true)),
    decreases segs.len(),
{
    if segs.len() > 0 {
        let p = segs[0];
        let acc2 = norm_step(acc, p, true);
        assert(seg_sep_free(p));
        assert(all_normal(acc2) && all_sep_free(acc2)) by {
            if p.len() == 0 || p == seg_dot() {
            } else if p == seg_up() {
                if acc.len() > 0 && acc.last() != seg_up() {
                    assert(acc2 =~= acc.take(acc.len() - 1));
                    assert(forall|i: int|
                        0 <= i < acc2.len() ==> acc2[i] == #[trigger] acc[i]);
                } else {
                    assert(acc2 == acc);
                }
            } else {
                assert(seg_is_normal(p));
                assert(forall|i: int|
                    0 <= i < acc.len() ==> acc2[i] == #[trigger] acc[i]);
                assert(acc2.last() == p);
            }
        }
        assert(all_sep_free(segs.drop_first()));
        lemma_norm_abs_shape(acc2, segs.drop_first());
    }
}

// ---------------------------------------------------------------------------
// Relative paths.
// ---------------------------------------------------------------------------

/// The length of the longest common segment prefix.
pub open spec fn common_len(a: Seq<Seq<char>>, b: Seq<Seq<char>>) -> nat
    decreases a.len(),
{
    if a.len() == 0 || b.len() == 0 || a[0] != b[0] {
        0
    } else {
        (1 + common_len(a.drop_first(), b.drop_first())) as nat
    }
}

pub proof fn lemma_common_len_is(a: Seq<Seq<char>>, b: Seq<Seq<char>>, i: nat)
    requires
        i <= a.len(),
        i <= b.len(),
        forall|j: int| 0 <= j < i ==> a[j] == b[j],
        i == a.len() || i == b.len() || a[i as int] != b[i as int],
    ensures
        common_len(a, b) == i,
    decreases i,
{
    if i == 0 {
    } else {
        assert(a[0] == b[0]);
        assert(forall|j: int|
            0 <= j < i - 1 ==> a.drop_first()[j] == #[trigger] b.drop_first()[j]);
        if i < a.len() && i < b.len() {
            assert(a.drop_first()[i - 1] == a[i as int]);
            assert(b.drop_first()[i - 1] == b[i as int]);
        }
        lemma_common_len_is(a.drop_first(), b.drop_first(), (i - 1) as nat);
    }
}

pub proof fn lemma_common_len_bounds(a: Seq<Seq<char>>, b: Seq<Seq<char>>)
    ensures
        common_len(a, b) <= a.len(),
        common_len(a, b) <= b.len(),
        a.take(common_len(a, b) as int) == b.take(common_len(a, b) as int),
    decreases a.len(),
{
    let c = common_len(a, b);
    if a.len() == 0 || b.len() == 0 || a[0] != b[0] {
        assert(a.take(0) =~= b.take(0));
    } else {
        lemma_common_len_bounds(a.drop_first(), b.drop_first());
        let c2 = common_len(a.drop_first(), b.drop_first());
        assert(a.drop_first().take(c2 as int) == b.drop_first().take(c2 as int));
        assert forall|j: int| 0 <= j < c implies a.take(c as int)[j] == b.take(c as int)[j] by {
            if j > 0 {
                assert(a.drop_first().take(c2 as int)[j - 1] == b.drop_first().take(c2 as int)[j
                    - 1]);
                assert(a.drop_first()[j - 1] == a[j]);
                assert(b.drop_first()[j - 1] == b[j]);
            }
        }
        assert(a.take(c as int) =~= b.take(c as int));
    }
}

/// The segments of the shortest relative path from `base` to `target`:
/// climb out of the uncommon part of `base`, then descend into `target`.
pub open spec fn rel_segs(base: Seq<Seq<char>>, target: Seq<Seq<char>>) -> Seq<Seq<char>> {
    ups((base.len() - common_len(base, target)) as nat) + target.skip(common_len(base, target) as int)
}

/// Computes the relative path that expresses `target` from the directory
/// `base`, whether `target` lies below, beside or above it.
pub fn relative_path(base: &FsPath, target: &FsPath) -> (r: FsPath)
    requires
        base.is_canonical_abs(),
        target.is_canonical_abs(),
    ensures
        r.rooted == false,
        r.segs() == rel_segs(base.segs(), target.segs()),
        all_sep_free(r.segs()),
{
    let nb = base.parts.len();
    let nt = target.parts.len();
    let mut c: usize = 0;
    while c < nb && c < nt && base.parts[c] == target.parts[c]
        invariant
            c <= nb,
            c <= nt,
            nb == base.parts.len(),
            nt == target.parts.len(),
            forall|j: int| 0 <= j < c ==> base.segs()[j] == target.segs()[j],
        decreases nb - c,
    {
        c = c + 1;
    }
    proof {
        lemma_common_len_is(base.segs(), target.segs(), c as nat);
    }
    let mut parts: Vec<String> = Vec::new();
    let mut up = String::new();
    push_char(&mut up, '.');
    push_char(&mut up, '.');
    proof {
        assert(up@ =~= seg_up());
        assert(parts.deep_view() =~~= Seq::<Seq<char>>::empty());
        assert(Seq::<Seq<char>>::empty() =~~= ups(0));
    }
    let mut k: usize = c;
    while k < nb
        invariant
            c <= k <= nb,
            up@ == seg_up(),
            parts.deep_view() == ups((k - c) as nat),
        decreases nb - k,
    {
        let ghost old_dv = parts.deep_view();
        parts.push(up.clone());
        proof {
            assert(parts.deep_view() =~~= old_dv.push(seg_up()));
            assert(old_dv.push(seg_up()) =~~= ups((k + 1 - c) as nat));
        }
        k = k + 1;
    }
    let mut j: usize = c;
    proof {
        assert(target.segs().subrange(c as int, c as int) =~= Seq::<Seq<char>>::empty());
        assert(parts.deep_view() =~~= ups((nb - c) as nat) + target.segs().subrange(
            c as int,
            c as int,
        ));
    }
    while j < nt
        invariant
            c <= j <= nt,
            nt == target.parts.len(),
            parts.deep_view() == ups((nb - c) as nat) + target.segs().subrange(
                c as int,
                j as int,
            ),
        decreases nt - j,
    {
        let ghost old_dv = parts.deep_view();
        parts.push(target.parts[j].clone());
        proof {
            assert(parts.deep_view() =~~= old_dv.push(target.segs()[j as int]));
            assert(old_dv.push(target.segs()[j as int]) =~~= ups((nb - c) as nat)
                + target.segs().subrange(c as int, j as int + 1));
        }
        j = j + 1;
    }
    proof {
        assert(target.segs().subrange(c as int, nt as int) =~= target.segs().skip(c as int));
    }
    let r = FsPath { rooted: false, parts };
    proof {
        assert(all_sep_free(r.segs())) by {
            assert(forall|i: int|
                0 <= i < r.segs().len() ==> seg_sep_free(#[trigger] r.segs()[i]));
        }
    }
    r
}

// ---------------------------------------------------------------------------
// Absolutization.
// ---------------------------------------------------------------------------

/// The segments of `p` resolved against the directory `base`: a rooted path
/// stands on its own; a relative one is joined onto `base`; either way the
/// join is simplified.
pub open spec fn resolve_segs(
    rooted: bool,
    segs: Seq<Seq<char>>,
    base: Seq<Seq<char>>,
) -> Seq<Seq<char>> {
    if rooted {
        norm(segs, true)
    } else {
        norm(base + segs, true)
    }
}

/// Appends clones of all of `src` onto `dst`.
fn clone_push_all(dst: &mut Vec<String>, src: &Vec<String>)
    ensures
        final(dst).deep_view() == old(dst).deep_view() + src.deep_view(),
{
    let mut i: usize = 0;
    let n = src.len();
    let ghost dst0 = dst.deep_view();
    proof {
        assert(src.deep_view().take(0) =~= Seq::<Seq<char>>::empty());
        assert(dst.deep_view() =~~= dst0 + src.deep_view().take(0));
    }
    while i < n
        invariant
            i <= n,
            n == src.len(),
            dst.deep_view() == dst0 + src.deep_view().take(i as int),
        decreases n - i,
    {
        let ghost old_dv = dst.deep_view();
        dst.push(src[i].clone());
        proof {
            assert(dst.deep_view() =~~= old_dv.push(src.deep_view()[i as int]));
            assert(old_dv.push(src.deep_view()[i as int]) =~~= dst0 + src.deep_view().take(
                i as int + 1,
            ));
        }
        i = i + 1;
    }
    proof {
        assert(src.deep_view().take(n as int) =~= src.deep_view());
    }
}

impl FsPath {
    /// An independent copy of the path.
    pub fn clone_path(&self) -> (r: FsPath)
        ensures
            r.rooted == self.rooted,
            r.segs() == self.segs(),
    {
        let mut parts: Vec<String> = Vec::new();
        proof {
            assert(parts.deep_view() =~~= Seq::<Seq<char>>::empty());
        }
        clone_push_all(&mut parts, &self.parts);
        proof {
            assert(Seq::<Seq<char>>::empty() + self.segs() =~= self.segs());
        }
        FsPath { rooted: self.rooted, parts }
    }
}

/// Resolves `p` against the directory `base`: absolutize if needed, then
/// simplify.
pub fn absolute(p: &FsPath, base: &FsPath) -> (r: FsPath)
    requires
        base.is_canonical_abs(),
    ensures
        r.rooted,
        r.segs() == resolve_segs(p.rooted, p.segs(), base.segs()),
        all_sep_free(p.segs()) ==> (r.is_canonical_abs() && all_normal(r.segs())),
{
    if p.rooted {
        let q = p.clone_path().simplify();
        proof {
            if all_sep_free(p.segs()) {
                lemma_norm_abs_shape(Seq::empty(), p.segs());
            }
        }
        q
    } else {
        let mut parts: Vec<String> = Vec::new();
        proof {
            assert(parts.deep_view() =~~= Seq::<Seq<char>>::empty());
        }
        clone_push_all(&mut parts, &base.parts);
        clone_push_all(&mut parts, &p.parts);
        proof {
            assert((Seq::<Seq<char>>::empty() + base.segs()) + p.segs() =~= base.segs()
                + p.segs());
        }
        let joined = FsPath { rooted: true, parts };
        let q = joined.simplify();
        proof {
            if all_sep_free(p.segs()) {
                assert(all_sep_free(base.segs() + p.segs())) by {
                    assert(forall|i: int|
                        0 <= i < base.segs().len() ==> (base.segs() + p.segs())[i]
                            == #[trigger] base.segs()[i]);
                    assert(forall|i: int|
                        0 <= i < p.segs().len() ==> (base.segs() + p.segs())[i
                            + base.segs().len()] == #[trigger] p.segs()[i]);
                }
                lemma_norm_abs_shape(Seq::empty(), base.segs() + p.segs());
            }
        }
        q
    }
}

// ---------------------------------------------------------------------------
// The round-trip laws: a relative path really does lead back to its target.
// ---------------------------------------------------------------------------

/// Law: resolving the relative path from `base` to `target` against `base`
/// yields `target` again, for any two canonical absolute segment lists —
/// whether `target` lies below, beside or above `base`.
pub proof fn lemma_relative_resolves(base: Seq<Seq<char>>, target: Seq<Seq<char>>)
    requires
        all_normal(base),
        all_normal(target),
    ensures
        norm(base + rel_segs(base, target), true) == target,
{
    let c = common_len(base, target) as int;
    lemma_common_len_bounds(base, target);
    let k = (base.len() - c) as nat;
    let tail = target.skip(c);
    let rel = rel_segs(base, target);
    lemma_norm_from_append(Seq::empty(), base, rel, true);
    lemma_norm_from_normal(Seq::empty(), base, true);
    assert(Seq::<Seq<char>>::empty() + base =~= base);
    lemma_norm_from_ups(base, k, tail, true);
    assert(base.take(base.len() - k) == base.take(c));
    assert(all_normal(tail)) by {
        assert(forall|i: int|
            0 <= i < tail.len() ==> #[trigger] tail[i] == target[i + c]);
    }
    lemma_norm_from_normal(base.take(c), tail, true);
    assert(target.take(c) + tail =~= target);
}

/// Law: the *stored text* of the relative path from `base` to `target`,
/// split back into segments and resolved against `base`, yields `target`
/// again. This is the fact the reference rewrites rest on: what the tool
/// writes into a document keeps resolving to the same file.
pub proof fn lemma_rel_value_resolves(base: Seq<Seq<char>>, target: Seq<Seq<char>>)
    requires
        all_normal(base),
        all_sep_free(base),
        all_normal(target),
        all_sep_free(target),
    ensures
        norm(base + split_segs(render_segs(false, rel_segs(base, target))), true) == target,
        render_segs(false, rel_segs(base, target)).len() > 0 ==> !is_sep(
            render_segs(false, rel_segs(base, target))[0],
        ),
{
    let c = common_len(base, target) as int;
    lemma_common_len_bounds(base, target);
    let k = (base.len() - c) as nat;
    let tail = target.skip(c);
    let rel = rel_segs(base, target);
    let v = render_segs(false, rel);
    assert(all_sep_free(rel) && (forall|i: int|
        0 <= i < rel.len() ==> (#[trigger] rel[i]).len() > 0)) by {
        assert(forall|i: int| 0 <= i < k ==> #[trigger] rel[i] == seg_up());
        assert(forall|i: int|
            k <= i < rel.len() ==> #[trigger] rel[i] == target[i - k + c]);
        assert(forall|i: int|
            k <= i < rel.len() ==> seg_is_normal(#[trigger] rel[i]) && seg_sep_free(rel[i]));
    }
    if rel.len() == 0 {
        assert(k == 0 && tail.len() == 0);
        assert(base.len() == c && target.len() == c);
        assert(base.take(c) =~= base);
        assert(target.take(c) =~= target);
        assert(base == target);
        assert(v =~= Seq::<char>::empty());
        assert(split_segs(v) == seq![Seq::<char>::empty()]);
        lemma_norm_from_append(Seq::empty(), base, seq![Seq::<char>::empty()], true);
        lemma_norm_from_normal(Seq::empty(), base, true);
        assert(Seq::<Seq<char>>::empty() + base =~= base);
        let es = seq![Seq::<char>::empty()];
        assert(es[0] == Seq::<char>::empty());
        assert(norm_step(base, es[0], true) == base);
        assert(es.drop_first() =~= Seq::<Seq<char>>::empty());
        assert(norm_from(base, es, true) == norm_from(norm_step(base, es[0], true), es.drop_first(), true));
        assert(norm_from(base, es, true) == base);
    } else {
        lemma_split_join(rel);
        lemma_relative_resolves(base, target);
        assert(v == join_segs(rel));
        assert(v[0] == rel[0][0] && rel[0].len() > 0) by {
            if rel.len() == 1 {
                assert(v == rel[0]);
            } else {
                assert(v == rel[0] + seq!['/'] + join_segs(rel.drop_first()));
                assert(rel[0].len() > 0);
                assert((rel[0] + seq!['/'] + join_segs(rel.drop_first()))[0] == rel[0][0]);
            }
        }
        assert(!is_sep(v[0]));
    }
}

// ---------------------------------------------------------------------------
// The out-of-tree heuristic.
// ---------------------------------------------------------------------------

/// A parent-directory segment followed by a separator occurs somewhere in
/// the string. A substring heuristic, not a structural parse: it can fire on
/// values that merely contain the substring.
pub open spec fn spec_out_of_tree(s: Seq<char>) -> bool {
    exists|i: int|
        0 <= i && i + 2 < s.len() && #[trigger] s[i] == '.' && s[i + 1] == '.' && is_sep(
            s[i + 2],
        )
}

/// The lexical heuristic that flags a stored value as a relative path
/// escaping its directory.
pub fn looks_like_out_of_tree_relative_path(val: &str) -> (r: bool)
    ensures
        r == spec_out_of_tree(val@),
{
    let n = val.unicode_len();
    if n < 3 {
        return false;
    }
    let mut i: usize = 0;
    while i <= n - 3
        invariant
            n == val@.len(),
            3 <= n,
            i <= n - 2,
            forall|j: int|
                0 <= j < i ==> !(#[trigger] val@[j] == '.' && val@[j + 1] == '.' && is_sep(
                    val@[j + 2],
                )),
        decreases n - i,
    {
        let a = val.get_char(i);
        let b = val.get_char(i + 1);
        let d = val.get_char(i + 2);
        if a == '.' && b == '.' && (d == '/' || d == '\\') {
            return true;
        }
        i = i + 1;
    }
    false
}

// ---------------------------------------------------------------------------
// Comparisons and small accessors.
// ---------------------------------------------------------------------------

/// Structural path equality.
pub fn path_eq(a: &FsPath, b: &FsPath) -> (r: bool)
    ensures
        r == (a.rooted == b.rooted && a.segs() == b.segs()),
{
    if a.rooted != b.rooted {
        return false;
    }
    let n = a.parts.len();
    if n != b.parts.len() {
        proof {
            assert(a.segs().len() != b.segs().len());
        }
        return false;
    }
    let mut i: usize = 0;
    while i < n
        invariant
            i <= n,
            n == a.parts.len(),
            n == b.parts.len(),
            forall|j: int| 0 <= j < i ==> a.segs()[j] == b.segs()[j],
        decreases n - i,
    {
        if !(a.parts[i] == b.parts[i]) {
            proof {
                assert(a.segs()[i as int] != b.segs()[i as int]);
            }
            return false;
        }
        i = i + 1;
    }
    proof {
        assert(a.segs() =~= b.segs());
    }
    true
}

/// True iff `dir` is a prefix of `p`: the file or directory `p` lies at or
/// under `dir`.
pub fn starts_with_dir(p: &FsPath, dir: &FsPath) -> (r: bool)
    ensures
        r == (p.rooted == dir.rooted && dir.segs().is_prefix_of(p.segs())),
{
    if p.rooted != dir.rooted {
        return false;
    }
    let n = dir.parts.len();
    if n > p.parts.len() {
        proof {
            assert(!dir.segs().is_prefix_of(p.segs()));
        }
        return false;
    }
    let mut i: usize = 0;
    while i < n
        invariant
            i <= n,
            n == dir.parts.len(),
            n <= p.parts.len(),
            forall|j: int| 0 <= j < i ==> dir.segs()[j] == p.segs()[j],
        decreases n - i,
    {
        if !(dir.parts[i] == p.parts[i]) {
            proof {
                assert(dir.segs()[i as int] != p.segs()[i as int]);
            }
            return false;
        }
        i = i + 1;
    }
    proof {
        assert(dir.segs() =~= p.segs().take(n as int));
    }
    true
}

/// The index of the last `.` in the segment, or `-1` if there is none.
pub open spec fn last_dot(s: Seq<char>) -> int
    decreases s.len(),
{
    if s.len() == 0 {
        -1
    } else if s.last() == '.' {
        s.len() - 1
    } else {
        last_dot(s.drop_last())
    }
}

/// The file name without its extension: everything before the final `.`,
/// unless that dot is the first character or there is no dot at all.
pub open spec fn stem_of(s: Seq<char>) -> Seq<char> {
    if last_dot(s) > 0 {
        s.take(last_dot(s))
    } else {
        s
    }
}

pub proof fn lemma_last_dot_at(s: Seq<char>, k: int)
    requires
        0 <= k < s.len(),
        s[k] == '.',
        forall|j: int| k < j < s.len() ==> s[j] != '.',
    ensures
        last_dot(s) == k,
    decreases s.len(),
{
    if s.last() == '.' {
        assert(k == s.len() - 1);
    } else {
        assert(k < s.len() - 1);
        assert(s.drop_last() =~= s.take(s.len() - 1));
        assert(forall|j: int| k < j < s.len() - 1 ==> s.drop_last()[j] == #[trigger] s[j]);
        lemma_last_dot_at(s.drop_last(), k);
    }
}

pub proof fn lemma_last_dot_none(s: Seq<char>)
    requires
        forall|j: int| 0 <= j < s.len() ==> s[j] != '.',
    ensures
        last_dot(s) == -1,
    decreases s.len(),
{
    if s.len() > 0 {
        assert(forall|j: int|
            0 <= j < s.len() - 1 ==> s.drop_last()[j] == #[trigger] s[j]);
        lemma_last_dot_none(s.drop_last());
    }
}

/// The stem of a file name segment: the text before its final `.`.
pub fn file_stem_seg(s: &String) -> (r: String)
    ensures
        r@ == stem_of(s@),
{
    let n = s.as_str().unicode_len();
    let mut i = n;
    while i > 0
        invariant
            i <= n,
            n == s@.len(),
            forall|j: int| i <= j < n ==> s@[j] != '.',
        decreases i,
    {
        if s.as_str().get_char(i - 1) == '.' {
            proof {
                lemma_last_dot_at(s@, i - 1);
            }
            if i - 1 > 0 {
                let stem = s.as_str().substring_char(0, i - 1);
                return stem.to_owned();
            } else {
                return s.clone();
            }
        }
        i = i - 1;
    }
    proof {
        lemma_last_dot_none(s@);
    }
    s.clone()
}

impl FsPath {
    /// The containing directory: the path without its last segment.
    pub fn dir_of(&self) -> (r: FsPath)
        requires
            self.parts.len() > 0,
        ensures
            r.rooted == self.rooted,
            r.segs() == self.segs().drop_last(),
    {
        let mut parts: Vec<String> = Vec::new();
        let n = self.parts.len() - 1;
        let mut i: usize = 0;
        proof {
            assert(parts.deep_view() =~~= self.segs().take(0));
        }
        while i < n
            invariant
                i <= n,
                n == self.parts.len() - 1,
                parts.deep_view() == self.segs().take(i as int),
            decreases n - i,
        {
            let ghost old_dv = parts.deep_view();
            parts.push(self.parts[i].clone());
            proof {
                assert(parts.deep_view() =~~= old_dv.push(self.segs()[i as int]));
                assert(old_dv.push(self.segs()[i as int]) =~~= self.segs().take(i as int + 1));
            }
            i = i + 1;
        }
        proof {
            assert(self.segs().take(n as int) =~= self.segs().drop_last());
        }
        FsPath { rooted: self.rooted, parts }
    }

    /// The path extended by one more segment.
    pub fn child(&self, name: &String) -> (r: FsPath)
        ensures
            r.rooted == self.rooted,
            r.segs() == self.segs().push(name@),
    {
        let mut parts: Vec<String> = Vec::new();
        proof {
            assert(parts.deep_view() =~~= Seq::<Seq<char>>::empty());
        }
        clone_push_all(&mut parts, &self.parts);
        let ghost old_dv = parts.deep_view();
        parts.push(name.clone());
        proof {
            assert(parts.deep_view() =~~= old_dv.push(name@));
            assert((Seq::<Seq<char>>::empty() + self.segs()).push(name@) =~= self.segs().push(
                name@,
            ));
        }
        FsPath { rooted: self.rooted, parts }
    }
}

} // verus!
