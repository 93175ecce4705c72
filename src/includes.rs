//! Finding the files of a translation unit: the quoted `#include`s of a
//! file, where they point, and a resolver that walks them depth first.
//!
//! The resolver decides; its caller reads. It asks for a file with
//! `ResolveStep::Load`, is handed that file's resolved includes through
//! `loaded`, and is otherwise driven by `advance` until it answers `Done`,
//! or `Circular` when an include leads back to a file still being resolved.
use vstd::prelude::*;
use crate::syntax::{Field, NodeKind, SyntaxNode, field_index};
use crate::text::{chars_of, string_from_chars};

verus! {

/// The path written in a quoted include, without its quotes.
pub open spec fn unquoted(t: Seq<char>) -> Seq<char> {
    t.subrange(1, t.len() - 1)
}

/// Whether top-level item `n` is a quoted `#include` (not `<...>`).
pub open spec fn quoted_include(n: SyntaxNode) -> bool {
    n.kind == NodeKind::PreprocInclude && match field_index(n.children@, Field::Path) {
        Some(i) => n.children@[i].kind == NodeKind::StringLiteral && n.children@[i].text@.len() >= 2,
        None => false,
    }
}

/// The paths of the quoted includes among top-level items `cs[0..k]`.
pub open spec fn include_paths(cs: Seq<SyntaxNode>, k: int) -> Seq<Seq<char>>
    decreases k,
{
    if k <= 0 || k > cs.len() {
        seq![]
    } else {
        let rest = include_paths(cs, k - 1);
        let n = cs[k - 1];
        if quoted_include(n) {
            rest.push(unquoted(n.children@[field_index(n.children@, Field::Path)->0].text@))
        } else {
            rest
        }
    }
}

/// The paths of a file's quoted top-level `#include`s, in order. Angle
/// bracket includes name system headers and are left out.
pub fn local_includes(root: &SyntaxNode) -> (r: Vec<String>)
    ensures
        r@.len() == include_paths(root.children@, root.children@.len() as int).len(),
        forall|j: int| 0 <= j < r@.len() ==> #[trigger] r@[j]@ == include_paths(root.children@, root.children@.len() as int)[j],
{
    let ghost cs = root.children@;
    let mut out: Vec<String> = Vec::new();
    let mut i: usize = 0;
    while i < root.children.len()
        invariant
            i <= cs.len(),
            cs == root.children@,
            out@.len() == include_paths(cs, i as int).len(),
            forall|j: int| 0 <= j < out@.len() ==> #[trigger] out@[j]@ == include_paths(cs, i as int)[j],
        decreases cs.len() - i,
    {
        let n = &root.children[i];
        if n.kind == NodeKind::PreprocInclude {
            match n.field_position(Field::Path) {
                Some(p) => {
                    if n.children[p].kind == NodeKind::StringLiteral {
                        let t = chars_of(n.children[p].text.as_str());
                        if t.len() >= 2 {
                            let mut inner: Vec<char> = Vec::new();
                            let mut k: usize = 1;
                            while k < t.len() - 1
                                invariant
                                    1 <= k <= t@.len() - 1,
                                    t@.len() >= 2,
                                    inner@ == t@.subrange(1, k as int),
                                decreases t@.len() - k,
                            {
                                inner.push(t[k]);
                                proof {
                                    assert(inner@ =~= t@.subrange(1, k + 1));
                                }
                                k = k + 1;
                            }
                            out.push(string_from_chars(&inner));
                        }
                    }
                },
                None => {},
            }
        }
        i = i + 1;
    }
    out
}

/// Index of the last `/` in `s[0..k]`, or -1.
pub open spec fn last_slash(s: Seq<char>, k: int) -> int
    decreases k,
{
    if k <= 0 {
        -1
    } else if s[k - 1] == '/' {
        k - 1
    } else {
        last_slash(s, k - 1)
    }
}

/// The segments kept after adding segment `seg` to `kept`: empty and `.`
/// segments vanish, `..` drops the segment before it (and, in an absolute
/// path, vanishes at the root).
pub open spec fn add_segment(kept: Seq<Seq<char>>, seg: Seq<char>, absolute: bool) -> Seq<Seq<char>> {
    if seg.len() == 0 || seg == seq!['.'] {
        kept
    } else if seg == seq!['.', '.'] {
        if kept.len() > 0 && kept.last() != seq!['.', '.'] {
            kept.drop_last()
        } else if absolute {
            kept
        } else {
            kept.push(seg)
        }
    } else {
        kept.push(seg)
    }
}

/// Normalizing state after reading `t`: the segments kept, and the segment still open.
pub open spec fn scan_segments(t: Seq<char>, absolute: bool) -> (Seq<Seq<char>>, Seq<char>)
    decreases t.len(),
{
    if t.len() == 0 {
        (seq![], seq![])
    } else {
        let (kept, cur) = scan_segments(t.drop_last(), absolute);
        if t.last() == '/' {
            (add_segment(kept, cur, absolute), seq![])
        } else {
            (kept, cur.push(t.last()))
        }
    }
}

/// Segments joined with `/`.
pub open spec fn join_segments(ls: Seq<Seq<char>>) -> Seq<char>
    decreases ls.len(),
{
    if ls.len() == 0 {
        seq![]
    } else if ls.len() == 1 {
        ls[0]
    } else {
        join_segments(ls.drop_last()) + seq!['/'] + ls.last()
    }
}

/// A path with `.` segments, repeated slashes and `name/..` pairs removed,
/// so that two spellings of one path compare equal.
pub open spec fn normalized(p: Seq<char>) -> Seq<char> {
    let absolute = p.len() > 0 && p[0] == '/';
    let (kept, cur) = scan_segments(p, absolute);
    let segs = add_segment(kept, cur, absolute);
    if absolute {
        seq!['/'] + join_segments(segs)
    } else {
        join_segments(segs)
    }
}

/// The file an include names: an absolute path as written, otherwise the
/// path taken relative to the directory of the including file; normalized.
pub open spec fn include_target(including: Seq<char>, written: Seq<char>) -> Seq<char> {
    if written.len() > 0 && written[0] == '/' {
        normalized(written)
    } else {
        normalized(including.subrange(0, last_slash(including, including.len() as int) + 1) + written)
    }
}

proof fn lemma_last_slash_range(s: Seq<char>, k: int)
    requires
        0 <= k <= s.len(),
    ensures
        -1 <= last_slash(s, k) < k,
    decreases k,
{
    if k > 0 {
        lemma_last_slash_range(s, k - 1);
    }
}

fn is_dot(seg: &Vec<char>) -> (r: bool)
    ensures
        r == (seg@ == seq!['.']),
{
    if seg.len() == 1 && seg[0] == '.' {
        assert(seg@ =~= seq!['.']);
        true
    } else {
        false
    }
}

fn is_dot_dot(seg: &Vec<char>) -> (r: bool)
    ensures
        r == (seg@ == seq!['.', '.']),
{
    if seg.len() == 2 && seg[0] == '.' && seg[1] == '.' {
        assert(seg@ =~= seq!['.', '.']);
        true
    } else {
        false
    }
}

fn push_segment(kept: &mut Vec<Vec<char>>, seg: Vec<char>, absolute: bool)
    ensures
        final(kept)@.map_values(|v: Vec<char>| v@) == add_segment(old(kept)@.map_values(|v: Vec<char>| v@), seg@, absolute),
{
    let ghost before = kept@.map_values(|v: Vec<char>| v@);
    if seg.len() == 0 || is_dot(&seg) {
        return;
    }
    if is_dot_dot(&seg) {
        if kept.len() > 0 && !is_dot_dot(&kept[kept.len() - 1]) {
            kept.pop();
            proof {
                assert(kept@.map_values(|v: Vec<char>| v@) =~= before.drop_last());
            }
            return;
        }
        if absolute {
            return;
        }
    }
    kept.push(seg);
    proof {
        assert(kept@.map_values(|v: Vec<char>| v@) =~= before.push(seg@));
    }
}

/// Normalizes a path (see `normalized`).
pub fn normalize_path(p: &Vec<char>) -> (r: Vec<char>)
    ensures
        r@ == normalized(p@),
{
    let absolute = p.len() > 0 && p[0] == '/';
    let mut kept: Vec<Vec<char>> = Vec::new();
    let mut cur: Vec<char> = Vec::new();
    let mut i: usize = 0;
    while i < p.len()
        invariant
            i <= p@.len(),
            absolute == (p@.len() > 0 && p@[0] == '/'),
            kept@.map_values(|v: Vec<char>| v@) == scan_segments(p@.take(i as int), absolute).0,
            cur@ == scan_segments(p@.take(i as int), absolute).1,
        decreases p@.len() - i,
    {
        proof {
            assert(p@.take(i + 1).drop_last() =~= p@.take(i as int));
        }
        if p[i] == '/' {
            push_segment(&mut kept, cur, absolute);
            cur = Vec::new();
        } else {
            cur.push(p[i]);
        }
        i = i + 1;
    }
    proof {
        assert(p@.take(i as int) =~= p@);
    }
    push_segment(&mut kept, cur, absolute);
    let ghost segs = kept@.map_values(|v: Vec<char>| v@);
    let mut out: Vec<char> = Vec::new();
    if absolute {
        out.push('/');
    }
    let ghost lead = out@;
    let mut k: usize = 0;
    while k < kept.len()
        invariant
            k <= kept@.len(),
            segs == kept@.map_values(|v: Vec<char>| v@),
            lead == (if absolute { seq!['/'] } else { Seq::<char>::empty() }),
            out@ == lead + join_segments(segs.take(k as int)),
        decreases kept@.len() - k,
    {
        let ghost before = out@;
        if k > 0 {
            out.push('/');
        }
        let seg = &kept[k];
        let mut j: usize = 0;
        let ghost mid = out@;
        while j < seg.len()
            invariant
                j <= seg@.len(),
                out@ == mid + seg@.take(j as int),
            decreases seg@.len() - j,
        {
            out.push(seg[j]);
            proof {
                assert(out@ =~= mid + seg@.take(j + 1));
            }
            j = j + 1;
        }
        proof {
            assert(seg@.take(j as int) =~= seg@);
            assert(segs[k as int] == seg@);
            assert(segs.take(k + 1).drop_last() =~= segs.take(k as int));
            assert(segs.take(k + 1).last() == segs[k as int]);
            if k == 0 {
                assert(segs.take(1) =~= seq![segs[0]]);
                assert(join_segments(segs.take(1)) == segs[0]);
                assert(out@ =~= lead + join_segments(segs.take(1)));
            } else {
                assert(out@ =~= lead + (join_segments(segs.take(k as int)) + seq!['/'] + segs[k as int]));
            }
        }
        k = k + 1;
    }
    proof {
        assert(segs.take(k as int) =~= segs);
        if !absolute {
            assert(out@ =~= join_segments(segs));
        }
    }
    out
}

/// A path normalized (see `normalized`), so that it compares equal to the
/// same file reached through an include.
pub fn normalize(p: &str) -> (r: String)
    ensures
        r@ == normalized(p@),
{
    let cs = chars_of(p);
    let n = normalize_path(&cs);
    string_from_chars(&n)
}

/// The path of the file that include path `written`, found in file
/// `including`, names (see `include_target`).
pub fn resolve_include(including: &str, written: &str) -> (r: String)
    ensures
        r@ == include_target(including@, written@),
{
    let inc = chars_of(written);
    if inc.len() > 0 && inc[0] == '/' {
        let n = normalize_path(&inc);
        return string_from_chars(&n);
    }
    let s = chars_of(including);
    let mut k: usize = s.len();
    while k > 0 && s[k - 1] != '/'
        invariant
            k <= s@.len(),
            last_slash(s@, s@.len() as int) == last_slash(s@, k as int),
        decreases k,
    {
        k = k - 1;
    }
    proof {
        lemma_last_slash_range(s@, s@.len() as int);
    }
    let mut out: Vec<char> = Vec::new();
    let mut i: usize = 0;
    while i < k
        invariant
            i <= k <= s@.len(),
            last_slash(s@, s@.len() as int) + 1 == k,
            out@ == s@.subrange(0, i as int),
        decreases k - i,
    {
        out.push(s[i]);
        proof {
            assert(out@ =~= s@.subrange(0, i + 1));
        }
        i = i + 1;
    }
    let mut j: usize = 0;
    while j < inc.len()
        invariant
            j <= inc@.len(),
            out@ == s@.subrange(0, k as int) + inc@.subrange(0, j as int),
        decreases inc@.len() - j,
    {
        out.push(inc[j]);
        proof {
            assert(out@ =~= s@.subrange(0, k as int) + inc@.subrange(0, j + 1));
        }
        j = j + 1;
    }
    proof {
        assert(inc@.subrange(0, j as int) =~= inc@);
    }
    let n = normalize_path(&out);
    string_from_chars(&n)
}

/// A file being resolved: its path, its includes once read, and how many
/// of them have been looked at.
#[derive(Debug)]
pub struct Frame {
    pub path: String,
    pub includes: Vec<String>,
    pub next: usize,
}

/// What the resolver needs next.
#[derive(Debug)]
pub enum ResolveStep {
    /// Read this file and hand its resolved includes to `loaded`.
    Load(String),
    /// Nothing to read; call `advance` again.
    Continue,
    /// An include leads back to a file still being resolved: the files of
    /// the cycle, from that file down the chain and back to it.
    Circular(Vec<String>),
    /// Every file reachable from the root has been found.
    Done,
}

/// Depth-first resolution of the files reachable from a root file.
pub struct IncludeResolver {
    files: Vec<String>,
    stack: Vec<Frame>,
    awaiting: bool,
}

pub open spec fn views(v: Seq<String>) -> Seq<Seq<char>> {
    v.map_values(|s: String| s@)
}

/// `cycle` is the part of `chain` from the first occurrence of `inc` on,
/// followed by `inc` again.
pub open spec fn is_cycle(cycle: Seq<Seq<char>>, chain: Seq<Seq<char>>, inc: Seq<char>) -> bool {
    exists|i: int|
        0 <= i < chain.len() && chain[i] == inc && (forall|j: int| 0 <= j < i ==> chain[j] != inc)
            && cycle == chain.subrange(i, chain.len() as int).push(inc)
}

impl IncludeResolver {
    /// The files found so far, in the order they were found.
    pub closed spec fn found(&self) -> Seq<Seq<char>> {
        views(self.files@)
    }

    /// The chain of files being resolved, from the root down.
    pub closed spec fn chain(&self) -> Seq<Seq<char>> {
        self.stack@.map_values(|f: Frame| f.path@)
    }

    /// For each file of the chain, the includes not yet looked at.
    pub closed spec fn pending(&self) -> Seq<Seq<Seq<char>>> {
        self.stack@.map_values(|f: Frame| views(f.includes@).subrange(f.next as int, f.includes@.len() as int))
    }

    /// Whether the resolver waits for the includes of the last file it asked for.
    pub closed spec fn is_awaiting(&self) -> bool {
        self.awaiting
    }

    /// Found paths are distinct, each file of the chain has been found, and
    /// while awaiting, the last file of the chain has no includes yet.
    pub closed spec fn wf(&self) -> bool {
        &&& forall|i: int, j: int| 0 <= i < j < self.files@.len() ==> self.files@[i]@ != self.files@[j]@
        &&& forall|i: int| 0 <= i < self.stack@.len() ==> #[trigger] self.stack@[i].next <= self.stack@[i].includes@.len()
        &&& forall|i: int| 0 <= i < self.stack@.len() ==> views(self.files@).contains(#[trigger] self.stack@[i].path@)
        &&& self.awaiting ==> self.stack@.len() > 0 && self.stack@.last().includes@.len() == 0
    }

    /// A resolver for the translation unit rooted at `root`; it first needs
    /// the includes of `root` itself.
    pub fn new(root: &String) -> (r: IncludeResolver)
        ensures
            r.found() == seq![root@],
            r.chain() == seq![root@],
            r.pending() == seq![Seq::<Seq<char>>::empty()],
            r.is_awaiting(),
            r.wf(),
    {
        let mut files: Vec<String> = Vec::new();
        files.push(root.clone());
        let mut stack: Vec<Frame> = Vec::new();
        stack.push(Frame { path: root.clone(), includes: Vec::new(), next: 0 });
        let r = IncludeResolver { files, stack, awaiting: true };
        proof {
            assert(views(r.files@)[0] == root@);
            assert(r.found() =~= seq![root@]);
            assert(r.chain() =~= seq![root@]);
            assert(views(Seq::<String>::empty()).subrange(0, 0) =~= Seq::<Seq<char>>::empty());
            assert(r.pending() =~= seq![Seq::<Seq<char>>::empty()]);
        }
        r
    }

    /// Whether the resolver waits for `loaded`.
    pub fn awaiting_includes(&self) -> (r: bool)
        ensures
            r == self.is_awaiting(),
    {
        self.awaiting
    }

    /// The files found, in the order they were found; no path twice.
    pub fn into_files(self) -> (r: Vec<String>)
        requires
            self.wf(),
        ensures
            views(r@) == self.found(),
            forall|i: int, j: int| 0 <= i < j < r@.len() ==> r@[i]@ != r@[j]@,
    {
        self.files
    }

    /// The files of the chain from the first occurrence of `p` on, then `p`
    /// again; `None` when `p` is not on the chain.
    fn cycle_to(&self, p: &String) -> (r: Option<Vec<String>>)
        ensures
            r is None <==> !self.chain().contains(p@),
            r matches Some(c) ==> is_cycle(views(c@), self.chain(), p@),
    {
        let mut i: usize = 0;
        while i < self.stack.len()
            invariant
                i <= self.stack@.len(),
                forall|k: int| 0 <= k < i ==> self.stack@[k].path@ != p@,
            decreases self.stack@.len() - i,
        {
            if self.stack[i].path == *p {
                let ghost chain = self.chain();
                assert(chain[i as int] == p@);
                let mut cycle: Vec<String> = Vec::new();
                let mut j: usize = i;
                while j < self.stack.len()
                    invariant
                        i <= j <= self.stack@.len(),
                        chain == self.chain(),
                        views(cycle@) == chain.subrange(i as int, j as int),
                    decreases self.stack@.len() - j,
                {
                    let ghost before = views(cycle@);
                    cycle.push(self.stack[j].path.clone());
                    proof {
                        assert(chain[j as int] == self.stack@[j as int].path@);
                        assert(views(cycle@) =~= before.push(chain[j as int]));
                        assert(views(cycle@) =~= chain.subrange(i as int, j + 1));
                    }
                    j = j + 1;
                }
                let ghost before = views(cycle@);
                cycle.push(p.clone());
                proof {
                    assert(views(cycle@) =~= before.push(p@));
                    assert(views(cycle@) =~= chain.subrange(i as int, chain.len() as int).push(p@));
                    assert forall|k: int| 0 <= k < i implies chain[k] != p@ by {
                        assert(chain[k] == self.stack@[k].path@);
                    }
                }
                return Some(cycle);
            }
            i = i + 1;
        }
        proof {
            if self.chain().contains(p@) {
                let k = choose|k: int| 0 <= k < self.chain().len() && self.chain()[k] == p@;
                assert(self.stack@[k].path@ == p@);
            }
        }
        None
    }

    fn is_found(&self, p: &String) -> (r: bool)
        ensures
            r == self.found().contains(p@),
    {
        let mut i: usize = 0;
        while i < self.files.len()
            invariant
                i <= self.files@.len(),
                forall|k: int| 0 <= k < i ==> self.files@[k]@ != p@,
            decreases self.files@.len() - i,
        {
            if self.files[i] == *p {
                assert(self.found()[i as int] == p@);
                return true;
            }
            i = i + 1;
        }
        proof {
            if self.found().contains(p@) {
                let k = choose|k: int| 0 <= k < self.found().len() && self.found()[k] == p@;
                assert(self.files@[k]@ == p@);
            }
        }
        false
    }

    /// Takes the includes of the file last asked for (already resolved to
    /// paths) and takes the next step.
    pub fn loaded(&mut self, includes: Vec<String>) -> (r: ResolveStep)
        requires
            old(self).wf(),
            old(self).is_awaiting(),
        ensures
            final(self).wf(),
            final(self).found() == old(self).found(),
            final(self).chain() == old(self).chain(),
            final(self).pending() == old(self).pending().drop_last().push(views(includes@)),
            !final(self).is_awaiting(),
            r is Continue,
    {
        let mut top = self.stack.pop().unwrap();
        let ghost rest = self.stack@;
        top.includes = includes;
        top.next = 0;
        self.stack.push(top);
        self.awaiting = false;
        proof {
            let olds = old(self).stack@;
            assert(rest =~= olds.drop_last());
            assert(self.stack@ =~= rest.push(self.stack@.last()));
            assert(self.chain() =~= old(self).chain());
            assert(views(includes@).subrange(0, includes@.len() as int) =~= views(includes@));
            assert(self.pending() =~= old(self).pending().drop_last().push(views(includes@)));
            assert forall|i: int| 0 <= i < self.stack@.len()
                implies views(self.files@).contains(#[trigger] self.stack@[i].path@) by {
                if i < rest.len() {
                    assert(self.stack@[i] == olds[i]);
                } else {
                    assert(self.stack@[i].path == olds[i].path);
                }
            }
        }
        ResolveStep::Continue
    }

    /// One step of the depth-first walk. With no file left on the chain the
    /// walk is `Done`. A file whose includes have all been looked at leaves
    /// the chain. Otherwise its next include is looked at: one on the chain
    /// is `Circular`, one already found is passed over, and a new one is
    /// found, joins the chain and is asked for with `Load`.
    pub fn advance(&mut self) -> (r: ResolveStep)
        requires
            old(self).wf(),
            !old(self).is_awaiting(),
        ensures
            final(self).wf(),
            old(self).chain().len() == 0 ==> r is Done && final(self).found() == old(self).found()
                && final(self).chain() == old(self).chain(),
            old(self).chain().len() > 0 && old(self).pending().last().len() == 0 ==> {
                &&& r is Continue
                &&& final(self).found() == old(self).found()
                &&& final(self).chain() == old(self).chain().drop_last()
                &&& final(self).pending() == old(self).pending().drop_last()
                &&& !final(self).is_awaiting()
            },
            old(self).chain().len() > 0 && old(self).pending().last().len() > 0 ==> {
                let inc = old(self).pending().last()[0];
                let popped = old(self).pending().drop_last().push(old(self).pending().last().drop_first());
                &&& old(self).chain().contains(inc) ==> (r matches ResolveStep::Circular(cycle)
                    && is_cycle(views(cycle@), old(self).chain(), inc))
                &&& !old(self).chain().contains(inc) && old(self).found().contains(inc) ==> {
                    &&& r is Continue
                    &&& final(self).found() == old(self).found()
                    &&& final(self).chain() == old(self).chain()
                    &&& final(self).pending() == popped
                    &&& !final(self).is_awaiting()
                }
                &&& !old(self).chain().contains(inc) && !old(self).found().contains(inc) ==> {
                    &&& (r matches ResolveStep::Load(p) && p@ == inc)
                    &&& final(self).found() == old(self).found().push(inc)
                    &&& final(self).chain() == old(self).chain().push(inc)
                    &&& final(self).pending() == popped.push(Seq::<Seq<char>>::empty())
                    &&& final(self).is_awaiting()
                }
            },
    {
        let ghost olds = self.stack@;
        if self.stack.len() == 0 {
            return ResolveStep::Done;
        }
        let mut top = self.stack.pop().unwrap();
        let ghost rest = self.stack@;
        proof {
            assert(rest =~= olds.drop_last());
            assert(old(self).pending().last() == views(top.includes@).subrange(top.next as int, top.includes@.len() as int));
        }
        if top.next >= top.includes.len() {
            proof {
                assert(self.chain() =~= old(self).chain().drop_last());
                assert(self.pending() =~= old(self).pending().drop_last());
                assert forall|i: int| 0 <= i < self.stack@.len()
                    implies views(self.files@).contains(#[trigger] self.stack@[i].path@) by {
                    assert(self.stack@[i] == olds[i]);
                }
            }
            return ResolveStep::Continue;
        }
        let inc = top.includes[top.next].clone();
        proof {
            assert(inc@ == old(self).pending().last()[0]);
        }
        top.next = top.next + 1;
        self.stack.push(top);
        proof {
            assert(self.stack@ =~= rest.push(self.stack@.last()));
            assert(self.chain() =~= old(self).chain());
            let t = self.stack@.last();
            assert(views(t.includes@).subrange(t.next as int, t.includes@.len() as int)
                =~= old(self).pending().last().drop_first());
            assert(self.pending() =~= old(self).pending().drop_last().push(old(self).pending().last().drop_first()));
            assert forall|i: int| 0 <= i < self.stack@.len()
                implies views(self.files@).contains(#[trigger] self.stack@[i].path@) by {
                if i < rest.len() {
                    assert(self.stack@[i] == olds[i]);
                } else {
                    assert(self.stack@[i].path == olds[i].path);
                }
            }
        }
        match self.cycle_to(&inc) {
            Some(cycle) => return ResolveStep::Circular(cycle),
            None => {},
        }
        if self.is_found(&inc) {
            return ResolveStep::Continue;
        }
        let ghost before_files = self.files@;
        let ghost before_stack = self.stack@;
        self.files.push(inc.clone());
        self.stack.push(Frame { path: inc.clone(), includes: Vec::new(), next: 0 });
        self.awaiting = true;
        proof {
            assert(self.found() =~= old(self).found().push(inc@));
            assert(self.chain() =~= old(self).chain().push(inc@));
            assert(views(Seq::<String>::empty()).subrange(0, 0) =~= Seq::<Seq<char>>::empty());
            assert(self.pending() =~= old(self).pending().drop_last().push(old(self).pending().last().drop_first()).push(Seq::<Seq<char>>::empty()));
            assert forall|i: int, j: int| 0 <= i < j < self.files@.len() implies self.files@[i]@ != self.files@[j]@ by {
                if j == self.files@.len() - 1 {
                    assert(old(self).found()[i] == self.files@[i]@);
                }
            }
            assert forall|i: int| 0 <= i < self.stack@.len()
                implies views(self.files@).contains(#[trigger] self.stack@[i].path@) by {
                if i < before_stack.len() {
                    assert(self.stack@[i] == before_stack[i]);
                    let j0 = choose|j: int| 0 <= j < views(before_files).len() && views(before_files)[j] == before_stack[i].path@;
                    assert(views(self.files@)[j0] == views(before_files)[j0]);
                } else {
                    assert(views(self.files@)[self.files@.len() - 1] == self.stack@[i].path@);
                }
            }
        }
        ResolveStep::Load(inc)
    }
}

} // verus!
