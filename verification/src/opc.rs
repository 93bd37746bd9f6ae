//! Part names in an OPC package: which `.rels` item describes a part, which
//! part an item describes, and how a relationship target resolves against
//! the part that declared it.
use vstd::prelude::*;
use vstd::string::StringSliceAdditionalSpecFns;
use crate::strs::{chars_eq, chars_of, lemma_last_index_append_free, ends_with, has_suffix, last_index, lemma_last_index, push_all, rfind, slice_chars, string_of};

verus! {

/// `_rels`, the directory every relationship item is stored in.
pub open spec fn rels_dir() -> Seq<char> {
    seq!['_', 'r', 'e', 'l', 's']
}

/// `.rels`, the extension every relationship item carries.
pub open spec fn rels_ext() -> Seq<char> {
    seq!['.', 'r', 'e', 'l', 's']
}

fn rels_dir_vec() -> (v: Vec<char>)
    ensures
        v@ == rels_dir(),
{
    let v = vec!['_', 'r', 'e', 'l', 's'];
    assert(v@ =~= rels_dir());
    v
}

fn rels_ext_vec() -> (v: Vec<char>)
    ensures
        v@ == rels_ext(),
{
    let v = vec!['.', 'r', 'e', 'l', 's'];
    assert(v@ =~= rels_ext());
    v
}

/// The name of the `.rels` item describing `part`: `a/b.xml` is described by
/// `a/_rels/b.xml.rels`, and a part at the root by `_rels/<part>.rels`.
pub open spec fn spec_rels_part_for(part: Seq<char>) -> Seq<char> {
    match last_index(part, '/') {
        Some(i) => part.take(i) + seq!['/'] + rels_dir() + seq!['/'] + part.skip(i + 1) + rels_ext(),
        None => rels_dir() + seq!['/'] + part + rels_ext(),
    }
}

/// `s` without any trailing `/`.
pub open spec fn trim_trailing_slashes(s: Seq<char>) -> Seq<char>
    decreases s.len(),
{
    if s.len() > 0 && s.last() == '/' {
        trim_trailing_slashes(s.drop_last())
    } else {
        s
    }
}

/// Everything before the last `/`, or nothing when there is none.
pub open spec fn dir_of(s: Seq<char>) -> Seq<char> {
    match last_index(s, '/') {
        Some(i) => s.take(i),
        None => seq![],
    }
}

/// Everything after the last `/`, or all of `s` when there is none.
pub open spec fn file_of(s: Seq<char>) -> Seq<char> {
    match last_index(s, '/') {
        Some(i) => s.skip(i + 1),
        None => s,
    }
}

/// The directory a `.rels` item's targets resolve against: the item's own
/// directory with a final `_rels` segment (and the slashes before it) taken off.
pub open spec fn spec_source_dir(rels_part: Seq<char>) -> Seq<char> {
    let dir = dir_of(rels_part);
    if has_suffix(dir, rels_dir()) {
        trim_trailing_slashes(dir.take(dir.len() - 5))
    } else {
        dir
    }
}

/// The part a `.rels` item describes; the empty name for the package root.
pub open spec fn spec_source_part(rels_part: Seq<char>) -> Seq<char> {
    let file = file_of(rels_part);
    let stem = if has_suffix(file, rels_ext()) {
        file.take(file.len() - 5)
    } else {
        seq![]
    };
    let dir = spec_source_dir(rels_part);
    if dir.len() == 0 {
        stem
    } else {
        dir + seq!['/'] + stem
    }
}

/// The `.rels` item that describes a part.
///
/// `ppt/slides/slide1.xml` is described by `ppt/slides/_rels/slide1.xml.rels`,
/// and the package root by `_rels/.rels`.
pub fn rels_part_for(part: &str) -> (r: String)
    ensures
        r@ == spec_rels_part_for(part@),
{
    let p = chars_of(part);
    let mut out: Vec<char> = Vec::new();
    match rfind(&p, '/') {
        Some(i) => {
            let dir = slice_chars(&p, 0, i);
            let file = slice_chars(&p, i + 1, p.len());
            push_all(&mut out, &dir);
            out.push('/');
            push_all(&mut out, &rels_dir_vec());
            out.push('/');
            push_all(&mut out, &file);
            push_all(&mut out, &rels_ext_vec());
            assert(out@ =~= spec_rels_part_for(part@));
        },
        None => {
            push_all(&mut out, &rels_dir_vec());
            out.push('/');
            push_all(&mut out, &p);
            push_all(&mut out, &rels_ext_vec());
            assert(out@ =~= spec_rels_part_for(part@));
        },
    }
    string_of(&out)
}

fn trim_trailing_slashes_exec(s: &[char]) -> (r: Vec<char>)
    ensures
        r@ == trim_trailing_slashes(s@),
{
    let mut n = s.len();
    assert(s@.take(n as int) =~= s@);
    while n > 0 && s[n - 1] == '/'
        invariant
            n <= s@.len(),
            trim_trailing_slashes(s@) == trim_trailing_slashes(s@.take(n as int)),
        decreases n,
    {
        assert(s@.take(n as int).drop_last() =~= s@.take(n - 1));
        n -= 1;
    }
    slice_chars(s, 0, n)
}

fn dir_of_exec(s: &[char]) -> (r: Vec<char>)
    ensures
        r@ == dir_of(s@),
{
    proof { lemma_last_index(s@, '/'); }
    match rfind(s, '/') {
        Some(i) => slice_chars(s, 0, i),
        None => Vec::new(),
    }
}

fn file_of_exec(s: &[char]) -> (r: Vec<char>)
    ensures
        r@ == file_of(s@),
{
    proof { lemma_last_index(s@, '/'); }
    match rfind(s, '/') {
        Some(i) => slice_chars(s, i + 1, s.len()),
        None => {
            let r = slice_chars(s, 0, s.len());
            assert(r@ =~= s@);
            r
        },
    }
}

/// The directory a `.rels` item's targets resolve against: the directory of
/// the part it describes, which is its own directory with `_rels` removed.
fn source_dir_chars(rels_part: &[char]) -> (r: Vec<char>)
    ensures
        r@ == spec_source_dir(rels_part@),
{
    let dir = dir_of_exec(rels_part);
    if ends_with(&dir, &rels_dir_vec()) {
        let head = slice_chars(&dir, 0, dir.len() - 5);
        trim_trailing_slashes_exec(&head)
    } else {
        dir
    }
}

/// The part a `.rels` item describes: the inverse of [`rels_part_for`].
fn source_part_chars(rels_part: &[char]) -> (r: Vec<char>)
    ensures
        r@ == spec_source_part(rels_part@),
{
    let file = file_of_exec(rels_part);
    let stem = if ends_with(&file, &rels_ext_vec()) {
        slice_chars(&file, 0, file.len() - 5)
    } else {
        Vec::new()
    };
    let dir = source_dir_chars(rels_part);
    if dir.len() == 0 {
        stem
    } else {
        let mut out = dir;
        out.push('/');
        push_all(&mut out, &stem);
        out
    }
}

} // verus!

verus! {

/// The directory a `.rels` item's targets resolve against: the directory of
/// the part it describes, which is its own directory with `_rels` removed.
pub fn source_dir(rels_part: &str) -> (r: String)
    ensures
        r@ == spec_source_dir(rels_part@),
{
    string_of(&source_dir_chars(&chars_of(rels_part)))
}

/// The part a `.rels` item describes: the inverse of [`rels_part_for`].
pub fn source_part(rels_part: &str) -> (r: String)
    ensures
        r@ == spec_source_part(rels_part@),
{
    string_of(&source_part_chars(&chars_of(rels_part)))
}

/// Naming a part's `.rels` item and reading back the part that item describes
/// gives the part again, for every part name whose last `/` (if it has one)
/// follows a non-empty directory that does not itself end in `/`.
#[verifier::spinoff_prover]
#[verifier::rlimit(40)]
pub proof fn lemma_source_part_inverts_rels_part_for(part: Seq<char>)
    requires
        last_index(part, '/') matches Some(i) ==> i > 0 && part[i - 1] != '/',
    ensures
        spec_source_part(spec_rels_part_for(part)) == part,
{
    lemma_last_index(part, '/');
    let r = spec_rels_part_for(part);
    match last_index(part, '/') {
        Some(i) => {
            let d = part.take(i);
            let f = part.skip(i + 1);
            let a = d + seq!['/'] + rels_dir() + seq!['/'];
            let b = f + rels_ext();
            assert(r =~= a + b);
            assert forall|j: int| 0 <= j < b.len() implies b[j] != '/' by {
                if j < f.len() {
                    assert(b[j] == part[i + 1 + j]);
                }
            }
            lemma_last_index_append_free(a, b, '/');
            assert(a =~= (d + seq!['/'] + rels_dir()).push('/'));
            assert(last_index(a, '/') == Some(a.len() - 1));
            assert(dir_of(r) =~= d + seq!['/'] + rels_dir());
            assert(file_of(r) =~= b);
            assert(dir_of(r).take(dir_of(r).len() - 5) =~= d.push('/'));
            assert(dir_of(r).skip(dir_of(r).len() - 5) =~= rels_dir());
            assert(trim_trailing_slashes(d.push('/')) == trim_trailing_slashes(d)) by {
                assert(d.push('/').drop_last() =~= d);
            }
            assert(d.last() == part[i - 1]);
            assert(trim_trailing_slashes(d) == d);
            assert(b.skip(b.len() - 5) =~= rels_ext());
            assert(b.take(b.len() - 5) =~= f);
            assert(d + seq!['/'] + f =~= part);
        },
        None => {
            let a = rels_dir() + seq!['/'];
            let b = part + rels_ext();
            assert(r =~= a + b);
            assert forall|j: int| 0 <= j < b.len() implies b[j] != '/' by {
                if j < part.len() {
                    assert(b[j] == part[j]);
                }
            }
            lemma_last_index_append_free(a, b, '/');
            assert(a =~= rels_dir().push('/'));
            assert(last_index(a, '/') == Some(5int));
            assert(dir_of(r) =~= rels_dir());
            assert(file_of(r) =~= b);
            assert(dir_of(r).take(0) =~= Seq::<char>::empty());
            assert(dir_of(r).skip(0) =~= rels_dir());
            assert(b.skip(b.len() - 5) =~= rels_ext());
            assert(b.take(b.len() - 5) =~= part);
        },
    }
}

} // verus!

verus! {

/// `s` split at every `/`: the text before the first, between each pair, and
/// after the last.
pub open spec fn split_slash(s: Seq<char>) -> Seq<Seq<char>>
    decreases s.len(),
{
    match last_index(s, '/') {
        Some(k) => {
            proof {
                lemma_last_index(s, '/');
            }
            split_slash(s.take(k)).push(s.skip(k + 1))
        },
        None => seq![s],
    }
}

/// `..`, the segment that climbs one directory.
pub open spec fn dot_dot() -> Seq<char> {
    seq!['.', '.']
}

/// One segment of a path applied to the directories walked so far: an empty
/// segment or `.` stays put, `..` climbs (never above the root), and anything
/// else descends.
pub open spec fn step(stack: Seq<Seq<char>>, seg: Seq<char>) -> Seq<Seq<char>> {
    if seg.len() == 0 || seg == seq!['.'] {
        stack
    } else if seg == dot_dot() {
        if stack.len() > 0 { stack.drop_last() } else { stack }
    } else {
        stack.push(seg)
    }
}

/// Segments applied one after another.
pub open spec fn walk(stack: Seq<Seq<char>>, segs: Seq<Seq<char>>) -> Seq<Seq<char>>
    decreases segs.len(),
{
    if segs.len() == 0 {
        stack
    } else {
        step(walk(stack, segs.drop_last()), segs.last())
    }
}

/// Segments joined with `/`.
pub open spec fn join_slash(segs: Seq<Seq<char>>) -> Seq<char>
    decreases segs.len(),
{
    if segs.len() == 0 {
        seq![]
    } else if segs.len() == 1 {
        segs[0]
    } else {
        join_slash(segs.drop_last()) + seq!['/'] + segs.last()
    }
}

/// A relationship target resolved against the directory it was declared in.
///
/// A target beginning with `/` is package-absolute; everything else is
/// relative, with `.` and `..` collapsed. The result carries no leading slash,
/// because that is how a ZIP item is named.
pub open spec fn spec_resolve(dir: Seq<char>, target: Seq<char>) -> Seq<char> {
    let (base, rest) = if target.len() > 0 && target[0] == '/' {
        (seq![], target.drop_first())
    } else {
        (dir, target)
    };
    join_slash(walk(walk(seq![], split_slash(base)), split_slash(rest)))
}

/// Whether a segment can name a directory or an item: not empty, not `.` or
/// `..`, and holding no `/`.
pub open spec fn plain_segment(seg: Seq<char>) -> bool {
    &&& seg.len() > 0
    &&& seg != seq!['.']
    &&& seg != dot_dot()
    &&& forall|j: int| 0 <= j < seg.len() ==> seg[j] != '/'
}

pub open spec fn slash_free(seg: Seq<char>) -> bool {
    forall|j: int| 0 <= j < seg.len() ==> seg[j] != '/'
}

proof fn lemma_split_slash_free(s: Seq<char>)
    ensures
        forall|i: int| 0 <= i < split_slash(s).len() ==> slash_free(#[trigger] split_slash(s)[i]),
    decreases s.len(),
{
    lemma_last_index(s, '/');
    match last_index(s, '/') {
        Some(k) => {
            lemma_split_slash_free(s.take(k));
            let t = s.skip(k + 1);
            assert forall|j: int| 0 <= j < t.len() implies t[j] != '/' by {
                assert(t[j] == s[k + 1 + j]);
            }
            let a = split_slash(s.take(k));
            assert forall|i: int| 0 <= i < split_slash(s).len() implies slash_free(#[trigger] split_slash(s)[i]) by {
                if i < a.len() {
                    assert(split_slash(s)[i] == a[i]);
                }
            }
        },
        None => {},
    }
}

proof fn lemma_walk_plain(stack: Seq<Seq<char>>, segs: Seq<Seq<char>>)
    requires
        forall|i: int| 0 <= i < stack.len() ==> plain_segment(#[trigger] stack[i]),
        forall|i: int| 0 <= i < segs.len() ==> slash_free(#[trigger] segs[i]),
    ensures
        forall|i: int| 0 <= i < walk(stack, segs).len() ==> plain_segment(#[trigger] walk(stack, segs)[i]),
    decreases segs.len(),
{
    if segs.len() > 0 {
        let d = segs.drop_last();
        assert forall|i: int| 0 <= i < d.len() implies slash_free(#[trigger] d[i]) by {
            assert(d[i] == segs[i]);
        }
        lemma_walk_plain(stack, d);
        let w = walk(stack, d);
        let seg = segs.last();
        assert(slash_free(segs[segs.len() - 1]));
        let n = step(w, seg);
        assert forall|i: int| 0 <= i < n.len() implies plain_segment(#[trigger] n[i]) by {
            if i < w.len() {
                assert(n[i] == w[i]);
            }
        }
    }
}

proof fn lemma_split_join(segs: Seq<Seq<char>>)
    requires
        segs.len() > 0,
        forall|i: int| 0 <= i < segs.len() ==> slash_free(#[trigger] segs[i]),
    ensures
        split_slash(join_slash(segs)) == segs,
    decreases segs.len(),
{
    if segs.len() == 1 {
        let s = segs[0];
        assert(slash_free(segs[0]));
        lemma_last_index(s, '/');
        assert(split_slash(s) =~= segs);
    } else {
        let d = segs.drop_last();
        assert forall|i: int| 0 <= i < d.len() implies slash_free(#[trigger] d[i]) by {
            assert(d[i] == segs[i]);
        }
        lemma_split_join(d);
        let a = join_slash(d) + seq!['/'];
        let b = segs.last();
        assert(slash_free(segs[segs.len() - 1]));
        lemma_last_index_append_free(a, b, '/');
        assert(last_index(a, '/') == Some(a.len() - 1));
        let j = join_slash(segs);
        assert(j == a + b);
        let k = a.len() - 1;
        assert(j.take(k) =~= join_slash(d));
        assert(j.skip(k + 1) =~= b);
        assert(split_slash(j) =~= segs);
    }
}

proof fn lemma_join_starts_plain(segs: Seq<Seq<char>>)
    requires
        segs.len() > 0,
        forall|i: int| 0 <= i < segs.len() ==> plain_segment(#[trigger] segs[i]),
    ensures
        join_slash(segs).len() > 0,
        join_slash(segs)[0] != '/',
    decreases segs.len(),
{
    assert(plain_segment(segs[0]));
    if segs.len() > 1 {
        let d = segs.drop_last();
        assert forall|i: int| 0 <= i < d.len() implies plain_segment(#[trigger] d[i]) by {
            assert(d[i] == segs[i]);
        }
        lemma_join_starts_plain(d);
        assert((join_slash(d) + seq!['/'] + segs.last())[0] == join_slash(d)[0]);
    }
}

/// A resolved name is a clean item name: it does not start with `/`, and
/// unless it is empty every one of its `/`-separated segments names
/// something — none is empty, `.` or `..`, a `..` above the package root
/// having been dropped. A package-absolute target ignores the directory it
/// was declared in.
pub proof fn lemma_resolve_is_clean(dir: Seq<char>, target: Seq<char>)
    ensures
        spec_resolve(dir, target).len() == 0 || spec_resolve(dir, target)[0] != '/',
        spec_resolve(dir, target).len() > 0 ==> forall|i: int| 0 <= i < split_slash(spec_resolve(dir, target)).len()
            ==> plain_segment(#[trigger] split_slash(spec_resolve(dir, target))[i]),
        target.len() > 0 && target[0] == '/' ==> spec_resolve(dir, target) == spec_resolve(seq![], target),
{
    let (base, rest) = if target.len() > 0 && target[0] == '/' {
        (Seq::<char>::empty(), target.drop_first())
    } else {
        (dir, target)
    };
    lemma_split_slash_free(base);
    lemma_split_slash_free(rest);
    let empty = Seq::<Seq<char>>::empty();
    lemma_walk_plain(empty, split_slash(base));
    let w1 = walk(empty, split_slash(base));
    lemma_walk_plain(w1, split_slash(rest));
    let w2 = walk(w1, split_slash(rest));
    assert(spec_resolve(dir, target) == join_slash(w2));
    if w2.len() > 0 {
        lemma_join_starts_plain(w2);
        assert forall|i: int| 0 <= i < w2.len() implies slash_free(#[trigger] w2[i]) by {
            assert(plain_segment(w2[i]));
        }
        lemma_split_join(w2);
    }
}

proof fn lemma_split_push(s: Seq<char>, c: char)
    ensures
        c == '/' ==> split_slash(s.push(c)) == split_slash(s).push(seq![]),
        c != '/' ==> split_slash(s.push(c)) == split_slash(s).drop_last().push(split_slash(s).last().push(c)),
        split_slash(s).len() > 0,
    decreases s.len(),
{
    let t = s.push(c);
    if c == '/' {
        assert(last_index(t, '/') == Some(s.len() as int));
        assert(t.take(s.len() as int) =~= s);
        assert(t.skip(s.len() as int + 1) =~= Seq::<char>::empty());
    } else {
        assert(t.drop_last() =~= s);
        match last_index(s, '/') {
            Some(k) => {
                lemma_last_index(s, '/');
                assert(t.take(k) =~= s.take(k));
                assert(t.skip(k + 1) =~= s.skip(k + 1).push(c));
                lemma_split_nonempty(s.take(k));
            },
            None => {
                assert(t.skip(0) =~= t);
            },
        }
    }
    lemma_split_nonempty(s);
}

proof fn lemma_split_nonempty(s: Seq<char>)
    ensures
        split_slash(s).len() > 0,
    decreases s.len(),
{
    if let Some(k) = last_index(s, '/') {
        lemma_last_index(s, '/');
    }
}

proof fn lemma_walk_concat(st: Seq<Seq<char>>, a: Seq<Seq<char>>, b: Seq<Seq<char>>)
    ensures
        walk(st, a + b) == walk(walk(st, a), b),
    decreases b.len(),
{
    if b.len() == 0 {
        assert(a + b =~= a);
    } else {
        assert((a + b).drop_last() =~= a + b.drop_last());
        lemma_walk_concat(st, a, b.drop_last());
    }
}

fn step_exec(stack: &mut Vec<Vec<char>>, seg: Vec<char>)
    ensures
        final(stack)@.map_values(|v: Vec<char>| v@) == step(old(stack)@.map_values(|v: Vec<char>| v@), seg@),
{
    let ghost before = stack@.map_values(|v: Vec<char>| v@);
    let dot = vec!['.'];
    let dd = vec!['.', '.'];
    assert(dot@ =~= seq!['.']);
    assert(dd@ =~= dot_dot());
    if seg.len() == 0 || chars_eq(&seg, &dot) {
        assert(seg@.len() == 0 ==> seg@ =~= Seq::<char>::empty());
    } else if chars_eq(&seg, &dd) {
        if stack.len() > 0 {
            stack.pop();
            assert(stack@.map_values(|v: Vec<char>| v@) =~= before.drop_last());
        }
    } else {
        stack.push(seg);
        assert(stack@.map_values(|v: Vec<char>| v@) =~= before.push(seg@));
    }
}

/// Walk the segments of `s` onto `stack`.
fn walk_segments(stack: &mut Vec<Vec<char>>, s: &[char])
    ensures
        final(stack)@.map_values(|v: Vec<char>| v@) == walk(old(stack)@.map_values(|v: Vec<char>| v@), split_slash(s@)),
{
    let ghost st0 = stack@.map_values(|v: Vec<char>| v@);
    let mut cur: Vec<char> = Vec::new();
    let mut i: usize = 0;
    proof {
        assert(s@.take(0) =~= Seq::<char>::empty());
        assert(last_index(Seq::<char>::empty(), '/') is None);
        assert(split_slash(Seq::<char>::empty()) =~= seq![Seq::<char>::empty()]);
    }
    while i < s.len()
        invariant
            i <= s@.len(),
            split_slash(s@.take(i as int)).len() > 0,
            stack@.map_values(|v: Vec<char>| v@) == walk(st0, split_slash(s@.take(i as int)).drop_last()),
            cur@ == split_slash(s@.take(i as int)).last(),
        decreases s@.len() - i,
    {
        let ghost pre = s@.take(i as int);
        proof {
            lemma_split_push(pre, s@[i as int]);
            assert(s@.take(i + 1) =~= pre.push(s@[i as int]));
        }
        if s[i] == '/' {
            let seg = cur;
            cur = Vec::new();
            step_exec(stack, seg);
            proof {
                let sp = split_slash(pre);
                assert(split_slash(s@.take(i + 1)).drop_last() =~= sp);
                assert(sp =~= sp.drop_last().push(sp.last()));
                assert(cur@ =~= Seq::<char>::empty());
            }
        } else {
            cur.push(s[i]);
            proof {
                let sp = split_slash(pre);
                assert(split_slash(s@.take(i + 1)).drop_last() =~= sp.drop_last());
            }
        }
        i += 1;
    }
    proof {
        assert(s@.take(s@.len() as int) =~= s@);
        let sp = split_slash(s@);
        assert(sp =~= sp.drop_last().push(sp.last()));
    }
    step_exec(stack, cur);
}

/// Resolve a relationship target against the directory it was declared in.
pub fn resolve(source_dir: &str, target: &str) -> (r: String)
    ensures
        r@ == spec_resolve(source_dir@, target@),
{
    let dir = chars_of(source_dir);
    let t = chars_of(target);
    let mut stack: Vec<Vec<char>> = Vec::new();
    assert(stack@.map_values(|v: Vec<char>| v@) =~= Seq::<Seq<char>>::empty());
    if t.len() > 0 && t[0] == '/' {
        let rest = slice_chars(&t, 1, t.len());
        assert(rest@ =~= t@.drop_first());
        let empty: Vec<char> = Vec::new();
        walk_segments(&mut stack, &empty);
        assert(empty@ =~= Seq::<char>::empty());
        walk_segments(&mut stack, &rest);
        assert(stack@.map_values(|v: Vec<char>| v@) == walk(walk(seq![], split_slash(seq![])), split_slash(target@.drop_first())));
    } else {
        walk_segments(&mut stack, &dir);
        walk_segments(&mut stack, &t);
        assert(stack@.map_values(|v: Vec<char>| v@) == walk(walk(seq![], split_slash(source_dir@)), split_slash(target@)));
    }

    let mut out: Vec<char> = Vec::new();
    let mut k: usize = 0;
    let ghost sv = stack@.map_values(|v: Vec<char>| v@);
    while k < stack.len()
        invariant
            k <= stack@.len(),
            sv == stack@.map_values(|v: Vec<char>| v@),
            out@ == join_slash(sv.take(k as int)),
        decreases stack@.len() - k,
    {
        assert(sv.take(k + 1).drop_last() =~= sv.take(k as int));
        assert(sv[k as int] == stack@[k as int]@);
        if k > 0 {
            out.push('/');
        } else {
            assert(sv.take(1) =~= seq![sv[0]]);
        }
        push_all(&mut out, &stack[k]);
        k += 1;
    }
    assert(sv.take(stack@.len() as int) =~= sv);
    string_of(&out)
}

} // verus!

verus! {

/// The value of one ASCII hexadecimal digit.
pub open spec fn hex_digit(b: u8) -> Option<u8> {
    if 0x30 <= b <= 0x39 {
        Some((b - 0x30) as u8)
    } else if 0x61 <= b <= 0x66 {
        Some((b - 0x61 + 10) as u8)
    } else if 0x41 <= b <= 0x46 {
        Some((b - 0x41 + 10) as u8)
    } else {
        None
    }
}

/// The byte an escape's two hexadecimal digits name; `None` unless both
/// bytes are hexadecimal digits.
pub open spec fn hex_pair(b1: u8, b2: u8) -> Option<u8> {
    match (hex_digit(b1), hex_digit(b2)) {
        (Some(h), Some(l)) => Some((h * 16 + l) as u8),
        _ => None,
    }
}

/// Bytes with every `%` escape that names a byte replaced by that byte; an
/// escape that does not is left as written.
pub open spec fn decode_escapes(b: Seq<u8>) -> Seq<u8>
    decreases b.len(),
{
    if b.len() == 0 {
        seq![]
    } else if b[0] == 0x25 && 2 < b.len() && hex_pair(b[1], b[2]) is Some {
        seq![hex_pair(b[1], b[2]).unwrap()] + decode_escapes(b.skip(3))
    } else {
        seq![b[0]] + decode_escapes(b.skip(1))
    }
}

/// What `String::from_utf8_lossy` makes of a byte sequence.
pub uninterp spec fn utf8_lossy(b: Seq<u8>) -> Seq<char>;

/// Decode bytes as UTF-8, replacing every invalid sequence with U+FFFD
/// (`String::from_utf8_lossy`). Valid UTF-8 decodes exactly.
#[verifier::external_body]
fn from_utf8_lossy(b: &[u8]) -> (r: String)
    ensures
        r@ == utf8_lossy(b@),
        r@ == vstd::utf8::decode_utf8(b@) || !vstd::utf8::valid_utf8(b@),
{
    String::from_utf8_lossy(b).into_owned()
}

fn hex_digit_exec(b: u8) -> (r: Option<u8>)
    ensures
        r == hex_digit(b),
{
    if 0x30 <= b && b <= 0x39 {
        Some(b - 0x30)
    } else if 0x61 <= b && b <= 0x66 {
        Some(b - 0x61 + 10)
    } else if 0x41 <= b && b <= 0x46 {
        Some(b - 0x41 + 10)
    } else {
        None
    }
}

fn hex_pair_exec(b1: u8, b2: u8) -> (r: Option<u8>)
    ensures
        r == hex_pair(b1, b2),
{
    match (hex_digit_exec(b1), hex_digit_exec(b2)) {
        (Some(h), Some(l)) => Some(h * 16 + l),
        _ => None,
    }
}

/// A target percent-decoded, for a package that encodes its `.rels` and its
/// item names differently. An escape is `%` and two hexadecimal digits; any
/// other `%` is left as written, and bytes that do not form UTF-8 become
/// U+FFFD.
pub fn percent_decode(text: &str) -> (r: String)
    ensures
        r@ == utf8_lossy(decode_escapes(text.spec_bytes())),
        vstd::utf8::valid_utf8(decode_escapes(text.spec_bytes())) ==> r@ == vstd::utf8::decode_utf8(decode_escapes(text.spec_bytes())),
{
    let bytes = text.as_bytes();
    let mut out: Vec<u8> = Vec::new();
    let mut i: usize = 0;
    assert(bytes@.skip(0) =~= bytes@);
    while i < bytes.len()
        invariant
            i <= bytes@.len(),
            out@ + decode_escapes(bytes@.skip(i as int)) == decode_escapes(bytes@),
        decreases bytes@.len() - i,
    {
        let ghost rest = bytes@.skip(i as int);
        if bytes[i] == 0x25 && bytes.len() - i > 2 {
            if let Some(byte) = hex_pair_exec(bytes[i + 1], bytes[i + 2]) {
                assert(rest[1] == bytes@[i + 1] && rest[2] == bytes@[i + 2]);
                out.push(byte);
                assert(rest.skip(3) =~= bytes@.skip(i + 3));
                i += 3;
                continue;
            }
        }
        assert(rest.skip(1) =~= bytes@.skip(i + 1));
        if bytes.len() - i > 2 {
            assert(rest[1] == bytes@[i + 1] && rest[2] == bytes@[i + 2]);
        }
        out.push(bytes[i]);
        i += 1;
    }
    assert(bytes@.skip(i as int) =~= Seq::<u8>::empty());
    assert(out@ =~= decode_escapes(bytes@));
    from_utf8_lossy(&out)
}

} // verus!
