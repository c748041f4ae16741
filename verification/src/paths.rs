//! Path normalization: the syntactic collapsing of `.` and `..` segments that
//! makes file references comparable, independent of how an import specifier was
//! written. Works purely on strings; no filesystem access.

use vstd::prelude::*;

verus! {

/// A path split at `/` into its raw segments, empty segments included, so that
/// `join_slash(split_slash(s)) == s` for every string.
pub open spec fn split_slash(s: Seq<char>) -> Seq<Seq<char>>
    decreases s.len(),
{
    if s.len() == 0 {
        seq![Seq::<char>::empty()]
    } else if s[0] == '/' {
        seq![Seq::<char>::empty()] + split_slash(s.subrange(1, s.len() as int))
    } else {
        let rest = split_slash(s.subrange(1, s.len() as int));
        seq![seq![s[0]] + rest[0]] + rest.subrange(1, rest.len() as int)
    }
}

/// Splitting always yields at least one segment.
pub proof fn lemma_split_slash_len(s: Seq<char>)
    ensures
        split_slash(s).len() >= 1,
    decreases s.len(),
{
    if s.len() > 0 {
        lemma_split_slash_len(s.subrange(1, s.len() as int));
    }
}

/// The first segment of `segs`, extended at the front with `p`.
pub open spec fn cons_first(p: Seq<char>, segs: Seq<Seq<char>>) -> Seq<Seq<char>> {
    seq![p + segs[0]] + segs.subrange(1, segs.len() as int)
}

proof fn lemma_cons_first_empty(segs: Seq<Seq<char>>)
    requires
        segs.len() >= 1,
    ensures
        cons_first(Seq::<char>::empty(), segs) == segs,
{
    assert(cons_first(Seq::<char>::empty(), segs) =~= segs);
}

proof fn lemma_cons_first_compose(p: Seq<char>, q: Seq<char>, segs: Seq<Seq<char>>)
    requires
        segs.len() >= 1,
    ensures
        cons_first(p, cons_first(q, segs)) == cons_first(p + q, segs),
{
    assert(cons_first(p, cons_first(q, segs)) =~~= cons_first(p + q, segs));
}

/// Unrolling `split_slash` one character at a time, seen from the front.
proof fn lemma_split_slash_step(s: Seq<char>)
    requires
        s.len() >= 1,
    ensures
        s[0] == '/' ==> split_slash(s) == seq![Seq::<char>::empty()] + split_slash(
            s.subrange(1, s.len() as int),
        ),
        s[0] != '/' ==> split_slash(s) == cons_first(
            seq![s[0]],
            split_slash(s.subrange(1, s.len() as int)),
        ),
{
    lemma_split_slash_len(s.subrange(1, s.len() as int));
}

/// Splits a path at every `/`, like the segments an importer writes.
pub fn split_path(s: &str) -> (parts: Vec<String>)
    ensures
        parts.deep_view() == split_slash(s@),
{
    let n = s.unicode_len();
    let mut parts: Vec<String> = Vec::new();
    let mut start: usize = 0;
    let mut i: usize = 0;
    proof {
        lemma_split_slash_len(s@);
        assert(s@.subrange(0, s@.len() as int) =~= s@);
    }
    while i < n
        invariant
            start <= i <= n,
            n == s@.len(),
            split_slash(s@) == parts.deep_view() + cons_first(
                s@.subrange(start as int, i as int),
                split_slash(s@.subrange(i as int, n as int)),
            ),
            split_slash(s@.subrange(i as int, n as int)).len() >= 1,
        decreases n - i,
    {
        let ghost rest = s@.subrange(i as int, n as int);
        let ghost rest1 = s@.subrange(i + 1, n as int);
        proof {
            assert(rest.len() >= 1);
            assert(rest[0] == s@[i as int]);
            assert(rest.subrange(1, rest.len() as int) =~= rest1);
            lemma_split_slash_step(rest);
            lemma_split_slash_len(rest1);
        }
        let c = s.get_char(i);
        if c == '/' {
            let seg = s.substring_char(start, i).to_owned();
            let ghost old_parts = parts.deep_view();
            parts.push(seg);
            proof {
                assert(parts.deep_view() =~= old_parts.push(s@.subrange(
                    start as int,
                    i as int,
                )));
                // split(rest) = [""] + split(rest1), so prepending the pending
                // segment closes it off and starts a fresh empty one.
                assert(cons_first(s@.subrange(start as int, i as int), split_slash(rest))
                    =~= seq![s@.subrange(start as int, i as int)] + split_slash(rest1));
                lemma_cons_first_empty(split_slash(rest1));
                assert(s@.subrange(i + 1, i + 1) =~= Seq::<char>::empty());
                assert(parts.deep_view() + cons_first(
                    s@.subrange(i + 1, i + 1),
                    split_slash(rest1),
                ) =~= old_parts + cons_first(
                    s@.subrange(start as int, i as int),
                    split_slash(rest),
                ));
            }
            start = i + 1;
        } else {
            proof {
                lemma_cons_first_compose(
                    s@.subrange(start as int, i as int),
                    seq![s@[i as int]],
                    split_slash(rest1),
                );
                assert(s@.subrange(start as int, i as int) + seq![s@[i as int]] =~= s@.subrange(
                    start as int,
                    i + 1,
                ));
            }
        }
        i = i + 1;
    }
    let seg = s.substring_char(start, n).to_owned();
    let ghost old_parts = parts.deep_view();
    parts.push(seg);
    proof {
        assert(s@.subrange(n as int, n as int) =~= Seq::<char>::empty());
        assert(split_slash(s@.subrange(n as int, n as int)) =~= seq![Seq::<char>::empty()]);
        assert(cons_first(
            s@.subrange(start as int, n as int),
            seq![Seq::<char>::empty()],
        ) =~= seq![s@.subrange(start as int, n as int)]);
        assert(parts.deep_view() =~= old_parts.push(s@.subrange(start as int, n as int)));
        assert(parts.deep_view() =~= split_slash(s@));
    }
    parts
}

/// The inverse of splitting: segments glued back together with `/`.
pub open spec fn join_slash(parts: Seq<Seq<char>>) -> Seq<char>
    decreases parts.len(),
{
    if parts.len() == 0 {
        Seq::<char>::empty()
    } else if parts.len() == 1 {
        parts[0]
    } else {
        parts[0] + seq!['/'] + join_slash(parts.drop_first())
    }
}

proof fn lemma_join_slash_push(parts: Seq<Seq<char>>, last: Seq<char>)
    requires
        parts.len() >= 1,
    ensures
        join_slash(parts.push(last)) == join_slash(parts) + seq!['/'] + last,
    decreases parts.len(),
{
    if parts.len() == 1 {
        assert(parts.push(last).drop_first() =~= seq![last]);
        assert(join_slash(seq![last]) == last);
        assert(join_slash(parts.push(last)) == parts.push(last)[0] + seq!['/'] + join_slash(
            parts.push(last).drop_first(),
        ));
        assert(join_slash(parts.push(last)) =~= parts[0] + seq!['/'] + last);
    } else {
        assert(parts.push(last).drop_first() =~= parts.drop_first().push(last));
        lemma_join_slash_push(parts.drop_first(), last);
        assert(parts[0] + seq!['/'] + (join_slash(parts.drop_first()) + seq!['/'] + last)
            =~= (parts[0] + seq!['/'] + join_slash(parts.drop_first())) + seq!['/'] + last);
    }
}

/// Joins segments with `/` between them.
pub fn join_path(parts: &Vec<String>) -> (r: String)
    ensures
        r@ == join_slash(parts.deep_view()),
{
    let mut out = String::new();
    if parts.len() == 0 {
        return out;
    }
    out.append(parts[0].as_str());
    let mut k: usize = 1;
    proof {
        assert(parts.deep_view().subrange(0, 1) =~= seq![parts.deep_view()[0]]);
    }
    while k < parts.len()
        invariant
            1 <= k <= parts.len(),
            parts.deep_view().len() == parts.len(),
            out@ == join_slash(parts.deep_view().subrange(0, k as int)),
        decreases parts.len() - k,
    {
        let ghost prefix = parts.deep_view().subrange(0, k as int);
        out.append("/");
        out.append(parts[k].as_str());
        proof {
            reveal_strlit("/");
            assert("/"@ =~= seq!['/']);
            lemma_join_slash_push(prefix, parts.deep_view()[k as int]);
            assert(parts.deep_view().subrange(0, k + 1) =~= prefix.push(
                parts.deep_view()[k as int],
            ));
        }
        k = k + 1;
    }
    proof {
        assert(parts.deep_view().subrange(0, parts.len() as int) =~= parts.deep_view());
    }
    out
}

/// The one-segment path `.`, what an empty relative path cleans to.
pub open spec fn seg_dot() -> Seq<char> {
    seq!['.']
}

/// The parent-directory segment `..`.
pub open spec fn seg_dotdot() -> Seq<char> {
    seq!['.', '.']
}

/// One step of cleaning: how a single raw segment changes the stack of kept
/// segments. Empty and `.` segments vanish; `..` pops a preceding normal
/// segment, vanishes at the root of an absolute path, and is kept at the head
/// of a relative path; everything else is kept.
pub open spec fn clean_step(stack: Seq<Seq<char>>, seg: Seq<char>, abs: bool) -> Seq<Seq<char>> {
    if seg == Seq::<char>::empty() || seg == seg_dot() {
        stack
    } else if seg == seg_dotdot() {
        if stack.len() > 0 && stack.last() != seg_dotdot() {
            stack.drop_last()
        } else if abs {
            stack
        } else {
            stack.push(seg_dotdot())
        }
    } else {
        stack.push(seg)
    }
}

pub open spec fn clean_rec(stack: Seq<Seq<char>>, segs: Seq<Seq<char>>, abs: bool) -> Seq<
    Seq<char>,
>
    decreases segs.len(),
{
    if segs.len() == 0 {
        stack
    } else {
        clean_rec(clean_step(stack, segs[0], abs), segs.subrange(1, segs.len() as int), abs)
    }
}

/// The cleaned form of a segment list: no empty or `.` segments remain, and
/// `..` only survives at the head of a relative path.
pub open spec fn clean_segments(segs: Seq<Seq<char>>, abs: bool) -> Seq<Seq<char>> {
    clean_rec(Seq::<Seq<char>>::empty(), segs, abs)
}

fn seg_is_empty(s: &String) -> (r: bool)
    ensures
        r == (s@ == Seq::<char>::empty()),
{
    let r = s.as_str().unicode_len() == 0;
    proof {
        if s@.len() == 0 {
            assert(s@ =~= Seq::<char>::empty());
        }
    }
    r
}

fn seg_is_dot(s: &String) -> (r: bool)
    ensures
        r == (s@ == seg_dot()),
{
    if s.as_str().unicode_len() != 1 {
        return false;
    }
    let r = s.as_str().get_char(0) == '.';
    proof {
        if r {
            assert(s@ =~= seg_dot());
        }
    }
    r
}

fn seg_is_dotdot(s: &String) -> (r: bool)
    ensures
        r == (s@ == seg_dotdot()),
{
    if s.as_str().unicode_len() != 2 {
        return false;
    }
    let r = s.as_str().get_char(0) == '.' && s.as_str().get_char(1) == '.';
    proof {
        if r {
            assert(s@ =~= seg_dotdot());
        }
    }
    r
}

/// Collapses `.` and `..` segments of a split path.
pub fn clean_path_segments(segs: &Vec<String>, abs: bool) -> (stack: Vec<String>)
    ensures
        stack.deep_view() == clean_segments(segs.deep_view(), abs),
{
    let ghost all = segs.deep_view();
    let mut stack: Vec<String> = Vec::new();
    let mut i: usize = 0;
    proof {
        assert(all.subrange(0, all.len() as int) =~= all);
        assert(stack.deep_view() =~= Seq::<Seq<char>>::empty());
    }
    while i < segs.len()
        invariant
            i <= segs.len(),
            all == segs.deep_view(),
            all.len() == segs.len(),
            clean_rec(stack.deep_view(), all.subrange(i as int, all.len() as int), abs)
                == clean_segments(all, abs),
        decreases segs.len() - i,
    {
        let ghost pre = stack.deep_view();
        let ghost rest = all.subrange(i as int, all.len() as int);
        proof {
            assert(rest[0] == all[i as int]);
            assert(rest.subrange(1, rest.len() as int) =~= all.subrange(
                i + 1,
                all.len() as int,
            ));
        }
        let seg = &segs[i];
        if seg_is_empty(seg) || seg_is_dot(seg) {
            proof {
                assert(clean_step(pre, all[i as int], abs) == pre);
            }
        } else if seg_is_dotdot(seg) {
            let len = stack.len();
            if len > 0 && !seg_is_dotdot(&stack[len - 1]) {
                proof {
                    assert(pre.last() == stack.deep_view()[len - 1]);
                }
                stack.pop();
                proof {
                    assert(stack.deep_view() =~= pre.drop_last());
                }
            } else if abs {
            } else {
                stack.push(String::from_str(".."));
                proof {
                    reveal_strlit("..");
                    assert(".."@ =~= seg_dotdot());
                    assert(stack.deep_view() =~= pre.push(seg_dotdot()));
                }
            }
        } else {
            stack.push(seg.clone());
            proof {
                assert(stack.deep_view() =~= pre.push(all[i as int]));
            }
        }
        i = i + 1;
    }
    proof {
        assert(all.subrange(all.len() as int, all.len() as int) =~= Seq::<Seq<char>>::empty());
    }
    stack
}

/// A segment that names a real directory entry: not empty, not `.`, not `..`.
pub open spec fn is_normal_seg(seg: Seq<char>) -> bool {
    seg != Seq::<char>::empty() && seg != seg_dot() && seg != seg_dotdot()
}

proof fn lemma_clean_rec_concat(
    stack: Seq<Seq<char>>,
    s1: Seq<Seq<char>>,
    s2: Seq<Seq<char>>,
    abs: bool,
)
    ensures
        clean_rec(stack, s1 + s2, abs) == clean_rec(clean_rec(stack, s1, abs), s2, abs),
    decreases s1.len(),
{
    if s1.len() == 0 {
        assert(s1 + s2 =~= s2);
    } else {
        assert((s1 + s2)[0] == s1[0]);
        assert((s1 + s2).subrange(1, (s1 + s2).len() as int) =~= s1.subrange(
            1,
            s1.len() as int,
        ) + s2);
        lemma_clean_rec_concat(
            clean_step(stack, s1[0], abs),
            s1.subrange(1, s1.len() as int),
            s2,
            abs,
        );
    }
}

/// Normalization law: descending into a directory and stepping right back out
/// collapses away. The segments `a ++ [x, ".."] ++ b` clean to the same stack
/// as `a ++ b` for any real directory name `x` — which is why two spellings of
/// one location (`a/b/../c` and `a/c`) always make the same file reference.
pub proof fn lemma_clean_collapses_up_down(
    a: Seq<Seq<char>>,
    x: Seq<char>,
    b: Seq<Seq<char>>,
    abs: bool,
)
    requires
        is_normal_seg(x),
    ensures
        clean_segments(a + seq![x, seg_dotdot()] + b, abs) == clean_segments(a + b, abs),
{
    let e = Seq::<Seq<char>>::empty();
    let m = seq![x, seg_dotdot()];
    let stack = clean_rec(e, a, abs);
    lemma_clean_rec_concat(e, a + m, b, abs);
    lemma_clean_rec_concat(e, a, m, abs);
    lemma_clean_rec_concat(e, a, b, abs);
    // the middle pair pushes x and pops it right off again
    assert(seg_dotdot().len() == 2 && seg_dot().len() == 1);
    assert(seg_dotdot() != Seq::<char>::empty() && seg_dotdot() != seg_dot());
    assert(m.subrange(1, 2) =~= seq![seg_dotdot()]);
    assert(m[0] == x);
    assert(clean_step(stack, x, abs) == stack.push(x));
    assert(stack.push(x).last() == x);
    assert(clean_step(stack.push(x), seg_dotdot(), abs) =~= stack);
    assert(seq![seg_dotdot()].subrange(1, 1) =~= e);
    assert(clean_rec(stack, m, abs) == clean_rec(
        clean_step(stack, x, abs),
        m.subrange(1, 2),
        abs,
    ));
    assert(clean_rec(stack.push(x), seq![seg_dotdot()], abs) == clean_rec(
        clean_step(stack.push(x), seg_dotdot(), abs),
        seq![seg_dotdot()].subrange(1, 1),
        abs,
    ));
    assert(clean_rec(stack, m, abs) =~= stack);
}

/// Whether a path is absolute (starts at the filesystem root).
pub open spec fn is_abs(s: Seq<char>) -> bool {
    s.len() > 0 && s[0] == '/'
}

/// The normalized form of a path: `.` and `..` collapsed purely syntactically,
/// so that two spellings of the same location compare equal. The identity of a
/// file reference is this string and nothing else.
pub open spec fn normalize_spec(s: Seq<char>) -> Seq<char> {
    let cleaned = clean_segments(split_slash(s), is_abs(s));
    if is_abs(s) {
        seq!['/'] + join_slash(cleaned)
    } else if cleaned.len() == 0 {
        seg_dot()
    } else {
        join_slash(cleaned)
    }
}

/// Normalizes a path: collapses `.`, `..`, repeated and trailing slashes.
pub fn normalize(s: &str) -> (r: String)
    ensures
        r@ == normalize_spec(s@),
{
    let abs = s.unicode_len() > 0 && s.get_char(0) == '/';
    let parts = split_path(s);
    let cleaned = clean_path_segments(&parts, abs);
    let joined = join_path(&cleaned);
    if abs {
        let mut out = String::from_str("/");
        out.append(joined.as_str());
        proof {
            reveal_strlit("/");
            assert(out@ =~= seq!['/'] + join_slash(clean_segments(split_slash(s@), true)));
        }
        out
    } else if cleaned.len() == 0 {
        let out = String::from_str(".");
        proof {
            reveal_strlit(".");
            assert(out@ =~= seg_dot());
        }
        out
    } else {
        joined
    }
}

/// Index of the last `/` in `s`, or `-1` when there is none.
pub open spec fn find_last_slash(s: Seq<char>) -> int
    decreases s.len(),
{
    if s.len() == 0 {
        -1
    } else if s[s.len() - 1] == '/' {
        s.len() - 1
    } else {
        find_last_slash(s.drop_last())
    }
}

proof fn lemma_find_last_slash_bounds(s: Seq<char>)
    ensures
        -1 <= find_last_slash(s) < s.len(),
    decreases s.len(),
{
    if s.len() > 0 && s[s.len() - 1] != '/' {
        lemma_find_last_slash_bounds(s.drop_last());
    }
}

/// Everything before the last `/`: the directory an importer resolves from.
/// A path without a `/` has the empty string for a parent.
pub open spec fn parent_of(s: Seq<char>) -> Seq<char> {
    if find_last_slash(s) == -1 {
        Seq::<char>::empty()
    } else {
        s.subrange(0, find_last_slash(s))
    }
}

fn last_slash_index(s: &str) -> (r: Option<usize>)
    ensures
        match r {
            Some(k) => find_last_slash(s@) == k as int && (k as int) < s@.len(),
            None => find_last_slash(s@) == -1,
        },
{
    let n = s.unicode_len();
    let mut j: usize = n;
    proof {
        assert(s@.subrange(0, n as int) =~= s@);
    }
    while j > 0
        invariant
            j <= n,
            n == s@.len(),
            find_last_slash(s@) == find_last_slash(s@.subrange(0, j as int)),
        decreases j,
    {
        let ghost pre = s@.subrange(0, j as int);
        if s.get_char(j - 1) == '/' {
            proof {
                assert(pre[pre.len() - 1] == s@[j - 1]);
            }
            return Some(j - 1);
        }
        proof {
            assert(pre.drop_last() =~= s@.subrange(0, j - 1));
        }
        j = j - 1;
    }
    proof {
        assert(s@.subrange(0, 0) =~= Seq::<char>::empty());
    }
    None
}

/// Where an import specifier written in `importer` points: an absolute
/// specifier stands alone; otherwise it is resolved against the importer's
/// directory; the result is always normalized.
pub open spec fn resolve_spec(importer: Seq<char>, specifier: Seq<char>) -> Seq<char> {
    if is_abs(specifier) {
        normalize_spec(specifier)
    } else if find_last_slash(importer) == -1 {
        normalize_spec(specifier)
    } else {
        normalize_spec(parent_of(importer) + seq!['/'] + specifier)
    }
}

/// Resolves one import specifier relative to the importing file's directory.
pub fn resolve_import(importer: &str, specifier: &str) -> (r: String)
    ensures
        r@ == resolve_spec(importer@, specifier@),
{
    if specifier.unicode_len() > 0 && specifier.get_char(0) == '/' {
        return normalize(specifier);
    }
    match last_slash_index(importer) {
        None => normalize(specifier),
        Some(k) => {
            let base = importer.substring_char(0, k).to_owned();
            let combined = base.concat("/").concat(specifier);
            proof {
                reveal_strlit("/");
                assert(combined@ =~= parent_of(importer@) + seq!['/'] + specifier@);
            }
            normalize(combined.as_str())
        },
    }
}

/// Returns the directory part of a path: everything before the last `/`.
pub fn parent_dir(s: &str) -> (r: String)
    ensures
        r@ == parent_of(s@),
{
    match last_slash_index(s) {
        None => String::new(),
        Some(k) => s.substring_char(0, k).to_owned(),
    }
}

/// Glues a directory and a child name with a single `/`.
pub fn path_join(base: &str, name: &str) -> (r: String)
    ensures
        r@ == base@ + seq!['/'] + name@,
{
    let r = base.to_owned().concat("/").concat(name);
    proof {
        reveal_strlit("/");
        assert(r@ =~= base@ + seq!['/'] + name@);
    }
    r
}

/// The part of a path after its last `/`; the whole path when it has none.
pub open spec fn file_name_of(s: Seq<char>) -> Seq<char> {
    if find_last_slash(s) == -1 {
        s
    } else {
        s.subrange(find_last_slash(s) + 1, s.len() as int)
    }
}

/// Returns the file name (the final path segment).
pub fn file_name(path: &String) -> (r: String)
    ensures
        r@ == file_name_of(path@),
{
    let s = path.as_str();
    let n = s.unicode_len();
    match last_slash_index(s) {
        None => {
            proof {
                assert(s@ == path@);
            }
            s.to_owned()
        },
        Some(k) => {
            proof {
                assert(k < n);
            }
            s.substring_char(k + 1, n).to_owned()
        },
    }
}

/// Index of the last `.` in `s`, or `-1` when there is none.
pub open spec fn find_last_dot(s: Seq<char>) -> int
    decreases s.len(),
{
    if s.len() == 0 {
        -1
    } else if s[s.len() - 1] == '.' {
        s.len() - 1
    } else {
        find_last_dot(s.drop_last())
    }
}

/// The extension of a file name, as a path library reads it: the portion after
/// the final `.`, and nothing when there is no `.` or when the only `.` leads a
/// hidden file's name.
pub open spec fn extension_of(name: Seq<char>) -> Option<Seq<char>> {
    if find_last_dot(name) <= 0 {
        None
    } else {
        Some(name.subrange(find_last_dot(name) + 1, name.len() as int))
    }
}

fn last_dot_index(s: &str) -> (r: Option<usize>)
    ensures
        match r {
            Some(k) => find_last_dot(s@) == k as int && (k as int) < s@.len(),
            None => find_last_dot(s@) == -1,
        },
{
    let n = s.unicode_len();
    let mut j: usize = n;
    proof {
        assert(s@.subrange(0, n as int) =~= s@);
    }
    while j > 0
        invariant
            j <= n,
            n == s@.len(),
            find_last_dot(s@) == find_last_dot(s@.subrange(0, j as int)),
        decreases j,
    {
        let ghost pre = s@.subrange(0, j as int);
        if s.get_char(j - 1) == '.' {
            proof {
                assert(pre[pre.len() - 1] == s@[j - 1]);
            }
            return Some(j - 1);
        }
        proof {
            assert(pre.drop_last() =~= s@.subrange(0, j - 1));
        }
        j = j - 1;
    }
    proof {
        assert(s@.subrange(0, 0) =~= Seq::<char>::empty());
    }
    None
}

/// Returns the extension of the path's file name, if it has one.
pub fn extension(path: &String) -> (r: Option<String>)
    ensures
        r.deep_view() == extension_of(file_name_of(path@)),
{
    let name = file_name(path);
    let s = name.as_str();
    let n = s.unicode_len();
    match last_dot_index(s) {
        None => None,
        Some(k) => {
            if k == 0 {
                None
            } else {
                proof {
                    assert(k < n);
                }
                Some(s.substring_char(k + 1, n).to_owned())
            }
        },
    }
}

} // verus!
