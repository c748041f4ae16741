//! Relative paths: `diff_path(path, base)` computes how to reach `path` from
//! `base`, component by component. Used where one generated file needs to name
//! another without writing the whole absolute path down.

use vstd::prelude::*;
use crate::paths::{is_abs, parent_of, split_slash, split_path, join_slash, join_path};

verus! {

/// One path component, the way a path iterator yields them.
pub enum Component {
    RootDir,
    CurDir,
    ParentDir,
    Normal(String),
}

/// The ghost image of a component.
pub enum ComponentV {
    RootDir,
    CurDir,
    ParentDir,
    Normal(Seq<char>),
}

impl View for Component {
    type V = ComponentV;

    open spec fn view(&self) -> ComponentV {
        match self {
            Component::RootDir => ComponentV::RootDir,
            Component::CurDir => ComponentV::CurDir,
            Component::ParentDir => ComponentV::ParentDir,
            Component::Normal(s) => ComponentV::Normal(s@),
        }
    }
}

impl DeepView for Component {
    type V = ComponentV;

    open spec fn deep_view(&self) -> ComponentV {
        self@
    }
}

/// The components of a raw segment list: empty segments vanish, `.` survives
/// only as the very first component of a relative path, `..` is a parent step.
pub open spec fn components_of_segs(segs: Seq<Seq<char>>, first: bool) -> Seq<ComponentV>
    decreases segs.len(),
{
    if segs.len() == 0 {
        Seq::<ComponentV>::empty()
    } else {
        let rest = segs.drop_first();
        let s0 = segs[0];
        if s0 == Seq::<char>::empty() {
            components_of_segs(rest, first)
        } else if s0 == seq!['.'] {
            if first {
                seq![ComponentV::CurDir] + components_of_segs(rest, false)
            } else {
                components_of_segs(rest, false)
            }
        } else if s0 == seq!['.', '.'] {
            seq![ComponentV::ParentDir] + components_of_segs(rest, false)
        } else {
            seq![ComponentV::Normal(s0)] + components_of_segs(rest, false)
        }
    }
}

/// The components of a path: a root marker when it is absolute, then the
/// normalized segments.
pub open spec fn components_spec(s: Seq<char>) -> Seq<ComponentV> {
    if is_abs(s) {
        seq![ComponentV::RootDir] + components_of_segs(split_slash(s), false)
    } else {
        components_of_segs(split_slash(s), true)
    }
}

/// Splits a path into components.
pub fn components(path: &str) -> (r: Vec<Component>)
    ensures
        r.deep_view() == components_spec(path@),
{
    let segs = split_path(path);
    let ghost all = segs.deep_view();
    let abs = path.unicode_len() > 0 && path.get_char(0) == '/';
    let mut out: Vec<Component> = Vec::new();
    let mut first: bool = !abs;
    if abs {
        out.push(Component::RootDir);
    }
    let ghost head = out.deep_view();
    let mut i: usize = 0;
    proof {
        assert(all.subrange(0, all.len() as int) =~= all);
        assert(head + components_of_segs(all, !abs) =~= components_spec(path@)) by {
            if abs {
                assert(head =~= seq![ComponentV::RootDir]);
            } else {
                assert(head =~= Seq::<ComponentV>::empty());
            }
        }
    }
    while i < segs.len()
        invariant
            i <= segs.len(),
            all == segs.deep_view(),
            all.len() == segs.len(),
            out.deep_view() + components_of_segs(
                all.subrange(i as int, all.len() as int),
                first,
            ) == components_spec(path@),
        decreases segs.len() - i,
    {
        let ghost pre = out.deep_view();
        let ghost rest = all.subrange(i as int, all.len() as int);
        proof {
            assert(rest[0] == all[i as int]);
            assert(rest.drop_first() =~= all.subrange(i + 1, all.len() as int));
        }
        let seg = &segs[i];
        let is_empty = *seg == String::new();
        let is_dot = *seg == String::from_str(".");
        let is_dotdot = *seg == String::from_str("..");
        proof {
            reveal_strlit(".");
            reveal_strlit("..");
            assert("."@ =~= seq!['.']);
            assert(".."@ =~= seq!['.', '.']);
        }
        if is_empty {
            // empty segment: a doubled or trailing slash, nothing to keep
        } else if is_dot {
            if first {
                out.push(Component::CurDir);
                proof {
                    assert(out.deep_view() =~= pre.push(ComponentV::CurDir));
                    assert(pre.push(ComponentV::CurDir) + components_of_segs(
                        rest.drop_first(),
                        false,
                    ) =~= pre + (seq![ComponentV::CurDir] + components_of_segs(
                        rest.drop_first(),
                        false,
                    )));
                }
            }
            first = false;
        } else if is_dotdot {
            out.push(Component::ParentDir);
            proof {
                assert(out.deep_view() =~= pre.push(ComponentV::ParentDir));
                assert(pre.push(ComponentV::ParentDir) + components_of_segs(
                    rest.drop_first(),
                    false,
                ) =~= pre + (seq![ComponentV::ParentDir] + components_of_segs(
                    rest.drop_first(),
                    false,
                )));
            }
            first = false;
        } else {
            out.push(Component::Normal(seg.clone()));
            proof {
                assert(out.deep_view() =~= pre.push(ComponentV::Normal(all[i as int])));
                assert(pre.push(ComponentV::Normal(all[i as int])) + components_of_segs(
                    rest.drop_first(),
                    false,
                ) =~= pre + (seq![ComponentV::Normal(all[i as int])] + components_of_segs(
                    rest.drop_first(),
                    false,
                )));
            }
            first = false;
        }
        i = i + 1;
    }
    proof {
        assert(all.subrange(all.len() as int, all.len() as int) =~= Seq::<Seq<char>>::empty());
        assert(out.deep_view() + Seq::<ComponentV>::empty() =~= out.deep_view());
    }
    out
}

/// `n` parent steps in a row.
pub open spec fn parent_dirs(n: nat) -> Seq<ComponentV> {
    Seq::new(n, |i: int| ComponentV::ParentDir)
}

/// The walk that diffs two component lists: a shared prefix is consumed; when
/// the base runs long, each of its leftovers costs one parent step; when the
/// lists first diverge, the rest of the target is emitted behind either a `.`
/// (same directory) or enough parent steps to climb out of the base.
pub open spec fn diff_loop(
    ita: Seq<ComponentV>,
    itb: Seq<ComponentV>,
    comps: Seq<ComponentV>,
    same_dir: bool,
) -> Option<Seq<ComponentV>>
    decreases ita.len() + itb.len(),
{
    if ita.len() == 0 && itb.len() == 0 {
        Some(comps)
    } else if ita.len() > 0 && itb.len() == 0 {
        Some(comps + ita)
    } else if ita.len() == 0 {
        diff_loop(ita, itb.drop_first(), comps.push(ComponentV::ParentDir), same_dir)
    } else {
        let a = ita[0];
        let b = itb[0];
        if comps.len() == 0 && a == b {
            diff_loop(ita.drop_first(), itb.drop_first(), comps, same_dir)
        } else if b == ComponentV::CurDir {
            diff_loop(ita.drop_first(), itb.drop_first(), comps.push(a), same_dir)
        } else if b == ComponentV::ParentDir {
            None
        } else if same_dir {
            Some(comps.push(ComponentV::CurDir) + ita)
        } else {
            Some((comps.push(ComponentV::ParentDir) + parent_dirs((itb.len() - 1) as nat)) + ita)
        }
    }
}

/// The relative route from `base` to `path`, as components: nothing when one
/// is absolute and the other is not, or when the base itself climbs with `..`.
pub open spec fn diff_path_spec(path: Seq<char>, base: Seq<char>) -> Option<Seq<ComponentV>> {
    if is_abs(path) != is_abs(base) {
        None
    } else {
        diff_loop(
            components_spec(path),
            components_spec(base),
            Seq::<ComponentV>::empty(),
            parent_of(path) == parent_of(base),
        )
    }
}

/// How one component prints.
pub open spec fn component_text(c: ComponentV) -> Seq<char> {
    match c {
        ComponentV::RootDir => seq!['/'],
        ComponentV::CurDir => seq!['.'],
        ComponentV::ParentDir => seq!['.', '.'],
        ComponentV::Normal(s) => s,
    }
}

/// Components glued back into one path string.
pub open spec fn render_spec(cs: Seq<ComponentV>) -> Seq<char> {
    join_slash(Seq::new(cs.len(), |i: int| component_text(cs[i])))
}

fn render(cs: &Vec<Component>) -> (r: String)
    ensures
        r@ == render_spec(cs.deep_view()),
{
    let ghost all = cs.deep_view();
    let mut texts: Vec<String> = Vec::new();
    let mut i: usize = 0;
    while i < cs.len()
        invariant
            i <= cs.len(),
            all == cs.deep_view(),
            all.len() == cs.len(),
            texts.deep_view().len() == i,
            forall|j: int|
                0 <= j < i ==> texts.deep_view()[j] == component_text(#[trigger] all[j]),
        decreases cs.len() - i,
    {
        let ghost pre = texts.deep_view();
        let t = match &cs[i] {
            Component::RootDir => String::from_str("/"),
            Component::CurDir => String::from_str("."),
            Component::ParentDir => String::from_str(".."),
            Component::Normal(s) => s.clone(),
        };
        proof {
            reveal_strlit("/");
            reveal_strlit(".");
            reveal_strlit("..");
            assert(t@ =~= component_text(all[i as int]));
        }
        texts.push(t);
        proof {
            assert(texts.deep_view() =~= pre.push(t@));
        }
        i = i + 1;
    }
    let r = join_path(&texts);
    proof {
        assert(texts.deep_view() =~= Seq::new(all.len(), |j: int| component_text(all[j])));
    }
    r
}

fn component_eq(a: &Component, b: &Component) -> (r: bool)
    ensures
        r == (a@ == b@),
{
    match (a, b) {
        (Component::RootDir, Component::RootDir) => true,
        (Component::CurDir, Component::CurDir) => true,
        (Component::ParentDir, Component::ParentDir) => true,
        (Component::Normal(x), Component::Normal(y)) => *x == *y,
        _ => false,
    }
}

fn component_clone(c: &Component) -> (r: Component)
    ensures
        r@ == c@,
{
    match c {
        Component::RootDir => Component::RootDir,
        Component::CurDir => Component::CurDir,
        Component::ParentDir => Component::ParentDir,
        Component::Normal(s) => Component::Normal(s.clone()),
    }
}

/// The relative path from `base` to `path`, or nothing when none exists (one
/// path absolute and the other not, or a base that climbs with `..`). Two
/// paths in the same directory route through `.`; otherwise the route climbs
/// out of the base with `..` steps and descends into the target.
pub fn diff_path(path: &str, base: &str) -> (r: Option<String>)
    ensures
        match r {
            Some(s) => diff_path_spec(path@, base@) matches Some(cs) && s@ == render_spec(cs),
            None => diff_path_spec(path@, base@) is None,
        },
{
    let path_abs = path.unicode_len() > 0 && path.get_char(0) == '/';
    let base_abs = base.unicode_len() > 0 && base.get_char(0) == '/';
    if path_abs != base_abs {
        return None;
    }
    let same_dir = {
        let pa = crate::paths::parent_dir(path);
        let pb = crate::paths::parent_dir(base);
        pa == pb
    };
    let pcs = components(path);
    let bcs = components(base);
    let ghost pv = pcs.deep_view();
    let ghost bv = bcs.deep_view();
    let mut comps: Vec<Component> = Vec::new();
    let mut ia: usize = 0;
    let mut ib: usize = 0;
    proof {
        assert(pv.subrange(0, pv.len() as int) =~= pv);
        assert(bv.subrange(0, bv.len() as int) =~= bv);
        assert(comps.deep_view() =~= Seq::<ComponentV>::empty());
    }
    loop
        invariant
            ia <= pcs.len(),
            ib <= bcs.len(),
            pv == pcs.deep_view(),
            bv == bcs.deep_view(),
            pv.len() == pcs.len(),
            bv.len() == bcs.len(),
            diff_loop(
                pv.subrange(ia as int, pv.len() as int),
                bv.subrange(ib as int, bv.len() as int),
                comps.deep_view(),
                same_dir,
            ) == diff_path_spec(path@, base@),
        ensures
            diff_path_spec(path@, base@) matches Some(cs) && comps.deep_view() == cs,
        decreases pcs.len() - ia + bcs.len() - ib,
    {
        let ghost ra = pv.subrange(ia as int, pv.len() as int);
        let ghost rb = bv.subrange(ib as int, bv.len() as int);
        proof {
            if ia < pcs.len() {
                assert(ra[0] == pv[ia as int]);
                assert(ra.drop_first() =~= pv.subrange(ia + 1, pv.len() as int));
            }
            if ib < bcs.len() {
                assert(rb[0] == bv[ib as int]);
                assert(rb.drop_first() =~= bv.subrange(ib + 1, bv.len() as int));
            }
        }
        if ia == pcs.len() && ib == bcs.len() {
            proof {
                assert(ra =~= Seq::<ComponentV>::empty());
                assert(rb =~= Seq::<ComponentV>::empty());
            }
            break ;
        } else if ia < pcs.len() && ib == bcs.len() {
            // the base is exhausted: the rest of the target comes as it is
            proof {
                assert(rb =~= Seq::<ComponentV>::empty());
            }
            let ghost pre = comps.deep_view();
            let mut t: usize = ia;
            while t < pcs.len()
                invariant
                    ia <= t <= pcs.len(),
                    pv == pcs.deep_view(),
                    pv.len() == pcs.len(),
                    comps.deep_view() == pre + pv.subrange(ia as int, t as int),
                decreases pcs.len() - t,
            {
                let ghost mid = comps.deep_view();
                comps.push(component_clone(&pcs[t]));
                proof {
                    assert(comps.deep_view() =~= mid.push(pv[t as int]));
                    assert(pv.subrange(ia as int, t + 1) =~= pv.subrange(
                        ia as int,
                        t as int,
                    ).push(pv[t as int]));
                }
                t = t + 1;
            }
            proof {
                assert(comps.deep_view() =~= pre + ra);
            }
            ia = pcs.len();
            break ;
        } else if ia == pcs.len() {
            proof {
                assert(ra =~= Seq::<ComponentV>::empty());
            }
            let ghost pre = comps.deep_view();
            comps.push(Component::ParentDir);
            proof {
                assert(comps.deep_view() =~= pre.push(ComponentV::ParentDir));
            }
            ib = ib + 1;
        } else {
            let both_equal = component_eq(&pcs[ia], &bcs[ib]);
            let b_is_cur = component_eq(&bcs[ib], &Component::CurDir);
            let b_is_parent = component_eq(&bcs[ib], &Component::ParentDir);
            if comps.len() == 0 && both_equal {
                ia = ia + 1;
                ib = ib + 1;
            } else if b_is_cur {
                let ghost pre = comps.deep_view();
                comps.push(component_clone(&pcs[ia]));
                proof {
                    assert(comps.deep_view() =~= pre.push(pv[ia as int]));
                }
                ia = ia + 1;
                ib = ib + 1;
            } else if b_is_parent {
                return None;
            } else {
                // first divergence: climb out of the base, then descend
                let ghost pre = comps.deep_view();
                if same_dir {
                    comps.push(Component::CurDir);
                    proof {
                        assert(comps.deep_view() =~= pre.push(ComponentV::CurDir));
                    }
                } else {
                    comps.push(Component::ParentDir);
                    let ghost mid0 = comps.deep_view();
                    let mut u: usize = ib + 1;
                    proof {
                        assert(comps.deep_view() =~= pre.push(ComponentV::ParentDir));
                        assert(parent_dirs(0) =~= Seq::<ComponentV>::empty());
                        assert(comps.deep_view() =~= mid0 + parent_dirs(0));
                    }
                    while u < bcs.len()
                        invariant
                            ib + 1 <= u <= bcs.len(),
                            bv.len() == bcs.len(),
                            comps.deep_view() == mid0 + parent_dirs((u - ib - 1) as nat),
                        decreases bcs.len() - u,
                    {
                        let ghost mid = comps.deep_view();
                        comps.push(Component::ParentDir);
                        proof {
                            assert(comps.deep_view() =~= mid.push(ComponentV::ParentDir));
                            assert(comps.deep_view() =~= mid0 + parent_dirs(
                                (u - ib) as nat,
                            ));
                        }
                        u = u + 1;
                    }
                    proof {
                        assert(comps.deep_view() =~= (pre.push(ComponentV::ParentDir)
                            + parent_dirs((rb.len() - 1) as nat)));
                    }
                }
                let ghost tail = comps.deep_view();
                let mut t: usize = ia;
                while t < pcs.len()
                    invariant
                        ia <= t <= pcs.len(),
                        pv == pcs.deep_view(),
                        pv.len() == pcs.len(),
                        comps.deep_view() == tail + pv.subrange(ia as int, t as int),
                    decreases pcs.len() - t,
                {
                    let ghost mid = comps.deep_view();
                    comps.push(component_clone(&pcs[t]));
                    proof {
                        assert(comps.deep_view() =~= mid.push(pv[t as int]));
                        assert(pv.subrange(ia as int, t + 1) =~= pv.subrange(
                            ia as int,
                            t as int,
                        ).push(pv[t as int]));
                    }
                    t = t + 1;
                }
                proof {
                    assert(comps.deep_view() =~= tail + ra);
                }
                ia = pcs.len();
                ib = bcs.len();
                break ;
            }
        }
    }
    Some(render(&comps))
}

} // verus!
