//! Path presentation: how file paths are rendered in the table of contents
//! and per-file headers. Pure functions, no I/O.

use vstd::prelude::*;
use vstd::string::*;

use crate::paths::{
    components, join_slash, lemma_component_names_valid, lemma_join_slash_injective,
    lemma_normal_names_valid, normal_names, normal_names_exec, path_components, push_joined,
    same_component, string_views, strip_prefix, strip_prefix_exec, valid_name, valid_names,
    Component, PathPart,
};
use crate::project::PathPresentation;

use crate::text::{owned, push_char};

verus! {

broadcast use vstd::string::group_string_axioms;

/// The named segments of `p`.
pub open spec fn segments(p: Seq<char>) -> Seq<Seq<char>> {
    normal_names(components(p))
}

/// The last `n` segments joined with '/'; all of them when there are fewer.
pub open spec fn suffix(segs: Seq<Seq<char>>, n: nat) -> Seq<char> {
    if n >= segs.len() {
        join_slash(segs)
    } else {
        join_slash(segs.skip(segs.len() - n))
    }
}

fn segments_exec(p: &str) -> (segs: Vec<String>)
    ensures
        string_views(segs@) == segments(p@),
{
    let cs = path_components(p);
    normal_names_exec(&cs)
}

fn suffix_exec(segs: &Vec<String>, n: usize) -> (s: String)
    ensures
        s@ == suffix(string_views(segs@), n as nat),
{
    let start = if n >= segs.len() {
        0
    } else {
        segs.len() - n
    };
    let mut s = String::new();
    push_joined(&mut s, segs, start);
    assert(string_views(segs@).skip(0) =~= string_views(segs@));
    s
}

/// Length of the longest common prefix of two component sequences.
pub open spec fn common_len(a: Seq<PathPart>, b: Seq<PathPart>) -> nat
    decreases a.len(),
{
    if a.len() > 0 && b.len() > 0 && a[0] == b[0] {
        1 + common_len(a.drop_first(), b.drop_first())
    } else {
        0
    }
}

/// Number of named components in `ps`.
pub open spec fn count_normal(ps: Seq<PathPart>) -> nat {
    normal_names(ps).len()
}

/// Whether every component of `ps` is a name.
pub open spec fn all_normal(ps: Seq<PathPart>) -> bool {
    forall|i: int| 0 <= i < ps.len() ==> #[trigger] ps[i] is Normal
}

/// `n` parent-directory steps.
pub open spec fn ups(n: nat) -> Seq<Seq<char>> {
    Seq::new(n, |i: int| seq!['.', '.'])
}

/// Lexical relative path from `base` to `path` (`..` steps allowed); none
/// when the two do not share their roots.
pub open spec fn relative_path(path: Seq<char>, base: Seq<char>) -> Option<Seq<char>> {
    let cp = components(path);
    let cb = components(base);
    let k = common_len(cp, cb);
    let rest = cp.skip(k as int);
    if !all_normal(rest) {
        None
    } else {
        let parts = ups(count_normal(cb.skip(k as int))) + normal_names(rest);
        if parts.len() == 0 {
            Some(seq!['.'])
        } else {
            Some(join_slash(parts))
        }
    }
}

proof fn lemma_common_len(a: Seq<PathPart>, b: Seq<PathPart>, k: int)
    requires
        0 <= k <= a.len(),
        k <= b.len(),
        forall|i: int| 0 <= i < k ==> a[i] == b[i],
        k == a.len() || k == b.len() || a[k] != b[k],
    ensures
        common_len(a, b) == k,
    decreases k,
{
    if k > 0 {
        lemma_common_len(a.drop_first(), b.drop_first(), k - 1);
    }
}

proof fn lemma_normal_names_all(ps: Seq<PathPart>)
    requires
        all_normal(ps),
    ensures
        normal_names(ps).len() == ps.len(),
    decreases ps.len(),
{
    if ps.len() > 0 {
        assert(all_normal(ps.drop_last()));
        lemma_normal_names_all(ps.drop_last());
    }
}

fn relative_to(path: &str, base: &str) -> (r: Option<String>)
    ensures
        match r {
            Some(s) => relative_path(path@, base@) == Some(s@),
            None => relative_path(path@, base@) is None,
        },
{
    let cp = path_components(path);
    let cb = path_components(base);
    let ghost pp = crate::paths::part_views(cp@);
    let ghost pb = crate::paths::part_views(cb@);
    let mut k: usize = 0;
    while k < cp.len() && k < cb.len() && same_component(&cp[k], &cb[k])
        invariant
            k <= cp@.len(),
            k <= cb@.len(),
            pp == crate::paths::part_views(cp@),
            pb == crate::paths::part_views(cb@),
            pp == components(path@),
            pb == components(base@),
            forall|i: int| 0 <= i < k ==> pp[i] == pb[i],
        decreases cp.len() - k,
    {
        k += 1;
    }
    proof {
        lemma_common_len(pp, pb, k as int);
    }
    let mut rest_cb = cb;
    let base_rest = rest_cb.split_off(k);
    assert(crate::paths::part_views(base_rest@) =~= pb.skip(k as int));
    let up_names = normal_names_exec(&base_rest);
    let mut rest_cp = cp;
    let rest = rest_cp.split_off(k);
    assert(crate::paths::part_views(rest@) =~= pp.skip(k as int));
    let mut i: usize = 0;
    while i < rest.len()
        invariant
            i <= rest@.len(),
            crate::paths::part_views(rest@) == pp.skip(k as int),
            pp == components(path@),
            pb == components(base@),
            common_len(pp, pb) == k,
            forall|j: int| 0 <= j < i ==> #[trigger] crate::paths::part_views(rest@)[j] is Normal,
        decreases rest.len() - i,
    {
        match &rest[i] {
            Component::Normal(_) => {},
            _ => {
                assert(!(crate::paths::part_views(rest@)[i as int] is Normal));
                assert(!all_normal(pp.skip(k as int)));
                assert(pp == components(path@));
                assert(pb == components(base@));
                assert(common_len(pp, pb) == k);
                assert(relative_path(path@, base@) is None);
                return None;
            },
        }
        i += 1;
    }
    let names = normal_names_exec(&rest);
    let mut parts: Vec<String> = Vec::new();
    let mut u: usize = 0;
    while u < up_names.len()
        invariant
            u <= up_names@.len(),
            string_views(parts@) == ups(u as nat),
        decreases up_names.len() - u,
    {
        let mut dd = String::new();
        push_char(&mut dd, '.');
        push_char(&mut dd, '.');
        assert(dd@ =~= seq!['.', '.']);
        let ghost before = string_views(parts@);
        parts.push(dd);
        assert(string_views(parts@) =~= before.push(dd@));
        assert(string_views(parts@) =~= ups((u + 1) as nat));
        u += 1;
    }
    let mut j: usize = 0;
    while j < names.len()
        invariant
            j <= names@.len(),
            string_views(parts@) == ups(up_names@.len() as nat) + string_views(names@).take(j as int),
        decreases names.len() - j,
    {
        let ghost before = string_views(parts@);
        let nm = names[j].clone();
        assert(nm@ == string_views(names@)[j as int]);
        parts.push(nm);
        assert(string_views(parts@) =~= before.push(nm@));
        assert(string_views(parts@) =~= ups(up_names@.len() as nat) + string_views(names@).take(j + 1));
        j += 1;
    }
    assert(string_views(names@).take(j as int) =~= string_views(names@));
    if parts.len() == 0 {
        let mut dot = String::new();
        push_char(&mut dot, '.');
        assert(dot@ =~= seq!['.']);
        Some(dot)
    } else {
        let mut s = String::new();
        push_joined(&mut s, &parts, 0);
        assert(string_views(parts@).skip(0) =~= string_views(parts@));
        Some(s)
    }
}

/// The components of `p` below `dir`, when `p` lies under the project directory.
pub open spec fn rel_part(p: Seq<char>, dir: Option<Seq<char>>) -> Option<Seq<PathPart>> {
    match dir {
        Some(d) => strip_prefix(p, d),
        None => None,
    }
}

/// The final segment of `p`, or nothing.
pub open spec fn basename(p: Seq<char>) -> Seq<char> {
    if segments(p).len() > 0 {
        segments(p).last()
    } else {
        Seq::empty()
    }
}

/// Path `j` is outside the project directory and has the basename `b`.
pub open spec fn member(ps: Seq<Seq<char>>, dir: Option<Seq<char>>, b: Seq<char>, j: int) -> bool {
    &&& 0 <= j < ps.len()
    &&& rel_part(ps[j], dir) is None
    &&& basename(ps[j]) == b
}

/// The `n`-segment suffixes of the members with basename `b` are pairwise distinct.
pub open spec fn distinct_suffixes(ps: Seq<Seq<char>>, dir: Option<Seq<char>>, b: Seq<char>, n: nat) -> bool {
    forall|j: int, k: int|
        #![trigger member(ps, dir, b, j), member(ps, dir, b, k)]
        member(ps, dir, b, j) && member(ps, dir, b, k) && j != k ==> suffix(segments(ps[j]), n)
            != suffix(segments(ps[k]), n)
}

/// The largest segment count among the members with basename `b` among the
/// first `upto` paths.
pub open spec fn longest_member(ps: Seq<Seq<char>>, dir: Option<Seq<char>>, b: Seq<char>, upto: nat) -> nat
    decreases upto,
{
    if upto == 0 {
        0
    } else {
        let m = longest_member(ps, dir, b, (upto - 1) as nat);
        if member(ps, dir, b, upto - 1) && segments(ps[upto - 1]).len() > m {
            segments(ps[upto - 1]).len()
        } else {
            m
        }
    }
}

/// `n` is the shortest uniform suffix length that tells the members with
/// basename `b` apart.
pub open spec fn is_width(ps: Seq<Seq<char>>, dir: Option<Seq<char>>, b: Seq<char>, n: nat) -> bool {
    &&& 1 <= n <= longest_member(ps, dir, b, ps.len())
    &&& distinct_suffixes(ps, dir, b, n)
    &&& forall|m: nat| 1 <= m < n ==> !#[trigger] distinct_suffixes(ps, dir, b, m)
}

/// The number of trailing segments shown for members with basename `b`: the
/// shortest that disambiguates them, or all of the longest member's.
pub open spec fn width(ps: Seq<Seq<char>>, dir: Option<Seq<char>>, b: Seq<char>) -> nat {
    if exists|n: nat| is_width(ps, dir, b, n) {
        choose|n: nat| is_width(ps, dir, b, n)
    } else {
        longest_member(ps, dir, b, ps.len())
    }
}

/// Smart Relative presentation of path `i`: relative to the project directory
/// when under it, else its shortest unambiguous trailing segments.
pub open spec fn smart_presented(ps: Seq<Seq<char>>, dir: Option<Seq<char>>, i: int) -> Seq<char> {
    match rel_part(ps[i], dir) {
        Some(rest) => join_slash(normal_names(rest)),
        None => suffix(segments(ps[i]), width(ps, dir, basename(ps[i]))),
    }
}

/// The presentation of path `i` under `presentation`.
pub open spec fn presented(
    ps: Seq<Seq<char>>,
    presentation: PathPresentation,
    dir: Option<Seq<char>>,
    i: int,
) -> Seq<char> {
    match presentation {
        PathPresentation::Absolute => ps[i],
        PathPresentation::Fixed { location } => match relative_path(ps[i], location@) {
            Some(r) => r,
            None => ps[i],
        },
        PathPresentation::Smart => smart_presented(ps, dir, i),
    }
}

proof fn lemma_width_unique(ps: Seq<Seq<char>>, dir: Option<Seq<char>>, b: Seq<char>, n: nat)
    requires
        is_width(ps, dir, b, n),
    ensures
        width(ps, dir, b) == n,
{
    let w = choose|m: nat| is_width(ps, dir, b, m);
    assert(is_width(ps, dir, b, w));
    if w < n {
        assert(!distinct_suffixes(ps, dir, b, w));
    } else if w > n {
        assert(!distinct_suffixes(ps, dir, b, n));
    }
}

/// Pairwise distinct suffixes of length `n` for the listed paths.
fn distinct_at(members: &Vec<usize>, segs: &Vec<Vec<String>>, n: usize) -> (r: bool)
    requires
        forall|a: int| 0 <= a < members@.len() ==> members@[a] < segs@.len(),
    ensures
        r == forall|a: int, c: int|
            0 <= a < members@.len() && 0 <= c < members@.len() && a != c ==> suffix(
                string_views(segs@[members@[a] as int]@),
                n as nat,
            ) != suffix(string_views(segs@[members@[c] as int]@), n as nat),
{
    let mut sfx: Vec<String> = Vec::new();
    let mut a: usize = 0;
    while a < members.len()
        invariant
            a <= members@.len(),
            forall|x: int| 0 <= x < members@.len() ==> members@[x] < segs@.len(),
            sfx@.len() == a,
            forall|x: int|
                0 <= x < a ==> #[trigger] sfx@[x]@ == suffix(
                    string_views(segs@[members@[x] as int]@),
                    n as nat,
                ),
        decreases members.len() - a,
    {
        sfx.push(suffix_exec(&segs[members[a]], n));
        a += 1;
    }
    let mut x: usize = 0;
    while x < sfx.len()
        invariant
            x <= sfx@.len() == members@.len(),
            forall|y: int|
                0 <= y < members@.len() ==> #[trigger] sfx@[y]@ == suffix(
                    string_views(segs@[members@[y] as int]@),
                    n as nat,
                ),
            forall|p: int, q: int|
                0 <= p < x && 0 <= q < sfx@.len() && p != q ==> sfx@[p]@ != sfx@[q]@,
        decreases sfx.len() - x,
    {
        let mut y: usize = 0;
        while y < sfx.len()
            invariant
                x < sfx@.len() == members@.len(),
                y <= sfx@.len(),
                forall|z: int|
                    0 <= z < members@.len() ==> #[trigger] sfx@[z]@ == suffix(
                        string_views(segs@[members@[z] as int]@),
                        n as nat,
                    ),
                forall|p: int, q: int|
                    0 <= p < x && 0 <= q < sfx@.len() && p != q ==> sfx@[p]@ != sfx@[q]@,
                forall|q: int| 0 <= q < y && q != x ==> sfx@[x as int]@ != sfx@[q]@,
            decreases sfx.len() - y,
        {
            if y != x && sfx[x] == sfx[y] {
                assert(sfx@[x as int]@ == sfx@[y as int]@);
                return false;
            }
            y += 1;
        }
        x += 1;
    }
    assert forall|a: int, c: int|
        0 <= a < members@.len() && 0 <= c < members@.len() && a != c implies suffix(
            string_views(segs@[members@[a] as int]@),
            n as nat,
        ) != suffix(string_views(segs@[members@[c] as int]@), n as nat) by {
        assert(sfx@[a]@ != sfx@[c]@);
    }
    true
}

/// What is known of each path before presentation.
pub open spec fn facts_hold(
    ps: Seq<Seq<char>>,
    dir: Option<Seq<char>>,
    segs: Seq<Vec<String>>,
    rels: Seq<Option<Vec<Component>>>,
    bases: Seq<String>,
    upto: int,
) -> bool {
    &&& segs.len() == upto
    &&& rels.len() == upto
    &&& bases.len() == upto
    &&& forall|j: int| 0 <= j < upto ==> string_views(#[trigger] segs[j]@) == segments(ps[j])
    &&& forall|j: int| 0 <= j < upto ==> (#[trigger] rels[j] is Some <==> rel_part(ps[j], dir) is Some)
    &&& forall|j: int|
        0 <= j < upto && #[trigger] rels[j] is Some ==> rel_part(ps[j], dir) == Some(
            crate::paths::part_views(rels[j]->0@),
        )
    &&& forall|j: int| 0 <= j < upto ==> (#[trigger] bases[j])@ == basename(ps[j])
}

fn opt_dir(project_dir: Option<&str>) -> (r: Option<String>)
    ensures
        crate::text::opt_view(r) == match project_dir {
            Some(d) => Some(d@),
            None => None,
        },
{
    match project_dir {
        Some(d) => Some(owned(d)),
        None => None,
    }
}

fn gather(paths: &[String], dir: &Option<String>) -> (r: (Vec<Vec<String>>, Vec<Option<Vec<Component>>>, Vec<String>))
    ensures
        facts_hold(string_views(paths@), crate::text::opt_view(*dir), r.0@, r.1@, r.2@, paths@.len() as int),
{
    let ghost ps = string_views(paths@);
    let ghost dv = crate::text::opt_view(*dir);
    let mut segs: Vec<Vec<String>> = Vec::new();
    let mut rels: Vec<Option<Vec<Component>>> = Vec::new();
    let mut bases: Vec<String> = Vec::new();
    let mut i: usize = 0;
    while i < paths.len()
        invariant
            i <= paths@.len(),
            ps == string_views(paths@),
            dv == crate::text::opt_view(*dir),
            facts_hold(ps, dv, segs@, rels@, bases@, i as int),
        decreases paths.len() - i,
    {
        let p = paths[i].as_str();
        assert(p@ == ps[i as int]);
        let sg = segments_exec(p);
        let rel = match dir {
            Some(d) => strip_prefix_exec(p, d.as_str()),
            None => None,
        };
        let base = if sg.len() > 0 {
            sg[sg.len() - 1].clone()
        } else {
            String::new()
        };
        assert(base@ == basename(ps[i as int]));
        segs.push(sg);
        rels.push(rel);
        bases.push(base);
        i += 1;
    }
    (segs, rels, bases)
}

fn is_member(rels: &Vec<Option<Vec<Component>>>, bases: &Vec<String>, b: &String, j: usize) -> (r: bool)
    requires
        j < rels@.len(),
        j < bases@.len(),
    ensures
        r == (rels@[j as int] is None && bases@[j as int]@ == b@),
{
    rels[j].is_none() && bases[j] == *b
}

fn longest_exec(
    Ghost(ps): Ghost<Seq<Seq<char>>>,
    Ghost(dv): Ghost<Option<Seq<char>>>,
    segs: &Vec<Vec<String>>,
    rels: &Vec<Option<Vec<Component>>>,
    bases: &Vec<String>,
    b: &String,
) -> (m: usize)
    requires
        facts_hold(ps, dv, segs@, rels@, bases@, ps.len() as int),
    ensures
        m == longest_member(ps, dv, b@, ps.len()),
{
    let mut m: usize = 0;
    let mut j: usize = 0;
    while j < segs.len()
        invariant
            j <= segs@.len() == ps.len(),
            facts_hold(ps, dv, segs@, rels@, bases@, ps.len() as int),
            m == longest_member(ps, dv, b@, j as nat),
        decreases segs.len() - j,
    {
        let mem = is_member(rels, bases, b, j);
        assert(mem == member(ps, dv, b@, j as int));
        assert(string_views(segs@[j as int]@).len() == segments(ps[j as int]).len());
        if mem && segs[j].len() > m {
            m = segs[j].len();
        }
        j += 1;
    }
    m
}

fn members_of(
    Ghost(ps): Ghost<Seq<Seq<char>>>,
    Ghost(dv): Ghost<Option<Seq<char>>>,
    segs: &Vec<Vec<String>>,
    rels: &Vec<Option<Vec<Component>>>,
    bases: &Vec<String>,
    b: &String,
) -> (ms: Vec<usize>)
    requires
        facts_hold(ps, dv, segs@, rels@, bases@, ps.len() as int),
    ensures
        forall|a: int| 0 <= a < ms@.len() ==> member(ps, dv, b@, #[trigger] ms@[a] as int),
        forall|j: int| member(ps, dv, b@, j) ==> #[trigger] ms@.contains(j as usize),
        forall|a: int, c: int| 0 <= a < c < ms@.len() ==> ms@[a] < ms@[c],
{
    let mut ms: Vec<usize> = Vec::new();
    let mut j: usize = 0;
    while j < segs.len()
        invariant
            j <= segs@.len() == ps.len(),
            facts_hold(ps, dv, segs@, rels@, bases@, ps.len() as int),
            forall|a: int| 0 <= a < ms@.len() ==> member(ps, dv, b@, #[trigger] ms@[a] as int),
            forall|a: int| 0 <= a < ms@.len() ==> #[trigger] ms@[a] < j,
            forall|k: int| 0 <= k < j && member(ps, dv, b@, k) ==> #[trigger] ms@.contains(k as usize),
            forall|a: int, c: int| 0 <= a < c < ms@.len() ==> ms@[a] < ms@[c],
        decreases segs.len() - j,
    {
        let mem = is_member(rels, bases, b, j);
        assert(mem == member(ps, dv, b@, j as int));
        if mem {
            let ghost before = ms@;
            ms.push(j);
            assert(ms@[ms@.len() - 1] == j);
            assert forall|k: int| 0 <= k < j + 1 && member(ps, dv, b@, k) implies #[trigger] ms@.contains(
                k as usize,
            ) by {
                if k < j {
                    assert(before.contains(k as usize));
                    let w = choose|w: int| 0 <= w < before.len() && before[w] == k as usize;
                    assert(ms@[w] == k as usize);
                } else {
                    assert(ms@[ms@.len() - 1] == k as usize);
                }
            }
        }
        j += 1;
    }
    ms
}

proof fn lemma_distinct_members(
    ps: Seq<Seq<char>>,
    dv: Option<Seq<char>>,
    segs: Seq<Vec<String>>,
    rels: Seq<Option<Vec<Component>>>,
    bases: Seq<String>,
    b: Seq<char>,
    ms: Seq<usize>,
    n: nat,
)
    requires
        ps.len() <= usize::MAX,
        facts_hold(ps, dv, segs, rels, bases, ps.len() as int),
        forall|a: int| 0 <= a < ms.len() ==> member(ps, dv, b, #[trigger] ms[a] as int),
        forall|j: int| member(ps, dv, b, j) ==> #[trigger] ms.contains(j as usize),
        forall|a: int, c: int| 0 <= a < c < ms.len() ==> ms[a] < ms[c],
    ensures
        distinct_suffixes(ps, dv, b, n) <==> forall|a: int, c: int|
            0 <= a < ms.len() && 0 <= c < ms.len() && a != c ==> suffix(
                string_views(segs[ms[a] as int]@),
                n,
            ) != suffix(string_views(segs[ms[c] as int]@), n),
{
    let q = forall|a: int, c: int|
        0 <= a < ms.len() && 0 <= c < ms.len() && a != c ==> suffix(
            string_views(segs[ms[a] as int]@),
            n,
        ) != suffix(string_views(segs[ms[c] as int]@), n);
    if distinct_suffixes(ps, dv, b, n) {
        assert forall|a: int, c: int|
            0 <= a < ms.len() && 0 <= c < ms.len() && a != c implies suffix(
                string_views(segs[ms[a] as int]@),
                n,
            ) != suffix(string_views(segs[ms[c] as int]@), n) by {
            assert(member(ps, dv, b, ms[a] as int));
            assert(member(ps, dv, b, ms[c] as int));
            if a < c {
                assert(ms[a] < ms[c]);
            } else {
                assert(ms[c] < ms[a]);
            }
        }
    }
    if q {
        assert forall|j: int, k: int|
            member(ps, dv, b, j) && member(ps, dv, b, k) && j != k implies suffix(segments(ps[j]), n)
                != suffix(segments(ps[k]), n) by {
            assert(ms.contains(j as usize));
            assert(ms.contains(k as usize));
            let a = choose|a: int| 0 <= a < ms.len() && ms[a] == j as usize;
            let c = choose|c: int| 0 <= c < ms.len() && ms[c] == k as usize;
            assert(ms[a] as int == j && ms[c] as int == k);
            assert(a != c);
            assert(suffix(string_views(segs[ms[a] as int]@), n) != suffix(
                string_views(segs[ms[c] as int]@),
                n,
            ));
            assert(string_views(segs[j]@) == segments(ps[j]));
            assert(string_views(segs[k]@) == segments(ps[k]));
        }
    }
}

fn compute_width(
    Ghost(ps): Ghost<Seq<Seq<char>>>,
    Ghost(dv): Ghost<Option<Seq<char>>>,
    segs: &Vec<Vec<String>>,
    rels: &Vec<Option<Vec<Component>>>,
    bases: &Vec<String>,
    b: &String,
) -> (w: usize)
    requires
        ps.len() <= usize::MAX,
        facts_hold(ps, dv, segs@, rels@, bases@, ps.len() as int),
    ensures
        w == width(ps, dv, b@),
{
    let longest = longest_exec(Ghost(ps), Ghost(dv), segs, rels, bases, b);
    let ms = members_of(Ghost(ps), Ghost(dv), segs, rels, bases, b);
    assert forall|a: int| 0 <= a < ms@.len() implies ms@[a] < segs@.len() by {
        assert(member(ps, dv, b@, ms@[a] as int));
    }
    let mut k: usize = 0;
    while k < longest
        invariant
            k <= longest,
            ps.len() <= usize::MAX,
            longest == longest_member(ps, dv, b@, ps.len()),
            facts_hold(ps, dv, segs@, rels@, bases@, ps.len() as int),
            forall|a: int| 0 <= a < ms@.len() ==> member(ps, dv, b@, #[trigger] ms@[a] as int),
            forall|a: int| 0 <= a < ms@.len() ==> ms@[a] < segs@.len(),
            forall|j: int| member(ps, dv, b@, j) ==> #[trigger] ms@.contains(j as usize),
            forall|a: int, c: int| 0 <= a < c < ms@.len() ==> ms@[a] < ms@[c],
            forall|j: nat| 1 <= j <= k ==> !#[trigger] distinct_suffixes(ps, dv, b@, j),
        decreases longest - k,
    {
        let m = k + 1;
        proof {
            lemma_distinct_members(ps, dv, segs@, rels@, bases@, b@, ms@, m as nat);
        }
        if distinct_at(&ms, segs, m) {
            assert(is_width(ps, dv, b@, m as nat));
            proof {
                lemma_width_unique(ps, dv, b@, m as nat);
            }
            return m;
        }
        k += 1;
    }
    assert(!exists|n: nat| is_width(ps, dv, b@, n)) by {
        if exists|n: nat| is_width(ps, dv, b@, n) {
            let n = choose|n: nat| is_width(ps, dv, b@, n);
            assert(!distinct_suffixes(ps, dv, b@, n));
        }
    }
    longest
}

fn first_member(
    Ghost(ps): Ghost<Seq<Seq<char>>>,
    Ghost(dv): Ghost<Option<Seq<char>>>,
    segs: &Vec<Vec<String>>,
    rels: &Vec<Option<Vec<Component>>>,
    bases: &Vec<String>,
    i: usize,
) -> (j: usize)
    requires
        i < ps.len(),
        facts_hold(ps, dv, segs@, rels@, bases@, ps.len() as int),
        member(ps, dv, bases@[i as int]@, i as int),
    ensures
        j <= i,
        member(ps, dv, bases@[i as int]@, j as int),
        forall|k: int| 0 <= k < j ==> !member(ps, dv, bases@[i as int]@, k),
{
    let mut j: usize = 0;
    while !is_member(rels, bases, &bases[i], j)
        invariant
            j <= i < ps.len(),
            facts_hold(ps, dv, segs@, rels@, bases@, ps.len() as int),
            member(ps, dv, bases@[i as int]@, i as int),
            forall|k: int| 0 <= k < j ==> !member(ps, dv, bases@[i as int]@, k),
        decreases i - j,
    {
        if j == i {
            assert(false);
        }
        j += 1;
    }
    j
}

fn smart(paths: &[String], dir: &Option<String>) -> (r: Vec<String>)
    ensures
        r@.len() == paths@.len(),
        forall|i: int|
            0 <= i < paths@.len() ==> (#[trigger] r@[i])@ == smart_presented(
                string_views(paths@),
                crate::text::opt_view(*dir),
                i,
            ),
{
    let ghost ps = string_views(paths@);
    let ghost dv = crate::text::opt_view(*dir);
    let (segs, rels, bases) = gather(paths, dir);
    let mut widths: Vec<usize> = Vec::new();
    let mut out: Vec<String> = Vec::new();
    let mut i: usize = 0;
    while i < paths.len()
        invariant
            i <= paths@.len() == ps.len(),
            ps == string_views(paths@),
            dv == crate::text::opt_view(*dir),
            facts_hold(ps, dv, segs@, rels@, bases@, ps.len() as int),
            widths@.len() == i,
            out@.len() == i,
            forall|j: int|
                0 <= j < i && rels@[j] is None ==> #[trigger] widths@[j] == width(ps, dv, basename(ps[j])),
            forall|j: int| 0 <= j < i ==> (#[trigger] out@[j])@ == smart_presented(ps, dv, j),
        decreases paths.len() - i,
    {
        match &rels[i] {
            Some(rest) => {
                let names = normal_names_exec(rest);
                let mut text = String::new();
                push_joined(&mut text, &names, 0);
                assert(string_views(names@).skip(0) =~= string_views(names@));
                widths.push(0);
                out.push(text);
            },
            None => {
                assert(member(ps, dv, bases@[i as int]@, i as int));
                let j = first_member(Ghost(ps), Ghost(dv), &segs, &rels, &bases, i);
                let w = if j < i {
                    widths[j]
                } else {
                    compute_width(Ghost(ps), Ghost(dv), &segs, &rels, &bases, &bases[i])
                };
                widths.push(w);
                out.push(suffix_exec(&segs[i], w));
            },
        }
        i += 1;
    }
    out
}

/// Render `paths` for display according to the presentation mode. Returns one
/// display string per input path, in order.
pub fn presented_paths(
    paths: &[String],
    presentation: &PathPresentation,
    project_dir: Option<&str>,
) -> (r: Vec<String>)
    ensures
        r@.len() == paths@.len(),
        forall|i: int|
            0 <= i < paths@.len() ==> (#[trigger] r@[i])@ == presented(
                string_views(paths@),
                *presentation,
                match project_dir {
                    Some(d) => Some(d@),
                    None => None,
                },
                i,
            ),
{
    let ghost ps = string_views(paths@);
    match presentation {
        PathPresentation::Absolute => {
            let mut out: Vec<String> = Vec::new();
            let mut i: usize = 0;
            while i < paths.len()
                invariant
                    i <= paths@.len(),
                    ps == string_views(paths@),
                    out@.len() == i,
                    forall|j: int| 0 <= j < i ==> (#[trigger] out@[j])@ == ps[j],
                decreases paths.len() - i,
            {
                out.push(paths[i].clone());
                i += 1;
            }
            out
        },
        PathPresentation::Fixed { location } => {
            let mut out: Vec<String> = Vec::new();
            let mut i: usize = 0;
            while i < paths.len()
                invariant
                    i <= paths@.len(),
                    ps == string_views(paths@),
                    out@.len() == i,
                    forall|j: int|
                        0 <= j < i ==> (#[trigger] out@[j])@ == match relative_path(ps[j], location@) {
                            Some(r) => r,
                            None => ps[j],
                        },
                decreases paths.len() - i,
            {
                let shown = match relative_to(paths[i].as_str(), location.as_str()) {
                    Some(r) => r,
                    None => paths[i].clone(),
                };
                out.push(shown);
                i += 1;
            }
            out
        },
        PathPresentation::Smart => {
            let dir = opt_dir(project_dir);
            smart(paths, &dir)
        },
    }
}

/// The segments that `suffix(segs, n)` joins.
pub open spec fn tail(segs: Seq<Seq<char>>, n: nat) -> Seq<Seq<char>> {
    if n >= segs.len() {
        segs
    } else {
        segs.skip(segs.len() - n)
    }
}

proof fn lemma_segments_valid(p: Seq<char>)
    ensures
        valid_names(segments(p)),
{
    lemma_component_names_valid(p);
    lemma_normal_names_valid(components(p));
}

proof fn lemma_tail_facts(segs: Seq<Seq<char>>, n: nat)
    requires
        valid_names(segs),
    ensures
        suffix(segs, n) == join_slash(tail(segs, n)),
        valid_names(tail(segs, n)),
        segs.len() > 0 && n >= 1 ==> tail(segs, n).len() > 0 && tail(segs, n).last()
            == segs.last(),
        segs.len() == 0 ==> tail(segs, n).len() == 0,
{
    let t = tail(segs, n);
    assert forall|i: int| 0 <= i < t.len() implies valid_name(#[trigger] t[i]) by {
        if n < segs.len() {
            assert(t[i] == segs[segs.len() - n + i]);
        }
    }
}

proof fn lemma_longest_member_bound(
    ps: Seq<Seq<char>>,
    dir: Option<Seq<char>>,
    b: Seq<char>,
    upto: nat,
    j: int,
)
    requires
        member(ps, dir, b, j),
        j < upto,
    ensures
        longest_member(ps, dir, b, upto) >= segments(ps[j]).len(),
    decreases upto,
{
    if j < upto - 1 {
        lemma_longest_member_bound(ps, dir, b, (upto - 1) as nat, j);
    }
}

proof fn lemma_width_covers(ps: Seq<Seq<char>>, dir: Option<Seq<char>>, j: int)
    requires
        0 <= j < ps.len(),
        rel_part(ps[j], dir) is None,
    ensures
        segments(ps[j]).len() > 0 ==> width(ps, dir, basename(ps[j])) >= 1,
        distinct_suffixes(ps, dir, basename(ps[j]), width(ps, dir, basename(ps[j])))
            || width(ps, dir, basename(ps[j])) >= segments(ps[j]).len(),
{
    let b = basename(ps[j]);
    assert(member(ps, dir, b, j));
    lemma_longest_member_bound(ps, dir, b, ps.len(), j);
    if exists|n: nat| is_width(ps, dir, b, n) {
        let w = choose|n: nat| is_width(ps, dir, b, n);
        assert(is_width(ps, dir, b, w));
    }
}

/// In Smart mode, two files outside the project directory whose named
/// segments differ are never shown under the same name: files sharing a
/// basename are told apart by enough trailing segments.
pub proof fn lemma_smart_names_tell_files_apart(
    ps: Seq<Seq<char>>,
    dir: Option<Seq<char>>,
    i: int,
    j: int,
)
    requires
        0 <= i < ps.len(),
        0 <= j < ps.len(),
        rel_part(ps[i], dir) is None,
        rel_part(ps[j], dir) is None,
        segments(ps[i]) != segments(ps[j]),
    ensures
        smart_presented(ps, dir, i) != smart_presented(ps, dir, j),
{
    let si = segments(ps[i]);
    let sj = segments(ps[j]);
    let bi = basename(ps[i]);
    let bj = basename(ps[j]);
    let wi = width(ps, dir, bi);
    let wj = width(ps, dir, bj);
    lemma_segments_valid(ps[i]);
    lemma_segments_valid(ps[j]);
    lemma_tail_facts(si, wi);
    lemma_tail_facts(sj, wj);
    lemma_width_covers(ps, dir, i);
    lemma_width_covers(ps, dir, j);
    if si.len() > 0 {
        assert(valid_name(si[si.len() - 1]));
    }
    if sj.len() > 0 {
        assert(valid_name(sj[sj.len() - 1]));
    }
    if bi == bj && distinct_suffixes(ps, dir, bi, wi) {
        assert(member(ps, dir, bi, i) && member(ps, dir, bi, j));
        assert(i != j);
    } else {
        let ti = tail(si, wi);
        let tj = tail(sj, wj);
        if bi == bj {
            assert(ti == si && tj == sj);
        } else if si.len() > 0 && sj.len() > 0 {
            assert(ti.last() != tj.last());
        } else if si.len() == 0 {
            assert(tj.len() > 0);
        } else {
            assert(ti.len() > 0);
        }
        assert(ti != tj);
        lemma_join_slash_injective(ti, tj);
    }
}

} // verus!
