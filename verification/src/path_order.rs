//! The order std gives paths: component by component, the root before `.`
//! before `..` before names, and names by their bytes (for UTF-8 text the
//! same as by their characters). Folder listings are shown in this order.

use vstd::prelude::*;
use vstd::string::*;

use crate::paths::{components, part_views, path_components, string_views, Component, PathPart};
use crate::text::chars_of;

verus! {

broadcast use vstd::string::group_string_axioms;

/// Lexicographic comparison of two sequences under the element comparison
/// `ord` (negative, zero or positive): the first difference decides, and a
/// proper prefix comes first.
pub open spec fn lex_compare<T>(a: Seq<T>, b: Seq<T>, ord: spec_fn(T, T) -> int) -> int
    decreases a.len(),
{
    if a.len() == 0 {
        if b.len() == 0 {
            0
        } else {
            -1
        }
    } else if b.len() == 0 {
        1
    } else if ord(a[0], b[0]) != 0 {
        ord(a[0], b[0])
    } else {
        lex_compare(a.drop_first(), b.drop_first(), ord)
    }
}

/// `ord` is a three-way comparison of a total order: it answers -1, 0 or 1,
/// swapping its arguments flips the answer, 0 means equal, and "not after"
/// is transitive.
pub open spec fn is_order<T>(ord: spec_fn(T, T) -> int) -> bool {
    &&& forall|x: T, y: T|
        #![trigger ord(x, y)]
        -1 <= ord(x, y) <= 1 && ord(x, y) == -ord(y, x) && (ord(x, y) == 0 ==> x == y)
    &&& forall|x: T, y: T, z: T|
        #[trigger] ord(x, y) <= 0 && #[trigger] ord(y, z) <= 0 ==> ord(x, z) <= 0
}

proof fn lemma_lex_flip<T>(a: Seq<T>, b: Seq<T>, ord: spec_fn(T, T) -> int)
    requires
        is_order(ord),
    ensures
        -1 <= lex_compare(a, b, ord) <= 1,
        lex_compare(a, b, ord) == -lex_compare(b, a, ord),
        lex_compare(a, b, ord) == 0 ==> a == b,
    decreases a.len(),
{
    if a.len() > 0 && b.len() > 0 {
        assert(ord(a[0], b[0]) == -ord(b[0], a[0]));
        lemma_lex_flip(a.drop_first(), b.drop_first(), ord);
        if lex_compare(a, b, ord) == 0 {
            assert(a =~= seq![a[0]] + a.drop_first());
            assert(b =~= seq![b[0]] + b.drop_first());
        }
    }
}

proof fn lemma_lex_trans<T>(a: Seq<T>, b: Seq<T>, c: Seq<T>, ord: spec_fn(T, T) -> int)
    requires
        is_order(ord),
        lex_compare(a, b, ord) <= 0,
        lex_compare(b, c, ord) <= 0,
    ensures
        lex_compare(a, c, ord) <= 0,
    decreases a.len(),
{
    if a.len() > 0 && b.len() > 0 && c.len() > 0 {
        let x = ord(a[0], b[0]);
        let y = ord(b[0], c[0]);
        assert(ord(a[0], c[0]) <= 0);
        if x == 0 && y == 0 {
            lemma_lex_trans(a.drop_first(), b.drop_first(), c.drop_first(), ord);
        } else if ord(a[0], c[0]) == 0 {
            assert(a[0] == c[0]);
            assert(ord(b[0], a[0]) == -x);
        }
    }
}

/// Lexicographic comparison under a total order is a total order.
pub proof fn lemma_lex_order<T>(ord: spec_fn(T, T) -> int)
    requires
        is_order(ord),
    ensures
        is_order(|a: Seq<T>, b: Seq<T>| lex_compare(a, b, ord)),
{
    let l = |a: Seq<T>, b: Seq<T>| lex_compare(a, b, ord);
    assert forall|x: Seq<T>, y: Seq<T>|
        #![trigger l(x, y)]
        -1 <= l(x, y) <= 1 && l(x, y) == -l(y, x) && (l(x, y) == 0 ==> x == y) by {
        lemma_lex_flip(x, y, ord);
    }
    assert forall|x: Seq<T>, y: Seq<T>, z: Seq<T>|
        #[trigger] l(x, y) <= 0 && #[trigger] l(y, z) <= 0 implies l(x, z) <= 0 by {
        lemma_lex_trans(x, y, z, ord);
    }
}

/// Characters by their code points.
pub open spec fn char_order() -> spec_fn(char, char) -> int {
    |c: char, d: char|
        if (c as u32) < (d as u32) {
            -1
        } else if (c as u32) > (d as u32) {
            1
        } else {
            0
        }
}

/// Names by their characters.
pub open spec fn name_order() -> spec_fn(Seq<char>, Seq<char>) -> int {
    |a: Seq<char>, b: Seq<char>| lex_compare(a, b, char_order())
}

/// Where a kind of component stands: the root, then `.`, then `..`, then
/// names.
pub open spec fn part_rank(p: PathPart) -> int {
    match p {
        PathPart::Root => 0,
        PathPart::Cur => 1,
        PathPart::Parent => 2,
        PathPart::Normal(_) => 3,
    }
}

/// Components by their kind, names by `name_order`.
pub open spec fn part_order() -> spec_fn(PathPart, PathPart) -> int {
    |x: PathPart, y: PathPart|
        if part_rank(x) < part_rank(y) {
            -1
        } else if part_rank(x) > part_rank(y) {
            1
        } else {
            match (x, y) {
                (PathPart::Normal(a), PathPart::Normal(b)) => name_order()(a, b),
                _ => 0,
            }
        }
}

/// Component sequences by `part_order`, lexicographically.
pub open spec fn parts_order() -> spec_fn(Seq<PathPart>, Seq<PathPart>) -> int {
    |a: Seq<PathPart>, b: Seq<PathPart>| lex_compare(a, b, part_order())
}

/// How path `p` compares with path `q` in std's path order: by their
/// components.
pub open spec fn path_compare(p: Seq<char>, q: Seq<char>) -> int {
    parts_order()(components(p), components(q))
}

proof fn lemma_char_order()
    ensures
        is_order(char_order()),
{
    assert forall|x: char, y: char| #![trigger char_order()(x, y)]
        (char_order()(x, y) == 0 ==> x == y) by {
        if char_order()(x, y) == 0 {
            vstd::utf8::char_u32_cast(x, x as u32);
            vstd::utf8::char_u32_cast(y, y as u32);
        }
    }
}

proof fn lemma_part_order()
    ensures
        is_order(part_order()),
{
    lemma_char_order();
    lemma_lex_order(char_order());
    assert(is_order(name_order()));
    let p = part_order();
    assert forall|x: PathPart, y: PathPart| #![trigger p(x, y)]
        -1 <= p(x, y) <= 1 && p(x, y) == -p(y, x) && (p(x, y) == 0 ==> x == y) by {
        if let (PathPart::Normal(a), PathPart::Normal(b)) = (x, y) {
            assert(name_order()(a, b) == -name_order()(b, a));
        }
    }
    assert forall|x: PathPart, y: PathPart, z: PathPart|
        #[trigger] p(x, y) <= 0 && #[trigger] p(y, z) <= 0 implies p(x, z) <= 0 by {
        if let (PathPart::Normal(a), PathPart::Normal(b), PathPart::Normal(c)) = (x, y, z) {
            assert(name_order()(a, b) <= 0 && name_order()(b, c) <= 0);
        }
    }
}

/// Law: std's path order is a total order on component sequences.
pub proof fn lemma_parts_order()
    ensures
        is_order(part_order()),
        is_order(parts_order()),
{
    lemma_part_order();
    lemma_lex_order(part_order());
}

proof fn lemma_lex_skip<T>(a: Seq<T>, b: Seq<T>, ord: spec_fn(T, T) -> int, i: int)
    requires
        0 <= i < a.len(),
        i < b.len(),
        ord(a[i], b[i]) == 0,
    ensures
        lex_compare(a.skip(i), b.skip(i), ord) == lex_compare(a.skip(i + 1), b.skip(i + 1), ord),
{
    assert(a.skip(i).drop_first() =~= a.skip(i + 1));
    assert(b.skip(i).drop_first() =~= b.skip(i + 1));
}

fn compare_chars(a: &Vec<char>, b: &Vec<char>) -> (r: i8)
    ensures
        r == name_order()(a@, b@),
{
    let mut i: usize = 0;
    assert(a@.skip(0) =~= a@ && b@.skip(0) =~= b@);
    while i < a.len() && i < b.len() && a[i] == b[i]
        invariant
            i <= a@.len(),
            i <= b@.len(),
            lex_compare(a@, b@, char_order()) == lex_compare(a@.skip(i as int), b@.skip(i as int), char_order()),
        decreases a.len() - i,
    {
        proof {
            lemma_lex_skip(a@, b@, char_order(), i as int);
        }
        i += 1;
    }
    let ghost sa = a@.skip(i as int);
    let ghost sb = b@.skip(i as int);
    assert(sa.len() == a@.len() - i && sb.len() == b@.len() - i);
    if i == a.len() {
        if i == b.len() {
            0
        } else {
            -1
        }
    } else if i == b.len() {
        1
    } else {
        assert(sa[0] == a@[i as int] && sb[0] == b@[i as int]);
        proof {
            vstd::utf8::char_u32_cast(a@[i as int], a@[i as int] as u32);
            vstd::utf8::char_u32_cast(b@[i as int], b@[i as int] as u32);
        }
        if (a[i] as u32) < (b[i] as u32) {
            -1
        } else {
            1
        }
    }
}

fn compare_part(x: &Component, y: &Component) -> (r: i8)
    ensures
        r == part_order()(x@, y@),
{
    match (x, y) {
        (Component::Normal(a), Component::Normal(b)) => compare_chars(&chars_of(a.as_str()), &chars_of(b.as_str())),
        _ => {
            let rx: u8 = match x {
                Component::RootDir => 0,
                Component::CurDir => 1,
                Component::ParentDir => 2,
                Component::Normal(_) => 3,
            };
            let ry: u8 = match y {
                Component::RootDir => 0,
                Component::CurDir => 1,
                Component::ParentDir => 2,
                Component::Normal(_) => 3,
            };
            if rx < ry {
                -1
            } else if rx > ry {
                1
            } else {
                0
            }
        },
    }
}

fn compare_parts(a: &Vec<Component>, b: &Vec<Component>) -> (r: i8)
    ensures
        r == parts_order()(part_views(a@), part_views(b@)),
{
    let ghost av = part_views(a@);
    let ghost bv = part_views(b@);
    let mut i: usize = 0;
    assert(av.skip(0) =~= av && bv.skip(0) =~= bv);
    loop
        invariant
            i <= a@.len(),
            i <= b@.len(),
            av == part_views(a@),
            bv == part_views(b@),
            lex_compare(av, bv, part_order()) == lex_compare(av.skip(i as int), bv.skip(i as int), part_order()),
        decreases a.len() - i,
    {
        if i == a.len() {
            return if i == b.len() {
                0
            } else {
                -1
            };
        }
        if i == b.len() {
            return 1;
        }
        let c = compare_part(&a[i], &b[i]);
        assert(av.skip(i as int)[0] == av[i as int] && bv.skip(i as int)[0] == bv[i as int]);
        if c != 0 {
            return c;
        }
        proof {
            lemma_lex_skip(av, bv, part_order(), i as int);
        }
        i += 1;
    }
}

/// `paths` in std's path order (`path_compare`), each listed as often as it
/// occurs in `paths`.
pub fn sort_paths(paths: &Vec<String>) -> (r: Vec<String>)
    ensures
        string_views(r@).to_multiset() == string_views(paths@).to_multiset(),
        forall|i: int, j: int| 0 <= i < j < r@.len() ==> path_compare(r@[i]@, r@[j]@) <= 0,
{
    proof {
        lemma_parts_order();
    }
    let mut out: Vec<String> = Vec::new();
    let mut keys: Vec<Vec<Component>> = Vec::new();
    let mut i: usize = 0;
    assert(string_views(out@) =~= string_views(paths@.take(0)));
    while i < paths.len()
        invariant
            i <= paths@.len(),
            is_order(parts_order()),
            out@.len() == keys@.len() == i,
            forall|k: int| 0 <= k < i ==> part_views(#[trigger] keys@[k]@) == components(out@[k]@),
            forall|a: int, b: int| 0 <= a < b < i ==> path_compare(out@[a]@, out@[b]@) <= 0,
            string_views(out@).to_multiset() == string_views(paths@.take(i as int)).to_multiset(),
        decreases paths.len() - i,
    {
        let x = paths[i].clone();
        let kx = path_components(x.as_str());
        let mut pos: usize = 0;
        while pos < out.len() && compare_parts(&keys[pos], &kx) <= 0
            invariant
                pos <= out@.len() == keys@.len(),
                forall|k: int| 0 <= k < out@.len() ==> part_views(#[trigger] keys@[k]@) == components(out@[k]@),
                part_views(kx@) == components(x@),
                forall|k: int| 0 <= k < pos ==> path_compare(#[trigger] out@[k]@, x@) <= 0,
            decreases out.len() - pos,
        {
            pos += 1;
        }
        let ghost old_out = out@;
        let ghost old_views = string_views(out@);
        proof {
            if pos < old_out.len() {
                assert(path_compare(old_out[pos as int]@, x@) > 0);
                assert forall|b: int| pos <= b < old_out.len() implies path_compare(x@, old_out[b]@) <= 0 by {
                    let o = parts_order();
                    let cx = components(x@);
                    let cp = components(old_out[pos as int]@);
                    let cb = components(old_out[b]@);
                    assert(o(cp, cx) == -o(cx, cp));
                    if b > pos {
                        assert(path_compare(old_out[pos as int]@, old_out[b]@) <= 0);
                        assert(o(cx, cp) <= 0 && o(cp, cb) <= 0);
                    }
                }
            }
        }
        out.insert(pos, x);
        keys.insert(pos, kx);
        proof {
            assert(string_views(out@) =~= old_views.insert(pos as int, x@));
            vstd::seq_lib::to_multiset_insert(old_views, pos as int, x@);
            assert(string_views(paths@.take(i + 1)) =~= string_views(paths@.take(i as int)).push(x@));
            vstd::seq_lib::to_multiset_build(string_views(paths@.take(i as int)), x@);
            assert forall|a: int, b: int| 0 <= a < b < i + 1 implies path_compare(out@[a]@, out@[b]@) <= 0 by {
                if a < pos && b == pos {
                } else if a == pos {
                    assert(out@[b] == old_out[b - 1]);
                } else if b < pos {
                    assert(out@[a] == old_out[a] && out@[b] == old_out[b]);
                } else if a < pos {
                    assert(out@[a] == old_out[a] && out@[b] == old_out[b - 1]);
                } else {
                    assert(out@[a] == old_out[a - 1] && out@[b] == old_out[b - 1]);
                }
            }
        }
        i += 1;
    }
    assert(paths@.take(paths@.len() as int) =~= paths@);
    out
}

} // verus!
