//! A lexical model of '/'-separated file system paths, as std's `Path`
//! reads them on Unix: component splitting, file names and stems,
//! parents, prefix stripping and joining. No I/O here.

use vstd::prelude::*;
use vstd::string::*;

use crate::text::{chars_of, opt_view, owned, push_char, push_chars, string_of};

verus! {

broadcast use vstd::string::group_string_axioms;

/// One component of a path.
pub enum PathPart {
    Root,
    Cur,
    Parent,
    Normal(Seq<char>),
}

/// One component of a path.
pub enum Component {
    RootDir,
    CurDir,
    ParentDir,
    Normal(String),
}

impl View for Component {
    type V = PathPart;

    open spec fn view(&self) -> PathPart {
        match self {
            Component::RootDir => PathPart::Root,
            Component::CurDir => PathPart::Cur,
            Component::ParentDir => PathPart::Parent,
            Component::Normal(s) => PathPart::Normal(s@),
        }
    }
}

/// The views of a sequence of components.
pub open spec fn part_views(v: Seq<Component>) -> Seq<PathPart> {
    v.map_values(|c: Component| c@)
}

/// The views of a sequence of strings.
pub open spec fn string_views(v: Seq<String>) -> Seq<Seq<char>> {
    v.map_values(|s: String| s@)
}

/// The pieces of `rest` between slashes, the first one prefixed by `cur`.
pub open spec fn split_from(cur: Seq<char>, rest: Seq<char>) -> Seq<Seq<char>>
    decreases rest.len(),
{
    if rest.len() == 0 {
        seq![cur]
    } else if rest[0] == '/' {
        seq![cur] + split_from(Seq::empty(), rest.drop_first())
    } else {
        split_from(cur.push(rest[0]), rest.drop_first())
    }
}

/// The pieces of `p` between slashes (empty pieces included).
pub open spec fn split_slash(p: Seq<char>) -> Seq<Seq<char>> {
    split_from(Seq::empty(), p)
}

/// The component a non-leading piece stands for, if any: empty pieces and
/// `.` vanish, `..` is the parent directory.
pub open spec fn piece_parts(pieces: Seq<Seq<char>>) -> Seq<PathPart>
    decreases pieces.len(),
{
    if pieces.len() == 0 {
        Seq::empty()
    } else {
        let rest = piece_parts(pieces.drop_last());
        let p = pieces.last();
        if p.len() == 0 || p == seq!['.'] {
            rest
        } else if p == seq!['.', '.'] {
            rest.push(PathPart::Parent)
        } else {
            rest.push(PathPart::Normal(p))
        }
    }
}

/// Whether `p` starts at the root.
pub open spec fn is_absolute(p: Seq<char>) -> bool {
    p.len() > 0 && p[0] == '/'
}

/// Whether `p` starts with a `.` component.
pub open spec fn starts_at_cur(p: Seq<char>) -> bool {
    !is_absolute(p) && split_slash(p)[0] == seq!['.']
}

/// The components of `p`: the root or a leading `.`, then the named and
/// `..` components in order.
pub open spec fn components(p: Seq<char>) -> Seq<PathPart> {
    let pieces = split_slash(p);
    if is_absolute(p) {
        seq![PathPart::Root] + piece_parts(pieces)
    } else if starts_at_cur(p) {
        seq![PathPart::Cur] + piece_parts(pieces.drop_first())
    } else {
        piece_parts(pieces)
    }
}

/// The named components of a component sequence, in order.
pub open spec fn normal_names(ps: Seq<PathPart>) -> Seq<Seq<char>>
    decreases ps.len(),
{
    if ps.len() == 0 {
        Seq::empty()
    } else {
        let rest = normal_names(ps.drop_last());
        match ps.last() {
            PathPart::Normal(s) => rest.push(s),
            _ => rest,
        }
    }
}

/// `segs` joined with '/'.
pub open spec fn join_slash(segs: Seq<Seq<char>>) -> Seq<char>
    decreases segs.len(),
{
    if segs.len() == 0 {
        Seq::empty()
    } else if segs.len() == 1 {
        segs[0]
    } else {
        join_slash(segs.drop_last()) + seq!['/'] + segs.last()
    }
}

/// The text of a component.
pub open spec fn part_text(c: PathPart) -> Seq<char> {
    match c {
        PathPart::Root => seq!['/'],
        PathPart::Cur => seq!['.'],
        PathPart::Parent => seq!['.', '.'],
        PathPart::Normal(s) => s,
    }
}

/// A path spelled from components.
pub open spec fn render(ps: Seq<PathPart>) -> Seq<char> {
    if ps.len() > 0 && ps[0] is Root {
        seq!['/'] + join_slash(ps.drop_first().map_values(|c: PathPart| part_text(c)))
    } else {
        join_slash(ps.map_values(|c: PathPart| part_text(c)))
    }
}

/// The final component of `p`, if it is a name.
pub open spec fn file_name(p: Seq<char>) -> Option<Seq<char>> {
    let cs = components(p);
    if cs.len() > 0 && cs.last() is Normal {
        Some(cs.last()->Normal_0)
    } else {
        None
    }
}

/// The index of the last `.` in `s`, if any.
pub open spec fn last_dot(s: Seq<char>) -> Option<int>
    decreases s.len(),
{
    if s.len() == 0 {
        None
    } else if s.last() == '.' {
        Some(s.len() - 1)
    } else {
        last_dot(s.drop_last())
    }
}

/// The stem of a file name: the name without its final extension; names
/// without a dot past the first character keep their whole text.
pub open spec fn name_stem(name: Seq<char>) -> Seq<char> {
    match last_dot(name) {
        Some(i) => if i == 0 {
            name
        } else {
            name.take(i)
        },
        None => name,
    }
}

/// The extension of a file name, if any.
pub open spec fn name_extension(name: Seq<char>) -> Option<Seq<char>> {
    match last_dot(name) {
        Some(i) => if i == 0 {
            None
        } else {
            Some(name.skip(i + 1))
        },
        None => None,
    }
}

/// The stem of `p`'s file name (`Path::file_stem`).
pub open spec fn file_stem(p: Seq<char>) -> Option<Seq<char>> {
    match file_name(p) {
        Some(n) => Some(name_stem(n)),
        None => None,
    }
}

/// The extension of `p`'s file name (`Path::extension`).
pub open spec fn extension(p: Seq<char>) -> Option<Seq<char>> {
    match file_name(p) {
        Some(n) => name_extension(n),
        None => None,
    }
}

/// `p` without its final component (`Path::parent`): none for the root or an
/// empty path.
pub open spec fn parent(p: Seq<char>) -> Option<Seq<char>> {
    let cs = components(p);
    if cs.len() == 0 || cs.last() is Root {
        None
    } else {
        Some(render(cs.drop_last()))
    }
}

/// The components of `p` after those of `base`, if `base`'s components are a
/// prefix of `p`'s (`Path::strip_prefix`).
pub open spec fn strip_prefix(p: Seq<char>, base: Seq<char>) -> Option<Seq<PathPart>> {
    let cp = components(p);
    let cb = components(base);
    if cb.len() <= cp.len() && cp.take(cb.len() as int) == cb {
        Some(cp.skip(cb.len() as int))
    } else {
        None
    }
}

/// `p` appended to `dir` (`Path::join`): an absolute `p` replaces `dir`.
pub open spec fn join(dir: Seq<char>, p: Seq<char>) -> Seq<char> {
    if is_absolute(p) || dir.len() == 0 {
        p
    } else if dir.last() == '/' {
        dir + p
    } else {
        dir + seq!['/'] + p
    }
}

/// Two paths with the same components are the same path.
pub open spec fn same_path(a: Seq<char>, b: Seq<char>) -> bool {
    components(a) == components(b)
}

fn split_pieces(v: &Vec<char>) -> (pieces: Vec<Vec<char>>)
    ensures
        pieces@.map_values(|w: Vec<char>| w@) == split_slash(v@),
{
    let mut pieces: Vec<Vec<char>> = Vec::new();
    let mut cur: Vec<char> = Vec::new();
    let n = v.len();
    let mut i: usize = 0;
    assert(v@.skip(0) =~= v@);
    while i < n
        invariant
            i <= n == v@.len(),
            pieces@.map_values(|w: Vec<char>| w@) + split_from(cur@, v@.skip(i as int))
                == split_slash(v@),
        decreases n - i,
    {
        let ghost rest = v@.skip(i as int);
        assert(rest.drop_first() =~= v@.skip(i + 1));
        let ghost before = pieces@.map_values(|w: Vec<char>| w@);
        if v[i] == '/' {
            let done = cur;
            cur = Vec::new();
            pieces.push(done);
            assert(pieces@.map_values(|w: Vec<char>| w@) =~= before.push(done@));
            assert(before + split_from(done@, rest) =~= before.push(done@) + split_from(
                Seq::empty(),
                v@.skip(i + 1),
            ));
        } else {
            cur.push(v[i]);
        }
        i += 1;
    }
    let ghost before = pieces@.map_values(|w: Vec<char>| w@);
    assert(v@.skip(n as int) =~= Seq::<char>::empty());
    pieces.push(cur);
    assert(pieces@.map_values(|w: Vec<char>| w@) =~= before + split_from(cur@, Seq::empty()));
    pieces
}

fn is_dot(p: &Vec<char>) -> (r: bool)
    ensures
        r == (p@ == seq!['.']),
{
    let r = p.len() == 1 && p[0] == '.';
    if r {
        assert(p@ =~= seq!['.']);
    }
    r
}

fn is_dot_dot(p: &Vec<char>) -> (r: bool)
    ensures
        r == (p@ == seq!['.', '.']),
{
    let r = p.len() == 2 && p[0] == '.' && p[1] == '.';
    if r {
        assert(p@ =~= seq!['.', '.']);
    }
    r
}

fn push_piece_parts(out: &mut Vec<Component>, pieces: &Vec<Vec<char>>, from: usize)
    requires
        from <= pieces@.len(),
    ensures
        part_views(final(out)@) == part_views(old(out)@) + piece_parts(
            pieces@.map_values(|w: Vec<char>| w@).skip(from as int),
        ),
{
    let ghost ps = pieces@.map_values(|w: Vec<char>| w@);
    let mut i = from;
    assert(ps.skip(from as int).take(0) =~= Seq::<Seq<char>>::empty());
    while i < pieces.len()
        invariant
            from <= i <= pieces@.len(),
            ps == pieces@.map_values(|w: Vec<char>| w@),
            part_views(out@) == part_views(old(out)@) + piece_parts(
                ps.skip(from as int).take(i - from),
            ),
        decreases pieces.len() - i,
    {
        let ghost pre = ps.skip(from as int).take(i - from);
        let ghost next = ps.skip(from as int).take(i + 1 - from);
        assert(next.drop_last() =~= pre);
        assert(next.last() == pieces@[i as int]@);
        let ghost before = part_views(out@);
        let p = &pieces[i];
        if p.len() == 0 || is_dot(p) {
        } else if is_dot_dot(p) {
            out.push(Component::ParentDir);
            assert(part_views(out@) =~= before.push(PathPart::Parent));
        } else {
            out.push(Component::Normal(string_of(p)));
            assert(part_views(out@) =~= before.push(PathPart::Normal(p@)));
        }
        i += 1;
    }
    assert(ps.skip(from as int).take(i - from) =~= ps.skip(from as int));
}

/// The components of `p`.
pub fn path_components(p: &str) -> (cs: Vec<Component>)
    ensures
        part_views(cs@) == components(p@),
{
    let v = chars_of(p);
    let pieces = split_pieces(&v);
    let ghost ps = pieces@.map_values(|w: Vec<char>| w@);
    proof {
        lemma_split_nonempty(Seq::empty(), v@);
    }
    let mut cs: Vec<Component> = Vec::new();
    if v.len() > 0 && v[0] == '/' {
        cs.push(Component::RootDir);
        push_piece_parts(&mut cs, &pieces, 0);
        assert(ps.skip(0) =~= ps);
    } else if is_dot(&pieces[0]) {
        cs.push(Component::CurDir);
        push_piece_parts(&mut cs, &pieces, 1);
        assert(ps.skip(1) =~= ps.drop_first());
    } else {
        push_piece_parts(&mut cs, &pieces, 0);
        assert(ps.skip(0) =~= ps);
    }
    cs
}

proof fn lemma_split_nonempty(cur: Seq<char>, rest: Seq<char>)
    ensures
        split_from(cur, rest).len() >= 1,
    decreases rest.len(),
{
    if rest.len() > 0 {
        if rest[0] == '/' {
            lemma_split_nonempty(Seq::empty(), rest.drop_first());
        } else {
            lemma_split_nonempty(cur.push(rest[0]), rest.drop_first());
        }
    }
}

/// The text of `c`.
pub fn component_text(c: &Component) -> (s: String)
    ensures
        s@ == part_text(c@),
{
    match c {
        Component::RootDir => {
            let mut s = String::new();
            push_char(&mut s, '/');
            s
        },
        Component::CurDir => {
            let mut s = String::new();
            push_char(&mut s, '.');
            s
        },
        Component::ParentDir => {
            let mut s = String::new();
            push_char(&mut s, '.');
            push_char(&mut s, '.');
            s
        },
        Component::Normal(n) => n.clone(),
    }
}

/// Appends `segs[from..]` joined with '/' to `out`.
pub fn push_joined(out: &mut String, segs: &Vec<String>, from: usize)
    requires
        from <= segs@.len(),
    ensures
        final(out)@ == old(out)@ + join_slash(string_views(segs@).skip(from as int)),
{
    let ghost sv = string_views(segs@).skip(from as int);
    let mut i = from;
    assert(sv.take(0) =~= Seq::<Seq<char>>::empty());
    while i < segs.len()
        invariant
            from <= i <= segs@.len(),
            sv == string_views(segs@).skip(from as int),
            out@ == old(out)@ + join_slash(sv.take(i - from)),
        decreases segs.len() - i,
    {
        let ghost pre = sv.take(i - from);
        assert(sv.take(i + 1 - from).drop_last() =~= pre);
        assert(sv.take(i + 1 - from).last() == segs@[i as int]@);
        if i > from {
            push_char(out, '/');
        }
        out.append(segs[i].as_str());
        assert(out@ =~= old(out)@ + join_slash(sv.take(i + 1 - from)));
        i += 1;
    }
    assert(sv.take(i - from) =~= sv);
}

/// The texts of `cs[from..]`.
pub fn component_texts(cs: &Vec<Component>, from: usize) -> (r: Vec<String>)
    requires
        from <= cs@.len(),
    ensures
        string_views(r@) == part_views(cs@).skip(from as int).map_values(|c: PathPart| part_text(c)),
{
    let mut r: Vec<String> = Vec::new();
    let mut i = from;
    while i < cs.len()
        invariant
            from <= i <= cs@.len(),
            string_views(r@) == part_views(cs@).skip(from as int).take(i - from).map_values(
                |c: PathPart| part_text(c),
            ),
        decreases cs.len() - i,
    {
        let t = component_text(&cs[i]);
        let ghost before = string_views(r@);
        r.push(t);
        assert(part_views(cs@).skip(from as int).take(i + 1 - from) =~= part_views(cs@).skip(
            from as int,
        ).take(i - from).push(cs@[i as int]@));
        assert(string_views(r@) =~= before.push(t@));
        assert(string_views(r@) =~= part_views(cs@).skip(from as int).take(i + 1 - from).map_values(
            |c: PathPart| part_text(c),
        ));
        i += 1;
    }
    assert(part_views(cs@).skip(from as int).take(i - from) =~= part_views(cs@).skip(from as int));
    r
}

/// `cs` spelled as a path.
pub fn render_components(cs: &Vec<Component>) -> (s: String)
    ensures
        s@ == render(part_views(cs@)),
{
    let mut s = String::new();
    if cs.len() > 0 && matches!(cs[0], Component::RootDir) {
        push_char(&mut s, '/');
        let texts = component_texts(cs, 1);
        push_joined(&mut s, &texts, 0);
        assert(string_views(texts@).skip(0) =~= string_views(texts@));
        assert(part_views(cs@).skip(1) =~= part_views(cs@).drop_first());
    } else {
        let texts = component_texts(cs, 0);
        push_joined(&mut s, &texts, 0);
        assert(string_views(texts@).skip(0) =~= string_views(texts@));
        assert(part_views(cs@).skip(0) =~= part_views(cs@));
    }
    s
}

/// The final component of `p`, if it is a name.
pub fn path_file_name(p: &str) -> (r: Option<String>)
    ensures
        opt_view(r) == file_name(p@),
{
    let cs = path_components(p);
    if cs.len() > 0 {
        assert(part_views(cs@).last() == cs@.last()@);
        match &cs[cs.len() - 1] {
            Component::Normal(n) => Some(n.clone()),
            _ => None,
        }
    } else {
        None
    }
}

fn last_dot_index(v: &Vec<char>) -> (r: Option<usize>)
    ensures
        match r {
            Some(i) => i < v@.len() && last_dot(v@) == Some(i as int),
            None => last_dot(v@) is None,
        },
{
    let mut k = v.len();
    assert(v@.take(k as int) =~= v@);
    while k > 0
        invariant
            k <= v@.len(),
            last_dot(v@) == last_dot(v@.take(k as int)),
        decreases k,
    {
        assert(v@.take(k as int).drop_last() =~= v@.take(k - 1));
        if v[k - 1] == '.' {
            return Some(k - 1);
        }
        k -= 1;
    }
    None
}

/// The stem of a file name.
pub fn stem_of_name(name: &String) -> (r: String)
    ensures
        r@ == name_stem(name@),
{
    let v = chars_of(name.as_str());
    match last_dot_index(&v) {
        Some(i) => {
            if i == 0 {
                name.clone()
            } else {
                let mut r = String::new();
                push_chars(&mut r, &v, 0, i);
                assert(v@.subrange(0, i as int) =~= v@.take(i as int));
                r
            }
        },
        None => name.clone(),
    }
}

/// The extension of a file name, if any.
pub fn extension_of_name(name: &String) -> (r: Option<String>)
    ensures
        opt_view(r) == name_extension(name@),
{
    let v = chars_of(name.as_str());
    let n = v.len();
    match last_dot_index(&v) {
        Some(i) => {
            if i == 0 {
                None
            } else {
                let mut r = String::new();
                push_chars(&mut r, &v, i + 1, n);
                assert(v@.subrange(i + 1, v@.len() as int) =~= v@.skip(i + 1));
                Some(r)
            }
        },
        None => None,
    }
}

/// `p` without its final component, if it has one.
pub fn path_parent(p: &str) -> (r: Option<String>)
    ensures
        opt_view(r) == parent(p@),
{
    let mut cs = path_components(p);
    if cs.len() == 0 {
        return None;
    }
    assert(part_views(cs@).last() == cs@.last()@);
    if matches!(cs[cs.len() - 1], Component::RootDir) {
        return None;
    }
    let ghost before = part_views(cs@);
    cs.pop();
    assert(part_views(cs@) =~= before.drop_last());
    Some(render_components(&cs))
}

/// Whether two components are the same.
pub fn same_component(a: &Component, b: &Component) -> (r: bool)
    ensures
        r == (a@ == b@),
{
    match (a, b) {
        (Component::RootDir, Component::RootDir) => true,
        (Component::CurDir, Component::CurDir) => true,
        (Component::ParentDir, Component::ParentDir) => true,
        (Component::Normal(x), Component::Normal(y)) => *x == *y,
        _ => false,
    }
}

/// Whether `a[from..from + b.len()]` equals `b`.
fn components_match(a: &Vec<Component>, b: &Vec<Component>) -> (r: bool)
    ensures
        r == (b@.len() <= a@.len() && part_views(a@).take(b@.len() as int) == part_views(b@)),
{
    if b.len() > a.len() {
        return false;
    }
    let mut i: usize = 0;
    while i < b.len()
        invariant
            b@.len() <= a@.len(),
            i <= b@.len(),
            forall|k: int| 0 <= k < i ==> part_views(a@)[k] == part_views(b@)[k],
        decreases b.len() - i,
    {
        if !same_component(&a[i], &b[i]) {
            assert(part_views(a@).take(b@.len() as int)[i as int] != part_views(b@)[i as int]);
            return false;
        }
        i += 1;
    }
    assert(part_views(a@).take(b@.len() as int) =~= part_views(b@));
    true
}

/// Whether `a` and `b` name the same path (componentwise).
pub fn same_path_exec(a: &str, b: &str) -> (r: bool)
    ensures
        r == same_path(a@, b@),
{
    let ca = path_components(a);
    let cb = path_components(b);
    let ghost pa = part_views(ca@);
    let ghost pb = part_views(cb@);
    assert(pa.len() == ca@.len() && pb.len() == cb@.len());
    if ca.len() != cb.len() {
        assert(pa != pb);
        return false;
    }
    assert(pa.take(pb.len() as int) =~= pa);
    components_match(&ca, &cb)
}

/// The components of `p` after those of `base`, if `base` is a prefix of `p`.
pub fn strip_prefix_exec(p: &str, base: &str) -> (r: Option<Vec<Component>>)
    ensures
        match r {
            Some(rest) => strip_prefix(p@, base@) == Some(part_views(rest@)),
            None => strip_prefix(p@, base@) is None,
        },
{
    let mut cp = path_components(p);
    let cb = path_components(base);
    if components_match(&cp, &cb) {
        let ghost before = part_views(cp@);
        let rest = cp.split_off(cb.len());
        assert(part_views(rest@) =~= before.skip(cb@.len() as int));
        Some(rest)
    } else {
        None
    }
}

/// The names among `cs`, in order.
pub fn normal_names_exec(cs: &Vec<Component>) -> (r: Vec<String>)
    ensures
        string_views(r@) == normal_names(part_views(cs@)),
{
    let mut r: Vec<String> = Vec::new();
    let mut i: usize = 0;
    while i < cs.len()
        invariant
            i <= cs@.len(),
            string_views(r@) == normal_names(part_views(cs@).take(i as int)),
        decreases cs.len() - i,
    {
        let ghost before = string_views(r@);
        assert(part_views(cs@).take(i + 1).drop_last() =~= part_views(cs@).take(i as int));
        assert(part_views(cs@).take(i + 1).last() == cs@[i as int]@);
        match &cs[i] {
            Component::Normal(n) => {
                r.push(n.clone());
                assert(string_views(r@) =~= before.push(n@));
            },
            _ => {},
        }
        i += 1;
    }
    assert(part_views(cs@).take(i as int) =~= part_views(cs@));
    r
}

/// `p` appended to `dir`; an absolute `p` replaces `dir`.
pub fn join_path(dir: &str, p: &str) -> (r: String)
    ensures
        r@ == join(dir@, p@),
{
    let pv = chars_of(p);
    let dv = chars_of(dir);
    if (pv.len() > 0 && pv[0] == '/') || dv.len() == 0 {
        return owned(p);
    }
    let mut r = owned(dir);
    if dv[dv.len() - 1] != '/' {
        push_char(&mut r, '/');
    }
    r.append(p);
    r
}

/// `s` holds no slash.
pub open spec fn no_slash(s: Seq<char>) -> bool {
    forall|i: int| 0 <= i < s.len() ==> s[i] != '/'
}

/// `n` can be a named component: non-empty, not `.` or `..`, no slash.
pub open spec fn valid_name(n: Seq<char>) -> bool {
    &&& n.len() > 0
    &&& n != seq!['.']
    &&& n != seq!['.', '.']
    &&& no_slash(n)
}

/// Every name in `names` can be a named component.
pub open spec fn valid_names(names: Seq<Seq<char>>) -> bool {
    forall|i: int| 0 <= i < names.len() ==> valid_name(#[trigger] names[i])
}

/// The named components with the given names.
pub open spec fn normal_parts(names: Seq<Seq<char>>) -> Seq<PathPart> {
    names.map_values(|n: Seq<char>| PathPart::Normal(n))
}

pub(crate) proof fn lemma_split_concat(cur: Seq<char>, x: Seq<char>, y: Seq<char>)
    ensures
        split_from(cur, x + seq!['/'] + y) == split_from(cur, x) + split_from(Seq::empty(), y),
    decreases x.len(),
{
    let s = x + seq!['/'] + y;
    if x.len() == 0 {
        assert(s[0] == '/');
        assert(s.drop_first() =~= y);
    } else {
        assert(s[0] == x[0]);
        assert(s.drop_first() =~= x.drop_first() + seq!['/'] + y);
        if x[0] == '/' {
            lemma_split_concat(Seq::empty(), x.drop_first(), y);
            assert(split_from(cur, s) =~= seq![cur] + (split_from(Seq::empty(), x.drop_first())
                + split_from(Seq::empty(), y)));
        } else {
            lemma_split_concat(cur.push(x[0]), x.drop_first(), y);
        }
    }
}

pub(crate) proof fn lemma_split_no_slash(cur: Seq<char>, x: Seq<char>)
    requires
        no_slash(x),
    ensures
        split_from(cur, x) == seq![cur + x],
    decreases x.len(),
{
    if x.len() == 0 {
        assert(cur + x =~= cur);
    } else {
        assert(x[0] != '/');
        assert(no_slash(x.drop_first()));
        lemma_split_no_slash(cur.push(x[0]), x.drop_first());
        assert(cur.push(x[0]) + x.drop_first() =~= cur + x);
    }
}

pub(crate) proof fn lemma_split_pieces_no_slash(cur: Seq<char>, x: Seq<char>)
    requires
        no_slash(cur),
    ensures
        forall|i: int|
            0 <= i < split_from(cur, x).len() ==> no_slash(#[trigger] split_from(cur, x)[i]),
    decreases x.len(),
{
    if x.len() > 0 {
        if x[0] == '/' {
            lemma_split_pieces_no_slash(Seq::empty(), x.drop_first());
            let tail = split_from(Seq::empty(), x.drop_first());
            assert(split_from(cur, x) == seq![cur] + tail);
            assert forall|i: int|
                0 <= i < split_from(cur, x).len() implies no_slash(
                #[trigger] split_from(cur, x)[i],
            ) by {
                if i == 0 {
                    assert(split_from(cur, x)[0] == cur);
                } else {
                    assert(split_from(cur, x)[i] == tail[i - 1]);
                }
            }
        } else {
            assert forall|i: int| 0 <= i < cur.push(x[0]).len() implies cur.push(x[0])[i] != '/' by {
                if i < cur.len() {
                    assert(cur.push(x[0])[i] == cur[i]);
                }
            }
            lemma_split_pieces_no_slash(cur.push(x[0]), x.drop_first());
            let sub = split_from(cur.push(x[0]), x.drop_first());
            assert(split_from(cur, x) == sub);
            assert forall|i: int|
                0 <= i < split_from(cur, x).len() implies no_slash(
                #[trigger] split_from(cur, x)[i],
            ) by {
                assert(no_slash(sub[i]));
            }
        }
    } else {
        assert(split_from(cur, x) == seq![cur]);
        assert(split_from(cur, x)[0] == cur);
    }
}

pub(crate) proof fn lemma_piece_parts_concat(a: Seq<Seq<char>>, b: Seq<Seq<char>>)
    ensures
        piece_parts(a + b) == piece_parts(a) + piece_parts(b),
    decreases b.len(),
{
    if b.len() == 0 {
        assert(a + b =~= a);
        assert(piece_parts(a) + piece_parts(b) =~= piece_parts(a));
    } else {
        assert((a + b).drop_last() =~= a + b.drop_last());
        assert((a + b).last() == b.last());
        lemma_piece_parts_concat(a, b.drop_last());
    }
}

pub(crate) proof fn lemma_piece_parts_of_names(names: Seq<Seq<char>>)
    requires
        valid_names(names),
    ensures
        piece_parts(names) == normal_parts(names),
    decreases names.len(),
{
    if names.len() > 0 {
        assert(valid_names(names.drop_last()));
        lemma_piece_parts_of_names(names.drop_last());
        assert(valid_name(names[names.len() - 1]));
        assert(normal_parts(names) =~= normal_parts(names.drop_last()).push(
            PathPart::Normal(names.last()),
        ));
    }
}

pub(crate) proof fn lemma_piece_parts_names_valid(pieces: Seq<Seq<char>>)
    requires
        forall|i: int| 0 <= i < pieces.len() ==> no_slash(#[trigger] pieces[i]),
    ensures
        forall|i: int|
            0 <= i < piece_parts(pieces).len() && (#[trigger] piece_parts(pieces)[i]) is Normal
                ==> valid_name(piece_parts(pieces)[i]->Normal_0),
    decreases pieces.len(),
{
    if pieces.len() > 0 {
        lemma_piece_parts_names_valid(pieces.drop_last());
        assert(no_slash(pieces[pieces.len() - 1]));
    }
}

/// Every named component of a path can be a named component.
pub proof fn lemma_component_names_valid(p: Seq<char>)
    ensures
        forall|i: int|
            0 <= i < components(p).len() && (#[trigger] components(p)[i]) is Normal
                ==> valid_name(components(p)[i]->Normal_0),
{
    let pieces = split_slash(p);
    lemma_split_pieces_no_slash(Seq::empty(), p);
    lemma_split_nonempty(Seq::empty(), p);
    if is_absolute(p) {
        lemma_piece_parts_names_valid(pieces);
        assert forall|i: int|
            0 <= i < components(p).len() && (#[trigger] components(p)[i]) is Normal
                implies valid_name(components(p)[i]->Normal_0) by {
            assert(components(p)[i] == piece_parts(pieces)[i - 1]);
        }
    } else if starts_at_cur(p) {
        let rest = pieces.drop_first();
        assert forall|i: int| 0 <= i < rest.len() implies no_slash(#[trigger] rest[i]) by {
            assert(rest[i] == pieces[i + 1]);
        }
        lemma_piece_parts_names_valid(rest);
        assert forall|i: int|
            0 <= i < components(p).len() && (#[trigger] components(p)[i]) is Normal
                implies valid_name(components(p)[i]->Normal_0) by {
            assert(components(p)[i] == piece_parts(rest)[i - 1]);
        }
    } else {
        lemma_piece_parts_names_valid(pieces);
    }
}

pub(crate) proof fn lemma_join_slash_start(names: Seq<Seq<char>>)
    requires
        names.len() > 0,
        names[0].len() > 0,
    ensures
        join_slash(names).len() > 0,
        join_slash(names)[0] == names[0][0],
    decreases names.len(),
{
    if names.len() > 1 {
        assert(names.drop_last()[0] == names[0]);
        lemma_join_slash_start(names.drop_last());
    }
}

/// Splitting names joined with '/' gives the names back.
pub proof fn lemma_split_join_slash(names: Seq<Seq<char>>)
    requires
        names.len() > 0,
        forall|i: int| 0 <= i < names.len() ==> no_slash(#[trigger] names[i]),
    ensures
        split_slash(join_slash(names)) == names,
    decreases names.len(),
{
    if names.len() == 1 {
        lemma_split_no_slash(Seq::empty(), names[0]);
        assert(Seq::<char>::empty() + names[0] =~= names[0]);
        assert(seq![names[0]] =~= names);
    } else {
        let init = names.drop_last();
        assert forall|i: int| 0 <= i < init.len() implies no_slash(#[trigger] init[i]) by {
            assert(init[i] == names[i]);
        }
        lemma_split_join_slash(init);
        lemma_split_concat(Seq::empty(), join_slash(init), names.last());
        assert(no_slash(names[names.len() - 1]));
        lemma_split_no_slash(Seq::empty(), names.last());
        assert(Seq::<char>::empty() + names.last() =~= names.last());
        assert(init + seq![names.last()] =~= names);
    }
}

/// Different lists of names are joined into different texts.
pub proof fn lemma_join_slash_injective(a: Seq<Seq<char>>, b: Seq<Seq<char>>)
    requires
        valid_names(a),
        valid_names(b),
        a != b,
    ensures
        join_slash(a) != join_slash(b),
{
    if a.len() > 0 && b.len() > 0 {
        assert forall|i: int| 0 <= i < a.len() implies no_slash(#[trigger] a[i]) by {
            assert(valid_name(a[i]));
        }
        assert forall|i: int| 0 <= i < b.len() implies no_slash(#[trigger] b[i]) by {
            assert(valid_name(b[i]));
        }
        lemma_split_join_slash(a);
        lemma_split_join_slash(b);
    } else if a.len() > 0 {
        assert(valid_name(a[0]));
        lemma_join_slash_start(a);
    } else if b.len() > 0 {
        assert(valid_name(b[0]));
        lemma_join_slash_start(b);
    } else {
        assert(a =~= b);
    }
}

proof fn lemma_piece_parts_empty_piece()
    ensures
        piece_parts(seq![Seq::<char>::empty()]) == Seq::<PathPart>::empty(),
{
    reveal_with_fuel(piece_parts, 2);
    assert(seq![Seq::<char>::empty()].drop_last() =~= Seq::<Seq<char>>::empty());
}

proof fn lemma_components_extend(x: Seq<char>, y: Seq<char>)
    requires
        x.len() > 0,
    ensures
        components(x + seq!['/'] + y) == components(x) + piece_parts(split_slash(y)),
{
    let s = x + seq!['/'] + y;
    let px = split_slash(x);
    let py = split_slash(y);
    lemma_split_concat(Seq::empty(), x, y);
    lemma_split_nonempty(Seq::empty(), x);
    assert(split_slash(s) == px + py);
    assert(s[0] == x[0]);
    assert((px + py)[0] == px[0]);
    lemma_piece_parts_concat(px, py);
    if is_absolute(x) {
        assert(components(s) =~= seq![PathPart::Root] + (piece_parts(px) + piece_parts(py)));
    } else if starts_at_cur(x) {
        assert((px + py).drop_first() =~= px.drop_first() + py);
        lemma_piece_parts_concat(px.drop_first(), py);
        assert(components(s) =~= seq![PathPart::Cur] + (piece_parts(px.drop_first()) + piece_parts(
            py,
        )));
    }
}

/// The components of `names` joined below `dir` are those of `dir`
/// followed by the names.
pub proof fn lemma_join_names_components(dir: Seq<char>, names: Seq<Seq<char>>)
    requires
        dir.len() > 0,
        valid_names(names),
    ensures
        components(join(dir, join_slash(names))) == components(dir) + normal_parts(names),
{
    let s = join_slash(names);
    assert forall|i: int| 0 <= i < names.len() implies no_slash(#[trigger] names[i]) by {
        assert(valid_name(names[i]));
    }
    if names.len() > 0 {
        assert(valid_name(names[0]));
        lemma_join_slash_start(names);
        lemma_split_join_slash(names);
    } else {
        assert(split_slash(s) == seq![Seq::<char>::empty()]);
    }
    lemma_piece_parts_of_names(names);
    assert(!is_absolute(s));
    let pp = piece_parts(split_slash(s));
    lemma_piece_parts_empty_piece();
    if names.len() == 0 {
        assert(pp =~= Seq::<PathPart>::empty());
    }
    assert(pp == normal_parts(names));
    if dir.last() == '/' {
        let d0 = dir.drop_last();
        assert(join(dir, s) == dir + s);
        if names.len() == 0 {
            assert(dir + s =~= dir);
            assert(components(dir) + normal_parts(names) =~= components(dir));
        } else if d0.len() == 0 {
            assert(dir + s =~= Seq::<char>::empty() + seq!['/'] + s);
            lemma_split_concat(Seq::empty(), Seq::empty(), s);
            lemma_split_concat(Seq::empty(), Seq::empty(), Seq::empty());
            assert(dir =~= Seq::<char>::empty() + seq!['/'] + Seq::<char>::empty());
            let e = Seq::<char>::empty();
            assert(split_from(e, e) == seq![e]);
            lemma_piece_parts_concat(seq![e], split_slash(s));
            lemma_piece_parts_concat(seq![e], seq![e]);
            assert(piece_parts(seq![e] + split_slash(s)) =~= pp);
            assert(piece_parts(seq![e] + seq![e]) =~= Seq::<PathPart>::empty());
        } else {
            assert(dir + s =~= d0 + seq!['/'] + s);
            assert(dir =~= d0 + seq!['/'] + Seq::<char>::empty());
            lemma_components_extend(d0, s);
            lemma_components_extend(d0, Seq::empty());
            let e = Seq::<char>::empty();
            assert(split_from(e, e) == seq![e]);
            assert(components(d0) + Seq::<PathPart>::empty() =~= components(d0));
        }
    } else {
        assert(join(dir, s) == dir + seq!['/'] + s);
        lemma_components_extend(dir, s);
    }
}

/// The names of components that are all named are those components' names.
pub proof fn lemma_normal_names_of_named(ps: Seq<PathPart>)
    requires
        forall|i: int| 0 <= i < ps.len() ==> (#[trigger] ps[i]) is Normal,
    ensures
        normal_parts(normal_names(ps)) == ps,
    decreases ps.len(),
{
    if ps.len() > 0 {
        lemma_normal_names_of_named(ps.drop_last());
        assert(ps[ps.len() - 1] is Normal);
        assert(normal_parts(normal_names(ps)) =~= normal_parts(normal_names(ps.drop_last())).push(
            ps.last(),
        ));
        assert(ps.drop_last().push(ps.last()) =~= ps);
    }
}

/// The names of valid named components are valid names.
pub proof fn lemma_normal_names_valid(ps: Seq<PathPart>)
    requires
        forall|i: int|
            0 <= i < ps.len() && (#[trigger] ps[i]) is Normal ==> valid_name(ps[i]->Normal_0),
    ensures
        valid_names(normal_names(ps)),
    decreases ps.len(),
{
    if ps.len() > 0 {
        lemma_normal_names_valid(ps.drop_last());
        assert(ps[ps.len() - 1] is Normal ==> valid_name(ps[ps.len() - 1]->Normal_0));
    }
}

} // verus!
