//! GitHub-style heading anchors: lowercase, drop punctuation, spaces to
//! hyphens, `-N` suffixes for duplicates, so that table-of-contents links
//! resolve when a bundle is viewed on GitHub.

use vstd::prelude::*;
use vstd::string::*;

use crate::text::{
    char_is_alphanumeric, chars_of, decimal, is_alphanumeric, lemma_decimal_injective,
    lemma_decimal_nonempty, lowercase, push_char, push_decimal, str_to_lowercase,
};

verus! {

/// What one lowercased character contributes to an anchor.
pub open spec fn anchor_char(c: char) -> Option<char> {
    if c == ' ' {
        Some('-')
    } else if c == '-' || c == '_' {
        Some(c)
    } else if is_alphanumeric(c) {
        Some(c)
    } else {
        None
    }
}

/// The anchor characters of an already lowercased heading.
pub open spec fn anchor_filter(s: Seq<char>) -> Seq<char>
    decreases s.len(),
{
    if s.len() == 0 {
        Seq::empty()
    } else {
        let rest = anchor_filter(s.drop_last());
        match anchor_char(s.last()) {
            Some(c) => rest.push(c),
            None => rest,
        }
    }
}

/// Whether a lowercased character survives into an anchor: a space, a
/// hyphen, an underscore, or a letter or digit.
pub open spec fn kept_in_anchor(c: char) -> bool {
    c == ' ' || c == '-' || c == '_' || is_alphanumeric(c)
}

/// Law: an anchor is made character by character: every kept character of
/// the lowercased heading appears, in order, a space as a hyphen and any
/// other character as itself; nothing is merged, so "foo - bar" gives
/// "foo---bar".
pub proof fn lemma_anchor_filter_maps_each_char(s: Seq<char>)
    ensures
        anchor_filter(s) == s.filter(|c: char| kept_in_anchor(c)).map_values(
            |c: char|
                if c == ' ' {
                    '-'
                } else {
                    c
                },
        ),
    decreases s.len(),
{
    if s.len() > 0 {
        lemma_anchor_filter_maps_each_char(s.drop_last());
        let kept = |c: char| kept_in_anchor(c);
        let dash = |c: char|
            if c == ' ' {
                '-'
            } else {
                c
            };
        s.drop_last().lemma_filter_push(s.last(), kept);
        assert(s =~= s.drop_last().push(s.last()));
        if kept(s.last()) {
            assert(s.drop_last().filter(kept).push(s.last()).map_values(dash) =~= s.drop_last().filter(
                kept,
            ).map_values(dash).push(dash(s.last())));
        }
    } else {
        assert(s.filter(|c: char| kept_in_anchor(c)) =~= Seq::<char>::empty());
    }
}

/// The anchor of a heading before duplicate numbering.
pub open spec fn slug_base(heading: Seq<char>) -> Seq<char> {
    anchor_filter(lowercase(heading))
}

/// The anchor handed out for a base that was seen `k` times before.
pub open spec fn slug_text(base: Seq<char>, k: nat) -> Seq<char> {
    if k == 0 {
        base
    } else {
        base + seq!['-'] + decimal(k)
    }
}

/// The counter recorded for `key` in `seen` (later entries win), or zero.
pub open spec fn count_in(seen: Seq<(String, usize)>, key: Seq<char>) -> nat
    decreases seen.len(),
{
    if seen.len() == 0 {
        0
    } else if seen.last().0@ == key {
        seen.last().1 as nat
    } else {
        count_in(seen.drop_last(), key)
    }
}

/// The keys recorded in `seen`.
pub open spec fn keys_of(seen: Seq<(String, usize)>) -> Seq<Seq<char>> {
    seen.map_values(|e: (String, usize)| e.0@)
}

/// For a key, the next suffix number its base will try is past every
/// suffix already taken: `o-1` ... `o-k` are all taken when `o`'s counter is `k`.
pub open spec fn suffixes_taken(occ: Map<Seq<char>, nat>, o: Seq<char>, lo: nat, hi: nat) -> bool {
    forall|j: nat| lo < j <= hi ==> occ.dom().contains(#[trigger] slug_text(o, j))
}

/// The counters of a slugger are consistent: the slugs handed out are
/// finitely many, and every counter only skipped taken slugs.
pub open spec fn consistent(occ: Map<Seq<char>, nat>) -> bool {
    &&& occ.dom().finite()
    &&& forall|o: Seq<char>| #[trigger] occ.dom().contains(o) ==> suffixes_taken(occ, o, 0, occ[o])
}

/// `c` is where slugging base `o` stops: the first number past `o`'s
/// counter whose suffixed slug is free.
pub open spec fn is_stop(occ: Map<Seq<char>, nat>, o: Seq<char>, c: nat) -> bool {
    &&& c > occ[o]
    &&& !occ.dom().contains(slug_text(o, c))
    &&& suffixes_taken(occ, o, occ[o], (c - 1) as nat)
}

/// One step of a GitHub-style slugger, whose state maps every slug handed
/// out so far to the last suffix number tried for it as a base: the slug for
/// `heading` and the state after it. A free base is handed out as it is;
/// a taken one gets the first free `-N` past its counter, and its counter
/// moves there.
pub open spec fn slug_step(occ: Map<Seq<char>, nat>, heading: Seq<char>) -> (
    Seq<char>,
    Map<Seq<char>, nat>,
) {
    let o = slug_base(heading);
    if !occ.dom().contains(o) {
        (o, occ.insert(o, 0))
    } else {
        let c = choose|c: nat| is_stop(occ, o, c);
        (slug_text(o, c), occ.insert(o, c).insert(slug_text(o, c), 0))
    }
}

/// Hands out anchors for headings in document order.
pub struct Slugger {
    seen: Vec<(String, usize)>,
}

impl View for Slugger {
    /// Every slug handed out so far, with the last suffix number tried for
    /// it as a base.
    type V = Map<Seq<char>, nat>;

    closed spec fn view(&self) -> Map<Seq<char>, nat> {
        Map::new(|b: Seq<char>| keys_of(self.seen@).contains(b), |b: Seq<char>| count_in(self.seen@, b))
    }
}

/// The state of a fresh `Slugger`: nothing handed out.
pub open spec fn no_counts() -> Map<Seq<char>, nat> {
    Map::empty()
}

/// The slugs `o`, `o-1`, ..., `o-k`.
pub open spec fn suffix_set(o: Seq<char>, k: nat) -> Set<Seq<char>> {
    Set::new(|s: Seq<char>| exists|j: nat| j <= k && s == slug_text(o, j))
}

proof fn lemma_suffix_set(o: Seq<char>, k: nat)
    ensures
        suffix_set(o, k).finite(),
        suffix_set(o, k).len() == k + 1,
    decreases k,
{
    if k == 0 {
        assert(suffix_set(o, 0) =~= set![o]) by {
            assert forall|s: Seq<char>| suffix_set(o, 0).contains(s) implies s == o by {
                let j = choose|j: nat| j <= 0 && s == slug_text(o, j);
            }
            assert(suffix_set(o, 0).contains(o)) by {
                assert(o == slug_text(o, 0));
            }
        }
    } else {
        let prev = suffix_set(o, (k - 1) as nat);
        lemma_suffix_set(o, (k - 1) as nat);
        let x = slug_text(o, k);
        assert(suffix_set(o, k) =~= prev.insert(x)) by {
            assert forall|s: Seq<char>| suffix_set(o, k).contains(s) implies prev.insert(x).contains(s) by {
                let j = choose|j: nat| j <= k && s == slug_text(o, j);
                if j < k {
                    assert(prev.contains(s));
                }
            }
            assert forall|s: Seq<char>| prev.insert(x).contains(s) implies suffix_set(o, k).contains(s) by {
                if s != x {
                    let j = choose|j: nat| j <= k - 1 && s == slug_text(o, j);
                    assert(j <= k && s == slug_text(o, j));
                }
            }
        }
        assert(!prev.contains(x)) by {
            if prev.contains(x) {
                let j = choose|j: nat| j <= k - 1 && x == slug_text(o, j);
                lemma_repeated_base_gets_fresh_anchor(o, j, k);
            }
        }
    }
}

proof fn lemma_stop_unique(occ: Map<Seq<char>, nat>, o: Seq<char>, a: nat, b: nat)
    requires
        is_stop(occ, o, a),
        is_stop(occ, o, b),
    ensures
        a == b,
{
    if a < b {
        assert(occ.dom().contains(slug_text(o, a)));
    } else if b < a {
        assert(occ.dom().contains(slug_text(o, b)));
    }
}

proof fn lemma_least_stop(occ: Map<Seq<char>, nat>, o: Seq<char>, j: nat)
    requires
        j > occ[o],
        !occ.dom().contains(slug_text(o, j)),
    ensures
        exists|c: nat| c <= j && is_stop(occ, o, c),
    decreases j,
{
    if suffixes_taken(occ, o, occ[o], (j - 1) as nat) {
        assert(is_stop(occ, o, j));
    } else {
        let i = choose|i: nat| occ[o] < i <= j - 1 && !occ.dom().contains(#[trigger] slug_text(o, i));
        lemma_least_stop(occ, o, i);
        let c = choose|c: nat| c <= i && is_stop(occ, o, c);
        assert(c <= j && is_stop(occ, o, c));
    }
}

/// Where a consistent state holds a base, slugging it stops, at a number
/// no larger than the count of slugs handed out.
proof fn lemma_stop_exists(occ: Map<Seq<char>, nat>, o: Seq<char>)
    requires
        consistent(occ),
        occ.dom().contains(o),
    ensures
        exists|c: nat| c <= occ.dom().len() && is_stop(occ, o, c),
{
    let n = occ.dom().len();
    lemma_suffix_set(o, n);
    if suffix_set(o, n).subset_of(occ.dom()) {
        vstd::set_lib::lemma_len_subset(suffix_set(o, n), occ.dom());
    }
    let s = choose|s: Seq<char>| suffix_set(o, n).contains(s) && !occ.dom().contains(s);
    let j = choose|j: nat| j <= n && s == slug_text(o, j);
    assert(j != 0);
    assert(suffixes_taken(occ, o, 0, occ[o]));
    if j <= occ[o] {
        assert(occ.dom().contains(slug_text(o, j)));
    }
    lemma_least_stop(occ, o, j);
}

/// A step from a consistent state hands out a slug not handed out before,
/// adds just that slug, and stays consistent.
pub proof fn lemma_slug_step(occ: Map<Seq<char>, nat>, heading: Seq<char>)
    requires
        consistent(occ),
    ensures
        !occ.dom().contains(slug_step(occ, heading).0),
        slug_step(occ, heading).1.dom() == occ.dom().insert(slug_step(occ, heading).0),
        consistent(slug_step(occ, heading).1),
{
    let o = slug_base(heading);
    let (slug, next) = slug_step(occ, heading);
    if !occ.dom().contains(o) {
        assert(next.dom() =~= occ.dom().insert(o));
        assert forall|k: Seq<char>| #[trigger] next.dom().contains(k) implies suffixes_taken(
            next,
            k,
            0,
            next[k],
        ) by {
            if k != o {
                assert(suffixes_taken(occ, k, 0, occ[k]));
            }
        }
    } else {
        lemma_stop_exists(occ, o);
        let c = choose|c: nat| is_stop(occ, o, c);
        assert(slug == slug_text(o, c));
        lemma_repeated_base_gets_fresh_anchor(o, 0, c);
        assert(next.dom() =~= occ.dom().insert(slug));
        assert forall|k: Seq<char>| #[trigger] next.dom().contains(k) implies suffixes_taken(
            next,
            k,
            0,
            next[k],
        ) by {
            if k == o {
                assert(suffixes_taken(occ, o, 0, occ[o]));
                assert forall|j: nat| 0 < j <= next[k] implies next.dom().contains(
                    #[trigger] slug_text(k, j),
                ) by {
                    if j <= occ[o] {
                    } else if j < c {
                    }
                }
            } else if k != slug {
                assert(suffixes_taken(occ, k, 0, occ[k]));
            }
        }
    }
}

/// The slugger state after slugging the first `n` of `headings`, from `occ`.
pub open spec fn slug_run(occ: Map<Seq<char>, nat>, headings: Seq<Seq<char>>, n: nat) -> Map<
    Seq<char>,
    nat,
>
    decreases n,
{
    if n == 0 {
        occ
    } else {
        slug_step(slug_run(occ, headings, (n - 1) as nat), headings[n - 1]).1
    }
}

/// The anchor handed out for heading `i` of `headings`, from `occ`.
pub open spec fn run_slug(occ: Map<Seq<char>, nat>, headings: Seq<Seq<char>>, i: nat) -> Seq<char> {
    slug_step(slug_run(occ, headings, i), headings[i as int]).0
}

proof fn lemma_slug_run_grow(occ: Map<Seq<char>, nat>, headings: Seq<Seq<char>>, n: nat)
    requires
        consistent(occ),
        n <= headings.len(),
    ensures
        consistent(slug_run(occ, headings, n)),
        forall|i: nat|
            i < n ==> slug_run(occ, headings, n).dom().contains(#[trigger] run_slug(occ, headings, i)),
    decreases n,
{
    if n > 0 {
        let m = (n - 1) as nat;
        lemma_slug_run_grow(occ, headings, m);
        lemma_slug_step(slug_run(occ, headings, m), headings[m as int]);
    }
}

/// Law: a slugger fed headings in document order, starting fresh, never
/// hands out the same anchor twice, whatever the headings are.
pub proof fn lemma_slug_run_distinct(headings: Seq<Seq<char>>, i: nat, j: nat)
    requires
        i < j < headings.len(),
    ensures
        run_slug(no_counts(), headings, i) != run_slug(no_counts(), headings, j),
{
    assert(no_counts().dom() =~= Set::<Seq<char>>::empty());
    lemma_slug_run_grow(no_counts(), headings, j);
    lemma_slug_step(slug_run(no_counts(), headings, j), headings[j as int]);
    assert(slug_run(no_counts(), headings, j).dom().contains(run_slug(no_counts(), headings, i)));
}

fn lookup(seen: &Vec<(String, usize)>, key: &String) -> (r: Option<usize>)
    ensures
        match r {
            Some(v) => keys_of(seen@).contains(key@) && v == count_in(seen@, key@),
            None => !keys_of(seen@).contains(key@),
        },
{
    let mut k: usize = seen.len();
    while k > 0 && seen[k - 1].0 != *key
        invariant
            k <= seen@.len(),
            forall|j: int| k <= j < seen@.len() ==> seen@[j].0@ != key@,
        decreases k,
    {
        k -= 1;
    }
    proof {
        lemma_count_in_skip_tail(seen@, k as int, key@);
    }
    if k == 0 {
        assert(!keys_of(seen@).contains(key@)) by {
            if keys_of(seen@).contains(key@) {
                let j = choose|j: int| 0 <= j < keys_of(seen@).len() && keys_of(seen@)[j] == key@;
                assert(seen@[j].0@ == key@);
            }
        }
        None
    } else {
        assert(seen@.take(k as int).last() == seen@[k - 1]);
        assert(keys_of(seen@)[k - 1] == key@);
        Some(seen[k - 1].1)
    }
}

proof fn lemma_count_in_skip_tail(seen: Seq<(String, usize)>, k: int, base: Seq<char>)
    requires
        0 <= k <= seen.len(),
        forall|j: int| k <= j < seen.len() ==> seen[j].0@ != base,
    ensures
        count_in(seen, base) == count_in(seen.take(k), base),
    decreases seen.len() - k,
{
    if k < seen.len() {
        assert(seen.drop_last().take(k) =~= seen.take(k));
        lemma_count_in_skip_tail(seen.drop_last(), k, base);
    } else {
        assert(seen.take(k) =~= seen);
    }
}

proof fn lemma_view_empty(seen: Seq<(String, usize)>)
    requires
        seen.len() == 0,
    ensures
        Map::new(|b: Seq<char>| keys_of(seen).contains(b), |b: Seq<char>| count_in(seen, b))
            =~= no_counts(),
        consistent(no_counts()),
{
    assert(keys_of(seen) =~= Seq::<Seq<char>>::empty());
    assert(no_counts().dom() =~= Set::<Seq<char>>::empty());
}

proof fn lemma_view_push(seen: Seq<(String, usize)>, e: (String, usize))
    ensures
        Map::new(
            |b: Seq<char>| keys_of(seen.push(e)).contains(b),
            |b: Seq<char>| count_in(seen.push(e), b),
        ) =~= Map::new(
            |b: Seq<char>| keys_of(seen).contains(b),
            |b: Seq<char>| count_in(seen, b),
        ).insert(e.0@, e.1 as nat),
{
    let ks = keys_of(seen.push(e));
    assert(ks =~= keys_of(seen).push(e.0@));
    assert(seen.push(e).drop_last() =~= seen);
    assert forall|b: Seq<char>| ks.contains(b) <==> (keys_of(seen).contains(b) || b == e.0@) by {
        if ks.contains(b) && b != e.0@ {
            let j = choose|j: int| 0 <= j < ks.len() && ks[j] == b;
            assert(keys_of(seen)[j] == b);
        }
        if keys_of(seen).contains(b) {
            let j = choose|j: int| 0 <= j < keys_of(seen).len() && keys_of(seen)[j] == b;
            assert(ks[j] == b);
        }
        if b == e.0@ {
            assert(ks[seen.len() as int] == b);
        }
    }
}

fn slug_with_suffix(base: &String, n: usize) -> (s: String)
    ensures
        s@ == slug_text(base@, n as nat),
{
    let mut slug = base.clone();
    if n > 0 {
        push_char(&mut slug, '-');
        push_decimal(&mut slug, n as u64);
        assert(slug@ =~= base@ + seq!['-'] + decimal(n as nat));
    }
    slug
}

fn base_anchor(heading: &str) -> (base: String)
    ensures
        base@ == slug_base(heading@),
{
    let lowered = str_to_lowercase(heading);
    let v = chars_of(lowered.as_str());
    let mut base = String::new();
    let mut i: usize = 0;
    while i < v.len()
        invariant
            i <= v@.len(),
            v@ == lowercase(heading@),
            base@ == anchor_filter(v@.take(i as int)),
        decreases v.len() - i,
    {
        let c = v[i];
        assert(v@.take(i + 1).drop_last() =~= v@.take(i as int));
        if c == ' ' {
            push_char(&mut base, '-');
        } else if c == '-' || c == '_' {
            push_char(&mut base, c);
        } else if char_is_alphanumeric(c) {
            push_char(&mut base, c);
        }
        i += 1;
    }
    assert(v@.take(v@.len() as int) =~= v@);
    base
}

impl Slugger {
    #[verifier::type_invariant]
    spec fn well_kept(self) -> bool {
        consistent(self@)
    }

    proof fn lemma_dom_finite(self)
        ensures
            self@.dom() == keys_of(self.seen@).to_set(),
            self@.dom().finite(),
    {
        assert(self@.dom() =~= keys_of(self.seen@).to_set());
        vstd::seq_lib::seq_to_set_is_finite(keys_of(self.seen@));
    }

    /// A slugger that has handed out no slug yet.
    pub fn new() -> (s: Self)
        ensures
            s@ == no_counts(),
    {
        let v: Vec<(String, usize)> = Vec::new();
        proof {
            lemma_view_empty(v@);
        }
        let s = Slugger { seen: v };
        s
    }

    /// Anchor for a heading, unique across all headings fed to this Slugger
    /// in document order, as GitHub numbers them: the base anchor if it is
    /// free, else the first free `base-N` past the last number tried for
    /// that base.
    pub fn slug(&mut self, heading: &str) -> (slug: String)
        requires
            old(self)@.dom().len() < usize::MAX,
        ensures
            (slug@, final(self)@) == slug_step(old(self)@, heading@),
            !old(self)@.dom().contains(slug@),
            final(self)@.dom() == old(self)@.dom().insert(slug@),
            final(self)@.dom().finite(),
            final(self)@.dom().len() == old(self)@.dom().len() + 1,
    {
        proof {
            use_type_invariant(&*self);
            lemma_slug_step(self@, heading@);
        }
        let ghost occ = self@;
        let base = base_anchor(heading);
        let mut seen: Vec<(String, usize)> = Vec::new();
        proof {
            lemma_view_empty(seen@);
        }
        std::mem::swap(&mut seen, &mut self.seen);
        let ghost old_seen = seen@;
        assert(occ == Map::new(
            |b: Seq<char>| keys_of(old_seen).contains(b),
            |b: Seq<char>| count_in(old_seen, b),
        ));
        match lookup(&seen, &base) {
            None => {
                let slug = base.clone();
                proof {
                    lemma_view_push(old_seen, (base, 0usize));
                }
                seen.push((base, 0));
                self.seen = seen;
                slug
            },
            Some(start) => {
                let ghost o = base@;
                proof {
                    lemma_stop_exists(occ, o);
                }
                let ghost stop = choose|c: nat| c <= occ.dom().len() && is_stop(occ, o, c);
                assert(occ.dom() == keys_of(old_seen).to_set());
                let mut c: usize = start;
                let mut cand = slug_with_suffix(&base, c);
                assert(cand@ == slug_text(o, occ[o]));
                assert(occ.dom().contains(cand@)) by {
                    if occ[o] > 0 {
                        assert(suffixes_taken(occ, o, 0, occ[o]));
                    }
                }
                while lookup(&seen, &cand).is_some()
                    invariant
                        seen@ == old_seen,
                        base@ == o,
                        occ.dom().contains(o),
                        occ[o] <= c <= stop,
                        stop <= occ.dom().len() < usize::MAX,
                        is_stop(occ, o, stop),
                        cand@ == slug_text(o, c as nat),
                        c == occ[o] ==> occ.dom().contains(cand@),
                        forall|j: nat| occ[o] < j < c ==> occ.dom().contains(#[trigger] slug_text(o, j)),
                        occ == Map::new(
                            |b: Seq<char>| keys_of(old_seen).contains(b),
                            |b: Seq<char>| count_in(old_seen, b),
                        ),
                    decreases stop - c,
                {
                    assert(occ.dom().contains(cand@));
                    assert(c < stop);
                    c += 1;
                    cand = slug_with_suffix(&base, c);
                }
                assert(!occ.dom().contains(cand@));
                assert(is_stop(occ, o, c as nat));
                proof {
                    lemma_stop_unique(occ, o, c as nat, choose|x: nat| is_stop(occ, o, x));
                }
                let slug = cand.clone();
                proof {
                    lemma_view_push(old_seen, (base, c));
                    lemma_view_push(old_seen.push((base, c)), (cand, 0usize));
                }
                seen.push((base, c));
                seen.push((cand, 0));
                self.seen = seen;
                slug
            },
        }
    }
}

impl Default for Slugger {
    fn default() -> (s: Self)
        ensures
            s@ == no_counts(),
    {
        Slugger::new()
    }
}

/// Law: different suffix numbers on one base anchor give different
/// anchors; `base`, `base-1`, `base-2`, ... are pairwise distinct.
pub proof fn lemma_repeated_base_gets_fresh_anchor(base: Seq<char>, k: nat, m: nat)
    requires
        k != m,
    ensures
        slug_text(base, k) != slug_text(base, m),
{
    if k != 0 && m != 0 {
        let a = base + seq!['-'] + decimal(k);
        let c = base + seq!['-'] + decimal(m);
        if a == c {
            assert(a.skip(base.len() + 1int) =~= decimal(k));
            assert(c.skip(base.len() + 1int) =~= decimal(m));
            lemma_decimal_injective(k, m);
        }
    } else {
        lemma_decimal_nonempty(k);
        lemma_decimal_nonempty(m);
        if k == 0 {
            assert(slug_text(base, m).len() > base.len());
        } else {
            assert(slug_text(base, k).len() > base.len());
        }
    }
}

} // verus!
