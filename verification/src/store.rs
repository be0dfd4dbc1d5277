//! Global, cross-window data: App Settings and the Recents list.

use vstd::prelude::*;
use vstd::string::*;

use crate::project::ProjectSettings;
use crate::state::Limits;
use crate::text::{chars_of, owned, push_char, push_chars};

verus! {

broadcast use vstd::string::group_string_axioms;

/// A Recents entry as shown: a path that starts with the home directory
/// `home` has that start replaced by `~`.
pub open spec fn home_abbreviated(path: Seq<char>, home: Option<Seq<char>>) -> Seq<char> {
    match home {
        Some(h) => if h.len() <= path.len() && path.take(h.len() as int) == h {
            seq!['~'] + path.skip(h.len() as int)
        } else {
            path
        },
        None => path,
    }
}

/// Home-relative display for a Recents entry (`~/p/foo.bmd`), given the
/// home directory, if one is known.
pub fn abbreviate_home(path: &str, home: Option<&str>) -> (r: String)
    ensures
        r@ == home_abbreviated(
            path@,
            match home {
                Some(h) => Some(h@),
                None => None,
            },
        ),
{
    let h = match home {
        Some(h) => h,
        None => {
            return owned(path);
        },
    };
    let p = chars_of(path);
    let hv = chars_of(h);
    if hv.len() > p.len() {
        return owned(path);
    }
    let mut i: usize = 0;
    while i < hv.len() && hv[i] == p[i]
        invariant
            i <= hv@.len() <= p@.len(),
            forall|k: int| 0 <= k < i ==> hv@[k] == p@[k],
        decreases hv.len() - i,
    {
        i += 1;
    }
    if i < hv.len() {
        assert(p@.take(hv@.len() as int)[i as int] != hv@[i as int]);
        return owned(path);
    }
    assert(p@.take(hv@.len() as int) =~= hv@);
    let mut out = String::new();
    push_char(&mut out, '~');
    push_chars(&mut out, &p, hv.len(), p.len());
    assert(out@ =~= seq!['~'] + p@.skip(hv@.len() as int));
    out
}

/// How many recently used project files are remembered.
pub const MAX_RECENTS: usize = 12;

/// The window theme preference.
#[derive(Clone, Copy, Debug, PartialEq, Eq, Structural)]
pub enum Theme {
    System,
    Light,
    Dark,
}

impl Default for Theme {
    fn default() -> (t: Self)
        ensures
            t == Theme::System,
    {
        Theme::System
    }
}

/// Where the menu is rendered.
#[derive(Clone, Copy, Debug, PartialEq, Eq, Structural)]
pub enum MenuRendering {
    /// Native menu bar only.
    Native,
    /// Native menu bar plus an in-window menubar.
    Both,
}

impl Default for MenuRendering {
    fn default() -> (m: Self)
        ensures
            m == MenuRendering::Native,
    {
        MenuRendering::Native
    }
}

/// Application-wide settings.
#[derive(Clone, Debug, PartialEq, Eq)]
pub struct AppSettings {
    pub theme: Theme,
    pub max_file_bytes: u64,
    pub max_total_bytes: u64,
    pub menu_rendering: MenuRendering,
    pub default_project_settings: ProjectSettings,
}

impl Default for AppSettings {
    fn default() -> (s: Self)
        ensures
            s.theme == Theme::System,
            s.max_file_bytes == 200_000_000,
            s.max_total_bytes == 250_000_000,
            s.menu_rendering == MenuRendering::Native,
            s.default_project_settings.is_default(),
    {
        let limits = Limits::default();
        AppSettings {
            theme: Theme::default(),
            max_file_bytes: limits.max_file_bytes,
            max_total_bytes: limits.max_total_bytes,
            menu_rendering: MenuRendering::default(),
            default_project_settings: ProjectSettings::default(),
        }
    }
}

impl AppSettings {
    /// The size limits these settings impose.
    pub fn limits(&self) -> (l: Limits)
        ensures
            l.max_file_bytes == self.max_file_bytes,
            l.max_total_bytes == self.max_total_bytes,
    {
        Limits { max_file_bytes: self.max_file_bytes, max_total_bytes: self.max_total_bytes }
    }
}

/// Paths other than `path`.
pub open spec fn other_than(path: Seq<char>) -> spec_fn(Seq<char>) -> bool {
    |p: Seq<char>| p != path
}

/// The recents list after `path` was used: moved (or inserted) to the
/// front, capped at `MAX_RECENTS`.
pub open spec fn touched(recents: Seq<Seq<char>>, path: Seq<char>) -> Seq<Seq<char>> {
    let moved = seq![path] + recents.filter(other_than(path));
    if moved.len() > MAX_RECENTS {
        moved.take(MAX_RECENTS as int)
    } else {
        moved
    }
}

/// Whether no path occurs twice in `s`.
pub open spec fn no_duplicates(s: Seq<Seq<char>>) -> bool {
    forall|i: int, j: int| 0 <= i < j < s.len() ==> s[i] != s[j]
}

proof fn lemma_filter_keeps_all(s: Seq<Seq<char>>, pred: spec_fn(Seq<char>) -> bool)
    requires
        forall|i: int| 0 <= i < s.len() ==> pred(#[trigger] s[i]),
    ensures
        s.filter(pred) == s,
    decreases s.len(),
{
    reveal(Seq::filter);
    if s.len() > 0 {
        lemma_filter_keeps_all(s.drop_last(), pred);
        assert(s.drop_last().push(s.last()) =~= s);
    }
}

proof fn lemma_filter_keeps_distinct(s: Seq<Seq<char>>, pred: spec_fn(Seq<char>) -> bool)
    requires
        no_duplicates(s),
    ensures
        no_duplicates(s.filter(pred)),
    decreases s.len(),
{
    reveal(Seq::filter);
    if s.len() > 0 {
        let rest = s.drop_last();
        lemma_filter_keeps_distinct(rest, pred);
        let sub = rest.filter(pred);
        if pred(s.last()) {
            if sub.contains(s.last()) {
                rest.lemma_filter_contains_rev(pred, s.last());
                let k = choose|k: int| 0 <= k < rest.len() && rest[k] == s.last();
                assert(s[k] == s[s.len() - 1]);
            }
            let out = sub.push(s.last());
            assert forall|i: int, j: int| 0 <= i < j < out.len() implies out[i] != out[j] by {
                if j == out.len() - 1 {
                    assert(sub[i] == out[i]);
                    assert(sub.contains(out[i]));
                }
            }
        }
    }
}

/// After a path is used it heads the Recents list, the list holds at most
/// `MAX_RECENTS` paths, and a list without repeats stays without repeats.
pub proof fn lemma_touched_heads_list(recents: Seq<Seq<char>>, path: Seq<char>)
    ensures
        touched(recents, path).len() >= 1,
        touched(recents, path)[0] == path,
        touched(recents, path).len() <= MAX_RECENTS,
        no_duplicates(recents) ==> no_duplicates(touched(recents, path)),
{
    let pred = other_than(path);
    let f = recents.filter(pred);
    let moved = seq![path] + f;
    let t = touched(recents, path);
    assert(t[0] == moved[0]);
    if no_duplicates(recents) {
        lemma_filter_keeps_distinct(recents, pred);
        assert forall|i: int, j: int| 0 <= i < j < t.len() implies t[i] != t[j] by {
            assert(t[i] == moved[i] && t[j] == moved[j]);
            recents.lemma_filter_pred(pred, j - 1);
            if i > 0 {
                assert(moved[i] == f[i - 1]);
            }
        }
    }
}

/// Using the same path twice in a row leaves the Recents list as using it once.
pub proof fn lemma_touch_twice_is_touch_once(recents: Seq<Seq<char>>, path: Seq<char>)
    ensures
        touched(touched(recents, path), path) == touched(recents, path),
{
    let pred = other_than(path);
    let f = recents.filter(pred);
    let t = touched(recents, path);
    let k: int = if f.len() + 1 > MAX_RECENTS {
        MAX_RECENTS - 1
    } else {
        f.len() as int
    };
    let kept = f.take(k);
    assert(t =~= seq![path] + kept);
    assert forall|i: int| 0 <= i < kept.len() implies pred(#[trigger] kept[i]) by {
        recents.lemma_filter_pred(pred, i);
    }
    lemma_filter_keeps_all(kept, pred);
    kept.lemma_filter_prepend(path, pred);
    assert(t.filter(pred) =~= kept);
}

/// App Settings and the Recents list, shared by all windows.
pub struct GlobalStore {
    path: String,
    settings: AppSettings,
    recents: Vec<String>,
}

fn copy_strings(v: &Vec<String>) -> (r: Vec<String>)
    ensures
        r@ == v@,
{
    let mut r: Vec<String> = Vec::new();
    let mut i: usize = 0;
    while i < v.len()
        invariant
            i <= v@.len(),
            r@ == v@.take(i as int),
        decreases v.len() - i,
    {
        r.push(v[i].clone());
        assert(r@ =~= v@.take(i + 1));
        i += 1;
    }
    assert(v@.take(i as int) =~= v@);
    r
}

impl GlobalStore {
    /// The file the store is kept in.
    pub closed spec fn file(&self) -> Seq<char> {
        self.path@
    }

    /// The current App Settings.
    pub closed spec fn current_settings(&self) -> AppSettings {
        self.settings
    }

    /// The current Recents list, most recent first.
    pub closed spec fn recent_paths(&self) -> Seq<Seq<char>> {
        self.recents@.map_values(|s: String| s@)
    }

    /// A store kept in `path` holding `settings` and `recents`.
    pub fn with_data(path: String, settings: AppSettings, recents: Vec<String>) -> (s: Self)
        ensures
            s.file() == path@,
            s.current_settings() == settings,
            s.recent_paths() == recents@.map_values(|p: String| p@),
    {
        GlobalStore { path, settings, recents }
    }

    /// The file the store is kept in.
    pub fn file_path(&self) -> (p: &String)
        ensures
            p@ == self.file(),
    {
        &self.path
    }

    /// The current App Settings.
    pub fn settings(&self) -> (s: AppSettings)
        ensures
            s == self.current_settings(),
    {
        AppSettings {
            theme: self.settings.theme,
            max_file_bytes: self.settings.max_file_bytes,
            max_total_bytes: self.settings.max_total_bytes,
            menu_rendering: self.settings.menu_rendering,
            default_project_settings: crate::state::copy_settings(
                &self.settings.default_project_settings,
            ),
        }
    }

    /// Replaces the App Settings.
    pub fn set_settings(&mut self, settings: AppSettings)
        ensures
            final(self).current_settings() == settings,
            final(self).recent_paths() == old(self).recent_paths(),
            final(self).file() == old(self).file(),
    {
        self.settings = settings;
    }

    /// The Recents list, most recent first.
    pub fn recents(&self) -> (r: Vec<String>)
        ensures
            r@.map_values(|p: String| p@) == self.recent_paths(),
    {
        copy_strings(&self.recents)
    }

    /// MRU: move (or insert) `path` to the front, capped at `MAX_RECENTS`.
    pub fn touch_recent(&mut self, path: &str)
        ensures
            final(self).recent_paths() == touched(old(self).recent_paths(), path@),
            final(self).current_settings() == old(self).current_settings(),
            final(self).file() == old(self).file(),
    {
        let ghost old_views = self.recent_paths();
        let mut kept: Vec<String> = Vec::new();
        let mut i: usize = 0;
        let target = crate::text::owned(path);
        kept.push(crate::text::owned(path));
        assert(old_views.take(0) =~= Seq::<Seq<char>>::empty());
        assert(kept@.map_values(|s: String| s@) =~= seq![path@] + old_views.take(0).filter(other_than(path@))) by {
            reveal_with_fuel(Seq::<_>::filter, 1);
        }
        while i < self.recents.len()
            invariant
                i <= self.recents@.len(),
                old_views == self.recents@.map_values(|s: String| s@),
                target@ == path@,
                kept@.map_values(|s: String| s@) == seq![path@] + old_views.take(i as int).filter(other_than(path@)),
            decreases self.recents.len() - i,
        {
            let ghost before = kept@.map_values(|s: String| s@);
            let ghost t = old_views.take(i + 1);
            let ghost x = self.recents@[i as int]@;
            assert(t.drop_last() =~= old_views.take(i as int));
            assert(t.last() == x);
            let same = self.recents[i] == target;
            if !same {
                kept.push(self.recents[i].clone());
                assert(kept@.map_values(|s: String| s@) =~= before.push(x));
                assert(t.filter(other_than(path@)) == old_views.take(i as int).filter(other_than(path@)).push(x)) by {
                    reveal_with_fuel(Seq::<_>::filter, 1);
                }
                assert(kept@.map_values(|s: String| s@) =~= seq![path@] + t.filter(other_than(path@)));
            } else {
                assert(t.filter(other_than(path@)) == old_views.take(i as int).filter(other_than(path@))) by {
                    reveal_with_fuel(Seq::<_>::filter, 1);
                }
            }
            i += 1;
        }
        assert(old_views.take(i as int) =~= old_views);
        kept.truncate(MAX_RECENTS);
        self.recents = kept;
        assert(self.recent_paths() =~= touched(old_views, path@));
    }

    /// Forgets all recents.
    pub fn clear_recents(&mut self)
        ensures
            final(self).recent_paths() == Seq::<Seq<char>>::empty(),
            final(self).current_settings() == old(self).current_settings(),
            final(self).file() == old(self).file(),
    {
        self.recents = Vec::new();
        assert(self.recent_paths() =~= Seq::<Seq<char>>::empty());
    }
}

} // verus!
