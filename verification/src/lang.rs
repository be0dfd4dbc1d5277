//! Code-fence language tag inference from GitHub Linguist data.

use vstd::prelude::*;
use vstd::string::*;

use crate::paths::{file_name, path_file_name};
use crate::text::{
    char_is_whitespace, chars_of, is_whitespace, lowercase, push_char, str_to_lowercase,
};

verus! {

broadcast use vstd::string::group_string_axioms;

/// The names of the languages `linguist` assigns to files named `name` by
/// their exact file name; none when it reports an error.
pub uninterp spec fn languages_by_filename(name: Seq<char>) -> Option<Seq<Seq<char>>>;

/// The names of the languages `linguist`'s heuristics pick for a file named
/// `name` with `content`; none when it reports an error.
pub uninterp spec fn languages_by_heuristics(name: Seq<char>, content: Seq<char>) -> Option<
    Seq<Seq<char>>,
>;

/// The names of the languages `linguist` assigns to files named `name` by
/// their extension; none when it reports an error.
pub uninterp spec fn languages_by_extension(name: Seq<char>) -> Option<Seq<Seq<char>>>;

/// The view of an optional list of names.
pub open spec fn names_view(r: Option<Vec<String>>) -> Option<Seq<Seq<char>>> {
    match r {
        Some(v) => Some(v@.map_values(|s: String| s@)),
        None => None,
    }
}

/// Calls `linguist::detect_language_by_filename` on a bare file name and keeps
/// the names of the languages it returns; the result is
/// `languages_by_filename(name)`.
#[verifier::external_body]
fn detect_by_filename(name: &str) -> (r: Option<Vec<String>>)
    ensures
        names_view(r) == languages_by_filename(name@),
{
    linguist::detect_language_by_filename(name).ok().map(
        |langs| langs.into_iter().map(|lang| lang.name.to_string()).collect(),
    )
}

/// Calls `linguist::disambiguate` on a bare file name and the file's content
/// and keeps the names of the languages it returns; the result is
/// `languages_by_heuristics(name, content)`.
#[verifier::external_body]
fn detect_by_heuristics(name: &str, content: &str) -> (r: Option<Vec<String>>)
    ensures
        names_view(r) == languages_by_heuristics(name@, content@),
{
    linguist::disambiguate(name, content).ok().map(
        |langs| langs.into_iter().map(|lang| lang.name.to_string()).collect(),
    )
}

/// Calls `linguist::detect_language_by_extension` on a bare file name and
/// keeps the names of the languages it returns; the result is
/// `languages_by_extension(name)`.
#[verifier::external_body]
fn detect_by_extension(name: &str) -> (r: Option<Vec<String>>)
    ensures
        names_view(r) == languages_by_extension(name@),
{
    linguist::detect_language_by_extension(name).ok().map(
        |langs| langs.into_iter().map(|lang| lang.name.to_string()).collect(),
    )
}

/// The language detected for a file: a unique exact-file-name match, else
/// the first language the content heuristics pick, else a unique extension
/// match.
pub open spec fn detected(path: Seq<char>, content: Seq<char>) -> Option<Seq<char>> {
    match file_name(path) {
        None => None,
        Some(name) => match languages_by_filename(name) {
            None => None,
            Some(by_name) => if by_name.len() == 1 {
                Some(by_name[0])
            } else {
                match languages_by_heuristics(name, content) {
                    None => None,
                    Some(by_content) => if by_content.len() > 0 {
                        Some(by_content[0])
                    } else {
                        match languages_by_extension(name) {
                            None => None,
                            Some(by_ext) => if by_ext.len() == 1 {
                                Some(by_ext[0])
                            } else {
                                None
                            },
                        }
                    },
                }
            },
        },
    }
}

fn detect(path: &str, content: &str) -> (r: Option<String>)
    ensures
        crate::text::opt_view(r) == detected(path@, content@),
{
    let name = match path_file_name(path) {
        Some(n) => n,
        None => return None,
    };
    let by_filename = match detect_by_filename(name.as_str()) {
        Some(v) => v,
        None => return None,
    };
    if by_filename.len() == 1 {
        return Some(by_filename[0].clone());
    }
    let by_content = match detect_by_heuristics(name.as_str(), content) {
        Some(v) => v,
        None => return None,
    };
    if by_content.len() > 0 {
        return Some(by_content[0].clone());
    }
    let by_extension = match detect_by_extension(name.as_str()) {
        Some(v) => v,
        None => return None,
    };
    if by_extension.len() == 1 {
        Some(by_extension[0].clone())
    } else {
        None
    }
}

/// A language name as a fence tag: each whitespace character becomes '-'.
pub open spec fn dash_whitespace(s: Seq<char>) -> Seq<char> {
    Seq::new(s.len(), |i: int| if is_whitespace(s[i]) { '-' } else { s[i] })
}

/// The fence tag for a language name: lowercased, whitespace to hyphens
/// (linguist's default alias); none for an empty name.
pub open spec fn tag_of(language: Seq<char>) -> Option<Seq<char>> {
    let tag = dash_whitespace(lowercase(language));
    if tag.len() == 0 {
        None
    } else {
        Some(tag)
    }
}

fn tag_for(language: &String) -> (r: Option<String>)
    ensures
        crate::text::opt_view(r) == tag_of(language@),
{
    let lowered = str_to_lowercase(language.as_str());
    let v = chars_of(lowered.as_str());
    let mut tag = String::new();
    let mut i: usize = 0;
    while i < v.len()
        invariant
            i <= v@.len(),
            v@ == lowercase(language@),
            tag@ == dash_whitespace(v@).take(i as int),
        decreases v.len() - i,
    {
        let c = v[i];
        if char_is_whitespace(c) {
            push_char(&mut tag, '-');
        } else {
            push_char(&mut tag, c);
        }
        assert(tag@ =~= dash_whitespace(v@).take(i + 1));
        i += 1;
    }
    assert(dash_whitespace(v@).take(i as int) =~= dash_whitespace(v@));
    if v.len() == 0 {
        None
    } else {
        Some(tag)
    }
}

/// The fence tag for a file: its detected language as a tag.
pub open spec fn fence_tag_of(path: Seq<char>, content: Seq<char>) -> Option<Seq<char>> {
    match detected(path, content) {
        Some(language) => tag_of(language),
        None => None,
    }
}

/// The code-fence info string for a file, from its detected language.
pub fn fence_tag(path: &str, content: &str) -> (r: Option<String>)
    ensures
        crate::text::opt_view(r) == fence_tag_of(path@, content@),
{
    match detect(path, content) {
        Some(language) => tag_for(&language),
        None => None,
    }
}

/// Whether a file is detected as Markdown.
pub fn is_markdown(path: &str, content: &str) -> (r: bool)
    ensures
        r == (detected(path@, content@) == Some("Markdown"@)),
{
    match detect(path, content) {
        Some(language) => language == crate::text::owned("Markdown"),
        None => false,
    }
}

} // verus!
