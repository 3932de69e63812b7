//! The game window among the windows of the desktop.
use crate::text;
use crate::whitelist;
use vstd::prelude::*;

verus! {

/// How often the window is looked for.
pub const MAX_ATTEMPTS: u32 = 5;

/// Milliseconds that pass after a search that found nothing.
pub const RETRY_WAIT_MS: u64 = 2000;

/// What is known of a window before it is chosen.
#[derive(Debug, Clone)]
pub struct WindowInfo {
    pub title: String,
    pub minimized: bool,
}

/// The lower case of a text, by the Unicode properties of its characters.
pub uninterp spec fn lowercased(text: Seq<char>) -> Seq<char>;

/// `str::to_lowercase` maps a text to its lower case, which depends on the text alone.
#[verifier::external_body]
fn lowercase(text: &str) -> (r: String)
    ensures
        r@ == lowercased(text@),
{
    text.to_lowercase()
}

/// A window can be used: its title holds the keyword, and it is not minimized.
pub open spec fn is_candidate(title: Seq<char>, minimized: bool, keyword: Seq<char>) -> bool {
    text::occurs_in(title, keyword) && !minimized
}

/// `found` is the first window that can be used.
pub open spec fn is_first_candidate(
    titles: Seq<Seq<char>>,
    minimized: Seq<bool>,
    keyword: Seq<char>,
    found: Option<usize>,
) -> bool {
    match found {
        Some(i) => {
            &&& i < titles.len()
            &&& is_candidate(titles[i as int], minimized[i as int], keyword)
            &&& forall|j: int|
                0 <= j < i ==> !is_candidate(#[trigger] titles[j], minimized[j], keyword)
        },
        None => forall|j: int|
            0 <= j < titles.len() ==> !is_candidate(#[trigger] titles[j], minimized[j], keyword),
    }
}

/// The first window that is not minimized and whose title holds the keyword, letter by
/// letter.
pub fn first_candidate(titles: &[String], minimized: &[bool], keyword: &str) -> (found: Option<
    usize,
>)
    requires
        titles@.len() == minimized@.len(),
    ensures
        is_first_candidate(whitelist::texts(titles@), minimized@, keyword@, found),
{
    let needle: Vec<char> = text::to_chars(keyword);
    let mut i: usize = 0;
    while i < titles.len()
        invariant
            i <= titles@.len(),
            titles@.len() == minimized@.len(),
            needle@ == keyword@,
            forall|j: int|
                0 <= j < i ==> !is_candidate(
                    #[trigger] whitelist::texts(titles@)[j],
                    minimized@[j],
                    keyword@,
                ),
        decreases titles.len() - i,
    {
        let title: Vec<char> = text::to_chars(titles[i].as_str());
        assert(whitelist::texts(titles@)[i as int] == title@);
        if text::contains(title.as_slice(), needle.as_slice()) && !minimized[i] {
            return Some(i);
        }
        i = i + 1;
    }
    None
}

pub open spec fn lowercase_titles(windows: Seq<WindowInfo>) -> Seq<Seq<char>> {
    windows.map_values(|w: WindowInfo| lowercased(w.title@))
}

pub open spec fn minimized_flags(windows: Seq<WindowInfo>) -> Seq<bool> {
    windows.map_values(|w: WindowInfo| w.minimized)
}

/// The first window that is not minimized and whose title holds `title`, whatever the
/// case of the letters.
pub fn find_game_window(windows: &[WindowInfo], title: &str) -> (found: Option<usize>)
    ensures
        is_first_candidate(
            lowercase_titles(windows@),
            minimized_flags(windows@),
            lowercased(title@),
            found,
        ),
{
    let keyword: String = lowercase(title);
    let mut titles: Vec<String> = Vec::new();
    let mut minimized: Vec<bool> = Vec::new();
    let mut i: usize = 0;
    while i < windows.len()
        invariant
            i <= windows@.len(),
            whitelist::texts(titles@) == lowercase_titles(windows@).take(i as int),
            minimized@ == minimized_flags(windows@).take(i as int),
        decreases windows.len() - i,
    {
        let ghost before = titles@;
        titles.push(lowercase(windows[i].title.as_str()));
        minimized.push(windows[i].minimized);
        assert(whitelist::texts(titles@) =~= whitelist::texts(before).push(
            lowercased(windows@[i as int].title@),
        ));
        assert(whitelist::texts(titles@) =~= lowercase_titles(windows@).take(i + 1));
        assert(minimized@ =~= minimized_flags(windows@).take(i + 1));
        i = i + 1;
    }
    assert(whitelist::texts(titles@) =~= lowercase_titles(windows@));
    assert(minimized@ =~= minimized_flags(windows@));
    assert(titles@.len() == whitelist::texts(titles@).len());
    first_candidate(titles.as_slice(), minimized.as_slice(), keyword.as_str())
}

/// What follows a search for the window.
#[derive(Clone, Copy, Debug, PartialEq, Eq, Structural)]
pub enum WindowSearch {
    /// The window with this place in the list is used.
    Found(usize),
    /// After this many milliseconds the search is repeated.
    RetryAfter(u64),
    /// After this many milliseconds the program ends.
    GiveUpAfter(u64),
}

/// What follows search number `attempt`, counted from one.
pub fn require_game_window(attempt: u32, found: Option<usize>) -> (next: WindowSearch)
    ensures
        next == (match found {
            Some(i) => WindowSearch::Found(i),
            None => if attempt < MAX_ATTEMPTS {
                WindowSearch::RetryAfter(RETRY_WAIT_MS)
            } else {
                WindowSearch::GiveUpAfter(RETRY_WAIT_MS)
            },
        }),
{
    match found {
        Some(i) => WindowSearch::Found(i),
        None => if attempt < MAX_ATTEMPTS {
            WindowSearch::RetryAfter(RETRY_WAIT_MS)
        } else {
            WindowSearch::GiveUpAfter(RETRY_WAIT_MS)
        },
    }
}

/// A window that is not minimized and whose title holds the keyword is found, unless one
/// before it is; and what is found is such a window.
pub proof fn law_the_first_usable_window_is_found(
    titles: Seq<Seq<char>>,
    minimized: Seq<bool>,
    keyword: Seq<char>,
    found: Option<usize>,
    i: int,
    before: Seq<char>,
    after: Seq<char>,
)
    requires
        titles.len() == minimized.len(),
        is_first_candidate(titles, minimized, keyword, found),
    ensures
        0 <= i < titles.len() && !minimized[i] && titles[i] == before + keyword + after ==> (match found {
            Some(k) => k <= i,
            None => false,
        }),
        match found {
            Some(k) => k < titles.len() && !minimized[k as int] && text::occurs_in(
                titles[k as int],
                keyword,
            ),
            None => true,
        },
{
    text::law_texts_are_found_where_they_stand(before, keyword, after, keyword);
    if 0 <= i < titles.len() && !minimized[i] && titles[i] == before + keyword + after {
        assert(is_candidate(titles[i], minimized[i], keyword));
    }
}

} // verus!
