//! Lists of wanted names and the search for them in recognised text.
//!
//! Recognised text is rarely clean: a stroke is misread, or two names that stand
//! side by side are read as one. A name counts as found when some stretch of the
//! text that is as long as the name can be turned into it by few enough edits.
use crate::edits;
use crate::text;
use vstd::prelude::*;

verus! {

/// The texts that a list of strings holds.
pub open spec fn texts(list: Seq<String>) -> Seq<Seq<char>> {
    list.map_values(|s: String| s@)
}

/// The texts of a list without the white space around them, each of them once
/// and where it first comes.
pub open spec fn distinct_trimmed(list: Seq<Seq<char>>) -> Seq<Seq<char>>
    decreases list.len(),
{
    if list.len() == 0 {
        Seq::empty()
    } else {
        let before = distinct_trimmed(list.drop_last());
        let name = text::trimmed(list.last());
        if before.contains(name) {
            before
        } else {
            before.push(name)
        }
    }
}

/// A set of wanted names, in the order in which they were configured.
#[derive(Debug)]
pub struct Whitelist {
    names: Vec<String>,
}

impl View for Whitelist {
    type V = Seq<Seq<char>>;

    closed spec fn view(&self) -> Seq<Seq<char>> {
        texts(self.names@)
    }
}

impl Clone for Whitelist {
    fn clone(&self) -> (r: Whitelist)
        ensures
            r@ == self@,
    {
        proof {
            use_type_invariant(self);
        }
        let mut names: Vec<String> = Vec::new();
        let mut i: usize = 0;
        assert(texts(names@) =~= texts(self.names@).take(0));
        while i < self.names.len()
            invariant
                i <= self.names@.len(),
                texts(names@) == texts(self.names@).take(i as int),
            decreases self.names.len() - i,
        {
            let ghost before = names@;
            names.push(self.names[i].clone());
            assert(texts(names@) =~= texts(before).push(self.names@[i as int]@));
            assert(texts(names@) =~= texts(self.names@).take(i + 1));
            i = i + 1;
        }
        assert(texts(names@) =~= texts(self.names@));
        Whitelist { names }
    }
}

impl Whitelist {
    #[verifier::type_invariant]
    spec fn holds_each_name_once(self) -> bool {
        texts(self.names@).no_duplicates()
    }

    /// A whitelist without names.
    pub fn empty() -> (r: Whitelist)
        ensures
            r@ == Seq::<Seq<char>>::empty(),
    {
        let r: Whitelist = Whitelist { names: Vec::new() };
        assert(r@ =~= Seq::<Seq<char>>::empty());
        r
    }

    /// Collects the configured names, without the white space around them.
    pub fn from_names(list: &Vec<String>) -> (r: Whitelist)
        ensures
            r@ == distinct_trimmed(texts(list@)),
            r@.no_duplicates(),
    {
        let mut names: Vec<String> = Vec::new();
        let mut i: usize = 0;
        assert(texts(list@.take(0)) =~= Seq::<Seq<char>>::empty());
        assert(texts(names@) =~= Seq::<Seq<char>>::empty());
        while i < list.len()
            invariant
                i <= list@.len(),
                texts(names@) == distinct_trimmed(texts(list@.take(i as int))),
                texts(names@).no_duplicates(),
            decreases list.len() - i,
        {
            let name: String = text::trim(list[i].as_str());
            proof {
                let next = texts(list@.take(i + 1));
                assert(next.drop_last() =~= texts(list@.take(i as int)));
                assert(next.last() == list@[i as int]@);
            }
            if !list_contains(&names, name.as_str()) {
                let ghost before = names@;
                names.push(name);
                assert(texts(names@) =~= texts(before).push(name@));
            }
            i = i + 1;
        }
        assert(list@.take(list@.len() as int) =~= list@);
        Whitelist { names }
    }

    /// Whether `name` is wanted.
    pub fn contains(&self, name: &str) -> (r: bool)
        ensures
            r == self@.contains(name@),
    {
        list_contains(&self.names, name)
    }

    /// Number of wanted names.
    pub fn len(&self) -> (r: usize)
        ensures
            r == self@.len(),
    {
        self.names.len()
    }
}

fn list_contains(list: &Vec<String>, name: &str) -> (r: bool)
    ensures
        r == texts(list@).contains(name@),
{
    let mut i: usize = 0;
    while i < list.len()
        invariant
            i <= list@.len(),
            forall|j: int| 0 <= j < i ==> texts(list@)[j] != name@,
        decreases list.len() - i,
    {
        if text::same_text(list[i].as_str(), name) {
            assert(texts(list@)[i as int] == name@);
            return true;
        }
        i = i + 1;
    }
    false
}

/// `name` stands in `text` up to `allowed` edits: as the whole text where that is
/// the shorter one, and otherwise as a stretch as long as the name.
pub open spec fn occurs_nearly(text: Seq<char>, name: Seq<char>, allowed: nat) -> bool {
    if text.len() < name.len() {
        edits::edit_distance(text, name) <= allowed
    } else {
        exists|start: int|
            0 <= start <= text.len() - name.len() && edits::edit_distance(
                #[trigger] text.subrange(start, start + name.len()),
                name,
            ) <= allowed
    }
}

/// Edits that a name may be off by. With `short_exact`, names of one or two
/// characters must be read exactly.
pub open spec fn allowance(name: Seq<char>, tolerance: nat, short_exact: bool) -> nat {
    if short_exact && name.len() <= 2 {
        0
    } else {
        tolerance
    }
}

/// `name` is found in `text`; a name without characters never is.
pub open spec fn is_found(
    text: Seq<char>,
    name: Seq<char>,
    tolerance: nat,
    short_exact: bool,
) -> bool {
    name.len() > 0 && occurs_nearly(text, name, allowance(name, tolerance, short_exact))
}

/// The wanted names that are found in `text`.
pub open spec fn names_found(
    text: Seq<char>,
    names: Seq<Seq<char>>,
    tolerance: nat,
    short_exact: bool,
) -> Seq<Seq<char>> {
    names.filter(|name: Seq<char>| is_found(text, name, tolerance, short_exact))
}

/// Whether `name` stands in `chars` up to `allowed` edits.
fn stands_nearly(chars: &Vec<char>, name: &str, name_len: usize, allowed: usize) -> (r: bool)
    requires
        name_len == name@.len(),
        name_len > 0,
    ensures
        r == occurs_nearly(chars@, name@, allowed as nat),
{
    if chars.len() < name_len {
        let whole: String = text::from_chars(chars.as_slice());
        return edits::levenshtein(whole.as_str(), name) <= allowed;
    }
    let total: usize = chars.len();
    let last: usize = total - name_len;
    let mut best: usize = usize::MAX;
    let mut start: usize = 0;
    while start <= last
        invariant
            name_len == name@.len(),
            name_len > 0,
            total == chars@.len(),
            last == total - name_len,
            start <= last + 1,
            forall|s: int|
                0 <= s < start ==> best <= edits::edit_distance(
                    #[trigger] chars@.subrange(s, s + name_len),
                    name@,
                ),
            start > 0 ==> exists|s: int|
                0 <= s <= last && best == edits::edit_distance(
                    #[trigger] chars@.subrange(s, s + name_len),
                    name@,
                ),
            start == 0 ==> best == usize::MAX,
        decreases last + 1 - start,
    {
        let window: String = text::from_chars(&chars.as_slice()[start..start + name_len]);
        let distance: usize = edits::levenshtein(window.as_str(), name);
        assert(window@ == chars@.subrange(start as int, start + name_len));
        if distance < best {
            best = distance;
        }
        proof {
            if start == 0 {
                assert(best == edits::edit_distance(
                    chars@.subrange(start as int, start + name_len),
                    name@,
                ));
            }
        }
        start = start + 1;
    }
    best <= allowed
}

/// The wanted names that are found in a text, in the order of the whitelist.
pub fn find_names(
    text: &str,
    whitelist: &Whitelist,
    tolerance: usize,
    short_exact: bool,
) -> (found: Vec<String>)
    ensures
        texts(found@) == names_found(text@, whitelist@, tolerance as nat, short_exact),
        texts(found@).no_duplicates(),
{
    let chars: Vec<char> = text::to_chars(text);
    let mut found: Vec<String> = Vec::new();
    let mut i: usize = 0;
    let ghost wanted = |name: Seq<char>| is_found(text@, name, tolerance as nat, short_exact);
    proof {
        reveal(Seq::filter);
    }
    assert(whitelist@.take(0) =~= Seq::<Seq<char>>::empty());
    assert(texts(found@) =~= Seq::<Seq<char>>::empty());
    while i < whitelist.names.len()
        invariant
            i <= whitelist.names@.len(),
            chars@ == text@,
            whitelist@ == texts(whitelist.names@),
            wanted == (|name: Seq<char>| is_found(text@, name, tolerance as nat, short_exact)),
            texts(found@) == whitelist@.take(i as int).filter(wanted),
        decreases whitelist.names.len() - i,
    {
        let name: &String = &whitelist.names[i];
        let name_len: usize = text::to_chars(name.as_str()).len();
        let allowed: usize = if short_exact && name_len <= 2 {
            0
        } else {
            tolerance
        };
        proof {
            reveal(Seq::filter);
            assert(whitelist@.take(i + 1).drop_last() =~= whitelist@.take(i as int));
            assert(whitelist@.take(i + 1).last() == name@);
        }
        if name_len > 0 && stands_nearly(&chars, name.as_str(), name_len, allowed) {
            let ghost before = found@;
            found.push(name.clone());
            assert(texts(found@) =~= texts(before).push(name@));
        }
        i = i + 1;
    }
    assert(whitelist@.take(whitelist@.len() as int) =~= whitelist@);
    proof {
        use_type_invariant(whitelist);
        law_found_names_are_wanted(text@, whitelist@, tolerance as nat, short_exact);
    }
    found
}

/// A name that stands in the text as it is written is found at any tolerance.
pub proof fn law_exact_names_are_found(
    text: Seq<char>,
    name: Seq<char>,
    tolerance: nat,
    short_exact: bool,
)
    requires
        name.len() > 0,
        text::occurs_in(text, name),
    ensures
        is_found(text, name, tolerance, short_exact),
{
    let start = choose|start: int| text::occurs_at(text, name, start);
    edits::law_distance_zero_means_equal(text.subrange(start, start + name.len()), name);
}

/// With `short_exact`, a name of one or two characters is found only where it
/// stands in the text as it is written, whatever the tolerance.
pub proof fn law_short_names_must_be_exact(text: Seq<char>, name: Seq<char>, tolerance: nat)
    requires
        1 <= name.len() <= 2,
    ensures
        is_found(text, name, tolerance, true) <==> text::occurs_in(text, name),
{
    if text::occurs_in(text, name) {
        law_exact_names_are_found(text, name, tolerance, true);
    }
    if is_found(text, name, tolerance, true) {
        if text.len() < name.len() {
            edits::law_distance_zero_means_equal(text, name);
        } else {
            let start = choose|start: int|
                0 <= start <= text.len() - name.len() && edits::edit_distance(
                    #[trigger] text.subrange(start, start + name.len()),
                    name,
                ) <= 0;
            edits::law_distance_zero_means_equal(text.subrange(start, start + name.len()), name);
            assert(text::occurs_at(text, name, start));
        }
    }
}

/// A name that is found as a stretch of a text is still found when other text is
/// glued to it on either side.
pub proof fn law_glued_text_hides_no_name(
    before: Seq<char>,
    text: Seq<char>,
    after: Seq<char>,
    name: Seq<char>,
    tolerance: nat,
    short_exact: bool,
)
    requires
        name.len() <= text.len(),
        is_found(text, name, tolerance, short_exact),
    ensures
        is_found(before + text + after, name, tolerance, short_exact),
{
    let allowed = allowance(name, tolerance, short_exact);
    let start = choose|start: int|
        0 <= start <= text.len() - name.len() && edits::edit_distance(
            #[trigger] text.subrange(start, start + name.len()),
            name,
        ) <= allowed;
    let all = before + text + after;
    let moved = before.len() + start;
    assert(all.subrange(moved, moved + name.len()) =~= text.subrange(start, start + name.len()));
}

/// A higher tolerance never loses a name.
pub proof fn law_tolerance_only_adds_names(
    text: Seq<char>,
    name: Seq<char>,
    tolerance: nat,
    higher: nat,
    short_exact: bool,
)
    requires
        tolerance <= higher,
        is_found(text, name, tolerance, short_exact),
    ensures
        is_found(text, name, higher, short_exact),
{
    let allowed = allowance(name, tolerance, short_exact);
    if name.len() <= text.len() {
        let start = choose|start: int|
            0 <= start <= text.len() - name.len() && edits::edit_distance(
                #[trigger] text.subrange(start, start + name.len()),
                name,
            ) <= allowed;
        assert(edits::edit_distance(text.subrange(start, start + name.len()), name) <= allowance(
            name,
            higher,
            short_exact,
        ));
    }
}

/// Every name that is found is one of the wanted names, and none comes twice.
pub proof fn law_found_names_are_wanted(
    text: Seq<char>,
    names: Seq<Seq<char>>,
    tolerance: nat,
    short_exact: bool,
)
    requires
        names.no_duplicates(),
    ensures
        names_found(text, names, tolerance, short_exact).no_duplicates(),
        forall|name: Seq<char>|
            #[trigger] names_found(text, names, tolerance, short_exact).contains(name) <==> (
            names.contains(name) && is_found(text, name, tolerance, short_exact)),
    decreases names.len(),
{
    reveal(Seq::filter);
    let found = names_found(text, names, tolerance, short_exact);
    if names.len() > 0 {
        let shorter = names.drop_last();
        let last = names.last();
        assert(names =~= shorter.push(last));
        law_found_names_are_wanted(text, shorter, tolerance, short_exact);
        let before = names_found(text, shorter, tolerance, short_exact);
        assert(!shorter.contains(last));
        if is_found(text, last, tolerance, short_exact) {
            assert(found == before.push(last));
            assert(found[before.len() as int] == last);
            assert(!before.contains(last));
            assert forall|i: int, j: int|
                0 <= i < found.len() && 0 <= j < found.len() && i != j implies found[i]
                != found[j] by {
                if i < before.len() {
                    assert(before[i] == found[i]);
                }
                if j < before.len() {
                    assert(before[j] == found[j]);
                }
            }
            assert forall|name: Seq<char>| #[trigger] found.contains(name) <==> (names.contains(
                name,
            ) && is_found(text, name, tolerance, short_exact)) by {
                if before.contains(name) {
                    let k = choose|k: int| 0 <= k < before.len() && before[k] == name;
                    assert(found[k] == name);
                }
                if shorter.contains(name) {
                    let k = choose|k: int| 0 <= k < shorter.len() && shorter[k] == name;
                    assert(names[k] == name);
                }
                assert(names[shorter.len() as int] == last);
                if names.contains(name) && name != last {
                    let k = choose|k: int| 0 <= k < names.len() && names[k] == name;
                    assert(shorter[k] == name);
                }
                if found.contains(name) && name != last {
                    let k = choose|k: int| 0 <= k < found.len() && found[k] == name;
                    assert(before[k] == name);
                }
            }
        } else {
            assert(found == before);
            assert forall|name: Seq<char>| #[trigger] found.contains(name) <==> (names.contains(
                name,
            ) && is_found(text, name, tolerance, short_exact)) by {
                if shorter.contains(name) {
                    let k = choose|k: int| 0 <= k < shorter.len() && shorter[k] == name;
                    assert(names[k] == name);
                }
                if names.contains(name) && name != last {
                    let k = choose|k: int| 0 <= k < names.len() && names[k] == name;
                    assert(shorter[k] == name);
                }
            }
        }
    }
}

/// A name of three or more characters, and without `short_exact` any name, is found
/// exactly where at most `tolerance` insertions, deletions and substitutions of single
/// characters turn the text into the name, or, where the text is long enough, some stretch
/// of it that is as long as the name.
pub proof fn law_names_are_found_within_the_tolerance(
    text: Seq<char>,
    name: Seq<char>,
    tolerance: nat,
    short_exact: bool,
)
    requires
        name.len() >= 3 || (!short_exact && name.len() > 0),
    ensures
        text.len() < name.len() ==> (is_found(text, name, tolerance, short_exact)
            <==> edits::is_within(text, name, tolerance)),
        text.len() >= name.len() ==> (is_found(text, name, tolerance, short_exact) <==> exists|
            start: int,
        |
            0 <= start <= text.len() - name.len() && edits::is_within(
                #[trigger] text.subrange(start, start + name.len()),
                name,
                tolerance,
            )),
{
    if text.len() < name.len() {
        edits::law_distance_bounds_the_edits(text, name, tolerance);
    } else {
        assert forall|start: int| 0 <= start <= text.len() - name.len() implies (
        edits::edit_distance(#[trigger] text.subrange(start, start + name.len()), name)
            <= tolerance <==> edits::is_within(
            text.subrange(start, start + name.len()),
            name,
            tolerance,
        )) by {
            edits::law_distance_bounds_the_edits(
                text.subrange(start, start + name.len()),
                name,
                tolerance,
            );
        }
        if is_found(text, name, tolerance, short_exact) {
            let start = choose|start: int|
                0 <= start <= text.len() - name.len() && edits::edit_distance(
                    #[trigger] text.subrange(start, start + name.len()),
                    name,
                ) <= tolerance;
            assert(edits::is_within(text.subrange(start, start + name.len()), name, tolerance));
        }
        if exists|start: int|
            0 <= start <= text.len() - name.len() && edits::is_within(
                #[trigger] text.subrange(start, start + name.len()),
                name,
                tolerance,
            ) {
            let start = choose|start: int|
                0 <= start <= text.len() - name.len() && edits::is_within(
                    #[trigger] text.subrange(start, start + name.len()),
                    name,
                    tolerance,
                );
            assert(edits::edit_distance(text.subrange(start, start + name.len()), name)
                <= tolerance);
        }
    }
}

/// A name of three or more characters of which at most `tolerance` were misread is found,
/// whatever stands around it.
pub proof fn law_misread_names_are_found(
    before: Seq<char>,
    read: Seq<char>,
    after: Seq<char>,
    name: Seq<char>,
    tolerance: nat,
    short_exact: bool,
)
    requires
        name.len() >= 3,
        read.len() == name.len(),
        edits::replaced(read, name) <= tolerance,
    ensures
        is_found(before + read + after, name, tolerance, short_exact),
{
    let text = before + read + after;
    let start = before.len() as int;
    assert(text.subrange(start, start + name.len()) =~= read);
    edits::law_replaced_characters_count_once(read, name);
    edits::law_distance_bounds_the_edits(
        text.subrange(start, start + name.len()),
        name,
        tolerance,
    );
    law_names_are_found_within_the_tolerance(text, name, tolerance, short_exact);
}

/// A name without characters is never found.
pub proof fn law_nothing_is_no_name(text: Seq<char>, tolerance: nat, short_exact: bool)
    ensures
        !is_found(text, Seq::empty(), tolerance, short_exact),
{
}

/// The names that are found are the wanted ones among those that stand in the text, also
/// where the list of wanted names holds one twice.
pub proof fn law_names_found_are_the_wanted_ones(
    text: Seq<char>,
    names: Seq<Seq<char>>,
    tolerance: nat,
    short_exact: bool,
    name: Seq<char>,
)
    ensures
        names_found(text, names, tolerance, short_exact).contains(name) <==> names.contains(name)
            && is_found(text, name, tolerance, short_exact),
    decreases names.len(),
{
    reveal(Seq::filter);
    let found = names_found(text, names, tolerance, short_exact);
    if names.len() > 0 {
        let shorter = names.drop_last();
        let last = names.last();
        law_names_found_are_the_wanted_ones(text, shorter, tolerance, short_exact, name);
        let before = names_found(text, shorter, tolerance, short_exact);
        if shorter.contains(name) {
            let k = choose|k: int| 0 <= k < shorter.len() && shorter[k] == name;
            assert(names[k] == name);
        }
        if names.contains(name) && name != last {
            let k = choose|k: int| 0 <= k < names.len() && names[k] == name;
            assert(shorter[k] == name);
        }
        assert(names[names.len() - 1] == last);
        if is_found(text, last, tolerance, short_exact) {
            assert(found == before.push(last));
            assert(found[before.len() as int] == last);
            if before.contains(name) {
                let k = choose|k: int| 0 <= k < before.len() && before[k] == name;
                assert(found[k] == name);
            }
            if found.contains(name) && name != last {
                let k = choose|k: int| 0 <= k < found.len() && found[k] == name;
                assert(before[k] == name);
            }
        }
    }
}

/// The wanted names are the configured ones without the white space around them, each of
/// them once.
pub proof fn law_configured_names_are_wanted(list: Seq<Seq<char>>, name: Seq<char>)
    ensures
        distinct_trimmed(list).contains(name) <==> exists|i: int|
            0 <= i < list.len() && text::trimmed(#[trigger] list[i]) == name,
        distinct_trimmed(list).no_duplicates(),
    decreases list.len(),
{
    if list.len() > 0 {
        let shorter = list.drop_last();
        let last = list.len() - 1;
        law_configured_names_are_wanted(shorter, name);
        let before = distinct_trimmed(shorter);
        let all = distinct_trimmed(list);
        let more = text::trimmed(list[last]);
        if all.contains(name) {
            let k = choose|k: int| 0 <= k < all.len() && all[k] == name;
            if k < before.len() {
                assert(before[k] == name);
                let i = choose|i: int|
                    0 <= i < shorter.len() && text::trimmed(#[trigger] shorter[i]) == name;
                assert(list[i] == shorter[i]);
            } else {
                assert(text::trimmed(list[last]) == name);
            }
        }
        if exists|i: int| 0 <= i < list.len() && text::trimmed(#[trigger] list[i]) == name {
            let i = choose|i: int|
                0 <= i < list.len() && text::trimmed(#[trigger] list[i]) == name;
            if i < last {
                assert(shorter[i] == list[i]);
                let k = choose|k: int| 0 <= k < before.len() && before[k] == name;
                assert(all[k] == name);
            } else if before.contains(more) {
                let k = choose|k: int| 0 <= k < before.len() && before[k] == name;
                assert(all[k] == name);
            } else {
                assert(all[before.len() as int] == name);
            }
        }
    }
}

} // verus!
