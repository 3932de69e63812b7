//! The distance between two texts in edits of single characters.
use vstd::prelude::*;

verus! {

/// The least number of insertions, deletions and substitutions of single
/// characters that turn `a` into `b`.
pub open spec fn edit_distance(a: Seq<char>, b: Seq<char>) -> nat
    decreases a.len() + b.len(),
{
    if a.len() == 0 {
        b.len()
    } else if b.len() == 0 {
        a.len()
    } else {
        let substitute = edit_distance(a.drop_last(), b.drop_last()) + if a.last() == b.last() {
            0nat
        } else {
            1nat
        };
        let delete = edit_distance(a.drop_last(), b) + 1;
        let insert = edit_distance(a, b.drop_last()) + 1;
        if substitute <= delete && substitute <= insert {
            substitute
        } else if delete <= insert {
            delete
        } else {
            insert
        }
    }
}

/// Two texts are at distance zero exactly when they are the same.
pub proof fn law_distance_zero_means_equal(a: Seq<char>, b: Seq<char>)
    ensures
        edit_distance(a, b) == 0 <==> a == b,
    decreases a.len() + b.len(),
{
    if a.len() == 0 || b.len() == 0 {
        if edit_distance(a, b) == 0 {
            assert(a =~= b);
        }
    } else {
        law_distance_zero_means_equal(a.drop_last(), b.drop_last());
        if edit_distance(a, b) == 0 {
            assert(a =~= a.drop_last().push(a.last()));
            assert(b =~= b.drop_last().push(b.last()));
        }
    }
}

/// The distance does not depend on the direction.
pub proof fn law_distance_is_symmetric(a: Seq<char>, b: Seq<char>)
    ensures
        edit_distance(a, b) == edit_distance(b, a),
    decreases a.len() + b.len(),
{
    if a.len() > 0 && b.len() > 0 {
        law_distance_is_symmetric(a.drop_last(), b.drop_last());
        law_distance_is_symmetric(a.drop_last(), b);
        law_distance_is_symmetric(a, b.drop_last());
    }
}

/// Two texts differ by at least as many edits as their lengths differ, and by no
/// more than the longer one has characters.
pub proof fn law_distance_is_bounded_by_the_lengths(a: Seq<char>, b: Seq<char>)
    ensures
        a.len() <= b.len() + edit_distance(a, b),
        b.len() <= a.len() + edit_distance(a, b),
        edit_distance(a, b) <= if a.len() >= b.len() {
            a.len()
        } else {
            b.len()
        },
    decreases a.len() + b.len(),
{
    if a.len() > 0 && b.len() > 0 {
        law_distance_is_bounded_by_the_lengths(a.drop_last(), b.drop_last());
        law_distance_is_bounded_by_the_lengths(a.drop_last(), b);
        law_distance_is_bounded_by_the_lengths(a, b.drop_last());
    }
}

/// `strsim::levenshtein` counts the fewest insertions, deletions and
/// substitutions of characters that turn one text into the other.
#[verifier::external_body]
pub(crate) fn levenshtein(a: &str, b: &str) -> (distance: usize)
    ensures
        distance == edit_distance(a@, b@),
{
    strsim::levenshtein(a, b)
}

/// The distance is no longer by way of a third text.
pub proof fn law_distance_has_no_detours(a: Seq<char>, b: Seq<char>, c: Seq<char>)
    ensures
        edit_distance(a, c) <= edit_distance(a, b) + edit_distance(b, c),
    decreases a.len() + b.len() + c.len(),
{
    law_distance_is_bounded_by_the_lengths(a, b);
    law_distance_is_bounded_by_the_lengths(b, c);
    law_distance_is_bounded_by_the_lengths(a, c);
    if a.len() > 0 && c.len() > 0 {
        law_distance_has_no_detours(a.drop_last(), b, c);
        law_distance_has_no_detours(a, b, c.drop_last());
        if b.len() > 0 {
            law_distance_has_no_detours(a.drop_last(), b.drop_last(), c.drop_last());
            law_distance_has_no_detours(a.drop_last(), b.drop_last(), c);
            law_distance_has_no_detours(a, b.drop_last(), c.drop_last());
            law_distance_has_no_detours(a, b.drop_last(), c);
        }
    }
}

/// `b` is `a` with one character put in.
pub open spec fn is_insertion(a: Seq<char>, b: Seq<char>) -> bool {
    exists|i: int, c: char| 0 <= i <= a.len() && b == #[trigger] a.insert(i, c)
}

/// `b` is `a` with one character replaced.
pub open spec fn is_substitution(a: Seq<char>, b: Seq<char>) -> bool {
    exists|i: int, c: char| 0 <= i < a.len() && b == #[trigger] a.update(i, c)
}

/// `b` is `a` after one insertion, deletion or substitution.
pub open spec fn is_edit(a: Seq<char>, b: Seq<char>) -> bool {
    is_insertion(a, b) || is_insertion(b, a) || is_substitution(a, b)
}

/// `n` edits, one after the other, turn `a` into `b`.
pub open spec fn turns_into(a: Seq<char>, b: Seq<char>, n: nat) -> bool
    decreases n,
{
    if n == 0 {
        a == b
    } else {
        exists|between: Seq<char>| #[trigger]
            is_edit(a, between) && turns_into(between, b, (n - 1) as nat)
    }
}

proof fn lemma_insertion_is_one_edit(a: Seq<char>, i: int, c: char)
    requires
        0 <= i <= a.len(),
    ensures
        edit_distance(a, a.insert(i, c)) <= 1,
    decreases a.len(),
{
    let b = a.insert(i, c);
    if i == a.len() {
        assert(b.drop_last() =~= a);
        law_distance_zero_means_equal(a, a);
    } else {
        lemma_insertion_is_one_edit(a.drop_last(), i, c);
        assert(b.drop_last() =~= a.drop_last().insert(i, c));
        assert(b.last() == a.last());
    }
}

proof fn lemma_substitution_is_one_edit(a: Seq<char>, i: int, c: char)
    requires
        0 <= i < a.len(),
    ensures
        edit_distance(a, a.update(i, c)) <= 1,
    decreases a.len(),
{
    let b = a.update(i, c);
    if i == a.len() - 1 {
        assert(b.drop_last() =~= a.drop_last());
        law_distance_zero_means_equal(a.drop_last(), a.drop_last());
    } else {
        lemma_substitution_is_one_edit(a.drop_last(), i, c);
        assert(b.drop_last() =~= a.drop_last().update(i, c));
        assert(b.last() == a.last());
    }
}

proof fn lemma_edit_is_one_edit(a: Seq<char>, b: Seq<char>)
    requires
        is_edit(a, b),
    ensures
        edit_distance(a, b) <= 1,
{
    if is_insertion(a, b) {
        let (i, c) = choose|i: int, c: char| 0 <= i <= a.len() && b == #[trigger] a.insert(i, c);
        lemma_insertion_is_one_edit(a, i, c);
    } else if is_insertion(b, a) {
        let (i, c) = choose|i: int, c: char| 0 <= i <= b.len() && a == #[trigger] b.insert(i, c);
        lemma_insertion_is_one_edit(b, i, c);
        law_distance_is_symmetric(a, b);
    } else {
        let (i, c) = choose|i: int, c: char| 0 <= i < a.len() && b == #[trigger] a.update(i, c);
        lemma_substitution_is_one_edit(a, i, c);
    }
}

proof fn lemma_edit_before_a_suffix(a: Seq<char>, b: Seq<char>, c: char)
    requires
        is_edit(a, b),
    ensures
        is_edit(a.push(c), b.push(c)),
{
    if is_insertion(a, b) {
        let (i, x) = choose|i: int, x: char| 0 <= i <= a.len() && b == #[trigger] a.insert(i, x);
        assert(b.push(c) =~= a.push(c).insert(i, x));
    } else if is_insertion(b, a) {
        let (i, x) = choose|i: int, x: char| 0 <= i <= b.len() && a == #[trigger] b.insert(i, x);
        assert(a.push(c) =~= b.push(c).insert(i, x));
    } else {
        let (i, x) = choose|i: int, x: char| 0 <= i < a.len() && b == #[trigger] a.update(i, x);
        assert(b.push(c) =~= a.push(c).update(i, x));
    }
}

proof fn lemma_edits_before_a_suffix(a: Seq<char>, b: Seq<char>, n: nat, c: char)
    requires
        turns_into(a, b, n),
    ensures
        turns_into(a.push(c), b.push(c), n),
    decreases n,
{
    if n > 0 {
        let between = choose|between: Seq<char>| #[trigger]
            is_edit(a, between) && turns_into(between, b, (n - 1) as nat);
        lemma_edit_before_a_suffix(a, between, c);
        lemma_edits_before_a_suffix(between, b, (n - 1) as nat, c);
        assert(is_edit(a.push(c), between.push(c)));
    }
}

proof fn lemma_one_edit_more(a: Seq<char>, b: Seq<char>, c: Seq<char>, n: nat)
    requires
        turns_into(a, b, n),
        is_edit(b, c),
    ensures
        turns_into(a, c, n + 1),
    decreases n,
{
    if n == 0 {
        assert(turns_into(c, c, 0));
        assert(is_edit(a, c));
    } else {
        let between = choose|between: Seq<char>| #[trigger]
            is_edit(a, between) && turns_into(between, b, (n - 1) as nat);
        lemma_one_edit_more(between, b, c, (n - 1) as nat);
    }
}

proof fn lemma_distance_is_reached(a: Seq<char>, b: Seq<char>)
    ensures
        turns_into(a, b, edit_distance(a, b)),
    decreases a.len() + b.len(),
{
    if a.len() == 0 && b.len() == 0 {
        assert(a =~= b);
    } else if a.len() == 0 {
        let shorter = b.drop_last();
        lemma_distance_is_reached(a, shorter);
        assert(b =~= shorter.insert(shorter.len() as int, b.last()));
        assert(is_edit(shorter, b));
        lemma_one_edit_more(a, shorter, b, edit_distance(a, shorter));
    } else if b.len() == 0 {
        let shorter = a.drop_last();
        lemma_distance_is_reached(shorter, b);
        assert(a =~= shorter.insert(shorter.len() as int, a.last()));
        assert(is_edit(a, shorter));
    } else {
        let fewer_a = a.drop_last();
        let fewer_b = b.drop_last();
        assert(a =~= fewer_a.push(a.last()));
        assert(b =~= fewer_b.push(b.last()));
        let both = edit_distance(fewer_a, fewer_b);
        let substitute = both + if a.last() == b.last() {
            0nat
        } else {
            1nat
        };
        if edit_distance(a, b) == substitute {
            lemma_distance_is_reached(fewer_a, fewer_b);
            lemma_edits_before_a_suffix(fewer_a, fewer_b, both, a.last());
            if a.last() != b.last() {
                let between = fewer_b.push(a.last());
                assert(b =~= between.update(fewer_b.len() as int, b.last()));
                assert(is_edit(between, b));
                lemma_one_edit_more(a, between, b, both);
            }
        } else if edit_distance(a, b) == edit_distance(fewer_a, b) + 1 {
            lemma_distance_is_reached(fewer_a, b);
            assert(a =~= fewer_a.insert(fewer_a.len() as int, a.last()));
            assert(is_edit(a, fewer_a));
        } else {
            lemma_distance_is_reached(a, fewer_b);
            assert(b =~= fewer_b.insert(fewer_b.len() as int, b.last()));
            assert(is_edit(fewer_b, b));
            lemma_one_edit_more(a, fewer_b, b, edit_distance(a, fewer_b));
        }
    }
}

/// The distance is the least number of edits: that many turn the one text into the
/// other, and fewer do not.
pub proof fn law_distance_counts_the_fewest_edits(a: Seq<char>, b: Seq<char>, n: nat)
    ensures
        turns_into(a, b, edit_distance(a, b)),
        turns_into(a, b, n) ==> edit_distance(a, b) <= n,
    decreases n,
{
    lemma_distance_is_reached(a, b);
    if turns_into(a, b, n) {
        if n == 0 {
            law_distance_zero_means_equal(a, b);
        } else {
            let between = choose|between: Seq<char>| #[trigger]
                is_edit(a, between) && turns_into(between, b, (n - 1) as nat);
            law_distance_counts_the_fewest_edits(between, b, (n - 1) as nat);
            lemma_edit_is_one_edit(a, between);
            law_distance_has_no_detours(a, between, b);
        }
    }
}

/// At most `limit` edits turn `a` into `b`.
pub open spec fn is_within(a: Seq<char>, b: Seq<char>, limit: nat) -> bool {
    exists|n: nat| n <= limit && #[trigger] turns_into(a, b, n)
}

/// The distance is no more than a number exactly when no more edits than that turn the one
/// text into the other.
pub proof fn law_distance_bounds_the_edits(a: Seq<char>, b: Seq<char>, limit: nat)
    ensures
        edit_distance(a, b) <= limit <==> is_within(a, b, limit),
{
    law_distance_counts_the_fewest_edits(a, b, 0);
    if is_within(a, b, limit) {
        let n = choose|n: nat| n <= limit && #[trigger] turns_into(a, b, n);
        law_distance_counts_the_fewest_edits(a, b, n);
    }
}

/// Number of places at which two texts of one length differ.
pub open spec fn replaced(a: Seq<char>, b: Seq<char>) -> nat
    decreases a.len(),
{
    if a.len() == 0 {
        0
    } else {
        replaced(a.drop_last(), b.drop_last()) + if a.last() == b.last() {
            0nat
        } else {
            1nat
        }
    }
}

/// Texts of one length are no further apart than the places at which they differ.
pub proof fn law_replaced_characters_count_once(a: Seq<char>, b: Seq<char>)
    requires
        a.len() == b.len(),
    ensures
        edit_distance(a, b) <= replaced(a, b),
    decreases a.len(),
{
    if a.len() > 0 {
        law_replaced_characters_count_once(a.drop_last(), b.drop_last());
    }
}

} // verus!
