//! How well the monster templates recognise crops of known monsters.
use crate::best_match;
use crate::monster_matcher;
use crate::monster_matcher::MonsterTemplate;
use crate::score::Score;
use crate::text;
use vstd::prelude::*;

verus! {

/// Encoding of three quarters, the confidence that a match has to reach.
pub const MATCH_CONFIDENCE_BITS: u32 = 1061158912;

/// What became of a crop.
#[derive(Debug, Clone)]
pub enum Verdict {
    /// The right monster was recognised.
    Correct,
    /// The best match is not good enough, or its score is no number.
    BelowThreshold { predicted: String, score: Score },
    /// Another monster was recognised.
    Misidentified { predicted: String, score: Score },
    /// No template could be compared.
    NoComparableTemplate,
}

/// `verdict` is the right one for a best match with the given name and score.
pub open spec fn is_verdict(
    verdict: Verdict,
    expected: Seq<char>,
    best: Option<(Seq<char>, Score)>,
    min_confidence: Score,
) -> bool {
    match best {
        Some(found) => if found.1.below(min_confidence) || !found.1.is_number() {
            verdict matches Verdict::BelowThreshold { predicted, score } && predicted@ == found.0
                && score == found.1
        } else if found.0 == expected {
            verdict is Correct
        } else {
            verdict matches Verdict::Misidentified { predicted, score } && predicted@ == found.0
                && score == found.1
        },
        None => verdict is NoComparableTemplate,
    }
}

/// The name and the score of the best match of a crop.
pub open spec fn best_template(
    crop_cols: int,
    crop_rows: int,
    templates: Seq<MonsterTemplate>,
    scores: Seq<Score>,
) -> Option<(Seq<char>, Score)> {
    match best_match::top_index(
        monster_matcher::usable_templates(templates, crop_cols, crop_rows),
        scores,
    ) {
        Some(i) => Some((templates[i].name@, scores[i])),
        None => None,
    }
}

/// Judges a crop of a known monster. `scores` holds the score of each template.
pub fn judge(
    crop_cols: i32,
    crop_rows: i32,
    expected_name: &str,
    templates: &[MonsterTemplate],
    scores: &[Score],
    min_confidence: Score,
) -> (verdict: Verdict)
    requires
        templates@.len() == scores@.len(),
    ensures
        is_verdict(
            verdict,
            expected_name@,
            best_template(crop_cols as int, crop_rows as int, templates@, scores@),
            min_confidence,
        ),
        verdict is NoComparableTemplate <==> forall|i: int|
            0 <= i < templates@.len() ==> !monster_matcher::fits_in(
                (#[trigger] templates@[i]).cols as int,
                templates@[i].rows as int,
                crop_cols as int,
                crop_rows as int,
            ),
{
    match monster_matcher::identify_crop(crop_cols, crop_rows, templates, scores) {
        Some(found) => {
            let (predicted, score): (String, Score) = found;
            if score.is_below(&min_confidence) || !score.numeric() {
                Verdict::BelowThreshold { predicted, score }
            } else if text::same_text(predicted.as_str(), expected_name) {
                Verdict::Correct
            } else {
                Verdict::Misidentified { predicted, score }
            }
        },
        None => Verdict::NoComparableTemplate,
    }
}

/// Crops of one monster, and how many of them were recognised.
#[derive(Clone, Copy, Debug, PartialEq, Eq, Structural)]
pub struct MonsterStat {
    pub total: usize,
    pub correct: usize,
}

/// A text comes before another one, character by character.
pub open spec fn comes_before(a: Seq<char>, b: Seq<char>) -> bool
    decreases a.len(),
{
    if b.len() == 0 {
        false
    } else if a.len() == 0 {
        true
    } else if a.first() != b.first() {
        a.first() < b.first()
    } else {
        comes_before(a.drop_first(), b.drop_first())
    }
}

fn is_before(a: &[char], b: &[char]) -> (r: bool)
    ensures
        r == comes_before(a@, b@),
{
    let mut i: usize = 0;
    assert(a@.skip(0) =~= a@);
    assert(b@.skip(0) =~= b@);
    while i < a.len() && i < b.len()
        invariant
            i <= a@.len(),
            i <= b@.len(),
            comes_before(a@, b@) == comes_before(a@.skip(i as int), b@.skip(i as int)),
        decreases a.len() - i,
    {
        if a[i] != b[i] {
            return a[i] < b[i];
        }
        assert(a@.skip(i as int).drop_first() =~= a@.skip(i + 1));
        assert(b@.skip(i as int).drop_first() =~= b@.skip(i + 1));
        i = i + 1;
    }
    i < b.len()
}

/// The counts of all monsters, in the order of their names.
#[derive(Debug)]
pub struct RecognitionReport {
    pub per_monster: Vec<(String, MonsterStat)>,
    pub total: usize,
    pub total_correct: usize,
}

pub open spec fn name_at(rows: Seq<(String, MonsterStat)>, i: int) -> Seq<char> {
    rows[i].0@
}

/// The rows come in the order of their names, and no name comes twice.
pub open spec fn is_in_order(rows: Seq<(String, MonsterStat)>) -> bool {
    forall|i: int, j: int|
        0 <= i < j < rows.len() ==> comes_before(
            #[trigger] name_at(rows, i),
            #[trigger] name_at(rows, j),
        )
}

/// Crops and recognised crops in all rows.
pub open spec fn sums(rows: Seq<(String, MonsterStat)>) -> (int, int)
    decreases rows.len(),
{
    if rows.len() == 0 {
        (0, 0)
    } else {
        let before = sums(rows.drop_last());
        (before.0 + rows.last().1.total, before.1 + rows.last().1.correct)
    }
}

/// The counts of each monster: crops, and how many of them were recognised.
pub open spec fn counts(rows: Seq<(String, MonsterStat)>) -> Map<Seq<char>, (int, int)>
    decreases rows.len(),
{
    if rows.len() == 0 {
        Map::empty()
    } else {
        counts(rows.drop_last()).insert(
            rows.last().0@,
            (rows.last().1.total as int, rows.last().1.correct as int),
        )
    }
}

impl View for RecognitionReport {
    type V = Map<Seq<char>, (int, int)>;

    open spec fn view(&self) -> Map<Seq<char>, (int, int)> {
        counts(self.per_monster@)
    }
}

impl RecognitionReport {
    /// The rows are in order, no monster was recognised more often than it was shown,
    /// and the totals are the sums of the rows.
    pub open spec fn is_consistent(self) -> bool {
        &&& is_in_order(self.per_monster@)
        &&& forall|i: int|
            0 <= i < self.per_monster@.len() ==> (#[trigger] self.per_monster@[i]).1.correct
                <= self.per_monster@[i].1.total
        &&& sums(self.per_monster@) == (self.total as int, self.total_correct as int)
    }

    /// A report without monsters.
    pub fn new() -> (r: RecognitionReport)
        ensures
            r.is_consistent(),
            r@ == Map::<Seq<char>, (int, int)>::empty(),
            r.total == 0,
            r.total_correct == 0,
    {
        RecognitionReport { per_monster: Vec::new(), total: 0, total_correct: 0 }
    }

    /// Place of the row of a name, which is added where it is missing.
    fn row_of(&mut self, name: &str) -> (k: usize)
        requires
            old(self).is_consistent(),
        ensures
            final(self).is_consistent(),
            final(self)@ == (if old(self)@.dom().contains(name@) {
                old(self)@
            } else {
                old(self)@.insert(name@, (0, 0))
            }),
            final(self).total == old(self).total,
            final(self).total_correct == old(self).total_correct,
            k < final(self).per_monster@.len(),
            final(self).per_monster@[k as int].0@ == name@,
    {
        let chars: Vec<char> = text::to_chars(name);
        let mut k: usize = 0;
        let ghost rows = self.per_monster@;
        while k < self.per_monster.len() && is_before(
            text::to_chars(self.per_monster[k].0.as_str()).as_slice(),
            chars.as_slice(),
        )
            invariant
                k <= rows.len(),
                *self == *old(self),
                rows == self.per_monster@,
                chars@ == name@,
                forall|i: int| 0 <= i < k ==> comes_before(#[trigger] name_at(rows, i), name@),
            decreases rows.len() - k,
        {
            assert(comes_before(name_at(rows, k as int), name@));
            k = k + 1;
        }
        if k < self.per_monster.len() && text::same_text(self.per_monster[k].0.as_str(), name) {
            proof {
                lemma_counts(rows);
                assert(name_at(rows, k as int) == name@);
            }
            return k;
        }
        let row: (String, MonsterStat) = (
            text::from_chars(chars.as_slice()),
            MonsterStat { total: 0, correct: 0 },
        );
        proof {
            lemma_insert_row(rows, k as int, row);
        }
        self.per_monster.insert(k, row);
        k
    }

    /// Gives a monster a row.
    pub fn enter(&mut self, name: &str)
        requires
            old(self).is_consistent(),
        ensures
            final(self).is_consistent(),
            final(self)@ == (if old(self)@.dom().contains(name@) {
                old(self)@
            } else {
                old(self)@.insert(name@, (0, 0))
            }),
            final(self).total == old(self).total,
            final(self).total_correct == old(self).total_correct,
    {
        let _k: usize = self.row_of(name);
    }

    /// Counts a crop of a monster.
    pub fn record(&mut self, name: &str, verdict: &Verdict)
        requires
            old(self).is_consistent(),
            old(self).total < usize::MAX,
        ensures
            final(self).is_consistent(),
            ({
                let before = if old(self)@.dom().contains(name@) {
                    old(self)@[name@]
                } else {
                    (0, 0)
                };
                let one = if verdict is Correct {
                    1int
                } else {
                    0int
                };
                &&& final(self)@ == old(self)@.insert(name@, (before.0 + 1, before.1 + one))
                &&& final(self).total == old(self).total + 1
                &&& final(self).total_correct == old(self).total_correct + one
            }),
    {
        let k: usize = self.row_of(name);
        let ghost rows = self.per_monster@;
        let correct: bool = match verdict {
            Verdict::Correct => true,
            _ => false,
        };
        let stat: MonsterStat = self.per_monster[k].1;
        proof {
            lemma_sums_bound(rows, k as int);
            lemma_sums_in_order(rows);
            lemma_counts(rows);
            assert(name_at(rows, k as int) == name@);
        }
        let label: String = self.per_monster[k].0.clone();
        let row: (String, MonsterStat) = (
            label,
            MonsterStat {
                total: stat.total + 1,
                correct: if correct {
                    stat.correct + 1
                } else {
                    stat.correct
                },
            },
        );
        proof {
            lemma_update_row(rows, k as int, row);
        }
        self.per_monster.set(k, row);
        self.total = self.total + 1;
        if correct {
            self.total_correct = self.total_correct + 1;
        }
    }
}

proof fn lemma_order(a: Seq<char>, b: Seq<char>, c: Seq<char>)
    ensures
        !comes_before(a, a),
        comes_before(a, b) || comes_before(b, a) || a == b,
        comes_before(a, b) && comes_before(b, c) ==> comes_before(a, c),
        comes_before(a, b) ==> !comes_before(b, a),
    decreases a.len() + b.len() + c.len(),
{
    if a.len() > 0 {
        if b.len() > 0 {
            if c.len() > 0 {
                lemma_order(a.drop_first(), b.drop_first(), c.drop_first());
            } else {
                lemma_order(a.drop_first(), b.drop_first(), c);
            }
            if a.first() == b.first() && a.drop_first() == b.drop_first() {
                assert(a =~= seq![a.first()] + a.drop_first());
                assert(b =~= seq![b.first()] + b.drop_first());
            }
        } else {
            lemma_order(a.drop_first(), b, c);
        }
    } else if b.len() == 0 {
        assert(a =~= b);
    }
}

proof fn lemma_counts(rows: Seq<(String, MonsterStat)>)
    requires
        is_in_order(rows),
    ensures
        forall|i: int|
            0 <= i < rows.len() ==> counts(rows).dom().contains(#[trigger] name_at(rows, i))
                && counts(rows)[name_at(rows, i)] == (
                rows[i].1.total as int,
                rows[i].1.correct as int,
            ),
        forall|name: Seq<char>| #[trigger]
            counts(rows).dom().contains(name) ==> exists|i: int|
                0 <= i < rows.len() && #[trigger] name_at(rows, i) == name,
    decreases rows.len(),
{
    if rows.len() > 0 {
        let fewer = rows.drop_last();
        let last = rows.len() - 1;
        assert forall|i: int, j: int| 0 <= i < j < fewer.len() implies comes_before(
            #[trigger] name_at(fewer, i),
            #[trigger] name_at(fewer, j),
        ) by {
            assert(name_at(fewer, i) == name_at(rows, i) && name_at(fewer, j) == name_at(rows, j));
        }
        lemma_counts(fewer);
        assert forall|i: int| 0 <= i < rows.len() implies counts(rows).dom().contains(
            #[trigger] name_at(rows, i),
        ) && counts(rows)[name_at(rows, i)] == (
            rows[i].1.total as int,
            rows[i].1.correct as int,
        ) by {
            if i < last {
                assert(name_at(fewer, i) == name_at(rows, i));
                assert(comes_before(name_at(rows, i), name_at(rows, last)));
                lemma_order(name_at(rows, i), name_at(rows, i), name_at(rows, i));
            }
        }
        assert forall|name: Seq<char>| #[trigger] counts(rows).dom().contains(name) implies exists|
            i: int,
        | 0 <= i < rows.len() && #[trigger] name_at(rows, i) == name by {
            if name == rows.last().0@ {
                assert(name_at(rows, last) == name);
            } else {
                assert(counts(fewer).dom().contains(name));
                let i = choose|i: int|
                    0 <= i < fewer.len() && #[trigger] name_at(fewer, i) == name;
                assert(name_at(rows, i) == name);
            }
        }
    }
}

proof fn lemma_sums_bound(rows: Seq<(String, MonsterStat)>, k: int)
    requires
        0 <= k < rows.len(),
    ensures
        rows[k].1.total <= sums(rows).0,
        rows[k].1.correct <= sums(rows).1,
        0 <= sums(rows).0,
        0 <= sums(rows).1,
    decreases rows.len(),
{
    reveal_with_fuel(sums, 2);
    if k < rows.len() - 1 {
        lemma_sums_bound(rows.drop_last(), k);
    } else if rows.len() > 1 {
        lemma_sums_bound(rows.drop_last(), 0);
    }
}

proof fn lemma_sums_in_order(rows: Seq<(String, MonsterStat)>)
    requires
        forall|i: int|
            0 <= i < rows.len() ==> (#[trigger] rows[i]).1.correct <= rows[i].1.total,
    ensures
        sums(rows).1 <= sums(rows).0,
    decreases rows.len(),
{
    if rows.len() > 0 {
        let fewer = rows.drop_last();
        assert forall|i: int| 0 <= i < fewer.len() implies (#[trigger] fewer[i]).1.correct
            <= fewer[i].1.total by {
            assert(fewer[i] == rows[i]);
        }
        lemma_sums_in_order(fewer);
        assert(rows[rows.len() - 1].1.correct <= rows[rows.len() - 1].1.total);
    }
}

/// No more crops were recognised than were shown.
pub proof fn law_no_more_are_recognised_than_shown(report: RecognitionReport)
    requires
        report.is_consistent(),
    ensures
        report.total_correct <= report.total,
{
    lemma_sums_in_order(report.per_monster@);
}

proof fn lemma_sums_insert(rows: Seq<(String, MonsterStat)>, k: int, row: (String, MonsterStat))
    requires
        0 <= k <= rows.len(),
    ensures
        sums(rows.insert(k, row)) == (
            sums(rows).0 + row.1.total,
            sums(rows).1 + row.1.correct,
        ),
    decreases rows.len(),
{
    let whole = rows.insert(k, row);
    if k == rows.len() {
        assert(whole.drop_last() =~= rows);
    } else {
        lemma_sums_insert(rows.drop_last(), k, row);
        assert(whole.drop_last() =~= rows.drop_last().insert(k, row));
    }
}

proof fn lemma_sums_update(rows: Seq<(String, MonsterStat)>, k: int, row: (String, MonsterStat))
    requires
        0 <= k < rows.len(),
    ensures
        sums(rows.update(k, row)) == (
            sums(rows).0 - rows[k].1.total + row.1.total,
            sums(rows).1 - rows[k].1.correct + row.1.correct,
        ),
    decreases rows.len(),
{
    let whole = rows.update(k, row);
    if k == rows.len() - 1 {
        assert(whole.drop_last() =~= rows.drop_last());
    } else {
        lemma_sums_update(rows.drop_last(), k, row);
        assert(whole.drop_last() =~= rows.drop_last().update(k, row));
    }
}

proof fn lemma_insert_row(rows: Seq<(String, MonsterStat)>, k: int, row: (String, MonsterStat))
    requires
        is_in_order(rows),
        0 <= k <= rows.len(),
        forall|i: int| 0 <= i < k ==> comes_before(#[trigger] name_at(rows, i), row.0@),
        k < rows.len() ==> !comes_before(name_at(rows, k), row.0@) && name_at(rows, k) != row.0@,
    ensures
        is_in_order(rows.insert(k, row)),
        !counts(rows).dom().contains(row.0@),
        counts(rows.insert(k, row)) == counts(rows).insert(
            row.0@,
            (row.1.total as int, row.1.correct as int),
        ),
        sums(rows.insert(k, row)) == (
            sums(rows).0 + row.1.total,
            sums(rows).1 + row.1.correct,
        ),
{
    let whole = rows.insert(k, row);
    let name = row.0@;
    lemma_sums_insert(rows, k, row);
    assert forall|i: int| k <= i < rows.len() implies comes_before(
        name,
        #[trigger] name_at(rows, i),
    ) by {
        lemma_order(name, name_at(rows, k), name_at(rows, i));
        if k < i {
            assert(comes_before(name_at(rows, k), name_at(rows, i)));
        }
    }
    assert forall|i: int| 0 <= i < whole.len() implies #[trigger] name_at(whole, i) == (if i < k {
        name_at(rows, i)
    } else if i == k {
        name
    } else {
        name_at(rows, i - 1)
    }) by {}
    assert forall|i: int, j: int| 0 <= i < j < whole.len() implies comes_before(
        #[trigger] name_at(whole, i),
        #[trigger] name_at(whole, j),
    ) by {
        if i < k && j > k {
            assert(comes_before(name_at(rows, i), name_at(rows, j - 1)));
        } else if i > k {
            assert(comes_before(name_at(rows, i - 1), name_at(rows, j - 1)));
        } else if i == k {
            assert(comes_before(name, name_at(rows, j - 1)));
        } else {
            assert(comes_before(name_at(rows, i), name) || comes_before(
                name_at(rows, i),
                name_at(rows, j),
            ));
        }
    }
    lemma_counts(rows);
    lemma_counts(whole);
    if counts(rows).dom().contains(name) {
        let i = choose|i: int| 0 <= i < rows.len() && #[trigger] name_at(rows, i) == name;
        lemma_order(name, name, name);
        assert(i < k ==> comes_before(name_at(rows, i), name));
    }
    let wanted = counts(rows).insert(name, (row.1.total as int, row.1.correct as int));
    assert forall|n: Seq<char>| counts(whole).dom().contains(n) == wanted.dom().contains(n) by {
        if counts(whole).dom().contains(n) {
            let i = choose|i: int| 0 <= i < whole.len() && #[trigger] name_at(whole, i) == n;
            if i < k {
                assert(name_at(rows, i) == n);
            } else if i > k {
                assert(name_at(rows, i - 1) == n);
            }
        }
        if counts(rows).dom().contains(n) {
            let i = choose|i: int| 0 <= i < rows.len() && #[trigger] name_at(rows, i) == n;
            if i < k {
                assert(name_at(whole, i) == n);
            } else {
                assert(name_at(whole, i + 1) == n);
            }
        }
        assert(name_at(whole, k) == name);
    }
    assert forall|n: Seq<char>| counts(whole).dom().contains(n) implies counts(whole)[n]
        == wanted[n] by {
        let i = choose|i: int| 0 <= i < whole.len() && #[trigger] name_at(whole, i) == n;
        if i < k {
            assert(name_at(rows, i) == n);
            lemma_order(n, name, n);
        } else if i > k {
            assert(name_at(rows, i - 1) == n);
            lemma_order(name, n, name);
        }
    }
    assert(counts(whole) =~= wanted);
}

proof fn lemma_update_row(rows: Seq<(String, MonsterStat)>, k: int, row: (String, MonsterStat))
    requires
        is_in_order(rows),
        0 <= k < rows.len(),
        name_at(rows, k) == row.0@,
    ensures
        is_in_order(rows.update(k, row)),
        counts(rows.update(k, row)) == counts(rows).insert(
            row.0@,
            (row.1.total as int, row.1.correct as int),
        ),
        sums(rows.update(k, row)) == (
            sums(rows).0 - rows[k].1.total + row.1.total,
            sums(rows).1 - rows[k].1.correct + row.1.correct,
        ),
{
    let whole = rows.update(k, row);
    lemma_sums_update(rows, k, row);
    assert forall|i: int| 0 <= i < whole.len() implies #[trigger] name_at(whole, i) == name_at(
        rows,
        i,
    ) by {}
    assert forall|i: int, j: int| 0 <= i < j < whole.len() implies comes_before(
        #[trigger] name_at(whole, i),
        #[trigger] name_at(whole, j),
    ) by {
        assert(comes_before(name_at(rows, i), name_at(rows, j)));
    }
    lemma_counts(rows);
    lemma_counts(whole);
    let wanted = counts(rows).insert(row.0@, (row.1.total as int, row.1.correct as int));
    assert forall|n: Seq<char>| counts(whole).dom().contains(n) == wanted.dom().contains(n) by {
        if counts(whole).dom().contains(n) {
            let i = choose|i: int| 0 <= i < whole.len() && #[trigger] name_at(whole, i) == n;
            assert(name_at(rows, i) == n);
        }
        if counts(rows).dom().contains(n) {
            let i = choose|i: int| 0 <= i < rows.len() && #[trigger] name_at(rows, i) == n;
            assert(name_at(whole, i) == n);
        }
        assert(name_at(whole, k) == row.0@);
    }
    assert forall|n: Seq<char>| counts(whole).dom().contains(n) implies counts(whole)[n]
        == wanted[n] by {
        let i = choose|i: int| 0 <= i < whole.len() && #[trigger] name_at(whole, i) == n;
        assert(name_at(rows, i) == n);
        if i < k {
            assert(comes_before(name_at(rows, i), name_at(rows, k)));
            lemma_order(n, row.0@, n);
        } else if i > k {
            assert(comes_before(name_at(rows, k), name_at(rows, i)));
            lemma_order(row.0@, n, row.0@);
        }
    }
    assert(counts(whole) =~= wanted);
}

/// Names are ordered by the first character in which they differ, and a name comes before
/// every longer one that begins with it.
pub proof fn law_names_are_ordered_by_their_first_difference(
    common: Seq<char>,
    a: Seq<char>,
    b: Seq<char>,
)
    ensures
        a.len() > 0 && b.len() > 0 && a[0] != b[0] ==> (comes_before(common + a, common + b)
            <==> a[0] < b[0]),
        b.len() > 0 ==> comes_before(common, common + b) && !comes_before(common + b, common),
        !comes_before(common, common),
    decreases common.len(),
{
    if common.len() > 0 {
        let rest = common.drop_first();
        law_names_are_ordered_by_their_first_difference(rest, a, b);
        assert((common + a).drop_first() =~= rest + a);
        assert((common + b).drop_first() =~= rest + b);
        assert((common + a).first() == common.first() && (common + b).first() == common.first());
    } else {
        assert(common + a =~= a);
        assert(common + b =~= b);
    }
}

/// The rows hold one entry for every monster, and the totals add them up.
pub proof fn law_rows_hold_the_counts(report: RecognitionReport, i: int)
    requires
        report.is_consistent(),
        0 <= i < report.per_monster@.len(),
    ensures
        report@.dom().contains(report.per_monster@[i].0@),
        report@[report.per_monster@[i].0@] == (
            report.per_monster@[i].1.total as int,
            report.per_monster@[i].1.correct as int,
        ),
        report.per_monster@[i].1.total <= report.total,
        report.per_monster@[i].1.correct <= report.total_correct,
        report.per_monster@.len() == 1 ==> report.total == report.per_monster@[i].1.total
            && report.total_correct == report.per_monster@[i].1.correct,
{
    lemma_counts(report.per_monster@);
    assert(name_at(report.per_monster@, i) == report.per_monster@[i].0@);
    lemma_sums_bound(report.per_monster@, i);
    reveal_with_fuel(sums, 2);
}

/// The totals of rows one after the other are the sums of the totals.
pub proof fn law_sums_add_up(a: Seq<(String, MonsterStat)>, b: Seq<(String, MonsterStat)>)
    ensures
        sums(a + b) == (sums(a).0 + sums(b).0, sums(a).1 + sums(b).1),
    decreases b.len(),
{
    if b.len() == 0 {
        assert(a + b =~= a);
    } else {
        law_sums_add_up(a, b.drop_last());
        assert((a + b).drop_last() =~= a + b.drop_last());
        assert((a + b).last() == b.last());
    }
}

/// Of the templates that fit in the crop, number `i` is the first of the highest.
pub open spec fn leads(
    templates: Seq<MonsterTemplate>,
    scores: Seq<Score>,
    crop_cols: int,
    crop_rows: int,
    i: int,
) -> bool {
    &&& 0 <= i < templates.len()
    &&& templates[i].cols <= crop_cols && templates[i].rows <= crop_rows
    &&& forall|j: int|
        0 <= j < templates.len() && (#[trigger] templates[j]).cols <= crop_cols
            && templates[j].rows <= crop_rows ==> !scores[i].ranks_below(scores[j])
    &&& forall|j: int|
        0 <= j < i && (#[trigger] templates[j]).cols <= crop_cols && templates[j].rows <= crop_rows
            ==> scores[j].ranks_below(scores[i])
}

/// A crop is judged by the first of the highest templates that fit in it: it is right
/// exactly when that one reaches the confidence and has the expected name, another monster
/// when it reaches the confidence under another name, and not good enough otherwise.
pub proof fn law_crops_are_judged_by_the_best_template(
    verdict: Verdict,
    expected: Seq<char>,
    templates: Seq<MonsterTemplate>,
    scores: Seq<Score>,
    crop_cols: int,
    crop_rows: int,
    min_confidence: Score,
    i: int,
)
    requires
        templates.len() == scores.len(),
        is_verdict(
            verdict,
            expected,
            best_template(crop_cols, crop_rows, templates, scores),
            min_confidence,
        ),
        leads(templates, scores, crop_cols, crop_rows, i),
        min_confidence.is_number(),
    ensures
        verdict is Correct <==> scores[i].at_least(min_confidence) && templates[i].name@
            == expected,
        verdict is Misidentified <==> scores[i].at_least(min_confidence) && templates[i].name@
            != expected,
        verdict is BelowThreshold <==> !scores[i].at_least(min_confidence),
        match verdict {
            Verdict::BelowThreshold { predicted, score } => predicted@ == templates[i].name@
                && score == scores[i],
            Verdict::Misidentified { predicted, score } => predicted@ == templates[i].name@
                && score == scores[i],
            _ => true,
        },
{
    let flags = monster_matcher::usable_templates(templates, crop_cols, crop_rows);
    best_match::law_top_match_is_the_highest(flags, scores);
    assert forall|j: int| 0 <= j < templates.len() implies flags[j] == ((
    #[trigger] templates[j]).cols <= crop_cols && templates[j].rows <= crop_rows) by {}
    assert(flags[i]);
    match best_match::top_index(flags, scores) {
        Some(k) => {
            assert(templates[k].cols <= crop_cols && templates[k].rows <= crop_rows);
            if k < i {
                assert(scores[k].ranks_below(scores[i]));
            }
            if i < k {
                assert(scores[i].ranks_below(scores[k]));
            }
            assert(k == i);
        },
        None => {},
    }
}

/// A crop that no template fits in is not judged by any.
pub proof fn law_crops_without_templates_are_not_judged(
    verdict: Verdict,
    expected: Seq<char>,
    templates: Seq<MonsterTemplate>,
    scores: Seq<Score>,
    crop_cols: int,
    crop_rows: int,
    min_confidence: Score,
)
    requires
        templates.len() == scores.len(),
        is_verdict(
            verdict,
            expected,
            best_template(crop_cols, crop_rows, templates, scores),
            min_confidence,
        ),
    ensures
        verdict is NoComparableTemplate <==> forall|i: int|
            0 <= i < templates.len() ==> (#[trigger] templates[i]).cols > crop_cols
                || templates[i].rows > crop_rows,
{
    let flags = monster_matcher::usable_templates(templates, crop_cols, crop_rows);
    best_match::law_top_match_is_the_highest(flags, scores);
    assert forall|j: int| 0 <= j < templates.len() implies flags[j] == ((
    #[trigger] templates[j]).cols <= crop_cols && templates[j].rows <= crop_rows) by {}
    match best_match::top_index(flags, scores) {
        Some(k) => {
            assert(templates[k].cols <= crop_cols && templates[k].rows <= crop_rows);
        },
        None => {
            assert forall|i: int| 0 <= i < templates.len() implies (#[trigger] templates[i]).cols
                > crop_cols || templates[i].rows > crop_rows by {
                assert(!flags[i]);
            }
        },
    }
}

} // verus!
