//! Templates of monster names: what a template file is called, and which template a
//! crop shows.
use crate::best_match;
use crate::score::Score;
use crate::text;
use vstd::prelude::*;

verus! {

/// A template of a monster name and its size.
#[derive(Debug, Clone)]
pub struct MonsterTemplate {
    pub name: String,
    pub cols: i32,
    pub rows: i32,
}

/// A template can be looked for in a crop that is at least as large.
pub open spec fn fits_in(cols: int, rows: int, crop_cols: int, crop_rows: int) -> bool {
    cols <= crop_cols && rows <= crop_rows
}

/// Whether a template can be looked for in a crop.
pub fn template_fits(cols: i32, rows: i32, crop_cols: i32, crop_rows: i32) -> (r: bool)
    ensures
        r == fits_in(cols as int, rows as int, crop_cols as int, crop_rows as int),
{
    cols <= crop_cols && rows <= crop_rows
}

/// The part of a file name before `.png`; `None` for any other file, and for one that
/// is called nothing else.
pub open spec fn png_stem(file_name: Seq<char>) -> Option<Seq<char>> {
    let n = file_name.len();
    if n > 4 && file_name.skip(n - 4) == seq!['.', 'p', 'n', 'g'] {
        Some(file_name.take(n - 4))
    } else {
        None
    }
}

/// The name that a template file stands for.
pub fn template_name(file_name: &str) -> (r: Option<String>)
    ensures
        match r {
            Some(name) => png_stem(file_name@) == Some(name@),
            None => png_stem(file_name@) is None,
        },
{
    let chars: Vec<char> = text::to_chars(file_name);
    let n: usize = chars.len();
    if n <= 4 {
        return None;
    }
    if chars[n - 4] == '.' && chars[n - 3] == 'p' && chars[n - 2] == 'n' && chars[n - 1] == 'g' {
        assert(chars@.skip(n - 4) =~= seq!['.', 'p', 'n', 'g']);
        let stem: String = text::from_chars(&chars.as_slice()[0..n - 4]);
        assert(stem@ =~= chars@.take(n - 4));
        Some(stem)
    } else {
        proof {
            let end = chars@.skip(n - 4);
            if end == seq!['.', 'p', 'n', 'g'] {
                assert(end[0] == '.' && end[1] == 'p' && end[2] == 'n' && end[3] == 'g');
            }
        }
        None
    }
}

/// Which templates can be looked for in a crop.
pub open spec fn usable_templates(
    templates: Seq<MonsterTemplate>,
    crop_cols: int,
    crop_rows: int,
) -> Seq<bool> {
    templates.map_values(
        |t: MonsterTemplate| fits_in(t.cols as int, t.rows as int, crop_cols, crop_rows),
    )
}

/// The name of the template that matches a crop best, and its score, however low; whether
/// it is high enough is up to the caller. There is none exactly when no template can be
/// looked for in the crop. `scores` holds the score of each template; that
/// of one that does not fit is not looked at.
pub fn identify_crop(
    crop_cols: i32,
    crop_rows: i32,
    templates: &[MonsterTemplate],
    scores: &[Score],
) -> (r: Option<(String, Score)>)
    requires
        templates@.len() == scores@.len(),
    ensures
        match best_match::top_index(
            usable_templates(templates@, crop_cols as int, crop_rows as int),
            scores@,
        ) {
            Some(i) => r matches Some(p) && p.0@ == templates@[i].name@ && p.1 == scores@[i],
            None => r is None,
        },
        r is None <==> forall|i: int|
            0 <= i < templates@.len() ==> !fits_in(
                (#[trigger] templates@[i]).cols as int,
                templates@[i].rows as int,
                crop_cols as int,
                crop_rows as int,
            ),
{
    let mut usable: Vec<bool> = Vec::new();
    let mut i: usize = 0;
    while i < templates.len()
        invariant
            i <= templates@.len(),
            usable@ == usable_templates(
                templates@,
                crop_cols as int,
                crop_rows as int,
            ).take(i as int),
        decreases templates.len() - i,
    {
        let fits: bool = template_fits(templates[i].cols, templates[i].rows, crop_cols, crop_rows);
        usable.push(fits);
        assert(usable@ =~= usable_templates(
            templates@,
            crop_cols as int,
            crop_rows as int,
        ).take(i + 1));
        i = i + 1;
    }
    assert(usable@ =~= usable_templates(templates@, crop_cols as int, crop_rows as int));
    proof {
        let flags = usable_templates(templates@, crop_cols as int, crop_rows as int);
        best_match::law_top_match_is_the_highest(flags, scores@);
        assert forall|i: int| 0 <= i < templates@.len() implies fits_in(
            (#[trigger] templates@[i]).cols as int,
            templates@[i].rows as int,
            crop_cols as int,
            crop_rows as int,
        ) == flags[i] by {}
    }
    match best_match::find_top(usable.as_slice(), scores) {
        Some(k) => Some((templates[k].name.clone(), scores[k])),
        None => None,
    }
}

/// A template file is one whose name ends with `.png` and has something before that, which
/// is the name that it stands for.
pub proof fn law_template_names_come_before_the_ending(file_name: Seq<char>, stem: Seq<char>)
    ensures
        png_stem(file_name) == Some(stem) <==> stem.len() > 0 && file_name == stem + seq![
            '.',
            'p',
            'n',
            'g',
        ],
        png_stem(stem + seq!['.', 'p', 'n', 'g']) == if stem.len() > 0 {
            Some(stem)
        } else {
            None
        },
{
    let ending = seq!['.', 'p', 'n', 'g'];
    let n = file_name.len();
    if n > 4 {
        assert(file_name =~= file_name.take(n - 4) + file_name.skip(n - 4));
    }
    let made = stem + ending;
    assert(made.skip(made.len() - 4) =~= ending);
    assert(made.take(made.len() - 4) =~= stem);
}

/// A template is compared exactly when neither of its sides is longer than that of the
/// crop; one of the size of the crop is.
pub proof fn law_templates_fit_in_crops_of_their_size(
    templates: Seq<MonsterTemplate>,
    crop_cols: int,
    crop_rows: int,
    i: int,
)
    requires
        0 <= i < templates.len(),
    ensures
        usable_templates(templates, crop_cols, crop_rows).len() == templates.len(),
        usable_templates(templates, crop_cols, crop_rows)[i] <==> !(templates[i].cols > crop_cols
            || templates[i].rows > crop_rows),
{
}

} // verus!
