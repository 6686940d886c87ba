//! A rating over the whole scope, so that the way from a tool to a photo can be driven before
//! the first real tool exists.

use vstd::prelude::*;

use crate::changeset::{wanted_views, Wanted, WantedView};
use crate::text::{chars, copy, decimal, natural, read_natural, signed, signed_of, trim, trimmed, views};
use crate::tools::Settings;
use crate::write::{field_views, Change, Field, FieldView};

verus! {

pub struct Rating;

#[derive(Debug, Clone, Copy, PartialEq, Eq, Structural)]
pub struct Stars(pub i64);

impl Default for Stars {
    fn default() -> (stars: Stars)
        ensures
            stars == Stars(3),
    {
        Stars(3)
    }
}

/// The stars a text is, from 0 to 5; a sign before the number is no matter.
pub open spec fn stars_of(text: Seq<char>) -> Option<nat> {
    let typed = trimmed(text);
    if typed.len() > 1 && typed[0] == '+' {
        natural(typed.skip(1), 5)
    } else if typed.len() > 1 && typed[0] == '-' {
        natural(typed.skip(1), 0)
    } else {
        natural(typed, 5)
    }
}

impl Settings for Stars {
    open spec fn sound(&self) -> bool {
        true
    }

    fn read(text: &str) -> (stars: Result<Stars, String>)
        ensures
            match stars {
                Ok(stars) => stars.0 >= 0 && stars_of(text@) == Some(stars.0 as nat),
                Err(why) => stars_of(text@) is None && why@ == text@
                    + " is not a rating from 0 to 5"@,
            },
    {
        let typed = trim(text);
        let list = chars(&typed);
        let signed_text = list.len() > 1 && (list[0] == '+' || list[0] == '-');
        let most: u64 = if signed_text && list[0] == '-' {
            0
        } else {
            5
        };
        let from: usize = if signed_text {
            1
        } else {
            0
        };
        let digits = chars(&crate::text::part(&list, from, list.len()));
        proof {
            assert(list@.skip(0) =~= list@);
            assert(digits@ =~= list@.skip(from as int));
        }
        match read_natural(&digits, most) {
            Some(stars) => Ok(Stars(stars as i64)),
            None => Err(copy(text).concat(" is not a rating from 0 to 5")),
        }
    }

    fn written(&self) -> (text: String)
        ensures
            text@ == signed(self.0 as int),
    {
        signed_of(self.0)
    }
}

/// A rating that can be given is read back from its text.
pub proof fn stars_are_read_back(stars: nat)
    requires
        stars <= 5,
    ensures
        stars_of(signed(stars as int)) == Some(stars),
{
    let text = decimal(stars);
    crate::text::decimal_reads_back(stars);
    crate::text::lemma_decimal_len(stars);
    assert(signed(stars as int) == text);
    assert(crate::text::is_digit(text[0]));
    assert(crate::text::trimmed_start(text) == text);
    assert(crate::text::trimmed_end(text) == text);
    assert(trimmed(text) == text);
}

impl Rating {
    pub fn key(&self) -> (key: &'static str)
        ensures
            key@ == "demo-rating"@,
    {
        "demo-rating"
    }

    pub fn title(&self) -> (title: &'static str)
        ensures
            title@ == "Demo Rating"@,
    {
        "Demo Rating"
    }

    pub fn fixes(&self) -> (line: &'static str)
        ensures
            line@ == "Sets one rating on every photo in the scope"@,
    {
        "Sets one rating on every photo in the scope"
    }

    pub fn named(&self, stars: &Stars) -> (title: String)
        ensures
            title@ == "Set a rating of "@ + signed(stars.0 as int),
    {
        copy("Set a rating of ").concat(&signed_of(stars.0))
    }

    /// The rating for each of these photos.
    pub fn wanted(&self, paths: &[String], stars: &Stars) -> (wanted: Vec<Wanted>)
        ensures
            wanted_views(wanted@) == views(paths@).map_values(
                |path: Seq<char>|
                    WantedView {
                        rel_path: path,
                        change: seq![FieldView::Rating(Some(stars.0 as int))],
                        refused: None,
                        moved: None,
                    },
            ),
    {
        let mut wanted: Vec<Wanted> = Vec::new();
        let ghost goal = views(paths@).map_values(
            |path: Seq<char>|
                WantedView {
                    rel_path: path,
                    change: seq![FieldView::Rating(Some(stars.0 as int))],
                    refused: None,
                    moved: None,
                },
        );
        for i in 0..paths.len()
            invariant
                goal == views(paths@).map_values(
                    |path: Seq<char>|
                        WantedView {
                            rel_path: path,
                            change: seq![FieldView::Rating(Some(stars.0 as int))],
                            refused: None,
                            moved: None,
                        },
                ),
                wanted_views(wanted@) == goal.take(i as int),
        {
            let ghost before = wanted_views(wanted@);
            let mut fields: Vec<Field> = Vec::new();
            fields.push(Field::Rating(Some(stars.0)));
            assert(field_views(fields@) =~= seq![FieldView::Rating(Some(stars.0 as int))]);
            wanted.push(Wanted::new(&paths[i], Change::of(fields)));
            assert(wanted_views(wanted@) =~= before.push(goal[i as int]));
            assert(goal.take(i + 1) =~= before.push(goal[i as int]));
        }
        assert(goal.take(paths@.len() as int) =~= goal);
        wanted
    }
}

} // verus!
