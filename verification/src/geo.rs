//! Places without the network: the GeoNames dumps turned into one small database that answers
//! "where is this name" and "what is at these coordinates".
//!
//! The data is from [GeoNames](https://www.geonames.org/), licensed under CC BY 4.0. Like the
//! photo cache this file is disposable: it is built from the dumps and can be made again.

use vstd::prelude::*;

use crate::text::{
    alphanumeric, ascii, chars, is_alphanumeric, lowercase, lowercased, part, plain, small,
    trimmed, trimmed_end, white,
};

pub mod download;
pub mod import;
pub mod lookup;
pub mod reverse;
pub mod zones;

verus! {

#[derive(Debug, Clone, PartialEq, Eq)]
pub enum Error {
    /// A dump the import needs is not in the directory.
    Missing(String),
    /// A dump is there but not what we expect.
    Malformed(String),
}

#[verifier::ext_equal]
pub enum ErrorView {
    Missing(Seq<char>),
    Malformed(Seq<char>),
}

impl View for Error {
    type V = ErrorView;

    open spec fn view(&self) -> ErrorView {
        match self {
            Error::Missing(path) => ErrorView::Missing(path@),
            Error::Malformed(why) => ErrorView::Malformed(why@),
        }
    }
}

impl Error {
    pub fn to_string(&self) -> (why: String)
        ensures
            why@ == (match self@ {
                ErrorView::Missing(path) => path + " is not there"@,
                ErrorView::Malformed(why) => why,
            }),
    {
        match self {
            Error::Missing(path) => path.clone().concat(" is not there"),
            Error::Malformed(why) => why.clone(),
        }
    }
}

/// What the database holds, for the dashboard and for the tests.
#[derive(Debug, Clone, Copy, PartialEq, Eq, Structural)]
pub struct Counts {
    pub countries: i64,
    pub areas: i64,
    pub places: i64,
    pub names: i64,
    pub rings: i64,
}

impl Default for Counts {
    fn default() -> (counts: Counts)
        ensures
            counts == (Counts { countries: 0, areas: 0, places: 0, names: 0, rings: 0 }),
    {
        Counts { countries: 0, areas: 0, places: 0, names: 0, rings: 0 }
    }
}

impl Counts {
    /// Whether there is anything to look up.
    pub fn is_filled(&self) -> (yes: bool)
        ensures
            yes == (self.places > 0),
    {
        self.places > 0
    }
}

// ---- Folding -----------------------------------------------------------------------------------

/// What `unicode_normalization`'s canonical decomposition makes of a text.
pub uninterp spec fn decomposed(s: Seq<char>) -> Seq<char>;

/// `UnicodeNormalization::nfd`: the text in Unicode's normalization form D, by the tables of the
/// crate. Text of ASCII alone stays as it is; what becomes of any other is not stated.
#[verifier::external_body]
fn decompose(text: &str) -> (apart: String)
    ensures
        apart@ == decomposed(text@),
        ascii(text@) ==> apart@ == text@,
{
    unicode_normalization::UnicodeNormalization::nfd(text).collect()
}

/// What a letter without a decomposition is spelled as.
pub open spec fn respelled(c: char) -> Option<Seq<char>> {
    if c == 'ß' {
        Some("ss"@)
    } else if c == 'ø' || c == 'Ø' {
        Some("o"@)
    } else if c == 'đ' || c == 'Đ' {
        Some("d"@)
    } else if c == 'ł' || c == 'Ł' {
        Some("l"@)
    } else if c == 'æ' || c == 'Æ' {
        Some("ae"@)
    } else if c == 'œ' || c == 'Œ' {
        Some("oe"@)
    } else if c == 'þ' || c == 'Þ' {
        Some("th"@)
    } else if c == 'ð' || c == 'Ð' {
        Some("d"@)
    } else {
        None
    }
}

pub open spec fn combining(c: char) -> bool {
    let code = c as u32;
    0x0300 <= code <= 0x036f || 0x1ab0 <= code <= 0x1aff || 0x20d0 <= code <= 0x20ff
}

/// What has been folded of a text that is taken apart, and whether a space stands at its end.
pub open spec fn folded_upto(apart: Seq<char>) -> (Seq<char>, bool)
    decreases apart.len(),
{
    if apart.len() == 0 {
        (Seq::empty(), false)
    } else {
        let (folded, space) = folded_upto(apart.drop_last());
        let c = apart.last();
        match respelled(c) {
            Some(letters) => (folded + letters, false),
            None => if combining(c) {
                (folded, space)
            } else if alphanumeric(c) {
                (folded + lowercased(seq![c]), false)
            } else if folded.len() > 0 && !space {
                (folded.push(' '), true)
            } else {
                (folded, space)
            },
        }
    }
}

/// A text in the one spelling for comparing.
pub open spec fn folded(text: Seq<char>) -> Seq<char> {
    trimmed_end(folded_upto(decomposed(text)).0)
}

/// What has been folded of a text of ASCII alone, and whether a space stands at its end.
pub open spec fn plainly_upto(s: Seq<char>) -> (Seq<char>, bool)
    decreases s.len(),
{
    if s.len() == 0 {
        (Seq::empty(), false)
    } else {
        let (folded, space) = plainly_upto(s.drop_last());
        if plain(s.last()) {
            (folded.push(small(s.last())), false)
        } else if folded.len() > 0 && !space {
            (folded.push(' '), true)
        } else {
            (folded, space)
        }
    }
}

/// A text of ASCII alone in the one spelling for comparing: small letters and digits, and one space
/// for whatever stands between them.
pub open spec fn plainly_folded(s: Seq<char>) -> Seq<char> {
    trimmed_end(plainly_upto(s).0)
}

fn respell(c: char) -> (letters: Option<&'static str>)
    ensures
        match letters {
            Some(letters) => respelled(c) == Some(letters@),
            None => respelled(c) is None,
        },
{
    if c == 'ß' {
        Some("ss")
    } else if c == 'ø' || c == 'Ø' {
        Some("o")
    } else if c == 'đ' || c == 'Đ' {
        Some("d")
    } else if c == 'ł' || c == 'Ł' {
        Some("l")
    } else if c == 'æ' || c == 'Æ' {
        Some("ae")
    } else if c == 'œ' || c == 'Œ' {
        Some("oe")
    } else if c == 'þ' || c == 'Þ' {
        Some("th")
    } else if c == 'ð' || c == 'Ð' {
        Some("d")
    } else {
        None
    }
}

fn is_combining(c: char) -> (yes: bool)
    ensures
        yes == combining(c),
{
    let code: u32 = c as u32;
    (0x0300 <= code && code <= 0x036f) || (0x1ab0 <= code && code <= 0x1aff) || (0x20d0 <= code
        && code <= 0x20ff)
}

/// One spelling for comparing: lower case, no accents, no punctuation, single spaces. What a
/// person types, what a folder is called and what GeoNames holds all have to meet somewhere.
pub fn fold(text: &str) -> (spelling: String)
    ensures
        spelling@ == folded(text@),
        ascii(text@) ==> spelling@ == plainly_folded(text@),
{
    let apart = chars(&decompose(text));
    let ghost all = decomposed(text@);
    let mut spelling = String::new();
    let mut space = false;
    assert(spelling@ =~= Seq::empty());
    assert(all.take(0) =~= Seq::empty());
    for i in 0..apart.len()
        invariant
            apart@ == all,
            (spelling@, space) == folded_upto(all.take(i as int)),
            ascii(text@) ==> all == text@,
            ascii(text@) ==> (spelling@, space) == plainly_upto(all.take(i as int)),
    {
        assert(all.take(i + 1).drop_last() =~= all.take(i as int));
        let c: char = apart[i];
        assert(all.take(i + 1).last() == c);
        assert(ascii(text@) ==> c <= '\x7f');
        let ghost folded_so_far = spelling@;
        if let Some(letters) = respell(c) {
            spelling.append(letters);
            space = false;
        } else if is_combining(c) {
        } else if is_alphanumeric(c) {
            let one = part(&apart, i, i + 1);
            assert(one@ =~= seq![c]);
            let lower = lowercase(&one);
            spelling.append(&lower);
            space = false;
            proof {
                if ascii(text@) {
                    assert(lower@ =~= seq![small(c)]);
                    assert(spelling@ =~= folded_so_far.push(small(c)));
                }
            }
        } else if !crate::text::empty(&spelling) && !space {
            let gap = part(&[' '], 0, 1);
            let ghost before = spelling@;
            spelling.append(&gap);
            assert(spelling@ =~= before.push(' '));
            space = true;
        }
    }
    assert(all.take(apart@.len() as int) =~= all);
    trim_end(&spelling)
}

/// Whether a text is in the one spelling: small letters, digits and single spaces between them.
pub open spec fn one_spelling(s: Seq<char>) -> bool {
    &&& forall|i: int|
        0 <= i < s.len() ==> #[trigger] s[i] == ' ' || ('0' <= s[i] && s[i] <= '9') || ('a' <= s[i]
            && s[i] <= 'z')
    &&& s.len() > 0 ==> s[0] != ' ' && s[s.len() - 1] != ' '
    &&& forall|i: int, j: int|
        0 <= i < s.len() && j == i + 1 && j < s.len() && #[trigger] s[i] == ' ' ==> #[trigger] s[j]
            != ' '
}

/// What has been folded so far is in the one spelling but for a space at its end.
proof fn lemma_plainly(s: Seq<char>)
    ensures
        ({
            let (folded, space) = plainly_upto(s);
            &&& space == (folded.len() > 0 && folded.last() == ' ')
            &&& one_spelling(
                if space {
                    folded.drop_last()
                } else {
                    folded
                },
            )
            &&& space ==> folded.len() > 1
        }),
    decreases s.len(),
{
    if s.len() > 0 {
        lemma_plainly(s.drop_last());
        let (before, space) = plainly_upto(s.drop_last());
        let c = s.last();
        if plain(c) {
            let now = before.push(small(c));
            assert(small(c) != ' ' && (('0' <= small(c) && small(c) <= '9') || ('a' <= small(c)
                && small(c) <= 'z')));
            if space {
                let front = before.drop_last();
                assert forall|i: int| 0 <= i < now.len() implies #[trigger] now[i] == ' ' || ('0'
                    <= now[i] && now[i] <= '9') || ('a' <= now[i] && now[i] <= 'z') by {
                    if i < front.len() {
                        assert(now[i] == front[i]);
                    }
                }
                assert(now[0] == front[0]);
                assert forall|i: int, j: int|
                    0 <= i < now.len() && j == i + 1 && j < now.len() && #[trigger] now[i]
                        == ' ' implies #[trigger] now[j] != ' ' by {
                    if j < front.len() {
                        assert(front[i] == now[i] && front[j] == now[j]);
                    } else if j == front.len() {
                        assert(front[i] == now[i]);
                    }
                }
            } else {
                assert forall|i: int| 0 <= i < now.len() implies #[trigger] now[i] == ' ' || ('0'
                    <= now[i] && now[i] <= '9') || ('a' <= now[i] && now[i] <= 'z') by {
                    if i < before.len() {
                        assert(now[i] == before[i]);
                    }
                }
                assert forall|i: int, j: int|
                    0 <= i < now.len() && j == i + 1 && j < now.len() && #[trigger] now[i]
                        == ' ' implies #[trigger] now[j] != ' ' by {
                    if j < before.len() {
                        assert(before[i] == now[i] && before[j] == now[j]);
                    }
                }
            }
        } else if before.len() > 0 && !space {
            assert(before.push(' ').drop_last() =~= before);
        }
    }
}

/// What is in the one spelling is folded to itself, up to any place in it.
proof fn lemma_one_spelling_stays(s: Seq<char>, n: int)
    requires
        one_spelling(s),
        0 <= n <= s.len(),
    ensures
        plainly_upto(s.take(n)) == (s.take(n), n > 0 && s[n - 1] == ' '),
    decreases n,
{
    if n > 0 {
        lemma_one_spelling_stays(s, n - 1);
        let upto = s.take(n);
        assert(upto.drop_last() =~= s.take(n - 1));
        assert(upto.last() == s[n - 1]);
        assert(s.take(n - 1).push(s[n - 1]) =~= upto);
        if s[n - 1] == ' ' {
            if n == 1 {
                assert(s[0] != ' ');
            } else if s[n - 2] == ' ' {
                assert(s[n - 1] != ' ');
            }
        }
    } else {
        assert(s.take(0) =~= Seq::empty());
    }
}

/// A text of ASCII alone is folded to small letters, digits and single spaces between them, and
/// folding that again changes nothing.
pub proof fn plain_folding_is_final(s: Seq<char>)
    ensures
        one_spelling(plainly_folded(s)),
        ascii(plainly_folded(s)),
        plainly_folded(plainly_folded(s)) == plainly_folded(s),
{
    lemma_plainly(s);
    let (whole, space) = plainly_upto(s);
    let t = plainly_folded(s);
    if space {
        assert(white(whole.last()));
        let front = whole.drop_last();
        assert(!white(front.last()));
        assert(trimmed_end(front) == front);
        assert(t == front);
    } else {
        if whole.len() > 0 {
            assert(!white(whole.last()));
        }
        assert(t == whole);
    }
    lemma_one_spelling_stays(t, t.len() as int);
    assert(t.take(t.len() as int) =~= t);
    if t.len() > 0 {
        assert(!white(t.last()));
    }
    assert(trimmed_end(t) == t);
}

proof fn lemma_trimmed_end(s: Seq<char>)
    ensures
        trimmed_end(s).len() > 0 ==> !white(trimmed_end(s).last()),
    decreases s.len(),
{
    if s.len() > 0 && white(s.last()) {
        lemma_trimmed_end(s.drop_last());
    }
}

/// Whatever the text, there is no white space at the end of what it is folded to.
pub proof fn folding_leaves_no_space_at_the_end(text: Seq<char>)
    ensures
        folded(text).len() > 0 ==> !white(folded(text).last()),
{
    lemma_trimmed_end(folded_upto(decomposed(text)).0);
}

/// Whether a letter is folded to letters alone: to no white space, and not to nothing.
pub open spec fn folds_to_letters(c: char) -> bool {
    &&& lowercased(seq![c]).len() > 0
    &&& forall|i: int|
        0 <= i < lowercased(seq![c]).len() ==> !white(#[trigger] lowercased(seq![c])[i])
}

/// Whether there is no white space in a text but single spaces between other characters.
pub open spec fn single_spaced(s: Seq<char>) -> bool {
    &&& forall|i: int| 0 <= i < s.len() ==> #[trigger] s[i] == ' ' || !white(s[i])
    &&& s.len() > 0 ==> s[0] != ' ' && s[s.len() - 1] != ' '
    &&& forall|i: int, j: int|
        0 <= i < s.len() && j == i + 1 && j < s.len() && #[trigger] s[i] == ' ' ==> #[trigger] s[j]
            != ' '
}

/// More characters that are not white behind a single-spaced text, with a space between or without,
/// keep it single-spaced.
proof fn lemma_single_spaced(s: Seq<char>, space: bool, more: Seq<char>)
    requires
        single_spaced(s),
        space ==> s.len() > 0,
        more.len() > 0,
        forall|i: int| 0 <= i < more.len() ==> !white(#[trigger] more[i]),
    ensures
        single_spaced(
            if space {
                s.push(' ') + more
            } else {
                s + more
            },
        ),
{
    let front = if space {
        s.push(' ')
    } else {
        s
    };
    let now = front + more;
    assert forall|i: int| 0 <= i < now.len() implies #[trigger] now[i] == ' ' || !white(now[i]) by {
        if i < s.len() {
            assert(now[i] == s[i]);
        } else if i >= front.len() {
            assert(now[i] == more[i - front.len()]);
        }
    }
    assert(now[now.len() - 1] == more[more.len() - 1]);
    if s.len() > 0 {
        assert(now[0] == s[0]);
    } else {
        assert(now[0] == more[0]);
    }
    assert forall|i: int, j: int|
        0 <= i < now.len() && j == i + 1 && j < now.len() && #[trigger] now[i]
            == ' ' implies #[trigger] now[j] != ' ' by {
        if j < s.len() {
            assert(now[i] == s[i] && now[j] == s[j]);
        } else if j >= front.len() {
            assert(now[j] == more[j - front.len()]);
        } else {
            assert(now[i] == s[i]);
        }
    }
}

proof fn lemma_folded_spacing(apart: Seq<char>)
    requires
        forall|i: int|
            0 <= i < apart.len() && alphanumeric(#[trigger] apart[i]) ==> folds_to_letters(apart[i]),
    ensures
        ({
            let (folded, space) = folded_upto(apart);
            &&& space ==> folded.len() > 1 && folded.last() == ' '
            &&& single_spaced(
                if space {
                    folded.drop_last()
                } else {
                    folded
                },
            )
        }),
    decreases apart.len(),
{
    if apart.len() > 0 {
        let front = apart.drop_last();
        assert forall|i: int| 0 <= i < front.len() && alphanumeric(#[trigger] front[i]) implies
            folds_to_letters(front[i]) by {
            assert(front[i] == apart[i]);
        }
        lemma_folded_spacing(front);
        let (before, space) = folded_upto(front);
        let c = apart[apart.len() - 1];
        let bare = if space {
            before.drop_last()
        } else {
            before
        };
        if space {
            assert(bare.push(' ') =~= before);
        }
        reveal_strlit("ss");
        reveal_strlit("o");
        reveal_strlit("d");
        reveal_strlit("l");
        reveal_strlit("ae");
        reveal_strlit("oe");
        reveal_strlit("th");
        match respelled(c) {
            Some(letters) => {
                lemma_single_spaced(bare, space, letters);
            },
            None => if combining(c) {
            } else if alphanumeric(c) {
                lemma_single_spaced(bare, space, lowercased(seq![c]));
            } else if before.len() > 0 && !space {
                assert(before.push(' ').drop_last() =~= before);
            },
        }
    }
}

/// What a text is folded to has no white space but single spaces inside it, wherever the letters of
/// the text have lowercase forms of letters alone.
pub proof fn folding_leaves_single_spaces(text: Seq<char>)
    requires
        forall|i: int|
            0 <= i < decomposed(text).len() && alphanumeric(#[trigger] decomposed(text)[i])
                ==> folds_to_letters(decomposed(text)[i]),
    ensures
        single_spaced(folded(text)),
{
    lemma_folded_spacing(decomposed(text));
    let (whole, space) = folded_upto(decomposed(text));
    if space {
        let front = whole.drop_last();
        assert(white(whole.last()));
        assert(front[front.len() - 1] != ' ');
        assert(!white(front.last()));
        assert(trimmed_end(front) == front);
    } else if whole.len() > 0 {
        assert(whole[whole.len() - 1] != ' ');
        assert(!white(whole.last()));
    }
}

/// Whether folding keeps a character: a letter or a number that is its own lowercase form.
pub open spec fn settled(c: char) -> bool {
    &&& alphanumeric(c)
    &&& !combining(c)
    &&& respelled(c) is None
    &&& lowercased(seq![c]) == seq![c]
}

proof fn lemma_settled_stays(s: Seq<char>, n: int)
    requires
        single_spaced(s),
        !alphanumeric(' '),
        forall|i: int| 0 <= i < s.len() ==> #[trigger] s[i] == ' ' || settled(s[i]),
        0 <= n <= s.len(),
    ensures
        folded_upto(s.take(n)) == (s.take(n), n > 0 && s[n - 1] == ' '),
    decreases n,
{
    if n > 0 {
        lemma_settled_stays(s, n - 1);
        let upto = s.take(n);
        assert(upto.drop_last() =~= s.take(n - 1));
        assert(upto.last() == s[n - 1]);
        assert(s.take(n - 1).push(s[n - 1]) =~= upto);
        assert(s.take(n - 1) + seq![s[n - 1]] =~= upto);
        if s[n - 1] == ' ' {
            if n == 1 {
                assert(s[0] != ' ');
            } else if s[n - 2] == ' ' {
                assert(s[n - 1] != ' ');
            }
        } else {
            assert(settled(s[n - 1]));
        }
    } else {
        assert(s.take(0) =~= Seq::empty());
    }
}

/// Folding what was folded changes nothing, wherever its letters are their own lowercase forms and
/// have nothing left to be taken apart.
pub proof fn folding_again_changes_nothing(text: Seq<char>)
    requires
        !alphanumeric(' '),
        single_spaced(folded(text)),
        decomposed(folded(text)) == folded(text),
        forall|i: int|
            0 <= i < folded(text).len() ==> #[trigger] folded(text)[i] == ' ' || settled(
                folded(text)[i],
            ),
    ensures
        folded(folded(text)) == folded(text),
{
    let t = folded(text);
    lemma_settled_stays(t, t.len() as int);
    assert(t.take(t.len() as int) =~= t);
    folding_leaves_no_space_at_the_end(text);
    assert(trimmed_end(t) == t);
}

fn trim_end(text: &str) -> (trimmed: String)
    ensures
        trimmed@ == trimmed_end(text@),
{
    let list = chars(text);
    let mut end: usize = list.len();
    assert(text@.take(end as int) =~= text@);
    while end > 0 && crate::text::is_white(list[end - 1])
        invariant
            list@ == text@,
            end <= list@.len(),
            trimmed_end(text@) == trimmed_end(text@.take(end as int)),
        decreases end,
    {
        assert(text@.take(end as int).drop_last() =~= text@.take(end - 1));
        end -= 1;
    }
    let bare = part(&list, 0, end);
    assert(bare@ =~= text@.take(end as int));
    bare
}

/// What is respelled is respelled in one or two of the plain small letters, and a plain letter
/// never is.
pub proof fn what_is_respelled_is_plain(c: char)
    ensures
        respelled(c) matches Some(plain) ==> 1 <= plain.len() <= 2 && forall|i: int|
            0 <= i < plain.len() ==> 'a' <= #[trigger] plain[i] <= 'z',
        'a' <= c <= 'z' || 'A' <= c <= 'Z' ==> respelled(c) is None,
{
    reveal_strlit("ss");
    reveal_strlit("o");
    reveal_strlit("d");
    reveal_strlit("l");
    reveal_strlit("ae");
    reveal_strlit("oe");
    reveal_strlit("th");
}

} // verus!
