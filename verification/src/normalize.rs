//! Key normalization.
//!
//! Index keys and queries are folded the same way:
//!
//! 1. compatibility decomposition (NFKD),
//! 2. combining marks dropped,
//! 3. lowercase,
//! 4. letters and numbers kept; runs of separators (white space and `-.,()/`) turned into
//!    one space between what is kept; everything else (apostrophes, quotes, `_`, other
//!    punctuation) dropped without a space.
use vstd::prelude::*;
use vstd::utf8::is_ascii_chars;

use crate::text::chars_of;
use crate::unicode::{
    alphanumeric, ascii_lower, combining_mark, lowercase_of, nfkd_of, whitespace, decomposed,
    is_alnum, is_alphanumeric, is_ascii_char, is_combining_mark, is_mark, is_space, is_whitespace,
    lowered, nfkd, to_lowercase,
};

verus! {

/// Whether a character separates words: white space, or one of `-.,()/`.
pub open spec fn separates(c: char) -> bool {
    is_space(c) || c == '-' || c == '.' || c == ',' || c == '(' || c == ')' || c == '/'
}

/// A text without its combining marks.
pub open spec fn without_marks(text: Seq<char>) -> Seq<char>
    decreases text.len(),
{
    if text.len() == 0 {
        Seq::empty()
    } else {
        let rest = without_marks(text.drop_last());
        if is_mark(text.last()) {
            rest
        } else {
            rest.push(text.last())
        }
    }
}

/// A text decomposed, without its marks, in lowercase.
pub open spec fn folded(text: Seq<char>) -> Seq<char> {
    lowered(without_marks(decomposed(text)))
}

/// Whether a separator follows the last letter or number of a text.
pub open spec fn ends_separated(text: Seq<char>) -> bool
    decreases text.len(),
{
    text.len() > 0 && !is_alnum(text.last()) && (separates(text.last()) || ends_separated(
        text.drop_last(),
    ))
}

/// The letters and numbers of a text, with one space between two that a separator parts.
pub open spec fn collapsed(text: Seq<char>) -> Seq<char>
    decreases text.len(),
{
    if text.len() == 0 {
        Seq::empty()
    } else {
        let kept = collapsed(text.drop_last());
        if !is_alnum(text.last()) {
            kept
        } else if kept.len() > 0 && ends_separated(text.drop_last()) {
            kept.push(' ').push(text.last())
        } else {
            kept.push(text.last())
        }
    }
}

/// The key that a text is found under.
pub open spec fn normalized(text: Seq<char>) -> Seq<char> {
    collapsed(folded(text))
}

/// Whether a character is collapsed into a space.
pub fn is_separator(c: char) -> (r: bool)
    ensures
        r == separates(c),
{
    is_whitespace(c) || matches!(c, '-' | '.' | ',' | '(' | ')' | '/')
}

/// Drops the combining marks.
pub fn drop_marks(text: &str) -> (bare: String)
    ensures
        bare@ == without_marks(text@),
{
    let chars = chars_of(text);
    let mut bare = String::new();
    assert(without_marks(chars@.take(0)) =~= Seq::<char>::empty());
    for i in 0..chars.len()
        invariant
            bare@ == without_marks(chars@.take(i as int)),
    {
        assert(chars@.take(i + 1).drop_last() =~= chars@.take(i as int));
        if !is_combining_mark(chars[i]) {
            bare.push(chars[i]);
        }
    }
    assert(chars@.take(chars@.len() as int) =~= chars@);
    bare
}

/// Decomposes, drops the combining marks and lowers.
pub fn fold(input: &str) -> (out: String)
    ensures
        out@ == folded(input@),
        ({
            let plain = if is_ascii_chars(input@) {
                input@
            } else {
                nfkd_of(input@)
            };
            let bare = plain.filter(|c: char| '\0' <= c <= '\u{7f}' || !combining_mark(c));
            !is_ascii_chars(bare) ==> out@ == lowercase_of(bare)
        }),
{
    proof {
        law_folding(input@);
    }
    let bare = drop_marks(nfkd(input).as_str());
    to_lowercase(bare.as_str())
}

/// Keeps letters and numbers, turns runs of separators between them into one space and
/// drops the rest.
pub fn collapse(text: &str) -> (out: String)
    ensures
        out@ == collapsed(text@),
{
    let chars = chars_of(text);
    let mut out = String::new();
    let mut pending_space = false;
    assert(collapsed(chars@.take(0)) =~= Seq::<char>::empty());
    for i in 0..chars.len()
        invariant
            out@ == collapsed(chars@.take(i as int)),
            pending_space == (out@.len() > 0 && ends_separated(chars@.take(i as int))),
    {
        let c = chars[i];
        assert(chars@.take(i + 1).drop_last() =~= chars@.take(i as int));
        if is_alphanumeric(c) {
            if pending_space {
                out.push(' ');
                pending_space = false;
            }
            out.push(c);
        } else if is_separator(c) {
            if !out.as_str().is_empty() {
                pending_space = true;
            }
        }
    }
    assert(chars@.take(chars@.len() as int) =~= chars@);
    out
}

/// Folds a raw name or query into the form under which it is indexed.
///
/// A key folds to itself. Of ASCII text this is proved, and of any other text as far as this
/// module goes; that decomposing and lowering a key leave it lies with the Unicode tables of
/// the outside functions, of which nothing is said here.
pub fn normalize(input: &str) -> (key: String)
    ensures
        key@ == normalized(input@),
{
    collapse(fold(input).as_str())
}

/// Whether a text is made of letters and numbers with single spaces between some of them.
pub open spec fn is_tidy(text: Seq<char>) -> bool {
    &&& forall|i: int| 0 <= i < text.len() ==> is_alnum(#[trigger] text[i]) || text[i] == ' '
    &&& forall|i: int|
        0 <= i < text.len() && #[trigger] text[i] == ' ' ==> 0 < i < text.len() - 1 && text[i - 1]
            != ' '
}

/// Whether a text is tidy but for a space that may stand at its end.
spec fn is_tidy_front(text: Seq<char>) -> bool {
    &&& forall|i: int| 0 <= i < text.len() ==> is_alnum(#[trigger] text[i]) || text[i] == ' '
    &&& forall|i: int|
        0 <= i < text.len() && #[trigger] text[i] == ' ' ==> 0 < i && text[i - 1] != ' '
}

/// What is left of a text is tidy: no separator stands at an edge or beside another.
pub proof fn law_collapsed_is_tidy(text: Seq<char>)
    ensures
        is_tidy(collapsed(text)),
    decreases text.len(),
{
    if text.len() > 0 {
        law_collapsed_is_tidy(text.drop_last());
    }
}

proof fn lemma_tidy_front_stays(text: Seq<char>)
    requires
        is_tidy_front(text),
    ensures
        ends_separated(text) == (text.len() > 0 && text.last() == ' '),
        collapsed(text) == (if ends_separated(text) {
            text.drop_last()
        } else {
            text
        }),
    decreases text.len(),
{
    if text.len() > 0 {
        let front = text.drop_last();
        lemma_tidy_front_stays(front);
        if text.last() == ' ' {
            assert(text[text.len() - 1] == ' ');
        } else {
            assert(is_alnum(text[text.len() - 1]));
            if front.len() > 0 && front.last() == ' ' {
                assert(text[text.len() - 2] == ' ');
                assert(collapsed(text) =~= text);
            } else {
                assert(collapsed(text) =~= text);
            }
        }
    } else {
        assert(collapsed(text) =~= text);
    }
}

/// A tidy text stays as it is.
pub proof fn law_tidy_stays(text: Seq<char>)
    requires
        is_tidy(text),
    ensures
        collapsed(text) == text,
{
    lemma_tidy_front_stays(text);
    if text.len() > 0 {
        assert(text[text.len() - 1] != ' ');
    }
}

/// A key stays as it is, provided that folding leaves it: nothing in it decomposes, is a
/// combining mark or has another lowercase form.
pub proof fn law_normalize_idempotent(text: Seq<char>)
    requires
        folded(normalized(text)) == normalized(text),
    ensures
        normalized(normalized(text)) == normalized(text),
{
    law_collapsed_is_tidy(folded(text));
    law_tidy_stays(normalized(text));
}

/// An ASCII text has no marks.
proof fn lemma_ascii_without_marks(text: Seq<char>)
    requires
        is_ascii_chars(text),
    ensures
        without_marks(text) == text,
    decreases text.len(),
{
    if text.len() > 0 {
        assert(is_ascii_chars(text.drop_last()));
        lemma_ascii_without_marks(text.drop_last());
        assert(without_marks(text) =~= text);
    }
}

/// Whether a text is ASCII without capitals.
spec fn is_plain(text: Seq<char>) -> bool {
    forall|i: int|
        0 <= i < text.len() ==> is_ascii_char(#[trigger] text[i]) && !('A' <= text[i] <= 'Z')
}

proof fn lemma_collapsed_plain(text: Seq<char>)
    requires
        is_plain(text),
    ensures
        is_plain(collapsed(text)),
    decreases text.len(),
{
    if text.len() > 0 {
        assert(is_plain(text.drop_last())) by {
            assert forall|i: int| 0 <= i < text.drop_last().len() implies is_ascii_char(
                #[trigger] text.drop_last()[i],
            ) && !('A' <= text.drop_last()[i] <= 'Z') by {
                assert(is_ascii_char(text[i]));
            }
        }
        lemma_collapsed_plain(text.drop_last());
        assert(is_ascii_char(text[text.len() - 1]));
    }
}

/// The key of an ASCII text stays as it is.
pub proof fn law_normalize_ascii_idempotent(text: Seq<char>)
    requires
        is_ascii_chars(text),
    ensures
        normalized(normalized(text)) == normalized(text),
{
    lemma_ascii_without_marks(text);
    let low = folded(text);
    assert(is_plain(low)) by {
        assert forall|i: int| 0 <= i < low.len() implies is_ascii_char(#[trigger] low[i]) && !('A'
            <= low[i] <= 'Z') by {
            assert(is_ascii_char(text[i]));
        }
    }
    lemma_collapsed_plain(low);
    let key = normalized(text);
    assert(is_ascii_chars(key)) by {
        assert forall|i: int| 0 <= i < key.len() implies '\0' <= #[trigger] key[i] <= '\u{7f}' by {
            assert(is_ascii_char(key[i]));
        }
    }
    lemma_ascii_without_marks(key);
    assert(folded(key) =~= key) by {
        assert forall|i: int| 0 <= i < key.len() implies
            ascii_lower(#[trigger] key[i]) == key[i] by {
            assert(is_ascii_char(key[i]));
        }
    }
    law_normalize_idempotent(text);
}

/// What folding is: the text as the outside functions decompose it, without its combining
/// marks, as they lower it. ASCII is left as it is, but for capitals.
pub proof fn law_folding(text: Seq<char>)
    ensures
        ({
            let plain = if is_ascii_chars(text) {
                text
            } else {
                nfkd_of(text)
            };
            let bare = plain.filter(|c: char| '\0' <= c <= '\u{7f}' || !combining_mark(c));
            folded(text) == if is_ascii_chars(bare) {
                bare.map_values(
                    |c: char|
                        if 'A' <= c <= 'Z' {
                            (c as u32 + 32) as char
                        } else {
                            c
                        },
                )
            } else {
                lowercase_of(bare)
            }
        }),
{
    let plain = decomposed(text);
    let keep = |c: char| '\0' <= c <= '\u{7f}' || !combining_mark(c);
    law_only_marks_are_dropped(plain);
    let bare = plain.filter(keep);
    if is_ascii_chars(bare) {
        assert(lowered(bare) =~= bare.map_values(
            |c: char|
                if 'A' <= c <= 'Z' {
                    (c as u32 + 32) as char
                } else {
                    c
                },
        ));
    }
}

/// Dropping the combining marks leaves every other character, in order.
pub proof fn law_only_marks_are_dropped(text: Seq<char>)
    ensures
        without_marks(text) == text.filter(|c: char| '\0' <= c <= '\u{7f}' || !combining_mark(c)),
    decreases text.len(),
{
    let keep = |c: char| '\0' <= c <= '\u{7f}' || !combining_mark(c);
    reveal(Seq::filter);
    if text.len() > 0 {
        law_only_marks_are_dropped(text.drop_last());
        let c = text.last();
        assert(is_mark(c) == !keep(c));
    } else {
        assert(without_marks(text) =~= text);
    }
}

/// The key holds every letter and number of a text, in order, and no other: those of the text
/// as the outside functions decompose and lower it, without its combining marks.
pub proof fn law_key_keeps_letters_and_numbers(text: Seq<char>)
    ensures
        ({
            let plain = if is_ascii_chars(text) {
                text
            } else {
                nfkd_of(text)
            };
            let bare = plain.filter(|c: char| '\0' <= c <= '\u{7f}' || !combining_mark(c));
            let low = if is_ascii_chars(bare) {
                bare.map_values(
                    |c: char|
                        if 'A' <= c <= 'Z' {
                            (c as u32 + 32) as char
                        } else {
                            c
                        },
                )
            } else {
                lowercase_of(bare)
            };
            normalized(text).filter(
                |c: char|
                    if '\0' <= c <= '\u{7f}' {
                        'a' <= c <= 'z' || 'A' <= c <= 'Z' || '0' <= c <= '9'
                    } else {
                        alphanumeric(c)
                    },
            ) == low.filter(
                |c: char|
                    if '\0' <= c <= '\u{7f}' {
                        'a' <= c <= 'z' || 'A' <= c <= 'Z' || '0' <= c <= '9'
                    } else {
                        alphanumeric(c)
                    },
            )
        }),
{
    law_folding(text);
    law_collapsing_keeps_letters_and_numbers(folded(text));
}

/// What separates words: white space, and `-`, `.`, `,`, `(`, `)` and `/`.
pub proof fn law_what_separates(c: char)
    ensures
        separates(c) <==> {
            ||| if '\0' <= c <= '\u{7f}' {
                c == ' ' || '\t' <= c <= '\r'
            } else {
                whitespace(c)
            }
            ||| c == '-' || c == '.' || c == ',' || c == '(' || c == ')' || c == '/'
        },
{
}

/// Collapsing keeps every letter and number of a text, in order, and no other.
pub proof fn law_collapsing_keeps_letters_and_numbers(text: Seq<char>)
    ensures
        collapsed(text).filter(
            |c: char|
                if '\0' <= c <= '\u{7f}' {
                    'a' <= c <= 'z' || 'A' <= c <= 'Z' || '0' <= c <= '9'
                } else {
                    alphanumeric(c)
                },
        ) == text.filter(
            |c: char|
                if '\0' <= c <= '\u{7f}' {
                    'a' <= c <= 'z' || 'A' <= c <= 'Z' || '0' <= c <= '9'
                } else {
                    alphanumeric(c)
                },
        ),
    decreases text.len(),
{
    broadcast use Seq::lemma_filter_push;

    let keep = |c: char|
        if '\0' <= c <= '\u{7f}' {
            'a' <= c <= 'z' || 'A' <= c <= 'Z' || '0' <= c <= '9'
        } else {
            alphanumeric(c)
        };
    if text.len() > 0 {
        let front = text.drop_last();
        let c = text.last();
        law_collapsing_keeps_letters_and_numbers(front);
        assert(text =~= front.push(c));
        assert(keep(c) == is_alnum(c));
        assert(!keep(' '));
        let kept = collapsed(front);
        assert(kept.push(' ').filter(keep) == kept.filter(keep));
        assert(kept.push(' ').push(c).filter(keep) == kept.push(' ').filter(keep).push(c)
            || !keep(c));
    } else {
        assert(collapsed(text) =~= text);
    }
}

/// A key has nothing but letters, numbers and spaces, and a space only between two letters or
/// numbers.
pub proof fn law_key_is_words(text: Seq<char>)
    ensures
        forall|i: int|
            0 <= i < normalized(text).len() ==> ({
                let c = #[trigger] normalized(text)[i];
                let alnum = if '\0' <= c <= '\u{7f}' {
                    'a' <= c <= 'z' || 'A' <= c <= 'Z' || '0' <= c <= '9'
                } else {
                    alphanumeric(c)
                };
                alnum || (c == ' ' && 0 < i < normalized(text).len() - 1 && normalized(text)[i - 1]
                    != ' ')
            }),
{
    law_collapsed_is_tidy(folded(text));
}

/// Whether a text has a letter or a number.
spec fn has_alnum(text: Seq<char>) -> bool {
    exists|i: int| 0 <= i < text.len() && is_alnum(#[trigger] text[i])
}

/// What neither is a letter nor a number adds nothing behind a text but a mark that a space is
/// due, where it has a separator.
proof fn lemma_collapse_gap(x: Seq<char>, gap: Seq<char>)
    requires
        !has_alnum(gap),
    ensures
        collapsed(x + gap) == collapsed(x),
        ends_separated(x + gap) == (ends_separated(x) || exists|i: int|
            0 <= i < gap.len() && separates(#[trigger] gap[i])),
    decreases gap.len(),
{
    if gap.len() == 0 {
        assert(x + gap =~= x);
    } else {
        let front = gap.drop_last();
        let c = gap.last();
        assert(!has_alnum(front)) by {
            assert forall|i: int| 0 <= i < front.len() implies !is_alnum(#[trigger] front[i]) by {
                assert(!is_alnum(gap[i]));
            }
        }
        lemma_collapse_gap(x, front);
        assert((x + gap).drop_last() =~= x + front);
        assert(!is_alnum(gap[gap.len() - 1]));
        if ends_separated(x + front) && !ends_separated(x) {
            let i = choose|i: int| 0 <= i < front.len() && separates(#[trigger] front[i]);
            assert(separates(gap[i]));
        }
        if separates(c) {
            assert(separates(gap[gap.len() - 1]));
        }
        if exists|i: int| 0 <= i < gap.len() && separates(#[trigger] gap[i]) {
            let i = choose|i: int| 0 <= i < gap.len() && separates(#[trigger] gap[i]);
            if i < front.len() {
                assert(separates(front[i]));
            }
        }
    }
}

/// A text behind another, from a letter or number on.
proof fn lemma_collapse_word(x: Seq<char>, y: Seq<char>)
    requires
        y.len() > 0,
        is_alnum(y[0]),
    ensures
        ends_separated(x + y) == ends_separated(y),
        collapsed(y).len() > 0,
        collapsed(y)[0] == y[0],
        collapsed(x + y) == collapsed(x) + (if collapsed(x).len() > 0 && ends_separated(x) {
            seq![' ']
        } else {
            Seq::empty()
        }) + collapsed(y),
    decreases y.len(),
{
    let front = y.drop_last();
    assert((x + y).drop_last() =~= x + front);
    if front.len() == 0 {
        assert(x + front =~= x);
        assert(front =~= Seq::empty());
        assert(collapsed(front) =~= Seq::empty());
        assert(collapsed(y) =~= seq![y[0]]);
    } else {
        assert(front[0] == y[0]);
        lemma_collapse_word(x, front);
    }
    assert(collapsed(x + y) =~= collapsed(x) + (if collapsed(x).len() > 0 && ends_separated(x) {
        seq![' ']
    } else {
        Seq::empty()
    }) + collapsed(y));
}

/// Between two letters or numbers that follow each other, a space is left just where white
/// space or one of `-.,()/` stands between them in the text.
///
/// The text is cut around two letters or numbers and what stands between them, which is
/// neither; the result then is the result of the first part up to the one, the space if there
/// is one, and the result of the second part from the other on.
pub proof fn law_space_where_separated(
    x: Seq<char>,
    a: char,
    gap: Seq<char>,
    b: char,
    y: Seq<char>,
)
    requires
        is_alnum(a),
        is_alnum(b),
        forall|i: int| 0 <= i < gap.len() ==> !is_alnum(#[trigger] gap[i]),
    ensures
        collapsed(x.push(a) + gap + (seq![b] + y)) == collapsed(x.push(a)) + (if exists|i: int|
            0 <= i < gap.len() && {
                let c = #[trigger] gap[i];
                ||| if '\0' <= c <= '\u{7f}' {
                    c == ' ' || '\t' <= c <= '\r'
                } else {
                    whitespace(c)
                }
                ||| c == '-' || c == '.' || c == ',' || c == '(' || c == ')' || c == '/'
            } {
            seq![' ']
        } else {
            Seq::empty()
        }) + collapsed(seq![b] + y),
        collapsed(x.push(a)).len() > 0,
        collapsed(x.push(a)).last() == a,
        collapsed(seq![b] + y).len() > 0,
        collapsed(seq![b] + y)[0] == b,
{
    let left = x.push(a);
    let right = seq![b] + y;
    assert(left.drop_last() =~= x);
    lemma_collapse_gap(left, gap);
    lemma_collapse_word(left + gap, right);
    let separated = exists|i: int|
        0 <= i < gap.len() && {
            let c = #[trigger] gap[i];
            ||| if '\0' <= c <= '\u{7f}' {
                c == ' ' || '\t' <= c <= '\r'
            } else {
                whitespace(c)
            }
            ||| c == '-' || c == '.' || c == ',' || c == '(' || c == ')' || c == '/'
        };
    if separated {
        let i = choose|i: int|
            0 <= i < gap.len() && {
                let c = #[trigger] gap[i];
                ||| if '\0' <= c <= '\u{7f}' {
                    c == ' ' || '\t' <= c <= '\r'
                } else {
                    whitespace(c)
                }
                ||| c == '-' || c == '.' || c == ',' || c == '(' || c == ')' || c == '/'
            };
        assert(separates(gap[i]));
    } else {
        assert forall|i: int| 0 <= i < gap.len() implies !separates(#[trigger] gap[i]) by {}
    }
}

/// A key has a space between two letters or numbers that follow each other just where white
/// space or one of `-.,()/` stands between them in the folded text.
pub proof fn law_key_has_space_where_separated(
    text: Seq<char>,
    x: Seq<char>,
    a: char,
    gap: Seq<char>,
    b: char,
    y: Seq<char>,
)
    requires
        folded(text) == x.push(a) + gap + (seq![b] + y),
        is_alnum(a),
        is_alnum(b),
        forall|i: int| 0 <= i < gap.len() ==> !is_alnum(#[trigger] gap[i]),
    ensures
        normalized(text) == collapsed(x.push(a)) + (if exists|i: int|
            0 <= i < gap.len() && {
                let c = #[trigger] gap[i];
                ||| if '\0' <= c <= '\u{7f}' {
                    c == ' ' || '\t' <= c <= '\r'
                } else {
                    whitespace(c)
                }
                ||| c == '-' || c == '.' || c == ',' || c == '(' || c == ')' || c == '/'
            } {
            seq![' ']
        } else {
            Seq::empty()
        }) + collapsed(seq![b] + y),
{
    law_space_where_separated(x, a, gap, b, y);
}

/// What stands before the first letter or number of a text, or after the last, does not show.
pub proof fn law_edges_do_not_show(before: Seq<char>, text: Seq<char>, after: Seq<char>)
    requires
        text.len() > 0,
        is_alnum(text[0]),
        forall|i: int| 0 <= i < before.len() ==> !is_alnum(#[trigger] before[i]),
        forall|i: int| 0 <= i < after.len() ==> !is_alnum(#[trigger] after[i]),
    ensures
        collapsed(before + text + after) == collapsed(text),
{
    lemma_collapse_gap(before + text, after);
    lemma_collapse_word(before, text);
    lemma_collapse_gap(Seq::empty(), before);
    assert(Seq::<char>::empty() + before =~= before);
    assert(collapsed(before + text) =~= collapsed(text));
}

} // verus!
