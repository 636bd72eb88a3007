//! Strings as sequences of characters.
use vstd::prelude::*;

verus! {

/// The texts of a vector of strings.
pub open spec fn texts(strings: Seq<String>) -> Seq<Seq<char>> {
    strings.map_values(|s: String| s@)
}

/// A text cut at every occurrence of a separator.
pub open spec fn cut_at(text: Seq<char>, separator: char) -> Seq<Seq<char>>
    decreases text.len(),
{
    if text.len() == 0 {
        seq![Seq::empty()]
    } else {
        let front = cut_at(text.drop_last(), separator);
        if text.last() == separator {
            front.push(Seq::empty())
        } else {
            front.drop_last().push(front.last().push(text.last()))
        }
    }
}

/// Pieces with a separator between any two.
pub open spec fn joined(pieces: Seq<Seq<char>>, separator: char) -> Seq<char>
    decreases pieces.len(),
{
    if pieces.len() == 0 {
        Seq::empty()
    } else if pieces.len() == 1 {
        pieces[0]
    } else {
        joined(pieces.drop_last(), separator).push(separator) + pieces.last()
    }
}

/// Cutting a text loses nothing but the separators, and leaves none.
pub proof fn law_cut(text: Seq<char>, separator: char)
    ensures
        cut_at(text, separator).len() > 0,
        joined(cut_at(text, separator), separator) == text,
        forall|i: int|
            0 <= i < cut_at(text, separator).len()
                ==> !(#[trigger] cut_at(text, separator)[i]).contains(
                separator,
            ),
    decreases text.len(),
{
    if text.len() == 0 {
        assert(joined(cut_at(text, separator), separator) =~= text);
    } else {
        let before = text.drop_last();
        let front = cut_at(before, separator);
        let pieces = cut_at(text, separator);
        law_cut(before, separator);
        if text.last() == separator {
            assert(pieces.drop_last() =~= front);
            assert(joined(pieces, separator) =~= before.push(separator));
        } else {
            assert(pieces.drop_last() =~= front.drop_last());
            assert(joined(pieces, separator) =~= joined(front, separator).push(text.last()));
            assert forall|i: int| 0 <= i < pieces.len() implies !(#[trigger] pieces[i]).contains(
                separator,
            ) by {
                if i == pieces.len() - 1 {
                    let last = front.last();
                    assert(!front[front.len() - 1].contains(separator));
                    if pieces[i].contains(separator) {
                        let k = choose|k: int| 0 <= k < pieces[i].len()
                            && pieces[i][k] == separator;
                        assert(last[k] == separator);
                    }
                } else {
                    assert(pieces[i] == front[i]);
                }
            }
        }
        assert(text =~= before.push(text.last()));
    }
}

/// A text without the separator is one piece.
pub proof fn law_uncut(text: Seq<char>, separator: char)
    requires
        !text.contains(separator),
    ensures
        cut_at(text, separator) == seq![text],
    decreases text.len(),
{
    if text.len() > 0 {
        let front = text.drop_last();
        assert(!front.contains(separator)) by {
            if front.contains(separator) {
                let i = choose|i: int| 0 <= i < front.len() && front[i] == separator;
                assert(text[i] == separator);
            }
        }
        law_uncut(front, separator);
        assert(text[text.len() - 1] != separator) by {
            assert(text.contains(text[text.len() - 1]));
        }
        assert(front.push(text.last()) =~= text);
        assert(cut_at(front, separator).drop_last() =~= Seq::<Seq<char>>::empty());
        assert(cut_at(front, separator).last() == front);
        assert(cut_at(text, separator) =~= seq![text]);
    } else {
        assert(text =~= Seq::<char>::empty());
        assert(cut_at(text, separator) =~= seq![text]);
    }
}

/// A separator parts the pieces before it from those behind it.
pub proof fn law_cut_at_separator(x: Seq<char>, y: Seq<char>, separator: char)
    ensures
        cut_at(x.push(separator) + y, separator) == cut_at(x, separator) + cut_at(y, separator),
    decreases y.len(),
{
    let whole = x.push(separator) + y;
    law_cut(y, separator);
    if y.len() == 0 {
        assert(whole =~= x.push(separator));
        assert(whole.drop_last() =~= x);
        assert(cut_at(whole, separator) =~= cut_at(x, separator) + cut_at(y, separator));
    } else {
        let front = y.drop_last();
        law_cut_at_separator(x, front, separator);
        law_cut(front, separator);
        assert(whole.drop_last() =~= x.push(separator) + front);
        assert(whole.last() == y.last());
        assert(cut_at(whole, separator) =~= cut_at(x, separator) + cut_at(y, separator));
    }
}

/// What stands between two separators, or between one and an edge, and has none itself, is a
/// piece.
pub proof fn law_piece(x: Seq<char>, piece: Seq<char>, y: Seq<char>, separator: char)
    requires
        !piece.contains(separator),
        x.len() == 0 || x.last() == separator,
        y.len() == 0 || y[0] == separator,
    ensures
        cut_at(x + piece + y, separator).contains(piece),
{
    law_uncut(piece, separator);
    let behind = piece + y;
    assert(cut_at(behind, separator)[0] == piece) by {
        if y.len() == 0 {
            assert(behind =~= piece);
        } else {
            law_cut_at_separator(piece, y.drop_first(), separator);
            assert(piece.push(separator) + y.drop_first() =~= behind);
        }
    }
    law_cut(behind, separator);
    if x.len() == 0 {
        assert(x + piece + y =~= behind);
    } else {
        let front = x.drop_last();
        law_cut_at_separator(front, behind, separator);
        assert(front.push(separator) =~= x);
        assert(x + piece + y =~= x + behind);
        let n = cut_at(front, separator).len() as int;
        assert(cut_at(x + piece + y, separator)[n] == piece);
    }
}

/// Every piece stands between two separators, or between one and an edge, and has none itself.
pub proof fn law_piece_stands_in_the_text(text: Seq<char>, i: int, separator: char)
    requires
        0 <= i < cut_at(text, separator).len(),
    ensures
        !cut_at(text, separator)[i].contains(separator),
        exists|x: Seq<char>, y: Seq<char>|
            text == #[trigger] (x + cut_at(text, separator)[i] + y) && (x.len() == 0 || x.last()
                == separator) && (y.len() == 0 || y[0] == separator),
    decreases text.len(),
{
    law_cut(text, separator);
    let none = Seq::<char>::empty();
    let piece = cut_at(text, separator)[i];
    if !text.contains(separator) {
        law_uncut(text, separator);
        assert(text =~= none + piece + none);
    } else {
        let n = text.index_of_first(separator)->Some_0;
        text.index_of_first_ensures(separator);
        let x = text.take(n);
        let y = text.skip(n + 1);
        assert(text =~= x.push(separator) + y);
        assert(!x.contains(separator)) by {
            if x.contains(separator) {
                let k = choose|k: int| 0 <= k < x.len() && x[k] == separator;
                assert(text[k] == separator);
            }
        }
        law_uncut(x, separator);
        law_cut_at_separator(x, y, separator);
        if i == 0 {
            let rest = seq![separator] + y;
            assert(text =~= none + piece + rest);
        } else {
            law_piece_stands_in_the_text(y, i - 1, separator);
            assert(cut_at(y, separator)[i - 1] == piece);
            let (u, v) = choose|u: Seq<char>, v: Seq<char>|
                y == #[trigger] (u + cut_at(y, separator)[i - 1] + v) && (u.len() == 0 || u.last()
                    == separator) && (v.len() == 0 || v[0] == separator);
            let w = x.push(separator) + u;
            assert(text =~= w + piece + v);
        }
    }
}

/// The characters of a string.
pub fn chars_of(s: &str) -> (chars: Vec<char>)
    ensures
        chars@ == s@,
{
    let mut chars: Vec<char> = Vec::new();
    for c in it: s.chars()
        invariant
            it.seq() == s@,
            chars@ == s@.take(it.index()),
    {
        chars.push(c);
        assert(s@.take(it.index() + 1) =~= s@.take(it.index()).push(c));
    }
    assert(s@.take(s@.len() as int) =~= s@);
    chars
}

/// The string of some characters, up to `end`.
pub fn string_of(chars: &Vec<char>, end: usize) -> (s: String)
    requires
        end <= chars@.len(),
    ensures
        s@ == chars@.take(end as int),
{
    let mut s = String::new();
    assert(s@ =~= chars@.take(0));
    for i in 0..end
        invariant
            end <= chars@.len(),
            s@ == chars@.take(i as int),
    {
        s.push(chars[i]);
        assert(chars@.take(i + 1) =~= chars@.take(i as int).push(chars@[i as int]));
    }
    s
}

/// Cuts a text at every occurrence of a separator.
pub fn split_text(text: &str, separator: char) -> (pieces: Vec<String>)
    ensures
        texts(pieces@) == cut_at(text@, separator),
{
    let chars = chars_of(text);
    let mut pieces: Vec<String> = Vec::new();
    let mut piece = String::new();
    proof {
        assert(chars@.take(0) =~= Seq::<char>::empty());
        assert(texts(pieces@).push(piece@) =~= cut_at(chars@.take(0), separator));
    }
    for i in 0..chars.len()
        invariant
            texts(pieces@).push(piece@) == cut_at(chars@.take(i as int), separator),
    {
        let ghost front = texts(pieces@).push(piece@);
        let ghost done = pieces@;
        let ghost last = piece@;
        assert(chars@.take(i + 1).drop_last() =~= chars@.take(i as int));
        if chars[i] == separator {
            pieces.push(piece);
            piece = String::new();
            assert(piece@ =~= Seq::<char>::empty());
            assert(texts(pieces@) =~= texts(done).push(last));
        } else {
            piece.push(chars[i]);
            assert(front.drop_last() =~= texts(done));
        }
    }
    let ghost done = pieces@;
    pieces.push(piece);
    assert(texts(pieces@) =~= texts(done).push(piece@));
    assert(chars@.take(chars@.len() as int) =~= chars@);
    pieces
}

} // verus!
