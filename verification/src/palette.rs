//! The palette: the ordered, cyclic list of colours that tells consecutively
//! opened regions apart. A colour is the hexadecimal code of an HTML colour,
//! without the leading `#`.

use vstd::prelude::*;
use crate::text::chars_of;

verus! {

/// What `str::to_lowercase` makes of `text`.
pub uninterp spec fn lowercase_of(text: Seq<char>) -> Seq<char>;

/// `str::to_lowercase`: the lowercase equivalent of `text`.
///
/// Unproved: the result depends on `text` alone.
#[verifier::external_body]
pub(crate) fn lowercase(text: &str) -> (lower: String)
    ensures
        lower@ == lowercase_of(text@),
{
    text.to_lowercase()
}

/// The colours of the preset `greyscale`.
pub open spec fn greyscale_colors() -> Seq<Seq<char>> {
    seq!["fff"@, "ccc"@]
}

/// The colours of the preset `rainbow`.
pub open spec fn rainbow_colors() -> Seq<Seq<char>> {
    seq!["fff"@, "f88"@, "ffc088"@, "a2ff88"@, "88f9ff"@, "a288ff"@, "ff88ba"@]
}

/// The pieces of `text` between the occurrences of `separator`, in order.
/// There is one piece more than there are occurrences; a piece may be empty.
pub open spec fn pieces(text: Seq<char>, separator: char) -> Seq<Seq<char>>
    decreases text.len(),
{
    if text.len() == 0 {
        seq![Seq::empty()]
    } else {
        let before = pieces(text.drop_last(), separator);
        if text.last() == separator {
            before.push(Seq::empty())
        } else {
            before.drop_last().push(before.last().push(text.last()))
        }
    }
}

/// `parts` put together again, with `separator` between each two of them.
pub open spec fn joined(parts: Seq<Seq<char>>, separator: char) -> Seq<char>
    decreases parts.len(),
{
    if parts.len() == 0 {
        Seq::empty()
    } else if parts.len() == 1 {
        parts[0]
    } else {
        joined(parts.drop_last(), separator).push(separator) + parts.last()
    }
}

/// A text always has at least one piece, no piece holds the separator, and
/// the pieces put together again are the text.
pub proof fn lemma_pieces_make_the_text(text: Seq<char>, separator: char)
    ensures
        pieces(text, separator).len() >= 1,
        forall|i: int, j: int|
            0 <= i < pieces(text, separator).len() && 0 <= j < pieces(text, separator)[i].len()
                ==> #[trigger] pieces(text, separator)[i][j] != separator,
        joined(pieces(text, separator), separator) == text,
    decreases text.len(),
{
    let parts = pieces(text, separator);
    if text.len() > 0 {
        let before = pieces(text.drop_last(), separator);
        lemma_pieces_make_the_text(text.drop_last(), separator);
        if text.last() == separator {
            assert(parts.drop_last() =~= before);
            assert(joined(parts, separator) =~= text);
        } else {
            let grown = before.last().push(text.last());
            assert(parts.last() == grown);
            assert(parts.drop_last() =~= before.drop_last());
            if before.len() == 1 {
                assert(joined(parts, separator) =~= text);
            } else {
                assert(joined(parts, separator) =~= joined(before, separator).push(text.last()));
                assert(joined(parts, separator) =~= text);
            }
            assert forall|i: int, j: int|
                0 <= i < parts.len() && 0 <= j < parts[i].len() implies #[trigger] parts[i][j]
                != separator by {
                if i < parts.len() - 1 {
                    assert(parts[i] == before[i]);
                } else if j < before.last().len() {
                    assert(parts[i][j] == before[before.len() - 1][j]);
                }
            }
        }
    } else {
        assert(joined(parts, separator) =~= text);
    }
}

/// The palette that a choice of colours stands for. Without a choice it is
/// the preset `greyscale`. Otherwise the choice is the name of a preset, in
/// any case of letters (`greyscale`, also spelt `grayscale`, or `rainbow`), or
/// else a list of colours separated by commas.
pub open spec fn palette_for(choice: Option<Seq<char>>) -> Seq<Seq<char>> {
    match choice {
        None => greyscale_colors(),
        Some(text) => named_palette(lowercase_of(text), text),
    }
}

/// The palette that the choice `text` stands for, where `lower` is `text` in
/// lowercase.
pub open spec fn named_palette(lower: Seq<char>, text: Seq<char>) -> Seq<Seq<char>> {
    if lower == "greyscale"@ || lower == "grayscale"@ {
        greyscale_colors()
    } else if lower == "rainbow"@ {
        rainbow_colors()
    } else {
        pieces(text, ',')
    }
}

/// The preset `greyscale`.
pub fn greyscale() -> (colors: Vec<String>)
    ensures
        colors.deep_view() == greyscale_colors(),
        colors.len() == 2,
{
    let colors = vec![String::from_str("fff"), String::from_str("ccc")];
    assert(colors.deep_view() =~= greyscale_colors());
    colors
}

/// The preset `rainbow`.
pub fn rainbow() -> (colors: Vec<String>)
    ensures
        colors.deep_view() == rainbow_colors(),
        colors.len() == 7,
{
    let colors = vec![
        String::from_str("fff"),
        String::from_str("f88"),
        String::from_str("ffc088"),
        String::from_str("a2ff88"),
        String::from_str("88f9ff"),
        String::from_str("a288ff"),
        String::from_str("ff88ba"),
    ];
    assert(colors.deep_view() =~= rainbow_colors());
    colors
}

/// Splits a list of colours at its commas.
pub fn split_colors(list: &str) -> (colors: Vec<String>)
    ensures
        colors.deep_view() == pieces(list@, ','),
        colors.len() >= 1,
{
    let chars = chars_of(list);
    let mut colors: Vec<String> = Vec::new();
    let mut current = String::new();
    assert(colors.deep_view().push(current@) =~= pieces(chars@.take(0), ','));
    let mut i: usize = 0;
    while i < chars.len()
        invariant
            i <= chars.len(),
            colors.deep_view().push(current@) == pieces(chars@.take(i as int), ','),
        decreases chars.len() - i,
    {
        let ghost done = colors.deep_view();
        let ghost piece = current@;
        proof {
            assert(chars@.take(i + 1).drop_last() =~= chars@.take(i as int));
            assert(done.push(piece).drop_last() =~= done);
        }
        if chars[i] == ',' {
            colors.push(current);
            current = String::new();
            assert(colors.deep_view() =~= done.push(piece));
        } else {
            current.push(chars[i]);
        }
        assert(colors.deep_view().push(current@) =~= pieces(chars@.take(i + 1), ','));
        i = i + 1;
    }
    let ghost done = colors.deep_view();
    assert(chars@.take(i as int) =~= list@);
    colors.push(current);
    assert(colors.deep_view() =~= done.push(current@));
    colors
}

/// The palette that the choice `text` stands for, where `lower` is `text` in
/// lowercase.
pub fn colors_named(lower: &str, text: &str) -> (colors: Vec<String>)
    ensures
        colors.deep_view() == named_palette(lower@, text@),
        colors.len() >= 1,
{
    let name = lower.to_owned();
    if name == "greyscale".to_owned() || name == "grayscale".to_owned() {
        greyscale()
    } else if name == "rainbow".to_owned() {
        rainbow()
    } else {
        split_colors(text)
    }
}

/// The palette that `choice` stands for.
pub fn select_colors(choice: Option<&str>) -> (colors: Vec<String>)
    ensures
        colors.deep_view() == palette_for(
            match choice {
                Some(text) => Some(text@),
                None => None,
            },
        ),
        colors.len() >= 1,
{
    match choice {
        None => greyscale(),
        Some(text) => {
            let lower = lowercase(text);
            colors_named(lower.as_str(), text)
        },
    }
}

} // verus!
