//! The HTML form of a rendered line: every region becomes an `abbr` element
//! that carries the region's name as its title and its colour as its style.

use vstd::prelude::*;
use crate::diagnostics::{anomalies, Diagnostic};
use crate::markup::{
    lemma_rendered_colors_fit, marks, colors_fit, render_line, rendered_anomalies, rendered_marks,
    rendered_regions, Fragment, Mark,
};
use crate::regions::{region_views, HighlightRegion};
use crate::text::chars_of;

verus! {

/// How one character is written in HTML text and attribute values: the
/// characters that carry meaning in markup are replaced by their entities.
pub open spec fn escaped_char(c: char) -> Seq<char> {
    if c == '&' {
        "&amp;"@
    } else if c == '<' {
        "&lt;"@
    } else if c == '>' {
        "&gt;"@
    } else if c == '"' {
        "&quot;"@
    } else if c == '\'' {
        "&#39;"@
    } else {
        seq![c]
    }
}

/// How `text` is written in HTML text and attribute values.
pub open spec fn escaped(text: Seq<char>) -> Seq<char>
    decreases text.len(),
{
    if text.len() == 0 {
        Seq::empty()
    } else {
        escaped(text.drop_last()) + escaped_char(text.last())
    }
}

/// The opening tag of a region called `name`, on a background of colour `color`.
pub open spec fn open_tag(name: Seq<char>, color: Seq<char>) -> Seq<char> {
    "<abbr title=\""@ + escaped(name) + "\" style=\"background: #"@ + escaped(color)
        + "; color: #020202;\">"@
}

/// The HTML of one mark, with the palette `colors`.
pub open spec fn mark_html(mark: Mark, colors: Seq<Seq<char>>) -> Seq<char> {
    match mark {
        Mark::Open { name, color } => open_tag(name, colors[color as int]),
        Mark::Text(c) => escaped_char(c),
        Mark::Close => "</abbr>"@,
        Mark::LineBreak => "\n"@,
    }
}

/// The HTML of a sequence of marks, with the palette `colors`.
pub open spec fn html_of(marks: Seq<Mark>, colors: Seq<Seq<char>>) -> Seq<char>
    decreases marks.len(),
{
    if marks.len() == 0 {
        Seq::empty()
    } else {
        html_of(marks.drop_last(), colors) + mark_html(marks.last(), colors)
    }
}

/// Appends one character in its HTML form.
fn push_escaped_char(out: &mut String, c: char)
    ensures
        final(out)@ == old(out)@ + escaped_char(c),
{
    if c == '&' {
        out.append("&amp;");
    } else if c == '<' {
        out.append("&lt;");
    } else if c == '>' {
        out.append("&gt;");
    } else if c == '"' {
        out.append("&quot;");
    } else if c == '\'' {
        out.append("&#39;");
    } else {
        out.push(c);
        assert(out@ =~= old(out)@ + seq![c]);
    }
}

/// Appends `text` in its HTML form.
fn push_escaped(out: &mut String, text: &str)
    ensures
        final(out)@ == old(out)@ + escaped(text@),
{
    let chars = chars_of(text);
    assert(out@ =~= old(out)@ + escaped(chars@.take(0)));
    let mut i: usize = 0;
    while i < chars.len()
        invariant
            i <= chars.len(),
            out@ == old(out)@ + escaped(chars@.take(i as int)),
        decreases chars.len() - i,
    {
        push_escaped_char(out, chars[i]);
        proof {
            assert(chars@.take(i + 1).drop_last() =~= chars@.take(i as int));
            assert(out@ =~= old(out)@ + escaped(chars@.take(i + 1)));
        }
        i = i + 1;
    }
    assert(chars@.take(i as int) =~= text@);
}

/// `text` as it is written in HTML text and attribute values.
pub fn escape(text: &str) -> (html: String)
    ensures
        html@ == escaped(text@),
{
    let mut html = String::new();
    push_escaped(&mut html, text);
    assert(html@ =~= escaped(text@));
    html
}

/// Writes a rendered line as HTML.
pub fn fragments_to_html(fragments: &Vec<Fragment>, colors: &Vec<String>) -> (html: String)
    requires
        colors_fit(marks(fragments@), colors.len() as nat),
    ensures
        html@ == html_of(marks(fragments@), colors.deep_view()),
{
    let mut html = String::new();
    let ghost all = marks(fragments@);
    let ghost palette = colors.deep_view();
    let mut i: usize = 0;
    while i < fragments.len()
        invariant
            i <= fragments.len(),
            all == marks(fragments@),
            palette == colors.deep_view(),
            colors_fit(all, colors.len() as nat),
            html@ == html_of(all.take(i as int), palette),
        decreases fragments.len() - i,
    {
        let ghost before = html@;
        proof {
            assert(all.take(i + 1).drop_last() =~= all.take(i as int));
            assert(all.take(i + 1).last() == fragments@[i as int]@);
            assert(all[i as int] == fragments@[i as int]@);
        }
        match &fragments[i] {
            Fragment::Open { name, color } => {
                assert(palette[*color as int] == colors@[*color as int]@);
                html.append("<abbr title=\"");
                push_escaped(&mut html, name.as_str());
                html.append("\" style=\"background: #");
                push_escaped(&mut html, colors[*color].as_str());
                html.append("; color: #020202;\">");
                assert(html@ =~= before + open_tag(name@, palette[*color as int]));
            },
            Fragment::Text(c) => {
                push_escaped_char(&mut html, *c);
            },
            Fragment::Close => {
                html.append("</abbr>");
            },
            Fragment::LineBreak => {
                html.append("\n");
            },
        }
        i = i + 1;
    }
    assert(all.take(i as int) =~= all);
    html
}

/// One line as HTML, with the diagnostics met while rendering it.
#[derive(Debug, Clone, PartialEq, Eq)]
pub struct HtmlLine {
    pub html: String,
    pub diagnostics: Vec<Diagnostic>,
}

/// Renders one line and writes it as HTML.
///
/// The line is rendered as `render_line` describes, with a palette of as many
/// colours as `colors` holds, and the result is written as
/// `fragments_to_html` describes.
pub fn produce_html_for_line(
    line_index: usize,
    line: &str,
    regions: &mut Vec<HighlightRegion>,
    colors: &Vec<String>,
) -> (out: HtmlLine)
    requires
        colors.len() > 0,
    ensures
        out.html@ == html_of(
            rendered_marks(line@, region_views(old(regions)@), colors.len() as nat),
            colors.deep_view(),
        ),
        region_views(final(regions)@) == rendered_regions(
            region_views(old(regions)@),
            line@.len() as int,
        ),
        anomalies(out.diagnostics@) == rendered_anomalies(
            region_views(old(regions)@),
            line@.len() as int,
            line_index as nat,
        ),
{
    proof {
        lemma_rendered_colors_fit(line@, region_views(regions@), colors.len() as nat);
    }
    let rendering = render_line(line_index, line, regions, colors.len());
    let html = fragments_to_html(&rendering.fragments, colors);
    HtmlLine { html, diagnostics: rendering.diagnostics }
}

} // verus!
