//! Output rendering: the text parts of an extracted page as Markdown and HTML.
//!
//! Tables render as GitHub-flavoured pipe tables (Markdown) or `<table>`s
//! (HTML); images with a viewable `data:` URL as image nodes; all text placed
//! into HTML is escaped.

use vstd::prelude::*;
use vstd::string::StrSliceExecFns;
use vstd::string::StringExecFns;

use crate::cmap::char_string;
use crate::image::ParsedImage;
use crate::tables::Table;

verus! {

/// `parts` joined with `sep` between neighbours.
pub open spec fn join_spec(parts: Seq<Seq<char>>, sep: Seq<char>) -> Seq<char>
    decreases parts.len(),
{
    if parts.len() == 0 {
        seq![]
    } else if parts.len() == 1 {
        parts[0]
    } else {
        join_spec(parts.drop_last(), sep) + sep + parts.last()
    }
}

/// Join strings with a separator.
pub fn join(parts: &[String], sep: &str) -> (r: String)
    ensures
        r@ == join_spec(parts@.map_values(|p: String| p@), sep@),
{
    let mut out = String::new();
    let mut k: usize = 0;
    while k < parts.len()
        invariant
            k <= parts@.len(),
            out@ == join_spec(parts@.subrange(0, k as int).map_values(|p: String| p@), sep@),
        decreases parts@.len() - k,
    {
        let ghost prev = parts@.subrange(0, k as int).map_values(|p: String| p@);
        proof {
            let next = parts@.subrange(0, k + 1).map_values(|p: String| p@);
            assert(next.drop_last() =~= prev);
            assert(next.last() == parts@[k as int]@);
        }
        if k > 0 {
            out.append(sep);
        }
        out.append(parts[k].as_str());
        proof {
            if k == 0 {
                assert(out@ =~= parts@[0]@);
            }
        }
        k += 1;
    }
    assert(parts@.subrange(0, k as int) =~= parts@);
    out
}

/// The views of strings after a push.
proof fn lemma_views_push(before: Seq<String>, x: String)
    ensures
        before.push(x).map_values(|p: String| p@) == before.map_values(|p: String| p@).push(x@),
{
    assert(before.push(x).map_values(|p: String| p@) =~= before.map_values(|p: String| p@).push(x@));
}

/// The HTML form of one character: the five significant ones escaped.
pub open spec fn escape_char(c: char) -> Seq<char> {
    if c == '&' {
        "&amp;"@
    } else if c == '<' {
        "&lt;"@
    } else if c == '>' {
        "&gt;"@
    } else if c == '"' {
        "&quot;"@
    } else if c == '\'' {
        "&#39;"@
    } else {
        seq![c]
    }
}

/// Text with every character HTML-escaped.
pub open spec fn escape_spec(s: Seq<char>) -> Seq<char>
    decreases s.len(),
{
    if s.len() == 0 {
        seq![]
    } else {
        escape_spec(s.drop_last()) + escape_char(s.last())
    }
}

/// Append one character, HTML-escaped.
pub fn push_escaped(out: &mut String, c: char)
    ensures
        final(out)@ == old(out)@ + escape_char(c),
{
    if c == '&' {
        out.append("&amp;");
    } else if c == '<' {
        out.append("&lt;");
    } else if c == '>' {
        out.append("&gt;");
    } else if c == '"' {
        out.append("&quot;");
    } else if c == '\'' {
        out.append("&#39;");
    } else {
        let s = char_string(c);
        out.append(s.as_str());
    }
}

/// Escape the five HTML-significant characters.
pub fn escape_html(text: &str) -> (r: String)
    ensures
        r@ == escape_spec(text@),
{
    let mut out = String::new();
    let n = text.unicode_len();
    let mut i: usize = 0;
    while i < n
        invariant
            n == text@.len(),
            i <= n,
            out@ == escape_spec(text@.subrange(0, i as int)),
        decreases n - i,
    {
        proof {
            assert(text@.subrange(0, i + 1).drop_last() =~= text@.subrange(0, i as int));
        }
        push_escaped(&mut out, text.get_char(i));
        i += 1;
    }
    assert(text@.subrange(0, i as int) =~= text@);
    out
}

/// A Markdown table cell: `|` escaped as `\|`.
pub open spec fn md_cell_spec(s: Seq<char>) -> Seq<char>
    decreases s.len(),
{
    if s.len() == 0 {
        seq![]
    } else {
        md_cell_spec(s.drop_last()) + if s.last() == '|' {
            seq!['\\', '|']
        } else {
            seq![s.last()]
        }
    }
}

/// Escape `|` in a Markdown table cell.
pub fn md_cell(text: &str) -> (r: String)
    ensures
        r@ == md_cell_spec(text@),
{
    let mut out = String::new();
    let n = text.unicode_len();
    let mut i: usize = 0;
    while i < n
        invariant
            n == text@.len(),
            i <= n,
            out@ == md_cell_spec(text@.subrange(0, i as int)),
        decreases n - i,
    {
        proof {
            assert(text@.subrange(0, i + 1).drop_last() =~= text@.subrange(0, i as int));
        }
        let c = text.get_char(i);
        if c == '|' {
            let a = char_string('\\');
            let b = char_string('|');
            out.append(a.as_str());
            out.append(b.as_str());
            assert(seq!['\\'] + seq!['|'] =~= seq!['\\', '|']);
            assert(out@ =~= md_cell_spec(text@.subrange(0, i as int)) + seq!['\\', '|']);
        } else {
            let a = char_string(c);
            out.append(a.as_str());
        }
        i += 1;
    }
    assert(text@.subrange(0, i as int) =~= text@);
    out
}

/// A Markdown table row: `| c1 | c2 | … |`.
pub open spec fn md_row_spec(cells: Seq<Seq<char>>) -> Seq<char> {
    "| "@ + join_spec(cells.map_values(|c: Seq<char>| md_cell_spec(c)), " | "@) + " |"@
}

/// A Markdown table row from cell texts.
pub fn md_row(cells: &[String]) -> (r: String)
    ensures
        r@ == md_row_spec(cells@.map_values(|c: String| c@)),
{
    let mut escaped: Vec<String> = Vec::new();
    let mut k: usize = 0;
    while k < cells.len()
        invariant
            k <= cells@.len(),
            escaped@.map_values(|p: String| p@) == cells@.subrange(0, k as int).map_values(|c: String| md_cell_spec(c@)),
        decreases cells@.len() - k,
    {
        let e = md_cell(cells[k].as_str());
        let ghost before = escaped@;
        escaped.push(e);
        proof {
            lemma_views_push(before, e);
            assert(cells@.subrange(0, k + 1).map_values(|c: String| md_cell_spec(c@)) =~= cells@.subrange(0, k as int).map_values(|c: String| md_cell_spec(c@)).push(md_cell_spec(cells@[k as int]@)));
        }
        assert(escaped@.map_values(|p: String| p@) =~= cells@.subrange(0, k + 1).map_values(|c: String| md_cell_spec(c@)));
        k += 1;
    }
    assert(cells@.subrange(0, k as int) =~= cells@);
    assert(escaped@.map_values(|p: String| p@) =~= cells@.map_values(|c: String| c@).map_values(|c: Seq<char>| md_cell_spec(c)));
    let mut s = String::from_str("| ");
    let body = join(escaped.as_slice(), " | ");
    s.append(body.as_str());
    s.append(" |");
    s
}

/// The Markdown header divider for `cols` columns: `| --- | --- |`.
pub open spec fn md_divider_spec(cols: nat) -> Seq<char> {
    "| "@ + join_spec(Seq::new(cols, |i: int| "---"@), " | "@) + " |"@
}

/// The Markdown header divider row.
pub fn md_divider(cols: usize) -> (r: String)
    ensures
        r@ == md_divider_spec(cols as nat),
{
    let mut parts: Vec<String> = Vec::new();
    let mut k: usize = 0;
    while k < cols
        invariant
            k <= cols,
            parts@.map_values(|p: String| p@) == Seq::new(k as nat, |i: int| "---"@),
        decreases cols - k,
    {
        let ghost before = parts@;
        let d = String::from_str("---");
        parts.push(d);
        proof {
            lemma_views_push(before, d);
            assert(Seq::new((k + 1) as nat, |i: int| "---"@) =~= Seq::new(k as nat, |i: int| "---"@).push("---"@));
        }
        assert(parts@.map_values(|p: String| p@) =~= Seq::new((k + 1) as nat, |i: int| "---"@));
        k += 1;
    }
    let mut s = String::from_str("| ");
    let body = join(parts.as_slice(), " | ");
    s.append(body.as_str());
    s.append(" |");
    s
}

/// The Markdown rows of a table: one per row of cells, with the divider after
/// the first when the table has rows and columns.
pub open spec fn md_rows_spec(rows: usize, cols: usize, cells: Seq<Seq<Seq<char>>>) -> Seq<Seq<char>> {
    let rs = cells.map_values(|r: Seq<Seq<char>>| md_row_spec(r));
    if rows > 0 && cols > 0 {
        let at = if rs.len() < 1 { rs.len() as int } else { 1 };
        rs.subrange(0, at).push(md_divider_spec(cols as nat)) + rs.subrange(at, rs.len() as int)
    } else {
        rs
    }
}

/// The cell texts of a table.
pub open spec fn cells_view(t: Table) -> Seq<Seq<Seq<char>>> {
    t.cells@.map_values(|r: Vec<String>| r@.map_values(|c: String| c@))
}

/// Render one table as a GitHub-flavoured Markdown pipe table.
pub fn markdown_table(table: &Table) -> (r: String)
    ensures
        r@ == join_spec(md_rows_spec(table.rows, table.cols, cells_view(*table)), "\n"@),
{
    let mut rows: Vec<String> = Vec::new();
    let mut k: usize = 0;
    let ghost rs = cells_view(*table).map_values(|r: Seq<Seq<char>>| md_row_spec(r));
    while k < table.cells.len()
        invariant
            k <= table.cells@.len(),
            rs == cells_view(*table).map_values(|r: Seq<Seq<char>>| md_row_spec(r)),
            rows@.map_values(|p: String| p@) == rs.subrange(0, k as int),
        decreases table.cells@.len() - k,
    {
        let row = md_row(table.cells[k].as_slice());
        let ghost before = rows@;
        rows.push(row);
        proof {
            lemma_views_push(before, row);
            assert(rs.subrange(0, k + 1) =~= rs.subrange(0, k as int).push(rs[k as int]));
            assert(rs[k as int] == md_row_spec(table.cells@[k as int]@.map_values(|c: String| c@)));
        }
        assert(rows@.map_values(|p: String| p@) =~= rs.subrange(0, k + 1));
        k += 1;
    }
    assert(rs.subrange(0, k as int) =~= rs);
    if table.rows > 0 && table.cols > 0 {
        let at: usize = if rows.len() < 1 { rows.len() } else { 1 };
        let ghost before = rows@.map_values(|p: String| p@);
        rows.insert(at, md_divider(table.cols));
        assert(rows@.map_values(|p: String| p@) =~= before.subrange(0, at as int).push(md_divider_spec(table.cols as nat))
            + before.subrange(at as int, before.len() as int));
    }
    join(rows.as_slice(), "\n")
}

/// One image as a Markdown image node, or `None` when it has no viewable bytes.
pub fn image_markdown(image: &ParsedImage) -> (r: Option<String>)
    ensures
        image.data_url@.len() == 0 ==> r is None,
        image.data_url@.len() > 0 ==> (r matches Some(s) && s@ == "!["@ + image.name@ + "]("@ + image.data_url@ + ")"@),
{
    if image.data_url.as_str().is_empty() {
        None
    } else {
        let mut s = String::from_str("![");
        s.append(image.name.as_str());
        s.append("](");
        s.append(image.data_url.as_str());
        s.append(")");
        Some(s)
    }
}

/// The HTML of one image: an `<img>` (nothing when it has no viewable bytes).
pub open spec fn image_html_spec(name: Seq<char>, url: Seq<char>) -> Seq<char> {
    if url.len() == 0 {
        seq![]
    } else {
        "<img src=\""@ + url + "\" alt=\""@ + escape_spec(name) + "\" />\n"@
    }
}

/// Append one image as an HTML `<img>` (skipped when it has no viewable bytes).
pub fn push_image_html(s: &mut String, image: &ParsedImage)
    ensures
        final(s)@ == old(s)@ + image_html_spec(image.name@, image.data_url@),
{
    if image.data_url.as_str().is_empty() {
        assert(old(s)@ + Seq::<char>::empty() =~= old(s)@);
        return;
    }
    let ghost s0 = s@;
    s.append("<img src=\"");
    s.append(image.data_url.as_str());
    s.append("\" alt=\"");
    let name = escape_html(image.name.as_str());
    s.append(name.as_str());
    s.append("\" />\n");
    assert(s@ =~= s0 + image_html_spec(image.name@, image.data_url@));
}

/// The HTML cells of one row.
pub open spec fn cells_html(cells: Seq<Seq<char>>) -> Seq<char>
    decreases cells.len(),
{
    if cells.len() == 0 {
        seq![]
    } else {
        cells_html(cells.drop_last()) + "<td>"@ + escape_spec(cells.last()) + "</td>"@
    }
}

/// The HTML rows of a table.
pub open spec fn rows_html(rows: Seq<Seq<Seq<char>>>) -> Seq<char>
    decreases rows.len(),
{
    if rows.len() == 0 {
        seq![]
    } else {
        rows_html(rows.drop_last()) + "<tr>"@ + cells_html(rows.last()) + "</tr>\n"@
    }
}

/// Append one table row's cells.
fn push_row_html(s: &mut String, row: &[String])
    ensures
        final(s)@ == old(s)@ + cells_html(row@.map_values(|c: String| c@)),
{
    let mut k: usize = 0;
    while k < row.len()
        invariant
            k <= row@.len(),
            s@ == old(s)@ + cells_html(row@.subrange(0, k as int).map_values(|c: String| c@)),
        decreases row@.len() - k,
    {
        let ghost before = s@;
        proof {
            let next = row@.subrange(0, k + 1).map_values(|c: String| c@);
            assert(next.drop_last() =~= row@.subrange(0, k as int).map_values(|c: String| c@));
            assert(next.last() == row@[k as int]@);
        }
        s.append("<td>");
        let cell = escape_html(row[k].as_str());
        s.append(cell.as_str());
        s.append("</td>");
        assert(s@ =~= old(s)@ + cells_html(row@.subrange(0, k + 1).map_values(|c: String| c@)));
        k += 1;
    }
    assert(row@.subrange(0, k as int) =~= row@);
}

/// Append one table as an HTML `<table>`.
pub fn push_table_html(s: &mut String, table: &Table)
    ensures
        final(s)@ == old(s)@ + "<table>\n"@ + rows_html(cells_view(*table)) + "</table>\n"@,
{
    s.append("<table>\n");
    let ghost s1 = s@;
    let mut k: usize = 0;
    while k < table.cells.len()
        invariant
            k <= table.cells@.len(),
            s1 == old(s)@ + "<table>\n"@,
            s@ == s1 + rows_html(cells_view(*table).subrange(0, k as int)),
        decreases table.cells@.len() - k,
    {
        proof {
            let next = cells_view(*table).subrange(0, k + 1);
            assert(next.drop_last() =~= cells_view(*table).subrange(0, k as int));
            assert(next.last() == table.cells@[k as int]@.map_values(|c: String| c@));
        }
        s.append("<tr>");
        push_row_html(s, table.cells[k].as_slice());
        s.append("</tr>\n");
        assert(s@ =~= s1 + rows_html(cells_view(*table).subrange(0, k + 1)));
        k += 1;
    }
    assert(cells_view(*table).subrange(0, k as int) =~= cells_view(*table));
    s.append("</table>\n");
}

/// The placeholder a scanned page renders as.
pub open spec fn ocr_placeholder() -> Seq<char> {
    "_[scanned page — text extraction requires OCR]_"@
}

/// The Markdown parts of a page: its text, its tables, its viewable images.
pub open spec fn md_parts(text: Seq<char>, tables: Seq<Table>, images: Seq<ParsedImage>) -> Seq<Seq<char>> {
    seq![text] + tables.map_values(|t: Table| join_spec(md_rows_spec(t.rows, t.cols, cells_view(t)), "\n"@))
        + images.filter(|i: ParsedImage| i.data_url@.len() > 0).map_values(
        |i: ParsedImage| "!["@ + i.name@ + "]("@ + i.data_url@ + ")"@,
    )
}

/// One page's Markdown from its reading text, tables and images: the
/// non-empty parts separated by blank lines, or an OCR placeholder for a
/// scanned page.
pub open spec fn page_markdown_spec(needs_ocr: bool, text: Seq<char>, tables: Seq<Table>, images: Seq<ParsedImage>) -> Seq<char> {
    if needs_ocr {
        ocr_placeholder()
    } else {
        join_spec(md_parts(text, tables, images).filter(|p: Seq<char>| p.len() > 0), "\n\n"@)
    }
}

/// One page's Markdown (text + GitHub-style pipe tables, or an OCR
/// placeholder).
pub fn page_markdown(needs_ocr: bool, text: &str, tables: &[Table], images: &[ParsedImage]) -> (r: String)
    ensures
        r@ == page_markdown_spec(needs_ocr, text@, tables@, images@),
{
    if needs_ocr {
        return String::from_str("_[scanned page — text extraction requires OCR]_");
    }
    let mut parts: Vec<String> = Vec::new();
    parts.push(String::from_str(text));
    let mut k: usize = 0;
    while k < tables.len()
        invariant
            k <= tables@.len(),
            parts@.map_values(|p: String| p@) == seq![text@] + tables@.subrange(0, k as int).map_values(
                |t: Table| join_spec(md_rows_spec(t.rows, t.cols, cells_view(t)), "\n"@),
            ),
        decreases tables@.len() - k,
    {
        let t = markdown_table(&tables[k]);
        let ghost before = parts@;
        parts.push(t);
        proof {
            lemma_views_push(before, t);
            assert(tables@.subrange(0, k + 1) =~= tables@.subrange(0, k as int).push(tables@[k as int]));
        }
        assert(parts@.map_values(|p: String| p@) =~= seq![text@] + tables@.subrange(0, k + 1).map_values(
            |t: Table| join_spec(md_rows_spec(t.rows, t.cols, cells_view(t)), "\n"@),
        ));
        k += 1;
    }
    assert(tables@.subrange(0, k as int) =~= tables@);
    let ghost head = parts@.map_values(|p: String| p@);
    let mut j: usize = 0;
    while j < images.len()
        invariant
            j <= images@.len(),
            parts@.map_values(|p: String| p@) == head + images@.subrange(0, j as int).filter(
                |i: ParsedImage| i.data_url@.len() > 0,
            ).map_values(|i: ParsedImage| "!["@ + i.name@ + "]("@ + i.data_url@ + ")"@),
        decreases images@.len() - j,
    {
        proof {
            let sub = images@.subrange(0, j + 1);
            assert(sub.drop_last() =~= images@.subrange(0, j as int));
            sub.drop_last().lemma_filter_push(images@[j as int], |i: ParsedImage| i.data_url@.len() > 0);
            assert(sub =~= sub.drop_last().push(images@[j as int]));
        }
        let ghost before = parts@;
        match image_markdown(&images[j]) {
            Some(m) => {
                parts.push(m);
                proof {
                    lemma_views_push(before, m);
                }
            },
            None => {},
        }
        assert(parts@.map_values(|p: String| p@) =~= head + images@.subrange(0, j + 1).filter(
            |i: ParsedImage| i.data_url@.len() > 0,
        ).map_values(|i: ParsedImage| "!["@ + i.name@ + "]("@ + i.data_url@ + ")"@));
        j += 1;
    }
    assert(images@.subrange(0, j as int) =~= images@);
    let ghost all = parts@.map_values(|p: String| p@);
    assert(all == md_parts(text@, tables@, images@));
    let mut kept: Vec<String> = Vec::new();
    let mut m: usize = 0;
    while m < parts.len()
        invariant
            m <= parts@.len(),
            all == parts@.map_values(|p: String| p@),
            kept@.map_values(|p: String| p@) == all.subrange(0, m as int).filter(|p: Seq<char>| p.len() > 0),
        decreases parts@.len() - m,
    {
        proof {
            let sub = all.subrange(0, m + 1);
            assert(sub.drop_last() =~= all.subrange(0, m as int));
            sub.drop_last().lemma_filter_push(all[m as int], |p: Seq<char>| p.len() > 0);
            assert(sub =~= sub.drop_last().push(all[m as int]));
        }
        let ghost before = kept@;
        if !parts[m].as_str().is_empty() {
            let c = parts[m].clone();
            kept.push(c);
            proof {
                lemma_views_push(before, c);
            }
        }
        assert(kept@.map_values(|p: String| p@) =~= all.subrange(0, m + 1).filter(|p: Seq<char>| p.len() > 0));
        m += 1;
    }
    assert(all.subrange(0, m as int) =~= all);
    join(kept.as_slice(), "\n\n")
}

/// The paragraphs of a page's lines, escaped.
pub open spec fn paragraphs_html(lines: Seq<Seq<char>>) -> Seq<char>
    decreases lines.len(),
{
    if lines.len() == 0 {
        seq![]
    } else {
        paragraphs_html(lines.drop_last()) + "<p>"@ + escape_spec(lines.last()) + "</p>\n"@
    }
}

/// The HTML of a page's tables, in order.
pub open spec fn tables_html(tables: Seq<Table>) -> Seq<char>
    decreases tables.len(),
{
    if tables.len() == 0 {
        seq![]
    } else {
        tables_html(tables.drop_last()) + "<table>\n"@ + rows_html(cells_view(tables.last())) + "</table>\n"@
    }
}

/// The HTML of a page's images, in order.
pub open spec fn images_html(images: Seq<ParsedImage>) -> Seq<char>
    decreases images.len(),
{
    if images.len() == 0 {
        seq![]
    } else {
        images_html(images.drop_last()) + image_html_spec(images.last().name@, images.last().data_url@)
    }
}

/// The body of a page's HTML section: one paragraph per line, then its tables,
/// then its images.
pub open spec fn page_body_html(lines: Seq<Seq<char>>, tables: Seq<Table>, images: Seq<ParsedImage>) -> Seq<char> {
    paragraphs_html(lines) + tables_html(tables) + images_html(images)
}

/// Append the body of a page's HTML section: one `<p>` per line, then the
/// tables, then the images.
pub fn push_page_body_html(s: &mut String, lines: &[String], tables: &[Table], images: &[ParsedImage])
    ensures
        final(s)@ == old(s)@ + page_body_html(lines@.map_values(|l: String| l@), tables@, images@),
{
    let ghost s0 = s@;
    let ghost lv = lines@.map_values(|l: String| l@);
    let mut i: usize = 0;
    while i < lines.len()
        invariant
            i <= lines@.len(),
            lv == lines@.map_values(|l: String| l@),
            s@ == s0 + paragraphs_html(lv.take(i as int)),
        decreases lines@.len() - i,
    {
        let ghost before = s@;
        s.append("<p>");
        let e = escape_html(lines[i].as_str());
        s.append(e.as_str());
        s.append("</p>\n");
        proof {
            assert(lv.take(i + 1).drop_last() =~= lv.take(i as int));
            assert(lv.take(i + 1).last() == lines@[i as int]@);
            assert(s@ =~= s0 + paragraphs_html(lv.take(i + 1)));
        }
        i += 1;
    }
    assert(lv.take(lines@.len() as int) =~= lv);
    let ghost s1 = s@;
    let mut k: usize = 0;
    while k < tables.len()
        invariant
            k <= tables@.len(),
            s@ == s1 + tables_html(tables@.take(k as int)),
        decreases tables@.len() - k,
    {
        push_table_html(s, &tables[k]);
        proof {
            assert(tables@.take(k + 1).drop_last() =~= tables@.take(k as int));
            assert(s@ =~= s1 + tables_html(tables@.take(k + 1)));
        }
        k += 1;
    }
    assert(tables@.take(tables@.len() as int) =~= tables@);
    let ghost s2 = s@;
    let mut m: usize = 0;
    while m < images.len()
        invariant
            m <= images@.len(),
            s@ == s2 + images_html(images@.take(m as int)),
        decreases images@.len() - m,
    {
        push_image_html(s, &images[m]);
        proof {
            assert(images@.take(m + 1).drop_last() =~= images@.take(m as int));
            assert(s@ =~= s2 + images_html(images@.take(m + 1)));
        }
        m += 1;
    }
    assert(images@.take(images@.len() as int) =~= images@);
    assert(s@ =~= s0 + page_body_html(lv, tables@, images@));
}

} // verus!
