//! QR codes of payment URIs, as text for a terminal and as SVG.
//!
//! The error correction level is L: a full address does not fit any other, and
//! the address has a checksum of its own. Dark modules are ink, as on a printed
//! page.
use crate::text::push_dec;
#[allow(unused_imports)]
use crate::text::{
    begins_at, dec, holds_text, lacks, lemma_dec_lacks, lemma_lines_of_first, line_safe, lines_of,
};
use vstd::prelude::*;
#[allow(unused_imports)]
use vstd::utf8::encode_utf8;

verus! {

/// The most bytes that a QR code of level L holds.
pub const QR_MAX_BYTES: usize = 2953;

/// The modules of the quiet zone on each side.
pub const QUIET: usize = 4;

/// The widest QR code: version 40.
pub const QR_MAX_WIDTH: usize = 177;

/// Why nothing was rendered.
#[derive(Clone, Debug, PartialEq, Eq)]
#[allow(inconsistent_fields)]
pub enum QrRenderError {
    /// The data fits no QR code.
    TooLong { len: usize },
    /// Any other refusal of the encoder, in its own words.
    Encoder(String),
}

impl QrRenderError {
    /// The sentence that a person is shown.
    pub open spec fn text(&self) -> Seq<char> {
        match self {
            QrRenderError::TooLong { len } => dec(*len as nat)
                + " bytes does not fit a QR code (byte-mode capacity is 2953 at EC-L) — a long memo or label is the usual cause; shorten it or share the URI as text"@,
            QrRenderError::Encoder(e) => "QR encoding failed: "@ + e@,
        }
    }

    /// The sentence that a person is shown.
    pub fn message(&self) -> (r: String)
        ensures
            r@ == self.text(),
    {
        match self {
            QrRenderError::TooLong { len } => {
                let mut s: String = String::new();
                push_dec(&mut s, *len as u64);
                s.append(
                    " bytes does not fit a QR code (byte-mode capacity is 2953 at EC-L) — a long memo or label is the usual cause; shorten it or share the URI as text",
                );
                assert(s@ =~= self.text());
                s
            },
            QrRenderError::Encoder(e) => {
                let mut s: String = "QR encoding failed: ".to_owned();
                s.append(e.as_str());
                s
            },
        }
    }
}

/// The QR code of a text at level L: its modules, row by row, dark ones `true`,
/// and its width; or that the text is too long, or the encoder's words of
/// another refusal.
pub uninterp spec fn qr_code(data: Seq<char>) -> Result<(Seq<bool>, usize), Option<Seq<char>>>;

/// The QR code that `qrcode::QrCode::with_error_correction_level` makes of a
/// text at `EcLevel::L`, by its `to_colors` and `width`: the named one. The
/// modules are a square of the width, and no code is wider than version 40's.
#[verifier::external_body]
fn matrix(data: &str) -> (r: Result<(Vec<bool>, usize), Option<String>>)
    ensures
        match (r, qr_code(data@)) {
            (Ok((m, w)), Ok(c)) => m@ == c.0 && w == c.1 && m@.len() == w * w && w <= QR_MAX_WIDTH,
            (Err(None), Err(None)) => true,
            (Err(Some(e)), Err(Some(why))) => e@ == why,
            _ => false,
        },
{
    match qrcode::QrCode::with_error_correction_level(data, qrcode::EcLevel::L) {
        Ok(code) => {
            let dark = code.to_colors().iter().map(|c| *c == qrcode::types::Color::Dark).collect();
            Ok((dark, code.width()))
        },
        Err(qrcode::types::QrError::DataTooLong) => Err(None),
        Err(e) => Err(Some(e.to_string())),
    }
}

/// Whether the module at a place of the page, quiet zone included, is dark.
pub open spec fn dark_at(m: Seq<bool>, w: int, x: int, y: int) -> bool {
    QUIET <= x < w + QUIET && QUIET <= y < w + QUIET && m[(y - QUIET) * w + (x - QUIET)]
}

/// The character of two modules, one above the other.
pub open spec fn glyph(upper: bool, lower: bool) -> char {
    match (upper, lower) {
        (true, true) => '█',
        (true, false) => '▀',
        (false, true) => '▄',
        (false, false) => ' ',
    }
}

/// The `r`-th line of text: two rows of modules.
pub open spec fn text_row(m: Seq<bool>, w: int, r: int) -> Seq<char> {
    Seq::new(
        (w + 2 * QUIET) as nat,
        |x: int| glyph(dark_at(m, w, x, 2 * r), dark_at(m, w, x, 2 * r + 1)),
    )
}

/// The lines of text from the `r`-th on.
pub open spec fn text_rows(m: Seq<bool>, w: int, r: int) -> Seq<char>
    decreases w + 2 * QUIET + 1 - 2 * r,
{
    if 0 <= r && 2 * r < w + 2 * QUIET {
        text_row(m, w, r).push('\n') + text_rows(m, w, r + 1)
    } else {
        Seq::empty()
    }
}

fn dark(m: &Vec<bool>, width: usize, x: usize, y: usize) -> (r: bool)
    requires
        m@.len() == width * width,
        width <= QR_MAX_WIDTH,
    ensures
        r == dark_at(m@, width as int, x as int, y as int),
{
    if x < QUIET || y < QUIET || x >= width + QUIET || y >= width + QUIET {
        return false;
    }
    let mx: usize = x - QUIET;
    let my: usize = y - QUIET;
    assert(my * width + mx < width * width && my * width <= 177 * 177) by (nonlinear_arith)
        requires
            0 <= mx < width,
            0 <= my < width,
            width <= 177,
    ;
    m[my * width + mx]
}

/// The text of a QR code, two rows of modules to a line.
pub fn unicode_of(m: &Vec<bool>, width: usize) -> (r: String)
    requires
        m@.len() == width * width,
        width <= QR_MAX_WIDTH,
    ensures
        r@ == text_rows(m@, width as int, 0),
{
    let side: usize = width + 2 * QUIET;
    let mut out: String = String::new();
    let mut y: usize = 0;
    let ghost mut row: int = 0;
    let ghost all = text_rows(m@, width as int, 0);
    assert(Seq::<char>::empty() + all =~= all);
    while y < side
        invariant
            m@.len() == width * width,
            width <= QR_MAX_WIDTH,
            side == width + 2 * QUIET,
            y == 2 * row,
            0 <= row,
            y <= side + 1,
            out@ + text_rows(m@, width as int, row) == all,
        decreases side + 2 - y,
    {
        let ghost was = out@;
        let mut x: usize = 0;
        let ghost line = text_row(m@, width as int, row);
        assert(was + line.take(0) =~= was);
        while x < side
            invariant
                m@.len() == width * width,
                width <= QR_MAX_WIDTH,
                side == width + 2 * QUIET,
                y == 2 * row,
                y < side,
                x <= side,
                line == text_row(m@, width as int, row),
                out@ == was + line.take(x as int),
            decreases side - x,
        {
            let upper = dark(m, width, x, y);
            let lower = dark(m, width, x, y + 1);
            let c = match (upper, lower) {
                (true, true) => '█',
                (true, false) => '▀',
                (false, true) => '▄',
                (false, false) => ' ',
            };
            out.push(c);
            assert(line.take(x + 1) =~= line.take(x as int).push(line[x as int]));
            assert(was + line.take(x + 1) =~= (was + line.take(x as int)).push(line[x as int]));
            x += 1;
        }
        out.push('\n');
        proof {
            assert(line.take(x as int) =~= line);
            let rest = text_rows(m@, width as int, row + 1);
            assert(out@ + rest =~= was + (line.push('\n') + rest));
            row = row + 1;
        }
        y += 2;
    }
    assert(out@ + Seq::<char>::empty() =~= out@);
    out
}

/// One dark module's square, in module coordinates.
pub open spec fn square(x: int, y: int) -> Seq<char> {
    "M"@ + dec((x + QUIET) as nat) + " "@ + dec((y + QUIET) as nat) + "h1v1h-1z"@
}

/// The squares of the dark ones among the first `n` modules.
pub open spec fn squares_to(m: Seq<bool>, w: int, n: int) -> Seq<char>
    decreases n,
{
    if n <= 0 {
        Seq::empty()
    } else if m[n - 1] {
        squares_to(m, w, n - 1) + square((n - 1) % w, (n - 1) / w)
    } else {
        squares_to(m, w, n - 1)
    }
}

/// The SVG of a QR code: a white ground and one black path, four pixels to a
/// module.
pub open spec fn svg_text(m: Seq<bool>, w: int) -> Seq<char> {
    let side = dec((w + 2 * QUIET) as nat);
    let px = dec((4 * (w + 2 * QUIET)) as nat);
    "<svg xmlns=\"http://www.w3.org/2000/svg\" viewBox=\"0 0 "@ + side + " "@ + side
        + "\" width=\""@ + px + "\" height=\""@ + px
        + "\" shape-rendering=\"crispEdges\">\n<rect width=\""@ + side + "\" height=\""@ + side
        + "\" fill=\"#ffffff\"/>\n<path d=\""@ + squares_to(m, w, w * w)
        + "\" fill=\"#000000\"/>\n</svg>\n"@
}

/// The SVG of a QR code.
pub fn svg_of(m: &Vec<bool>, width: usize) -> (r: String)
    requires
        m@.len() == width * width,
        width <= QR_MAX_WIDTH,
    ensures
        r@ == svg_text(m@, width as int),
{
    let side: u64 = (width + 2 * QUIET) as u64;
    let mut path: String = String::new();
    let mut i: usize = 0;
    while i < m.len()
        invariant
            i <= m@.len(),
            m@.len() == width * width,
            width <= QR_MAX_WIDTH,
            path@ == squares_to(m@, width as int, i as int),
        decreases m@.len() - i,
    {
        assert(width > 0) by (nonlinear_arith)
            requires
                i < m@.len(),
                m@.len() == width * width,
        ;
        if m[i] {
            assert(i / width <= i) by (nonlinear_arith)
                requires
                    width > 0,
            ;
            assert(width * width <= 177 * 177) by (nonlinear_arith)
                requires
                    width <= 177,
            ;
            let x: u64 = (i % width + QUIET) as u64;
            let y: u64 = (i / width + QUIET) as u64;
            let ghost was = path@;
            path.append("M");
            push_dec(&mut path, x);
            path.append(" ");
            push_dec(&mut path, y);
            path.append("h1v1h-1z");
            assert(path@ =~= was + square(i as int % width as int, i as int / width as int));
        }
        i += 1;
    }
    let mut s: String = "<svg xmlns=\"http://www.w3.org/2000/svg\" viewBox=\"0 0 ".to_owned();
    push_dec(&mut s, side);
    s.append(" ");
    push_dec(&mut s, side);
    s.append("\" width=\"");
    push_dec(&mut s, 4 * side);
    s.append("\" height=\"");
    push_dec(&mut s, 4 * side);
    s.append("\" shape-rendering=\"crispEdges\">\n<rect width=\"");
    push_dec(&mut s, side);
    s.append("\" height=\"");
    push_dec(&mut s, side);
    s.append("\" fill=\"#ffffff\"/>\n<path d=\"");
    s.append(path.as_str());
    s.append("\" fill=\"#000000\"/>\n</svg>\n");
    s
}

/// What a text's code is refused with.
pub open spec fn qr_refused(data: Seq<char>, e: QrRenderError) -> bool {
    match qr_code(data) {
        Err(None) => e matches QrRenderError::TooLong { len } && len == encode_utf8(data).len(),
        Err(Some(why)) => e matches QrRenderError::Encoder(w) && w@ == why,
        Ok(_) => false,
    }
}

fn encoded(data: &str) -> (r: Result<(Vec<bool>, usize), QrRenderError>)
    ensures
        match r {
            Ok((m, w)) => qr_code(data@) == Ok::<(Seq<bool>, usize), Option<Seq<char>>>((m@, w))
                && m@.len() == w * w && w <= QR_MAX_WIDTH,
            Err(e) => qr_refused(data@, e),
        },
{
    match matrix(data) {
        Ok((m, w)) => {
            assert((m@, w) == qr_code(data@)->Ok_0);
            Ok((m, w))
        },
        Err(None) => Err(QrRenderError::TooLong { len: data.as_bytes().len() }),
        Err(Some(e)) => Err(QrRenderError::Encoder(e)),
    }
}

/// Renders a text's QR code as text, its quiet zone included.
pub fn render_unicode(data: &str) -> (r: Result<String, QrRenderError>)
    ensures
        match r {
            Ok(s) => qr_code(data@) matches Ok((m, w)) && s@ == text_rows(m, w as int, 0),
            Err(e) => qr_refused(data@, e),
        },
{
    match encoded(data) {
        Ok((m, w)) => Ok(unicode_of(&m, w)),
        Err(e) => Err(e),
    }
}

/// Renders a text's QR code as an SVG document, its quiet zone included.
pub fn render_svg(data: &str) -> (r: Result<String, QrRenderError>)
    ensures
        match r {
            Ok(s) => qr_code(data@) matches Ok((m, w)) && s@ == svg_text(m, w as int),
            Err(e) => qr_refused(data@, e),
        },
{
    match encoded(data) {
        Ok((m, w)) => Ok(svg_of(&m, w)),
        Err(e) => Err(e),
    }
}

proof fn lemma_row_safe(m: Seq<bool>, w: int, r: int)
    requires
        w >= 0,
    ensures
        line_safe(text_row(m, w, r)),
{
}

/// The text of a code is a rectangle: half as many lines as it has rows of
/// modules, the odd one counted, each as long as the code is wide with its quiet
/// zone. The quiet zone is blank.
pub proof fn law_the_text_is_a_rectangle(m: Seq<bool>, w: int)
    requires
        w >= 0,
    ensures
        ({
            let all = lines_of(text_rows(m, w, 0));
            &&& all.len() == (w + 2 * QUIET + 1) / 2
            &&& forall|r: int| 0 <= r < all.len() ==> #[trigger] all[r] == text_row(m, w, r)
            &&& forall|r: int| 0 <= r < all.len() ==> (#[trigger] all[r]).len() == w + 2 * QUIET
            &&& forall|r: int, x: int|
                0 <= r < all.len() && 0 <= x < w + 2 * QUIET && (r < 2 || x < QUIET || x >= w
                    + QUIET) ==> #[trigger] all[r][x] == ' '
        }),
{
    lemma_rows(m, w, 0);
}

/// Every module can be read off the text: the module in column `x` and row `y` of
/// the code is dark exactly if the upper half of its character is filled, or the
/// lower, as its row with the quiet zone is even or odd.
pub proof fn law_every_module_is_shown(m: Seq<bool>, w: int, x: int, y: int)
    requires
        0 <= x < w,
        0 <= y < w,
    ensures
        ({
            let c = lines_of(text_rows(m, w, 0))[(y + QUIET) / 2][x + QUIET];
            if (y + QUIET) % 2 == 0 {
                m[y * w + x] <==> c == '█' || c == '▀'
            } else {
                m[y * w + x] <==> c == '█' || c == '▄'
            }
        }),
{
    lemma_rows(m, w, 0);
    let r = (y + QUIET) / 2;
    assert(lines_of(text_rows(m, w, 0))[r] == text_row(m, w, r));
    let upper = dark_at(m, w, x + QUIET, 2 * r);
    let lower = dark_at(m, w, x + QUIET, 2 * r + 1);
    assert(text_row(m, w, r)[x + QUIET] == glyph(upper, lower));
    if (y + QUIET) % 2 == 0 {
        assert(2 * r == y + QUIET);
        assert(upper == m[y * w + x]);
    } else {
        assert(2 * r + 1 == y + QUIET);
        assert(lower == m[y * w + x]);
    }
}

/// How many of the first `n` modules are dark.
pub open spec fn darks_to(m: Seq<bool>, n: int) -> nat
    decreases n,
{
    if n <= 0 {
        0
    } else {
        darks_to(m, n - 1) + if m[n - 1] {
            1nat
        } else {
            0nat
        }
    }
}

/// How often a character stands in a text.
pub open spec fn times(s: Seq<char>, c: char) -> nat
    decreases s.len(),
{
    if s.len() == 0 {
        0
    } else {
        times(s.drop_last(), c) + if s.last() == c {
            1nat
        } else {
            0nat
        }
    }
}

proof fn lemma_times_add(a: Seq<char>, b: Seq<char>, c: char)
    ensures
        times(a + b, c) == times(a, c) + times(b, c),
    decreases b.len(),
{
    if b.len() == 0 {
        assert(a + b =~= a);
    } else {
        lemma_times_add(a, b.drop_last(), c);
        assert((a + b).drop_last() =~= a + b.drop_last());
    }
}

proof fn lemma_times_none(s: Seq<char>, c: char)
    requires
        lacks(s, c),
    ensures
        times(s, c) == 0,
    decreases s.len(),
{
    if s.len() > 0 {
        lemma_times_none(s.drop_last(), c);
    }
}

proof fn lemma_square_once(x: int, y: int)
    ensures
        times(square(x, y), 'M') == 1,
{
    reveal_strlit("M");
    reveal_strlit(" ");
    reveal_strlit("h1v1h-1z");
    let a = dec((x + QUIET) as nat);
    let b = dec((y + QUIET) as nat);
    lemma_dec_lacks((x + QUIET) as nat, 'M');
    lemma_dec_lacks((y + QUIET) as nat, 'M');
    let rest = a + " "@ + b + "h1v1h-1z"@;
    assert(lacks(rest, 'M')) by {
        assert forall|i: int| 0 <= i < rest.len() implies rest[i] != 'M' by {
            if i < a.len() {
                assert(rest[i] == a[i]);
            } else if i == a.len() {
                assert(rest[i] == ' ');
            } else if i < a.len() + 1 + b.len() {
                assert(rest[i] == b[i - a.len() - 1]);
            } else {
                assert(rest[i] == "h1v1h-1z"@[i - a.len() - 1 - b.len()]);
            }
        }
    }
    lemma_times_none(rest, 'M');
    assert(square(x, y) =~= "M"@ + rest);
    let first = "M"@;
    assert(first =~= seq!['M']);
    assert(first.drop_last() =~= Seq::empty());
    assert(times(first.drop_last(), 'M') == 0);
    assert(times(first, 'M') == 1);
    lemma_times_add(first, rest, 'M');
}

/// The squares of a code's path: one for each dark module, at its place, and no
/// more.
pub proof fn law_a_square_for_each_dark_module(m: Seq<bool>, w: int, n: int)
    requires
        0 <= n <= m.len(),
        w > 0,
    ensures
        times(squares_to(m, w, n), 'M') == darks_to(m, n),
        forall|i: int|
            0 <= i < n && #[trigger] m[i] ==> holds_text(
                squares_to(m, w, n),
                "M"@ + dec((i % w + QUIET) as nat) + " "@ + dec((i / w + QUIET) as nat)
                    + "h1v1h-1z"@,
            ),
    decreases n,
{
    if n > 0 {
        law_a_square_for_each_dark_module(m, w, n - 1);
        let was = squares_to(m, w, n - 1);
        let now = squares_to(m, w, n);
        let last = square((n - 1) % w, (n - 1) / w);
        lemma_square_once((n - 1) % w, (n - 1) / w);
        lemma_times_add(was, last, 'M');
        assert forall|i: int| 0 <= i < n && #[trigger] m[i] implies holds_text(
            now,
            square(i % w, i / w),
        ) by {
            let sq = square(i % w, i / w);
            if i < n - 1 {
                assert(holds_text(was, sq));
                let k = choose|k: int|
                    0 <= k && k + sq.len() <= was.len() && #[trigger] begins_at(was, k, sq);
                assert(now.subrange(k, k + sq.len() as int) =~= was.subrange(
                    k,
                    k + sq.len() as int,
                ));
                assert(begins_at(now, k, sq));
            } else {
                assert(now.subrange(was.len() as int, was.len() as int + sq.len() as int) =~= last);
                assert(begins_at(now, was.len() as int, sq));
            }
        }
    } else {
        assert(squares_to(m, w, 0).len() == 0);
    }
}

proof fn lemma_rows(m: Seq<bool>, w: int, r: int)
    requires
        w >= 0,
        0 <= r,
        2 * r <= w + 2 * QUIET + 1,
    ensures
        lines_of(text_rows(m, w, r)) == Seq::new(
            ((w + 2 * QUIET + 1) / 2 - r) as nat,
            |k: int| text_row(m, w, r + k),
        ),
    decreases w + 2 * QUIET + 1 - 2 * r,
{
    if 2 * r < w + 2 * QUIET {
        lemma_rows(m, w, r + 1);
        lemma_row_safe(m, w, r);
        lemma_lines_of_first(text_row(m, w, r), text_rows(m, w, r + 1));
        assert(lines_of(text_rows(m, w, r)) =~= Seq::new(
            ((w + 2 * QUIET + 1) / 2 - r) as nat,
            |k: int| text_row(m, w, r + k),
        ));
    } else {
        assert(text_rows(m, w, r) =~= Seq::empty());
        assert(lines_of(text_rows(m, w, r)) =~= Seq::empty());
    }
}

} // verus!
