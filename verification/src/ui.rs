//! Terminal text layout: visible widths, padding, truncation with an
//! ellipsis, relative date labels, and single truecolor cells.
use vstd::prelude::*;

use crate::date::{chrono_format, days_between, format_date, Date};
use crate::expense::string_of;
use crate::text::{chars_of, dec, push_char, push_repeat, push_str, string_from_slice};

verus! {

/// `n` spaces.
pub open spec fn spaces(n: int) -> Seq<char> {
    Seq::new(if n > 0 { n as nat } else { 0 }, |_i: int| ' ')
}

/// `a - b`, or 0 when `b` is larger: `usize::saturating_sub`.
pub open spec fn saturating_sub(a: int, b: int) -> int {
    if a > b {
        a - b
    } else {
        0
    }
}

/// Visible width of a plain string in terminal columns: its number of characters
/// (every Latin letter and currency symbol takes one column).
pub fn char_width(s: &str) -> (r: usize)
    ensures
        r == s@.len(),
{
    s.unicode_len()
}

/// `colored` (which may hold ANSI codes) followed by enough spaces to fill
/// `width` columns, counting `plain_w` columns for `colored` itself.
pub fn pad_end(colored: &str, plain_w: usize, width: usize) -> (r: String)
    ensures
        r@ == colored@ + spaces(saturating_sub(width as int, plain_w as int)),
{
    let n: usize = if width > plain_w {
        width - plain_w
    } else {
        0
    };
    let mut r = string_of(colored);
    push_repeat(&mut r, ' ', n);
    assert(r@ =~= colored@ + spaces(saturating_sub(width as int, plain_w as int)));
    r
}

/// Spaces to fill `width` columns, then `colored`, counting `plain_w`
/// columns for `colored`.
pub fn pad_start(colored: &str, plain_w: usize, width: usize) -> (r: String)
    ensures
        r@ == spaces(saturating_sub(width as int, plain_w as int)) + colored@,
{
    let n: usize = if width > plain_w {
        width - plain_w
    } else {
        0
    };
    let mut r = String::new();
    push_repeat(&mut r, ' ', n);
    push_str(&mut r, colored);
    assert(r@ =~= spaces(saturating_sub(width as int, plain_w as int)) + colored@);
    r
}

/// What `truncate` shows of `s` in `max` columns.
pub open spec fn truncate_spec(s: Seq<char>, max: int) -> Seq<char> {
    if s.len() <= max {
        s
    } else if max > 1 {
        s.take(max - 1).push('…')
    } else {
        s.take(max)
    }
}

/// `s` cut to `max` characters; when it is cut and there is room for more
/// than one character, the last one shown is `…`.
pub fn truncate(s: &str, max: usize) -> (r: String)
    ensures
        r@ == truncate_spec(s@, max as int),
        r@.len() <= max || r@ == s@,
{
    let cs = chars_of(s);
    if cs.len() <= max {
        string_of(s)
    } else if max > 1 {
        let mut r = string_from_slice(cs.as_slice(), 0, max - 1);
        push_char(&mut r, '…');
        assert(cs@.subrange(0, max - 1) =~= s@.take(max - 1));
        r
    } else {
        let r = string_from_slice(cs.as_slice(), 0, max);
        assert(cs@.subrange(0, max as int) =~= s@.take(max as int));
        r
    }
}

/// The label of `target` seen from `today`: `yesterday`, `today`,
/// `tomorrow`, the weekday's short name two to six days ahead, else the
/// month and day, with the year when it differs from today's.
pub open spec fn relative_date_spec(target: Date, today: Date) -> Seq<char> {
    let days = target.ord() - today.ord();
    let (y, m, d) = (target.year as int, target.month as int, target.day as int);
    if days == -1 {
        "yesterday"@
    } else if days == 0 {
        "today"@
    } else if days == 1 {
        "tomorrow"@
    } else if 2 <= days <= 6 {
        chrono_format(y, m, d, "%a"@)
    } else if target.year == today.year {
        chrono_format(y, m, d, "%b %-d"@)
    } else {
        chrono_format(y, m, d, "%b %-d, %Y"@)
    }
}

/// Formats `target` relative to `today` as a calendar-aware label.
pub fn format_relative_date(target: &Date, today: &Date) -> (r: String)
    requires
        target.valid(),
        today.valid(),
    ensures
        r@ == relative_date_spec(*target, *today),
{
    let days = days_between(today, target);
    if days == -1 {
        string_of("yesterday")
    } else if days == 0 {
        string_of("today")
    } else if days == 1 {
        string_of("tomorrow")
    } else if 2 <= days && days <= 6 {
        format_date(target, "%a")
    } else if target.year == today.year {
        format_date(target, "%b %-d")
    } else {
        format_date(target, "%b %-d, %Y")
    }
}

/// A red, green, blue color.
pub type Rgb = (u8, u8, u8);

/// A colour code of `colored`: the prefix, then red, green and blue in
/// decimal, `;`-separated.
pub open spec fn rgb_code(prefix: Seq<char>, c: Rgb) -> Seq<char> {
    prefix + dec(c.0 as nat) + seq![';'] + dec(c.1 as nat) + seq![';'] + dec(c.2 as nat)
}

/// The 16 basic terminal colours as `colored` takes them to be, in its
/// order: black, red, green, yellow, blue, magenta, cyan, white, then the
/// bright ones.
pub open spec fn basic_palette() -> Seq<(int, int, int)> {
    seq![
        (0, 0, 0), (205, 0, 0), (0, 205, 0), (205, 205, 0), (0, 0, 238), (205, 0, 205),
        (0, 205, 205), (229, 229, 229), (127, 127, 127), (255, 0, 0), (0, 255, 0),
        (255, 255, 0), (92, 92, 255), (255, 0, 255), (0, 255, 255), (255, 255, 255)
    ]
}

/// The squared Euclidean distance from `c` to the `k`-th basic colour.
pub open spec fn palette_distance(c: Rgb, k: int) -> int {
    let p = basic_palette()[k];
    (c.0 - p.0) * (c.0 - p.0) + (c.1 - p.1) * (c.1 - p.1) + (c.2 - p.2) * (c.2 - p.2)
}

/// Among the first `n` basic colours, the first one nearest to `c`.
pub open spec fn nearest_basic(c: Rgb, n: int) -> int
    decreases n,
{
    if n <= 1 {
        0
    } else {
        let m = nearest_basic(c, n - 1);
        if palette_distance(c, n - 1) < palette_distance(c, m) {
            n - 1
        } else {
            m
        }
    }
}

/// The code of the basic terminal colour nearest to `c`, which `colored`
/// falls back to without truecolor support: `30`–`37` and `90`–`97` in the
/// foreground, `40`–`47` and `100`–`107` in the background.
pub open spec fn basic_color_code(c: Rgb, background: bool) -> Seq<char> {
    let k = nearest_basic(c, 16);
    let base = if background { 40int } else { 30int };
    dec((if k < 8 { base + k } else { base + 60 + (k - 8) }) as nat)
}

/// The text of `ch` in colour as `colored` writes it: the character alone
/// when colours are off; else a style sequence with the background code
/// first and the foreground code second, the character, and the reset.
/// With `COLORTERM` set to `truecolor` or `24bit` the codes are
/// `48;2;r;g;b` and `38;2;r;g;b`; otherwise the nearest basic colours.
pub open spec fn colored_cell(r: Seq<char>, ch: char, fg: Rgb, bg: Rgb) -> bool {
    let esc = seq!['\x1B', '['];
    let reset = seq!['\x1B', '[', '0', 'm'];
    ||| r == seq![ch]
    ||| r == esc + rgb_code(seq!['4', '8', ';', '2', ';'], bg) + seq![';'] + rgb_code(
        seq!['3', '8', ';', '2', ';'],
        fg,
    ) + seq!['m', ch] + reset
    ||| r == esc + basic_color_code(bg, true) + seq![';'] + basic_color_code(fg, false) + seq!['m', ch]
        + reset
}

/// `ch.to_string().truecolor(fg).on_truecolor(bg).to_string()` of the
/// `colored` crate. Whether colours are shown, and whether truecolor codes
/// are used, depends on the environment (`NO_COLOR`, `CLICOLOR`,
/// `CLICOLOR_FORCE`, `COLORTERM`, whether stdout is a terminal), so the
/// claim holds of the three outcomes. One character cannot hold the reset
/// sequence that `colored` would escape.
#[verifier::external_body]
fn colored_truecolor(ch: char, fg: Rgb, bg: Rgb) -> (r: String)
    ensures
        r@ == seq![ch] || r@ == seq!['\x1B', '['] + rgb_code(seq!['4', '8', ';', '2', ';'], bg) + seq![';']
            + rgb_code(seq!['3', '8', ';', '2', ';'], fg) + seq!['m', ch] + seq!['\x1B', '[', '0', 'm']
            || r@ == seq!['\x1B', '['] + basic_color_code(bg, true) + seq![';'] + basic_color_code(fg, false)
            + seq!['m', ch] + seq!['\x1B', '[', '0', 'm'],
{
    colored::Colorize::on_truecolor(
        colored::Colorize::truecolor(ch.to_string().as_str(), fg.0, fg.1, fg.2),
        bg.0,
        bg.1,
        bg.2,
    ).to_string()
}

/// One character with a truecolor foreground over a truecolor background.
pub fn truecolor_pixel(ch: char, fg: Rgb, bg: Rgb) -> (r: String)
    ensures
        colored_cell(r@, ch, fg, bg),
{
    colored_truecolor(ch, fg, bg)
}

/// `r` is `s` shown with the `colored` style whose SGR code is `code`:
/// `s` alone when colours are off, else `ESC [ code m`, `s`, `ESC [0m`.
pub open spec fn styled(r: Seq<char>, code: Seq<char>, s: Seq<char>) -> bool {
    r == s || r == seq!['\x1B', '['] + code + seq!['m'] + s + seq!['\x1B', '[', '0', 'm']
}

/// No escape character, so no reset sequence for `colored` to escape.
pub open spec fn no_escape(s: Seq<char>) -> bool {
    forall|i: int| 0 <= i < s.len() ==> s[i] != '\x1B'
}

/// `s.yellow().bold()` of `colored`, shown (today's day number). Colours
/// are on or off as the environment says.
#[verifier::external_body]
pub fn today_cell(s: &str) -> (r: String)
    requires
        no_escape(s@),
    ensures
        styled(r@, seq!['1', ';', '3', '3'], s@),
{
    colored::Colorize::bold(colored::Colorize::yellow(s)).to_string()
}

/// `s.dimmed()` of `colored`, shown (a day gone by).
#[verifier::external_body]
pub fn dim(s: &str) -> (r: String)
    requires
        no_escape(s@),
    ensures
        styled(r@, seq!['2'], s@),
{
    colored::Colorize::dimmed(s).to_string()
}

/// `s.cyan().bold()` of `colored`, shown (a day's charges).
#[verifier::external_body]
pub fn charge(s: &str) -> (r: String)
    requires
        no_escape(s@),
    ensures
        styled(r@, seq!['1', ';', '3', '6'], s@),
{
    colored::Colorize::bold(colored::Colorize::cyan(s)).to_string()
}

/// `s.dimmed().bold()` of `colored`, shown (the charges of a day gone by).
#[verifier::external_body]
pub fn past_charge(s: &str) -> (r: String)
    requires
        no_escape(s@),
    ensures
        styled(r@, seq!['1', ';', '2'], s@),
{
    colored::Colorize::bold(colored::Colorize::dimmed(s)).to_string()
}

} // verus!
