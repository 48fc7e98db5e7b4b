//! Word boxes and full text from tab-separated text recognition output.
use crate::text::{
    all_digits, chars_of, digits_value, i32_or_zero, i32_value, is_all_digits, or_zero,
    parse_digits, skip_chars, split_on, split_spec, string_of, trim, trim_spec, u32_or_zero,
    u32_value, views,
};
use vstd::prelude::*;

verus! {

/// Absolute desktop position and size of a window.
#[derive(Clone, Copy, Debug)]
pub struct Geometry {
    pub x: i32,
    pub y: i32,
    pub w: u32,
    pub h: u32,
}

/// A recognised word with its box in absolute desktop coordinates and its
/// confidence in hundredths of a percent point (`9050` is 90.5).
#[derive(Debug)]
pub struct TextElement {
    pub text: String,
    pub x: i64,
    pub y: i64,
    pub w: u32,
    pub h: u32,
    pub confidence: u32,
}

pub struct ElementView {
    pub text: Seq<char>,
    pub x: int,
    pub y: int,
    pub w: int,
    pub h: int,
    pub confidence: int,
}

impl View for TextElement {
    type V = ElementView;

    open spec fn view(&self) -> ElementView {
        ElementView {
            text: self.text@,
            x: self.x as int,
            y: self.y as int,
            w: self.w as int,
            h: self.h as int,
            confidence: self.confidence as int,
        }
    }
}

/// Words scoring below this many hundredths are dropped.
pub const MIN_CONFIDENCE: u32 = 4000;

/// Largest whole part of a confidence that hundredths in a `u32` can hold.
pub const MAX_WHOLE: u64 = 42949671;

/// The granularity level of a word row.
pub const WORD_LEVEL: u32 = 5;

pub open spec fn digit(c: char) -> int {
    c as int - '0' as int
}

/// The first two decimals of a fraction, in hundredths.
pub open spec fn frac_hundredths(f: Seq<char>) -> int {
    if f.len() == 0 {
        0
    } else if f.len() == 1 {
        10 * digit(f[0])
    } else {
        10 * digit(f[0]) + digit(f[1])
    }
}

/// A non-negative decimal number `[+]digits[.digits]` (at least one digit) in
/// hundredths, the fraction cut after two places.
pub open spec fn conf_value(s: Seq<char>) -> Option<int> {
    let body = if s.len() > 0 && s[0] == '+' {
        s.drop_first()
    } else {
        s
    };
    let parts = split_spec(body, '.');
    let whole = parts[0];
    let frac = if parts.len() == 2 {
        parts[1]
    } else {
        Seq::empty()
    };
    if parts.len() > 2 || (whole.len() == 0 && frac.len() == 0) || !all_digits(whole)
        || !all_digits(frac) {
        None
    } else {
        let w = if whole.len() == 0 {
            Some(0int)
        } else {
            digits_value(whole, MAX_WHOLE as int)
        };
        match w {
            Some(v) => Some(v * 100 + frac_hundredths(frac)),
            None => None,
        }
    }
}

/// What the row `line` contributes: its line-grouping index and its element,
/// where it is a word row whose trimmed text is non-empty and whose confidence
/// reaches the threshold. The box moves by the window's position.
pub open spec fn recognized(line: Seq<char>, g: Geometry) -> Option<(int, ElementView)> {
    let f = split_spec(line, '\t');
    if f.len() < 12 || or_zero(u32_value(f[0])) != WORD_LEVEL {
        None
    } else {
        let word = trim_spec(f[11]);
        match conf_value(f[10]) {
            Some(c) => if word.len() == 0 || c < MIN_CONFIDENCE {
                None
            } else {
                Some(
                    (
                        or_zero(u32_value(f[4])),
                        ElementView {
                            text: word,
                            x: g.x + or_zero(i32_value(f[6])),
                            y: g.y + or_zero(i32_value(f[7])),
                            w: or_zero(u32_value(f[8])),
                            h: or_zero(u32_value(f[9])),
                            confidence: c,
                        },
                    ),
                )
            },
            None => None,
        }
    }
}

/// The words that `rows` contribute, in row order.
pub open spec fn words_of(rows: Seq<Seq<char>>, g: Geometry) -> Seq<(int, ElementView)>
    decreases rows.len(),
{
    if rows.len() == 0 {
        seq![]
    } else {
        let prev = words_of(rows.drop_last(), g);
        match recognized(rows.last(), g) {
            Some(w) => prev.push(w),
            None => prev,
        }
    }
}

/// The words joined into text: a space between words of one line, a newline
/// where the line-grouping index changes.
pub open spec fn join_lines(ws: Seq<(int, ElementView)>) -> Seq<char>
    decreases ws.len(),
{
    if ws.len() == 0 {
        seq![]
    } else if ws.len() == 1 {
        ws[0].1.text
    } else {
        let sep = if ws.last().0 == ws[ws.len() - 2].0 {
            ' '
        } else {
            '\n'
        };
        join_lines(ws.drop_last()).push(sep) + ws.last().1.text
    }
}

pub open spec fn element_views(es: Seq<TextElement>) -> Seq<ElementView> {
    es.map_values(|e: TextElement| e@)
}

pub open spec fn word_views(ws: Seq<(int, ElementView)>) -> Seq<ElementView> {
    ws.map_values(|w: (int, ElementView)| w.1)
}

/// The rows of recognition output after its header line.
pub open spec fn data_rows(tsv: Seq<char>) -> Seq<Seq<char>> {
    split_spec(tsv, '\n').drop_first()
}

fn field(fields: &Vec<Vec<char>>, k: usize) -> (r: &[char])
    requires
        k < fields.len(),
    ensures
        r@ == views(fields@)[k as int],
{
    fields[k].as_slice()
}

fn frac_of(f: &[char]) -> (r: u32)
    requires
        all_digits(f@),
    ensures
        r as int == frac_hundredths(f@),
        r <= 99,
{
    if f.len() == 0 {
        0
    } else if f.len() == 1 {
        10 * (f[0] as u32 - '0' as u32)
    } else {
        10 * (f[0] as u32 - '0' as u32) + (f[1] as u32 - '0' as u32)
    }
}

/// Reads a confidence score in hundredths.
pub fn parse_confidence(s: &[char]) -> (r: Option<u32>)
    ensures
        r matches Some(v) ==> conf_value(s@) == Some(v as int),
        r is None ==> conf_value(s@) is None,
{
    let body = if s.len() > 0 && s[0] == '+' {
        skip_chars(s, 1)
    } else {
        skip_chars(s, 0)
    };
    proof {
        assert(s@.skip(1) =~= s@.drop_first());
        assert(s@.skip(0) =~= s@);
    }
    let parts = split_on(body.as_slice(), '.');
    proof {
        crate::text::lemma_split_nonempty(body@, '.');
    }
    if parts.len() > 2 {
        return None;
    }
    let whole = field(&parts, 0);
    let empty: Vec<char> = Vec::new();
    let frac: &[char] = if parts.len() == 2 {
        field(&parts, 1)
    } else {
        empty.as_slice()
    };
    if (whole.len() == 0 && frac.len() == 0) || !is_all_digits(whole) || !is_all_digits(frac) {
        return None;
    }
    let w: u64 = if whole.len() == 0 {
        0
    } else {
        match parse_digits(whole, 0, MAX_WHOLE) {
            Some(v) => v,
            None => {
                proof {
                    assert(whole@.skip(0) =~= whole@);
                }
                return None;
            },
        }
    };
    proof {
        assert(whole@.skip(0) =~= whole@);
    }
    Some((w * 100) as u32 + frac_of(frac))
}

fn append_chars(out: &mut Vec<char>, text: &[char])
    ensures
        final(out)@ == old(out)@ + text@,
{
    let mut k: usize = 0;
    while k < text.len()
        invariant
            k <= text.len(),
            out@ == old(out)@ + text@.take(k as int),
        decreases text.len() - k,
    {
        out.push(text[k]);
        proof {
            assert(out@ =~= old(out)@ + text@.take(k + 1));
        }
        k += 1;
    }
    proof {
        assert(text@.take(text@.len() as int) =~= text@);
    }
}

/// The line-grouping index and element of a recognition row, where it is a
/// word row that passes the filters.
pub fn parse_row(line: &[char], g: &Geometry) -> (r: Option<(u32, TextElement)>)
    ensures
        r matches Some(p) ==> recognized(line@, *g) == Some((p.0 as int, p.1@)),
        r is None ==> recognized(line@, *g) is None,
{
    let f = split_on(line, '\t');
    if f.len() < 12 {
        return None;
    }
    if u32_or_zero(field(&f, 0)) != WORD_LEVEL {
        return None;
    }
    let word = trim(field(&f, 11));
    let conf = match parse_confidence(field(&f, 10)) {
        Some(c) => c,
        None => return None,
    };
    if word.len() == 0 || conf < MIN_CONFIDENCE {
        return None;
    }
    let line_num = u32_or_zero(field(&f, 4));
    let left = i32_or_zero(field(&f, 6));
    let top = i32_or_zero(field(&f, 7));
    let elem = TextElement {
        text: string_of(word.as_slice()),
        x: g.x as i64 + left as i64,
        y: g.y as i64 + top as i64,
        w: u32_or_zero(field(&f, 8)),
        h: u32_or_zero(field(&f, 9)),
        confidence: conf,
    };
    Some((line_num, elem))
}

/// Reads recognition output: a header line, then one tab-separated row per
/// detected fragment. Returns the full text, lines rebuilt from the words, and
/// the words in row order, their boxes moved into desktop coordinates by the
/// window's position.
pub fn extract_text(tsv: &str, window_geom: &Geometry) -> (r: (String, Vec<TextElement>))
    ensures
        r.0@ == join_lines(words_of(data_rows(tsv@), *window_geom)),
        element_views(r.1@) == word_views(words_of(data_rows(tsv@), *window_geom)),
{
    let chars = chars_of(tsv);
    let rows = split_on(chars.as_slice(), '\n');
    let ghost rs = views(rows@);
    proof {
        crate::text::lemma_split_nonempty(tsv@, '\n');
    }
    let mut elements: Vec<TextElement> = Vec::new();
    let mut out: Vec<char> = Vec::new();
    let mut last_line: Option<u32> = None;
    let mut i: usize = 1;
    proof {
        assert(rs.subrange(1, 1) =~= Seq::<Seq<char>>::empty());
        assert(element_views(elements@) =~= Seq::<ElementView>::empty());
    }
    while i < rows.len()
        invariant
            1 <= i <= rows.len(),
            rs == views(rows@),
            rs == split_spec(tsv@, '\n'),
            ({
                let ws = words_of(rs.subrange(1, i as int), *window_geom);
                &&& out@ == join_lines(ws)
                &&& element_views(elements@) == word_views(ws)
                &&& (last_line matches Some(l) ==> ws.len() > 0 && ws.last().0 == l as int)
                &&& (last_line is None ==> ws.len() == 0)
            }),
        decreases rows.len() - i,
    {
        let ghost prev = words_of(rs.subrange(1, i as int), *window_geom);
        let ghost old_elems = elements@;
        proof {
            assert(rs.subrange(1, i + 1).drop_last() =~= rs.subrange(1, i as int));
            assert(rs.subrange(1, i + 1).last() == rs[i as int]);
        }
        match parse_row(field(&rows, i), window_geom) {
            Some((line_num, elem)) => {
                let ghost ws = prev.push((line_num as int, elem@));
                let text = chars_of(elem.text.as_str());
                match last_line {
                    Some(l) => {
                        if l == line_num {
                            out.push(' ');
                        } else {
                            out.push('\n');
                        }
                    },
                    None => {},
                }
                append_chars(&mut out, text.as_slice());
                proof {
                    assert(ws.drop_last() =~= prev);
                    if prev.len() == 0 {
                        assert(out@ =~= join_lines(ws));
                    } else {
                        assert(ws[ws.len() - 2] == prev.last());
                        assert(out@ =~= join_lines(ws));
                    }
                }
                elements.push(elem);
                last_line = Some(line_num);
                proof {
                    assert(elements@ == old_elems.push(elem));
                    assert(element_views(old_elems) == word_views(prev));
                    assert(element_views(old_elems).len() == old_elems.len());
                    assert(word_views(prev).len() == prev.len());
                    assert forall|j: int| 0 <= j < prev.len() implies #[trigger] elements@[j]@
                        == prev[j].1 by {
                        assert(element_views(old_elems)[j] == word_views(prev)[j]);
                    }
                    assert(element_views(elements@) =~= word_views(ws));
                }
            },
            None => {},
        }
        i += 1;
    }
    proof {
        assert(rs.subrange(1, rs.len() as int) =~= rs.drop_first());
    }
    (string_of(out.as_slice()), elements)
}

} // verus!
