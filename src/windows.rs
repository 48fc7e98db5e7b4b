//! Reading the window listing, the desktop size and the focused window from
//! the text that the desktop tools print.
use crate::ocr::Geometry;
use crate::text::{
    chars_of, i32_or_zero, i32_value, join_from, join_spaced, or_zero, parse_u32, split_on,
    split_spec, split_whitespace, string_of, trim, trim_spec, u32_or_zero, u32_value, views,
    ws_words,
};
use vstd::prelude::*;

verus! {

/// The window that one listing line describes: at least eight columns (id,
/// desktop, x, y, width, height, host, title words); numbers that do not
/// parse count as zero; the title is the remaining columns joined by spaces.
pub open spec fn listed_window(line: Seq<char>) -> Option<(Seq<char>, Geometry, Seq<char>)> {
    let p = ws_words(line);
    if p.len() < 8 {
        None
    } else {
        Some(
            (
                p[0],
                Geometry {
                    x: or_zero(i32_value(p[2])) as i32,
                    y: or_zero(i32_value(p[3])) as i32,
                    w: or_zero(u32_value(p[4])) as u32,
                    h: or_zero(u32_value(p[5])) as u32,
                },
                join_spaced(p.skip(7)),
            ),
        )
    }
}

/// The windows that `lines` describe, malformed lines left out.
pub open spec fn listed_windows(lines: Seq<Seq<char>>) -> Seq<(Seq<char>, Geometry, Seq<char>)>
    decreases lines.len(),
{
    if lines.len() == 0 {
        seq![]
    } else {
        let p = listed_windows(lines.drop_last());
        match listed_window(lines.last()) {
            Some(w) => p.push(w),
            None => p,
        }
    }
}

pub open spec fn window_views(v: Seq<(String, Geometry, String)>) -> Seq<
    (Seq<char>, Geometry, Seq<char>),
> {
    v.map_values(|w: (String, Geometry, String)| (w.0@, w.1, w.2@))
}

/// The window of one listing line.
pub fn parse_window_line(line: &[char]) -> (r: Option<(String, Geometry, String)>)
    ensures
        r matches Some(w) ==> listed_window(line@) == Some((w.0@, w.1, w.2@)),
        r is None ==> listed_window(line@) is None,
{
    let p = split_whitespace(line);
    if p.len() < 8 {
        return None;
    }
    let ghost vs = views(p@);
    let id = string_of(p[0].as_slice());
    let g = Geometry {
        x: i32_or_zero(p[2].as_slice()),
        y: i32_or_zero(p[3].as_slice()),
        w: u32_or_zero(p[4].as_slice()),
        h: u32_or_zero(p[5].as_slice()),
    };
    let title = join_from(&p, 7);
    proof {
        assert(vs[0] == p@[0]@ && vs[2] == p@[2]@ && vs[3] == p@[3]@);
        assert(vs[4] == p@[4]@ && vs[5] == p@[5]@);
    }
    Some((id, g, string_of(title.as_slice())))
}

/// The windows of a listing, one per line, in order; lines with too few
/// columns are skipped.
pub fn parse_window_list(text: &str) -> (r: Vec<(String, Geometry, String)>)
    ensures
        window_views(r@) == listed_windows(split_spec(text@, '\n')),
{
    let chars = chars_of(text);
    let lines = split_on(chars.as_slice(), '\n');
    let ghost ls = views(lines@);
    let mut out: Vec<(String, Geometry, String)> = Vec::new();
    let mut i: usize = 0;
    proof {
        assert(ls.take(0) =~= Seq::<Seq<char>>::empty());
        assert(window_views(out@) =~= Seq::<(Seq<char>, Geometry, Seq<char>)>::empty());
    }
    while i < lines.len()
        invariant
            i <= lines.len(),
            ls == views(lines@),
            ls == split_spec(text@, '\n'),
            window_views(out@) == listed_windows(ls.take(i as int)),
        decreases lines.len() - i,
    {
        proof {
            assert(ls.take(i + 1).drop_last() =~= ls.take(i as int));
            assert(ls.take(i + 1).last() == lines@[i as int]@);
        }
        let ghost before = out@;
        match parse_window_line(lines[i].as_slice()) {
            Some(w) => {
                out.push(w);
                proof {
                    assert(window_views(out@) =~= window_views(before).push(
                        (w.0@, w.1, w.2@),
                    ));
                }
            },
            None => {},
        }
        i += 1;
    }
    proof {
        assert(ls.take(ls.len() as int) =~= ls);
    }
    out
}

/// What follows the first `c` in `s`, where `c` occurs.
pub open spec fn after_first(s: Seq<char>, c: char) -> Option<Seq<char>>
    decreases s.len(),
{
    if s.len() == 0 {
        None
    } else if s[0] == c {
        Some(s.drop_first())
    } else {
        after_first(s.drop_first(), c)
    }
}

/// The values of the pieces that read as `u32` once trimmed, in order.
pub open spec fn u32_pieces(parts: Seq<Seq<char>>) -> Seq<int>
    decreases parts.len(),
{
    if parts.len() == 0 {
        seq![]
    } else {
        let p = u32_pieces(parts.drop_last());
        match u32_value(trim_spec(parts.last())) {
            Some(v) => p.push(v),
            None => p,
        }
    }
}

/// The desktop size in a property listing: after the first `=`, exactly two
/// comma-separated numbers.
pub open spec fn desktop_size_of(s: Seq<char>) -> Option<(int, int)> {
    match after_first(s, '=') {
        None => None,
        Some(t) => {
            let v = u32_pieces(split_spec(t, ','));
            if v.len() == 2 {
                Some((v[0], v[1]))
            } else {
                None
            }
        },
    }
}

/// Reads the desktop size (width, height) from a property listing such as
/// `_NET_DESKTOP_GEOMETRY(CARDINAL) = 1920, 1080`.
pub fn parse_desktop_size(text: &str) -> (r: Option<(u32, u32)>)
    ensures
        r matches Some(p) ==> desktop_size_of(text@) == Some((p.0 as int, p.1 as int)),
        r is None ==> desktop_size_of(text@) is None,
{
    let chars = chars_of(text);
    let mut i: usize = 0;
    proof {
        assert(chars@.skip(0) =~= chars@);
    }
    while i < chars.len() && chars[i] != '='
        invariant
            i <= chars.len(),
            chars@ == text@,
            after_first(text@, '=') == after_first(chars@.skip(i as int), '='),
        decreases chars.len() - i,
    {
        proof {
            assert(chars@.skip(i as int).drop_first() =~= chars@.skip(i + 1));
        }
        i += 1;
    }
    if i == chars.len() {
        return None;
    }
    proof {
        assert(chars@.skip(i as int).drop_first() =~= chars@.skip(i + 1));
    }
    let rest = crate::text::skip_chars(chars.as_slice(), i + 1);
    let parts = split_on(rest.as_slice(), ',');
    let ghost ps = views(parts@);
    let mut values: Vec<u32> = Vec::new();
    let mut k: usize = 0;
    proof {
        assert(ps.take(0) =~= Seq::<Seq<char>>::empty());
        assert(values@.map_values(|v: u32| v as int) =~= Seq::<int>::empty());
    }
    while k < parts.len()
        invariant
            k <= parts.len(),
            ps == views(parts@),
            values@.map_values(|v: u32| v as int) == u32_pieces(ps.take(k as int)),
        decreases parts.len() - k,
    {
        proof {
            assert(ps.take(k + 1).drop_last() =~= ps.take(k as int));
            assert(ps.take(k + 1).last() == parts@[k as int]@);
        }
        let piece = trim(parts[k].as_slice());
        let ghost before = values@;
        match parse_u32(piece.as_slice()) {
            Some(v) => {
                values.push(v);
                proof {
                    assert(values@.map_values(|v: u32| v as int) =~= before.map_values(
                        |v: u32| v as int,
                    ).push(v as int));
                }
            },
            None => {},
        }
        k += 1;
    }
    proof {
        assert(ps.take(ps.len() as int) =~= ps);
    }
    if values.len() == 2 {
        proof {
            assert(values@.map_values(|v: u32| v as int)[0] == values@[0] as int);
            assert(values@.map_values(|v: u32| v as int)[1] == values@[1] as int);
        }
        Some((values[0], values[1]))
    } else {
        proof {
            assert(values@.map_values(|v: u32| v as int).len() == values@.len());
        }
        None
    }
}

/// The focused window's id from the focus tool's output: the output trimmed.
pub fn parse_focused(text: &str) -> (r: String)
    ensures
        r@ == trim_spec(text@),
{
    let chars = chars_of(text);
    let t = trim(chars.as_slice());
    string_of(t.as_slice())
}

} // verus!
