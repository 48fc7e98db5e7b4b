//! Character-level helpers: splitting, trimming and number parsing over
//! sequences of characters.
use vstd::prelude::*;

verus! {

/// Relies on `str::chars`: the characters of the string, in order.
#[verifier::external_body]
pub(crate) fn chars_of(s: &str) -> (r: Vec<char>)
    ensures
        r@ == s@,
{
    s.chars().collect()
}

/// Relies on `String: FromIterator<&char>`: the string made of these characters.
#[verifier::external_body]
pub(crate) fn string_of(v: &[char]) -> (r: String)
    ensures
        r@ == v@,
{
    v.iter().collect()
}

/// Unicode `White_Space` characters, as `char::is_whitespace` classifies them.
pub open spec fn is_ws(c: char) -> bool {
    ('\t' <= c && c <= '\r') || c == ' ' || c == '\u{85}' || c == '\u{a0}' || c == '\u{1680}'
        || ('\u{2000}' <= c && c <= '\u{200a}') || c == '\u{2028}' || c == '\u{2029}'
        || c == '\u{202f}' || c == '\u{205f}' || c == '\u{3000}'
}

/// Whether `c` is white space.
pub fn is_whitespace(c: char) -> (r: bool)
    ensures
        r == is_ws(c),
{
    ('\t' <= c && c <= '\r') || c == ' ' || c == '\u{85}' || c == '\u{a0}' || c == '\u{1680}'
        || ('\u{2000}' <= c && c <= '\u{200a}') || c == '\u{2028}' || c == '\u{2029}'
        || c == '\u{202f}' || c == '\u{205f}' || c == '\u{3000}'
}

/// The pieces of `s` between occurrences of `sep` (always at least one piece).
pub open spec fn split_spec(s: Seq<char>, sep: char) -> Seq<Seq<char>>
    decreases s.len(),
{
    if s.len() == 0 {
        seq![Seq::empty()]
    } else {
        let prev = split_spec(s.drop_last(), sep);
        if s.last() == sep {
            prev.push(Seq::empty())
        } else {
            prev.update(prev.len() - 1, prev.last().push(s.last()))
        }
    }
}

/// Splitting always yields at least one piece.
pub proof fn lemma_split_nonempty(s: Seq<char>, sep: char)
    ensures
        split_spec(s, sep).len() >= 1,
    decreases s.len(),
{
    if s.len() > 0 {
        lemma_split_nonempty(s.drop_last(), sep);
    }
}

/// The character sequences held by a sequence of vectors.
pub open spec fn views(v: Seq<Vec<char>>) -> Seq<Seq<char>> {
    v.map_values(|p: Vec<char>| p@)
}

/// Splits `s` at every `sep`.
pub fn split_on(s: &[char], sep: char) -> (r: Vec<Vec<char>>)
    ensures
        views(r@) == split_spec(s@, sep),
{
    let mut pieces: Vec<Vec<char>> = Vec::new();
    let mut cur: Vec<char> = Vec::new();
    let mut i: usize = 0;
    proof {
        assert(s@.take(0) =~= Seq::<char>::empty());
        assert(views(pieces@).push(cur@) =~= split_spec(s@.take(0), sep));
    }
    while i < s.len()
        invariant
            i <= s.len(),
            views(pieces@).push(cur@) == split_spec(s@.take(i as int), sep),
        decreases s.len() - i,
    {
        let c = s[i];
        proof {
            assert(s@.take(i + 1).drop_last() =~= s@.take(i as int));
        }
        let ghost before = pieces@;
        if c == sep {
            pieces.push(cur);
            cur = Vec::new();
            proof {
                assert(views(pieces@) =~= views(before).push(split_spec(s@.take(i as int), sep).last()));
                assert(views(pieces@).push(cur@) =~= split_spec(s@.take(i + 1), sep));
            }
        } else {
            cur.push(c);
            proof {
                assert(views(pieces@).push(cur@) =~= split_spec(s@.take(i + 1), sep));
            }
        }
        i += 1;
    }
    let ghost before = pieces@;
    pieces.push(cur);
    proof {
        assert(s@.take(s@.len() as int) =~= s@);
        assert(views(pieces@) =~= views(before).push(cur@));
    }
    pieces
}

/// `s` without its leading white space.
pub open spec fn trim_start_spec(s: Seq<char>) -> Seq<char>
    decreases s.len(),
{
    if s.len() > 0 && is_ws(s[0]) {
        trim_start_spec(s.drop_first())
    } else {
        s
    }
}

/// `s` without its trailing white space.
pub open spec fn trim_end_spec(s: Seq<char>) -> Seq<char>
    decreases s.len(),
{
    if s.len() > 0 && is_ws(s.last()) {
        trim_end_spec(s.drop_last())
    } else {
        s
    }
}

/// `s` without leading and trailing white space.
pub open spec fn trim_spec(s: Seq<char>) -> Seq<char> {
    trim_end_spec(trim_start_spec(s))
}

/// Removes leading and trailing white space.
pub fn trim(s: &[char]) -> (r: Vec<char>)
    ensures
        r@ == trim_spec(s@),
{
    let mut a: usize = 0;
    proof {
        assert(s@.subrange(0, s@.len() as int) =~= s@);
    }
    while a < s.len() && is_whitespace(s[a])
        invariant
            a <= s.len(),
            trim_start_spec(s@) == trim_start_spec(s@.subrange(a as int, s@.len() as int)),
        decreases s.len() - a,
    {
        proof {
            assert(s@.subrange(a as int, s@.len() as int).drop_first() =~= s@.subrange(
                a + 1,
                s@.len() as int,
            ));
        }
        a += 1;
    }
    let ghost start = s@.subrange(a as int, s@.len() as int);
    proof {
        assert(trim_start_spec(start) == start);
        assert(trim_start_spec(s@) == start);
    }
    let mut b: usize = s.len();
    while b > a && is_whitespace(s[b - 1])
        invariant
            a <= b <= s.len(),
            trim_end_spec(start) == trim_end_spec(s@.subrange(a as int, b as int)),
        decreases b,
    {
        proof {
            assert(s@.subrange(a as int, b as int).drop_last() =~= s@.subrange(
                a as int,
                b - 1,
            ));
        }
        b -= 1;
    }
    let mut r: Vec<char> = Vec::new();
    let mut k: usize = a;
    while k < b
        invariant
            a <= k <= b <= s.len(),
            r@ == s@.subrange(a as int, k as int),
        decreases b - k,
    {
        r.push(s[k]);
        proof {
            assert(r@ =~= s@.subrange(a as int, k + 1));
        }
        k += 1;
    }
    r
}

/// Parsing state of a run of decimal digits: `None` once the run is malformed
/// or its value exceeds `max`.
pub open spec fn digits_state(s: Seq<char>, max: int) -> Option<int>
    decreases s.len(),
{
    if s.len() == 0 {
        Some(0)
    } else {
        match digits_state(s.drop_last(), max) {
            None => None,
            Some(v) => {
                let c = s.last();
                if '0' <= c && c <= '9' && v * 10 + (c as int - '0' as int) <= max {
                    Some(v * 10 + (c as int - '0' as int))
                } else {
                    None
                }
            },
        }
    }
}

/// The value of `s` as a non-empty run of decimal digits, if it is one and
/// its value is at most `max`.
pub open spec fn digits_value(s: Seq<char>, max: int) -> Option<int> {
    if s.len() == 0 {
        None
    } else {
        digits_state(s, max)
    }
}

proof fn lemma_digits_bounded(s: Seq<char>, max: int)
    requires
        max >= 0,
    ensures
        digits_state(s, max) matches Some(v) ==> 0 <= v <= max,
    decreases s.len(),
{
    if s.len() > 0 {
        lemma_digits_bounded(s.drop_last(), max);
    }
}

/// Reads `s[from..]` as a non-empty run of decimal digits whose value is at
/// most `max`.
pub fn parse_digits(s: &[char], from: usize, max: u64) -> (r: Option<u64>)
    requires
        from <= s.len(),
        max <= u32::MAX + 1,
    ensures
        r matches Some(v) ==> digits_value(s@.skip(from as int), max as int) == Some(v as int),
        r is None ==> digits_value(s@.skip(from as int), max as int) is None,
{
    let ghost t = s@.skip(from as int);
    if s.len() == from {
        return None;
    }
    let mut v: u64 = 0;
    let mut i: usize = from;
    proof {
        assert(t.take(0) =~= Seq::<char>::empty());
    }
    while i < s.len()
        invariant
            from <= i <= s.len(),
            max <= u32::MAX + 1,
            t == s@.skip(from as int),
            digits_state(t.take(i - from), max as int) == Some(v as int),
            v <= max,
        decreases s.len() - i,
    {
        let c = s[i];
        proof {
            assert(t.take(i - from + 1).drop_last() =~= t.take(i - from));
            assert(t.take(i - from + 1).last() == c);
        }
        if c < '0' || c > '9' {
            proof {
                lemma_none_extends(t, i - from + 1, max as int);
            }
            return None;
        }
        let d: u64 = (c as u32 - '0' as u32) as u64;
        let next: u64 = v * 10 + d;
        if next > max {
            proof {
                lemma_none_extends(t, i - from + 1, max as int);
            }
            return None;
        }
        v = next;
        i += 1;
    }
    proof {
        assert(t.take(t.len() as int) =~= t);
    }
    Some(v)
}

/// Once a prefix is rejected, so is the whole sequence.
proof fn lemma_none_extends(s: Seq<char>, k: int, max: int)
    requires
        0 <= k <= s.len(),
        digits_state(s.take(k), max) is None,
    ensures
        digits_state(s, max) is None,
    decreases s.len() - k,
{
    if k < s.len() {
        assert(s.take(k + 1).drop_last() =~= s.take(k));
        lemma_none_extends(s, k + 1, max);
    } else {
        assert(s.take(k) =~= s);
    }
}

/// The value of `s` read as `u32` text: an optional `+`, then decimal digits.
pub open spec fn u32_value(s: Seq<char>) -> Option<int> {
    if s.len() > 0 && s[0] == '+' {
        digits_value(s.drop_first(), u32::MAX as int)
    } else {
        digits_value(s, u32::MAX as int)
    }
}

/// The value of `s` read as `i32` text: an optional sign, then decimal digits.
pub open spec fn i32_value(s: Seq<char>) -> Option<int> {
    if s.len() > 0 && s[0] == '-' {
        match digits_value(s.drop_first(), 0x8000_0000) {
            Some(v) => Some(-v),
            None => None,
        }
    } else if s.len() > 0 && s[0] == '+' {
        digits_value(s.drop_first(), i32::MAX as int)
    } else {
        digits_value(s, i32::MAX as int)
    }
}

/// Reads an unsigned 32-bit decimal number.
pub fn parse_u32(s: &[char]) -> (r: Option<u32>)
    ensures
        r matches Some(v) ==> u32_value(s@) == Some(v as int),
        r is None ==> u32_value(s@) is None,
{
    if s.len() > 0 && s[0] == '+' {
        proof {
            assert(s@.skip(1) =~= s@.drop_first());
        }
        match parse_digits(s, 1, u32::MAX as u64) {
            Some(v) => Some(v as u32),
            None => None,
        }
    } else {
        proof {
            assert(s@.skip(0) =~= s@);
        }
        match parse_digits(s, 0, u32::MAX as u64) {
            Some(v) => Some(v as u32),
            None => None,
        }
    }
}

/// Reads a signed 32-bit decimal number.
pub fn parse_i32(s: &[char]) -> (r: Option<i32>)
    ensures
        r matches Some(v) ==> i32_value(s@) == Some(v as int),
        r is None ==> i32_value(s@) is None,
{
    if s.len() > 0 && s[0] == '-' {
        proof {
            assert(s@.skip(1) =~= s@.drop_first());
        }
        match parse_digits(s, 1, 0x8000_0000u64) {
            Some(v) => Some((0 - v as i64) as i32),
            None => None,
        }
    } else if s.len() > 0 && s[0] == '+' {
        proof {
            assert(s@.skip(1) =~= s@.drop_first());
        }
        match parse_digits(s, 1, i32::MAX as u64) {
            Some(v) => Some(v as i32),
            None => None,
        }
    } else {
        proof {
            assert(s@.skip(0) =~= s@);
        }
        match parse_digits(s, 0, i32::MAX as u64) {
            Some(v) => Some(v as i32),
            None => None,
        }
    }
}

} // verus!

verus! {

/// The characters of `v` from position `from` on.
pub fn skip_chars(v: &[char], from: usize) -> (r: Vec<char>)
    requires
        from <= v.len(),
    ensures
        r@ == v@.skip(from as int),
{
    let mut r: Vec<char> = Vec::new();
    let mut i: usize = from;
    while i < v.len()
        invariant
            from <= i <= v.len(),
            r@ == v@.subrange(from as int, i as int),
        decreases v.len() - i,
    {
        r.push(v[i]);
        proof {
            assert(r@ =~= v@.subrange(from as int, i + 1));
        }
        i += 1;
    }
    proof {
        assert(r@ =~= v@.skip(from as int));
    }
    r
}

/// Every character of `s` is an ASCII digit.
pub open spec fn all_digits(s: Seq<char>) -> bool {
    forall|i: int| 0 <= i < s.len() ==> '0' <= #[trigger] s[i] && s[i] <= '9'
}

/// Whether every character of `s` is an ASCII digit.
pub fn is_all_digits(s: &[char]) -> (r: bool)
    ensures
        r == all_digits(s@),
{
    let mut i: usize = 0;
    while i < s.len()
        invariant
            i <= s.len(),
            all_digits(s@.take(i as int)),
        decreases s.len() - i,
    {
        if s[i] < '0' || s[i] > '9' {
            return false;
        }
        proof {
            assert(forall|j: int| 0 <= j < i + 1 ==> #[trigger] s@.take(i + 1)[j] == s@[j]);
        }
        i += 1;
    }
    proof {
        assert(s@.take(s@.len() as int) =~= s@);
    }
    true
}

/// `v`, or zero where there is no value.
pub open spec fn or_zero(v: Option<int>) -> int {
    match v {
        Some(n) => n,
        None => 0,
    }
}

} // verus!

verus! {

/// The white-space separated words of `s`.
pub open spec fn ws_words(s: Seq<char>) -> Seq<Seq<char>>
    decreases s.len(),
{
    if s.len() == 0 {
        seq![]
    } else {
        let p = ws_words(s.drop_last());
        let c = s.last();
        if is_ws(c) {
            p
        } else if s.len() >= 2 && !is_ws(s[s.len() - 2]) {
            p.update(p.len() - 1, p.last().push(c))
        } else {
            p.push(seq![c])
        }
    }
}

/// Splits `s` into its white-space separated words.
pub fn split_whitespace(s: &[char]) -> (r: Vec<Vec<char>>)
    ensures
        views(r@) == ws_words(s@),
{
    let mut pieces: Vec<Vec<char>> = Vec::new();
    let mut cur: Vec<char> = Vec::new();
    let mut i: usize = 0;
    proof {
        assert(s@.take(0) =~= Seq::<char>::empty());
        assert(views(pieces@) =~= Seq::<Seq<char>>::empty());
    }
    while i < s.len()
        invariant
            i <= s.len(),
            (i > 0 && !is_ws(s@[i - 1])) ==> views(pieces@).push(cur@) == ws_words(
                s@.take(i as int),
            ) && cur@.len() > 0,
            !(i > 0 && !is_ws(s@[i - 1])) ==> views(pieces@) == ws_words(s@.take(i as int))
                && cur@.len() == 0,
        decreases s.len() - i,
    {
        let c = s[i];
        let ghost t = s@.take(i + 1);
        proof {
            assert(t.drop_last() =~= s@.take(i as int));
            assert(t.last() == c);
            if i > 0 {
                assert(t[t.len() - 2] == s@[i - 1]);
            }
        }
        let ghost before = pieces@;
        if is_whitespace(c) {
            if cur.len() > 0 {
                pieces.push(cur);
                cur = Vec::new();
                proof {
                    assert(views(pieces@) =~= views(before).push(ws_words(t).last()));
                    assert(views(pieces@) =~= ws_words(t));
                }
            }
        } else {
            cur.push(c);
            proof {
                if i > 0 && !is_ws(s@[i - 1]) {
                    assert(views(pieces@).push(cur@) =~= ws_words(t));
                } else {
                    assert(cur@ =~= seq![c]);
                    assert(views(pieces@).push(cur@) =~= ws_words(t));
                }
            }
        }
        i += 1;
    }
    proof {
        assert(s@.take(s@.len() as int) =~= s@);
    }
    if cur.len() > 0 {
        let ghost before = pieces@;
        pieces.push(cur);
        proof {
            assert(views(pieces@) =~= views(before).push(cur@));
        }
    }
    pieces
}

/// `parts` joined with single spaces.
pub open spec fn join_spaced(parts: Seq<Seq<char>>) -> Seq<char>
    decreases parts.len(),
{
    if parts.len() == 0 {
        seq![]
    } else if parts.len() == 1 {
        parts[0]
    } else {
        join_spaced(parts.drop_last()).push(' ') + parts.last()
    }
}

/// `parts[from..]` joined with single spaces.
pub fn join_from(parts: &Vec<Vec<char>>, from: usize) -> (r: Vec<char>)
    requires
        from <= parts.len(),
    ensures
        r@ == join_spaced(views(parts@).skip(from as int)),
{
    let ghost vs = views(parts@);
    let mut out: Vec<char> = Vec::new();
    let mut i: usize = from;
    proof {
        assert(vs.subrange(from as int, from as int) =~= Seq::<Seq<char>>::empty());
    }
    while i < parts.len()
        invariant
            from <= i <= parts.len(),
            vs == views(parts@),
            out@ == join_spaced(vs.subrange(from as int, i as int)),
        decreases parts.len() - i,
    {
        let ghost sub = vs.subrange(from as int, i + 1);
        proof {
            assert(sub.drop_last() =~= vs.subrange(from as int, i as int));
            assert(sub.last() == parts@[i as int]@);
        }
        if i > from {
            out.push(' ');
        }
        let piece = &parts[i];
        let mut k: usize = 0;
        let ghost mid = out@;
        while k < piece.len()
            invariant
                k <= piece.len(),
                out@ == mid + piece@.take(k as int),
            decreases piece.len() - k,
        {
            out.push(piece[k]);
            proof {
                assert(out@ =~= mid + piece@.take(k + 1));
            }
            k += 1;
        }
        proof {
            assert(piece@.take(piece@.len() as int) =~= piece@);
            if i > from {
                assert(out@ =~= join_spaced(sub));
            } else {
                assert(sub.len() == 1);
                assert(out@ =~= join_spaced(sub));
            }
        }
        i += 1;
    }
    proof {
        assert(vs.subrange(from as int, vs.len() as int) =~= vs.skip(from as int));
    }
    out
}

/// Reads an unsigned 32-bit number, zero where `s` is not one.
pub fn u32_or_zero(s: &[char]) -> (r: u32)
    ensures
        r as int == or_zero(u32_value(s@)),
{
    match parse_u32(s) {
        Some(v) => v,
        None => 0,
    }
}

/// Reads a signed 32-bit number, zero where `s` is not one.
pub fn i32_or_zero(s: &[char]) -> (r: i32)
    ensures
        r as int == or_zero(i32_value(s@)),
{
    match parse_i32(s) {
        Some(v) => v,
        None => 0,
    }
}

} // verus!
