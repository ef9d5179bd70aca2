use vstd::prelude::*;

verus! {

/// An ASCII decimal digit.
pub open spec fn is_digit(b: u8) -> bool {
    0x30 <= b <= 0x39
}

/// The value of an ASCII decimal digit.
pub open spec fn digit_value(b: u8) -> int {
    b as int - 0x30
}

/// The scaled value of a decimal with one or two integer digits and exactly
/// one fractional digit (`D.D`, `-D.D`, `DD.D`, `-DD.D`), or `None` for any
/// other text.
pub open spec fn temperature_of(s: Seq<u8>) -> Option<int> {
    if s.len() == 3 && is_digit(s[0]) && s[1] == 0x2e && is_digit(s[2]) {
        Some(10 * digit_value(s[0]) + digit_value(s[2]))
    } else if s.len() == 4 && s[0] == 0x2d && is_digit(s[1]) && s[2] == 0x2e && is_digit(s[3]) {
        Some(-(10 * digit_value(s[1]) + digit_value(s[3])))
    } else if s.len() == 4 && is_digit(s[0]) && is_digit(s[1]) && s[2] == 0x2e && is_digit(s[3]) {
        Some(100 * digit_value(s[0]) + 10 * digit_value(s[1]) + digit_value(s[3]))
    } else if s.len() == 5 && s[0] == 0x2d && is_digit(s[1]) && is_digit(s[2]) && s[3] == 0x2e
        && is_digit(s[4]) {
        Some(-(100 * digit_value(s[1]) + 10 * digit_value(s[2]) + digit_value(s[4])))
    } else {
        None
    }
}

/// The value of an ASCII decimal digit, or `None` for another byte.
fn digit(b: u8) -> (r: Option<i16>)
    ensures
        r == (if is_digit(b) { Some(digit_value(b) as i16) } else { None::<i16> }),
{
    if 0x30 <= b && b <= 0x39 {
        Some((b - 0x30) as i16)
    } else {
        None
    }
}

/// Decodes a fixed-point decimal, returning `None` when the text is not of
/// the accepted shapes.
pub fn decode_temperature(buf: &[u8]) -> (r: Option<i16>)
    ensures
        match temperature_of(buf@) {
            Some(v) => r == Some(v as i16) && -999 <= v <= 999,
            None => r.is_none(),
        },
{
    let n = buf.len();
    if n < 3 || n > 5 {
        return None;
    }
    let (negative, start): (bool, usize) = if buf[0] == 0x2d {
        (true, 1)
    } else {
        (false, 0)
    };
    let width: usize = n - start;
    if width == 3 {
        if buf[start + 1] != 0x2e {
            return None;
        }
        match (digit(buf[start]), digit(buf[start + 2])) {
            (Some(b), Some(c)) => {
                let v: i16 = 10 * b + c;
                Some(if negative { -v } else { v })
            },
            _ => None,
        }
    } else if width == 4 {
        if buf[start + 2] != 0x2e {
            return None;
        }
        match (digit(buf[start]), digit(buf[start + 1]), digit(buf[start + 3])) {
            (Some(a), Some(b), Some(c)) => {
                let v: i16 = 100 * a + 10 * b + c;
                Some(if negative { -v } else { v })
            },
            _ => None,
        }
    } else {
        None
    }
}

/// Decodes a fixed-point decimal with one fractional digit into an integer
/// scaled by ten (`"12.3"` gives `123`, `"-2.3"` gives `-23`).
pub fn parse_temperature(buf: &[u8]) -> (r: i16)
    requires
        temperature_of(buf@) is Some,
    ensures
        r == temperature_of(buf@).unwrap(),
{
    match decode_temperature(buf) {
        Some(v) => v,
        None => 0,
    }
}

/// `n` is the position of the first `c` in `s`.
pub open spec fn is_first(s: Seq<u8>, c: u8, n: int) -> bool {
    &&& 0 <= n < s.len()
    &&& s[n] == c
    &&& forall|j: int| 0 <= j < n ==> s[j] != c
}

/// The part before the first `c` and the part after it, or `None` when `s`
/// holds no `c`.
pub open spec fn split_of(s: Seq<u8>, c: u8) -> Option<(Seq<u8>, Seq<u8>)> {
    if exists|n: int| is_first(s, c, n) {
        let n = choose|n: int| is_first(s, c, n);
        Some((s.take(n), s.skip(n + 1)))
    } else {
        None
    }
}

/// A sequence has one first position of a byte.
pub proof fn lemma_first_unique(s: Seq<u8>, c: u8, n: int, m: int)
    requires
        is_first(s, c, n),
        is_first(s, c, m),
    ensures
        n == m,
{
    if n < m {
        assert(s[n] != c);
    } else if m < n {
        assert(s[m] != c);
    }
}

/// Relies on memchr::memchr: the position of the first occurrence of the
/// needle, or `None` when the haystack does not hold it.
pub assume_specification[ memchr::memchr ](needle: u8, haystack: &[u8]) -> (r: Option<usize>)
    ensures
        match r {
            Some(n) => is_first(haystack@, needle, n as int),
            None => forall|j: int| 0 <= j < haystack@.len() ==> haystack@[j] != needle,
        },
;

/// Splits at the first occurrence of `chr`, which belongs to neither part.
pub fn split_on(chr: u8, data: &[u8]) -> (r: Option<(&[u8], &[u8])>)
    ensures
        match split_of(data@, chr) {
            Some((a, b)) => r matches Some((x, y)) && x@ == a && y@ == b,
            None => r.is_none(),
        },
{
    match memchr::memchr(chr, data) {
        None => {
            assert(!exists|n: int| is_first(data@, chr, n));
            None
        },
        Some(n) => {
            proof {
                let m = choose|m: int| is_first(data@, chr, m);
                lemma_first_unique(data@, chr, n as int, m);
            }
            let (prefix, rest) = data.split_at(n);
            let tail = &rest[1..rest.len()];
            assert(tail@ =~= data@.skip(n + 1));
            assert(prefix@ =~= data@.take(n as int));
            Some((prefix, tail))
        },
    }
}

/// The category, the decoded value and the rest of the data after one
/// `category;value\n` line, or `None` when the line is malformed.
pub open spec fn line_of(s: Seq<u8>) -> Option<(Seq<u8>, int, Seq<u8>)> {
    match split_of(s, 0x3b) {
        None => None,
        Some((city, after)) => match split_of(after, 0x0a) {
            None => None,
            Some((field, rest)) => match temperature_of(field) {
                None => None,
                Some(v) => Some((city, v, rest)),
            },
        },
    }
}

/// Splitting data followed by more bytes finds the same delimiter when the
/// data already holds one.
pub proof fn lemma_split_of_append(s: Seq<u8>, t: Seq<u8>, c: u8)
    requires
        split_of(s, c) is Some,
    ensures
        split_of(s + t, c) == Some((split_of(s, c).unwrap().0, split_of(s, c).unwrap().1 + t)),
{
    let n = choose|n: int| is_first(s, c, n);
    let st = s + t;
    assert(is_first(st, c, n)) by {
        assert forall|j: int| 0 <= j < n implies st[j] != c by {
            assert(st[j] == s[j]);
        }
    }
    let m = choose|m: int| is_first(st, c, m);
    lemma_first_unique(st, c, n, m);
    assert(st.take(n) =~= s.take(n));
    assert(st.skip(n + 1) =~= s.skip(n + 1) + t);
}

/// A well-formed line followed by more bytes reads the same, with those
/// bytes added to what follows it.
pub proof fn lemma_line_of_append(s: Seq<u8>, t: Seq<u8>)
    requires
        line_of(s) is Some,
    ensures
        line_of(s + t) == Some(
            (line_of(s).unwrap().0, line_of(s).unwrap().1, line_of(s).unwrap().2 + t),
        ),
{
    lemma_split_of_append(s, t, 0x3b);
    let after = split_of(s, 0x3b).unwrap().1;
    lemma_split_of_append(after, t, 0x0a);
}

/// The positions of the two delimiters of a well-formed line: its first `;`
/// and the first newline after it.
pub proof fn lemma_line_parts(s: Seq<u8>) -> (nm: (int, int))
    requires
        line_of(s) is Some,
    ensures
        is_first(s, 0x3b, nm.0),
        is_first(s.skip(nm.0 + 1), 0x0a, nm.1),
        line_of(s) == Some(
            (
                s.take(nm.0),
                temperature_of(s.skip(nm.0 + 1).take(nm.1)).unwrap(),
                s.skip(nm.0 + nm.1 + 2),
            ),
        ),
{
    let n = choose|n: int| is_first(s, 0x3b, n);
    let after = s.skip(n + 1);
    let m = choose|m: int| is_first(after, 0x0a, m);
    assert(after.skip(m + 1) =~= s.skip(n + m + 2));
    (n, m)
}

/// A well-formed line reads the same from any prefix of the data that
/// still holds all of it.
pub proof fn lemma_line_of_prefix(s: Seq<u8>, k: int)
    requires
        line_of(s) is Some,
        s.len() - line_of(s).unwrap().2.len() <= k <= s.len(),
    ensures
        line_of(s.take(k)) == Some(
            (
                line_of(s).unwrap().0,
                line_of(s).unwrap().1,
                s.take(k).skip(s.len() - line_of(s).unwrap().2.len()),
            ),
        ),
{
    let nm = lemma_line_parts(s);
    let n = nm.0;
    let m = nm.1;
    let t = s.take(k);
    assert(is_first(t, 0x3b, n)) by {
        assert forall|j: int| 0 <= j < n implies t[j] != 0x3b by {
            assert(t[j] == s[j]);
        }
    }
    let n2 = choose|n2: int| is_first(t, 0x3b, n2);
    lemma_first_unique(t, 0x3b, n, n2);
    let after = s.skip(n + 1);
    let after_t = t.skip(n + 1);
    assert(after_t =~= after.take(k - n - 1));
    assert(is_first(after_t, 0x0a, m)) by {
        assert forall|j: int| 0 <= j < m implies after_t[j] != 0x0a by {
            assert(after_t[j] == after[j]);
        }
    }
    let m2 = choose|m2: int| is_first(after_t, 0x0a, m2);
    lemma_first_unique(after_t, 0x0a, m, m2);
    assert(after_t.take(m) =~= after.take(m));
    assert(t.take(n) =~= s.take(n));
    assert(after_t.skip(m + 1) =~= t.skip(n + m + 2));
}

/// What follows a well-formed line is shorter than the data it was read from.
pub proof fn lemma_line_shorter(s: Seq<u8>)
    requires
        line_of(s) is Some,
    ensures
        line_of(s).unwrap().2.len() < s.len(),
{
    let n = choose|n: int| is_first(s, 0x3b, n);
    let after = s.skip(n + 1);
    let m = choose|m: int| is_first(after, 0x0a, m);
    assert(after.len() == s.len() - n - 1);
    assert(after.skip(m + 1).len() == after.len() - m - 1);
}

/// Parses one line into its category, its value and the data that follows.
pub fn parse_line(data: &[u8]) -> (r: Option<(&[u8], i16, &[u8])>)
    ensures
        match line_of(data@) {
            Some((c, v, rest)) => r matches Some((x, w, y)) && x@ == c && w as int == v && y@
                == rest,
            None => r.is_none(),
        },
{
    let (city, after) = match split_on(0x3b, data) {
        Some(p) => p,
        None => return None,
    };
    let (field, rest) = match split_on(0x0a, after) {
        Some(p) => p,
        None => return None,
    };
    match decode_temperature(field) {
        Some(v) => Some((city, v, rest)),
        None => None,
    }
}

} // verus!
