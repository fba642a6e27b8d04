use vstd::prelude::*;
use crate::text::{decimal, decimal_string, digit_char, chars_of, string_of_chars, spec_is_whitespace, is_whitespace};

verus! {

/// A color as hue (degrees), saturation and lightness (percent).
#[derive(Clone, Copy, PartialEq, Eq, Structural, Debug)]
pub struct HSLColor {
    /// 0..=359
    pub hue: u16,
    /// 0..=100
    pub saturation: u8,
    /// 0..=100
    pub lightness: u8,
}

/// The color with its hue taken modulo 360 and saturation and lightness capped at 100.
pub open spec fn spec_hsl(hue: u16, saturation: u8, lightness: u8) -> HSLColor {
    HSLColor {
        hue: (hue % 360) as u16,
        saturation: if saturation <= 100 { saturation } else { 100 },
        lightness: if lightness <= 100 { lightness } else { 100 },
    }
}

/// The FNV-1a offset basis.
pub open spec fn fnv_offset() -> u64 {
    0xcbf29ce484222325
}

/// The FNV-1a prime.
pub open spec fn fnv_prime() -> u64 {
    0x100000001b3
}

/// The 64-bit FNV-1a hash of `bytes`: for each byte, xor it in, then multiply by the
/// prime, wrapping.
pub open spec fn fnv_hash(bytes: Seq<u8>) -> u64
    decreases bytes.len(),
{
    if bytes.len() == 0 {
        fnv_offset()
    } else {
        vstd::wrapping::u64_specs::wrapping_mul(fnv_hash(bytes.drop_last()) ^ (bytes.last() as u64), fnv_prime())
    }
}

/// The color of a word: from its hash, a hue, a saturation in 55..=85 and a lightness in
/// 40..=60.
pub open spec fn spec_word_color(word: Seq<char>) -> HSLColor {
    let h = fnv_hash(vstd::utf8::encode_utf8(word));
    let sat_raw = ((h >> 16u64) & 0xFFu64) as u8;
    let lig_raw = ((h >> 24u64) & 0xFFu64) as u8;
    spec_hsl((h as u16) % 360, (55 + sat_raw % 31) as u8, (40 + lig_raw % 21) as u8)
}

/// How a color is written: `hsl(H S% L%)`.
pub open spec fn css_text(c: HSLColor) -> Seq<char> {
    seq!['h', 's', 'l', '('] + decimal(c.hue as nat) + seq![' '] + decimal(c.saturation as nat) + seq!['%', ' ']
        + decimal(c.lightness as nat) + seq!['%', ')']
}


/// The number of whitespace characters that `s` starts with.
pub open spec fn lead_ws(s: Seq<char>) -> nat
    decreases s.len(),
{
    if s.len() > 0 && spec_is_whitespace(s[0]) {
        1 + lead_ws(s.drop_first())
    } else {
        0
    }
}

/// The number of whitespace characters that `s` ends with.
pub open spec fn trail_ws(s: Seq<char>) -> nat
    decreases s.len(),
{
    if s.len() > 0 && spec_is_whitespace(s.last()) {
        1 + trail_ws(s.drop_last())
    } else {
        0
    }
}

/// `s` without leading and trailing whitespace (`str::trim`).
pub open spec fn spec_trim(s: Seq<char>) -> Seq<char> {
    let a = s.skip(lead_ws(s) as int);
    a.take(a.len() - trail_ws(a))
}

/// The words of `s` among its first `n` characters: the words completed, and the one
/// under way.
pub open spec fn words_upto(s: Seq<char>, n: int) -> (Seq<Seq<char>>, Seq<char>)
    decreases n,
{
    if n <= 0 {
        (Seq::empty(), Seq::empty())
    } else {
        let (ws, cur) = words_upto(s, n - 1);
        if spec_is_whitespace(s[n - 1]) {
            if cur.len() > 0 {
                (ws.push(cur), Seq::empty())
            } else {
                (ws, Seq::empty())
            }
        } else {
            (ws, cur.push(s[n - 1]))
        }
    }
}

/// The words of `s`: its runs of characters that are not whitespace
/// (`str::split_whitespace`).
pub open spec fn words(s: Seq<char>) -> Seq<Seq<char>> {
    let (ws, cur) = words_upto(s, s.len() as int);
    if cur.len() > 0 {
        ws.push(cur)
    } else {
        ws
    }
}

/// `s` with each comma turned into a space.
pub open spec fn commas_to_spaces(s: Seq<char>) -> Seq<char> {
    Seq::new(s.len(), |i: int| if s[i] == ',' { ' ' } else { s[i] })
}

/// The value of a run of decimal digits.
pub open spec fn digits_value(d: Seq<char>) -> nat
    decreases d.len(),
{
    if d.len() == 0 {
        0
    } else {
        digits_value(d.drop_last()) * 10 + ((d.last() as nat) - 48) as nat
    }
}

/// Every character is a decimal digit.
pub open spec fn all_digits(d: Seq<char>) -> bool {
    forall|i: int| 0 <= i < d.len() ==> '0' <= #[trigger] d[i] <= '9'
}

/// An unsigned integer up to `max` read from text as `str::parse` reads it: an optional
/// `+`, then one or more decimal digits.
pub open spec fn parse_uint(s: Seq<char>, max: nat) -> Option<nat> {
    let d = if s.len() > 0 && s[0] == '+' { s.drop_first() } else { s };
    if d.len() > 0 && all_digits(d) && digits_value(d) <= max {
        Some(digits_value(d))
    } else {
        None
    }
}

/// The color that `hsl(H S% L%)` text (commas allowed between the values, whitespace
/// around it) gives, or the error that reading it reports.
pub open spec fn hsl_parse(v: Seq<char>) -> Result<HSLColor, Seq<char>> {
    let s = spec_trim(v);
    if !(s.len() >= 4 && s.take(4) == seq!['h', 's', 'l', '(']) || !(s.len() > 0 && s.last() == ')') {
        Err("expected hsl(...)"@)
    } else {
        let parts = words(commas_to_spaces(s.subrange(4, s.len() - 1)));
        if parts.len() != 3 {
            Err("expected 3 values: H S% L%"@)
        } else if parse_uint(parts[0], 65535) is None {
            Err("bad hue"@)
        } else if !(parts[1].len() > 0 && parts[1].last() == '%') {
            Err("S must end with %"@)
        } else if !(parts[2].len() > 0 && parts[2].last() == '%') {
            Err("L must end with %"@)
        } else if parse_uint(parts[1].drop_last(), 255) is None {
            Err("bad saturation"@)
        } else if parse_uint(parts[2].drop_last(), 255) is None {
            Err("bad lightness"@)
        } else {
            Ok(
                spec_hsl(
                    parse_uint(parts[0], 65535)->0 as u16,
                    parse_uint(parts[1].drop_last(), 255)->0 as u8,
                    parse_uint(parts[2].drop_last(), 255)->0 as u8,
                ),
            )
        }
    }
}


/// A run of digits is worth at least as much as any of its leading runs.
pub proof fn lemma_digits_grow(d: Seq<char>, k: int)
    requires
        all_digits(d),
        0 <= k <= d.len(),
    ensures
        digits_value(d.take(k)) <= digits_value(d),
    decreases d.len(),
{
    if k < d.len() {
        let e = d.drop_last();
        assert(all_digits(e)) by {
            assert forall|i: int| 0 <= i < e.len() implies '0' <= #[trigger] e[i] <= '9' by {
                assert(e[i] == d[i]);
            }
        }
        lemma_digits_grow(e, k);
        assert(e.take(k) =~= d.take(k));
        assert('0' <= d[d.len() - 1] <= '9');
    } else {
        assert(d.take(k) =~= d);
    }
}

/// Reads an unsigned integer up to `max` as `str::parse` does.
fn parse_uint_chars(s: &Vec<char>, max: u32) -> (r: Option<u32>)
    requires
        9 <= max <= 65535,
    ensures
        match parse_uint(s@, max as nat) {
            Some(n) => r == Some(n as u32),
            None => r is None,
        },
{
    let mut start: usize = 0;
    if s.len() > 0 && s[0] == '+' {
        start = 1;
    }
    let ghost d = if s@.len() > 0 && s@[0] == '+' { s@.drop_first() } else { s@ };
    assert(d =~= s@.skip(start as int));
    if start >= s.len() {
        return None;
    }
    let mut value: u32 = 0;
    let mut i: usize = start;
    while i < s.len()
        invariant
            9 <= max <= 65535,
            start <= i <= s@.len(),
            start < s@.len(),
            d == s@.skip(start as int),
            d == (if s@.len() > 0 && s@[0] == '+' { s@.drop_first() } else { s@ }),
            all_digits(d.take(i - start)),
            value as nat == digits_value(d.take(i - start)),
            value <= max,
        decreases s@.len() - i,
    {
        let c = s[i];
        proof {
            assert(d.take(i + 1 - start).drop_last() =~= d.take(i - start));
            assert(d[i - start] == c);
        }
        if c < '0' || c > '9' {
            proof {
                assert(!all_digits(d)) by {
                    assert(!('0' <= d[i - start] <= '9'));
                }
            }
            return None;
        }
        let digit = (c as u32) - 48;
        proof {
            assert(digits_value(d.take(i + 1 - start)) == value * 10 + digit);
        }
        if value > (max - digit) / 10 {
            proof {
                assert(value * 10 + digit > max) by (nonlinear_arith)
                    requires value > (max - digit) / 10, digit <= max;
                if all_digits(d) {
                    lemma_digits_grow(d, (i + 1 - start) as int);
                    assert(digits_value(d) >= digits_value(d.take(i + 1 - start)));
                }
            }
            return None;
        }
        proof {
            assert(value * 10 + digit <= max) by (nonlinear_arith)
                requires value <= (max - digit) / 10, digit <= max;
        }
        value = value * 10 + digit;
        i = i + 1;
    }
    assert(d.take(i - start) =~= d);
    Some(value)
}


/// The words of a list of character vectors, as text.
pub open spec fn texts(v: Seq<Vec<char>>) -> Seq<Seq<char>> {
    Seq::new(v.len(), |i: int| v[i]@)
}

/// The leading whitespace of `s` is counted one character at a time.
proof fn lemma_lead_ws_step(s: Seq<char>, a: int)
    requires
        0 <= a < s.len(),
        spec_is_whitespace(s[a]),
    ensures
        lead_ws(s.skip(a)) == 1 + lead_ws(s.skip(a + 1)),
{
    assert(s.skip(a).drop_first() =~= s.skip(a + 1));
}

/// The trailing whitespace of `t` is counted one character at a time.
proof fn lemma_trail_ws_step(t: Seq<char>, b: int)
    requires
        0 < b <= t.len(),
        spec_is_whitespace(t[b - 1]),
    ensures
        trail_ws(t.take(b)) == 1 + trail_ws(t.take(b - 1)),
{
    assert(t.take(b).drop_last() =~= t.take(b - 1));
}

/// Reads a color written `hsl(H S% L%)` (commas allowed between the values, whitespace
/// around it); fails with what is wrong.
pub fn parse_hsl(v: &str) -> (r: Result<HSLColor, String>)
    ensures
        match hsl_parse(v@) {
            Ok(c) => r matches Ok(x) && x == c,
            Err(m) => r matches Err(e) && e@ == m,
        },
{
    let chars = chars_of(v);
    let ghost sv = v@;
    let n = chars.len();
    let mut a: usize = 0;
    assert(sv.skip(0) =~= sv);
    while a < n && is_whitespace(chars[a])
        invariant
            chars@ == sv,
            n == sv.len(),
            a <= n,
            lead_ws(sv) == a + lead_ws(sv.skip(a as int)),
        decreases n - a,
    {
        proof {
            lemma_lead_ws_step(sv, a as int);
        }
        a = a + 1;
    }
    proof {
        if a < n {
            assert(!spec_is_whitespace(sv.skip(a as int)[0]));
        }
        assert(lead_ws(sv.skip(a as int)) == 0);
    }
    let ghost t = sv.skip(a as int);
    let mut b: usize = n;
    proof {
        assert(t.take(t.len() as int) =~= t);
    }
    while b > a && is_whitespace(chars[b - 1])
        invariant
            chars@ == sv,
            n == sv.len(),
            a <= b <= n,
            t == sv.skip(a as int),
            trail_ws(t) == (n - b) + trail_ws(t.take(b - a)),
        decreases b - a,
    {
        proof {
            assert(t[b - a - 1] == sv[b - 1]);
            lemma_trail_ws_step(t, (b - a) as int);
        }
        b = b - 1;
    }
    proof {
        if b > a {
            assert(t.take(b - a).last() == sv[b - 1]);
        }
        assert(trail_ws(t.take(b - a)) == 0);
    }
    let ghost s = spec_trim(sv);
    proof {
        assert(s =~= sv.subrange(a as int, b as int));
        reveal_strlit("expected hsl(...)");
    }
    let len = b - a;
    let ok_prefix = len >= 4 && chars[a] == 'h' && chars[a + 1] == 's' && chars[a + 2] == 'l' && chars[a + 3] == '(';
    let ok_suffix = len > 0 && chars[b - 1] == ')';
    proof {
        if len >= 4 {
            assert(ok_prefix == (s.take(4) =~= seq!['h', 's', 'l', '(']));
        }
        if len > 0 {
            assert(s.last() == sv[b - 1]);
        }
    }
    if !ok_prefix || !ok_suffix {
        return Err("expected hsl(...)".to_owned());
    }
    // the values, with commas read as spaces, split at whitespace
    let ghost cleaned = commas_to_spaces(s.subrange(4, s.len() - 1));
    let mut parts: Vec<Vec<char>> = Vec::new();
    let mut cur: Vec<char> = Vec::new();
    let mut i: usize = a + 4;
    proof {
        assert(texts(parts@) =~= words_upto(cleaned, 0).0);
        assert(cur@ =~= words_upto(cleaned, 0).1);
    }
    while i < b - 1
        invariant
            chars@ == sv,
            a + 4 <= i <= b - 1,
            b <= n,
            n == sv.len(),
            s == sv.subrange(a as int, b as int),
            cleaned == commas_to_spaces(s.subrange(4, s.len() - 1)),
            cleaned.len() == b - 1 - (a + 4),
            texts(parts@) == words_upto(cleaned, i - (a + 4)).0,
            cur@ == words_upto(cleaned, i - (a + 4)).1,
        decreases b - 1 - i,
    {
        let c0 = chars[i];
        let c = if c0 == ',' { ' ' } else { c0 };
        proof {
            assert(cleaned[i - (a + 4)] == c);
        }
        if is_whitespace(c) {
            if cur.len() > 0 {
                let ghost p0 = texts(parts@);
                parts.push(cur);
                cur = Vec::new();
                proof {
                    assert(texts(parts@) =~= p0.push(words_upto(cleaned, i - (a + 4)).1));
                    assert(cur@ =~= Seq::<char>::empty());
                }
            } else {
                cur = Vec::new();
                assert(cur@ =~= Seq::<char>::empty());
            }
        } else {
            cur.push(c);
        }
        i = i + 1;
    }
    if cur.len() > 0 {
        let ghost p0 = texts(parts@);
        parts.push(cur);
        proof {
            assert(texts(parts@) =~= p0.push(words_upto(cleaned, cleaned.len() as int).1));
        }
    }
    let ghost ps = words(cleaned);
    proof {
        assert(texts(parts@) == ps);
        reveal_strlit("expected 3 values: H S% L%");
        reveal_strlit("bad hue");
        reveal_strlit("S must end with %");
        reveal_strlit("L must end with %");
        reveal_strlit("bad saturation");
        reveal_strlit("bad lightness");
    }
    if parts.len() != 3 {
        return Err("expected 3 values: H S% L%".to_owned());
    }
    assert(parts@[0]@ == ps[0] && parts@[1]@ == ps[1] && parts@[2]@ == ps[2]);
    let hue = match parse_uint_chars(&parts[0], 65535) {
        Some(h) => h,
        None => {
            return Err("bad hue".to_owned());
        },
    };
    let p1 = &parts[1];
    let p2 = &parts[2];
    if !(p1.len() > 0 && p1[p1.len() - 1] == '%') {
        return Err("S must end with %".to_owned());
    }
    if !(p2.len() > 0 && p2[p2.len() - 1] == '%') {
        return Err("L must end with %".to_owned());
    }
    let mut sat_digits = p1.clone();
    sat_digits.pop();
    let mut lig_digits = p2.clone();
    lig_digits.pop();
    assert(sat_digits@ =~= ps[1].drop_last());
    assert(lig_digits@ =~= ps[2].drop_last());
    let sat = match parse_uint_chars(&sat_digits, 255) {
        Some(x) => x,
        None => {
            return Err("bad saturation".to_owned());
        },
    };
    let lig = match parse_uint_chars(&lig_digits, 255) {
        Some(x) => x,
        None => {
            return Err("bad lightness".to_owned());
        },
    };
    Ok(HSLColor::new(hue as u16, sat as u8, lig as u8))
}


/// The decimal text of a number is a run of digits worth the number.
pub proof fn lemma_decimal_digits(n: nat)
    ensures
        decimal(n).len() > 0,
        all_digits(decimal(n)),
        digits_value(decimal(n)) == n,
        forall|i: int| 0 <= i < decimal(n).len() ==> !spec_is_whitespace(#[trigger] decimal(n)[i]) && decimal(n)[i] != ','
            && decimal(n)[i] != '+' && decimal(n)[i] != '%',
    decreases n,
{
    let d = decimal(n);
    if n >= 10 {
        lemma_decimal_digits(n / 10);
        assert(d.drop_last() =~= decimal(n / 10));
        assert(d.last() == digit_char(n % 10));
        assert((d.last() as nat) - 48 == n % 10);
        assert(digits_value(d) == digits_value(decimal(n / 10)) * 10 + ((d.last() as nat) - 48) as nat);
        assert(n == (n / 10) * 10 + n % 10);
        assert forall|i: int| 0 <= i < d.len() implies '0' <= #[trigger] d[i] <= '9' by {
            if i < d.len() - 1 {
                assert(d[i] == decimal(n / 10)[i]);
            }
        }
        assert forall|i: int| 0 <= i < d.len() implies !spec_is_whitespace(#[trigger] d[i]) && d[i] != ',' && d[i] != '+'
            && d[i] != '%' by {
            if i < d.len() - 1 {
                assert(d[i] == decimal(n / 10)[i]);
            }
        }
    } else {
        assert(d =~= seq![digit_char(n)]);
        assert(d.drop_last() =~= Seq::<char>::empty());
        assert((d.last() as nat) - 48 == n);
        assert(digits_value(d) == digits_value(d.drop_last()) * 10 + ((d.last() as nat) - 48) as nat);
    }
}

/// A number up to `max` reads back from its decimal text.
pub proof fn lemma_parse_decimal(n: nat, max: nat)
    requires
        n <= max,
    ensures
        parse_uint(decimal(n), max) == Some(n),
{
    lemma_decimal_digits(n);
    assert(decimal(n)[0] != '+');
}

/// A stretch without whitespace, started after a break, is the word under way.
proof fn lemma_word_run(s: Seq<char>, a: int, b: int)
    requires
        0 <= a <= b <= s.len(),
        forall|i: int| a <= i < b ==> !spec_is_whitespace(#[trigger] s[i]),
        words_upto(s, a).1 == Seq::<char>::empty(),
    ensures
        words_upto(s, b) == (words_upto(s, a).0, s.subrange(a, b)),
    decreases b - a,
{
    if b > a {
        lemma_word_run(s, a, b - 1);
        assert(s.subrange(a, b) =~= s.subrange(a, b - 1).push(s[b - 1]));
    } else {
        assert(s.subrange(a, b) =~= Seq::<char>::empty());
    }
}

/// Whitespace after a word completes it.
proof fn lemma_word_break(s: Seq<char>, b: int)
    requires
        0 <= b < s.len(),
        spec_is_whitespace(s[b]),
        words_upto(s, b).1.len() > 0,
    ensures
        words_upto(s, b + 1) == (words_upto(s, b).0.push(words_upto(s, b).1), Seq::<char>::empty()),
{
}

/// The three words of a color's text, between `hsl(` and `)`.
pub open spec fn css_words(c: HSLColor) -> Seq<Seq<char>> {
    seq![decimal(c.hue as nat), decimal(c.saturation as nat).push('%'), decimal(c.lightness as nat).push('%')]
}

/// What stands between `hsl(` and `)` in a color's text.
pub open spec fn css_inner(c: HSLColor) -> Seq<char> {
    css_words(c)[0] + seq![' '] + css_words(c)[1] + seq![' '] + css_words(c)[2]
}

/// A color's text has nothing to trim, and is `hsl(`, its inner part, `)`.
proof fn lemma_css_shape(c: HSLColor)
    ensures
        spec_trim(css_text(c)) == css_text(c),
        css_text(c).len() >= 5,
        css_text(c).take(4) == seq!['h', 's', 'l', '('],
        css_text(c).last() == ')',
        css_text(c).subrange(4, css_text(c).len() - 1) == css_inner(c),
{
    let text = css_text(c);
    assert(text =~= seq!['h', 's', 'l', '('] + css_inner(c) + seq![')']);
    assert(!spec_is_whitespace(text[0]));
    assert(lead_ws(text) == 0);
    assert(text.skip(0) =~= text);
    assert(!spec_is_whitespace(text.last()));
    assert(trail_ws(text) == 0);
    assert(text.take(text.len() as int) =~= text);
    assert(text.take(4) =~= seq!['h', 's', 'l', '(']);
    assert(text.subrange(4, text.len() - 1) =~= css_inner(c));
}

/// The inner part of a color's text has no comma, and its words are the three values.
#[verifier::rlimit(40)]
proof fn lemma_css_words(c: HSLColor)
    ensures
        commas_to_spaces(css_inner(c)) == css_inner(c),
        words(css_inner(c)) == css_words(c),
{
    let t1 = css_words(c)[0];
    let t2 = css_words(c)[1];
    let t3 = css_words(c)[2];
    lemma_decimal_digits(c.hue as nat);
    lemma_decimal_digits(c.saturation as nat);
    lemma_decimal_digits(c.lightness as nat);
    let inner = css_inner(c);
    let a2: int = t1.len() as int + 1;
    let b2: int = a2 + t2.len();
    let a3: int = b2 + 1;
    assert(inner.len() == a3 + t3.len());
    assert forall|i: int| 0 <= i < t1.len() implies inner[i] == t1[i] by {}
    assert forall|i: int| a2 <= i < b2 implies inner[i] == t2[i - a2] by {}
    assert forall|i: int| a3 <= i < inner.len() implies inner[i] == t3[i - a3] by {}
    assert(inner[a2 - 1] == ' ');
    assert(inner[b2] == ' ');
    assert forall|j: int| 0 <= j < t2.len() implies !spec_is_whitespace(#[trigger] t2[j]) && t2[j] != ',' by {
        if j < t2.len() - 1 {
            assert(t2[j] == decimal(c.saturation as nat)[j]);
        }
    }
    assert forall|j: int| 0 <= j < t3.len() implies !spec_is_whitespace(#[trigger] t3[j]) && t3[j] != ',' by {
        if j < t3.len() - 1 {
            assert(t3[j] == decimal(c.lightness as nat)[j]);
        }
    }
    assert forall|i: int| 0 <= i < inner.len() implies inner[i] != ',' by {
        if i < t1.len() {
        } else if i == a2 - 1 {
        } else if i < b2 {
            assert(t2[i - a2] != ',');
        } else if i == b2 {
        } else {
            assert(t3[i - a3] != ',');
        }
    }
    assert(commas_to_spaces(inner) =~= inner);
    assert forall|i: int| 0 <= i < t1.len() implies !spec_is_whitespace(#[trigger] inner[i]) by {}
    assert(words_upto(inner, 0).1 =~= Seq::<char>::empty());
    lemma_word_run(inner, 0, t1.len() as int);
    assert(inner.subrange(0, t1.len() as int) =~= t1);
    lemma_word_break(inner, t1.len() as int);
    assert forall|i: int| a2 <= i < b2 implies !spec_is_whitespace(#[trigger] inner[i]) by {
        assert(!spec_is_whitespace(t2[i - a2]));
    }
    lemma_word_run(inner, a2, b2);
    assert(inner.subrange(a2, b2) =~= t2);
    lemma_word_break(inner, b2);
    assert forall|i: int| a3 <= i < inner.len() implies !spec_is_whitespace(#[trigger] inner[i]) by {
        assert(!spec_is_whitespace(t3[i - a3]));
    }
    lemma_word_run(inner, a3, inner.len() as int);
    assert(inner.subrange(a3, inner.len() as int) =~= t3);
    assert(words(inner) =~= seq![t1, t2, t3]);
}

/// Reading back the text of a color gives the color: `hsl(H S% L%)` parses to `H`, `S`,
/// `L` for any hue below 360 and saturation and lightness up to 100.
pub proof fn lemma_css_round_trip(c: HSLColor)
    requires
        c.hue < 360,
        c.saturation <= 100,
        c.lightness <= 100,
    ensures
        hsl_parse(css_text(c)) == Ok::<HSLColor, Seq<char>>(c),
{
    lemma_css_shape(c);
    lemma_css_words(c);
    let ws = css_words(c);
    lemma_parse_decimal(c.hue as nat, 65535);
    assert(ws[1].drop_last() =~= decimal(c.saturation as nat));
    assert(ws[2].drop_last() =~= decimal(c.lightness as nat));
    lemma_parse_decimal(c.saturation as nat, 255);
    lemma_parse_decimal(c.lightness as nat, 255);
}

/// A new color is normalized, and normalizing a normalized color changes nothing.
pub proof fn lemma_new_normalizes(hue: u16, saturation: u8, lightness: u8)
    ensures
        spec_hsl(hue, saturation, lightness).hue < 360,
        spec_hsl(hue, saturation, lightness).saturation <= 100,
        spec_hsl(hue, saturation, lightness).lightness <= 100,
        ({
            let c = spec_hsl(hue, saturation, lightness);
            spec_hsl(c.hue, c.saturation, c.lightness) == c
        }),
{
}

/// Turning a color round twice gives it back: inverting is its own inverse on colors with
/// a hue below 360 and lightness up to 100.
pub proof fn lemma_invert_involution(c: HSLColor)
    requires
        c.hue < 360,
        c.saturation <= 100,
        c.lightness <= 100,
    ensures
        ({
            let once = spec_hsl(((c.hue + 180) % 360) as u16, c.saturation, (100 - c.lightness) as u8);
            spec_hsl(((once.hue + 180) % 360) as u16, once.saturation, (100 - once.lightness) as u8) == c
        }),
{
}

/// The color of any word has a hue below 360, a saturation from 55 to 85 and a lightness
/// from 40 to 60.
pub proof fn lemma_word_color_ranges(word: Seq<char>)
    ensures
        spec_word_color(word).hue < 360,
        55 <= spec_word_color(word).saturation <= 85,
        40 <= spec_word_color(word).lightness <= 60,
{
}

impl HSLColor {
    /// A color, with the hue taken modulo 360 and saturation and lightness capped at 100.
    pub fn new(hue: u16, saturation: u8, lightness: u8) -> (c: Self)
        ensures
            c == spec_hsl(hue, saturation, lightness),
    {
        HSLColor {
            hue: hue % 360,
            saturation: if saturation <= 100 { saturation } else { 100 },
            lightness: if lightness <= 100 { lightness } else { 100 },
        }
    }

    /// The opposite color: hue turned half way round, lightness mirrored.
    pub fn invert(&self) -> (c: Self)
        requires
            self.hue + 180 <= u16::MAX,
        ensures
            c == spec_hsl(
                ((self.hue + 180) % 360) as u16,
                self.saturation,
                (if self.lightness <= 100 { 100 - self.lightness } else { 0 }) as u8,
            ),
    {
        let inv_h = (self.hue + 180) % 360;
        let inv_l = 100u16.saturating_sub(self.lightness as u16) as u8;
        Self::new(inv_h, self.saturation, inv_l)
    }

    /// The color as CSS writes it: `hsl(H S% L%)`.
    pub fn to_css(&self) -> (s: String)
        ensures
            s@ == css_text(*self),
    {
        let h = decimal_string(self.hue as u64);
        let sa = decimal_string(self.saturation as u64);
        let l = decimal_string(self.lightness as u64);
        proof {
            reveal_strlit("hsl(");
            reveal_strlit(" ");
            reveal_strlit("% ");
            reveal_strlit("%)");
        }
        let mut s = "hsl(".to_owned();
        s.append(h.as_str());
        s.append(" ");
        s.append(sa.as_str());
        s.append("% ");
        s.append(l.as_str());
        s.append("%)");
        assert(s@ =~= css_text(*self));
        s
    }
}

/// The 64-bit FNV-1a hash of `bytes`.
pub fn fnv1a64(bytes: &[u8]) -> (h: u64)
    ensures
        h == fnv_hash(bytes@),
{
    let mut hash: u64 = 0xcbf29ce484222325;
    let mut i: usize = 0;
    while i < bytes.len()
        invariant
            i <= bytes@.len(),
            hash == fnv_hash(bytes@.take(i as int)),
        decreases bytes@.len() - i,
    {
        let b = bytes[i];
        hash = hash ^ (b as u64);
        hash = hash.wrapping_mul(0x100000001b3);
        proof {
            assert(bytes@.take(i + 1).drop_last() =~= bytes@.take(i as int));
        }
        i = i + 1;
    }
    assert(bytes@.take(i as int) =~= bytes@);
    hash
}

/// The color of a word, from the FNV-1a hash of its UTF-8 bytes.
pub fn word_to_hsl_color(word: &str) -> (c: HSLColor)
    ensures
        c == spec_word_color(word@),
{
    let h = fnv1a64(word.as_bytes());
    let hue = (h as u16) % 360;
    let sat_raw = ((h >> 16) & 0xFF) as u8;
    let lig_raw = ((h >> 24) & 0xFF) as u8;
    let saturation = 55 + (sat_raw % 31);
    let lightness = 40 + (lig_raw % 21);
    HSLColor::new(hue, saturation, lightness)
}

/// A hexadecimal digit, upper case.
pub open spec fn hex_digit(d: nat) -> char {
    if d < 10 {
        ((d + 48) as u8) as char
    } else {
        ((d + 55) as u8) as char
    }
}

/// A byte as two upper-case hexadecimal digits.
pub open spec fn hex2(b: u8) -> Seq<char> {
    seq![hex_digit((b / 16) as nat), hex_digit((b % 16) as nat)]
}

/// `#RRGGBB` for a color given as red, green and blue.
pub open spec fn hex_text(r: u8, g: u8, b: u8) -> Seq<char> {
    seq!['#'] + hex2(r) + hex2(g) + hex2(b)
}

fn push_hex2(s: &mut String, b: u8)
    ensures
        final(s)@ == old(s)@ + hex2(b),
{
    let digits = "0123456789ABCDEF";
    proof {
        reveal_strlit("0123456789ABCDEF");
    }
    let hi = (b / 16) as usize;
    let lo = (b % 16) as usize;
    let v = chars_of(digits);
    let ch = v[hi];
    let cl = v[lo];
    assert(v@ =~= seq!['0', '1', '2', '3', '4', '5', '6', '7', '8', '9', 'A', 'B', 'C', 'D', 'E', 'F']);
    assert(ch == hex_digit((b / 16) as nat));
    assert(cl == hex_digit((b % 16) as nat));
    let mut pair: Vec<char> = Vec::new();
    pair.push(ch);
    pair.push(cl);
    let t = string_of_chars(pair.as_slice());
    s.append(t.as_str());
    assert(t@ =~= hex2(b));
}

/// `#RRGGBB`, upper case, for a color given as red, green and blue.
pub fn rgb_to_hex(r: u8, g: u8, b: u8) -> (s: String)
    ensures
        s@ == hex_text(r, g, b),
{
    proof {
        reveal_strlit("#");
    }
    let mut s = "#".to_owned();
    push_hex2(&mut s, r);
    push_hex2(&mut s, g);
    push_hex2(&mut s, b);
    assert(s@ =~= hex_text(r, g, b));
    s
}

} // verus!
