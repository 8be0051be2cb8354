//! Display helpers: human-readable sizes, home-directory expansion, and text
//! made fit for a single line of the terminal.
use vstd::prelude::*;
use crate::matching::{regex_compiles, regex_replace_all, regex_replaced};
use crate::text::{
    append_chars, contains_char, decimal, decimal_chars, digit_char, has_char, has_prefix,
    str_to_chars, trim_start_char, trim_start_matches_char, vec_to_string,
};

verus! {

/// `2` to the power `n`.
pub open spec fn two_pow(n: nat) -> nat
    decreases n,
{
    if n == 0 {
        1
    } else {
        2 * two_pow((n - 1) as nat)
    }
}

/// `n / d` rounded to the nearest integer, halves to the even one.
pub open spec fn round_div(n: nat, d: nat) -> nat {
    let q = n / d;
    let r = n % d;
    if 2 * r > d || (2 * r == d && q % 2 == 1) {
        q + 1
    } else {
        q
    }
}

/// How many low bits of `b` a double cannot hold (it keeps 53).
pub open spec fn excess_bits(b: nat) -> nat
    decreases b,
{
    if b < 0x20_0000_0000_0000 {
        0
    } else {
        1 + excess_bits(b / 2)
    }
}

/// The double nearest to `b` (halves to the even one), as an integer.
pub open spec fn as_double(b: nat) -> nat {
    let p = two_pow(excess_bits(b));
    round_div(b, p) * p
}

/// `b / 2^e` in tenths, rounded as a one-decimal display rounds it.
pub open spec fn tenths(b: nat, e: nat) -> nat {
    round_div(as_double(b) * 10, two_pow(e))
}

/// Tenths `t` written with one decimal.
pub open spec fn one_decimal(t: nat) -> Seq<char> {
    decimal(t / 10) + seq!['.', digit_char((t % 10) as int)]
}

/// The text of a byte count: bytes below 1 KiB, else KB, MB or GB (powers
/// of 1024) with one decimal.
pub open spec fn size_text(b: nat) -> Seq<char> {
    if b >= 0x4000_0000 {
        one_decimal(tenths(b, 30)) + " GB"@
    } else if b >= 0x10_0000 {
        one_decimal(tenths(b, 20)) + " MB"@
    } else if b >= 0x400 {
        one_decimal(tenths(b, 10)) + " KB"@
    } else {
        decimal(b) + " B"@
    }
}

proof fn lemma_two_pow_facts()
    ensures
        two_pow(10) == 0x400,
        two_pow(20) == 0x10_0000,
        two_pow(30) == 0x4000_0000,
{
    reveal_with_fuel(two_pow, 31);
}

/// The nearest double to `b`, as an integer.
fn double_of(b: u64) -> (r: u128)
    ensures
        r == as_double(b as nat),
        r <= 2 * (b as int) + 1,
{
    let mut m: u64 = b;
    let mut p: u128 = 1;
    let ghost mut k: nat = 0;
    while m >= 0x20_0000_0000_0000
        invariant
            p == two_pow(k),
            1 <= p,
            m == (b as nat) / (p as nat),
            excess_bits(b as nat) == k + excess_bits(m as nat),
            p * m <= b,
            p == 1 || m >= 1,
        decreases m,
    {
        proof {
            vstd::arithmetic::div_mod::lemma_div_denominator(b as int, p as int, 2);
            assert((p * 2) * (m / 2) <= p * m) by (nonlinear_arith)
                requires
                    1 <= p,
            ;
            assert(p < 0x1000) by (nonlinear_arith)
                requires
                    p * m <= b,
                    m >= 0x20_0000_0000_0000,
                    b < 0x1_0000_0000_0000_0000,
            ;
        }
        m = m / 2;
        p = p * 2;
        proof {
            k = k + 1;
        }
    }
    let q: u128 = (b as u128) / p;
    let rem: u128 = (b as u128) % p;
    proof {
        assert(q == m);
        assert(p <= b || p == 1) by (nonlinear_arith)
            requires
                p * m <= b,
                p >= 1,
                p == 1 || m >= 1,
        ;
    }
    let rounded: u128 = if 2 * rem > p || (2 * rem == p && q % 2 == 1) {
        q + 1
    } else {
        q
    };
    proof {
        assert(rounded * p <= 2 * (b as int) + 1) by (nonlinear_arith)
            requires
                rounded <= q + 1,
                q * p <= b,
                p <= b || p == 1,
                p >= 1,
        ;
    }
    rounded * p
}

/// `b / 2^e` in tenths, rounded.
fn tenths_of(b: u64, e: u32) -> (r: u64)
    requires
        e == 10 || e == 20 || e == 30,
        b >= two_pow(e as nat),
    ensures
        r == tenths(b as nat, e as nat),
{
    proof {
        lemma_two_pow_facts();
    }
    let v = double_of(b);
    let d: u128 = if e == 10 {
        0x400
    } else if e == 20 {
        0x10_0000
    } else {
        0x4000_0000
    };
    let n: u128 = v * 10;
    let q: u128 = n / d;
    let rem: u128 = n % d;
    let t: u128 = if 2 * rem > d || (2 * rem == d && q % 2 == 1) {
        q + 1
    } else {
        q
    };
    proof {
        assert(q <= n / 0x400) by (nonlinear_arith)
            requires
                q == n / d,
                d >= 0x400,
        ;
        assert(t < 0x1_0000_0000_0000_0000);
    }
    t as u64
}

/// Tenths written with one decimal.
fn one_decimal_chars(t: u64) -> (r: Vec<char>)
    ensures
        r@ == one_decimal(t as nat),
{
    let mut v = decimal_chars(t / 10);
    v.push('.');
    v.push(crate::text::digit_of(t % 10));
    assert(v@ =~= decimal((t / 10) as nat) + seq!['.', digit_char((t % 10) as int)]);
    v
}

/// A byte count in human-readable form, e.g. `"512 B"`, `"1.5 KB"`.
pub fn format_size(bytes: u64) -> (r: String)
    ensures
        r@ == size_text(bytes as nat),
{
    proof {
        lemma_two_pow_facts();
    }
    let mut v: Vec<char>;
    if bytes >= 0x4000_0000 {
        v = one_decimal_chars(tenths_of(bytes, 30));
        append_chars(&mut v, &str_to_chars(" GB"));
    } else if bytes >= 0x10_0000 {
        v = one_decimal_chars(tenths_of(bytes, 20));
        append_chars(&mut v, &str_to_chars(" MB"));
    } else if bytes >= 0x400 {
        v = one_decimal_chars(tenths_of(bytes, 10));
        append_chars(&mut v, &str_to_chars(" KB"));
    } else {
        v = decimal_chars(bytes);
        append_chars(&mut v, &str_to_chars(" B"));
    }
    vec_to_string(&v)
}

/// `home` joined with the relative path `rest`, as a path join writes it.
pub open spec fn join_home(home: Seq<char>, rest: Seq<char>) -> Seq<char> {
    if home.len() == 0 {
        rest
    } else if home.last() == '/' {
        home + rest
    } else {
        home + seq!['/'] + rest
    }
}

/// `path` with a leading `~` (alone, or followed by `/`) replaced by
/// `home`; `None` when the path needs a home directory and there is none.
pub open spec fn tilde_expansion(path: Seq<char>, home: Option<Seq<char>>) -> Option<Seq<char>> {
    if path == seq!['~'] || has_prefix(path, seq!['~', '/']) {
        match home {
            Some(h) => Some(join_home(h, trim_start_char(path.drop_first(), '/'))),
            None => None,
        }
    } else {
        Some(path)
    }
}

/// The characters of an optional string slice.
pub open spec fn str_opt(o: Option<&str>) -> Option<Seq<char>> {
    match o {
        Some(h) => Some(h@),
        None => None,
    }
}

/// Expands a leading `~` in `path` to the home directory `home`.
pub fn expand_tilde(path: &str, home: Option<&str>) -> (r: Option<String>)
    ensures
        match r {
            Some(p) => tilde_expansion(path@, str_opt(home)) == Some(p@),
            None => tilde_expansion(path@, str_opt(home)) is None,
        },
{
    let chars = str_to_chars(path);
    let tilde_alone = chars.len() == 1 && chars[0] == '~';
    let tilde_slash = chars.len() >= 2 && chars[0] == '~' && chars[1] == '/';
    proof {
        assert(tilde_alone == (chars@ == seq!['~'])) by {
            if chars@.len() == 1 && chars@[0] == '~' {
                assert(chars@ =~= seq!['~']);
            }
        }
        assert(tilde_slash == has_prefix(chars@, seq!['~', '/'])) by {
            if chars@.len() >= 2 && chars@[0] == '~' && chars@[1] == '/' {
                assert(chars@.take(2) =~= seq!['~', '/']);
            }
        }
    }
    if tilde_alone || tilde_slash {
        match home {
            None => None,
            Some(h) => {
                let after = crate::text::sub_chars(&chars, 1, chars.len());
                assert(after@ =~= chars@.drop_first());
                let rest = trim_start_matches_char(&after, '/');
                let mut out = str_to_chars(h);
                let hn = out.len();
                if hn > 0 && out[hn - 1] != '/' {
                    out.push('/');
                }
                append_chars(&mut out, &rest);
                proof {
                    if h@.len() == 0 {
                        assert(out@ =~= rest@);
                    } else if h@.last() == '/' {
                        assert(out@ =~= h@ + rest@);
                    } else {
                        assert(out@ =~= h@ + seq!['/'] + rest@);
                    }
                }
                Some(vec_to_string(&out))
            },
        }
    } else {
        Some(path.to_owned())
    }
}


/// The displayed width of a string, as `unicode_width::UnicodeWidthStr::width`
/// measures it.
pub uninterp spec fn str_width(s: Seq<char>) -> usize;

/// A printable ASCII character, from the space to `~`.
pub open spec fn printable_ascii(c: char) -> bool {
    ' ' <= c && c <= '~'
}

/// Measures `s` with `unicode_width::UnicodeWidthStr::width`. Besides naming
/// the result, the contract claims what the crate documents and its source
/// shows for text made only of printable ASCII: one column per character.
#[verifier::external_body]
fn text_width(s: &str) -> (r: usize)
    ensures
        r == str_width(s@),
        (forall|i: int| 0 <= i < s@.len() ==> printable_ascii(#[trigger] s@[i])) ==> r == s@.len(),
{
    unicode_width::UnicodeWidthStr::width(s)
}

/// The displayed width of `text`, as `unicode_width` measures a whole
/// string; text made only of printable ASCII takes one column per character.
pub fn display_width(text: &str) -> (r: usize)
    ensures
        r == str_width(text@),
        (forall|i: int| 0 <= i < text@.len() ==> printable_ascii(#[trigger] text@[i])) ==> r == text@.len(),
{
    text_width(text)
}

/// The longest beginning of `s` whose display width is at most `limit`.
pub open spec fn widest_prefix(s: Seq<char>, limit: int) -> Seq<char>
    decreases s.len(),
{
    if s.len() == 0 || str_width(s) <= limit {
        s
    } else {
        widest_prefix(s.drop_last(), limit)
    }
}

/// The longest beginning of `s` that, followed by `...`, has a display
/// width of at most `limit`.
pub open spec fn prefix_before_ellipsis(s: Seq<char>, limit: int) -> Seq<char>
    decreases s.len(),
{
    if s.len() == 0 || str_width(s + "..."@) <= limit {
        s
    } else {
        prefix_before_ellipsis(s.drop_last(), limit)
    }
}

/// `text` cut to at most `max` columns, with no ellipsis.
pub open spec fn cut_to_width(text: Seq<char>, max: int) -> Seq<char> {
    widest_prefix(text, max)
}

/// `text` cut to at most `max` columns: unchanged when it fits; else, when
/// the three columns of `...` fit with room to spare, the longest beginning
/// of the text that fits together with `...`, followed by it; else as much
/// of `...` as fits.
pub open spec fn truncated(text: Seq<char>, max: int) -> Seq<char> {
    if str_width(text) <= max {
        text
    } else if max <= 3 {
        "..."@.take(max)
    } else {
        prefix_before_ellipsis(text, max) + "..."@
    }
}

/// Every character of `s` is printable ASCII.
pub open spec fn all_printable_ascii(s: Seq<char>) -> bool {
    forall|i: int| 0 <= i < s.len() ==> printable_ascii(#[trigger] s[i])
}

/// Cuts `text` to at most `max_width` columns, ending it with `...` when it
/// had to be cut; when not even the ellipsis fits, as much of it as fits.
/// The result is never wider than `max_width`.
pub fn truncate_with_ellipsis(text: &str, max_width: usize) -> (r: String)
    ensures
        r@ == truncated(text@, max_width as int),
        str_width(r@) <= max_width,
{
    if text_width(text) <= max_width {
        return vec_to_string(&str_to_chars(text));
    }
    let ellipsis = "...";
    proof {
        reveal_strlit("...");
        assert(all_printable_ascii(ellipsis@));
    }
    let ellipsis_width = text_width(ellipsis);
    if max_width <= ellipsis_width {
        let r = truncate_text(ellipsis, max_width);
        proof {
            assert(r@ == "..."@.take(max_width as int));
        }
        return r;
    }
    let chars = str_to_chars(text);
    let dots = str_to_chars(ellipsis);
    let mut k: usize = chars.len();
    proof {
        assert(text@.take(k as int) =~= text@);
    }
    loop
        invariant
            chars@ == text@,
            dots@ == "..."@,
            all_printable_ascii(dots@),
            k <= chars@.len(),
            max_width > 3,
            str_width(text@) > max_width,
            prefix_before_ellipsis(text@, max_width as int) == prefix_before_ellipsis(
                text@.take(k as int),
                max_width as int,
            ),
        decreases k,
    {
        let mut cand = crate::text::sub_chars(&chars, 0, k);
        let ghost kept = cand@;
        append_chars(&mut cand, &dots);
        let s = vec_to_string(&cand);
        proof {
            assert(kept =~= text@.take(k as int));
            assert(s@ =~= kept + "..."@);
            if k == 0 {
                reveal_strlit("...");
                assert(s@ =~= "..."@);
                assert(s@.len() == 3);
                assert(all_printable_ascii(s@));
            }
        }
        let w = text_width(s.as_str());
        if w <= max_width {
            return s;
        }
        proof {
            assert(k > 0);
            assert(text@.take(k as int).drop_last() =~= text@.take(k - 1));
        }
        k = k - 1;
    }
}

/// Cuts `text` to at most `max_width` columns, with no ellipsis: the
/// longest beginning of it that fits. Printable ASCII text keeps its first
/// `max_width` characters.
fn truncate_text(text: &str, max_width: usize) -> (r: String)
    ensures
        r@ == cut_to_width(text@, max_width as int),
        str_width(r@) <= max_width,
        all_printable_ascii(text@) ==> r@ == text@.take(
            if text@.len() <= max_width { text@.len() as int } else { max_width as int },
        ),
{
    let chars = str_to_chars(text);
    let mut k: usize = chars.len();
    proof {
        assert(text@.take(k as int) =~= text@);
    }
    loop
        invariant
            chars@ == text@,
            k <= chars@.len(),
            widest_prefix(text@, max_width as int) == widest_prefix(text@.take(k as int), max_width as int),
            all_printable_ascii(text@) && k < text@.len() ==> k >= max_width,
        decreases k,
    {
        let s = vec_to_string(&crate::text::sub_chars(&chars, 0, k));
        proof {
            assert(s@ =~= text@.take(k as int));
            if all_printable_ascii(text@) {
                assert(all_printable_ascii(s@));
            }
            if k == 0 {
                assert(all_printable_ascii(s@));
            }
        }
        let w = text_width(s.as_str());
        if w <= max_width {
            return s;
        }
        proof {
            assert(k > 0);
            assert(text@.take(k as int).drop_last() =~= text@.take(k - 1));
        }
        k = k - 1;
    }
}

/// A control character (general category Cc): U+0000 to U+001F and U+007F
/// to U+009F.
pub open spec fn is_control_char(c: char) -> bool {
    c <= '\u{1f}' || ('\u{7f}' <= c && c <= '\u{9f}')
}

/// `s` with tabs turned into spaces and the other control characters dropped.
pub open spec fn cleaned(s: Seq<char>) -> Seq<char>
    decreases s.len(),
{
    if s.len() == 0 {
        Seq::empty()
    } else {
        let rest = cleaned(s.drop_last());
        let c = s.last();
        if c == '\t' {
            rest.push(' ')
        } else if is_control_char(c) {
            rest
        } else {
            rest.push(c)
        }
    }
}

/// `i` is the position of the first `c` in `s` (`s.len()` when there is none).
pub open spec fn cut_at(s: Seq<char>, c: char, i: int) -> bool {
    &&& 0 <= i <= s.len()
    &&& forall|j: int| 0 <= j < i ==> s[j] != c
    &&& i < s.len() ==> s[i] == c
}

/// The position of the first `c` in `s` (`s.len()` when there is none).
pub open spec fn first_cut(s: Seq<char>, c: char) -> int {
    choose|i: int| cut_at(s, c, i)
}

/// The first line of `text` and whether a line break ended it: the text
/// before the first `\n`, else before the first `\r`, else all of it.
pub open spec fn first_line(text: Seq<char>) -> (Seq<char>, bool) {
    if has_char(text, '\n') {
        (text.take(first_cut(text, '\n')), true)
    } else if has_char(text, '\r') {
        (text.take(first_cut(text, '\r')), true)
    } else {
        (text, false)
    }
}

/// `line` with its ANSI escape sequences (ESC `[`, digits and `;`, a
/// letter) removed by the regular expression that matches them.
pub open spec fn without_ansi(line: Seq<char>) -> Seq<char> {
    if regex_compiles(r"\x1B\[[0-9;]*[A-Za-z]"@) {
        regex_replaced(r"\x1B\[[0-9;]*[A-Za-z]"@, line, ""@)
    } else {
        line
    }
}

/// `text` made fit for one line of display: its first line, without ANSI
/// escapes or control characters (tabs become spaces), followed by `...`
/// when more lines followed.
pub open spec fn sanitized(text: Seq<char>) -> Seq<char> {
    let (line, more) = first_line(text);
    let c = cleaned(without_ansi(line));
    if more {
        c + "..."@
    } else {
        c
    }
}

/// The position of the first `c` in `s`, or its length.
fn cut_index(s: &Vec<char>, c: char) -> (r: usize)
    ensures
        r == first_cut(s@, c),
        cut_at(s@, c, r as int),
{
    let mut i: usize = 0;
    while i < s.len() && s[i] != c
        invariant
            i <= s@.len(),
            forall|j: int| 0 <= j < i ==> s@[j] != c,
        decreases s@.len() - i,
    {
        i = i + 1;
    }
    proof {
        assert(cut_at(s@, c, i as int));
        let k = first_cut(s@, c);
        assert(cut_at(s@, c, k));
        if k < i {
            assert(s@[k] == c);
        } else if i < k {
            assert(s@[i as int] == c);
        }
    }
    i
}

/// The characters of `s` with tabs turned into spaces and the other control
/// characters dropped.
fn clean_chars(s: &Vec<char>) -> (r: Vec<char>)
    ensures
        r@ == cleaned(s@),
{
    let mut out: Vec<char> = Vec::new();
    let mut i: usize = 0;
    proof {
        assert(s@.take(0) =~= Seq::<char>::empty());
    }
    while i < s.len()
        invariant
            i <= s@.len(),
            out@ == cleaned(s@.take(i as int)),
        decreases s@.len() - i,
    {
        let c = s[i];
        proof {
            assert(s@.take(i + 1).drop_last() =~= s@.take(i as int));
            assert(s@.take(i + 1).last() == c);
        }
        if c == '\t' {
            out.push(' ');
        } else if c <= '\u{1f}' || ('\u{7f}' <= c && c <= '\u{9f}') {
        } else {
            out.push(c);
        }
        i = i + 1;
    }
    proof {
        assert(s@.take(s@.len() as int) =~= s@);
    }
    out
}

/// Makes `text` fit for one line of display: keeps its first line, strips
/// ANSI escape sequences and control characters (tabs become spaces), and
/// ends it with `...` when more lines followed.
pub fn sanitize_display_text(text: &str) -> (r: String)
    ensures
        r@ == sanitized(text@),
{
    let chars = str_to_chars(text);
    let (line, more) = if contains_char(&chars, '\n') {
        (crate::text::sub_chars(&chars, 0, cut_index(&chars, '\n')), true)
    } else if contains_char(&chars, '\r') {
        (crate::text::sub_chars(&chars, 0, cut_index(&chars, '\r')), true)
    } else {
        (crate::text::sub_chars(&chars, 0, chars.len()), false)
    };
    proof {
        assert(chars@.subrange(0, chars@.len() as int) =~= chars@);
        assert(line@ == first_line(text@).0);
    }
    let line_text = vec_to_string(&line);
    let stripped = match regex_replace_all(r"\x1B\[[0-9;]*[A-Za-z]", line_text.as_str(), "") {
        Some(s) => s,
        None => line_text,
    };
    finish_display_line(stripped.as_str(), more)
}

/// The first line of a text, its ANSI escapes already removed, finished
/// for display: tabs become spaces, other control characters go, and `...`
/// follows when more lines followed.
pub open spec fn finished_line(stripped: Seq<char>, more: bool) -> Seq<char> {
    if more {
        cleaned(stripped) + "..."@
    } else {
        cleaned(stripped)
    }
}

/// Finishes the first line of a text for display once its ANSI escapes
/// are removed: tabs become spaces, the other control characters are
/// dropped, and `...` is added when `more_lines` followed it.
pub fn finish_display_line(stripped: &str, more_lines: bool) -> (r: String)
    ensures
        r@ == finished_line(stripped@, more_lines),
{
    let mut out = clean_chars(&str_to_chars(stripped));
    if more_lines {
        let ghost c = out@;
        append_chars(&mut out, &str_to_chars("..."));
        assert(out@ =~= c + "..."@);
    }
    vec_to_string(&out)
}

/// Sanitizes `text` for a single-line field and cuts it to `max_width` columns.
pub fn sanitize_and_truncate(text: &str, max_width: usize) -> (r: String)
    ensures
        r@ == truncated(sanitized(text@), max_width as int),
        str_width(r@) <= max_width,
{
    let sanitized = sanitize_display_text(text);
    truncate_with_ellipsis(sanitized.as_str(), max_width)
}

/// Cutting keeps a beginning of the text: what stands before the ellipsis
/// is the text up to some position.
pub proof fn law_truncation_keeps_a_prefix(text: Seq<char>, max: int)
    requires
        str_width(text) > max,
        max > 3,
    ensures
        truncated(text, max) == prefix_before_ellipsis(text, max) + "..."@,
        prefix_before_ellipsis(text, max) == text.take(prefix_before_ellipsis(text, max).len() as int),
{
    lemma_prefix_before_ellipsis(text, max);
}

proof fn lemma_prefix_before_ellipsis(s: Seq<char>, limit: int)
    ensures
        prefix_before_ellipsis(s, limit).len() <= s.len(),
        prefix_before_ellipsis(s, limit) == s.take(prefix_before_ellipsis(s, limit).len() as int),
    decreases s.len(),
{
    if s.len() == 0 || str_width(s + "..."@) <= limit {
        assert(s.take(s.len() as int) =~= s);
    } else {
        lemma_prefix_before_ellipsis(s.drop_last(), limit);
        let p = prefix_before_ellipsis(s.drop_last(), limit);
        assert(s.take(p.len() as int) =~= s.drop_last().take(p.len() as int));
    }
}

/// Sanitized text holds no control character: no line break, tab or escape
/// survives.
pub proof fn law_sanitized_has_no_control(text: Seq<char>, i: int)
    requires
        0 <= i < sanitized(text).len(),
    ensures
        !is_control_char(sanitized(text)[i]),
{
    let (line, more) = first_line(text);
    let c = cleaned(without_ansi(line));
    lemma_cleaned_no_control(without_ansi(line));
    if more {
        reveal_strlit("...");
        if i >= c.len() {
            assert(sanitized(text)[i] == "..."@[i - c.len()]);
        } else {
            assert(sanitized(text)[i] == c[i]);
        }
    }
}

proof fn lemma_cleaned_no_control(s: Seq<char>)
    ensures
        forall|i: int| 0 <= i < cleaned(s).len() ==> !is_control_char(#[trigger] cleaned(s)[i]),
    decreases s.len(),
{
    if s.len() > 0 {
        let rest = cleaned(s.drop_last());
        lemma_cleaned_no_control(s.drop_last());
        assert forall|i: int| 0 <= i < cleaned(s).len() implies !is_control_char(#[trigger] cleaned(s)[i]) by {
            if i < rest.len() {
                assert(cleaned(s)[i] == rest[i]);
            }
        }
    }
}

} // verus!
