//! The get channel: a line-oriented request/response protocol for covers, song
//! files and custom files. Requests travel as one escaped line.
use vstd::prelude::*;
use vstd::string::StrSliceExecFns;

verus! {

/// Relies on std's `String::push`: it appends the character.
pub assume_specification[ String::push ](s: &mut String, ch: char)
    ensures
        final(s)@ == old(s)@.push(ch),
;

/// The escape sequence for one character.
pub open spec fn escape_char(c: char) -> Seq<char> {
    if c == '\\' {
        seq!['\\', '\\']
    } else if c == '\n' {
        seq!['\\', 'n']
    } else if c == '\r' {
        seq!['\\', 'r']
    } else {
        seq![c]
    }
}

/// `s` with `\` written `\\`, a newline `\n` and a carriage return `\r`.
pub open spec fn escape(s: Seq<char>) -> Seq<char>
    decreases s.len(),
{
    if s.len() == 0 {
        Seq::empty()
    } else {
        escape_char(s[0]) + escape(s.drop_first())
    }
}

/// The character that follows a `\` stands for.
pub open spec fn unescape_char(c: char) -> char {
    if c == 'n' {
        '\n'
    } else if c == 'r' {
        '\r'
    } else {
        c
    }
}

/// Reverses `escape`: `\` and the character after it become one character; a
/// `\` at the very end is dropped.
pub open spec fn unescape(s: Seq<char>) -> Seq<char>
    decreases s.len(),
{
    if s.len() == 0 {
        Seq::empty()
    } else if s[0] == '\\' {
        if s.len() == 1 {
            Seq::empty()
        } else {
            seq![unescape_char(s[1])] + unescape(s.subrange(2, s.len() as int))
        }
    } else {
        seq![s[0]] + unescape(s.drop_first())
    }
}

proof fn lemma_escape_concat(a: Seq<char>, b: Seq<char>)
    ensures
        escape(a + b) == escape(a) + escape(b),
    decreases a.len(),
{
    if a.len() == 0 {
        assert(a + b =~= b);
    } else {
        assert((a + b).drop_first() =~= a.drop_first() + b);
        lemma_escape_concat(a.drop_first(), b);
        assert(escape(a + b) =~= escape(a) + escape(b));
    }
}

/// Decoding an escaped string gives the string back, and an escaped string
/// holds no newline (so it fits on one line).
pub proof fn lemma_escape_round_trip(s: Seq<char>)
    ensures
        unescape(escape(s)) == s,
        !escape(s).contains('\n'),
    decreases s.len(),
{
    if s.len() > 0 {
        lemma_escape_round_trip(s.drop_first());
        let c = s[0];
        let e = escape(s);
        let rest = escape(s.drop_first());
        assert(e == escape_char(c) + rest);
        if c == '\\' || c == '\n' || c == '\r' {
            assert(e.subrange(2, e.len() as int) =~= rest);
        } else {
            assert(e.drop_first() =~= rest);
        }
        assert(unescape(e) =~= s);
        assert forall|i: int| 0 <= i < e.len() implies e[i] != '\n' by {
            if i >= escape_char(c).len() {
                assert(e[i] == rest[i - escape_char(c).len()]);
            }
        }
    }
}

/// Escapes a request so that it fits on one line.
pub fn con_get_encode_string(line: &str) -> (r: String)
    ensures
        r@ == escape(line@),
{
    let mut o = String::new();
    let n = line.unicode_len();
    let mut i: usize = 0;
    while i < n
        invariant
            i <= n,
            n == line@.len(),
            o@ == escape(line@.subrange(0, i as int)),
        decreases n - i,
    {
        let ch = line.get_char(i);
        proof {
            lemma_escape_concat(line@.subrange(0, i as int), seq![ch]);
            assert(line@.subrange(0, i + 1) =~= line@.subrange(0, i as int) + seq![ch]);
            assert(escape(seq![ch]) =~= escape_char(ch)) by {
                assert(seq![ch].drop_first() =~= Seq::<char>::empty());
                assert(escape(seq![ch]) == escape_char(ch) + escape(seq![ch].drop_first()));
                assert(escape(Seq::<char>::empty()) =~= Seq::<char>::empty());
            }
        }
        if ch == '\\' {
            o.push('\\');
            o.push('\\');
        } else if ch == '\n' {
            o.push('\\');
            o.push('n');
        } else if ch == '\r' {
            o.push('\\');
            o.push('r');
        } else {
            o.push(ch);
        }
        i += 1;
        assert(o@ =~= escape(line@.subrange(0, i as int)));
    }
    assert(line@.subrange(0, i as int) =~= line@);
    o
}

/// Undoes the escaping of a received line.
pub fn con_get_decode_line(line: &str) -> (r: String)
    ensures
        r@ == unescape(line@),
{
    let mut o = String::new();
    let n = line.unicode_len();
    let mut i: usize = 0;
    assert(o@ + unescape(line@.subrange(0, n as int)) =~= unescape(line@)) by {
        assert(line@.subrange(0, n as int) =~= line@);
    }
    while i < n
        invariant
            i <= n,
            n == line@.len(),
            o@ + unescape(line@.subrange(i as int, n as int)) == unescape(line@),
        decreases n - i,
    {
        let ghost rest = line@.subrange(i as int, n as int);
        let ch = line.get_char(i);
        if ch == '\\' {
            if i + 1 < n {
                let next = line.get_char(i + 1);
                let c = if next == 'n' {
                    '\n'
                } else if next == 'r' {
                    '\r'
                } else {
                    next
                };
                o.push(c);
                proof {
                    assert(rest.subrange(2, rest.len() as int) =~= line@.subrange(i + 2, n as int));
                }
                i += 2;
            } else {
                proof {
                    assert(rest.len() == 1);
                }
                i += 1;
                assert(line@.subrange(i as int, n as int) =~= Seq::<char>::empty());
            }
        } else {
            o.push(ch);
            proof {
                assert(rest.drop_first() =~= line@.subrange(i + 1, n as int));
            }
            i += 1;
        }
        assert(o@ + unescape(line@.subrange(i as int, n as int)) =~= unescape(line@));
    }
    proof {
        assert(line@.subrange(i as int, n as int) =~= Seq::<char>::empty());
        assert(o@ + Seq::<char>::empty() =~= o@);
    }
    o
}

} // verus!

verus! {

broadcast use vstd::string::group_string_axioms;

/// The decimal digit for `d < 10`.
pub open spec fn digit_char(d: nat) -> char {
    if d == 0 {
        '0'
    } else if d == 1 {
        '1'
    } else if d == 2 {
        '2'
    } else if d == 3 {
        '3'
    } else if d == 4 {
        '4'
    } else if d == 5 {
        '5'
    } else if d == 6 {
        '6'
    } else if d == 7 {
        '7'
    } else if d == 8 {
        '8'
    } else {
        '9'
    }
}

fn digit(d: u64) -> (c: char)
    requires
        d < 10,
    ensures
        c == digit_char(d as nat),
{
    if d == 0 {
        '0'
    } else if d == 1 {
        '1'
    } else if d == 2 {
        '2'
    } else if d == 3 {
        '3'
    } else if d == 4 {
        '4'
    } else if d == 5 {
        '5'
    } else if d == 6 {
        '6'
    } else if d == 7 {
        '7'
    } else if d == 8 {
        '8'
    } else {
        '9'
    }
}

/// The decimal notation of `n`, without leading zeros.
pub open spec fn dec_digits(n: nat) -> Seq<char>
    decreases n,
{
    if n < 10 {
        seq![digit_char(n)]
    } else {
        dec_digits(n / 10).push(digit_char(n % 10))
    }
}

/// Appends the decimal notation of `n`.
pub fn push_decimal(out: &mut String, n: u64)
    ensures
        final(out)@ == old(out)@ + dec_digits(n as nat),
    decreases n,
{
    if n >= 10 {
        push_decimal(out, n / 10);
    }
    out.push(digit(n % 10));
    assert(out@ =~= old(out)@ + dec_digits(n as nat));
}

/// Appends every character of `s`.
fn push_all(out: &mut String, s: &str)
    ensures
        final(out)@ == old(out)@ + s@,
{
    let n = s.unicode_len();
    let mut i: usize = 0;
    while i < n
        invariant
            i <= n,
            n == s@.len(),
            out@ == old(out)@ + s@.subrange(0, i as int),
        decreases n - i,
    {
        out.push(s.get_char(i));
        i += 1;
        assert(out@ =~= old(out)@ + s@.subrange(0, i as int));
    }
    assert(s@.subrange(0, i as int) =~= s@);
}

/// The escaped request line for a verb and its argument, two lines in one.
pub open spec fn request_line(verb: Seq<char>, arg: Seq<char>) -> Seq<char> {
    escape(verb + seq!['\n'] + arg)
}

fn request(verb: &str, arg: &str) -> (r: String)
    ensures
        r@ == request_line(verb@, arg@),
{
    let mut s = String::new();
    push_all(&mut s, verb);
    s.push('\n');
    push_all(&mut s, arg);
    assert(s@ =~= verb@ + seq!['\n'] + arg@);
    con_get_encode_string(s.as_str())
}

/// The request line (to be sent with a newline after it) for the bytes of a cover.
pub fn cover_bytes_request(id: u64) -> (r: String)
    ensures
        r@ == request_line("cover-bytes"@, dec_digits(id as nat)),
{
    let mut arg = String::new();
    push_decimal(&mut arg, id);
    request("cover-bytes", arg.as_str())
}

/// The request line (to be sent with a newline after it) for the file of a song.
pub fn song_file_request(id: u64) -> (r: String)
    ensures
        r@ == request_line("song-file"@, dec_digits(id as nat)),
{
    let mut arg = String::new();
    push_decimal(&mut arg, id);
    request("song-file", arg.as_str())
}

/// The request line (to be sent with a newline after it) for a custom file.
pub fn custom_file_request(path: &str) -> (r: String)
    ensures
        r@ == request_line("custom-file"@, path@),
{
    request("custom-file", path)
}

/// The header that precedes `n` payload bytes: `len: <n>` and a newline.
pub fn len_header(n: usize) -> (r: String)
    ensures
        r@ == "len: "@ + dec_digits(n as nat) + seq!['\n'],
{
    let mut s = "len: ".to_string();
    push_decimal(&mut s, n as u64);
    s.push('\n');
    s
}

/// `c` is white space as Unicode defines it.
pub open spec fn is_ws(c: char) -> bool {
    ||| ('\t' <= c && c <= '\r')
    ||| c == ' '
    ||| c == '\u{85}'
    ||| c == '\u{a0}'
    ||| c == '\u{1680}'
    ||| ('\u{2000}' <= c && c <= '\u{200a}')
    ||| c == '\u{2028}'
    ||| c == '\u{2029}'
    ||| c == '\u{202f}'
    ||| c == '\u{205f}'
    ||| c == '\u{3000}'
}

fn is_whitespace(c: char) -> (r: bool)
    ensures
        r == is_ws(c),
{
    ('\t' <= c && c <= '\r') || c == ' ' || c == '\u{85}' || c == '\u{a0}' || c == '\u{1680}' || ('\u{2000}' <= c
        && c <= '\u{200a}') || c == '\u{2028}' || c == '\u{2029}' || c == '\u{202f}' || c == '\u{205f}' || c
        == '\u{3000}'
}

/// Number of white-space characters at the start of `s`.
pub open spec fn lead_ws(s: Seq<char>) -> nat
    decreases s.len(),
{
    if s.len() > 0 && is_ws(s[0]) {
        1 + lead_ws(s.drop_first())
    } else {
        0
    }
}

/// Number of white-space characters at the end of `s`.
pub open spec fn trail_ws(s: Seq<char>) -> nat
    decreases s.len(),
{
    if s.len() > 0 && is_ws(s.last()) {
        1 + trail_ws(s.drop_last())
    } else {
        0
    }
}

/// `s` without white space at either end.
pub open spec fn trim(s: Seq<char>) -> Seq<char> {
    let a = lead_ws(s) as int;
    let rest = s.subrange(a, s.len() as int);
    rest.subrange(0, rest.len() - trail_ws(rest))
}

/// The value of a string of decimal digits.
pub open spec fn digits_value(s: Seq<char>) -> nat
    decreases s.len(),
{
    if s.len() == 0 {
        0
    } else {
        digits_value(s.drop_last()) * 10 + (s.last() as nat - '0' as nat) as nat
    }
}

pub open spec fn all_digits(s: Seq<char>) -> bool {
    forall|i: int| 0 <= i < s.len() ==> '0' <= #[trigger] s[i] && s[i] <= '9'
}

/// The number that `s` writes in decimal, with an optional leading `+`, when it
/// is at most `max`.
pub open spec fn parse_decimal(s: Seq<char>, max: nat) -> Option<nat> {
    let d = if s.len() > 0 && s[0] == '+' { s.drop_first() } else { s };
    if d.len() > 0 && all_digits(d) && digits_value(d) <= max {
        Some(digits_value(d))
    } else {
        None
    }
}

proof fn lemma_digits_value_prefix(s: Seq<char>, i: int)
    requires
        0 <= i < s.len(),
        all_digits(s),
    ensures
        digits_value(s.subrange(0, i + 1)) == digits_value(s.subrange(0, i)) * 10 + (s[i] as nat - '0' as nat),
        digits_value(s.subrange(0, i + 1)) <= digits_value(s),
    decreases s.len() - i,
{
    assert(s.subrange(0, i + 1).drop_last() =~= s.subrange(0, i));
    if i + 1 < s.len() {
        lemma_digits_value_prefix(s, i + 1);
    } else {
        assert(s.subrange(0, i + 1) =~= s);
    }
}

/// Reads the number that `s[from..to]` writes in decimal (optional leading `+`),
/// if it is at most `max`.
fn parse_decimal_range(s: &Vec<char>, from: usize, to: usize, max: u64) -> (r: Option<u64>)
    requires
        from <= to <= s@.len(),
    ensures
        r matches Some(n) ==> parse_decimal(s@.subrange(from as int, to as int), max as nat) == Some(n as nat),
        r is None ==> parse_decimal(s@.subrange(from as int, to as int), max as nat) is None,
{
    let ghost whole = s@.subrange(from as int, to as int);
    let mut start = from;
    if start < to && s[start] == '+' {
        start += 1;
    }
    let ghost d = s@.subrange(start as int, to as int);
    proof {
        if from < to && s@[from as int] == '+' {
            assert(whole.drop_first() =~= d);
        } else {
            assert(whole =~= d);
        }
    }
    if start >= to {
        return None;
    }
    let mut value: u64 = 0;
    let mut i = start;
    while i < to
        invariant
            start <= i <= to <= s@.len(),
            d == s@.subrange(start as int, to as int),
            whole == s@.subrange(from as int, to as int),
            d.len() > 0,
            parse_decimal(whole, max as nat) == (if all_digits(d) && digits_value(d) <= max as nat {
                Some(digits_value(d))
            } else {
                None::<nat>
            }),
            forall|j: int| 0 <= j < i - start ==> '0' <= #[trigger] d[j] && d[j] <= '9',
            value == digits_value(d.subrange(0, i - start)),
            value <= max,
        decreases to - i,
    {
        let c = s[i];
        if c < '0' || c > '9' {
            proof {
                assert(!all_digits(d)) by {
                    assert(d[i - start] == c);
                }
            }
            return None;
        }
        let digit = (c as u32 - '0' as u32) as u64;
        proof {
            assert(d[i - start] == c);
            assert(d.subrange(0, i - start + 1).drop_last() =~= d.subrange(0, i - start));
        }
        let next: u128 = (value as u128) * 10 + (digit as u128);
        if next > max as u128 {
            proof {
                assert(all_digits(d) ==> digits_value(d) > max) by {
                    if all_digits(d) {
                        lemma_digits_value_prefix(d, i - start);
                    }
                };
            }
            return None;
        }
        value = next as u64;
        i += 1;
    }
    proof {
        assert(d.subrange(0, i - start) =~= d);
    }
    Some(value)
}

} // verus!

verus! {

/// The characters of `s`, one by one.
fn chars_of(s: &str) -> (r: Vec<char>)
    ensures
        r@ == s@,
{
    let n = s.unicode_len();
    let mut v: Vec<char> = Vec::new();
    let mut i: usize = 0;
    while i < n
        invariant
            i <= n,
            n == s@.len(),
            v@ == s@.subrange(0, i as int),
        decreases n - i,
    {
        v.push(s.get_char(i));
        i += 1;
        assert(v@ =~= s@.subrange(0, i as int));
    }
    assert(s@.subrange(0, i as int) =~= s@);
    v
}

/// The bounds of `s[from..to]` without white space at either end.
fn trim_range(s: &Vec<char>, from: usize, to: usize) -> (r: (usize, usize))
    requires
        from <= to <= s@.len(),
    ensures
        from <= r.0 <= r.1 <= to,
        s@.subrange(r.0 as int, r.1 as int) == trim(s@.subrange(from as int, to as int)),
{
    let ghost whole = s@.subrange(from as int, to as int);
    let mut a = from;
    while a < to && is_whitespace(s[a])
        invariant
            from <= a <= to <= s@.len(),
            whole == s@.subrange(from as int, to as int),
            lead_ws(whole) == (a - from) + lead_ws(s@.subrange(a as int, to as int)),
        decreases to - a,
    {
        proof {
            assert(s@.subrange(a as int, to as int).drop_first() =~= s@.subrange(a + 1, to as int));
        }
        a += 1;
    }
    proof {
        if a < to {
            assert(s@.subrange(a as int, to as int)[0] == s@[a as int]);
        }
        assert(lead_ws(s@.subrange(a as int, to as int)) == 0);
        assert(whole.subrange(lead_ws(whole) as int, whole.len() as int) =~= s@.subrange(a as int, to as int));
    }
    let ghost rest = s@.subrange(a as int, to as int);
    let mut b = to;
    while b > a && is_whitespace(s[b - 1])
        invariant
            from <= a <= b <= to <= s@.len(),
            rest == s@.subrange(a as int, to as int),
            trail_ws(rest) == (to - b) + trail_ws(s@.subrange(a as int, b as int)),
        decreases b - a,
    {
        proof {
            assert(s@.subrange(a as int, b as int).drop_last() =~= s@.subrange(a as int, b - 1));
        }
        b -= 1;
    }
    proof {
        if b > a {
            assert(s@.subrange(a as int, b as int).last() == s@[b - 1]);
        }
        assert(trail_ws(s@.subrange(a as int, b as int)) == 0);
        assert(rest.subrange(0, rest.len() - trail_ws(rest)) =~= s@.subrange(a as int, b as int));
    }
    (a, b)
}

/// `s` starts with `p`.
pub open spec fn starts_with(s: Seq<char>, p: Seq<char>) -> bool {
    s.len() >= p.len() && s.subrange(0, p.len() as int) == p
}

fn has_prefix(s: &Vec<char>, p: &str) -> (r: bool)
    ensures
        r == starts_with(s@, p@),
{
    let n = p.unicode_len();
    if s.len() < n {
        return false;
    }
    let mut i: usize = 0;
    while i < n
        invariant
            i <= n <= s@.len(),
            n == p@.len(),
            s@.subrange(0, i as int) == p@.subrange(0, i as int),
        decreases n - i,
    {
        if s[i] != p.get_char(i) {
            proof {
                assert(s@.subrange(0, n as int)[i as int] != p@[i as int]);
            }
            return false;
        }
        i += 1;
        assert(s@.subrange(0, i as int) =~= p@.subrange(0, i as int));
    }
    assert(p@.subrange(0, n as int) =~= p@);
    true
}

/// The length a response line announces: `Ok(n)` when the decoded line starts
/// with `len: ` and the rest, from that space on and without white space at
/// either end, is a decimal number that fits a `usize`; else the decoded line as
/// an error.
pub open spec fn len_response(line: Seq<char>) -> Result<nat, Seq<char>> {
    let d = unescape(line);
    if starts_with(d, "len: "@) {
        match parse_decimal(trim(d.subrange(4, d.len() as int)), usize::MAX as nat) {
            Some(n) => Ok(n),
            None => Err(d),
        }
    } else {
        Err(d)
    }
}

/// Reads the response line to a payload request (see `len_response`).
pub fn parse_len_response(line: &str) -> (r: Result<usize, String>)
    ensures
        match r {
            Ok(n) => len_response(line@) == Ok::<nat, Seq<char>>(n as nat),
            Err(e) => len_response(line@) == Err::<nat, Seq<char>>(e@),
        },
{
    let decoded = con_get_decode_line(line);
    let cs = chars_of(decoded.as_str());
    if has_prefix(&cs, "len: ") {
        proof {
            reveal_strlit("len: ");
        }
        let (a, b) = trim_range(&cs, 4, cs.len());
        match parse_decimal_range(&cs, a, b, usize::MAX as u64) {
            Some(n) => Ok(n as usize),
            None => Err(decoded),
        }
    } else {
        Err(decoded)
    }
}

/// A request received on the get channel.
#[derive(Debug)]
pub enum GetRequest {
    /// `cover-bytes` and the cover id, if the second line is one.
    CoverBytes(Option<u64>),
    /// `song-file` and the song id, if the second line is one.
    SongFile(Option<u64>),
    /// `custom-file` and the second line, if there is one.
    CustomFile(Option<String>),
    /// Anything else; it gets no answer.
    Unknown,
}

/// Position of the first newline at or after `from`, or the length.
pub open spec fn line_end(s: Seq<char>, from: int) -> int
    decreases s.len() - from,
{
    if from >= s.len() || from < 0 {
        s.len() as int
    } else if s[from] == '\n' {
        from
    } else {
        line_end(s, from + 1)
    }
}

/// `s` without one carriage return at its end.
pub open spec fn strip_cr(s: Seq<char>) -> Seq<char> {
    if s.len() > 0 && s.last() == '\r' {
        s.drop_last()
    } else {
        s
    }
}

/// The first line of `s`.
pub open spec fn first_line(s: Seq<char>) -> Seq<char> {
    strip_cr(s.subrange(0, line_end(s, 0)))
}

/// The second line of `s`, if there is one.
pub open spec fn second_line(s: Seq<char>) -> Option<Seq<char>> {
    let e = line_end(s, 0);
    if e + 1 < s.len() {
        Some(strip_cr(s.subrange(e + 1, line_end(s, e + 1))))
    } else {
        None
    }
}

pub open spec fn id_arg(arg: Option<Seq<char>>) -> Option<u64> {
    match arg {
        Some(a) => match parse_decimal(a, u64::MAX as nat) {
            Some(n) => Some(n as u64),
            None => None,
        },
        None => None,
    }
}

/// The request that a received line (still escaped) holds: its first line names
/// the verb and its second line the argument.
pub open spec fn request_of(line: Seq<char>) -> (Seq<char>, Option<Seq<char>>) {
    let d = unescape(line);
    (first_line(d), second_line(d))
}

fn find_line_end(s: &Vec<char>, from: usize) -> (r: usize)
    requires
        from <= s@.len(),
    ensures
        r == line_end(s@, from as int),
        from <= r <= s@.len(),
{
    let mut i = from;
    while i < s.len() && s[i] != '\n'
        invariant
            from <= i <= s@.len(),
            line_end(s@, from as int) == line_end(s@, i as int),
        decreases s.len() - i,
    {
        i += 1;
    }
    i
}

/// The bounds of `s[from..to]` without one carriage return at its end.
fn strip_cr_range(s: &Vec<char>, from: usize, to: usize) -> (r: usize)
    requires
        from <= to <= s@.len(),
    ensures
        from <= r <= to,
        s@.subrange(from as int, r as int) == strip_cr(s@.subrange(from as int, to as int)),
{
    if to > from && s[to - 1] == '\r' {
        assert(s@.subrange(from as int, to as int).drop_last() =~= s@.subrange(from as int, to - 1));
        to - 1
    } else {
        to
    }
}

fn string_of(s: &Vec<char>, from: usize, to: usize) -> (r: String)
    requires
        from <= to <= s@.len(),
    ensures
        r@ == s@.subrange(from as int, to as int),
{
    let mut out = String::new();
    let mut i = from;
    while i < to
        invariant
            from <= i <= to <= s@.len(),
            out@ == s@.subrange(from as int, i as int),
        decreases to - i,
    {
        out.push(s[i]);
        i += 1;
        assert(out@ =~= s@.subrange(from as int, i as int));
    }
    out
}

fn equals_range(s: &Vec<char>, from: usize, to: usize, p: &str) -> (r: bool)
    requires
        from <= to <= s@.len(),
    ensures
        r == (s@.subrange(from as int, to as int) == p@),
{
    let n = p.unicode_len();
    if to - from != n {
        return false;
    }
    let mut i: usize = 0;
    while i < n
        invariant
            i <= n,
            n == p@.len(),
            from + n == to <= s@.len(),
            s@.subrange(from as int, from + i) == p@.subrange(0, i as int),
        decreases n - i,
    {
        if s[from + i] != p.get_char(i) {
            proof {
                assert(s@.subrange(from as int, to as int)[i as int] != p@[i as int]);
            }
            return false;
        }
        i += 1;
        assert(s@.subrange(from as int, from + i) =~= p@.subrange(0, i as int));
    }
    assert(p@.subrange(0, n as int) =~= p@);
    true
}

/// Reads a request line received on the get channel (see `request_of`).
pub fn parse_get_request(line: &str) -> (r: GetRequest)
    ensures
        ({
            let (verb, arg) = request_of(line@);
            match r {
                GetRequest::CoverBytes(id) => verb == "cover-bytes"@ && id == id_arg(arg),
                GetRequest::SongFile(id) => verb == "song-file"@ && id == id_arg(arg),
                GetRequest::CustomFile(p) => verb == "custom-file"@ && match p {
                    Some(x) => arg == Some(x@),
                    None => arg is None,
                },
                GetRequest::Unknown => verb != "cover-bytes"@ && verb != "song-file"@ && verb != "custom-file"@,
            }
        }),
{
    let decoded = con_get_decode_line(line);
    let cs = chars_of(decoded.as_str());
    let e = find_line_end(&cs, 0);
    let v_end = strip_cr_range(&cs, 0, e);
    let has_arg = e < cs.len() && e + 1 < cs.len();
    let (a0, a1) = if has_arg {
        let e2 = find_line_end(&cs, e + 1);
        (e + 1, strip_cr_range(&cs, e + 1, e2))
    } else {
        (0, 0)
    };
    if equals_range(&cs, 0, v_end, "cover-bytes") {
        GetRequest::CoverBytes(if has_arg { parse_decimal_range(&cs, a0, a1, u64::MAX) } else { None })
    } else if equals_range(&cs, 0, v_end, "song-file") {
        GetRequest::SongFile(if has_arg { parse_decimal_range(&cs, a0, a1, u64::MAX) } else { None })
    } else if equals_range(&cs, 0, v_end, "custom-file") {
        GetRequest::CustomFile(if has_arg { Some(string_of(&cs, a0, a1)) } else { None })
    } else {
        GetRequest::Unknown
    }
}

/// A `..` component starts at position `i` of `path`.
pub open spec fn parent_at(path: Seq<char>, i: int) -> bool {
    &&& 0 <= i
    &&& i + 1 < path.len()
    &&& (i == 0 || path[i - 1] == '/')
    &&& path[i] == '.'
    &&& path[i + 1] == '.'
    &&& (i + 2 == path.len() || path[i + 2] == '/')
}

/// `path` leaves the directory it is relative to: it is absolute or has a `..`
/// component.
pub open spec fn escapes_root(path: Seq<char>) -> bool {
    ||| (path.len() > 0 && path[0] == '/')
    ||| exists|i: int| #[trigger] parent_at(path, i)
}

/// Whether a custom-file path stays inside the custom-files directory.
pub fn path_stays_inside(path: &str) -> (r: bool)
    ensures
        r == !escapes_root(path@),
{
    let cs = chars_of(path);
    let n = cs.len();
    if n > 0 && cs[0] == '/' {
        return false;
    }
    let mut i: usize = 0;
    while i < n
        invariant
            i <= n,
            n == path@.len(),
            cs@ == path@,
            !(n > 0 && path@[0] == '/'),
            forall|j: int| 0 <= j < i ==> !#[trigger] parent_at(path@, j),
        decreases n - i,
    {
        if i + 1 < n && (i == 0 || cs[i - 1] == '/') && cs[i] == '.' && cs[i + 1] == '.' && (i + 2 == n || cs[i + 2]
            == '/') {
            assert(parent_at(path@, i as int));
            return false;
        }
        i += 1;
    }
    assert forall|j: int| !#[trigger] parent_at(path@, j) by {
        if 0 <= j < i {
        }
    }
    true
}

} // verus!
