//! The character-level ground that every ledger line stands on: what counts
//! as whitespace, how a line falls apart into tokens, and how unsigned numbers
//! are written and read in radix 10 and 16.
use vstd::prelude::*;

verus! {

/// The characters that separate tokens: the Unicode `White_Space` set.
pub open spec fn is_space(c: char) -> bool {
    ||| ('\u{9}' <= c && c <= '\u{d}')
    ||| c == ' '
    ||| c == '\u{85}'
    ||| c == '\u{a0}'
    ||| c == '\u{1680}'
    ||| ('\u{2000}' <= c && c <= '\u{200a}')
    ||| c == '\u{2028}'
    ||| c == '\u{2029}'
    ||| c == '\u{202f}'
    ||| c == '\u{205f}'
    ||| c == '\u{3000}'
}

pub fn is_whitespace(c: char) -> (b: bool)
    ensures
        b == is_space(c),
{
    ('\u{9}' <= c && c <= '\u{d}') || c == ' ' || c == '\u{85}' || c == '\u{a0}' || c
        == '\u{1680}' || ('\u{2000}' <= c && c <= '\u{200a}') || c == '\u{2028}' || c
        == '\u{2029}' || c == '\u{202f}' || c == '\u{205f}' || c == '\u{3000}'
}

/// A word is a non-empty run of characters none of which is whitespace.
pub open spec fn is_word(w: Seq<char>) -> bool {
    &&& w.len() > 0
    &&& forall|i: int| 0 <= i < w.len() ==> !is_space(#[trigger] w[i])
}

/// The maximal whitespace-free runs of `s`, in order.
pub open spec fn tokens(s: Seq<char>) -> Seq<Seq<char>>
    decreases s.len(),
{
    if s.len() == 0 {
        Seq::empty()
    } else if is_space(s.last()) {
        tokens(s.drop_last())
    } else if s.len() > 1 && !is_space(s[s.len() - 2]) && tokens(s.drop_last()).len() > 0 {
        let before = tokens(s.drop_last());
        before.drop_last().push(before.last().push(s.last()))
    } else {
        tokens(s.drop_last()).push(seq![s.last()])
    }
}

/// The words of `ws` with one blank between neighbours.
pub open spec fn join(ws: Seq<Seq<char>>) -> Seq<char>
    decreases ws.len(),
{
    if ws.len() == 0 {
        Seq::empty()
    } else if ws.len() == 1 {
        ws[0]
    } else {
        join(ws.drop_last()).push(' ') + ws.last()
    }
}

/// One ledger line: the fields, blank-separated, closed by a line feed.
pub open spec fn line_of(ws: Seq<Seq<char>>) -> Seq<char> {
    join(ws).push('\n')
}

/// Every one of `ws` is a word.
pub open spec fn all_words(ws: Seq<Seq<char>>) -> bool {
    forall|i: int| 0 <= i < ws.len() ==> is_word(#[trigger] ws[i])
}

/// Appending a word after a blank (or at the very start) adds exactly that token.
pub proof fn lemma_tokens_append_word(s: Seq<char>, w: Seq<char>)
    requires
        s.len() == 0 || is_space(s.last()),
        is_word(w),
    ensures
        tokens(s + w) == tokens(s).push(w),
    decreases w.len(),
{
    let full = s + w;
    let init = w.drop_last();
    assert(full.drop_last() == s + init);
    assert(full.last() == w.last());
    if init.len() == 0 {
        assert(s + init == s);
        assert(seq![w.last()] == w);
        if s.len() > 0 {
            assert(full[full.len() - 2] == s.last());
        }
    } else {
        assert(is_word(init));
        lemma_tokens_append_word(s, init);
        assert(full[full.len() - 2] == init.last());
        let before = tokens(s + init);
        assert(before == tokens(s).push(init));
        assert(before.drop_last() == tokens(s));
        assert(init.push(w.last()) == w);
    }
}

pub proof fn lemma_tokens_push_space(s: Seq<char>, c: char)
    requires
        is_space(c),
    ensures
        tokens(s.push(c)) == tokens(s),
{
    assert(s.push(c).drop_last() == s);
}

pub proof fn lemma_join_push(ws: Seq<Seq<char>>, w: Seq<char>)
    requires
        ws.len() > 0,
    ensures
        join(ws.push(w)) == join(ws).push(' ') + w,
{
    assert(ws.push(w).drop_last() == ws);
}

/// `join` written out for the line shapes that the ledgers use.
pub proof fn lemma_join_unfold(a: Seq<char>, b: Seq<char>, c: Seq<char>, d: Seq<char>)
    ensures
        join(seq![a]) == a,
        join(seq![a, b]) == a.push(' ') + b,
        join(seq![a, b, c]) == (a.push(' ') + b).push(' ') + c,
        join(seq![a, b, c, d]) == ((a.push(' ') + b).push(' ') + c).push(' ') + d,
{
    assert(seq![a].push(b) == seq![a, b]);
    assert(seq![a, b].push(c) == seq![a, b, c]);
    assert(seq![a, b, c].push(d) == seq![a, b, c, d]);
    lemma_join_push(seq![a], b);
    lemma_join_push(seq![a, b], c);
    lemma_join_push(seq![a, b, c], d);
}

/// A line built piece by piece, as a writer does, is the line of its fields.
pub proof fn lemma_line_shape(base: Seq<char>, tag: char, a: Seq<char>, b: Seq<char>, c: Seq<char>)
    ensures
        (base.push(tag).push(' ') + a).push('\n') == base + line_of(seq![seq![tag], a]),
        ((base.push(tag).push(' ') + a).push(' ') + b).push('\n') == base + line_of(
            seq![seq![tag], a, b],
        ),
        (((base.push(tag).push(' ') + a).push(' ') + b).push(' ') + c).push('\n') == base
            + line_of(seq![seq![tag], a, b, c]),
{
    lemma_join_unfold(seq![tag], a, b, c);
}

/// Splitting what `join` put together gives the words back.
pub proof fn lemma_tokens_join(ws: Seq<Seq<char>>)
    requires
        all_words(ws),
    ensures
        tokens(join(ws)) == ws,
        ws.len() > 0 ==> join(ws).len() > 0 && !is_space(join(ws).last()),
    decreases ws.len(),
{
    if ws.len() == 0 {
    } else if ws.len() == 1 {
        assert(is_word(ws[0]));
        lemma_tokens_append_word(Seq::empty(), ws[0]);
        assert(Seq::<char>::empty() + ws[0] == ws[0]);
        assert(Seq::<Seq<char>>::empty().push(ws[0]) == ws);
    } else {
        let init = ws.drop_last();
        assert(all_words(init)) by {
            assert forall|i: int| 0 <= i < init.len() implies is_word(#[trigger] init[i]) by {
                assert(init[i] == ws[i]);
            }
        }
        lemma_tokens_join(init);
        let head = join(init).push(' ');
        lemma_tokens_push_space(join(init), ' ');
        assert(is_word(ws.last()));
        lemma_tokens_append_word(head, ws.last());
        assert(init.push(ws.last()) == ws);
        assert((head + ws.last()).last() == ws.last().last());
    }
}

/// Reading a written line: the tokens of `line_of(ws)` are `ws`.
pub proof fn lemma_tokens_line(ws: Seq<Seq<char>>)
    requires
        all_words(ws),
    ensures
        tokens(line_of(ws)) == ws,
{
    lemma_tokens_join(ws);
    lemma_tokens_push_space(join(ws), '\n');
}

/// The length of the first line of `s`, its line feed included; all of `s`
/// where it holds no line feed.
pub open spec fn line_len(s: Seq<char>) -> nat
    decreases s.len(),
{
    if s.len() == 0 {
        0
    } else if s[0] == '\n' {
        1
    } else {
        1 + line_len(s.drop_first())
    }
}

pub proof fn lemma_line_len_bounds(s: Seq<char>)
    ensures
        line_len(s) <= s.len(),
        s.len() > 0 ==> line_len(s) >= 1,
    decreases s.len(),
{
    if s.len() > 0 && s[0] != '\n' {
        lemma_line_len_bounds(s.drop_first());
    }
}

/// A text without a line feed, closed by one, is exactly one line, whatever follows.
pub proof fn lemma_line_len_closed(body: Seq<char>, rest: Seq<char>)
    requires
        forall|i: int| 0 <= i < body.len() ==> body[i] != '\n',
    ensures
        line_len(body.push('\n') + rest) == body.len() + 1,
    decreases body.len(),
{
    let s = body.push('\n') + rest;
    if body.len() == 0 {
        assert(s[0] == '\n');
    } else {
        assert(s[0] == body[0]);
        assert(s.drop_first() == body.drop_first().push('\n') + rest);
        lemma_line_len_closed(body.drop_first(), rest);
    }
}

/// Words joined by blanks hold no line feed.
pub proof fn lemma_join_one_line(ws: Seq<Seq<char>>)
    requires
        all_words(ws),
    ensures
        forall|i: int| 0 <= i < join(ws).len() ==> join(ws)[i] != '\n',
    decreases ws.len(),
{
    if ws.len() == 1 {
        assert(is_word(ws[0]));
    } else if ws.len() > 1 {
        let init = ws.drop_last();
        assert(all_words(init)) by {
            assert forall|i: int| 0 <= i < init.len() implies is_word(#[trigger] init[i]) by {
                assert(init[i] == ws[i]);
            }
        }
        lemma_join_one_line(init);
        assert(is_word(ws.last()));
        let head = join(init).push(' ');
        assert forall|i: int| 0 <= i < join(ws).len() implies join(ws)[i] != '\n' by {
            if i < join(init).len() {
                assert(join(ws)[i] == join(init)[i]);
            } else if i == join(init).len() {
                assert(join(ws)[i] == ' ');
            } else {
                assert(join(ws)[i] == ws.last()[i - head.len()]);
            }
        }
    }
}

/// Where the first line of `s[from..]` ends.
pub fn line_end(s: &Vec<char>, from: usize) -> (end: usize)
    requires
        from <= s.len(),
    ensures
        end == from + line_len(s@.skip(from as int)),
        from <= end <= s.len(),
{
    let mut i: usize = from;
    while i < s.len()
        invariant
            from <= i <= s.len(),
            line_len(s@.skip(from as int)) == (i - from) + line_len(s@.skip(i as int)),
        decreases s.len() - i,
    {
        proof {
            assert(s@.skip(i as int)[0] == s@[i as int]);
            assert(s@.skip(i as int).drop_first() == s@.skip(i + 1));
        }
        if s[i] == '\n' {
            return i + 1;
        }
        i += 1;
    }
    i
}

/// A copy of `s[from..to]`.
pub fn copy_range(s: &Vec<char>, from: usize, to: usize) -> (out: Vec<char>)
    requires
        from <= to <= s.len(),
    ensures
        out@ == s@.subrange(from as int, to as int),
{
    let mut out: Vec<char> = Vec::new();
    let mut i: usize = from;
    while i < to
        invariant
            from <= i <= to <= s.len(),
            out@ == s@.subrange(from as int, i as int),
        decreases to - i,
    {
        out.push(s[i]);
        proof {
            assert(s@.subrange(from as int, i as int).push(s@[i as int]) == s@.subrange(
                from as int,
                i + 1,
            ));
        }
        i += 1;
    }
    out
}

/// The tokens that a vector of character vectors holds.
pub open spec fn views(v: Seq<Vec<char>>) -> Seq<Seq<char>> {
    v.map_values(|t: Vec<char>| t@)
}

/// Splits `s` at whitespace, dropping the empty pieces.
pub fn split_whitespace(s: &Vec<char>) -> (out: Vec<Vec<char>>)
    ensures
        views(out@) == tokens(s@),
{
    let mut out: Vec<Vec<char>> = Vec::new();
    let mut current: Vec<char> = Vec::new();
    let mut i: usize = 0;
    proof {
        assert(s@.take(0) == Seq::<char>::empty());
        assert(views(out@) == Seq::<Seq<char>>::empty());
    }
    while i < s.len()
        invariant
            i <= s.len(),
            current@.len() > 0 <==> (i > 0 && !is_space(s@[i - 1])),
            tokens(s@.take(i as int)) == if current@.len() > 0 {
                views(out@).push(current@)
            } else {
                views(out@)
            },
        decreases s.len() - i,
    {
        let c = s[i];
        proof {
            let prev = s@.take(i as int);
            let next = s@.take(i + 1);
            assert(next.drop_last() == prev);
            assert(next.last() == c);
            if i > 0 {
                assert(next[next.len() - 2] == s@[i - 1]);
            }
            if !is_space(c) && current@.len() > 0 {
                let before = tokens(prev);
                assert(before.drop_last() == views(out@));
                assert(before.last() == current@);
            }
        }
        if is_whitespace(c) {
            if current.len() > 0 {
                let ghost old_out = out@;
                let ghost word = current@;
                out.push(current);
                current = Vec::new();
                proof {
                    assert(views(out@) == views(old_out).push(word));
                    assert(tokens(s@.take(i + 1)) == views(out@));
                }
            } else {
                assert(tokens(s@.take(i + 1)) == views(out@));
            }
        } else {
            let ghost word = current@;
            current.push(c);
            proof {
                if word.len() > 0 {
                    assert(tokens(s@.take(i + 1)) == views(out@).push(word.push(c)));
                } else {
                    assert(word.push(c) == seq![c]);
                    assert(tokens(s@.take(i + 1)) == views(out@).push(seq![c]));
                }
            }
        }
        i += 1;
    }
    proof {
        assert(s@.take(s.len() as int) == s@);
    }
    if current.len() > 0 {
        let ghost old_out = out@;
        out.push(current);
        proof {
            assert(views(out@) == views(old_out).push(current@));
        }
    }
    out
}

/// The value of a hexadecimal digit, upper or lower case.
pub open spec fn hex_value(c: char) -> Option<nat> {
    if '0' <= c && c <= '9' {
        Some((c as int - 0x30) as nat)
    } else if 'a' <= c && c <= 'f' {
        Some((c as int - 0x61 + 10) as nat)
    } else if 'A' <= c && c <= 'F' {
        Some((c as int - 0x41 + 10) as nat)
    } else {
        None
    }
}

/// The value of `c` as a digit in `radix`, if it is one.
pub open spec fn digit_of(c: char, radix: nat) -> Option<nat> {
    match hex_value(c) {
        Some(v) => if v < radix {
            Some(v)
        } else {
            None
        },
        None => None,
    }
}

/// The number that a run of digits denotes; `None` if one of them is no digit.
pub open spec fn digits_value(s: Seq<char>, radix: nat) -> Option<nat>
    decreases s.len(),
{
    if s.len() == 0 {
        Some(0)
    } else {
        match (digits_value(s.drop_last(), radix), digit_of(s.last(), radix)) {
            (Some(high), Some(d)) => Some(high * radix + d),
            _ => None,
        }
    }
}

/// What a token reads as: an optional `+`, then at least one digit, and a
/// value of at most `max`.
pub open spec fn uint_of(s: Seq<char>, radix: nat, max: nat) -> Option<nat> {
    let body = if s.len() > 0 && s[0] == '+' {
        s.drop_first()
    } else {
        s
    };
    if body.len() == 0 {
        None
    } else {
        match digits_value(body, radix) {
            Some(v) => if v <= max {
                Some(v)
            } else {
                None
            },
            None => None,
        }
    }
}

/// The digit `d < 16` as a character, lower case.
pub open spec fn digit_char(d: nat) -> char {
    if d < 10 {
        (0x30 + d) as char
    } else {
        (0x61 + d - 10) as char
    }
}

/// The shortest digit string of `n` in `radix`.
pub open spec fn digits_of(n: nat, radix: nat) -> Seq<char>
    decreases n,
{
    if radix < 2 || n < radix {
        seq![digit_char(n)]
    } else {
        proof {
            assert(n / radix < n) by (nonlinear_arith)
                requires
                    radix >= 2,
                    n >= radix,
            ;
        }
        digits_of(n / radix, radix).push(digit_char(n % radix))
    }
}

/// The two radices that the ledgers use.
pub open spec fn is_radix(radix: nat) -> bool {
    radix == 10 || radix == 16
}

pub proof fn lemma_digits_prefix(s: Seq<char>, radix: nat, k: int)
    requires
        0 <= k <= s.len(),
        digits_value(s, radix) is Some,
    ensures
        digits_value(s.take(k), radix) is Some,
        digits_value(s.take(k), radix)->0 <= digits_value(s, radix)->0,
    decreases s.len() - k,
{
    if k == s.len() {
        assert(s.take(k) == s);
    } else {
        lemma_digits_prefix(s.drop_last(), radix, k);
        assert(s.drop_last().take(k) == s.take(k));
        let high = digits_value(s.drop_last(), radix)->0;
        assert(high <= high * radix + digit_of(s.last(), radix)->0) by (nonlinear_arith)
            requires
                radix >= 1 || high * radix >= 0,
                digit_of(s.last(), radix)->0 >= 0,
                radix > digit_of(s.last(), radix)->0,
        ;
    }
}

/// Written digits are a word that reads back as the number they were written from.
pub proof fn lemma_digits_roundtrip(n: nat, radix: nat)
    requires
        is_radix(radix),
    ensures
        digits_value(digits_of(n, radix), radix) == Some(n),
        is_word(digits_of(n, radix)),
        digits_of(n, radix)[0] != '+',
    decreases n,
{
    let s = digits_of(n, radix);
    if n < radix {
        assert(s.drop_last() == Seq::<char>::empty());
        assert(hex_value(digit_char(n)) == Some(n));
        assert(digits_value(s.drop_last(), radix) == Some(0nat));
        assert(0 * radix + n == n);
    } else {
        lemma_digits_roundtrip(n / radix, radix);
        let high = digits_of(n / radix, radix);
        assert(s.drop_last() == high);
        assert(hex_value(digit_char(n % radix)) == Some(n % radix));
        assert((n / radix) * radix + n % radix == n) by (nonlinear_arith)
            requires
                radix > 0,
        ;
        assert(s[0] == high[0]);
        assert forall|i: int| 0 <= i < s.len() implies !is_space(#[trigger] s[i]) by {
            if i < high.len() {
                assert(s[i] == high[i]);
            }
        }
    }
}

pub proof fn lemma_uint_roundtrip(n: nat, radix: nat, max: nat)
    requires
        is_radix(radix),
        n <= max,
    ensures
        uint_of(digits_of(n, radix), radix, max) == Some(n),
        is_word(digits_of(n, radix)),
{
    lemma_digits_roundtrip(n, radix);
}

pub fn hex_digit(c: char) -> (r: Option<u8>)
    ensures
        match hex_value(c) {
            Some(v) => r == Some(v as u8) && v < 16,
            None => r is None,
        },
{
    if '0' <= c && c <= '9' {
        Some((c as u32 - 0x30) as u8)
    } else if 'a' <= c && c <= 'f' {
        Some((c as u32 - 0x61 + 10) as u8)
    } else if 'A' <= c && c <= 'F' {
        Some((c as u32 - 0x41 + 10) as u8)
    } else {
        None
    }
}

pub fn digit_to_char(d: u8) -> (c: char)
    requires
        d < 16,
    ensures
        c == digit_char(d as nat),
{
    if d < 10 {
        (0x30 + d) as char
    } else {
        (0x61 + d - 10) as char
    }
}

/// Reads `s` as an unsigned number in `radix`, refusing what is above `max`.
pub fn parse_uint(s: &Vec<char>, radix: u128, max: u128) -> (r: Option<u128>)
    requires
        is_radix(radix as nat),
    ensures
        match uint_of(s@, radix as nat, max as nat) {
            Some(v) => r == Some(v as u128),
            None => r is None,
        },
{
    let start: usize = if s.len() > 0 && s[0] == '+' {
        1
    } else {
        0
    };
    if start == s.len() {
        return None;
    }
    let ghost body = s@.skip(start as int);
    proof {
        if start == 1 {
            assert(body == s@.drop_first());
        } else {
            assert(body == s@);
        }
        assert(body.take(0) == Seq::<char>::empty());
    }
    let mut acc: u128 = 0;
    let mut i: usize = start;
    while i < s.len()
        invariant
            start <= i <= s.len(),
            is_radix(radix as nat),
            body == if s@.len() > 0 && s@[0] == '+' {
                s@.drop_first()
            } else {
                s@
            },
            body.len() == s@.len() - start,
            body.len() > 0,
            forall|j: int| 0 <= j < body.len() ==> body[j] == s@[j + start],
            digits_value(body.take(i - start), radix as nat) == Some(acc as nat),
            acc <= max,
        decreases s.len() - i,
    {
        let ghost k = i - start;
        proof {
            assert(body.take(k + 1).drop_last() == body.take(k));
            assert(body.take(k + 1).last() == s@[i as int]);
        }
        let digit = hex_digit(s[i]);
        let next = match digit {
            Some(d) => if (d as u128) < radix {
                match acc.checked_mul(radix) {
                    Some(shifted) => match shifted.checked_add(d as u128) {
                        Some(total) => if total <= max {
                            Some(total)
                        } else {
                            None
                        },
                        None => None,
                    },
                    None => None,
                }
            } else {
                None
            },
            None => None,
        };
        match next {
            Some(total) => {
                acc = total;
            },
            None => {
                proof {
                    let head = digits_value(body.take(k + 1), radix as nat);
                    assert(head == match digit_of(s@[i as int], radix as nat) {
                        Some(d) => Some((acc as nat) * (radix as nat) + d),
                        None => None,
                    });
                    assert(head matches Some(v) ==> v > max);
                    if digits_value(body, radix as nat) is Some {
                        lemma_digits_prefix(body, radix as nat, k + 1);
                    }
                }
                return None;
            },
        }
        i += 1;
    }
    proof {
        assert(body.take(i - start) == body);
    }
    Some(acc)
}

/// Appends the digits of `n` in `radix` to `out`.
pub fn push_uint(out: &mut String, n: u128, radix: u128)
    requires
        is_radix(radix as nat),
    ensures
        final(out)@ == old(out)@ + digits_of(n as nat, radix as nat),
    decreases n,
{
    if n >= radix {
        push_uint(out, n / radix, radix);
    }
    let d = (n % radix) as u8;
    out.push(digit_to_char(d));
    proof {
        if n < radix {
            assert(old(out)@.push(digit_char(n as nat)) == old(out)@ + seq![digit_char(n as nat)]);
        } else {
            let high = digits_of((n / radix) as nat, radix as nat);
            assert((old(out)@ + high).push(digit_char((n % radix) as nat)) == old(out)@
                + high.push(digit_char((n % radix) as nat)));
        }
    }
}

/// Appends the characters of `text` to `out`.
pub fn push_chars(out: &mut String, text: &Vec<char>)
    ensures
        final(out)@ == old(out)@ + text@,
{
    let mut i: usize = 0;
    proof {
        assert(old(out)@ + text@.take(0) == old(out)@);
    }
    while i < text.len()
        invariant
            i <= text.len(),
            out@ == old(out)@ + text@.take(i as int),
        decreases text.len() - i,
    {
        out.push(text[i]);
        proof {
            assert(text@.take(i + 1) == text@.take(i as int).push(text@[i as int]));
            assert((old(out)@ + text@.take(i as int)).push(text@[i as int]) == old(out)@
                + text@.take(i + 1));
        }
        i += 1;
    }
    proof {
        assert(text@.take(text.len() as int) == text@);
    }
}

/// The characters of `s`, one by one.
pub fn to_chars(s: &str) -> (r: Vec<char>)
    ensures
        r@ == s@,
{
    let mut out: Vec<char> = Vec::new();
    for c in it: s.chars()
        invariant
            out@ == it.seq().take(it.index() as int),
            it.seq() == s@,
    {
        out.push(c);
    }
    out
}

/// The string made of the characters of `v`.
pub fn from_chars(v: &Vec<char>) -> (r: String)
    ensures
        r@ == v@,
{
    let mut out = String::new();
    push_chars(&mut out, v);
    out
}

pub assume_specification[ std::string::String::push ](s: &mut String, c: char)
    ensures
        final(s)@ == old(s)@.push(c),
;

} // verus!
