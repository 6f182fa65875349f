//! Building blocks for the JSON text that the exclusion store persists:
//! decimal numbers and escaped string literals, each with an exact
//! character-level specification.

use vstd::prelude::*;

verus! {

/// The decimal digit character for `n` (which must be below ten).
pub open spec fn dec_digit(n: nat) -> char {
    if n == 0 {
        '0'
    } else if n == 1 {
        '1'
    } else if n == 2 {
        '2'
    } else if n == 3 {
        '3'
    } else if n == 4 {
        '4'
    } else if n == 5 {
        '5'
    } else if n == 6 {
        '6'
    } else if n == 7 {
        '7'
    } else if n == 8 {
        '8'
    } else {
        '9'
    }
}

/// The lower-case hexadecimal digit character for `n` (below sixteen).
pub open spec fn hex_digit(n: nat) -> char {
    if n < 10 {
        dec_digit(n)
    } else if n == 10 {
        'a'
    } else if n == 11 {
        'b'
    } else if n == 12 {
        'c'
    } else if n == 13 {
        'd'
    } else if n == 14 {
        'e'
    } else {
        'f'
    }
}

/// The decimal rendering of `n`, most significant digit first, with no
/// leading zeros (`0` renders as the single digit `0`).
pub open spec fn dec_seq(n: nat) -> Seq<char>
    decreases n,
{
    if n < 10 {
        seq![dec_digit(n)]
    } else {
        dec_seq(n / 10).push(dec_digit(n % 10))
    }
}

/// How one character appears inside a JSON string literal: quote and
/// backslash get a backslash escape, control characters the `\u00XX`
/// form, and everything else stands for itself.
pub open spec fn escape_char(c: char) -> Seq<char> {
    if c == '"' {
        seq!['\\', '"']
    } else if c == '\\' {
        seq!['\\', '\\']
    } else if (c as u32) < 32 {
        seq!['\\', 'u', '0', '0', hex_digit((c as u32 / 16) as nat), hex_digit(
            (c as u32 % 16) as nat,
        )]
    } else {
        seq![c]
    }
}

/// The body of a JSON string literal for `s`: each character escaped,
/// in order.
pub open spec fn escape_seq(s: Seq<char>) -> Seq<char>
    decreases s.len(),
{
    if s.len() == 0 {
        Seq::empty()
    } else {
        escape_seq(s.drop_last()) + escape_char(s.last())
    }
}

/// A complete JSON string literal: the escaped body between quotes.
pub open spec fn quoted(s: Seq<char>) -> Seq<char> {
    seq!['"'] + escape_seq(s) + seq!['"']
}

/// Relies on std's `String::push`: appends exactly the one character.
#[verifier::external_body]
pub(crate) fn push_char(out: &mut String, c: char)
    ensures
        final(out)@ == old(out)@ + seq![c],
{
    out.push(c);
}

/// Appends the decimal digit character for `n < 10`.
fn push_dec_digit(out: &mut String, n: u64)
    requires
        n < 10,
    ensures
        final(out)@ == old(out)@ + seq![dec_digit(n as nat)],
{
    let c: char = if n == 0 {
        '0'
    } else if n == 1 {
        '1'
    } else if n == 2 {
        '2'
    } else if n == 3 {
        '3'
    } else if n == 4 {
        '4'
    } else if n == 5 {
        '5'
    } else if n == 6 {
        '6'
    } else if n == 7 {
        '7'
    } else if n == 8 {
        '8'
    } else {
        '9'
    };
    push_char(out, c);
}

/// Appends the lower-case hexadecimal digit character for `n < 16`.
fn push_hex_digit(out: &mut String, n: u32)
    requires
        n < 16,
    ensures
        final(out)@ == old(out)@ + seq![hex_digit(n as nat)],
{
    if n < 10 {
        push_dec_digit(out, n as u64);
    } else {
        let c: char = if n == 10 {
            'a'
        } else if n == 11 {
            'b'
        } else if n == 12 {
            'c'
        } else if n == 13 {
            'd'
        } else if n == 14 {
            'e'
        } else {
            'f'
        };
        push_char(out, c);
    }
}

/// Appends the decimal rendering of `n`.
pub(crate) fn push_u64(out: &mut String, n: u64)
    ensures
        final(out)@ == old(out)@ + dec_seq(n as nat),
    decreases n,
{
    if n < 10 {
        push_dec_digit(out, n);
    } else {
        push_u64(out, n / 10);
        push_dec_digit(out, n % 10);
        assert(old(out)@ + dec_seq((n / 10) as nat) + seq![dec_digit((n % 10) as nat)] =~= old(
            out,
        )@ + dec_seq(n as nat));
    }
}

/// Appends the escape of the one character `c`.
fn push_escaped_char(out: &mut String, c: char)
    ensures
        final(out)@ == old(out)@ + escape_char(c),
{
    if c == '"' {
        push_char(out, '\\');
        push_char(out, '"');
        assert(final(out)@ =~= old(out)@ + escape_char(c));
    } else if c == '\\' {
        push_char(out, '\\');
        push_char(out, '\\');
        assert(final(out)@ =~= old(out)@ + escape_char(c));
    } else if (c as u32) < 32 {
        let code = c as u32;
        push_char(out, '\\');
        push_char(out, 'u');
        push_char(out, '0');
        push_char(out, '0');
        push_hex_digit(out, code / 16);
        push_hex_digit(out, code % 16);
        assert(final(out)@ =~= old(out)@ + escape_char(c));
    } else {
        push_char(out, c);
        assert(final(out)@ =~= old(out)@ + escape_char(c));
    }
}

/// Appends a complete JSON string literal for `text`.
pub(crate) fn push_quoted(out: &mut String, text: &String)
    ensures
        final(out)@ == old(out)@ + quoted(text@),
{
    push_char(out, '"');
    let n = text.as_str().unicode_len();
    let mut i: usize = 0;
    while i < n
        invariant
            n == text@.len(),
            0 <= i <= n,
            out@ == old(out)@ + seq!['"'] + escape_seq(text@.take(i as int)),
        decreases n - i,
    {
        let c = text.as_str().get_char(i);
        push_escaped_char(out, c);
        proof {
            assert(text@.take(i + 1 as int).drop_last() =~= text@.take(i as int));
            assert(text@.take(i + 1 as int).last() == text@[i as int]);
            assert(escape_seq(text@.take(i + 1 as int)) == escape_seq(text@.take(i as int))
                + escape_char(text@[i as int]));
        }
        i = i + 1;
    }
    push_char(out, '"');
    proof {
        assert(text@.take(n as int) =~= text@);
        assert(final(out)@ =~= old(out)@ + quoted(text@));
    }
}


/// Is `c` one of the ten decimal digit characters?
pub open spec fn is_dec_digit(c: char) -> bool {
    c == '0' || c == '1' || c == '2' || c == '3' || c == '4' || c == '5' || c == '6' || c == '7'
        || c == '8' || c == '9'
}

/// The numeric value a digit character denotes (ten for any other
/// character).
pub open spec fn char_val(c: char) -> nat {
    if c == '0' {
        0
    } else if c == '1' {
        1
    } else if c == '2' {
        2
    } else if c == '3' {
        3
    } else if c == '4' {
        4
    } else if c == '5' {
        5
    } else if c == '6' {
        6
    } else if c == '7' {
        7
    } else if c == '8' {
        8
    } else if c == '9' {
        9
    } else {
        10
    }
}

/// The number a digit string denotes, most significant digit first.
pub open spec fn digits_val(ds: Seq<char>) -> nat
    decreases ds.len(),
{
    if ds.len() == 0 {
        0
    } else {
        digits_val(ds.drop_last()) * 10 + char_val(ds.last())
    }
}

/// The shape of a decimal rendering: non-empty, all digit characters, no
/// leading zero unless the number is zero, and it denotes its number.
pub proof fn lemma_dec_seq_shape(v: nat)
    ensures
        dec_seq(v).len() >= 1,
        forall|i: int| 0 <= i < dec_seq(v).len() ==> is_dec_digit(#[trigger] dec_seq(v)[i]),
        digits_val(dec_seq(v)) == v,
        v >= 1 ==> dec_seq(v)[0] != '0',
    decreases v,
{
    if v < 10 {
        assert(dec_seq(v) =~= seq![dec_digit(v)]);
        assert(dec_seq(v).drop_last() =~= Seq::<char>::empty());
        assert(digits_val(Seq::<char>::empty()) == 0);
        assert(dec_seq(v).last() == dec_digit(v));
        assert(digits_val(dec_seq(v)) == 0 * 10 + char_val(dec_digit(v)));
    } else {
        lemma_dec_seq_shape(v / 10);
        let whole = dec_seq(v);
        assert(whole == dec_seq(v / 10).push(dec_digit(v % 10)));
        assert(whole.drop_last() =~= dec_seq(v / 10));
        assert(whole.last() == dec_digit(v % 10));
        assert forall|i: int| 0 <= i < whole.len() implies is_dec_digit(#[trigger] whole[i]) by {
            if i < dec_seq(v / 10).len() {
                assert(whole[i] == dec_seq(v / 10)[i]);
            }
        }
        assert(digits_val(whole) == (v / 10) * 10 + (v % 10));
        assert(whole[0] == dec_seq(v / 10)[0]);
    }
}

/// A digit-string prefix never denotes more than the whole string.
proof fn lemma_digits_val_take(ds: Seq<char>, k: int)
    requires
        0 <= k <= ds.len(),
    ensures
        digits_val(ds.take(k)) <= digits_val(ds),
    decreases ds.len(),
{
    if k < ds.len() {
        assert(ds.take(k) =~= ds.drop_last().take(k));
        lemma_digits_val_take(ds.drop_last(), k);
        assert(digits_val(ds) == digits_val(ds.drop_last()) * 10 + char_val(ds.last()));
        assert(digits_val(ds.drop_last()) * 10 >= digits_val(ds.drop_last())) by (nonlinear_arith);
    } else {
        assert(ds.take(k) =~= ds);
    }
}

/// The decimal value of a digit character, if it is one.
fn dec_value(c: char) -> (r: Option<u64>)
    ensures
        match r {
            Some(d) => d < 10 && c == dec_digit(d as nat) && is_dec_digit(c) && d == char_val(c),
            None => !is_dec_digit(c),
        },
{
    if c == '0' {
        Some(0)
    } else if c == '1' {
        Some(1)
    } else if c == '2' {
        Some(2)
    } else if c == '3' {
        Some(3)
    } else if c == '4' {
        Some(4)
    } else if c == '5' {
        Some(5)
    } else if c == '6' {
        Some(6)
    } else if c == '7' {
        Some(7)
    } else if c == '8' {
        Some(8)
    } else if c == '9' {
        Some(9)
    } else {
        None
    }
}

/// The value of a lower-case hexadecimal digit character, if it is one.
fn hex_value(c: char) -> (r: Option<u32>)
    ensures
        match r {
            Some(d) => d < 16 && c == hex_digit(d as nat),
            None => forall|d: nat| d < 16 ==> c != hex_digit(d),
        },
{
    match dec_value(c) {
        Some(d) => Some(d as u32),
        None => {
            if c == 'a' {
                Some(10)
            } else if c == 'b' {
                Some(11)
            } else if c == 'c' {
                Some(12)
            } else if c == 'd' {
                Some(13)
            } else if c == 'e' {
                Some(14)
            } else if c == 'f' {
                Some(15)
            } else {
                None
            }
        },
    }
}

/// Is there a character `c` at position `pos`?
pub(crate) fn expect_char(s: &str, pos: usize, n: usize, c: char) -> (r: bool)
    requires
        n == s@.len(),
    ensures
        r == (pos < n && s@[pos as int] == c),
{
    pos < n && s.get_char(pos) == c
}

/// The text of `s` at `pos` begins with the decimal rendering of `w`,
/// followed by `rest`, which does not begin with another digit.
pub open spec fn starts_dec(s: Seq<char>, pos: int, w: u64, rest: Seq<char>) -> bool {
    &&& s.skip(pos) == dec_seq(w as nat) + rest
    &&& (rest.len() == 0 || !is_dec_digit(rest[0]))
}

/// Parses a decimal number in the exact form [`dec_seq`] renders: at
/// least one digit, no leading zero.  On success the consumed characters
/// are exactly the decimal rendering of the value, and the parse is the
/// only reading of this position: any maximal decimal rendering here is
/// this value.  On failure no maximal decimal rendering starts here.
pub(crate) fn parse_u64(s: &str, pos: usize, n: usize) -> (r: Option<(u64, usize)>)
    requires
        n == s@.len(),
        pos <= n,
    ensures
        match r {
            Some(v_end) => {
                &&& pos < v_end.1 <= n
                &&& s@.subrange(pos as int, v_end.1 as int) == dec_seq(v_end.0 as nat)
                &&& forall|w: u64, rest: Seq<char>|
                    #[trigger] starts_dec(s@, pos as int, w, rest) ==> w == v_end.0 && rest
                        == s@.skip(v_end.1 as int)
            },
            None => forall|w: u64, rest: Seq<char>| !#[trigger] starts_dec(s@, pos as int, w, rest),
        },
{
    if pos >= n {
        proof {
            assert forall|w: u64, rest: Seq<char>| !#[trigger] starts_dec(s@, pos as int, w, rest)
                by {
                if starts_dec(s@, pos as int, w, rest) {
                    lemma_dec_seq_shape(w as nat);
                    assert(s@.skip(pos as int).len() == 0);
                }
            }
        }
        return None;
    }
    let d0 = match dec_value(s.get_char(pos)) {
        Some(d) => d,
        None => {
            proof {
                assert forall|w: u64, rest: Seq<char>| !#[trigger] starts_dec(
                    s@,
                    pos as int,
                    w,
                    rest,
                ) by {
                    if starts_dec(s@, pos as int, w, rest) {
                        lemma_dec_seq_shape(w as nat);
                        assert(s@[pos as int] == s@.skip(pos as int)[0]);
                        assert(s@.skip(pos as int)[0] == dec_seq(w as nat)[0]);
                    }
                }
            }
            return None;
        },
    };
    if d0 == 0 {
        proof {
            assert(s@.subrange(pos as int, pos + 1 as int) =~= seq![dec_digit(0)]);
            assert forall|w: u64, rest: Seq<char>|
                #[trigger] starts_dec(s@, pos as int, w, rest) implies w == 0 && rest == s@.skip(
                pos + 1 as int,
            ) by {
                lemma_dec_seq_shape(w as nat);
                assert(s@.skip(pos as int)[0] == (dec_seq(w as nat) + rest)[0]);
                assert(s@.skip(pos as int)[0] == s@[pos as int]);
                assert(dec_seq(w as nat)[0] == '0');
                assert(w == 0);
                assert(dec_seq(0) =~= seq!['0']);
                assert(s@.skip(pos as int) == seq!['0'] + rest);
                assert(s@.skip(pos as int).len() == n - pos);
                assert(s@.skip(pos + 1 as int).len() == n - pos - 1);
                assert(rest.len() == n - pos - 1);
                assert forall|i: int| 0 <= i < rest.len() implies rest[i] == s@.skip(
                    pos + 1 as int,
                )[i] by {
                    assert(rest[i] == (seq!['0'] + rest)[i + 1]);
                    assert(s@.skip(pos as int)[i + 1] == s@[pos + 1 + i]);
                    assert(s@.skip(pos + 1 as int)[i] == s@[pos + 1 + i]);
                }
                assert(rest.len() == s@.skip(pos + 1 as int).len());
                assert(rest =~= s@.skip(pos + 1 as int));
            }
        }
        return Some((0, pos + 1));
    }
    let mut v = d0;
    let mut p = pos + 1;
    proof {
        assert(s@.subrange(pos as int, p as int) =~= seq![dec_digit(d0 as nat)]);
    }
    while p < n
        invariant_except_break
            n == s@.len(),
            pos < p <= n,
            1 <= v,
            s@.subrange(pos as int, p as int) == dec_seq(v as nat),
        ensures
            n == s@.len(),
            pos < p <= n,
            1 <= v,
            s@.subrange(pos as int, p as int) == dec_seq(v as nat),
            p == n || !is_dec_digit(s@[p as int]),
        decreases n - p,
    {
        let d = match dec_value(s.get_char(p)) {
            Some(d) => d,
            None => {
                break ;
            },
        };
        if v > (u64::MAX - d) / 10 {
            proof {
                assert(v * 10 + d > u64::MAX) by (nonlinear_arith)
                    requires
                        d < 10,
                        1 <= v,
                        v > (u64::MAX - d) / 10,
                ;
                // No maximal decimal rendering fits here: its digits would
                // extend the ones consumed so far past the largest value.
                assert forall|w: u64, rest: Seq<char>| !#[trigger] starts_dec(
                    s@,
                    pos as int,
                    w,
                    rest,
                ) by {
                    if starts_dec(s@, pos as int, w, rest) {
                        lemma_dec_seq_shape(w as nat);
                        lemma_dec_seq_shape(v as nat);
                        let ws = dec_seq(w as nat);
                        let lw = ws.len() as int;
                        assert forall|i: int|
                            0 <= i < lw implies #[trigger] s@.skip(pos as int)[i] == ws[i] by {
                            assert(s@.skip(pos as int)[i] == (ws + rest)[i]);
                        }
                        if p - pos < lw {
                            assert forall|i: int| 0 <= i < p - pos + 1 implies ws.take(
                                p - pos + 1,
                            )[i] == dec_seq(v as nat).push(dec_digit(d as nat))[i] by {
                                assert(ws[i] == s@.skip(pos as int)[i]);
                                assert(s@.skip(pos as int)[i] == s@[pos + i]);
                                if i < p - pos {
                                    assert(s@[pos + i] == s@.subrange(pos as int, p as int)[i]);
                                } else {
                                    assert(pos + i == p);
                                }
                            }
                            assert(ws.take(p - pos + 1) =~= dec_seq(v as nat).push(
                                dec_digit(d as nat),
                            ));
                            assert(digits_val(ws.take(p - pos + 1)) == v * 10 + d) by {
                                assert(ws.take(p - pos + 1).drop_last() =~= dec_seq(v as nat));
                                assert(ws.take(p - pos + 1).last() == dec_digit(d as nat));
                            }
                            lemma_digits_val_take(ws, p - pos + 1);
                        } else {
                            assert(s@.skip(pos as int).len() == n - pos);
                            assert(rest.len() == s@.skip(pos as int).len() - lw);
                            assert(rest.len() > 0);
                            assert(rest[0] == (ws + rest)[lw]);
                            assert(rest[0] == s@.skip(pos as int)[lw]);
                            assert(s@.skip(pos as int)[lw] == s@[pos + lw]);
                            if p - pos == lw {
                                assert(rest[0] == s@[p as int]);
                                assert(is_dec_digit(s@[p as int]));
                            } else {
                                assert(s@[pos + lw] == s@.subrange(pos as int, p as int)[lw]);
                                assert(is_dec_digit(dec_seq(v as nat)[lw]));
                            }
                        }
                    }
                }
            }
            return None;
        }
        proof {
            assert(v * 10 + d <= u64::MAX && (v * 10 + d) / 10 == v as int && (v * 10 + d) % 10
                == d as int) by (nonlinear_arith)
                requires
                    d < 10,
                    1 <= v,
                    v <= (u64::MAX - d) / 10,
            ;
        }
        let ghost old_v = v;
        v = v * 10 + d;
        proof {
            assert(dec_seq(v as nat) == dec_seq(old_v as nat).push(dec_digit(d as nat)));
            assert(s@.subrange(pos as int, p + 1 as int) =~= s@.subrange(pos as int, p as int).push(
                s@[p as int],
            ));
        }
        p = p + 1;
    }
    proof {
        // The consumed digits are the only maximal decimal rendering here.
        assert forall|w: u64, rest: Seq<char>|
            #[trigger] starts_dec(s@, pos as int, w, rest) implies w == v && rest == s@.skip(
            p as int,
        ) by {
            lemma_dec_seq_shape(w as nat);
            lemma_dec_seq_shape(v as nat);
            let ws = dec_seq(w as nat);
            let lw = ws.len() as int;
            assert forall|i: int| 0 <= i < lw implies #[trigger] s@.skip(pos as int)[i] == ws[i]
                by {
                assert(s@.skip(pos as int)[i] == (ws + rest)[i]);
            }
            if lw < p - pos {
                assert(s@.skip(pos as int).len() == n - pos);
                assert(rest.len() == s@.skip(pos as int).len() - lw);
                assert(rest.len() > 0);
                assert(rest[0] == (ws + rest)[lw]);
                assert(rest[0] == s@.skip(pos as int)[lw]);
                assert(s@.skip(pos as int)[lw] == s@[pos + lw]);
                assert(s@[pos + lw] == s@.subrange(pos as int, p as int)[lw]);
                assert(is_dec_digit(dec_seq(v as nat)[lw]));
                assert(false);
            } else if lw > p - pos {
                if p == n {
                    assert(s@.skip(pos as int).len() == n - pos);
                    assert(false);
                } else {
                    assert(ws[p - pos] == s@.skip(pos as int)[p - pos]);
                    assert(s@.skip(pos as int)[p - pos] == s@[p as int]);
                    assert(is_dec_digit(dec_seq(w as nat)[p - pos]));
                    assert(false);
                }
            } else {
                assert forall|i: int| 0 <= i < lw implies ws[i] == s@.subrange(
                    pos as int,
                    p as int,
                )[i] by {
                    assert(ws[i] == s@.skip(pos as int)[i]);
                    assert(s@.skip(pos as int)[i] == s@[pos + i]);
                }
                assert(ws =~= s@.subrange(pos as int, p as int));
                assert(digits_val(ws) == w as nat);
                assert(digits_val(dec_seq(v as nat)) == v as nat);
                assert(w == v);
                assert(s@.skip(pos as int).len() == n - pos);
                assert(s@.skip(p as int).len() == n - p);
                assert(rest.len() == n - pos - lw);
                assert forall|i: int| 0 <= i < rest.len() implies rest[i] == s@.skip(p as int)[i]
                    by {
                    assert(rest[i] == (ws + rest)[lw + i]);
                    assert(s@.skip(pos as int)[lw + i] == s@[pos + lw + i]);
                    assert(s@.skip(p as int)[i] == s@[p + i]);
                }
                assert(rest.len() == s@.skip(p as int).len());
                assert(rest =~= s@.skip(p as int));
            }
        }
    }
    Some((v, p))
}

/// Splitting a suffix: when the text from `p` on is `front` then `tail`,
/// the text from `p + front.len()` on is exactly `tail`.
pub(crate) proof fn lemma_skip_of_concat(s: Seq<char>, p: int, front: Seq<char>, tail: Seq<char>)
    requires
        0 <= p <= s.len(),
        s.skip(p) == front + tail,
    ensures
        s.skip(p + front.len()) == tail,
        p + front.len() <= s.len(),
{
    assert(s.skip(p).len() == s.len() - p);
    assert(tail.len() == s.len() - p - front.len());
    assert(s.skip(p + front.len() as int).len() == tail.len());
    assert forall|i: int| 0 <= i < tail.len() implies s.skip(p + front.len() as int)[i] == tail[i]
        by {
        assert(s.skip(p + front.len() as int)[i] == s[p + front.len() + i]);
        assert(s.skip(p)[front.len() + i] == s[p + front.len() + i]);
        assert(s.skip(p)[front.len() + i] == (front + tail)[front.len() + i]);
    }
    assert(s.skip(p + front.len() as int) =~= tail);
}

/// The escaped body read from the front: the first character's escape,
/// then the rest's body.
proof fn lemma_escape_seq_cons(x: Seq<char>)
    requires
        x.len() > 0,
    ensures
        escape_seq(x) == escape_char(x[0]) + escape_seq(x.skip(1)),
    decreases x.len(),
{
    if x.len() == 1 {
        assert(x.drop_last() =~= Seq::<char>::empty());
        assert(x.skip(1) =~= Seq::<char>::empty());
        assert(escape_seq(Seq::<char>::empty()) =~= Seq::<char>::empty());
        assert(x.last() == x[0]);
        assert(escape_seq(x) =~= escape_char(x[0]) + escape_seq(x.skip(1)));
    } else {
        let head = x.drop_last();
        lemma_escape_seq_cons(head);
        assert(head[0] == x[0]);
        assert(head.skip(1) =~= x.skip(1).drop_last());
        assert(x.skip(1).last() == x.last());
        assert(x.skip(1).len() > 0);
        assert(escape_seq(x.skip(1)) == escape_seq(x.skip(1).drop_last()) + escape_char(
            x.skip(1).last(),
        ));
        assert(escape_seq(x) =~= escape_char(x[0]) + escape_seq(x.skip(1)));
    }
}

/// Escapes are prefix-free: no character's escape begins another's
/// followed by different text, so a literal's body reads one way only.
proof fn lemma_escape_char_prefix(a: char, b: char, r1: Seq<char>, r2: Seq<char>)
    requires
        escape_char(a) + r1 == escape_char(b) + r2,
    ensures
        a == b,
        r1 == r2,
{
    let ea = escape_char(a);
    let eb = escape_char(b);
    assert((ea + r1)[0] == (eb + r2)[0]);
    assert(ea[0] == eb[0]);
    if ea[0] != '\\' {
        assert(a == ea[0] && b == eb[0]);
    } else {
        if ea.len() >= 2 && eb.len() >= 2 {
            assert((ea + r1)[1] == (eb + r2)[1]);
            assert(ea[1] == eb[1]);
        }
        if a == '"' || a == '\\' {
            assert(b == a);
        } else {
            assert((a as u32) < 32 && (b as u32) < 32);
            assert((ea + r1)[4] == (eb + r2)[4]);
            assert((ea + r1)[5] == (eb + r2)[5]);
            assert(hex_digit((a as u32 / 16) as nat) == hex_digit((b as u32 / 16) as nat));
            assert(hex_digit((a as u32 % 16) as nat) == hex_digit((b as u32 % 16) as nat));
            assert(a as u32 / 16 == b as u32 / 16);
            assert(a as u32 % 16 == b as u32 % 16);
            assert(a as u32 == b as u32);
            assert(a == b);
        }
    }
    assert(ea == eb);
    assert((ea + r1).len() == (eb + r2).len());
    assert(r1.len() == r2.len());
    assert forall|i: int| 0 <= i < r1.len() implies r1[i] == r2[i] by {
        assert((ea + r1)[ea.len() + i] == (eb + r2)[eb.len() + i]);
    }
    assert(r1 =~= r2);
}

/// The text of `s` at `pos` begins with the quoted form of `x`, followed
/// by `rest`.
pub open spec fn starts_quoted(s: Seq<char>, pos: int, x: Seq<char>, rest: Seq<char>) -> bool {
    s.skip(pos) == quoted(x) + rest
}

/// Parses a JSON string literal in the exact form [`quoted`] renders: the
/// two-character escapes for quote and backslash, the canonical
/// lower-case `\u00XX` form for control characters, and every other
/// character standing for itself.  On success the consumed characters are
/// exactly the quoted form of the result, and the parse is the only
/// reading of this position; on failure no quoted form starts here.
pub(crate) fn parse_string(s: &str, pos: usize, n: usize) -> (r: Option<(String, usize)>)
    requires
        n == s@.len(),
        pos <= n,
    ensures
        match r {
            Some(t_end) => {
                &&& pos < t_end.1 <= n
                &&& s@.subrange(pos as int, t_end.1 as int) == quoted(t_end.0@)
                &&& forall|x: Seq<char>, rest: Seq<char>|
                    #[trigger] starts_quoted(s@, pos as int, x, rest) ==> x == t_end.0@ && rest
                        == s@.skip(t_end.1 as int)
            },
            None => forall|x: Seq<char>, rest: Seq<char>|
                !#[trigger] starts_quoted(s@, pos as int, x, rest),
        },
{
    if !expect_char(s, pos, n, '"') {
        proof {
            assert forall|x: Seq<char>, rest: Seq<char>| !#[trigger] starts_quoted(
                s@,
                pos as int,
                x,
                rest,
            ) by {
                if starts_quoted(s@, pos as int, x, rest) {
                    assert(s@.skip(pos as int).len() == n - pos);
                    assert(s@.skip(pos as int)[0] == (quoted(x) + rest)[0]);
                    assert(s@.skip(pos as int)[0] == s@[pos as int]);
                }
            }
        }
        return None;
    }
    let mut t = String::new();
    let mut p = pos + 1;
    proof {
        assert forall|x: Seq<char>, rest: Seq<char>|
            #[trigger] starts_quoted(s@, pos as int, x, rest) implies t@.len() <= x.len() && t@
            == x.take(t@.len() as int) && s@.skip(p as int) == escape_seq(
            x.skip(t@.len() as int),
        ) + seq!['"'] + rest by {
            assert(s@.skip(pos as int) == seq!['"'] + (escape_seq(x) + seq!['"'] + rest));
            lemma_skip_of_concat(s@, pos as int, seq!['"'], escape_seq(x) + seq!['"'] + rest);
            assert(t@ =~= x.take(0));
            assert(x.skip(0) =~= x);
        }
    }
    while p < n
        invariant
            n == s@.len(),
            pos + 1 <= p <= n,
            s@[pos as int] == '"',
            s@.subrange(pos + 1 as int, p as int) == escape_seq(t@),
            forall|x: Seq<char>, rest: Seq<char>|
                #[trigger] starts_quoted(s@, pos as int, x, rest) ==> t@.len() <= x.len() && t@
                    == x.take(t@.len() as int) && s@.skip(p as int) == escape_seq(
                    x.skip(t@.len() as int),
                ) + seq!['"'] + rest,
        decreases n - p,
    {
        let c = s.get_char(p);
        if c == '"' {
            proof {
                assert(s@.subrange(pos as int, p + 1 as int) =~= seq!['"'] + escape_seq(t@) + seq![
                    '"',
                ]);
                assert forall|x: Seq<char>, rest: Seq<char>|
                    #[trigger] starts_quoted(s@, pos as int, x, rest) implies x == t@ && rest
                    == s@.skip(p + 1 as int) by {
                    let x1 = x.skip(t@.len() as int);
                    if x1.len() > 0 {
                        lemma_escape_seq_cons(x1);
                        assert(s@.skip(p as int)[0] == (escape_seq(x1) + seq!['"'] + rest)[0]);
                        assert(s@.skip(p as int)[0] == s@[p as int]);
                        assert(escape_seq(x1)[0] == escape_char(x1[0])[0]);
                        assert(false);
                    }
                    assert(escape_seq(x1) =~= Seq::<char>::empty());
                    assert(x =~= x.take(t@.len() as int));
                    assert(s@.skip(p as int) == seq!['"'] + rest);
                    lemma_skip_of_concat(s@, p as int, seq!['"'], rest);
                }
            }
            return Some((t, p + 1));
        }
        let ghost old_t = t@;
        let consumed: usize;
        if c == '\\' {
            if p + 1 >= n {
                proof {
                    refute_quoted_mid(s@, pos as int, p as int, t@, n as int);
                }
                return None;
            }
            let e = s.get_char(p + 1);
            if e == '"' {
                push_char(&mut t, '"');
                consumed = 2;
            } else if e == '\\' {
                push_char(&mut t, '\\');
                consumed = 2;
            } else if e == 'u' {
                if n - p < 7 {
                    proof {
                        refute_quoted_mid(s@, pos as int, p as int, t@, n as int);
                    }
                    return None;
                }
                if !expect_char(s, p + 2, n, '0') || !expect_char(s, p + 3, n, '0') {
                    proof {
                        refute_quoted_mid(s@, pos as int, p as int, t@, n as int);
                    }
                    return None;
                }
                let h1 = match hex_value(s.get_char(p + 4)) {
                    Some(h) => h,
                    None => {
                        proof {
                            refute_quoted_mid(s@, pos as int, p as int, t@, n as int);
                        }
                        return None;
                    },
                };
                let h2 = match hex_value(s.get_char(p + 5)) {
                    Some(h) => h,
                    None => {
                        proof {
                            refute_quoted_mid(s@, pos as int, p as int, t@, n as int);
                        }
                        return None;
                    },
                };
                if h1 >= 2 {
                    proof {
                        refute_quoted_mid(s@, pos as int, p as int, t@, n as int);
                    }
                    return None;
                }
                let code = h1 * 16 + h2;
                let decoded = (code as u8) as char;
                proof {
                    assert(code < 32);
                    assert(decoded as u32 == code);
                    assert(code / 16 == h1 as int && code % 16 == h2 as int) by (nonlinear_arith)
                        requires
                            h2 < 16,
                            code == h1 * 16 + h2,
                            h1 < 2,
                    ;
                    assert(escape_char(decoded) =~= seq!['\\', 'u', '0', '0', hex_digit(
                        (h1 as nat),
                    ), hex_digit((h2 as nat))]);
                }
                push_char(&mut t, decoded);
                consumed = 6;
            } else {
                proof {
                    refute_quoted_mid(s@, pos as int, p as int, t@, n as int);
                }
                return None;
            }
        } else if (c as u32) < 32 {
            proof {
                refute_quoted_mid(s@, pos as int, p as int, t@, n as int);
            }
            return None;
        } else {
            push_char(&mut t, c);
            consumed = 1;
        }
        proof {
            assert(t@.drop_last() =~= old_t);
            assert(escape_seq(t@) == escape_seq(old_t) + escape_char(t@.last()));
            assert(s@.subrange(pos + 1 as int, (p + consumed) as int) =~= s@.subrange(
                pos + 1 as int,
                p as int,
            ) + s@.subrange(p as int, (p + consumed) as int));
            assert(s@.subrange(p as int, (p + consumed) as int) =~= escape_char(t@.last()));
            assert(s@.skip(p as int) =~= s@.subrange(p as int, (p + consumed) as int) + s@.skip(
                (p + consumed) as int,
            ));
            assert forall|x: Seq<char>, rest: Seq<char>|
                #[trigger] starts_quoted(s@, pos as int, x, rest) implies t@.len() <= x.len() && t@
                == x.take(t@.len() as int) && s@.skip((p + consumed) as int) == escape_seq(
                x.skip(t@.len() as int),
            ) + seq!['"'] + rest by {
                let k = old_t.len() as int;
                let x1 = x.skip(k);
                assert(old_t.len() <= x.len() && old_t == x.take(k) && s@.skip(p as int)
                    == escape_seq(x1) + seq!['"'] + rest);
                assert(x1.len() > 0) by {
                    if x1.len() == 0 {
                        assert(escape_seq(x1) =~= Seq::<char>::empty());
                        assert(s@.skip(p as int)[0] == (escape_seq(x1) + seq!['"'] + rest)[0]);
                        assert(s@.skip(p as int)[0] == s@[p as int]);
                    }
                }
                lemma_escape_seq_cons(x1);
                assert(s@.skip(p as int) == escape_char(x1[0]) + (escape_seq(x1.skip(1)) + seq![
                    '"',
                ] + rest));
                assert(s@.skip(p as int) == escape_char(t@.last()) + s@.skip(
                    (p + consumed) as int,
                ));
                lemma_escape_char_prefix(
                    x1[0],
                    t@.last(),
                    escape_seq(x1.skip(1)) + seq!['"'] + rest,
                    s@.skip((p + consumed) as int),
                );
                assert(t@ =~= x.take(k + 1));
                assert(x1.skip(1) =~= x.skip(k + 1));
            }
        }
        p = p + consumed;
    }
    proof {
        assert forall|x: Seq<char>, rest: Seq<char>| !#[trigger] starts_quoted(
            s@,
            pos as int,
            x,
            rest,
        ) by {
            if starts_quoted(s@, pos as int, x, rest) {
                let x1 = x.skip(t@.len() as int);
                assert(s@.skip(p as int) == escape_seq(x1) + seq!['"'] + rest);
                assert(s@.skip(p as int).len() == n - p);
            }
        }
    }
    None
}

/// Inside a literal's body, the next characters are forced: refutes any
/// quoted reading when the observed characters cannot continue one.
proof fn refute_quoted_mid(s: Seq<char>, pos: int, p: int, t: Seq<char>, n: int)
    requires
        n == s.len(),
        0 <= pos < p <= n,
        forall|x: Seq<char>, rest: Seq<char>|
            #[trigger] starts_quoted(s, pos, x, rest) ==> t.len() <= x.len() && t == x.take(
                t.len() as int,
            ) && s.skip(p) == escape_seq(x.skip(t.len() as int)) + seq!['"'] + rest,
        p < n,
        s[p] != '"',
        ({
            let c = s[p];
            ||| (c == '\\' && p + 1 >= n)
            ||| (c == '\\' && p + 1 < n && s[p + 1] == 'u' && n - p < 7)
            ||| (c == '\\' && p + 1 < n && s[p + 1] == 'u' && n - p >= 7 && !(s[p + 2] == '0'
                && s[p + 3] == '0'))
            ||| (c == '\\' && p + 1 < n && s[p + 1] == 'u' && n - p >= 7 && (forall|d: nat|
                d < 16 ==> s[p + 4] != hex_digit(d)))
            ||| (c == '\\' && p + 1 < n && s[p + 1] == 'u' && n - p >= 7 && (forall|d: nat|
                d < 16 ==> s[p + 5] != hex_digit(d)))
            ||| (c == '\\' && p + 1 < n && s[p + 1] == 'u' && n - p >= 7 && (exists|h: u32|
                h >= 2 && h < 16 && s[p + 4] == hex_digit(h as nat)))
            ||| (c == '\\' && p + 1 < n && s[p + 1] != '"' && s[p + 1] != '\\' && s[p + 1] != 'u')
            ||| ((c as u32) < 32 && c != '\\')
        }),
    ensures
        forall|x: Seq<char>, rest: Seq<char>| !#[trigger] starts_quoted(s, pos, x, rest),
{
    assert forall|x: Seq<char>, rest: Seq<char>| !#[trigger] starts_quoted(s, pos, x, rest) by {
        if starts_quoted(s, pos, x, rest) {
            let x1 = x.skip(t.len() as int);
            assert(s.skip(p) == escape_seq(x1) + seq!['"'] + rest);
            assert(s.skip(p).len() == n - p);
            assert(x1.len() > 0) by {
                if x1.len() == 0 {
                    assert(escape_seq(x1) =~= Seq::<char>::empty());
                    assert(s.skip(p)[0] == (escape_seq(x1) + seq!['"'] + rest)[0]);
                    assert(s.skip(p)[0] == s[p]);
                }
            }
            lemma_escape_seq_cons(x1);
            assert(s.skip(p) == escape_char(x1[0]) + (escape_seq(x1.skip(1)) + seq!['"'] + rest));
            assert(s.skip(p)[0] == s[p]);
            assert(s.skip(p)[0] == escape_char(x1[0])[0]);
            let c0 = x1[0];
            if s[p] == '\\' {
                assert(c0 == '"' || c0 == '\\' || (c0 as u32) < 32);
                assert(escape_char(c0).len() >= 2);
                assert(n - p >= escape_char(c0).len() + 1);
                assert(s.skip(p)[1] == s[p + 1]);
                assert(s.skip(p)[1] == escape_char(c0)[1]);
                if (c0 as u32) < 32 {
                    assert(s[p + 1] == 'u');
                    assert(escape_char(c0).len() == 6);
                    assert(n - p >= 7);
                    assert(s.skip(p)[2] == s[p + 2] && s.skip(p)[2] == escape_char(c0)[2]);
                    assert(s.skip(p)[3] == s[p + 3] && s.skip(p)[3] == escape_char(c0)[3]);
                    assert(s.skip(p)[4] == s[p + 4] && s.skip(p)[4] == escape_char(c0)[4]);
                    assert(s.skip(p)[5] == s[p + 5] && s.skip(p)[5] == escape_char(c0)[5]);
                    assert(s[p + 2] == '0' && s[p + 3] == '0');
                    assert(s[p + 4] == hex_digit((c0 as u32 / 16) as nat));
                    assert(s[p + 5] == hex_digit((c0 as u32 % 16) as nat));
                    assert((c0 as u32 / 16) < 2);
                    if exists|h: u32| h >= 2 && h < 16 && s[p + 4] == hex_digit(h as nat) {
                        let h = choose|h: u32| h >= 2 && h < 16 && s[p + 4] == hex_digit(h as nat);
                        assert(hex_digit(h as nat) == hex_digit((c0 as u32 / 16) as nat));
                        assert(false);
                    }
                    assert(false);
                } else {
                    assert(s[p + 1] == '"' || s[p + 1] == '\\');
                    assert(false);
                }
            } else {
                assert((s[p] as u32) < 32 && s[p] != '\\' && s[p] != '"');
                assert(escape_char(c0)[0] == s[p]);
                assert(c0 != '"' && c0 != '\\' && (c0 as u32) >= 32 ==> escape_char(c0)[0] == c0);
                assert(false);
            }
        }
    }
}

} // verus!
