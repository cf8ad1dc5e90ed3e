//! The line protocol grammar.
//!
//! A command line is exactly `look`, `help`, `bye`, `dig <x> <y>`,
//! `flag <x> <y>` or `deflag <x> <y>`, with single spaces between tokens
//! and optionally negative decimal coordinates.  Anything else — including
//! numbers that do not fit a 32-bit integer — is an unknown command, which
//! the session answers with the help text.

use vstd::prelude::*;
use vstd::string::StrSliceExecFns;

verus! {

/// One parsed command line.
#[derive(Clone, Copy, PartialEq, Eq, Structural, Debug)]
pub enum Command {
    Look,
    Help,
    Bye,
    Dig(i32, i32),
    Flag(i32, i32),
    Deflag(i32, i32),
    Unknown,
}

/// A decimal digit.
pub open spec fn is_digit(c: char) -> bool {
    48 <= (c as u32) && (c as u32) <= 57
}

/// The value of one decimal digit.
pub open spec fn digit_val(c: char) -> int {
    (c as u32) - 48
}

/// Every character of the token is a decimal digit.
pub open spec fn all_digits(t: Seq<char>) -> bool {
    forall|i: int| 0 <= i < t.len() ==> is_digit(#[trigger] t[i])
}

/// The value of a non-empty digit string, most significant digit first.
pub open spec fn digits_value(t: Seq<char>) -> int
    decreases t.len(),
{
    if t.len() == 0 {
        0int
    } else {
        digits_value(t.drop_last()) * 10 + digit_val(t.last())
    }
}

/// An integer token: an optional leading minus sign followed by at
/// least one digit.
pub open spec fn is_int_token(t: Seq<char>) -> bool {
    if t.len() > 0 && t[0] == '-' {
        t.len() >= 2 && all_digits(t.skip(1))
    } else {
        t.len() >= 1 && all_digits(t)
    }
}

/// The value of an integer token.
pub open spec fn int_token_value(t: Seq<char>) -> int {
    if t.len() > 0 && t[0] == '-' {
        -digits_value(t.skip(1))
    } else {
        digits_value(t)
    }
}

/// Whether a value is representable as an `i32` coordinate.
pub open spec fn fits_i32(n: int) -> bool {
    -0x8000_0000 <= n <= 0x7FFF_FFFF
}

/// The line split at single spaces; consecutive spaces yield empty
/// tokens, so the result always holds at least one token.
pub open spec fn tokenize(s: Seq<char>) -> Seq<Seq<char>>
    decreases s.len(),
{
    if s.len() == 0 {
        seq![Seq::<char>::empty()]
    } else if s[0] == ' ' {
        seq![Seq::<char>::empty()] + tokenize(s.skip(1))
    } else {
        let rest = tokenize(s.skip(1));
        seq![seq![s[0]] + rest[0]] + rest.skip(1)
    }
}

/// A tokenization always yields at least one token.
pub proof fn lemma_tokenize_len(s: Seq<char>)
    ensures
        tokenize(s).len() >= 1,
    decreases s.len(),
{
    if s.len() == 0 {
    } else {
        lemma_tokenize_len(s.skip(1));
    }
}

/// The grammar: what one line means.
pub open spec fn parse_spec(s: Seq<char>) -> Command {
    let toks = tokenize(s);
    if toks.len() == 1 && toks[0] == seq!['l', 'o', 'o', 'k'] {
        Command::Look
    } else if toks.len() == 1 && toks[0] == seq!['h', 'e', 'l', 'p'] {
        Command::Help
    } else if toks.len() == 1 && toks[0] == seq!['b', 'y', 'e'] {
        Command::Bye
    } else if toks.len() == 3 && is_int_token(toks[1]) && is_int_token(toks[2]) && fits_i32(
        int_token_value(toks[1]),
    ) && fits_i32(int_token_value(toks[2])) {
        let x = int_token_value(toks[1]) as i32;
        let y = int_token_value(toks[2]) as i32;
        if toks[0] == seq!['d', 'i', 'g'] {
            Command::Dig(x, y)
        } else if toks[0] == seq!['f', 'l', 'a', 'g'] {
            Command::Flag(x, y)
        } else if toks[0] == seq!['d', 'e', 'f', 'l', 'a', 'g'] {
            Command::Deflag(x, y)
        } else {
            Command::Unknown
        }
    } else {
        Command::Unknown
    }
}

/// The characters of a line, in order.
fn line_chars(line: &str) -> (cs: Vec<char>)
    ensures
        cs@ == line@,
{
    let n: usize = line.unicode_len();
    let mut cs: Vec<char> = Vec::new();
    let mut i: usize = 0;
    while i < n
        invariant
            i <= n,
            n == line@.len(),
            cs@.len() == i,
            forall|k: int| 0 <= k < i ==> cs@[k] == line@[k],
        decreases n - i,
    {
        cs.push(line.get_char(i));
        i = i + 1;
    }
    proof {
        assert(cs@ =~= line@);
    }
    cs
}

/// Splits the characters at single spaces, mirroring `tokenize`.
fn tokenize_exec(cs: &Vec<char>) -> (toks: Vec<Vec<char>>)
    ensures
        toks.deep_view() == tokenize(cs@),
{
    let mut done: Vec<Vec<char>> = Vec::new();
    let mut cur: Vec<char> = Vec::new();
    let mut i: usize = 0;
    proof {
        assert(cs@.skip(0) =~= cs@);
        lemma_tokenize_len(cs@);
        let t = tokenize(cs@);
        assert(t =~~= Seq::<Seq<char>>::empty() + seq![Seq::<char>::empty() + t[0]] + t.skip(1));
        assert(done.deep_view() =~~= Seq::<Seq<char>>::empty());
    }
    while i < cs.len()
        invariant
            i <= cs@.len(),
            tokenize(cs@) =~~= done.deep_view() + seq![cur@ + tokenize(cs@.skip(i as int))[0]]
                + tokenize(cs@.skip(i as int)).skip(1),
        decreases cs@.len() - i,
    {
        let ghost ti = tokenize(cs@.skip(i as int));
        let ghost rest = tokenize(cs@.skip(i as int + 1));
        proof {
            lemma_tokenize_len(cs@.skip(i as int + 1));
            assert(cs@.skip(i as int)[0] == cs@[i as int]);
            assert(cs@.skip(i as int).skip(1) =~= cs@.skip(i as int + 1));
        }
        let c = cs[i];
        if c == ' ' {
            proof {
                assert(ti == seq![Seq::<char>::empty()] + rest);
                assert(ti[0] == Seq::<char>::empty());
                assert(ti.skip(1) =~~= rest);
                assert(rest =~~= seq![rest[0]] + rest.skip(1));
            }
            let ghost dv0 = done.deep_view();
            let ghost c0 = cur@;
            done.push(cur);
            cur = Vec::new();
            proof {
                assert(done.deep_view() =~~= dv0.push(c0));
                assert(c0 + ti[0] =~= c0);
                assert(cur@ + rest[0] =~= rest[0]);
                assert(dv0 + seq![c0 + ti[0]] + ti.skip(1) =~~= done.deep_view() + seq![
                    cur@ + rest[0],
                ] + rest.skip(1));
                assert(tokenize(cs@) =~~= done.deep_view() + seq![
                    cur@ + tokenize(cs@.skip(i as int + 1))[0],
                ] + tokenize(cs@.skip(i as int + 1)).skip(1));
            }
        } else {
            proof {
                assert(ti == seq![seq![cs@[i as int]] + rest[0]] + rest.skip(1));
                assert(ti[0] == seq![cs@[i as int]] + rest[0]);
                assert(ti.skip(1) =~~= rest.skip(1));
            }
            let ghost c0 = cur@;
            cur.push(c);
            proof {
                assert(cur@ =~= c0.push(c));
                assert(c0 + ti[0] =~= cur@ + rest[0]);
                assert(tokenize(cs@) =~~= done.deep_view() + seq![
                    cur@ + tokenize(cs@.skip(i as int + 1))[0],
                ] + tokenize(cs@.skip(i as int + 1)).skip(1));
            }
        }
        i = i + 1;
    }
    proof {
        assert(cs@.skip(cs@.len() as int) =~= Seq::<char>::empty());
        let te = tokenize(Seq::<char>::empty());
        assert(te == seq![Seq::<char>::empty()]);
        assert(tokenize(cs@) =~~= done.deep_view() + seq![cur@]);
    }
    let ghost dv0 = done.deep_view();
    let ghost c0 = cur@;
    done.push(cur);
    proof {
        assert(done.deep_view() =~~= dv0.push(c0));
        assert(done.deep_view() =~~= tokenize(cs@));
    }
    done
}

/// Whether a token spells the given word.
fn token_eq_str(t: &Vec<char>, w: &str) -> (r: bool)
    ensures
        r == (t@ == w@),
{
    let wn: usize = w.unicode_len();
    if t.len() != wn {
        proof {
            assert(t@.len() != w@.len());
        }
        return false;
    }
    let mut i: usize = 0;
    while i < wn
        invariant
            i <= wn,
            wn == w@.len(),
            t@.len() == wn,
            forall|k: int| 0 <= k < i ==> t@[k] == w@[k],
        decreases wn - i,
    {
        if t[i] != w.get_char(i) {
            return false;
        }
        i = i + 1;
    }
    proof {
        assert(t@ =~= w@);
    }
    true
}

/// A digit string is never negative.
proof fn lemma_digits_value_nonneg(t: Seq<char>)
    requires
        all_digits(t),
    ensures
        digits_value(t) >= 0,
    decreases t.len(),
{
    if t.len() > 0 {
        assert(all_digits(t.drop_last()));
        lemma_digits_value_nonneg(t.drop_last());
    }
}

/// A digit string is worth at least any of its prefixes.
proof fn lemma_digits_value_mono(t: Seq<char>, k: int)
    requires
        all_digits(t),
        0 <= k <= t.len(),
    ensures
        digits_value(t) >= digits_value(t.take(k)),
    decreases t.len() - k,
{
    if k == t.len() {
        assert(t.take(k) =~= t);
    } else {
        lemma_digits_value_mono(t, k + 1);
        assert(t.take(k + 1).drop_last() =~= t.take(k));
        assert(all_digits(t.take(k)));
        lemma_digits_value_nonneg(t.take(k));
        assert(digits_value(t.take(k + 1)) == digits_value(t.take(k)) * 10 + digit_val(
            t[k],
        ));
    }
}

/// Parses one integer token, rejecting values outside the `i32` range.
fn parse_int(t: &Vec<char>) -> (r: Option<i32>)
    ensures
        match r {
            Some(v) => is_int_token(t@) && fits_i32(int_token_value(t@)) && v as int
                == int_token_value(t@),
            None => !(is_int_token(t@) && fits_i32(int_token_value(t@))),
        },
{
    let neg = t.len() > 0 && t[0] == '-';
    let start: usize = if neg {
        1
    } else {
        0
    };
    if t.len() == start {
        return None;
    }
    let ghost digits = if neg {
        t@.skip(1)
    } else {
        t@
    };
    proof {
        assert(digits.len() == t@.len() - start);
    }
    let mut acc: u64 = 0;
    let mut i: usize = start;
    while i < t.len()
        invariant
            start <= i <= t@.len(),
            start == (if neg {
                1int
            } else {
                0int
            }),
            neg == (t@.len() > 0 && t@[0] == '-'),
            neg ==> t@.len() >= 2,
            !neg ==> t@.len() >= 1,
            digits == (if neg {
                t@.skip(1)
            } else {
                t@
            }),
            digits.len() == t@.len() - start,
            forall|m: int| 0 <= m < digits.len() ==> digits[m] == t@[m + start],
            forall|m: int| 0 <= m < i - start ==> is_digit(#[trigger] digits[m]),
            acc as int == digits_value(digits.take(i - start)),
            acc <= 0x8000_0000,
        decreases t@.len() - i,
    {
        let c = t[i];
        let cu: u32 = c as u32;
        proof {
            assert(c == digits[i - start]);
        }
        if cu < 48 || cu > 57 {
            proof {
                assert(!is_digit(digits[i - start]));
                assert(!all_digits(digits));
                assert(!is_int_token(t@));
            }
            return None;
        }
        let d: u64 = (cu - 48) as u64;
        acc = acc * 10 + d;
        proof {
            let k = i - start;
            assert(is_digit(digits[k]));
            assert(digits.take(k + 1).drop_last() =~= digits.take(k));
            assert(digits.take(k + 1).last() == digits[k]);
            assert(digit_val(digits[k]) == d as int);
            assert(digits_value(digits.take(k + 1)) == digits_value(digits.take(k)) * 10
                + digit_val(digits[k]));
        }
        if acc > 0x8000_0000 {
            proof {
                let k = i - start;
                if all_digits(digits) {
                    lemma_digits_value_mono(digits, k + 1);
                    assert(digits_value(digits) > 0x8000_0000);
                    assert(!fits_i32(int_token_value(t@)));
                }
            }
            return None;
        }
        i = i + 1;
    }
    proof {
        assert(digits.take(i - start) =~= digits);
        assert(all_digits(digits));
        assert(is_int_token(t@));
        if neg {
            assert(int_token_value(t@) == -digits_value(digits));
        } else {
            assert(int_token_value(t@) == digits_value(digits));
        }
    }
    if neg {
        let v: i32 = (-(acc as i64)) as i32;
        Some(v)
    } else {
        if acc == 0x8000_0000 {
            return None;
        }
        let v: i32 = acc as i32;
        Some(v)
    }
}

/// Parses one command line against the grammar.
pub fn parse_command(line: &str) -> (c: Command)
    ensures
        c == parse_spec(line@),
{
    let cs = line_chars(line);
    let toks = tokenize_exec(&cs);
    proof {
        lemma_tokenize_len(cs@);
        assert(toks@.len() == tokenize(line@).len());
        assert(forall|k: int|
            0 <= k < toks@.len() ==> (#[trigger] toks@[k])@ == tokenize(line@)[k]);
    }
    if toks.len() == 1 {
        if token_eq_str(&toks[0], "look") {
            proof {
                reveal_strlit("look");
                assert("look"@ =~= seq!['l', 'o', 'o', 'k']);
            }
            return Command::Look;
        }
        if token_eq_str(&toks[0], "help") {
            proof {
                reveal_strlit("help");
                assert("help"@ =~= seq!['h', 'e', 'l', 'p']);
            }
            return Command::Help;
        }
        if token_eq_str(&toks[0], "bye") {
            proof {
                reveal_strlit("bye");
                assert("bye"@ =~= seq!['b', 'y', 'e']);
            }
            return Command::Bye;
        }
        proof {
            reveal_strlit("look");
            reveal_strlit("help");
            reveal_strlit("bye");
            assert("look"@ =~= seq!['l', 'o', 'o', 'k']);
            assert("help"@ =~= seq!['h', 'e', 'l', 'p']);
            assert("bye"@ =~= seq!['b', 'y', 'e']);
        }
        return Command::Unknown;
    }
    if toks.len() == 3 {
        let v1 = parse_int(&toks[1]);
        let v2 = parse_int(&toks[2]);
        match (v1, v2) {
            (Some(x), Some(y)) => {
                if token_eq_str(&toks[0], "dig") {
                    proof {
                        reveal_strlit("dig");
                        assert("dig"@ =~= seq!['d', 'i', 'g']);
                    }
                    return Command::Dig(x, y);
                }
                if token_eq_str(&toks[0], "flag") {
                    proof {
                        reveal_strlit("flag");
                        assert("flag"@ =~= seq!['f', 'l', 'a', 'g']);
                    }
                    return Command::Flag(x, y);
                }
                if token_eq_str(&toks[0], "deflag") {
                    proof {
                        reveal_strlit("deflag");
                        assert("deflag"@ =~= seq!['d', 'e', 'f', 'l', 'a', 'g']);
                    }
                    return Command::Deflag(x, y);
                }
                proof {
                    reveal_strlit("dig");
                    reveal_strlit("flag");
                    reveal_strlit("deflag");
                    assert("dig"@ =~= seq!['d', 'i', 'g']);
                    assert("flag"@ =~= seq!['f', 'l', 'a', 'g']);
                    assert("deflag"@ =~= seq!['d', 'e', 'f', 'l', 'a', 'g']);
                }
                return Command::Unknown;
            },
            _ => {
                return Command::Unknown;
            },
        }
    }
    Command::Unknown
}

} // verus!
