//! Lexical layer for completed input lines: character classes, splitting a
//! line into whitespace-separated tokens, parsing a decimal `u32`, and
//! joining name tokens back together with single spaces.

use vstd::prelude::*;

verus! {

// --- character classes ---

pub open spec fn is_lower(c: char) -> bool {
    97 <= c as u32 && c as u32 <= 122
}

pub open spec fn is_upper(c: char) -> bool {
    65 <= c as u32 && c as u32 <= 90
}

pub open spec fn is_letter(c: char) -> bool {
    is_lower(c) || is_upper(c)
}

pub open spec fn is_digit(c: char) -> bool {
    48 <= c as u32 && c as u32 <= 57
}

pub fn lower(c: char) -> (r: bool)
    ensures
        r == is_lower(c),
{
    let u: u32 = c as u32;
    97 <= u && u <= 122
}

pub fn letter(c: char) -> (r: bool)
    ensures
        r == is_letter(c),
{
    let u: u32 = c as u32;
    (97 <= u && u <= 122) || (65 <= u && u <= 90)
}

pub fn digit(c: char) -> (r: bool)
    ensures
        r == is_digit(c),
{
    let u: u32 = c as u32;
    48 <= u && u <= 57
}

// --- decimal numbers ---

pub open spec fn digit_val(c: char) -> nat {
    (c as u32 - 48) as nat
}

pub open spec fn all_digits(s: Seq<char>) -> bool {
    forall|i: int| 0 <= i < s.len() ==> is_digit(s[i])
}

/// The value of a digit string read in base ten.
pub open spec fn digits_val(s: Seq<char>) -> nat
    decreases s.len(),
{
    if s.len() == 0 {
        0
    } else {
        digits_val(s.drop_last()) * 10 + digit_val(s.last())
    }
}

/// A digit string is worth at least as much as any of its prefixes.
pub proof fn lemma_digits_val_prefix(s: Seq<char>, i: int)
    requires
        0 <= i <= s.len(),
        all_digits(s),
    ensures
        digits_val(s.take(i)) <= digits_val(s),
    decreases s.len() - i,
{
    if i == s.len() {
        assert(s.take(i) =~= s);
    } else {
        assert(s.take(i + 1).drop_last() =~= s.take(i));
        assert(s.take(i + 1).last() == s[i]);
        assert(digits_val(s.take(i + 1)) == digits_val(s.take(i)) * 10 + digit_val(s[i]));
        lemma_digits_val_prefix(s, i + 1);
    }
}

/// What parsing a token as a `u32` yields: the base-ten value when the token
/// is one or more digits and the value fits, nothing otherwise.
pub open spec fn spec_parse_u32(s: Seq<char>) -> Option<u32> {
    if s.len() >= 1 && all_digits(s) && digits_val(s) <= u32::MAX {
        Some(digits_val(s) as u32)
    } else {
        None
    }
}

pub fn parse_u32(tok: &Vec<char>) -> (r: Option<u32>)
    ensures
        r == spec_parse_u32(tok@),
{
    if tok.len() == 0 {
        return None;
    }
    let mut acc: u64 = 0;
    let mut i: usize = 0;
    while i < tok.len()
        invariant
            0 <= i <= tok@.len(),
            all_digits(tok@.take(i as int)),
            acc == digits_val(tok@.take(i as int)),
            acc <= u32::MAX,
        decreases tok@.len() - i,
    {
        let c: char = tok[i];
        let u: u32 = c as u32;
        if !(48 <= u && u <= 57) {
            proof {
                assert(!is_digit(tok@[i as int]));
            }
            return None;
        }
        let d: u64 = (u - 48) as u64;
        let next: u64 = acc * 10 + d;
        proof {
            assert(tok@.take(i as int + 1).drop_last() =~= tok@.take(i as int));
            assert(tok@.take(i as int + 1).last() == tok@[i as int]);
            assert(digits_val(tok@.take(i as int + 1)) == acc * 10 + digit_val(tok@[i as int]));
        }
        if next > 0xffff_ffff {
            proof {
                if all_digits(tok@) {
                    lemma_digits_val_prefix(tok@, i as int + 1);
                }
            }
            return None;
        }
        acc = next;
        i = i + 1;
    }
    proof {
        assert(tok@.take(i as int) =~= tok@);
    }
    Some(acc as u32)
}

// --- splitting on spaces ---

/// Length of the longest space-free prefix.
pub open spec fn first_space(s: Seq<char>) -> nat
    decreases s.len(),
{
    if s.len() == 0 {
        0
    } else if s[0] == ' ' {
        0
    } else {
        1 + first_space(s.drop_first())
    }
}

pub proof fn lemma_first_space_le(s: Seq<char>)
    ensures
        first_space(s) <= s.len(),
    decreases s.len(),
{
    if s.len() > 0 && s[0] != ' ' {
        lemma_first_space_le(s.drop_first());
    }
}

/// If the first `m` characters are not spaces and position `m` is the end or
/// a space, the space-free prefix has length exactly `m`.
pub proof fn lemma_first_space_at(s: Seq<char>, m: int)
    requires
        0 <= m <= s.len(),
        forall|k: int| 0 <= k < m ==> s[k] != ' ',
        m == s.len() || s[m] == ' ',
    ensures
        first_space(s) == m,
    decreases m,
{
    if m == 0 {
    } else {
        assert(s[0] != ' ');
        let t = s.drop_first();
        assert forall|k: int| 0 <= k < m - 1 implies t[k] != ' ' by {
            assert(t[k] == s[k + 1]);
        }
        lemma_first_space_at(t, m - 1);
    }
}

/// The whitespace tokens of a line, in order: maximal runs of non-space
/// characters, with empty runs dropped.
pub open spec fn split_ws(s: Seq<char>) -> Seq<Seq<char>>
    decreases s.len(),
    via split_ws_decreases
{
    if s.len() == 0 {
        seq![]
    } else if s[0] == ' ' {
        split_ws(s.drop_first())
    } else {
        seq![s.take(first_space(s) as int)] + split_ws(s.skip(first_space(s) as int))
    }
}

#[via_fn]
proof fn split_ws_decreases(s: Seq<char>) {
    lemma_first_space_le(s);
}

/// A word suitable to stand as one token: non-empty and space-free.
pub open spec fn word_ok(w: Seq<char>) -> bool {
    w.len() >= 1 && forall|k: int| 0 <= k < w.len() ==> w[k] != ' '
}

/// A leading space never contributes a token.
pub proof fn lemma_split_space(s: Seq<char>)
    ensures
        split_ws(seq![' '] + s) == split_ws(s),
{
    let t = seq![' '] + s;
    assert(t[0] == ' ');
    assert(t.drop_first() =~= s);
}

/// A space-free word followed by a space (or the end) is the next token.
pub proof fn lemma_split_word(w: Seq<char>, rest: Seq<char>)
    requires
        word_ok(w),
        rest.len() == 0 || rest[0] == ' ',
    ensures
        split_ws(w + rest) == seq![w] + split_ws(rest),
{
    let s = w + rest;
    assert forall|k: int| 0 <= k < w.len() implies s[k] != ' ' by {
        assert(s[k] == w[k]);
    }
    lemma_first_space_at(s, w.len() as int);
    assert(s[0] != ' ');
    assert(s.take(w.len() as int) =~= w);
    assert(s.skip(w.len() as int) =~= rest);
}

// --- joining words ---

/// Words joined by single spaces.
pub open spec fn join_sp(ws: Seq<Seq<char>>) -> Seq<char>
    decreases ws.len(),
{
    if ws.len() == 0 {
        Seq::empty()
    } else if ws.len() == 1 {
        ws[0]
    } else {
        ws[0] + seq![' '] + join_sp(ws.drop_first())
    }
}

pub proof fn lemma_join_snoc(ws: Seq<Seq<char>>, w: Seq<char>)
    ensures
        ws.len() == 0 ==> join_sp(ws.push(w)) == w,
        ws.len() >= 1 ==> join_sp(ws.push(w)) == join_sp(ws) + seq![' '] + w,
    decreases ws.len(),
{
    let p = ws.push(w);
    if ws.len() == 0 {
        assert(p.len() == 1);
        assert(p[0] == w);
    } else if ws.len() == 1 {
        assert(p.len() == 2);
        assert(p.drop_first() =~= seq![w]);
        assert(join_sp(p.drop_first()) == w);
        assert(p[0] == ws[0]);
        assert(join_sp(ws) == ws[0]);
    } else {
        lemma_join_snoc(ws.drop_first(), w);
        assert(p.drop_first() =~= ws.drop_first().push(w));
        assert(join_sp(p) == p[0] + seq![' '] + join_sp(p.drop_first()));
        assert(p[0] == ws[0]);
        assert(join_sp(ws.drop_first().push(w)) == join_sp(ws.drop_first()) + seq![' '] + w);
        assert(ws[0] + seq![' '] + (join_sp(ws.drop_first()) + seq![' '] + w) =~= (ws[0]
            + seq![' '] + join_sp(ws.drop_first())) + seq![' '] + w);
    }
}

/// Splitting a line made of words joined by single spaces (followed by a
/// space-led or empty tail) recovers exactly those words, then the tail's.
pub proof fn lemma_split_join(ws: Seq<Seq<char>>, tail: Seq<char>)
    requires
        ws.len() >= 1,
        forall|i: int| 0 <= i < ws.len() ==> word_ok(#[trigger] ws[i]),
        tail.len() == 0 || tail[0] == ' ',
    ensures
        split_ws(join_sp(ws) + tail) == ws + split_ws(tail),
    decreases ws.len(),
{
    if ws.len() == 1 {
        assert(join_sp(ws) == ws[0]);
        lemma_split_word(ws[0], tail);
        assert(seq![ws[0]] =~= ws);
    } else {
        let rest = ws.drop_first();
        let inner = join_sp(rest) + tail;
        lemma_split_join(rest, tail);
        assert(join_sp(ws) == ws[0] + seq![' '] + join_sp(rest));
        assert(join_sp(ws) + tail =~= ws[0] + (seq![' '] + inner));
        assert((seq![' '] + inner).len() >= 1 && (seq![' '] + inner)[0] == ' ');
        lemma_split_word(ws[0], seq![' '] + inner);
        lemma_split_space(inner);
        assert(seq![ws[0]] + (rest + split_ws(tail)) =~= ws + split_ws(tail));
    }
}

// --- executable splitting and joining ---

/// Relies on String::push: appends the given character to the end of the string.
#[verifier::external_body]
fn push_char(s: &mut String, c: char)
    ensures
        final(s)@ == old(s)@.push(c),
{
    s.push(c);
}

/// The token vector seen as a sequence of character sequences.
pub open spec fn toks_view(toks: Seq<Vec<char>>) -> Seq<Seq<char>> {
    Seq::new(toks.len(), |i: int| toks[i]@)
}

pub fn split_tokens(line: &Vec<char>) -> (toks: Vec<Vec<char>>)
    ensures
        toks_view(toks@) == split_ws(line@),
{
    let mut toks: Vec<Vec<char>> = Vec::new();
    let mut i: usize = 0;
    proof {
        assert(line@.skip(0) =~= line@);
        assert(toks_view(toks@) + split_ws(line@) =~= split_ws(line@));
    }
    while i < line.len()
        invariant
            0 <= i <= line@.len(),
            split_ws(line@) == toks_view(toks@) + split_ws(line@.skip(i as int)),
        decreases line@.len() - i,
    {
        if line[i] == ' ' {
            proof {
                let s = line@.skip(i as int);
                assert(s[0] == ' ');
                assert(s.drop_first() =~= line@.skip(i as int + 1));
            }
            i = i + 1;
        } else {
            let start: usize = i;
            let mut word: Vec<char> = Vec::new();
            let mut j: usize = i;
            while j < line.len() && line[j] != ' '
                invariant
                    0 <= start <= j <= line@.len(),
                    word@ == line@.subrange(start as int, j as int),
                    forall|k: int| start <= k < j ==> line@[k] != ' ',
                decreases line@.len() - j,
            {
                word.push(line[j]);
                proof {
                    assert(word@ =~= line@.subrange(start as int, j as int + 1));
                }
                j = j + 1;
            }
            proof {
                let s = line@.skip(start as int);
                assert forall|k: int| 0 <= k < j - start implies s[k] != ' ' by {
                    assert(s[k] == line@[start + k]);
                }
                assert(j == line@.len() || s[j - start] == ' ');
                lemma_first_space_at(s, j - start);
                assert(s[0] != ' ');
                assert(s.take(j - start) =~= word@);
                assert(s.skip(j - start) =~= line@.skip(j as int));
                assert(split_ws(s) == seq![word@] + split_ws(line@.skip(j as int)));
            }
            let ghost old_toks = toks_view(toks@);
            toks.push(word);
            proof {
                assert(toks_view(toks@) =~= old_toks.push(word@));
                assert(old_toks.push(word@) + split_ws(line@.skip(j as int)) =~= old_toks + (
                seq![word@] + split_ws(line@.skip(j as int))));
            }
            i = j;
        }
    }
    proof {
        assert(line@.skip(i as int) =~= Seq::<char>::empty());
        assert(split_ws(line@.skip(i as int)) =~= Seq::<Seq<char>>::empty());
        assert(toks_view(toks@) + split_ws(line@.skip(i as int)) =~= toks_view(toks@));
    }
    toks
}

/// Builds the string of `toks[from..to]` joined by single spaces.
pub fn join_words(toks: &Vec<Vec<char>>, from: usize, to: usize) -> (r: String)
    requires
        from <= to <= toks@.len(),
    ensures
        r@ == join_sp(toks_view(toks@).subrange(from as int, to as int)),
{
    let mut r = String::new();
    let mut k: usize = from;
    proof {
        assert(toks_view(toks@).subrange(from as int, from as int) =~= Seq::<Seq<char>>::empty());
    }
    while k < to
        invariant
            from <= k <= to <= toks@.len(),
            r@ == join_sp(toks_view(toks@).subrange(from as int, k as int)),
        decreases to - k,
    {
        if k > from {
            push_char(&mut r, ' ');
        }
        let w: &Vec<char> = &toks[k];
        let mut t: usize = 0;
        let ghost before = r@;
        while t < w.len()
            invariant
                0 <= t <= w@.len(),
                r@ == before + w@.take(t as int),
            decreases w@.len() - t,
        {
            push_char(&mut r, w[t]);
            proof {
                assert(before + w@.take(t as int + 1) =~= (before + w@.take(t as int)).push(
                w@[t as int]));
            }
            t = t + 1;
        }
        proof {
            let sub = toks_view(toks@).subrange(from as int, k as int);
            lemma_join_snoc(sub, w@);
            assert(w@.take(w@.len() as int) =~= w@);
            assert(toks_view(toks@).subrange(from as int, k as int + 1) =~= sub.push(
            toks_view(toks@)[k as int]));
            assert(toks_view(toks@)[k as int] == w@);
            if k == from {
                assert(before =~= Seq::<char>::empty());
                assert(before + w@ =~= w@);
            } else {
                assert(before + w@ =~= join_sp(sub) + seq![' '] + w@);
            }
        }
        k = k + 1;
    }
    r
}

} // verus!
