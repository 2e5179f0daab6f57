//! Lexical ground floor of the level text format: byte classes, line
//! splitting, whitespace tokenization, and decimal number parsing and
//! rendering, each with an exact specification.

use vstd::prelude::*;

verus! {

/// ASCII whitespace as the format understands it: space, tab, line feed,
/// vertical tab, form feed and carriage return.
pub open spec fn is_ws(b: u8) -> bool {
    b == 32 || (9 <= b && b <= 13)
}

/// ASCII decimal digit.
pub open spec fn is_digit(b: u8) -> bool {
    48 <= b && b <= 57
}

/// The value of a digit string, most significant digit first.
pub open spec fn digits_val(s: Seq<u8>) -> int
    decreases s.len(),
{
    if s.len() == 0 {
        0
    } else {
        digits_val(s.drop_last()) * 10 + (s.last() - 48)
    }
}

/// Every byte of `s` is a decimal digit.
pub open spec fn all_digits(s: Seq<u8>) -> bool {
    forall|i: int| 0 <= i < s.len() ==> is_digit(#[trigger] s[i])
}

/// What parsing a `u16` field accepts: one or more digits whose value fits.
/// Leading zeros are allowed; a sign is not.
pub open spec fn spec_parse_u16(s: Seq<u8>) -> Option<u16> {
    if s.len() > 0 && all_digits(s) && digits_val(s) <= 65535 {
        Some(digits_val(s) as u16)
    } else {
        None
    }
}

/// What parsing an `i16` field accepts: an optional leading minus sign,
/// then one or more digits, the value in the type's range.
pub open spec fn spec_parse_i16(s: Seq<u8>) -> Option<i16> {
    if s.len() == 0 {
        None
    } else if s[0] == 45 {
        let d = s.drop_first();
        if d.len() > 0 && all_digits(d) && digits_val(d) <= 32768 {
            Some((-digits_val(d)) as i16)
        } else {
            None
        }
    } else {
        if all_digits(s) && digits_val(s) <= 32767 {
            Some(digits_val(s) as i16)
        } else {
            None
        }
    }
}

/// The value of a digit string is never negative.
pub proof fn lemma_digits_val_nonneg(s: Seq<u8>)
    requires
        all_digits(s),
    ensures
        digits_val(s) >= 0,
    decreases s.len(),
{
    if s.len() > 0 {
        assert(all_digits(s.drop_last())) by {
            assert(forall|i: int|
                0 <= i < s.len() - 1 ==> s.drop_last()[i] == #[trigger] s[i]);
        }
        lemma_digits_val_nonneg(s.drop_last());
    }
}

/// Extending a digit string can only increase its value.
pub proof fn lemma_digits_val_prefix_mono(s: Seq<u8>, i: int)
    requires
        all_digits(s),
        0 <= i <= s.len(),
    ensures
        digits_val(s.take(i)) <= digits_val(s),
    decreases s.len() - i,
{
    if i == s.len() {
        assert(s.take(i) =~= s);
    } else {
        lemma_digits_val_prefix_mono(s, i + 1);
        let t = s.take(i + 1);
        assert(t.drop_last() =~= s.take(i));
        assert(all_digits(s.take(i))) by {
            assert(forall|k: int|
                0 <= k < i ==> s.take(i)[k] == #[trigger] s[k]);
        }
        lemma_digits_val_nonneg(s.take(i));
        assert(t.last() == s[i]);
        assert(is_digit(s[i]));
        assert(digits_val(t) == digits_val(s.take(i)) * 10 + (t.last() - 48));
        assert(digits_val(s.take(i)) <= digits_val(t));
    }
}

/// Reads the digits of `tok` from position `from` on as a decimal value,
/// refusing values above `cap` and any non-digit content.
pub fn digits_value(tok: &Vec<u8>, from: usize, cap: u32) -> (r: Option<u32>)
    requires
        from <= tok@.len(),
        cap <= 0xFFFF,
    ensures
        match r {
            Some(v) => {
                &&& tok@.len() > from
                &&& all_digits(tok@.skip(from as int))
                &&& digits_val(tok@.skip(from as int)) == v
                &&& v <= cap
            },
            None => !{
                &&& tok@.len() > from
                &&& all_digits(tok@.skip(from as int))
                &&& digits_val(tok@.skip(from as int)) <= cap
            },
        },
{
    let ghost t = tok@.skip(from as int);
    if tok.len() == from {
        return None;
    }
    let mut i: usize = from;
    let mut acc: u32 = 0;
    while i < tok.len()
        invariant
            from <= i <= tok@.len(),
            cap <= 0xFFFF,
            t == tok@.skip(from as int),
            acc == digits_val(t.take(i - from)),
            all_digits(t.take(i - from)),
            acc <= cap,
        decreases tok@.len() - i,
    {
        let b = tok[i];
        proof {
            assert(t[i - from] == tok@[i as int]);
        }
        if b < 48 || b > 57 {
            proof {
                assert(!all_digits(t)) by {
                    assert(!is_digit(t[i - from]));
                }
            }
            return None;
        }
        let v = acc * 10 + (b - 48) as u32;
        proof {
            let g = t.take(i - from + 1);
            assert(g.drop_last() =~= t.take(i - from));
            assert(g.last() == t[i - from]);
            assert(all_digits(g)) by {
                assert(forall|k: int|
                    0 <= k < g.len() - 1 ==> g[k] == #[trigger] t.take(i - from)[k]);
            }
        }
        if v > cap {
            proof {
                if all_digits(t) && digits_val(t) <= cap {
                    lemma_digits_val_prefix_mono(t, i - from + 1);
                    lemma_digits_val_nonneg(t.take(i - from + 1));
                }
            }
            return None;
        }
        acc = v;
        i = i + 1;
    }
    proof {
        assert(t.take(t.len() as int) =~= t);
    }
    Some(acc)
}

/// Parses a `u16` field: digits only, value in range.
pub fn parse_u16(tok: &Vec<u8>) -> (r: Option<u16>)
    ensures
        r == spec_parse_u16(tok@),
{
    proof {
        assert(tok@.skip(0) =~= tok@);
    }
    match digits_value(tok, 0, 65535) {
        Some(v) => Some(v as u16),
        None => None,
    }
}

/// Parses an `i16` field: an optional minus sign, then digits, in range.
pub fn parse_i16(tok: &Vec<u8>) -> (r: Option<i16>)
    ensures
        r == spec_parse_i16(tok@),
{
    if tok.len() == 0 {
        return None;
    }
    if tok[0] == 45 {
        proof {
            assert(tok@.skip(1) =~= tok@.drop_first());
        }
        match digits_value(tok, 1, 32768) {
            Some(v) => Some(-(v as i32) as i16),
            None => None,
        }
    } else {
        proof {
            assert(tok@.skip(0) =~= tok@);
        }
        match digits_value(tok, 0, 32767) {
            Some(v) => Some(v as i16),
            None => None,
        }
    }
}

/// The canonical decimal rendering of a non-negative number: no sign, no
/// leading zeros (except for zero itself).
pub open spec fn spec_render_u16(n: int) -> Seq<u8>
    decreases n,
{
    if n < 10 {
        seq![(48 + (if n >= 0 { n } else { 0 })) as u8]
    } else {
        spec_render_u16(n / 10).push((48 + n % 10) as u8)
    }
}

/// The canonical decimal rendering of a signed number: a minus sign before
/// the magnitude when negative.
pub open spec fn spec_render_i16(n: int) -> Seq<u8> {
    if n < 0 {
        seq![45u8] + spec_render_u16(-n)
    } else {
        spec_render_u16(n)
    }
}

/// Renders `n` in decimal.
pub fn render_u16(n: u16) -> (r: Vec<u8>)
    ensures
        r@ == spec_render_u16(n as int),
    decreases n,
{
    if n < 10 {
        let mut v: Vec<u8> = Vec::new();
        v.push(48 + n as u8);
        proof {
            assert(v@ =~= spec_render_u16(n as int));
        }
        v
    } else {
        let mut v = render_u16(n / 10);
        v.push(48 + (n % 10) as u8);
        v
    }
}

/// Renders `n` in decimal, sign included.
pub fn render_i16(n: i16) -> (r: Vec<u8>)
    ensures
        r@ == spec_render_i16(n as int),
{
    if n < 0 {
        let m = -(n as i32);
        let mut v: Vec<u8> = Vec::new();
        v.push(45);
        let digits = render_u16(m as u16);
        let mut i: usize = 0;
        while i < digits.len()
            invariant
                i <= digits@.len(),
                v@ == seq![45u8] + digits@.take(i as int),
            decreases digits@.len() - i,
        {
            v.push(digits[i]);
            proof {
                assert(seq![45u8] + digits@.take(i + 1) =~= (seq![45u8] + digits@.take(
                    i as int,
                )).push(digits@[i as int]));
            }
            i = i + 1;
        }
        proof {
            assert(digits@.take(digits@.len() as int) =~= digits@);
        }
        v
    } else {
        render_u16(n as u16)
    }
}

/// A rendered number consists of digits: it parses back to the same value,
/// and no byte of it is whitespace or a separator character.
pub proof fn lemma_render_u16_digits(n: int)
    requires
        n >= 0,
    ensures
        spec_render_u16(n).len() >= 1,
        all_digits(spec_render_u16(n)),
        digits_val(spec_render_u16(n)) == n,
    decreases n,
{
    if n < 10 {
        let s = spec_render_u16(n);
        assert(s =~= seq![(48 + n) as u8]);
        assert(s.drop_last() =~= Seq::<u8>::empty());
        assert(digits_val(Seq::<u8>::empty()) == 0);
        assert(s.last() == (48 + n) as u8);
        assert(digits_val(s) == digits_val(s.drop_last()) * 10 + (s.last() - 48));
    } else {
        lemma_render_u16_digits(n / 10);
        let s = spec_render_u16(n);
        let p = spec_render_u16(n / 10);
        assert(s == p.push((48 + n % 10) as u8));
        assert(s.drop_last() =~= p);
        assert(all_digits(s)) by {
            assert(forall|i: int| 0 <= i < p.len() ==> s[i] == #[trigger] p[i]);
            assert(is_digit(s[s.len() - 1]));
        }
        assert(s.last() == (48 + n % 10) as u8);
        assert(digits_val(s) == digits_val(p) * 10 + (s.last() - 48));
        assert(n / 10 * 10 + n % 10 == n);
    }
}

/// Round trip for unsigned fields: parsing a rendered `u16` gives the value
/// back.
pub proof fn lemma_parse_render_u16(n: int)
    requires
        0 <= n <= 65535,
    ensures
        spec_parse_u16(spec_render_u16(n)) == Some(n as u16),
{
    lemma_render_u16_digits(n);
}

/// A well-formed token: a nonempty run of non-whitespace bytes, exactly
/// what whitespace splitting can produce.
pub open spec fn token_wf(t: Seq<u8>) -> bool {
    t.len() > 0 && forall|i: int| 0 <= i < t.len() ==> !is_ws(#[trigger] t[i])
}

/// Whitespace splitting of the remainder `s`, with `cur` the token bytes
/// already gathered; tokens appear in input order.
pub open spec fn spec_tokens_rec(s: Seq<u8>, cur: Seq<u8>) -> Seq<Seq<u8>>
    decreases s.len(),
{
    if s.len() == 0 {
        if cur.len() == 0 {
            Seq::empty()
        } else {
            seq![cur]
        }
    } else if is_ws(s[0]) {
        (if cur.len() == 0 {
            Seq::empty()
        } else {
            seq![cur]
        }) + spec_tokens_rec(s.drop_first(), Seq::empty())
    } else {
        spec_tokens_rec(s.drop_first(), cur.push(s[0]))
    }
}

/// The whitespace-separated tokens of a line.
pub open spec fn spec_tokens(line: Seq<u8>) -> Seq<Seq<u8>> {
    spec_tokens_rec(line, Seq::empty())
}

/// Every token that whitespace splitting yields is nonempty and free of
/// whitespace.
pub proof fn lemma_tokens_rec_wf(s: Seq<u8>, cur: Seq<u8>)
    requires
        forall|i: int| 0 <= i < cur.len() ==> !is_ws(#[trigger] cur[i]),
    ensures
        forall|i: int|
            0 <= i < spec_tokens_rec(s, cur).len() ==> token_wf(
                #[trigger] spec_tokens_rec(s, cur)[i],
            ),
    decreases s.len(),
{
    if s.len() == 0 {
        if cur.len() > 0 {
            assert(spec_tokens_rec(s, cur)[0] == cur);
        }
    } else if is_ws(s[0]) {
        lemma_tokens_rec_wf(s.drop_first(), Seq::empty());
        let pre: Seq<Seq<u8>> = if cur.len() == 0 {
            Seq::empty()
        } else {
            seq![cur]
        };
        let rest = spec_tokens_rec(s.drop_first(), Seq::empty());
        assert forall|i: int| 0 <= i < (pre + rest).len() implies token_wf(
            #[trigger] (pre + rest)[i],
        ) by {
            if i < pre.len() {
                assert((pre + rest)[i] == cur);
            } else {
                assert((pre + rest)[i] == rest[i - pre.len()]);
            }
        }
        assert(spec_tokens_rec(s, cur) == pre + rest);
    } else {
        assert(forall|i: int|
            0 <= i < cur.push(s[0]).len() ==> !is_ws(#[trigger] cur.push(s[0])[i]));
        lemma_tokens_rec_wf(s.drop_first(), cur.push(s[0]));
        assert(spec_tokens_rec(s, cur) == spec_tokens_rec(s.drop_first(), cur.push(s[0])));
    }
}

/// As `lemma_tokens_rec_wf`, for a whole line.
pub proof fn lemma_tokens_wf(line: Seq<u8>)
    ensures
        forall|i: int|
            0 <= i < spec_tokens(line).len() ==> token_wf(#[trigger] spec_tokens(line)[i]),
{
    lemma_tokens_rec_wf(line, Seq::empty());
}

/// Splits a line into its whitespace-separated tokens.
pub fn tokenize(line: &Vec<u8>) -> (r: Vec<Vec<u8>>)
    ensures
        r@.len() == spec_tokens(line@).len(),
        forall|i: int| 0 <= i < r@.len() ==> r@[i]@ == spec_tokens(line@)[i],
{
    let mut toks: Vec<Vec<u8>> = Vec::new();
    let mut cur: Vec<u8> = Vec::new();
    let mut pos: usize = 0;
    proof {
        assert(line@.skip(0) =~= line@);
        assert(toks@.map_values(|v: Vec<u8>| v@) =~= Seq::<Seq<u8>>::empty());
        assert(Seq::<Seq<u8>>::empty() + spec_tokens(line@) =~= spec_tokens(line@));
    }
    while pos < line.len()
        invariant
            pos <= line@.len(),
            spec_tokens(line@) == toks@.map_values(|v: Vec<u8>| v@) + spec_tokens_rec(
                line@.skip(pos as int),
                cur@,
            ),
        decreases line@.len() - pos,
    {
        let b = line[pos];
        proof {
            assert(line@.skip(pos as int)[0] == line@[pos as int]);
            assert(line@.skip(pos as int).drop_first() =~= line@.skip(pos + 1));
        }
        if b == 32 || (9 <= b && b <= 13) {
            proof {
                assert(is_ws(line@[pos as int]));
            }
            if cur.len() > 0 {
                let ghost before = toks@;
                let ghost curv = cur@;
                let t = cur;
                cur = Vec::new();
                toks.push(t);
                proof {
                    let f = |v: Vec<u8>| v@;
                    let rest = spec_tokens_rec(line@.skip(pos + 1), Seq::empty());
                    assert(spec_tokens_rec(line@.skip(pos as int), curv) == seq![curv] + rest);
                    assert(toks@.map_values(f) =~= before.map_values(f).push(curv));
                    assert(before.map_values(f).push(curv) + rest =~= before.map_values(f) + (
                    seq![curv] + rest));
                    assert(spec_tokens(line@) == toks@.map_values(f) + spec_tokens_rec(
                        line@.skip(pos + 1),
                        cur@,
                    ));
                }
            } else {
                proof {
                    let f = |v: Vec<u8>| v@;
                    let rest = spec_tokens_rec(line@.skip(pos + 1), Seq::empty());
                    assert(spec_tokens_rec(line@.skip(pos as int), cur@) == Seq::<
                        Seq<u8>,
                    >::empty() + rest);
                    assert(Seq::<Seq<u8>>::empty() + rest =~= rest);
                    assert(cur@ =~= Seq::<u8>::empty());
                    assert(spec_tokens(line@) == toks@.map_values(f) + spec_tokens_rec(
                        line@.skip(pos + 1),
                        cur@,
                    ));
                }
            }
        } else {
            let ghost curv = cur@;
            cur.push(b);
            proof {
                let f = |v: Vec<u8>| v@;
                assert(!is_ws(line@[pos as int]));
                assert(spec_tokens_rec(line@.skip(pos as int), curv) == spec_tokens_rec(
                    line@.skip(pos + 1),
                    curv.push(b),
                ));
                assert(spec_tokens(line@) == toks@.map_values(f) + spec_tokens_rec(
                    line@.skip(pos + 1),
                    cur@,
                ));
            }
        }
        pos = pos + 1;
    }
    proof {
        assert(line@.skip(line@.len() as int) =~= Seq::<u8>::empty());
    }
    if cur.len() > 0 {
        let ghost before = toks@;
        toks.push(cur);
        proof {
            assert(toks@.map_values(|v: Vec<u8>| v@) =~= before.map_values(|v: Vec<u8>| v@).push(
                toks@.last()@,
            ));
        }
    } else {
        proof {
            assert(toks@.map_values(|v: Vec<u8>| v@) + Seq::<Seq<u8>>::empty() =~= toks@.map_values(
                |v: Vec<u8>| v@,
            ));
        }
    }
    toks
}

/// A terminated line with a trailing carriage return has it stripped.
pub open spec fn strip_cr(line: Seq<u8>) -> Seq<u8> {
    if line.len() > 0 && line.last() == 13 {
        line.drop_last()
    } else {
        line
    }
}

/// Line splitting of the remainder `s`, with `cur` the bytes of the line
/// being gathered: lines break at line feeds, a carriage return directly
/// before a line feed is dropped, and a final unterminated line counts
/// unless it is empty.
pub open spec fn spec_lines_rec(s: Seq<u8>, cur: Seq<u8>) -> Seq<Seq<u8>>
    decreases s.len(),
{
    if s.len() == 0 {
        if cur.len() == 0 {
            Seq::empty()
        } else {
            seq![cur]
        }
    } else if s[0] == 10 {
        seq![strip_cr(cur)] + spec_lines_rec(s.drop_first(), Seq::empty())
    } else {
        spec_lines_rec(s.drop_first(), cur.push(s[0]))
    }
}

/// The lines of the level text.
pub open spec fn spec_lines(s: Seq<u8>) -> Seq<Seq<u8>> {
    spec_lines_rec(s, Seq::empty())
}

/// A section separator: a nonempty line consisting solely of `=` bytes.
pub open spec fn is_sep_line(line: Seq<u8>) -> bool {
    line.len() > 0 && forall|i: int| 0 <= i < line.len() ==> #[trigger] line[i] == 61
}

/// Whether the line is a section separator.
pub fn sep_line(line: &Vec<u8>) -> (r: bool)
    ensures
        r == is_sep_line(line@),
{
    if line.len() == 0 {
        return false;
    }
    let mut i: usize = 0;
    while i < line.len()
        invariant
            i <= line@.len(),
            forall|k: int| 0 <= k < i ==> #[trigger] line@[k] == 61,
        decreases line@.len() - i,
    {
        if line[i] != 61 {
            return false;
        }
        i = i + 1;
    }
    true
}

/// A rendered unsigned number is a well-formed token.
pub proof fn lemma_render_u16_token_wf(n: int)
    requires
        n >= 0,
    ensures
        token_wf(spec_render_u16(n)),
{
    lemma_render_u16_digits(n);
    assert(forall|i: int|
        0 <= i < spec_render_u16(n).len() ==> is_digit(#[trigger] spec_render_u16(n)[i]));
}

/// A rendered signed number is a well-formed token.
pub proof fn lemma_render_i16_token_wf(n: int)
    ensures
        token_wf(spec_render_i16(n)),
{
    if n < 0 {
        lemma_render_u16_token_wf(-n);
        let s = spec_render_i16(n);
        let d = spec_render_u16(-n);
        assert(s == seq![45u8] + d);
        assert forall|i: int| 0 <= i < s.len() implies !is_ws(#[trigger] s[i]) by {
            if i == 0 {
                assert(s[0] == 45);
            } else {
                assert(s[i] == d[i - 1]);
            }
        }
    } else {
        lemma_render_u16_token_wf(n);
    }
}

/// A line made of tokens joined by single spaces.
pub open spec fn render_tokens(toks: Seq<Seq<u8>>) -> Seq<u8>
    decreases toks.len(),
{
    if toks.len() == 0 {
        Seq::empty()
    } else if toks.len() == 1 {
        toks[0]
    } else {
        toks[0] + seq![32u8] + render_tokens(toks.drop_first())
    }
}

/// A text made of lines each terminated by a line feed.
pub open spec fn render_lines(lines: Seq<Seq<u8>>) -> Seq<u8>
    decreases lines.len(),
{
    if lines.len() == 0 {
        Seq::empty()
    } else {
        lines[0] + seq![10u8] + render_lines(lines.drop_first())
    }
}

/// Appending a token to a nonempty line adds one space and the token.
pub proof fn lemma_render_tokens_push(ts: Seq<Seq<u8>>, t: Seq<u8>)
    requires
        ts.len() >= 1,
    ensures
        render_tokens(ts.push(t)) == render_tokens(ts) + seq![32u8] + t,
    decreases ts.len(),
{
    if ts.len() == 1 {
        let p = ts.push(t);
        assert(p[0] == ts[0]);
        assert(p.drop_first() =~= seq![t]);
        assert(render_tokens(seq![t]) == t);
        assert(render_tokens(p) == ts[0] + seq![32u8] + t);
        assert(render_tokens(ts) == ts[0]);
    } else {
        let p = ts.push(t);
        assert(p[0] == ts[0]);
        assert(p.drop_first() =~= ts.drop_first().push(t));
        lemma_render_tokens_push(ts.drop_first(), t);
        assert(ts[0] + seq![32u8] + (render_tokens(ts.drop_first()) + seq![32u8] + t) =~= (ts[0]
            + seq![32u8] + render_tokens(ts.drop_first())) + seq![32u8] + t);
    }
}

/// Appending a line to a text adds the line and one line feed.
pub proof fn lemma_render_lines_push(ls: Seq<Seq<u8>>, l: Seq<u8>)
    ensures
        render_lines(ls.push(l)) == render_lines(ls) + l + seq![10u8],
    decreases ls.len(),
{
    if ls.len() == 0 {
        let p = ls.push(l);
        assert(p[0] == l);
        assert(p.drop_first() =~= Seq::<Seq<u8>>::empty());
        assert(render_lines(Seq::<Seq<u8>>::empty()) == Seq::<u8>::empty());
        assert(render_lines(p) == l + seq![10u8] + Seq::<u8>::empty());
        assert(l + seq![10u8] + Seq::<u8>::empty() =~= Seq::<u8>::empty() + l + seq![10u8]);
    } else {
        let p = ls.push(l);
        assert(p[0] == ls[0]);
        assert(p.drop_first() =~= ls.drop_first().push(l));
        lemma_render_lines_push(ls.drop_first(), l);
        assert(ls[0] + seq![10u8] + (render_lines(ls.drop_first()) + l + seq![10u8]) =~= (ls[0]
            + seq![10u8] + render_lines(ls.drop_first())) + l + seq![10u8]);
    }
}

/// Leading non-whitespace bytes accumulate into the open token.
pub proof fn lemma_tokens_accum(t: Seq<u8>, s: Seq<u8>, cur: Seq<u8>)
    requires
        forall|i: int| 0 <= i < t.len() ==> !is_ws(#[trigger] t[i]),
    ensures
        spec_tokens_rec(t + s, cur) == spec_tokens_rec(s, cur + t),
    decreases t.len(),
{
    if t.len() == 0 {
        assert(t + s =~= s);
        assert(cur + t =~= cur);
    } else {
        assert((t + s)[0] == t[0]);
        assert(!is_ws(t[0]));
        assert((t + s).drop_first() =~= t.drop_first() + s);
        assert(forall|i: int|
            0 <= i < t.drop_first().len() ==> !is_ws(#[trigger] t.drop_first()[i]));
        lemma_tokens_accum(t.drop_first(), s, cur.push(t[0]));
        assert(cur.push(t[0]) + t.drop_first() =~= cur + t);
    }
}

/// Tokenizing a line of rendered tokens gives the tokens back.
pub proof fn lemma_tokens_of_render(toks: Seq<Seq<u8>>)
    requires
        forall|i: int| 0 <= i < toks.len() ==> token_wf(#[trigger] toks[i]),
    ensures
        spec_tokens(render_tokens(toks)) == toks,
    decreases toks.len(),
{
    if toks.len() == 0 {
        assert(spec_tokens(render_tokens(toks)) =~= toks);
    } else if toks.len() == 1 {
        lemma_tokens_accum(toks[0], Seq::empty(), Seq::empty());
        assert(toks[0] + Seq::<u8>::empty() =~= toks[0]);
        assert(Seq::<u8>::empty() + toks[0] =~= toks[0]);
        assert(spec_tokens_rec(Seq::<u8>::empty(), toks[0]) == seq![toks[0]]);
        assert(spec_tokens(render_tokens(toks)) =~= toks);
    } else {
        let rest = toks.drop_first();
        let tail = seq![32u8] + render_tokens(rest);
        assert(render_tokens(toks) =~= toks[0] + tail);
        lemma_tokens_accum(toks[0], tail, Seq::empty());
        assert(Seq::<u8>::empty() + toks[0] =~= toks[0]);
        assert(tail[0] == 32);
        assert(is_ws(tail[0]));
        assert(tail.drop_first() =~= render_tokens(rest));
        assert(forall|i: int| 0 <= i < rest.len() ==> token_wf(#[trigger] rest[i]));
        lemma_tokens_of_render(rest);
        assert(spec_tokens_rec(tail, toks[0]) == seq![toks[0]] + spec_tokens_rec(
            render_tokens(rest),
            Seq::empty(),
        ));
        assert(seq![toks[0]] + rest =~= toks);
    }
}

/// A rendered token line holds no line feed and no carriage return.
pub proof fn lemma_render_tokens_no_nl(toks: Seq<Seq<u8>>)
    requires
        forall|i: int| 0 <= i < toks.len() ==> token_wf(#[trigger] toks[i]),
    ensures
        forall|j: int|
            0 <= j < render_tokens(toks).len() ==> #[trigger] render_tokens(toks)[j] != 10
                && render_tokens(toks)[j] != 13,
    decreases toks.len(),
{
    if toks.len() == 0 {
    } else if toks.len() == 1 {
        assert(render_tokens(toks) == toks[0]);
        assert(forall|j: int|
            0 <= j < toks[0].len() ==> !is_ws(#[trigger] toks[0][j]));
    } else {
        let rest = toks.drop_first();
        assert(forall|i: int| 0 <= i < rest.len() ==> token_wf(#[trigger] rest[i]));
        lemma_render_tokens_no_nl(rest);
        let r = render_tokens(toks);
        let head = toks[0] + seq![32u8];
        assert(r == head + render_tokens(rest));
        assert forall|j: int| 0 <= j < r.len() implies #[trigger] r[j] != 10 && r[j] != 13 by {
            if j < head.len() {
                assert(r[j] == head[j]);
                if j < toks[0].len() {
                    assert(head[j] == toks[0][j]);
                    assert(!is_ws(toks[0][j]));
                } else {
                    assert(head[j] == 32);
                }
            } else {
                assert(r[j] == render_tokens(rest)[j - head.len()]);
            }
        }
    }
}

/// Leading non-line-feed bytes accumulate into the open line.
pub proof fn lemma_lines_accum(l: Seq<u8>, s: Seq<u8>, cur: Seq<u8>)
    requires
        forall|i: int| 0 <= i < l.len() ==> #[trigger] l[i] != 10,
    ensures
        spec_lines_rec(l + s, cur) == spec_lines_rec(s, cur + l),
    decreases l.len(),
{
    if l.len() == 0 {
        assert(l + s =~= s);
        assert(cur + l =~= cur);
    } else {
        assert((l + s)[0] == l[0]);
        assert((l + s).drop_first() =~= l.drop_first() + s);
        assert(forall|i: int|
            0 <= i < l.drop_first().len() ==> #[trigger] l.drop_first()[i] != 10);
        lemma_lines_accum(l.drop_first(), s, cur.push(l[0]));
        assert(cur.push(l[0]) + l.drop_first() =~= cur + l);
    }
}

/// Splitting a rendered text into lines gives the lines back, provided no
/// line holds a line feed or carriage return.
pub proof fn lemma_lines_of_render(lines: Seq<Seq<u8>>)
    requires
        forall|i: int, j: int|
            0 <= i < lines.len() && 0 <= j < lines[i].len() ==> #[trigger] lines[i][j] != 10
                && lines[i][j] != 13,
    ensures
        spec_lines(render_lines(lines)) == lines,
    decreases lines.len(),
{
    if lines.len() == 0 {
        assert(spec_lines(render_lines(lines)) =~= lines);
    } else {
        let l0 = lines[0];
        let rest = lines.drop_first();
        let tail = seq![10u8] + render_lines(rest);
        assert(render_lines(lines) =~= l0 + tail);
        assert(forall|j: int| 0 <= j < l0.len() ==> #[trigger] l0[j] != 10 && l0[j] != 13);
        lemma_lines_accum(l0, tail, Seq::empty());
        assert(Seq::<u8>::empty() + l0 =~= l0);
        assert(tail[0] == 10);
        assert(tail.drop_first() =~= render_lines(rest));
        assert(strip_cr(l0) == l0);
        assert(forall|i: int, j: int|
            0 <= i < rest.len() && 0 <= j < rest[i].len() ==> #[trigger] rest[i][j] != 10
                && rest[i][j] != 13) by {
            assert(forall|i: int|
                0 <= i < rest.len() ==> #[trigger] rest[i] == lines[i + 1]);
        }
        lemma_lines_of_render(rest);
        assert(spec_lines_rec(tail, l0) == seq![strip_cr(l0)] + spec_lines_rec(
            render_lines(rest),
            Seq::empty(),
        ));
        assert(seq![l0] + rest =~= lines);
    }
}

/// Round trip for signed fields: parsing a rendered `i16` gives the value
/// back.
pub proof fn lemma_parse_render_i16(n: int)
    requires
        -32768 <= n <= 32767,
    ensures
        spec_parse_i16(spec_render_i16(n)) == Some(n as i16),
{
    if n < 0 {
        lemma_render_u16_digits(-n);
        let s = spec_render_i16(n);
        let d = spec_render_u16(-n);
        assert(s == seq![45u8] + d);
        assert(s[0] == 45);
        assert(s.drop_first() =~= d);
    } else {
        lemma_render_u16_digits(n);
        let s = spec_render_i16(n);
        assert(s[0] != 45) by {
            assert(is_digit(s[0]));
        }
    }
}

} // verus!
