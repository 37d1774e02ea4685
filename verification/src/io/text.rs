//! Byte-level text handling for the instance reader: whitespace, trimming,
//! tokens and unsigned decimal numbers.
use vstd::prelude::*;

verus! {

/// ASCII whitespace: space, tab, line feed, vertical tab, form feed, carriage return.
pub open spec fn is_ws(b: u8) -> bool {
    b == 0x20 || (0x09 <= b && b <= 0x0d)
}

pub fn is_ws_exec(b: u8) -> (r: bool)
    ensures
        r == is_ws(b),
{
    b == 0x20 || (0x09 <= b && b <= 0x0d)
}

/// Index of the first non-whitespace byte at or after `i`, or `s.len()`.
pub open spec fn skip_ws(s: Seq<u8>, i: int) -> int
    decreases s.len() - i,
{
    if i >= s.len() || i < 0 {
        s.len() as int
    } else if is_ws(s[i]) {
        skip_ws(s, i + 1)
    } else {
        i
    }
}

/// One past the last non-whitespace byte before `j`, or `0`.
pub open spec fn skip_ws_back(s: Seq<u8>, j: int) -> int
    decreases j,
{
    if j <= 0 || j > s.len() {
        0
    } else if is_ws(s[j - 1]) {
        skip_ws_back(s, j - 1)
    } else {
        j
    }
}

/// `s` without leading and trailing whitespace.
pub open spec fn trim(s: Seq<u8>) -> Seq<u8> {
    let a = skip_ws(s, 0);
    let b = skip_ws_back(s, s.len() as int);
    if a < b { s.subrange(a, b) } else { Seq::empty() }
}

proof fn lemma_skip_ws_range(s: Seq<u8>, i: int)
    requires
        0 <= i,
    ensures
        i <= skip_ws(s, i) <= s.len() || (i > s.len() && skip_ws(s, i) == s.len()),
        skip_ws(s, i) < s.len() ==> !is_ws(s[skip_ws(s, i)]),
        forall|k: int| i <= k < skip_ws(s, i) ==> is_ws(#[trigger] s[k]),
    decreases s.len() - i,
{
    if i < s.len() && is_ws(s[i]) {
        lemma_skip_ws_range(s, i + 1);
    }
}

proof fn lemma_skip_ws_back_range(s: Seq<u8>, j: int)
    requires
        j <= s.len(),
    ensures
        0 <= skip_ws_back(s, j) <= if j >= 0 { j } else { 0 },
        skip_ws_back(s, j) > 0 ==> !is_ws(s[skip_ws_back(s, j) - 1]),
        forall|k: int| skip_ws_back(s, j) <= k < j ==> is_ws(#[trigger] s[k]),
    decreases j,
{
    if j > 0 && is_ws(s[j - 1]) {
        lemma_skip_ws_back_range(s, j - 1);
    }
}

/// Bounds of the trimmed part of `s`.
pub fn trim_bounds(s: &[u8]) -> (r: (usize, usize))
    ensures
        r.0 <= r.1 <= s@.len(),
        s@.subrange(r.0 as int, r.1 as int) == trim(s@),
{
    let mut a: usize = 0;
    while a < s.len() && is_ws_exec(s[a])
        invariant
            a <= s@.len(),
            skip_ws(s@, a as int) == skip_ws(s@, 0),
        decreases s@.len() - a,
    {
        a += 1;
    }
    let mut b: usize = s.len();
    while b > 0 && is_ws_exec(s[b - 1])
        invariant
            b <= s@.len(),
            skip_ws_back(s@, b as int) == skip_ws_back(s@, s@.len() as int),
        decreases b,
    {
        b -= 1;
    }
    proof {
        lemma_skip_ws_range(s@, 0);
        lemma_skip_ws_back_range(s@, s@.len() as int);
    }
    if a < b {
        (a, b)
    } else {
        (a, a)
    }
}

/// Whitespace-separated tokens of `s[i..]`, with `cur` the token being read
/// and `acc` the tokens already complete.
pub open spec fn tokens_acc(s: Seq<u8>, i: int, cur: Seq<u8>, acc: Seq<Seq<u8>>) -> Seq<Seq<u8>>
    decreases s.len() - i,
{
    if i >= s.len() || i < 0 {
        if cur.len() > 0 { acc.push(cur) } else { acc }
    } else if is_ws(s[i]) {
        tokens_acc(s, i + 1, Seq::empty(), if cur.len() > 0 { acc.push(cur) } else { acc })
    } else {
        tokens_acc(s, i + 1, cur.push(s[i]), acc)
    }
}

/// The whitespace-separated tokens of `s`.
pub open spec fn tokens(s: Seq<u8>) -> Seq<Seq<u8>> {
    tokens_acc(s, 0, Seq::empty(), Seq::empty())
}

/// Split `s` on whitespace.
pub fn split_whitespace(s: &[u8]) -> (r: Vec<Vec<u8>>)
    ensures
        r@.len() == tokens(s@).len(),
        forall|k: int| 0 <= k < r@.len() ==> (#[trigger] r@[k])@ == tokens(s@)[k],
{
    let mut out: Vec<Vec<u8>> = Vec::new();
    let mut cur: Vec<u8> = Vec::new();
    proof {
        assert(out@.map_values(|t: Vec<u8>| t@) =~= Seq::<Seq<u8>>::empty());
    }
    let mut i: usize = 0;
    while i < s.len()
        invariant
            i <= s@.len(),
            tokens_acc(s@, i as int, cur@, out@.map_values(|t: Vec<u8>| t@)) == tokens(s@),
        decreases s@.len() - i,
    {
        let ghost old_cur = cur@;
        let ghost old_acc = out@.map_values(|t: Vec<u8>| t@);
        if is_ws_exec(s[i]) {
            if cur.len() > 0 {
                let t = cur;
                cur = Vec::new();
                let ghost before = out@;
                out.push(t);
                proof {
                    assert(out@.map_values(|t: Vec<u8>| t@) =~= before.map_values(|t: Vec<u8>| t@).push(t@));
                    assert(cur@ =~= Seq::<u8>::empty());
                }
            } else {
                proof {
                    assert(cur@ =~= Seq::<u8>::empty());
                }
            }
            proof {
                assert(tokens_acc(s@, i as int, old_cur, old_acc) == tokens_acc(
                    s@,
                    i + 1,
                    Seq::empty(),
                    if old_cur.len() > 0 { old_acc.push(old_cur) } else { old_acc },
                ));
            }
        } else {
            cur.push(s[i]);
            proof {
                assert(tokens_acc(s@, i as int, old_cur, old_acc) == tokens_acc(s@, i + 1, old_cur.push(s@[i as int]), old_acc));
            }
        }
        i += 1;
    }
    if cur.len() > 0 {
        let ghost before = out@;
        out.push(cur);
        proof {
            assert(out@.map_values(|t: Vec<u8>| t@) =~= before.map_values(|t: Vec<u8>| t@).push(cur@));
        }
    }
    proof {
        let m = out@.map_values(|t: Vec<u8>| t@);
        assert(m == tokens(s@));
        assert forall|k: int| 0 <= k < out@.len() implies (#[trigger] out@[k])@ == tokens(s@)[k] by {
            assert(m[k] == out@[k]@);
        }
    }
    out
}

/// Whether `s` starts with `p`.
pub open spec fn starts_with(s: Seq<u8>, p: Seq<u8>) -> bool {
    p.len() <= s.len() && s.subrange(0, p.len() as int) == p
}

pub fn starts_with_exec(s: &[u8], p: &[u8]) -> (r: bool)
    ensures
        r == starts_with(s@, p@),
{
    if p.len() > s.len() {
        return false;
    }
    let mut i: usize = 0;
    while i < p.len()
        invariant
            p@.len() <= s@.len(),
            i <= p@.len(),
            forall|k: int| 0 <= k < i ==> s@[k] == p@[k],
        decreases p@.len() - i,
    {
        if s[i] != p[i] {
            proof {
                assert(s@.subrange(0, p@.len() as int)[i as int] != p@[i as int]);
            }
            return false;
        }
        i += 1;
    }
    proof {
        assert(s@.subrange(0, p@.len() as int) =~= p@);
    }
    true
}

/// Byte-wise equality.
pub fn bytes_eq(a: &[u8], b: &[u8]) -> (r: bool)
    ensures
        r == (a@ == b@),
{
    if a.len() != b.len() {
        return false;
    }
    let mut i: usize = 0;
    while i < a.len()
        invariant
            a@.len() == b@.len(),
            i <= a@.len(),
            forall|k: int| 0 <= k < i ==> a@[k] == b@[k],
        decreases a@.len() - i,
    {
        if a[i] != b[i] {
            return false;
        }
        i += 1;
    }
    proof {
        assert(a@ =~= b@);
    }
    true
}

/// ASCII lower-casing of one byte.
pub open spec fn lower_byte(b: u8) -> u8 {
    if 0x41 <= b && b <= 0x5a { (b + 0x20) as u8 } else { b }
}

/// ASCII lower-casing.
pub open spec fn lower(s: Seq<u8>) -> Seq<u8> {
    s.map_values(|b: u8| lower_byte(b))
}

pub fn to_lower(s: &[u8]) -> (r: Vec<u8>)
    ensures
        r@ == lower(s@),
{
    let mut r: Vec<u8> = Vec::new();
    let mut i: usize = 0;
    while i < s.len()
        invariant
            i <= s@.len(),
            r@ == lower(s@.subrange(0, i as int)),
        decreases s@.len() - i,
    {
        let b = s[i];
        let c = if 0x41 <= b && b <= 0x5a { b + 0x20 } else { b };
        r.push(c);
        proof {
            assert(lower(s@.subrange(0, i + 1)) =~= lower(s@.subrange(0, i as int)).push(lower_byte(b)));
        }
        i += 1;
    }
    proof {
        assert(s@.subrange(0, s@.len() as int) == s@);
    }
    r
}

/// Drop every leading and trailing `"`.
pub open spec fn trim_quotes(s: Seq<u8>) -> Seq<u8> {
    let a = skip_quote(s, 0);
    let b = skip_quote_back(s, s.len() as int);
    if a < b { s.subrange(a, b) } else { Seq::empty() }
}

pub open spec fn skip_quote(s: Seq<u8>, i: int) -> int
    decreases s.len() - i,
{
    if i >= s.len() || i < 0 {
        s.len() as int
    } else if s[i] == 0x22 {
        skip_quote(s, i + 1)
    } else {
        i
    }
}

pub open spec fn skip_quote_back(s: Seq<u8>, j: int) -> int
    decreases j,
{
    if j <= 0 || j > s.len() {
        0
    } else if s[j - 1] == 0x22 {
        skip_quote_back(s, j - 1)
    } else {
        j
    }
}

proof fn lemma_skip_quote_range(s: Seq<u8>, i: int)
    requires
        0 <= i,
    ensures
        i <= skip_quote(s, i) <= s.len() || (i > s.len() && skip_quote(s, i) == s.len()),
    decreases s.len() - i,
{
    if i < s.len() && s[i] == 0x22 {
        lemma_skip_quote_range(s, i + 1);
    }
}

proof fn lemma_skip_quote_back_range(s: Seq<u8>, j: int)
    requires
        j <= s.len(),
    ensures
        0 <= skip_quote_back(s, j) <= if j >= 0 { j } else { 0 },
    decreases j,
{
    if j > 0 && s[j - 1] == 0x22 {
        lemma_skip_quote_back_range(s, j - 1);
    }
}

pub fn trim_quotes_exec(s: &[u8]) -> (r: Vec<u8>)
    ensures
        r@ == trim_quotes(s@),
{
    let mut a: usize = 0;
    while a < s.len() && s[a] == 0x22
        invariant
            a <= s@.len(),
            skip_quote(s@, a as int) == skip_quote(s@, 0),
        decreases s@.len() - a,
    {
        a += 1;
    }
    let mut b: usize = s.len();
    while b > 0 && s[b - 1] == 0x22
        invariant
            b <= s@.len(),
            skip_quote_back(s@, b as int) == skip_quote_back(s@, s@.len() as int),
        decreases b,
    {
        b -= 1;
    }
    proof {
        lemma_skip_quote_range(s@, 0);
        lemma_skip_quote_back_range(s@, s@.len() as int);
    }
    let mut r: Vec<u8> = Vec::new();
    if a < b {
        let mut i = a;
        while i < b
            invariant
                a <= i <= b <= s@.len(),
                r@ == s@.subrange(a as int, i as int),
            decreases b - i,
        {
            r.push(s[i]);
            proof {
                assert(s@.subrange(a as int, i + 1) == s@.subrange(a as int, i as int).push(s@[i as int]));
            }
            i += 1;
        }
    } else {
        proof {
            assert(r@ =~= Seq::<u8>::empty());
        }
    }
    r
}

/// Value of a run of decimal digits.
pub open spec fn digits_value(s: Seq<u8>) -> int
    decreases s.len(),
{
    if s.len() == 0 {
        0
    } else {
        digits_value(s.drop_last()) * 10 + (s.last() - 0x30)
    }
}

pub open spec fn all_digits(s: Seq<u8>) -> bool {
    forall|k: int| 0 <= k < s.len() ==> 0x30 <= #[trigger] s[k] && s[k] <= 0x39
}

/// The unsigned decimal number `tok` denotes if it is at most `max`: an
/// optional `+` and at least one digit, nothing else.
pub open spec fn parse_unsigned(tok: Seq<u8>, max: int) -> Option<int> {
    let body = if tok.len() > 0 && tok[0] == 0x2b { tok.drop_first() } else { tok };
    if body.len() == 0 || !all_digits(body) || digits_value(body) > max {
        None
    } else {
        Some(digits_value(body))
    }
}

proof fn lemma_digits_prefix_mono(s: Seq<u8>, i: int)
    requires
        all_digits(s),
        0 <= i <= s.len(),
    ensures
        0 <= digits_value(s.subrange(0, i)) <= digits_value(s),
    decreases s.len() - i,
{
    if i < s.len() {
        lemma_digits_prefix_mono(s, i + 1);
        assert(s.subrange(0, i + 1).drop_last() == s.subrange(0, i));
        lemma_digits_nonneg(s.subrange(0, i));
    } else {
        assert(s.subrange(0, i) == s);
        lemma_digits_nonneg(s);
    }
}

proof fn lemma_digits_nonneg(s: Seq<u8>)
    requires
        all_digits(s),
    ensures
        0 <= digits_value(s),
    decreases s.len(),
{
    if s.len() > 0 {
        lemma_digits_nonneg(s.drop_last());
    }
}

/// Parse an unsigned decimal number no larger than `max`.
/// A parsed number lies between zero and the bound it was parsed against.
pub proof fn lemma_parse_unsigned_range(tok: Seq<u8>, max: int)
    ensures
        parse_unsigned(tok, max) matches Some(v) ==> 0 <= v <= max,
{
    let body = if tok.len() > 0 && tok[0] == 0x2b { tok.drop_first() } else { tok };
    if body.len() > 0 && all_digits(body) {
        lemma_digits_prefix_mono(body, body.len() as int);
        assert(body.subrange(0, body.len() as int) == body);
    }
}

pub fn parse_unsigned_exec(tok: &[u8], max: u64) -> (r: Option<u64>)
    ensures
        r == (match parse_unsigned(tok@, max as int) {
            Some(v) => Some(v as u64),
            None => None::<u64>,
        }),
        r matches Some(v) ==> v <= max,
{
    let start: usize = if tok.len() > 0 && tok[0] == 0x2b { 1 } else { 0 };
    let ghost body = if tok@.len() > 0 && tok@[0] == 0x2b { tok@.drop_first() } else { tok@ };
    proof {
        assert(body == tok@.subrange(start as int, tok@.len() as int));
    }
    if start >= tok.len() {
        return None;
    }
    let mut val: u64 = 0;
    let mut i: usize = start;
    while i < tok.len()
        invariant
            start <= i <= tok@.len(),
            body == tok@.subrange(start as int, tok@.len() as int),
            body == (if tok@.len() > 0 && tok@[0] == 0x2b { tok@.drop_first() } else { tok@ }),
            all_digits(body.subrange(0, i - start)),
            val == digits_value(body.subrange(0, i - start)),
            val <= max,
        decreases tok@.len() - i,
    {
        let b = tok[i];
        if b < 0x30 || b > 0x39 {
            proof {
                assert(body[i - start] == b);
                assert(!(0x30 <= body[i - start] && body[i - start] <= 0x39));
                assert(!all_digits(body));
                assert(body.len() > 0);
                assert(parse_unsigned(tok@, max as int) is None);
            }
            return None;
        }
        let d = (b - 0x30) as u64;
        proof {
            assert(body.subrange(0, i + 1 - start).drop_last() == body.subrange(0, i - start));
            assert(body.subrange(0, i + 1 - start).last() == b);
        }
        if d > max {
            proof {
                assert(all_digits(body.subrange(0, i + 1 - start))) by {
                    assert forall|k: int| 0 <= k < i + 1 - start implies 0x30 <= #[trigger] body.subrange(0, i + 1 - start)[k]
                        && body.subrange(0, i + 1 - start)[k] <= 0x39 by {
                        if k < i - start {
                            assert(body.subrange(0, i + 1 - start)[k] == body.subrange(0, i - start)[k]);
                        }
                    }
                }
                assert(digits_value(body.subrange(0, i + 1 - start)) == val * 10 + d);
                if all_digits(body) {
                    lemma_digits_prefix_mono(body, i + 1 - start);
                    assert(val * 10 >= 0) by (nonlinear_arith) requires val >= 0;
                }
                assert(parse_unsigned(tok@, max as int) is None);
            }
            return None;
        }
        if val > (max - d) / 10 {
            proof {
                assert(val * 10 + d > max) by (nonlinear_arith)
                    requires val > (max - d) / 10, d <= max;
                assert(all_digits(body.subrange(0, i + 1 - start))) by {
                    assert forall|k: int| 0 <= k < i + 1 - start implies 0x30 <= #[trigger] body.subrange(0, i + 1 - start)[k]
                        && body.subrange(0, i + 1 - start)[k] <= 0x39 by {
                        if k < i - start {
                            assert(body.subrange(0, i + 1 - start)[k] == body.subrange(0, i - start)[k]);
                        }
                    }
                }
                assert(digits_value(body.subrange(0, i + 1 - start)) == val * 10 + d);
                if all_digits(body) {
                    lemma_digits_prefix_mono(body, i + 1 - start);
                }
                assert(parse_unsigned(tok@, max as int) is None);
            }
            return None;
        }
        proof {
            assert(val * 10 + d <= max) by (nonlinear_arith)
                requires val <= (max - d) / 10, d <= max;
            assert(all_digits(body.subrange(0, i + 1 - start))) by {
                assert forall|k: int| 0 <= k < i + 1 - start implies 0x30 <= #[trigger] body.subrange(0, i + 1 - start)[k]
                    && body.subrange(0, i + 1 - start)[k] <= 0x39 by {
                    if k < i - start {
                        assert(body.subrange(0, i + 1 - start)[k] == body.subrange(0, i - start)[k]);
                    }
                }
            }
        }
        val = val * 10 + d;
        i += 1;
    }
    proof {
        assert(body.subrange(0, tok@.len() - start) == body);
    }
    Some(val)
}

} // verus!
