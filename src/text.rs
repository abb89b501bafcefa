use vstd::prelude::*;

verus! {

/// Unicode White_Space: the characters that `char::is_whitespace` accepts.
pub open spec fn is_ws(c: char) -> bool {
    let k = c as u32;
    (9 <= k <= 13) || k == 32 || k == 0x85 || k == 0xA0 || k == 0x1680 || (0x2000 <= k <= 0x200A)
        || k == 0x2028 || k == 0x2029 || k == 0x202F || k == 0x205F || k == 0x3000
}

pub open spec fn trim_start(s: Seq<char>) -> Seq<char>
    decreases s.len(),
{
    if s.len() > 0 && is_ws(s[0]) {
        trim_start(s.drop_first())
    } else {
        s
    }
}

pub open spec fn trim_end(s: Seq<char>) -> Seq<char>
    decreases s.len(),
{
    if s.len() > 0 && is_ws(s.last()) {
        trim_end(s.drop_last())
    } else {
        s
    }
}

/// `s` without its leading and trailing whitespace.
pub open spec fn trimmed(s: Seq<char>) -> Seq<char> {
    trim_end(trim_start(s))
}

/// Whether `c` is Unicode White_Space, as `char::is_whitespace` decides it.
pub fn is_space(c: char) -> (r: bool)
    ensures
        r == is_ws(c),
{
    let k = c as u32;
    (9 <= k && k <= 13) || k == 32 || k == 0x85 || k == 0xA0 || k == 0x1680 || (0x2000 <= k && k <= 0x200A)
        || k == 0x2028 || k == 0x2029 || k == 0x202F || k == 0x205F || k == 0x3000
}

/// Relies on `str::trim`: removes leading and trailing Unicode White_Space.
#[verifier::external_body]
pub fn trim_str(s: &str) -> (r: &str)
    ensures
        r@ == trimmed(s@),
{
    s.trim()
}

/// Relies on `str::chars`: the characters of `s`, in order.
#[verifier::external_body]
pub fn chars_of(s: &str) -> (r: Vec<char>)
    ensures
        r@ == s@,
{
    s.chars().collect()
}

/// Relies on collecting characters into a `String`: the string of exactly those characters.
#[verifier::external_body]
pub fn string_of(cs: &Vec<char>) -> (r: String)
    ensures
        r@ == cs@,
{
    cs.iter().collect()
}

pub open spec fn digit_char(d: int) -> char {
    (d + 48) as char
}

/// Decimal digits of `x`, without leading zeros.
pub open spec fn dec(x: nat) -> Seq<char>
    decreases x,
{
    if x < 10 {
        seq![digit_char(x as int)]
    } else {
        dec(x / 10).push(digit_char((x % 10) as int))
    }
}

/// Decimal text of an integer, with '-' before a negative one.
pub open spec fn int_text(x: int) -> Seq<char> {
    if x < 0 {
        seq!['-'] + dec((-x) as nat)
    } else {
        dec(x as nat)
    }
}

/// The character of decimal digit `d`.
pub fn digit(d: u64) -> (c: char)
    requires
        d < 10,
    ensures
        c == digit_char(d as int),
{
    if d == 0 { '0' } else if d == 1 { '1' } else if d == 2 { '2' } else if d == 3 { '3' }
    else if d == 4 { '4' } else if d == 5 { '5' } else if d == 6 { '6' } else if d == 7 { '7' }
    else if d == 8 { '8' } else { '9' }
}

/// Appends the decimal digits of `x` to `out`.
pub fn push_dec(out: &mut Vec<char>, x: u64)
    ensures
        final(out)@ == old(out)@ + dec(x as nat),
    decreases x,
{
    if x >= 10 {
        push_dec(out, x / 10);
    }
    out.push(digit(x % 10));
}

/// Appends the decimal text of `x` to `out`.
pub fn push_int(out: &mut Vec<char>, x: i64)
    ensures
        final(out)@ == old(out)@ + int_text(x as int),
{
    if x < 0 {
        out.push('-');
        let mag = (0 - (x as i128)) as u64;
        push_dec(out, mag);
        proof {
            assert(final(out)@ =~= old(out)@ + int_text(x as int));
        }
    } else {
        push_dec(out, x as u64);
    }
}

/// The whitespace-separated tokens of `s`, in order.
pub open spec fn tokens(s: Seq<char>) -> Seq<Seq<char>>
    decreases s.len(),
{
    if s.len() == 0 {
        seq![]
    } else {
        let t = tokens(s.drop_last());
        let c = s.last();
        if is_ws(c) {
            t
        } else if s.len() >= 2 && !is_ws(s[s.len() - 2]) {
            t.drop_last().push(t.last().push(c))
        } else {
            t.push(seq![c])
        }
    }
}

pub open spec fn views(r: Seq<Vec<char>>) -> Seq<Seq<char>> {
    r.map_values(|t: Vec<char>| t@)
}

/// Splits `cs` at whitespace.
pub fn tokenize(cs: &Vec<char>) -> (r: Vec<Vec<char>>)
    ensures
        views(r@) == tokens(cs@),
{
    let mut toks: Vec<Vec<char>> = Vec::new();
    let mut cur: Vec<char> = Vec::new();
    let mut k: usize = 0;
    while k < cs.len()
        invariant
            k <= cs@.len(),
            cur@.len() > 0 ==> k > 0 && !is_ws(cs@[k - 1]) && tokens(cs@.subrange(0, k as int))
                == views(toks@).push(cur@),
            cur@.len() == 0 ==> (k == 0 || is_ws(cs@[k - 1])) && tokens(cs@.subrange(0, k as int))
                == views(toks@),
        decreases cs@.len() - k,
    {
        let c = cs[k];
        let ghost pre = cs@.subrange(0, k as int);
        let ghost next = cs@.subrange(0, k + 1);
        proof {
            assert(next.drop_last() =~= pre);
            assert(next.last() == c);
            if k > 0 {
                assert(next[next.len() - 2] == cs@[k - 1]);
            }
        }
        if is_space(c) {
            if cur.len() > 0 {
                let ghost old_toks = toks@;
                toks.push(cur);
                proof {
                    assert(views(toks@) =~= views(old_toks).push(cur@));
                }
                cur = Vec::new();
            }
        } else {
            let ghost old_cur = cur@;
            cur.push(c);
            proof {
                if old_cur.len() > 0 {
                    let t = views(toks@).push(old_cur);
                    assert(t.drop_last() =~= views(toks@));
                    assert(tokens(next) =~= views(toks@).push(cur@));
                } else {
                    assert(cur@ =~= seq![c]);
                }
            }
        }
        k += 1;
    }
    proof {
        assert(cs@.subrange(0, cs@.len() as int) =~= cs@);
    }
    if cur.len() > 0 {
        let ghost old_toks = toks@;
        toks.push(cur);
        proof {
            assert(views(toks@) =~= views(old_toks).push(cur@));
        }
    }
    toks
}

pub open spec fn is_digit(c: char) -> bool {
    48 <= c as u32 <= 57
}

/// The value of a sequence of decimal digits.
pub open spec fn digits_val(t: Seq<char>) -> int
    decreases t.len(),
{
    if t.len() == 0 {
        0
    } else {
        digits_val(t.drop_last()) * 10 + (t.last() as u32 - 48)
    }
}

/// The digits of `t` after an optional sign.
pub open spec fn unsigned_part(t: Seq<char>) -> Seq<char> {
    if t.len() > 0 && (t[0] == '-' || t[0] == '+') {
        t.drop_first()
    } else {
        t
    }
}

/// The integer that `t` writes, as `i64`'s parser reads it: an optional sign, then
/// one or more decimal digits, in the range of `i64`.
pub open spec fn int_token(t: Seq<char>) -> Option<int> {
    let body = unsigned_part(t);
    let x = if t.len() > 0 && t[0] == '-' { -digits_val(body) } else { digits_val(body) };
    if body.len() > 0 && (forall|i: int| 0 <= i < body.len() ==> #[trigger] is_digit(body[i]))
        && i64::MIN <= x <= i64::MAX {
        Some(x)
    } else {
        None
    }
}

/// Reads a token as an `i64`.
pub fn parse_int(t: &Vec<char>) -> (r: Option<i64>)
    ensures
        r is Some <==> int_token(t@) is Some,
        r is Some ==> r->0 as int == int_token(t@)->0,
{
    let neg = t.len() > 0 && t[0] == '-';
    let start: usize = if t.len() > 0 && (t[0] == '-' || t[0] == '+') { 1 } else { 0 };
    let ghost body = unsigned_part(t@);
    proof {
        assert(body =~= t@.subrange(start as int, t@.len() as int));
    }
    if start >= t.len() {
        return None;
    }
    let mut acc: i128 = 0;
    let mut too_big = false;
    let mut k: usize = start;
    while k < t.len()
        invariant
            start <= k <= t@.len(),
            body =~= t@.subrange(start as int, t@.len() as int),
            body == unsigned_part(t@),
            neg == (t@.len() > 0 && t@[0] == '-'),
            forall|i: int| start <= i < k ==> #[trigger] is_digit(t@[i]),
            too_big ==> digits_val(t@.subrange(start as int, k as int)) > 10_000_000_000_000_000_000,
            !too_big ==> acc == digits_val(t@.subrange(start as int, k as int)),
            0 <= acc <= 10_000_000_000_000_000_000,
        decreases t@.len() - k,
    {
        let c = t[k];
        let code = c as u32;
        if code < 48 || code > 57 {
            proof {
                assert(body[k - start] == t@[k as int]);
                assert(!is_digit(body[k - start]));
                assert(body == unsigned_part(t@));
                assert(!(forall|i: int| 0 <= i < body.len() ==> #[trigger] is_digit(body[i])));
                assert(int_token(t@) is None);
            }
            return None;
        }
        let ghost pre = t@.subrange(start as int, k as int);
        proof {
            assert(t@.subrange(start as int, k + 1).drop_last() =~= pre);
        }
        if !too_big {
            let next = acc * 10 + (code - 48) as i128;
            if next > 10_000_000_000_000_000_000 {
                too_big = true;
            } else {
                acc = next;
            }
        }
        k += 1;
    }
    proof {
        assert(t@.subrange(start as int, k as int) =~= body);
        assert forall|i: int| 0 <= i < body.len() implies #[trigger] is_digit(body[i]) by {
            assert(is_digit(t@[i + start]));
        }
    }
    if too_big {
        return None;
    }
    let x: i128 = if neg { 0 - acc } else { acc };
    if x < -9223372036854775808 || x > 9223372036854775807 {
        None
    } else {
        Some(x as i64)
    }
}

/// Text that ends in whitespace splits apart from what follows it.
pub proof fn lemma_tokens_concat(a: Seq<char>, b: Seq<char>)
    requires
        a.len() == 0 || is_ws(a.last()),
    ensures
        tokens(a + b) == tokens(a) + tokens(b),
    decreases b.len(),
{
    if b.len() == 0 {
        assert(a + b =~= a);
        assert(tokens(a) + tokens(b) =~= tokens(a));
    } else {
        let b1 = b.drop_last();
        let c = b.last();
        lemma_tokens_concat(a, b1);
        let ab = a + b;
        assert(ab.drop_last() =~= a + b1);
        assert(ab.last() == c);
        let t = tokens(a + b1);
        if is_ws(c) {
        } else if b.len() >= 2 {
            assert(ab[ab.len() - 2] == b[b.len() - 2]);
            if !is_ws(b[b.len() - 2]) {
                assert(b1.drop_last() =~= b.drop_last().drop_last());
                assert(b1.last() == b[b.len() - 2]);
                let tb1 = tokens(b1);
                assert(tb1.len() > 0);
                assert(t.drop_last().push(t.last().push(c)) =~= tokens(a) + tb1.drop_last().push(tb1.last().push(c)));
            } else {
                assert(t.push(seq![c]) =~= tokens(a) + tokens(b1).push(seq![c]));
            }
        } else {
            assert(b1.len() == 0);
            assert(a + b1 =~= a);
            assert(b1 =~= Seq::<char>::empty());
            assert(tokens(b1) =~= Seq::<Seq<char>>::empty());
            if ab.len() >= 2 {
                assert(ab[ab.len() - 2] == a.last());
            }
            assert(tokens(b) =~= seq![seq![c]]);
            assert(t.push(seq![c]) =~= tokens(a) + tokens(b));
        }
    }
}

/// A run of non-whitespace characters is one token.
pub proof fn lemma_tokens_word(w: Seq<char>)
    requires
        w.len() > 0,
        forall|k: int| 0 <= k < w.len() ==> !is_ws(#[trigger] w[k]),
    ensures
        tokens(w) == seq![w],
    decreases w.len(),
{
    let w1 = w.drop_last();
    assert(w.drop_last() == w1);
    if w.len() == 1 {
        assert(w1 =~= Seq::<char>::empty());
        assert(tokens(w1) =~= Seq::<Seq<char>>::empty());
        assert(w =~= seq![w[0]]);
        assert(tokens(w) =~= seq![w]);
    } else {
        lemma_tokens_word(w1);
        assert(!is_ws(w[w.len() - 2]));
        assert(w1.push(w.last()) =~= w);
        let t = seq![w1];
        assert(t.drop_last().push(t.last().push(w.last())) =~= seq![w]);
    }
}

/// The decimal digits of `x` read back as `x`.
pub proof fn lemma_dec_digits(x: nat)
    ensures
        dec(x).len() >= 1,
        forall|k: int| 0 <= k < dec(x).len() ==> #[trigger] is_digit(dec(x)[k]),
        digits_val(dec(x)) == x,
    decreases x,
{
    assert(digit_char((x % 10) as int) as u32 == x % 10 + 48);
    if x >= 10 {
        lemma_dec_digits(x / 10);
        let s = dec(x);
        assert(s.drop_last() =~= dec(x / 10));
        assert(s.last() == digit_char((x % 10) as int));
        assert(digits_val(s) == digits_val(dec(x / 10)) * 10 + (x % 10));
        assert(x == (x / 10) * 10 + x % 10);
        assert forall|k: int| 0 <= k < s.len() implies #[trigger] is_digit(s[k]) by {
            if k < s.len() - 1 {
                assert(s[k] == dec(x / 10)[k]);
            }
        }
    } else {
        assert(dec(x).drop_last() =~= Seq::<char>::empty());
        assert(digits_val(Seq::<char>::empty()) == 0);
        assert(dec(x).last() == digit_char(x as int));
        assert(digits_val(dec(x)) == x);
    }
}

/// The decimal text of a non-negative `i64` reads back as it.
pub proof fn lemma_int_token_dec(x: nat)
    requires
        x <= i64::MAX,
    ensures
        int_token(dec(x)) == Some(x as int),
        forall|k: int| 0 <= k < dec(x).len() ==> !is_ws(#[trigger] dec(x)[k]),
{
    lemma_dec_digits(x);
    let s = dec(x);
    assert(is_digit(s[0]));
    assert(unsigned_part(s) == s);
    assert forall|k: int| 0 <= k < s.len() implies !is_ws(#[trigger] s[k]) by {
        assert(is_digit(s[k]));
    }
}

} // verus!
