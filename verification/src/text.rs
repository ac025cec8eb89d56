//! Text building blocks shared by the reports and the option parsers:
//! decimal rendering of integers, Unicode white space, and splitting a
//! string into white-space separated words.

use vstd::prelude::*;

verus! {

/// The ASCII digit for `d`, which is below ten.
pub open spec fn digit_char(d: nat) -> char {
    (48 + d) as char
}

/// Decimal digits of a natural number, most significant first, no leading zeros.
pub open spec fn decimal(n: nat) -> Seq<char>
    decreases n,
{
    if n < 10 {
        seq![digit_char(n)]
    } else {
        decimal(n / 10).push(digit_char(n % 10))
    }
}

/// Decimal text of an integer: a leading `-` for negative numbers.
pub open spec fn signed_decimal(i: int) -> Seq<char> {
    if i < 0 {
        seq!['-'] + decimal((-i) as nat)
    } else {
        decimal(i as nat)
    }
}

/// Decimal text of an integer that always carries its sign (`+0`, `+5`, `-3`).
pub open spec fn explicit_sign_decimal(i: int) -> Seq<char> {
    if i < 0 {
        seq!['-'] + decimal((-i) as nat)
    } else {
        seq!['+'] + decimal(i as nat)
    }
}

/// Whether `c` is one of the ASCII digits `0` to `9`.
pub open spec fn is_decimal_digit(c: char) -> bool {
    48 <= (c as u32) && (c as u32) <= 57
}

/// The value of an ASCII digit.
pub open spec fn digit_value(c: char) -> int {
    (c as u32) as int - 48
}

/// The number that decimal digits write, most significant first.
pub open spec fn digits_value(s: Seq<char>) -> int
    decreases s.len(),
{
    if s.len() == 0 {
        0
    } else {
        digits_value(s.drop_last()) * 10 + digit_value(s.last())
    }
}

/// The number that a decimal text with an optional sign writes.
pub open spec fn signed_value(s: Seq<char>) -> int {
    if s.len() > 0 && s[0] == '-' {
        -digits_value(s.drop_first())
    } else if s.len() > 0 && s[0] == '+' {
        digits_value(s.drop_first())
    } else {
        digits_value(s)
    }
}

/// The digit character of a digit below ten is an ASCII digit of that value.
proof fn lemma_digit_char(d: nat)
    requires
        d < 10,
    ensures
        is_decimal_digit(digit_char(d)),
        digit_value(digit_char(d)) == d,
        (digit_char(d) == '0') <==> d == 0,
{
    let c = digit_char(d);
    assert(c as u32 == 48 + d);
    assert(('0' as u32) == 48);
}

/// Law: the decimal text of a number reads back as that number: it is made
/// of ASCII digits only, the value of its digits (most significant first)
/// is the number, and it has no leading zero.
pub proof fn lemma_decimal_reads_back(n: nat)
    ensures
        decimal(n).len() > 0,
        forall|i: int| 0 <= i < decimal(n).len() ==> is_decimal_digit(#[trigger] decimal(n)[i]),
        digits_value(decimal(n)) == n,
        decimal(n).len() > 1 ==> decimal(n)[0] != '0',
        decimal(n)[0] == '0' ==> n == 0,
    decreases n,
{
    if n < 10 {
        lemma_digit_char(n);
        assert(decimal(n) =~= seq![digit_char(n)]);
        assert(decimal(n).drop_last() =~= Seq::<char>::empty());
        assert(digits_value(Seq::<char>::empty()) == 0);
        assert(digits_value(decimal(n)) == digits_value(decimal(n).drop_last()) * 10 + digit_value(decimal(n).last()));
    } else {
        let q = n / 10;
        let r = n % 10;
        lemma_decimal_reads_back(q);
        lemma_digit_char(r);
        let d = decimal(n);
        assert(d == decimal(q).push(digit_char(r)));
        assert(d.drop_last() =~= decimal(q));
        assert(d.last() == digit_char(r));
        assert(q * 10 + r == n);
        assert(digits_value(d) == digits_value(d.drop_last()) * 10 + digit_value(d.last()));
        assert forall|i: int| 0 <= i < d.len() implies is_decimal_digit(#[trigger] d[i]) by {
            if i < d.len() - 1 {
                assert(d[i] == decimal(q)[i]);
            }
        }
        assert(d[0] == decimal(q)[0]);
        assert(q >= 1);
    }
}

/// Law: the signed decimal text of an integer reads back as that integer;
/// so does the text that always carries its sign.
pub proof fn lemma_signed_decimal_reads_back(i: int)
    ensures
        signed_value(signed_decimal(i)) == i,
        signed_value(explicit_sign_decimal(i)) == i,
        i < 0 <==> signed_decimal(i)[0] == '-',
        i < 0 <==> explicit_sign_decimal(i)[0] == '-',
        i >= 0 ==> explicit_sign_decimal(i)[0] == '+',
{
    if i < 0 {
        let m = (-i) as nat;
        lemma_decimal_reads_back(m);
        assert((seq!['-'] + decimal(m)).drop_first() =~= decimal(m));
        assert((seq!['-'] + decimal(m))[0] == '-');
    } else {
        let m = i as nat;
        lemma_decimal_reads_back(m);
        assert(is_decimal_digit(decimal(m)[0]));
        assert(('-' as u32) == 45);
        assert(('+' as u32) == 43);
        assert((seq!['+'] + decimal(m)).drop_first() =~= decimal(m));
        assert((seq!['+'] + decimal(m))[0] == '+');
    }
}

/// Appends one character to a string (`String::push`).
#[verifier::external_body]
pub(crate) fn push_char(s: &mut String, c: char)
    ensures
        final(s)@ == old(s)@.push(c),
{
    s.push(c);
}

fn digit_of(d: u64) -> (c: char)
    requires
        d < 10,
    ensures
        c == digit_char(d as nat),
{
    let b: u8 = d as u8;
    (b + 48u8) as char
}

/// Appends the decimal digits of `n` to `s`.
pub fn push_decimal(s: &mut String, n: u64)
    ensures
        final(s)@ == old(s)@ + decimal(n as nat),
    decreases n,
{
    if n >= 10 {
        push_decimal(s, n / 10);
    }
    push_char(s, digit_of(n % 10));
    proof {
        assert(old(s)@ + decimal(n as nat) =~= s@);
    }
}

/// Decimal text of an unsigned number.
pub fn decimal_string(n: u64) -> (s: String)
    ensures
        s@ == decimal(n as nat),
{
    let mut s = String::new();
    push_decimal(&mut s, n);
    proof {
        assert(s@ =~= decimal(n as nat));
    }
    s
}


/// Decimal text of a signed number.
pub fn signed_decimal_string(i: i64) -> (s: String)
    ensures
        s@ == signed_decimal(i as int),
{
    let mut s = String::new();
    if i < 0 {
        push_char(&mut s, '-');
        let m: u64 = (-(i as i128)) as u64;
        push_decimal(&mut s, m);
    } else {
        push_decimal(&mut s, i as u64);
    }
    proof {
        assert(s@ =~= signed_decimal(i as int));
    }
    s
}

/// Decimal text of a signed number with its sign always written.
pub fn explicit_sign_decimal_string(i: i64) -> (s: String)
    ensures
        s@ == explicit_sign_decimal(i as int),
{
    let mut s = String::new();
    if i < 0 {
        push_char(&mut s, '-');
        let m: u64 = (-(i as i128)) as u64;
        push_decimal(&mut s, m);
    } else {
        push_char(&mut s, '+');
        push_decimal(&mut s, i as u64);
    }
    proof {
        assert(s@ =~= explicit_sign_decimal(i as int));
    }
    s
}

/// The characters of a string, in order.
pub fn chars_of(s: &str) -> (v: Vec<char>)
    ensures
        v@ == s@,
{
    let mut v: Vec<char> = Vec::new();
    for c in iter: s.chars()
        invariant
            iter.seq() == s@,
            v@ == iter.seq().take(iter.index() as int),
    {
        v.push(c);
        proof {
            assert(iter.seq().take(iter.index() + 1) =~= v@);
        }
    }
    proof {
        assert(v@ =~= s@);
    }
    v
}


/// Lexicographic order of character sequences, comparing code points; this is
/// the order of Rust's `str` and `String` (UTF-8 byte order and code point
/// order agree).
pub open spec fn text_lt(a: Seq<char>, b: Seq<char>) -> bool
    decreases a.len(),
{
    if a.len() == 0 {
        b.len() > 0
    } else if b.len() == 0 {
        false
    } else if a[0] != b[0] {
        (a[0] as u32) < (b[0] as u32)
    } else {
        text_lt(a.drop_first(), b.drop_first())
    }
}

/// No text is below itself.
pub proof fn lemma_text_lt_irreflexive(a: Seq<char>)
    ensures
        !text_lt(a, a),
    decreases a.len(),
{
    if a.len() > 0 {
        lemma_text_lt_irreflexive(a.drop_first());
    }
}

/// The text order is transitive.
pub proof fn lemma_text_lt_transitive(a: Seq<char>, b: Seq<char>, c: Seq<char>)
    requires
        text_lt(a, b),
        text_lt(b, c),
    ensures
        text_lt(a, c),
    decreases a.len(),
{
    if a.len() > 0 && b.len() > 0 && c.len() > 0 && a[0] == b[0] && b[0] == c[0] {
        lemma_text_lt_transitive(a.drop_first(), b.drop_first(), c.drop_first());
    }
}

/// Two different texts are ordered one way or the other.
pub proof fn lemma_text_lt_total(a: Seq<char>, b: Seq<char>)
    ensures
        a == b || text_lt(a, b) || text_lt(b, a),
    decreases a.len(),
{
    if a.len() > 0 && b.len() > 0 && a[0] == b[0] {
        lemma_text_lt_total(a.drop_first(), b.drop_first());
        if a.drop_first() == b.drop_first() {
            assert(a =~= seq![a[0]] + a.drop_first());
            assert(b =~= seq![b[0]] + b.drop_first());
        }
    } else if a.len() == 0 && b.len() == 0 {
        assert(a =~= b);
    } else if a.len() > 0 && b.len() > 0 {
        vstd::utf8::char_u32_cast(a[0], a[0] as u32);
        vstd::utf8::char_u32_cast(b[0], b[0] as u32);
    }
}

/// Whether `a` comes before `b` in the text order.
pub fn text_less(a: &Vec<char>, b: &Vec<char>) -> (r: bool)
    ensures
        r == text_lt(a@, b@),
{
    let mut i: usize = 0;
    proof {
        assert(a@.skip(0) =~= a@);
        assert(b@.skip(0) =~= b@);
    }
    while i < a.len() && i < b.len() && a[i] == b[i]
        invariant
            i <= a.len(),
            i <= b.len(),
            a@.take(i as int) == b@.take(i as int),
            text_lt(a@, b@) == text_lt(a@.skip(i as int), b@.skip(i as int)),
        decreases a.len() - i,
    {
        proof {
            let sa = a@.skip(i as int);
            let sb = b@.skip(i as int);
            assert(sa.drop_first() =~= a@.skip(i + 1));
            assert(sb.drop_first() =~= b@.skip(i + 1));
            assert(a@.take(i + 1) =~= a@.take(i as int).push(a@[i as int]));
            assert(b@.take(i + 1) =~= b@.take(i as int).push(b@[i as int]));
        }
        i = i + 1;
    }
    proof {
        let sa = a@.skip(i as int);
        let sb = b@.skip(i as int);
        if i < a.len() && i < b.len() {
            assert(sa[0] == a@[i as int]);
            assert(sb[0] == b@[i as int]);
        }
    }
    if i == a.len() {
        i < b.len()
    } else if i == b.len() {
        false
    } else {
        (a[i] as u32) < (b[i] as u32)
    }
}

/// Whether two character sequences are equal.
pub fn chars_equal(a: &Vec<char>, b: &Vec<char>) -> (r: bool)
    ensures
        r == (a@ == b@),
{
    if a.len() != b.len() {
        return false;
    }
    let mut i: usize = 0;
    while i < a.len()
        invariant
            a.len() == b.len(),
            i <= a.len(),
            forall|j: int| 0 <= j < i ==> a@[j] == b@[j],
        decreases a.len() - i,
    {
        if a[i] != b[i] {
            return false;
        }
        i = i + 1;
    }
    proof {
        assert(a@ =~= b@);
    }
    true
}


/// Characters with the Unicode `White_Space` property (PropList.txt).
pub open spec fn unicode_white_space(c: char) -> bool {
    let u = c as u32;
    ||| 0x09 <= u <= 0x0D
    ||| u == 0x20
    ||| u == 0x85
    ||| u == 0xA0
    ||| u == 0x1680
    ||| 0x2000 <= u <= 0x200A
    ||| u == 0x2028
    ||| u == 0x2029
    ||| u == 0x202F
    ||| u == 0x205F
    ||| u == 0x3000
}

/// Whether `c` is white space (what `char::is_whitespace` answers: the
/// characters with the Unicode `White_Space` property).
pub(crate) fn is_white_space(c: char) -> (r: bool)
    ensures
        r == unicode_white_space(c),
{
    let u = c as u32;
    (0x09 <= u && u <= 0x0D) || u == 0x20 || u == 0x85 || u == 0xA0 || u == 0x1680
        || (0x2000 <= u && u <= 0x200A) || u == 0x2028 || u == 0x2029 || u == 0x202F
        || u == 0x205F || u == 0x3000
}

/// The white-space separated words of a text, in order: the maximal runs
/// of characters that are not white space.
pub open spec fn words(s: Seq<char>) -> Seq<Seq<char>>
    decreases s.len(),
{
    if s.len() == 0 {
        seq![]
    } else {
        let w = words(s.drop_last());
        let c = s.last();
        if unicode_white_space(c) {
            w
        } else if s.len() >= 2 && !unicode_white_space(s[s.len() - 2]) {
            w.drop_last().push(w.last().push(c))
        } else {
            w.push(seq![c])
        }
    }
}

/// The white-space separated words of `s` (`str::split_whitespace`).
pub fn split_words(s: &Vec<char>) -> (ws: Vec<String>)
    ensures
        crate::table::string_texts(ws@) == words(s@),
{
    let mut ws: Vec<String> = Vec::new();
    let mut cur = String::new();
    let mut in_word = false;
    proof {
        assert(s@.take(0) =~= Seq::<char>::empty());
        assert(crate::table::string_texts(ws@) =~= Seq::<Seq<char>>::empty());
    }
    for i in 0..s.len()
        invariant
            in_word ==> i > 0 && !unicode_white_space(s@[i - 1]),
            !in_word ==> i == 0 || unicode_white_space(s@[i - 1]),
            in_word ==> words(s@.take(i as int)) == crate::table::string_texts(ws@).push(cur@),
            !in_word ==> words(s@.take(i as int)) == crate::table::string_texts(ws@),
            !in_word ==> cur@ == Seq::<char>::empty(),
    {
        let c = s[i];
        let ghost t = s@.take(i + 1);
        proof {
            assert(t.drop_last() =~= s@.take(i as int));
            assert(t.last() == c);
            if i > 0 {
                assert(t[t.len() - 2] == s@[i - 1]);
            }
        }
        if is_white_space(c) {
            if in_word {
                let ghost prev = ws@;
                let ghost cv = cur@;
                ws.push(cur);
                cur = String::new();
                in_word = false;
                proof {
                    assert(crate::table::string_texts(ws@) =~= crate::table::string_texts(prev).push(cv));
                }
            }
        } else {
            proof {
                if in_word {
                    let w = words(s@.take(i as int));
                    assert(w.drop_last() =~= crate::table::string_texts(ws@));
                }
            }
            push_char(&mut cur, c);
            proof {
                if !in_word {
                    assert(cur@ =~= seq![c]);
                }
            }
            in_word = true;
        }
    }
    if in_word {
        let ghost prev = ws@;
        let ghost cv = cur@;
        ws.push(cur);
        proof {
            assert(crate::table::string_texts(ws@) =~= crate::table::string_texts(prev).push(cv));
        }
    }
    proof {
        assert(s@.take(s.len() as int) =~= s@);
    }
    ws
}


/// Whether `s` is exactly the text `lit`.
pub fn text_is(s: &Vec<char>, lit: &str) -> (r: bool)
    ensures
        r == (s@ == lit@),
{
    let l = chars_of(lit);
    chars_equal(s, &l)
}

/// Whether `p` starts `s` at position `start`.
pub fn has_prefix_at(s: &Vec<char>, start: usize, p: &Vec<char>) -> (r: bool)
    requires
        start <= s.len(),
    ensures
        r == p@.is_prefix_of(s@.skip(start as int)),
{
    if s.len() - start < p.len() {
        return false;
    }
    let mut i: usize = 0;
    while i < p.len()
        invariant
            start + p.len() <= s.len(),
            i <= p.len(),
            forall|j: int| 0 <= j < i ==> p@[j] == s@[start + j],
        decreases p.len() - i,
    {
        if p[i] != s[start + i] {
            proof {
                assert(s@.skip(start as int).subrange(0, p.len() as int)[i as int] == s@[start + i]);
            }
            return false;
        }
        i = i + 1;
    }
    proof {
        assert(p@ =~= s@.skip(start as int).subrange(0, p@.len() as int));
    }
    true
}

/// The characters of `s` from position `start` on.
pub fn suffix_from(s: &Vec<char>, start: usize) -> (r: Vec<char>)
    requires
        start <= s.len(),
    ensures
        r@ == s@.skip(start as int),
{
    let mut r: Vec<char> = Vec::new();
    let mut i: usize = start;
    while i < s.len()
        invariant
            start <= i <= s.len(),
            r@ == s@.subrange(start as int, i as int),
        decreases s.len() - i,
    {
        r.push(s[i]);
        proof {
            assert(r@ =~= s@.subrange(start as int, i + 1));
        }
        i = i + 1;
    }
    proof {
        assert(r@ =~= s@.skip(start as int));
    }
    r
}

} // verus!
