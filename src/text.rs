//! Character-level helpers: building strings, decimal numbers, padding,
//! splitting at separators, trimming, and the lexicographic order of strings.
use vstd::prelude::*;

verus! {

/// Relies on `String::push`: appends one character at the end.
#[verifier::external_body]
pub(crate) fn push_char(s: &mut String, c: char)
    ensures
        final(s)@ == old(s)@.push(c),
{
    s.push(c)
}

/// Appends the characters of `t` to `s`.
pub fn push_text(s: &mut String, t: &str)
    ensures
        final(s)@ == old(s)@ + t@,
{
    s.append(t);
}

/// The characters of `s`, in order.
pub fn chars_of(s: &str) -> (r: Vec<char>)
    ensures
        r@ == s@,
{
    let mut r: Vec<char> = Vec::new();
    for c in it: s.chars()
        invariant
            r@ == it.seq().subrange(0, it.index() as int),
            it.seq() == s@,
    {
        r.push(c);
    }
    r
}

/// The string made of the characters of `cs[from..to]`, in order.
pub fn string_of_range(cs: &Vec<char>, from: usize, to: usize) -> (r: String)
    requires
        from <= to <= cs.len(),
    ensures
        r@ == cs@.subrange(from as int, to as int),
{
    let mut r = String::new();
    let mut i: usize = from;
    while i < to
        invariant
            from <= i <= to <= cs.len(),
            r@ == cs@.subrange(from as int, i as int),
        decreases to - i,
    {
        push_char(&mut r, cs[i]);
        i = i + 1;
        assert(r@ =~= cs@.subrange(from as int, i as int));
    }
    r
}

/// Whether `a` and `b` hold the same characters.
pub fn same_text(a: &str, b: &str) -> (r: bool)
    ensures
        r == (a@ == b@),
{
    let x = chars_of(a);
    let y = chars_of(b);
    if x.len() != y.len() {
        return false;
    }
    let mut i: usize = 0;
    while i < x.len()
        invariant
            i <= x.len() == y.len(),
            x@ == a@,
            y@ == b@,
            forall|k: int| 0 <= k < i ==> x@[k] == y@[k],
        decreases x.len() - i,
    {
        if x[i] != y[i] {
            assert(a@[i as int] != b@[i as int]);
            return false;
        }
        i = i + 1;
    }
    assert(x@ =~= y@);
    true
}

// ---------------------------------------------------------------- decimals

pub open spec fn digit_char(d: nat) -> char {
    if d == 0 { '0' }
    else if d == 1 { '1' }
    else if d == 2 { '2' }
    else if d == 3 { '3' }
    else if d == 4 { '4' }
    else if d == 5 { '5' }
    else if d == 6 { '6' }
    else if d == 7 { '7' }
    else if d == 8 { '8' }
    else { '9' }
}

pub open spec fn is_digit(c: char) -> bool {
    '0' <= c && c <= '9'
}

pub open spec fn digit_value(c: char) -> nat {
    (c as u32 - '0' as u32) as nat
}

/// The decimal notation of `n`, without leading zeros.
pub open spec fn decimal(n: nat) -> Seq<char>
    decreases n,
{
    if n < 10 {
        seq![digit_char(n)]
    } else {
        decimal(n / 10).push(digit_char(n % 10))
    }
}

/// Appends the decimal notation of `n` to `out`.
pub fn push_decimal(out: &mut String, n: usize)
    ensures
        final(out)@ == old(out)@ + decimal(n as nat),
    decreases n,
{
    if n >= 10 {
        push_decimal(out, n / 10);
    }
    let d = n % 10;
    let c = if d == 0 { '0' }
        else if d == 1 { '1' }
        else if d == 2 { '2' }
        else if d == 3 { '3' }
        else if d == 4 { '4' }
        else if d == 5 { '5' }
        else if d == 6 { '6' }
        else if d == 7 { '7' }
        else if d == 8 { '8' }
        else { '9' };
    push_char(out, c);
    proof {
        if n >= 10 {
            assert(old(out)@ + decimal(n as nat) =~= (old(out)@ + decimal((n / 10) as nat)).push(c));
        } else {
            assert(old(out)@ + decimal(n as nat) =~= old(out)@.push(c));
        }
    }
}

/// The value of a sequence of decimal digits.
pub open spec fn digits_value(s: Seq<char>) -> nat
    decreases s.len(),
{
    if s.len() == 0 {
        0
    } else {
        digits_value(s.drop_last()) * 10 + digit_value(s.last())
    }
}

pub open spec fn all_digits(s: Seq<char>) -> bool {
    forall|i: int| 0 <= i < s.len() ==> is_digit(#[trigger] s[i])
}

/// The digits of an unsigned number as text: a non-empty run of decimal
/// digits, with an optional leading `+`.
pub open spec fn unsigned_digits(s: Seq<char>) -> Seq<char> {
    if s.len() > 0 && s[0] == '+' { s.drop_first() } else { s }
}

pub open spec fn is_unsigned_text(s: Seq<char>) -> bool {
    unsigned_digits(s).len() > 0 && all_digits(unsigned_digits(s))
}

/// The value that unsigned text stands for.
pub open spec fn unsigned_value(s: Seq<char>) -> nat {
    digits_value(unsigned_digits(s))
}

proof fn lemma_digits_value_grows(s: Seq<char>, i: int, j: int)
    requires
        0 <= i <= j <= s.len(),
        all_digits(s),
    ensures
        digits_value(s.subrange(0, i)) <= digits_value(s.subrange(0, j)),
    decreases j - i,
{
    if i < j {
        lemma_digits_value_grows(s, i, j - 1);
        assert(s.subrange(0, j).drop_last() =~= s.subrange(0, j - 1));
    }
}

/// Reads unsigned decimal text (an optional `+`, then digits) whose value is
/// at most `max`.
pub fn parse_unsigned(s: &str, max: usize) -> (r: Option<usize>)
    ensures
        r is Some <==> is_unsigned_text(s@) && unsigned_value(s@) <= max,
        r matches Some(v) ==> v == unsigned_value(s@),
{
    let cs = chars_of(s);
    let start: usize = if cs.len() > 0 && cs[0] == '+' { 1 } else { 0 };
    let ghost ds = unsigned_digits(s@);
    assert(ds =~= cs@.subrange(start as int, cs@.len() as int));
    if start >= cs.len() {
        return None;
    }
    let mut v: usize = 0;
    let mut i: usize = start;
    while i < cs.len()
        invariant
            start <= i <= cs.len(),
            cs@ == s@,
            ds == cs@.subrange(start as int, cs@.len() as int),
            ds == unsigned_digits(s@),
            forall|k: int| 0 <= k < i - start ==> is_digit(#[trigger] ds[k]),
            v == digits_value(ds.subrange(0, i - start)),
            v <= max,
        decreases cs.len() - i,
    {
        let c = cs[i];
        if !('0' <= c && c <= '9') {
            assert(!is_digit(ds[i - start]));
            return None;
        }
        let d = (c as u32 - '0' as u32) as usize;
        assert(ds.subrange(0, i + 1 - start).drop_last() =~= ds.subrange(0, i - start));
        if d > max || v > (max - d) / 10 {
            proof {
                assert(digits_value(ds.subrange(0, i + 1 - start)) == v * 10 + d);
                assert(v * 10 + d > max) by (nonlinear_arith)
                    requires
                        d > max || v > (max - d) / 10,
                ;
            }
            let rest_digits = all_digits_check(&cs, i + 1);
            proof {
                if rest_digits {
                    assert forall|k: int| 0 <= k < ds.len() implies is_digit(#[trigger] ds[k]) by {
                        if k >= i + 1 - start {
                            assert(ds[k] == cs@[k + start]);
                        }
                    }
                    lemma_digits_value_grows(ds, i + 1 - start, ds.len() as int);
                    assert(ds.subrange(0, ds.len() as int) =~= ds);
                } else {
                    let k = choose|k: int| i + 1 <= k < cs.len() && !is_digit(#[trigger] cs@[k]);
                    assert(!is_digit(ds[k - start]));
                }
            }
            return None;
        }
        v = v * 10 + d;
        i = i + 1;
    }
    assert(ds.subrange(0, ds.len() as int) =~= ds);
    Some(v)
}

/// Whether every character of `cs[from..]` is a decimal digit.
fn all_digits_check(cs: &Vec<char>, from: usize) -> (r: bool)
    requires
        from <= cs.len(),
    ensures
        r <==> forall|k: int| from <= k < cs.len() ==> is_digit(#[trigger] cs@[k]),
{
    let mut i: usize = from;
    while i < cs.len()
        invariant
            from <= i <= cs.len(),
            forall|k: int| from <= k < i ==> is_digit(#[trigger] cs@[k]),
        decreases cs.len() - i,
    {
        if !('0' <= cs[i] && cs[i] <= '9') {
            return false;
        }
        i = i + 1;
    }
    true
}

// ----------------------------------------------------------------- padding

/// `s` with `fill` added on the left until it is `width` characters long.
pub open spec fn pad_left(s: Seq<char>, width: nat, fill: char) -> Seq<char> {
    if s.len() >= width {
        s
    } else {
        Seq::new((width - s.len()) as nat, |i: int| fill) + s
    }
}

/// Appends `t` to `out`, first padded on the left with `'0'` to `width` characters.
pub fn push_zero_padded(out: &mut String, t: &str, width: usize)
    ensures
        final(out)@ == old(out)@ + pad_left(t@, width as nat, '0'),
{
    let n = t.unicode_len();
    let mut k: usize = n;
    while k < width
        invariant
            n == t@.len(),
            n <= k,
            k <= width || k == n,
            zeros_appended(old(out)@, out@, (k - n) as nat),
        decreases width - k,
    {
        push_char(out, '0');
        k = k + 1;
        proof {
            assert(out@ =~= old(out)@ + Seq::new((k - n) as nat, |i: int| '0'));
        }
    }
    let ghost zeros = out@;
    push_text(out, t);
    proof {
        if n >= width {
            assert(zeros =~= old(out)@);
            assert(out@ =~= old(out)@ + t@);
        } else {
            assert(k == width);
            assert(out@ =~= old(out)@ + (Seq::new((width - n) as nat, |i: int| '0') + t@));
        }
    }
}

/// `now` is `before` followed by `zeros` characters `'0'`.
spec fn zeros_appended(before: Seq<char>, now: Seq<char>, zeros: nat) -> bool {
    now =~= before + Seq::new(zeros, |i: int| '0')
}

// --------------------------------------------------------------- splitting

/// The index of the first `c` in `s` at or after `i`, or the length of `s`.
pub open spec fn first_index_from(s: Seq<char>, c: char, i: int) -> int
    decreases s.len() - i,
{
    if i < 0 || i >= s.len() {
        s.len() as int
    } else if s[i] == c {
        i
    } else {
        first_index_from(s, c, i + 1)
    }
}

/// The part of `s` before its first `c` (all of `s` when it holds none).
pub open spec fn before_first(s: Seq<char>, c: char) -> Seq<char> {
    s.subrange(0, first_index_from(s, c, 0))
}

/// The index of the last `c` in `s[..j]`, or -1.
pub open spec fn last_index_before(s: Seq<char>, c: char, j: int) -> int
    decreases j,
{
    if j <= 0 || j > s.len() {
        -1
    } else if s[j - 1] == c {
        j - 1
    } else {
        last_index_before(s, c, j - 1)
    }
}

/// The part of `s` after its last `c` (all of `s` when it holds none).
pub open spec fn after_last(s: Seq<char>, c: char) -> Seq<char> {
    s.subrange(last_index_before(s, c, s.len() as int) + 1, s.len() as int)
}

proof fn lemma_first_index_bounds(s: Seq<char>, c: char, i: int)
    requires
        0 <= i <= s.len(),
    ensures
        i <= first_index_from(s, c, i) <= s.len(),
        forall|k: int| i <= k < first_index_from(s, c, i) ==> s[k] != c,
    decreases s.len() - i,
{
    if i < s.len() && s[i] != c {
        lemma_first_index_bounds(s, c, i + 1);
    }
}

proof fn lemma_last_index_bounds(s: Seq<char>, c: char, j: int)
    requires
        0 <= j <= s.len(),
    ensures
        -1 <= last_index_before(s, c, j) < j,
        forall|k: int| last_index_before(s, c, j) < k < j ==> s[k] != c,
    decreases j,
{
    if j > 0 && s[j - 1] != c {
        lemma_last_index_bounds(s, c, j - 1);
    }
}

/// The index of the first `c` in `cs`, or its length.
pub fn find_first(cs: &Vec<char>, c: char) -> (r: usize)
    ensures
        r == first_index_from(cs@, c, 0),
{
    let mut i: usize = 0;
    while i < cs.len() && cs[i] != c
        invariant
            i <= cs.len(),
            first_index_from(cs@, c, 0) == first_index_from(cs@, c, i as int),
        decreases cs.len() - i,
    {
        i = i + 1;
    }
    i
}

/// One more than the index of the last `c` in `cs`, or 0.
pub fn find_after_last(cs: &Vec<char>, c: char) -> (r: usize)
    ensures
        r == last_index_before(cs@, c, cs@.len() as int) + 1,
{
    let mut j: usize = cs.len();
    while j > 0 && cs[j - 1] != c
        invariant
            j <= cs.len(),
            last_index_before(cs@, c, cs@.len() as int) == last_index_before(cs@, c, j as int),
        decreases j,
    {
        j = j - 1;
    }
    j
}

/// The part of `s` before its first `c`.
pub fn text_before_first(s: &str, c: char) -> (r: String)
    ensures
        r@ == before_first(s@, c),
{
    let cs = chars_of(s);
    let k = find_first(&cs, c);
    proof { lemma_first_index_bounds(cs@, c, 0); }
    string_of_range(&cs, 0, k)
}

/// The part of `s` after its last `c`.
pub fn text_after_last(s: &str, c: char) -> (r: String)
    ensures
        r@ == after_last(s@, c),
{
    let cs = chars_of(s);
    let k = find_after_last(&cs, c);
    proof { lemma_last_index_bounds(cs@, c, cs@.len() as int); }
    string_of_range(&cs, k, cs.len())
}

// ---------------------------------------------------------------- trimming

/// A character of the Unicode `White_Space` property.
pub open spec fn is_white_space(c: char) -> bool {
    let u = c as u32;
    (0x09 <= u && u <= 0x0d) || u == 0x20 || u == 0x85 || u == 0xa0 || u == 0x1680
        || (0x2000 <= u && u <= 0x200a) || u == 0x2028 || u == 0x2029 || u == 0x202f
        || u == 0x205f || u == 0x3000
}

fn white_space(c: char) -> (r: bool)
    ensures
        r == is_white_space(c),
{
    let u = c as u32;
    (0x09 <= u && u <= 0x0d) || u == 0x20 || u == 0x85 || u == 0xa0 || u == 0x1680
        || (0x2000 <= u && u <= 0x200a) || u == 0x2028 || u == 0x2029 || u == 0x202f
        || u == 0x205f || u == 0x3000
}

/// The index of the first character of `s` at or after `i` that is not white space.
pub open spec fn content_start(s: Seq<char>, i: int) -> int
    decreases s.len() - i,
{
    if i < 0 || i >= s.len() {
        s.len() as int
    } else if !is_white_space(s[i]) {
        i
    } else {
        content_start(s, i + 1)
    }
}

/// One more than the index of the last character of `s[..j]` that is not white space, or 0.
pub open spec fn content_end(s: Seq<char>, j: int) -> int
    decreases j,
{
    if j <= 0 || j > s.len() {
        0
    } else if !is_white_space(s[j - 1]) {
        j
    } else {
        content_end(s, j - 1)
    }
}

/// `s` without its leading and trailing white space.
pub open spec fn trimmed(s: Seq<char>) -> Seq<char> {
    let a = content_start(s, 0);
    let b = content_end(s, s.len() as int);
    if a < b { s.subrange(a, b) } else { Seq::empty() }
}

/// `s` without every occurrence of `c`.
pub open spec fn without(s: Seq<char>, c: char) -> Seq<char>
    decreases s.len(),
{
    if s.len() == 0 {
        s
    } else if s.last() == c {
        without(s.drop_last(), c)
    } else {
        without(s.drop_last(), c).push(s.last())
    }
}

/// The characters of `cs[from..to]` but `c`, appended to `out`.
fn push_without(out: &mut String, cs: &Vec<char>, from: usize, to: usize, c: char)
    requires
        from <= to <= cs.len(),
    ensures
        final(out)@ == old(out)@ + without(cs@.subrange(from as int, to as int), c),
{
    let mut i: usize = from;
    while i < to
        invariant
            from <= i <= to <= cs.len(),
            out@ == old(out)@ + without(cs@.subrange(from as int, i as int), c),
        decreases to - i,
    {
        let ghost before = out@;
        if cs[i] != c {
            push_char(out, cs[i]);
        }
        i = i + 1;
        proof {
            assert(cs@.subrange(from as int, i as int).drop_last()
                =~= cs@.subrange(from as int, i - 1));
            if cs@[i - 1] != c {
                assert(out@ =~= old(out)@ + without(cs@.subrange(from as int, i as int), c));
            }
        }
    }
}

/// `s` without leading and trailing white space, and then without any `c`.
pub fn trim_and_remove(s: &str, c: char) -> (r: String)
    ensures
        r@ == without(trimmed(s@), c),
{
    let cs = chars_of(s);
    let mut a: usize = 0;
    while a < cs.len() && white_space(cs[a])
        invariant
            a <= cs.len(),
            content_start(cs@, 0) == content_start(cs@, a as int),
        decreases cs.len() - a,
    {
        a = a + 1;
    }
    let mut b: usize = cs.len();
    while b > 0 && white_space(cs[b - 1])
        invariant
            b <= cs.len(),
            content_end(cs@, cs@.len() as int) == content_end(cs@, b as int),
        decreases b,
    {
        b = b - 1;
    }
    let mut r = String::new();
    if a < b {
        push_without(&mut r, &cs, a, b, c);
    }
    proof {
        if a >= b {
            assert(r@ =~= without(Seq::empty(), c));
        } else {
            assert(r@ =~= Seq::empty() + without(cs@.subrange(a as int, b as int), c));
        }
    }
    r
}

// ---------------------------------------------------------------- ordering

/// The lexicographic order of strings by character code point, which is the
/// order of `str` and `String`.
pub open spec fn text_le(a: Seq<char>, b: Seq<char>) -> bool
    decreases a.len(),
{
    if a.len() == 0 {
        true
    } else if b.len() == 0 {
        false
    } else if a[0] != b[0] {
        a[0] < b[0]
    } else {
        text_le(a.drop_first(), b.drop_first())
    }
}

/// Two strings each at most the other are equal.
pub proof fn lemma_text_le_antisymmetric(a: Seq<char>, b: Seq<char>)
    requires
        text_le(a, b),
        text_le(b, a),
    ensures
        a == b,
    decreases a.len(),
{
    if a.len() > 0 && b.len() > 0 {
        if a[0] == b[0] {
            lemma_text_le_antisymmetric(a.drop_first(), b.drop_first());
            assert(a =~= seq![a[0]] + a.drop_first());
            assert(b =~= seq![b[0]] + b.drop_first());
        }
    }
}

/// Every string is at most itself.
pub proof fn lemma_text_le_reflexive(a: Seq<char>)
    ensures
        text_le(a, a),
    decreases a.len(),
{
    if a.len() > 0 {
        lemma_text_le_reflexive(a.drop_first());
    }
}

/// Of two strings, one is at most the other.
pub proof fn lemma_text_le_total(a: Seq<char>, b: Seq<char>)
    ensures
        text_le(a, b) || text_le(b, a),
    decreases a.len(),
{
    if a.len() > 0 && b.len() > 0 && a[0] == b[0] {
        lemma_text_le_total(a.drop_first(), b.drop_first());
    }
}

/// The order of strings is transitive.
pub proof fn lemma_text_le_transitive(a: Seq<char>, b: Seq<char>, c: Seq<char>)
    requires
        text_le(a, b),
        text_le(b, c),
    ensures
        text_le(a, c),
    decreases a.len(),
{
    if a.len() > 0 && b.len() > 0 && c.len() > 0 && a[0] == b[0] && b[0] == c[0] {
        lemma_text_le_transitive(a.drop_first(), b.drop_first(), c.drop_first());
    }
}

/// The order of strings as a relation.
pub open spec fn text_order() -> spec_fn(Seq<char>, Seq<char>) -> bool {
    |a: Seq<char>, b: Seq<char>| text_le(a, b)
}

/// The order of strings is a total order.
pub proof fn lemma_text_order_total()
    ensures
        vstd::relations::total_ordering(text_order()),
{
    assert forall|a: Seq<char>| #[trigger] text_order()(a, a) by {
        lemma_text_le_reflexive(a);
    }
    assert forall|a: Seq<char>, b: Seq<char>|
        #[trigger] text_order()(a, b) && #[trigger] text_order()(b, a) implies a == b by {
        lemma_text_le_antisymmetric(a, b);
    }
    assert forall|a: Seq<char>, b: Seq<char>, c: Seq<char>|
        #[trigger] text_order()(a, b) && #[trigger] text_order()(b, c) implies text_order()(a, c) by {
        lemma_text_le_transitive(a, b, c);
    }
    assert forall|a: Seq<char>, b: Seq<char>|
        #[trigger] text_order()(a, b) || #[trigger] text_order()(b, a) by {
        lemma_text_le_total(a, b);
    }
}

/// Ten to the power `n`.
pub open spec fn pow10(n: nat) -> nat
    decreases n,
{
    if n == 0 { 1 } else { 10 * pow10((n - 1) as nat) }
}

proof fn lemma_all_digits_parts(a: Seq<char>)
    requires
        all_digits(a),
        a.len() > 0,
    ensures
        all_digits(a.drop_first()),
        all_digits(a.drop_last()),
        is_digit(a[0]),
        is_digit(a.last()),
{
    assert forall|i: int| 0 <= i < a.drop_first().len() implies is_digit(#[trigger] a.drop_first()[i]) by {
        assert(a.drop_first()[i] == a[i + 1]);
    }
    assert forall|i: int| 0 <= i < a.drop_last().len() implies is_digit(#[trigger] a.drop_last()[i]) by {
        assert(a.drop_last()[i] == a[i]);
    }
}

proof fn lemma_digits_value_bound(a: Seq<char>)
    requires
        all_digits(a),
    ensures
        digits_value(a) < pow10(a.len()),
    decreases a.len(),
{
    if a.len() > 0 {
        lemma_all_digits_parts(a);
        lemma_digits_value_bound(a.drop_last());
        let v = digits_value(a.drop_last());
        let d = digit_value(a.last());
        let p = pow10(a.drop_last().len());
        assert(d <= 9);
        assert(v * 10 + d < 10 * p) by (nonlinear_arith)
            requires
                v < p,
                d <= 9,
        ;
    }
}

proof fn lemma_digits_value_front(a: Seq<char>)
    requires
        all_digits(a),
        a.len() >= 1,
    ensures
        digits_value(a) == digit_value(a[0]) * pow10((a.len() - 1) as nat) + digits_value(a.drop_first()),
    decreases a.len(),
{
    lemma_all_digits_parts(a);
    if a.len() == 1 {
        assert(a.drop_last().len() == 0);
        assert(a.drop_first().len() == 0);
        assert(digits_value(a.drop_last()) == 0);
        assert(digits_value(a.drop_first()) == 0);
        assert(pow10(0) == 1);
        assert(a.last() == a[0]);
        assert(digits_value(a) == digit_value(a[0]));
    } else {
        let b = a.drop_last();
        lemma_digits_value_front(b);
        assert(a.drop_first().drop_last() =~= b.drop_first());
        assert(a.drop_first().last() == a.last());
        assert(b[0] == a[0]);
        let d0 = digit_value(a[0]);
        let p = pow10((b.len() - 1) as nat);
        let rb = digits_value(b.drop_first());
        let dl = digit_value(a.last());
        assert(pow10((a.len() - 1) as nat) == 10 * p);
        assert(digits_value(a.drop_first()) == digits_value(a.drop_first().drop_last()) * 10
            + digit_value(a.drop_first().last()));
        assert(digits_value(a) == digits_value(b) * 10 + dl);
        assert(digits_value(b) == d0 * p + rb);
        assert(digits_value(a.drop_first()) == rb * 10 + dl);
        assert((d0 * p + rb) * 10 + dl == d0 * (10 * p) + (rb * 10 + dl)) by (nonlinear_arith);
    }
}

/// Of two digit strings of one length, the one with the smaller value comes
/// first in the order of strings.
pub proof fn lemma_text_le_digits(a: Seq<char>, b: Seq<char>)
    requires
        all_digits(a),
        all_digits(b),
        a.len() == b.len(),
    ensures
        text_le(a, b) <==> digits_value(a) <= digits_value(b),
    decreases a.len(),
{
    if a.len() > 0 {
        lemma_all_digits_parts(a);
        lemma_all_digits_parts(b);
        lemma_digits_value_front(a);
        lemma_digits_value_front(b);
        lemma_digits_value_bound(a.drop_first());
        lemma_digits_value_bound(b.drop_first());
        let p = pow10((a.len() - 1) as nat);
        let da = digit_value(a[0]);
        let db = digit_value(b[0]);
        let ra = digits_value(a.drop_first());
        let rb = digits_value(b.drop_first());
        if a[0] == b[0] {
            lemma_text_le_digits(a.drop_first(), b.drop_first());
        } else if a[0] < b[0] {
            assert(da + 1 <= db);
            assert(da * p + ra < db * p + rb) by (nonlinear_arith)
                requires
                    da + 1 <= db,
                    ra < p,
            ;
        } else {
            assert(db + 1 <= da);
            assert(db * p + rb < da * p + ra) by (nonlinear_arith)
                requires
                    db + 1 <= da,
                    rb < p,
            ;
        }
    }
}

/// A common prefix does not change the order of two strings.
pub proof fn lemma_text_le_prefix(p: Seq<char>, a: Seq<char>, b: Seq<char>)
    ensures
        text_le(p + a, p + b) == text_le(a, b),
    decreases p.len(),
{
    if p.len() == 0 {
        assert(p + a =~= a);
        assert(p + b =~= b);
    } else {
        assert((p + a).drop_first() =~= p.drop_first() + a);
        assert((p + b).drop_first() =~= p.drop_first() + b);
        lemma_text_le_prefix(p.drop_first(), a, b);
    }
}

/// Two different strings of one length decide the order of anything that
/// follows them.
pub proof fn lemma_text_le_same_length(a: Seq<char>, x: Seq<char>, b: Seq<char>, y: Seq<char>)
    requires
        a.len() == b.len(),
        a != b,
    ensures
        text_le(a + x, b + y) == text_le(a, b),
    decreases a.len(),
{
    if a.len() == 0 {
        assert(a =~= b);
    } else if a[0] == b[0] {
        if a.drop_first() == b.drop_first() {
            assert(a =~= seq![a[0]] + a.drop_first());
            assert(b =~= seq![b[0]] + b.drop_first());
        }
        assert((a + x).drop_first() =~= a.drop_first() + x);
        assert((b + y).drop_first() =~= b.drop_first() + y);
        lemma_text_le_same_length(a.drop_first(), x, b.drop_first(), y);
    }
}

proof fn lemma_zeros_value(k: nat, s: Seq<char>)
    requires
        all_digits(s),
    ensures
        digits_value(Seq::new(k, |i: int| '0') + s) == digits_value(s),
        all_digits(Seq::new(k, |i: int| '0') + s),
    decreases s.len(), k,
{
    let z = Seq::new(k, |i: int| '0');
    assert forall|i: int| 0 <= i < (z + s).len() implies is_digit(#[trigger] (z + s)[i]) by {
        if i >= k {
            assert((z + s)[i] == s[i - k]);
        }
    }
    if s.len() > 0 {
        lemma_all_digits_parts(s);
        assert((z + s).drop_last() =~= z + s.drop_last());
        lemma_zeros_value(k, s.drop_last());
    } else if k > 0 {
        assert(z + s =~= z);
        let z1 = Seq::new((k - 1) as nat, |i: int| '0');
        assert(z.drop_last() =~= z1 + s);
        lemma_zeros_value((k - 1) as nat, s);
        assert(digit_value(z.last()) == 0);
    } else {
        assert(z + s =~= s);
    }
}

/// Padding digits on the left with `'0'` keeps them digits and keeps their value.
pub proof fn lemma_pad_digits(s: Seq<char>, width: nat)
    requires
        all_digits(s),
    ensures
        all_digits(pad_left(s, width, '0')),
        digits_value(pad_left(s, width, '0')) == digits_value(s),
        s.len() <= width ==> pad_left(s, width, '0').len() == width,
{
    if s.len() < width {
        lemma_zeros_value((width - s.len()) as nat, s);
    }
}

/// The decimal notation of `n` is digits with the value `n`, at most three
/// of them when `n` is below 1000.
pub proof fn lemma_decimal_digits(n: nat)
    ensures
        all_digits(decimal(n)),
        digits_value(decimal(n)) == n,
        n < 1000 ==> decimal(n).len() <= 3,
        decimal(n).len() >= 1,
    decreases n,
{
    if n < 10 {
        assert(digit_value(digit_char(n)) == n);
        assert(decimal(n).drop_last().len() == 0);
        assert(digits_value(decimal(n).drop_last()) == 0);
    } else {
        lemma_decimal_digits(n / 10);
        let d = decimal(n);
        assert(d.drop_last() =~= decimal(n / 10));
        assert(digit_value(digit_char(n % 10)) == n % 10);
        assert(digits_value(d) == digits_value(decimal(n / 10)) * 10 + n % 10);
        assert forall|i: int| 0 <= i < d.len() implies is_digit(#[trigger] d[i]) by {
            if i < d.len() - 1 {
                assert(d[i] == decimal(n / 10)[i]);
            }
        }
        if n < 1000 {
            assert(n / 10 < 100);
            if n / 10 >= 10 {
                lemma_decimal_digits(n / 100);
                assert(n / 10 / 10 == n / 100);
                assert(decimal(n / 10).len() == decimal(n / 100).len() + 1);
                assert(n / 100 < 10);
            }
        }
    }
}

} // verus!
