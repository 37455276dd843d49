//! Character sequences: their lexicographic order and a few std helpers.
use vstd::prelude::*;

verus! {

broadcast use vstd::string::group_string_axioms;

/// The code point of a character.
pub open spec fn code_point(c: char) -> u32 {
    #[verifier::truncate]
    (c as u32)
}

/// Distinct characters have distinct code points.
pub proof fn lemma_code_point_injective(c: char, d: char)
    requires
        c != d,
    ensures
        code_point(c) != code_point(d),
{
    vstd::utf8::char_u32_cast(c, code_point(c));
    vstd::utf8::char_u32_cast(d, code_point(d));
}

/// Lexicographic order of character sequences, by code point. This is the
/// order of `String`s in Rust, since UTF-8 preserves code point order.
pub open spec fn text_le(a: Seq<char>, b: Seq<char>) -> bool
    decreases a.len(),
{
    if a.len() == 0 {
        true
    } else if b.len() == 0 {
        false
    } else if a[0] != b[0] {
        code_point(a[0]) < code_point(b[0])
    } else {
        text_le(a.drop_first(), b.drop_first())
    }
}

/// Strict lexicographic order.
pub open spec fn text_lt(a: Seq<char>, b: Seq<char>) -> bool {
    text_le(a, b) && a != b
}

/// The order as a relation value, for `sort_by` and `sorted_by`.
pub open spec fn text_order() -> spec_fn(Seq<char>, Seq<char>) -> bool {
    |a: Seq<char>, b: Seq<char>| text_le(a, b)
}

pub proof fn lemma_text_le_reflexive(a: Seq<char>)
    ensures
        text_le(a, a),
    decreases a.len(),
{
    if a.len() > 0 {
        lemma_text_le_reflexive(a.drop_first());
    }
}

pub proof fn lemma_text_le_antisymmetric(a: Seq<char>, b: Seq<char>)
    requires
        text_le(a, b),
        text_le(b, a),
    ensures
        a == b,
    decreases a.len(),
{
    if a.len() > 0 && b.len() > 0 {
        lemma_text_le_antisymmetric(a.drop_first(), b.drop_first());
        assert(a =~= seq![a[0]] + a.drop_first());
        assert(b =~= seq![b[0]] + b.drop_first());
    }
}

pub proof fn lemma_text_le_transitive(a: Seq<char>, b: Seq<char>, c: Seq<char>)
    requires
        text_le(a, b),
        text_le(b, c),
    ensures
        text_le(a, c),
    decreases a.len(),
{
    if a.len() > 0 && b.len() > 0 && c.len() > 0 {
        if a[0] == b[0] && b[0] == c[0] {
            lemma_text_le_transitive(a.drop_first(), b.drop_first(), c.drop_first());
        }
    }
}

pub proof fn lemma_text_le_total(a: Seq<char>, b: Seq<char>)
    ensures
        text_le(a, b) || text_le(b, a),
    decreases a.len(),
{
    if a.len() > 0 && b.len() > 0 {
        if a[0] == b[0] {
            lemma_text_le_total(a.drop_first(), b.drop_first());
        } else {
            lemma_code_point_injective(a[0], b[0]);
        }
    }
}

/// The lexicographic order is a total order.
pub proof fn lemma_text_order_total()
    ensures
        vstd::relations::total_ordering(text_order()),
{
    assert forall|a: Seq<char>| #[trigger] text_order()(a, a) by {
        lemma_text_le_reflexive(a);
    }
    assert forall|a: Seq<char>, b: Seq<char>|
        #[trigger] text_order()(a, b) && #[trigger] text_order()(b, a) implies a == b by {
        lemma_text_le_antisymmetric(a, b);
    }
    assert forall|a: Seq<char>, b: Seq<char>, c: Seq<char>|
        #[trigger] text_order()(a, b) && #[trigger] text_order()(b, c) implies text_order()(
        a,
        c,
    ) by {
        lemma_text_le_transitive(a, b, c);
    }
    assert forall|a: Seq<char>, b: Seq<char>|
        #[trigger] text_order()(a, b) || #[trigger] text_order()(b, a) by {
        lemma_text_le_total(a, b);
    }
}

/// Two sequences that agree on their first `i` characters compare as their
/// remainders do.
pub proof fn lemma_text_le_common_prefix(a: Seq<char>, b: Seq<char>, i: int)
    requires
        0 <= i <= a.len(),
        i <= b.len(),
        a.take(i) == b.take(i),
    ensures
        text_le(a, b) == text_le(a.skip(i), b.skip(i)),
    decreases i,
{
    if i > 0 {
        assert(a[0] == a.take(i)[0]);
        assert(b[0] == b.take(i)[0]);
        assert(a.drop_first().take(i - 1) =~= a.take(i).drop_first());
        assert(b.drop_first().take(i - 1) =~= b.take(i).drop_first());
        lemma_text_le_common_prefix(a.drop_first(), b.drop_first(), i - 1);
        assert(a.drop_first().skip(i - 1) =~= a.skip(i));
        assert(b.drop_first().skip(i - 1) =~= b.skip(i));
    } else {
        assert(a.skip(0) =~= a);
        assert(b.skip(0) =~= b);
    }
}

/// The outcome of comparing two texts.
#[derive(Clone, Copy, Debug, PartialEq, Eq, Structural)]
pub enum TextOrder {
    Less,
    Equal,
    Greater,
}

/// Compares two character sequences in lexicographic order.
pub fn compare_chars(a: &Vec<char>, b: &Vec<char>) -> (r: TextOrder)
    ensures
        r == TextOrder::Less <==> text_lt(a@, b@),
        r == TextOrder::Equal <==> a@ == b@,
        r == TextOrder::Greater <==> text_lt(b@, a@),
{
    let mut i: usize = 0;
    while i < a.len() && i < b.len() && a[i] == b[i]
        invariant
            i <= a.len(),
            i <= b.len(),
            a@.take(i as int) == b@.take(i as int),
        decreases a.len() - i,
    {
        assert(a@.take(i + 1) =~= a@.take(i as int).push(a@[i as int]));
        assert(b@.take(i + 1) =~= b@.take(i as int).push(b@[i as int]));
        i = i + 1;
    }
    proof {
        lemma_text_le_common_prefix(a@, b@, i as int);
        lemma_text_le_common_prefix(b@, a@, i as int);
        lemma_text_le_total(a@, b@);
    }
    if i == a.len() && i == b.len() {
        assert(a@ =~= a@.take(i as int));
        assert(b@ =~= b@.take(i as int));
        TextOrder::Equal
    } else if i == a.len() {
        assert(a@.len() != b@.len());
        TextOrder::Less
    } else if i == b.len() {
        assert(a@.len() != b@.len());
        TextOrder::Greater
    } else {
        assert(a@.skip(i as int)[0] == a@[i as int]);
        assert(b@.skip(i as int)[0] == b@[i as int]);
        assert(a@[i as int] != b@[i as int]);
        proof {
            lemma_code_point_injective(a@[i as int], b@[i as int]);
        }
        let x: u32 = #[verifier::truncate] (a[i] as u32);
        let y: u32 = #[verifier::truncate] (b[i] as u32);
        if x < y {
            TextOrder::Less
        } else {
            TextOrder::Greater
        }
    }
}

/// The characters of a string slice.
pub fn chars_of(s: &str) -> (v: Vec<char>)
    ensures
        v@ == s@,
{
    let mut v: Vec<char> = Vec::new();
    for c in it: s.chars()
        invariant
            v@ == it.seq().take(it.index() as int),
            it.seq() == s@,
    {
        v.push(c);
    }
    v
}

/// Compares two string slices in lexicographic order.
pub fn compare_text(a: &str, b: &str) -> (r: TextOrder)
    ensures
        r == TextOrder::Less <==> text_lt(a@, b@),
        r == TextOrder::Equal <==> a@ == b@,
        r == TextOrder::Greater <==> text_lt(b@, a@),
{
    let ac = chars_of(a);
    let bc = chars_of(b);
    compare_chars(&ac, &bc)
}

/// The character sequences of a sequence of strings.
pub open spec fn texts(v: Seq<String>) -> Seq<Seq<char>> {
    v.map_values(|x: String| x@)
}

/// Strict order is transitive.
pub proof fn lemma_text_lt_transitive(a: Seq<char>, b: Seq<char>, c: Seq<char>)
    requires
        text_lt(a, b),
        text_lt(b, c),
    ensures
        text_lt(a, c),
{
    lemma_text_le_transitive(a, b, c);
    if a == c {
        lemma_text_le_antisymmetric(b, c);
    }
}

/// Inserts a string into a sorted vector of strings, keeping it sorted.
pub fn insert_sorted(v: &mut Vec<String>, x: String)
    requires
        vstd::relations::sorted_by(texts(old(v)@), text_order()),
    ensures
        vstd::relations::sorted_by(texts(final(v)@), text_order()),
        texts(final(v)@).to_multiset() == texts(old(v)@).to_multiset().insert(x@),
{
    proof {
        lemma_text_order_total();
    }
    let mut p: usize = 0;
    let mut found = false;
    while p < v.len() && !found
        invariant
            p <= v.len(),
            vstd::relations::total_ordering(text_order()),
            forall|q: int| 0 <= q < p ==> text_le(#[trigger] v@[q]@, x@),
            found ==> p < v.len() && text_lt(x@, v@[p as int]@),
        decreases v.len() - p + (if found { 0int } else { 1int }),
    {
        if compare_text(v[p].as_str(), x.as_str()) == TextOrder::Greater {
            found = true;
        } else {
            proof {
                lemma_text_le_reflexive(x@);
            }
            p = p + 1;
        }
    }
    let ghost old_v = v@;
    v.insert(p, x);
    assert(texts(v@) =~= texts(old_v).insert(p as int, x@));
    assert(texts(v@).to_multiset() == texts(old_v).to_multiset().insert(x@)) by {
        vstd::seq_lib::to_multiset_insert(texts(old_v), p as int, x@);
    }
    assert forall|i: int, j: int| 0 <= i < j < texts(v@).len() implies #[trigger] text_order()(
        texts(v@)[i],
        texts(v@)[j],
    ) by {
        if j == p {
            assert(text_le(old_v[i]@, x@));
        } else if i == p {
            assert(text_order()(texts(old_v)[p as int], texts(old_v)[j - 1]));
            lemma_text_le_transitive(x@, old_v[p as int]@, old_v[j - 1]@);
        } else if i < p && j > p {
            assert(text_order()(texts(old_v)[i], texts(old_v)[j - 1]));
        } else if j < p {
            assert(text_order()(texts(old_v)[i], texts(old_v)[j]));
        } else {
            assert(text_order()(texts(old_v)[i - 1], texts(old_v)[j - 1]));
        }
    }
}

// ---------------------------------------------------------------------------
// Decimal numbers
// ---------------------------------------------------------------------------
/// The ASCII digit of `d < 10`.
pub open spec fn digit_char(d: nat) -> char {
    if d == 0 { '0' }
    else if d == 1 { '1' }
    else if d == 2 { '2' }
    else if d == 3 { '3' }
    else if d == 4 { '4' }
    else if d == 5 { '5' }
    else if d == 6 { '6' }
    else if d == 7 { '7' }
    else if d == 8 { '8' }
    else { '9' }
}

/// The value of an ASCII digit.
pub open spec fn digit_value(c: char) -> nat {
    if c == '1' { 1 }
    else if c == '2' { 2 }
    else if c == '3' { 3 }
    else if c == '4' { 4 }
    else if c == '5' { 5 }
    else if c == '6' { 6 }
    else if c == '7' { 7 }
    else if c == '8' { 8 }
    else if c == '9' { 9 }
    else { 0 }
}

pub open spec fn is_ascii_digit(c: char) -> bool {
    '0' <= c && c <= '9'
}

/// The decimal notation of `n`, without leading zeros.
pub open spec fn decimal_text(n: nat) -> Seq<char>
    decreases n,
{
    if n < 10 {
        seq![digit_char(n)]
    } else {
        decimal_text(n / 10).push(digit_char(n % 10))
    }
}

/// Whether every character of `d` is an ASCII digit.
pub open spec fn all_digits(d: Seq<char>) -> bool {
    forall|i: int| 0 <= i < d.len() ==> is_ascii_digit(#[trigger] d[i])
}

/// The value of a sequence of decimal digits.
pub open spec fn digits_value(d: Seq<char>) -> nat
    decreases d.len(),
{
    if d.len() == 0 {
        0
    } else {
        digits_value(d.drop_last()) * 10 + digit_value(d.last())
    }
}

/// How `str::parse::<u16>` reads a string: an optional `+` followed by one or
/// more ASCII digits whose value is at most `u16::MAX`.
pub open spec fn spec_parse_u16(s: Seq<char>) -> Option<u16> {
    let d = if s.len() > 0 && s[0] == '+' {
        s.skip(1)
    } else {
        s
    };
    if d.len() > 0 && all_digits(d) && digits_value(d) <= u16::MAX {
        Some(digits_value(d) as u16)
    } else {
        None
    }
}

proof fn lemma_digit_round_trip(d: nat)
    requires
        d < 10,
    ensures
        digit_value(digit_char(d)) == d,
        is_ascii_digit(digit_char(d)),
        digit_char(d) != '+',
{
}

/// The decimal notation of a number reads back as the number.
pub proof fn lemma_decimal_text_reads_back(n: nat)
    ensures
        all_digits(decimal_text(n)),
        decimal_text(n).len() > 0,
        decimal_text(n)[0] != '+',
        digits_value(decimal_text(n)) == n,
    decreases n,
{
    lemma_digit_round_trip(n % 10);
    if n >= 10 {
        lemma_decimal_text_reads_back(n / 10);
        let t = decimal_text(n / 10);
        assert(decimal_text(n).drop_last() =~= t);
        assert(decimal_text(n)[0] == t[0]);
        assert(digits_value(decimal_text(n)) == digits_value(t) * 10 + n % 10);
        assert((n / 10) * 10 + n % 10 == n) by (nonlinear_arith);
    } else {
        assert(decimal_text(n).drop_last() =~= Seq::<char>::empty());
        assert(digits_value(Seq::<char>::empty()) == 0);
        assert(n % 10 == n);
    }
}

/// Reads an unsigned 16-bit number the way `str::parse::<u16>` does.
pub fn parse_u16(s: &str) -> (r: Option<u16>)
    ensures
        r == spec_parse_u16(s@),
{
    let cs = chars_of(s);
    let start: usize = if cs.len() > 0 && cs[0] == '+' {
        1
    } else {
        0
    };
    let ghost d = cs@.skip(start as int);
    assert(d =~= (if s@.len() > 0 && s@[0] == '+' { s@.skip(1) } else { s@ }));
    if start >= cs.len() {
        return None;
    }
    let mut value: u32 = 0;
    let mut i: usize = start;
    while i < cs.len()
        invariant
            start <= i <= cs.len(),
            d == cs@.skip(start as int),
            cs@ == s@,
            d == (if s@.len() > 0 && s@[0] == '+' { s@.skip(1) } else { s@ }),
            all_digits(cs@.subrange(start as int, i as int)),
            value as nat == digits_value(cs@.subrange(start as int, i as int)),
            value <= 65535,
        decreases cs.len() - i,
    {
        let c = cs[i];
        assert(cs@.subrange(start as int, i + 1).drop_last() =~= cs@.subrange(start as int, i as int));
        if !('0' <= c && c <= '9') {
            assert(d[i - start] == c);
            assert(!is_ascii_digit(d[i - start]));
            return None;
        }
        let dv: u32 = if c == '0' { 0 }
            else if c == '1' { 1 }
            else if c == '2' { 2 }
            else if c == '3' { 3 }
            else if c == '4' { 4 }
            else if c == '5' { 5 }
            else if c == '6' { 6 }
            else if c == '7' { 7 }
            else if c == '8' { 8 }
            else { 9 };
        assert(dv as nat == digit_value(c));
        let next: u32 = value * 10 + dv;
        if next > 65535 {
            proof {
                lemma_digits_value_prefix_bound(d, (i + 1 - start) as int);
                assert(d.take(i + 1 - start) =~= cs@.subrange(start as int, i + 1));
                assert(cs@.subrange(start as int, i + 1).last() == c);
                assert(digits_value(cs@.subrange(start as int, i + 1)) == next);
            }
            return None;
        }
        assert(cs@.subrange(start as int, i + 1).last() == c);
        value = next;
        i = i + 1;
    }
    assert(cs@.subrange(start as int, cs.len() as int) =~= d);
    Some(value as u16)
}

/// A number of digits is at least the value of any of its prefixes.
proof fn lemma_digits_value_prefix_bound(d: Seq<char>, k: int)
    requires
        0 <= k <= d.len(),
    ensures
        digits_value(d) >= digits_value(d.take(k)),
    decreases d.len(),
{
    if k < d.len() {
        assert(d.drop_last().take(k) =~= d.take(k));
        lemma_digits_value_prefix_bound(d.drop_last(), k);
    } else {
        assert(d.take(k) =~= d);
    }
}

// ---------------------------------------------------------------------------
// Trimming
// ---------------------------------------------------------------------------
/// White space as `char::is_whitespace` defines it: the characters with the
/// Unicode property `White_Space`.
pub open spec fn is_white_space(c: char) -> bool {
    ||| ('\u{9}' <= c && c <= '\u{D}')
    ||| c == ' '
    ||| c == '\u{85}'
    ||| c == '\u{A0}'
    ||| c == '\u{1680}'
    ||| ('\u{2000}' <= c && c <= '\u{200A}')
    ||| c == '\u{2028}'
    ||| c == '\u{2029}'
    ||| c == '\u{202F}'
    ||| c == '\u{205F}'
    ||| c == '\u{3000}'
}

fn is_white_space_char(c: char) -> (r: bool)
    ensures
        r == is_white_space(c),
{
    ('\u{9}' <= c && c <= '\u{D}') || c == ' ' || c == '\u{85}' || c == '\u{A0}' || c == '\u{1680}'
        || ('\u{2000}' <= c && c <= '\u{200A}') || c == '\u{2028}' || c == '\u{2029}'
        || c == '\u{202F}' || c == '\u{205F}' || c == '\u{3000}'
}

/// `s` without its leading white space.
pub open spec fn trim_start(s: Seq<char>) -> Seq<char>
    decreases s.len(),
{
    if s.len() > 0 && is_white_space(s[0]) {
        trim_start(s.drop_first())
    } else {
        s
    }
}

/// `s` without its trailing white space.
pub open spec fn trim_end(s: Seq<char>) -> Seq<char>
    decreases s.len(),
{
    if s.len() > 0 && is_white_space(s.last()) {
        trim_end(s.drop_last())
    } else {
        s
    }
}

/// `s` without leading and trailing white space, as `str::trim` gives it.
pub open spec fn trimmed(s: Seq<char>) -> Seq<char> {
    trim_end(trim_start(s))
}

/// Removes leading and trailing white space.
pub fn trim_text(s: &str) -> (r: &str)
    ensures
        r@ == trimmed(s@),
{
    let cs = chars_of(s);
    let n = cs.len();
    let mut a: usize = 0;
    assert(cs@.skip(0) =~= cs@);
    while a < n && is_white_space_char(cs[a])
        invariant
            a <= n,
            n == cs.len(),
            trim_start(cs@) == trim_start(cs@.skip(a as int)),
        decreases n - a,
    {
        assert(cs@.skip(a as int).drop_first() =~= cs@.skip(a + 1));
        a = a + 1;
    }
    assert(trim_start(cs@.skip(a as int)) == cs@.skip(a as int));
    let mut b: usize = n;
    assert(cs@.skip(a as int) =~= cs@.subrange(a as int, n as int));
    while b > a && is_white_space_char(cs[b - 1])
        invariant
            a <= b <= n,
            n == cs.len(),
            trim_end(cs@.subrange(a as int, n as int)) == trim_end(cs@.subrange(a as int, b as int)),
        decreases b,
    {
        assert(cs@.subrange(a as int, b as int).drop_last() =~= cs@.subrange(a as int, b - 1));
        b = b - 1;
    }
    assert(trim_end(cs@.subrange(a as int, b as int)) == cs@.subrange(a as int, b as int));
    s.substring_char(a, b)
}

/// The one-character text of a digit.
fn digit_str(d: u16) -> (s: &'static str)
    requires
        d < 10,
    ensures
        s@ == seq![digit_char(d as nat)],
{
    if d == 0 {
        let s = "0";
        proof {
            reveal_strlit("0");
        }
        assert(s@ =~= seq![digit_char(0)]);
        s
    } else if d == 1 {
        let s = "1";
        proof {
            reveal_strlit("1");
        }
        assert(s@ =~= seq![digit_char(1)]);
        s
    } else if d == 2 {
        let s = "2";
        proof {
            reveal_strlit("2");
        }
        assert(s@ =~= seq![digit_char(2)]);
        s
    } else if d == 3 {
        let s = "3";
        proof {
            reveal_strlit("3");
        }
        assert(s@ =~= seq![digit_char(3)]);
        s
    } else if d == 4 {
        let s = "4";
        proof {
            reveal_strlit("4");
        }
        assert(s@ =~= seq![digit_char(4)]);
        s
    } else if d == 5 {
        let s = "5";
        proof {
            reveal_strlit("5");
        }
        assert(s@ =~= seq![digit_char(5)]);
        s
    } else if d == 6 {
        let s = "6";
        proof {
            reveal_strlit("6");
        }
        assert(s@ =~= seq![digit_char(6)]);
        s
    } else if d == 7 {
        let s = "7";
        proof {
            reveal_strlit("7");
        }
        assert(s@ =~= seq![digit_char(7)]);
        s
    } else if d == 8 {
        let s = "8";
        proof {
            reveal_strlit("8");
        }
        assert(s@ =~= seq![digit_char(8)]);
        s
    } else {
        let s = "9";
        proof {
            reveal_strlit("9");
        }
        assert(s@ =~= seq![digit_char(9)]);
        s
    }
}

/// The decimal notation of a `u16`, as its `Display` implementation writes it.
pub fn decimal_string(n: u16) -> (s: String)
    ensures
        s@ == decimal_text(n as nat),
    decreases n,
{
    if n < 10 {
        owned(digit_str(n))
    } else {
        let mut s = decimal_string(n / 10);
        s.append(digit_str(n % 10));
        s
    }
}

/// A `String` holding the characters of a string slice.
pub fn owned(s: &str) -> (r: String)
    ensures
        r@ == s@,
{
    s.to_owned()
}

// ---------------------------------------------------------------------------
// Laws of texts, digits and trimming
// ---------------------------------------------------------------------------
/// The lexicographic order: a prefix comes first, and otherwise the first
/// differing character decides, by code point.
pub proof fn law_text_order(a: Seq<char>, b: Seq<char>)
    ensures
        a.len() <= b.len() && a == b.take(a.len() as int) ==> text_le(a, b),
        forall|i: int|
            0 <= i < a.len() && i < b.len() && a.take(i) == b.take(i) && a[i] != b[i] ==> (text_lt(a, b)
                <==> code_point(#[trigger] a[i]) < code_point(b[i])),
{
    if a.len() <= b.len() && a == b.take(a.len() as int) {
        assert(a.take(a.len() as int) =~= a);
        lemma_text_le_common_prefix(a, b, a.len() as int);
        assert(a.skip(a.len() as int).len() == 0);
    }
    assert forall|i: int|
        0 <= i < a.len() && i < b.len() && a.take(i) == b.take(i) && a[i] != b[i] implies (text_lt(a, b)
        <==> code_point(#[trigger] a[i]) < code_point(b[i])) by {
        lemma_text_le_common_prefix(a, b, i);
        lemma_code_point_injective(a[i], b[i]);
        assert(a.skip(i)[0] == a[i]);
        assert(b.skip(i)[0] == b[i]);
        if text_le(a, b) && a == b {
            assert(a[i] == b[i]);
        }
    }
}

/// The digits `0` to `9` are written by ten increasing characters from `'0'`
/// to `'9'`, that is by `'0'` to `'9'` in order, and read back as themselves.
pub proof fn law_digits(d: nat, e: nat)
    requires
        d < 10,
        e < 10,
    ensures
        '0' <= digit_char(d) && digit_char(d) <= '9',
        d < e ==> digit_char(d) < digit_char(e),
        digit_value(digit_char(d)) == d,
{
}

/// Reading numbers: the decimal notation of any `u16`, with or without a `+`,
/// reads as that number; leading zeros do not count; and a string that is
/// empty, a lone `+`, or holds any character other than a digit (or a leading
/// `+`) is no number.
pub proof fn law_parse_u16(n: u16, s: Seq<char>)
    ensures
        spec_parse_u16(decimal_text(n as nat)) == Some(n),
        spec_parse_u16(seq!['+'] + decimal_text(n as nat)) == Some(n),
        spec_parse_u16(Seq::empty()) is None,
        spec_parse_u16(seq!['+']) is None,
        s.len() > 0 && s[0] != '+' ==> spec_parse_u16(seq!['0'] + s) == spec_parse_u16(s),
        forall|k: int|
            0 <= k < s.len() && !('0' <= #[trigger] s[k] && s[k] <= '9') && !(k == 0 && s[k] == '+')
                ==> spec_parse_u16(s) is None,
{
    lemma_decimal_text_reads_back(n as nat);
    let d = decimal_text(n as nat);
    assert((seq!['+'] + d).skip(1) =~= d);
    assert(seq!['+'].skip(1) =~= Seq::<char>::empty());
    if s.len() > 0 && s[0] != '+' {
        let z = seq!['0'] + s;
        lemma_leading_zero(s);
        assert(all_digits(z) == all_digits(s)) by {
            if all_digits(s) {
                assert forall|i: int| 0 <= i < z.len() implies is_ascii_digit(#[trigger] z[i]) by {
                    if i > 0 {
                        assert(z[i] == s[i - 1]);
                    }
                }
            }
            if all_digits(z) {
                assert forall|i: int| 0 <= i < s.len() implies is_ascii_digit(#[trigger] s[i]) by {
                    assert(z[i + 1] == s[i]);
                }
            }
        }
    }
    assert forall|k: int|
        0 <= k < s.len() && !('0' <= #[trigger] s[k] && s[k] <= '9') && !(k == 0 && s[k] == '+')
            implies spec_parse_u16(s) is None by {
        if s.len() > 0 && s[0] == '+' {
            assert(s.skip(1)[k - 1] == s[k]);
        }
    }
}

proof fn lemma_leading_zero(s: Seq<char>)
    ensures
        digits_value(seq!['0'] + s) == digits_value(s),
    decreases s.len(),
{
    if s.len() == 0 {
        assert((seq!['0'] + s).drop_last() =~= Seq::<char>::empty());
        assert((seq!['0'] + s).last() == '0');
        assert(digits_value(Seq::<char>::empty()) == 0);
    } else {
        lemma_leading_zero(s.drop_last());
        assert((seq!['0'] + s).drop_last() =~= seq!['0'] + s.drop_last());
        assert((seq!['0'] + s).last() == s.last());
    }
}

proof fn lemma_trim_start(s: Seq<char>) -> (a: int)
    ensures
        0 <= a <= s.len(),
        trim_start(s) == s.skip(a),
        forall|k: int| 0 <= k < a ==> is_white_space(#[trigger] s[k]),
        a < s.len() ==> !is_white_space(s[a]),
    decreases s.len(),
{
    if s.len() > 0 && is_white_space(s[0]) {
        let a1 = lemma_trim_start(s.drop_first());
        assert(s.drop_first().skip(a1) =~= s.skip(a1 + 1));
        assert forall|k: int| 0 <= k < a1 + 1 implies is_white_space(#[trigger] s[k]) by {
            if k > 0 {
                assert(s[k] == s.drop_first()[k - 1]);
            }
        }
        assert(a1 + 1 < s.len() ==> s[a1 + 1] == s.drop_first()[a1]);
        a1 + 1
    } else {
        assert(s.skip(0) =~= s);
        0
    }
}

proof fn lemma_trim_end(s: Seq<char>) -> (b: int)
    ensures
        0 <= b <= s.len(),
        trim_end(s) == s.take(b),
        forall|k: int| b <= k < s.len() ==> is_white_space(#[trigger] s[k]),
        b > 0 ==> !is_white_space(s[b - 1]),
    decreases s.len(),
{
    if s.len() > 0 && is_white_space(s.last()) {
        let b1 = lemma_trim_end(s.drop_last());
        assert(s.drop_last().take(b1) =~= s.take(b1));
        assert forall|k: int| b1 <= k < s.len() implies is_white_space(#[trigger] s[k]) by {
            if k < s.len() - 1 {
                assert(s[k] == s.drop_last()[k]);
            }
        }
        assert(b1 > 0 ==> s[b1 - 1] == s.drop_last()[b1 - 1]);
        b1
    } else {
        assert(s.take(s.len() as int) =~= s);
        s.len() as int
    }
}

/// Trimming keeps one contiguous part of the text: everything before and
/// after it is white space, and the part neither starts nor ends with white
/// space.
pub proof fn law_trimmed(s: Seq<char>)
    ensures
        exists|a: int, b: int|
            {
                &&& 0 <= a <= b <= s.len()
                &&& trimmed(s) == s.subrange(a, b)
                &&& forall|k: int| 0 <= k < a ==> is_white_space(#[trigger] s[k])
                &&& forall|k: int| b <= k < s.len() ==> is_white_space(#[trigger] s[k])
                &&& a < b ==> !is_white_space(s[a]) && !is_white_space(s[b - 1])
            },
{
    let a = lemma_trim_start(s);
    let t = s.skip(a);
    let b1 = lemma_trim_end(t);
    let b = a + b1;
    assert(t.take(b1) =~= s.subrange(a, b));
    assert forall|k: int| b <= k < s.len() implies is_white_space(#[trigger] s[k]) by {
        assert(s[k] == t[k - a]);
    }
    if a < b {
        assert(s[a] == t[0]);
        assert(s[b - 1] == t[b1 - 1]);
        if b1 > 0 && a < s.len() {
            assert(!is_white_space(t[0]));
        }
    }
    assert({
        &&& 0 <= a <= b <= s.len()
        &&& trimmed(s) == s.subrange(a, b)
        &&& forall|k: int| 0 <= k < a ==> is_white_space(#[trigger] s[k])
        &&& forall|k: int| b <= k < s.len() ==> is_white_space(#[trigger] s[k])
        &&& a < b ==> !is_white_space(s[a]) && !is_white_space(s[b - 1])
    });
}

/// The decimal notation of a number: `0` for zero, otherwise digits without a
/// leading zero, one more digit for every factor of ten.
pub proof fn law_decimal_text(n: nat)
    ensures
        decimal_text(0) == seq!['0'],
        n > 0 ==> decimal_text(n)[0] != '0',
        n >= 10 ==> decimal_text(n).len() == decimal_text(n / 10).len() + 1,
        n < 10 ==> decimal_text(n).len() == 1,
        all_digits(decimal_text(n)),
        digits_value(decimal_text(n)) == n,
    decreases n,
{
    lemma_decimal_text_reads_back(n);
    if n >= 10 {
        law_decimal_text(n / 10);
        assert(decimal_text(n)[0] == decimal_text(n / 10)[0]);
    } else if n > 0 {
        law_digits(n, 0);
        assert(digit_char(n) != digit_char(0));
    }
}

} // verus!
