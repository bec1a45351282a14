//! Text: the few operations on characters that settings, tables and file names
//! need.

use vstd::arithmetic::power::{lemma_pow0, lemma_pow1, lemma_pow_adds, pow};
use vstd::prelude::*;

verus! {

/// `String::push` appends one character.
pub assume_specification[ String::push ](s: &mut String, c: char)
    ensures
        final(s)@ == old(s)@.push(c),
;

/// The characters with the Unicode property `White_Space`.
pub open spec fn space(c: char) -> bool {
    let n = c as u32;
    ||| 0x09 <= n <= 0x0D
    ||| n == 0x20
    ||| n == 0x85
    ||| n == 0xA0
    ||| n == 0x1680
    ||| 0x2000 <= n <= 0x200A
    ||| n == 0x2028
    ||| n == 0x2029
    ||| n == 0x202F
    ||| n == 0x205F
    ||| n == 0x3000
}

fn is_space(c: char) -> (yes: bool)
    ensures
        yes == space(c),
{
    let n: u32 = c as u32;
    (0x09 <= n && n <= 0x0D) || n == 0x20 || n == 0x85 || n == 0xA0 || n == 0x1680 || (0x2000 <= n && n <= 0x200A) || n
        == 0x2028 || n == 0x2029 || n == 0x202F || n == 0x205F || n == 0x3000
}

/// The characters of a text, one by one.
pub fn characters(s: &str) -> (chars: Vec<char>)
    ensures
        chars@ == s@,
{
    let mut chars: Vec<char> = Vec::new();
    for c in iter: s.chars()
        invariant
            chars@ == iter.seq().take(iter.index() as int),
            iter.seq() == s@,
    {
        chars.push(c);
    }
    chars
}

/// The letter in lower case, if it is an ASCII letter.
pub open spec fn lowered(c: char) -> char {
    if 'A' <= c <= 'Z' {
        (c as u32 + 32) as char
    } else {
        c
    }
}

fn to_lower(c: char) -> (r: char)
    ensures
        r == lowered(c),
{
    if 'A' <= c && c <= 'Z' {
        ((c as u8) + 32) as char
    } else {
        c
    }
}

/// The text without the white space it starts with.
pub open spec fn trimmed_start(s: Seq<char>) -> Seq<char>
    decreases s.len(),
{
    if s.len() > 0 && space(s[0]) {
        trimmed_start(s.drop_first())
    } else {
        s
    }
}

/// The text without the white space it ends with.
pub open spec fn trimmed_end(s: Seq<char>) -> Seq<char>
    decreases s.len(),
{
    if s.len() > 0 && space(s.last()) {
        trimmed_end(s.drop_last())
    } else {
        s
    }
}

/// The text without the white space around it.
pub open spec fn trimmed(s: Seq<char>) -> Seq<char> {
    trimmed_end(trimmed_start(s))
}

/// The characters from `from` up to `to`, as a text.
pub fn text_of(chars: &Vec<char>, from: usize, to: usize) -> (r: String)
    requires
        from <= to <= chars@.len(),
    ensures
        r@ == chars@.subrange(from as int, to as int),
{
    let mut r = String::new();
    let mut i: usize = from;
    while i < to
        invariant
            from <= i <= to <= chars@.len(),
            r@ == chars@.subrange(from as int, i as int),
        decreases to - i,
    {
        r.push(chars[i]);
        proof {
            assert(chars@.subrange(from as int, i + 1) =~= chars@.subrange(from as int, i as int).push(chars@[i as int]));
        }
        i = i + 1;
    }
    r
}

/// The text without the white space around it.
pub fn trim(s: &str) -> (r: String)
    ensures
        r@ == trimmed(s@),
{
    let chars = characters(s);
    let n: usize = chars.len();
    let mut from: usize = 0;
    assert(chars@.subrange(0, n as int) =~= chars@);
    while from < n && is_space(chars[from])
        invariant
            from <= n == chars@.len(),
            trimmed_start(chars@) == trimmed_start(chars@.subrange(from as int, n as int)),
        decreases n - from,
    {
        proof {
            let rest = chars@.subrange(from as int, n as int);
            assert(rest.drop_first() =~= chars@.subrange(from + 1, n as int));
        }
        from = from + 1;
    }
    let mut to: usize = n;
    let ghost left = chars@.subrange(from as int, n as int);
    assert(trimmed_start(chars@) == left);
    while from < to && is_space(chars[to - 1])
        invariant
            from <= to <= n == chars@.len(),
            trimmed_end(left) == trimmed_end(chars@.subrange(from as int, to as int)),
        decreases to - from,
    {
        proof {
            let rest = chars@.subrange(from as int, to as int);
            assert(rest.drop_last() =~= chars@.subrange(from as int, to - 1));
        }
        to = to - 1;
    }
    text_of(&chars, from, to)
}

/// True when there is nothing but white space in the text.
pub fn is_blank(s: &str) -> (yes: bool)
    ensures
        yes == (trimmed(s@).len() == 0),
{
    characters(trim(s).as_str()).len() == 0
}

/// A text that holds nothing but white space trims to nothing, and no other
/// does.
pub proof fn lemma_blank(s: Seq<char>)
    ensures
        trimmed(s).len() == 0 <==> (forall|i: int| 0 <= i < s.len() ==> space(#[trigger] s[i])),
    decreases s.len(),
{
    if s.len() > 0 && space(s[0]) {
        lemma_blank(s.drop_first());
        assert forall|i: int| 0 <= i < s.len() && trimmed(s).len() == 0 implies space(#[trigger] s[i]) by {
            if i > 0 {
                assert(s.drop_first()[i - 1] == s[i]);
            }
        }
        if forall|i: int| 0 <= i < s.len() ==> space(#[trigger] s[i]) {
            assert forall|i: int| 0 <= i < s.drop_first().len() implies space(#[trigger] s.drop_first()[i]) by {
                assert(s.drop_first()[i] == s[i + 1]);
            }
        }
    } else if s.len() > 0 {
        lemma_trimmed_end_keeps(s);
        assert(!space(s[0]));
    }
}

proof fn lemma_trimmed_end_keeps(s: Seq<char>)
    requires
        s.len() > 0,
        !space(s[0]),
    ensures
        trimmed_end(s).len() > 0,
    decreases s.len(),
{
    if space(s.last()) {
        lemma_trimmed_end_keeps(s.drop_last());
    }
}

/// Where a character first occurs; the length of the text where it does not.
pub open spec fn find(s: Seq<char>, c: char) -> int
    decreases s.len(),
{
    if s.len() == 0 || s[0] == c {
        0
    } else {
        1 + find(s.drop_first(), c)
    }
}

/// The first occurrence is an occurrence, and nothing before it is one.
pub proof fn lemma_find(s: Seq<char>, c: char)
    ensures
        0 <= find(s, c) <= s.len(),
        find(s, c) < s.len() ==> s[find(s, c)] == c,
        forall|i: int| 0 <= i < find(s, c) ==> s[i] != c,
    decreases s.len(),
{
    if s.len() > 0 && s[0] != c {
        lemma_find(s.drop_first(), c);
        assert forall|i: int| 0 <= i < find(s, c) implies s[i] != c by {
            if i > 0 {
                assert(s.drop_first()[i - 1] == s[i]);
            }
        }
    }
}

fn find_in(chars: &Vec<char>, c: char) -> (at: usize)
    ensures
        at == find(chars@, c),
        at <= chars@.len(),
{
    let n: usize = chars.len();
    let mut i: usize = 0;
    assert(chars@.subrange(0, n as int) =~= chars@);
    while i < n && chars[i] != c
        invariant
            i <= n == chars@.len(),
            find(chars@, c) == i + find(chars@.subrange(i as int, n as int), c),
        decreases n - i,
    {
        proof {
            let rest = chars@.subrange(i as int, n as int);
            assert(rest.drop_first() =~= chars@.subrange(i + 1, n as int));
        }
        i = i + 1;
    }
    i
}

/// The text before and the text after the first `c`.
pub fn split_once(s: &str, c: char) -> (r: Option<(String, String)>)
    ensures
        r is Some <==> find(s@, c) < s@.len(),
        r matches Some(parts) ==> parts.0@ == s@.subrange(0, find(s@, c)) && parts.1@ == s@.subrange(
            find(s@, c) + 1,
            s@.len() as int,
        ),
{
    let chars = characters(s);
    let at: usize = find_in(&chars, c);
    if at < chars.len() {
        Some((text_of(&chars, 0, at), text_of(&chars, at + 1, chars.len())))
    } else {
        None
    }
}

/// The text before the first `c`, or all of it.
pub fn up_to(s: &str, c: char) -> (r: String)
    ensures
        r@ == s@.subrange(0, find(s@, c)),
{
    let chars = characters(s);
    let at: usize = find_in(&chars, c);
    text_of(&chars, 0, at)
}

/// True when the two texts are the same.
pub fn same_text(a: &str, b: &str) -> (yes: bool)
    ensures
        yes == (a@ == b@),
{
    let x = characters(a);
    let y = characters(b);
    if x.len() != y.len() {
        return false;
    }
    let mut i: usize = 0;
    while i < x.len()
        invariant
            i <= x@.len() == y@.len(),
            x@ == a@,
            y@ == b@,
            forall|j: int| 0 <= j < i ==> x@[j] == y@[j],
        decreases x@.len() - i,
    {
        if x[i] != y[i] {
            assert(x@[i as int] != y@[i as int]);
            return false;
        }
        i = i + 1;
    }
    assert(x@ =~= y@);
    true
}

/// What follows `prefix`, where the text starts with it.
pub fn strip_prefix(s: &str, prefix: &str) -> (r: Option<String>)
    ensures
        r is Some <==> prefix@.is_prefix_of(s@),
        r matches Some(rest) ==> rest@ == s@.subrange(prefix@.len() as int, s@.len() as int),
{
    let x = characters(s);
    let p = characters(prefix);
    if p.len() > x.len() {
        return None;
    }
    let mut i: usize = 0;
    while i < p.len()
        invariant
            i <= p@.len() <= x@.len(),
            x@ == s@,
            p@ == prefix@,
            forall|j: int| 0 <= j < i ==> x@[j] == p@[j],
        decreases p@.len() - i,
    {
        if x[i] != p[i] {
            proof {
                assert(x@.subrange(0, p@.len() as int)[i as int] != p@[i as int]);
            }
            return None;
        }
        i = i + 1;
    }
    assert(x@.subrange(0, p@.len() as int) =~= p@);
    Some(text_of(&x, p.len(), x.len()))
}

/// The text in lower case, as far as its letters are ASCII.
pub fn lower(s: &str) -> (r: String)
    ensures
        r@ == s@.map_values(|c: char| lowered(c)),
{
    let chars = characters(s);
    let mut r = String::new();
    let mut i: usize = 0;
    while i < chars.len()
        invariant
            i <= chars@.len(),
            r@ == chars@.subrange(0, i as int).map_values(|c: char| lowered(c)),
        decreases chars@.len() - i,
    {
        r.push(to_lower(chars[i]));
        proof {
            assert(chars@.subrange(0, i + 1).map_values(|c: char| lowered(c)) =~= chars@.subrange(
                0,
                i as int,
            ).map_values(|c: char| lowered(c)).push(lowered(chars@[i as int])));
        }
        i = i + 1;
    }
    assert(chars@.subrange(0, chars@.len() as int) =~= chars@);
    r
}

/// The text with every `from` replaced by `to`.
pub fn replace(s: &str, from: char, to: char) -> (r: String)
    ensures
        r@ == s@.map_values(|c: char| if c == from { to } else { c }),
{
    let chars = characters(s);
    let mut r = String::new();
    let mut i: usize = 0;
    while i < chars.len()
        invariant
            i <= chars@.len(),
            r@ == chars@.subrange(0, i as int).map_values(|c: char| if c == from { to } else { c }),
        decreases chars@.len() - i,
    {
        let c: char = chars[i];
        r.push(if c == from { to } else { c });
        proof {
            assert(chars@.subrange(0, i + 1).map_values(|c: char| if c == from { to } else { c }) =~= chars@.subrange(
                0,
                i as int,
            ).map_values(|c: char| if c == from { to } else { c }).push(if c == from { to } else { c }));
        }
        i = i + 1;
    }
    assert(chars@.subrange(0, chars@.len() as int) =~= chars@);
    r
}

// ---------------------------------------------------------------------------
// Looking up
// ---------------------------------------------------------------------------

/// The first entry with a key, in a list of keys.
pub open spec fn position(keys: Seq<Seq<char>>, key: Seq<char>) -> Option<int>
    decreases keys.len(),
{
    if keys.len() == 0 {
        None
    } else if keys[0] == key {
        Some(0)
    } else {
        match position(keys.drop_first(), key) {
            Some(i) => Some(i + 1),
            None => None,
        }
    }
}

/// The entry found is the first with the key, and where none is found there is
/// none.
pub proof fn lemma_position(keys: Seq<Seq<char>>, key: Seq<char>)
    ensures
        match position(keys, key) {
            Some(i) => 0 <= i < keys.len() && keys[i] == key && forall|j: int| 0 <= j < i ==> keys[j] != key,
            None => forall|j: int| 0 <= j < keys.len() ==> keys[j] != key,
        },
    decreases keys.len(),
{
    if keys.len() > 0 && keys[0] != key {
        lemma_position(keys.drop_first(), key);
        assert forall|j: int|
            0 <= j < (match position(keys, key) {
                Some(i) => i,
                None => keys.len() as int,
            }) implies keys[j] != key by {
            if j > 0 {
                assert(keys.drop_first()[j - 1] == keys[j]);
            }
        }
    }
}

/// A place that holds the key, with none before it, is the position.
pub proof fn lemma_position_is(keys: Seq<Seq<char>>, key: Seq<char>, i: int)
    requires
        0 <= i < keys.len(),
        keys[i] == key,
        forall|j: int| 0 <= j < i ==> keys[j] != key,
    ensures
        position(keys, key) == Some(i),
{
    lemma_position(keys, key);
}

// ---------------------------------------------------------------------------
// Numbers as text
// ---------------------------------------------------------------------------

/// The character of a decimal digit.
pub open spec fn digit(n: int) -> char {
    (n + 0x30) as char
}

/// A number in decimal.
pub open spec fn decimal(n: nat) -> Seq<char>
    decreases n,
{
    if n < 10 {
        seq![digit(n as int)]
    } else {
        decimal(n / 10).push(digit((n % 10) as int))
    }
}

/// A number in decimal, with zeros in front up to `width` characters.
pub open spec fn padded(n: nat, width: nat) -> Seq<char> {
    let plain = decimal(n);
    if plain.len() >= width {
        plain
    } else {
        Seq::new((width - plain.len()) as nat, |i: int| '0') + plain
    }
}

/// A number in decimal, with its sign where it is negative.
pub open spec fn signed_decimal(n: int) -> Seq<char> {
    if n < 0 {
        "-"@ + decimal((-n) as nat)
    } else {
        decimal(n as nat)
    }
}

fn digit_char(n: u64) -> (c: char)
    requires
        n < 10,
    ensures
        c == digit(n as int),
{
    ((n as u8) + 0x30) as char
}

/// A number in decimal.
pub fn number(n: u64) -> (r: String)
    ensures
        r@ == decimal(n as nat),
    decreases n,
{
    let mut r = if n < 10 {
        String::new()
    } else {
        number(n / 10)
    };
    r.push(digit_char(n % 10));
    assert(n < 10 ==> r@ =~= decimal(n as nat));
    r
}

/// A number in decimal, with its sign where it is negative.
pub fn signed_number(n: i32) -> (r: String)
    ensures
        r@ == signed_decimal(n as int),
{
    if n < 0 {
        let mut r = "-".to_owned();
        r.append(number((-(n as i64)) as u64).as_str());
        r
    } else {
        number(n as u64)
    }
}

/// A number in decimal, with zeros in front up to `width` characters.
pub fn pad(n: u64, width: usize) -> (r: String)
    ensures
        r@ == padded(n as nat, width as nat),
{
    let plain = number(n);
    let chars = characters(plain.as_str());
    if chars.len() >= width {
        plain
    } else {
        let zeros: usize = width - chars.len();
        let mut r = String::new();
        let mut i: usize = 0;
        while i < zeros
            invariant
                i <= zeros,
                r@ == Seq::new(i as nat, |i: int| '0'),
            decreases zeros - i,
        {
            r.push('0');
            proof {
                assert(Seq::new((i + 1) as nat, |i: int| '0') =~= Seq::new(i as nat, |i: int| '0').push('0'));
            }
            i = i + 1;
        }
        r.append(plain.as_str());
        r
    }
}

/// The value of a run of decimal digits, if it is one.
pub open spec fn digits_value(s: Seq<char>) -> Option<nat>
    decreases s.len(),
{
    if s.len() == 0 {
        Some(0)
    } else {
        match digits_value(s.drop_last()) {
            Some(v) if '0' <= s.last() <= '9' => Some(v * 10 + (s.last() as u32 - 0x30) as nat),
            _ => None,
        }
    }
}

/// The whole number that a text spells: decimal digits, at least one, with an
/// optional `+` in front.
pub open spec fn spelled(s: Seq<char>) -> Option<nat> {
    let body = if s.len() > 0 && s[0] == '+' { s.drop_first() } else { s };
    if body.len() == 0 {
        None
    } else {
        digits_value(body)
    }
}

proof fn lemma_digits_grow(s: Seq<char>, k: int)
    requires
        0 <= k <= s.len(),
    ensures
        digits_value(s) is Some ==> digits_value(s.subrange(0, k)) is Some && digits_value(s.subrange(0, k))->0
            <= digits_value(s)->0,
    decreases s.len() - k,
{
    if k == s.len() {
        assert(s.subrange(0, k) =~= s);
    } else {
        lemma_digits_grow(s, k + 1);
        assert(s.subrange(0, k + 1).drop_last() =~= s.subrange(0, k));
    }
}

/// Reads a whole number of at most `most`.
pub fn read_number(s: &str, most: u64) -> (r: Option<u64>)
    ensures
        r == (match spelled(s@) {
            Some(v) if v <= most => Some(v as u64),
            _ => None,
        }),
{
    let chars = characters(s);
    let from: usize = if chars.len() > 0 && chars[0] == '+' { 1 } else { 0 };
    let ghost body = if s@.len() > 0 && s@[0] == '+' { s@.drop_first() } else { s@ };
    assert(body =~= chars@.subrange(from as int, chars@.len() as int));
    if from >= chars.len() {
        return None;
    }
    let mut v: u64 = 0;
    let mut i: usize = from;
    assert(body.subrange(0, 0) =~= Seq::empty());
    while i < chars.len()
        invariant
            from <= i <= chars@.len(),
            body == chars@.subrange(from as int, chars@.len() as int),
            digits_value(body.subrange(0, i - from)) == Some(v as nat),
            v <= most,
            spelled(s@) == digits_value(body),
        decreases chars@.len() - i,
    {
        let c: char = chars[i];
        proof {
            let next = body.subrange(0, i - from + 1);
            assert(next.drop_last() =~= body.subrange(0, i - from));
            assert(next.last() == c);
            lemma_digits_grow(body, i - from + 1);
        }
        if !('0' <= c && c <= '9') {
            return None;
        }
        let d: u64 = (c as u32 - 0x30) as u64;
        let wide: u128 = v as u128 * 10 + d as u128;
        if wide > most as u128 {
            return None;
        }
        v = wide as u64;
        i = i + 1;
    }
    assert(body.subrange(0, chars@.len() - from) =~= body);
    Some(v)
}

// ---------------------------------------------------------------------------
// Hexadecimal
// ---------------------------------------------------------------------------

/// A hexadecimal digit, in lower case.
pub open spec fn hex_digit(n: int) -> char {
    if n < 10 {
        (n + '0' as int) as char
    } else {
        (n - 10 + 'a' as int) as char
    }
}

/// The last `width` hexadecimal digits of a number, zeros in front included.
pub open spec fn hexadecimal(n: nat, width: nat) -> Seq<char>
    decreases width,
{
    if width == 0 {
        Seq::empty()
    } else {
        hexadecimal(n / 16, (width - 1) as nat).push(hex_digit((n % 16) as int))
    }
}

fn hex_char(n: u64) -> (c: char)
    requires
        n < 16,
    ensures
        c == hex_digit(n as int),
{
    if n < 10 {
        (n as u8 + 48) as char
    } else {
        (n as u8 + 87) as char
    }
}

/// The last `width` hexadecimal digits of a number, zeros in front included.
pub fn hex(n: u64, width: usize) -> (r: String)
    ensures
        r@ == hexadecimal(n as nat, width as nat),
    decreases width,
{
    if width == 0 {
        let r = String::new();
        assert(r@ =~= Seq::<char>::empty());
        r
    } else {
        let mut r = hex(n / 16, width - 1);
        r.push(hex_char(n % 16));
        r
    }
}

// ---------------------------------------------------------------------------
// Laws
// ---------------------------------------------------------------------------

/// A number that was written down reads back as itself, with or without zeros in
/// front of it.
pub proof fn law_a_number_reads_back(n: nat, width: nat)
    ensures
        spelled(decimal(n)) == Some(n),
        spelled(padded(n, width)) == Some(n),
        padded(n, width).len() >= width,
{
    lemma_decimal_value(n);
    lemma_zeros_in_front((padded(n, width).len() - decimal(n).len()) as nat, decimal(n));
    lemma_first_digit(n);
    let zeros = Seq::new((padded(n, width).len() - decimal(n).len()) as nat, |i: int| '0');
    assert(padded(n, width) =~= zeros + decimal(n));
}

proof fn lemma_decimal_value(n: nat)
    ensures
        decimal(n).len() > 0,
        digits_value(decimal(n)) == Some(n),
    decreases n,
{
    if n < 10 {
        let s = decimal(n);
        assert(s.drop_last() =~= Seq::empty());
        assert(digits_value(s.drop_last()) == Some(0nat));
    } else {
        lemma_decimal_value(n / 10);
        let s = decimal(n);
        assert(s.drop_last() =~= decimal(n / 10));
    }
}

proof fn lemma_first_digit(n: nat)
    ensures
        '0' <= decimal(n)[0] <= '9',
    decreases n,
{
    if n >= 10 {
        lemma_first_digit(n / 10);
        lemma_decimal_value(n / 10);
    }
}

proof fn lemma_zeros_in_front(k: nat, s: Seq<char>)
    ensures
        digits_value(Seq::new(k, |i: int| '0') + s) == digits_value(s),
    decreases s.len() + k,
{
    let zeros = Seq::new(k, |i: int| '0');
    let t = zeros + s;
    if s.len() > 0 {
        lemma_zeros_in_front(k, s.drop_last());
        assert(t.drop_last() =~= zeros + s.drop_last());
    } else if k > 0 {
        lemma_zeros_in_front((k - 1) as nat, s);
        assert(t.drop_last() =~= Seq::new((k - 1) as nat, |i: int| '0') + s);
        assert(s =~= Seq::empty());
    } else {
        assert(t =~= s);
    }
}

/// Numbers that fit in their hexadecimal digits are told apart by them, and as
/// many digits are written as were asked for.
pub proof fn law_hexadecimal_tells_numbers_apart(a: nat, b: nat, width: nat)
    requires
        a < pow(16, width),
        b < pow(16, width),
    ensures
        hexadecimal(a, width).len() == width,
        hexadecimal(a, width) == hexadecimal(b, width) ==> a == b,
    decreases width,
{
    if width > 0 {
        let less = (width - 1) as nat;
        lemma_pow1(16);
        lemma_pow_adds(16, 1, less);
        let p = pow(16, less);
        assert(pow(16, width) == 16 * p);
        law_hexadecimal_tells_numbers_apart((a / 16) as nat, (b / 16) as nat, less);
        if hexadecimal(a, width) == hexadecimal(b, width) {
            let x = hexadecimal(a / 16, less);
            let y = hexadecimal(b / 16, less);
            assert(hexadecimal(a, width).drop_last() =~= x);
            assert(hexadecimal(b, width).drop_last() =~= y);
            assert(hexadecimal(a, width).last() == hex_digit((a % 16) as int));
            assert(hexadecimal(b, width).last() == hex_digit((b % 16) as int));
            assert(hex_digit((a % 16) as int) as int == hex_digit((b % 16) as int) as int);
        }
    } else {
        lemma_pow0(16);
    }
}

/// Trimming takes white space off both ends and nothing else: what is left stands
/// in the text as it was, neither begins nor ends with white space, and all that
/// was around it is white space. What is trimmed already stays as it is.
pub proof fn law_trimming_takes_the_ends(s: Seq<char>)
    ensures
        exists|from: int, to: int|
            0 <= from <= to <= s.len() && trimmed(s) == #[trigger] s.subrange(from, to) && (forall|i: int|
                0 <= i < from || to <= i < s.len() ==> space(#[trigger] s[i])),
        trimmed(s).len() > 0 ==> !space(trimmed(s)[0]) && !space(trimmed(s).last()),
        trimmed(trimmed(s)) == trimmed(s),
{
    let from = lemma_trimmed_start(s);
    let t = trimmed_start(s);
    let cut = lemma_trimmed_end(t);
    let to = from + cut;
    assert(trimmed(s) =~= s.subrange(from, to));
    assert forall|i: int| 0 <= i < from || to <= i < s.len() implies space(#[trigger] s[i]) by {
        if i >= to {
            assert(t[i - from] == s[i]);
        }
    }
    let u = trimmed(s);
    if u.len() > 0 {
        assert(u[0] == t[0]);
    }
    assert(trimmed_start(u) == u);
    assert(trimmed_end(u) == u);
}

proof fn lemma_trimmed_start(s: Seq<char>) -> (from: int)
    ensures
        0 <= from <= s.len(),
        trimmed_start(s) == s.subrange(from, s.len() as int),
        forall|i: int| 0 <= i < from ==> space(#[trigger] s[i]),
        trimmed_start(s).len() > 0 ==> !space(trimmed_start(s)[0]),
    decreases s.len(),
{
    if s.len() > 0 && space(s[0]) {
        let rest = s.drop_first();
        let k = lemma_trimmed_start(rest);
        assert(rest.subrange(k, rest.len() as int) =~= s.subrange(k + 1, s.len() as int));
        assert forall|i: int| 0 <= i < k + 1 implies space(#[trigger] s[i]) by {
            if i > 0 {
                assert(rest[i - 1] == s[i]);
            }
        }
        k + 1
    } else {
        assert(s.subrange(0, s.len() as int) =~= s);
        0
    }
}

proof fn lemma_trimmed_end(s: Seq<char>) -> (to: int)
    ensures
        0 <= to <= s.len(),
        trimmed_end(s) == s.subrange(0, to),
        forall|i: int| to <= i < s.len() ==> space(#[trigger] s[i]),
        trimmed_end(s).len() > 0 ==> !space(trimmed_end(s).last()),
    decreases s.len(),
{
    if s.len() > 0 && space(s.last()) {
        let rest = s.drop_last();
        let k = lemma_trimmed_end(rest);
        assert(rest.subrange(0, k) =~= s.subrange(0, k));
        assert forall|i: int| k <= i < s.len() implies space(#[trigger] s[i]) by {
            if i < rest.len() {
                assert(rest[i] == s[i]);
            }
        }
        k
    } else {
        assert(s.subrange(0, s.len() as int) =~= s);
        s.len() as int
    }
}

/// Lowering a letter twice is lowering it once, and only capital letters change.
pub proof fn law_lowering_is_for_capitals(c: char)
    ensures
        lowered(lowered(c)) == lowered(c),
        !('A' <= c <= 'Z') ==> lowered(c) == c,
        'A' <= c <= 'Z' ==> 'a' <= lowered(c) <= 'z' && lowered(c) as u32 - 'a' as u32 == c as u32 - 'A' as u32,
{
}

/// Nothing that leaves a mark in ASCII is white space; blanks, tabs and the ends of
/// lines are.
pub proof fn law_white_space_leaves_no_mark(c: char)
    ensures
        '!' <= c <= '~' ==> !space(c),
        c == ' ' || c == '\t' || c == '\n' || c == '\r' ==> space(c),
{
}

/// What a hexadecimal digit is worth.
pub open spec fn hex_worth(c: char) -> int {
    if '0' <= c <= '9' {
        c as int - '0' as int
    } else if 'a' <= c <= 'f' {
        c as int - 'a' as int + 10
    } else {
        -1
    }
}

/// What a text of hexadecimal digits is worth.
pub open spec fn hex_value(s: Seq<char>) -> int
    decreases s.len(),
{
    if s.len() == 0 {
        0
    } else {
        hex_value(s.drop_last()) * 16 + hex_worth(s.last())
    }
}

/// A number in hexadecimal reads back as itself, in digits and small letters.
pub proof fn law_hexadecimal_reads_back(n: nat, width: nat)
    requires
        n < pow(16, width),
    ensures
        hex_value(hexadecimal(n, width)) == n,
        forall|i: int| 0 <= i < hexadecimal(n, width).len() ==> 0 <= hex_worth(#[trigger] hexadecimal(n, width)[i]) < 16,
    decreases width,
{
    if width > 0 {
        let less = (width - 1) as nat;
        lemma_pow1(16);
        lemma_pow_adds(16, 1, less);
        law_hexadecimal_reads_back((n / 16) as nat, less);
        let s = hexadecimal(n, width);
        let front = hexadecimal(n / 16, less);
        assert(s.drop_last() =~= front);
        assert(hex_worth(hex_digit((n % 16) as int)) == n % 16);
        assert forall|i: int| 0 <= i < s.len() implies 0 <= hex_worth(#[trigger] s[i]) < 16 by {
            if i < front.len() {
                assert(s[i] == front[i]);
            }
        }
    } else {
        lemma_pow0(16);
    }
}

} // verus!
