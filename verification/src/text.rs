//! Plain-text helpers: decimal numbers, padding, trimming and the conversions
//! between strings, characters and bytes that the rest of the library needs.

use vstd::prelude::*;
use vstd::string::*;
use vstd::utf8::*;

verus! {

// --- Trusted conversions of the standard library ---------------------------

/// `String::push` appends one character to the end of the string.
pub assume_specification[ String::push ](s: &mut String, c: char)
    ensures
        final(s)@ == old(s)@.push(c),
;

/// `std::str::from_utf8` accepts exactly the valid UTF-8 byte sequences and
/// hands back the text whose encoding they are.
#[verifier::external_body]
pub(crate) fn utf8_text(bytes: &[u8]) -> (res: Option<&str>)
    ensures
        res is Some <==> valid_utf8(bytes@),
        res matches Some(t) ==> encode_utf8(t@) == bytes@,
{
    std::str::from_utf8(bytes).ok()
}

/// What `String::from_utf8_lossy` makes of a byte sequence.
pub uninterp spec fn lossy_text(bytes: Seq<u8>) -> Seq<char>;

/// `String::from_utf8_lossy` decodes bytes for display. Valid UTF-8 comes out as
/// the text it encodes; which replacement characters stand for invalid bytes is
/// left to the name [`lossy_text`].
#[verifier::external_body]
pub(crate) fn lossy(bytes: &[u8]) -> (res: String)
    ensures
        res@ == lossy_text(bytes@),
        valid_utf8(bytes@) ==> res@ == decode_utf8(bytes@),
{
    String::from_utf8_lossy(bytes).into_owned()
}

/// What `str::to_lowercase` makes of a text.
pub uninterp spec fn lowercase_text(s: Seq<char>) -> Seq<char>;

/// `str::to_lowercase` maps a text to its Unicode lowercase form, which depends
/// on the text alone; the mapping itself is left to the name [`lowercase_text`].
#[verifier::external_body]
pub(crate) fn lowercase(s: &str) -> (res: String)
    ensures
        res@ == lowercase_text(s@),
{
    s.to_lowercase()
}

/// What `{:?}` prints for a text: quoted, with escapes.
pub uninterp spec fn debug_text(s: Seq<char>) -> Seq<char>;

/// `format!("{:?}", s)` quotes and escapes a text; the escapes are left to the
/// name [`debug_text`].
#[verifier::external_body]
pub(crate) fn debug(s: &str) -> (res: String)
    ensures
        res@ == debug_text(s@),
{
    format!("{:?}", s)
}

// --- Characters and strings ------------------------------------------------

/// The characters of `s`, in order.
pub fn chars_of(s: &str) -> (res: Vec<char>)
    ensures
        res@ == s@,
{
    let mut out: Vec<char> = Vec::new();
    for c in it: s.chars()
        invariant
            out@ == it.seq().take(it.index() as int),
            it.seq() == s@,
    {
        out.push(c);
    }
    out
}

/// The string made of `chars`.
pub fn string_of(chars: &Vec<char>) -> (res: String)
    ensures
        res@ == chars@,
{
    let mut out = String::new();
    for i in 0..chars.len()
        invariant
            out@ == chars@.take(i as int),
    {
        out.push(chars[i]);
        assert(chars@.take(i + 1) == chars@.take(i as int).push(chars@[i as int]));
    }
    assert(chars@.take(chars@.len() as int) == chars@);
    out
}

/// Whether two texts are the same.
pub fn same_text(a: &str, b: &str) -> (res: bool)
    ensures
        res == (a@ == b@),
{
    let x = chars_of(a);
    let y = chars_of(b);
    same_chars(&x, &y)
}

fn same_chars(a: &Vec<char>, b: &Vec<char>) -> (res: bool)
    ensures
        res == (a@ == b@),
{
    if a.len() != b.len() {
        return false;
    }
    for i in 0..a.len()
        invariant
            a@.len() == b@.len(),
            a@.take(i as int) == b@.take(i as int),
    {
        if a[i] != b[i] {
            return false;
        }
        assert(a@.take(i + 1) == a@.take(i as int).push(a@[i as int]));
        assert(b@.take(i + 1) == b@.take(i as int).push(b@[i as int]));
    }
    assert(a@.take(a@.len() as int) == a@);
    assert(b@.take(b@.len() as int) == b@);
    true
}

/// `a` followed by `b`.
pub fn concat(a: &str, b: &str) -> (res: String)
    ensures
        res@ == a@ + b@,
{
    let mut s = a.to_owned();
    s.append(b);
    s
}

/// `a`, then `b`, then `c`.
pub fn concat3(a: &str, b: &str, c: &str) -> (res: String)
    ensures
        res@ == a@ + b@ + c@,
{
    let mut s = a.to_owned();
    s.append(b);
    s.append(c);
    s
}

/// Whether `s` begins with `prefix`.
pub fn starts_with(s: &str, prefix: &str) -> (res: bool)
    ensures
        res == prefix@.is_prefix_of(s@),
{
    let x = chars_of(s);
    let y = chars_of(prefix);
    if y.len() > x.len() {
        return false;
    }
    for i in 0..y.len()
        invariant
            x@ == s@,
            y@ == prefix@,
            y@.len() <= x@.len(),
            forall|j: int| 0 <= j < i ==> x@[j] == y@[j],
    {
        if x[i] != y[i] {
            assert(s@.subrange(0, prefix@.len() as int)[i as int] != prefix@[i as int]);
            return false;
        }
    }
    assert(s@.subrange(0, prefix@.len() as int) =~= prefix@);
    true
}

/// Whether `s` ends with `suffix`.
pub fn ends_with(s: &str, suffix: &str) -> (res: bool)
    ensures
        res == suffix@.is_suffix_of(s@),
{
    let x = chars_of(s);
    let y = chars_of(suffix);
    if y.len() > x.len() {
        return false;
    }
    let off: usize = x.len() - y.len();
    for i in 0..y.len()
        invariant
            x@ == s@,
            y@ == suffix@,
            off + y@.len() == x@.len(),
            x.len() == x@.len(),
            forall|j: int| 0 <= j < i ==> x@[off + j] == y@[j],
    {
        if x[off + i] != y[i] {
            assert(s@.subrange(off as int, s@.len() as int)[i as int] != suffix@[i as int]);
            return false;
        }
    }
    assert(s@.subrange(off as int, s@.len() as int) =~= suffix@);
    true
}

/// The text of `s` from its `from`-th character on.
pub fn skip_chars(s: &str, from: usize) -> (res: String)
    requires
        from <= s@.len(),
    ensures
        res@ == s@.skip(from as int),
{
    let x = chars_of(s);
    let mut out: Vec<char> = Vec::new();
    for i in from..x.len()
        invariant
            x@ == s@,
            from <= x@.len(),
            out@ == x@.subrange(from as int, i as int),
    {
        out.push(x[i]);
    }
    assert(out@ == s@.skip(from as int));
    string_of(&out)
}

// --- Numbers ---------------------------------------------------------------

/// The character for a decimal digit.
pub open spec fn digit_char(d: nat) -> char {
    (48 + d) as char
}

/// The decimal digits of `n`, without leading zeros.
pub open spec fn decimal(n: nat) -> Seq<char>
    decreases n,
{
    if n < 10 {
        seq![digit_char(n)]
    } else {
        decimal(n / 10).push(digit_char(n % 10))
    }
}

/// The decimal digits of `n`, filled up with leading zeros to at least `width`.
pub open spec fn zero_padded(n: nat, width: nat) -> Seq<char> {
    fill('0', (width - decimal(n).len()) as int) + decimal(n)
}

/// `count` times the character `c`; nothing when `count` is not positive.
pub open spec fn fill(c: char, count: int) -> Seq<char> {
    Seq::new(if count > 0 { count as nat } else { 0 }, |i: int| c)
}

/// `s` followed by spaces up to `width` characters.
pub open spec fn pad_right(s: Seq<char>, width: nat) -> Seq<char> {
    s + fill(' ', width - s.len())
}

/// `s` preceded by spaces up to `width` characters.
pub open spec fn pad_left(s: Seq<char>, width: nat) -> Seq<char> {
    fill(' ', width - s.len()) + s
}

fn digit_of(d: u64) -> (c: char)
    requires
        d < 10,
    ensures
        c == digit_char(d as nat),
{
    let b: u8 = 48 + d as u8;
    b as char
}

/// `n` in decimal.
pub fn decimal_of(n: u64) -> (res: String)
    ensures
        res@ == decimal(n as nat),
    decreases n,
{
    if n < 10 {
        let mut s = String::new();
        s.push(digit_of(n));
        assert(s@ == seq![digit_char(n as nat)]);
        s
    } else {
        let mut s = decimal_of(n / 10);
        s.push(digit_of(n % 10));
        s
    }
}

/// `n` in decimal.
pub fn decimal_usize(n: usize) -> (res: String)
    ensures
        res@ == decimal(n as nat),
{
    decimal_of(n as u64)
}

fn filler(c: char, count: usize) -> (res: String)
    ensures
        res@ == fill(c, count as int),
{
    let mut s = String::new();
    for i in 0..count
        invariant
            s@ == fill(c, i as int),
    {
        s.push(c);
        assert(s@ == fill(c, i + 1));
    }
    s
}

/// `n` in decimal with at least `width` digits.
pub fn zero_padded_of(n: u64, width: usize) -> (res: String)
    ensures
        res@ == zero_padded(n as nat, width as nat),
{
    let digits = decimal_of(n);
    let len = digits.as_str().unicode_len();
    let mut s = filler('0', if len < width { width - len } else { 0 });
    s.append(digits.as_str());
    s
}

/// `s` padded on the right to `width` characters.
pub fn padded_right(s: &str, width: usize) -> (res: String)
    ensures
        res@ == pad_right(s@, width as nat),
{
    let len = s.unicode_len();
    let pad = filler(' ', if len < width { width - len } else { 0 });
    concat(s, pad.as_str())
}

/// `s` padded on the left to `width` characters.
pub fn padded_left(s: &str, width: usize) -> (res: String)
    ensures
        res@ == pad_left(s@, width as nat),
{
    let len = s.unicode_len();
    let pad = filler(' ', if len < width { width - len } else { 0 });
    concat(pad.as_str(), s)
}

// --- Trimming --------------------------------------------------------------

/// The characters with the Unicode property White_Space.
pub open spec fn is_white_space(c: char) -> bool {
    ||| 0x9 <= c as u32 <= 0xD
    ||| c as u32 == 0x20
    ||| c as u32 == 0x85
    ||| c as u32 == 0xA0
    ||| c as u32 == 0x1680
    ||| 0x2000 <= c as u32 <= 0x200A
    ||| c as u32 == 0x2028
    ||| c as u32 == 0x2029
    ||| c as u32 == 0x202F
    ||| c as u32 == 0x205F
    ||| c as u32 == 0x3000
}

/// `s` without the leading characters that satisfy `drop`.
pub open spec fn trim_start(s: Seq<char>, drop: spec_fn(char) -> bool) -> Seq<char>
    decreases s.len(),
{
    if s.len() > 0 && drop(s[0]) {
        trim_start(s.drop_first(), drop)
    } else {
        s
    }
}

/// `s` without the trailing characters that satisfy `drop`.
pub open spec fn trim_end(s: Seq<char>, drop: spec_fn(char) -> bool) -> Seq<char>
    decreases s.len(),
{
    if s.len() > 0 && drop(s.last()) {
        trim_end(s.drop_last(), drop)
    } else {
        s
    }
}

/// `s` without leading and trailing white space.
pub open spec fn trimmed(s: Seq<char>) -> Seq<char> {
    trim_end(trim_start(s, |c: char| is_white_space(c)), |c: char| is_white_space(c))
}

/// The predicate "is the character `c`".
pub open spec fn is_char(c: char) -> spec_fn(char) -> bool {
    |x: char| x == c
}

/// The predicate "is the character `c` or white space".
pub open spec fn is_char_or_space(c: char) -> spec_fn(char) -> bool {
    |x: char| x == c || is_white_space(x)
}

/// `s` without leading white space, and without trailing white space and occurrences
/// of `c`, in whatever order they come.
pub open spec fn trimmed_to(s: Seq<char>, c: char) -> Seq<char> {
    trim_end(trimmed(s), is_char_or_space(c))
}

/// `s` without leading and trailing occurrences of `c`.
pub open spec fn trimmed_char(s: Seq<char>, c: char) -> Seq<char> {
    trim_end(trim_start(s, is_char(c)), is_char(c))
}

fn white_space(c: char) -> (res: bool)
    ensures
        res == is_white_space(c),
{
    let u = c as u32;
    (0x9 <= u && u <= 0xD) || u == 0x20 || u == 0x85 || u == 0xA0 || u == 0x1680 || (0x2000 <= u
        && u <= 0x200A) || u == 0x2028 || u == 0x2029 || u == 0x202F || u == 0x205F || u == 0x3000
}

/// Where `s` starts once the leading characters for which `drop` holds are gone.
fn first_kept(
    s: &Vec<char>,
    drop: impl Fn(char) -> bool,
    Ghost(spec_drop): Ghost<spec_fn(char) -> bool>,
) -> (res: usize)
    requires
        forall|c: char| call_requires(drop, (c,)),
        forall|c: char, b: bool| call_ensures(drop, (c,), b) ==> b == spec_drop(c),
    ensures
        res <= s@.len(),
        trim_start(s@, spec_drop) == s@.skip(res as int),
{
    let mut i: usize = 0;
    assert(s@.skip(0) == s@);
    while i < s.len() && drop(s[i])
        invariant
            forall|c: char| call_requires(drop, (c,)),
            forall|c: char, b: bool| call_ensures(drop, (c,), b) ==> b == spec_drop(c),
            i <= s@.len(),
            trim_start(s@, spec_drop) == trim_start(s@.skip(i as int), spec_drop),
        ensures
            i <= s@.len(),
            trim_start(s@, spec_drop) == trim_start(s@.skip(i as int), spec_drop),
            i < s@.len() ==> !spec_drop(s@[i as int]),
        decreases s@.len() - i,
    {
        assert(s@.skip(i as int).drop_first() == s@.skip(i + 1));
        assert(s@.skip(i as int)[0] == s@[i as int]);
        i += 1;
    }
    i
}

/// How much of `s` is left once the trailing characters for which `drop` holds
/// are gone.
fn last_kept(
    s: &Vec<char>,
    drop: impl Fn(char) -> bool,
    Ghost(spec_drop): Ghost<spec_fn(char) -> bool>,
) -> (res: usize)
    requires
        forall|c: char| call_requires(drop, (c,)),
        forall|c: char, b: bool| call_ensures(drop, (c,), b) ==> b == spec_drop(c),
    ensures
        res <= s@.len(),
        trim_end(s@, spec_drop) == s@.take(res as int),
{
    let mut i: usize = s.len();
    assert(s@.take(s@.len() as int) == s@);
    while i > 0 && drop(s[i - 1])
        invariant
            forall|c: char| call_requires(drop, (c,)),
            forall|c: char, b: bool| call_ensures(drop, (c,), b) ==> b == spec_drop(c),
            i <= s@.len(),
            trim_end(s@, spec_drop) == trim_end(s@.take(i as int), spec_drop),
        ensures
            i <= s@.len(),
            trim_end(s@, spec_drop) == trim_end(s@.take(i as int), spec_drop),
            i > 0 ==> !spec_drop(s@[i - 1]),
        decreases i,
    {
        assert(s@.take(i as int).drop_last() == s@.take(i - 1));
        assert(s@.take(i as int).last() == s@[i - 1]);
        i -= 1;
    }
    i
}

fn part(s: &Vec<char>, from: usize, to: usize) -> (res: Vec<char>)
    requires
        from <= to <= s@.len(),
    ensures
        res@ == s@.subrange(from as int, to as int),
{
    let mut out: Vec<char> = Vec::new();
    for i in from..to
        invariant
            from <= to <= s@.len(),
            out@ == s@.subrange(from as int, i as int),
    {
        out.push(s[i]);
    }
    out
}

/// `s` without leading and trailing white space.
pub fn trim(s: &str) -> (res: String)
    ensures
        res@ == trimmed(s@),
{
    let x = chars_of(s);
    let ghost ws = |c: char| is_white_space(c);
    let a = first_kept(
        &x,
        |c: char| -> (b: bool) ensures b == is_white_space(c) { white_space(c) },
        Ghost(ws),
    );
    let y = part(&x, a, x.len());
    assert(y@ == x@.skip(a as int));
    let b = last_kept(
        &y,
        |c: char| -> (b: bool) ensures b == is_white_space(c) { white_space(c) },
        Ghost(ws),
    );
    let z = part(&y, 0, b);
    assert(z@ == y@.take(b as int));
    string_of(&z)
}

/// `s` without leading white space, and without trailing white space and occurrences
/// of `end`, in whatever order they come.
pub fn trim_to(s: &str, end: char) -> (res: String)
    ensures
        res@ == trimmed_to(s@, end),
{
    let x = chars_of(trim(s).as_str());
    let b = last_kept(
        &x,
        |c: char| -> (b: bool) ensures b == (c == end || is_white_space(c)) {
            c == end || white_space(c)
        },
        Ghost(is_char_or_space(end)),
    );
    let z = part(&x, 0, b);
    assert(z@ == x@.take(b as int));
    string_of(&z)
}

/// `s` without leading and trailing occurrences of `end`.
pub fn trim_char(s: &str, end: char) -> (res: String)
    ensures
        res@ == trimmed_char(s@, end),
{
    let x = chars_of(s);
    let a = first_kept(
        &x,
        |c: char| -> (b: bool) ensures b == (c == end) { c == end },
        Ghost(is_char(end)),
    );
    let y = part(&x, a, x.len());
    assert(y@ == x@.skip(a as int));
    let b = last_kept(
        &y,
        |c: char| -> (b: bool) ensures b == (c == end) { c == end },
        Ghost(is_char(end)),
    );
    let z = part(&y, 0, b);
    assert(z@ == y@.take(b as int));
    string_of(&z)
}

// --- ASCII case ------------------------------------------------------------

/// The lowercase form of an ASCII capital; any other character as it is.
pub open spec fn ascii_lower_char(c: char) -> char {
    if 65 <= c as u32 <= 90 {
        ((c as u32 + 32) as u8) as char
    } else {
        c
    }
}

/// `s` with every ASCII capital in lowercase.
pub open spec fn ascii_lower(s: Seq<char>) -> Seq<char> {
    Seq::new(s.len(), |i: int| ascii_lower_char(s[i]))
}

fn lower_char(c: char) -> (res: char)
    ensures
        res == ascii_lower_char(c),
{
    let u = c as u32;
    if 65 <= u && u <= 90 {
        ((u + 32) as u8) as char
    } else {
        c
    }
}

/// `s` with every ASCII capital in lowercase.
pub fn to_ascii_lower(s: &str) -> (res: String)
    ensures
        res@ == ascii_lower(s@),
{
    let x = chars_of(s);
    let mut out = String::new();
    for i in 0..x.len()
        invariant
            x@ == s@,
            out@ == ascii_lower(s@).take(i as int),
    {
        out.push(lower_char(x[i]));
        assert(ascii_lower(s@).take(i + 1) == ascii_lower(s@).take(i as int).push(
            ascii_lower(s@)[i as int],
        ));
    }
    assert(ascii_lower(s@).take(x@.len() as int) == ascii_lower(s@));
    out
}

// --- Laws ------------------------------------------------------------------

/// Trimming takes away white space at both ends and nothing else: what is left is a
/// stretch of the text that neither begins nor ends with white space, with nothing but
/// white space around it.
pub proof fn law_trimming_takes_only_white_space(s: Seq<char>) -> (at: (int, int))
    ensures
        0 <= at.0 <= at.1 <= s.len(),
        trimmed(s) == s.subrange(at.0, at.1),
        forall|i: int| 0 <= i < at.0 ==> is_white_space(#[trigger] s[i]),
        forall|i: int| at.1 <= i < s.len() ==> is_white_space(#[trigger] s[i]),
        at.0 < at.1 ==> !is_white_space(s[at.0]) && !is_white_space(s[at.1 - 1]),
{
    let ws = |c: char| is_white_space(c);
    let a = lemma_trim_start_at(s, ws);
    let r = trim_start(s, ws);
    let n = lemma_trim_end_at(r, ws);
    assert(r.take(n) =~= s.subrange(a, a + n));
    assert forall|i: int| 0 <= i < a implies is_white_space(#[trigger] s[i]) by {
        assert(ws(s[i]));
    }
    assert forall|i: int| a + n <= i < s.len() implies is_white_space(#[trigger] s[i]) by {
        assert(r[i - a] == s[i]);
        assert(ws(r[i - a]));
    }
    if n > 0 {
        assert(r[0] == s[a] && r[n - 1] == s[a + n - 1]);
        assert(!ws(r[n - 1]));
        assert(!ws(r[0]));
    }
    (a, a + n)
}

proof fn lemma_trim_start_at(s: Seq<char>, drop: spec_fn(char) -> bool) -> (a: int)
    ensures
        0 <= a <= s.len(),
        trim_start(s, drop) == s.skip(a),
        forall|i: int| 0 <= i < a ==> drop(#[trigger] s[i]),
        a < s.len() ==> !drop(s[a]),
    decreases s.len(),
{
    if s.len() > 0 && drop(s[0]) {
        let t = s.drop_first();
        let b = lemma_trim_start_at(t, drop);
        assert(t.skip(b) =~= s.skip(b + 1));
        assert forall|i: int| 0 <= i < b + 1 implies drop(#[trigger] s[i]) by {
            if i > 0 {
                assert(t[i - 1] == s[i]);
            }
        }
        if b < t.len() {
            assert(t[b] == s[b + 1]);
        }
        b + 1
    } else {
        assert(s.skip(0) =~= s);
        0
    }
}

/// Where trimming at the end stops.
pub proof fn lemma_trim_end_at(s: Seq<char>, drop: spec_fn(char) -> bool) -> (n: int)
    ensures
        0 <= n <= s.len(),
        trim_end(s, drop) == s.take(n),
        forall|i: int| n <= i < s.len() ==> drop(#[trigger] s[i]),
        n > 0 ==> !drop(s[n - 1]),
    decreases s.len(),
{
    if s.len() > 0 && drop(s.last()) {
        let t = s.drop_last();
        let m = lemma_trim_end_at(t, drop);
        assert(t.take(m) =~= s.take(m));
        assert forall|i: int| m <= i < s.len() implies drop(#[trigger] s[i]) by {
            if i < t.len() {
                assert(t[i] == s[i]);
            }
        }
        if m > 0 {
            assert(t[m - 1] == s[m - 1]);
        }
        m
    } else {
        assert(s.take(s.len() as int) =~= s);
        s.len() as int
    }
}

/// The number that a text of digits stands for.
pub open spec fn number_of(s: Seq<char>) -> nat
    decreases s.len(),
{
    if s.len() == 0 {
        0
    } else {
        10 * number_of(s.drop_last()) + (if '0' <= s.last() <= '9' {
            (s.last() as u32 - '0' as u32) as nat
        } else {
            0
        })
    }
}

/// The digits of a number stand for that number, without leading zeros.
pub proof fn law_digits_stand_for_their_number(n: nat)
    ensures
        number_of(decimal(n)) == n,
        decimal(n).len() > 0,
        forall|i: int| 0 <= i < decimal(n).len() ==> '0' <= #[trigger] decimal(n)[i] <= '9',
        n > 0 ==> decimal(n)[0] != '0',
    decreases n,
{
    reveal_with_fuel(number_of, 2);
    if n >= 10 {
        law_digits_stand_for_their_number(n / 10);
        let d = decimal(n / 10);
        let c = digit_char(n % 10);
        assert(decimal(n) =~= d.push(c));
        assert(d.push(c).drop_last() =~= d);
        assert(c as u32 == 48 + n % 10);
    } else {
        let c = digit_char(n);
        assert(decimal(n) =~= seq![c]);
        assert(seq![c].drop_last() =~= Seq::empty());
        assert(c as u32 == 48 + n);
    }
}

/// Lowercase by ASCII changes the capitals A to Z, each into its small letter, and nothing
/// else.
pub proof fn law_only_capitals_are_lowered(s: Seq<char>)
    ensures
        ascii_lower(s).len() == s.len(),
        forall|i: int|
            #![trigger ascii_lower(s)[i]]
            0 <= i < s.len() ==> ascii_lower(s)[i] == if 65 <= s[i] as u32 <= 90 {
                ((s[i] as u32 + 32) as u8) as char
            } else {
                s[i]
            },
        ascii_lower(ascii_lower(s)) == ascii_lower(s),
{
    assert forall|i: int| #![trigger ascii_lower(s)[i]] 0 <= i < s.len() implies ascii_lower(s)[i]
        == ascii_lower_char(s[i]) by {}
    assert(ascii_lower(ascii_lower(s)) =~= ascii_lower(s));
}

/// Padding fills up with spaces to the width, on the side that it says, and cuts nothing.
pub proof fn law_padding_only_fills_up(s: Seq<char>, width: nat)
    ensures
        pad_right(s, width).take(s.len() as int) == s,
        pad_left(s, width).skip(pad_left(s, width).len() - s.len()) == s,
        pad_right(s, width).len() == if s.len() < width {
            width
        } else {
            s.len()
        },
        pad_left(s, width).len() == pad_right(s, width).len(),
        forall|i: int|
            s.len() <= i < pad_right(s, width).len() ==> #[trigger] pad_right(s, width)[i] == ' ',
        forall|i: int|
            0 <= i < pad_left(s, width).len() - s.len() ==> #[trigger] pad_left(s, width)[i] == ' ',
{
    assert(pad_right(s, width).take(s.len() as int) =~= s);
    assert(pad_left(s, width).skip(pad_left(s, width).len() - s.len()) =~= s);
}

/// A number that is filled up with zeros is the same number, at least as wide as asked.
pub proof fn law_leading_zeros_change_nothing(n: nat, width: nat)
    ensures
        number_of(zero_padded(n, width)) == n,
        zero_padded(n, width).len() >= width,
        decimal(n).len() <= width ==> zero_padded(n, width).len() == width,
        decimal(n).len() >= width ==> zero_padded(n, width) == decimal(n),
{
    law_digits_stand_for_their_number(n);
    lemma_leading_zeros(width - decimal(n).len(), decimal(n));
    if decimal(n).len() >= width {
        assert(zero_padded(n, width) =~= decimal(n));
    }
}

proof fn lemma_leading_zeros(k: int, s: Seq<char>)
    ensures
        number_of(fill('0', k) + s) == number_of(s),
    decreases s.len(), k,
{
    let t = fill('0', k) + s;
    if s.len() > 0 {
        lemma_leading_zeros(k, s.drop_last());
        assert(t.drop_last() =~= fill('0', k) + s.drop_last());
    } else if k > 0 {
        lemma_leading_zeros(k - 1, s);
        assert(t.drop_last() =~= fill('0', k - 1) + s);
        assert(t.last() == '0');
    } else {
        assert(t =~= s);
    }
}

} // verus!
