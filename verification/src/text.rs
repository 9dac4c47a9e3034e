//! Text helpers.

use vstd::prelude::*;

verus! {

/// `String::push` appends one character.
pub assume_specification[ String::push ](s: &mut String, c: char)
    ensures
        final(s)@ == old(s)@.push(c),
;

/// The texts of a sequence of strings.
pub open spec fn texts(v: Seq<String>) -> Seq<Seq<char>> {
    v.map_values(|s: String| s@)
}

/// A copy of a list of strings.
pub fn copy_texts(v: &[String]) -> (r: Vec<String>)
    ensures
        r@ == v@,
{
    let mut r: Vec<String> = Vec::new();
    let n: usize = v.len();
    for i in 0..n
        invariant
            n == v@.len(),
            r@ == v@.take(i as int),
    {
        r.push(v[i].clone());
        assert(r@ =~= v@.take(i + 1));
    }
    assert(v@.take(n as int) =~= v@);
    r
}

/// Whether two lists hold the same texts.
pub fn same_texts(a: &[String], b: &[String]) -> (r: bool)
    ensures
        r == (texts(a@) == texts(b@)),
{
    let n: usize = a.len();
    if n != b.len() {
        assert(texts(a@).len() != texts(b@).len());
        return false;
    }
    for i in 0..n
        invariant
            n == a@.len(),
            n == b@.len(),
            forall|j: int| 0 <= j < i ==> #[trigger] texts(a@)[j] == texts(b@)[j],
    {
        if a[i] != b[i] {
            assert(texts(a@)[i as int] != texts(b@)[i as int]);
            return false;
        }
    }
    assert(texts(a@) =~= texts(b@));
    true
}

/// A copy of the first `n` strings of a list.
pub fn first_texts(v: &[String], n: usize) -> (r: Vec<String>)
    requires
        n <= v@.len(),
    ensures
        r@ == v@.take(n as int),
{
    let mut r: Vec<String> = Vec::new();
    for i in 0..n
        invariant
            n <= v@.len(),
            r@ == v@.take(i as int),
    {
        r.push(v[i].clone());
        assert(r@ =~= v@.take(i + 1));
    }
    r
}

/// Texts one after another, with `separator` between each two.
pub open spec fn join(parts: Seq<Seq<char>>, separator: Seq<char>) -> Seq<char>
    decreases parts.len(),
{
    if parts.len() == 0 {
        Seq::empty()
    } else if parts.len() == 1 {
        parts[0]
    } else {
        join(parts.drop_last(), separator) + separator + parts.last()
    }
}

/// Joins texts with `separator` between each two.
pub fn join_texts(parts: &[String], separator: &str) -> (r: String)
    ensures
        r@ == join(texts(parts@), separator@),
{
    let mut r = String::new();
    let n: usize = parts.len();
    let ghost all = texts(parts@);
    assert(r@ =~= join(all.take(0), separator@));
    for i in 0..n
        invariant
            n == parts@.len(),
            all == texts(parts@),
            r@ == join(all.take(i as int), separator@),
    {
        if i > 0 {
            r.append(separator);
        }
        r.append(parts[i].as_str());
        proof {
            let next = all.take(i + 1);
            assert(next.drop_last() =~= all.take(i as int));
            assert(next.last() == parts@[i as int]@);
            if i == 0 {
                assert(r@ =~= next[0]);
            }
        }
    }
    assert(all.take(n as int) =~= all);
    r
}

/// Whether `part` stands in `whole` at position `at`.
pub open spec fn stands_at(part: Seq<char>, whole: Seq<char>, at: int) -> bool {
    0 <= at && at + part.len() <= whole.len() && part == whole.subrange(at, at + part.len())
}

/// Whether `part` occurs in `whole`.
pub open spec fn occurs_in(part: Seq<char>, whole: Seq<char>) -> bool {
    exists|at: int| stands_at(part, whole, at)
}

/// Every part of a joined text occurs in it.
pub proof fn lemma_part_occurs(parts: Seq<Seq<char>>, separator: Seq<char>, i: int)
    requires
        0 <= i < parts.len(),
    ensures
        occurs_in(parts[i], join(parts, separator)),
    decreases parts.len(),
{
    let whole = join(parts, separator);
    let part = parts[i];
    if parts.len() == 1 {
        assert(part =~= whole.subrange(0, part.len() as int));
        assert(stands_at(part, whole, 0));
    } else if i == parts.len() - 1 {
        let at = whole.len() - part.len();
        assert(part =~= whole.subrange(at, at + part.len()));
        assert(stands_at(part, whole, at));
    } else {
        let rest = parts.drop_last();
        lemma_part_occurs(rest, separator, i);
        let before = join(rest, separator);
        assert(rest[i] == part);
        let at = choose|at: int| stands_at(part, before, at);
        assert(part =~= whole.subrange(at, at + part.len()));
        assert(stands_at(part, whole, at));
    }
}

// ---------------------------------------------------------------------------
// Characters
// ---------------------------------------------------------------------------

/// The characters of a text.
pub fn chars_of(s: &str) -> (r: Vec<char>)
    ensures
        r@ == s@,
{
    let mut r: Vec<char> = Vec::new();
    for c in it: s.chars()
        invariant
            it.seq() == s@,
            r@ == s@.take(it.index() as int),
    {
        r.push(c);
        assert(r@ =~= s@.take(it.index() + 1));
    }
    assert(s@.take(s@.len() as int) =~= s@);
    r
}

/// The number of characters of a text.
pub fn size_of(s: &str) -> (r: usize)
    ensures
        r == s@.len(),
{
    chars_of(s).len()
}

/// The text of the characters from `start` to `end`.
pub fn text_between(chars: &[char], start: usize, end: usize) -> (r: String)
    requires
        start <= end <= chars@.len(),
    ensures
        r@ == chars@.subrange(start as int, end as int),
{
    let mut r = String::new();
    for i in start..end
        invariant
            start <= end <= chars@.len(),
            r@ == chars@.subrange(start as int, i as int),
    {
        r.push(chars[i]);
        assert(r@ =~= chars@.subrange(start as int, i + 1));
    }
    r
}

/// A character of Unicode's White_Space property.
pub open spec fn is_space(c: char) -> bool {
    let n = c as u32;
    ||| 0x9 <= n <= 0xD
    ||| n == 0x20
    ||| n == 0x85
    ||| n == 0xA0
    ||| n == 0x1680
    ||| 0x2000 <= n <= 0x200A
    ||| n == 0x2028
    ||| n == 0x2029
    ||| n == 0x202F
    ||| n == 0x205F
    ||| n == 0x3000
}

/// Whether a character is white space.
pub fn is_white(c: char) -> (r: bool)
    ensures
        r == is_space(c),
{
    let n: u32 = c as u32;
    (0x9 <= n && n <= 0xD) || n == 0x20 || n == 0x85 || n == 0xA0 || n == 0x1680 || (0x2000 <= n
        && n <= 0x200A) || n == 0x2028 || n == 0x2029 || n == 0x202F || n == 0x205F || n == 0x3000
}

/// A text without the white space that it begins with.
pub open spec fn trim_start(s: Seq<char>) -> Seq<char>
    decreases s.len(),
{
    if s.len() > 0 && is_space(s[0]) {
        trim_start(s.drop_first())
    } else {
        s
    }
}

/// A text without the white space that it ends with.
pub open spec fn trim_end(s: Seq<char>) -> Seq<char>
    decreases s.len(),
{
    if s.len() > 0 && is_space(s.last()) {
        trim_end(s.drop_last())
    } else {
        s
    }
}

/// A text without the white space around it.
pub open spec fn trimmed(s: Seq<char>) -> Seq<char> {
    trim_end(trim_start(s))
}

/// A text without the white space around it.
pub fn trim(s: &str) -> (r: String)
    ensures
        r@ == trimmed(s@),
{
    let chars = chars_of(s);
    let n: usize = chars.len();
    let mut start: usize = 0;
    assert(s@.skip(0) =~= s@);
    while start < n && is_white(chars[start])
        invariant
            n == s@.len(),
            chars@ == s@,
            start <= n,
            trim_start(s@.skip(start as int)) == trim_start(s@),
        decreases n - start,
    {
        assert(s@.skip(start as int).drop_first() =~= s@.skip(start + 1));
        start = start + 1;
    }
    let ghost rest = s@.skip(start as int);
    assert(rest == trim_start(s@));
    let mut end: usize = n;
    assert(s@.subrange(start as int, n as int) =~= rest);
    while start < end && is_white(chars[end - 1])
        invariant
            n == s@.len(),
            chars@ == s@,
            start <= end <= n,
            trim_end(s@.subrange(start as int, end as int)) == trim_end(rest),
        decreases end,
    {
        assert(s@.subrange(start as int, end as int).drop_last() =~= s@.subrange(
            start as int,
            end - 1,
        ));
        end = end - 1;
    }
    let r = text_between(chars.as_slice(), start, end);
    assert(r@ == trim_end(rest));
    r
}

/// A trimmed text neither begins nor ends with white space, and trimming it
/// again changes nothing.
pub proof fn law_trimmed(s: Seq<char>)
    ensures
        trimmed(s).len() > 0 ==> !is_space(trimmed(s)[0]) && !is_space(trimmed(s).last()),
        trimmed(trimmed(s)) == trimmed(s),
{
    lemma_trim_start(s);
    lemma_trim_end(trim_start(s));
}

proof fn lemma_trim_start(s: Seq<char>)
    ensures
        trim_start(s).len() > 0 ==> !is_space(trim_start(s)[0]),
    decreases s.len(),
{
    if s.len() > 0 && is_space(s[0]) {
        lemma_trim_start(s.drop_first());
    }
}

proof fn lemma_trim_end(s: Seq<char>)
    ensures
        trim_end(s).len() > 0 ==> !is_space(trim_end(s).last()) && trim_end(s)[0] == s[0],
    decreases s.len(),
{
    if s.len() > 0 && is_space(s.last()) {
        lemma_trim_end(s.drop_last());
    }
}

// ---------------------------------------------------------------------------
// Numbers
// ---------------------------------------------------------------------------

/// The character of a decimal digit.
pub open spec fn digit(d: int) -> char {
    ('0' as int + d) as char
}

/// The decimal digits of a number, without leading zeros.
pub open spec fn decimal(n: nat) -> Seq<char>
    decreases n,
{
    if n < 10 {
        seq![digit(n as int)]
    } else {
        decimal(n / 10).push(digit((n % 10) as int))
    }
}

/// An integer in decimal, with a minus sign where it is negative.
pub open spec fn signed_decimal(n: int) -> Seq<char> {
    if n < 0 {
        seq!['-'] + decimal((-n) as nat)
    } else {
        decimal(n as nat)
    }
}

fn digit_char(d: u64) -> (r: char)
    requires
        d < 10,
    ensures
        r == digit(d as int),
{
    (48u8 + d as u8) as char
}

/// A number in decimal.
pub fn decimal_text(n: u64) -> (r: String)
    ensures
        r@ == decimal(n as nat),
    decreases n,
{
    let mut r = if n < 10 {
        String::new()
    } else {
        decimal_text(n / 10)
    };
    r.push(digit_char(n % 10));
    assert(n < 10 ==> r@ =~= decimal(n as nat));
    r
}

/// An integer in decimal.
pub fn signed_decimal_text(n: i64) -> (r: String)
    ensures
        r@ == signed_decimal(n as int),
{
    if n < 0 {
        let mut r = String::new();
        r.push('-');
        let size: u64 = (-(n + 1)) as u64 + 1;
        r.append(decimal_text(size).as_str());
        r
    } else {
        decimal_text(n as u64)
    }
}

/// A number in decimal, with zeros before it up to `width` digits.
pub open spec fn padded(n: nat, width: nat) -> Seq<char> {
    if decimal(n).len() < width {
        Seq::new((width - decimal(n).len()) as nat, |i: int| '0') + decimal(n)
    } else {
        decimal(n)
    }
}

/// A number in decimal, with zeros before it up to `width` digits.
pub fn padded_text(n: u64, width: usize) -> (r: String)
    ensures
        r@ == padded(n as nat, width as nat),
{
    let digits = decimal_text(n);
    let size: usize = size_of(digits.as_str());
    let mut r = String::new();
    assert(r@ =~= Seq::new(0, |i: int| '0'));
    if size < width {
        for i in 0..(width - size)
            invariant
                r@ == Seq::new(i as nat, |j: int| '0'),
        {
            r.push('0');
            assert(r@ =~= Seq::new((i + 1) as nat, |j: int| '0'));
        }
    }
    r.append(digits.as_str());
    assert(r@ =~= padded(n as nat, width as nat));
    r
}

// ---------------------------------------------------------------------------
// Laws of texts and numbers
// ---------------------------------------------------------------------------

/// A list of strings has as many texts, each that of its string.
pub proof fn law_texts_are_those_of_the_strings(v: Seq<String>)
    ensures
        texts(v).len() == v.len(),
        forall|i: int| 0 <= i < v.len() ==> #[trigger] texts(v)[i] == v[i]@,
{
}

/// Nothing joined is nothing, one text joined is the text itself, and two lists
/// joined together are the one joined, the separator, and the other joined.
pub proof fn law_join_of_parts(
    a: Seq<Seq<char>>,
    b: Seq<Seq<char>>,
    part: Seq<char>,
    separator: Seq<char>,
)
    ensures
        join(Seq::empty(), separator).len() == 0,
        join(seq![part], separator) == part,
        a.len() > 0 && b.len() > 0 ==> join(a + b, separator) == join(a, separator) + separator
            + join(b, separator),
    decreases b.len(),
{
    if a.len() > 0 && b.len() > 0 {
        let rest = b.drop_last();
        law_join_of_parts(a, rest, part, separator);
        assert((a + b).drop_last() =~= a + rest);
        assert((a + b).last() == b.last());
        if rest.len() == 0 {
            assert(a + rest =~= a);
            assert(join(b, separator) == b[0]);
        } else {
            assert(join(a + b, separator) =~= join(a, separator) + separator + join(
                b,
                separator,
            ));
        }
    }
}

/// A trimmed text is the part of the text that is left once the white space
/// before it and behind it is gone, and nothing but white space is gone.
pub proof fn law_trimming_drops_white_space_only(s: Seq<char>)
    ensures
        exists|start: int, end: int|
            0 <= start <= end <= s.len() && trimmed(s) == #[trigger] s.subrange(start, end)
                && (forall|i: int| 0 <= i < start ==> is_space(#[trigger] s[i])) && forall|i: int|
                end <= i < s.len() ==> is_space(#[trigger] s[i]),
{
    let rest = trim_start(s);
    lemma_trim_start_part(s);
    lemma_trim_end_part(rest);
    let start = s.len() - rest.len();
    let end = start + trim_end(rest).len();
    assert(trimmed(s) =~= s.subrange(start, end));
    assert forall|i: int| end <= i < s.len() implies is_space(#[trigger] s[i]) by {
        assert(rest[i - start] == s[i]);
    }
}

/// What is left once the white space at the beginning is gone.
proof fn lemma_trim_start_part(s: Seq<char>)
    ensures
        trim_start(s).len() <= s.len(),
        trim_start(s) == s.skip(s.len() - trim_start(s).len()),
        forall|i: int| 0 <= i < s.len() - trim_start(s).len() ==> is_space(#[trigger] s[i]),
    decreases s.len(),
{
    if s.len() > 0 && is_space(s[0]) {
        let rest = s.drop_first();
        lemma_trim_start_part(rest);
        assert(rest.skip(rest.len() - trim_start(s).len()) =~= s.skip(
            s.len() - trim_start(s).len(),
        ));
        assert forall|i: int| 0 <= i < s.len() - trim_start(s).len() implies is_space(
            #[trigger] s[i],
        ) by {
            if i > 0 {
                assert(rest[i - 1] == s[i]);
            }
        }
    } else {
        assert(s.skip(0) =~= s);
    }
}

/// What is left once the white space at the end is gone.
proof fn lemma_trim_end_part(s: Seq<char>)
    ensures
        trim_end(s).len() <= s.len(),
        trim_end(s) == s.take(trim_end(s).len() as int),
        forall|i: int| trim_end(s).len() <= i < s.len() ==> is_space(#[trigger] s[i]),
    decreases s.len(),
{
    if s.len() > 0 && is_space(s.last()) {
        let rest = s.drop_last();
        lemma_trim_end_part(rest);
        assert(rest.take(trim_end(s).len() as int) =~= s.take(trim_end(s).len() as int));
        assert forall|i: int| trim_end(s).len() <= i < s.len() implies is_space(
            #[trigger] s[i],
        ) by {
            if i < rest.len() {
                assert(rest[i] == s[i]);
            }
        }
    } else {
        assert(s.take(s.len() as int) =~= s);
    }
}

/// The code points of white space.
pub open spec fn white_space_points() -> Seq<int> {
    seq![
        0x9, 0xA, 0xB, 0xC, 0xD, 0x20, 0x85, 0xA0, 0x1680, 0x2000, 0x2001, 0x2002, 0x2003, 0x2004,
        0x2005, 0x2006, 0x2007, 0x2008, 0x2009, 0x200A, 0x2028, 0x2029, 0x202F, 0x205F, 0x3000,
    ]
}

/// White space is what the listed code points are, and nothing else.
pub proof fn law_white_space_is_listed(c: char)
    ensures
        is_space(c) <==> white_space_points().contains(c as int),
{
    let points = white_space_points();
    let n = c as int;
    assert(points[0] == 0x9 && points[1] == 0xA && points[2] == 0xB && points[3] == 0xC
        && points[4] == 0xD && points[5] == 0x20 && points[6] == 0x85 && points[7] == 0xA0
        && points[8] == 0x1680);
    assert(points[9] == 0x2000 && points[10] == 0x2001 && points[11] == 0x2002 && points[12]
        == 0x2003 && points[13] == 0x2004 && points[14] == 0x2005 && points[15] == 0x2006
        && points[16] == 0x2007 && points[17] == 0x2008 && points[18] == 0x2009 && points[19]
        == 0x200A);
    assert(points[20] == 0x2028 && points[21] == 0x2029 && points[22] == 0x202F && points[23]
        == 0x205F && points[24] == 0x3000);
}

/// The number that decimal digits spell.
pub open spec fn decimal_value(s: Seq<char>) -> int {
    s.fold_left(0int, |n: int, c: char| 10 * n + (c as int - '0' as int))
}

/// A number in decimal is made of digits, does not begin with a zero but for
/// zero itself, and spells the number.
pub proof fn law_decimal_reads_back(n: nat)
    ensures
        decimal_value(decimal(n)) == n,
        decimal(n).len() > 0,
        forall|i: int| 0 <= i < decimal(n).len() ==> '0' <= #[trigger] decimal(n)[i] <= '9',
        n > 0 ==> decimal(n)[0] != '0',
        n < 10 ==> decimal(n).len() == 1,
    decreases n,
{
    if n < 10 {
        let s = decimal(n);
        assert(s.drop_last() =~= Seq::<char>::empty());
        reveal_with_fuel(Seq::fold_left, 2);
    } else {
        law_decimal_reads_back(n / 10);
        assert(decimal(n).drop_last() =~= decimal(n / 10));
    }
}

/// A negative number is a minus sign and the digits of its size; any other is
/// its digits.
pub proof fn law_signed_decimal_reads_back(n: int)
    ensures
        n < 0 ==> signed_decimal(n)[0] == '-' && decimal_value(signed_decimal(n).skip(1)) == -n,
        n >= 0 ==> decimal_value(signed_decimal(n)) == n && signed_decimal(n)[0] != '-',
{
    if n < 0 {
        law_decimal_reads_back((-n) as nat);
        assert(signed_decimal(n).skip(1) =~= decimal((-n) as nat));
    } else {
        law_decimal_reads_back(n as nat);
    }
}

/// A padded number spells the number, is as wide as asked for or as the number
/// needs, and is the number itself behind zeros.
pub proof fn law_padded_reads_back(n: nat, width: nat)
    ensures
        decimal_value(padded(n, width)) == n,
        padded(n, width).len() >= width,
        padded(n, width).len() == width || padded(n, width) == decimal(n),
        forall|i: int| 0 <= i < padded(n, width).len() ==> '0' <= #[trigger] padded(
            n,
            width,
        )[i] <= '9',
{
    law_decimal_reads_back(n);
    if decimal(n).len() < width {
        lemma_zeros_before((width - decimal(n).len()) as nat, decimal(n));
    }
}

/// Zeros before digits change nothing.
proof fn lemma_zeros_before(k: nat, s: Seq<char>)
    ensures
        decimal_value(Seq::new(k, |i: int| '0') + s) == decimal_value(s),
    decreases k, s.len(),
{
    let zeros = Seq::new(k, |i: int| '0');
    if s.len() > 0 {
        lemma_zeros_before(k, s.drop_last());
        assert((zeros + s).drop_last() =~= zeros + s.drop_last());
    } else if k > 0 {
        lemma_zeros_before((k - 1) as nat, s);
        assert((zeros + s).drop_last() =~= Seq::new((k - 1) as nat, |i: int| '0') + s);
        assert(zeros + s =~= zeros);
    } else {
        assert(zeros + s =~= s);
    }
}

/// A small number has few digits.
pub proof fn law_decimal_of_small_number(n: nat)
    ensures
        n < 10 ==> decimal(n).len() == 1,
        n < 100 ==> decimal(n).len() <= 2,
        n < 1000 ==> decimal(n).len() <= 3,
        n < 10000 ==> decimal(n).len() <= 4,
        1000 <= n < 10000 ==> decimal(n).len() == 4,
{
    reveal_with_fuel(decimal, 5);
}

/// A part stands at a place exactly where there is room for it and each of its
/// characters is the one there.
pub proof fn law_part_stands_character_by_character(part: Seq<char>, whole: Seq<char>, at: int)
    ensures
        stands_at(part, whole, at) <==> 0 <= at && at + part.len() <= whole.len() && forall|i: int|
            0 <= i < part.len() ==> #[trigger] part[i] == whole[at + i],
{
    if 0 <= at && at + part.len() <= whole.len() {
        let found = whole.subrange(at, at + part.len());
        if forall|i: int| 0 <= i < part.len() ==> #[trigger] part[i] == whole[at + i] {
            assert(part =~= found);
        }
        if part == found {
            assert forall|i: int| 0 <= i < part.len() implies #[trigger] part[i] == whole[at
                + i] by {
                assert(found[i] == whole[at + i]);
            }
        }
    }
}

} // verus!
