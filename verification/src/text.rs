//! Character-level text routines, stated over `Seq<char>`.

use vstd::prelude::*;
use vstd::string::*;

verus! {

/// `String::push`: appends one character at the end of the string.
pub assume_specification[ String::push ](s: &mut String, c: char)
    ensures
        final(s)@ == old(s)@.push(c),
;

/// What the `Debug` rendering of a `str` is: the text between double quotes,
/// with the escapes that std chooses.
pub uninterp spec fn quoted(s: Seq<char>) -> Seq<char>;

/// `<str as Debug>::fmt`, through `format!`: the rendering is a function of
/// the text alone. Which characters are escaped, and how, is left unsaid.
#[verifier::external_body]
pub(crate) fn debug_quoted(s: &str) -> (out: String)
    ensures
        out@ == quoted(s@),
{
    format!("{:?}", s)
}

/// `String::from_utf8`: the text that the bytes encode, if they are valid
/// UTF-8.
#[verifier::external_body]
pub(crate) fn utf8_text(bytes: Vec<u8>) -> (r: Option<String>)
    ensures
        match r {
            Some(s) => vstd::utf8::valid_utf8(bytes@) && vstd::utf8::encode_utf8(s@) == bytes@,
            None => !vstd::utf8::valid_utf8(bytes@),
        },
{
    String::from_utf8(bytes).ok()
}

// ---------------------------------------------------------------------------
// Building and taking apart
// ---------------------------------------------------------------------------

/// The texts that a sequence of strings holds.
pub open spec fn views(v: Seq<String>) -> Seq<Seq<char>> {
    v.map_values(|s: String| s@)
}

/// The texts of borrowed strings.
pub open spec fn str_views(v: Seq<&str>) -> Seq<Seq<char>> {
    v.map_values(|s: &str| s@)
}

/// A text, where there is one.
pub open spec fn opt_text(s: Option<String>) -> Option<Seq<char>> {
    match s {
        Some(t) => Some(t@),
        None => None,
    }
}

/// A borrowed text, where there is one.
pub open spec fn opt_str(s: Option<&str>) -> Option<Seq<char>> {
    match s {
        Some(t) => Some(t@),
        None => None,
    }
}

/// The characters of `s`, in order.
pub fn chars_of(s: &str) -> (out: Vec<char>)
    ensures
        out@ == s@,
{
    let mut out: Vec<char> = Vec::new();
    for c in it: s.chars()
        invariant
            out@ == it.seq().take(it.index() as int),
            it.seq() == s@,
    {
        out.push(c);
        proof {
            assert(it.seq().take(it.index() as int + 1) =~= it.seq().take(it.index() as int).push(
                c,
            ));
        }
    }
    out
}

/// The characters `v[from..to]` as a string.
pub fn string_of(v: &Vec<char>, from: usize, to: usize) -> (out: String)
    requires
        from <= to <= v@.len(),
    ensures
        out@ == v@.subrange(from as int, to as int),
{
    let mut out = String::new();
    let mut i: usize = from;
    while i < to
        invariant
            from <= i <= to <= v@.len(),
            out@ == v@.subrange(from as int, i as int),
        decreases to - i,
    {
        out.push(v[i]);
        proof {
            assert(v@.subrange(from as int, i as int + 1) =~= v@.subrange(
                from as int,
                i as int,
            ).push(v@[i as int]));
        }
        i = i + 1;
    }
    out
}

/// All the characters of `v` as a string.
pub fn string_from(v: &Vec<char>) -> (out: String)
    ensures
        out@ == v@,
{
    let out = string_of(v, 0, v.len());
    proof {
        assert(v@.subrange(0, v@.len() as int) =~= v@);
    }
    out
}

/// A copy of the strings of `v`, text for text.
pub fn copy_strings(v: &Vec<String>) -> (out: Vec<String>)
    ensures
        views(out@) == views(v@),
        out@.len() == v@.len(),
{
    let mut out: Vec<String> = Vec::new();
    let mut i: usize = 0;
    while i < v.len()
        invariant
            i <= v@.len(),
            out@.len() == i,
            forall|k: int| 0 <= k < i ==> out@[k]@ == v@[k]@,
        decreases v@.len() - i,
    {
        out.push(v[i].clone());
        i = i + 1;
    }
    proof {
        assert(views(out@) =~= views(v@));
    }
    out
}

/// Whether two texts are the same.
pub fn same(a: &str, b: &str) -> (r: bool)
    ensures
        r == (a@ == b@),
{
    a.to_owned() == b.to_owned()
}

/// Whether `list` holds the text `s`.
pub fn contains_text(list: &Vec<String>, s: &str) -> (r: bool)
    ensures
        r == views(list@).contains(s@),
{
    let mut i: usize = 0;
    while i < list.len()
        invariant
            i <= list@.len(),
            forall|k: int| 0 <= k < i ==> list@[k]@ != s@,
        decreases list@.len() - i,
    {
        if same(list[i].as_str(), s) {
            proof {
                assert(views(list@)[i as int] == s@);
            }
            return true;
        }
        i = i + 1;
    }
    proof {
        assert forall|k: int| 0 <= k < views(list@).len() implies views(list@)[k] != s@ by {
            assert(list@[k]@ != s@);
        }
    }
    false
}

/// The texts of `s`, each where it first occurs.
pub open spec fn distinct(s: Seq<Seq<char>>) -> Seq<Seq<char>>
    decreases s.len(),
{
    if s.len() == 0 {
        s
    } else {
        let d = distinct(s.drop_last());
        if d.contains(s.last()) {
            d
        } else {
            d.push(s.last())
        }
    }
}

/// Leaving out repetitions keeps every text, keeps it once, and keeps the order
/// in which the texts first come: what was kept of a beginning of the list is a
/// beginning of what is kept.
pub proof fn law_distinct_keeps_each_text_once(s: Seq<Seq<char>>, n: int)
    requires
        0 <= n <= s.len(),
    ensures
        forall|t: Seq<char>| #[trigger] distinct(s).contains(t) <==> s.contains(t),
        distinct(s).no_duplicates(),
        distinct(s.take(n)).is_prefix_of(distinct(s)),
        distinct(s).len() <= s.len(),
    decreases s.len(),
{
    if s.len() > 0 {
        let d = s.drop_last();
        let kept = distinct(d);
        if n < s.len() {
            law_distinct_keeps_each_text_once(d, n);
            assert(d.take(n) =~= s.take(n));
        } else {
            law_distinct_keeps_each_text_once(d, 0);
            assert(s.take(n) =~= s);
        }
        assert forall|t: Seq<char>| #[trigger] distinct(s).contains(t) <==> s.contains(t) by {
            if s.contains(t) {
                let i = choose|i: int| 0 <= i < s.len() && s[i] == t;
                if i < d.len() {
                    assert(d[i] == t);
                    assert(kept.contains(t));
                    let k = choose|k: int| 0 <= k < kept.len() && kept[k] == t;
                    assert(distinct(s)[k] == t);
                } else if !kept.contains(t) {
                    assert(distinct(s)[kept.len() as int] == t);
                }
            }
            if distinct(s).contains(t) {
                let k = choose|k: int| 0 <= k < distinct(s).len() && distinct(s)[k] == t;
                if k < kept.len() {
                    assert(kept[k] == t);
                    assert(kept.contains(t));
                    assert(d.contains(t));
                    let i = choose|i: int| 0 <= i < d.len() && d[i] == t;
                    assert(s[i] == t);
                } else {
                    assert(s[s.len() - 1] == t);
                }
            }
        }
    } else {
        assert(s.take(n) =~= s);
    }
}

/// Adds a text at the end unless it is there already.
pub fn push_distinct(list: &mut Vec<String>, s: &str)
    ensures
        views(final(list)@) == (if views(old(list)@).contains(s@) {
            views(old(list)@)
        } else {
            views(old(list)@).push(s@)
        }),
{
    if !contains_text(list, s) {
        list.push(s.to_owned());
        proof {
            assert(views(list@) =~= views(old(list)@).push(s@));
        }
    }
}

/// `parts` with `sep` between neighbours.
pub open spec fn join(parts: Seq<Seq<char>>, sep: Seq<char>) -> Seq<char>
    decreases parts.len(),
{
    if parts.len() == 0 {
        Seq::empty()
    } else if parts.len() == 1 {
        parts[0]
    } else {
        join(parts.drop_last(), sep) + sep + parts.last()
    }
}

/// One part alone is what joining it gives, and joining two lists in one go sets
/// the separator once between what joining each of them gives.
pub proof fn law_joining_goes_list_by_list(
    a: Seq<Seq<char>>,
    b: Seq<Seq<char>>,
    sep: Seq<char>,
)
    requires
        a.len() > 0,
        b.len() > 0,
    ensures
        a.len() == 1 ==> join(a, sep) == a[0],
        join(a + b, sep) == join(a, sep) + sep + join(b, sep),
    decreases b.len(),
{
    let whole = a + b;
    if b.len() == 1 {
        assert(whole.drop_last() =~= a);
        assert(whole.last() == b[0]);
    } else {
        law_joining_goes_list_by_list(a, b.drop_last(), sep);
        assert(whole.drop_last() =~= a + b.drop_last());
        assert(whole.last() == b.last());
    }
}

/// `parts` with `sep` between neighbours.
pub fn join_strings(parts: &Vec<String>, sep: &str) -> (out: String)
    ensures
        out@ == join(views(parts@), sep@),
{
    let mut out = String::new();
    let mut i: usize = 0;
    while i < parts.len()
        invariant
            i <= parts@.len(),
            out@ == join(views(parts@).take(i as int), sep@),
        decreases parts@.len() - i,
    {
        proof {
            let next = views(parts@).take(i as int + 1);
            assert(next.drop_last() =~= views(parts@).take(i as int));
            assert(next.last() == parts@[i as int]@);
        }
        if i > 0 {
            out.append(sep);
        }
        out.append(parts[i].as_str());
        proof {
            if i == 0 {
                assert(out@ =~= parts@[0]@);
            }
        }
        i = i + 1;
    }
    proof {
        assert(views(parts@).take(i as int) =~= views(parts@));
    }
    out
}

// ---------------------------------------------------------------------------
// Character classes
// ---------------------------------------------------------------------------

/// An ASCII digit.
pub open spec fn is_digit(c: char) -> bool {
    '0' <= c <= '9'
}

/// Only ASCII digits (the empty text qualifies).
pub open spec fn all_digits(s: Seq<char>) -> bool {
    forall|i: int| 0 <= i < s.len() ==> is_digit(#[trigger] s[i])
}

/// Unicode `White_Space`.
pub open spec fn is_space(c: char) -> bool {
    let n = c as u32;
    ||| 0x09 <= n <= 0x0d
    ||| n == 0x20
    ||| n == 0x85
    ||| n == 0xa0
    ||| n == 0x1680
    ||| 0x2000 <= n <= 0x200a
    ||| n == 0x2028
    ||| n == 0x2029
    ||| n == 0x202f
    ||| n == 0x205f
    ||| n == 0x3000
}

/// The white space characters: tabulators, line and page ends, spaces of every
/// width and the separators of lines and paragraphs.
pub proof fn law_these_are_white_space(c: char)
    ensures
        is_space(c) <==> c == '\t' || c == '\n' || c == '\u{b}' || c == '\u{c}' || c == '\r' || c
            == ' ' || c == '\u{85}' || c == '\u{a0}' || c == '\u{1680}' || '\u{2000}' <= c
            <= '\u{200a}' || c == '\u{2028}' || c == '\u{2029}' || c == '\u{202f}' || c
            == '\u{205f}' || c == '\u{3000}',
{
}

pub fn char_is_digit(c: char) -> (r: bool)
    ensures
        r == is_digit(c),
{
    '0' <= c && c <= '9'
}

pub fn char_is_space(c: char) -> (r: bool)
    ensures
        r == is_space(c),
{
    let n: u32 = c as u32;
    (0x09 <= n && n <= 0x0d) || n == 0x20 || n == 0x85 || n == 0xa0 || n == 0x1680 || (0x2000 <= n
        && n <= 0x200a) || n == 0x2028 || n == 0x2029 || n == 0x202f || n == 0x205f || n == 0x3000
}

/// Whether `v[from..]` holds only digits.
pub fn only_digits(v: &Vec<char>) -> (r: bool)
    ensures
        r == all_digits(v@),
{
    let mut i: usize = 0;
    while i < v.len()
        invariant
            i <= v@.len(),
            forall|k: int| 0 <= k < i ==> is_digit(#[trigger] v@[k]),
        decreases v@.len() - i,
    {
        if !char_is_digit(v[i]) {
            return false;
        }
        i = i + 1;
    }
    true
}

/// The lower-case form of an ASCII letter; any other character is kept.
pub open spec fn lower(c: char) -> char {
    if 'A' <= c <= 'Z' {
        ((c as u32 + 32) as u8) as char
    } else {
        c
    }
}

/// The upper-case form of an ASCII letter; any other character is kept.
pub open spec fn upper(c: char) -> char {
    if 'a' <= c <= 'z' {
        ((c as u32 - 32) as u8) as char
    } else {
        c
    }
}

/// ASCII letters in lower case, everything else as it stands.
pub open spec fn to_lower(s: Seq<char>) -> Seq<char> {
    s.map_values(|c: char| lower(c))
}

/// ASCII letters in upper case, everything else as it stands.
pub open spec fn to_upper(s: Seq<char>) -> Seq<char> {
    s.map_values(|c: char| upper(c))
}

/// Lower case keeps every character but the ASCII capitals, each of which becomes
/// the small letter at the same place of the alphabet; and it keeps the length.
pub proof fn law_lower_case_changes_capitals_alone(s: Seq<char>, i: int)
    requires
        0 <= i < s.len(),
    ensures
        to_lower(s).len() == s.len(),
        'A' <= s[i] <= 'Z' ==> 'a' <= to_lower(s)[i] <= 'z' && to_lower(s)[i] as u32 - 'a' as u32
            == s[i] as u32 - 'A' as u32,
        !('A' <= s[i] <= 'Z') ==> to_lower(s)[i] == s[i],
{
}

/// Upper case keeps every character but the small ASCII letters, each of which
/// becomes the capital at the same place of the alphabet; and it keeps the
/// length.
pub proof fn law_upper_case_changes_small_letters_alone(s: Seq<char>, i: int)
    requires
        0 <= i < s.len(),
    ensures
        to_upper(s).len() == s.len(),
        'a' <= s[i] <= 'z' ==> 'A' <= to_upper(s)[i] <= 'Z' && to_upper(s)[i] as u32 - 'A' as u32
            == s[i] as u32 - 'a' as u32,
        !('a' <= s[i] <= 'z') ==> to_upper(s)[i] == s[i],
{
}

fn char_lower(c: char) -> (r: char)
    ensures
        r == lower(c),
{
    if 'A' <= c && c <= 'Z' {
        let n: u32 = c as u32;
        let m: u8 = (n + 32) as u8;
        m as char
    } else {
        c
    }
}

fn char_upper(c: char) -> (r: char)
    ensures
        r == upper(c),
{
    if 'a' <= c && c <= 'z' {
        let n: u32 = c as u32;
        let m: u8 = (n - 32) as u8;
        m as char
    } else {
        c
    }
}

pub fn lower_chars(v: &Vec<char>) -> (out: Vec<char>)
    ensures
        out@ == to_lower(v@),
{
    let mut out: Vec<char> = Vec::new();
    let mut i: usize = 0;
    while i < v.len()
        invariant
            i <= v@.len(),
            out@ == to_lower(v@.take(i as int)),
        decreases v@.len() - i,
    {
        out.push(char_lower(v[i]));
        proof {
            assert(to_lower(v@.take(i as int + 1)) =~= to_lower(v@.take(i as int)).push(
                lower(v@[i as int]),
            ));
        }
        i = i + 1;
    }
    proof {
        assert(v@.take(i as int) =~= v@);
    }
    out
}

pub fn upper_chars(v: &Vec<char>) -> (out: Vec<char>)
    ensures
        out@ == to_upper(v@),
{
    let mut out: Vec<char> = Vec::new();
    let mut i: usize = 0;
    while i < v.len()
        invariant
            i <= v@.len(),
            out@ == to_upper(v@.take(i as int)),
        decreases v@.len() - i,
    {
        out.push(char_upper(v[i]));
        proof {
            assert(to_upper(v@.take(i as int + 1)) =~= to_upper(v@.take(i as int)).push(
                upper(v@[i as int]),
            ));
        }
        i = i + 1;
    }
    proof {
        assert(v@.take(i as int) =~= v@);
    }
    out
}

/// Whether two texts agree up to the case of ASCII letters.
pub fn same_ignoring_ascii_case(a: &str, b: &str) -> (r: bool)
    ensures
        r == (to_lower(a@) == to_lower(b@)),
{
    let x = lower_chars(&chars_of(a));
    let y = lower_chars(&chars_of(b));
    same(string_from(&x).as_str(), string_from(&y).as_str())
}

// ---------------------------------------------------------------------------
// Trimming
// ---------------------------------------------------------------------------

/// `s` without its leading white space.
pub open spec fn trim_start(s: Seq<char>) -> Seq<char>
    decreases s.len(),
{
    if s.len() > 0 && is_space(s[0]) {
        trim_start(s.drop_first())
    } else {
        s
    }
}

/// `s` without its trailing white space.
pub open spec fn trim_end(s: Seq<char>) -> Seq<char>
    decreases s.len(),
{
    if s.len() > 0 && is_space(s.last()) {
        trim_end(s.drop_last())
    } else {
        s
    }
}

/// `s` without white space at either end.
pub open spec fn trim(s: Seq<char>) -> Seq<char> {
    trim_end(trim_start(s))
}

/// Taking away trailing white space leaves a beginning of the text: what is left
/// does not end with white space, and nothing but white space goes.
pub proof fn law_trim_end_drops_white_space(s: Seq<char>)
    ensures
        trim_end(s).len() <= s.len(),
        trim_end(s) == s.take(trim_end(s).len() as int),
        trim_end(s).len() > 0 ==> !is_space(s[trim_end(s).len() - 1]),
        forall|i: int| trim_end(s).len() <= i < s.len() ==> is_space(#[trigger] s[i]),
    decreases s.len(),
{
    if s.len() > 0 && is_space(s.last()) {
        let d = s.drop_last();
        law_trim_end_drops_white_space(d);
        assert forall|i: int| trim_end(s).len() <= i < s.len() implies is_space(
            #[trigger] s[i],
        ) by {
            if i < d.len() {
                assert(d[i] == s[i]);
            }
        }
        assert(s.take(trim_end(s).len() as int) =~= d.take(trim_end(s).len() as int));
    } else {
        assert(s.take(s.len() as int) =~= s);
    }
}

/// Taking away leading white space leaves an end of the text: what is left does
/// not begin with white space, and nothing but white space goes.
pub proof fn law_trim_start_drops_white_space(s: Seq<char>)
    ensures
        trim_start(s).len() <= s.len(),
        trim_start(s) == s.skip(s.len() - trim_start(s).len()),
        trim_start(s).len() > 0 ==> !is_space(s[s.len() - trim_start(s).len()]),
        forall|i: int| 0 <= i < s.len() - trim_start(s).len() ==> is_space(#[trigger] s[i]),
    decreases s.len(),
{
    if s.len() > 0 && is_space(s[0]) {
        let d = s.drop_first();
        law_trim_start_drops_white_space(d);
        assert forall|i: int| 0 <= i < s.len() - trim_start(s).len() implies is_space(
            #[trigger] s[i],
        ) by {
            if i > 0 {
                assert(d[i - 1] == s[i]);
            }
        }
        let n = s.len() - trim_start(s).len();
        assert(d.skip(n - 1) =~= s.skip(n));
        if n < s.len() {
            assert(d[n - 1] == s[n]);
        }
    } else {
        assert(s.skip(0) =~= s);
    }
}

/// Trimming cuts a text out of itself: white space alone stands before and
/// behind what is left, which neither begins nor ends with white space.
pub proof fn law_trim_drops_white_space(s: Seq<char>)
    ensures
        exists|a: Seq<char>, b: Seq<char>|
            s == #[trigger] (a + trim(s) + b) && (forall|i: int|
                0 <= i < a.len() ==> is_space(#[trigger] a[i])) && (forall|i: int|
                0 <= i < b.len() ==> is_space(#[trigger] b[i])),
        trim(s).len() > 0 ==> !is_space(trim(s)[0]) && !is_space(trim(s).last()),
{
    let t = trim_start(s);
    law_trim_start_drops_white_space(s);
    law_trim_end_drops_white_space(t);
    let a = s.take(s.len() - t.len());
    let b = t.skip(trim(s).len() as int);
    assert(s =~= a + trim(s) + b);
    if trim(s).len() > 0 {
        assert(trim(s)[0] == t[0]);
    }
}

/// What stands round a text that neither begins nor ends with white space, if
/// it is white space alone, does not change its trimming.
pub proof fn law_white_space_around_is_trimmed(a: Seq<char>, s: Seq<char>, b: Seq<char>)
    requires
        forall|i: int| 0 <= i < a.len() ==> is_space(#[trigger] a[i]),
        forall|i: int| 0 <= i < b.len() ==> is_space(#[trigger] b[i]),
        s.len() > 0 ==> !is_space(s[0]) && !is_space(s.last()),
    ensures
        trim(a + s + b) == s,
    decreases a.len() + b.len(),
{
    let whole = a + s + b;
    if a.len() > 0 {
        assert(whole[0] == a[0]);
        assert(whole.drop_first() =~= a.drop_first() + s + b);
        law_white_space_around_is_trimmed(a.drop_first(), s, b);
    } else if s.len() == 0 && b.len() > 0 {
        assert(whole[0] == b[0]);
        assert(whole.drop_first() =~= a + s + b.drop_first());
        law_white_space_around_is_trimmed(a, s, b.drop_first());
    } else if b.len() > 0 {
        let d = a + s + b.drop_last();
        law_white_space_around_is_trimmed(a, s, b.drop_last());
        assert(d[0] == s[0]);
        assert(whole[0] == s[0]);
        assert(whole.last() == b.last());
        assert(whole.drop_last() =~= d);
    } else {
        assert(whole =~= s);
        lemma_trim_id(s);
    }
}

/// A text that neither begins nor ends with white space is its own trimming.
pub proof fn lemma_trim_id(s: Seq<char>)
    requires
        s.len() > 0 ==> !is_space(s[0]) && !is_space(s.last()),
    ensures
        trim(s) == s,
{
}

/// `v` without white space at either end.
pub fn trim_chars(v: &Vec<char>) -> (out: Vec<char>)
    ensures
        out@ == trim(v@),
{
    let mut i: usize = 0;
    proof {
        assert(v@.skip(0) =~= v@);
    }
    while i < v.len() && char_is_space(v[i])
        invariant
            i <= v@.len(),
            trim_start(v@) == trim_start(v@.skip(i as int)),
        decreases v@.len() - i,
    {
        proof {
            assert(v@.skip(i as int).drop_first() =~= v@.skip(i as int + 1));
        }
        i = i + 1;
    }
    let mut j: usize = v.len();
    proof {
        assert(v@.skip(i as int) =~= v@.subrange(i as int, j as int));
    }
    while i < j && char_is_space(v[j - 1])
        invariant
            i <= j <= v@.len(),
            trim(v@) == trim_end(v@.subrange(i as int, j as int)),
        decreases j,
    {
        proof {
            assert(v@.subrange(i as int, j as int).drop_last() =~= v@.subrange(
                i as int,
                j as int - 1,
            ));
        }
        j = j - 1;
    }
    slice_chars(v, i, j)
}

/// A copy of `v[from..to]`.
pub fn slice_chars(v: &Vec<char>, from: usize, to: usize) -> (out: Vec<char>)
    requires
        from <= to <= v@.len(),
    ensures
        out@ == v@.subrange(from as int, to as int),
{
    let mut out: Vec<char> = Vec::new();
    let mut i: usize = from;
    while i < to
        invariant
            from <= i <= to <= v@.len(),
            out@ == v@.subrange(from as int, i as int),
        decreases to - i,
    {
        out.push(v[i]);
        proof {
            assert(v@.subrange(from as int, i as int + 1) =~= v@.subrange(
                from as int,
                i as int,
            ).push(v@[i as int]));
        }
        i = i + 1;
    }
    out
}

/// `s` without white space at either end.
pub fn trimmed(s: &str) -> (out: String)
    ensures
        out@ == trim(s@),
{
    string_from(&trim_chars(&chars_of(s)))
}

// ---------------------------------------------------------------------------
// Searching
// ---------------------------------------------------------------------------

/// `needle` stands in `hay` at position `at`.
pub open spec fn occurs_at(hay: Seq<char>, needle: Seq<char>, at: int) -> bool {
    0 <= at && at + needle.len() <= hay.len() && hay.subrange(at, at + needle.len() as int)
        == needle
}

/// `needle` stands somewhere in `hay`.
pub open spec fn occurs(hay: Seq<char>, needle: Seq<char>) -> bool {
    exists|at: int| #[trigger] occurs_at(hay, needle, at)
}

/// Whether `needle` stands in `hay` at position `at`.
pub fn matches_at(hay: &Vec<char>, needle: &Vec<char>, at: usize) -> (r: bool)
    ensures
        r == occurs_at(hay@, needle@, at as int),
{
    if needle.len() > hay.len() || at > hay.len() - needle.len() {
        return false;
    }
    let mut i: usize = 0;
    assert(hay@.len() == hay.len());
    while i < needle.len()
        invariant
            i <= needle@.len(),
            at + needle@.len() <= hay@.len() <= usize::MAX,
            forall|k: int| 0 <= k < i ==> hay@[at + k] == #[trigger] needle@[k],
        decreases needle@.len() - i,
    {
        if hay[at + i] != needle[i] {
            proof {
                let part = hay@.subrange(at as int, at + needle@.len() as int);
                assert(part[i as int] == hay@[at + i]);
            }
            return false;
        }
        i = i + 1;
    }
    proof {
        assert(hay@.subrange(at as int, at + needle@.len() as int) =~= needle@);
    }
    true
}

/// The first position at which `needle` stands in `hay`.
pub fn find_chars(hay: &Vec<char>, needle: &Vec<char>) -> (r: Option<usize>)
    ensures
        match r {
            Some(at) => occurs_at(hay@, needle@, at as int) && forall|k: int|
                0 <= k < at ==> !occurs_at(hay@, needle@, k),
            None => !occurs(hay@, needle@),
        },
{
    let mut i: usize = 0;
    while i < hay.len()
        invariant
            i <= hay@.len(),
            forall|k: int| 0 <= k < i ==> !occurs_at(hay@, needle@, k),
        decreases hay@.len() - i,
    {
        if matches_at(hay, needle, i) {
            return Some(i);
        }
        i = i + 1;
    }
    if matches_at(hay, needle, i) {
        return Some(i);
    }
    None
}

/// Where `needle` first stands in `hay`.
pub open spec fn first_at(hay: Seq<char>, needle: Seq<char>) -> Option<int>
    decreases hay.len(),
{
    if occurs_at(hay, needle, 0) {
        Some(0)
    } else if hay.len() == 0 {
        None
    } else {
        match first_at(hay.drop_first(), needle) {
            Some(k) => Some(k + 1),
            None => None,
        }
    }
}

/// The first place is a place with none before it, and there is one unless
/// there is no place at all.
pub proof fn lemma_first_at(hay: Seq<char>, needle: Seq<char>, at: int)
    ensures
        occurs_at(hay, needle, at) && (forall|k: int|
            0 <= k < at ==> !occurs_at(hay, needle, k)) ==> first_at(hay, needle) == Some(at),
        !occurs(hay, needle) ==> first_at(hay, needle) is None,
    decreases hay.len(),
{
    if hay.len() > 0 && !occurs_at(hay, needle, 0) {
        let t = hay.drop_first();
        lemma_first_at(t, needle, at - 1);
        assert forall|k: int| 0 <= k implies occurs_at(t, needle, k) == occurs_at(
            hay,
            needle,
            k + 1,
        ) by {
            if k + needle.len() <= t.len() {
                assert(t.subrange(k, k + needle.len() as int) =~= hay.subrange(
                    k + 1,
                    k + 1 + needle.len() as int,
                ));
            }
        }
        if occurs_at(hay, needle, at) && (forall|k: int|
            0 <= k < at ==> !occurs_at(hay, needle, k)) {
            assert(at > 0);
            assert(occurs_at(t, needle, at - 1));
            assert forall|k: int| 0 <= k < at - 1 implies !occurs_at(t, needle, k) by {
                assert(!occurs_at(hay, needle, k + 1));
            }
        }
        if !occurs(hay, needle) && occurs(t, needle) {
            let k = choose|k: int| #[trigger] occurs_at(t, needle, k);
            assert(occurs_at(hay, needle, k + 1));
        }
    } else if occurs_at(hay, needle, 0) {
        assert(occurs(hay, needle));
    }
}

/// One text stands in another exactly if the other is it with something, or
/// nothing, before and behind.
pub proof fn law_what_occurs_is_part_of_the_text(
    hay: Seq<char>,
    needle: Seq<char>,
    a: Seq<char>,
    b: Seq<char>,
)
    ensures
        hay == a + needle + b ==> occurs(hay, needle),
        occurs(hay, needle) ==> exists|x: Seq<char>, y: Seq<char>|
            hay == #[trigger] (x + needle + y),
{
    if hay == a + needle + b {
        assert(hay.subrange(a.len() as int, (a.len() + needle.len()) as int) =~= needle);
        assert(occurs_at(hay, needle, a.len() as int));
    }
    if occurs(hay, needle) {
        let at = choose|at: int| #[trigger] occurs_at(hay, needle, at);
        assert(hay =~= hay.take(at) + needle + hay.skip(at + needle.len()));
    }
}

/// What stands between two texts stands in the whole.
pub proof fn lemma_occurs_between(a: Seq<char>, needle: Seq<char>, b: Seq<char>)
    ensures
        occurs(a + needle + b, needle),
{
    let hay = a + needle + b;
    assert(hay.subrange(a.len() as int, (a.len() + needle.len()) as int) =~= needle);
    assert(occurs_at(hay, needle, a.len() as int));
}

/// What stands in a part of a text stands in the text.
pub proof fn lemma_occurs_within(hay: Seq<char>, part: Seq<char>, needle: Seq<char>)
    requires
        occurs(hay, part),
        occurs(part, needle),
    ensures
        occurs(hay, needle),
{
    let i = choose|i: int| #[trigger] occurs_at(hay, part, i);
    let j = choose|j: int| #[trigger] occurs_at(part, needle, j);
    assert(hay.subrange(i + j, i + j + needle.len() as int) =~= part.subrange(
        j,
        j + needle.len() as int,
    ));
    assert(occurs_at(hay, needle, i + j));
}

/// Every one of some parts stands in the text that joining them gives.
pub proof fn law_every_part_is_in_the_joined_text(parts: Seq<Seq<char>>, sep: Seq<char>, i: int)
    requires
        0 <= i < parts.len(),
    ensures
        occurs(join(parts, sep), parts[i]),
    decreases parts.len(),
{
    let none = Seq::<char>::empty();
    let text = join(parts, sep);
    if parts.len() == 1 {
        assert(text =~= none + parts[0] + none);
        lemma_occurs_between(none, parts[0], none);
    } else {
        let d = parts.drop_last();
        let before = join(d, sep);
        if i < d.len() {
            law_every_part_is_in_the_joined_text(d, sep, i);
            assert(text =~= none + before + (sep + parts.last()));
            lemma_occurs_between(none, before, sep + parts.last());
            lemma_occurs_within(text, before, parts[i]);
        } else {
            assert(text =~= (before + sep) + parts[i] + none);
            lemma_occurs_between(before + sep, parts[i], none);
        }
    }
}

/// Whether `prefix` is how `s` begins.
pub fn starts_with(s: &str, prefix: &str) -> (r: bool)
    ensures
        r == prefix@.is_prefix_of(s@),
{
    let v = chars_of(s);
    let p = chars_of(prefix);
    let r = matches_at(&v, &p, 0);
    proof {
        if p@.len() <= v@.len() {
            assert(v@.subrange(0, p@.len() as int) =~= v@.take(p@.len() as int));
        }
    }
    r
}

/// Whether `needle` stands somewhere in `s`.
pub fn has_text(s: &str, needle: &str) -> (r: bool)
    ensures
        r == occurs(s@, needle@),
{
    let v = chars_of(s);
    let n = chars_of(needle);
    match find_chars(&v, &n) {
        Some(at) => true,
        None => false,
    }
}

/// Whether `suffix` is how `s` ends.
pub fn ends_with(s: &Vec<char>, suffix: &str) -> (r: bool)
    ensures
        r == suffix@.is_suffix_of(s@),
{
    let p = chars_of(suffix);
    if p.len() > s.len() {
        return false;
    }
    matches_at(s, &p, s.len() - p.len())
}

/// `to` before, between and after the characters of `s`.
pub open spec fn interleaved(s: Seq<char>, to: Seq<char>) -> Seq<char>
    decreases s.len(),
{
    if s.len() == 0 {
        to
    } else {
        interleaved(s.drop_last(), to) + seq![s.last()] + to
    }
}

/// Putting a text before, between and after characters adds it once more than
/// there are characters, keeps the characters in their order, and putting nothing
/// changes nothing. That is what replacing nothing by a text does.
pub proof fn law_interleaving_keeps_the_characters(s: Seq<char>, to: Seq<char>, i: int)
    requires
        0 <= i < s.len(),
    ensures
        interleaved(s, to).len() == s.len() + (s.len() + 1) * to.len(),
        interleaved(s, to)[i + (i + 1) * to.len()] == s[i],
        interleaved(s, to).subrange(i + i * to.len(), i + (i + 1) * to.len()) == to,
        to.is_suffix_of(interleaved(s, to)),
        interleaved(s, Seq::empty()) == s,
        replaced(s, Seq::empty(), to) == interleaved(s, to),
    decreases s.len(),
{
    let d = s.drop_last();
    let n = to.len() as int;
    let before = interleaved(d, to);
    let all = interleaved(s, to);
    assert(all.subrange(all.len() - n, all.len() as int) =~= to);
    assert((i + 1) * n == i * n + n) by (nonlinear_arith);
    if d.len() > 0 {
        let k = if i < d.len() {
            i
        } else {
            d.len() - 1
        };
        law_interleaving_keeps_the_characters(d, to, k);
        assert((d.len() + 1) * n == d.len() * n + n) by (nonlinear_arith);
        assert((s.len() + 1) * n == s.len() * n + n) by (nonlinear_arith);
        assert(s.len() * n == d.len() * n + n) by (nonlinear_arith)
            requires
                s.len() == d.len() + 1,
        ;
        if i < d.len() {
            assert((i + 1) * n <= d.len() * n) by (nonlinear_arith)
                requires
                    i + 1 <= d.len(),
                    n >= 0,
            ;
            assert(all[i + (i + 1) * n] == before[i + (i + 1) * n]);
            assert(all.subrange(i + i * n, i + (i + 1) * n) =~= before.subrange(
                i + i * n,
                i + (i + 1) * n,
            ));
        } else {
            assert(before.len() == i + (i + 1) * n);
            assert(all[i + (i + 1) * n] == s.last());
            assert(all.subrange(i + i * n, i + (i + 1) * n) =~= before.subrange(
                before.len() - n,
                before.len() as int,
            ));
        }
        assert(interleaved(s, Seq::empty()) =~= s);
    } else {
        assert(before =~= to);
        assert(i == 0);
        assert((s.len() + 1) * n == 2 * n) by (nonlinear_arith)
            requires
                s.len() == 1,
        ;
        assert(0 * n == 0 && 1 * n == n) by (nonlinear_arith);
        assert(all =~= to + seq![s[0]] + to);
        assert(all.subrange(0, n) =~= to);
        assert(interleaved(d, Seq::empty()) =~= Seq::empty());
        assert(interleaved(s, Seq::empty()) =~= s);
    }
}

/// `s` with every occurrence of a non-empty `from`, taken from the left and not
/// overlapping, turned into `to`.
pub open spec fn substituted(s: Seq<char>, from: Seq<char>, to: Seq<char>) -> Seq<char>
    decreases s.len(),
{
    if from.len() == 0 || s.len() < from.len() {
        s
    } else if occurs_at(s, from, 0) {
        to + substituted(s.skip(from.len() as int), from, to)
    } else {
        seq![s[0]] + substituted(s.drop_first(), from, to)
    }
}

/// `s` with every occurrence of `from` turned into `to`.
pub open spec fn replaced(s: Seq<char>, from: Seq<char>, to: Seq<char>) -> Seq<char> {
    if from.len() == 0 {
        interleaved(s, to)
    } else {
        substituted(s, from, to)
    }
}

/// Replacing goes from occurrence to occurrence: what stands before the first one
/// is kept, the occurrence becomes the other text, and what follows it is
/// replaced in its turn; a text without an occurrence is kept whole.
pub proof fn law_replacing_goes_by_occurrence(
    s: Seq<char>,
    from: Seq<char>,
    to: Seq<char>,
    at: int,
)
    requires
        from.len() > 0,
    ensures
        occurs_at(s, from, at) && (forall|k: int| 0 <= k < at ==> !(#[trigger] occurs_at(
            s,
            from,
            k,
        ))) ==> replaced(s, from, to) == s.take(at) + to + replaced(
            s.skip(at + from.len()),
            from,
            to,
        ),
        !occurs(s, from) ==> replaced(s, from, to) == s,
    decreases s.len(),
{
    let d = s.drop_first();
    if occurs_at(s, from, at) && (forall|k: int| 0 <= k < at ==> !(#[trigger] occurs_at(s, from, k))) {
        if at == 0 {
            assert(s.take(0) =~= Seq::empty());
            assert(s.take(at) + to =~= to);
        } else {
            assert(!occurs_at(s, from, 0));
            assert forall|k: int| 0 <= k < at - 1 implies !(#[trigger] occurs_at(d, from, k)) by {
                assert(d.subrange(k, k + from.len() as int) =~= s.subrange(
                    k + 1,
                    k + 1 + from.len() as int,
                ));
                assert(!occurs_at(s, from, k + 1));
            }
            assert(d.subrange(at - 1, at - 1 + from.len() as int) =~= s.subrange(
                at,
                at + from.len() as int,
            ));
            law_replacing_goes_by_occurrence(d, from, to, at - 1);
            assert(d.skip(at - 1 + from.len()) =~= s.skip(at + from.len()));
            assert(s.take(at) =~= seq![s[0]] + d.take(at - 1));
            assert(seq![s[0]] + (d.take(at - 1) + to + replaced(
                s.skip(at + from.len()),
                from,
                to,
            )) =~= s.take(at) + to + replaced(s.skip(at + from.len()), from, to));
        }
    }
    if !occurs(s, from) && s.len() >= from.len() {
        assert(!occurs_at(s, from, 0));
        assert(!occurs(d, from)) by {
            if occurs(d, from) {
                let k = choose|k: int| #[trigger] occurs_at(d, from, k);
                assert(d.subrange(k, k + from.len() as int) =~= s.subrange(
                    k + 1,
                    k + 1 + from.len() as int,
                ));
                assert(occurs_at(s, from, k + 1));
            }
        }
        law_replacing_goes_by_occurrence(d, from, to, 0);
        assert(seq![s[0]] + d =~= s);
    }
}

/// `s` with every occurrence of `from` turned into `to`.
pub fn replace_all(s: &str, from: &str, to: &str) -> (out: String)
    ensures
        out@ == replaced(s@, from@, to@),
{
    let v = chars_of(s);
    let f = chars_of(from);
    let mut out = String::new();
    let mut i: usize = 0;
    if f.len() == 0 {
        out.append(to);
        proof {
            assert(out@ =~= to@);
            assert(v@.take(0) =~= Seq::<char>::empty());
        }
        while i < v.len()
            invariant
                i <= v@.len(),
                out@ == interleaved(v@.take(i as int), to@),
            decreases v@.len() - i,
        {
            proof {
                assert(v@.take(i as int + 1).drop_last() =~= v@.take(i as int));
            }
            out.push(v[i]);
            out.append(to);
            proof {
                let head = interleaved(v@.take(i as int), to@);
                assert(head.push(v@[i as int]) =~= head + seq![v@[i as int]]);
            }
            i = i + 1;
        }
        proof {
            assert(v@.take(i as int) =~= v@);
        }
        return out;
    }
    proof {
        assert(v@.skip(0) =~= v@);
        assert(Seq::<char>::empty() + substituted(v@, f@, to@) =~= substituted(v@, f@, to@));
    }
    while i < v.len()
        invariant
            i <= v@.len(),
            f@ == from@,
            f@.len() > 0,
            out@ + substituted(v@.skip(i as int), f@, to@) == substituted(v@, f@, to@),
        decreases v@.len() - i,
    {
        let ghost rest = v@.skip(i as int);
        let ghost done = out@;
        if matches_at(&v, &f, i) {
            proof {
                assert(rest.subrange(0, f@.len() as int) =~= v@.subrange(
                    i as int,
                    i + f@.len() as int,
                ));
                assert(occurs_at(rest, f@, 0));
                assert(rest.skip(f@.len() as int) =~= v@.skip(i + f@.len() as int));
            }
            out.append(to);
            i = i + f.len();
            proof {
                let tail = substituted(v@.skip(i as int), f@, to@);
                assert((done + to@) + tail =~= done + (to@ + tail));
            }
        } else {
            proof {
                if rest.len() >= f@.len() {
                    assert(rest.subrange(0, f@.len() as int) =~= v@.subrange(
                        i as int,
                        i + f@.len() as int,
                    ));
                    assert(!occurs_at(rest, f@, 0));
                } else {
                    assert(rest == substituted(rest, f@, to@));
                    assert(rest.drop_first() == substituted(rest.drop_first(), f@, to@));
                    assert(rest =~= seq![rest[0]] + rest.drop_first());
                }
                assert(rest.drop_first() =~= v@.skip(i as int + 1));
            }
            out.push(v[i]);
            i = i + 1;
            proof {
                let tail = substituted(v@.skip(i as int), f@, to@);
                assert(done.push(rest[0]) + tail =~= done + (seq![rest[0]] + tail));
            }
        }
    }
    proof {
        assert(v@.skip(i as int) =~= Seq::<char>::empty());
        assert(out@ + Seq::<char>::empty() =~= out@);
    }
    out
}

/// The position of the first `c` in `s`, or the length of `s`.
pub open spec fn index_of_char(s: Seq<char>, c: char) -> int
    decreases s.len(),
{
    if s.len() == 0 || s[0] == c {
        0
    } else {
        1 + index_of_char(s.drop_first(), c)
    }
}

/// `index_of_char` is the first position that holds `c`, or the length.
pub proof fn lemma_index_of_char(s: Seq<char>, c: char)
    ensures
        0 <= index_of_char(s, c) <= s.len(),
        index_of_char(s, c) < s.len() ==> s[index_of_char(s, c)] == c,
        forall|i: int| 0 <= i < index_of_char(s, c) ==> s[i] != c,
    decreases s.len(),
{
    if s.len() > 0 && s[0] != c {
        let t = s.drop_first();
        lemma_index_of_char(t, c);
        assert forall|i: int| 0 <= i < index_of_char(s, c) implies s[i] != c by {
            if i > 0 {
                assert(t[i - 1] == s[i]);
            }
        }
    }
}

/// A position with no `c` before it that holds `c`, or is the end, is the one
/// that `index_of_char` names.
pub proof fn lemma_index_of_char_is(s: Seq<char>, c: char, k: int)
    requires
        0 <= k <= s.len(),
        k < s.len() ==> s[k] == c,
        forall|i: int| 0 <= i < k ==> s[i] != c,
    ensures
        index_of_char(s, c) == k,
{
    lemma_index_of_char(s, c);
    let j = index_of_char(s, c);
    if j < k {
        assert(s[j] == c);
    }
}

/// The position of the first `c` at or after `from`, or the length.
pub fn find_char(v: &Vec<char>, c: char, from: usize) -> (at: usize)
    requires
        from <= v@.len(),
    ensures
        from <= at <= v@.len(),
        at - from == index_of_char(v@.skip(from as int), c),
        at < v@.len() ==> v@[at as int] == c,
        forall|k: int| from <= k < at ==> v@[k] != c,
{
    let mut i: usize = from;
    while i < v.len() && v[i] != c
        invariant
            from <= i <= v@.len(),
            forall|k: int| from <= k < i ==> v@[k] != c,
        decreases v@.len() - i,
    {
        i = i + 1;
    }
    proof {
        lemma_index_of_char_is(v@.skip(from as int), c, i - from);
    }
    i
}

/// The pieces of `s` between occurrences of `c`; there is always at least one.
pub open spec fn split(s: Seq<char>, c: char) -> Seq<Seq<char>>
    decreases s.len(),
{
    let k = index_of_char(s, c);
    if 0 <= k < s.len() {
        seq![s.take(k)] + split(s.skip(k + 1), c)
    } else {
        seq![s]
    }
}

/// The pieces of a text do not hold the character that it is divided at, and
/// joined by it they are the text again.
pub proof fn law_pieces_join_to_the_text(s: Seq<char>, c: char)
    ensures
        split(s, c).len() >= 1,
        join(split(s, c), seq![c]) == s,
        forall|i: int, j: int|
            0 <= i < split(s, c).len() && 0 <= j < split(s, c)[i].len()
                ==> #[trigger] split(s, c)[i][j] != c,
    decreases s.len(),
{
    lemma_index_of_char(s, c);
    let k = index_of_char(s, c);
    if k < s.len() {
        let rest = s.skip(k + 1);
        law_pieces_join_to_the_text(rest, c);
        law_joining_goes_list_by_list(seq![s.take(k)], split(rest, c), seq![c]);
        assert(s =~= s.take(k) + seq![c] + rest);
    }
}

/// The pieces of `v` between occurrences of `c`.
pub fn split_chars(v: &Vec<char>, c: char) -> (out: Vec<Vec<char>>)
    ensures
        out@.len() == split(v@, c).len(),
        out@.len() >= 1,
        forall|i: int| 0 <= i < out@.len() ==> (#[trigger] out@[i])@ == split(v@, c)[i],
{
    let mut out: Vec<Vec<char>> = Vec::new();
    let mut from: usize = 0;
    let mut at: usize = find_char(v, c, 0);
    proof {
        assert(v@.skip(0) =~= v@);
    }
    while at < v.len()
        invariant
            from <= at <= v@.len(),
            at - from == index_of_char(v@.skip(from as int), c),
            split(v@, c).len() == out@.len() + split(v@.skip(from as int), c).len(),
            forall|i: int| 0 <= i < out@.len() ==> (#[trigger] out@[i])@ == split(v@, c)[i],
            forall|i: int|
                0 <= i < split(v@.skip(from as int), c).len() ==> split(v@, c)[out@.len() + i]
                    == #[trigger] split(v@.skip(from as int), c)[i],
        decreases v@.len() - from,
    {
        let piece = slice_chars(v, from, at);
        let ghost rest = v@.skip(from as int);
        let ghost next = v@.skip(at as int + 1);
        proof {
            assert(rest.take(at - from) =~= v@.subrange(from as int, at as int));
            assert(rest.skip(at - from + 1) =~= next);
            assert(split(rest, c) =~= seq![piece@] + split(next, c));
            assert(split(rest, c)[0] == piece@);
            assert forall|i: int| 0 <= i < split(next, c).len() implies split(v@, c)[out@.len() + 1
                + i] == #[trigger] split(next, c)[i] by {
                assert(split(rest, c)[i + 1] == split(next, c)[i]);
            }
        }
        out.push(piece);
        from = at + 1;
        at = find_char(v, c, from);
    }
    let last = slice_chars(v, from, v.len());
    proof {
        let rest = v@.skip(from as int);
        assert(rest =~= v@.subrange(from as int, v@.len() as int));
        assert(split(rest, c) =~= seq![rest]);
        assert(split(rest, c)[0] == last@);
    }
    out.push(last);
    out
}

/// A line without the carriage return at its end.
pub open spec fn without_return(s: Seq<char>) -> Seq<char> {
    if s.len() > 0 && s.last() == '\r' {
        s.drop_last()
    } else {
        s
    }
}

/// The lines of a text, as `str::lines` gives them: a line feed ends a line,
/// with or without a carriage return before it, and the last line needs none.
pub open spec fn lines(s: Seq<char>) -> Seq<Seq<char>> {
    let parts = split(s, '\n');
    let ended = parts.drop_last().map_values(|p: Seq<char>| without_return(p));
    if parts.last().len() == 0 {
        ended
    } else {
        ended.push(parts.last())
    }
}

/// A line feed ends a line: what stands before the first one, without a carriage
/// return at its end, is the first line, and the lines of the rest follow. A text
/// without a line feed is one line, and an empty one is none.
pub proof fn law_a_line_feed_ends_a_line(a: Seq<char>, b: Seq<char>)
    requires
        forall|i: int| 0 <= i < a.len() ==> #[trigger] a[i] != '\n',
    ensures
        lines(a + seq!['\n'] + b) == seq![
            if a.len() > 0 && a.last() == '\r' {
                a.drop_last()
            } else {
                a
            },
        ] + lines(b),
        lines(a) == (if a.len() == 0 {
            Seq::empty()
        } else {
            seq![a]
        }),
{
    lemma_split_step(a, '\n', b);
    lemma_split_whole(a, '\n');
    law_pieces_join_to_the_text(b, '\n');
    let f = |p: Seq<char>| without_return(p);
    let rest = split(b, '\n');
    let whole = split(a + seq!['\n'] + b, '\n');
    assert(whole.last() == rest.last());
    assert(whole.drop_last() =~= seq![a] + rest.drop_last());
    assert(whole.drop_last().map_values(f) =~= seq![without_return(a)] + rest.drop_last().map_values(
        f,
    ));
    assert(lines(a + seq!['\n'] + b) =~= seq![without_return(a)] + lines(b));
    assert(split(a, '\n').drop_last() =~= Seq::empty());
    assert(lines(a) =~= if a.len() == 0 {
        Seq::empty()
    } else {
        seq![a]
    });
}

/// The lines of a text.
pub fn lines_of(s: &str) -> (out: Vec<Vec<char>>)
    ensures
        out@.len() == lines(s@).len(),
        forall|i: int| 0 <= i < out@.len() ==> (#[trigger] out@[i])@ == lines(s@)[i],
{
    let parts = split_chars(&chars_of(s), '\n');
    let ghost p = split(s@, '\n');
    let mut out: Vec<Vec<char>> = Vec::new();
    let mut i: usize = 0;
    while i < parts.len() - 1
        invariant
            parts@.len() == p.len(),
            parts@.len() >= 1,
            p == split(s@, '\n'),
            forall|k: int| 0 <= k < parts@.len() ==> (#[trigger] parts@[k])@ == p[k],
            i <= parts@.len() - 1,
            out@.len() == i,
            forall|k: int| 0 <= k < i ==> (#[trigger] out@[k])@ == without_return(p[k]),
        decreases parts@.len() - i,
    {
        let n: usize = parts[i].len();
        let line = if n > 0 && parts[i][n - 1] == '\r' {
            slice_chars(&parts[i], 0, n - 1)
        } else {
            slice_chars(&parts[i], 0, n)
        };
        proof {
            assert(line@ =~= without_return(p[i as int]));
        }
        out.push(line);
        i = i + 1;
    }
    let n: usize = parts[i].len();
    if n > 0 {
        let line = slice_chars(&parts[i], 0, n);
        proof {
            assert(line@ =~= p.last());
        }
        out.push(line);
    }
    out
}

// ---------------------------------------------------------------------------
// Decimal numbers
// ---------------------------------------------------------------------------

/// The character of a digit `0..=9`.
pub open spec fn digit_char(d: int) -> char {
    (d + 48) as char
}

/// The decimal digits of `n`, without leading zeros.
pub open spec fn decimal(n: nat) -> Seq<char>
    decreases n,
{
    if n < 10 {
        seq![digit_char(n as int)]
    } else {
        decimal(n / 10).push(digit_char((n % 10) as int))
    }
}

/// The decimal digits of `n` with a minus sign where it is negative.
pub open spec fn signed_decimal(n: int) -> Seq<char> {
    if n < 0 {
        seq!['-'] + decimal((-n) as nat)
    } else {
        decimal(n as nat)
    }
}

/// `s` brought to `width` by putting `fill` in front.
pub open spec fn pad_left(s: Seq<char>, width: nat, fill: char) -> Seq<char> {
    if s.len() >= width {
        s
    } else {
        Seq::new((width - s.len()) as nat, |i: int| fill) + s
    }
}

/// The number that a row of digits spells; 0 for the empty row.
pub open spec fn digits_value(s: Seq<char>) -> nat
    decreases s.len(),
{
    if s.len() == 0 {
        0
    } else {
        digits_value(s.drop_last()) * 10 + digit_value(s.last())
    }
}

/// The value of a digit character.
pub open spec fn digit_value(c: char) -> nat {
    if is_digit(c) {
        (c as u32 - 48) as nat
    } else {
        0
    }
}

/// What `decimal` writes is a non-empty row of digits that spells `n`.
pub proof fn lemma_decimal_value(n: nat)
    ensures
        decimal(n).len() >= 1,
        all_digits(decimal(n)),
        digits_value(decimal(n)) == n,
    decreases n,
{
    let d = decimal(n);
    if n < 10 {
        assert(d.drop_last() =~= Seq::<char>::empty());
        assert(digits_value(d.drop_last()) == 0);
    } else {
        lemma_decimal_value(n / 10);
        assert(d.drop_last() =~= decimal(n / 10));
        assert forall|i: int| 0 <= i < d.len() implies is_digit(#[trigger] d[i]) by {
            if i < d.len() - 1 {
                assert(d[i] == decimal(n / 10)[i]);
            }
        }
    }
}

/// A number in decimal has no leading zero, but for zero itself, and its digits
/// spell it.
pub proof fn law_decimal_is_the_shortest_spelling(n: nat)
    ensures
        decimal(n).len() >= 1,
        forall|i: int| 0 <= i < decimal(n).len() ==> '0' <= #[trigger] decimal(n)[i] <= '9',
        decimal(n).len() > 1 ==> decimal(n)[0] != '0',
        n < 10 ==> decimal(n).len() == 1 && decimal(n)[0] as u32 == '0' as u32 + n,
        n >= 10 ==> decimal(n) == decimal(n / 10) + decimal(n % 10),
    decreases n,
{
    lemma_decimal_value(n);
    if n >= 10 {
        law_decimal_is_the_shortest_spelling(n / 10);
        assert(decimal(n % 10).len() == 1);
        assert(decimal(n) =~= decimal(n / 10) + decimal(n % 10));
        assert(decimal(n)[0] == decimal(n / 10)[0]);
        if n < 100 {
            assert(decimal(n / 10)[0] as u32 == '0' as u32 + n / 10);
        }
    }
}

/// The decimal digits of `n`.
pub fn decimal_string(n: u64) -> (out: String)
    ensures
        out@ == decimal(n as nat),
    decreases n,
{
    let mut out = if n < 10 {
        String::new()
    } else {
        decimal_string(n / 10)
    };
    let d: u8 = (n % 10) as u8 + 48;
    out.push(d as char);
    proof {
        if n < 10 {
            assert(out@ =~= decimal(n as nat));
        }
    }
    out
}

/// A number and its opposite differ in the sign alone, and only a number below
/// zero has one.
pub proof fn law_opposite_numbers_differ_in_the_sign(n: nat)
    ensures
        signed_decimal(n as int) == decimal(n),
        n > 0 ==> signed_decimal(-n) == seq!['-'] + signed_decimal(n as int),
{
}

/// Filling up puts the same character in front until the width is reached, and
/// leaves a text that has the width as it is.
pub proof fn law_filling_up_reaches_the_width(s: Seq<char>, width: nat, fill: char, i: int)
    ensures
        s.is_suffix_of(pad_left(s, width, fill)),
        pad_left(s, width, fill).len() >= width,
        pad_left(s, width, fill).len() == width || pad_left(s, width, fill) == s,
        0 <= i < pad_left(s, width, fill).len() - s.len() ==> pad_left(s, width, fill)[i] == fill,
{
    let p = pad_left(s, width, fill);
    assert(p.subrange(p.len() - s.len(), p.len() as int) =~= s);
}

/// The decimal digits of `n` with a minus sign where it is negative.
pub fn signed_decimal_string(n: i64) -> (out: String)
    ensures
        out@ == signed_decimal(n as int),
{
    if n < 0 {
        let mut out = String::new();
        out.push('-');
        let digits = decimal_string((-(n + 1)) as u64 + 1);
        out.append(digits.as_str());
        proof {
            assert(out@ =~= signed_decimal(n as int));
        }
        out
    } else {
        decimal_string(n as u64)
    }
}

/// `s` brought to `width` characters by putting `fill` in front.
pub fn padded(s: &str, width: usize, fill: char) -> (out: String)
    ensures
        out@ == pad_left(s@, width as nat, fill),
{
    let len: usize = s.unicode_len();
    let mut out = String::new();
    let mut i: usize = len;
    while i < width
        invariant
            len == s@.len(),
            len <= i,
            i <= width || i == len,
            out@ == Seq::new((i - len) as nat, |k: int| fill),
        decreases width - i,
    {
        out.push(fill);
        proof {
            assert(out@ =~= Seq::new((i + 1 - len) as nat, |k: int| fill));
        }
        i = i + 1;
    }
    out.append(s);
    proof {
        assert(out@ =~= pad_left(s@, width as nat, fill));
    }
    out
}

/// `n` in decimal, brought to `width` characters with leading zeros.
pub fn zero_padded(n: u64, width: usize) -> (out: String)
    ensures
        out@ == pad_left(decimal(n as nat), width as nat, '0'),
{
    padded(decimal_string(n).as_str(), width, '0')
}

/// A longer row of digits spells no smaller number.
pub proof fn lemma_digits_value_take(s: Seq<char>, k: int)
    requires
        0 <= k <= s.len(),
    ensures
        digits_value(s.take(k)) <= digits_value(s),
    decreases s.len() - k,
{
    if k < s.len() {
        lemma_digits_value_take(s, k + 1);
        assert(s.take(k + 1).drop_last() =~= s.take(k));
    } else {
        assert(s.take(k) =~= s);
    }
}

/// Leading zeros do not change the number.
pub proof fn lemma_digits_value_padded(s: Seq<char>, width: nat)
    requires
        all_digits(s),
    ensures
        all_digits(pad_left(s, width, '0')),
        digits_value(pad_left(s, width, '0')) == digits_value(s),
        pad_left(s, width, '0').len() == if s.len() >= width {
            s.len()
        } else {
            width
        },
    decreases s.len(), width,
{
    let p = pad_left(s, width, '0');
    if s.len() >= width {
    } else {
        assert forall|i: int| 0 <= i < p.len() implies is_digit(#[trigger] p[i]) by {
            if i >= width - s.len() {
                assert(p[i] == s[i - (width - s.len())]);
            }
        }
        if s.len() == 0 {
            assert(p.drop_last() =~= pad_left(s, (width - 1) as nat, '0'));
            lemma_digits_value_padded(s, (width - 1) as nat);
            assert(p.last() == '0');
        } else {
            let t = s.drop_last();
            assert(all_digits(t));
            assert(p.drop_last() =~= pad_left(t, (width - 1) as nat, '0'));
            lemma_digits_value_padded(t, (width - 1) as nat);
            assert(p.last() == s.last());
        }
    }
}

/// Splitting goes part by part.
pub proof fn lemma_split_step(a: Seq<char>, c: char, b: Seq<char>)
    requires
        forall|i: int| 0 <= i < a.len() ==> a[i] != c,
    ensures
        split(a + seq![c] + b, c) == seq![a] + split(b, c),
{
    let s = a + seq![c] + b;
    lemma_index_of_char_is(s, c, a.len() as int);
    assert(s.take(a.len() as int) =~= a);
    assert(s.skip(a.len() as int + 1) =~= b);
}

/// A text without `c` is its only piece.
pub proof fn lemma_split_whole(a: Seq<char>, c: char)
    requires
        forall|i: int| 0 <= i < a.len() ==> a[i] != c,
    ensures
        split(a, c) == seq![a],
{
    lemma_index_of_char_is(a, c, a.len() as int);
}

/// A last piece without `c` comes after the others.
pub proof fn lemma_split_append(a: Seq<char>, c: char, b: Seq<char>)
    requires
        forall|i: int| 0 <= i < b.len() ==> b[i] != c,
    ensures
        split(a + seq![c] + b, c) == split(a, c).push(b),
    decreases a.len(),
{
    let s = a + seq![c] + b;
    let k = index_of_char(a, c);
    lemma_index_of_char(a, c);
    if k < a.len() {
        lemma_index_of_char_is(s, c, k);
        assert(s.take(k) =~= a.take(k));
        assert(s.skip(k + 1) =~= a.skip(k + 1) + seq![c] + b);
        lemma_split_append(a.skip(k + 1), c, b);
        assert(split(s, c) =~= split(a, c).push(b));
    } else {
        lemma_split_step(a, c, b);
        lemma_split_whole(b, c);
        lemma_split_whole(a, c);
        assert(split(s, c) =~= split(a, c).push(b));
    }
}

/// Joining parts that do not hold the separator and splitting again gives the
/// parts back.
pub proof fn lemma_split_join(parts: Seq<Seq<char>>, c: char)
    requires
        parts.len() > 0,
        forall|i: int, j: int|
            0 <= i < parts.len() && 0 <= j < parts[i].len() ==> (#[trigger] parts[i][j]) != c,
    ensures
        split(join(parts, seq![c]), c) == parts,
    decreases parts.len(),
{
    if parts.len() == 1 {
        assert forall|j: int| 0 <= j < parts[0].len() implies parts[0][j] != c by {}
        lemma_split_whole(parts[0], c);
        assert(seq![parts[0]] =~= parts);
    } else {
        let init = parts.drop_last();
        assert forall|i: int, j: int| 0 <= i < init.len() && 0 <= j < init[i].len() implies (
        #[trigger] init[i][j]) != c by {
            assert(parts[i][j] != c);
        }
        lemma_split_join(init, c);
        let last = parts.last();
        assert forall|j: int| 0 <= j < last.len() implies last[j] != c by {
            assert(parts[parts.len() - 1][j] != c);
        }
        lemma_split_append(join(init, seq![c]), c, last);
        assert(init.push(last) =~= parts);
    }
}

/// The number that `v[from..to]` spells: `None` if it is above `max`.
pub fn digits_number(v: &Vec<char>, from: usize, to: usize, max: u64) -> (r: Option<u64>)
    requires
        from <= to <= v@.len(),
        all_digits(v@.subrange(from as int, to as int)),
    ensures
        match r {
            Some(n) => n == digits_value(v@.subrange(from as int, to as int)) && n <= max,
            None => digits_value(v@.subrange(from as int, to as int)) > max,
        },
{
    let ghost all = v@.subrange(from as int, to as int);
    let mut n: u64 = 0;
    let mut i: usize = from;
    proof {
        assert(all.take(0) =~= Seq::<char>::empty());
    }
    while i < to
        invariant
            from <= i <= to <= v@.len(),
            all == v@.subrange(from as int, to as int),
            all_digits(all),
            n == digits_value(all.take(i - from)),
            n <= max,
        decreases to - i,
    {
        let ghost k = i - from;
        proof {
            assert(all[k] == v@[i as int]);
            assert(is_digit(all[k]));
            assert(all.take(k + 1).drop_last() =~= all.take(k));
            lemma_digits_value_take(all, k + 1);
        }
        let d: u64 = (v[i] as u32 - 48) as u64;
        if n > (u64::MAX - d) / 10 {
            return None;
        }
        n = n * 10 + d;
        if n > max {
            return None;
        }
        i = i + 1;
    }
    proof {
        assert(all.take(to - from) =~= all);
    }
    Some(n)
}

// ---------------------------------------------------------------------------
// Order
// ---------------------------------------------------------------------------

/// `a` stands before `b` in the order of their code points.
pub open spec fn text_less(a: Seq<char>, b: Seq<char>) -> bool
    decreases a.len(),
{
    if b.len() == 0 {
        false
    } else if a.len() == 0 {
        true
    } else if a[0] != b[0] {
        a[0] < b[0]
    } else {
        text_less(a.drop_first(), b.drop_first())
    }
}

/// One text stands before another where it is a beginning of it, or has the
/// smaller character at the first place at which they differ.
pub proof fn law_texts_are_in_dictionary_order(a: Seq<char>, b: Seq<char>, n: int)
    requires
        0 <= n <= a.len(),
        n <= b.len(),
        a.take(n) == b.take(n),
    ensures
        n == a.len() && n < b.len() ==> text_less(a, b),
        n == b.len() ==> !text_less(a, b),
        n < a.len() && n < b.len() && a[n] != b[n] ==> (text_less(a, b) <==> a[n] < b[n]),
    decreases n,
{
    if n > 0 {
        assert(a[0] == a.take(n)[0] && b[0] == b.take(n)[0]);
        assert(a.drop_first().take(n - 1) =~= a.take(n).drop_first());
        assert(b.drop_first().take(n - 1) =~= b.take(n).drop_first());
        law_texts_are_in_dictionary_order(a.drop_first(), b.drop_first(), n - 1);
    }
}

/// `text_less` never holds both ways, nor of a text and itself.
pub proof fn lemma_text_less_asymmetric(a: Seq<char>, b: Seq<char>)
    ensures
        !(text_less(a, b) && text_less(b, a)),
    decreases a.len(),
{
    if a.len() > 0 && b.len() > 0 && a[0] == b[0] {
        lemma_text_less_asymmetric(a.drop_first(), b.drop_first());
    }
}

pub proof fn lemma_text_less_transitive(a: Seq<char>, b: Seq<char>, c: Seq<char>)
    requires
        text_less(a, b),
        text_less(b, c),
    ensures
        text_less(a, c),
    decreases a.len(),
{
    if a.len() > 0 && a[0] == b[0] && b[0] == c[0] {
        lemma_text_less_transitive(a.drop_first(), b.drop_first(), c.drop_first());
    }
}

/// Of two different texts one stands before the other.
pub proof fn lemma_text_less_total(a: Seq<char>, b: Seq<char>)
    ensures
        text_less(a, b) || text_less(b, a) || a == b,
    decreases a.len(),
{
    if a.len() > 0 && b.len() > 0 {
        if a[0] == b[0] {
            lemma_text_less_total(a.drop_first(), b.drop_first());
            if a.drop_first() == b.drop_first() {
                assert(a =~= seq![a[0]] + a.drop_first());
                assert(b =~= seq![b[0]] + b.drop_first());
            }
        }
    } else if a.len() == 0 && b.len() == 0 {
        assert(a =~= b);
    }
}

/// Whether `a` stands before `b`.
pub fn less(a: &str, b: &str) -> (r: bool)
    ensures
        r == text_less(a@, b@),
{
    let x = chars_of(a);
    let y = chars_of(b);
    let mut i: usize = 0;
    proof {
        assert(a@.skip(0) =~= a@);
        assert(b@.skip(0) =~= b@);
    }
    while i < x.len() && i < y.len() && x[i] == y[i]
        invariant
            x@ == a@,
            y@ == b@,
            i <= x@.len(),
            i <= y@.len(),
            text_less(a@, b@) == text_less(a@.skip(i as int), b@.skip(i as int)),
        decreases x@.len() - i,
    {
        proof {
            assert(a@.skip(i as int).drop_first() =~= a@.skip(i as int + 1));
            assert(b@.skip(i as int).drop_first() =~= b@.skip(i as int + 1));
        }
        i = i + 1;
    }
    if i == y.len() {
        false
    } else if i == x.len() {
        true
    } else {
        x[i] < y[i]
    }
}

} // verus!
