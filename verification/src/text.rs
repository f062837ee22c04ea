use vstd::prelude::*;
use vstd::utf8::is_ascii_chars;

verus! {

/// Appends `c` to `s` through `String::push`, which the standard library
/// documents as appending the given char to the end of the string.
#[verifier::external_body]
pub(crate) fn push_char(s: &mut String, c: char)
    ensures
        final(s)@ == old(s)@.push(c),
{
    s.push(c);
}

/// The characters of `s`, in order.
pub fn chars_of(s: &str) -> (res: Vec<char>)
    ensures
        res@ == s@,
{
    let mut res: Vec<char> = Vec::new();
    for c in it: s.chars()
        invariant
            res@ == it.seq().take(it.index() as int),
    {
        res.push(c);
    }
    res
}

/// Appends every character of `t` to `s`.
pub fn push_str(s: &mut String, t: &str)
    ensures
        final(s)@ == old(s)@ + t@,
{
    let ghost start = s@;
    for c in it: t.chars()
        invariant
            s@ == start + it.seq().take(it.index() as int),
    {
        proof {
            assert(it.seq().take(it.index() + 1) =~= it.seq().take(it.index() as int).push(c));
        }
        push_char(s, c);
    }
}

/// Whether two strings hold the same characters.
pub fn same_text(a: &str, b: &str) -> (res: bool)
    ensures
        res == (a@ == b@),
{
    let x = chars_of(a);
    let y = chars_of(b);
    if x.len() != y.len() {
        return false;
    }
    let mut i: usize = 0;
    while i < x.len()
        invariant
            x@ == a@,
            y@ == b@,
            x.len() == y.len(),
            i <= x.len(),
            forall|j: int| 0 <= j < i ==> x@[j] == y@[j],
        decreases x.len() - i,
    {
        if x[i] != y[i] {
            return false;
        }
        i = i + 1;
    }
    proof {
        assert(a@ =~= b@);
    }
    true
}

/// `s` ends with `suffix`.
pub open spec fn has_suffix(s: Seq<char>, suffix: Seq<char>) -> bool {
    suffix.len() <= s.len() && s.subrange(s.len() - suffix.len(), s.len() as int) == suffix
}

/// Whether `s` ends with `suffix`.
pub fn ends_with(s: &str, suffix: &str) -> (res: bool)
    ensures
        res == has_suffix(s@, suffix@),
{
    let x = chars_of(s);
    let y = chars_of(suffix);
    if y.len() > x.len() {
        return false;
    }
    let off: usize = x.len() - y.len();
    let mut i: usize = 0;
    while i < y.len()
        invariant
            x@ == s@,
            y@ == suffix@,
            off + y.len() == x.len(),
            i <= y.len(),
            forall|j: int| 0 <= j < i ==> x@[off + j] == y@[j],
        decreases y.len() - i,
    {
        if x[off + i] != y[i] {
            proof {
                assert(s@.subrange(off as int, s@.len() as int)[i as int] == x@[off + i]);
            }
            return false;
        }
        i = i + 1;
    }
    proof {
        assert(s@.subrange(off as int, s@.len() as int) =~= suffix@);
    }
    true
}

/// The decimal digit for `d`, which is below ten.
pub open spec fn digit_char(d: nat) -> char {
    if d == 0 { '0' }
    else if d == 1 { '1' }
    else if d == 2 { '2' }
    else if d == 3 { '3' }
    else if d == 4 { '4' }
    else if d == 5 { '5' }
    else if d == 6 { '6' }
    else if d == 7 { '7' }
    else if d == 8 { '8' }
    else { '9' }
}

/// The decimal notation of `n`: its digits, most significant first, with no
/// leading zero.
pub open spec fn decimal(n: nat) -> Seq<char>
    decreases n,
{
    if n < 10 {
        seq![digit_char(n)]
    } else {
        decimal(n / 10).push(digit_char(n % 10))
    }
}

/// The number that a run of decimal digits stands for.
pub open spec fn digits_value(s: Seq<char>) -> int
    decreases s.len(),
{
    if s.len() == 0 {
        0
    } else {
        digits_value(s.drop_last()) * 10 + (s.last() as int - '0' as int)
    }
}

/// The decimal notation of a number is made of the digits `0` to `9`, has
/// no leading zero unless it is the single digit `0`, and reads back as
/// that number.
pub proof fn law_decimal_reads_back(n: nat)
    ensures
        decimal(n).len() >= 1,
        n >= 10 ==> decimal(n).len() > 1,
        forall|i: int| 0 <= i < decimal(n).len() ==> '0' <= #[trigger] decimal(n)[i] <= '9',
        decimal(n).len() > 1 ==> decimal(n)[0] != '0',
        digits_value(decimal(n)) == n,
    decreases n,
{
    let d = decimal(n);
    if n < 10 {
        assert(d.drop_last() =~= Seq::<char>::empty());
        assert(d.last() == digit_char(n));
        assert(digit_char(n) as int - '0' as int == n);
        assert(digits_value(d.drop_last()) == 0);
    } else {
        let q = n / 10;
        let r = n % 10;
        assert(q >= 1 && n == q * 10 + r && r < 10) by (nonlinear_arith)
            requires
                n >= 10,
                q == n / 10,
                r == n % 10,
        ;
        law_decimal_reads_back(q);
        assert(d.drop_last() =~= decimal(q));
        assert(d.last() == digit_char(r));
        assert(digit_char(r) as int - '0' as int == r);
        assert(d[0] == decimal(q)[0]);
        if q < 10 {
            assert(decimal(q)[0] == digit_char(q));
        }
        assert forall|i: int| 0 <= i < d.len() implies '0' <= #[trigger] d[i] <= '9' by {
            if i < d.len() - 1 {
                assert(d[i] == decimal(q)[i]);
            }
        }
        assert(digits_value(d) == digits_value(decimal(q)) * 10 + (d.last() as int - '0' as int));
    }
}

fn digit(d: u64) -> (c: char)
    requires
        d < 10,
    ensures
        c == digit_char(d as nat),
{
    if d == 0 { '0' }
    else if d == 1 { '1' }
    else if d == 2 { '2' }
    else if d == 3 { '3' }
    else if d == 4 { '4' }
    else if d == 5 { '5' }
    else if d == 6 { '6' }
    else if d == 7 { '7' }
    else if d == 8 { '8' }
    else { '9' }
}

/// The decimal notation of `n`, as `format!("{}", n)` writes it.
pub fn u64_to_decimal(n: u64) -> (res: String)
    ensures
        res@ == decimal(n as nat),
    decreases n,
{
    if n < 10 {
        let mut s = String::new();
        push_char(&mut s, digit(n));
        proof {
            assert(s@ =~= decimal(n as nat));
        }
        s
    } else {
        let mut s = u64_to_decimal(n / 10);
        push_char(&mut s, digit(n % 10));
        s
    }
}

/// The decimal notation of `n`, with a leading `-` when it is negative.
pub open spec fn signed_decimal(n: int) -> Seq<char> {
    if n < 0 {
        seq!['-'] + decimal((-n) as nat)
    } else {
        decimal(n as nat)
    }
}

/// The decimal notation of `n`, as `format!("{}", n)` writes it.
pub fn i64_to_decimal(n: i64) -> (res: String)
    ensures
        res@ == signed_decimal(n as int),
{
    if n < 0 {
        let mut s = String::new();
        push_char(&mut s, '-');
        let magnitude: u64 = if n == i64::MIN {
            9223372036854775808u64
        } else {
            (-n) as u64
        };
        let digits = u64_to_decimal(magnitude);
        push_str(&mut s, digits.as_str());
        s
    } else {
        u64_to_decimal(n as u64)
    }
}

}

verus! {

/// What `escape_html` writes in place of one character.
pub open spec fn escape_char(c: char) -> Seq<char> {
    if c == '&' {
        seq!['&', 'a', 'm', 'p', ';']
    } else if c == '<' {
        seq!['&', 'l', 't', ';']
    } else if c == '>' {
        seq!['&', 'g', 't', ';']
    } else {
        seq![c]
    }
}

/// `s` with every `&`, `<` and `>` written as the HTML entities
/// `&amp;`, `&lt;` and `&gt;`, and every other character kept.
pub open spec fn escaped(s: Seq<char>) -> Seq<char>
    decreases s.len(),
{
    if s.len() == 0 {
        Seq::empty()
    } else {
        escaped(s.drop_last()) + escape_char(s.last())
    }
}

proof fn lemma_escaped_has_no_angle_brackets(s: Seq<char>)
    ensures
        forall|i: int| 0 <= i < escaped(s).len() ==> escaped(s)[i] != '<' && escaped(s)[i] != '>',
    decreases s.len(),
{
    if s.len() > 0 {
        lemma_escaped_has_no_angle_brackets(s.drop_last());
        let a = escaped(s.drop_last());
        let b = escape_char(s.last());
        assert forall|i: int| 0 <= i < escaped(s).len() implies escaped(s)[i] != '<'
            && escaped(s)[i] != '>' by {
            if i >= a.len() {
                assert(escaped(s)[i] == b[i - a.len()]);
            } else {
                assert(escaped(s)[i] == a[i]);
            }
        }
    }
}

/// Reads HTML entities back, scanning left to right: `&lt;` gives `<`,
/// `&gt;` gives `>`, `&amp;` gives `&`, and every other character stands
/// for itself.
pub open spec fn unescaped(s: Seq<char>) -> Seq<char>
    decreases s.len(),
{
    if s.len() == 0 {
        Seq::empty()
    } else if s.len() >= 4 && s.take(4) == seq!['&', 'l', 't', ';'] {
        seq!['<'] + unescaped(s.skip(4))
    } else if s.len() >= 4 && s.take(4) == seq!['&', 'g', 't', ';'] {
        seq!['>'] + unescaped(s.skip(4))
    } else if s.len() >= 5 && s.take(5) == seq!['&', 'a', 'm', 'p', ';'] {
        seq!['&'] + unescaped(s.skip(5))
    } else {
        seq![s[0]] + unescaped(s.drop_first())
    }
}

proof fn lemma_escaped_concat(a: Seq<char>, b: Seq<char>)
    ensures
        escaped(a + b) == escaped(a) + escaped(b),
    decreases b.len(),
{
    if b.len() == 0 {
        assert(a + b =~= a);
        assert(escaped(a) + escaped(b) =~= escaped(a));
    } else {
        lemma_escaped_concat(a, b.drop_last());
        assert((a + b).drop_last() =~= a + b.drop_last());
        assert((a + b).last() == b.last());
        assert(escaped(a) + escaped(b) =~= escaped(a) + escaped(b.drop_last()) + escape_char(
            b.last(),
        ));
    }
}

proof fn lemma_escaped_first(s: Seq<char>)
    requires
        s.len() > 0,
    ensures
        escaped(s) == escape_char(s[0]) + escaped(s.drop_first()),
{
    assert(s =~= seq![s[0]] + s.drop_first());
    lemma_escaped_concat(seq![s[0]], s.drop_first());
    let one = seq![s[0]];
    assert(one.drop_last() =~= Seq::<char>::empty());
    assert(escaped(one.drop_last()) == Seq::<char>::empty());
    assert(one.last() == s[0]);
    assert(escaped(one) == escaped(one.drop_last()) + escape_char(one.last()));
    assert(escaped(one) =~= escape_char(s[0]));
}

/// Reading the entities of an escaped text back gives the text itself.
pub proof fn law_unescape_inverts_escape(s: Seq<char>)
    ensures
        unescaped(escaped(s)) == s,
    decreases s.len(),
{
    if s.len() > 0 {
        let c = s[0];
        let rest = escaped(s.drop_first());
        let e = escaped(s);
        lemma_escaped_first(s);
        law_unescape_inverts_escape(s.drop_first());
        let chunk = escape_char(c);
        assert(e == chunk + rest);
        if c == '&' {
            assert(e.take(4)[1] == 'a');
            assert(e.take(5) =~= seq!['&', 'a', 'm', 'p', ';']);
            assert(e.skip(5) =~= rest);
        } else if c == '<' {
            assert(e.take(4) =~= seq!['&', 'l', 't', ';']);
            assert(e.skip(4) =~= rest);
        } else if c == '>' {
            assert(e.take(4)[1] == 'g');
            assert(e.take(4) =~= seq!['&', 'g', 't', ';']);
            assert(e.skip(4) =~= rest);
        } else {
            assert(e[0] == c);
            if e.len() >= 4 {
                assert(e.take(4)[0] == c);
            }
            if e.len() >= 5 {
                assert(e.take(5)[0] == c);
            }
            assert(e.drop_first() =~= rest);
        }
        assert(seq![c] + s.drop_first() =~= s);
    }
}

/// Escaping never maps two different texts to the same text.
pub proof fn law_escape_is_injective(a: Seq<char>, b: Seq<char>)
    requires
        escaped(a) == escaped(b),
    ensures
        a == b,
{
    law_unescape_inverts_escape(a);
    law_unescape_inverts_escape(b);
}

/// Escapes `&`, `<` and `>` in `input` for HTML text, as the listing page
/// shows file names.
pub fn escape_html(input: &str) -> (res: String)
    ensures
        res@ == escaped(input@),
        forall|i: int| 0 <= i < res@.len() ==> res@[i] != '<' && res@[i] != '>',
{
    let mut res = String::new();
    for c in it: input.chars()
        invariant
            it.seq() == input@,
            res@ == escaped(input@.take(it.index() as int)),
    {
        let ghost before = input@.take(it.index() as int);
        if c == '&' {
            push_char(&mut res, '&');
            push_char(&mut res, 'a');
            push_char(&mut res, 'm');
            push_char(&mut res, 'p');
            push_char(&mut res, ';');
        } else if c == '<' {
            push_char(&mut res, '&');
            push_char(&mut res, 'l');
            push_char(&mut res, 't');
            push_char(&mut res, ';');
        } else if c == '>' {
            push_char(&mut res, '&');
            push_char(&mut res, 'g');
            push_char(&mut res, 't');
            push_char(&mut res, ';');
        } else {
            push_char(&mut res, c);
        }
        proof {
            let after = input@.take(it.index() + 1);
            assert(after.drop_last() =~= before);
            assert(res@ =~= escaped(before) + escape_char(c));
        }
    }
    proof {
        assert(input@.take(input@.len() as int) =~= input@);
        lemma_escaped_has_no_angle_brackets(input@);
    }
    res
}

/// `c` in ASCII lower case: `A` to `Z` become `a` to `z`, every other
/// character is kept.
pub open spec fn ascii_lower_char(c: char) -> char {
    if 'A' <= c <= 'Z' {
        ((c as u32) + 32) as char
    } else {
        c
    }
}

/// `c` in ASCII upper case: `a` to `z` become `A` to `Z`, every other
/// character is kept.
pub open spec fn ascii_upper_char(c: char) -> char {
    if 'a' <= c <= 'z' {
        ((c as u32) - 32) as char
    } else {
        c
    }
}

/// `s` in ASCII lower case.
pub open spec fn ascii_lower(s: Seq<char>) -> Seq<char> {
    s.map_values(|c: char| ascii_lower_char(c))
}

/// `s` in ASCII upper case.
pub open spec fn ascii_upper(s: Seq<char>) -> Seq<char> {
    s.map_values(|c: char| ascii_upper_char(c))
}

/// What `str::to_lowercase` gives for the characters of its argument: the
/// lowercase mapping of Unicode, which depends on nothing but the argument.
pub uninterp spec fn unicode_lowercase(s: Seq<char>) -> Seq<char>;

/// The lowercase form of `s`, as `str::to_lowercase` gives it: for ASCII
/// text its ASCII lower case, else the Unicode mapping named above.
pub open spec fn lowercase(s: Seq<char>) -> Seq<char> {
    if is_ascii_chars(s) {
        ascii_lower(s)
    } else {
        unicode_lowercase(s)
    }
}

/// Calls `str::to_lowercase`; its result is named `unicode_lowercase` of the
/// argument's characters. The standard library documents that it
/// lowercases ASCII characters as `to_ascii_lowercase` does (`A`–`Z` to
/// `a`–`z`) in addition to non-ASCII ones, so for ASCII text the result is
/// its ASCII lower case. Nothing more is claimed of non-ASCII text.
#[verifier::external_body]
pub(crate) fn to_lowercase(s: &str) -> (res: String)
    ensures
        res@ == unicode_lowercase(s@),
        is_ascii_chars(s@) ==> res@ == ascii_lower(s@),
{
    s.to_lowercase()
}

/// Whether `c` is one of the separators that are stripped from the front of
/// a requested directory path.
pub open spec fn is_separator(c: char) -> bool {
    c == '/' || c == '\\'
}

/// How many separators stand at the front of `s`.
pub open spec fn leading_separators(s: Seq<char>) -> nat
    decreases s.len(),
{
    if s.len() > 0 && is_separator(s[0]) {
        1 + leading_separators(s.drop_first())
    } else {
        0
    }
}

proof fn lemma_leading_separators_count(s: Seq<char>, k: int)
    requires
        0 <= k <= s.len(),
        forall|i: int| 0 <= i < k ==> is_separator(#[trigger] s[i]),
        k < s.len() ==> !is_separator(s[k]),
    ensures
        leading_separators(s) == k,
    decreases s.len(),
{
    if k > 0 {
        assert(is_separator(s[0]));
        assert forall|i: int| 0 <= i < k - 1 implies is_separator(#[trigger] s.drop_first()[i]) by {
            assert(s.drop_first()[i] == s[i + 1]);
        }
        lemma_leading_separators_count(s.drop_first(), k - 1);
    }
}

/// Trimming takes off exactly the run of `/` and `\` characters at the
/// front of a path: every character it takes off is one of them, and what
/// is left does not start with either; a path that starts with any other
/// character is kept whole.
pub proof fn law_trim_takes_only_slashes(s: Seq<char>)
    ensures
        ({
            let k = leading_separators(s) as int;
            &&& 0 <= k <= s.len()
            &&& forall|i: int| 0 <= i < k ==> #[trigger] s[i] == '/' || s[i] == '\\'
            &&& k < s.len() ==> s[k] != '/' && s[k] != '\\'
            &&& s.len() > 0 && s[0] != '/' && s[0] != '\\' ==> s.skip(k) == s
        }),
    decreases s.len(),
{
    if s.len() > 0 && is_separator(s[0]) {
        law_trim_takes_only_slashes(s.drop_first());
        assert forall|i: int| 0 <= i < leading_separators(s) implies #[trigger] s[i] == '/' || s[i]
            == '\\' by {
            if i > 0 {
                assert(s[i] == s.drop_first()[i - 1]);
            }
        }
    } else {
        assert(s.skip(0) =~= s);
    }
}

/// `s` without the `/` and `\` characters at its front, as
/// `trim_start_matches(&['/', '\\'][..])` gives it.
pub fn trim_leading_separators(s: &str) -> (res: &str)
    ensures
        res@ == s@.skip(leading_separators(s@) as int),
{
    let cs = chars_of(s);
    let mut k: usize = 0;
    while k < cs.len() && (cs[k] == '/' || cs[k] == '\\')
        invariant
            cs@ == s@,
            k <= cs.len(),
            forall|i: int| 0 <= i < k ==> is_separator(#[trigger] s@[i]),
        decreases cs.len() - k,
    {
        k = k + 1;
    }
    proof {
        lemma_leading_separators_count(s@, k as int);
    }
    s.substring_char(k, cs.len())
}

}
