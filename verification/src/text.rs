//! Character-level helpers shared by the normalizers: trimming, ASCII case
//! handling, the fuzzy-text normal form, and lexicographic order.
use vstd::prelude::*;

verus! {

// ---------------------------------------------------------------------------
// Unicode character classes, as the standard library computes them.
// ---------------------------------------------------------------------------

/// Whether a character has the Unicode `White_Space` property, the set that
/// `char::is_whitespace` tests.
pub open spec fn char_white_space(c: char) -> bool {
    let u = c as u32;
    ||| 0x09 <= u <= 0x0d
    ||| u == 0x20
    ||| u == 0x85
    ||| u == 0xa0
    ||| u == 0x1680
    ||| 0x2000 <= u <= 0x200a
    ||| u == 0x2028
    ||| u == 0x2029
    ||| u == 0x202f
    ||| u == 0x205f
    ||| u == 0x3000
}

/// Whether a character is in the general category `Cc`, the set that
/// `char::is_control` tests.
pub open spec fn char_control(c: char) -> bool {
    let u = c as u32;
    u <= 0x1f || 0x7f <= u <= 0x9f
}

/// Whether `char::is_alphanumeric` holds of a character.
pub uninterp spec fn char_alphanumeric(c: char) -> bool;

/// The characters that `char::to_lowercase` yields for a character.
pub uninterp spec fn char_lowercase(c: char) -> Seq<char>;

/// Whether a character has the Unicode `White_Space` property (what
/// `char::is_whitespace` tests).
pub(crate) fn is_whitespace(c: char) -> (b: bool)
    ensures
        b == char_white_space(c),
{
    let u = c as u32;
    (0x09 <= u && u <= 0x0d) || u == 0x20 || u == 0x85 || u == 0xa0 || u == 0x1680 || (0x2000 <= u && u <= 0x200a) || u
        == 0x2028 || u == 0x2029 || u == 0x202f || u == 0x205f || u == 0x3000
}

/// Whether a character is in the general category `Cc` (what
/// `char::is_control` tests).
pub(crate) fn is_control(c: char) -> (b: bool)
    ensures
        b == char_control(c),
{
    let u = c as u32;
    u <= 0x1f || (0x7f <= u && u <= 0x9f)
}

/// Calls `char::is_alphanumeric` (Unicode `Alphabetic` or `Numeric`); the result is named.
#[verifier::external_body]
pub(crate) fn is_alphanumeric(c: char) -> (b: bool)
    ensures
        b == char_alphanumeric(c),
{
    c.is_alphanumeric()
}

/// Collects what `char::to_lowercase` yields for `c`; the result is named.
#[verifier::external_body]
pub(crate) fn to_lowercase(c: char) -> (v: Vec<char>)
    ensures
        v@ == char_lowercase(c),
{
    c.to_lowercase().collect()
}

/// Appends one character to a string (`String::push`).
#[verifier::external_body]
pub(crate) fn push_char(s: &mut String, c: char)
    ensures
        final(s)@ == old(s)@.push(c),
{
    s.push(c);
}

// ---------------------------------------------------------------------------
// Conversions between strings and character vectors.
// ---------------------------------------------------------------------------

/// The characters of a string slice, in order.
pub fn chars_of(s: &str) -> (v: Vec<char>)
    ensures
        v@ == s@,
{
    let mut v: Vec<char> = Vec::new();
    for c in it: s.chars()
        invariant
            v@ == it.seq().take(it.index() as int),
    {
        v.push(c);
    }
    v
}

/// Builds a string from a slice of characters.
pub fn string_of(v: &[char]) -> (s: String)
    ensures
        s@ == v@,
{
    let mut s = String::new();
    let mut i: usize = 0;
    while i < v.len()
        invariant
            i <= v.len(),
            s@ == v@.take(i as int),
        decreases v.len() - i,
    {
        push_char(&mut s, v[i]);
        assert(v@.take(i + 1) == v@.take(i as int).push(v@[i as int]));
        i = i + 1;
    }
    assert(v@.take(v.len() as int) == v@);
    s
}

/// Copies a subrange of a character slice.
pub fn slice_chars(v: &[char], from: usize, to: usize) -> (r: Vec<char>)
    requires
        from <= to <= v.len(),
    ensures
        r@ == v@.subrange(from as int, to as int),
{
    let mut r: Vec<char> = Vec::new();
    let mut i = from;
    while i < to
        invariant
            from <= i <= to <= v.len(),
            r@ == v@.subrange(from as int, i as int),
        decreases to - i,
    {
        r.push(v[i]);
        assert(v@.subrange(from as int, i + 1) == v@.subrange(from as int, i as int).push(v@[i as int]));
        i = i + 1;
    }
    r
}

/// Whether two character slices hold the same characters.
pub fn chars_equal(a: &[char], b: &[char]) -> (r: bool)
    ensures
        r == (a@ == b@),
{
    if a.len() != b.len() {
        return false;
    }
    let mut i: usize = 0;
    while i < a.len()
        invariant
            a.len() == b.len(),
            i <= a.len(),
            forall|k: int| 0 <= k < i ==> a@[k] == b@[k],
        decreases a.len() - i,
    {
        if a[i] != b[i] {
            return false;
        }
        i = i + 1;
    }
    assert(a@ =~= b@);
    true
}

/// Whether a string equals a character sequence given as a slice.
pub fn str_equals_chars(s: &str, v: &[char]) -> (r: bool)
    ensures
        r == (s@ == v@),
{
    let c = chars_of(s);
    chars_equal(c.as_slice(), v)
}

/// Whether two strings are equal.
pub fn str_equal(a: &str, b: &str) -> (r: bool)
    ensures
        r == (a@ == b@),
{
    let ac = chars_of(a);
    let bc = chars_of(b);
    chars_equal(ac.as_slice(), bc.as_slice())
}

/// Whether `c` occurs in the slice.
pub fn contains_char(v: &[char], c: char) -> (r: bool)
    ensures
        r == v@.contains(c),
{
    let mut i: usize = 0;
    while i < v.len()
        invariant
            i <= v.len(),
            forall|k: int| 0 <= k < i ==> v@[k] != c,
        decreases v.len() - i,
    {
        if v[i] == c {
            assert(v@[i as int] == c);
            return true;
        }
        i = i + 1;
    }
    false
}

// ---------------------------------------------------------------------------
// Trimming and control characters.
// ---------------------------------------------------------------------------

/// `s` without leading whitespace.
pub open spec fn trim_start(s: Seq<char>) -> Seq<char>
    decreases s.len(),
{
    if s.len() > 0 && char_white_space(s[0]) {
        trim_start(s.drop_first())
    } else {
        s
    }
}

/// `s` without trailing whitespace.
pub open spec fn trim_end(s: Seq<char>) -> Seq<char>
    decreases s.len(),
{
    if s.len() > 0 && char_white_space(s.last()) {
        trim_end(s.drop_last())
    } else {
        s
    }
}

/// `s` without leading or trailing whitespace, as `str::trim` returns it.
pub open spec fn trim(s: Seq<char>) -> Seq<char> {
    trim_end(trim_start(s))
}

/// Whether some character of `s` is a control character.
pub open spec fn has_control(s: Seq<char>) -> bool {
    exists|i: int| 0 <= i < s.len() && char_control(#[trigger] s[i])
}

proof fn lemma_trim_start_skip(s: Seq<char>, i: int)
    requires
        0 <= i <= s.len(),
        forall|k: int| 0 <= k < i ==> char_white_space(#[trigger] s[k]),
    ensures
        trim_start(s) == trim_start(s.subrange(i, s.len() as int)),
    decreases i,
{
    if i > 0 {
        assert(s.drop_first().subrange(i - 1, s.drop_first().len() as int) =~= s.subrange(i, s.len() as int));
        assert forall|k: int| 0 <= k < i - 1 implies char_white_space(#[trigger] s.drop_first()[k]) by {
            assert(s.drop_first()[k] == s[k + 1]);
        }
        lemma_trim_start_skip(s.drop_first(), i - 1);
        assert(char_white_space(s[0]));
    } else {
        assert(s.subrange(0, s.len() as int) =~= s);
    }
}

proof fn lemma_trim_end_skip(s: Seq<char>, j: int)
    requires
        0 <= j <= s.len(),
        forall|k: int| j <= k < s.len() ==> char_white_space(#[trigger] s[k]),
    ensures
        trim_end(s) == trim_end(s.subrange(0, j)),
    decreases s.len() - j,
{
    if j < s.len() {
        assert(s.drop_last().subrange(0, j) =~= s.subrange(0, j));
        assert forall|k: int| j <= k < s.drop_last().len() implies char_white_space(#[trigger] s.drop_last()[k]) by {
            assert(s.drop_last()[k] == s[k]);
        }
        lemma_trim_end_skip(s.drop_last(), j);
        assert(char_white_space(s.last()));
    } else {
        assert(s.subrange(0, j) =~= s);
    }
}

/// `value` without leading or trailing whitespace.
pub fn trim_chars(v: &[char]) -> (r: Vec<char>)
    ensures
        r@ == trim(v@),
{
    let mut i: usize = 0;
    while i < v.len() && is_whitespace(v[i])
        invariant
            i <= v.len(),
            forall|k: int| 0 <= k < i ==> char_white_space(#[trigger] v@[k]),
        decreases v.len() - i,
    {
        i = i + 1;
    }
    proof {
        lemma_trim_start_skip(v@, i as int);
    }
    let ghost start = v@.subrange(i as int, v.len() as int);
    assert(trim_start(start) == start);
    let mut j: usize = v.len();
    while j > i && is_whitespace(v[j - 1])
        invariant
            i <= j <= v.len(),
            forall|k: int| j <= k < v.len() ==> char_white_space(#[trigger] v@[k]),
        decreases j,
    {
        j = j - 1;
    }
    proof {
        assert forall|k: int| j - i <= k < start.len() implies char_white_space(#[trigger] start[k]) by {
            assert(start[k] == v@[k + i]);
        }
        lemma_trim_end_skip(start, j - i);
        assert(start.subrange(0, j - i) =~= v@.subrange(i as int, j as int));
        let t = v@.subrange(i as int, j as int);
        if t.len() > 0 {
            assert(t.last() == v@[j - 1]);
        }
    }
    slice_chars(v, i, j)
}

/// `value` trimmed, as a string.
pub fn trim_str(value: &str) -> (r: String)
    ensures
        r@ == trim(value@),
{
    let v = chars_of(value);
    let t = trim_chars(v.as_slice());
    string_of(t.as_slice())
}

/// Whether some character of the slice is a control character.
pub fn any_control(v: &[char]) -> (r: bool)
    ensures
        r == has_control(v@),
{
    let mut i: usize = 0;
    while i < v.len()
        invariant
            i <= v.len(),
            forall|k: int| 0 <= k < i ==> !char_control(#[trigger] v@[k]),
        decreases v.len() - i,
    {
        if is_control(v[i]) {
            assert(char_control(v@[i as int]));
            return true;
        }
        i = i + 1;
    }
    false
}

// ---------------------------------------------------------------------------
// ASCII case.
// ---------------------------------------------------------------------------

/// The ASCII upper-case form of a character; others are unchanged.
pub open spec fn ascii_upper(c: char) -> char {
    if 'a' <= c && c <= 'z' {
        ((c as u32) - 32) as char
    } else {
        c
    }
}

/// The ASCII lower-case form of a character; others are unchanged.
pub open spec fn ascii_lower(c: char) -> char {
    if 'A' <= c && c <= 'Z' {
        ((c as u32) + 32) as char
    } else {
        c
    }
}

/// Upper-cases a character if it is an ASCII letter.
pub fn to_ascii_upper(c: char) -> (r: char)
    ensures
        r == ascii_upper(c),
{
    if 'a' <= c && c <= 'z' {
        let n: u32 = c as u32 - 32;
        char_from_ascii(n)
    } else {
        c
    }
}

/// Lower-cases a character if it is an ASCII letter.
pub fn to_ascii_lower(c: char) -> (r: char)
    ensures
        r == ascii_lower(c),
{
    if 'A' <= c && c <= 'Z' {
        let n: u32 = c as u32 + 32;
        char_from_ascii(n)
    } else {
        c
    }
}

/// The character with an ASCII code.
pub fn char_from_ascii(n: u32) -> (c: char)
    requires
        n < 128,
    ensures
        c == n as char,
        c as u32 == n,
{
    let b: u8 = n as u8;
    b as char
}

/// `s` with every ASCII letter upper-cased (`str::to_ascii_uppercase`).
pub open spec fn ascii_upper_all(s: Seq<char>) -> Seq<char> {
    Seq::new(s.len(), |i: int| ascii_upper(s[i]))
}

/// `s` with every ASCII letter lower-cased (`str::to_ascii_lowercase`).
pub open spec fn ascii_lower_all(s: Seq<char>) -> Seq<char> {
    Seq::new(s.len(), |i: int| ascii_lower(s[i]))
}

/// Upper-cases the ASCII letters of a character slice.
pub fn upper_ascii_chars(v: &[char]) -> (r: Vec<char>)
    ensures
        r@ == ascii_upper_all(v@),
{
    let mut r: Vec<char> = Vec::new();
    let mut i: usize = 0;
    while i < v.len()
        invariant
            i <= v.len(),
            r@ =~= ascii_upper_all(v@.take(i as int)),
        decreases v.len() - i,
    {
        r.push(to_ascii_upper(v[i]));
        i = i + 1;
        assert(r@ =~= ascii_upper_all(v@.take(i as int)));
    }
    assert(v@.take(v.len() as int) =~= v@);
    r
}

/// Lower-cases the ASCII letters of a character slice.
pub fn lower_ascii_chars(v: &[char]) -> (r: Vec<char>)
    ensures
        r@ == ascii_lower_all(v@),
{
    let mut r: Vec<char> = Vec::new();
    let mut i: usize = 0;
    while i < v.len()
        invariant
            i <= v.len(),
            r@ =~= ascii_lower_all(v@.take(i as int)),
        decreases v.len() - i,
    {
        r.push(to_ascii_lower(v[i]));
        i = i + 1;
        assert(r@ =~= ascii_lower_all(v@.take(i as int)));
    }
    assert(v@.take(v.len() as int) =~= v@);
    r
}

/// Whether `s` begins with `prefix`, ignoring ASCII case.
pub open spec fn starts_with_ignoring_ascii_case(s: Seq<char>, prefix: Seq<char>) -> bool {
    &&& prefix.len() <= s.len()
    &&& forall|i: int| 0 <= i < prefix.len() ==> ascii_lower(#[trigger] s[i]) == ascii_lower(prefix[i])
}

/// Whether `v` begins with `prefix`, ignoring ASCII case.
pub fn starts_with_ignore_ascii_case(v: &[char], prefix: &[char]) -> (r: bool)
    ensures
        r == starts_with_ignoring_ascii_case(v@, prefix@),
{
    if prefix.len() > v.len() {
        return false;
    }
    let mut i: usize = 0;
    while i < prefix.len()
        invariant
            prefix.len() <= v.len(),
            i <= prefix.len(),
            forall|k: int| 0 <= k < i ==> ascii_lower(#[trigger] v@[k]) == ascii_lower(prefix@[k]),
        decreases prefix.len() - i,
    {
        if to_ascii_lower(v[i]) != to_ascii_lower(prefix[i]) {
            return false;
        }
        i = i + 1;
    }
    true
}

/// Whether `s` begins with `prefix`.
pub open spec fn has_prefix(s: Seq<char>, prefix: Seq<char>) -> bool {
    prefix.len() <= s.len() && s.subrange(0, prefix.len() as int) == prefix
}

/// Whether `v` begins with `prefix`.
pub fn starts_with(v: &[char], prefix: &[char]) -> (r: bool)
    ensures
        r == has_prefix(v@, prefix@),
{
    if prefix.len() > v.len() {
        return false;
    }
    let mut i: usize = 0;
    while i < prefix.len()
        invariant
            prefix.len() <= v.len(),
            i <= prefix.len(),
            forall|k: int| 0 <= k < i ==> v@[k] == prefix@[k],
        decreases prefix.len() - i,
    {
        if v[i] != prefix[i] {
            assert(v@.subrange(0, prefix.len() as int)[i as int] != prefix@[i as int]);
            return false;
        }
        i = i + 1;
    }
    assert(v@.subrange(0, prefix.len() as int) =~= prefix@);
    true
}

// ---------------------------------------------------------------------------
// The normal form of fuzzy text evidence.
// ---------------------------------------------------------------------------

/// Every character of `s` replaced by its lower-case expansion.
pub open spec fn lowercase_all(s: Seq<char>) -> Seq<char>
    decreases s.len(),
{
    if s.len() == 0 {
        seq![]
    } else {
        lowercase_all(s.drop_last()) + char_lowercase(s.last())
    }
}

/// Scans `s`, keeping alphanumeric characters and collapsing every run of
/// other characters between two kept characters into one space. The flag
/// records whether a separator is pending.
pub open spec fn collapse_words(s: Seq<char>) -> (Seq<char>, bool)
    decreases s.len(),
{
    if s.len() == 0 {
        (seq![], false)
    } else {
        let (out, pending) = collapse_words(s.drop_last());
        let c = s.last();
        if char_alphanumeric(c) {
            let spaced = if pending && out.len() > 0 { out.push(' ') } else { out };
            (spaced.push(c), false)
        } else {
            (out, true)
        }
    }
}

/// The normal form used for fuzzy comparison: trimmed, lower-cased, with
/// alphanumeric words joined by single spaces.
pub open spec fn normal_text(s: Seq<char>) -> Seq<char> {
    collapse_words(lowercase_all(trim(s))).0
}

/// Computes the normal form of fuzzy text evidence.
pub fn normalize_text(value: &str) -> (r: Vec<char>)
    ensures
        r@ == normal_text(value@),
{
    let all = chars_of(value);
    let t = trim_chars(all.as_slice());
    let mut out: Vec<char> = Vec::new();
    let mut pending = false;
    let mut i: usize = 0;
    while i < t.len()
        invariant
            i <= t.len(),
            (out@, pending) == collapse_words(lowercase_all(t@.take(i as int))),
        decreases t.len() - i,
    {
        let lower = to_lowercase(t[i]);
        let ghost before = lowercase_all(t@.take(i as int));
        let mut j: usize = 0;
        while j < lower.len()
            invariant
                j <= lower.len(),
                lower@ == char_lowercase(t@[i as int]),
                (out@, pending) == collapse_words(before + lower@.take(j as int)),
            decreases lower.len() - j,
        {
            let c = lower[j];
            let ghost prev = before + lower@.take(j as int);
            assert((before + lower@.take(j + 1)).drop_last() =~= prev);
            assert((before + lower@.take(j + 1)).last() == c);
            if is_alphanumeric(c) {
                if pending && out.len() > 0 {
                    out.push(' ');
                }
                out.push(c);
                pending = false;
            } else {
                pending = true;
            }
            j = j + 1;
        }
        assert(lower@.take(lower.len() as int) =~= lower@);
        assert(t@.take(i + 1).drop_last() =~= t@.take(i as int));
        i = i + 1;
    }
    assert(t@.take(t.len() as int) =~= t@);
    out
}

// ---------------------------------------------------------------------------
// Lexicographic order on character sequences (the order of `str`).
// ---------------------------------------------------------------------------

/// Lexicographic comparison by code point: negative, zero, or positive.
/// This is the order of `str`, since UTF-8 preserves code-point order.
pub open spec fn lex_sign(a: Seq<char>, b: Seq<char>) -> int
    decreases a.len(),
{
    if a.len() == 0 {
        if b.len() == 0 { 0 } else { -1 }
    } else if b.len() == 0 {
        1
    } else if a[0] < b[0] {
        -1
    } else if a[0] > b[0] {
        1
    } else {
        lex_sign(a.drop_first(), b.drop_first())
    }
}

/// Whether `a` precedes `b`.
pub open spec fn lex_lt(a: Seq<char>, b: Seq<char>) -> bool {
    lex_sign(a, b) < 0
}

/// Comparison is antisymmetric and is zero exactly on equal sequences.
pub proof fn lemma_lex_antisym(a: Seq<char>, b: Seq<char>)
    ensures
        lex_sign(a, b) == -lex_sign(b, a),
        -1 <= lex_sign(a, b) <= 1,
        lex_sign(a, b) == 0 <==> a == b,
    decreases a.len(),
{
    if a.len() > 0 && b.len() > 0 {
        lemma_lex_antisym(a.drop_first(), b.drop_first());
        if a[0] == b[0] && a.drop_first() == b.drop_first() {
            assert(a =~= seq![a[0]] + a.drop_first());
            assert(b =~= seq![b[0]] + b.drop_first());
        }
        if a == b {
            assert(a.drop_first() == b.drop_first());
        }
    } else if a.len() == 0 && b.len() == 0 {
        assert(a =~= b);
    }
}

/// The order is transitive.
pub proof fn lemma_lex_trans(a: Seq<char>, b: Seq<char>, c: Seq<char>)
    requires
        lex_sign(a, b) < 0,
        lex_sign(b, c) < 0,
    ensures
        lex_sign(a, c) < 0,
    decreases a.len(),
{
    if a.len() > 0 && b.len() > 0 && c.len() > 0 {
        if a[0] == b[0] && b[0] == c[0] {
            lemma_lex_trans(a.drop_first(), b.drop_first(), c.drop_first());
        }
    }
}

/// Compares two character slices lexicographically.
pub fn compare_chars(a: &[char], b: &[char]) -> (r: i8)
    ensures
        r as int == lex_sign(a@, b@),
{
    let mut i: usize = 0;
    assert(a@.subrange(0, a.len() as int) =~= a@);
    assert(b@.subrange(0, b.len() as int) =~= b@);
    while i < a.len() && i < b.len()
        invariant
            i <= a.len(),
            i <= b.len(),
            lex_sign(a@, b@) == lex_sign(a@.subrange(i as int, a.len() as int), b@.subrange(i as int, b.len() as int)),
        decreases a.len() - i,
    {
        let ghost sa = a@.subrange(i as int, a.len() as int);
        let ghost sb = b@.subrange(i as int, b.len() as int);
        assert(sa[0] == a@[i as int]);
        assert(sb[0] == b@[i as int]);
        if a[i] < b[i] {
            return -1;
        }
        if a[i] > b[i] {
            return 1;
        }
        assert(sa.drop_first() =~= a@.subrange(i + 1, a.len() as int));
        assert(sb.drop_first() =~= b@.subrange(i + 1, b.len() as int));
        i = i + 1;
    }
    if i == a.len() {
        if i == b.len() { 0 } else { -1 }
    } else {
        1
    }
}

/// Compares two strings in the order of `str`.
pub fn compare_str(a: &str, b: &str) -> (r: i8)
    ensures
        r as int == lex_sign(a@, b@),
{
    let ac = chars_of(a);
    let bc = chars_of(b);
    compare_chars(ac.as_slice(), bc.as_slice())
}

/// The character views of strings.
pub open spec fn strings(v: Seq<String>) -> Seq<Seq<char>> {
    Seq::new(v.len(), |i: int| v[i]@)
}

/// Whether texts are strictly increasing, hence also free of duplicates.
pub open spec fn strictly_sorted(v: Seq<Seq<char>>) -> bool {
    forall|i: int, j: int| 0 <= i < j < v.len() ==> lex_lt(#[trigger] v[i], #[trigger] v[j])
}

/// Inserting into a strictly sorted sequence at the first position whose
/// element is greater keeps it strictly sorted and adds the item to its set.
pub proof fn lemma_sorted_insert(v: Seq<Seq<char>>, j: int, item: Seq<char>)
    requires
        strictly_sorted(v),
        0 <= j <= v.len(),
        forall|k: int| 0 <= k < j ==> lex_lt(#[trigger] v[k], item),
        j < v.len() ==> lex_lt(item, v[j]),
    ensures
        strictly_sorted(v.insert(j, item)),
        v.insert(j, item).to_set() == v.to_set().insert(item),
{
    let nv = v.insert(j, item);
    assert forall|a: int, b: int| 0 <= a < b < nv.len() implies lex_lt(#[trigger] nv[a], #[trigger] nv[b]) by {
        if a < j && b == j {
        } else if a == j && b > j {
            if b - 1 > j {
                lemma_lex_trans(item, v[j], v[b - 1]);
            }
        } else if a < j && b > j {
            assert(lex_lt(v[a], v[b - 1]));
        } else if a > j {
            assert(nv[a] == v[a - 1]);
        }
    }
    assert forall|x: Seq<char>| #[trigger] nv.to_set().contains(x) == v.to_set().insert(item).contains(x) by {
        if x == item {
            assert(nv[j] == x);
        } else if v.contains(x) {
            let k = choose|k: int| 0 <= k < v.len() && v[k] == x;
            if k < j {
                assert(nv[k] == x);
            } else {
                assert(nv[k + 1] == x);
            }
        } else if nv.contains(x) {
            let k = choose|k: int| 0 <= k < nv.len() && nv[k] == x;
            if k < j {
                assert(v[k] == x);
            } else if k > j {
                assert(v[k - 1] == x);
            }
        }
    }
    assert(nv.to_set() =~= v.to_set().insert(item));
}

/// A strictly sorted sequence is determined by its set of elements.
pub proof fn lemma_sorted_unique(a: Seq<Seq<char>>, b: Seq<Seq<char>>)
    requires
        strictly_sorted(a),
        strictly_sorted(b),
        a.to_set() == b.to_set(),
    ensures
        a == b,
    decreases a.len(),
{
    if a.len() == 0 {
        if b.len() > 0 {
            assert(b.to_set().contains(b[0]));
        }
        assert(a =~= b);
    } else {
        assert(a.to_set().contains(a[0]));
        assert(b.contains(a[0]));
        assert(b.len() > 0);
        assert(b.to_set().contains(b[0]));
        assert(a.contains(b[0]));
        let j = choose|j: int| 0 <= j < b.len() && b[j] == a[0];
        let i = choose|i: int| 0 <= i < a.len() && a[i] == b[0];
        if j > 0 {
            assert(lex_lt(b[0], b[j]));
            if i > 0 {
                assert(lex_lt(a[0], a[i]));
                lemma_lex_trans(b[0], a[0], b[0]);
                lemma_lex_antisym(b[0], b[0]);
            } else {
                lemma_lex_antisym(b[0], b[0]);
            }
        }
        assert(a[0] == b[0]);
        let ra = a.drop_first();
        let rb = b.drop_first();
        assert forall|x: Seq<char>| #[trigger] ra.to_set().contains(x) == rb.to_set().contains(x) by {
            if ra.contains(x) {
                let k = choose|k: int| 0 <= k < ra.len() && ra[k] == x;
                assert(a[k + 1] == x);
                assert(lex_lt(a[0], a[k + 1]));
                lemma_lex_antisym(a[0], x);
                assert(a.to_set().contains(x));
                assert(b.contains(x));
                let m = choose|m: int| 0 <= m < b.len() && b[m] == x;
                assert(m != 0);
                assert(rb[m - 1] == x);
            }
            if rb.contains(x) {
                let k = choose|k: int| 0 <= k < rb.len() && rb[k] == x;
                assert(b[k + 1] == x);
                assert(lex_lt(b[0], b[k + 1]));
                lemma_lex_antisym(b[0], x);
                assert(b.to_set().contains(x));
                assert(a.contains(x));
                let m = choose|m: int| 0 <= m < a.len() && a[m] == x;
                assert(m != 0);
                assert(ra[m - 1] == x);
            }
        }
        assert(ra.to_set() =~= rb.to_set());
        assert forall|p: int, q: int| 0 <= p < q < ra.len() implies lex_lt(#[trigger] ra[p], #[trigger] ra[q]) by {
            assert(lex_lt(a[p + 1], a[q + 1]));
        }
        assert forall|p: int, q: int| 0 <= p < q < rb.len() implies lex_lt(#[trigger] rb[p], #[trigger] rb[q]) by {
            assert(lex_lt(b[p + 1], b[q + 1]));
        }
        lemma_sorted_unique(ra, rb);
        assert(a =~= seq![a[0]] + ra);
        assert(b =~= seq![b[0]] + rb);
    }
}

/// Adds a text to a strictly sorted vector unless it is already there.
pub fn insert_sorted_unique(v: &mut Vec<String>, item: String)
    requires
        strictly_sorted(strings(old(v)@)),
    ensures
        strictly_sorted(strings(final(v)@)),
        strings(final(v)@).to_set() == strings(old(v)@).to_set().insert(item@),
        final(v)@.len() <= old(v)@.len() + 1,
{
    let ghost old_v = strings(v@);
    let mut j: usize = 0;
    let mut sign: i8 = 1;
    while j < v.len() && sign > 0
        invariant
            j <= v.len(),
            strings(v@) == old_v,
            strictly_sorted(old_v),
            forall|k: int| 0 <= k < j ==> lex_lt(#[trigger] old_v[k], item@),
            sign <= 0 ==> j < v.len() && sign as int == lex_sign(item@, old_v[j as int]),
        decreases v.len() - j + (if sign > 0 { 1int } else { 0int }),
    {
        let c = compare_str(item.as_str(), v[j].as_str());
        assert(old_v[j as int] == v@[j as int]@);
        if c > 0 {
            proof {
                lemma_lex_antisym(item@, old_v[j as int]);
            }
            j = j + 1;
        } else {
            sign = c;
        }
    }
    if sign == 0 {
        proof {
            lemma_lex_antisym(item@, old_v[j as int]);
            assert(old_v.to_set().contains(item@)) by {
                assert(old_v[j as int] == item@);
            }
            assert(old_v.to_set().insert(item@) =~= old_v.to_set());
        }
        return;
    }
    let ghost iv = item@;
    v.insert(j, item);
    proof {
        assert(strings(v@) =~= old_v.insert(j as int, iv));
        lemma_sorted_insert(old_v, j as int, iv);
    }
}

// ---------------------------------------------------------------------------
// Splitting at a separator (`str::split` with a `char` pattern).
// ---------------------------------------------------------------------------

/// The pieces of `s` between occurrences of `sep`, including empty pieces;
/// there is always at least one piece.
pub open spec fn split_on(s: Seq<char>, sep: char) -> Seq<Seq<char>>
    decreases s.len(),
{
    if s.len() == 0 {
        seq![seq![]]
    } else {
        let r = split_on(s.drop_last(), sep);
        if s.last() == sep {
            r.push(seq![])
        } else {
            r.update(r.len() - 1, r.last().push(s.last()))
        }
    }
}

/// Splitting always yields at least one piece.
pub proof fn lemma_split_nonempty(s: Seq<char>, sep: char)
    ensures
        split_on(s, sep).len() >= 1,
    decreases s.len(),
{
    if s.len() > 0 {
        lemma_split_nonempty(s.drop_last(), sep);
    }
}

/// The character views of a sequence of character vectors.
pub open spec fn views(v: Seq<Vec<char>>) -> Seq<Seq<char>> {
    Seq::new(v.len(), |i: int| v[i]@)
}

/// Splits a character slice at every occurrence of `sep`.
pub fn split_chars(v: &[char], sep: char) -> (r: Vec<Vec<char>>)
    ensures
        views(r@) == split_on(v@, sep),
        r@.len() >= 1,
{
    let mut pieces: Vec<Vec<char>> = Vec::new();
    let mut current: Vec<char> = Vec::new();
    let mut i: usize = 0;
    while i < v.len()
        invariant
            i <= v.len(),
            views(pieces@).push(current@) == split_on(v@.take(i as int), sep),
        decreases v.len() - i,
    {
        let c = v[i];
        assert(v@.take(i + 1).drop_last() =~= v@.take(i as int));
        proof {
            lemma_split_nonempty(v@.take(i as int), sep);
        }
        if c == sep {
            let done = current;
            pieces.push(done);
            current = Vec::new();
            assert(views(pieces@).push(current@) =~= split_on(v@.take(i as int), sep).push(seq![]));
        } else {
            current.push(c);
            let ghost r = split_on(v@.take(i as int), sep);
            assert(views(pieces@).push(current@) =~= r.update(r.len() - 1, r.last().push(c)));
        }
        i = i + 1;
    }
    assert(v@.take(v.len() as int) =~= v@);
    let last = current;
    pieces.push(last);
    assert(views(pieces@) =~= split_on(v@, sep));
    pieces
}

/// The index of the first occurrence of `c` in `s`, if any.
pub open spec fn first_index_of(s: Seq<char>, c: char) -> Option<int> {
    if exists|i: int| 0 <= i < s.len() && s[i] == c {
        Some(choose|i: int| 0 <= i < s.len() && s[i] == c && forall|k: int| 0 <= k < i ==> s[k] != c)
    } else {
        None
    }
}

/// Finds the first occurrence of `c` in the slice.
pub fn find_char(v: &[char], c: char) -> (r: Option<usize>)
    ensures
        match r {
            Some(i) => first_index_of(v@, c) == Some(i as int) && i < v@.len() && v@[i as int] == c
                && forall|k: int| 0 <= k < i ==> v@[k] != c,
            None => first_index_of(v@, c) is None && !v@.contains(c),
        },
{
    let mut i: usize = 0;
    while i < v.len()
        invariant
            i <= v.len(),
            forall|k: int| 0 <= k < i ==> v@[k] != c,
        decreases v.len() - i,
    {
        if v[i] == c {
            proof {
                let j = choose|j: int| 0 <= j < v@.len() && v@[j] == c && forall|k: int| 0 <= k < j ==> v@[k] != c;
                assert(0 <= i < v@.len() && v@[i as int] == c && forall|k: int| 0 <= k < i ==> v@[k] != c);
                if j < i {
                } else if j > i {
                    assert(v@[i as int] != c);
                }
            }
            return Some(i);
        }
        i = i + 1;
    }
    None
}

// ---------------------------------------------------------------------------
// Decimal rendering and debug quoting.
// ---------------------------------------------------------------------------

/// The decimal digits of a natural number, as `usize`'s `Display` renders it.
pub open spec fn decimal(n: nat) -> Seq<char>
    decreases n,
{
    if n < 10 {
        seq![((n + 48) as u8) as char]
    } else {
        decimal(n / 10) + seq![(((n % 10) + 48) as u8) as char]
    }
}

/// Appends the decimal digits of `n`.
pub fn push_decimal(out: &mut String, n: usize)
    ensures
        final(out)@ == old(out)@ + decimal(n as nat),
    decreases n,
{
    if n < 10 {
        let d: u8 = n as u8 + 48;
        push_char(out, d as char);
    } else {
        push_decimal(out, n / 10);
        let d: u8 = (n % 10) as u8 + 48;
        push_char(out, d as char);
    }
}

/// How `char`'s `Debug` renders a character: quoted, with escapes.
pub uninterp spec fn char_debug_text(c: char) -> Seq<char>;

/// Renders a character with `char`'s `Debug` (`format!("{c:?}")`); the text is named.
#[verifier::external_body]
pub(crate) fn char_debug(c: char) -> (s: String)
    ensures
        s@ == char_debug_text(c),
{
    format!("{c:?}")
}

} // verus!
