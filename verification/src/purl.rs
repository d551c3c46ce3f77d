//! Package URLs: strict pre-validation, canonical rendering by the
//! `packageurl` crate, and the normalized [`NormalizedPurl`].
use vstd::prelude::*;

use crate::fingerprint::hex_value;
use crate::identity::{IdentityError, IdentityErrorView};
use crate::text::{
    ascii_lower_all, chars_of, first_index_of, lex_lt, lex_sign, split_on, string_of, views,
};

verus! {

// ---------------------------------------------------------------------------
// The packageurl crate.
// ---------------------------------------------------------------------------

/// A Package URL as the `packageurl` crate parses and renders it.
pub struct PurlModel {
    /// The rendered Package URL.
    pub canonical: Seq<char>,
    /// The rendering without version, qualifiers, and subpath.
    pub coordinate: Seq<char>,
    /// The canonical type.
    pub ty: Seq<char>,
    /// The canonical namespace, if any.
    pub namespace: Option<Seq<char>>,
    /// The name.
    pub name: Seq<char>,
    /// The version, if any.
    pub version: Option<Seq<char>>,
    /// The subpath, if any.
    pub subpath: Option<Seq<char>>,
    /// The qualifier pairs, with lower-case keys.
    pub qualifiers: Set<(Seq<char>, Seq<char>)>,
}

/// What `<PackageUrl as FromStr>::from_str` yields for a string, or the
/// rendered error.
pub uninterp spec fn packageurl_parse(value: Seq<char>) -> Result<PurlModel, Seq<char>>;

/// A parsed Package URL converted to plain values; qualifiers are in the
/// order the crate's hash map yields them.
pub struct PurlParts {
    /// The rendered Package URL.
    pub canonical: String,
    /// The rendering without version, qualifiers, and subpath.
    pub coordinate: String,
    /// The canonical type.
    pub ty: String,
    /// The canonical namespace, if any.
    pub namespace: Option<String>,
    /// The name.
    pub name: String,
    /// The version, if any.
    pub version: Option<String>,
    /// The subpath, if any.
    pub subpath: Option<String>,
    /// The qualifier pairs.
    pub qualifiers: Vec<(String, String)>,
}

/// The character view of an optional string.
pub open spec fn opt_string(v: Option<String>) -> Option<Seq<char>> {
    match v {
        Some(s) => Some(s@),
        None => None,
    }
}

/// The character views of string pairs.
pub open spec fn pair_views(v: Seq<(String, String)>) -> Seq<(Seq<char>, Seq<char>)> {
    Seq::new(v.len(), |i: int| (v[i].0@, v[i].1@))
}

/// Whether no two pairs share a key.
pub open spec fn distinct_keys(v: Seq<(Seq<char>, Seq<char>)>) -> bool {
    forall|i: int, j: int| 0 <= i < v.len() && 0 <= j < v.len() && i != j ==> v[i].0 != v[j].0
}

impl PurlParts {
    /// The value of these parts, with the qualifier pairs as a set.
    pub open spec fn model(&self) -> PurlModel {
        PurlModel {
            canonical: self.canonical@,
            coordinate: self.coordinate@,
            ty: self.ty@,
            namespace: opt_string(self.namespace),
            name: self.name@,
            version: opt_string(self.version),
            subpath: opt_string(self.subpath),
            qualifiers: pair_views(self.qualifiers@).to_set(),
        }
    }
}

/// Calls `<PackageUrl<'static> as FromStr>::from_str` and converts the
/// result into plain values: the `Display` rendering, the rendering of a
/// clone after `without_version`, `clear_qualifiers`, and `without_subpath`,
/// and each accessor. Qualifier keys come from a hash map, so they are
/// distinct; their order is unspecified. What the crate accepts and how it
/// canonicalizes is named, not restated.
#[verifier::external_body]
fn purl_components(value: &str) -> (r: Result<PurlParts, String>)
    ensures
        match r {
            Ok(p) => packageurl_parse(value@) == Ok::<PurlModel, Seq<char>>(p.model()) && distinct_keys(
                pair_views(p.qualifiers@),
            ),
            Err(e) => packageurl_parse(value@) == Err::<PurlModel, Seq<char>>(e@),
        },
{
    let p = value.parse::<packageurl::PackageUrl<'static>>().map_err(|e| e.to_string())?;
    let mut c = p.clone();
    c.without_version().clear_qualifiers().without_subpath();
    let qualifiers = p.qualifiers().iter().map(|(k, v)| (k.to_string(), v.to_string())).collect();
    Ok(PurlParts {
        canonical: p.to_string(), coordinate: c.to_string(), ty: p.ty().to_owned(),
        namespace: p.namespace().map(str::to_owned), name: p.name().to_owned(),
        version: p.version().map(str::to_owned), subpath: p.subpath().map(str::to_owned), qualifiers,
    })
}

// ---------------------------------------------------------------------------
// Pre-validation.
// ---------------------------------------------------------------------------

/// Whether a byte is an ASCII hexadecimal digit.
pub open spec fn is_hex_byte(b: u8) -> bool {
    (48 <= b && b <= 57) || (65 <= b && b <= 70) || (97 <= b && b <= 102)
}

/// The byte offset of the first `%` not followed by two hexadecimal digits,
/// scanning from byte `i` and skipping over valid escapes.
pub open spec fn percent_error_from(bytes: Seq<u8>, i: int) -> Option<usize>
    decreases bytes.len() - i,
{
    if i < 0 || i >= bytes.len() {
        None
    } else if bytes[i] == 37 {
        if i + 2 >= bytes.len() || !is_hex_byte(bytes[i + 1]) || !is_hex_byte(bytes[i + 2]) {
            Some(i as usize)
        } else {
            percent_error_from(bytes, i + 3)
        }
    } else {
        percent_error_from(bytes, i + 1)
    }
}

fn validate_percent_escapes(value: &str) -> (r: Result<(), IdentityError>)
    ensures
        match r {
            Ok(_) => percent_error_from(vstd::utf8::encode_utf8(value@), 0) is None,
            Err(e) => percent_error_from(vstd::utf8::encode_utf8(value@), 0) matches Some(p)
                && e@ == IdentityErrorView::InvalidPercentEscape(p),
        },
{
    let bytes = value.as_bytes();
    let ghost b = bytes@;
    assert(b == vstd::utf8::encode_utf8(value@));
    let mut index: usize = 0;
    while index < bytes.len()
        invariant
            b == bytes@,
            b == vstd::utf8::encode_utf8(value@),
            percent_error_from(b, 0) == percent_error_from(b, index as int),
        decreases bytes.len() - index,
    {
        if bytes[index] == 37 {
            if bytes.len() - index <= 2 || !is_hex(bytes[index + 1]) || !is_hex(bytes[index + 2]) {
                assert(percent_error_from(b, index as int) == Some(index));
                return Err(IdentityError::InvalidPercentEscape { position: index });
            }
            index = index + 3;
        } else {
            index = index + 1;
        }
    }
    Ok(())
}

fn is_hex(b: u8) -> (r: bool)
    ensures
        r == is_hex_byte(b),
{
    (48 <= b && b <= 57) || (65 <= b && b <= 70) || (97 <= b && b <= 102)
}

/// The number of occurrences of `c` in `s`.
pub open spec fn count_of(s: Seq<char>, c: char) -> nat
    decreases s.len(),
{
    if s.len() == 0 {
        0
    } else {
        count_of(s.drop_last(), c) + if s.last() == c { 1nat } else { 0nat }
    }
}

fn count_char(v: &[char], c: char) -> (r: usize)
    ensures
        r == count_of(v@, c),
{
    let mut n: usize = 0;
    let mut i: usize = 0;
    while i < v.len()
        invariant
            i <= v.len(),
            n == count_of(v@.take(i as int), c),
            n <= i,
        decreases v.len() - i,
    {
        assert(v@.take(i + 1).drop_last() =~= v@.take(i as int));
        if v[i] == c {
            n = n + 1;
        }
        i = i + 1;
    }
    assert(v@.take(v.len() as int) =~= v@);
    n
}

/// The delimiters may occur only once.
pub const REASON_DELIMITERS: &'static str = "query and fragment delimiters may occur at most once";

/// Qualifiers come before the subpath.
pub const REASON_ORDER: &'static str = "qualifiers must precede the subpath";

/// The first qualifier error of the pairs from index `i` on, given the
/// normalized keys already seen.
pub open spec fn qualifier_error_from(pairs: Seq<Seq<char>>, i: int, seen: Set<Seq<char>>) -> Option<IdentityErrorView>
    decreases pairs.len() - i,
{
    if i < 0 || i >= pairs.len() {
        None
    } else {
        let pair = pairs[i];
        match first_index_of(pair, '=') {
            None => Some(IdentityErrorView::InvalidPurlQualifier(pair)),
            Some(j) => {
                let key = pair.subrange(0, j);
                let value = pair.subrange(j + 1, pair.len() as int);
                if key.len() == 0 {
                    Some(IdentityErrorView::InvalidPurlQualifier(pair))
                } else if value.len() == 0 {
                    Some(IdentityErrorView::EmptyPurlQualifierValue(key))
                } else {
                    let normalized = ascii_lower_all(key);
                    if seen.contains(normalized) {
                        Some(IdentityErrorView::DuplicatePurlQualifier(normalized))
                    } else {
                        qualifier_error_from(pairs, i + 1, seen.insert(normalized))
                    }
                }
            },
        }
    }
}

/// Why a query is not a list of non-empty `key=value` pairs with distinct
/// case-normalized keys, if it is not.
pub open spec fn qualifier_error(query: Seq<char>) -> Option<IdentityErrorView> {
    qualifier_error_from(split_on(query, '&'), 0, Set::empty())
}

fn contains_chars(seen: &Vec<Vec<char>>, key: &Vec<char>) -> (r: bool)
    ensures
        r == views(seen@).contains(key@),
{
    let mut i: usize = 0;
    while i < seen.len()
        invariant
            i <= seen.len(),
            forall|k: int| 0 <= k < i ==> seen@[k]@ != key@,
        decreases seen.len() - i,
    {
        if crate::text::chars_equal(seen[i].as_slice(), key.as_slice()) {
            assert(views(seen@)[i as int] == key@);
            return true;
        }
        i = i + 1;
    }
    assert(!views(seen@).contains(key@)) by {
        if views(seen@).contains(key@) {
            let k = choose|k: int| 0 <= k < views(seen@).len() && views(seen@)[k] == key@;
            assert(seen@[k]@ == key@);
        }
    }
    false
}

fn validate_qualifiers(query: &[char]) -> (r: Result<(), IdentityError>)
    ensures
        match r {
            Ok(_) => qualifier_error(query@) is None,
            Err(e) => qualifier_error(query@) == Some(e@),
        },
{
    let pairs = crate::text::split_chars(query, '&');
    let ghost pv = views(pairs@);
    let mut seen: Vec<Vec<char>> = Vec::new();
    assert(views(seen@).to_set() =~= Set::<Seq<char>>::empty());
    let mut i: usize = 0;
    while i < pairs.len()
        invariant
            i <= pairs.len(),
            pv == views(pairs@),
            pv == split_on(query@, '&'),
            qualifier_error(query@) == qualifier_error_from(pv, i as int, views(seen@).to_set()),
        decreases pairs.len() - i,
    {
        let pair = &pairs[i];
        assert(pv[i as int] == pair@);
        let eq = crate::text::find_char(pair.as_slice(), '=');
        match eq {
            None => {
                return Err(IdentityError::InvalidPurlQualifier { qualifier: string_of(pair.as_slice()) });
            },
            Some(j) => {
                assert(j < pair.len());
                let key = crate::text::slice_chars(pair.as_slice(), 0, j);
                let value = crate::text::slice_chars(pair.as_slice(), j + 1, pair.len());
                if key.len() == 0 {
                    return Err(IdentityError::InvalidPurlQualifier { qualifier: string_of(pair.as_slice()) });
                }
                if value.len() == 0 {
                    return Err(IdentityError::EmptyPurlQualifierValue { key: string_of(key.as_slice()) });
                }
                let normalized = crate::text::lower_ascii_chars(key.as_slice());
                if contains_chars(&seen, &normalized) {
                    assert(views(seen@).to_set().contains(normalized@));
                    return Err(IdentityError::DuplicatePurlQualifier { key: string_of(normalized.as_slice()) });
                }
                proof {
                    assert(!views(seen@).to_set().contains(normalized@));
                }
                let ghost old_seen = views(seen@);
                seen.push(normalized);
                assert(views(seen@) =~= old_seen.push(normalized@));
                proof {
                    let nv = views(seen@);
                    assert forall|x: Seq<char>| #[trigger] nv.contains(x) == (old_seen.contains(x) || x == normalized@) by {
                        if x == normalized@ {
                            assert(nv[old_seen.len() as int] == x);
                        } else if old_seen.contains(x) {
                            let k = choose|k: int| 0 <= k < old_seen.len() && old_seen[k] == x;
                            assert(nv[k] == x);
                        } else if nv.contains(x) {
                            let k = choose|k: int| 0 <= k < nv.len() && nv[k] == x;
                            assert(old_seen[k] == x);
                        }
                    }
                    assert(nv.to_set() =~= old_seen.to_set().insert(normalized@));
                }
            },
        }
        i = i + 1;
    }
    Ok(())
}

#[verifier::opaque]
/// The checks made before the `packageurl` crate parses a string: valid
/// percent escapes; at most one `?` and one `#`, in that order; no empty
/// version; and well-formed, distinct qualifiers.
pub open spec fn prevalidation_error(value: Seq<char>) -> Option<IdentityErrorView> {
    match percent_error_from(vstd::utf8::encode_utf8(value), 0) {
        Some(p) => Some(IdentityErrorView::InvalidPercentEscape(p)),
        None => if count_of(value, '?') > 1 || count_of(value, '#') > 1 {
            Some(IdentityErrorView::InvalidPurl(REASON_DELIMITERS@))
        } else {
            let q = first_index_of(value, '?');
            let f = first_index_of(value, '#');
            if q is Some && f is Some && q->Some_0 > f->Some_0 {
                Some(IdentityErrorView::InvalidPurl(REASON_ORDER@))
            } else {
                let end = if q is Some {
                    q->Some_0
                } else if f is Some {
                    f->Some_0
                } else {
                    value.len() as int
                };
                if end > 0 && value[end - 1] == '@' {
                    Some(IdentityErrorView::EmptyPurlVersion)
                } else if q is Some {
                    let query_end = if f is Some { f->Some_0 } else { value.len() as int };
                    qualifier_error(value.subrange(q->Some_0 + 1, query_end))
                } else {
                    None
                }
            }
        },
    }
}

#[verifier::rlimit(40)]
fn prevalidate(value: &str) -> (r: Result<(), IdentityError>)
    ensures
        match r {
            Ok(_) => prevalidation_error(value@) is None,
            Err(e) => prevalidation_error(value@) == Some(e@),
        },
{
    reveal(prevalidation_error);
    match validate_percent_escapes(value) {
        Ok(_) => {},
        Err(e) => return Err(e),
    }
    let v = chars_of(value);
    if count_char(v.as_slice(), '?') > 1 || count_char(v.as_slice(), '#') > 1 {
        return Err(IdentityError::InvalidPurl { reason: String::from_str(REASON_DELIMITERS) });
    }
    let q = crate::text::find_char(v.as_slice(), '?');
    let f = crate::text::find_char(v.as_slice(), '#');
    match (q, f) {
        (Some(qi), Some(fi)) => {
            if qi > fi {
                return Err(IdentityError::InvalidPurl { reason: String::from_str(REASON_ORDER) });
            }
        },
        _ => {},
    }
    let end = match q {
        Some(qi) => qi,
        None => match f {
            Some(fi) => fi,
            None => v.len(),
        },
    };
    if end > 0 && v[end - 1] == '@' {
        return Err(IdentityError::EmptyPurlVersion);
    }
    match q {
        Some(qi) => {
            let query_end = match f {
                Some(fi) => fi,
                None => v.len(),
            };
            let query = crate::text::slice_chars(v.as_slice(), qi + 1, query_end);
            validate_qualifiers(query.as_slice())
        },
        None => Ok(()),
    }
}

// ---------------------------------------------------------------------------
// Sorting qualifiers.
// ---------------------------------------------------------------------------

/// Whether pairs are strictly increasing by key.
pub open spec fn sorted_by_key(v: Seq<(Seq<char>, Seq<char>)>) -> bool {
    forall|i: int, j: int| 0 <= i < j < v.len() ==> lex_lt(#[trigger] v[i].0, #[trigger] v[j].0)
}

fn sort_qualifiers(pairs: &Vec<(String, String)>) -> (r: Vec<(String, String)>)
    requires
        distinct_keys(pair_views(pairs@)),
    ensures
        pair_views(r@).to_set() == pair_views(pairs@).to_set(),
        sorted_by_key(pair_views(r@)),
        r@.len() == pairs@.len(),
{
    let ghost input = pair_views(pairs@);
    let mut sorted: Vec<(String, String)> = Vec::new();
    let mut i: usize = 0;
    while i < pairs.len()
        invariant
            i <= pairs.len(),
            input == pair_views(pairs@),
            distinct_keys(input),
            sorted_by_key(pair_views(sorted@)),
            pair_views(sorted@).to_set() == input.take(i as int).to_set(),
            sorted@.len() == i,
        decreases pairs.len() - i,
    {
        let key = pairs[i].0.clone();
        let value = pairs[i].1.clone();
        let kc = chars_of(key.as_str());
        let mut j: usize = 0;
        let mut found = false;
        while j < sorted.len() && !found
            invariant
                j <= sorted.len(),
                kc@ == key@,
                forall|k: int| 0 <= k < j ==> !lex_lt(kc@, #[trigger] pair_views(sorted@)[k].0),
                found ==> j < sorted.len() && lex_lt(kc@, pair_views(sorted@)[j as int].0),
            decreases sorted.len() - j + (if found { 0int } else { 1int }),
        {
            let other = chars_of(sorted[j].0.as_str());
            if crate::text::compare_chars(kc.as_slice(), other.as_slice()) < 0 {
                found = true;
            } else {
                j = j + 1;
            }
        }
        let ghost old_sorted = pair_views(sorted@);
        let ghost item = (key@, value@);
        proof {
            // The new key differs from every key already placed.
            assert forall|k: int| 0 <= k < old_sorted.len() implies old_sorted[k].0 != key@ by {
                assert(old_sorted.to_set().contains(old_sorted[k]));
                assert(input.take(i as int).contains(old_sorted[k]));
                let t = input.take(i as int);
                let m = choose|m: int| 0 <= m < t.len() && t[m] == old_sorted[k];
                assert(input[m].0 != input[i as int].0);
            }
        }
        sorted.insert(j, (key, value));
        proof {
            let nv = pair_views(sorted@);
            assert(nv =~= old_sorted.insert(j as int, item));
            assert forall|a: int, b: int| 0 <= a < b < nv.len() implies lex_lt(#[trigger] nv[a].0, #[trigger] nv[b].0) by {
                if a < j && b == j {
                    crate::text::lemma_lex_antisym(key@, old_sorted[a].0);
                } else if a == j && b > j {
                    if j < old_sorted.len() {
                        crate::text::lemma_lex_antisym(key@, old_sorted[b - 1].0);
                        if b - 1 > j {
                            crate::text::lemma_lex_trans(key@, old_sorted[j as int].0, old_sorted[b - 1].0);
                        }
                    }
                } else if a < j && b > j {
                    assert(lex_lt(old_sorted[a].0, old_sorted[b - 1].0));
                } else if a > j {
                    assert(nv[a] == old_sorted[a - 1]);
                }
            }
            assert(input.take(i + 1) =~= input.take(i as int).push(item));
            assert forall|x: (Seq<char>, Seq<char>)| #[trigger] nv.contains(x) == (old_sorted.contains(x) || x == item) by {
                if x == item {
                    assert(nv[j as int] == x);
                } else if old_sorted.contains(x) {
                    let k = choose|k: int| 0 <= k < old_sorted.len() && old_sorted[k] == x;
                    if k < j {
                        assert(nv[k] == x);
                    } else {
                        assert(nv[k + 1] == x);
                    }
                } else if nv.contains(x) {
                    let k = choose|k: int| 0 <= k < nv.len() && nv[k] == x;
                    if k < j {
                        assert(old_sorted[k] == x);
                    } else if k > j {
                        assert(old_sorted[k - 1] == x);
                    }
                }
            }
            assert forall|x: (Seq<char>, Seq<char>)| #[trigger] input.take(i + 1).contains(x) == (input.take(i as int).contains(x) || x == item) by {
                if x == item {
                    assert(input.take(i + 1)[i as int] == x);
                } else if input.take(i as int).contains(x) {
                    let t = input.take(i as int);
                    let k = choose|k: int| 0 <= k < t.len() && t[k] == x;
                    assert(input.take(i + 1)[k] == x);
                } else if input.take(i + 1).contains(x) {
                    let t = input.take(i + 1);
                    let k = choose|k: int| 0 <= k < t.len() && t[k] == x;
                    assert(input.take(i as int)[k] == x);
                }
            }
            assert forall|x: (Seq<char>, Seq<char>)| #[trigger] nv.to_set().contains(x) == input.take(i + 1).to_set().contains(x) by {
                assert(old_sorted.to_set().contains(x) == input.take(i as int).to_set().contains(x));
            }
            assert(nv.to_set() =~= input.take(i + 1).to_set());
        }
        i = i + 1;
    }
    assert(input.take(pairs.len() as int) =~= input);
    sorted
}

// ---------------------------------------------------------------------------
// The normalized Package URL.
// ---------------------------------------------------------------------------

/// The value of a [`NormalizedPurl`].
pub struct PurlView {
    /// The canonical Package URL string.
    pub canonical: Seq<char>,
    /// The canonical coordinate without version, qualifiers, or subpath.
    pub coordinate: Seq<char>,
    /// The canonical type.
    pub ty: Seq<char>,
    /// The canonical namespace, if any.
    pub namespace: Option<Seq<char>>,
    /// The name.
    pub name: Seq<char>,
    /// The version, if any.
    pub version: Option<Seq<char>>,
    /// The qualifier pairs, sorted by key.
    pub qualifiers: Seq<(Seq<char>, Seq<char>)>,
    /// The subpath, if any.
    pub subpath: Option<Seq<char>>,
}

/// Whether a normalized value agrees with what the `packageurl` crate
/// parsed: every component equal, and the qualifiers those pairs sorted by key.
pub open spec fn purl_matches(v: PurlView, m: PurlModel) -> bool {
    &&& v.canonical == m.canonical
    &&& v.coordinate == m.coordinate
    &&& v.ty == m.ty
    &&& v.namespace == m.namespace
    &&& v.name == m.name
    &&& v.version == m.version
    &&& v.subpath == m.subpath
    &&& v.qualifiers.to_set() == m.qualifiers
    &&& sorted_by_key(v.qualifiers)
}

/// Why a string is rejected as a Package URL, if it is: first the
/// pre-validation, then the `packageurl` crate's own parser.
pub open spec fn purl_parse_error(value: Seq<char>) -> Option<IdentityErrorView> {
    match prevalidation_error(value) {
        Some(e) => Some(e),
        None => match packageurl_parse(value) {
            Err(reason) => Some(IdentityErrorView::InvalidPurl(reason)),
            Ok(_) => None,
        },
    }
}

/// Whether `p` is what an accepted string normalizes to: the `packageurl`
/// crate's parse with its qualifiers sorted by key.
pub open spec fn purl_parsed_as(value: Seq<char>, p: PurlView) -> bool {
    packageurl_parse(value) matches Ok(m) && purl_matches(p, m)
}

/// Whether two optional details leave room for one value: either is absent
/// or both are equal.
pub open spec fn optional_compatible(a: Option<Seq<char>>, b: Option<Seq<char>>) -> bool {
    a is None || b is None || a == b
}

/// Whether no qualifier key present on both sides carries different values.
pub open spec fn qualifiers_compatible(a: Seq<(Seq<char>, Seq<char>)>, b: Seq<(Seq<char>, Seq<char>)>) -> bool {
    forall|i: int, j: int|
        0 <= i < a.len() && 0 <= j < b.len() && #[trigger] a[i].0 == #[trigger] b[j].0 ==> a[i].1 == b[j].1
}

/// Whether two Package URLs can describe the same package: the same
/// coordinate, and no version, subpath, or shared qualifier contradicting.
pub open spec fn purl_details_compatible(a: PurlView, b: PurlView) -> bool {
    &&& a.coordinate == b.coordinate
    &&& optional_compatible(a.version, b.version)
    &&& optional_compatible(a.subpath, b.subpath)
    &&& qualifiers_compatible(a.qualifiers, b.qualifiers)
}

fn optional_detail_compatible(a: &Option<String>, b: &Option<String>) -> (r: bool)
    ensures
        r == optional_compatible(opt_string(*a), opt_string(*b)),
{
    match (a, b) {
        (Some(x), Some(y)) => crate::text::str_equal(x.as_str(), y.as_str()),
        _ => true,
    }
}

/// The key-domain prefix of Package URL identities.
pub open spec fn purl_identity_prefix() -> Seq<char> {
    "subject:purl:v1:"@
}

/// A canonical Package URL suitable for equality, ordering, and stable keys.
#[derive(Debug, Eq, Hash, Ord, PartialEq, PartialOrd)]
pub struct NormalizedPurl {
    canonical: String,
    full_identity: String,
    coordinate: String,
    ty: String,
    namespace: Option<String>,
    name: String,
    version: Option<String>,
    qualifiers: Vec<(String, String)>,
    subpath: Option<String>,
}

impl View for NormalizedPurl {
    type V = PurlView;

    closed spec fn view(&self) -> PurlView {
        PurlView {
            canonical: self.canonical@,
            coordinate: self.coordinate@,
            ty: self.ty@,
            namespace: opt_string(self.namespace),
            name: self.name@,
            version: opt_string(self.version),
            qualifiers: pair_views(self.qualifiers@),
            subpath: opt_string(self.subpath),
        }
    }
}

fn clone_opt(v: &Option<String>) -> (r: Option<String>)
    ensures
        opt_string(r) == opt_string(*v),
{
    match v {
        Some(s) => Some(s.clone()),
        None => None,
    }
}

fn as_opt_str(v: &Option<String>) -> (r: Option<&str>)
    ensures
        crate::fingerprint::opt_view(r) == opt_string(*v),
{
    match v {
        Some(s) => Some(s.as_str()),
        None => None,
    }
}

impl NormalizedPurl {
    #[verifier::type_invariant]
    spec fn inv(&self) -> bool {
        &&& self.full_identity@ == purl_identity_prefix() + self.canonical@
        &&& sorted_by_key(pair_views(self.qualifiers@))
    }

    /// Parses a Package URL and returns its canonical representation.
    ///
    /// In addition to the `packageurl` parser, this rejects malformed percent
    /// escapes and ambiguous qualifiers that the dependency would otherwise
    /// discard or overwrite.
    pub fn parse(value: &str) -> (r: Result<NormalizedPurl, IdentityError>)
        ensures
            match r {
                Ok(p) => purl_parse_error(value@) is None && purl_parsed_as(value@, p@),
                Err(e) => purl_parse_error(value@) == Some(e@),
            },
    {
        match prevalidate(value) {
            Ok(_) => {},
            Err(e) => return Err(e),
        }
        let parts = match purl_components(value) {
            Ok(p) => p,
            Err(reason) => return Err(IdentityError::InvalidPurl { reason }),
        };
        let qualifiers = sort_qualifiers(&parts.qualifiers);
        let mut full_identity = String::from_str("subject:purl:v1:");
        full_identity.append(parts.canonical.as_str());
        let p = NormalizedPurl {
            canonical: parts.canonical,
            full_identity,
            coordinate: parts.coordinate,
            ty: parts.ty,
            namespace: parts.namespace,
            name: parts.name,
            version: parts.version,
            qualifiers,
            subpath: parts.subpath,
        };
        Ok(p)
    }

    /// Returns the canonical Package URL string.
    pub fn as_str(&self) -> (r: &str)
        ensures
            r@ == self@.canonical,
    {
        self.canonical.as_str()
    }

    /// Returns the canonical Package URL as an owned string.
    pub fn to_string(&self) -> (r: String)
        ensures
            r@ == self@.canonical,
    {
        self.canonical.clone()
    }

    /// Returns the canonical Package URL type.
    pub fn ty(&self) -> (r: &str)
        ensures
            r@ == self@.ty,
    {
        self.ty.as_str()
    }

    /// Returns the optional canonical namespace.
    pub fn namespace(&self) -> (r: Option<&str>)
        ensures
            crate::fingerprint::opt_view(r) == self@.namespace,
    {
        as_opt_str(&self.namespace)
    }

    /// Returns the package name.
    pub fn name(&self) -> (r: &str)
        ensures
            r@ == self@.name,
    {
        self.name.as_str()
    }

    /// Returns the optional package version.
    pub fn version(&self) -> (r: Option<&str>)
        ensures
            crate::fingerprint::opt_view(r) == self@.version,
    {
        as_opt_str(&self.version)
    }

    /// Returns the canonical qualifier keys and decoded values in sorted order.
    pub fn qualifiers(&self) -> (r: Vec<(&str, &str)>)
        ensures
            r@.len() == self@.qualifiers.len(),
            forall|i: int| 0 <= i < r@.len() ==> (#[trigger] r@[i]).0@ == self@.qualifiers[i].0 && r@[i].1@
                == self@.qualifiers[i].1,
    {
        let mut out: Vec<(&str, &str)> = Vec::new();
        let mut i: usize = 0;
        while i < self.qualifiers.len()
            invariant
                i <= self.qualifiers@.len(),
                out@.len() == i,
                forall|k: int| 0 <= k < i ==> (#[trigger] out@[k]).0@ == self.qualifiers@[k].0@ && out@[k].1@
                    == self.qualifiers@[k].1@,
            decreases self.qualifiers.len() - i,
        {
            out.push((self.qualifiers[i].0.as_str(), self.qualifiers[i].1.as_str()));
            i = i + 1;
        }
        out
    }

    /// Returns the optional package subpath.
    pub fn subpath(&self) -> (r: Option<&str>)
        ensures
            crate::fingerprint::opt_view(r) == self@.subpath,
    {
        as_opt_str(&self.subpath)
    }

    /// Returns the identity used in keys: `subject:purl:v1:` and the canonical string.
    pub(crate) fn full_identity(&self) -> (r: &str)
        ensures
            r@ == purl_identity_prefix() + self@.canonical,
    {
        proof {
            use_type_invariant(self);
        }
        self.full_identity.as_str()
    }

    /// Returns the canonical package coordinate without version, qualifiers, or subpath.
    pub fn coordinate(&self) -> (r: &str)
        ensures
            r@ == self@.coordinate,
    {
        self.coordinate.as_str()
    }

    /// Whether this and `other` can describe the same package without any of
    /// their concrete details contradicting each other.
    pub(crate) fn details_compatible(&self, other: &NormalizedPurl) -> (r: bool)
        ensures
            r == purl_details_compatible(self@, other@),
    {
        if !crate::text::str_equal(self.coordinate.as_str(), other.coordinate.as_str()) {
            return false;
        }
        if !optional_detail_compatible(&self.version, &other.version) {
            return false;
        }
        if !optional_detail_compatible(&self.subpath, &other.subpath) {
            return false;
        }
        let ghost a = pair_views(self.qualifiers@);
        let ghost b = pair_views(other.qualifiers@);
        let mut i: usize = 0;
        while i < self.qualifiers.len()
            invariant
                i <= self.qualifiers@.len(),
                a == pair_views(self.qualifiers@),
                b == pair_views(other.qualifiers@),
                forall|x: int, y: int|
                    0 <= x < i && 0 <= y < b.len() && #[trigger] a[x].0 == #[trigger] b[y].0 ==> a[x].1 == b[y].1,
            decreases self.qualifiers.len() - i,
        {
            let mut j: usize = 0;
            while j < other.qualifiers.len()
                invariant
                    i < self.qualifiers@.len(),
                    j <= other.qualifiers@.len(),
                    a == pair_views(self.qualifiers@),
                    b == pair_views(other.qualifiers@),
                    forall|x: int, y: int|
                        0 <= x < i && 0 <= y < b.len() && #[trigger] a[x].0 == #[trigger] b[y].0 ==> a[x].1 == b[y].1,
                    forall|y: int| 0 <= y < j && a[i as int].0 == #[trigger] b[y].0 ==> a[i as int].1 == b[y].1,
                decreases other.qualifiers.len() - j,
            {
                if crate::text::str_equal(self.qualifiers[i].0.as_str(), other.qualifiers[j].0.as_str())
                    && !crate::text::str_equal(self.qualifiers[i].1.as_str(), other.qualifiers[j].1.as_str()) {
                    assert(a[i as int].0 == b[j as int].0 && a[i as int].1 != b[j as int].1);
                    return false;
                }
                j = j + 1;
            }
            i = i + 1;
        }
        true
    }

    /// Returns the qualifier pairs, known to be sorted strictly by key.
    pub(crate) fn sorted_qualifiers(&self) -> (r: &Vec<(String, String)>)
        ensures
            pair_views(r@) == self@.qualifiers,
            sorted_by_key(self@.qualifiers),
    {
        proof {
            use_type_invariant(self);
        }
        &self.qualifiers
    }
}

impl Clone for NormalizedPurl {
    fn clone(&self) -> (r: Self)
        ensures
            r@ == self@,
    {
        proof {
            use_type_invariant(self);
        }
        let mut qualifiers: Vec<(String, String)> = Vec::new();
        let mut i: usize = 0;
        while i < self.qualifiers.len()
            invariant
                i <= self.qualifiers@.len(),
                qualifiers@.len() == i,
                forall|k: int| 0 <= k < i ==> (#[trigger] qualifiers@[k]).0@ == self.qualifiers@[k].0@
                    && qualifiers@[k].1@ == self.qualifiers@[k].1@,
            decreases self.qualifiers.len() - i,
        {
            let key = self.qualifiers[i].0.clone();
            let value = self.qualifiers[i].1.clone();
            qualifiers.push((key, value));
            i = i + 1;
        }
        assert(pair_views(qualifiers@) =~= pair_views(self.qualifiers@));
        NormalizedPurl {
            canonical: self.canonical.clone(),
            full_identity: self.full_identity.clone(),
            coordinate: self.coordinate.clone(),
            ty: self.ty.clone(),
            namespace: clone_opt(&self.namespace),
            name: self.name.clone(),
            version: clone_opt(&self.version),
            qualifiers,
            subpath: clone_opt(&self.subpath),
        }
    }
}

impl core::str::FromStr for NormalizedPurl {
    type Err = IdentityError;

    fn from_str(value: &str) -> Result<Self, Self::Err> {
        NormalizedPurl::parse(value)
    }
}

} // verus!
