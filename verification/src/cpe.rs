//! CPE names: the CPE 2.3 formatted binding, legacy CPE 2.2 URIs, and the
//! canonical, binding-independent [`NormalizedCpe`].
use vstd::prelude::*;

use crate::identity::{IdentityError, IdentityErrorView};
use crate::text::{chars_of, string_of, starts_with, ascii_lower, views, split_on, decimal, char_debug_text};
use crate::fingerprint::hex_value;
use cpe::cpe::Cpe;
use cpe::uri::Uri;
use cpe::component::Component;

verus! {

// ---------------------------------------------------------------------------
// Character classes of the CPE 2.3 formatted binding.
// ---------------------------------------------------------------------------

/// Unreserved characters: ASCII letters and digits, `-`, `.`, and `_`.
pub open spec fn is_unreserved(c: char) -> bool {
    ('a' <= c && c <= 'z') || ('A' <= c && c <= 'Z') || ('0' <= c && c <= '9') || c == '-'
        || c == '.' || c == '_'
}

/// Punctuation that must be quoted with a backslash.
pub open spec fn is_punctuation(c: char) -> bool {
    c == '!' || c == '"' || c == '#' || c == '$' || c == '%' || c == '&' || c == '\'' || c == '('
        || c == ')' || c == '+' || c == ',' || c == '/' || c == ':' || c == ';' || c == '<' || c
        == '=' || c == '>' || c == '@' || c == '[' || c == ']' || c == '^' || c == '`' || c == '{'
        || c == '|' || c == '}' || c == '~'
}

/// Characters that may follow a backslash.
pub open spec fn is_quotable(c: char) -> bool {
    c == '\\' || c == '*' || c == '?' || is_punctuation(c)
}

fn unreserved(c: char) -> (r: bool)
    ensures
        r == is_unreserved(c),
{
    ('a' <= c && c <= 'z') || ('A' <= c && c <= 'Z') || ('0' <= c && c <= '9') || c == '-' || c
        == '.' || c == '_'
}

fn punctuation(c: char) -> (r: bool)
    ensures
        r == is_punctuation(c),
{
    c == '!' || c == '"' || c == '#' || c == '$' || c == '%' || c == '&' || c == '\'' || c == '('
        || c == ')' || c == '+' || c == ',' || c == '/' || c == ':' || c == ';' || c == '<' || c
        == '=' || c == '>' || c == '@' || c == '[' || c == ']' || c == '^' || c == '`' || c == '{'
        || c == '|' || c == '}' || c == '~'
}

fn quotable(c: char) -> (r: bool)
    ensures
        r == is_quotable(c),
{
    c == '\\' || c == '*' || c == '?' || punctuation(c)
}

/// The number of bytes of a character in UTF-8 (`char::len_utf8`).
pub open spec fn utf8_width(c: char) -> nat {
    if (c as u32) < 0x80 {
        1
    } else if (c as u32) < 0x800 {
        2
    } else if (c as u32) < 0x10000 {
        3
    } else {
        4
    }
}

/// The number of bytes of a character sequence in UTF-8.
pub open spec fn utf8_len(s: Seq<char>) -> nat
    decreases s.len(),
{
    if s.len() == 0 {
        0
    } else {
        utf8_len(s.drop_last()) + utf8_width(s.last())
    }
}

fn width_of(c: char) -> (r: u128)
    ensures
        r == utf8_width(c),
{
    if (c as u32) < 0x80 {
        1
    } else if (c as u32) < 0x800 {
        2
    } else if (c as u32) < 0x10000 {
        3
    } else {
        4
    }
}

proof fn lemma_utf8_len_bound(s: Seq<char>)
    ensures
        utf8_len(s) <= 4 * s.len(),
    decreases s.len(),
{
    if s.len() > 0 {
        lemma_utf8_len_bound(s.drop_last());
    }
}

// ---------------------------------------------------------------------------
// Atoms and fields.
// ---------------------------------------------------------------------------

/// One decoded unit of a CPE value.
#[derive(Clone, Copy, Debug, PartialEq, Eq, Hash, PartialOrd, Ord, Structural)]
pub enum CpeAtom {
    /// A literal character.
    Literal(char),
    /// The single-character wildcard `?`.
    WildcardOne,
    /// The multi-character wildcard `*`.
    WildcardMany,
}

/// A component value: ANY, NA, or a value made of atoms.
pub enum FieldModel {
    /// The logical value ANY (`*`).
    Any,
    /// The logical value NA (`-`).
    NotApplicable,
    /// A value given by its atoms.
    Value(Seq<CpeAtom>),
}

/// The character an atom decodes to.
pub open spec fn atom_char(a: CpeAtom) -> char {
    match a {
        CpeAtom::Literal(c) => c,
        CpeAtom::WildcardOne => '?',
        CpeAtom::WildcardMany => '*',
    }
}

/// The decoded text of atoms.
pub open spec fn decoded_of(atoms: Seq<CpeAtom>) -> Seq<char> {
    Seq::new(atoms.len(), |i: int| atom_char(atoms[i]))
}

/// The decoded text of a field, as the component accessors return it.
pub open spec fn field_str(f: FieldModel) -> Seq<char> {
    match f {
        FieldModel::Any => seq!['*'],
        FieldModel::NotApplicable => seq!['-'],
        FieldModel::Value(atoms) => decoded_of(atoms),
    }
}

/// The concrete decoded value of a field, or `None` for ANY and NA.
pub open spec fn field_concrete(f: FieldModel) -> Option<Seq<char>> {
    match f {
        FieldModel::Value(atoms) => Some(decoded_of(atoms)),
        _ => None,
    }
}

#[derive(Clone, Debug, Eq, Hash, Ord, PartialEq, PartialOrd)]
struct CpeValue {
    decoded: String,
    atoms: Vec<CpeAtom>,
}

#[derive(Clone, Debug, Eq, Hash, Ord, PartialEq, PartialOrd)]
enum CpeField {
    Any,
    NotApplicable,
    Value(CpeValue),
}

impl CpeField {
    spec fn model(&self) -> FieldModel {
        match self {
            CpeField::Any => FieldModel::Any,
            CpeField::NotApplicable => FieldModel::NotApplicable,
            CpeField::Value(v) => FieldModel::Value(v.atoms@),
        }
    }

    spec fn wf(&self) -> bool {
        match self {
            CpeField::Value(v) => v.decoded@ == decoded_of(v.atoms@),
            _ => true,
        }
    }

    fn as_str(&self) -> (r: &str)
        requires
            self.wf(),
        ensures
            r@ == field_str(self.model()),
    {
        match self {
            CpeField::Any => {
                proof {
                    reveal_strlit("*");
                }
                "*"
            },
            CpeField::NotApplicable => {
                proof {
                    reveal_strlit("-");
                }
                "-"
            },
            CpeField::Value(v) => v.decoded.as_str(),
        }
    }

    fn concrete(&self) -> (r: Option<&str>)
        requires
            self.wf(),
        ensures
            crate::fingerprint::opt_view(r) == field_concrete(self.model()),
    {
        match self {
            CpeField::Value(v) => Some(v.decoded.as_str()),
            _ => None,
        }
    }
}

fn value_from_atoms(atoms: Vec<CpeAtom>) -> (v: CpeValue)
    ensures
        v.atoms@ == atoms@,
        v.decoded@ == decoded_of(atoms@),
{
    let mut decoded: Vec<char> = Vec::new();
    let mut i: usize = 0;
    while i < atoms.len()
        invariant
            i <= atoms.len(),
            decoded@ =~= decoded_of(atoms@.take(i as int)),
        decreases atoms.len() - i,
    {
        let c = match atoms[i] {
            CpeAtom::Literal(c) => c,
            CpeAtom::WildcardOne => '?',
            CpeAtom::WildcardMany => '*',
        };
        decoded.push(c);
        i = i + 1;
        assert(decoded@ =~= decoded_of(atoms@.take(i as int)));
    }
    assert(atoms@.take(atoms.len() as int) =~= atoms@);
    CpeValue { decoded: string_of(decoded.as_slice()), atoms }
}

// ---------------------------------------------------------------------------
// Splitting the formatted binding at unescaped colons.
// ---------------------------------------------------------------------------

/// The state of the left-to-right scan that splits a formatted body.
pub struct SplitState {
    /// Completed raw components.
    pub fields: Seq<Seq<char>>,
    /// The raw component being collected, escapes included.
    pub current: Seq<char>,
    /// Whether the previous character was an unpaired backslash.
    pub escaped: bool,
}

/// One step of the split scan.
pub open spec fn split_step(st: SplitState, c: char) -> SplitState {
    if st.escaped {
        SplitState { current: st.current.push('\\').push(c), escaped: false, ..st }
    } else if c == '\\' {
        SplitState { escaped: true, ..st }
    } else if c == ':' {
        SplitState { fields: st.fields.push(st.current), current: seq![], ..st }
    } else {
        SplitState { current: st.current.push(c), ..st }
    }
}

/// The state after scanning `s`.
pub open spec fn split_scan(s: Seq<char>) -> SplitState
    decreases s.len(),
{
    if s.len() == 0 {
        SplitState { fields: seq![], current: seq![], escaped: false }
    } else {
        split_step(split_scan(s.drop_last()), s.last())
    }
}

/// The raw components of a formatted body, or the error for a trailing
/// unpaired backslash (reporting the byte offset it started at).
pub open spec fn split_formatted_spec(body: Seq<char>) -> Result<Seq<Seq<char>>, IdentityErrorView> {
    let st = split_scan(body);
    if st.escaped {
        Err(IdentityErrorView::InvalidCpeEscape(st.fields.len() as usize, utf8_len(st.current) as usize))
    } else {
        Ok(st.fields.push(st.current))
    }
}

fn split_formatted(body: &[char]) -> (r: Result<Vec<Vec<char>>, IdentityError>)
    ensures
        match (r, split_formatted_spec(body@)) {
            (Ok(v), Ok(s)) => views(v@) == s,
            (Err(e), Err(s)) => e@ == s,
            _ => false,
        },
{
    let mut fields: Vec<Vec<char>> = Vec::new();
    let mut current: Vec<char> = Vec::new();
    let mut escaped = false;
    let mut current_bytes: u128 = 0;
    let mut i: usize = 0;
    while i < body.len()
        invariant
            i <= body.len(),
            views(fields@) == split_scan(body@.take(i as int)).fields,
            current@ == split_scan(body@.take(i as int)).current,
            escaped == split_scan(body@.take(i as int)).escaped,
            current_bytes == utf8_len(current@),
            current@.len() <= 2 * i,
            fields@.len() <= i,
        decreases body.len() - i,
    {
        proof {
            lemma_utf8_len_bound(current@);
        }
        let c = body[i];
        assert(body@.take(i + 1).drop_last() =~= body@.take(i as int));
        if escaped {
            let ghost old_current = current@;
            current.push('\\');
            current.push(c);
            current_bytes = current_bytes + 1 + width_of(c);
            escaped = false;
            proof {
                assert(current@.drop_last() =~= old_current.push('\\'));
                assert(current@.drop_last().drop_last() =~= old_current);
                assert(utf8_width('\\') == 1);
                assert(utf8_len(current@.drop_last()) == utf8_len(old_current) + 1);
                assert(utf8_len(current@) == utf8_len(current@.drop_last()) + utf8_width(c));
            }
        } else if c == '\\' {
            escaped = true;
        } else if c == ':' {
            let done = current;
            fields.push(done);
            current = Vec::new();
            current_bytes = 0;
            proof {
                assert(views(fields@) =~= split_scan(body@.take(i + 1)).fields);
            }
        } else {
            current.push(c);
            current_bytes = current_bytes + width_of(c);
            proof {
                assert(current@.drop_last() == split_scan(body@.take(i as int)).current);
                assert(utf8_len(current@) == utf8_len(current@.drop_last()) + utf8_width(c));
            }
        }
        i = i + 1;
    }
    assert(body@.take(body.len() as int) =~= body@);
    if escaped {
        return Err(IdentityError::InvalidCpeEscape {
            component: fields.len(),
            position: current_bytes as usize,
        });
    }
    let last = current;
    fields.push(last);
    assert(views(fields@) =~= split_formatted_spec(body@)->Ok_0);
    Ok(fields)
}

// ---------------------------------------------------------------------------
// Decoding one formatted component.
// ---------------------------------------------------------------------------

/// Only some characters may be quoted.
pub const REASON_QUOTED: &'static str = "only backslash, wildcard, and punctuation characters may be quoted";

/// Other punctuation must be quoted.
pub const REASON_UNQUOTED: &'static str = "non-alphanumeric punctuation must be quoted";

/// Formatted components are never empty.
pub const REASON_EMPTY: &'static str = "formatted components must not be empty";

/// A value needs a literal character.
pub const REASON_NO_LITERAL: &'static str = "a non-logical value must contain at least one literal character";

/// Wildcards stand only at the edges of a value.
pub const REASON_EMBEDDED: &'static str = "wildcards may appear only at the beginning or end of a value";

/// Each edge is question marks or one asterisk.
pub const REASON_EDGE: &'static str = "each wildcard edge must be either question marks or one asterisk";

/// Language tags have a restricted form.
pub const REASON_LANGUAGE: &'static str = "language must be a two- or three-letter tag with an optional region";

/// The atoms of `raw` from character `i` on, where `pos` is the byte offset
/// of character `i`; or the first error.
pub open spec fn formatted_atoms(raw: Seq<char>, i: int, pos: nat, component: usize) -> Result<
    Seq<CpeAtom>,
    IdentityErrorView,
>
    decreases raw.len() - i,
{
    if i < 0 || i >= raw.len() {
        Ok(seq![])
    } else {
        let c = raw[i];
        if c == '\\' {
            if i + 1 >= raw.len() {
                Err(IdentityErrorView::InvalidCpeEscape(component, pos as usize))
            } else if !is_quotable(raw[i + 1]) {
                Err(IdentityErrorView::InvalidCpeValue(component, REASON_QUOTED@))
            } else {
                match formatted_atoms(raw, i + 2, pos + 1 + utf8_width(raw[i + 1]), component) {
                    Ok(rest) => Ok(seq![CpeAtom::Literal(raw[i + 1])] + rest),
                    Err(e) => Err(e),
                }
            }
        } else if c == '?' || c == '*' || is_unreserved(c) {
            let atom = if c == '?' {
                CpeAtom::WildcardOne
            } else if c == '*' {
                CpeAtom::WildcardMany
            } else {
                CpeAtom::Literal(c)
            };
            match formatted_atoms(raw, i + 1, pos + utf8_width(c), component) {
                Ok(rest) => Ok(seq![atom] + rest),
                Err(e) => Err(e),
            }
        } else {
            Err(IdentityErrorView::InvalidCpeValue(component, REASON_UNQUOTED@))
        }
    }
}

/// Prepending atoms to a scan result.
pub open spec fn prepend_atoms(
    done: Seq<CpeAtom>,
    r: Result<Seq<CpeAtom>, IdentityErrorView>,
) -> Result<Seq<CpeAtom>, IdentityErrorView> {
    match r {
        Ok(rest) => Ok(done + rest),
        Err(e) => Err(e),
    }
}

fn decode_formatted_atoms(raw: &[char], component: usize) -> (r: Result<Vec<CpeAtom>, IdentityError>)
    ensures
        match (r, formatted_atoms(raw@, 0, 0, component)) {
            (Ok(v), Ok(s)) => v@ == s,
            (Err(e), Err(s)) => e@ == s,
            _ => false,
        },
{
    let mut atoms: Vec<CpeAtom> = Vec::new();
    let mut i: usize = 0;
    let mut pos: u128 = 0;
    while i < raw.len()
        invariant
            i <= raw.len(),
            pos <= 4 * i,
            formatted_atoms(raw@, 0, 0, component) == prepend_atoms(
                atoms@,
                formatted_atoms(raw@, i as int, pos as nat, component),
            ),
        decreases raw.len() - i,
    {
        let c = raw[i];
        if c == '\\' {
            if i + 1 >= raw.len() {
                return Err(IdentityError::InvalidCpeEscape { component, position: pos as usize });
            }
            let quoted = raw[i + 1];
            if !quotable(quoted) {
                return Err(IdentityError::InvalidCpeValue { component, reason: REASON_QUOTED });
            }
            let ghost before = atoms@;
            atoms.push(CpeAtom::Literal(quoted));
            assert(atoms@ =~= before + seq![CpeAtom::Literal(quoted)]);
            proof {
                match formatted_atoms(raw@, i + 2, (pos + 1 + utf8_width(quoted)) as nat, component) {
                    Ok(rest) => {
                        assert(before + (seq![CpeAtom::Literal(quoted)] + rest) =~= atoms@ + rest);
                    },
                    Err(e) => {},
                }
            }
            pos = pos + 1 + width_of(quoted);
            i = i + 2;
        } else if c == '?' || c == '*' || unreserved(c) {
            let atom = if c == '?' {
                CpeAtom::WildcardOne
            } else if c == '*' {
                CpeAtom::WildcardMany
            } else {
                CpeAtom::Literal(c)
            };
            let ghost before = atoms@;
            atoms.push(atom);
            assert(atoms@ =~= before + seq![atom]);
            proof {
                match formatted_atoms(raw@, i + 1, (pos + utf8_width(c)) as nat, component) {
                    Ok(rest) => {
                        assert(before + (seq![atom] + rest) =~= atoms@ + rest);
                    },
                    Err(e) => {},
                }
            }
            pos = pos + width_of(c);
            i = i + 1;
        } else {
            return Err(IdentityError::InvalidCpeValue { component, reason: REASON_UNQUOTED });
        }
    }
    assert(atoms@ + seq![] =~= atoms@);
    Ok(atoms)
}

// ---------------------------------------------------------------------------
// The wildcard grammar of values.
// ---------------------------------------------------------------------------

/// Whether an atom is a literal.
pub open spec fn is_literal(a: CpeAtom) -> bool {
    a is Literal
}

/// Whether a wildcard edge is empty, only question marks, or one asterisk.
pub open spec fn edge_ok(edge: Seq<CpeAtom>) -> bool {
    ||| edge.len() == 0
    ||| forall|k: int| 0 <= k < edge.len() ==> edge[k] == CpeAtom::WildcardOne
    ||| edge.len() == 1 && edge[0] == CpeAtom::WildcardMany
}

/// Why atoms violate the wildcard grammar, if they do: a value needs a
/// literal, wildcards stand only before the first or after the last literal,
/// and each edge is question marks or one asterisk.
#[verifier::opaque]
pub open spec fn wildcard_error(atoms: Seq<CpeAtom>) -> Option<Seq<char>> {
    if !(exists|k: int| 0 <= k < atoms.len() && is_literal(#[trigger] atoms[k])) {
        Some(REASON_NO_LITERAL@)
    } else {
        let first = choose|f: int|
            0 <= f < atoms.len() && is_literal(atoms[f]) && forall|k: int|
                0 <= k < f ==> !is_literal(#[trigger] atoms[k]);
        let last = choose|l: int|
            0 <= l < atoms.len() && is_literal(atoms[l]) && forall|k: int|
                l < k < atoms.len() ==> !is_literal(#[trigger] atoms[k]);
        if exists|k: int| first < k < last && !is_literal(#[trigger] atoms[k]) {
            Some(REASON_EMBEDDED@)
        } else if !edge_ok(atoms.subrange(0, first)) || !edge_ok(atoms.subrange(last + 1, atoms.len() as int)) {
            Some(REASON_EDGE@)
        } else {
            None
        }
    }
}

fn edge_valid(atoms: &Vec<CpeAtom>, from: usize, to: usize) -> (r: bool)
    requires
        from <= to <= atoms.len(),
    ensures
        r == edge_ok(atoms@.subrange(from as int, to as int)),
{
    let ghost edge = atoms@.subrange(from as int, to as int);
    if from == to {
        return true;
    }
    let mut all_one = true;
    let mut i = from;
    while i < to
        invariant
            from <= i <= to <= atoms.len(),
            edge == atoms@.subrange(from as int, to as int),
            all_one == forall|k: int| 0 <= k < i - from ==> edge[k] == CpeAtom::WildcardOne,
        decreases to - i,
    {
        if atoms[i] != CpeAtom::WildcardOne {
            all_one = false;
        }
        proof {
            assert(edge[i - from] == atoms@[i as int]);
            if all_one {
                assert forall|k: int| 0 <= k < i + 1 - from implies edge[k] == CpeAtom::WildcardOne by {
                    if k == i - from {
                    }
                }
            }
        }
        i = i + 1;
    }
    if all_one {
        return true;
    }
    to - from == 1 && atoms[from] == CpeAtom::WildcardMany
}

fn validate_wildcards(atoms: &Vec<CpeAtom>, component: usize) -> (r: Result<(), IdentityError>)
    ensures
        match (r, wildcard_error(atoms@)) {
            (Ok(_), None) => true,
            (Err(e), Some(reason)) => e@ == IdentityErrorView::InvalidCpeValue(component, reason),
            _ => false,
        },
{
    reveal(wildcard_error);
    let mut first: usize = 0;
    while first < atoms.len() && !matches!(atoms[first], CpeAtom::Literal(_))
        invariant
            first <= atoms.len(),
            forall|k: int| 0 <= k < first ==> !is_literal(#[trigger] atoms@[k]),
        decreases atoms.len() - first,
    {
        first = first + 1;
    }
    if first == atoms.len() {
        return Err(IdentityError::InvalidCpeValue { component, reason: REASON_NO_LITERAL });
    }
    let mut last: usize = atoms.len() - 1;
    while !matches!(atoms[last], CpeAtom::Literal(_))
        invariant
            first <= last < atoms.len(),
            is_literal(atoms@[first as int]),
            forall|k: int| last < k < atoms.len() ==> !is_literal(#[trigger] atoms@[k]),
        decreases last,
    {
        last = last - 1;
    }
    let ghost f = choose|f: int|
        0 <= f < atoms@.len() && is_literal(atoms@[f]) && forall|k: int|
            0 <= k < f ==> !is_literal(#[trigger] atoms@[k]);
    let ghost l = choose|l: int|
        0 <= l < atoms@.len() && is_literal(atoms@[l]) && forall|k: int|
            l < k < atoms@.len() ==> !is_literal(#[trigger] atoms@[k]);
    assert(f == first) by {
        assert(exists|f: int|
            0 <= f < atoms@.len() && is_literal(atoms@[f]) && forall|k: int|
                0 <= k < f ==> !is_literal(#[trigger] atoms@[k])) by {
            assert(is_literal(atoms@[first as int]));
        }
        if f < first {
        } else if f > first {
            assert(!is_literal(atoms@[first as int]));
        }
    }
    assert(l == last) by {
        assert(exists|l: int|
            0 <= l < atoms@.len() && is_literal(atoms@[l]) && forall|k: int|
                l < k < atoms@.len() ==> !is_literal(#[trigger] atoms@[k])) by {
            assert(is_literal(atoms@[last as int]));
        }
        if l > last {
        } else if l < last {
            assert(!is_literal(atoms@[last as int]));
        }
    }
    let mut embedded = false;
    let mut k = first;
    while k < last
        invariant
            first <= k <= last < atoms.len(),
            embedded == exists|j: int| first < j <= k && j < last && !is_literal(#[trigger] atoms@[j]),
        decreases last - k,
    {
        if k + 1 < last && !matches!(atoms[k + 1], CpeAtom::Literal(_)) {
            embedded = true;
        }
        proof {
            if !embedded {
                assert forall|j: int| first < j <= k + 1 && j < last implies is_literal(#[trigger] atoms@[j]) by {
                    if j <= k {
                        if !is_literal(atoms@[j]) {
                            assert(exists|j2: int| first < j2 <= k && j2 < last && !is_literal(#[trigger] atoms@[j2]));
                        }
                    }
                }
            }
        }
        k = k + 1;
    }
    if embedded {
        return Err(IdentityError::InvalidCpeValue { component, reason: REASON_EMBEDDED });
    }
    assert(!exists|j: int| first < j < last && !is_literal(#[trigger] atoms@[j]));
    if !edge_valid(atoms, 0, first) || !edge_valid(atoms, last + 1, atoms.len()) {
        return Err(IdentityError::InvalidCpeValue { component, reason: REASON_EDGE });
    }
    Ok(())
}

// ---------------------------------------------------------------------------
// Parsing the components of the formatted binding.
// ---------------------------------------------------------------------------

/// The field a raw formatted component denotes, or the first error.
#[verifier::opaque]
pub open spec fn formatted_field_spec(raw: Seq<char>, component: usize) -> Result<FieldModel, IdentityErrorView> {
    if raw == seq!['*'] {
        Ok(FieldModel::Any)
    } else if raw == seq!['-'] {
        Ok(FieldModel::NotApplicable)
    } else if raw.len() == 0 {
        Err(IdentityErrorView::InvalidCpeValue(component, REASON_EMPTY@))
    } else {
        match formatted_atoms(raw, 0, 0, component) {
            Err(e) => Err(e),
            Ok(atoms) => match wildcard_error(atoms) {
                Some(reason) => Err(IdentityErrorView::InvalidCpeValue(component, reason)),
                None => Ok(FieldModel::Value(atoms)),
            },
        }
    }
}

fn parse_formatted_field(raw: &Vec<char>, component: usize) -> (r: Result<CpeField, IdentityError>)
    ensures
        match (r, formatted_field_spec(raw@, component)) {
            (Ok(f), Ok(m)) => f.model() == m && f.wf(),
            (Err(e), Err(m)) => e@ == m,
            _ => false,
        },
{
    reveal(formatted_field_spec);
    if raw.len() == 1 && raw[0] == '*' {
        assert(raw@ =~= seq!['*']);
        return Ok(CpeField::Any);
    }
    if raw.len() == 1 && raw[0] == '-' {
        assert(raw@ =~= seq!['-']);
        return Ok(CpeField::NotApplicable);
    }
    assert(raw@ != seq!['*'] && raw@ != seq!['-']) by {
        if raw@.len() == 1 {
            assert(raw@[0] == raw[0]);
        }
    }
    if raw.len() == 0 {
        return Err(IdentityError::InvalidCpeValue { component, reason: REASON_EMPTY });
    }
    let atoms = match decode_formatted_atoms(raw.as_slice(), component) {
        Ok(a) => a,
        Err(e) => return Err(e),
    };
    match validate_wildcards(&atoms, component) {
        Ok(_) => {},
        Err(e) => return Err(e),
    }
    Ok(CpeField::Value(value_from_atoms(atoms)))
}

/// The fields of raw components from index `i` on, or the first error.
pub open spec fn formatted_fields_from(raws: Seq<Seq<char>>, i: int) -> Result<Seq<FieldModel>, IdentityErrorView>
    decreases raws.len() - i,
{
    if i < 0 || i >= raws.len() {
        Ok(seq![])
    } else {
        match formatted_field_spec(raws[i], i as usize) {
            Err(e) => Err(e),
            Ok(f) => match formatted_fields_from(raws, i + 1) {
                Ok(rest) => Ok(seq![f] + rest),
                Err(e) => Err(e),
            },
        }
    }
}

/// The eleven fields of a formatted body (what follows `cpe:2.3:`).
#[verifier::opaque]
pub open spec fn formatted_body_spec(body: Seq<char>) -> Result<Seq<FieldModel>, IdentityErrorView> {
    match split_formatted_spec(body) {
        Err(e) => Err(e),
        Ok(raws) => if raws.len() != 11 {
            Err(IdentityErrorView::CpeComponentCount(11, raws.len() as usize))
        } else {
            formatted_fields_from(raws, 0)
        },
    }
}

/// The models of a sequence of fields.
spec fn models(v: Seq<CpeField>) -> Seq<FieldModel> {
    Seq::new(v.len(), |i: int| v[i].model())
}

spec fn all_wf(v: Seq<CpeField>) -> bool {
    forall|i: int| 0 <= i < v.len() ==> (#[trigger] v[i]).wf()
}

spec fn prepend_fields(
    done: Seq<FieldModel>,
    r: Result<Seq<FieldModel>, IdentityErrorView>,
) -> Result<Seq<FieldModel>, IdentityErrorView> {
    match r {
        Ok(rest) => Ok(done + rest),
        Err(e) => Err(e),
    }
}

#[verifier::rlimit(40)]
fn parse_formatted_body(body: &[char]) -> (r: Result<Vec<CpeField>, IdentityError>)
    ensures
        match (r, formatted_body_spec(body@)) {
            (Ok(v), Ok(m)) => models(v@) == m && all_wf(v@) && v@.len() == 11,
            (Err(e), Err(m)) => e@ == m,
            _ => false,
        },
{
    reveal(formatted_body_spec);
    let raws = match split_formatted(body) {
        Ok(r) => r,
        Err(e) => return Err(e),
    };
    if raws.len() != 11 {
        return Err(IdentityError::CpeComponentCount { expected: 11, actual: raws.len() });
    }
    let ghost rv = views(raws@);
    assert(formatted_body_spec(body@) == formatted_fields_from(rv, 0));
    let mut fields: Vec<CpeField> = Vec::new();
    let mut i: usize = 0;
    while i < raws.len()
        invariant
            i <= raws.len() == 11,
            rv == views(raws@),
            formatted_body_spec(body@) == formatted_fields_from(rv, 0),
            fields@.len() == i,
            all_wf(fields@),
            formatted_fields_from(rv, 0) == prepend_fields(models(fields@), formatted_fields_from(rv, i as int)),
        decreases raws.len() - i,
    {
        assert(rv[i as int] == raws@[i as int]@);
        let f = match parse_formatted_field(&raws[i], i) {
            Ok(f) => f,
            Err(e) => {
                proof {
                    assert(formatted_fields_from(rv, i as int) == Err::<Seq<FieldModel>, IdentityErrorView>(e@));
                    assert(formatted_fields_from(rv, 0) == Err::<Seq<FieldModel>, IdentityErrorView>(e@));
                    assert(formatted_body_spec(body@) == formatted_fields_from(rv, 0));
                }
                return Err(e);
            },
        };
        assert(formatted_field_spec(rv[i as int], i) == Ok::<FieldModel, IdentityErrorView>(f.model()));
        let ghost before = models(fields@);
        fields.push(f);
        proof {
            assert(models(fields@) =~= before + seq![f.model()]);
            match formatted_fields_from(rv, i + 1) {
                Ok(rest) => {
                    assert(before + (seq![f.model()] + rest) =~= models(fields@) + rest);
                },
                Err(e) => {},
            }
        }
        i = i + 1;
    }
    assert(models(fields@) + seq![] =~= models(fields@));
    Ok(fields)
}

// ---------------------------------------------------------------------------
// Part and language validation.
// ---------------------------------------------------------------------------

/// Why a part component is invalid, if it is: a value must be `a`, `o`, or `h`.
#[verifier::opaque]
pub open spec fn part_error(f: FieldModel) -> Option<IdentityErrorView> {
    match f {
        FieldModel::Value(atoms) => {
            let d = decoded_of(atoms);
            if d == seq!['a'] || d == seq!['o'] || d == seq!['h'] {
                None
            } else {
                Some(IdentityErrorView::InvalidCpePart(d))
            }
        },
        _ => None,
    }
}

fn validate_part(f: &CpeField) -> (r: Result<(), IdentityError>)
    requires
        f.wf(),
    ensures
        match (r, part_error(f.model())) {
            (Ok(_), None) => true,
            (Err(e), Some(m)) => e@ == m,
            _ => false,
        },
{
    reveal(part_error);
    match f {
        CpeField::Value(v) => {
            let d = chars_of(v.decoded.as_str());
            if d.len() == 1 && (d[0] == 'a' || d[0] == 'o' || d[0] == 'h') {
                assert(d@ =~= seq![d[0]]);
                return Ok(());
            }
            assert(!(d@ == seq!['a'] || d@ == seq!['o'] || d@ == seq!['h'])) by {
                if d@.len() == 1 {
                    assert(d@[0] == d[0]);
                }
            }
            Err(IdentityError::InvalidCpePart { value: v.decoded.clone() })
        },
        _ => Ok(()),
    }
}

/// Whether a character is an ASCII letter.
pub open spec fn is_ascii_alpha(c: char) -> bool {
    ('a' <= c && c <= 'z') || ('A' <= c && c <= 'Z')
}

/// Whether a character is an ASCII digit.
pub open spec fn is_ascii_digit(c: char) -> bool {
    '0' <= c && c <= '9'
}

/// Whether every character of `s` is an ASCII letter.
pub open spec fn all_alpha(s: Seq<char>) -> bool {
    forall|i: int| 0 <= i < s.len() ==> is_ascii_alpha(#[trigger] s[i])
}

/// Whether every character of `s` is an ASCII digit.
pub open spec fn all_digit(s: Seq<char>) -> bool {
    forall|i: int| 0 <= i < s.len() ==> is_ascii_digit(#[trigger] s[i])
}

/// Whether a decoded language value is a two- or three-letter tag with an
/// optional two-letter or three-digit region.
#[verifier::opaque]
pub open spec fn language_tag_ok(d: Seq<char>) -> bool {
    let tags = split_on(d, '-');
    let language = tags[0];
    &&& (language.len() == 2 || language.len() == 3) && all_alpha(language)
    &&& tags.len() <= 2
    &&& tags.len() == 2 ==> ((tags[1].len() == 2 && all_alpha(tags[1])) || (tags[1].len() == 3
        && all_digit(tags[1])))
}

fn all_alpha_exec(v: &Vec<char>) -> (r: bool)
    ensures
        r == all_alpha(v@),
{
    let mut i: usize = 0;
    while i < v.len()
        invariant
            i <= v.len(),
            forall|k: int| 0 <= k < i ==> is_ascii_alpha(#[trigger] v@[k]),
        decreases v.len() - i,
    {
        let c = v[i];
        if !(('a' <= c && c <= 'z') || ('A' <= c && c <= 'Z')) {
            assert(!is_ascii_alpha(v@[i as int]));
            return false;
        }
        i = i + 1;
    }
    true
}

fn all_digit_exec(v: &Vec<char>) -> (r: bool)
    ensures
        r == all_digit(v@),
{
    let mut i: usize = 0;
    while i < v.len()
        invariant
            i <= v.len(),
            forall|k: int| 0 <= k < i ==> is_ascii_digit(#[trigger] v@[k]),
        decreases v.len() - i,
    {
        let c = v[i];
        if !('0' <= c && c <= '9') {
            assert(!is_ascii_digit(v@[i as int]));
            return false;
        }
        i = i + 1;
    }
    true
}

/// Why a language component is invalid, if it is.
#[verifier::opaque]
pub open spec fn language_error(f: FieldModel) -> Option<IdentityErrorView> {
    match f {
        FieldModel::Value(atoms) => if language_tag_ok(decoded_of(atoms)) {
            None
        } else {
            Some(IdentityErrorView::InvalidCpeValue(6, REASON_LANGUAGE@))
        },
        _ => None,
    }
}

fn validate_language(f: &CpeField) -> (r: Result<(), IdentityError>)
    requires
        f.wf(),
    ensures
        match (r, language_error(f.model())) {
            (Ok(_), None) => true,
            (Err(e), Some(m)) => e@ == m,
            _ => false,
        },
{
    reveal(language_tag_ok);
    reveal(language_error);
    match f {
        CpeField::Value(v) => {
            let d = chars_of(v.decoded.as_str());
            let tags = crate::text::split_chars(d.as_slice(), '-');
            let ghost tv = views(tags@);
            assert(tv[0] == tags@[0]@);
            let language = &tags[0];
            let valid_language = (language.len() == 2 || language.len() == 3) && all_alpha_exec(language);
            let valid_region = if tags.len() >= 2 {
                assert(tv[1] == tags@[1]@);
                let region = &tags[1];
                (region.len() == 2 && all_alpha_exec(region)) || (region.len() == 3 && all_digit_exec(region))
            } else {
                true
            };
            if valid_language && valid_region && tags.len() <= 2 {
                Ok(())
            } else {
                Err(IdentityError::InvalidCpeValue { component: 6, reason: REASON_LANGUAGE })
            }
        },
        _ => Ok(()),
    }
}

// ---------------------------------------------------------------------------
// ASCII lower-casing of values.
// ---------------------------------------------------------------------------

/// An atom with an ASCII letter lower-cased.
pub open spec fn lower_atom(a: CpeAtom) -> CpeAtom {
    match a {
        CpeAtom::Literal(c) => CpeAtom::Literal(ascii_lower(c)),
        _ => a,
    }
}

/// A field with its ASCII letters lower-cased.
pub open spec fn lower_field(f: FieldModel) -> FieldModel {
    match f {
        FieldModel::Value(atoms) => FieldModel::Value(Seq::new(atoms.len(), |i: int| lower_atom(atoms[i]))),
        _ => f,
    }
}

fn lowercase_field(f: CpeField) -> (r: CpeField)
    requires
        f.wf(),
    ensures
        r.wf(),
        r.model() == lower_field(f.model()),
{
    match f {
        CpeField::Value(v) => {
            let mut atoms: Vec<CpeAtom> = Vec::new();
            let mut i: usize = 0;
            while i < v.atoms.len()
                invariant
                    i <= v.atoms.len(),
                    atoms@ =~= Seq::new(i as nat, |k: int| lower_atom(v.atoms@[k])),
                decreases v.atoms.len() - i,
            {
                let a = match v.atoms[i] {
                    CpeAtom::Literal(c) => CpeAtom::Literal(crate::text::to_ascii_lower(c)),
                    other => other,
                };
                atoms.push(a);
                i = i + 1;
            }
            CpeField::Value(value_from_atoms(atoms))
        },
        other => other,
    }
}

// ---------------------------------------------------------------------------
// The canonical formatted text.
// ---------------------------------------------------------------------------

/// The formatted text of one atom.
pub open spec fn atom_text(a: CpeAtom) -> Seq<char> {
    match a {
        CpeAtom::Literal(c) => if is_unreserved(c) {
            seq![c]
        } else {
            seq!['\\', c]
        },
        CpeAtom::WildcardOne => seq!['?'],
        CpeAtom::WildcardMany => seq!['*'],
    }
}

/// The formatted text of atoms.
pub open spec fn atoms_text(atoms: Seq<CpeAtom>) -> Seq<char>
    decreases atoms.len(),
{
    if atoms.len() == 0 {
        seq![]
    } else {
        atoms_text(atoms.drop_last()) + atom_text(atoms.last())
    }
}

/// The formatted text of a field.
pub open spec fn field_text(f: FieldModel) -> Seq<char> {
    match f {
        FieldModel::Any => seq!['*'],
        FieldModel::NotApplicable => seq!['-'],
        FieldModel::Value(atoms) => atoms_text(atoms),
    }
}

/// The formatted texts of fields joined by colons.
pub open spec fn joined_fields(fields: Seq<FieldModel>) -> Seq<char>
    decreases fields.len(),
{
    if fields.len() == 0 {
        seq![]
    } else if fields.len() == 1 {
        field_text(fields[0])
    } else {
        joined_fields(fields.drop_last()) + seq![':'] + field_text(fields.last())
    }
}

/// The prefix of the CPE 2.3 formatted binding.
pub open spec fn cpe23_prefix() -> Seq<char> {
    seq!['c', 'p', 'e', ':', '2', '.', '3', ':']
}

/// The canonical formatted string of fields.
pub open spec fn format_fields(fields: Seq<FieldModel>) -> Seq<char> {
    cpe23_prefix() + joined_fields(fields)
}

fn push_field_text(out: &mut Vec<char>, f: &CpeField)
    ensures
        final(out)@ == old(out)@ + field_text(f.model()),
{
    match f {
        CpeField::Any => out.push('*'),
        CpeField::NotApplicable => out.push('-'),
        CpeField::Value(v) => {
            let ghost start = out@;
            let mut i: usize = 0;
            while i < v.atoms.len()
                invariant
                    i <= v.atoms.len(),
                    out@ == start + atoms_text(v.atoms@.take(i as int)),
                decreases v.atoms.len() - i,
            {
                let ghost before = out@;
                match v.atoms[i] {
                    CpeAtom::Literal(c) => {
                        if !unreserved(c) {
                            out.push('\\');
                        }
                        out.push(c);
                    },
                    CpeAtom::WildcardOne => out.push('?'),
                    CpeAtom::WildcardMany => out.push('*'),
                }
                assert(out@ =~= before + atom_text(v.atoms@[i as int]));
                assert(v.atoms@.take(i + 1).drop_last() =~= v.atoms@.take(i as int));
                assert(out@ =~= start + atoms_text(v.atoms@.take(i + 1)));
                i = i + 1;
            }
            assert(v.atoms@.take(v.atoms.len() as int) =~= v.atoms@);
        },
    }
}

fn format_cpe(fields: &Vec<CpeField>) -> (r: Vec<char>)
    requires
        fields@.len() >= 1,
    ensures
        r@ == format_fields(models(fields@)),
{
    let mut out: Vec<char> = Vec::new();
    out.push('c');
    out.push('p');
    out.push('e');
    out.push(':');
    out.push('2');
    out.push('.');
    out.push('3');
    out.push(':');
    assert(out@ =~= cpe23_prefix());
    push_field_text(&mut out, &fields[0]);
    assert(models(fields@).take(1) =~= seq![fields@[0].model()]);
    assert(out@ == cpe23_prefix() + joined_fields(models(fields@).take(1)));
    let mut i: usize = 1;
    while i < fields.len()
        invariant
            1 <= i <= fields.len(),
            out@ == cpe23_prefix() + joined_fields(models(fields@).take(i as int)),
        decreases fields.len() - i,
    {
        out.push(':');
        push_field_text(&mut out, &fields[i]);
        assert(models(fields@).take(i + 1).drop_last() =~= models(fields@).take(i as int));
        assert(out@ =~= cpe23_prefix() + joined_fields(models(fields@).take(i + 1)));
        i = i + 1;
    }
    assert(models(fields@).take(fields.len() as int) =~= models(fields@));
    out
}

// ---------------------------------------------------------------------------
// Legacy CPE 2.2 URIs.
// ---------------------------------------------------------------------------

/// A decoded legacy URI component as the `cpe` crate classifies it.
#[derive(Clone, Debug, PartialEq, Eq)]
pub enum LegacyComponent {
    /// An empty component.
    Any,
    /// `-`.
    NotApplicable,
    /// A percent-decoded value.
    Value(String),
}

/// The value of a [`LegacyComponent`].
pub enum LegacyComponentModel {
    /// An empty component.
    Any,
    /// `-`.
    NotApplicable,
    /// A percent-decoded value.
    Value(Seq<char>),
}

impl LegacyComponent {
    /// The value of this component.
    pub open spec fn model(&self) -> LegacyComponentModel {
        match self {
            LegacyComponent::Any => LegacyComponentModel::Any,
            LegacyComponent::NotApplicable => LegacyComponentModel::NotApplicable,
            LegacyComponent::Value(v) => LegacyComponentModel::Value(v@),
        }
    }
}

/// A legacy URI decoded by the `cpe` crate: the part, then vendor, product,
/// version, update, edition, software edition, target software, target
/// hardware, and other, and the language. The part and the language are
/// rendered in the crate's alternate form, where ANY is `*`.
pub struct LegacyUri {
    /// The rendered part: `a`, `o`, `h`, `*`, or empty.
    pub part: String,
    /// The nine components, in the order above.
    pub components: Vec<LegacyComponent>,
    /// The rendered language tag, or `*` when none was given.
    pub language: String,
}

/// The value of a [`LegacyUri`].
pub struct LegacyUriModel {
    /// The rendered part.
    pub part: Seq<char>,
    /// The nine components.
    pub components: Seq<LegacyComponentModel>,
    /// The rendered language.
    pub language: Seq<char>,
}

impl LegacyUri {
    /// The value of this URI.
    pub open spec fn model(&self) -> LegacyUriModel {
        LegacyUriModel {
            part: self.part@,
            components: Seq::new(self.components@.len(), |i: int| self.components@[i].model()),
            language: self.language@,
        }
    }
}

/// The language tag of a rendered language, absent for ANY.
pub open spec fn rendered_language(lang: Seq<char>) -> Option<Seq<char>> {
    if lang == seq!['*'] {
        None
    } else {
        Some(lang)
    }
}

/// What `cpe::uri::Uri::parse` yields for a string: the decoded URI, or the
/// rendered error.
pub uninterp spec fn cpe_uri_parse(value: Seq<char>) -> Result<LegacyUriModel, Seq<char>>;

/// Calls `cpe::uri::Uri::parse`, which strips an `x-` or `p-` vendor
/// prefix, requires `cpe:/`, validates and percent-decodes each component,
/// expands a packed edition, and parses the language tag. The decoded URI is
/// converted one for one into plain values: each component becomes ANY, NA,
/// or its decoded text, and the part and the language their rendering in the
/// crate's alternate `Display` form. What the crate accepts and decodes is
/// named, not restated.
#[verifier::external_body]
fn parse_uri(value: &str) -> (r: Result<LegacyUri, String>)
    ensures
        match r {
            Ok(u) => cpe_uri_parse(value@) == Ok::<LegacyUriModel, Seq<char>>(u.model())
                && u.components@.len() == 9,
            Err(e) => cpe_uri_parse(value@) == Err::<LegacyUriModel, Seq<char>>(e@),
        },
{
    let uri = Uri::parse(value).map_err(|e| e.to_string())?;
    let conv = |c| match c { Component::Any => LegacyComponent::Any, Component::NotApplicable => LegacyComponent::NotApplicable, Component::Value(v) => LegacyComponent::Value(v.into_owned()) };
    let components = [uri.vendor(), uri.product(), uri.version(), uri.update(), uri.edition(), uri.sw_edition(), uri.target_sw(), uri.target_hw(), uri.other()];
    let (part, language) = (format!("{:#}", uri.part()), format!("{:#}", uri.language()));
    Ok(LegacyUri { part, components: components.map(conv).to_vec(), language })
}

/// The body of a legacy binding after `cpe:/`, `x-cpe:/`, or `p-cpe:/`.
pub open spec fn legacy_body(value: Seq<char>) -> Option<Seq<char>> {
    if crate::text::has_prefix(value, seq!['c', 'p', 'e', ':', '/']) {
        Some(value.subrange(5, value.len() as int))
    } else if crate::text::has_prefix(value, seq!['x', '-', 'c', 'p', 'e', ':', '/']) {
        Some(value.subrange(7, value.len() as int))
    } else if crate::text::has_prefix(value, seq!['p', '-', 'c', 'p', 'e', ':', '/']) {
        Some(value.subrange(7, value.len() as int))
    } else {
        None
    }
}

pub(crate) fn legacy_body_of(v: &Vec<char>) -> (r: Option<Vec<char>>)
    ensures
        match r {
            Some(b) => legacy_body(v@) == Some(b@),
            None => legacy_body(v@) is None,
        },
{
    let plain: [char; 5] = ['c', 'p', 'e', ':', '/'];
    let vendor_x: [char; 7] = ['x', '-', 'c', 'p', 'e', ':', '/'];
    let vendor_p: [char; 7] = ['p', '-', 'c', 'p', 'e', ':', '/'];
    assert(plain@ =~= seq!['c', 'p', 'e', ':', '/']);
    assert(vendor_x@ =~= seq!['x', '-', 'c', 'p', 'e', ':', '/']);
    assert(vendor_p@ =~= seq!['p', '-', 'c', 'p', 'e', ':', '/']);
    if starts_with(v.as_slice(), &plain) {
        Some(crate::text::slice_chars(v.as_slice(), 5, v.len()))
    } else if starts_with(v.as_slice(), &vendor_x) {
        Some(crate::text::slice_chars(v.as_slice(), 7, v.len()))
    } else if starts_with(v.as_slice(), &vendor_p) {
        Some(crate::text::slice_chars(v.as_slice(), 7, v.len()))
    } else {
        None
    }
}

/// The reason text shared by legacy component errors.
pub open spec fn component_reason(component: usize, suffix: Seq<char>) -> Seq<char> {
    "component "@ + decimal(component as nat) + suffix
}

fn component_reason_text(component: usize, suffix: &str) -> (s: String)
    ensures
        s@ == component_reason(component, suffix@),
{
    let mut s = String::from_str("component ");
    crate::text::push_decimal(&mut s, component);
    s.append(suffix);
    s
}

/// The packed edition was malformed.
pub const REASON_PACKED: &'static str = "validated packed edition did not contain five fields";

/// A percent encoding was cut short.
pub const SUFFIX_INCOMPLETE: &'static str = " contains an incomplete percent encoding";

/// A percent encoding was not two hexadecimal digits.
pub const SUFFIX_INVALID: &'static str = " contains an invalid percent encoding";

/// A percent encoding named a non-ASCII byte.
pub const SUFFIX_NON_ASCII: &'static str = " contains a non-ASCII percent encoding";

/// The rest of the character error text.
pub const SUFFIX_CHARACTER: &'static str = " that cannot be represented by the CPE 2.3 formatted binding";

/// The raw text and the decoded value disagree.
pub const SUFFIX_DISAGREES: &'static str = " raw encoding disagrees with the validated legacy value";

/// A lone literal hyphen would read as NA.
pub const SUFFIX_HYPHEN: &'static str = " is a literal hyphen that cannot be represented without colliding with CPE NA";

/// The error for a character the formatted binding cannot hold.
pub open spec fn character_error(component: usize, c: char) -> IdentityErrorView {
    IdentityErrorView::InvalidLegacyCpe(
        "component "@ + decimal(component as nat) + " contains character "@ + char_debug_text(c)
            + SUFFIX_CHARACTER@,
    )
}

/// The atom a character contributes to a legacy value, or the error.
pub open spec fn legacy_literal(c: char, component: usize) -> Result<CpeAtom, IdentityErrorView> {
    if is_unreserved(c) || is_quotable(c) {
        Ok(CpeAtom::Literal(c))
    } else {
        Err(character_error(component, c))
    }
}

/// The atoms of a raw legacy component from character `i` on, or the first
/// error. `%01` and `%02` are the wildcards `?` and `*`; other percent
/// encodings must name ASCII characters.
pub open spec fn legacy_atoms(raw: Seq<char>, i: int, component: usize) -> Result<Seq<CpeAtom>, IdentityErrorView>
    decreases raw.len() - i,
{
    if i < 0 || i >= raw.len() {
        Ok(seq![])
    } else if raw[i] == '%' {
        if i + 1 >= raw.len() {
            Err(IdentityErrorView::InvalidLegacyCpe(component_reason(component, SUFFIX_INCOMPLETE@)))
        } else if (raw[i + 1] as u32) >= 128 {
            Err(IdentityErrorView::InvalidLegacyCpe(component_reason(component, SUFFIX_INVALID@)))
        } else if i + 2 >= raw.len() {
            Err(IdentityErrorView::InvalidLegacyCpe(component_reason(component, SUFFIX_INCOMPLETE@)))
        } else {
            match (hex_value(raw[i + 1]), hex_value(raw[i + 2])) {
                (Some(h), Some(l)) => {
                    let b = h * 16 + l;
                    let atom = if b == 1 {
                        Ok(CpeAtom::WildcardOne)
                    } else if b == 2 {
                        Ok(CpeAtom::WildcardMany)
                    } else if b < 128 {
                        legacy_literal((b as u8) as char, component)
                    } else {
                        Err(IdentityErrorView::InvalidLegacyCpe(component_reason(component, SUFFIX_NON_ASCII@)))
                    };
                    match atom {
                        Ok(a) => match legacy_atoms(raw, i + 3, component) {
                            Ok(rest) => Ok(seq![a] + rest),
                            Err(e) => Err(e),
                        },
                        Err(e) => Err(e),
                    }
                },
                _ => Err(IdentityErrorView::InvalidLegacyCpe(component_reason(component, SUFFIX_INVALID@))),
            }
        }
    } else {
        match legacy_literal(raw[i], component) {
            Ok(a) => match legacy_atoms(raw, i + 1, component) {
                Ok(rest) => Ok(seq![a] + rest),
                Err(e) => Err(e),
            },
            Err(e) => Err(e),
        }
    }
}

/// The value a raw legacy component and its decoded text denote, or the
/// first error: the raw text must decode to valid atoms, agree with the
/// decoded text, and not be a lone literal hyphen.
#[verifier::opaque]
pub open spec fn legacy_value_spec(raw: Seq<char>, decoded: Seq<char>, component: usize) -> Result<
    Seq<CpeAtom>,
    IdentityErrorView,
> {
    match legacy_atoms(raw, 0, component) {
        Err(e) => Err(e),
        Ok(atoms) => match wildcard_error(atoms) {
            Some(reason) => Err(IdentityErrorView::InvalidCpeValue(component, reason)),
            None => if decoded_of(atoms) != decoded {
                Err(IdentityErrorView::InvalidLegacyCpe(component_reason(component, SUFFIX_DISAGREES@)))
            } else if atoms == seq![CpeAtom::Literal('-')] {
                Err(IdentityErrorView::InvalidLegacyCpe(component_reason(component, SUFFIX_HYPHEN@)))
            } else {
                Ok(atoms)
            },
        },
    }
}

fn legacy_literal_exec(c: char, component: usize) -> (r: Result<CpeAtom, IdentityError>)
    ensures
        match (r, legacy_literal(c, component)) {
            (Ok(a), Ok(m)) => a == m,
            (Err(e), Err(m)) => e@ == m,
            _ => false,
        },
{
    if unreserved(c) || quotable(c) {
        Ok(CpeAtom::Literal(c))
    } else {
        let mut s = String::from_str("component ");
        crate::text::push_decimal(&mut s, component);
        s.append(" contains character ");
        let d = crate::text::char_debug(c);
        s.append(d.as_str());
        s.append(SUFFIX_CHARACTER);
        Err(IdentityError::InvalidLegacyCpe { reason: s })
    }
}

fn legacy_error(component: usize, suffix: &'static str) -> (e: IdentityError)
    ensures
        e@ == IdentityErrorView::InvalidLegacyCpe(component_reason(component, suffix@)),
{
    IdentityError::InvalidLegacyCpe { reason: component_reason_text(component, suffix) }
}

#[verifier::rlimit(40)]
fn decode_legacy_atoms(raw: &[char], component: usize) -> (r: Result<Vec<CpeAtom>, IdentityError>)
    ensures
        match (r, legacy_atoms(raw@, 0, component)) {
            (Ok(v), Ok(s)) => v@ == s,
            (Err(e), Err(s)) => e@ == s,
            _ => false,
        },
{
    let mut atoms: Vec<CpeAtom> = Vec::new();
    let mut i: usize = 0;
    while i < raw.len()
        invariant
            i <= raw.len(),
            legacy_atoms(raw@, 0, component) == prepend_atoms(atoms@, legacy_atoms(raw@, i as int, component)),
        decreases raw.len() - i,
    {
        let atom;
        let step: usize;
        if raw[i] == '%' {
            if i + 1 >= raw.len() {
                return Err(legacy_error(component, SUFFIX_INCOMPLETE));
            }
            if (raw[i + 1] as u32) >= 128 {
                return Err(legacy_error(component, SUFFIX_INVALID));
            }
            if i + 2 >= raw.len() {
                return Err(legacy_error(component, SUFFIX_INCOMPLETE));
            }
            let high = crate::fingerprint::hex_nibble(raw[i + 1]);
            let low = crate::fingerprint::hex_nibble(raw[i + 2]);
            let (h, l) = match (high, low) {
                (Some(h), Some(l)) => (h, l),
                _ => return Err(legacy_error(component, SUFFIX_INVALID)),
            };
            let b: u8 = h * 16 + l;
            if b == 1 {
                atom = CpeAtom::WildcardOne;
            } else if b == 2 {
                atom = CpeAtom::WildcardMany;
            } else if b < 128 {
                atom = match legacy_literal_exec(b as char, component) {
                    Ok(a) => a,
                    Err(e) => return Err(e),
                };
            } else {
                return Err(legacy_error(component, SUFFIX_NON_ASCII));
            }
            step = 3;
        } else {
            atom = match legacy_literal_exec(raw[i], component) {
                Ok(a) => a,
                Err(e) => return Err(e),
            };
            step = 1;
        }
        let ghost before = atoms@;
        atoms.push(atom);
        proof {
            assert(atoms@ =~= before + seq![atom]);
            match legacy_atoms(raw@, i + step, component) {
                Ok(rest) => {
                    assert(before + (seq![atom] + rest) =~= atoms@ + rest);
                },
                Err(e) => {},
            }
        }
        i = i + step;
    }
    assert(atoms@ + seq![] =~= atoms@);
    Ok(atoms)
}

fn legacy_value(raw: &Vec<char>, decoded: &Vec<char>, component: usize) -> (r: Result<CpeField, IdentityError>)
    ensures
        match (r, legacy_value_spec(raw@, decoded@, component)) {
            (Ok(f), Ok(atoms)) => f.model() == FieldModel::Value(atoms) && f.wf(),
            (Err(e), Err(m)) => e@ == m,
            _ => false,
        },
{
    reveal(legacy_value_spec);
    let atoms = match decode_legacy_atoms(raw.as_slice(), component) {
        Ok(a) => a,
        Err(e) => return Err(e),
    };
    match validate_wildcards(&atoms, component) {
        Ok(_) => {},
        Err(e) => return Err(e),
    }
    let value = value_from_atoms(atoms);
    let dv = chars_of(value.decoded.as_str());
    if !crate::text::chars_equal(dv.as_slice(), decoded.as_slice()) {
        return Err(legacy_error(component, SUFFIX_DISAGREES));
    }
    if value.atoms.len() == 1 && value.atoms[0] == CpeAtom::Literal('-') {
        assert(value.atoms@ =~= seq![CpeAtom::Literal('-')]);
        return Err(legacy_error(component, SUFFIX_HYPHEN));
    }
    assert(value.atoms@ != seq![CpeAtom::Literal('-')]) by {
        if value.atoms@.len() == 1 {
            assert(value.atoms@[0] == value.atoms[0]);
        }
    }
    Ok(CpeField::Value(value))
}

/// The field of a legacy component.
#[verifier::opaque]
pub open spec fn legacy_component_spec(c: LegacyComponentModel, raw: Seq<char>, component: usize) -> Result<
    FieldModel,
    IdentityErrorView,
> {
    match c {
        LegacyComponentModel::Any => Ok(FieldModel::Any),
        LegacyComponentModel::NotApplicable => Ok(FieldModel::NotApplicable),
        LegacyComponentModel::Value(d) => match legacy_value_spec(raw, d, component) {
            Ok(atoms) => Ok(FieldModel::Value(atoms)),
            Err(e) => Err(e),
        },
    }
}

/// The field of a legacy language.
#[verifier::opaque]
pub open spec fn legacy_language_spec(lang: Option<Seq<char>>, raw: Seq<char>) -> Result<FieldModel, IdentityErrorView> {
    match lang {
        None => Ok(FieldModel::Any),
        Some(d) => match legacy_value_spec(raw, d, 6) {
            Ok(atoms) => Ok(FieldModel::Value(atoms)),
            Err(e) => Err(e),
        },
    }
}

fn legacy_component(c: &LegacyComponent, raw: &Vec<char>, component: usize) -> (r: Result<CpeField, IdentityError>)
    ensures
        match (r, legacy_component_spec(c.model(), raw@, component)) {
            (Ok(f), Ok(m)) => f.model() == m && f.wf(),
            (Err(e), Err(m)) => e@ == m,
            _ => false,
        },
{
    reveal(legacy_component_spec);
    match c {
        LegacyComponent::Any => Ok(CpeField::Any),
        LegacyComponent::NotApplicable => Ok(CpeField::NotApplicable),
        LegacyComponent::Value(d) => {
            let dv = chars_of(d.as_str());
            legacy_value(raw, &dv, component)
        },
    }
}

fn legacy_language(lang: &Option<String>, raw: &Vec<char>) -> (r: Result<CpeField, IdentityError>)
    ensures
        match (r, legacy_language_spec(
            match lang {
                Some(l) => Some(l@),
                None => None,
            },
            raw@,
        )) {
            (Ok(f), Ok(m)) => f.model() == m && f.wf(),
            (Err(e), Err(m)) => e@ == m,
            _ => false,
        },
{
    reveal(legacy_language_spec);
    match lang {
        None => Ok(CpeField::Any),
        Some(d) => {
            let dv = chars_of(d.as_str());
            legacy_value(raw, &dv, 6)
        },
    }
}

/// The component at index `i`, or empty when there is none.
pub open spec fn component_or_empty(comps: Seq<Seq<char>>, i: int) -> Seq<char> {
    if 0 <= i < comps.len() {
        comps[i]
    } else {
        seq![]
    }
}

/// The eleven raw texts of a legacy URI's components, in CPE 2.3 order,
/// with a packed edition expanded.
#[verifier::opaque]
pub open spec fn legacy_raw_spec(comps: Seq<Seq<char>>) -> Result<Seq<Seq<char>>, IdentityErrorView> {
    let edition = component_or_empty(comps, 5);
    if edition.len() > 0 && edition[0] == '~' {
        let packed = split_on(edition, '~');
        if packed.len() != 6 || packed[0].len() != 0 {
            Err(IdentityErrorView::InvalidLegacyCpe(REASON_PACKED@))
        } else {
            Ok(
                seq![
                    component_or_empty(comps, 0),
                    component_or_empty(comps, 1),
                    component_or_empty(comps, 2),
                    component_or_empty(comps, 3),
                    component_or_empty(comps, 4),
                    packed[1],
                    component_or_empty(comps, 6),
                    packed[2],
                    packed[3],
                    packed[4],
                    packed[5],
                ],
            )
        }
    } else {
        Ok(
            seq![
                component_or_empty(comps, 0),
                component_or_empty(comps, 1),
                component_or_empty(comps, 2),
                component_or_empty(comps, 3),
                component_or_empty(comps, 4),
                edition,
                component_or_empty(comps, 6),
                seq![],
                seq![],
                seq![],
                seq![],
            ],
        )
    }
}

fn get_or_empty(comps: &Vec<Vec<char>>, i: usize) -> (r: Vec<char>)
    ensures
        r@ == component_or_empty(views(comps@), i as int),
{
    if i < comps.len() {
        crate::text::slice_chars(comps[i].as_slice(), 0, comps[i].len())
    } else {
        Vec::new()
    }
}

fn legacy_raw_fields(comps: &Vec<Vec<char>>) -> (r: Result<Vec<Vec<char>>, IdentityError>)
    ensures
        r matches Ok(v) ==> v@.len() == 11,
        match (r, legacy_raw_spec(views(comps@))) {
            (Ok(v), Ok(m)) => views(v@) == m,
            (Err(e), Err(m)) => e@ == m,
            _ => false,
        },
{
    reveal(legacy_raw_spec);
    let edition = get_or_empty(comps, 5);
    let mut fields: Vec<Vec<char>> = Vec::new();
    fields.push(get_or_empty(comps, 0));
    fields.push(get_or_empty(comps, 1));
    fields.push(get_or_empty(comps, 2));
    fields.push(get_or_empty(comps, 3));
    fields.push(get_or_empty(comps, 4));
    if edition.len() > 0 && edition[0] == '~' {
        let packed = crate::text::split_chars(edition.as_slice(), '~');
        let ghost pv = views(packed@);
        if packed.len() != 6 || packed[0].len() != 0 {
            assert(pv[0] == packed@[0]@);
            return Err(IdentityError::InvalidLegacyCpe { reason: String::from_str(REASON_PACKED) });
        }
        assert(pv[0] == packed@[0]@);
        let p1 = crate::text::slice_chars(packed[1].as_slice(), 0, packed[1].len());
        let p2 = crate::text::slice_chars(packed[2].as_slice(), 0, packed[2].len());
        let p3 = crate::text::slice_chars(packed[3].as_slice(), 0, packed[3].len());
        let p4 = crate::text::slice_chars(packed[4].as_slice(), 0, packed[4].len());
        let p5 = crate::text::slice_chars(packed[5].as_slice(), 0, packed[5].len());
        assert(p1@ == pv[1] && p2@ == pv[2] && p3@ == pv[3] && p4@ == pv[4] && p5@ == pv[5]);
        fields.push(p1);
        fields.push(get_or_empty(comps, 6));
        fields.push(p2);
        fields.push(p3);
        fields.push(p4);
        fields.push(p5);
    } else {
        fields.push(edition);
        fields.push(get_or_empty(comps, 6));
        fields.push(Vec::new());
        fields.push(Vec::new());
        fields.push(Vec::new());
        fields.push(Vec::new());
    }
    assert(views(fields@) =~= legacy_raw_spec(views(comps@))->Ok_0);
    Ok(fields)
}

/// The field a rendered legacy part denotes: application, operating system,
/// or hardware, else ANY.
pub open spec fn legacy_part_spec(p: Seq<char>) -> FieldModel {
    if p == seq!['a'] || p == seq!['o'] || p == seq!['h'] {
        FieldModel::Value(seq![CpeAtom::Literal(p[0])])
    } else {
        FieldModel::Any
    }
}

/// The field at CPE 2.3 index `k` (1 to 10) of a decoded legacy URI, given
/// the raw texts.
#[verifier::opaque]
pub open spec fn legacy_field_at(u: LegacyUriModel, raw: Seq<Seq<char>>, k: int) -> Result<FieldModel, IdentityErrorView> {
    if k == 6 {
        legacy_language_spec(rendered_language(u.language), raw[6])
    } else {
        let c = if k <= 5 { k - 1 } else { k - 2 };
        legacy_component_spec(u.components[c], raw[k], k as usize)
    }
}

/// The fields at indices `k` to 10 of a legacy URI, or the first error.
pub open spec fn legacy_fields_from(u: LegacyUriModel, raw: Seq<Seq<char>>, k: int) -> Result<Seq<FieldModel>, IdentityErrorView>
    decreases 11 - k,
{
    if k < 1 || k > 10 {
        Ok(seq![])
    } else {
        match legacy_field_at(u, raw, k) {
            Err(e) => Err(e),
            Ok(f) => match legacy_fields_from(u, raw, k + 1) {
                Ok(rest) => Ok(seq![f] + rest),
                Err(e) => Err(e),
            },
        }
    }
}

/// The eleven fields of a legacy binding, or the first error. At most seven
/// colon-separated components are accepted, since the `cpe` crate ignores
/// any beyond them.
#[verifier::opaque]
pub open spec fn legacy_spec(value: Seq<char>) -> Result<Seq<FieldModel>, IdentityErrorView> {
    let comps = split_on(legacy_body(value)->Some_0, ':');
    if comps.len() > 7 {
        Err(IdentityErrorView::LegacyCpeComponentCount(7, comps.len() as usize))
    } else {
        match cpe_uri_parse(value) {
            Err(reason) => Err(IdentityErrorView::InvalidLegacyCpe(reason)),
            Ok(u) => match legacy_raw_spec(comps) {
                Err(e) => Err(e),
                Ok(raw) => match legacy_fields_from(u, raw, 1) {
                    Ok(rest) => Ok(seq![legacy_part_spec(u.part)] + rest),
                    Err(e) => Err(e),
                },
            },
        }
    }
}

fn legacy_part(p: &String) -> (f: CpeField)
    ensures
        f.wf(),
        f.model() == legacy_part_spec(p@),
{
    let c = chars_of(p.as_str());
    if c.len() == 1 && (c[0] == 'a' || c[0] == 'o' || c[0] == 'h') {
        let v = value_from_atoms(vec![CpeAtom::Literal(c[0])]);
        assert(v.atoms@ =~= seq![CpeAtom::Literal(p@[0])]);
        assert(p@ =~= seq![c@[0]]);
        CpeField::Value(v)
    } else {
        proof {
            if p@ == seq!['a'] || p@ == seq!['o'] || p@ == seq!['h'] {
                assert(c@.len() == 1 && c@[0] == p@[0]);
            }
        }
        CpeField::Any
    }
}

/// The language tag of a rendered language, absent for ANY.
fn rendered_tag(lang: &String) -> (r: Option<String>)
    ensures
        match r {
            Some(t) => rendered_language(lang@) == Some(t@),
            None => rendered_language(lang@) is None,
        },
{
    proof {
        reveal_strlit("*");
        assert("*"@ =~= seq!['*']);
    }
    if crate::text::str_equal(lang.as_str(), "*") {
        None
    } else {
        Some(lang.clone())
    }
}

#[verifier::rlimit(60)]
fn parse_legacy(value: &str, body: &Vec<char>) -> (r: Result<Vec<CpeField>, IdentityError>)
    requires
        legacy_body(value@) == Some(body@),
    ensures
        match (r, legacy_spec(value@)) {
            (Ok(v), Ok(m)) => models(v@) == m && all_wf(v@) && v@.len() == 11,
            (Err(e), Err(m)) => e@ == m,
            _ => false,
        },
{
    reveal(legacy_spec);
    reveal(legacy_field_at);
    let comps = crate::text::split_chars(body.as_slice(), ':');
    if comps.len() > 7 {
        return Err(IdentityError::LegacyCpeComponentCount { maximum: 7, actual: comps.len() });
    }
    let uri = match parse_uri(value) {
        Ok(u) => u,
        Err(reason) => return Err(IdentityError::InvalidLegacyCpe { reason }),
    };
    let raw = match legacy_raw_fields(&comps) {
        Ok(r) => r,
        Err(e) => return Err(e),
    };
    let ghost u = uri.model();
    let ghost rv = views(raw@);
    assert(legacy_spec(value@) == match legacy_fields_from(u, rv, 1) {
        Ok(rest) => Ok(seq![legacy_part_spec(u.part)] + rest),
        Err(e) => Err(e),
    });
    let mut fields: Vec<CpeField> = Vec::new();
    fields.push(legacy_part(&uri.part));
    let mut k: usize = 1;
    while k <= 10
        invariant
            1 <= k <= 11,
            fields@.len() == k,
            all_wf(fields@),
            u == uri.model(),
            rv == views(raw@),
            raw@.len() == 11,
            uri.components@.len() == 9,
            models(fields@)[0] == legacy_part_spec(u.part),
            legacy_spec(value@) == match legacy_fields_from(u, rv, 1) {
                Ok(rest) => Ok(seq![legacy_part_spec(u.part)] + rest),
                Err(e) => Err(e),
            },
            legacy_fields_from(u, rv, 1) == prepend_fields(
                models(fields@).subrange(1, k as int),
                legacy_fields_from(u, rv, k as int),
            ),
        decreases 11 - k,
    {
        assert(rv[k as int] == raw@[k as int]@);
        let f = if k == 6 {
            let lang = rendered_tag(&uri.language);
            legacy_language(&lang, &raw[6])
        } else {
            let c = if k <= 5 { k - 1 } else { k - 2 };
            assert(u.components[c as int] == uri.components@[c as int].model());
            legacy_component(&uri.components[c], &raw[k], k)
        };
        proof {
            reveal(legacy_field_at);
            if k == 6 {
                assert(legacy_field_at(u, rv, k as int) == legacy_language_spec(rendered_language(u.language), rv[6]));
            } else {
                let c = if k <= 5 { k - 1 } else { k - 2 };
                assert(legacy_field_at(u, rv, k as int) == legacy_component_spec(u.components[c as int], rv[k as int], k));
            }
            assert(match (f, legacy_field_at(u, rv, k as int)) {
                (Ok(f), Ok(m)) => f.model() == m && f.wf(),
                (Err(e), Err(m)) => e@ == m,
                _ => false,
            });
        }
        let f = match f {
            Ok(f) => f,
            Err(e) => {
                proof {
                    assert(legacy_fields_from(u, rv, k as int) == Err::<Seq<FieldModel>, IdentityErrorView>(e@));
                }
                return Err(e);
            },
        };
        let ghost before = models(fields@);
        fields.push(f);
        proof {
            assert(models(fields@) =~= before.push(f.model()));
            assert(models(fields@).subrange(1, k + 1) =~= before.subrange(1, k as int).push(f.model()));
            match legacy_fields_from(u, rv, k + 1) {
                Ok(rest) => {
                    assert(before.subrange(1, k as int) + (seq![f.model()] + rest) =~= models(fields@).subrange(1, k + 1) + rest);
                },
                Err(e) => {},
            }
        }
        k = k + 1;
    }
    assert(models(fields@) =~= seq![legacy_part_spec(u.part)] + models(fields@).subrange(1, 11));
    assert(models(fields@).subrange(1, 11) + seq![] =~= models(fields@).subrange(1, 11));
    Ok(fields)
}

// ---------------------------------------------------------------------------
// The normalized CPE.
// ---------------------------------------------------------------------------

/// Validates the part and language, then lower-cases every field.
#[verifier::opaque]
pub open spec fn normalize_fields(fields: Seq<FieldModel>) -> Result<Seq<FieldModel>, IdentityErrorView> {
    match part_error(fields[0]) {
        Some(e) => Err(e),
        None => match language_error(fields[6]) {
            Some(e) => Err(e),
            None => Ok(Seq::new(fields.len(), |i: int| lower_field(fields[i]))),
        },
    }
}

/// The fields a CPE name normalizes to, or the error: a formatted binding
/// after `cpe:2.3:`, else a legacy binding, else an unsupported binding.
#[verifier::opaque]
pub open spec fn cpe_parse_spec(value: Seq<char>) -> Result<Seq<FieldModel>, IdentityErrorView> {
    let raw = if crate::text::has_prefix(value, cpe23_prefix()) {
        formatted_body_spec(value.subrange(8, value.len() as int))
    } else if legacy_body(value) is Some {
        legacy_spec(value)
    } else {
        Err(IdentityErrorView::UnsupportedCpeBinding)
    };
    match raw {
        Err(e) => Err(e),
        Ok(fields) => normalize_fields(fields),
    }
}

/// A legacy URI binding keeps its part: when the `cpe` crate decodes a
/// `cpe:/` name whose part is an application (`a`), an operating system
/// (`o`) or hardware (`h`), the normalized name has that same letter as its
/// part.
pub proof fn lemma_legacy_part_kept(value: Seq<char>, x: char)
    requires
        legacy_body(value) is Some,
        cpe_uri_parse(value) is Ok,
        cpe_uri_parse(value)->Ok_0.part == seq![x],
        x == 'a' || x == 'o' || x == 'h',
        cpe_parse_spec(value) is Ok,
    ensures
        cpe_parse_spec(value)->Ok_0[0] == FieldModel::Value(seq![CpeAtom::Literal(x)]),
{
    reveal(cpe_parse_spec);
    reveal(legacy_spec);
    if crate::text::has_prefix(value, cpe23_prefix()) {
        let p = value.subrange(0, 8);
        assert(p[0] == 'c' && p[4] == '2');
        if crate::text::has_prefix(value, seq!['c', 'p', 'e', ':', '/']) {
            assert(value.subrange(0, 5)[4] == '/');
        } else if crate::text::has_prefix(value, seq!['x', '-', 'c', 'p', 'e', ':', '/']) {
            assert(value.subrange(0, 7)[0] == 'x');
        } else {
            assert(value.subrange(0, 7)[0] == 'p');
        }
    }
    let fields = legacy_spec(value)->Ok_0;
    assert(fields[0] == legacy_part_spec(seq![x]));
    assert(seq![x][0] == x);
    let atoms = seq![CpeAtom::Literal(x)];
    assert(ascii_lower(x) == x);
    assert(Seq::new(atoms.len(), |i: int| lower_atom(atoms[i])) =~= atoms);
    assert(fields.len() >= 1);
    assert(cpe_parse_spec(value) == normalize_fields(fields));
    reveal(normalize_fields);
    let nf = Seq::new(fields.len(), |i: int| lower_field(fields[i]));
    assert(normalize_fields(fields) == Ok::<Seq<FieldModel>, IdentityErrorView>(nf));
    assert(nf[0] == lower_field(fields[0]));
}

/// The coordinate fields: part, vendor, and product, then eight ANY.
pub open spec fn coordinate_fields(fields: Seq<FieldModel>) -> Seq<FieldModel> {
    Seq::new(11, |i: int| if i < 3 { fields[i] } else { FieldModel::Any })
}

/// Whether two CPE names can describe the same product: the same
/// coordinate, and in every later component ANY on either side or the same
/// value.
pub open spec fn cpe_details_compatible(a: Seq<FieldModel>, b: Seq<FieldModel>) -> bool {
    &&& format_fields(coordinate_fields(a)) == format_fields(coordinate_fields(b))
    &&& forall|i: int| 3 <= i < 11 ==> (#[trigger] a[i] is Any || b[i] is Any || a[i] == b[i])
}

fn fields_equal(a: &CpeField, b: &CpeField) -> (r: bool)
    ensures
        r == (a.model() == b.model()),
{
    match (a, b) {
        (CpeField::Any, CpeField::Any) => true,
        (CpeField::NotApplicable, CpeField::NotApplicable) => true,
        (CpeField::Value(x), CpeField::Value(y)) => {
            if x.atoms.len() != y.atoms.len() {
                return false;
            }
            let mut i: usize = 0;
            while i < x.atoms.len()
                invariant
                    i <= x.atoms@.len() == y.atoms@.len(),
                    a.model() == FieldModel::Value(x.atoms@),
                    b.model() == FieldModel::Value(y.atoms@),
                    forall|k: int| 0 <= k < i ==> x.atoms@[k] == y.atoms@[k],
                decreases x.atoms.len() - i,
            {
                if !(x.atoms[i] == y.atoms[i]) {
                    return false;
                }
                i = i + 1;
            }
            assert(x.atoms@ =~= y.atoms@);
            true
        },
        _ => false,
    }
}

/// The key-domain prefix of CPE identities.
pub open spec fn cpe_identity_prefix() -> Seq<char> {
    "subject:cpe:v1:"@
}

/// A canonical, binding-independent CPE name.
///
/// Output always uses the common CPE 2.3 formatted-string binding, including
/// all eleven components. Legacy `cpe:/` inputs are decoded semantically.
/// Component accessors return decoded text; [`Self::as_str`] preserves the
/// distinction between wildcards and quoted literals.
#[derive(Debug, Eq, Hash, Ord, PartialEq, PartialOrd)]
pub struct NormalizedCpe {
    canonical: String,
    full_identity: String,
    coordinate: String,
    fields: Vec<CpeField>,
}

impl View for NormalizedCpe {
    type V = Seq<FieldModel>;

    closed spec fn view(&self) -> Seq<FieldModel> {
        models(self.fields@)
    }
}

impl NormalizedCpe {
    #[verifier::type_invariant]
    spec fn inv(&self) -> bool {
        &&& self.fields@.len() == 11
        &&& all_wf(self.fields@)
        &&& self.canonical@ == format_fields(models(self.fields@))
        &&& self.full_identity@ == cpe_identity_prefix() + self.canonical@
        &&& self.coordinate@ == format_fields(coordinate_fields(models(self.fields@)))
    }

    /// Parses a CPE 2.3 formatted string or legacy CPE 2.2 URI.
    pub fn parse(value: &str) -> (r: Result<NormalizedCpe, IdentityError>)
        ensures
            match (r, cpe_parse_spec(value@)) {
                (Ok(c), Ok(m)) => c@ == m,
                (Err(e), Err(m)) => e@ == m,
                _ => false,
            },
    {
        reveal(cpe_parse_spec);
        let v = chars_of(value);
        let prefix: [char; 8] = ['c', 'p', 'e', ':', '2', '.', '3', ':'];
        assert(prefix@ =~= cpe23_prefix());
        let fields = if starts_with(v.as_slice(), &prefix) {
            let body = crate::text::slice_chars(v.as_slice(), 8, v.len());
            parse_formatted_body(body.as_slice())
        } else {
            match legacy_body_of(&v) {
                Some(body) => parse_legacy(value, &body),
                None => return Err(IdentityError::UnsupportedCpeBinding),
            }
        };
        match fields {
            Ok(f) => Self::from_fields(f),
            Err(e) => Err(e),
        }
    }

    fn from_fields(fields: Vec<CpeField>) -> (r: Result<NormalizedCpe, IdentityError>)
        requires
            fields@.len() == 11,
            all_wf(fields@),
        ensures
            match (r, normalize_fields(models(fields@))) {
                (Ok(c), Ok(m)) => c@ == m,
                (Err(e), Err(m)) => e@ == m,
                _ => false,
            },
    {
        reveal(normalize_fields);
        match validate_part(&fields[0]) {
            Ok(_) => {},
            Err(e) => return Err(e),
        }
        match validate_language(&fields[6]) {
            Ok(_) => {},
            Err(e) => return Err(e),
        }
        let ghost m = models(fields@);
        let mut lowered: Vec<CpeField> = Vec::new();
        let mut input = fields;
        let ghost original = input@;
        let mut rest: Vec<CpeField> = Vec::new();
        // Reverse, so that fields can be moved out from the end in order.
        while input.len() > 0
            invariant
                original.len() == 11,
                all_wf(original),
                input@.len() + rest@.len() == 11,
                forall|i: int| 0 <= i < input@.len() ==> #[trigger] input@[i] == original[i],
                forall|j: int| 0 <= j < rest@.len() ==> #[trigger] rest@[j] == original[10 - j],
            decreases input.len(),
        {
            let f = input.pop().unwrap();
            rest.push(f);
        }
        while rest.len() > 0
            invariant
                original.len() == 11,
                all_wf(original),
                m == models(original),
                lowered@.len() + rest@.len() == 11,
                all_wf(lowered@),
                forall|j: int| 0 <= j < rest@.len() ==> #[trigger] rest@[j] == original[10 - j],
                forall|i: int| 0 <= i < lowered@.len() ==> #[trigger] lowered@[i].model() == lower_field(m[i]),
            decreases rest.len(),
        {
            let f = rest.pop().unwrap();
            assert(f == original[lowered@.len() as int]);
            let g = lowercase_field(f);
            lowered.push(g);
        }
        assert(models(lowered@) =~= Seq::new(11, |i: int| lower_field(m[i])));
        let canonical_chars = format_cpe(&lowered);
        let canonical = string_of(canonical_chars.as_slice());
        let mut full_identity = String::from_str("subject:cpe:v1:");
        full_identity.append(canonical.as_str());
        let coordinate = Self::coordinate_of(&lowered);
        Ok(NormalizedCpe { canonical, full_identity, coordinate, fields: lowered })
    }

    fn coordinate_of(fields: &Vec<CpeField>) -> (s: String)
        requires
            fields@.len() == 11,
            all_wf(fields@),
        ensures
            s@ == format_fields(coordinate_fields(models(fields@))),
    {
        let mut coordinate: Vec<CpeField> = Vec::new();
        coordinate.push(Self::copy_field(&fields[0]));
        coordinate.push(Self::copy_field(&fields[1]));
        coordinate.push(Self::copy_field(&fields[2]));
        let mut i: usize = 3;
        while i < 11
            invariant
                3 <= i <= 11,
                coordinate@.len() == i,
                forall|k: int| 0 <= k < 3 ==> #[trigger] coordinate@[k].model() == fields@[k].model(),
                forall|k: int| 3 <= k < i ==> #[trigger] coordinate@[k].model() == FieldModel::Any,
            decreases 11 - i,
        {
            coordinate.push(CpeField::Any);
            i = i + 1;
        }
        assert(models(coordinate@) =~= coordinate_fields(models(fields@)));
        let text = format_cpe(&coordinate);
        string_of(text.as_slice())
    }

    fn copy_field(f: &CpeField) -> (r: CpeField)
        requires
            f.wf(),
        ensures
            r.wf(),
            r.model() == f.model(),
    {
        match f {
            CpeField::Any => CpeField::Any,
            CpeField::NotApplicable => CpeField::NotApplicable,
            CpeField::Value(v) => {
                let mut atoms: Vec<CpeAtom> = Vec::new();
                let mut i: usize = 0;
                while i < v.atoms.len()
                    invariant
                        i <= v.atoms.len(),
                        atoms@ =~= v.atoms@.take(i as int),
                    decreases v.atoms.len() - i,
                {
                    atoms.push(v.atoms[i]);
                    i = i + 1;
                }
                assert(v.atoms@.take(v.atoms.len() as int) =~= v.atoms@);
                CpeField::Value(value_from_atoms(atoms))
            },
        }
    }

    /// Returns the canonical CPE 2.3 formatted string.
    pub fn as_str(&self) -> (r: &str)
        ensures
            r@ == format_fields(self@),
            self@.len() == 11,
    {
        proof {
            use_type_invariant(self);
        }
        self.canonical.as_str()
    }

    /// Returns the canonical CPE 2.3 formatted string as an owned string.
    pub fn to_string(&self) -> (r: String)
        ensures
            r@ == format_fields(self@),
    {
        String::from_str(self.as_str())
    }

    fn field(&self, i: usize) -> (r: &str)
        requires
            i < 11,
        ensures
            r@ == field_str(self@[i as int]),
    {
        proof {
            use_type_invariant(self);
        }
        self.fields[i].as_str()
    }

    /// Returns the part component (`a`, `o`, `h`, `*`, or `-`).
    pub fn part(&self) -> (r: &str)
        ensures
            r@ == field_str(self@[0]),
    {
        self.field(0)
    }

    /// Returns the vendor component.
    pub fn vendor(&self) -> (r: &str)
        ensures
            r@ == field_str(self@[1]),
    {
        self.field(1)
    }

    /// Returns the product component.
    pub fn product(&self) -> (r: &str)
        ensures
            r@ == field_str(self@[2]),
    {
        self.field(2)
    }

    /// Returns the decoded version component, including `*` or `-` logical values.
    pub fn version_component(&self) -> (r: &str)
        ensures
            r@ == field_str(self@[3]),
    {
        self.field(3)
    }

    /// Returns a concrete version, or `None` for ANY and NA.
    pub fn version(&self) -> (r: Option<&str>)
        ensures
            crate::fingerprint::opt_view(r) == field_concrete(self@[3]),
    {
        proof {
            use_type_invariant(self);
        }
        self.fields[3].concrete()
    }

    /// Returns the update component.
    pub fn update(&self) -> (r: &str)
        ensures
            r@ == field_str(self@[4]),
    {
        self.field(4)
    }

    /// Returns the edition component.
    pub fn edition(&self) -> (r: &str)
        ensures
            r@ == field_str(self@[5]),
    {
        self.field(5)
    }

    /// Returns the language component.
    pub fn language(&self) -> (r: &str)
        ensures
            r@ == field_str(self@[6]),
    {
        self.field(6)
    }

    /// Returns the software-edition component.
    pub fn sw_edition(&self) -> (r: &str)
        ensures
            r@ == field_str(self@[7]),
    {
        self.field(7)
    }

    /// Returns the target-software component.
    pub fn target_sw(&self) -> (r: &str)
        ensures
            r@ == field_str(self@[8]),
    {
        self.field(8)
    }

    /// Returns the target-hardware component.
    pub fn target_hw(&self) -> (r: &str)
        ensures
            r@ == field_str(self@[9]),
    {
        self.field(9)
    }

    /// Returns the other component.
    pub fn other(&self) -> (r: &str)
        ensures
            r@ == field_str(self@[10]),
    {
        self.field(10)
    }

    /// Returns the identity used in keys: `subject:cpe:v1:` and the canonical string.
    pub(crate) fn full_identity(&self) -> (r: &str)
        ensures
            r@ == cpe_identity_prefix() + format_fields(self@),
    {
        proof {
            use_type_invariant(self);
        }
        self.full_identity.as_str()
    }

    /// Returns the canonical CPE coordinate containing part, vendor, and product.
    pub fn coordinate(&self) -> (r: &str)
        ensures
            r@ == format_fields(coordinate_fields(self@)),
    {
        proof {
            use_type_invariant(self);
        }
        self.coordinate.as_str()
    }

    /// Whether this and `other` can describe the same product without any of
    /// their concrete components contradicting each other.
    pub(crate) fn details_compatible(&self, other: &NormalizedCpe) -> (r: bool)
        ensures
            r == cpe_details_compatible(self@, other@),
    {
        proof {
            use_type_invariant(self);
            use_type_invariant(other);
        }
        if !crate::text::str_equal(self.coordinate.as_str(), other.coordinate.as_str()) {
            return false;
        }
        let mut i: usize = 3;
        while i < 11
            invariant
                3 <= i <= 11,
                self.fields@.len() == 11,
                other.fields@.len() == 11,
                forall|k: int| 3 <= k < i ==> (#[trigger] self@[k] is Any || other@[k] is Any || self@[k] == other@[k]),
            decreases 11 - i,
        {
            let compatible = match (&self.fields[i], &other.fields[i]) {
                (CpeField::Any, _) => true,
                (_, CpeField::Any) => true,
                (x, y) => fields_equal(x, y),
            };
            if !compatible {
                assert(self@[i as int] == self.fields@[i as int].model());
                assert(other@[i as int] == other.fields@[i as int].model());
                assert(!(self@[i as int] is Any || other@[i as int] is Any || self@[i as int] == other@[i as int]));
                return false;
            }
            i = i + 1;
        }
        true
    }

    /// Returns the concrete product, or empty text for ANY and NA.
    pub(crate) fn subject_name(&self) -> (r: &str)
        ensures
            r@ == match field_concrete(self@[2]) {
                Some(p) => p,
                None => Seq::empty(),
            },
    {
        proof {
            use_type_invariant(self);
            reveal_strlit("");
        }
        match self.fields[2].concrete() {
            Some(p) => p,
            None => "",
        }
    }
}

impl Clone for NormalizedCpe {
    fn clone(&self) -> (r: Self)
        ensures
            r@ == self@,
    {
        proof {
            use_type_invariant(self);
        }
        let mut fields: Vec<CpeField> = Vec::new();
        let mut i: usize = 0;
        while i < self.fields.len()
            invariant
                i <= self.fields@.len() == 11,
                all_wf(self.fields@),
                fields@.len() == i,
                all_wf(fields@),
                forall|k: int| 0 <= k < i ==> #[trigger] fields@[k].model() == self.fields@[k].model(),
            decreases self.fields.len() - i,
        {
            fields.push(Self::copy_field(&self.fields[i]));
            i = i + 1;
        }
        assert(models(fields@) =~= models(self.fields@));
        NormalizedCpe {
            canonical: self.canonical.clone(),
            full_identity: self.full_identity.clone(),
            coordinate: self.coordinate.clone(),
            fields,
        }
    }
}

impl core::str::FromStr for NormalizedCpe {
    type Err = IdentityError;

    fn from_str(value: &str) -> Result<Self, Self::Err> {
        NormalizedCpe::parse(value)
    }
}

} // verus!
