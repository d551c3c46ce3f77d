//! Normalized CPE names are fixed points: parsing the canonical formatted
//! string of a normalized CPE name gives the same name back.
use vstd::prelude::*;

use crate::cpe::{
    atom_text, atoms_text, formatted_atoms, formatted_field_spec, field_text, is_literal, is_quotable, is_unreserved,
    joined_fields, split_formatted_spec, split_scan, split_step, wildcard_error, CpeAtom, FieldModel, SplitState,
    formatted_fields_from, formatted_body_spec, format_fields, cpe23_prefix, cpe_parse_spec, normalize_fields,
    lower_field, part_error, language_error, legacy_atoms, legacy_value_spec, legacy_component_spec,
    legacy_language_spec, legacy_field_at, legacy_fields_from, legacy_part_spec, legacy_spec, legacy_raw_spec,
    LegacyUriModel, lower_atom, decoded_of, language_tag_ok, all_alpha, all_digit,
};
use crate::identity::IdentityErrorView;
use crate::text::{split_on, ascii_lower, ascii_lower_all};

verus! {

/// Whether an atom survives formatting: a literal must be unreserved or
/// quotable.
pub open spec fn atom_ok(a: CpeAtom) -> bool {
    match a {
        CpeAtom::Literal(c) => is_unreserved(c) || is_quotable(c),
        _ => true,
    }
}

/// Whether a field survives formatting: a value's atoms survive, obey the
/// wildcard grammar, and are not a lone literal hyphen.
pub open spec fn field_ok(f: FieldModel) -> bool {
    match f {
        FieldModel::Value(atoms) => (forall|k: int| 0 <= k < atoms.len() ==> atom_ok(#[trigger] atoms[k]))
            && wildcard_error(atoms) is None && atoms != seq![CpeAtom::Literal('-')],
        _ => true,
    }
}

/// The text of atoms is the first atom's text, then the rest's.
proof fn lemma_atoms_text_front(atoms: Seq<CpeAtom>)
    requires
        atoms.len() > 0,
    ensures
        atoms_text(atoms) == atom_text(atoms[0]) + atoms_text(atoms.drop_first()),
    decreases atoms.len(),
{
    if atoms.len() == 1 {
        assert(atoms.drop_last() =~= Seq::<CpeAtom>::empty());
        assert(atoms.drop_first() =~= Seq::<CpeAtom>::empty());
        assert(atoms_text(atoms.drop_first()) =~= Seq::<char>::empty());
        assert(atoms_text(atoms.drop_last()) =~= Seq::<char>::empty());
        assert(atoms_text(atoms) =~= atom_text(atoms[0]));
    } else {
        lemma_atoms_text_front(atoms.drop_last());
        assert(atoms.drop_last().drop_first() =~= atoms.drop_first().drop_last());
        assert(atoms.drop_first().last() == atoms.last());
        assert(atoms.drop_last()[0] == atoms[0]);
        assert(atoms_text(atoms) =~= atom_text(atoms[0]) + atoms_text(atoms.drop_first()));
    }
}

/// Decoding from index `i` depends only on the text from `j <= i` on.
proof fn lemma_formatted_atoms_shift(s: Seq<char>, j: int, i: int, pos: nat, component: usize)
    requires
        0 <= j <= i,
        j <= s.len(),
    ensures
        formatted_atoms(s, i, pos, component) == formatted_atoms(s.subrange(j, s.len() as int), i - j, pos, component),
    decreases s.len() - i,
{
    let t = s.subrange(j, s.len() as int);
    if i < s.len() {
        assert(t[i - j] == s[i]);
        let c = s[i];
        if c == '\\' {
            if i + 1 < s.len() {
                assert(t[i - j + 1] == s[i + 1]);
                lemma_formatted_atoms_shift(s, j, i + 2, pos + 1 + crate::cpe::utf8_width(s[i + 1]), component);
            }
        } else if c == '?' || c == '*' || is_unreserved(c) {
            lemma_formatted_atoms_shift(s, j, i + 1, pos + crate::cpe::utf8_width(c), component);
        }
    }
}

/// Surviving atoms decode from their own text.
proof fn lemma_atoms_round_trip(atoms: Seq<CpeAtom>, pos: nat, component: usize)
    requires
        forall|k: int| 0 <= k < atoms.len() ==> atom_ok(#[trigger] atoms[k]),
    ensures
        formatted_atoms(atoms_text(atoms), 0, pos, component) == Ok::<Seq<CpeAtom>, crate::identity::IdentityErrorView>(atoms),
    decreases atoms.len(),
{
    if atoms.len() == 0 {
        assert(atoms_text(atoms) =~= Seq::<char>::empty());
        assert(atoms =~= Seq::<CpeAtom>::empty());
    } else {
        let a = atoms[0];
        let rest = atoms.drop_first();
        lemma_atoms_text_front(atoms);
        let t = atoms_text(atoms);
        let head = atom_text(a);
        assert forall|k: int| 0 <= k < rest.len() implies atom_ok(#[trigger] rest[k]) by {
            assert(rest[k] == atoms[k + 1]);
        }
        assert(t.subrange(head.len() as int, t.len() as int) =~= atoms_text(rest));
        match a {
            CpeAtom::Literal(c) => {
                if is_unreserved(c) {
                    assert(head =~= seq![c]);
                    assert(t[0] == c);
                    assert(c != '\\' && c != '?' && c != '*');
                    let p2 = pos + crate::cpe::utf8_width(c);
                    lemma_formatted_atoms_shift(t, 1, 1, p2, component);
                    lemma_atoms_round_trip(rest, p2, component);
                    assert(formatted_atoms(t, 1, p2, component) == Ok::<Seq<CpeAtom>, crate::identity::IdentityErrorView>(rest));
                    assert(seq![CpeAtom::Literal(c)] + rest =~= atoms);
                    assert(t.len() > 0);
                    assert(formatted_atoms(t, 0, pos, component) == Ok::<Seq<CpeAtom>, crate::identity::IdentityErrorView>(atoms));
                } else {
                    assert(atom_ok(atoms[0]));
                    assert(is_quotable(c));
                    assert(head =~= seq!['\\', c]);
                    assert(t[0] == '\\' && t[1] == c);
                    let p2 = pos + 1 + crate::cpe::utf8_width(c);
                    lemma_formatted_atoms_shift(t, 2, 2, p2, component);
                    lemma_atoms_round_trip(rest, p2, component);
                    assert(seq![CpeAtom::Literal(c)] + rest =~= atoms);
                    assert(formatted_atoms(t, 0, pos, component) == Ok::<Seq<CpeAtom>, crate::identity::IdentityErrorView>(atoms));
                }
            },
            CpeAtom::WildcardOne => {
                assert(head =~= seq!['?']);
                assert(t[0] == '?');
                let p2 = pos + crate::cpe::utf8_width('?');
                lemma_formatted_atoms_shift(t, 1, 1, p2, component);
                lemma_atoms_round_trip(rest, p2, component);
                assert(seq![CpeAtom::WildcardOne] + rest =~= atoms);
                assert(formatted_atoms(t, 0, pos, component) == Ok::<Seq<CpeAtom>, crate::identity::IdentityErrorView>(atoms));
            },
            CpeAtom::WildcardMany => {
                assert(head =~= seq!['*']);
                assert(t[0] == '*');
                let p2 = pos + crate::cpe::utf8_width('*');
                lemma_formatted_atoms_shift(t, 1, 1, p2, component);
                lemma_atoms_round_trip(rest, p2, component);
                assert(seq![CpeAtom::WildcardMany] + rest =~= atoms);
                assert(formatted_atoms(t, 0, pos, component) == Ok::<Seq<CpeAtom>, crate::identity::IdentityErrorView>(atoms));
            },
        }
    }
}

/// Each atom's text is at least one character.
proof fn lemma_atoms_text_len(atoms: Seq<CpeAtom>)
    ensures
        atoms_text(atoms).len() >= atoms.len(),
    decreases atoms.len(),
{
    if atoms.len() > 0 {
        lemma_atoms_text_len(atoms.drop_last());
    }
}

/// Atoms that obey the wildcard grammar hold a literal.
proof fn lemma_valid_has_literal(atoms: Seq<CpeAtom>) -> (k: int)
    requires
        wildcard_error(atoms) is None,
    ensures
        0 <= k < atoms.len(),
        is_literal(atoms[k]),
{
    reveal(wildcard_error);
    choose|k: int| 0 <= k < atoms.len() && is_literal(#[trigger] atoms[k])
}

/// A surviving field is parsed back from its own text.
proof fn lemma_field_round_trip(f: FieldModel, component: usize)
    requires
        field_ok(f),
    ensures
        formatted_field_spec(field_text(f), component) == Ok::<FieldModel, crate::identity::IdentityErrorView>(f),
{
    reveal(formatted_field_spec);
    match f {
        FieldModel::Value(atoms) => {
            let t = atoms_text(atoms);
            let k = lemma_valid_has_literal(atoms);
            lemma_atoms_text_len(atoms);
            if atoms.len() == 1 {
                assert(k == 0);
                assert(atoms.drop_last() =~= Seq::<CpeAtom>::empty());
                assert(atoms_text(atoms.drop_last()) =~= Seq::<char>::empty());
                assert(t =~= atom_text(atoms[0]));
                if let CpeAtom::Literal(c) = atoms[0] {
                    if is_unreserved(c) {
                        assert(t =~= seq![c]);
                        assert(atoms =~= seq![CpeAtom::Literal(c)]);
                        assert(c != '-');
                        assert(t != seq!['*']) by {
                            if t == seq!['*'] {
                                assert(t[0] == '*');
                            }
                        }
                        assert(t != seq!['-']) by {
                            if t == seq!['-'] {
                                assert(t[0] == '-');
                            }
                        }
                    } else {
                        assert(t =~= seq!['\\', c]);
                    }
                }
            }
            assert(t != seq!['*'] && t != seq!['-'] && t.len() != 0) by {
                if atoms.len() >= 2 {
                    assert(seq!['*'].len() == 1);
                    assert(seq!['-'].len() == 1);
                }
            }
            lemma_atoms_round_trip(atoms, 0, component);
        },
        FieldModel::Any => {},
        FieldModel::NotApplicable => {},
    }
}

/// The split state after scanning `t` from state `st`.
spec fn scan_from(st: SplitState, t: Seq<char>) -> SplitState
    decreases t.len(),
{
    if t.len() == 0 {
        st
    } else {
        split_step(scan_from(st, t.drop_last()), t.last())
    }
}

/// Scanning a concatenation scans the second part from the first's state.
proof fn lemma_scan_concat(s: Seq<char>, t: Seq<char>)
    ensures
        split_scan(s + t) == scan_from(split_scan(s), t),
    decreases t.len(),
{
    if t.len() == 0 {
        assert(s + t =~= s);
    } else {
        lemma_scan_concat(s, t.drop_last());
        assert((s + t).drop_last() =~= s + t.drop_last());
        assert((s + t).last() == t.last());
    }
}

/// Scanning from a state composes over concatenation.
proof fn lemma_scan_from_concat(st: SplitState, a: Seq<char>, b: Seq<char>)
    ensures
        scan_from(st, a + b) == scan_from(scan_from(st, a), b),
    decreases b.len(),
{
    if b.len() == 0 {
        assert(a + b =~= a);
    } else {
        lemma_scan_from_concat(st, a, b.drop_last());
        assert((a + b).drop_last() =~= a + b.drop_last());
        assert((a + b).last() == b.last());
    }
}

/// Whether scanning adds text to the current component without splitting.
spec fn scans_clean(t: Seq<char>) -> bool {
    forall|st: SplitState|
        !st.escaped ==> #[trigger] scan_from(st, t) == (SplitState { fields: st.fields, current: st.current + t, escaped: false })
}

/// An atom's text scans without splitting.
proof fn lemma_atom_clean(a: CpeAtom)
    requires
        atom_ok(a),
    ensures
        scans_clean(atom_text(a)),
{
    let t = atom_text(a);
    assert forall|st: SplitState| !st.escaped implies #[trigger] scan_from(st, t) == (SplitState {
        fields: st.fields,
        current: st.current + t,
        escaped: false,
    }) by {
        let e = Seq::<char>::empty();
        assert(scan_from(st, e) == st);
        match a {
            CpeAtom::Literal(c) => {
                if is_unreserved(c) {
                    assert(t.drop_last() =~= e);
                    assert(t.last() == c);
                    assert(st.current.push(c) =~= st.current + t);
                } else {
                    let one = seq!['\\'];
                    assert(t.drop_last() =~= one);
                    assert(one.drop_last() =~= e);
                    assert(scan_from(st, one) == split_step(st, '\\'));
                    assert(scan_from(st, one).escaped);
                    assert(t.last() == c);
                    assert(st.current.push('\\').push(c) =~= st.current + t);
                }
            },
            CpeAtom::WildcardOne => {
                assert(t.drop_last() =~= e);
                assert(t.last() == '?');
                assert(st.current.push('?') =~= st.current + t);
            },
            CpeAtom::WildcardMany => {
                assert(t.drop_last() =~= e);
                assert(t.last() == '*');
                assert(st.current.push('*') =~= st.current + t);
            },
        }
    }
}

/// The text of atoms scans without splitting.
proof fn lemma_atoms_clean(atoms: Seq<CpeAtom>)
    requires
        forall|k: int| 0 <= k < atoms.len() ==> atom_ok(#[trigger] atoms[k]),
    ensures
        scans_clean(atoms_text(atoms)),
    decreases atoms.len(),
{
    let t = atoms_text(atoms);
    if atoms.len() == 0 {
        assert forall|st: SplitState| !st.escaped implies #[trigger] scan_from(st, t) == (SplitState {
            fields: st.fields,
            current: st.current + t,
            escaped: false,
        }) by {
            assert(t =~= Seq::<char>::empty());
            assert(st.current + t =~= st.current);
        }
    } else {
        let init = atoms.drop_last();
        assert forall|k: int| 0 <= k < init.len() implies atom_ok(#[trigger] init[k]) by {
            assert(init[k] == atoms[k]);
        }
        lemma_atoms_clean(init);
        lemma_atom_clean(atoms.last());
        let x = atoms_text(init);
        let y = atom_text(atoms.last());
        assert forall|st: SplitState| !st.escaped implies #[trigger] scan_from(st, t) == (SplitState {
            fields: st.fields,
            current: st.current + t,
            escaped: false,
        }) by {
            lemma_scan_from_concat(st, x, y);
            let mid = scan_from(st, x);
            assert(mid == (SplitState { fields: st.fields, current: st.current + x, escaped: false }));
            assert(scan_from(mid, y) == (SplitState { fields: mid.fields, current: mid.current + y, escaped: false }));
            assert(st.current + x + y =~= st.current + t);
        }
    }
}

/// A surviving field's text scans without splitting.
proof fn lemma_field_clean(f: FieldModel)
    requires
        field_ok(f),
    ensures
        scans_clean(field_text(f)),
{
    match f {
        FieldModel::Value(atoms) => lemma_atoms_clean(atoms),
        _ => {
            let t = field_text(f);
            assert forall|st: SplitState| !st.escaped implies #[trigger] scan_from(st, t) == (SplitState {
                fields: st.fields,
                current: st.current + t,
                escaped: false,
            }) by {
                let e = Seq::<char>::empty();
                assert(scan_from(st, e) == st);
                assert(t.drop_last() =~= e);
                assert(t.last() == t[0]);
                assert(st.current.push(t[0]) =~= st.current + t);
            }
        },
    }
}

/// The texts of fields.
spec fn texts(fields: Seq<FieldModel>) -> Seq<Seq<char>> {
    Seq::new(fields.len(), |i: int| field_text(fields[i]))
}

/// Scanning joined surviving fields ends inside the last one.
proof fn lemma_scan_joined(fields: Seq<FieldModel>)
    requires
        fields.len() >= 1,
        forall|i: int| 0 <= i < fields.len() ==> field_ok(#[trigger] fields[i]),
    ensures
        split_scan(joined_fields(fields)) == (SplitState {
            fields: texts(fields.drop_last()),
            current: field_text(fields.last()),
            escaped: false,
        }),
    decreases fields.len(),
{
    let empty = SplitState { fields: seq![], current: seq![], escaped: false };
    if fields.len() == 1 {
        let t = field_text(fields[0]);
        lemma_field_clean(fields[0]);
        lemma_scan_concat(Seq::<char>::empty(), t);
        assert(Seq::<char>::empty() + t =~= t);
        assert(split_scan(Seq::<char>::empty()) == empty);
        assert(scan_from(empty, t) == (SplitState { fields: empty.fields, current: empty.current + t, escaped: false }));
        assert(empty.current + t =~= t);
        assert(texts(fields.drop_last()) =~= Seq::<Seq<char>>::empty());
    } else {
        let init = fields.drop_last();
        assert forall|i: int| 0 <= i < init.len() implies field_ok(#[trigger] init[i]) by {
            assert(init[i] == fields[i]);
        }
        lemma_scan_joined(init);
        let x = joined_fields(init);
        let y = field_text(fields.last());
        lemma_field_clean(fields.last());
        assert(joined_fields(fields) == x + seq![':'] + y);
        lemma_scan_concat(x + seq![':'], y);
        lemma_scan_concat(x, seq![':']);
        let s1 = split_scan(x);
        assert(seq![':'].drop_last() =~= Seq::<char>::empty());
        assert(scan_from(s1, Seq::<char>::empty()) == s1);
        let s2 = scan_from(s1, seq![':']);
        assert(s2 == split_step(s1, ':'));
        assert(s2 == (SplitState { fields: s1.fields.push(s1.current), current: seq![], escaped: false }));
        assert(s1.fields.push(s1.current) =~= texts(init));
        assert(texts(init) =~= texts(fields.drop_last()));
        assert(scan_from(s2, y) == (SplitState { fields: s2.fields, current: s2.current + y, escaped: false }));
        assert(s2.current + y =~= y);
    }
}

/// Splitting joined surviving fields gives back their texts.
proof fn lemma_split_joined(fields: Seq<FieldModel>)
    requires
        fields.len() >= 1,
        forall|i: int| 0 <= i < fields.len() ==> field_ok(#[trigger] fields[i]),
    ensures
        split_formatted_spec(joined_fields(fields)) == Ok::<Seq<Seq<char>>, crate::identity::IdentityErrorView>(texts(fields)),
{
    lemma_scan_joined(fields);
    assert(texts(fields.drop_last()).push(field_text(fields.last())) =~= texts(fields));
}

/// Each text from index `i` on parses back to its field.
proof fn lemma_fields_from(fields: Seq<FieldModel>, i: int)
    requires
        0 <= i <= fields.len(),
        forall|j: int| 0 <= j < fields.len() ==> field_ok(#[trigger] fields[j]),
    ensures
        formatted_fields_from(texts(fields), i) == Ok::<Seq<FieldModel>, crate::identity::IdentityErrorView>(
            fields.subrange(i, fields.len() as int),
        ),
    decreases fields.len() - i,
{
    if i < fields.len() {
        lemma_fields_from(fields, i + 1);
        lemma_field_round_trip(fields[i], i as usize);
        assert(seq![fields[i]] + fields.subrange(i + 1, fields.len() as int) =~= fields.subrange(i, fields.len() as int));
    } else {
        assert(fields.subrange(i, fields.len() as int) =~= Seq::<FieldModel>::empty());
    }
}

/// Eleven surviving fields are parsed back from their joined texts.
proof fn lemma_body_round_trip(fields: Seq<FieldModel>)
    requires
        fields.len() == 11,
        forall|j: int| 0 <= j < fields.len() ==> field_ok(#[trigger] fields[j]),
    ensures
        formatted_body_spec(joined_fields(fields)) == Ok::<Seq<FieldModel>, crate::identity::IdentityErrorView>(fields),
{
    reveal(formatted_body_spec);
    lemma_split_joined(fields);
    lemma_fields_from(fields, 0);
    assert(fields.subrange(0, 11) =~= fields);
}

/// Whether fields are what normalization yields: eleven surviving fields,
/// already lower-cased, with a valid part and language.
pub open spec fn normal_fields(fields: Seq<FieldModel>) -> bool {
    &&& fields.len() == 11
    &&& forall|j: int| 0 <= j < fields.len() ==> field_ok(#[trigger] fields[j])
    &&& forall|j: int| 0 <= j < fields.len() ==> lower_field(#[trigger] fields[j]) == fields[j]
    &&& part_error(fields[0]) is None
    &&& language_error(fields[6]) is None
}

/// Normal fields are parsed back from their canonical formatted string.
proof fn lemma_normal_round_trip(fields: Seq<FieldModel>)
    requires
        normal_fields(fields),
    ensures
        cpe_parse_spec(format_fields(fields)) == Ok::<Seq<FieldModel>, IdentityErrorView>(fields),
{
    reveal(cpe_parse_spec);
    reveal(normalize_fields);
    let v = format_fields(fields);
    assert(v.subrange(0, 8) =~= cpe23_prefix());
    assert(v.subrange(8, v.len() as int) =~= joined_fields(fields));
    lemma_body_round_trip(fields);
    assert(Seq::new(fields.len(), |i: int| lower_field(fields[i])) =~= fields);
}

/// Decoded atoms survive formatting, and a nonempty text gives atoms.
proof fn lemma_formatted_atoms_ok(raw: Seq<char>, i: int, pos: nat, component: usize)
    requires
        formatted_atoms(raw, i, pos, component) is Ok,
    ensures
        forall|k: int|
            0 <= k < formatted_atoms(raw, i, pos, component)->Ok_0.len() ==> atom_ok(
                #[trigger] formatted_atoms(raw, i, pos, component)->Ok_0[k],
            ),
        0 <= i < raw.len() ==> formatted_atoms(raw, i, pos, component)->Ok_0.len() > 0,
    decreases raw.len() - i,
{
    if 0 <= i < raw.len() {
        let c = raw[i];
        if c == '\\' {
            let next = pos + 1 + crate::cpe::utf8_width(raw[i + 1]);
            lemma_formatted_atoms_ok(raw, i + 2, next, component);
        } else {
            lemma_formatted_atoms_ok(raw, i + 1, pos + crate::cpe::utf8_width(c), component);
        }
    }
}

/// Only the text `-` could decode to a lone hyphen, and it denotes NA.
proof fn lemma_formatted_no_hyphen(raw: Seq<char>, component: usize)
    requires
        raw != seq!['-'],
        formatted_atoms(raw, 0, 0, component) is Ok,
    ensures
        formatted_atoms(raw, 0, 0, component)->Ok_0 != seq![CpeAtom::Literal('-')],
{
    let atoms = formatted_atoms(raw, 0, 0, component)->Ok_0;
    if atoms == seq![CpeAtom::Literal('-')] && raw.len() > 0 {
        let c = raw[0];
        if c == '\\' {
            assert(atoms[0] == CpeAtom::Literal(raw[1]));
        } else {
            let w = crate::cpe::utf8_width(c);
            lemma_formatted_atoms_ok(raw, 1, w, component);
            assert(atoms.len() == 1 + formatted_atoms(raw, 1, w, component)->Ok_0.len());
            assert(raw =~= seq!['-']);
        }
    }
}

/// A parsed formatted field survives formatting.
proof fn lemma_formatted_field_ok(raw: Seq<char>, component: usize)
    requires
        formatted_field_spec(raw, component) is Ok,
    ensures
        field_ok(formatted_field_spec(raw, component)->Ok_0),
{
    reveal(formatted_field_spec);
    if raw != seq!['*'] && raw != seq!['-'] && raw.len() != 0 {
        lemma_formatted_atoms_ok(raw, 0, 0, component);
        lemma_formatted_no_hyphen(raw, component);
    }
}

/// Parsed formatted fields from index `i` on number the raw texts left and
/// survive formatting.
proof fn lemma_formatted_fields_ok(raws: Seq<Seq<char>>, i: int)
    requires
        0 <= i <= raws.len(),
        formatted_fields_from(raws, i) is Ok,
    ensures
        formatted_fields_from(raws, i)->Ok_0.len() == raws.len() - i,
        forall|j: int|
            0 <= j < formatted_fields_from(raws, i)->Ok_0.len() ==> field_ok(
                #[trigger] formatted_fields_from(raws, i)->Ok_0[j],
            ),
    decreases raws.len() - i,
{
    if i < raws.len() {
        lemma_formatted_field_ok(raws[i], i as usize);
        lemma_formatted_fields_ok(raws, i + 1);
        let rest = formatted_fields_from(raws, i + 1)->Ok_0;
        let f = formatted_field_spec(raws[i], i as usize)->Ok_0;
        assert forall|j: int| 0 <= j < rest.len() + 1 implies field_ok(#[trigger] (seq![f] + rest)[j]) by {
            if j > 0 {
                assert((seq![f] + rest)[j] == rest[j - 1]);
            }
        }
    }
}

/// A parsed formatted body has eleven fields that survive formatting.
proof fn lemma_formatted_body_ok(body: Seq<char>)
    requires
        formatted_body_spec(body) is Ok,
    ensures
        formatted_body_spec(body)->Ok_0.len() == 11,
        forall|j: int| 0 <= j < 11 ==> field_ok(#[trigger] formatted_body_spec(body)->Ok_0[j]),
{
    reveal(formatted_body_spec);
    let raws = split_formatted_spec(body)->Ok_0;
    lemma_formatted_fields_ok(raws, 0);
}

/// Decoded legacy atoms survive formatting.
proof fn lemma_legacy_atoms_ok(raw: Seq<char>, i: int, component: usize)
    requires
        legacy_atoms(raw, i, component) is Ok,
    ensures
        forall|k: int|
            0 <= k < legacy_atoms(raw, i, component)->Ok_0.len() ==> atom_ok(
                #[trigger] legacy_atoms(raw, i, component)->Ok_0[k],
            ),
    decreases raw.len() - i,
{
    if 0 <= i < raw.len() {
        if raw[i] == '%' {
            lemma_legacy_atoms_ok(raw, i + 3, component);
        } else {
            lemma_legacy_atoms_ok(raw, i + 1, component);
        }
    }
}

/// A legacy value survives formatting.
proof fn lemma_legacy_value_ok(raw: Seq<char>, decoded: Seq<char>, component: usize)
    requires
        legacy_value_spec(raw, decoded, component) is Ok,
    ensures
        field_ok(FieldModel::Value(legacy_value_spec(raw, decoded, component)->Ok_0)),
{
    reveal(legacy_value_spec);
    lemma_legacy_atoms_ok(raw, 0, component);
}

/// A legacy field survives formatting.
proof fn lemma_legacy_field_ok(u: LegacyUriModel, raw: Seq<Seq<char>>, k: int)
    requires
        legacy_field_at(u, raw, k) is Ok,
    ensures
        field_ok(legacy_field_at(u, raw, k)->Ok_0),
{
    reveal(legacy_field_at);
    reveal(legacy_component_spec);
    reveal(legacy_language_spec);
    if k == 6 {
        if let Some(d) = crate::cpe::rendered_language(u.language) {
            lemma_legacy_value_ok(raw[6], d, 6);
        }
    } else {
        let c = if k <= 5 { k - 1 } else { k - 2 };
        if let crate::cpe::LegacyComponentModel::Value(d) = u.components[c] {
            lemma_legacy_value_ok(raw[k], d, k as usize);
        }
    }
}

/// The legacy fields at indices `k` to 10 number `11 - k` and survive
/// formatting.
proof fn lemma_legacy_fields_ok(u: LegacyUriModel, raw: Seq<Seq<char>>, k: int)
    requires
        1 <= k <= 11,
        legacy_fields_from(u, raw, k) is Ok,
    ensures
        legacy_fields_from(u, raw, k)->Ok_0.len() == 11 - k,
        forall|j: int|
            0 <= j < legacy_fields_from(u, raw, k)->Ok_0.len() ==> field_ok(
                #[trigger] legacy_fields_from(u, raw, k)->Ok_0[j],
            ),
    decreases 11 - k,
{
    if k <= 10 {
        lemma_legacy_field_ok(u, raw, k);
        lemma_legacy_fields_ok(u, raw, k + 1);
        let rest = legacy_fields_from(u, raw, k + 1)->Ok_0;
        let f = legacy_field_at(u, raw, k)->Ok_0;
        assert forall|j: int| 0 <= j < rest.len() + 1 implies field_ok(#[trigger] (seq![f] + rest)[j]) by {
            if j > 0 {
                assert((seq![f] + rest)[j] == rest[j - 1]);
            }
        }
    }
}

/// A single literal obeys the wildcard grammar.
proof fn lemma_single_literal(c: char)
    ensures
        wildcard_error(seq![CpeAtom::Literal(c)]) is None,
{
    reveal(wildcard_error);
    let atoms = seq![CpeAtom::Literal(c)];
    assert(is_literal(atoms[0]));
    let first = choose|f: int|
        0 <= f < atoms.len() && is_literal(atoms[f]) && forall|k: int| 0 <= k < f ==> !is_literal(#[trigger] atoms[k]);
    let last = choose|l: int|
        0 <= l < atoms.len() && is_literal(atoms[l]) && forall|k: int|
            l < k < atoms.len() ==> !is_literal(#[trigger] atoms[k]);
    assert(0 <= 0 < atoms.len() && is_literal(atoms[0]) && forall|k: int| 0 <= k < 0 ==> !is_literal(#[trigger] atoms[k]));
    assert(0 <= 0 < atoms.len() && is_literal(atoms[0]) && forall|k: int|
        0 < k < atoms.len() ==> !is_literal(#[trigger] atoms[k]));
    assert(first == 0 && last == 0);
    assert(atoms.subrange(0, 0).len() == 0);
    assert(atoms.subrange(1, 1).len() == 0);
}

/// A parsed legacy binding has eleven fields that survive formatting.
proof fn lemma_legacy_ok(value: Seq<char>)
    requires
        legacy_spec(value) is Ok,
    ensures
        legacy_spec(value)->Ok_0.len() == 11,
        forall|j: int| 0 <= j < 11 ==> field_ok(#[trigger] legacy_spec(value)->Ok_0[j]),
{
    reveal(legacy_spec);
    let comps = split_on(crate::cpe::legacy_body(value)->Some_0, ':');
    let u = crate::cpe::cpe_uri_parse(value)->Ok_0;
    let raw = legacy_raw_spec(comps)->Ok_0;
    lemma_legacy_fields_ok(u, raw, 1);
    let rest = legacy_fields_from(u, raw, 1)->Ok_0;
    let p = legacy_part_spec(u.part);
    if u.part == seq!['a'] || u.part == seq!['o'] || u.part == seq!['h'] {
        lemma_single_literal(u.part[0]);
        assert(seq![CpeAtom::Literal(u.part[0])][0] == CpeAtom::Literal(u.part[0]));
        assert(seq![CpeAtom::Literal(u.part[0])] != seq![CpeAtom::Literal('-')]) by {
            assert(seq![CpeAtom::Literal(u.part[0])][0] != seq![CpeAtom::Literal('-')][0]);
        }
    }
    assert(field_ok(p));
    assert forall|j: int| 0 <= j < 11 implies field_ok(#[trigger] (seq![p] + rest)[j]) by {
        if j > 0 {
            assert((seq![p] + rest)[j] == rest[j - 1]);
        }
    }
}

/// The wildcard error of atoms with a literal, given their first and last
/// literal.
spec fn wildcard_error_at(a: Seq<CpeAtom>, f: int, l: int) -> Option<Seq<char>> {
    if exists|k: int| f < k < l && !is_literal(#[trigger] a[k]) {
        Some(crate::cpe::REASON_EMBEDDED@)
    } else if !crate::cpe::edge_ok(a.subrange(0, f)) || !crate::cpe::edge_ok(a.subrange(l + 1, a.len() as int)) {
        Some(crate::cpe::REASON_EDGE@)
    } else {
        None
    }
}

/// The wildcard error of atoms with a literal, by their first and last
/// literal.
proof fn lemma_wildcard_at(a: Seq<CpeAtom>) -> (fl: (int, int))
    requires
        exists|k: int| 0 <= k < a.len() && is_literal(#[trigger] a[k]),
    ensures
        0 <= fl.0 < a.len(),
        is_literal(a[fl.0]),
        forall|k: int| 0 <= k < fl.0 ==> !is_literal(#[trigger] a[k]),
        0 <= fl.1 < a.len(),
        is_literal(a[fl.1]),
        forall|k: int| fl.1 < k < a.len() ==> !is_literal(#[trigger] a[k]),
        wildcard_error(a) == wildcard_error_at(a, fl.0, fl.1),
{
    reveal(wildcard_error);
    let f0 = lemma_first_literal(a);
    let l0 = lemma_last_literal(a);
    let fa = choose|f: int|
        0 <= f < a.len() && is_literal(a[f]) && forall|k: int| 0 <= k < f ==> !is_literal(#[trigger] a[k]);
    let la = choose|l: int|
        0 <= l < a.len() && is_literal(a[l]) && forall|k: int| l < k < a.len() ==> !is_literal(#[trigger] a[k]);
    assert(fa == f0) by {
        assert(exists|f: int|
            0 <= f < a.len() && is_literal(a[f]) && forall|k: int| 0 <= k < f ==> !is_literal(#[trigger] a[k])) by {
            assert(is_literal(a[f0]));
        }
        if fa < f0 {
        } else if fa > f0 {
            assert(!is_literal(a[f0]));
        }
    }
    assert(la == l0) by {
        assert(exists|l: int|
            0 <= l < a.len() && is_literal(a[l]) && forall|k: int| l < k < a.len() ==> !is_literal(#[trigger] a[k])) by {
            assert(is_literal(a[l0]));
        }
        if la > l0 {
        } else if la < l0 {
            assert(!is_literal(a[l0]));
        }
    }
    (f0, l0)
}

/// The wildcard grammar looks only at where the literals stand and at the
/// wildcards themselves.
#[verifier::spinoff_prover]
proof fn lemma_wildcard_same(a: Seq<CpeAtom>, b: Seq<CpeAtom>)
    requires
        a.len() == b.len(),
        forall|k: int| 0 <= k < a.len() ==> is_literal(#[trigger] a[k]) == is_literal(b[k]),
        forall|k: int| 0 <= k < a.len() && !is_literal(a[k]) ==> #[trigger] a[k] == b[k],
    ensures
        wildcard_error(a) == wildcard_error(b),
{
    if exists|k: int| 0 <= k < a.len() && is_literal(#[trigger] a[k]) {
        let k0 = choose|k: int| 0 <= k < a.len() && is_literal(#[trigger] a[k]);
        assert(is_literal(b[k0]));
        let (fa, la) = lemma_wildcard_at(a);
        let (fb, lb) = lemma_wildcard_at(b);
        assert(fa == fb) by {
            if fa < fb {
                assert(is_literal(b[fa]));
            }
            if fa > fb {
                assert(is_literal(a[fb]));
            }
        }
        assert(la == lb) by {
            if la < lb {
                assert(is_literal(a[lb]));
            }
            if la > lb {
                assert(is_literal(b[la]));
            }
        }
        assert(a.subrange(0, fa) =~= b.subrange(0, fa));
        assert(a.subrange(la + 1, a.len() as int) =~= b.subrange(la + 1, b.len() as int));
        assert((exists|k: int| fa < k < la && !is_literal(#[trigger] a[k])) == (exists|k: int|
            fa < k < la && !is_literal(#[trigger] b[k]))) by {
            if exists|k: int| fa < k < la && !is_literal(#[trigger] a[k]) {
                let k = choose|k: int| fa < k < la && !is_literal(#[trigger] a[k]);
                assert(!is_literal(b[k]));
            }
            if exists|k: int| fa < k < la && !is_literal(#[trigger] b[k]) {
                let k = choose|k: int| fa < k < la && !is_literal(#[trigger] b[k]);
                assert(!is_literal(a[k]));
            }
        }
    } else {
        reveal(wildcard_error);
        assert(!exists|k: int| 0 <= k < b.len() && is_literal(#[trigger] b[k])) by {
            if exists|k: int| 0 <= k < b.len() && is_literal(#[trigger] b[k]) {
                let k = choose|k: int| 0 <= k < b.len() && is_literal(#[trigger] b[k]);
                assert(is_literal(a[k]));
            }
        }
    }
}

/// The first literal of atoms that hold one.
proof fn lemma_first_literal(a: Seq<CpeAtom>) -> (f: int)
    requires
        exists|k: int| 0 <= k < a.len() && is_literal(#[trigger] a[k]),
    ensures
        0 <= f < a.len(),
        is_literal(a[f]),
        forall|k: int| 0 <= k < f ==> !is_literal(#[trigger] a[k]),
    decreases a.len(),
{
    if is_literal(a[0]) {
        0
    } else {
        let k0 = choose|k: int| 0 <= k < a.len() && is_literal(#[trigger] a[k]);
        assert(is_literal(a.drop_first()[k0 - 1]));
        let f = lemma_first_literal(a.drop_first());
        assert forall|k: int| 0 <= k < f + 1 implies !is_literal(#[trigger] a[k]) by {
            if k > 0 {
                assert(a[k] == a.drop_first()[k - 1]);
            }
        }
        assert(a[f + 1] == a.drop_first()[f]);
        f + 1
    }
}

/// The last literal of atoms that hold one.
proof fn lemma_last_literal(a: Seq<CpeAtom>) -> (l: int)
    requires
        exists|k: int| 0 <= k < a.len() && is_literal(#[trigger] a[k]),
    ensures
        0 <= l < a.len(),
        is_literal(a[l]),
        forall|k: int| l < k < a.len() ==> !is_literal(#[trigger] a[k]),
    decreases a.len(),
{
    if is_literal(a.last()) {
        (a.len() - 1) as int
    } else {
        let k0 = choose|k: int| 0 <= k < a.len() && is_literal(#[trigger] a[k]);
        assert(is_literal(a.drop_last()[k0]));
        let l = lemma_last_literal(a.drop_last());
        assert forall|k: int| l < k < a.len() implies !is_literal(#[trigger] a[k]) by {
            if k < a.len() - 1 {
                assert(a[k] == a.drop_last()[k]);
            }
        }
        assert(a[l] == a.drop_last()[l]);
        l
    }
}

/// Lower-casing a character twice is lower-casing it once, and it maps only
/// upper-case ASCII letters elsewhere, onto lower-case ones.
proof fn lemma_lower_char(c: char)
    ensures
        ascii_lower(ascii_lower(c)) == ascii_lower(c),
        !('A' <= c && c <= 'Z') ==> ascii_lower(c) == c,
        ('A' <= c && c <= 'Z') ==> 'a' <= ascii_lower(c) && ascii_lower(c) <= 'z',
{
}

/// The atoms of a field, lower-cased.
spec fn lower_atoms(atoms: Seq<CpeAtom>) -> Seq<CpeAtom> {
    Seq::new(atoms.len(), |i: int| lower_atom(atoms[i]))
}

/// Lower-casing keeps a surviving field surviving, and a second lower-casing
/// changes nothing.
proof fn lemma_lower_field(f: FieldModel)
    requires
        field_ok(f),
    ensures
        field_ok(lower_field(f)),
        lower_field(lower_field(f)) == lower_field(f),
{
    if let FieldModel::Value(atoms) = f {
        let la = lower_atoms(atoms);
        assert(lower_field(f) == FieldModel::Value(la));
        assert forall|k: int| 0 <= k < la.len() implies atom_ok(#[trigger] la[k]) by {
            assert(atom_ok(atoms[k]));
            if let CpeAtom::Literal(c) = atoms[k] {
                lemma_lower_char(c);
            }
        }
        assert forall|k: int| 0 <= k < atoms.len() && !is_literal(atoms[k]) implies #[trigger] atoms[k] == la[k] by {}
        lemma_wildcard_same(atoms, la);
        assert(la != seq![CpeAtom::Literal('-')]) by {
            if la == seq![CpeAtom::Literal('-')] {
                assert(la[0] == CpeAtom::Literal('-'));
                if let CpeAtom::Literal(c) = atoms[0] {
                    lemma_lower_char(c);
                }
                assert(atoms =~= seq![CpeAtom::Literal('-')]);
            }
        }
        assert forall|k: int| 0 <= k < la.len() implies #[trigger] lower_atom(la[k]) == la[k] by {
            if let CpeAtom::Literal(c) = atoms[k] {
                lemma_lower_char(c);
            }
        }
        assert(lower_atoms(la) =~= la);
    }
}

/// Lower-cased atoms decode to the lower-cased text.
proof fn lemma_decoded_lower(atoms: Seq<CpeAtom>)
    ensures
        decoded_of(lower_atoms(atoms)) == ascii_lower_all(decoded_of(atoms)),
{
    assert(decoded_of(lower_atoms(atoms)) =~= ascii_lower_all(decoded_of(atoms)));
}

/// Splitting lower-cased text at a character that is no ASCII letter gives
/// the lower-cased pieces.
proof fn lemma_split_lower(s: Seq<char>, sep: char)
    requires
        !('A' <= sep && sep <= 'Z'),
        !('a' <= sep && sep <= 'z'),
    ensures
        split_on(ascii_lower_all(s), sep) == Seq::new(
            split_on(s, sep).len(),
            |i: int| ascii_lower_all(split_on(s, sep)[i]),
        ),
    decreases s.len(),
{
    let ls = ascii_lower_all(s);
    if s.len() == 0 {
        assert(ls =~= Seq::<char>::empty());
        assert(ascii_lower_all(Seq::<char>::empty()) =~= Seq::<char>::empty());
        assert(split_on(ls, sep) =~= Seq::new(split_on(s, sep).len(), |i: int| ascii_lower_all(split_on(s, sep)[i])));
    } else {
        lemma_split_lower(s.drop_last(), sep);
        crate::text::lemma_split_nonempty(s.drop_last(), sep);
        assert(ls.drop_last() =~= ascii_lower_all(s.drop_last()));
        lemma_lower_char(s.last());
        let r = split_on(s.drop_last(), sep);
        let lr = Seq::new(r.len(), |i: int| ascii_lower_all(r[i]));
        assert(ls.last() == ascii_lower(s.last()));
        assert((ls.last() == sep) == (s.last() == sep));
        if s.last() == sep {
            assert(split_on(ls, sep) =~= Seq::new(split_on(s, sep).len(), |i: int| ascii_lower_all(split_on(s, sep)[i]))) by {
                assert(ascii_lower_all(Seq::<char>::empty()) =~= Seq::<char>::empty());
            }
        } else {
            assert(ascii_lower_all(r.last().push(s.last())) =~= lr.last().push(ls.last()));
            assert(split_on(ls, sep) =~= Seq::new(split_on(s, sep).len(), |i: int| ascii_lower_all(split_on(s, sep)[i])));
        }
    }
}

/// A valid language tag stays valid when lower-cased.
proof fn lemma_language_lower(d: Seq<char>)
    requires
        language_tag_ok(d),
    ensures
        language_tag_ok(ascii_lower_all(d)),
{
    reveal(language_tag_ok);
    lemma_split_lower(d, '-');
    crate::text::lemma_split_nonempty(d, '-');
    let tags = split_on(d, '-');
    let lt = split_on(ascii_lower_all(d), '-');
    assert(lt[0] == ascii_lower_all(tags[0]));
    assert forall|t: Seq<char>| all_alpha(t) implies all_alpha(#[trigger] ascii_lower_all(t)) by {
        assert forall|i: int| 0 <= i < t.len() implies crate::cpe::is_ascii_alpha(#[trigger] ascii_lower_all(t)[i]) by {
            assert(crate::cpe::is_ascii_alpha(t[i]));
            lemma_lower_char(t[i]);
        }
    }
    assert forall|t: Seq<char>| all_digit(t) implies all_digit(#[trigger] ascii_lower_all(t)) by {
        assert forall|i: int| 0 <= i < t.len() implies crate::cpe::is_ascii_digit(#[trigger] ascii_lower_all(t)[i]) by {
            assert(crate::cpe::is_ascii_digit(t[i]));
            lemma_lower_char(t[i]);
        }
    }
    if tags.len() == 2 {
        assert(lt[1] == ascii_lower_all(tags[1]));
    }
}

/// Lower-casing keeps a valid part and a valid language valid.
proof fn lemma_lower_checks(part: FieldModel, language: FieldModel)
    requires
        part_error(part) is None,
        language_error(language) is None,
    ensures
        part_error(lower_field(part)) is None,
        language_error(lower_field(language)) is None,
{
    reveal(part_error);
    reveal(language_error);
    if let FieldModel::Value(atoms) = part {
        lemma_decoded_lower(atoms);
        let d = decoded_of(atoms);
        assert(ascii_lower_all(d) == d) by {
            lemma_lower_char(d[0]);
            assert(ascii_lower_all(d) =~= d);
        }
        assert(lower_field(part) == FieldModel::Value(lower_atoms(atoms)));
    }
    if let FieldModel::Value(atoms) = language {
        lemma_decoded_lower(atoms);
        lemma_language_lower(decoded_of(atoms));
        assert(lower_field(language) == FieldModel::Value(lower_atoms(atoms)));
    }
}

/// What a CPE name parses to is normal.
proof fn lemma_parse_normal(value: Seq<char>)
    requires
        cpe_parse_spec(value) is Ok,
    ensures
        normal_fields(cpe_parse_spec(value)->Ok_0),
{
    reveal(cpe_parse_spec);
    reveal(normalize_fields);
    let raw = if crate::text::has_prefix(value, cpe23_prefix()) {
        let body = value.subrange(8, value.len() as int);
        lemma_formatted_body_ok(body);
        formatted_body_spec(body)
    } else {
        lemma_legacy_ok(value);
        legacy_spec(value)
    };
    let fields = raw->Ok_0;
    let g = cpe_parse_spec(value)->Ok_0;
    assert(g == Seq::new(fields.len(), |i: int| lower_field(fields[i])));
    assert forall|j: int| 0 <= j < g.len() implies field_ok(#[trigger] g[j]) && lower_field(g[j]) == g[j] by {
        lemma_lower_field(fields[j]);
    }
    lemma_lower_checks(fields[0], fields[6]);
}

/// Normalizing a CPE name is idempotent: the canonical formatted string of a
/// normalized name parses to the same name.
pub proof fn lemma_cpe_normalization_idempotent(value: Seq<char>)
    requires
        cpe_parse_spec(value) is Ok,
    ensures
        cpe_parse_spec(format_fields(cpe_parse_spec(value)->Ok_0)) == cpe_parse_spec(value),
{
    lemma_parse_normal(value);
    lemma_normal_round_trip(cpe_parse_spec(value)->Ok_0);
}

} // verus!
