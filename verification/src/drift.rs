//! Drift between an approved document and a live one: the entries that
//! describe every difference, their severity, and the report's summary.

use vstd::prelude::*;
use crate::canonical::{canonical, canonicalize_value};
use crate::json::{JsonModel, JsonValue, has_key, json_model, lookup, members_model, leaf_equal, lemma_array_model, lemma_object_model, find_member};
use crate::render::{json_text, json_to_text};
use crate::text::{byte_len, contains_text, cut_count, decimal, push_char, append_decimal, chars_of, bytes_exceed, cut_at_bytes, string_of, text_contains};

verus! {

/// How much a change matters.
#[derive(Clone, Copy, Debug, PartialEq, Eq, Structural)]
pub enum DriftSeverity {
    Informational,
    Minor,
    Major,
    Critical,
}

/// What happened at a path.
#[derive(Clone, Copy, Debug, PartialEq, Eq, Structural)]
pub enum DriftKind {
    Added,
    Removed,
    Changed,
}

/// One difference between the approved and the live document.
#[derive(Debug)]
pub struct DriftEntry {
    pub path: String,
    pub kind: DriftKind,
    pub severity: DriftSeverity,
    pub message: String,
}

/// The view of a drift entry.
pub struct EntryView {
    pub path: Seq<char>,
    pub kind: DriftKind,
    pub severity: DriftSeverity,
    pub message: Seq<char>,
}

impl View for DriftEntry {
    type V = EntryView;

    open spec fn view(&self) -> EntryView {
        EntryView { path: self.path@, kind: self.kind, severity: self.severity, message: self.message@ }
    }
}

/// The views of a sequence of entries.
pub open spec fn entries_view(es: Seq<DriftEntry>) -> Seq<EntryView> {
    Seq::new(es.len(), |i: int| es[i]@)
}

impl DriftEntry {
    /// A copy with the same view.
    pub fn duplicate(&self) -> (r: DriftEntry)
        ensures
            r@ == self@,
    {
        DriftEntry {
            path: self.path.clone(),
            kind: self.kind,
            severity: self.severity,
            message: self.message.clone(),
        }
    }
}

/// A copy of a list of entries with the same views.
pub fn copy_entries(es: &Vec<DriftEntry>) -> (r: Vec<DriftEntry>)
    ensures
        entries_view(r@) == entries_view(es@),
{
    let mut r: Vec<DriftEntry> = Vec::new();
    let mut i: usize = 0;
    while i < es.len()
        invariant
            i <= es@.len(),
            r@.len() == i,
            forall|k: int| 0 <= k < i ==> #[trigger] r@[k]@ == es@[k]@,
        decreases es@.len() - i,
    {
        r.push(es[i].duplicate());
        i = i + 1;
    }
    assert(entries_view(r@) =~= entries_view(es@));
    r
}

/// Whether two lists of entries are the same, entry by entry.
pub fn same_entries(a: &Vec<DriftEntry>, b: &Vec<DriftEntry>) -> (r: bool)
    ensures
        r == (entries_view(a@) == entries_view(b@)),
{
    if a.len() != b.len() {
        assert(entries_view(a@).len() != entries_view(b@).len());
        return false;
    }
    let mut i: usize = 0;
    while i < a.len()
        invariant
            a@.len() == b@.len(),
            i <= a@.len(),
            forall|k: int| 0 <= k < i ==> #[trigger] a@[k]@ == b@[k]@,
        decreases a@.len() - i,
    {
        let x = &a[i];
        let y = &b[i];
        if !(x.path == y.path && x.kind == y.kind && x.severity == y.severity && x.message == y.message) {
            assert(entries_view(a@)[i as int] != entries_view(b@)[i as int]);
            return false;
        }
        assert(a@[i as int]@ == b@[i as int]@);
        i = i + 1;
    }
    assert(entries_view(a@) =~= entries_view(b@));
    true
}

/// The result of comparing two documents.
#[derive(Debug)]
pub struct DriftReport {
    pub drift_detected: bool,
    pub entries: Vec<DriftEntry>,
}

/// The concatenation of a sequence of sequences, in order.
pub open spec fn concat_all<A>(parts: Seq<Seq<A>>) -> Seq<A>
    decreases parts.len(),
{
    if parts.len() == 0 {
        Seq::empty()
    } else {
        concat_all(parts.drop_last()) + parts.last()
    }
}

pub proof fn lemma_concat_all_step<A>(parts: Seq<Seq<A>>, i: int)
    requires
        0 <= i < parts.len(),
    ensures
        concat_all(parts.take(i + 1)) == concat_all(parts.take(i)) + parts[i],
{
    assert(parts.take(i + 1).drop_last() =~= parts.take(i));
}

pub proof fn lemma_concat_all_empty<A>(parts: Seq<Seq<A>>)
    ensures
        concat_all(parts.take(0)) == Seq::<A>::empty(),
{
    assert(parts.take(0).len() == 0);
}

/// The path of a member of the object at `path`.
pub open spec fn field_path(path: Seq<char>, key: Seq<char>) -> Seq<char> {
    path + seq!['.'] + key
}

/// The path of an item of the array at `path`.
pub open spec fn index_path(path: Seq<char>, i: nat) -> Seq<char> {
    path + seq!['['] + decimal(i) + seq![']']
}

pub open spec fn removed_field_message(key: Seq<char>) -> Seq<char> {
    "Approved field '"@ + key + "' is missing from the live schema."@
}

pub open spec fn added_field_message(key: Seq<char>) -> Seq<char> {
    "Live schema introduced new field '"@ + key + "'."@
}

pub open spec fn removed_item_message() -> Seq<char> {
    "Live schema removed an approved array entry."@
}

pub open spec fn added_item_message() -> Seq<char> {
    "Live schema added a new array entry."@
}

/// The text a value is shown by before any shortening: a string between
/// quotes as it is, anything else as its compact JSON text.
pub open spec fn raw_preview(m: JsonModel) -> Seq<char> {
    match m {
        JsonModel::Str(s) => seq!['"'] + s + seq!['"'],
        _ => json_text(m),
    }
}

/// The preview can be shortened: it is at most 80 bytes long, or its first
/// 77 bytes end on a character boundary.
pub open spec fn preview_fits(m: JsonModel) -> bool {
    let t = raw_preview(m);
    byte_len(t) <= 80 || byte_len(t.take(cut_count(t, 77))) == 77
}

/// The text a value is shown by in a change message: at most 80 bytes, or
/// its first 77 bytes followed by `...`.
pub open spec fn preview(m: JsonModel) -> Seq<char> {
    let t = raw_preview(m);
    if byte_len(t) > 80 {
        t.take(cut_count(t, 77)) + "..."@
    } else {
        t
    }
}

pub open spec fn changed_message(a: JsonModel, b: JsonModel) -> Seq<char> {
    "Value changed from "@ + preview(a) + " to "@ + preview(b) + "."@
}

/// The path names a descriptive part of the schema.
pub open spec fn descriptive_path(path: Seq<char>) -> bool {
    contains_text(path, "description"@) || contains_text(path, "title"@) || contains_text(
        path,
        "metadata"@,
    ) || contains_text(path, "instructions"@)
}

/// The severity of a changed value at `path`.
pub open spec fn change_severity(path: Seq<char>, a: JsonModel, b: JsonModel) -> DriftSeverity {
    if descriptive_path(path) {
        DriftSeverity::Informational
    } else {
        match (a, b) {
            (JsonModel::Str(_), JsonModel::Str(_)) => DriftSeverity::Major,
            (JsonModel::Number(_), JsonModel::Number(_)) => DriftSeverity::Major,
            (JsonModel::Bool(_), JsonModel::Bool(_)) => DriftSeverity::Major,
            (JsonModel::Null, _) => DriftSeverity::Major,
            (_, JsonModel::Null) => DriftSeverity::Major,
            _ => DriftSeverity::Critical,
        }
    }
}

/// The entries for two values compared as a whole.
pub open spec fn leaf_diff(path: Seq<char>, a: JsonModel, b: JsonModel) -> Seq<EntryView> {
    if leaf_equal(a, b) {
        Seq::empty()
    } else {
        seq![
            EntryView {
                path,
                kind: DriftKind::Changed,
                severity: change_severity(path, a, b),
                message: changed_message(a, b),
            },
        ]
    }
}

/// Every difference between `a` (approved) and `b` (live) below `path`, in
/// the order the comparison finds them.
pub open spec fn diff_entries(path: Seq<char>, a: JsonModel, b: JsonModel) -> Seq<EntryView>
    decreases a,
{
    match a {
        JsonModel::Object(am) => match b {
            JsonModel::Object(bm) => concat_all(approved_member_diffs(path, am, bm)) + concat_all(
                added_member_parts(path, am, bm),
            ),
            _ => leaf_diff(path, a, b),
        },
        JsonModel::Array(av) => match b {
            JsonModel::Array(bv) => concat_all(shared_item_diffs(path, av, bv)) + removed_items(
                path,
                av.len(),
                bv.len(),
            ) + added_items(path, av.len(), bv.len()),
            _ => leaf_diff(path, a, b),
        },
        _ => leaf_diff(path, a, b),
    }
}

/// For each approved member in order: the differences below it, or its removal.
pub open spec fn approved_member_diffs(
    path: Seq<char>,
    am: Seq<(Seq<char>, JsonModel)>,
    bm: Seq<(Seq<char>, JsonModel)>,
) -> Seq<Seq<EntryView>>
    decreases am,
{
    Seq::new(
        am.len(),
        |i: int|
            if 0 <= i < am.len() {
                match lookup(bm, am[i].0) {
                    Some(lv) => diff_entries(field_path(path, am[i].0), am[i].1, lv),
                    None => seq![
                        EntryView {
                            path: field_path(path, am[i].0),
                            kind: DriftKind::Removed,
                            severity: DriftSeverity::Critical,
                            message: removed_field_message(am[i].0),
                        },
                    ],
                }
            } else {
                Seq::empty()
            },
    )
}

/// For each live member in order: its addition, if the approved object lacks its key.
pub open spec fn added_member_parts(
    path: Seq<char>,
    am: Seq<(Seq<char>, JsonModel)>,
    bm: Seq<(Seq<char>, JsonModel)>,
) -> Seq<Seq<EntryView>> {
    Seq::new(
        bm.len(),
        |j: int|
            if !has_key(am, bm[j].0) {
                seq![
                    EntryView {
                        path: field_path(path, bm[j].0),
                        kind: DriftKind::Added,
                        severity: DriftSeverity::Minor,
                        message: added_field_message(bm[j].0),
                    },
                ]
            } else {
                Seq::empty()
            },
    )
}

/// For each index both arrays have: the differences below it.
pub open spec fn shared_item_diffs(path: Seq<char>, av: Seq<JsonModel>, bv: Seq<JsonModel>) -> Seq<
    Seq<EntryView>,
>
    decreases av,
{
    Seq::new(
        if av.len() < bv.len() {
            av.len()
        } else {
            bv.len()
        },
        |i: int|
            if 0 <= i < av.len() && i < bv.len() {
                diff_entries(index_path(path, i as nat), av[i], bv[i])
            } else {
                Seq::empty()
            },
    )
}

/// The approved items beyond the live array's end.
pub open spec fn removed_items(path: Seq<char>, alen: nat, blen: nat) -> Seq<EntryView> {
    if alen > blen {
        Seq::new(
            (alen - blen) as nat,
            |k: int|
                EntryView {
                    path: index_path(path, (blen + k) as nat),
                    kind: DriftKind::Removed,
                    severity: DriftSeverity::Critical,
                    message: removed_item_message(),
                },
        )
    } else {
        Seq::empty()
    }
}

/// The live items beyond the approved array's end.
pub open spec fn added_items(path: Seq<char>, alen: nat, blen: nat) -> Seq<EntryView> {
    if blen > alen {
        Seq::new(
            (blen - alen) as nat,
            |k: int|
                EntryView {
                    path: index_path(path, (alen + k) as nat),
                    kind: DriftKind::Added,
                    severity: DriftSeverity::Minor,
                    message: added_item_message(),
                },
        )
    } else {
        Seq::empty()
    }
}

/// Both previews of a compared pair can be shortened wherever the pair differs.
pub open spec fn leaf_previews_fit(a: JsonModel, b: JsonModel) -> bool {
    leaf_equal(a, b) || (preview_fits(a) && preview_fits(b))
}

/// Every change message the comparison of `a` with `b` builds can be shortened.
pub open spec fn diff_previews_fit(a: JsonModel, b: JsonModel) -> bool
    decreases a,
{
    match a {
        JsonModel::Object(am) => match b {
            JsonModel::Object(bm) => member_previews_fit(am, bm),
            _ => leaf_previews_fit(a, b),
        },
        JsonModel::Array(av) => match b {
            JsonModel::Array(bv) => item_previews_fit(av, bv),
            _ => leaf_previews_fit(a, b),
        },
        _ => leaf_previews_fit(a, b),
    }
}

pub open spec fn member_previews_fit(am: Seq<(Seq<char>, JsonModel)>, bm: Seq<(Seq<char>, JsonModel)>) -> bool
    decreases am,
{
    forall|i: int|
        0 <= i < am.len() ==> match lookup(bm, #[trigger] am[i].0) {
            Some(lv) => diff_previews_fit(am[i].1, lv),
            None => true,
        }
}

pub open spec fn item_previews_fit(av: Seq<JsonModel>, bv: Seq<JsonModel>) -> bool
    decreases av,
{
    forall|i: int| 0 <= i < av.len() && i < bv.len() ==> diff_previews_fit(#[trigger] av[i], bv[i])
}


/// The text `value` is shown by in a change message.
pub fn preview_value(value: &JsonValue) -> (r: String)
    requires
        preview_fits(value@),
    ensures
        r@ == preview(value@),
{
    let raw = match value {
        JsonValue::String(inner) => {
            let mut t = String::new();
            push_char(&mut t, '"');
            t.append(inner.as_str());
            push_char(&mut t, '"');
            t
        },
        _ => json_to_text(value),
    };
    assert(raw@ == raw_preview(value@));
    let cs = chars_of(raw.as_str());
    if bytes_exceed(&cs, 80) {
        let (count, _bytes) = cut_at_bytes(&cs, 77);
        let mut out = string_of(&cs, count);
        out.append("...");
        out
    } else {
        raw
    }
}

/// The severity of a changed value at `path`.
pub fn classify_change(path: &String, approved: &JsonValue, live: &JsonValue) -> (r: DriftSeverity)
    ensures
        r == change_severity(path@, approved@, live@),
{
    if text_contains(path.as_str(), "description") || text_contains(path.as_str(), "title")
        || text_contains(path.as_str(), "metadata") || text_contains(path.as_str(), "instructions") {
        return DriftSeverity::Informational;
    }
    match (approved, live) {
        (JsonValue::String(_), JsonValue::String(_)) => DriftSeverity::Major,
        (JsonValue::Number(_), JsonValue::Number(_)) => DriftSeverity::Major,
        (JsonValue::Bool(_), JsonValue::Bool(_)) => DriftSeverity::Major,
        (JsonValue::Null, _) => DriftSeverity::Major,
        (_, JsonValue::Null) => DriftSeverity::Major,
        _ => DriftSeverity::Critical,
    }
}

fn make_field_path(path: &String, key: &String) -> (r: String)
    ensures
        r@ == field_path(path@, key@),
{
    let mut r = path.clone();
    push_char(&mut r, '.');
    r.append(key.as_str());
    r
}

fn make_index_path(path: &String, i: usize) -> (r: String)
    ensures
        r@ == index_path(path@, i as nat),
{
    let mut r = path.clone();
    push_char(&mut r, '[');
    append_decimal(&mut r, i as u64);
    push_char(&mut r, ']');
    r
}

fn push_entry(entries: &mut Vec<DriftEntry>, e: DriftEntry)
    ensures
        entries_view(final(entries)@) == entries_view(old(entries)@).push(e@),
{
    entries.push(e);
    assert(entries_view(final(entries)@) =~= entries_view(old(entries)@).push(e@));
}

/// Appends to `entries` every difference between `approved` and `live` below `path`.
#[verifier::loop_isolation(false)]
#[verifier::rlimit(50)]
pub fn diff_value(path: &String, approved: &JsonValue, live: &JsonValue, entries: &mut Vec<DriftEntry>)
    requires
        diff_previews_fit(approved@, live@),
    ensures
        entries_view(final(entries)@) == entries_view(old(entries)@) + diff_entries(path@, approved@, live@),
    decreases approved,
{
    let ghost start = entries_view(entries@);
    match (approved, live) {
        (JsonValue::Object(am), JsonValue::Object(lm)) => {
            let ghost amm = members_model(am@);
            let ghost lmm = members_model(lm@);
            proof {
                lemma_object_model(*am);
                lemma_object_model(*lm);
            }
            let ghost parts = approved_member_diffs(path@, amm, lmm);
            let mut i: usize = 0;
            proof {
                lemma_concat_all_empty(parts);
            }
            while i < am.len()
                invariant
                    i <= am@.len(),
                    amm.len() == am@.len(),
                    member_previews_fit(amm, lmm),
                    entries_view(entries@) == start + concat_all(parts.take(i as int)),
                decreases am@.len() - i,
            {
                let next_path = make_field_path(path, &am[i].key);
                let ghost before = entries_view(entries@);
                assert(amm[i as int].0 == am@[i as int].key@);
                match find_member(lm, &am[i].key) {
                    Some(j) => {
                        proof {
                            assert(decreases_to!(approved => am@[i as int].value));
                        }
                        diff_value(&next_path, &am[i].value, &lm[j].value, entries);
                    },
                    None => {
                        let mut message = String::from_str("Approved field '");
                        message.append(am[i].key.as_str());
                        message.append("' is missing from the live schema.");
                        push_entry(
                            entries,
                            DriftEntry {
                                path: next_path,
                                kind: DriftKind::Removed,
                                severity: DriftSeverity::Critical,
                                message,
                            },
                        );
                    },
                }
                proof {
                    lemma_concat_all_step(parts, i as int);
                    assert(entries_view(entries@) =~= before + parts[i as int]);
                }
                i = i + 1;
            }
            assert(parts.take(am@.len() as int) =~= parts);
            let ghost mid = entries_view(entries@);
            let ghost added = added_member_parts(path@, amm, lmm);
            let mut j: usize = 0;
            proof {
                lemma_concat_all_empty(added);
            }
            while j < lm.len()
                invariant
                    j <= lm@.len(),
                    lmm.len() == lm@.len(),
                    entries_view(entries@) == mid + concat_all(added.take(j as int)),
                decreases lm@.len() - j,
            {
                let ghost before = entries_view(entries@);
                assert(lmm[j as int].0 == lm@[j as int].key@);
                if find_member(am, &lm[j].key).is_none() {
                    let next_path = make_field_path(path, &lm[j].key);
                    let mut message = String::from_str("Live schema introduced new field '");
                    message.append(lm[j].key.as_str());
                    message.append("'.");
                    push_entry(
                        entries,
                        DriftEntry {
                            path: next_path,
                            kind: DriftKind::Added,
                            severity: DriftSeverity::Minor,
                            message,
                        },
                    );
                }
                proof {
                    lemma_concat_all_step(added, j as int);
                    assert(entries_view(entries@) =~= before + added[j as int]);
                }
                j = j + 1;
            }
            assert(added.take(lm@.len() as int) =~= added);
            assert(entries_view(entries@) =~= start + diff_entries(path@, approved@, live@));
        },
        (JsonValue::Array(av), JsonValue::Array(lv)) => {
            proof {
                lemma_array_model(*av);
                lemma_array_model(*lv);
            }
            let ghost avm = json_model(*approved)->Array_0;
            let ghost lvm = json_model(*live)->Array_0;
            let shared = if av.len() < lv.len() {
                av.len()
            } else {
                lv.len()
            };
            let ghost parts = shared_item_diffs(path@, avm, lvm);
            let mut i: usize = 0;
            proof {
                lemma_concat_all_empty(parts);
            }
            while i < shared
                invariant
                    i <= shared,
                    shared <= av@.len(),
                    shared <= lv@.len(),
                    parts.len() == shared,
                    item_previews_fit(avm, lvm),
                    entries_view(entries@) == start + concat_all(parts.take(i as int)),
                decreases shared - i,
            {
                let next_path = make_index_path(path, i);
                let ghost before = entries_view(entries@);
                proof {
                    assert(decreases_to!(approved => av@[i as int]));
                    assert(diff_previews_fit(avm[i as int], lvm[i as int]));
                }
                diff_value(&next_path, &av[i], &lv[i], entries);
                proof {
                    lemma_concat_all_step(parts, i as int);
                    assert(entries_view(entries@) =~= before + parts[i as int]);
                }
                i = i + 1;
            }
            assert(parts.take(shared as int) =~= parts);
            let ghost mid = entries_view(entries@);
            if av.len() > lv.len() {
                let mut k: usize = lv.len();
                while k < av.len()
                    invariant
                        lv@.len() <= k <= av@.len(),
                        entries_view(entries@) == mid + removed_items(path@, av@.len(), lv@.len()).take(
                            k - lv@.len(),
                        ),
                    decreases av@.len() - k,
                {
                    let next_path = make_index_path(path, k);
                    push_entry(
                        entries,
                        DriftEntry {
                            path: next_path,
                            kind: DriftKind::Removed,
                            severity: DriftSeverity::Critical,
                            message: String::from_str("Live schema removed an approved array entry."),
                        },
                    );
                    assert(removed_items(path@, av@.len(), lv@.len()).take(k + 1 - lv@.len()) =~=
                        removed_items(path@, av@.len(), lv@.len()).take(k - lv@.len()).push(
                        removed_items(path@, av@.len(), lv@.len())[k - lv@.len()]));
                    k = k + 1;
                }
                assert(removed_items(path@, av@.len(), lv@.len()).take(av@.len() - lv@.len())
                    =~= removed_items(path@, av@.len(), lv@.len()));
                assert(added_items(path@, av@.len(), lv@.len()) =~= Seq::<EntryView>::empty());
            }
            let ghost mid2 = entries_view(entries@);
            if lv.len() > av.len() {
                let mut k: usize = av.len();
                while k < lv.len()
                    invariant
                        av@.len() <= k <= lv@.len(),
                        entries_view(entries@) == mid2 + added_items(path@, av@.len(), lv@.len()).take(
                            k - av@.len(),
                        ),
                    decreases lv@.len() - k,
                {
                    let next_path = make_index_path(path, k);
                    push_entry(
                        entries,
                        DriftEntry {
                            path: next_path,
                            kind: DriftKind::Added,
                            severity: DriftSeverity::Minor,
                            message: String::from_str("Live schema added a new array entry."),
                        },
                    );
                    assert(added_items(path@, av@.len(), lv@.len()).take(k + 1 - av@.len()) =~=
                        added_items(path@, av@.len(), lv@.len()).take(k - av@.len()).push(
                        added_items(path@, av@.len(), lv@.len())[k - av@.len()]));
                    k = k + 1;
                }
                assert(added_items(path@, av@.len(), lv@.len()).take(lv@.len() - av@.len())
                    =~= added_items(path@, av@.len(), lv@.len()));
                assert(removed_items(path@, av@.len(), lv@.len()) =~= Seq::<EntryView>::empty());
            }
            if av.len() == lv.len() {
                assert(removed_items(path@, av@.len(), lv@.len()) =~= Seq::<EntryView>::empty());
                assert(added_items(path@, av@.len(), lv@.len()) =~= Seq::<EntryView>::empty());
            }
            assert(entries_view(entries@) =~= start + diff_entries(path@, approved@, live@));
        },
        _ => {
            if !approved.leaf_equals(live) {
                let severity = classify_change(path, approved, live);
                let mut message = String::from_str("Value changed from ");
                let pa = preview_value(approved);
                message.append(pa.as_str());
                message.append(" to ");
                let pl = preview_value(live);
                message.append(pl.as_str());
                message.append(".");
                push_entry(
                    entries,
                    DriftEntry { path: path.clone(), kind: DriftKind::Changed, severity, message },
                );
            }
            assert(entries_view(entries@) =~= start + diff_entries(path@, approved@, live@));
        },
    }
}


/// Whether the preview of `value` can be shortened without splitting a character.
pub fn preview_value_fits(value: &JsonValue) -> (r: bool)
    ensures
        r == preview_fits(value@),
{
    let raw = match value {
        JsonValue::String(inner) => {
            let mut t = String::new();
            push_char(&mut t, '"');
            t.append(inner.as_str());
            push_char(&mut t, '"');
            t
        },
        _ => json_to_text(value),
    };
    assert(raw@ == raw_preview(value@));
    let cs = chars_of(raw.as_str());
    if bytes_exceed(&cs, 80) {
        let (_count, bytes) = cut_at_bytes(&cs, 77);
        bytes == 77
    } else {
        true
    }
}

/// Whether every change message that comparing `approved` with `live` builds
/// can be shortened without splitting a character.
#[verifier::loop_isolation(false)]
pub fn previews_fit(approved: &JsonValue, live: &JsonValue) -> (r: bool)
    ensures
        r == diff_previews_fit(approved@, live@),
    decreases approved,
{
    match (approved, live) {
        (JsonValue::Object(am), JsonValue::Object(lm)) => {
            let ghost amm = members_model(am@);
            let ghost lmm = members_model(lm@);
            proof {
                lemma_object_model(*am);
                lemma_object_model(*lm);
            }
            let mut i: usize = 0;
            while i < am.len()
                invariant
                    i <= am@.len(),
                    amm.len() == am@.len(),
                    forall|k: int|
                        0 <= k < i ==> match lookup(lmm, #[trigger] amm[k].0) {
                            Some(v) => diff_previews_fit(amm[k].1, v),
                            None => true,
                        },
                decreases am@.len() - i,
            {
                assert(amm[i as int].0 == am@[i as int].key@);
                match find_member(lm, &am[i].key) {
                    Some(j) => {
                        proof {
                            assert(decreases_to!(approved => am@[i as int].value));
                        }
                        if !previews_fit(&am[i].value, &lm[j].value) {
                            assert(!member_previews_fit(amm, lmm)) by {
                                assert(lookup(lmm, amm[i as int].0) == Some(json_model(lm@[j as int].value)));
                            }
                            return false;
                        }
                    },
                    None => {},
                }
                i = i + 1;
            }
            assert(member_previews_fit(amm, lmm));
            true
        },
        (JsonValue::Array(av), JsonValue::Array(lv)) => {
            proof {
                lemma_array_model(*av);
                lemma_array_model(*lv);
            }
            let ghost avm = json_model(*approved)->Array_0;
            let ghost lvm = json_model(*live)->Array_0;
            let mut i: usize = 0;
            while i < av.len() && i < lv.len()
                invariant
                    i <= av@.len(),
                    i <= lv@.len(),
                    forall|k: int| 0 <= k < i ==> diff_previews_fit(#[trigger] avm[k], lvm[k]),
                decreases av@.len() - i,
            {
                proof {
                    assert(decreases_to!(approved => av@[i as int]));
                }
                if !previews_fit(&av[i], &lv[i]) {
                    assert(!item_previews_fit(avm, lvm)) by {
                        assert(avm[i as int] == json_model(av@[i as int]));
                    }
                    return false;
                }
                i = i + 1;
            }
            assert(item_previews_fit(avm, lvm));
            true
        },
        _ => approved.leaf_equals(live) || (preview_value_fits(approved) && preview_value_fits(live)),
    }
}

/// Compares a live document with an approved one; the live document is
/// first brought into canonical form.
pub fn detect_drift(snapshot_schema: &JsonValue, live_schema: &JsonValue) -> (r: DriftReport)
    requires
        diff_previews_fit(snapshot_schema@, canonical(live_schema@)),
    ensures
        entries_view(r.entries@) == diff_entries("$schema"@, snapshot_schema@, canonical(live_schema@)),
        r.drift_detected == (r.entries@.len() > 0),
{
    let mut entries: Vec<DriftEntry> = Vec::new();
    let live = canonicalize_value(live_schema.deep_copy());
    let path = String::from_str("$schema");
    assert(entries_view(entries@) =~= Seq::<EntryView>::empty());
    diff_value(&path, snapshot_schema, &live, &mut entries);
    assert(entries_view(entries@) =~= diff_entries("$schema"@, snapshot_schema@, canonical(live_schema@)));
    let drift_detected = entries.len() > 0;
    DriftReport { drift_detected, entries }
}

/// The number of entries of severity `s`.
pub open spec fn severity_count(es: Seq<EntryView>, s: DriftSeverity) -> nat
    decreases es.len(),
{
    if es.len() == 0 {
        0
    } else {
        severity_count(es.drop_last(), s) + if es.last().severity == s {
            1nat
        } else {
            0nat
        }
    }
}

/// The one-line summary of a list of entries.
pub open spec fn summary_text(es: Seq<EntryView>) -> Seq<char> {
    if es.len() == 0 {
        "No schema drift detected."@
    } else {
        "Detected "@ + decimal(es.len()) + " drift change(s): critical="@ + decimal(
            severity_count(es, DriftSeverity::Critical),
        ) + ", major="@ + decimal(severity_count(es, DriftSeverity::Major)) + ", minor="@ + decimal(
            severity_count(es, DriftSeverity::Minor),
        ) + ", informational="@ + decimal(severity_count(es, DriftSeverity::Informational))
    }
}

proof fn lemma_severity_count_bound(es: Seq<EntryView>, s: DriftSeverity)
    ensures
        severity_count(es, s) <= es.len(),
    decreases es.len(),
{
    if es.len() > 0 {
        lemma_severity_count_bound(es.drop_last(), s);
    }
}

fn count_severity(entries: &Vec<DriftEntry>, s: DriftSeverity) -> (n: usize)
    ensures
        n as nat == severity_count(entries_view(entries@), s),
{
    let ghost es = entries_view(entries@);
    let mut n: usize = 0;
    let mut i: usize = 0;
    while i < entries.len()
        invariant
            i <= entries@.len(),
            es == entries_view(entries@),
            n as nat == severity_count(es.take(i as int), s),
            n <= i,
        decreases entries@.len() - i,
    {
        assert(es.take(i + 1).drop_last() =~= es.take(i as int));
        if entries[i].severity == s {
            n = n + 1;
        }
        i = i + 1;
    }
    assert(es.take(entries@.len() as int) =~= es);
    n
}

impl DriftReport {
    /// A copy with the same entries.
    pub fn duplicate(&self) -> (r: DriftReport)
        ensures
            r.drift_detected == self.drift_detected,
            entries_view(r.entries@) == entries_view(self.entries@),
    {
        DriftReport { drift_detected: self.drift_detected, entries: copy_entries(&self.entries) }
    }

    /// The report's one-line summary.
    pub fn summary(&self) -> (r: String)
        ensures
            r@ == summary_text(entries_view(self.entries@)),
    {
        if self.entries.len() == 0 {
            return String::from_str("No schema drift detected.");
        }
        let critical = count_severity(&self.entries, DriftSeverity::Critical);
        let major = count_severity(&self.entries, DriftSeverity::Major);
        let minor = count_severity(&self.entries, DriftSeverity::Minor);
        let informational = count_severity(&self.entries, DriftSeverity::Informational);
        let mut r = String::from_str("Detected ");
        append_decimal(&mut r, self.entries.len() as u64);
        r.append(" drift change(s): critical=");
        append_decimal(&mut r, critical as u64);
        r.append(", major=");
        append_decimal(&mut r, major as u64);
        r.append(", minor=");
        append_decimal(&mut r, minor as u64);
        r.append(", informational=");
        append_decimal(&mut r, informational as u64);
        r
    }
}

} // verus!
