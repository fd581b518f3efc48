//! What holds of the library as a whole: of canonical forms, of drift
//! between documents, of the checks that compare them over time, and of
//! integration ids, tool listings, schema URLs and command-line flags.

use vstd::prelude::*;
use crate::canonical::{canonical, canonical_members, insert_member, sort_members};
use crate::drift::{summary_text, DriftKind, DriftSeverity, EntryView, added_items, added_member_parts, approved_member_diffs, concat_all, diff_entries, removed_items, severity_count, shared_item_diffs, field_path, index_path};
use crate::http::{decoded_http_body, text_lines, before_semicolon, chunk_size_token, chunks_split_cleanly, crlf, decoded_chunks, parsed_http_url, without_white_space};
use crate::render::hex_digit;
use crate::text::{ascii_lower_text, contains_text, byte_len, cut_count, cut_from, digit_value, index_of, index_of_text, lemma_byte_len_prefix, lemma_index_of, parse_digits, parse_unsigned, starts_with, trim_end, trim_start, unicode_white_space};
use crate::integration::{IntegrationView, ReportView, RequestView, SnapshotView, TrustState, PolicyMode};
use crate::lifecycle::{CaptureView, approved, check_entries, check_fetch_failed, checked, has_id, pinged, reconfigured, registered, started_check};
use crate::json::{JsonModel, has_key, keys_distinct, leaf_equal, lookup, well_keyed};
use crate::request::{ascii_alnum, slug, slug_raw, trim_dash_end, trim_dash_start};
use crate::text::{ascii_lower, text_lt, trim};
use crate::mcp::{insert_tool, sort_tools, tool_sort_name};
use crate::cli::{flags_from, insert_flag, parsed_flags};

verus! {

proof fn lemma_lookup_distinct(ms: Seq<(Seq<char>, JsonModel)>, i: int)
    requires
        keys_distinct(ms),
        0 <= i < ms.len(),
    ensures
        lookup(ms, ms[i].0) == Some(ms[i].1),
    decreases ms.len(),
{
    if i > 0 {
        assert(ms[0].0 != ms[i].0);
        let rest = ms.drop_first();
        assert(rest[i - 1] == ms[i]);
        assert(keys_distinct(rest)) by {
            assert forall|a: int, b: int| 0 <= a < b < rest.len() implies #[trigger] rest[a].0 != #[trigger] rest[b].0 by {
                assert(rest[a] == ms[a + 1]);
                assert(rest[b] == ms[b + 1]);
            }
        }
        lemma_lookup_distinct(rest, i - 1);
    }
}

proof fn lemma_concat_all_empty_parts<A>(parts: Seq<Seq<A>>)
    requires
        forall|i: int| 0 <= i < parts.len() ==> #[trigger] parts[i].len() == 0,
    ensures
        concat_all(parts) == Seq::<A>::empty(),
    decreases parts.len(),
{
    if parts.len() > 0 {
        lemma_concat_all_empty_parts(parts.drop_last());
        assert(parts.last().len() == 0);
        assert(concat_all(parts) =~= Seq::<A>::empty());
    }
}

/// A document compared with itself shows no drift, wherever it stands.
pub proof fn law_no_drift_against_itself(path: Seq<char>, m: JsonModel)
    requires
        well_keyed(m),
    ensures
        diff_entries(path, m, m) == Seq::<EntryView>::empty(),
    decreases m,
{
    match m {
        JsonModel::Object(ms) => {
            let a = approved_member_diffs(path, ms, ms);
            assert forall|i: int| 0 <= i < a.len() implies #[trigger] a[i].len() == 0 by {
                lemma_lookup_distinct(ms, i);
                assert(decreases_to!(m => ms[i].1)) by {
                    assert(decreases_to!(m => ms));
                    assert(decreases_to!(ms => ms[i]));
                }
                law_no_drift_against_itself(field_path(path, ms[i].0), ms[i].1);
            }
            lemma_concat_all_empty_parts(a);
            let b = added_member_parts(path, ms, ms);
            assert forall|j: int| 0 <= j < b.len() implies #[trigger] b[j].len() == 0 by {
                assert(ms[j].0 == ms[j].0);
                assert(has_key(ms, ms[j].0));
            }
            lemma_concat_all_empty_parts(b);
            assert(diff_entries(path, m, m) =~= Seq::<EntryView>::empty());
        },
        JsonModel::Array(xs) => {
            let a = shared_item_diffs(path, xs, xs);
            assert forall|i: int| 0 <= i < a.len() implies #[trigger] a[i].len() == 0 by {
                assert(decreases_to!(m => xs[i])) by {
                    assert(decreases_to!(m => xs));
                }
                law_no_drift_against_itself(index_path(path, i as nat), xs[i]);
            }
            lemma_concat_all_empty_parts(a);
            assert(removed_items(path, xs.len(), xs.len()) =~= Seq::<EntryView>::empty());
            assert(added_items(path, xs.len(), xs.len()) =~= Seq::<EntryView>::empty());
            assert(diff_entries(path, m, m) =~= Seq::<EntryView>::empty());
        },
        _ => {
            assert(leaf_equal(m, m));
        },
    }
}


/// Two documents say the same: every member of each object is in the other
/// with the same content, arrays match item by item, and scalars are equal
/// as JSON values. Member order does not matter.
pub open spec fn same_document(a: JsonModel, b: JsonModel) -> bool
    decreases a,
{
    match a {
        JsonModel::Object(am) => match b {
            JsonModel::Object(bm) => (forall|i: int|
                0 <= i < am.len() ==> match lookup(bm, #[trigger] am[i].0) {
                    Some(v) => same_document(am[i].1, v),
                    None => false,
                }) && (forall|j: int| 0 <= j < bm.len() ==> has_key(am, #[trigger] bm[j].0)),
            _ => leaf_equal(a, b),
        },
        JsonModel::Array(av) => match b {
            JsonModel::Array(bv) => av.len() == bv.len() && forall|i: int|
                0 <= i < av.len() ==> same_document(#[trigger] av[i], bv[i]),
            _ => leaf_equal(a, b),
        },
        _ => leaf_equal(a, b),
    }
}

proof fn lemma_concat_all_empty_iff<A>(parts: Seq<Seq<A>>)
    ensures
        concat_all(parts).len() == 0 <==> forall|i: int| 0 <= i < parts.len() ==> #[trigger] parts[i].len() == 0,
    decreases parts.len(),
{
    if parts.len() > 0 {
        lemma_concat_all_empty_iff(parts.drop_last());
        let d = parts.drop_last();
        if concat_all(parts).len() == 0 {
            assert forall|i: int| 0 <= i < parts.len() implies #[trigger] parts[i].len() == 0 by {
                if i < parts.len() - 1 {
                    assert(d[i] == parts[i]);
                }
            }
        }
        if forall|i: int| 0 <= i < parts.len() ==> #[trigger] parts[i].len() == 0 {
            assert forall|i: int| 0 <= i < d.len() implies #[trigger] d[i].len() == 0 by {
                assert(d[i] == parts[i]);
            }
            assert(parts[parts.len() - 1].len() == 0);
        }
    }
}

/// A check reports no drift exactly when the approved and the live document
/// say the same.
pub proof fn law_no_drift_iff_same_document(path: Seq<char>, a: JsonModel, b: JsonModel)
    ensures
        diff_entries(path, a, b).len() == 0 <==> same_document(a, b),
    decreases a,
{
    match a {
        JsonModel::Object(am) => match b {
            JsonModel::Object(bm) => {
                let ps = approved_member_diffs(path, am, bm);
                let qs = added_member_parts(path, am, bm);
                lemma_concat_all_empty_iff(ps);
                lemma_concat_all_empty_iff(qs);
                assert forall|i: int| 0 <= i < am.len() implies (#[trigger] ps[i].len() == 0 <==> match lookup(bm, am[i].0) {
                    Some(v) => same_document(am[i].1, v),
                    None => false,
                }) by {
                    match lookup(bm, am[i].0) {
                        Some(v) => {
                            assert(decreases_to!(a => am[i].1)) by {
                                assert(decreases_to!(a => am));
                                assert(decreases_to!(am => am[i]));
                            }
                            law_no_drift_iff_same_document(field_path(path, am[i].0), am[i].1, v);
                        },
                        None => {},
                    }
                }
                assert forall|j: int| 0 <= j < bm.len() implies (#[trigger] qs[j].len() == 0 <==> has_key(am, bm[j].0)) by {}
                if same_document(a, b) {
                    assert forall|i: int| 0 <= i < ps.len() implies #[trigger] ps[i].len() == 0 by {
                        assert(match lookup(bm, am[i].0) {
                            Some(v) => same_document(am[i].1, v),
                            None => false,
                        });
                    }
                    assert forall|j: int| 0 <= j < qs.len() implies #[trigger] qs[j].len() == 0 by {
                        assert(has_key(am, bm[j].0));
                    }
                }
                if diff_entries(path, a, b).len() == 0 {
                    assert(concat_all(ps).len() == 0);
                    assert(concat_all(qs).len() == 0);
                    assert forall|i: int| 0 <= i < am.len() implies match lookup(bm, #[trigger] am[i].0) {
                        Some(v) => same_document(am[i].1, v),
                        None => false,
                    } by {
                        assert(ps[i].len() == 0);
                    }
                    assert forall|j: int| 0 <= j < bm.len() implies has_key(am, #[trigger] bm[j].0) by {
                        assert(qs[j].len() == 0);
                    }
                }
            },
            _ => {},
        },
        JsonModel::Array(av) => match b {
            JsonModel::Array(bv) => {
                let ps = shared_item_diffs(path, av, bv);
                lemma_concat_all_empty_iff(ps);
                assert forall|i: int| 0 <= i < ps.len() implies (#[trigger] ps[i].len() == 0 <==> same_document(av[i], bv[i])) by {
                    assert(decreases_to!(a => av[i])) by {
                        assert(decreases_to!(a => av));
                    }
                    law_no_drift_iff_same_document(index_path(path, i as nat), av[i], bv[i]);
                }
                let rm = removed_items(path, av.len(), bv.len());
                let ad = added_items(path, av.len(), bv.len());
                assert(rm.len() == 0 <==> av.len() <= bv.len());
                assert(ad.len() == 0 <==> bv.len() <= av.len());
                if same_document(a, b) {
                    assert forall|i: int| 0 <= i < ps.len() implies #[trigger] ps[i].len() == 0 by {
                        assert(same_document(av[i], bv[i]));
                    }
                }
                if diff_entries(path, a, b).len() == 0 {
                    assert(concat_all(ps).len() == 0);
                    assert forall|i: int| 0 <= i < av.len() implies same_document(#[trigger] av[i], bv[i]) by {
                        assert(ps[i].len() == 0);
                    }
                }
            },
            _ => {},
        },
        _ => {},
    }
}

// ----- the order of keys -----

proof fn lemma_text_lt_irreflexive(a: Seq<char>)
    ensures
        !text_lt(a, a),
    decreases a.len(),
{
    if a.len() > 0 {
        lemma_text_lt_irreflexive(a.drop_first());
    }
}

proof fn lemma_text_lt_asymmetric(a: Seq<char>, b: Seq<char>)
    ensures
        text_lt(a, b) ==> !text_lt(b, a),
    decreases a.len(),
{
    if a.len() > 0 && b.len() > 0 && a[0] == b[0] {
        lemma_text_lt_asymmetric(a.drop_first(), b.drop_first());
    }
}

proof fn lemma_text_lt_transitive(a: Seq<char>, b: Seq<char>, c: Seq<char>)
    requires
        text_lt(a, b),
        text_lt(b, c),
    ensures
        text_lt(a, c),
    decreases a.len(),
{
    if a.len() > 0 && a[0] == b[0] && b[0] == c[0] {
        lemma_text_lt_transitive(a.drop_first(), b.drop_first(), c.drop_first());
    }
}

proof fn lemma_text_lt_total(a: Seq<char>, b: Seq<char>)
    requires
        a != b,
    ensures
        text_lt(a, b) || text_lt(b, a),
    decreases a.len(),
{
    if a.len() > 0 && b.len() > 0 && a[0] == b[0] {
        if a.drop_first() == b.drop_first() {
            assert(a =~= seq![a[0]] + a.drop_first());
            assert(b =~= seq![b[0]] + b.drop_first());
        }
        lemma_text_lt_total(a.drop_first(), b.drop_first());
    } else if a.len() == 0 && b.len() == 0 {
        assert(a =~= b);
    }
}

/// The members of an object are in strictly increasing key order.
pub open spec fn keys_sorted(ms: Seq<(Seq<char>, JsonModel)>) -> bool {
    forall|i: int, j: int| #![trigger ms[i], ms[j]] 0 <= i < j < ms.len() ==> text_lt(ms[i].0, ms[j].0)
}

/// Every object anywhere in the document has its members in strictly
/// increasing key order: the shape of a canonical form.
pub open spec fn sorted_everywhere(m: JsonModel) -> bool
    decreases m,
{
    match m {
        JsonModel::Object(ms) => keys_sorted(ms) && forall|i: int|
            0 <= i < ms.len() ==> sorted_everywhere(#[trigger] ms[i].1),
        JsonModel::Array(xs) => forall|i: int| 0 <= i < xs.len() ==> sorted_everywhere(#[trigger] xs[i]),
        _ => true,
    }
}

proof fn lemma_sorted_keys_distinct(ms: Seq<(Seq<char>, JsonModel)>)
    requires
        keys_sorted(ms),
    ensures
        keys_distinct(ms),
{
    assert forall|i: int, j: int| 0 <= i < j < ms.len() implies #[trigger] ms[i].0 != #[trigger] ms[j].0 by {
        assert(text_lt(ms[i].0, ms[j].0));
        lemma_text_lt_irreflexive(ms[i].0);
    }
}

proof fn lemma_insert_member_sorted(x: (Seq<char>, JsonModel), s: Seq<(Seq<char>, JsonModel)>)
    requires
        keys_sorted(s),
        !has_key(s, x.0),
    ensures
        keys_sorted(insert_member(x, s)),
        insert_member(x, s).len() == s.len() + 1,
        forall|y: (Seq<char>, JsonModel)| #[trigger] insert_member(x, s).contains(y) <==> (y == x || s.contains(y)),
    decreases s.len(),
{
    let r = insert_member(x, s);
    if s.len() == 0 {
        assert(r =~= seq![x]);
        assert forall|y: (Seq<char>, JsonModel)| #[trigger] r.contains(y) <==> (y == x || s.contains(y)) by {
            if r.contains(y) {
                let k = choose|k: int| 0 <= k < r.len() && r[k] == y;
                assert(k == 0);
            }
            if y == x {
                assert(r[0] == y);
            }
        }
    } else if text_lt(x.0, s[0].0) {
        assert(r =~= seq![x] + s);
        assert forall|i: int, j: int| #![trigger r[i], r[j]] 0 <= i < j < r.len() implies text_lt(r[i].0, r[j].0) by {
            if i == 0 {
                assert(r[j] == s[j - 1]);
                if j - 1 > 0 {
                    assert(text_lt(s[0].0, s[j - 1].0));
                    lemma_text_lt_transitive(x.0, s[0].0, s[j - 1].0);
                }
            } else {
                assert(r[i] == s[i - 1]);
                assert(r[j] == s[j - 1]);
            }
        }
        assert forall|y: (Seq<char>, JsonModel)| #[trigger] r.contains(y) <==> (y == x || s.contains(y)) by {
            if r.contains(y) {
                let k = choose|k: int| 0 <= k < r.len() && r[k] == y;
                if k > 0 {
                    assert(s[k - 1] == y);
                }
            }
            if y == x {
                assert(r[0] == y);
            }
            if s.contains(y) {
                let k = choose|k: int| 0 <= k < s.len() && s[k] == y;
                assert(r[k + 1] == y);
            }
        }
    } else {
        let t = s.drop_first();
        assert(keys_sorted(t)) by {
            assert forall|i: int, j: int| #![trigger t[i], t[j]] 0 <= i < j < t.len() implies text_lt(t[i].0, t[j].0) by {
                assert(t[i] == s[i + 1]);
                assert(t[j] == s[j + 1]);
            }
        }
        assert(!has_key(t, x.0)) by {
            if has_key(t, x.0) {
                let k = choose|k: int| 0 <= k < t.len() && #[trigger] t[k].0 == x.0;
                assert(s[k + 1].0 == x.0);
            }
        }
        lemma_insert_member_sorted(x, t);
        let u = insert_member(x, t);
        assert(r =~= seq![s[0]] + u);
        assert(s[0].0 != x.0) by {
            if s[0].0 == x.0 {
                assert(has_key(s, x.0));
            }
        }
        lemma_text_lt_total(s[0].0, x.0);
        assert forall|i: int, j: int| #![trigger r[i], r[j]] 0 <= i < j < r.len() implies text_lt(r[i].0, r[j].0) by {
            if i == 0 {
                assert(r[j] == u[j - 1]);
                assert(u.contains(u[j - 1]));
                if u[j - 1] != x {
                    assert(t.contains(u[j - 1]));
                    let k = choose|k: int| 0 <= k < t.len() && t[k] == u[j - 1];
                    assert(s[k + 1] == t[k]);
                    assert(text_lt(s[0].0, s[k + 1].0));
                }
            } else {
                assert(r[i] == u[i - 1]);
                assert(r[j] == u[j - 1]);
            }
        }
        assert forall|y: (Seq<char>, JsonModel)| #[trigger] r.contains(y) <==> (y == x || s.contains(y)) by {
            if r.contains(y) {
                let k = choose|k: int| 0 <= k < r.len() && r[k] == y;
                if k == 0 {
                    assert(s[0] == y);
                } else {
                    assert(u[k - 1] == y);
                    assert(u.contains(y));
                    if y != x {
                        assert(t.contains(y));
                        let m = choose|m: int| 0 <= m < t.len() && t[m] == y;
                        assert(s[m + 1] == y);
                    }
                }
            }
            if y == x {
                assert(u.contains(y));
                let k = choose|k: int| 0 <= k < u.len() && u[k] == y;
                assert(r[k + 1] == y);
            }
            if s.contains(y) {
                let k = choose|k: int| 0 <= k < s.len() && s[k] == y;
                if k == 0 {
                    assert(r[0] == y);
                } else {
                    assert(t[k - 1] == y);
                    assert(t.contains(y));
                    assert(u.contains(y));
                    let m = choose|m: int| 0 <= m < u.len() && u[m] == y;
                    assert(r[m + 1] == y);
                }
            }
        }
    }
}

proof fn lemma_sort_members(ms: Seq<(Seq<char>, JsonModel)>)
    requires
        keys_distinct(ms),
    ensures
        keys_sorted(sort_members(ms)),
        sort_members(ms).len() == ms.len(),
        forall|y: (Seq<char>, JsonModel)| #[trigger] sort_members(ms).contains(y) <==> ms.contains(y),
    decreases ms.len(),
{
    if ms.len() == 0 {
        assert forall|y: (Seq<char>, JsonModel)| #[trigger] sort_members(ms).contains(y) <==> ms.contains(y) by {}
    } else {
        let d = ms.drop_last();
        let x = ms.last();
        assert(keys_distinct(d)) by {
            assert forall|i: int, j: int| 0 <= i < j < d.len() implies #[trigger] d[i].0 != #[trigger] d[j].0 by {
                assert(d[i] == ms[i]);
                assert(d[j] == ms[j]);
            }
        }
        lemma_sort_members(d);
        let sd = sort_members(d);
        assert(!has_key(sd, x.0)) by {
            if has_key(sd, x.0) {
                let k = choose|k: int| 0 <= k < sd.len() && #[trigger] sd[k].0 == x.0;
                assert(sd.contains(sd[k]));
                assert(d.contains(sd[k]));
                let m = choose|m: int| 0 <= m < d.len() && d[m] == sd[k];
                assert(ms[m] == d[m]);
                assert(ms[m].0 != ms[ms.len() - 1].0);
            }
        }
        lemma_insert_member_sorted(x, sd);
        assert forall|y: (Seq<char>, JsonModel)| #[trigger] sort_members(ms).contains(y) <==> ms.contains(y) by {
            assert(insert_member(x, sd).contains(y) <==> (y == x || sd.contains(y)));
            assert(sd.contains(y) <==> d.contains(y));
            if ms.contains(y) {
                let k = choose|k: int| 0 <= k < ms.len() && ms[k] == y;
                if k < ms.len() - 1 {
                    assert(d[k] == y);
                }
            }
            if d.contains(y) {
                let k = choose|k: int| 0 <= k < d.len() && d[k] == y;
                assert(ms[k] == y);
            }
            if y == x {
                assert(ms[ms.len() - 1] == y);
            }
        }
    }
}

proof fn lemma_insert_member_last(x: (Seq<char>, JsonModel), s: Seq<(Seq<char>, JsonModel)>)
    requires
        forall|k: int| 0 <= k < s.len() ==> text_lt(#[trigger] s[k].0, x.0),
    ensures
        insert_member(x, s) == s.push(x),
    decreases s.len(),
{
    if s.len() == 0 {
        assert(seq![x] =~= s.push(x));
    } else {
        assert(text_lt(s[0].0, x.0));
        lemma_text_lt_asymmetric(s[0].0, x.0);
        let t = s.drop_first();
        assert forall|k: int| 0 <= k < t.len() implies text_lt(#[trigger] t[k].0, x.0) by {
            assert(t[k] == s[k + 1]);
        }
        lemma_insert_member_last(x, t);
        assert(seq![s[0]] + t.push(x) =~= s.push(x));
    }
}

proof fn lemma_sort_sorted(ms: Seq<(Seq<char>, JsonModel)>)
    requires
        keys_sorted(ms),
    ensures
        sort_members(ms) == ms,
    decreases ms.len(),
{
    if ms.len() > 0 {
        let d = ms.drop_last();
        assert(keys_sorted(d)) by {
            assert forall|i: int, j: int| #![trigger d[i], d[j]] 0 <= i < j < d.len() implies text_lt(d[i].0, d[j].0) by {
                assert(d[i] == ms[i]);
                assert(d[j] == ms[j]);
            }
        }
        lemma_sort_sorted(d);
        let x = ms.last();
        assert forall|k: int| 0 <= k < d.len() implies text_lt(#[trigger] d[k].0, x.0) by {
            assert(d[k] == ms[k]);
            assert(text_lt(ms[k].0, ms[ms.len() - 1].0));
        }
        lemma_insert_member_last(x, d);
        assert(d.push(x) =~= ms);
    }
}

proof fn lemma_sorted_unique(s: Seq<(Seq<char>, JsonModel)>, t: Seq<(Seq<char>, JsonModel)>)
    requires
        keys_sorted(s),
        keys_sorted(t),
        forall|y: (Seq<char>, JsonModel)| #![trigger s.contains(y)] #![trigger t.contains(y)] s.contains(y) <==> t.contains(y),
    ensures
        s == t,
    decreases s.len(),
{
    if s.len() == 0 {
        if t.len() > 0 {
            assert(t.contains(t[0]));
        }
        assert(s =~= t);
    } else {
        assert(s.contains(s[0]));
        let j = choose|j: int| 0 <= j < t.len() && t[j] == s[0];
        assert(t.contains(t[0]));
        let i = choose|i: int| 0 <= i < s.len() && s[i] == t[0];
        if j > 0 {
            assert(text_lt(t[0].0, t[j].0));
            if i > 0 {
                assert(text_lt(s[0].0, s[i].0));
                lemma_text_lt_asymmetric(s[0].0, s[i].0);
            } else {
                lemma_text_lt_irreflexive(t[0].0);
            }
        }
        assert(t[0] == s[0]);
        let s1 = s.drop_first();
        let t1 = t.drop_first();
        assert(keys_sorted(s1)) by {
            assert forall|a: int, b: int| #![trigger s1[a], s1[b]] 0 <= a < b < s1.len() implies text_lt(s1[a].0, s1[b].0) by {
                assert(s1[a] == s[a + 1]);
                assert(s1[b] == s[b + 1]);
            }
        }
        assert(keys_sorted(t1)) by {
            assert forall|a: int, b: int| #![trigger t1[a], t1[b]] 0 <= a < b < t1.len() implies text_lt(t1[a].0, t1[b].0) by {
                assert(t1[a] == t[a + 1]);
                assert(t1[b] == t[b + 1]);
            }
        }
        assert forall|y: (Seq<char>, JsonModel)| #![trigger s1.contains(y)] #![trigger t1.contains(y)] s1.contains(y) <==> t1.contains(y) by {
            if s1.contains(y) {
                let k = choose|k: int| 0 <= k < s1.len() && s1[k] == y;
                assert(s[k + 1] == y);
                assert(s.contains(y));
                assert(text_lt(s[0].0, s[k + 1].0));
                lemma_text_lt_irreflexive(s[0].0);
                let m = choose|m: int| 0 <= m < t.len() && t[m] == y;
                assert(m != 0);
                assert(t1[m - 1] == y);
            }
            if t1.contains(y) {
                let k = choose|k: int| 0 <= k < t1.len() && t1[k] == y;
                assert(t[k + 1] == y);
                assert(t.contains(y));
                assert(text_lt(t[0].0, t[k + 1].0));
                lemma_text_lt_irreflexive(t[0].0);
                let m = choose|m: int| 0 <= m < s.len() && s[m] == y;
                assert(m != 0);
                assert(s1[m - 1] == y);
            }
        }
        lemma_sorted_unique(s1, t1);
        assert(s =~= seq![s[0]] + s1);
        assert(t =~= seq![t[0]] + t1);
    }
}

proof fn lemma_canonical_members_distinct(ms: Seq<(Seq<char>, JsonModel)>)
    requires
        keys_distinct(ms),
    ensures
        keys_distinct(canonical_members(ms)),
{
    let cm = canonical_members(ms);
    assert forall|i: int, j: int| 0 <= i < j < cm.len() implies #[trigger] cm[i].0 != #[trigger] cm[j].0 by {
        assert(cm[i].0 == ms[i].0);
        assert(cm[j].0 == ms[j].0);
    }
}

/// The canonical form of a document without repeated keys has the members
/// of every object in strictly increasing key order.
pub proof fn law_canonical_form_is_sorted(m: JsonModel)
    requires
        well_keyed(m),
    ensures
        sorted_everywhere(canonical(m)),
    decreases m,
{
    match m {
        JsonModel::Object(ms) => {
            let cm = canonical_members(ms);
            lemma_canonical_members_distinct(ms);
            lemma_sort_members(cm);
            let sm = sort_members(cm);
            assert forall|i: int| 0 <= i < sm.len() implies sorted_everywhere(#[trigger] sm[i].1) by {
                assert(sm.contains(sm[i]));
                assert(cm.contains(sm[i]));
                let k = choose|k: int| 0 <= k < cm.len() && cm[k] == sm[i];
                assert(cm[k].1 == canonical(ms[k].1));
                assert(decreases_to!(m => ms[k].1)) by {
                    assert(decreases_to!(m => ms));
                    assert(decreases_to!(ms => ms[k]));
                }
                law_canonical_form_is_sorted(ms[k].1);
            }
            assert(canonical(m) == JsonModel::Object(sm));
        },
        JsonModel::Array(xs) => {
            let c = canonical(m)->Array_0;
            assert forall|i: int| 0 <= i < c.len() implies sorted_everywhere(#[trigger] c[i]) by {
                assert(decreases_to!(m => xs[i])) by {
                    assert(decreases_to!(m => xs));
                }
                law_canonical_form_is_sorted(xs[i]);
            }
        },
        _ => {},
    }
}

proof fn lemma_sorted_everywhere_well_keyed(m: JsonModel)
    requires
        sorted_everywhere(m),
    ensures
        well_keyed(m),
    decreases m,
{
    match m {
        JsonModel::Object(ms) => {
            lemma_sorted_keys_distinct(ms);
            assert forall|i: int| 0 <= i < ms.len() implies well_keyed(#[trigger] ms[i].1) by {
                assert(decreases_to!(m => ms[i].1)) by {
                    assert(decreases_to!(m => ms));
                    assert(decreases_to!(ms => ms[i]));
                }
                lemma_sorted_everywhere_well_keyed(ms[i].1);
            }
        },
        JsonModel::Array(xs) => {
            assert forall|i: int| 0 <= i < xs.len() implies well_keyed(#[trigger] xs[i]) by {
                assert(decreases_to!(m => xs[i])) by {
                    assert(decreases_to!(m => xs));
                }
                lemma_sorted_everywhere_well_keyed(xs[i]);
            }
        },
        _ => {},
    }
}

/// A document already in canonical form is its own canonical form.
pub proof fn law_canonical_form_is_fixed(m: JsonModel)
    requires
        sorted_everywhere(m),
    ensures
        canonical(m) == m,
    decreases m,
{
    match m {
        JsonModel::Object(ms) => {
            let cm = canonical_members(ms);
            assert forall|i: int| 0 <= i < ms.len() implies #[trigger] cm[i] == ms[i] by {
                assert(decreases_to!(m => ms[i].1)) by {
                    assert(decreases_to!(m => ms));
                    assert(decreases_to!(ms => ms[i]));
                }
                law_canonical_form_is_fixed(ms[i].1);
            }
            assert(cm =~= ms);
            lemma_sort_sorted(ms);
        },
        JsonModel::Array(xs) => {
            let c = canonical(m)->Array_0;
            assert forall|i: int| 0 <= i < xs.len() implies #[trigger] c[i] == xs[i] by {
                assert(decreases_to!(m => xs[i])) by {
                    assert(decreases_to!(m => xs));
                }
                law_canonical_form_is_fixed(xs[i]);
            }
            assert(c =~= xs);
        },
        _ => {},
    }
}

/// The members of an object are in key order: none has a key that sorts
/// before an earlier member's.
pub open spec fn keys_ordered(ms: Seq<(Seq<char>, JsonModel)>) -> bool {
    forall|i: int, j: int| #![trigger ms[i], ms[j]] 0 <= i < j < ms.len() ==> !text_lt(ms[j].0, ms[i].0)
}

/// Every object anywhere in the document has its members in key order.
pub open spec fn ordered_everywhere(m: JsonModel) -> bool
    decreases m,
{
    match m {
        JsonModel::Object(ms) => keys_ordered(ms) && forall|i: int|
            0 <= i < ms.len() ==> ordered_everywhere(#[trigger] ms[i].1),
        JsonModel::Array(xs) => forall|i: int| 0 <= i < xs.len() ==> ordered_everywhere(#[trigger] xs[i]),
        _ => true,
    }
}

proof fn lemma_insert_member_ordered(x: (Seq<char>, JsonModel), s: Seq<(Seq<char>, JsonModel)>)
    requires
        keys_ordered(s),
    ensures
        keys_ordered(insert_member(x, s)),
        insert_member(x, s).to_multiset() == s.to_multiset().insert(x),
    decreases s.len(),
{
    broadcast use vstd::seq_lib::group_to_multiset_ensures;
    let r = insert_member(x, s);
    if s.len() == 0 {
        assert(r =~= Seq::<(Seq<char>, JsonModel)>::empty().push(x));
        assert(s =~= Seq::<(Seq<char>, JsonModel)>::empty());
    } else if text_lt(x.0, s[0].0) {
        assert(r =~= s.insert(0, x));
        vstd::seq_lib::to_multiset_insert(s, 0, x);
        assert forall|i: int, j: int| #![trigger r[i], r[j]] 0 <= i < j < r.len() implies !text_lt(r[j].0, r[i].0) by {
            if i == 0 {
                assert(r[j] == s[j - 1]);
                if text_lt(s[j - 1].0, x.0) {
                    lemma_text_lt_transitive(s[j - 1].0, x.0, s[0].0);
                    if j - 1 > 0 {
                        assert(!text_lt(s[j - 1].0, s[0].0));
                    } else {
                        lemma_text_lt_irreflexive(s[0].0);
                    }
                }
            } else {
                assert(r[i] == s[i - 1]);
                assert(r[j] == s[j - 1]);
            }
        }
    } else {
        let t = s.drop_first();
        assert(keys_ordered(t)) by {
            assert forall|i: int, j: int| #![trigger t[i], t[j]] 0 <= i < j < t.len() implies !text_lt(t[j].0, t[i].0) by {
                assert(t[i] == s[i + 1]);
                assert(t[j] == s[j + 1]);
            }
        }
        lemma_insert_member_ordered(x, t);
        let u = insert_member(x, t);
        assert(r =~= u.insert(0, s[0]));
        vstd::seq_lib::to_multiset_insert(u, 0, s[0]);
        assert(s =~= t.insert(0, s[0]));
        vstd::seq_lib::to_multiset_insert(t, 0, s[0]);
        assert(r.to_multiset() =~= s.to_multiset().insert(x));
        assert forall|i: int, j: int| #![trigger r[i], r[j]] 0 <= i < j < r.len() implies !text_lt(r[j].0, r[i].0) by {
            if i == 0 {
                assert(r[j] == u[j - 1]);
                assert(u.contains(u[j - 1]));
                assert(u.to_multiset().count(u[j - 1]) > 0);
                if u[j - 1] != x {
                    assert(t.to_multiset().count(u[j - 1]) > 0);
                    assert(t.contains(u[j - 1]));
                    let k = choose|k: int| 0 <= k < t.len() && t[k] == u[j - 1];
                    assert(s[k + 1] == t[k]);
                }
            } else {
                assert(r[i] == u[i - 1]);
                assert(r[j] == u[j - 1]);
            }
        }
    }
}

proof fn lemma_sort_members_ordered(ms: Seq<(Seq<char>, JsonModel)>)
    ensures
        keys_ordered(sort_members(ms)),
        sort_members(ms).to_multiset() == ms.to_multiset(),
    decreases ms.len(),
{
    broadcast use vstd::seq_lib::group_to_multiset_ensures;
    if ms.len() > 0 {
        let d = ms.drop_last();
        lemma_sort_members_ordered(d);
        lemma_insert_member_ordered(ms.last(), sort_members(d));
        assert(ms =~= d.push(ms.last()));
    } else {
        assert(ms.to_multiset() =~= sort_members(ms).to_multiset());
    }
}

/// The canonical form of any document has the members of every object in
/// key order; members with equal keys keep their order.
pub proof fn law_canonical_form_is_ordered(m: JsonModel)
    ensures
        ordered_everywhere(canonical(m)),
    decreases m,
{
    broadcast use vstd::seq_lib::group_to_multiset_ensures;
    match m {
        JsonModel::Object(ms) => {
            let cm = canonical_members(ms);
            lemma_sort_members_ordered(cm);
            let sm = sort_members(cm);
            assert forall|i: int| 0 <= i < sm.len() implies ordered_everywhere(#[trigger] sm[i].1) by {
                assert(sm.contains(sm[i]));
                assert(sm.to_multiset().count(sm[i]) > 0);
                assert(cm.to_multiset().count(sm[i]) > 0);
                assert(cm.contains(sm[i]));
                let k = choose|k: int| 0 <= k < cm.len() && cm[k] == sm[i];
                assert(cm[k].1 == canonical(ms[k].1));
                assert(decreases_to!(m => ms[k].1)) by {
                    assert(decreases_to!(m => ms));
                    assert(decreases_to!(ms => ms[k]));
                }
                law_canonical_form_is_ordered(ms[k].1);
            }
            assert(canonical(m) == JsonModel::Object(sm));
        },
        JsonModel::Array(xs) => {
            let c = canonical(m)->Array_0;
            assert forall|i: int| 0 <= i < c.len() implies ordered_everywhere(#[trigger] c[i]) by {
                assert(decreases_to!(m => xs[i])) by {
                    assert(decreases_to!(m => xs));
                }
                law_canonical_form_is_ordered(xs[i]);
            }
        },
        _ => {},
    }
}

proof fn lemma_insert_member_after(x: (Seq<char>, JsonModel), s: Seq<(Seq<char>, JsonModel)>)
    requires
        forall|k: int| 0 <= k < s.len() ==> !text_lt(x.0, #[trigger] s[k].0),
    ensures
        insert_member(x, s) == s.push(x),
    decreases s.len(),
{
    if s.len() == 0 {
        assert(seq![x] =~= s.push(x));
    } else {
        assert(!text_lt(x.0, s[0].0));
        let t = s.drop_first();
        assert forall|k: int| 0 <= k < t.len() implies !text_lt(x.0, #[trigger] t[k].0) by {
            assert(t[k] == s[k + 1]);
        }
        lemma_insert_member_after(x, t);
        assert(seq![s[0]] + t.push(x) =~= s.push(x));
    }
}

proof fn lemma_sort_ordered(ms: Seq<(Seq<char>, JsonModel)>)
    requires
        keys_ordered(ms),
    ensures
        sort_members(ms) == ms,
    decreases ms.len(),
{
    if ms.len() > 0 {
        let d = ms.drop_last();
        assert(keys_ordered(d)) by {
            assert forall|i: int, j: int| #![trigger d[i], d[j]] 0 <= i < j < d.len() implies !text_lt(d[j].0, d[i].0) by {
                assert(d[i] == ms[i]);
                assert(d[j] == ms[j]);
            }
        }
        lemma_sort_ordered(d);
        let x = ms.last();
        assert forall|k: int| 0 <= k < d.len() implies !text_lt(x.0, #[trigger] d[k].0) by {
            assert(d[k] == ms[k]);
        }
        lemma_insert_member_after(x, d);
        assert(d.push(x) =~= ms);
    }
}

/// A document whose objects are all in key order is its own canonical form.
pub proof fn law_ordered_document_is_canonical(m: JsonModel)
    requires
        ordered_everywhere(m),
    ensures
        canonical(m) == m,
    decreases m,
{
    match m {
        JsonModel::Object(ms) => {
            let cm = canonical_members(ms);
            assert forall|i: int| 0 <= i < ms.len() implies #[trigger] cm[i] == ms[i] by {
                assert(decreases_to!(m => ms[i].1)) by {
                    assert(decreases_to!(m => ms));
                    assert(decreases_to!(ms => ms[i]));
                }
                law_ordered_document_is_canonical(ms[i].1);
            }
            assert(cm =~= ms);
            lemma_sort_ordered(ms);
        },
        JsonModel::Array(xs) => {
            let c = canonical(m)->Array_0;
            assert forall|i: int| 0 <= i < xs.len() implies #[trigger] c[i] == xs[i] by {
                assert(decreases_to!(m => xs[i])) by {
                    assert(decreases_to!(m => xs));
                }
                law_ordered_document_is_canonical(xs[i]);
            }
            assert(c =~= xs);
        },
        _ => {},
    }
}

/// Bringing any document into canonical form twice gives what doing it once
/// gives.
pub proof fn law_canonical_idempotent(m: JsonModel)
    ensures
        canonical(canonical(m)) == canonical(m),
{
    law_canonical_form_is_ordered(m);
    law_ordered_document_is_canonical(canonical(m));
}

/// The canonical form of any object holds exactly its members, each with
/// its value in canonical form, as many times as the object holds them;
/// only their order changes. (Arrays keep their items in order by
/// definition of the canonical form.)
pub proof fn law_canonical_keeps_members(ms: Seq<(Seq<char>, JsonModel)>)
    ensures
        canonical(JsonModel::Object(ms)) == JsonModel::Object(sort_members(canonical_members(ms))),
        sort_members(canonical_members(ms)).to_multiset() == canonical_members(ms).to_multiset(),
        canonical_members(ms).len() == ms.len(),
        forall|i: int| 0 <= i < ms.len() ==> #[trigger] canonical_members(ms)[i] == (ms[i].0, canonical(ms[i].1)),
{
    lemma_sort_members_ordered(canonical_members(ms));
}

/// Key order never shows as drift: two live documents with the same
/// canonical form are reported against any approved document with the same
/// entries, in particular two objects with the same members in whatever order.
pub proof fn law_key_order_never_shows_as_drift(
    approved: JsonModel,
    a: Seq<(Seq<char>, JsonModel)>,
    b: Seq<(Seq<char>, JsonModel)>,
)
    requires
        well_keyed(JsonModel::Object(a)),
        well_keyed(JsonModel::Object(b)),
        forall|y: (Seq<char>, JsonModel)| #[trigger] a.contains(y) <==> b.contains(y),
    ensures
        diff_entries("$schema"@, approved, canonical(JsonModel::Object(a)))
            == diff_entries("$schema"@, approved, canonical(JsonModel::Object(b))),
{
    law_canonical_ignores_member_order(a, b);
}

/// Bringing a document without repeated keys into canonical form keeps the
/// document: each object keeps the same members under the same keys, and
/// each array the same items in the same order.
pub proof fn law_canonical_keeps_document(m: JsonModel)
    requires
        well_keyed(m),
    ensures
        same_document(m, canonical(m)),
        same_document(canonical(m), m),
    decreases m,
{
    match m {
        JsonModel::Object(ms) => {
            let cm = canonical_members(ms);
            lemma_canonical_members_distinct(ms);
            lemma_sort_members(cm);
            let sm = sort_members(cm);
            lemma_sorted_keys_distinct(sm);
            assert(canonical(m) == JsonModel::Object(sm));
            assert forall|i: int| 0 <= i < ms.len() implies #[trigger] lookup(sm, ms[i].0) == Some(canonical(ms[i].1))
                && same_document(ms[i].1, canonical(ms[i].1)) && same_document(canonical(ms[i].1), ms[i].1) by {
                assert(cm[i] == (ms[i].0, canonical(ms[i].1)));
                assert(cm.contains(cm[i]));
                assert(sm.contains(cm[i]));
                let j = choose|j: int| 0 <= j < sm.len() && sm[j] == cm[i];
                lemma_lookup_distinct(sm, j);
                assert(decreases_to!(m => ms[i].1)) by {
                    assert(decreases_to!(m => ms));
                    assert(decreases_to!(ms => ms[i]));
                }
                law_canonical_keeps_document(ms[i].1);
            }
            assert forall|i: int| 0 <= i < ms.len() implies match lookup(sm, #[trigger] ms[i].0) {
                Some(v) => same_document(ms[i].1, v),
                None => false,
            } by {
                assert(lookup(sm, ms[i].0) == Some(canonical(ms[i].1)));
            }
            assert forall|j: int| 0 <= j < sm.len() implies has_key(ms, #[trigger] sm[j].0) by {
                assert(sm.contains(sm[j]));
                assert(cm.contains(sm[j]));
                let i = choose|i: int| 0 <= i < cm.len() && cm[i] == sm[j];
                assert(ms[i].0 == sm[j].0);
            }
            assert forall|j: int| 0 <= j < sm.len() implies match lookup(ms, #[trigger] sm[j].0) {
                Some(v) => same_document(sm[j].1, v),
                None => false,
            } by {
                assert(sm.contains(sm[j]));
                assert(cm.contains(sm[j]));
                let i = choose|i: int| 0 <= i < cm.len() && cm[i] == sm[j];
                lemma_lookup_distinct(ms, i);
                assert(lookup(sm, ms[i].0) == Some(canonical(ms[i].1)));
            }
            assert forall|i: int| 0 <= i < ms.len() implies has_key(sm, #[trigger] ms[i].0) by {
                assert(cm.contains(cm[i]));
                assert(sm.contains(cm[i]));
                let j = choose|j: int| 0 <= j < sm.len() && sm[j] == cm[i];
                assert(sm[j].0 == ms[i].0);
            }
        },
        JsonModel::Array(xs) => {
            let c = canonical(m)->Array_0;
            assert forall|i: int| 0 <= i < xs.len() implies same_document(#[trigger] xs[i], c[i]) && same_document(c[i], xs[i]) by {
                assert(decreases_to!(m => xs[i])) by {
                    assert(decreases_to!(m => xs));
                }
                law_canonical_keeps_document(xs[i]);
            }
            assert forall|i: int| 0 <= i < c.len() implies same_document(#[trigger] c[i], xs[i]) by {
                assert(same_document(xs[i], c[i]) && same_document(c[i], xs[i]));
            }
        },
        _ => {},
    }
}

/// Two objects with the same members, in whatever order, have the same
/// canonical form.
pub proof fn law_canonical_ignores_member_order(a: Seq<(Seq<char>, JsonModel)>, b: Seq<(Seq<char>, JsonModel)>)
    requires
        well_keyed(JsonModel::Object(a)),
        well_keyed(JsonModel::Object(b)),
        forall|y: (Seq<char>, JsonModel)| #[trigger] a.contains(y) <==> b.contains(y),
    ensures
        canonical(JsonModel::Object(a)) == canonical(JsonModel::Object(b)),
{
    let ca = canonical_members(a);
    let cb = canonical_members(b);
    lemma_canonical_members_distinct(a);
    lemma_canonical_members_distinct(b);
    assert forall|y: (Seq<char>, JsonModel)| #[trigger] ca.contains(y) <==> cb.contains(y) by {
        if ca.contains(y) {
            let i = choose|i: int| 0 <= i < ca.len() && ca[i] == y;
            assert(a.contains(a[i]));
            assert(b.contains(a[i]));
            let j = choose|j: int| 0 <= j < b.len() && b[j] == a[i];
            assert(cb[j] == y);
        }
        if cb.contains(y) {
            let j = choose|j: int| 0 <= j < cb.len() && cb[j] == y;
            assert(b.contains(b[j]));
            assert(a.contains(b[j]));
            let i = choose|i: int| 0 <= i < a.len() && a[i] == b[j];
            assert(ca[i] == y);
        }
    }
    lemma_sort_members(ca);
    lemma_sort_members(cb);
    assert forall|y: (Seq<char>, JsonModel)| #![trigger sort_members(ca).contains(y)] #![trigger sort_members(cb).contains(y)] sort_members(ca).contains(y) <==> sort_members(cb).contains(y) by {
        assert(sort_members(ca).contains(y) <==> ca.contains(y));
        assert(sort_members(cb).contains(y) <==> cb.contains(y));
    }
    lemma_sorted_unique(sort_members(ca), sort_members(cb));
}

// ----- drift classification -----

/// A removal is critical and an addition minor.
pub open spec fn classified(e: EntryView) -> bool {
    &&& e.kind == DriftKind::Removed ==> e.severity == DriftSeverity::Critical
    &&& e.kind == DriftKind::Added ==> e.severity == DriftSeverity::Minor
}

pub open spec fn all_classified(es: Seq<EntryView>) -> bool {
    forall|k: int| 0 <= k < es.len() ==> classified(#[trigger] es[k])
}

proof fn lemma_concat_all_classified(parts: Seq<Seq<EntryView>>)
    requires
        forall|i: int| 0 <= i < parts.len() ==> all_classified(#[trigger] parts[i]),
    ensures
        all_classified(concat_all(parts)),
    decreases parts.len(),
{
    if parts.len() > 0 {
        lemma_concat_all_classified(parts.drop_last());
        let p = concat_all(parts.drop_last());
        let l = parts.last();
        assert(all_classified(l));
        assert forall|k: int| 0 <= k < (p + l).len() implies classified(#[trigger] (p + l)[k]) by {
            if k < p.len() {
                assert((p + l)[k] == p[k]);
            } else {
                assert((p + l)[k] == l[k - p.len()]);
            }
        }
    }
}

proof fn lemma_append_classified(a: Seq<EntryView>, b: Seq<EntryView>)
    requires
        all_classified(a),
        all_classified(b),
    ensures
        all_classified(a + b),
{
    assert forall|k: int| 0 <= k < (a + b).len() implies classified(#[trigger] (a + b)[k]) by {
        if k < a.len() {
            assert((a + b)[k] == a[k]);
        } else {
            assert((a + b)[k] == b[k - a.len()]);
        }
    }
}

/// Every removal that drift reports is critical, and every addition minor.
pub proof fn law_removals_critical_additions_minor(path: Seq<char>, a: JsonModel, b: JsonModel)
    ensures
        all_classified(diff_entries(path, a, b)),
    decreases a,
{
    match a {
        JsonModel::Object(am) => match b {
            JsonModel::Object(bm) => {
                let ps = approved_member_diffs(path, am, bm);
                assert forall|i: int| 0 <= i < ps.len() implies all_classified(#[trigger] ps[i]) by {
                    match lookup(bm, am[i].0) {
                        Some(lv) => {
                            assert(decreases_to!(a => am[i].1)) by {
                                assert(decreases_to!(a => am));
                                assert(decreases_to!(am => am[i]));
                            }
                            law_removals_critical_additions_minor(field_path(path, am[i].0), am[i].1, lv);
                        },
                        None => {},
                    }
                }
                lemma_concat_all_classified(ps);
                let qs = added_member_parts(path, am, bm);
                assert forall|j: int| 0 <= j < qs.len() implies all_classified(#[trigger] qs[j]) by {}
                lemma_concat_all_classified(qs);
                lemma_append_classified(concat_all(ps), concat_all(qs));
            },
            _ => {},
        },
        JsonModel::Array(av) => match b {
            JsonModel::Array(bv) => {
                let ps = shared_item_diffs(path, av, bv);
                assert forall|i: int| 0 <= i < ps.len() implies all_classified(#[trigger] ps[i]) by {
                    assert(decreases_to!(a => av[i])) by {
                        assert(decreases_to!(a => av));
                    }
                    law_removals_critical_additions_minor(index_path(path, i as nat), av[i], bv[i]);
                }
                lemma_concat_all_classified(ps);
                lemma_append_classified(concat_all(ps), removed_items(path, av.len(), bv.len()));
                lemma_append_classified(
                    concat_all(ps) + removed_items(path, av.len(), bv.len()),
                    added_items(path, av.len(), bv.len()),
                );
            },
            _ => {},
        },
        _ => {},
    }
}

/// The counts of the four severities in a report's summary add up to the
/// number of entries.
pub proof fn law_severity_counts_add_up(es: Seq<EntryView>)
    ensures
        severity_count(es, DriftSeverity::Informational) + severity_count(es, DriftSeverity::Minor)
            + severity_count(es, DriftSeverity::Major) + severity_count(es, DriftSeverity::Critical)
            == es.len(),
    decreases es.len(),
{
    if es.len() > 0 {
        law_severity_counts_add_up(es.drop_last());
    }
}

proof fn lemma_severity_count_append(a: Seq<EntryView>, b: Seq<EntryView>, s: DriftSeverity)
    ensures
        severity_count(a + b, s) == severity_count(a, s) + severity_count(b, s),
    decreases b.len(),
{
    if b.len() == 0 {
        assert(a + b =~= a);
    } else {
        lemma_severity_count_append(a, b.drop_last(), s);
        assert((a + b).drop_last() =~= a + b.drop_last());
    }
}

proof fn lemma_severity_count_permutation(x: Seq<EntryView>, y: Seq<EntryView>, s: DriftSeverity)
    requires
        x.to_multiset() == y.to_multiset(),
    ensures
        severity_count(x, s) == severity_count(y, s),
    decreases x.len(),
{
    broadcast use vstd::seq_lib::group_to_multiset_ensures, vstd::multiset::group_multiset_axioms;
    if x.len() == 0 {
        assert(y.to_multiset().len() == 0);
        assert(y.len() == 0);
    } else {
        let d = x.drop_last();
        let e = x.last();
        assert(d.push(e) =~= x);
        assert(x.to_multiset() =~= d.to_multiset().insert(e));
        assert(y.to_multiset().count(e) > 0);
        assert(y.contains(e));
        let k = choose|k: int| 0 <= k < y.len() && y[k] == e;
        let z = y.remove(k);
        assert(z.to_multiset() =~= y.to_multiset().remove(e));
        assert(z.to_multiset() =~= d.to_multiset());
        lemma_severity_count_permutation(d, z, s);
        let a = y.take(k);
        let b = y.skip(k + 1);
        assert(z =~= a + b);
        assert(y =~= a + (seq![e] + b));
        lemma_severity_count_append(a, b, s);
        lemma_severity_count_append(a, seq![e] + b, s);
        lemma_severity_count_append(seq![e], b, s);
        assert(seq![e].drop_last() =~= Seq::<EntryView>::empty());
        assert(severity_count(Seq::<EntryView>::empty(), s) == 0);
        let one: nat = if e.severity == s { 1 } else { 0 };
        assert(severity_count(seq![e], s) == one);
        assert(severity_count(x, s) == severity_count(d, s) + one);
        assert(severity_count(y, s) == severity_count(a, s) + one + severity_count(b, s));
    }
}

/// A report's summary does not depend on the order of its entries.
pub proof fn law_summary_ignores_entry_order(x: Seq<EntryView>, y: Seq<EntryView>)
    requires
        x.to_multiset() == y.to_multiset(),
    ensures
        summary_text(x) == summary_text(y),
{
    broadcast use vstd::seq_lib::group_to_multiset_ensures;
    assert(x.len() == x.to_multiset().len());
    assert(y.len() == y.to_multiset().len());
    lemma_severity_count_permutation(x, y, DriftSeverity::Critical);
    lemma_severity_count_permutation(x, y, DriftSeverity::Major);
    lemma_severity_count_permutation(x, y, DriftSeverity::Minor);
    lemma_severity_count_permutation(x, y, DriftSeverity::Informational);
}

// ----- checks over time -----

/// A live contract approved as a baseline and then checked unchanged shows
/// no drift: the integration is approved, with an empty report and no incident.
pub proof fn law_approved_contract_checks_clean(
    v: IntegrationView,
    approved_by: Seq<char>,
    snapshot: SnapshotView,
    now: u128,
    stored: Option<SnapshotView>,
    checked_at: u128,
    live: JsonModel,
    opened_at: u128,
)
    requires
        snapshot.schema == canonical(live),
        well_keyed(live),
    ensures
        ({
            let c = checked(
                started_check(approved(v, approved_by, CaptureView::Written(snapshot), now), stored, checked_at),
                live,
                opened_at,
            );
            &&& c.status.trust_state == TrustState::Approved
            &&& !c.status.drift_detected
            &&& c.incidents.len() == 0
            &&& c.last_report == Some(ReportView { drift_detected: false, entries: Seq::empty() })
        }),
{
    law_canonical_form_is_sorted(live);
    lemma_sorted_everywhere_well_keyed(canonical(live));
    law_no_drift_against_itself("$schema"@, canonical(live));
}

/// A baseline refreshed from a live contract and then checked against that
/// same contract shows no drift.
pub proof fn law_pinged_contract_checks_clean(
    v: IntegrationView,
    snapshot: SnapshotView,
    now: u128,
    stored: Option<SnapshotView>,
    checked_at: u128,
    live: JsonModel,
    opened_at: u128,
)
    requires
        snapshot.schema == canonical(live),
        well_keyed(live),
    ensures
        ({
            let c = checked(
                started_check(pinged(v, CaptureView::Written(snapshot), now), stored, checked_at),
                live,
                opened_at,
            );
            &&& c.status.trust_state == TrustState::Approved
            &&& !c.status.drift_detected
            &&& c.incidents.len() == 0
        }),
{
    law_canonical_form_is_sorted(live);
    lemma_sorted_everywhere_well_keyed(canonical(live));
    law_no_drift_against_itself("$schema"@, canonical(live));
}

/// Checking an unchanged live contract again opens no new incident, and
/// leaves the trust state and the report as the first check left them.
pub proof fn law_repeated_check_opens_no_new_incident(
    v: IntegrationView,
    stored1: Option<SnapshotView>,
    now1: u128,
    live: JsonModel,
    opened1: u128,
    stored2: Option<SnapshotView>,
    now2: u128,
    opened2: u128,
)
    requires
        started_check(v, stored1, now1).approved_snapshot is Some,
    ensures
        ({
            let first = checked(started_check(v, stored1, now1), live, opened1);
            let second = checked(started_check(first, stored2, now2), live, opened2);
            &&& second.incidents == first.incidents
            &&& second.status.trust_state == first.status.trust_state
            &&& second.status.drift_detected == first.status.drift_detected
            &&& second.last_report == first.last_report
        }),
{
    let s1 = started_check(v, stored1, now1);
    let first = checked(s1, live, opened1);
    let s2 = started_check(first, stored2, now2);
    assert(s2.approved_snapshot == s1.approved_snapshot);
    assert(check_entries(s2, live) == check_entries(s1, live));
}

/// A check whose live contract could not be read is an error, never drift:
/// the baseline, the last report and the incidents stay as they were.
pub proof fn law_unreachable_is_not_drift(v: IntegrationView, error: Seq<char>)
    ensures
        ({
            let f = check_fetch_failed(v, error);
            &&& f.status.trust_state == TrustState::Error
            &&& !f.status.drift_detected
            &&& f.status.error_message == Some(error)
            &&& f.approved_snapshot == v.approved_snapshot
            &&& f.last_report == v.last_report
            &&& f.incidents == v.incidents
        }),
{
}

/// A check reports drift exactly when it finds differences; drift blocks the
/// integration under the block policy and flags it under alert-only, and a
/// check without differences approves it.
pub proof fn law_drift_follows_policy(v: IntegrationView, live: JsonModel, opened_at: u128)
    ensures
        ({
            let c = checked(v, live, opened_at);
            let drift = check_entries(v, live).len() > 0;
            &&& c.status.drift_detected == drift
            &&& (drift && v.policy_mode == PolicyMode::Block ==> c.status.trust_state == TrustState::Blocked)
            &&& (drift && v.policy_mode == PolicyMode::AlertOnly ==> c.status.trust_state == TrustState::DriftDetected)
            &&& (!drift ==> c.status.trust_state == TrustState::Approved)
        }),
{
}

// ----- schema URLs -----

proof fn lemma_without_white_space_idempotent(s: Seq<char>)
    ensures
        without_white_space(without_white_space(s)) == without_white_space(s),
    decreases s.len(),
{
    if s.len() > 0 {
        let d = s.drop_last();
        lemma_without_white_space_idempotent(d);
        let w = without_white_space(d);
        if !crate::text::unicode_white_space(s.last()) {
            assert(w.push(s.last()).drop_last() =~= w);
        }
    }
}

/// White space anywhere in a schema URL does not change how it is read.
pub proof fn law_url_white_space_ignored(url: Seq<char>)
    ensures
        parsed_http_url(url) == parsed_http_url(without_white_space(url)),
{
    lemma_without_white_space_idempotent(url);
}

// ----- integration ids -----

/// A character an integration id may hold: a lowercase ASCII letter, a digit or `-`.
pub open spec fn id_char(c: char) -> bool {
    ('a' <= c && c <= 'z') || ('0' <= c && c <= '9') || c == '-'
}

/// Only id characters, and never two `-` in a row.
pub open spec fn id_shaped(s: Seq<char>) -> bool {
    &&& forall|i: int| 0 <= i < s.len() ==> id_char(#[trigger] s[i])
    &&& forall|i: int| 0 <= i < s.len() - 1 ==> !(#[trigger] s[i] == '-' && s[i + 1] == '-')
}

proof fn lemma_ascii_lower_id_char(c: char)
    requires
        ascii_alnum(c),
    ensures
        id_char(ascii_lower(c)),
{
    if 'A' <= c && c <= 'Z' {
        let u = c as u32;
        assert(65 <= u <= 90);
        assert(((u + 32) as char) as u32 == u + 32);
    }
}

proof fn lemma_slug_raw_shape(s: Seq<char>)
    ensures
        id_shaped(slug_raw(s)),
    decreases s.len(),
{
    if s.len() > 0 {
        let d = s.drop_last();
        lemma_slug_raw_shape(d);
        let r = slug_raw(d);
        let c = s.last();
        if ascii_alnum(c) {
            lemma_ascii_lower_id_char(c);
            let t = r.push(ascii_lower(c));
            assert(ascii_lower(c) != '-');
            assert forall|i: int| 0 <= i < t.len() implies id_char(#[trigger] t[i]) by {
                if i < r.len() {
                    assert(t[i] == r[i]);
                }
            }
            assert forall|i: int| 0 <= i < t.len() - 1 implies !(#[trigger] t[i] == '-' && t[i + 1] == '-') by {
                assert(t[i] == r[i]);
                if i + 1 < r.len() {
                    assert(t[i + 1] == r[i + 1]);
                }
            }
        } else if r.len() > 0 && r.last() == '-' {
        } else {
            let t = r.push('-');
            assert forall|i: int| 0 <= i < t.len() implies id_char(#[trigger] t[i]) by {
                if i < r.len() {
                    assert(t[i] == r[i]);
                }
            }
            assert forall|i: int| 0 <= i < t.len() - 1 implies !(#[trigger] t[i] == '-' && t[i + 1] == '-') by {
                assert(t[i] == r[i]);
                if i + 1 < r.len() {
                    assert(t[i + 1] == r[i + 1]);
                }
            }
        }
    }
}

proof fn lemma_trim_dash_start_shape(s: Seq<char>)
    requires
        id_shaped(s),
    ensures
        id_shaped(trim_dash_start(s)),
        trim_dash_start(s).len() > 0 ==> trim_dash_start(s)[0] != '-',
    decreases s.len(),
{
    if s.len() > 0 && s[0] == '-' {
        let t = s.drop_first();
        assert forall|i: int| 0 <= i < t.len() implies id_char(#[trigger] t[i]) by {
            assert(t[i] == s[i + 1]);
        }
        assert forall|i: int| 0 <= i < t.len() - 1 implies !(#[trigger] t[i] == '-' && t[i + 1] == '-') by {
            assert(t[i] == s[i + 1]);
            assert(t[i + 1] == s[i + 2]);
        }
        lemma_trim_dash_start_shape(t);
    }
}

proof fn lemma_trim_dash_end_shape(s: Seq<char>)
    requires
        id_shaped(s),
        s.len() > 0 ==> s[0] != '-',
    ensures
        id_shaped(trim_dash_end(s)),
        trim_dash_end(s).len() > 0 ==> trim_dash_end(s)[0] != '-' && trim_dash_end(s).last() != '-',
    decreases s.len(),
{
    if s.len() > 0 && s.last() == '-' {
        let t = s.drop_last();
        assert forall|i: int| 0 <= i < t.len() implies id_char(#[trigger] t[i]) by {
            assert(t[i] == s[i]);
        }
        assert forall|i: int| 0 <= i < t.len() - 1 implies !(#[trigger] t[i] == '-' && t[i + 1] == '-') by {
            assert(t[i] == s[i]);
            assert(t[i + 1] == s[i + 1]);
        }
        if t.len() > 0 {
            assert(t[0] == s[0]);
        }
        lemma_trim_dash_end_shape(t);
    }
}

/// The id derived from any name holds only lowercase ASCII letters, digits
/// and single `-` between them, and neither starts nor ends with `-`.
pub proof fn law_ids_are_clean(name: Seq<char>)
    ensures
        id_shaped(slug(name)),
        slug(name).len() > 0 ==> slug(name)[0] != '-' && slug(name).last() != '-',
{
    lemma_slug_raw_shape(name);
    lemma_trim_dash_start_shape(slug_raw(name));
    lemma_trim_dash_end_shape(trim_dash_start(slug_raw(name)));
}

proof fn lemma_slug_raw_of_id(t: Seq<char>)
    requires
        id_shaped(t),
        t.len() > 0 ==> t[0] != '-',
    ensures
        slug_raw(t) == t,
    decreases t.len(),
{
    if t.len() > 0 {
        let d = t.drop_last();
        assert forall|i: int| 0 <= i < d.len() implies id_char(#[trigger] d[i]) by {
            assert(d[i] == t[i]);
        }
        assert forall|i: int| 0 <= i < d.len() - 1 implies !(#[trigger] d[i] == '-' && d[i + 1] == '-') by {
            assert(d[i] == t[i]);
            assert(d[i + 1] == t[i + 1]);
        }
        if d.len() > 0 {
            assert(d[0] == t[0]);
        }
        lemma_slug_raw_of_id(d);
        let c = t.last();
        assert(id_char(t[t.len() - 1]));
        if c == '-' {
            assert(t.len() >= 2);
            assert(d.last() == t[t.len() - 2]);
            assert(!(t[t.len() - 2] == '-' && t[t.len() - 1] == '-'));
            assert(d.push('-') =~= t);
        } else {
            assert(ascii_alnum(c));
            assert(ascii_lower(c) == c);
            assert(d.push(c) =~= t);
        }
    }
}

/// Deriving an id from an id gives it back.
pub proof fn law_id_of_an_id_is_itself(name: Seq<char>)
    ensures
        slug(slug(name)) == slug(name),
{
    law_ids_are_clean(name);
    let t = slug(name);
    lemma_slug_raw_of_id(t);
    assert(trim_dash_start(t) == t);
    assert(trim_dash_end(t) == t);
}

// ----- tool listings -----

/// Tools in order of name: no tool's name sorts before an earlier one's.
pub open spec fn names_ordered(ts: Seq<JsonModel>) -> bool {
    forall|i: int, j: int| #![trigger ts[i], ts[j]] 0 <= i < j < ts.len() ==> !text_lt(
        tool_sort_name(ts[j]),
        tool_sort_name(ts[i]),
    )
}

proof fn lemma_insert_tool_ordered(x: JsonModel, s: Seq<JsonModel>)
    requires
        names_ordered(s),
    ensures
        names_ordered(insert_tool(x, s)),
        insert_tool(x, s).to_multiset() == s.to_multiset().insert(x),
    decreases s.len(),
{
    broadcast use vstd::seq_lib::group_to_multiset_ensures;
    let r = insert_tool(x, s);
    if s.len() == 0 {
        assert(r =~= Seq::<JsonModel>::empty().push(x));
        assert(s =~= Seq::<JsonModel>::empty());
    } else if text_lt(tool_sort_name(x), tool_sort_name(s[0])) {
        assert(r =~= s.insert(0, x));
        vstd::seq_lib::to_multiset_insert(s, 0, x);
        assert forall|i: int, j: int| #![trigger r[i], r[j]] 0 <= i < j < r.len() implies !text_lt(
            tool_sort_name(r[j]),
            tool_sort_name(r[i]),
        ) by {
            if i == 0 {
                assert(r[j] == s[j - 1]);
                if text_lt(tool_sort_name(s[j - 1]), tool_sort_name(x)) {
                    lemma_text_lt_transitive(tool_sort_name(s[j - 1]), tool_sort_name(x), tool_sort_name(s[0]));
                    if j - 1 > 0 {
                        assert(!text_lt(tool_sort_name(s[j - 1]), tool_sort_name(s[0])));
                    } else {
                        lemma_text_lt_irreflexive(tool_sort_name(s[0]));
                    }
                }
            } else {
                assert(r[i] == s[i - 1]);
                assert(r[j] == s[j - 1]);
            }
        }
    } else {
        let t = s.drop_first();
        assert(names_ordered(t)) by {
            assert forall|i: int, j: int| #![trigger t[i], t[j]] 0 <= i < j < t.len() implies !text_lt(
                tool_sort_name(t[j]),
                tool_sort_name(t[i]),
            ) by {
                assert(t[i] == s[i + 1]);
                assert(t[j] == s[j + 1]);
            }
        }
        lemma_insert_tool_ordered(x, t);
        let u = insert_tool(x, t);
        assert(r =~= u.insert(0, s[0]));
        vstd::seq_lib::to_multiset_insert(u, 0, s[0]);
        assert(s =~= t.insert(0, s[0]));
        vstd::seq_lib::to_multiset_insert(t, 0, s[0]);
        assert(r.to_multiset() =~= s.to_multiset().insert(x));
        assert forall|i: int, j: int| #![trigger r[i], r[j]] 0 <= i < j < r.len() implies !text_lt(
            tool_sort_name(r[j]),
            tool_sort_name(r[i]),
        ) by {
            if i == 0 {
                assert(r[j] == u[j - 1]);
                assert(u.contains(u[j - 1]));
                assert(u.to_multiset().count(u[j - 1]) > 0);
                if u[j - 1] != x {
                    assert(t.to_multiset().count(u[j - 1]) > 0);
                    assert(t.contains(u[j - 1]));
                    let k = choose|k: int| 0 <= k < t.len() && t[k] == u[j - 1];
                    assert(s[k + 1] == t[k]);
                }
            } else {
                assert(r[i] == u[i - 1]);
                assert(r[j] == u[j - 1]);
            }
        }
    }
}

/// The listed tools come out in order of name, none lost and none added.
pub proof fn law_tools_listed_in_name_order(ts: Seq<JsonModel>)
    ensures
        names_ordered(sort_tools(ts)),
        sort_tools(ts).to_multiset() == ts.to_multiset(),
    decreases ts.len(),
{
    broadcast use vstd::seq_lib::group_to_multiset_ensures;
    if ts.len() > 0 {
        let d = ts.drop_last();
        law_tools_listed_in_name_order(d);
        lemma_insert_tool_ordered(ts.last(), sort_tools(d));
        assert(ts =~= d.push(ts.last()));
    } else {
        assert(ts.to_multiset() =~= sort_tools(ts).to_multiset());
    }
}

// ----- approvals -----

/// Approving a captured baseline restores trust whatever came before: the
/// integration is approved, with the new baseline, no report and no incidents.
pub proof fn law_approval_restores_trust(v: IntegrationView, approved_by: Seq<char>, snapshot: SnapshotView, now: u128)
    ensures
        ({
            let a = approved(v, approved_by, CaptureView::Written(snapshot), now);
            &&& a.status.trust_state == TrustState::Approved
            &&& !a.status.drift_detected
            &&& a.approved_snapshot == Some(snapshot)
            &&& a.last_report is None
            &&& a.incidents.len() == 0
        }),
{
}

/// A capture that fails, for approval or for a baseline refresh, leaves the
/// baseline, the last report and the incidents as they were.
pub proof fn law_failed_capture_keeps_baseline(v: IntegrationView, approved_by: Seq<char>, error: Seq<char>, now: u128)
    ensures
        ({
            let a = approved(v, approved_by, CaptureView::FetchFailed(error), now);
            let b = approved(v, approved_by, CaptureView::WriteFailed(error), now);
            let c = pinged(v, CaptureView::FetchFailed(error), now);
            let d = pinged(v, CaptureView::WriteFailed(error), now);
            &&& a.approved_snapshot == v.approved_snapshot && a.last_report == v.last_report && a.incidents == v.incidents
            &&& b.approved_snapshot == v.approved_snapshot && b.last_report == v.last_report && b.incidents == v.incidents
            &&& c.approved_snapshot == v.approved_snapshot && c.last_report == v.last_report && c.incidents == v.incidents
            &&& d.approved_snapshot == v.approved_snapshot && d.last_report == v.last_report && d.incidents == v.incidents
            &&& a.status.trust_state == TrustState::Error && c.status.trust_state == TrustState::Error
        }),
{
}

// ----- the store -----

/// No two integrations in a store share an id.
pub open spec fn ids_distinct(s: Seq<IntegrationView>) -> bool {
    forall|i: int, j: int| 0 <= i < j < s.len() ==> #[trigger] s[i].id != #[trigger] s[j].id
}

proof fn lemma_update_keeping_id(s: Seq<IntegrationView>, i: int, v: IntegrationView)
    requires
        ids_distinct(s),
        0 <= i < s.len(),
        v.id == s[i].id,
    ensures
        ids_distinct(s.update(i, v)),
{
    let t = s.update(i, v);
    assert forall|a: int, b: int| 0 <= a < b < t.len() implies #[trigger] t[a].id != #[trigger] t[b].id by {
        assert(t[a].id == s[a].id);
        assert(t[b].id == s[b].id);
    }
}

/// Every change to a store keeps the ids of its integrations distinct:
/// registration adds an integration only under an id not yet taken, and
/// approval, baseline refresh, reconfiguration and drift checks keep the id
/// of the integration they change.
pub proof fn law_ids_stay_distinct(
    s: Seq<IntegrationView>,
    n: RequestView,
    snapshot_path: Seq<char>,
    i: int,
    approved_by: Seq<char>,
    capture: CaptureView,
    now: u128,
    stored: Option<SnapshotView>,
    live: JsonModel,
    error: Seq<char>,
)
    requires
        ids_distinct(s),
    ensures
        !has_id(s, slug(n.name)) ==> ids_distinct(s.push(registered(n, slug(n.name), snapshot_path))),
        0 <= i < s.len() ==> ids_distinct(s.update(i, approved(s[i], approved_by, capture, now))),
        0 <= i < s.len() ==> ids_distinct(s.update(i, pinged(s[i], capture, now))),
        0 <= i < s.len() ==> ids_distinct(s.update(i, reconfigured(s[i], n, now))),
        0 <= i < s.len() ==> ids_distinct(s.update(i, checked(started_check(s[i], stored, now), live, now))),
        0 <= i < s.len() ==> ids_distinct(s.update(i, check_fetch_failed(started_check(s[i], stored, now), error))),
{
    if !has_id(s, slug(n.name)) {
        let t = s.push(registered(n, slug(n.name), snapshot_path));
        assert forall|a: int, b: int| 0 <= a < b < t.len() implies #[trigger] t[a].id != #[trigger] t[b].id by {
            assert(t[a] == s[a]);
            if b < s.len() {
                assert(t[b] == s[b]);
            } else {
                if s[a].id == slug(n.name) {
                    assert(has_id(s, slug(n.name)));
                }
            }
        }
    }
    if 0 <= i < s.len() {
        lemma_update_keeping_id(s, i, approved(s[i], approved_by, capture, now));
        lemma_update_keeping_id(s, i, pinged(s[i], capture, now));
        lemma_update_keeping_id(s, i, reconfigured(s[i], n, now));
        lemma_update_keeping_id(s, i, checked(started_check(s[i], stored, now), live, now));
        lemma_update_keeping_id(s, i, check_fetch_failed(started_check(s[i], stored, now), error));
    }
}

// ----- command-line flags -----

/// No flag name is recorded twice.
pub open spec fn flag_names_distinct(fs: Seq<(Seq<char>, Seq<char>)>) -> bool {
    forall|i: int, j: int| 0 <= i < j < fs.len() ==> #[trigger] fs[i].0 != #[trigger] fs[j].0
}

pub open spec fn has_flag(fs: Seq<(Seq<char>, Seq<char>)>, k: Seq<char>) -> bool {
    exists|i: int| 0 <= i < fs.len() && #[trigger] fs[i].0 == k
}

proof fn lemma_insert_flag_distinct(fs: Seq<(Seq<char>, Seq<char>)>, key: Seq<char>, value: Seq<char>)
    requires
        flag_names_distinct(fs),
    ensures
        flag_names_distinct(insert_flag(fs, key, value)),
        forall|k: Seq<char>| #[trigger] has_flag(insert_flag(fs, key, value), k) ==> (k == key || has_flag(fs, k)),
    decreases fs.len(),
{
    let r = insert_flag(fs, key, value);
    if fs.len() == 0 {
        assert(r =~= seq![(key, value)]);
    } else if fs[0].0 == key {
        assert(r =~= seq![(key, value)] + fs.drop_first());
        assert forall|a: int, b: int| 0 <= a < b < r.len() implies #[trigger] r[a].0 != #[trigger] r[b].0 by {
            assert(r[b] == fs[b]);
            if a > 0 {
                assert(r[a] == fs[a]);
            }
        }
        assert forall|k: Seq<char>| #[trigger] has_flag(r, k) implies (k == key || has_flag(fs, k)) by {
            let i = choose|i: int| 0 <= i < r.len() && #[trigger] r[i].0 == k;
            if i > 0 {
                assert(fs[i].0 == k);
            }
        }
    } else {
        let t = fs.drop_first();
        assert(flag_names_distinct(t)) by {
            assert forall|a: int, b: int| 0 <= a < b < t.len() implies #[trigger] t[a].0 != #[trigger] t[b].0 by {
                assert(t[a] == fs[a + 1]);
                assert(t[b] == fs[b + 1]);
            }
        }
        lemma_insert_flag_distinct(t, key, value);
        let u = insert_flag(t, key, value);
        assert(r =~= seq![fs[0]] + u);
        assert forall|a: int, b: int| 0 <= a < b < r.len() implies #[trigger] r[a].0 != #[trigger] r[b].0 by {
            if a == 0 {
                assert(r[b] == u[b - 1]);
                let k = u[b - 1].0;
                assert(has_flag(u, k));
                if k != key {
                    let m = choose|m: int| 0 <= m < t.len() && #[trigger] t[m].0 == k;
                    assert(fs[m + 1].0 == k);
                }
            } else {
                assert(r[a] == u[a - 1]);
                assert(r[b] == u[b - 1]);
            }
        }
        assert forall|k: Seq<char>| #[trigger] has_flag(r, k) implies (k == key || has_flag(fs, k)) by {
            let i = choose|i: int| 0 <= i < r.len() && #[trigger] r[i].0 == k;
            if i == 0 {
                assert(fs[0].0 == k);
            } else {
                assert(u[i - 1].0 == k);
                assert(has_flag(u, k));
                if k != key {
                    let m = choose|m: int| 0 <= m < t.len() && #[trigger] t[m].0 == k;
                    assert(fs[m + 1].0 == k);
                }
            }
        }
    }
}

proof fn lemma_flags_from_distinct(args: Seq<Seq<char>>, k: int)
    ensures
        flag_names_distinct(flags_from(args, k)),
    decreases k,
{
    if k > 0 {
        lemma_flags_from_distinct(args, k - 1);
        lemma_insert_flag_distinct(flags_from(args, k - 1), crate::cli::flag_name(args[2 * (k - 1)]), args[2 * (k - 1) + 1]);
    }
}

/// The flags read from a command line record each name once.
pub proof fn law_flag_names_recorded_once(args: Seq<Seq<char>>)
    ensures
        parsed_flags(args) matches Ok(fs) ==> flag_names_distinct(fs),
{
    lemma_flags_from_distinct(args, (args.len() / 2) as int);
}

// ----- chunked bodies -----

/// `n` in lowercase hexadecimal, as `{:x}` writes it.
pub open spec fn hex_text(n: nat) -> Seq<char>
    decreases n,
{
    if n < 16 {
        seq![hex_digit(n)]
    } else {
        hex_text(n / 16).push(hex_digit(n % 16))
    }
}

/// One chunk of a chunked body: its size in bytes in hexadecimal, a line
/// break, its data, and a line break.
pub open spec fn chunk_frame(data: Seq<char>) -> Seq<char> {
    hex_text(byte_len(data)) + crlf() + data + crlf()
}

/// A chunked body carrying `chunks` in order, ended by the empty chunk.
pub open spec fn chunked_body(chunks: Seq<Seq<char>>) -> Seq<char>
    decreases chunks.len(),
{
    if chunks.len() == 0 {
        seq!['0'] + crlf() + crlf()
    } else {
        chunk_frame(chunks[0]) + chunked_body(chunks.drop_first())
    }
}

/// The chunks' data one after another.
pub open spec fn joined_chunks(chunks: Seq<Seq<char>>) -> Seq<char>
    decreases chunks.len(),
{
    if chunks.len() == 0 {
        Seq::empty()
    } else {
        chunks[0] + joined_chunks(chunks.drop_first())
    }
}

proof fn lemma_hex_digit(d: nat)
    requires
        d < 16,
    ensures
        digit_value(hex_digit(d), 16) == Some(d),
        !unicode_white_space(hex_digit(d)),
        hex_digit(d) != '\r',
        hex_digit(d) != ';',
        hex_digit(d) != '+',
        hex_digit(d) != '-',
{
    if d < 10 {
        assert(((48 + d) as char) as u32 == 48 + d);
    } else {
        assert(((87 + d) as char) as u32 == 87 + d);
    }
}

proof fn lemma_hex_text_chars(n: nat)
    ensures
        hex_text(n).len() > 0,
        forall|i: int| 0 <= i < hex_text(n).len() ==> {
            let c = #[trigger] hex_text(n)[i];
            &&& !unicode_white_space(c)
            &&& c != '\r'
            &&& c != ';'
            &&& c != '+'
            &&& c != '-'
        },
    decreases n,
{
    if n < 16 {
        lemma_hex_digit(n);
    } else {
        lemma_hex_text_chars(n / 16);
        lemma_hex_digit(n % 16);
        let t = hex_text(n / 16);
        assert forall|i: int| 0 <= i < hex_text(n).len() implies {
            let c = #[trigger] hex_text(n)[i];
            &&& !unicode_white_space(c)
            &&& c != '\r'
            &&& c != ';'
            &&& c != '+'
            &&& c != '-'
        } by {
            if i < t.len() {
                assert(hex_text(n)[i] == t[i]);
            }
        }
    }
}

proof fn lemma_parse_digits_push(s: Seq<char>, c: char, radix: nat, max: nat, acc: nat)
    ensures
        parse_digits(s.push(c), radix, max, acc) == match parse_digits(s, radix, max, acc) {
            Err(e) => Err(e),
            Ok(v) => match digit_value(c, radix) {
                None => Err(crate::text::IntErrorKind::InvalidDigit),
                Some(d) => if v * radix + d > max {
                    Err(crate::text::IntErrorKind::PosOverflow)
                } else {
                    Ok(v * radix + d)
                },
            },
        },
    decreases s.len(),
{
    if s.len() == 0 {
        assert(s.push(c) =~= seq![c]);
        assert(seq![c].drop_first() =~= Seq::<char>::empty());
        assert(parse_digits(s, radix, max, acc) == Ok::<nat, crate::text::IntErrorKind>(acc));
        match digit_value(c, radix) {
            None => {},
            Some(d) => {
                assert(parse_digits(Seq::<char>::empty(), radix, max, acc * radix + d)
                    == Ok::<nat, crate::text::IntErrorKind>(acc * radix + d));
            },
        }
    } else {
        assert(s.push(c)[0] == s[0]);
        assert(s.push(c).drop_first() =~= s.drop_first().push(c));
        match digit_value(s[0], radix) {
            None => {},
            Some(d) => {
                if acc * radix + d <= max {
                    lemma_parse_digits_push(s.drop_first(), c, radix, max, acc * radix + d);
                }
            },
        }
    }
}

proof fn lemma_parse_hex(n: nat, max: nat)
    requires
        n <= max,
    ensures
        parse_digits(hex_text(n), 16, max, 0) == Ok::<nat, crate::text::IntErrorKind>(n),
    decreases n,
{
    if n < 16 {
        lemma_hex_digit(n);
        lemma_parse_digits_push(Seq::<char>::empty(), hex_digit(n), 16, max, 0);
        assert(Seq::<char>::empty().push(hex_digit(n)) =~= seq![hex_digit(n)]);
    } else {
        lemma_parse_hex(n / 16, max);
        lemma_hex_digit(n % 16);
        lemma_parse_digits_push(hex_text(n / 16), hex_digit(n % 16), 16, max, 0);
        assert((n / 16) * 16 + n % 16 == n);
    }
}

proof fn lemma_index_of_crlf(p: Seq<char>, q: Seq<char>)
    requires
        forall|k: int| 0 <= k < p.len() ==> #[trigger] p[k] != '\r',
    ensures
        index_of_text(p + crlf() + q, crlf()) == p.len(),
    decreases p.len(),
{
    let s = p + crlf() + q;
    if p.len() == 0 {
        assert(s.take(2) =~= crlf());
    } else {
        assert(s[0] == p[0]);
        assert(s.take(2)[0] == s[0]);
        assert(s.take(2) != crlf());
        let p1 = p.drop_first();
        assert forall|k: int| 0 <= k < p1.len() implies #[trigger] p1[k] != '\r' by {
            assert(p1[k] == p[k + 1]);
        }
        lemma_index_of_crlf(p1, q);
        assert(s.drop_first() =~= p1 + crlf() + q);
    }
}

proof fn lemma_byte_len_append(a: Seq<char>, b: Seq<char>)
    ensures
        byte_len(a + b) == byte_len(a) + byte_len(b),
    decreases b.len(),
{
    if b.len() == 0 {
        assert(a + b =~= a);
    } else {
        lemma_byte_len_append(a, b.drop_last());
        assert((a + b).drop_last() =~= a + b.drop_last());
    }
}

proof fn lemma_cut_at_chunk_end(c: Seq<char>, rest: Seq<char>, k: int)
    requires
        0 <= k <= c.len(),
        rest.len() > 0,
        rest[0] == '\r',
    ensures
        cut_from(c + rest, byte_len(c), k) == c.len(),
    decreases c.len() - k,
{
    let after = c + rest;
    if k < c.len() {
        assert(after.take(k + 1) =~= c.take(k + 1));
        lemma_byte_len_prefix(c, k + 1);
        lemma_cut_at_chunk_end(c, rest, k + 1);
    } else {
        assert(after.take(k + 1) =~= c.push('\r'));
        assert(c.push('\r').drop_last() =~= c);
    }
}

proof fn lemma_chunk_token(n: nat, max: nat)
    requires
        n <= max,
    ensures
        chunk_size_token(hex_text(n)) == hex_text(n),
        parse_unsigned(hex_text(n), 16, max) == Ok::<nat, crate::text::IntErrorKind>(n),
{
    let h = hex_text(n);
    lemma_hex_text_chars(n);
    lemma_index_of(h, ';');
    if index_of(h, ';') >= 0 {
        assert(h[index_of(h, ';')] == ';');
    }
    assert(before_semicolon(h) == h);
    assert(!unicode_white_space(h[0]));
    assert(trim_start(h) == h);
    assert(!unicode_white_space(h[h.len() - 1]));
    assert(trim_end(h) == h);
    assert(h[0] != '+' && h[0] != '-');
    lemma_parse_hex(n, max);
}

proof fn lemma_byte_len_crlf()
    ensures
        byte_len(crlf()) == 2,
{
    let t = crlf();
    assert(t.drop_last() =~= seq!['\r']);
    assert(seq!['\r'].drop_last() =~= Seq::<char>::empty());
    assert(('\r' as u32) == 13);
    assert(('\n' as u32) == 10);
    assert(byte_len(Seq::<char>::empty()) == 0);
    assert(seq!['\r'].last() == '\r');
    assert(crate::text::char_width('\r') == 1);
    assert(crate::text::char_width('\n') == 1);
    assert(byte_len(seq!['\r']) == 1);
}

#[verifier::rlimit(60)]
proof fn lemma_decode_one_chunk(c: Seq<char>, tail: Seq<char>, acc: Seq<char>)
    requires
        c.len() > 0,
        byte_len(c) <= usize::MAX,
    ensures
        decoded_chunks(chunk_frame(c) + tail, acc) == decoded_chunks(tail, acc + c),
{
    let body = chunk_frame(c) + tail;
    let size = byte_len(c);
    let h = hex_text(size);
    lemma_hex_text_chars(size);
    assert(body =~= h + crlf() + (c + crlf() + tail));
    lemma_index_of_crlf(h, c + crlf() + tail);
    assert(body.take(h.len() as int) =~= h);
    let after = body.skip(h.len() as int + 2);
    assert(after =~= c + (crlf() + tail));
    lemma_chunk_token(size, usize::MAX as nat);
    assert(size > 0) by {
        assert(byte_len(c) == byte_len(c.drop_last()) + crate::text::char_width(c.last()));
    }
    lemma_byte_len_append(c, crlf() + tail);
    lemma_byte_len_append(crlf(), tail);
    lemma_byte_len_crlf();
    lemma_cut_at_chunk_end(c, crlf() + tail, 0);
    assert(cut_count(after, size) == c.len());
    assert(after.skip(c.len() as int) =~= crlf() + tail);
    assert((crlf() + tail).take(2) =~= crlf());
    assert((crlf() + tail).skip(2) =~= tail);
    assert(after.take(c.len() as int) =~= c);
    assert(index_of_text(body, crlf()) == h.len());
    assert(chunk_size_token(body.take(h.len() as int)) == h);
    assert(parse_unsigned(h, 16, usize::MAX as nat) == Ok::<nat, crate::text::IntErrorKind>(size));
    assert(byte_len(after) >= size + 2);
    assert(starts_with(after.skip(c.len() as int), crlf()));
}

proof fn lemma_decode_end(acc: Seq<char>)
    ensures
        decoded_chunks(seq!['0'] + crlf() + crlf(), acc) == Ok::<Seq<char>, Seq<char>>(acc),
{
    let z = seq!['0'];
    let body = z + crlf() + crlf();
    assert(hex_digit(0) == '0');
    assert(hex_text(0) =~= z);
    lemma_index_of_crlf(z, crlf());
    assert(body.take(1) =~= z);
    lemma_chunk_token(0, usize::MAX as nat);
}

/// A chunked body made of chunks of the stated sizes decodes to their data
/// one after another.
pub proof fn law_chunked_body_decodes(chunks: Seq<Seq<char>>, acc: Seq<char>)
    requires
        forall|i: int| 0 <= i < chunks.len() ==> #[trigger] chunks[i].len() > 0 && byte_len(chunks[i]) <= usize::MAX,
    ensures
        decoded_chunks(chunked_body(chunks), acc) == Ok::<Seq<char>, Seq<char>>(acc + joined_chunks(chunks)),
    decreases chunks.len(),
{
    if chunks.len() == 0 {
        lemma_decode_end(acc);
        assert(acc + joined_chunks(chunks) =~= acc);
    } else {
        let c = chunks[0];
        let rest = chunks.drop_first();
        assert forall|i: int| 0 <= i < rest.len() implies #[trigger] rest[i].len() > 0 && byte_len(rest[i]) <= usize::MAX by {
            assert(rest[i] == chunks[i + 1]);
        }
        law_chunked_body_decodes(rest, acc + c);
        lemma_decode_one_chunk(c, chunked_body(rest), acc);
        assert(acc + c + joined_chunks(rest) =~= acc + joined_chunks(chunks));
    }
}

#[verifier::rlimit(60)]
proof fn lemma_split_one_chunk(c: Seq<char>, tail: Seq<char>)
    requires
        c.len() > 0,
        byte_len(c) + 2 <= usize::MAX,
    ensures
        chunks_split_cleanly(chunk_frame(c) + tail) == chunks_split_cleanly(tail),
{
    let body = chunk_frame(c) + tail;
    let size = byte_len(c);
    let h = hex_text(size);
    lemma_hex_text_chars(size);
    assert(body =~= h + crlf() + (c + crlf() + tail));
    lemma_index_of_crlf(h, c + crlf() + tail);
    assert(body.take(h.len() as int) =~= h);
    let after = body.skip(h.len() as int + 2);
    assert(after =~= c + (crlf() + tail));
    lemma_chunk_token(size, usize::MAX as nat);
    assert(size > 0) by {
        assert(byte_len(c) == byte_len(c.drop_last()) + crate::text::char_width(c.last()));
    }
    lemma_byte_len_append(c, crlf() + tail);
    lemma_byte_len_append(crlf(), tail);
    lemma_byte_len_crlf();
    lemma_cut_at_chunk_end(c, crlf() + tail, 0);
    assert(cut_count(after, size) == c.len());
    assert(after.skip(c.len() as int) =~= crlf() + tail);
    assert((crlf() + tail).take(2) =~= crlf());
    assert((crlf() + tail).skip(2) =~= tail);
    assert(after.take(c.len() as int) =~= c);
    assert(index_of_text(body, crlf()) == h.len());
    assert(chunk_size_token(body.take(h.len() as int)) == h);
    assert(parse_unsigned(h, 16, usize::MAX as nat) == Ok::<nat, crate::text::IntErrorKind>(size));
    assert(byte_len(after) >= size + 2);
    assert(byte_len(after.take(cut_count(after, size))) == size);
    assert(starts_with(after.skip(c.len() as int), crlf()));
}

/// A chunked body whose chunks each fit, with their line break, in a
/// `usize` can be read without splitting a character: it meets what
/// decoding asks of a body.
pub proof fn law_chunked_body_reads_cleanly(chunks: Seq<Seq<char>>)
    requires
        forall|i: int| 0 <= i < chunks.len() ==> #[trigger] chunks[i].len() > 0 && byte_len(chunks[i]) + 2 <= usize::MAX,
    ensures
        chunks_split_cleanly(chunked_body(chunks)),
    decreases chunks.len(),
{
    if chunks.len() == 0 {
        let z = seq!['0'];
        let body = z + crlf() + crlf();
        assert(hex_digit(0) == '0');
        assert(hex_text(0) =~= z);
        lemma_index_of_crlf(z, crlf());
        assert(body.take(1) =~= z);
        lemma_chunk_token(0, usize::MAX as nat);
    } else {
        let rest = chunks.drop_first();
        assert forall|i: int| 0 <= i < rest.len() implies #[trigger] rest[i].len() > 0 && byte_len(rest[i]) + 2 <= usize::MAX by {
            assert(rest[i] == chunks[i + 1]);
        }
        law_chunked_body_reads_cleanly(rest);
        lemma_split_one_chunk(chunks[0], chunked_body(rest));
    }
}

// ----- what each operation is for -----

/// A path that names no descriptive part of a schema.
pub open spec fn plain_path(path: Seq<char>) -> bool {
    !contains_text(path, "description"@) && !contains_text(path, "title"@) && !contains_text(path, "metadata"@)
        && !contains_text(path, "instructions"@)
}

/// A changed value of the same kind (string, number or boolean) outside the
/// descriptive parts of a schema is one Major change at its path; a value
/// that changes kind is one Critical change; an unchanged value is no change;
/// and any change in a descriptive part is Informational.
pub proof fn law_changed_values_by_severity(path: Seq<char>, s: Seq<char>, t: Seq<char>, x: u64, y: u64, b: bool)
    ensures
        s != t && plain_path(path) ==> {
            let es = diff_entries(path, JsonModel::Str(s), JsonModel::Str(t));
            &&& es.len() == 1
            &&& es[0].path == path
            &&& es[0].kind == DriftKind::Changed
            &&& es[0].severity == DriftSeverity::Major
        },
        x != y && plain_path(path) ==> {
            let es = diff_entries(
                path,
                JsonModel::Number(crate::json::NumberModel::PosInt(x)),
                JsonModel::Number(crate::json::NumberModel::PosInt(y)),
            );
            &&& es.len() == 1
            &&& es[0].path == path
            &&& es[0].kind == DriftKind::Changed
            &&& es[0].severity == DriftSeverity::Major
        },
        plain_path(path) ==> {
            let es = diff_entries(path, JsonModel::Bool(b), JsonModel::Bool(!b));
            &&& es.len() == 1
            &&& es[0].kind == DriftKind::Changed
            &&& es[0].severity == DriftSeverity::Major
        },
        plain_path(path) ==> {
            let es = diff_entries(path, JsonModel::Str(s), JsonModel::Bool(b));
            &&& es.len() == 1
            &&& es[0].kind == DriftKind::Changed
            &&& es[0].severity == DriftSeverity::Critical
        },
        s != t && contains_text(path, "description"@) ==> {
            let es = diff_entries(path, JsonModel::Str(s), JsonModel::Str(t));
            &&& es.len() == 1
            &&& es[0].severity == DriftSeverity::Informational
        },
        diff_entries(path, JsonModel::Str(s), JsonModel::Str(s)).len() == 0,
{
}

/// A check that finds drift other than what the last report recorded opens
/// exactly one new incident holding the new entries, and keeps the earlier
/// ones; a check that finds the same drift again, or none, opens none.
pub proof fn law_new_drift_opens_one_incident(v: IntegrationView, live: JsonModel, opened_at: u128)
    ensures
        ({
            let es = check_entries(v, live);
            let c = checked(v, live, opened_at);
            es.len() > 0 && (v.last_report is None || v.last_report->Some_0.entries != es) ==> {
                &&& c.incidents.len() == v.incidents.len() + 1
                &&& c.incidents.take(v.incidents.len() as int) == v.incidents
                &&& c.incidents.last().entries == es
                &&& c.incidents.last().opened_at_epoch_ms == opened_at
            }
        }),
        ({
            let es = check_entries(v, live);
            (es.len() == 0 || (v.last_report is Some && v.last_report->Some_0.entries == es))
                ==> checked(v, live, opened_at).incidents == v.incidents
        }),
{
    let es = check_entries(v, live);
    let c = checked(v, live, opened_at);
    if es.len() > 0 && (v.last_report is None || v.last_report->Some_0.entries != es) {
        assert(c.incidents.take(v.incidents.len() as int) =~= v.incidents);
    }
}

/// A Transfer-Encoding line that names `chunked`, wherever it stands among
/// the header lines and in whatever letter case, makes the body be read as
/// chunks; without such a line the body is taken as it is.
pub proof fn law_any_chunked_header_line_counts(headers: Seq<char>, body: Seq<char>, k: int)
    ensures
        0 <= k < text_lines(headers).len() && starts_with(ascii_lower_text(text_lines(headers)[k]), "transfer-encoding:"@)
            && contains_text(ascii_lower_text(text_lines(headers)[k]), "chunked"@)
            ==> decoded_http_body(headers, body) == decoded_chunks(body, Seq::empty()),
        (forall|j: int| 0 <= j < text_lines(headers).len() ==> !(starts_with(ascii_lower_text(#[trigger] text_lines(headers)[j]), "transfer-encoding:"@)
            && contains_text(ascii_lower_text(text_lines(headers)[j]), "chunked"@)))
            ==> decoded_http_body(headers, body) == Ok::<Seq<char>, Seq<char>>(body),
{
    if 0 <= k < text_lines(headers).len() && starts_with(ascii_lower_text(text_lines(headers)[k]), "transfer-encoding:"@)
        && contains_text(ascii_lower_text(text_lines(headers)[k]), "chunked"@) {
        assert(crate::http::chunked_line(text_lines(headers)[k]));
        assert(crate::http::is_chunked(headers));
    }
}

/// A tool entry as the catalog profile asks for: an object with a `name`
/// string that is not blank, a `description` string and an `inputSchema`
/// object.
pub open spec fn profile_tool(t: JsonModel) -> bool {
    &&& t is Object
    &&& lookup(t->Object_0, "name"@) matches Some(JsonModel::Str(n)) && trim(n).len() > 0
    &&& lookup(t->Object_0, "description"@) matches Some(JsonModel::Str(_))
    &&& lookup(t->Object_0, "inputSchema"@) matches Some(JsonModel::Object(_))
}

/// The trimmed name of a tool entry.
pub open spec fn profile_name(t: JsonModel) -> Seq<char> {
    trim(lookup(t->Object_0, "name"@)->Some_0->Str_0)
}

/// A payload meeting the catalog profile: an object whose `tools` is an
/// array of profile tools with pairwise distinct trimmed names, and whose
/// `toolCount`, when present, is the number of tools.
pub open spec fn profile_catalog(p: JsonModel) -> bool {
    &&& p is Object
    &&& lookup(p->Object_0, "tools"@) matches Some(JsonModel::Array(ts)) && {
        &&& match lookup(p->Object_0, "toolCount"@) {
            None => true,
            Some(JsonModel::Number(crate::json::NumberModel::PosInt(c))) => c == ts.len(),
            Some(_) => false,
        }
        &&& forall|i: int| 0 <= i < ts.len() ==> profile_tool(#[trigger] ts[i])
        &&& forall|i: int, j: int| 0 <= i < j < ts.len() ==> profile_name(#[trigger] ts[i]) != profile_name(#[trigger] ts[j])
    }
}

proof fn lemma_first_tool_problem_none(ts: Seq<JsonModel>, i: int)
    requires
        0 <= i <= ts.len(),
    ensures
        crate::catalog::first_tool_problem(ts, i) is None <==> forall|k: int| i <= k < ts.len() ==> #[trigger] crate::catalog::tool_problem(ts, k) is None,
    decreases ts.len() - i,
{
    if i < ts.len() {
        lemma_first_tool_problem_none(ts, i + 1);
    }
}

proof fn lemma_tool_problem_none(ts: Seq<JsonModel>, k: int)
    requires
        0 <= k < ts.len(),
    ensures
        crate::catalog::tool_problem(ts, k) is None ==> profile_tool(ts[k]) && forall|j: int|
            0 <= j < k ==> #[trigger] crate::catalog::tool_name(ts[j]) != Some(profile_name(ts[k])),
        profile_tool(ts[k]) ==> crate::catalog::tool_name(ts[k]) == Some(profile_name(ts[k])),
        (profile_tool(ts[k]) && forall|j: int| 0 <= j < k ==> profile_tool(#[trigger] ts[j]) && profile_name(ts[j]) != profile_name(ts[k]))
            ==> crate::catalog::tool_problem(ts, k) is None,
{
    if profile_tool(ts[k]) {
        assert(crate::catalog::tool_name(ts[k]) == Some(profile_name(ts[k])));
        if forall|j: int| 0 <= j < k ==> profile_tool(#[trigger] ts[j]) && profile_name(ts[j]) != profile_name(ts[k]) {
            assert forall|j: int| 0 <= j < k implies #[trigger] crate::catalog::tool_name(ts[j]) != Some(profile_name(ts[k])) by {
                assert(profile_tool(ts[j]));
                assert(crate::catalog::tool_name(ts[j]) == Some(profile_name(ts[j])));
            }
        }
    }
}

/// The validator accepts a payload exactly when it meets the catalog
/// profile: every accepted tool has a non-blank name, a string description
/// and an object input schema, the names are distinct, and a present
/// `toolCount` is the number of tools.
pub proof fn law_catalog_accepted_iff_profile(p: JsonModel)
    ensures
        crate::catalog::catalog_problem(p) is None <==> profile_catalog(p),
{
    if p is Object {
        let ms = p->Object_0;
        if lookup(ms, "tools"@) matches Some(JsonModel::Array(ts)) {
            let ts = lookup(ms, "tools"@)->Some_0->Array_0;
            lemma_first_tool_problem_none(ts, 0);
            if crate::catalog::first_tool_problem(ts, 0) is None {
                assert forall|i: int| 0 <= i < ts.len() implies profile_tool(#[trigger] ts[i]) by {
                    assert(crate::catalog::tool_problem(ts, i) is None);
                    lemma_tool_problem_none(ts, i);
                }
                assert forall|i: int, j: int| 0 <= i < j < ts.len() implies profile_name(#[trigger] ts[i]) != profile_name(#[trigger] ts[j]) by {
                    assert(crate::catalog::tool_problem(ts, j) is None);
                    assert(crate::catalog::tool_problem(ts, i) is None);
                    lemma_tool_problem_none(ts, j);
                    lemma_tool_problem_none(ts, i);
                    assert(crate::catalog::tool_name(ts[i]) != Some(profile_name(ts[j])));
                }
            }
            if (forall|i: int| 0 <= i < ts.len() ==> profile_tool(#[trigger] ts[i])) && (forall|i: int, j: int|
                0 <= i < j < ts.len() ==> profile_name(#[trigger] ts[i]) != profile_name(#[trigger] ts[j])) {
                assert forall|k: int| 0 <= k < ts.len() implies #[trigger] crate::catalog::tool_problem(ts, k) is None by {
                    assert(profile_tool(ts[k]));
                    assert forall|j: int| 0 <= j < k implies profile_tool(#[trigger] ts[j]) && profile_name(ts[j]) != profile_name(ts[k]) by {
                        assert(profile_name(ts[j]) != profile_name(ts[k]));
                    }
                    lemma_tool_problem_none(ts, k);
                }
            }
        }
    }
}

/// Registration and reconfiguration keep a requested check interval of five
/// seconds or more and raise a shorter one to five: the interval is never
/// below the requested one, never below five, and never above the larger of
/// the two.
pub proof fn law_check_interval_at_least_requested(
    n: RequestView,
    id: Seq<char>,
    snapshot_path: Seq<char>,
    v: IntegrationView,
    checked_at: u128,
)
    ensures
        registered(n, id, snapshot_path).check_interval_seconds >= n.check_interval_seconds,
        registered(n, id, snapshot_path).check_interval_seconds >= 5,
        n.check_interval_seconds >= 5 ==> registered(n, id, snapshot_path).check_interval_seconds == n.check_interval_seconds,
        n.check_interval_seconds < 5 ==> registered(n, id, snapshot_path).check_interval_seconds == 5,
        reconfigured(v, n, checked_at).check_interval_seconds >= n.check_interval_seconds,
        reconfigured(v, n, checked_at).check_interval_seconds >= 5,
        n.check_interval_seconds >= 5 ==> reconfigured(v, n, checked_at).check_interval_seconds == n.check_interval_seconds,
        n.check_interval_seconds < 5 ==> reconfigured(v, n, checked_at).check_interval_seconds == 5,
{
}

} // verus!
