//! The selection engine: loads the catalog (parse, sort, priority
//! reorder), filters it case-insensitively on a query, and maps a chosen
//! display name back to its locale code.

use crate::parser::parse_languagelist;
use crate::parser::spec_parse;
use crate::text::is_substring_of;
use crate::text::lemma_empty_substring;
use crate::text::lemma_lex_le_antisym;
use crate::text::lemma_lex_le_refl;
use crate::text::lemma_lex_le_total;
use crate::text::lemma_lex_le_trans;
use crate::text::lex_le;
use crate::text::lower_of;
use crate::text::str_contains;
use crate::text::str_eq;
use crate::text::str_le;
use crate::text::to_lower;
use crate::CatalogError;
use crate::LocaleRecord;
use crate::RecView;
use vstd::prelude::*;
use vstd::relations::sorted_by;
use vstd::relations::total_ordering;
use vstd::seq_lib::lemma_sorted_unique;

verus! {

/// Order on record views: lexicographic by display name, then locale
/// code, then English name.
pub open spec fn rec_le(a: RecView, b: RecView) -> bool {
    if a.0 != b.0 {
        lex_le(a.0, b.0)
    } else if a.1 != b.1 {
        lex_le(a.1, b.1)
    } else {
        lex_le(a.2, b.2)
    }
}

/// [`rec_le`] as a relation value, for `sort_by` and `sorted_by`.
pub open spec fn rec_leq() -> spec_fn(RecView, RecView) -> bool {
    |a: RecView, b: RecView| rec_le(a, b)
}

proof fn lemma_rec_le_connected(a: RecView, b: RecView)
    ensures
        rec_le(a, b) || rec_le(b, a),
{
    if a.0 != b.0 {
        lemma_lex_le_total(a.0, b.0);
    } else if a.1 != b.1 {
        lemma_lex_le_total(a.1, b.1);
    } else {
        lemma_lex_le_total(a.2, b.2);
    }
}

proof fn lemma_rec_le_trans(a: RecView, b: RecView, c: RecView)
    requires
        rec_le(a, b),
        rec_le(b, c),
    ensures
        rec_le(a, c),
{
    if a.0 != b.0 && b.0 != c.0 {
        lemma_lex_le_trans(a.0, b.0, c.0);
        if a.0 == c.0 {
            lemma_lex_le_antisym(a.0, b.0);
        }
    } else if a.0 == b.0 && b.0 == c.0 {
        if a.1 != b.1 && b.1 != c.1 {
            lemma_lex_le_trans(a.1, b.1, c.1);
            if a.1 == c.1 {
                lemma_lex_le_antisym(a.1, b.1);
            }
        } else if a.1 == b.1 && b.1 == c.1 {
            lemma_lex_le_trans(a.2, b.2, c.2);
        }
    }
}

/// `rec_le` is a total order on record views.
pub proof fn lemma_rec_le_total_ordering()
    ensures
        total_ordering(rec_leq()),
{
    let leq = rec_leq();
    assert forall|a: RecView| #[trigger] leq(a, a) by {
        lemma_lex_le_refl(a.2);
    }
    assert forall|a: RecView, b: RecView| #[trigger] leq(a, b) && #[trigger] leq(b, a) implies a
        == b by {
        if a.0 != b.0 {
            lemma_lex_le_antisym(a.0, b.0);
        } else if a.1 != b.1 {
            lemma_lex_le_antisym(a.1, b.1);
        } else {
            lemma_lex_le_antisym(a.2, b.2);
        }
    }
    assert forall|a: RecView, b: RecView, c: RecView|
        #[trigger] leq(a, b) && #[trigger] leq(b, c) implies leq(a, c) by {
        lemma_rec_le_trans(a, b, c);
    }
    assert forall|a: RecView, b: RecView| #[trigger] leq(a, b) || #[trigger] leq(b, a) by {
        if a.0 != b.0 {
            lemma_lex_le_total(a.0, b.0);
        } else if a.1 != b.1 {
            lemma_lex_le_total(a.1, b.1);
        } else {
            lemma_lex_le_total(a.2, b.2);
        }
    }
}

fn rec_le_exec(a: &LocaleRecord, b: &LocaleRecord) -> (r: bool)
    ensures
        r == rec_le(a.deep_view(), b.deep_view()),
{
    if !str_eq(a.0.as_str(), b.0.as_str()) {
        str_le(a.0.as_str(), b.0.as_str())
    } else if !str_eq(a.1.as_str(), b.1.as_str()) {
        str_le(a.1.as_str(), b.1.as_str())
    } else {
        str_le(a.2.as_str(), b.2.as_str())
    }
}

/// Sorts the records by [`rec_le`]; the result is the unique sorted
/// permutation of the input.
pub fn sort_records(items: Vec<LocaleRecord>) -> (r: Vec<LocaleRecord>)
    ensures
        r.deep_view() == items.deep_view().sort_by(rec_leq()),
{
    let ghost dv = items.deep_view();
    let mut out: Vec<LocaleRecord> = Vec::new();
    let mut i: usize = 0;
    proof {
        assert(out.deep_view() =~= dv.take(0));
    }
    while i < items.len()
        invariant
            i <= dv.len(),
            dv == items.deep_view(),
            items@.len() == dv.len(),
            sorted_by(out.deep_view(), rec_leq()),
            out.deep_view().to_multiset() == dv.take(i as int).to_multiset(),
        decreases dv.len() - i,
    {
        let rec = (items[i].0.clone(), items[i].1.clone(), items[i].2.clone());
        let ghost rv = dv[i as int];
        proof {
            assert(rec.deep_view() == items@[i as int].deep_view());
            assert(rec.deep_view() == rv);
        }
        let mut k: usize = 0;
        loop
            invariant
                k <= out@.len(),
                out@.len() == out.deep_view().len(),
                rec.deep_view() == rv,
                forall|j: int| 0 <= j < k ==> #[trigger] rec_leq()(out.deep_view()[j], rv),
            ensures
                k <= out.deep_view().len(),
                forall|j: int| 0 <= j < k ==> #[trigger] rec_leq()(out.deep_view()[j], rv),
                k < out.deep_view().len() ==> rec_leq()(rv, out.deep_view()[k as int]),
            decreases out@.len() - k,
        {
            if k == out.len() {
                break ;
            }
            if rec_le_exec(&rec, &out[k]) {
                proof {
                    assert(out@[k as int].deep_view() == out.deep_view()[k as int]);
                }
                break ;
            }
            proof {
                assert(out@[k as int].deep_view() == out.deep_view()[k as int]);
                lemma_rec_le_connected(out.deep_view()[k as int], rv);
                assert(rec_leq()(out.deep_view()[k as int], rv));
            }
            k = k + 1;
        }
        let ghost old_out = out.deep_view();
        out.insert(k, rec);
        proof {
            lemma_rec_le_total_ordering();
            let nv = out.deep_view();
            assert(nv =~~= old_out.insert(k as int, rv));
            assert forall|p: int, q: int| 0 <= p < q < nv.len() implies #[trigger] rec_leq()(
                nv[p],
                nv[q],
            ) by {
                let leq = rec_leq();
                if q < k {
                    assert(leq(old_out[p], old_out[q]));
                } else if p < k && q == k {
                    assert(leq(old_out[p], rv));
                } else if p < k && q > k {
                    assert(leq(old_out[p], old_out[q - 1]));
                } else if p == k {
                    assert(leq(rv, old_out[k as int]));
                    if q - 1 > k {
                        assert(leq(old_out[k as int], old_out[q - 1]));
                    }
                    assert(leq(rv, old_out[q - 1]));
                } else {
                    assert(leq(old_out[p - 1], old_out[q - 1]));
                }
            }
            vstd::seq_lib::to_multiset_insert(old_out, k as int, rv);
            assert(dv.take(i as int + 1) =~= dv.take(i as int).push(rv));
            vstd::seq_lib::to_multiset_build(dv.take(i as int), rv);
        }
        i = i + 1;
    }
    proof {
        assert(dv.take(i as int) =~= dv);
        lemma_rec_le_total_ordering();
        dv.lemma_sort_by_ensures(rec_leq());
        lemma_sorted_unique(out.deep_view(), dv.sort_by(rec_leq()), rec_leq());
        assert(out.deep_view() == dv.sort_by(rec_leq()));
    }
    out
}

/// Index of the first record in `s` whose field selected by `sel` equals
/// `name`, or -1 when there is none.
pub open spec fn find_first(s: Seq<RecView>, sel: spec_fn(RecView) -> Seq<char>, name: Seq<
    char,
>) -> int
    decreases s.len(),
{
    if s.len() == 0 {
        -1
    } else if sel(s[0]) == name {
        0
    } else {
        let r = find_first(s.drop_first(), sel, name);
        if r == -1 {
            -1
        } else {
            r + 1
        }
    }
}

/// Selects the display name of a record view.
pub open spec fn sel_display() -> spec_fn(RecView) -> Seq<char> {
    |r: RecView| r.0
}

/// Selects the English name of a record view.
pub open spec fn sel_english() -> spec_fn(RecView) -> Seq<char> {
    |r: RecView| r.2
}

pub proof fn lemma_find_first_props(s: Seq<RecView>, sel: spec_fn(RecView) -> Seq<char>, name: Seq<
    char,
>)
    ensures
        find_first(s, sel, name) == -1 ==> forall|i: int|
            0 <= i < s.len() ==> sel(#[trigger] s[i]) != name,
        find_first(s, sel, name) != -1 ==> {
            let i = find_first(s, sel, name);
            &&& 0 <= i < s.len()
            &&& sel(s[i]) == name
            &&& forall|j: int| 0 <= j < i ==> sel(#[trigger] s[j]) != name
        },
    decreases s.len(),
{
    if s.len() > 0 && sel(s[0]) != name {
        lemma_find_first_props(s.drop_first(), sel, name);
        assert(forall|i: int| 1 <= i < s.len() ==> s.drop_first()[i - 1] == s[i]);
    }
}

/// The catalog with the first record whose English name is `name` moved
/// to the front; `None` when no record has that English name.
pub open spec fn spec_promote(s: Seq<RecView>, name: Seq<char>) -> Option<Seq<RecView>> {
    let i = find_first(s, sel_english(), name);
    if i == -1 {
        None
    } else {
        Some(seq![s[i]] + s.remove(i))
    }
}

/// Moves the first record whose English name is `name` to the front,
/// per [`spec_promote`]; reports whether one was found.
fn promote_named(items: &mut Vec<LocaleRecord>, name: &str) -> (found: bool)
    ensures
        found <==> spec_promote(old(items).deep_view(), name@) is Some,
        found ==> Some(final(items).deep_view()) == spec_promote(old(items).deep_view(), name@),
        !found ==> final(items).deep_view() == old(items).deep_view(),
{
    let ghost dv = old(items).deep_view();
    let mut p: usize = 0;
    loop
        invariant
            p <= dv.len(),
            dv == items.deep_view(),
            items@.len() == dv.len(),
            items@ == old(items)@,
            forall|j: int| 0 <= j < p ==> sel_english()(#[trigger] dv[j]) != name@,
        ensures
            dv == items.deep_view(),
            items@ == old(items)@,
            p <= dv.len(),
            forall|j: int| 0 <= j < p ==> sel_english()(#[trigger] dv[j]) != name@,
            p < dv.len() ==> sel_english()(dv[p as int]) == name@,
            p == dv.len() ==> find_first(dv, sel_english(), name@) == -1,
        decreases dv.len() - p,
    {
        if p == items.len() {
            proof {
                lemma_find_first_props(dv, sel_english(), name@);
                if find_first(dv, sel_english(), name@) != -1 {
                    let i = find_first(dv, sel_english(), name@);
                    assert(sel_english()(dv[i]) == name@);
                }
            }
            break ;
        }
        let hit = str_eq(items[p].2.as_str(), name);
        proof {
            assert(items@[p as int].deep_view() == dv[p as int]);
        }
        if hit {
            break ;
        }
        p = p + 1;
    }
    if p == items.len() {
        return false;
    }
    proof {
        lemma_find_first_props(dv, sel_english(), name@);
        let i = find_first(dv, sel_english(), name@);
        if i == -1 {
            assert(sel_english()(dv[p as int]) != name@);
        }
        assert(i == p as int);
    }
    let rec = items.remove(p);
    items.insert(0, rec);
    proof {
        assert(items.deep_view() =~~= seq![dv[p as int]] + dv.remove(p as int));
    }
    true
}

/// The load-time reorder: promote the English record, then Traditional
/// Chinese, then Simplified Chinese, each to the front, so the
/// last-promoted name ends up first.
pub open spec fn spec_promote_all(s: Seq<RecView>) -> Option<Seq<RecView>> {
    match spec_promote(s, "English"@) {
        None => None,
        Some(s1) => match spec_promote(s1, "Chinese (Traditional)"@) {
            None => None,
            Some(s2) => spec_promote(s2, "Chinese (Simplified)"@),
        },
    }
}

/// What loading a raw catalog yields: the parsed records, sorted by
/// [`rec_le`], with the priority names promoted to the front.
pub open spec fn spec_load(recs: Seq<RecView>) -> Option<Seq<RecView>> {
    spec_promote_all(recs.sort_by(rec_leq()))
}

/// Loads the catalog from raw bytes: parse, sort, and promote the fixed
/// priority names to the front.
///
/// Fails with [`CatalogError::MalformedCatalog`] exactly when the bytes
/// do not parse, and with [`CatalogError::MissingPriorityEntry`] exactly
/// when a priority name has no record; the catalog is required to carry
/// all three.
pub fn get_language_list(input: &[u8]) -> (r: Result<Vec<LocaleRecord>, CatalogError>)
    ensures
        r matches Ok(v) ==> spec_parse(input@) matches Some(recs) && spec_load(recs) == Some(
            v.deep_view(),
        ),
        r == Err::<Vec<LocaleRecord>, CatalogError>(CatalogError::MalformedCatalog) <==> spec_parse(
            input@,
        ) is None,
        r == Err::<Vec<LocaleRecord>, CatalogError>(CatalogError::MissingPriorityEntry) <==> (
        spec_parse(input@) matches Some(recs) && spec_load(recs) is None),
{
    let parsed = match parse_languagelist(input) {
        Ok(v) => v,
        Err(e) => {
            return Err(e);
        },
    };
    let ghost recs = parsed.deep_view();
    let mut lang = sort_records(parsed);
    if !promote_named(&mut lang, "English") {
        return Err(CatalogError::MissingPriorityEntry);
    }
    if !promote_named(&mut lang, "Chinese (Traditional)") {
        return Err(CatalogError::MissingPriorityEntry);
    }
    if !promote_named(&mut lang, "Chinese (Simplified)") {
        return Err(CatalogError::MissingPriorityEntry);
    }
    Ok(lang)
}

proof fn lemma_promote_found(s: Seq<RecView>, name: Seq<char>)
    requires
        exists|i: int| 0 <= i < s.len() && (#[trigger] s[i]).2 == name,
    ensures
        spec_promote(s, name) is Some,
        (spec_promote(s, name)->Some_0).len() == s.len(),
        (spec_promote(s, name)->Some_0)[0].2 == name,
{
    lemma_find_first_props(s, sel_english(), name);
    let p = find_first(s, sel_english(), name);
    if p == -1 {
        let i = choose|i: int| 0 <= i < s.len() && (#[trigger] s[i]).2 == name;
        assert(sel_english()(s[i]) == name);
        assert(false);
    }
    s.remove_ensures(p);
}

proof fn lemma_promote_keeps(s: Seq<RecView>, name: Seq<char>, other: Seq<char>)
    requires
        spec_promote(s, name) is Some,
        exists|i: int| 0 <= i < s.len() && (#[trigger] s[i]).2 == other,
    ensures
        exists|i: int|
            0 <= i < (spec_promote(s, name)->Some_0).len() && (#[trigger] (spec_promote(
                s,
                name,
            )->Some_0)[i]).2 == other,
{
    let p = find_first(s, sel_english(), name);
    let t = spec_promote(s, name)->Some_0;
    lemma_find_first_props(s, sel_english(), name);
    assert(0 <= p < s.len());
    s.remove_ensures(p);
    let i = choose|i: int| 0 <= i < s.len() && (#[trigger] s[i]).2 == other;
    if i == p {
        assert(t[0] == s[p]);
        assert(t[0].2 == other);
    } else if i < p {
        assert(s.remove(p)[i] == s[i]);
        assert(t[i + 1].2 == other);
    } else {
        assert(s.remove(p)[i - 1] == s[i]);
        assert(t[i].2 == other);
    }
}

/// The priority rule heads the catalog: when records with the English
/// names "English", "Chinese (Traditional)" and "Chinese (Simplified)"
/// are all present, the reorder succeeds and the first three records
/// carry exactly those names, the last-promoted one first.
pub proof fn lemma_priority_front(s: Seq<RecView>)
    requires
        exists|i: int| 0 <= i < s.len() && (#[trigger] s[i]).2 == "English"@,
        exists|i: int| 0 <= i < s.len() && (#[trigger] s[i]).2 == "Chinese (Traditional)"@,
        exists|i: int| 0 <= i < s.len() && (#[trigger] s[i]).2 == "Chinese (Simplified)"@,
    ensures
        spec_promote_all(s) is Some,
        (spec_promote_all(s)->Some_0).len() == s.len(),
        (spec_promote_all(s)->Some_0)[0].2 == "Chinese (Simplified)"@,
        (spec_promote_all(s)->Some_0)[1].2 == "Chinese (Traditional)"@,
        (spec_promote_all(s)->Some_0)[2].2 == "English"@,
{
    let en = "English"@;
    let ct = "Chinese (Traditional)"@;
    let cs = "Chinese (Simplified)"@;
    reveal_strlit("English");
    reveal_strlit("Chinese (Traditional)");
    reveal_strlit("Chinese (Simplified)");
    assert(en.len() == 7);
    assert(ct.len() == 21);
    assert(cs.len() == 20);
    lemma_promote_found(s, en);
    let s1 = spec_promote(s, en)->Some_0;
    lemma_promote_keeps(s, en, ct);
    lemma_promote_keeps(s, en, cs);
    lemma_promote_found(s1, ct);
    let s2 = spec_promote(s1, ct)->Some_0;
    lemma_promote_keeps(s1, ct, cs);
    let i1 = find_first(s1, sel_english(), ct);
    lemma_find_first_props(s1, sel_english(), ct);
    assert(i1 >= 1);
    s1.remove_ensures(i1);
    assert(s2[1] == s1.remove(i1)[0]);
    assert(s2[1].2 == en);
    lemma_promote_found(s2, cs);
    let s3 = spec_promote(s2, cs)->Some_0;
    let i2 = find_first(s2, sel_english(), cs);
    lemma_find_first_props(s2, sel_english(), cs);
    assert(i2 != 0 && i2 != 1);
    s2.remove_ensures(i2);
    assert(s3[1] == s2.remove(i2)[0]);
    assert(s3[2] == s2.remove(i2)[1]);
    assert(s3[1].2 == ct);
    assert(s3[2].2 == en);
}

/// True when `a` is `b` with zero or more elements deleted and the
/// order of the rest kept.
pub open spec fn is_subseq_of<A>(a: Seq<A>, b: Seq<A>) -> bool
    decreases b.len(),
{
    if a.len() == 0 {
        true
    } else if b.len() == 0 {
        false
    } else if a.last() == b.last() {
        is_subseq_of(a.drop_last(), b.drop_last())
    } else {
        is_subseq_of(a, b.drop_last())
    }
}

proof fn lemma_subseq_drop_left<A>(a: Seq<A>, b: Seq<A>)
    requires
        is_subseq_of(a, b),
        a.len() > 0,
    ensures
        is_subseq_of(a.drop_last(), b),
    decreases b.len(),
{
    let adl = a.drop_last();
    if a.last() == b.last() {
        if adl.len() > 0 {
            if adl.last() == b.last() {
                lemma_subseq_drop_left(adl, b.drop_last());
            }
        }
    } else {
        lemma_subseq_drop_left(a, b.drop_last());
        if adl.len() > 0 && adl.last() == b.last() {
            lemma_subseq_drop_left(adl, b.drop_last());
        }
    }
}

proof fn lemma_subseq_push_right<A>(a: Seq<A>, b: Seq<A>, x: A)
    requires
        is_subseq_of(a, b),
    ensures
        is_subseq_of(a, b.push(x)),
{
    if a.len() > 0 {
        assert(b.push(x).drop_last() =~= b);
        assert(b.push(x).last() == x);
        if a.last() == x {
            lemma_subseq_drop_left(a, b);
        }
    }
}

proof fn lemma_filter_subseq<A>(s: Seq<A>, p: spec_fn(A) -> bool)
    ensures
        is_subseq_of(s.filter(p), s),
    decreases s.len(),
{
    reveal(Seq::filter);
    if s.len() > 0 {
        let dl = s.drop_last();
        lemma_filter_subseq(dl, p);
        if p(s.last()) {
            let f = dl.filter(p).push(s.last());
            assert(f.drop_last() =~= dl.filter(p));
            assert(f.last() == s.last());
        } else {
            lemma_subseq_push_right(dl.filter(p), dl, s.last());
            assert(dl.push(s.last()) =~= s);
        }
    }
}

/// Filtering preserves order: the matching records come out as a
/// subsequence of the catalog, never reordered.
pub proof fn lemma_filter_order_preserved(cat: Seq<RecView>, q: Seq<char>)
    ensures
        is_subseq_of(cat.filter(|r: RecView| rec_matches(r, lower_of(q))), cat),
{
    lemma_filter_subseq(cat, |r: RecView| rec_matches(r, lower_of(q)));
}

/// True when the folded query `fq` occurs in some field of the record,
/// each field folded by [`lower_of`] before the comparison.
pub open spec fn rec_matches(r: RecView, fq: Seq<char>) -> bool {
    ||| is_substring_of(fq, lower_of(r.0))
    ||| is_substring_of(fq, lower_of(r.1))
    ||| is_substring_of(fq, lower_of(r.2))
}

/// The display names of the records of `cat` that match query `q`,
/// case-insensitively, in catalog order.
pub open spec fn spec_filter_names(cat: Seq<RecView>, q: Seq<char>) -> Seq<Seq<char>> {
    cat.filter(|r: RecView| rec_matches(r, lower_of(q))).map_values(|r: RecView| r.0)
}

/// Filters the records on `query`: a record is kept when the query is a
/// case-insensitive substring of its display name, locale code or
/// English name, and the display names of the kept records come back in
/// catalog order. An empty query keeps every record.
pub fn search_fn_locales(items: Vec<LocaleRecord>, query: &str) -> (r: Vec<String>)
    ensures
        r.deep_view() == spec_filter_names(items.deep_view(), query@),
        query@.len() == 0 ==> r.deep_view() == items.deep_view().map_values(
            |rv: RecView| rv.0,
        ),
{
    let ghost dv = items.deep_view();
    let ghost pred = |rv: RecView| rec_matches(rv, lower_of(query@));
    let fq = to_lower(query);
    let mut out: Vec<String> = Vec::new();
    let mut i: usize = 0;
    proof {
        reveal(Seq::filter);
        assert(dv.take(0).len() == 0);
        assert(dv.take(0).filter(pred) == dv.take(0));
        assert(out.deep_view() =~= dv.take(0).filter(pred).map_values(|rv: RecView| rv.0));
    }
    while i < items.len()
        invariant
            i <= dv.len(),
            dv == items.deep_view(),
            items@.len() == dv.len(),
            fq@ == lower_of(query@),
            pred == (|rv: RecView| rec_matches(rv, lower_of(query@))),
            out.deep_view() == dv.take(i as int).filter(pred).map_values(|rv: RecView| rv.0),
        decreases dv.len() - i,
    {
        let ghost rv = dv[i as int];
        let d = to_lower(items[i].0.as_str());
        let c = to_lower(items[i].1.as_str());
        let e = to_lower(items[i].2.as_str());
        proof {
            assert(items@[i as int].deep_view() == rv);
        }
        let m = if str_contains(d.as_str(), fq.as_str()) {
            true
        } else if str_contains(c.as_str(), fq.as_str()) {
            true
        } else {
            str_contains(e.as_str(), fq.as_str())
        };
        proof {
            assert(m == pred(rv));
            assert(dv.take(i as int + 1) =~= dv.take(i as int).push(rv));
            dv.take(i as int).lemma_filter_push(rv, pred);
        }
        if m {
            let ghost old_out = out.deep_view();
            out.push(items[i].0.clone());
            proof {
                assert(out.deep_view() =~~= old_out.push(rv.0));
                assert(dv.take(i as int + 1).filter(pred).map_values(|r: RecView| r.0)
                    =~~= old_out.push(rv.0));
            }
        } else {
            proof {
                assert(dv.take(i as int + 1).filter(pred).map_values(|r: RecView| r.0)
                    =~~= out.deep_view());
            }
        }
        i = i + 1;
    }
    proof {
        assert(dv.take(i as int) =~= dv);
        if query@.len() == 0 {
            assert forall|j: int| 0 <= j < dv.len() implies #[trigger] pred(dv[j]) by {
                lemma_empty_substring(lower_of(query@), lower_of(dv[j].0));
            }
            lemma_filter_all(dv, pred);
            assert(out.deep_view() =~~= dv.map_values(|rv: RecView| rv.0));
        }
    }
    out
}

proof fn lemma_filter_all<A>(s: Seq<A>, p: spec_fn(A) -> bool)
    requires
        forall|i: int| 0 <= i < s.len() ==> #[trigger] p(s[i]),
    ensures
        s.filter(p) == s,
    decreases s.len(),
{
    reveal(Seq::filter);
    if s.len() > 0 {
        lemma_filter_all(s.drop_last(), p);
        assert(s.drop_last().filter(p).push(s.last()) =~= s);
    }
}

/// Locale code of the first record whose display name equals `display`,
/// or `None` when no record has that display name.
pub fn lookup_locale(items: &Vec<LocaleRecord>, display: &str) -> (r: Option<String>)
    ensures
        r is Some <==> find_first(items.deep_view(), sel_display(), display@) != -1,
        r matches Some(c) ==> c@ == items.deep_view()[find_first(
            items.deep_view(),
            sel_display(),
            display@,
        )].1,
{
    let ghost dv = items.deep_view();
    let mut p: usize = 0;
    while p < items.len()
        invariant
            p <= dv.len(),
            dv == items.deep_view(),
            items@.len() == dv.len(),
            forall|j: int| 0 <= j < p ==> sel_display()(#[trigger] dv[j]) != display@,
        decreases dv.len() - p,
    {
        let hit = str_eq(items[p].0.as_str(), display);
        proof {
            assert(items@[p as int].deep_view() == dv[p as int]);
        }
        if hit {
            proof {
                lemma_find_first_props(dv, sel_display(), display@);
                let i = find_first(dv, sel_display(), display@);
                if i == -1 {
                    assert(sel_display()(dv[p as int]) != display@);
                }
                assert(i == p as int);
            }
            return Some(items[p].1.clone());
        }
        p = p + 1;
    }
    proof {
        lemma_find_first_props(dv, sel_display(), display@);
        if find_first(dv, sel_display(), display@) != -1 {
            let i = find_first(dv, sel_display(), display@);
            assert(sel_display()(dv[i]) == display@);
        }
    }
    None
}

} // verus!
