//! The reconciler and the aggregator: filters snapshot records to the
//! target region, joins each retained record against the ranking feed by
//! normalized name, totals influence, and produces the final sheet with
//! its rows sorted deterministically by normalized name.

use vstd::prelude::*;

pub use crate::normalize;

verus! {

use crate::SCORE_SCALE;
use crate::norm_spec;
use vstd::multiset::Multiset;
use crate::api::Ranking;
use crate::archiveparse::Nation;
use vstd::string::StringExecFns;
use vstd::string::StrSliceExecFns;

/// The sentinel residency score meaning "no ranking data": minus one
/// whole unit, in fixed-point units of [`crate::SCORE_SCALE`].
pub const NO_RESIDENCY: i64 = -SCORE_SCALE;

/// One row of the reconciled sheet, immutable once built. `influence`
/// and `residency` are fixed-point values; `nation` is the normalized
/// member name.
#[derive(Debug)]
pub struct SheetRow {
    pub nation: String,
    pub influence: i64,
    pub endorsement_count: u64,
    pub wa_member: bool,
    pub residency: i64,
    pub last_login: u64,
}

/// The final reconciled table: the normalized region key, the exact sum
/// of the rows' influence, and the rows ordered by normalized name.
#[derive(Debug)]
pub struct Sheet {
    pub region: String,
    pub total_influence: i128,
    pub sheet_rows: Vec<SheetRow>,
}

/// A data-integrity fault: reconciliation aborts rather than emit a
/// partially correct sheet.
#[derive(Debug, PartialEq, Eq, Structural)]
pub enum SheetError {
    /// A retained record carries a membership status outside the closed
    /// enumeration — an unrecognized upstream schema.
    UnrecognizedWaStatus,
}

/// The number of separating commas in a raw endorsement list.
pub open spec fn comma_count(s: Seq<char>) -> nat
    decreases s.len(),
{
    if s.len() == 0 {
        0nat
    } else {
        comma_count(s.drop_last()) + if s.last() == ',' {
            1nat
        } else {
            0nat
        }
    }
}

/// How many endorsements a raw list names: none when the list is empty,
/// otherwise one more than the number of separating commas.
pub open spec fn endorsement_count_spec(s: Seq<char>) -> nat {
    if s.len() == 0 {
        0nat
    } else {
        1nat + comma_count(s)
    }
}

proof fn lemma_comma_count_le_len(s: Seq<char>)
    ensures
        comma_count(s) <= s.len(),
    decreases s.len(),
{
    if s.len() > 0 {
        lemma_comma_count_le_len(s.drop_last());
    }
}

/// Derives the endorsement count from a raw endorsement list. The
/// length bound is a machine limit: the count is returned as a `u64`.
pub fn endorsement_count(endorsements_list: &String) -> (r: u64)
    requires
        endorsements_list@.len() < u64::MAX,
    ensures
        r == endorsement_count_spec(endorsements_list@),
{
    let s = endorsements_list.as_str();
    let n = s.unicode_len();
    if n == 0 {
        return 0;
    }
    let mut count: u64 = 0;
    let mut i: usize = 0;
    while i < n
        invariant
            0 <= i <= n,
            n == s@.len(),
            s@ == endorsements_list@,
            n < u64::MAX,
            count == comma_count(s@.take(i as int)),
        decreases n - i,
    {
        proof {
            assert(s@.take(i + 1 as int).drop_last() =~= s@.take(i as int));
            assert(s@.take(i + 1 as int).last() == s@[i as int]);
            lemma_comma_count_le_len(s@.take(i as int));
        }
        if s.get_char(i) == ',' {
            count = count + 1;
        }
        i = i + 1;
    }
    proof {
        assert(s@.take(n as int) =~= s@);
        lemma_comma_count_le_len(s@);
    }
    1 + count
}

/// The WA membership a status value denotes, or nothing for a value
/// outside the closed enumeration.
pub open spec fn wa_member_spec(status: Seq<char>) -> Option<bool> {
    if status == "Non-member"@ {
        Some(false)
    } else if status == "WA Member"@ {
        Some(true)
    } else if status == "WA Delegate"@ {
        Some(true)
    } else {
        None
    }
}

/// Decodes a membership status value from the closed enumeration.
pub fn wa_member(status: &String) -> (r: Option<bool>)
    ensures
        r == wa_member_spec(status@),
{
    if status.eq(&String::from_str("Non-member")) {
        Some(false)
    } else if status.eq(&String::from_str("WA Member")) {
        Some(true)
    } else if status.eq(&String::from_str("WA Delegate")) {
        Some(true)
    } else {
        None
    }
}

/// The residency score joined onto a member: the score of the first
/// ranking entry whose normalized name equals `key`, or the sentinel
/// [`NO_RESIDENCY`] when none matches.
pub open spec fn residency_spec(key: Seq<char>, rankings: Seq<Ranking>) -> i64
    decreases rankings.len(),
{
    if rankings.len() == 0 {
        NO_RESIDENCY
    } else if norm_spec(rankings[0].nation@) == key {
        rankings[0].score
    } else {
        residency_spec(key, rankings.drop_first())
    }
}

proof fn lemma_residency_at(key: Seq<char>, rankings: Seq<Ranking>, j: int)
    requires
        0 <= j < rankings.len(),
        norm_spec(rankings[j].nation@) == key,
        forall|k: int| 0 <= k < j ==> norm_spec(#[trigger] rankings[k].nation@) != key,
    ensures
        residency_spec(key, rankings) == rankings[j].score,
    decreases j,
{
    if j > 0 {
        lemma_residency_at(key, rankings.drop_first(), j - 1);
    }
}

/// The residency sentinel: a member whose normalized name matches no
/// ranking entry gets exactly the score [`NO_RESIDENCY`].
pub proof fn lemma_residency_sentinel(key: Seq<char>, rankings: Seq<Ranking>)
    requires
        forall|k: int|
            0 <= k < rankings.len() ==> norm_spec(#[trigger] rankings[k].nation@) != key,
    ensures
        residency_spec(key, rankings) == NO_RESIDENCY,
    decreases rankings.len(),
{
    if rankings.len() > 0 {
        lemma_residency_sentinel(key, rankings.drop_first());
    }
}

/// Where no feed score is the sentinel value itself, a member's
/// residency is the sentinel exactly when no ranking entry's normalized
/// name matches. (A feed score of minus one whole unit would be
/// indistinguishable from the sentinel; the sentinel overloads the
/// score domain.)
pub proof fn lemma_residency_sentinel_iff(key: Seq<char>, rankings: Seq<Ranking>)
    requires
        forall|k: int| 0 <= k < rankings.len() ==> (#[trigger] rankings[k].score) != NO_RESIDENCY,
    ensures
        (residency_spec(key, rankings) == NO_RESIDENCY) <==> (forall|k: int|
            0 <= k < rankings.len() ==> norm_spec(#[trigger] rankings[k].nation@) != key),
    decreases rankings.len(),
{
    if rankings.len() > 0 {
        let rest = rankings.drop_first();
        if norm_spec(rankings[0].nation@) == key {
            assert(rankings[0].score != NO_RESIDENCY);
        } else {
            assert forall|k: int| 0 <= k < rest.len() implies (#[trigger] rest[k].score)
                != NO_RESIDENCY by {
                assert(rest[k] == rankings[k + 1]);
            }
            lemma_residency_sentinel_iff(key, rest);
            if residency_spec(key, rankings) == NO_RESIDENCY {
                assert forall|k: int| 0 <= k < rankings.len() implies norm_spec(
                    #[trigger] rankings[k].nation@,
                ) != key by {
                    if k > 0 {
                        assert(rest[k - 1] == rankings[k]);
                    }
                }
            } else {
                assert(exists|k: int|
                    0 <= k < rest.len() && norm_spec(#[trigger] rest[k].nation@) == key);
                let k = choose|k: int|
                    0 <= k < rest.len() && norm_spec(#[trigger] rest[k].nation@) == key;
                assert(rankings[k + 1] == rest[k]);
            }
        }
    }
}

fn residency_lookup(key: &String, rankings: &Vec<Ranking>) -> (r: i64)
    ensures
        r == residency_spec(key@, rankings@),
{
    let mut j: usize = 0;
    while j < rankings.len()
        invariant
            0 <= j <= rankings@.len(),
            forall|k: int| 0 <= k < j ==> norm_spec(#[trigger] rankings@[k].nation@) != key@,
        decreases rankings@.len() - j,
    {
        let nk = crate::normalize(&rankings[j].nation);
        if nk.eq(key) {
            proof {
                lemma_residency_at(key@, rankings@, j as int);
            }
            return rankings[j].score;
        }
        j = j + 1;
    }
    proof {
        lemma_residency_sentinel(key@, rankings@);
    }
    NO_RESIDENCY
}

/// The snapshot records retained for the target region: exactly those
/// whose normalized region equals the region key, in snapshot order.
pub open spec fn retained(records: Seq<Nation>, region_key: Seq<char>) -> Seq<Nation>
    decreases records.len(),
{
    if records.len() == 0 {
        Seq::empty()
    } else {
        let p = retained(records.drop_last(), region_key);
        if norm_spec(records.last().region@) == region_key {
            p.push(records.last())
        } else {
            p
        }
    }
}

/// One half of the region filter: every retained record's normalized
/// region is the target key.
pub proof fn lemma_retained_regions(records: Seq<Nation>, region_key: Seq<char>)
    ensures
        forall|j: int|
            0 <= j < retained(records, region_key).len() ==> norm_spec(
                #[trigger] retained(records, region_key)[j].region@,
            ) == region_key,
    decreases records.len(),
{
    if records.len() > 0 {
        let t = records.drop_last();
        lemma_retained_regions(t, region_key);
        let p = retained(t, region_key);
        if norm_spec(records.last().region@) == region_key {
            assert forall|j: int| 0 <= j < retained(records, region_key).len() implies norm_spec(
                #[trigger] retained(records, region_key)[j].region@,
            ) == region_key by {
                if j < p.len() {
                    assert(retained(records, region_key)[j] == p[j]);
                }
            }
        }
    }
}

/// The other half of the region filter: every record whose normalized
/// region is the target key is retained.
pub proof fn lemma_retained_contains(records: Seq<Nation>, region_key: Seq<char>, i: int)
    requires
        0 <= i < records.len(),
        norm_spec(records[i].region@) == region_key,
    ensures
        retained(records, region_key).contains(records[i]),
    decreases records.len(),
{
    let t = records.drop_last();
    let p = retained(t, region_key);
    if i == records.len() - 1 {
        assert(retained(records, region_key)[p.len() as int] == records.last());
    } else {
        lemma_retained_contains(t, region_key, i);
        let j = choose|j: int| 0 <= j < p.len() && p[j] == records[i];
        if norm_spec(records.last().region@) == region_key {
            assert(retained(records, region_key)[j] == p[j]);
        }
    }
}

/// `row` is the reconciliation of the record `rec` against `rankings`.
pub open spec fn row_matches(row: SheetRow, rec: Nation, rankings: Seq<Ranking>) -> bool {
    &&& row.nation@ == norm_spec(rec.name@)
    &&& row.influence == rec.influence
    &&& row.endorsement_count == endorsement_count_spec(rec.endorsements_list@)
    &&& Some(row.wa_member) == wa_member_spec(rec.wa_status@)
    &&& row.residency == residency_spec(norm_spec(rec.name@), rankings)
    &&& row.last_login == rec.last_login
}

/// The exact sum of the rows' influence values.
pub open spec fn sum_influence(rows: Seq<SheetRow>) -> int
    decreases rows.len(),
{
    if rows.len() == 0 {
        0int
    } else {
        sum_influence(rows.drop_last()) + rows.last().influence
    }
}

proof fn lemma_sum_influence_bound(rows: Seq<SheetRow>)
    ensures
        -(rows.len() * 0x8000_0000_0000_0000) <= sum_influence(rows) <= rows.len()
            * 0x8000_0000_0000_0000,
    decreases rows.len(),
{
    if rows.len() > 0 {
        lemma_sum_influence_bound(rows.drop_last());
    }
}

/// Filters the snapshot records to the target region and joins each
/// retained record against the rankings by normalized name: one row per
/// retained record, in snapshot order, plus the exact total influence
/// over all retained records whether or not a ranking matched. Fails,
/// producing no partial output, exactly when some retained record
/// carries a membership status outside the closed enumeration.
pub fn reconcile(nations: &Vec<Nation>, region_key: &String, rankings: &Vec<Ranking>) -> (r: Result<
    (Vec<SheetRow>, i128),
    SheetError,
>)
    requires
        forall|i: int|
            0 <= i < nations@.len() ==> #[trigger] nations@[i].endorsements_list@.len() < u64::MAX,
    ensures
        (r is Err) <==> (exists|i: int|
            0 <= i < nations@.len() && norm_spec(#[trigger] nations@[i].region@) == region_key@
                && wa_member_spec(nations@[i].wa_status@) is None),
        r matches Err(e) ==> e == SheetError::UnrecognizedWaStatus,
        r matches Ok(p) ==> ({
            &&& p.0@.len() == retained(nations@, region_key@).len()
            &&& (forall|i: int|
                0 <= i < p.0@.len() ==> row_matches(
                    #[trigger] p.0@[i],
                    retained(nations@, region_key@)[i],
                    rankings@,
                ))
            &&& p.1 == sum_influence(p.0@)
        }),
{
    let mut rows: Vec<SheetRow> = Vec::new();
    let mut total: i128 = 0;
    let mut i: usize = 0;
    while i < nations.len()
        invariant
            0 <= i <= nations@.len(),
            forall|k: int|
                0 <= k < nations@.len() ==> #[trigger] nations@[k].endorsements_list@.len()
                    < u64::MAX,
            rows@.len() == retained(nations@.take(i as int), region_key@).len(),
            rows@.len() <= i,
            forall|k: int|
                0 <= k < rows@.len() ==> row_matches(
                    #[trigger] rows@[k],
                    retained(nations@.take(i as int), region_key@)[k],
                    rankings@,
                ),
            total == sum_influence(rows@),
            forall|k: int|
                0 <= k < i && norm_spec(#[trigger] nations@[k].region@) == region_key@
                    ==> wa_member_spec(nations@[k].wa_status@) is Some,
        decreases nations@.len() - i,
    {
        proof {
            assert(nations@.take(i + 1 as int).drop_last() =~= nations@.take(i as int));
            assert(nations@.take(i + 1 as int).last() == nations@[i as int]);
        }
        let rec = &nations[i];
        let norm_region = crate::normalize(&rec.region);
        if norm_region.eq(region_key) {
            let wa = match wa_member(&rec.wa_status) {
                Some(w) => w,
                None => {
                    return Err(SheetError::UnrecognizedWaStatus);
                },
            };
            let normalized_name = crate::normalize(&rec.name);
            let residency = residency_lookup(&normalized_name, rankings);
            let endorsements = endorsement_count(&rec.endorsements_list);
            let influence = rec.influence;
            let last_login = rec.last_login;
            proof {
                lemma_sum_influence_bound(rows@);
            }
            let row = SheetRow {
                nation: normalized_name,
                influence,
                endorsement_count: endorsements,
                wa_member: wa,
                residency,
                last_login,
            };
            total = total + (influence as i128);
            let ghost old_rows = rows@;
            rows.push(row);
            proof {
                assert(rows@.drop_last() =~= old_rows);
                assert(rows@.last() == row);
            }
        }
        i = i + 1;
    }
    proof {
        assert(nations@.take(nations@.len() as int) =~= nations@);
    }
    Ok((rows, total))
}

/// Lexicographic order on identifiers, by Unicode scalar value.
pub open spec fn lex_leq(a: Seq<char>, b: Seq<char>) -> bool
    decreases a.len(),
{
    if a.len() == 0 {
        true
    } else if b.len() == 0 {
        false
    } else if (a[0] as u32) < (b[0] as u32) {
        true
    } else if (a[0] as u32) > (b[0] as u32) {
        false
    } else {
        lex_leq(a.drop_first(), b.drop_first())
    }
}

proof fn lemma_lex_refl(a: Seq<char>)
    ensures
        lex_leq(a, a),
    decreases a.len(),
{
    if a.len() > 0 {
        lemma_lex_refl(a.drop_first());
    }
}

proof fn lemma_lex_total(a: Seq<char>, b: Seq<char>)
    ensures
        lex_leq(a, b) || lex_leq(b, a),
    decreases a.len(),
{
    if a.len() > 0 && b.len() > 0 && (a[0] as u32) == (b[0] as u32) {
        lemma_lex_total(a.drop_first(), b.drop_first());
    }
}

proof fn lemma_lex_trans(a: Seq<char>, b: Seq<char>, c: Seq<char>)
    requires
        lex_leq(a, b),
        lex_leq(b, c),
    ensures
        lex_leq(a, c),
    decreases a.len(),
{
    if a.len() > 0 {
        if (a[0] as u32) == (b[0] as u32) && (b[0] as u32) == (c[0] as u32) {
            lemma_lex_trans(a.drop_first(), b.drop_first(), c.drop_first());
        }
    }
}

/// Inserts a row into a name-sorted sequence, after every row whose
/// name is not above it, so that rows with equal names keep their
/// arrival order.
pub open spec fn insert_by_name(s: Seq<SheetRow>, x: SheetRow) -> Seq<SheetRow>
    decreases s.len(),
{
    if s.len() == 0 {
        seq![x]
    } else if lex_leq(s.last().nation@, x.nation@) {
        s.push(x)
    } else {
        insert_by_name(s.drop_last(), x).push(s.last())
    }
}

/// The rows sorted ascending by normalized name; rows with equal names
/// keep their relative order.
pub open spec fn sort_by_name(s: Seq<SheetRow>) -> Seq<SheetRow>
    decreases s.len(),
{
    if s.len() == 0 {
        s
    } else {
        insert_by_name(sort_by_name(s.drop_last()), s.last())
    }
}

/// Ascending lexicographic order of the rows' normalized names.
pub open spec fn sorted_by_name(s: Seq<SheetRow>) -> bool {
    forall|i: int, j: int| 0 <= i < j < s.len() ==> lex_leq(s[i].nation@, s[j].nation@)
}

/// The rows whose normalized name is `k`, in order.
pub open spec fn rows_with_name(s: Seq<SheetRow>, k: Seq<char>) -> Seq<SheetRow>
    decreases s.len(),
{
    if s.len() == 0 {
        Seq::empty()
    } else {
        let p = rows_with_name(s.drop_last(), k);
        if s.last().nation@ == k {
            p.push(s.last())
        } else {
            p
        }
    }
}

proof fn lemma_insert_by_name_props(s: Seq<SheetRow>, x: SheetRow)
    ensures
        insert_by_name(s, x).len() == s.len() + 1,
        insert_by_name(s, x).to_multiset() == s.to_multiset().insert(x),
        forall|k: int|
            0 <= k < s.len() + 1 ==> (#[trigger] insert_by_name(s, x)[k] == x || s.contains(
                insert_by_name(s, x)[k],
            )),
        sorted_by_name(s) ==> sorted_by_name(insert_by_name(s, x)),
    decreases s.len(),
{
    broadcast use vstd::seq_lib::group_to_multiset_ensures;

    let r = insert_by_name(s, x);
    if s.len() == 0 {
        assert(r =~= Seq::empty().push(x));
        assert(Seq::<SheetRow>::empty().to_multiset() =~= Multiset::empty());
        assert(r.to_multiset() =~= s.to_multiset().insert(x));
    } else if lex_leq(s.last().nation@, x.nation@) {
        assert forall|k: int| 0 <= k < s.len() + 1 implies (#[trigger] r[k] == x || s.contains(
            r[k],
        )) by {
            if k < s.len() {
                assert(r[k] == s[k]);
            }
        }
        if sorted_by_name(s) {
            assert forall|i: int, j: int| 0 <= i < j < r.len() implies lex_leq(
                r[i].nation@,
                r[j].nation@,
            ) by {
                if j < s.len() {
                } else {
                    assert(r[j] == x);
                    if i < s.len() - 1 {
                        assert(lex_leq(s[i].nation@, s[s.len() - 1].nation@));
                        lemma_lex_trans(s[i].nation@, s[s.len() - 1].nation@, x.nation@);
                    }
                }
            }
        }
    } else {
        let t = s.drop_last();
        lemma_insert_by_name_props(t, x);
        let u = insert_by_name(t, x);
        assert(r == u.push(s.last()));
        assert(t.push(s.last()) =~= s);
        assert(s.to_multiset() == t.to_multiset().insert(s.last()));
        assert(r.to_multiset() == u.to_multiset().insert(s.last()));
        assert(r.to_multiset() =~= s.to_multiset().insert(x));
        assert forall|k: int| 0 <= k < s.len() + 1 implies (#[trigger] r[k] == x || s.contains(
            r[k],
        )) by {
            if k < u.len() {
                assert(r[k] == u[k]);
                if u[k] != x {
                    assert(t.contains(u[k]));
                    let l = choose|l: int| 0 <= l < t.len() && t[l] == u[k];
                    assert(s[l] == u[k]);
                }
            } else {
                assert(r[k] == s.last());
                assert(s[s.len() - 1] == s.last());
            }
        }
        if sorted_by_name(s) {
            assert forall|i: int, j: int| 0 <= i < j < t.len() implies lex_leq(
                t[i].nation@,
                t[j].nation@,
            ) by {
                assert(lex_leq(s[i].nation@, s[j].nation@));
            }
            assert forall|i: int, j: int| 0 <= i < j < r.len() implies lex_leq(
                r[i].nation@,
                r[j].nation@,
            ) by {
                if j < u.len() {
                } else {
                    assert(r[j] == s.last());
                    assert(r[i] == u[i]);
                    if u[i] == x {
                        lemma_lex_total(s.last().nation@, x.nation@);
                    } else {
                        assert(t.contains(u[i]));
                        let l = choose|l: int| 0 <= l < t.len() && t[l] == u[i];
                        assert(lex_leq(s[l].nation@, s[s.len() - 1].nation@));
                    }
                }
            }
        }
    }
}

/// The name sort is a permutation of its input and leaves it sorted
/// ascending by normalized name.
pub proof fn lemma_sort_by_name_props(s: Seq<SheetRow>)
    ensures
        sort_by_name(s).len() == s.len(),
        sort_by_name(s).to_multiset() == s.to_multiset(),
        sorted_by_name(sort_by_name(s)),
    decreases s.len(),
{
    broadcast use vstd::seq_lib::group_to_multiset_ensures;

    if s.len() > 0 {
        let t = s.drop_last();
        lemma_sort_by_name_props(t);
        lemma_insert_by_name_props(sort_by_name(t), s.last());
        assert(t.push(s.last()) =~= s);
        assert(s.to_multiset() == t.to_multiset().insert(s.last()));
    }
}

proof fn lemma_insert_by_name_filter(s: Seq<SheetRow>, x: SheetRow, k: Seq<char>)
    ensures
        rows_with_name(insert_by_name(s, x), k) == if x.nation@ == k {
            rows_with_name(s, k).push(x)
        } else {
            rows_with_name(s, k)
        },
    decreases s.len(),
{
    let r = insert_by_name(s, x);
    if s.len() == 0 {
        assert(r == seq![x]);
        assert(r.drop_last() =~= Seq::<SheetRow>::empty());
        assert(r.last() == x);
        assert(rows_with_name(r.drop_last(), k) == Seq::<SheetRow>::empty());
        assert(rows_with_name(s, k) == Seq::<SheetRow>::empty());
    } else if lex_leq(s.last().nation@, x.nation@) {
        assert(r == s.push(x));
        assert(r.drop_last() =~= s);
        assert(r.last() == x);
        assert(rows_with_name(r, k) == if x.nation@ == k {
            rows_with_name(s, k).push(x)
        } else {
            rows_with_name(s, k)
        });
    } else {
        let t = s.drop_last();
        let u = insert_by_name(t, x);
        lemma_insert_by_name_filter(t, x, k);
        assert(r == u.push(s.last()));
        assert(r.drop_last() =~= u);
        assert(r.last() == s.last());
        assert(rows_with_name(r, k) == if s.last().nation@ == k {
            rows_with_name(u, k).push(s.last())
        } else {
            rows_with_name(u, k)
        });
        assert(rows_with_name(s, k) == if s.last().nation@ == k {
            rows_with_name(t, k).push(s.last())
        } else {
            rows_with_name(t, k)
        });
        if x.nation@ == k && s.last().nation@ == k {
            lemma_lex_refl(x.nation@);
            assert(false);
        }
    }
}

/// Stability of the name sort: for every name, the subsequence of rows
/// carrying that name is unchanged — rows with equal names keep their
/// original relative order.
pub proof fn lemma_sort_by_name_stable(s: Seq<SheetRow>, k: Seq<char>)
    ensures
        rows_with_name(sort_by_name(s), k) == rows_with_name(s, k),
    decreases s.len(),
{
    if s.len() > 0 {
        let t = s.drop_last();
        lemma_sort_by_name_stable(t, k);
        lemma_insert_by_name_filter(sort_by_name(t), s.last(), k);
    }
}

proof fn lemma_insert_by_name_sum(s: Seq<SheetRow>, x: SheetRow)
    ensures
        sum_influence(insert_by_name(s, x)) == sum_influence(s) + x.influence,
    decreases s.len(),
{
    let r = insert_by_name(s, x);
    if s.len() == 0 {
        assert(r == seq![x]);
        assert(r.drop_last() =~= Seq::<SheetRow>::empty());
        assert(r.last() == x);
        assert(sum_influence(r) == sum_influence(r.drop_last()) + r.last().influence);
        assert(sum_influence(s) == 0);
    } else if lex_leq(s.last().nation@, x.nation@) {
        assert(r == s.push(x));
        assert(r.drop_last() =~= s);
        assert(r.last() == x);
        assert(sum_influence(r) == sum_influence(r.drop_last()) + r.last().influence);
    } else {
        let t = s.drop_last();
        lemma_insert_by_name_sum(t, x);
        let u = insert_by_name(t, x);
        assert(r == u.push(s.last()));
        assert(r.drop_last() =~= u);
        assert(r.last() == s.last());
        assert(sum_influence(r) == sum_influence(r.drop_last()) + r.last().influence);
        assert(sum_influence(s) == sum_influence(t) + s.last().influence);
    }
}

/// Sorting the rows does not change the total influence.
pub proof fn lemma_sort_by_name_sum(s: Seq<SheetRow>)
    ensures
        sum_influence(sort_by_name(s)) == sum_influence(s),
    decreases s.len(),
{
    if s.len() > 0 {
        let t = s.drop_last();
        lemma_sort_by_name_sum(t);
        lemma_insert_by_name_sum(sort_by_name(t), s.last());
    }
}

proof fn lemma_insert_by_name_at(s: Seq<SheetRow>, x: SheetRow, p: int)
    requires
        0 <= p <= s.len(),
        forall|k: int| p <= k < s.len() ==> !lex_leq(#[trigger] s[k].nation@, x.nation@),
        p > 0 ==> lex_leq(s[p - 1].nation@, x.nation@),
    ensures
        insert_by_name(s, x) == s.subrange(0, p) + seq![x] + s.subrange(p, s.len() as int),
    decreases s.len(),
{
    if p == s.len() {
        if s.len() == 0 {
            assert(insert_by_name(s, x) =~= s.subrange(0, p) + seq![x] + s.subrange(
                p,
                s.len() as int,
            ));
        } else {
            assert(lex_leq(s.last().nation@, x.nation@));
            assert(s.subrange(0, p) =~= s);
            assert(s.push(x) =~= s.subrange(0, p) + seq![x] + s.subrange(p, s.len() as int));
        }
    } else {
        assert(!lex_leq(s.last().nation@, x.nation@));
        let t = s.drop_last();
        lemma_insert_by_name_at(t, x, p);
        assert(t.subrange(0, p) =~= s.subrange(0, p));
        assert(t.subrange(p, t.len() as int) =~= s.subrange(p, s.len() - 1));
        assert((s.subrange(0, p) + seq![x] + s.subrange(p, s.len() - 1)).push(s.last()) =~= s
            .subrange(0, p) + seq![x] + s.subrange(p, s.len() as int));
    }
}

fn lex_leq_exec(a: &String, b: &String) -> (r: bool)
    ensures
        r == lex_leq(a@, b@),
{
    let sa = a.as_str();
    let sb = b.as_str();
    let na = sa.unicode_len();
    let nb = sb.unicode_len();
    proof {
        assert(a@.skip(0) =~= a@);
        assert(b@.skip(0) =~= b@);
    }
    let mut i: usize = 0;
    while i < na && i < nb
        invariant
            0 <= i <= na,
            0 <= i <= nb,
            na == a@.len(),
            nb == b@.len(),
            sa@ == a@,
            sb@ == b@,
            lex_leq(a@, b@) == lex_leq(a@.skip(i as int), b@.skip(i as int)),
        decreases na - i,
    {
        let ca = sa.get_char(i);
        let cb = sb.get_char(i);
        proof {
            assert(a@.skip(i as int)[0] == a@[i as int]);
            assert(b@.skip(i as int)[0] == b@[i as int]);
        }
        if (ca as u32) < (cb as u32) {
            return true;
        }
        if (ca as u32) > (cb as u32) {
            return false;
        }
        proof {
            assert(a@.skip(i as int).drop_first() =~= a@.skip(i + 1 as int));
            assert(b@.skip(i as int).drop_first() =~= b@.skip(i + 1 as int));
        }
        i = i + 1;
    }
    proof {
        if i == na {
            assert(a@.skip(i as int).len() == 0);
        } else {
            assert(b@.skip(i as int).len() == 0);
            assert(a@.skip(i as int).len() > 0);
        }
    }
    na <= nb
}

fn insert_row(v: &mut Vec<SheetRow>, x: SheetRow)
    ensures
        final(v)@ == insert_by_name(old(v)@, x),
{
    let mut p: usize = v.len();
    while p > 0 && !lex_leq_exec(&v[p - 1].nation, &x.nation)
        invariant
            0 <= p <= v@.len(),
            v@ == old(v)@,
            forall|k: int| p <= k < v@.len() ==> !lex_leq(#[trigger] v@[k].nation@, x.nation@),
        decreases p,
    {
        p = p - 1;
    }
    proof {
        lemma_insert_by_name_at(v@, x, p as int);
        assert(old(v)@.insert(p as int, x) =~= old(v)@.subrange(0, p as int) + seq![x] + old(
            v,
        )@.subrange(p as int, old(v)@.len() as int));
    }
    v.insert(p, x);
}

/// Sorts the rows ascending by normalized name; rows with equal names
/// keep their relative order.
pub fn sort_rows(rows: Vec<SheetRow>) -> (r: Vec<SheetRow>)
    ensures
        r@ == sort_by_name(rows@),
{
    let mut rest = rows;
    let ghost orig = rest@;
    let ghost done = Seq::<SheetRow>::empty();
    let mut out: Vec<SheetRow> = Vec::new();
    while rest.len() > 0
        invariant
            orig == done + rest@,
            out@ == sort_by_name(done),
        decreases rest@.len(),
    {
        let x = rest.remove(0);
        insert_row(&mut out, x);
        proof {
            assert(done.push(x).drop_last() =~= done);
            assert(orig =~= done.push(x) + rest@);
            done = done.push(x);
        }
    }
    proof {
        assert(orig =~= done);
    }
    out
}

/// Wraps reconciled rows into the final sheet: sorts them ascending by
/// normalized name (rows with equal names keep their relative order)
/// and records the region key and the total influence.
pub fn aggregate(region: String, total_influence: i128, rows: Vec<SheetRow>) -> (r: Sheet)
    ensures
        r.region@ == region@,
        r.total_influence == total_influence,
        r.sheet_rows@ == sort_by_name(rows@),
{
    let sheet_rows = sort_rows(rows);
    Sheet { region, total_influence, sheet_rows }
}

/// Builds the reconciled sheet for a region: normalizes the target
/// region, filters the snapshot records to it, joins each retained
/// record against the rankings by normalized name, totals influence
/// over every retained record, and sorts the rows by normalized name.
/// Fails, with no partial sheet, exactly when a retained record carries
/// a membership status outside the closed enumeration.
pub fn build_sheet(nations: &Vec<Nation>, region: &String, rankings: &Vec<Ranking>) -> (r: Result<
    Sheet,
    SheetError,
>)
    requires
        forall|i: int|
            0 <= i < nations@.len() ==> #[trigger] nations@[i].endorsements_list@.len() < u64::MAX,
    ensures
        (r is Err) <==> (exists|i: int|
            0 <= i < nations@.len() && norm_spec(#[trigger] nations@[i].region@) == norm_spec(
                region@,
            ) && wa_member_spec(nations@[i].wa_status@) is None),
        r matches Err(e) ==> e == SheetError::UnrecognizedWaStatus,
        r matches Ok(sheet) ==> ({
            &&& sheet.region@ == norm_spec(region@)
            &&& sorted_by_name(sheet.sheet_rows@)
            &&& sheet.total_influence == sum_influence(sheet.sheet_rows@)
            &&& (exists|rows0: Seq<SheetRow>|
                {
                    &&& #[trigger] sort_by_name(rows0) == sheet.sheet_rows@
                    &&& rows0.len() == retained(nations@, norm_spec(region@)).len()
                    &&& (forall|i: int|
                        0 <= i < rows0.len() ==> row_matches(
                            #[trigger] rows0[i],
                            retained(nations@, norm_spec(region@))[i],
                            rankings@,
                        ))
                    &&& sheet.total_influence == sum_influence(rows0)
                })
        }),
{
    let region_key = crate::normalize(region);
    match reconcile(nations, &region_key, rankings) {
        Err(e) => Err(e),
        Ok((rows, total)) => {
            let ghost rows0 = rows@;
            proof {
                lemma_sort_by_name_props(rows0);
                lemma_sort_by_name_sum(rows0);
            }
            let sheet = aggregate(region_key, total, rows);
            Ok(sheet)
        },
    }
}

} // verus!
