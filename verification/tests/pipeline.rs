use yeetseeker::api::{collect_pages, sort_rankings, Paginator, Ranking};
use yeetseeker::archiveparse::Nation;
use yeetseeker::normalize;
use yeetseeker::sheetbuilder::{
    aggregate, build_sheet, endorsement_count, reconcile, sort_rows, wa_member, SheetError,
    SheetRow, NO_RESIDENCY,
};
use yeetseeker::SCORE_SCALE;

fn fixed(x: f64) -> i64 {
    (x * SCORE_SCALE as f64).round() as i64
}

fn ranking(nation: &str, rank: u64, score: i64) -> Ranking {
    Ranking { nation: nation.to_string(), rank, score }
}

fn nation(name: &str, wa_status: &str, endorsements: &str, region: &str, influence: i64) -> Nation {
    Nation {
        name: name.to_string(),
        wa_status: wa_status.to_string(),
        endorsements_list: endorsements.to_string(),
        region: region.to_string(),
        influence,
        last_login: 0,
    }
}

fn row(nation: &str, influence: i64, residency: i64, last_login: u64) -> SheetRow {
    SheetRow {
        nation: nation.to_string(),
        influence,
        endorsement_count: 0,
        wa_member: true,
        residency,
        last_login,
    }
}

#[test]
fn normalize_exact() {
    assert_eq!(normalize(&" Foo  Bar ".to_string()), "foo__bar");
}

#[test]
fn normalize_trims_lowers_and_underscores() {
    assert_eq!(normalize(&"Testlandia".to_string()), "testlandia");
    assert_eq!(normalize(&"The North Pacific".to_string()), "the_north_pacific");
    assert_eq!(normalize(&"\t Mixed CASE name \n".to_string()), "mixed_case_name");
    assert_eq!(normalize(&"".to_string()), "");
    assert_eq!(normalize(&"   ".to_string()), "");
    assert_eq!(normalize(&"already_normal".to_string()), "already_normal");
}

#[test]
fn normalize_handles_unicode() {
    // Lowercasing is Unicode-wide, not only ASCII.
    assert_eq!(normalize(&"ÉTUDE Café".to_string()), "étude_café");
    assert_eq!(normalize(&"ÅLAND".to_string()), "åland");
    // Trimming strips the whole Unicode White_Space table.
    assert_eq!(normalize(&"\u{00A0}Nation Name\u{2003}".to_string()), "nation_name");
    assert_eq!(normalize(&"\u{3000}\u{2028}Padded\u{205F}".to_string()), "padded");
    // Interior non-ASCII whitespace is kept (only ' ' becomes '_').
    assert_eq!(normalize(&"a\u{00A0}b".to_string()), "a\u{00A0}b");
}

#[test]
fn normalize_idempotent_samples() {
    let samples = [
        "",
        " Foo  Bar ",
        "ABC def",
        "  x  ",
        "a\tb",
        "many   spaces",
        "_underscore_ kept ",
        " Grüß GOTT ",
        "\u{00A0}ÉCLAIR au Café\u{2009}",
    ];
    for s in samples {
        let once = normalize(&s.to_string());
        let twice = normalize(&once);
        assert_eq!(twice, once);
    }
}

#[test]
fn endorsement_counts() {
    assert_eq!(endorsement_count(&"".to_string()), 0);
    assert_eq!(endorsement_count(&"a".to_string()), 1);
    assert_eq!(endorsement_count(&"a,b".to_string()), 2);
    assert_eq!(endorsement_count(&"a,b,c".to_string()), 3);
}

#[test]
fn wa_member_closed_enumeration() {
    assert_eq!(wa_member(&"Non-member".to_string()), Some(false));
    assert_eq!(wa_member(&"WA Member".to_string()), Some(true));
    assert_eq!(wa_member(&"WA Delegate".to_string()), Some(true));
    assert_eq!(wa_member(&"Chairdolphin".to_string()), None);
    assert_eq!(wa_member(&"wa member".to_string()), None);
}

#[test]
fn pagination_stops_on_stagnation() {
    // Max ranks 2, 3, then 3 again: the stagnant page is absorbed and the
    // fourth page is never consulted.
    let pages = vec![
        Some(vec![ranking("a", 1, 10), ranking("b", 2, 20)]),
        Some(vec![ranking("c", 3, 30)]),
        Some(vec![ranking("c", 3, 30)]),
        Some(vec![ranking("d", 9, 90)]),
    ];
    let got = collect_pages(pages);
    let names: Vec<&str> = got.iter().map(|r| r.nation.as_str()).collect();
    assert_eq!(names, vec!["a", "b", "c", "c"]);
}

#[test]
fn pagination_stops_on_failure() {
    // The third fetch fails: the result is the entries of pages one and
    // two only, and no error is raised.
    let pages = vec![
        Some(vec![ranking("a", 1, 40), ranking("b", 2, 35)]),
        Some(vec![ranking("c", 3, 15), ranking("d", 4, 25)]),
        None,
        Some(vec![ranking("e", 5, 50)]),
    ];
    let got = collect_pages(pages);
    let names: Vec<&str> = got.iter().map(|r| r.nation.as_str()).collect();
    // Sorted ascending by score: c (15), d (25), b (35), a (40).
    assert_eq!(names, vec!["c", "d", "b", "a"]);
}

#[test]
fn pagination_empty_feed() {
    let got = collect_pages(vec![Some(vec![])]);
    assert_eq!(got.len(), 0);
    let got = collect_pages(vec![None]);
    assert_eq!(got.len(), 0);
    let got = collect_pages(Vec::new());
    assert_eq!(got.len(), 0);
}

#[test]
fn paginator_requests_one_past_highest() {
    let mut pager = Paginator::new();
    assert_eq!(pager.next_start(), 1);
    let cont = pager.absorb_page(vec![ranking("a", 1, 10), ranking("b", 7, 20)]);
    assert!(cont);
    assert_eq!(pager.next_start(), 8);
    let cont = pager.absorb_page(vec![ranking("c", 5, 30)]);
    assert!(!cont);
    let entries = pager.finish();
    assert_eq!(entries.len(), 3);
}

#[test]
fn ranking_sort_is_stable() {
    let entries = vec![ranking("a", 1, 5), ranking("b", 2, 5), ranking("c", 3, 1)];
    let sorted = sort_rankings(entries);
    let names: Vec<&str> = sorted.iter().map(|r| r.nation.as_str()).collect();
    assert_eq!(names, vec!["c", "a", "b"]);
}

#[test]
fn region_filter_retains_exactly_matching_records() {
    let nations = vec![
        nation("Alpha", "WA Member", "", " Target REGION ", 1),
        nation("Beta", "Non-member", "", "Elsewhere", 2),
        nation("Gamma", "WA Delegate", "", "target_region", 3),
    ];
    let key = normalize(&"Target Region".to_string());
    let (rows, _) = reconcile(&nations, &key, &Vec::new()).unwrap();
    let names: Vec<&str> = rows.iter().map(|r| r.nation.as_str()).collect();
    assert_eq!(names, vec!["alpha", "gamma"]);
}

#[test]
fn residency_sentinel_for_unmatched_names() {
    let nations = vec![nation("Alpha", "WA Member", "", "R", 1)];
    let rankings = vec![ranking("Someone Else", 1, fixed(9.9))];
    let key = normalize(&"R".to_string());
    let (rows, _) = reconcile(&nations, &key, &rankings).unwrap();
    assert_eq!(rows[0].residency, NO_RESIDENCY);
    assert_eq!(rows[0].residency, fixed(-1.0));
}

#[test]
fn residency_first_match_wins() {
    let nations = vec![nation("Alpha", "WA Member", "", "R", 1)];
    let rankings = vec![
        ranking("nomatch", 1, fixed(1.0)),
        ranking(" ALPHA ", 2, fixed(2.5)),
        ranking("alpha", 3, fixed(7.5)),
    ];
    let key = normalize(&"R".to_string());
    let (rows, _) = reconcile(&nations, &key, &rankings).unwrap();
    assert_eq!(rows[0].residency, fixed(2.5));
}

#[test]
fn total_influence_counts_every_retained_record() {
    // One row matches a ranking, one does not: the total is the sum over
    // both regardless.
    let nations = vec![
        nation("Alpha", "WA Member", "", "R", fixed(10.0)),
        nation("Beta", "Non-member", "", "R", fixed(5.0)),
        nation("Gamma", "WA Member", "", "Other", fixed(100.0)),
    ];
    let rankings = vec![ranking("Alpha", 1, fixed(3.3))];
    let key = normalize(&"R".to_string());
    let (rows, total) = reconcile(&nations, &key, &rankings).unwrap();
    assert_eq!(rows.len(), 2);
    assert_eq!(total, fixed(15.0) as i128);
}

#[test]
fn unrecognized_status_aborts_reconciliation() {
    let nations = vec![
        nation("Alpha", "WA Member", "", "R", 1),
        nation("Beta", "WA Chairbeing", "", "R", 2),
    ];
    let key = normalize(&"R".to_string());
    let err = reconcile(&nations, &key, &Vec::new()).unwrap_err();
    assert_eq!(err, SheetError::UnrecognizedWaStatus);
}

#[test]
fn unrecognized_status_outside_region_is_ignored() {
    let nations = vec![
        nation("Alpha", "WA Member", "", "R", 1),
        nation("Beta", "WA Chairbeing", "", "Elsewhere", 2),
    ];
    let key = normalize(&"R".to_string());
    let (rows, _) = reconcile(&nations, &key, &Vec::new()).unwrap();
    assert_eq!(rows.len(), 1);
}

#[test]
fn rows_sort_ascending_and_stable() {
    let rows = vec![
        row("borea", 1, 0, 11),
        row("aland", 2, 0, 22),
        row("aland", 3, 0, 33),
        row("aaa", 4, 0, 44),
    ];
    let sorted = sort_rows(rows);
    let keys: Vec<(&str, u64)> =
        sorted.iter().map(|r| (r.nation.as_str(), r.last_login)).collect();
    // Equal keys keep their original relative order.
    assert_eq!(keys, vec![("aaa", 44), ("aland", 22), ("aland", 33), ("borea", 11)]);
}

#[test]
fn aggregate_wraps_region_and_total() {
    let sheet = aggregate("test_region".to_string(), 42, vec![row("b", 1, 0, 0), row("a", 2, 0, 0)]);
    assert_eq!(sheet.region, "test_region");
    assert_eq!(sheet.total_influence, 42);
    let names: Vec<&str> = sheet.sheet_rows.iter().map(|r| r.nation.as_str()).collect();
    assert_eq!(names, vec!["a", "b"]);
}

#[test]
fn end_to_end_three_records() {
    // Snapshot: three records, two in the target region (influence 10.0
    // and 5.0), one elsewhere. Rankings: one matching name (score 3.3)
    // and one non-matching. Expected: two rows ordered by normalized
    // name, residency 3.3 and the sentinel, total influence 15.0.
    let nations = vec![
        nation("Zeta Prime", "WA Member", "a,b", "The Region", fixed(10.0)),
        nation("Arcadia", "Non-member", "", "the region", fixed(5.0)),
        nation("Outsider", "WA Member", "", "Somewhere Else", fixed(77.0)),
    ];
    let rankings = vec![
        ranking("ZETA prime", 1, fixed(3.3)),
        ranking("Unrelated", 2, fixed(8.8)),
    ];
    let sheet = build_sheet(&nations, &"The Region".to_string(), &rankings).unwrap();
    assert_eq!(sheet.region, "the_region");
    assert_eq!(sheet.total_influence, fixed(15.0) as i128);
    assert_eq!(sheet.sheet_rows.len(), 2);
    let first = &sheet.sheet_rows[0];
    let second = &sheet.sheet_rows[1];
    assert_eq!(first.nation, "arcadia");
    assert_eq!(first.residency, NO_RESIDENCY);
    assert_eq!(first.influence, fixed(5.0));
    assert_eq!(first.endorsement_count, 0);
    assert!(!first.wa_member);
    assert_eq!(second.nation, "zeta_prime");
    assert_eq!(second.residency, fixed(3.3));
    assert_eq!(second.influence, fixed(10.0));
    assert_eq!(second.endorsement_count, 2);
    assert!(second.wa_member);
}

#[test]
fn build_sheet_propagates_data_integrity_fault() {
    let nations = vec![nation("Alpha", "observer", "", "R", 1)];
    let err = build_sheet(&nations, &"R".to_string(), &Vec::new()).unwrap_err();
    assert_eq!(err, SheetError::UnrecognizedWaStatus);
}
