use kill_report::aggregate::{aggregate_rows, new_aggregate};
use kill_report::csv_input::aggregate_file;
use kill_report::merge::merge;
use kill_report::report::{calculate_top10, create_output_json, REPORT_ID};
use kill_report::PipelineError;

fn rows(data: &[&[&str]]) -> Vec<Vec<String>> {
    data.iter().map(|r| r.iter().map(|s| s.to_string()).collect()).collect()
}

fn simple_row<'a>(weapon: &'a str, killer: &'a str) -> Vec<&'a str> {
    vec![weapon, killer]
}

#[test]
fn merge_is_commutative_in_the_rankings() {
    let a = aggregate_rows(&rows(&[&["Knife", "Alice"], &["Gun", "Bob"]])).unwrap();
    let b = aggregate_rows(&rows(&[&["Gun", "Alice"], &["Gun", "Bob"], &["Axe", "Cid"]])).unwrap();
    let a2 = aggregate_rows(&rows(&[&["Knife", "Alice"], &["Gun", "Bob"]])).unwrap();
    let b2 = aggregate_rows(&rows(&[&["Gun", "Alice"], &["Gun", "Bob"], &["Axe", "Cid"]])).unwrap();
    let ab = merge(a, b);
    let ba = merge(b2, a2);
    assert_eq!(ab.record_count, 5);
    assert_eq!(ba.record_count, 5);
    assert_eq!(calculate_top10(&ab), calculate_top10(&ba));
}

#[test]
fn merge_is_associative_in_the_rankings() {
    let mk = || {
        (
            aggregate_rows(&rows(&[&["Knife", "Alice"], &["Gun", "Bob"]])).unwrap(),
            aggregate_rows(&rows(&[&["Gun", "Alice"]])).unwrap(),
            aggregate_rows(&rows(&[&["Axe", "Cid"], &["Knife", "Alice"]])).unwrap(),
        )
    };
    let (a, b, c) = mk();
    let left = merge(merge(a, b), c);
    let (a, b, c) = mk();
    let right = merge(a, merge(b, c));
    assert_eq!(left.record_count, right.record_count);
    assert_eq!(calculate_top10(&left), calculate_top10(&right));
}

#[test]
fn merge_with_empty_changes_nothing() {
    let a = aggregate_rows(&rows(&[&["Knife", "Alice"], &["Gun", "Bob"]])).unwrap();
    let a2 = aggregate_rows(&rows(&[&["Knife", "Alice"], &["Gun", "Bob"]])).unwrap();
    let m = merge(new_aggregate(), a);
    assert_eq!(m.record_count, 2);
    assert_eq!(calculate_top10(&m), calculate_top10(&a2));
}

#[test]
fn ranking_twice_is_identical() {
    let g = aggregate_rows(&rows(&[
        &["Knife", "Alice"],
        &["Gun", "Alice"],
        &["Gun", "Bob"],
        &["Axe", "Bob"],
        &["Axe", "Cid"],
    ]))
    .unwrap();
    let r1 = calculate_top10(&g);
    let r2 = calculate_top10(&g);
    assert_eq!(r1, r2);
}

#[test]
fn equal_counts_break_ties_by_name() {
    let g = aggregate_rows(&rows(&[&simple_row("Bat", "Zoe"), &simple_row("Axe", "Amy")]))
        .unwrap();
    let top = calculate_top10(&g);
    assert_eq!(top.weapons.len(), 2);
    assert_eq!(top.weapons[0].name, "Axe");
    assert_eq!(top.weapons[1].name, "Bat");
    assert_eq!(top.killers[0].name, "Amy");
    assert_eq!(top.killers[1].name, "Zoe");
}

#[test]
fn only_ten_entries_are_reported() {
    let names: Vec<String> = (0..13).map(|i| format!("w{:02}", i)).collect();
    let data: Vec<Vec<String>> =
        names.iter().map(|n| vec![n.clone(), "Alice".to_string()]).collect();
    let g = aggregate_rows(&data).unwrap();
    let top = calculate_top10(&g);
    assert_eq!(top.weapons.len(), 10);
    assert_eq!(top.killers.len(), 1);
    // all counts equal: the ten lexicographically smallest names stay
    assert_eq!(top.weapons[0].name, "w00");
    assert_eq!(top.weapons[9].name, "w09");
}

#[test]
fn percentage_bounds_hold() {
    let g = aggregate_rows(&rows(&[
        &["Knife", "Alice"],
        &["Knife", "Alice"],
        &["Gun", "Bob"],
    ]))
    .unwrap();
    assert_eq!(g.record_count, 3);
    let total: u64 = g.weapons.iter().map(|w| w.amount_deaths).sum();
    assert_eq!(total, g.record_count);
    let top = calculate_top10(&g);
    for w in &top.weapons {
        assert!(w.deaths_percentage_hundredths <= 10000);
    }
    // 2/3 and 1/3, rounded to two decimals
    assert_eq!(top.weapons[0].name, "Knife");
    assert_eq!(top.weapons[0].deaths_percentage_hundredths, 6667);
    assert_eq!(top.weapons[1].deaths_percentage_hundredths, 3333);
}

#[test]
fn three_weapons_at_most_per_killer() {
    let g = aggregate_rows(&rows(&[
        &["Knife", "Alice"],
        &["Gun", "Alice"],
        &["Axe", "Alice"],
        &["Bat", "Alice"],
    ]))
    .unwrap();
    let top = calculate_top10(&g);
    assert_eq!(top.killers.len(), 1);
    let weapons = &top.killers[0].weapons;
    assert_eq!(weapons.len(), 3);
    // equal counts: lexicographically smallest three
    assert_eq!(weapons[0].0, "Axe");
    assert_eq!(weapons[1].0, "Bat");
    assert_eq!(weapons[2].0, "Gun");
    assert_eq!(weapons[0].1, 2500);
}

#[test]
fn end_to_end_two_files() {
    // file A: three Knife kills by Alice without coordinates
    let file_a = b"weapon,killer,c2,kx,ky,c5,c6,c7,c8,c9,vx,vy\n\
Knife,Alice,,,,,,,,,,\n\
Knife,Alice,,,,,,,,,,\n\
Knife,Alice,,,,,,,,,,\n"
        .to_vec();
    // file B: two Gun kills by Alice at distance 10.00 each
    let file_b = b"weapon,killer,c2,kx,ky,c5,c6,c7,c8,c9,vx,vy\n\
Gun,Alice,,0,0,,,,,,6,8\n\
Gun,Alice,,0,0,,,,,,6,8\n"
        .to_vec();
    let pa = aggregate_file(&file_a).unwrap();
    let pb = aggregate_file(&file_b).unwrap();
    assert_eq!(pa.record_count, 3);
    assert_eq!(pb.record_count, 2);
    let g = merge(pa, pb);
    assert_eq!(g.record_count, 5);
    let top = calculate_top10(&g);

    assert_eq!(top.weapons.len(), 2);
    assert_eq!(top.weapons[0].name, "Knife");
    assert_eq!(top.weapons[0].amount_deaths, 3);
    assert_eq!(top.weapons[0].average_distance_hundredths, 0);
    assert_eq!(top.weapons[0].deaths_percentage_hundredths, 6000);
    assert_eq!(top.weapons[1].name, "Gun");
    assert_eq!(top.weapons[1].amount_deaths, 2);
    assert_eq!(top.weapons[1].average_distance_hundredths, 1000);
    assert_eq!(top.weapons[1].deaths_percentage_hundredths, 4000);

    assert_eq!(top.killers.len(), 1);
    assert_eq!(top.killers[0].name, "Alice");
    assert_eq!(top.killers[0].deaths, 5);
    assert_eq!(
        top.killers[0].weapons,
        vec![("Knife".to_string(), 6000), ("Gun".to_string(), 4000)]
    );

    let out = create_output_json(&top.weapons, &top.killers);
    assert_eq!(out.padron, REPORT_ID);
    assert_eq!(out.top_weapons.len(), 2);
    assert_eq!(out.top_weapons[0].0, "Knife");
    assert_eq!(out.top_weapons[0].1.deaths_percentage_hundredths, 6000);
    assert_eq!(out.top_weapons[1].1.average_distance_hundredths, 1000);
    assert_eq!(out.top_killers[0].0, "Alice");
    assert_eq!(out.top_killers[0].1.deaths, 5);
}

#[test]
fn header_row_is_skipped() {
    let bytes = b"weapon,killer\nKnife,Alice\n".to_vec();
    let g = aggregate_file(&bytes).unwrap();
    assert_eq!(g.record_count, 1);
    assert_eq!(g.weapons.len(), 1);
    assert_eq!(g.weapons[0].name, "Knife");
}

#[test]
fn ragged_csv_is_parse_error() {
    let bytes = b"weapon,killer\nKnife,Alice,extra\n".to_vec();
    assert_eq!(aggregate_file(&bytes), Err(PipelineError::Parse));
}

#[test]
fn missing_required_field_is_parse_error() {
    let bytes = b"weapon\nKnife\n".to_vec();
    assert_eq!(aggregate_file(&bytes), Err(PipelineError::Parse));
}

#[test]
fn aggregate_rows_rejects_short_rows() {
    let r = aggregate_rows(&rows(&[&["Knife", "Alice"], &["Gun"]]));
    assert_eq!(r, Err(PipelineError::Parse));
}

#[test]
fn distances_accumulate_per_weapon() {
    // one kill at distance 5.00, one with an unknown coordinate (0.00)
    let bytes = b"weapon,killer,c2,kx,ky,c5,c6,c7,c8,c9,vx,vy\n\
Gun,Bob,,0,0,,,,,,3,4\n\
Gun,Bob,,0,,,,,,,3,4\n"
        .to_vec();
    let g = aggregate_file(&bytes).unwrap();
    let top = calculate_top10(&g);
    // (5.00 + 0.00) / 2 = 2.50
    assert_eq!(top.weapons[0].average_distance_hundredths, 250);
}
