use event_agent::event_log::EventLog;
use event_agent::models::QueryData;
use event_agent::ratios::{
    analyze_events, CategoryCount, Percentage, Ratio, RatioAnalysis, RatioAnalyzer,
};

fn log_of(lines: &[&str]) -> EventLog {
    let mut content = String::new();
    for line in lines {
        content.push_str(line);
        content.push('\n');
    }
    EventLog::from_content(content)
}

fn events(lines: &[&str]) -> Vec<String> {
    lines.iter().map(|line| line.to_string()).collect()
}

fn count(category: &str, count: usize, total: usize) -> CategoryCount {
    CategoryCount {
        category: category.to_string(),
        count,
        percentage: Percentage { part: count, whole: total },
    }
}

fn percent(percentage: Percentage) -> f64 {
    if percentage.whole > 0 {
        (percentage.part as f64 / percentage.whole as f64) * 100.0
    } else {
        0.0
    }
}

fn analysis_of(log: &EventLog) -> RatioAnalysis {
    match RatioAnalyzer::new(log).analyze().data {
        QueryData::Analysis(analysis) => analysis,
        other => panic!("not an analysis: {:?}", other),
    }
}

#[test]
fn test_ratio_analyzer() {
    let log = log_of(&[
        "START THEORY pandas",
        "START THEORY rust",
        "START PRACTICE python",
        "START GAME valorant",
    ]);

    let analyzer = RatioAnalyzer::new(&log);
    let result = analyzer.analyze();

    assert_eq!(result.result_type, "analysis");

    let analysis = match result.data {
        QueryData::Analysis(analysis) => analysis,
        other => panic!("not an analysis: {:?}", other),
    };
    assert_eq!(analysis.total_events, 4);

    let theory_count = analysis
        .categories
        .iter()
        .find(|c| c.category == "THEORY")
        .map(|c| c.count)
        .unwrap_or(0);
    assert_eq!(theory_count, 2);
}

#[test]
fn analysis_is_the_result_of_the_query_ratios() {
    let result = RatioAnalyzer::new(&log_of(&["START THEORY pandas"])).analyze();
    assert_eq!(result.query, "ratios");
    assert_eq!(result.result_type, "analysis");
}

#[test]
fn categories_come_by_descending_count() {
    let analysis = analyze_events(&events(&[
        "START GAME valorant",
        "START THEORY pandas",
        "START PRACTICE python",
        "START THEORY rust",
        "START PRACTICE rust",
        "START THEORY verus",
    ]));
    assert_eq!(
        analysis.categories,
        vec![count("THEORY", 3, 6), count("PRACTICE", 2, 6), count("GAME", 1, 6)]
    );
    assert_eq!(analysis.total_events, 6);
    assert_eq!(analysis.theory_to_practice, Ratio { numerator: 3, denominator: 2 });
}

#[test]
fn equal_counts_keep_the_order_of_first_mention() {
    let analysis = analyze_events(&events(&[
        "START B x",
        "START A x",
        "START C x",
        "START A x",
        "START B x",
        "START D x",
        "START C x",
    ]));
    assert_eq!(
        analysis.categories,
        vec![count("B", 2, 7), count("A", 2, 7), count("C", 2, 7), count("D", 1, 7)]
    );
}

#[test]
fn a_later_category_can_overtake() {
    let analysis = analyze_events(&events(&["x A", "x B", "x B", "x C", "x C", "x C"]));
    assert_eq!(analysis.categories, vec![count("C", 3, 6), count("B", 2, 6), count("A", 1, 6)]);
}

#[test]
fn the_verb_does_not_matter_for_counts() {
    let analysis = analyze_events(&events(&[
        "START THEORY pandas",
        "STOP THEORY",
        "note THEORY something long here",
        "single",
        "START",
        "PAUSE PRACTICE",
    ]));
    assert_eq!(analysis.categories, vec![count("THEORY", 3, 4), count("PRACTICE", 1, 4)]);
    assert_eq!(analysis.total_events, 4);
    assert_eq!(analysis.theory_to_practice, Ratio { numerator: 3, denominator: 1 });
}

#[test]
fn empty_log_has_no_categories_and_ratio_zero_to_one() {
    let analysis = analysis_of(&EventLog::new());
    assert!(analysis.categories.is_empty());
    assert_eq!(analysis.total_events, 0);
    assert_eq!(analysis.theory_to_practice, Ratio { numerator: 0, denominator: 1 });
}

#[test]
fn lines_with_one_token_are_not_counted() {
    let analysis = analyze_events(&events(&["START", "alone", "  x  "]));
    assert!(analysis.categories.is_empty());
    assert_eq!(analysis.total_events, 0);
}

#[test]
fn missing_practice_counts_as_one() {
    let analysis = analyze_events(&events(&["START THEORY a", "START THEORY b", "START GAME c"]));
    assert_eq!(analysis.theory_to_practice, Ratio { numerator: 2, denominator: 1 });
}

#[test]
fn missing_theory_counts_as_zero() {
    let analysis = analyze_events(&events(&["START PRACTICE a", "START PRACTICE b"]));
    assert_eq!(analysis.theory_to_practice, Ratio { numerator: 0, denominator: 2 });
}

#[test]
fn category_names_are_compared_exactly() {
    let analysis = analyze_events(&events(&["START theory a", "START THEORY b", "START Theory c"]));
    assert_eq!(analysis.categories.len(), 3);
    assert_eq!(analysis.theory_to_practice, Ratio { numerator: 1, denominator: 1 });
}

#[test]
fn total_is_the_sum_of_the_counts() {
    let logs: [&[&str]; 4] = [
        &[],
        &["a"],
        &["a b", "c d", "e b", "lonely", "x d y z"],
        &["START THEORY pandas", "START THEORY rust", "START PRACTICE python", "", "START GAME v"],
    ];
    for lines in logs {
        let analysis = analyze_events(&events(lines));
        let sum: usize = analysis.categories.iter().map(|c| c.count).sum();
        assert_eq!(analysis.total_events, sum);
    }
}

#[test]
fn percentages_add_up_to_one_hundred() {
    let analysis = analyze_events(&events(&[
        "START THEORY pandas",
        "START THEORY rust",
        "START PRACTICE python",
        "START GAME valorant",
        "START GAME chess",
        "START THEORY verus",
        "START REST nap",
    ]));
    let sum: f64 = analysis.categories.iter().map(|c| percent(c.percentage)).sum();
    assert!((sum - 100.0).abs() < 1e-9);
    let parts: usize = analysis.categories.iter().map(|c| c.percentage.part).sum();
    assert_eq!(parts, analysis.total_events);
    for c in &analysis.categories {
        assert_eq!(c.percentage.whole, analysis.total_events);
        assert_eq!(c.percentage.part, c.count);
    }
    assert_eq!(analysis.categories[0], count("THEORY", 3, 7));
    assert!((percent(analysis.categories[0].percentage) - 42.857142857142854).abs() < 1e-12);
}

#[test]
fn percentages_of_the_four_event_log() {
    let analysis = analyze_events(&events(&[
        "START THEORY pandas",
        "START THEORY rust",
        "START PRACTICE python",
        "START GAME valorant",
    ]));
    let percents: Vec<f64> = analysis.categories.iter().map(|c| percent(c.percentage)).collect();
    assert_eq!(percents, vec![50.0, 25.0, 25.0]);
    assert_eq!(
        analysis.theory_to_practice.numerator as f64
            / analysis.theory_to_practice.denominator as f64,
        2.0
    );
}

#[test]
fn each_category_is_listed_once_with_its_count() {
    let lines = events(&["v A", "v B", "v A", "v C", "v B", "v A", "v D", "w", "v C"]);
    let analysis = analyze_events(&lines);
    for (i, a) in analysis.categories.iter().enumerate() {
        for b in &analysis.categories[i + 1..] {
            assert!(a.category != b.category);
            assert!(a.count >= b.count);
        }
        let occurrences = lines
            .iter()
            .filter(|line| line.split_whitespace().nth(1) == Some(a.category.as_str()))
            .count();
        assert_eq!(a.count, occurrences);
    }
    assert_eq!(analysis.categories.len(), 4);
}

#[test]
fn analysis_is_derived_the_same_way_each_time() {
    let log = log_of(&["START B x", "START A x", "START A y", "START B y", "START C z"]);
    let analyzer = RatioAnalyzer::new(&log);
    assert_eq!(analyzer.analyze(), analyzer.analyze());
    assert_eq!(RatioAnalyzer::new(&log).analyze(), analyzer.analyze());
}

#[test]
fn analyzer_reads_the_log_as_it_was_when_made() {
    let mut log = log_of(&["START THEORY a"]);
    let analyzer = RatioAnalyzer::new(&log);
    log.append("START PRACTICE b");
    assert_eq!(analysis_of(&log).total_events, 2);
    match analyzer.analyze().data {
        QueryData::Analysis(analysis) => assert_eq!(analysis.total_events, 1),
        other => panic!("not an analysis: {:?}", other),
    }
}
