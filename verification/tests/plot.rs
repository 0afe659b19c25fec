use keel::bench::plot::{
    hundredths, round_up, thousands, throughput_vs_latency, PlotError, Point, Series,
};

fn curve(name: &str) -> Series {
    Series {
        name: name.into(),
        points: (1..=6)
            .map(|i| Point {
                throughput: i * 10_000,
                latency_ns: i * i * 400_000,
            })
            .collect(),
    }
}

#[test]
fn the_same_data_renders_the_same_bytes() {
    let a = throughput_vs_latency("t", "c", &[curve("3 nodes")]).unwrap();
    let b = throughput_vs_latency("t", "c", &[curve("3 nodes")]).unwrap();
    assert_eq!(a, b);
}

/// And the order the points were recorded in is not part of the data.
#[test]
fn a_series_recorded_out_of_order_draws_the_same_picture() {
    let ordered = curve("s");
    let mut shuffled = ordered.clone();
    shuffled.points.reverse();
    assert_eq!(
        throughput_vs_latency("t", "c", &[ordered]).unwrap(),
        throughput_vs_latency("t", "c", &[shuffled]).unwrap()
    );
}

#[test]
fn a_single_point_is_refused_because_it_is_not_a_curve() {
    let single = Series {
        name: "one".into(),
        points: vec![Point {
            throughput: 1,
            latency_ns: 1,
        }],
    };
    assert_eq!(
        throughput_vs_latency("t", "c", &[single]),
        Err(PlotError::NotACurve("one".into(), 1))
    );
    assert_eq!(throughput_vs_latency("t", "c", &[]), Err(PlotError::Empty));
}

/// The caption carries the tier, and a picture travels further than the
/// file it came from.
#[test]
fn the_caption_is_rendered_into_the_image() {
    let svg = throughput_vs_latency(
        "Throughput versus p99",
        "Exploratory tier, Apple M2 Pro, macOS, F_FULLFSYNC",
        &[curve("3 nodes")],
    )
    .unwrap();
    assert!(svg.contains("Exploratory tier"), "{svg}");
    assert!(svg.starts_with("<svg"));
    assert!(svg.trim_end().ends_with("</svg>"));
}

#[test]
fn markup_in_a_series_name_is_escaped() {
    let mut s = curve("a<b&c");
    s.name = "a<b&c".into();
    let svg = throughput_vs_latency("t", "c", &[s]).unwrap();
    assert!(svg.contains("a&lt;b&amp;c"), "{svg}");
    assert!(!svg.contains("a<b&c"));
}

#[test]
fn axes_end_on_round_numbers() {
    assert_eq!(round_up(0), 1);
    assert_eq!(round_up(1), 1);
    assert_eq!(round_up(3), 5);
    assert_eq!(round_up(11), 20);
    assert_eq!(round_up(60_000), 100_000);
    assert_eq!(round_up(150_000), 200_000);
}

#[test]
fn an_axis_ends_on_the_least_round_number_that_holds_the_data() {
    let round: Vec<u64> = (0..=18)
        .flat_map(|k| [1, 2, 5].map(|d| d * 10u64.pow(k)))
        .chain([10_000_000_000_000_000_000])
        .collect();
    for value in round.iter().flat_map(|n| [n - 1, *n, n.saturating_add(1).min(round[57])]) {
        let least = round.iter().copied().find(|n| *n >= value.max(1)).unwrap();
        assert_eq!(round_up(value), least, "{value}");
    }
}

/// Formatting never varies by locale or by how a float happened to print.
#[test]
fn numbers_are_formatted_by_integer_arithmetic() {
    assert_eq!(hundredths(100), "1.00");
    assert_eq!(hundredths(101), "1.01");
    assert_eq!(thousands(1), "1");
    assert_eq!(thousands(1234567), "1 234 567");
}

#[test]
fn a_refusal_to_draw_says_why() {
    assert_eq!(
        PlotError::NotACurve("one".into(), 1).message(),
        "series \"one\" has 1 point(s); a curve needs at least two"
    );
    assert_eq!(PlotError::Empty.message(), "nothing to plot");
    assert_eq!(thousands(0), "0");
    assert_eq!(thousands(1_000), "1 000");
    assert_eq!(hundredths(7), "0.07");
}
