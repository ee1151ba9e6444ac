use eqmapper::map::{
    parse_eqmap_label, parse_eqmap_line, split_fields, EqMap, MapLabel, MapLayer, MapLine,
    RowError,
};

fn channel(v: u8) -> f32 {
    f32::from(v) / 255.
}

fn coord(s: &str) -> f64 {
    s.parse::<f64>().unwrap()
}

#[test]
fn test_parse_eqmap_label() {
    let label = parse_eqmap_label(
        "5531.2642, -168.7061, -299.5485,  128, 255, 0,  2,  Gargoyle_Island",
    )
    .unwrap();
    assert_eq!(
        label,
        MapLabel {
            x: "5531.2642".to_owned(),
            y: "-168.7061".to_owned(),
            z: "-299.5485".to_owned(),
            r: 128,
            g: 255,
            b: 0,
            size: 2,
            text: "Gargoyle_Island".to_owned(),
        }
    );
    assert_eq!(coord(&label.x), 5531.2642);
    assert_eq!(coord(&label.y), -168.7061);
    assert_eq!(coord(&label.z), -299.5485);
    assert_eq!(channel(label.r), 0.5019607843137255);
    assert_eq!(channel(label.g), 1.);
    assert_eq!(channel(label.b), 0.);

    // label can contain commas
    let label = parse_eqmap_label(
        "-3710.0198, -1594.5485, -192.5240,  128, 255, 0,  2,  Gull_Skytalon_(Named,Roam)",
    )
    .unwrap();
    assert_eq!(coord(&label.x), -3710.0198);
    assert_eq!(coord(&label.y), -1594.5485);
    assert_eq!(coord(&label.z), -192.5240);
    assert_eq!(channel(label.r), 0.5019607843137255);
    assert_eq!(channel(label.g), 1.);
    assert_eq!(channel(label.b), 0.);
    assert_eq!(label.size, 2);
    assert_eq!(label.text, "Gull_Skytalon_(Named,Roam)");
}

#[test]
fn test_parse_eqmap_line() {
    let line = parse_eqmap_line("2881.0, -2022.0, -295.0, 2885.0, -2027.0, -295.0, 128, 255, 0")
        .unwrap();
    assert_eq!(
        line,
        MapLine {
            x1: "2881.0".to_owned(),
            y1: "-2022.0".to_owned(),
            z1: "-295.0".to_owned(),
            x2: "2885.0".to_owned(),
            y2: "-2027.0".to_owned(),
            z2: "-295.0".to_owned(),
            r: 128,
            g: 255,
            b: 0,
        }
    );
    assert_eq!(coord(&line.x1), 2881.0);
    assert_eq!(coord(&line.y1), -2022.0);
    assert_eq!(coord(&line.z1), -295.0);
    assert_eq!(coord(&line.x2), 2885.0);
    assert_eq!(coord(&line.y2), -2027.0);
    assert_eq!(coord(&line.z2), -295.0);
    assert_eq!(channel(line.r), 0.5019607843137255);
    assert_eq!(channel(line.g), 1.0);
    assert_eq!(channel(line.b), 0.0);
}

#[test]
fn label_row_through_layer() {
    let mut layer = MapLayer::default();
    let r = layer.parse_row("P 5531.2642, -168.7061, -299.5485,  128, 255, 0,  2,  Gargoyle_Island");
    assert_eq!(r, None);
    assert_eq!(layer.labels.len(), 1);
    assert_eq!(layer.lines.len(), 0);
    assert_eq!(layer.labels[0].text, "Gargoyle_Island");
}

#[test]
fn line_row_through_layer() {
    let mut layer = MapLayer::default();
    let r = layer.parse_row("L 2881.0, -2022.0, -295.0, 2885.0, -2027.0, -295.0, 128, 255, 0");
    assert_eq!(r, None);
    assert_eq!(layer.labels.len(), 0);
    assert_eq!(layer.lines.len(), 1);
    assert_eq!(layer.lines[0].x2, "2885.0");
}

#[test]
fn color_round_trips_through_normalization() {
    for v in [0u8, 1, 17, 128, 254, 255] {
        let row = format!("1.0, 2.0, 3.0, {}, {}, {}, 7, name", v, 255 - v, v / 2);
        let label = parse_eqmap_label(&row).unwrap();
        assert_eq!(label.r, v);
        assert_eq!(label.g, 255 - v);
        assert_eq!(label.b, v / 2);
        assert_eq!(channel(label.r), f32::from(v) / 255.0);
        let again = format!(
            "{}, {}, {}, {}, {}, {}, {}, {}",
            label.x, label.y, label.z, label.r, label.g, label.b, label.size, label.text
        );
        assert_eq!(parse_eqmap_label(&again).unwrap(), label);
    }
}

#[test]
fn malformed_label_rows_are_skipped() {
    let bad = [
        "P 1.0, 2.0, 3.0, 1, 2, 3, 4",
        "P 1.0, 2.0, x, 1, 2, 3, 4, name",
        "P 1.0, 2.0, 3.0, 256, 2, 3, 4, name",
        "P 1.0, 2.0, 3.0, 1, 2, 3, -1, name",
        "P 1.0, 2.0, 3.0, 1, 2, 3, 4.5, name",
    ];
    for row in bad {
        let mut layer = MapLayer::default();
        assert_eq!(layer.parse_row(row), Some(RowError::InvalidLabel));
        assert!(layer.labels.is_empty());
        assert!(layer.lines.is_empty());
    }
}

#[test]
fn malformed_line_rows_are_skipped() {
    let bad = [
        "L 1.0, 2.0, 3.0, 4.0, 5.0, 6.0, 1, 2",
        "L 1.0, 2.0, 3.0, 4.0, 5.0, 6.0, 1, 2, 3, 4",
        "L 1.0, 2.0, 3.0, 4.0, five, 6.0, 1, 2, 3",
        "L 1.0, 2.0, 3.0, 4.0, 5.0, 6.0, 1, 2, 300",
    ];
    for row in bad {
        let mut layer = MapLayer::default();
        assert_eq!(layer.parse_row(row), Some(RowError::InvalidLine));
        assert!(layer.labels.is_empty());
        assert!(layer.lines.is_empty());
    }
}

#[test]
fn unhandled_rows_are_skipped() {
    for row in ["", "P", "L", "X 1, 2", "P,1.0", "p 1.0, 2.0, 3.0, 1, 2, 3, 4, a"] {
        let mut layer = MapLayer::default();
        assert_eq!(layer.parse_row(row), Some(RowError::Unhandled));
        assert!(layer.labels.is_empty());
        assert!(layer.lines.is_empty());
    }
}

#[test]
fn split_stops_after_limit() {
    assert_eq!(split_fields("a,b,c", ',', 2), vec!["a".to_owned(), "b,c".to_owned()]);
    assert_eq!(
        split_fields("a,b,c", ',', 5),
        vec!["a".to_owned(), "b".to_owned(), "c".to_owned()]
    );
    assert_eq!(split_fields("", ',', 3), vec!["".to_owned()]);
    assert_eq!(split_fields(",", ',', 3), vec!["".to_owned(), "".to_owned()]);
    assert_eq!(split_fields("abc", ',', 1), vec!["abc".to_owned()]);
}

#[test]
fn layer_from_text_keeps_row_order() {
    let text = "L 1, 2, 3, 4, 5, 6, 1, 2, 3\r\nP 0, 0, 0, 9, 9, 9, 1, first\nbogus\nP 1, 1, 1, 8, 8, 8, 2, second, with comma\r\nL 7, 8, 9, 10, 11, 12, 0, 0, 0\n";
    let (layer, skipped) = MapLayer::from_text(2, text);
    assert_eq!(layer.id, 2);
    assert_eq!(layer.labels.len(), 2);
    assert_eq!(layer.labels[0].text, "first");
    assert_eq!(layer.labels[1].text, "second, with comma");
    assert_eq!(layer.lines.len(), 2);
    assert_eq!(layer.lines[0].x1, "1");
    assert_eq!(layer.lines[1].x1, "7");
    assert_eq!(skipped.len(), 1);
    assert_eq!(skipped[0].layer, 2);
    assert_eq!(skipped[0].line, "bogus");
    assert_eq!(skipped[0].error, RowError::Unhandled);
}

#[test]
fn empty_rows_are_reported() {
    let (layer, skipped) = MapLayer::from_text(0, "\n\nL 1, 2, 3, 4, 5, 6, 1, 2, 3");
    assert_eq!(layer.lines.len(), 1);
    assert_eq!(skipped.len(), 2);
    assert_eq!(skipped[0].line, "");
    let (layer, skipped) = MapLayer::from_text(0, "");
    assert!(layer.labels.is_empty() && layer.lines.is_empty());
    assert!(skipped.is_empty());
}

#[test]
fn overlay_filename_for_layer_two() {
    assert_eq!(EqMap::layer_filename(2, "foo/bar"), "foo/bar_2.txt");
    assert_eq!(EqMap::layer_filename(1, "/maps/poknowledge"), "/maps/poknowledge_1.txt");
    assert_eq!(EqMap::layer_filename(3, "x"), "x_3.txt");
}

#[test]
fn base_without_overlays_gives_one_layer() {
    let base = "L 1, 2, 3, 4, 5, 6, 1, 2, 3\n".to_owned();
    let (map, skipped) = EqMap::from_contents(&vec![Some(base), None, None, None]);
    assert_eq!(map.layers.len(), 1);
    assert_eq!(map.layers[0].id, 0);
    assert_eq!(map.layers[0].lines.len(), 1);
    assert!(skipped.is_empty());
}

#[test]
fn nothing_readable_gives_no_layers() {
    let (map, skipped) = EqMap::from_contents(&vec![None, None, None, None]);
    assert_eq!(map.layers.len(), 0);
    assert!(skipped.is_empty());
    assert_eq!(EqMap::default().layers.len(), 0);
}

#[test]
fn layers_come_in_id_order() {
    let t = |s: &str| Some(s.to_owned());
    let (map, skipped) = EqMap::from_contents(&vec![
        t("P 0, 0, 0, 1, 1, 1, 1, base"),
        None,
        t("nope"),
        t("L 1, 2, 3, 4, 5, 6, 1, 2, 3"),
    ]);
    let ids: Vec<usize> = map.layers.iter().map(|l| l.id).collect();
    assert_eq!(ids, vec![0, 2, 3]);
    assert_eq!(skipped.len(), 1);
    assert_eq!(skipped[0].layer, 2);
    assert_eq!(skipped[0].error, RowError::Unhandled);
}

#[test]
fn loading_twice_gives_equal_maps() {
    let text = "P 1, 2, 3, 4, 5, 6, 7, a,b\nL 1, 2, 3, 4, 5, 6, 7, 8, 9\nL 9, 8, 7, 6, 5, 4, 3, 2, 1\n";
    let contents = vec![Some(text.to_owned()), Some(text.to_owned()), None, None];
    let (a, _) = EqMap::from_contents(&contents);
    let (b, _) = EqMap::from_contents(&contents);
    assert_eq!(a.layers.len(), b.layers.len());
    for (x, y) in a.layers.iter().zip(b.layers.iter()) {
        assert_eq!(x.id, y.id);
        assert_eq!(x.labels, y.labels);
        assert_eq!(x.lines, y.lines);
    }
}

#[test]
fn read_layer_skips_missing_file() {
    let mut map = EqMap::default();
    let skipped = map.read_layer(1, None);
    assert!(skipped.is_empty());
    assert_eq!(map.layers.len(), 0);
    let skipped = map.read_layer(3, Some("L 1, 2, 3, 4, 5, 6, 1, 2, 3\nQ"));
    assert_eq!(map.layers.len(), 1);
    assert_eq!(map.layers[0].id, 3);
    assert_eq!(skipped.len(), 1);
    assert_eq!(skipped[0].line, "Q");
}
