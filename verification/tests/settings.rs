use std::time::Duration;
use tile_pyramid::args::{Args, ArgsError, Format};
use tile_pyramid::schema::{
    create_schema, insert_sql, limits_sql, select_sql, tiles_table_sql, Binding,
};
use tile_pyramid::time_track::{Metric, TimeStats, TimeTrack};
use tile_pyramid::warp::Transform;

fn args(target: &str, resume: Option<&str>) -> Args {
    Args {
        source_file: "in.tif".to_string(),
        target_file: target.to_string(),
        continue_file: resume.map(|s| s.to_string()),
        max_zoom: 12,
        source_srs: None,
        transform_pipeline: None,
        bounding_polygon: None,
        tile_size: 256,
        num_threads: None,
        format: Format::default(),
        jpeg_quality: 85,
        warp_zoom_offset: 3,
        debug: false,
        insert_empty: true,
    }
}

#[test]
fn default_format_is_jpeg() {
    assert_eq!(Format::default(), Format::JPEG);
    assert_eq!(Format::JPEG.name(), "jpeg");
    assert_eq!(Format::PNG.name(), "png");
}

#[test]
fn existing_target_needs_an_archive_to_continue() {
    assert_eq!(args("out", None).check_files(true, false), Err(ArgsError::TargetExists));
    assert_eq!(args("out", None).check_files(false, false), Ok(()));
    assert_eq!(args("out", Some("out")).check_files(true, true), Ok(()));
    assert_eq!(args("out", Some("old")).check_files(false, true), Ok(()));
    assert_eq!(
        args("out", Some("old")).check_files(false, false),
        Err(ArgsError::ContinueMissing)
    );
    assert_eq!(
        args("out", Some("old")).check_files(true, false),
        Err(ArgsError::ContinueMissing)
    );
}

#[test]
fn tables_are_made_unless_continuing_in_place() {
    assert!(args("out", None).starts_archive());
    assert!(args("out", Some("old")).starts_archive());
    assert!(!args("out", Some("out")).starts_archive());
}

#[test]
fn workers_default_to_what_the_machine_offers() {
    let mut a = args("out", None);
    assert_eq!(a.workers(8), 8);
    a.num_threads = Some(3);
    assert_eq!(a.workers(8), 3);
}

#[test]
fn jpeg_archive_has_an_alpha_column() {
    assert!(tiles_table_sql(Format::JPEG).contains("tile_alpha BLOB NOT NULL"));
    assert!(!tiles_table_sql(Format::PNG).contains("tile_alpha"));
    assert!(insert_sql(Format::JPEG).contains("?5"));
    assert!(!insert_sql(Format::PNG).contains("?5"));
    assert!(insert_sql(Format::PNG).contains("?4"));
    assert!(select_sql().starts_with("SELECT tile_data, tile_alpha FROM tiles"));
    assert_eq!(
        limits_sql(),
        "INSERT INTO metadata (name, value) VALUES ('limits', ?1)"
    );
}

#[test]
fn schema_has_seven_statements() {
    let steps = create_schema(Format::JPEG);
    assert_eq!(steps.len(), 7);
    assert!(steps[0].sql.starts_with("CREATE TABLE metadata"));
    assert_eq!(steps[1].sql, tiles_table_sql(Format::JPEG));
    assert!(steps[2].sql.starts_with("CREATE UNIQUE INDEX"));
    let bindings: Vec<Binding> = steps.iter().map(|s| s.binding).collect();
    assert_eq!(
        bindings,
        vec![
            Binding::Nothing,
            Binding::Nothing,
            Binding::Nothing,
            Binding::Nothing,
            Binding::FormatName,
            Binding::Nothing,
            Binding::MaxZoom,
        ]
    );
    assert_eq!(create_schema(Format::PNG)[1].sql, tiles_table_sql(Format::PNG));
}

#[test]
fn schema_runs_on_a_database() {
    for format in [Format::JPEG, Format::PNG] {
        let conn = rusqlite::Connection::open_in_memory().unwrap();
        for step in create_schema(format) {
            match step.binding {
                Binding::Nothing => conn.execute(step.sql, ()).unwrap(),
                Binding::FormatName => conn.execute(step.sql, [format.name()]).unwrap(),
                Binding::MaxZoom => conn.execute(step.sql, [7u8]).unwrap(),
            };
        }
        let value = |name: &str| -> String {
            conn.query_row(
                "SELECT CAST(value AS TEXT) FROM metadata WHERE name = ?1",
                [name],
                |row| row.get(0),
            )
            .unwrap()
        };
        assert_eq!(value("format"), format.name());
        assert_eq!(value("minzoom"), "0");
        assert_eq!(value("maxzoom"), "7");
        assert_eq!(value("name"), "Tiles");
        match format {
            Format::JPEG => conn
                .execute(insert_sql(format), (1u8, 0u32, 1u32, vec![1u8], vec![2u8]))
                .unwrap(),
            Format::PNG => conn
                .execute(insert_sql(format), (1u8, 0u32, 1u32, vec![1u8]))
                .unwrap(),
        };
        let again = match format {
            Format::JPEG => conn.execute(insert_sql(format), (1u8, 0u32, 1u32, vec![1u8], vec![2u8])),
            Format::PNG => conn.execute(insert_sql(format), (1u8, 0u32, 1u32, vec![1u8])),
        };
        assert!(again.is_err());
    }
}

#[test]
fn pipeline_goes_before_reference_systems() {
    let t = Transform::select(Some("+proj=pipeline".to_string()), "a".to_string(), "b".to_string());
    assert!(matches!(&t, Transform::Pipeline(p) if p == "+proj=pipeline"));
    assert_eq!(
        t.transformer_option(),
        Some("COORDINATE_OPERATION=+proj=pipeline".to_string())
    );
    let t = Transform::select(None, "a".to_string(), "b".to_string());
    assert!(matches!(&t, Transform::Srs(a, b) if a == "a" && b == "b"));
    assert_eq!(t.transformer_option(), None);
}

#[test]
fn track_counts_and_sums() {
    let mut track = TimeTrack::new();
    assert!(track.fits(Duration::from_secs(1)));
    track.add(Duration::from_millis(5));
    track.add(Duration::from_millis(10));
    assert!(track.fits(Duration::MAX));
}

#[test]
fn stats_keep_phases_apart() {
    let mut stats = TimeStats::new();
    assert!(stats.fits(&Metric::Warp, Duration::from_millis(5)));
    stats.add(&Metric::Warp, Duration::from_millis(5));
    stats.add(&Metric::Warp, Duration::from_millis(7));
    stats.add(&Metric::Select, Duration::from_millis(1));
    stats.add(&Metric::Insert, Duration::from_millis(1));
    stats.add(&Metric::Compose, Duration::from_millis(1));
    stats.add(&Metric::Encode, Duration::from_millis(1));
}

#[test]
fn empty_track_is_a_dash() {
    assert_eq!(TimeTrack::new().to_text(), "-");
}

#[test]
fn track_shows_sum_count_and_mean() {
    let mut track = TimeTrack::new();
    track.add(Duration::from_millis(5));
    assert_eq!(track.to_text(), "5/1=5");
    track.add(Duration::from_millis(10));
    assert_eq!(track.to_text(), "15/2=7");
    track.add(Duration::from_micros(999));
    assert_eq!(track.to_text(), "15/3=5");
    track.add(Duration::from_micros(1));
    assert_eq!(track.to_text(), "16/4=4");
}

#[test]
fn track_of_long_durations() {
    let mut track = TimeTrack::new();
    track.add(Duration::from_secs(1_234_567));
    track.add(Duration::from_secs(1));
    assert_eq!(track.to_text(), "1234568000/2=617284000");
}

#[test]
fn stats_line() {
    let mut stats = TimeStats::new();
    assert_eq!(
        stats.to_text(),
        "select: -, insert: -, warp: -, compose: -, processing: - | 0"
    );
    stats.add(&Metric::Warp, Duration::from_millis(120));
    stats.add(&Metric::Warp, Duration::from_millis(81));
    stats.add(&Metric::Select, Duration::from_micros(1500));
    stats.add(&Metric::Insert, Duration::from_micros(700));
    stats.add(&Metric::Compose, Duration::from_millis(30));
    stats.add(&Metric::Encode, Duration::from_millis(1000));
    assert_eq!(
        stats.to_text(),
        "select: 1/1=1, insert: 0/1=0, warp: 201/2=100, compose: 30/1=30, processing: 1000/1=1000 | 233"
    );
}

#[test]
fn try_add_counts_while_there_is_room() {
    let mut track = TimeTrack::new();
    assert!(track.try_add(Duration::from_millis(3)));
    assert!(track.try_add(Duration::from_millis(4)));
    assert_eq!(track.to_text(), "7/2=3");
    let mut stats = TimeStats::new();
    assert!(stats.try_add(&Metric::Compose, Duration::from_millis(9)));
    assert_eq!(
        stats.to_text(),
        "select: -, insert: -, warp: -, compose: 9/1=9, processing: - | 9"
    );
}
