//! Reading `kscreen-doctor` reports.

use hyperv_rdp_extras::session::{
    OutputGeometry, VirtualOutputConfig, parse_enabled_physical_outputs, parse_output_geometries,
    parse_recoverable_physical_outputs, strip_ansi,
};
use hyperv_rdp_extras::session::kscreen::{
    CommandReport, disable_argument, enable_argument, enabled_position, position_argument,
};
use hyperv_rdp_extras::session::text::{read_signed, read_unsigned, white_space, write_signed};

#[test]
fn parses_geometries_with_uuid_and_without() {
    // KWin >= 6.7 appends the output UUID after the name; 6.3 does
    // not. Both must yield the same parsed geometry.
    let text_67 = "\
Output: 1 Virtual-lamco be96cb63-6649-4f1d-b22e-fce849119fe3
    enabled
    connected
    priority 0
    Modes: 1:1024x768@60
    Geometry: 1920,0 1366x768
Output: 2 Virtual-1 892482c9-0b93-4a86-b5ea-d1ddce3cb43b
    disabled
    Geometry: 0,0 1920x1080
";
    let text_63 = text_67
        .replace(" be96cb63-6649-4f1d-b22e-fce849119fe3", "")
        .replace(" 892482c9-0b93-4a86-b5ea-d1ddce3cb43b", "");
    let expected = vec![
        OutputGeometry {
            name: "Virtual-lamco".into(),
            enabled: true,
            x: 1920,
            y: 0,
            width: 1366,
            height: 768,
        },
        OutputGeometry {
            name: "Virtual-1".into(),
            enabled: false,
            x: 0,
            y: 0,
            width: 1920,
            height: 1080,
        },
    ];
    assert_eq!(parse_output_geometries(&text_67), expected);
    assert_eq!(parse_output_geometries(&text_63), expected);
}

#[test]
fn geometry_parses_with_ansi_noise() {
    // kscreen-doctor colorizes unconditionally; escapes sit between
    // markers and values.
    let text = "\u{1b}[01;32mOutput: \u{1b}[0;0m1 Virtual-lamco\n\t\u{1b}[01;32menabled\u{1b}[0;0m\n\t\u{1b}[01;34mGeometry: \u{1b}[0;0m 1920,0 1366x768\n";
    let geos = parse_output_geometries(text);
    assert_eq!(geos.len(), 1);
    assert_eq!(geos[0].name, "Virtual-lamco");
    assert!(geos[0].enabled);
    assert_eq!((geos[0].x, geos[0].y), (1920, 0));
    assert_eq!((geos[0].width, geos[0].height), (1366, 768));
}

#[test]
fn geometry_missing_outputs_and_negative_positions() {
    // No Geometry line (not yet enumerated): output skipped, others
    // unaffected. Negative positions must parse (outputs CAN sit at
    // negative coordinates in multi-monitor layouts).
    let text = "\
Output: 1 DP-1
    enabled
Output: 2 Virtual-lamco
    enabled
    Geometry: -1920,0 1366x768
";
    let geos = parse_output_geometries(text);
    // DP-1 IS included (zeroed geometry) — skipping entries would
    // hide real outputs from the origin check; the find() callers
    // match by name+enabled and never see it as ours.
    assert_eq!(geos.len(), 2);
    assert_eq!(geos[0].name, "DP-1");
    assert_eq!((geos[0].x, geos[0].y, geos[0].width), (0, 0, 0));
    assert_eq!(geos[1].name, "Virtual-lamco");
    assert_eq!((geos[1].x, geos[1].y), (-1920, 0));
}

#[test]
fn parses_enabled_outputs_in_order() {
    let text = "\
Output: 1 Virtual-1
    enabled
    connected
    priority 1
Output: 2 HDMI-A-1
    disabled
Output: 3 DP-1
    enabled
";
    assert_eq!(
        parse_enabled_physical_outputs(text, "Virtual-lamco"),
        vec!["Virtual-1".to_string(), "DP-1".to_string()]
    );
}

#[test]
fn excludes_our_virtual_output_exactly() {
    let text = "\
Output: 1 Virtual-lamco
    enabled
Output: 2 Virtual-1
    enabled
";
    // Exact-name exclusion: our virtual output is skipped, but the
    // DRM-named Virtual-1 (a real physical output here) is kept.
    assert_eq!(
        parse_enabled_physical_outputs(text, "Virtual-lamco"),
        vec!["Virtual-1".to_string()]
    );
}

#[test]
fn exclusion_name_is_parameterized() {
    // A custom output identity: the exclusion follows the configured
    // kscreen name, and a foreign Virtual-* output is treated as
    // physical (it is not ours).
    let text = "\
Output: 1 Virtual-mine
    enabled
Output: 2 Virtual-lamco
    enabled
";
    assert_eq!(
        parse_enabled_physical_outputs(text, "Virtual-mine"),
        vec!["Virtual-lamco".to_string()]
    );
    // The config derives the kscreen name from the output name.
    let cfg = VirtualOutputConfig::new("mine");
    assert_eq!(cfg.name, "mine");
    assert_eq!(cfg.kscreen_name, "Virtual-mine");
    // The neutral default is rdp → Virtual-rdp (the default must stay
    // identity-free).
    let dflt = VirtualOutputConfig::default();
    assert_eq!(dflt.name, "rdp");
    assert_eq!(dflt.kscreen_name, "Virtual-rdp");
}

#[test]
fn strips_ansi_before_matching() {
    // kscreen-doctor colorizes unconditionally, even piped.
    let text =
        "\u{1b}[01;32mOutput: \u{1b}[0;0m1 HDMI-A-1\n    \u{1b}[01;32menabled\u{1b}[0m\n";
    assert_eq!(
        parse_enabled_physical_outputs(text, "Virtual-lamco"),
        vec!["HDMI-A-1".to_string()]
    );
}

#[test]
fn final_block_without_trailing_marker_is_flushed() {
    let text = "Output: 1 eDP-1\n    enabled\n";
    assert_eq!(
        parse_enabled_physical_outputs(text, "Virtual-lamco"),
        vec!["eDP-1".to_string()]
    );
}

#[test]
fn empty_text_yields_no_outputs() {
    assert!(parse_enabled_physical_outputs("", "Virtual-lamco").is_empty());
}

#[test]
fn strip_ansi_removes_csi_sequences() {
    assert_eq!(strip_ansi("\u{1b}[01;32mhi\u{1b}[0m"), "hi");
    assert_eq!(strip_ansi("plain"), "plain");
    // ESC without '[' is dropped.
    assert_eq!(strip_ansi("\u{1b}x"), "x");
}

#[test]
fn recoverable_includes_disabled_but_connected() {
    // A headless layout: the physical output is connected yet disabled
    // (e.g. a previous wedge). The guard must be able to adopt it so
    // Drop can re-enable the console.
    let text = "\
Output: 1 Virtual-1
    disabled
    connected
Output: 2 Virtual-lamco
    enabled
";
    assert_eq!(
        parse_recoverable_physical_outputs(text, "Virtual-lamco"),
        vec!["Virtual-1".to_string()]
    );
}

#[test]
fn recoverable_still_includes_enabled_outputs() {
    let text = "\
Output: 1 Virtual-1
    enabled
    connected
Output: 2 HDMI-A-1
    disabled
    connected
";
    assert_eq!(
        parse_recoverable_physical_outputs(text, "Virtual-lamco"),
        vec!["Virtual-1".to_string(), "HDMI-A-1".to_string()]
    );
}

#[test]
fn recoverable_excludes_disconnected_outputs() {
    // A disconnected connector cannot be re-enabled into anything
    // useful; adopting it would make Drop's verified-restore log noise.
    let text = "\
Output: 1 HDMI-A-1
    disabled
Output: 2 Virtual-1
    disabled
    connected
";
    assert_eq!(
        parse_recoverable_physical_outputs(text, "Virtual-lamco"),
        vec!["Virtual-1".to_string()]
    );
}

#[test]
fn recoverable_excludes_our_virtual_output() {
    let text = "\
Output: 1 Virtual-lamco
    disabled
    connected
Output: 2 Virtual-1
    disabled
    connected
";
    assert_eq!(
        parse_recoverable_physical_outputs(text, "Virtual-lamco"),
        vec!["Virtual-1".to_string()]
    );
}

#[test]
fn enabled_parser_never_returns_disabled_outputs() {
    // The classic parser must remain enabled-only: the recoverable
    // variant is exclusively for the headless-adoption path.
    let text = "\
Output: 1 Virtual-1
    disabled
    connected
Output: 2 HDMI-A-1
    enabled
";
    assert_eq!(
        parse_enabled_physical_outputs(text, "Virtual-lamco"),
        vec!["HDMI-A-1".to_string()]
    );
}

#[test]
fn strip_ansi_keeps_text_without_escapes() {
    assert_eq!(strip_ansi(""), "");
    assert_eq!(strip_ansi("a\nb\tc é ü 漢"), "a\nb\tc é ü 漢");
}

#[test]
fn strip_ansi_edge_cases() {
    // A sequence that never ends swallows the rest.
    assert_eq!(strip_ansi("ab\u{1b}[12;34"), "ab");
    // A trailing escape goes alone.
    assert_eq!(strip_ansi("ab\u{1b}"), "ab");
    // Two escapes in a row: the first goes alone, the second opens.
    assert_eq!(strip_ansi("\u{1b}\u{1b}[0mx"), "x");
    // The brackets of the final-byte range count as final bytes.
    assert_eq!(strip_ansi("\u{1b}[@x"), "x");
    assert_eq!(strip_ansi("\u{1b}[~x"), "x");
    // Stripping twice is stripping once.
    let once = strip_ansi("\u{1b}[1mA\u{1b}x\u{1b}[0m");
    assert_eq!(strip_ansi(&once), once);
}

#[test]
fn the_last_state_line_decides() {
    let text = "Output: 1 A\n enabled\n disabled\nOutput: 2 B\n disabled\n enabled\n";
    assert_eq!(parse_enabled_physical_outputs(text, "x"), vec!["B".to_string()]);
    // The geometry reading takes any "enabled" line.
    let geometries = parse_output_geometries(text);
    assert!(geometries[0].enabled && geometries[1].enabled);
}

#[test]
fn lines_before_the_first_title_are_ignored() {
    let text = "enabled\nconnected\nGeometry: 1,2 3x4\nOutput: 1 A\n";
    assert!(parse_enabled_physical_outputs(text, "x").is_empty());
    assert!(parse_recoverable_physical_outputs(text, "x").is_empty());
    let geometries = parse_output_geometries(text);
    assert_eq!(geometries.len(), 1);
    assert_eq!((geometries[0].x, geometries[0].width), (0, 0));
}

#[test]
fn titles_without_a_name() {
    let text = "Output: 1\n enabled\n Geometry: 5,6 7x8\n";
    assert!(parse_enabled_physical_outputs(text, "").is_empty());
    let geometries = parse_output_geometries(text);
    assert_eq!(geometries[0].name, "");
    assert_eq!((geometries[0].x, geometries[0].y), (5, 6));
}

#[test]
fn exclusion_is_no_prefix_match() {
    let text = "Output: 1 Virtual-rdp2\n enabled\nOutput: 2 Virtual-rdp\n enabled\n";
    assert_eq!(
        parse_enabled_physical_outputs(text, "Virtual-rdp"),
        vec!["Virtual-rdp2".to_string()]
    );
}

#[test]
fn carriage_returns_are_white_space() {
    let text = "Output: 1 A\r\n  enabled\r\n  Geometry: 1,2 3x4\r\n";
    assert_eq!(parse_enabled_physical_outputs(text, "x"), vec!["A".to_string()]);
    let geometry = &parse_output_geometries(text)[0];
    assert_eq!(
        (geometry.x, geometry.y, geometry.width, geometry.height),
        (1, 2, 3, 4)
    );
}

#[test]
fn malformed_geometries_read_as_zero() {
    let read = |line: &str| {
        let text = format!("Output: 1 A\n Geometry: {line}\n");
        let geometry = parse_output_geometries(&text)[0].clone();
        (geometry.x, geometry.y, geometry.width, geometry.height)
    };
    assert_eq!(read("1920,0 1366x768"), (1920, 0, 1366, 768));
    assert_eq!(read("1920 1366x768"), (0, 0, 1366, 768));
    assert_eq!(read("a,5 6x"), (0, 5, 6, 0));
    assert_eq!(read("+3,-4"), (3, -4, 0, 0));
    assert_eq!(read("2147483648,-2147483648 1x1"), (0, -2147483648, 1, 1));
    assert_eq!(read("1,2,3 4x5x6"), (1, 0, 4, 0));
    // The last geometry line counts.
    assert_eq!(read("1,2 3x4\n Geometry: 5,6 7x8"), (5, 6, 7, 8));
}

#[test]
fn enabled_position_matches_name_and_state() {
    let text = "Output: 1 A\n Geometry: 1,1 2x2\nOutput: 2 A\n enabled\n Geometry: 9,8 2x2\nOutput: 3 A\n enabled\n Geometry: 7,7 2x2\n";
    let geometries = parse_output_geometries(text);
    assert_eq!(enabled_position(&geometries, "A"), Some((9, 8)));
    assert_eq!(enabled_position(&geometries, "B"), None);
    assert_eq!(enabled_position(&[], "A"), None);
}

#[test]
fn white_space_is_the_unicode_property() {
    for code in 0..=0x10FFFFu32 {
        if let Some(c) = char::from_u32(code) {
            assert_eq!(white_space(c), c.is_whitespace(), "{code:x}");
        }
    }
}

#[test]
fn numbers_read_as_the_standard_parser_reads_them() {
    let cases = [
        "", "+", "-", "0", "-0", "+0", "007", "12", "-12", "+12", "--1", "+-1", "1-", " 1", "1 ",
        "2147483647", "2147483648", "-2147483648", "-2147483649", "4294967295", "4294967296",
        "99999999999999999999999999", "00000000000000000000000001", "1_000", "١", "1.5", "0x10",
    ];
    for case in cases {
        let chars: Vec<char> = case.chars().collect();
        assert_eq!(read_signed(&chars), case.parse::<i32>().unwrap_or(0), "{case:?}");
        assert_eq!(read_unsigned(&chars), case.parse::<u32>().ok(), "{case:?}");
    }
}

#[test]
fn written_numbers_read_back() {
    for n in [0, 1, -1, 9, 10, -10, 1920, i32::MAX, i32::MIN] {
        assert_eq!(write_signed(n), n.to_string());
        let chars: Vec<char> = write_signed(n).chars().collect();
        assert_eq!(read_signed(&chars), n);
    }
}

#[test]
fn arguments_name_the_output() {
    assert_eq!(enable_argument("DP-1"), "output.DP-1.enable");
    assert_eq!(disable_argument("DP-1"), "output.DP-1.disable");
    assert_eq!(position_argument("DP-1", 0, 0), "output.DP-1.position.0,0");
    assert_eq!(position_argument("DP-1", -1920, 1080), "output.DP-1.position.-1920,1080");
}

fn finished(success: bool, stdout: &[u8]) -> CommandReport {
    CommandReport::Finished { success, stdout: stdout.to_vec() }
}

#[test]
fn failed_commands_list_nothing() {
    let text = b"Output: 1 DP-1\n enabled\n connected\n";
    for report in [finished(false, text), CommandReport::NotRun] {
        assert_eq!(report.read(), None);
        assert!(report.enabled_physical_outputs("x").is_empty());
        assert!(report.recoverable_physical_outputs("x").is_empty());
        assert!(report.output_geometries().is_empty());
    }
}

#[test]
fn successful_commands_list_their_outputs() {
    let report = finished(
        true,
        b"Output: 1 DP-1\n disabled\n connected\n Geometry: 1,2 3x4\nOutput: 2 DP-2\n enabled\n",
    );
    assert_eq!(report.enabled_physical_outputs("x"), vec!["DP-2".to_string()]);
    assert_eq!(
        report.recoverable_physical_outputs("DP-2"),
        vec!["DP-1".to_string()]
    );
    assert_eq!(report.output_geometries().len(), 2);
    assert_eq!(report.output_geometries()[0].height, 4);
}

#[test]
fn invalid_utf8_is_replaced() {
    // A stray byte in a name does not spoil the rest of the report.
    let report = finished(true, b"Output: 1 D\xFFP\n enabled\nOutput: 2 \xC3\xA9\n enabled\n");
    assert_eq!(
        report.enabled_physical_outputs("x"),
        vec!["D\u{fffd}P".to_string(), "é".to_string()]
    );
    assert_eq!(finished(true, b"a\xFFb").read(), Some("a\u{fffd}b".to_string()));
}

#[test]
fn enabled_outputs_keep_their_order_among_the_recoverable() {
    let text = "Output: 1 C\n enabled\nOutput: 2 B\n disabled\n connected\nOutput: 3 A\n enabled\n";
    assert_eq!(
        parse_enabled_physical_outputs(text, "x"),
        vec!["C".to_string(), "A".to_string()]
    );
    assert_eq!(
        parse_recoverable_physical_outputs(text, "x"),
        vec!["C".to_string(), "B".to_string(), "A".to_string()]
    );
}
