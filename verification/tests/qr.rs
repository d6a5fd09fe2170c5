use qumbra_wallet::cli::{bessel_to_qmb, BESSEL_PER_QMB};
use qumbra_wallet::qr::{
    render_svg, render_unicode, svg_of, unicode_of, QrRenderError, QR_MAX_BYTES, QUIET,
};

/// A URI of the shape that a full address takes: 1,985 characters of address.
fn full_uri(memo: &str) -> String {
    let address: String =
        (0..1_985u32).map(|i| char::from(b'a' + ((7 * i + 3) % 26) as u8)).collect();
    format!("qumbra:{address}?amount=1.5&label=rent&memo={memo}")
}

#[test]
fn bessel_per_qmb_matches_the_consensus_constant() {
    assert_eq!(BESSEL_PER_QMB, 100_000_000);
    assert_eq!(bessel_to_qmb(BESSEL_PER_QMB), "1");
}

#[test]
fn full_address_uri_encodes() {
    let full = full_uri("dW5pdCA0Qg");
    assert!(full.len() >= 1_985 + 7, "premise: {} chars", full.len());
    assert!(full.len() <= QR_MAX_BYTES, "premise: fits v40 EC-L");
    render_unicode(&full).expect("terminal render");
    render_svg(&full).expect("svg render");
}

#[test]
fn capacity_boundary_is_2953() {
    let at = "q".repeat(QR_MAX_BYTES);
    let text = render_unicode(&at).expect("exactly at capacity encodes");
    assert_eq!(text.lines().count(), 93, "177 modules and the quiet zone, two rows to a line");
    let over = "q".repeat(QR_MAX_BYTES + 1);
    assert_eq!(
        render_unicode(&over).unwrap_err(),
        QrRenderError::TooLong { len: QR_MAX_BYTES + 1 }
    );
    assert_eq!(render_svg(&over).unwrap_err(), QrRenderError::TooLong { len: QR_MAX_BYTES + 1 });
    let uri = full_uri(&"m".repeat(3000));
    let err = render_unicode(&uri).unwrap_err();
    assert!(matches!(err, QrRenderError::TooLong { .. }));
    assert!(err.message().contains("2953"), "{}", err.message());
}

#[test]
fn unicode_render_shape() {
    let s = render_unicode("qumbra:test").expect("small render");
    let lines: Vec<&str> = s.lines().collect();
    assert_eq!(lines.len(), 15);
    assert!(lines.iter().all(|l| l.chars().count() == 29), "rectangular");
    assert!(
        s.chars().all(|c| matches!(c, '█' | '▀' | '▄' | ' ' | '\n')),
        "only half-block glyphs"
    );
    assert!(lines[0].chars().all(|c| c == ' '));
    assert!(lines[1].chars().all(|c| c == ' '));
    assert_eq!(lines[2].chars().nth(QUIET), Some('█'));
}

#[test]
fn svg_render_shape() {
    let s = render_svg("qumbra:test").expect("small svg");
    assert!(s.starts_with("<svg xmlns=\"http://www.w3.org/2000/svg\""));
    assert!(s.trim_end().ends_with("</svg>"));
    assert!(s.contains("viewBox=\"0 0 29 29\""));
    assert_eq!(s.matches("<rect").count(), 1);
    assert_eq!(s.matches("<path").count(), 1);
    assert!(s.contains("h1v1h-1z"));
}

#[test]
fn a_matrix_is_drawn_module_by_module() {
    let m = vec![true, false, true, true];
    let text = unicode_of(&m, 2);
    let lines: Vec<&str> = text.lines().collect();
    assert_eq!(lines.len(), 5);
    assert_eq!(lines[2], "    █▄    ");
    assert!(lines[3].chars().all(|c| c == ' '));
    let svg = svg_of(&m, 2);
    assert!(svg.contains("viewBox=\"0 0 10 10\""));
    assert_eq!(svg.matches("h1v1h-1z").count(), 3);
    assert!(svg.contains("M4 4h1v1h-1z"), "{svg}");
    assert!(!svg.contains("M5 4h1v1h-1z"), "{svg}");
}
