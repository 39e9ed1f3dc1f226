use qr_benchmark::decoders::{luma_at, DecodeError, GridScan, LumaImage, RqrrDecoder, RqrrStep};
use qr_benchmark::geometry::Point;

fn scan(text: Option<&str>, bounds: [(i32, i32); 4]) -> GridScan {
    GridScan { text: text.map(|t| t.to_string()), bounds }
}

#[test]
fn first_decoded_grid_wins() {
    let scans = vec![
        scan(None, [(0, 0), (1, 0), (1, 1), (0, 1)]),
        scan(Some("second"), [(2, 3), (4, 3), (4, 5), (2, 5)]),
        scan(Some("third"), [(9, 9), (9, 9), (9, 9), (9, 9)]),
    ];
    let r = RqrrDecoder::first_decoded(&scans).unwrap();
    assert_eq!(r.text, "second");
    assert_eq!(
        r.points.unwrap(),
        vec![
            Point { x: 2000, y: 3000 },
            Point { x: 4000, y: 3000 },
            Point { x: 4000, y: 5000 },
            Point { x: 2000, y: 5000 }
        ]
    );
    assert!(RqrrDecoder::first_decoded(&vec![]).is_none());
}

#[test]
fn luma_reads_rows_and_inverts() {
    let img = LumaImage { width: 2, height: 2, pixels: vec![0, 10, 200, 255] };
    assert_eq!(luma_at(&img, 1, 0, false), 10);
    assert_eq!(luma_at(&img, 0, 1, false), 200);
    assert_eq!(luma_at(&img, 0, 1, true), 55);
    assert_eq!(luma_at(&img, 2, 0, false), 0);
}

#[test]
fn malformed_buffer_is_refused_before_scanning() {
    let d = RqrrDecoder;
    assert_eq!(d.name(), "rqrr");
    let good = LumaImage { width: 4, height: 2, pixels: vec![255; 8] };
    assert!(matches!(d.begin(&good), RqrrStep::Scan { inverted: false }));
    let bad = LumaImage { width: 40, height: 40, pixels: vec![255; 10] };
    assert!(matches!(d.begin(&bad), RqrrStep::Finished(Err(DecodeError::BadImage))));
}

#[test]
fn complement_is_scanned_only_after_a_fruitless_plain_scan() {
    let d = RqrrDecoder;
    let nothing = vec![scan(None, [(0, 0); 4])];
    assert!(matches!(d.after_scan(false, &nothing), RqrrStep::Scan { inverted: true }));
    assert!(matches!(d.after_scan(true, &nothing), RqrrStep::Finished(Err(DecodeError::NotFound))));
    assert!(matches!(d.after_scan(true, &vec![]), RqrrStep::Finished(Err(DecodeError::NotFound))));
    let found = vec![scan(Some("hi"), [(1, 1), (5, 1), (5, 5), (1, 5)])];
    match d.after_scan(false, &found) {
        RqrrStep::Finished(Ok(r)) => {
            assert_eq!(r.text, "hi");
            assert_eq!(r.points.unwrap().len(), 4);
        }
        _ => panic!("expected a result"),
    }
}

#[test]
fn blank_image_has_no_code() {
    let d = RqrrDecoder;
    let img = LumaImage { width: 40, height: 40, pixels: vec![255; 1600] };
    let mut step = d.begin(&img);
    let mut scans_run = 0;
    let result = loop {
        step = match step {
            RqrrStep::Scan { inverted } => {
                scans_run += 1;
                let mut prepared =
                    rqrr::PreparedImage::prepare_from_greyscale(40, 40, |x, y| luma_at(&img, x, y, inverted));
                let scans: Vec<GridScan> = prepared
                    .detect_grids()
                    .iter()
                    .map(|g| GridScan {
                        text: g.decode().ok().map(|(_, c)| c),
                        bounds: g.bounds.map(|p| (p.x, p.y)),
                    })
                    .collect();
                d.after_scan(inverted, &scans)
            }
            RqrrStep::Finished(r) => break r,
        };
    };
    assert_eq!(scans_run, 2);
    assert_eq!(result.err(), Some(DecodeError::NotFound));
}
