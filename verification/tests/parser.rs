use imagine::ocr::{parse_box_segment, parse_decimal, parse_point, Ocr, OcrError, OcrTextBox};
use imagine::rational::Frac;

#[test]
fn decimal_integer() {
    assert_eq!(parse_decimal(b"12"), Ok(Frac { num: 12, den: 1 }));
    assert_eq!(parse_decimal(b"0"), Ok(Frac { num: 0, den: 1 }));
}

#[test]
fn decimal_fraction_reduces() {
    // 0.98 = 98/100 = 49/50 in lowest terms
    assert_eq!(parse_decimal(b"0.98"), Ok(Frac { num: 49, den: 50 }));
    assert_eq!(parse_decimal(b"0.50"), Ok(Frac { num: 1, den: 2 }));
    assert_eq!(parse_decimal(b"3."), Ok(Frac { num: 3, den: 1 }));
    assert_eq!(parse_decimal(b".5"), Ok(Frac { num: 1, den: 2 }));
}

#[test]
fn decimal_negative() {
    assert_eq!(parse_decimal(b"-12.5"), Ok(Frac { num: -25, den: 2 }));
    assert_eq!(parse_decimal(b"-3"), Ok(Frac { num: -3, den: 1 }));
}

#[test]
fn decimal_malformed() {
    assert_eq!(parse_decimal(b""), Err(OcrError::Number));
    assert_eq!(parse_decimal(b"-"), Err(OcrError::Number));
    assert_eq!(parse_decimal(b"."), Err(OcrError::Number));
    assert_eq!(parse_decimal(b"1.2.3"), Err(OcrError::Number));
    assert_eq!(parse_decimal(b"12a"), Err(OcrError::Number));
    assert_eq!(parse_decimal(b"1e3"), Err(OcrError::Number));
    assert_eq!(parse_decimal(b" 1"), Err(OcrError::Number));
}

#[test]
fn decimal_out_of_range() {
    // twenty digits exceed the representable numerator range
    assert_eq!(parse_decimal(b"99999999999999999999"), Err(OcrError::OutOfRange));
    // twenty fractional digits exceed the representable denominator range
    assert_eq!(
        parse_decimal(b"0.00000000000000000001"),
        Err(OcrError::OutOfRange)
    );
}

#[test]
fn point_with_brackets_and_spaces() {
    let p = parse_point(b"[12 , 4]").unwrap();
    assert_eq!(p.x, Frac { num: 12, den: 1 });
    assert_eq!(p.y, Frac { num: 4, den: 1 });
}

#[test]
fn point_fractional() {
    let p = parse_point(b"88.5,30").unwrap();
    assert_eq!(p.x, Frac { num: 177, den: 2 });
    assert_eq!(p.y, Frac { num: 30, den: 1 });
}

#[test]
fn point_malformed() {
    assert_eq!(parse_point(b"12"), Err(OcrError::Point));
    assert_eq!(parse_point(b"1,2,3"), Err(OcrError::Point));
    assert_eq!(parse_point(b"a,2"), Err(OcrError::Number));
}

#[test]
fn segment_normalizes_corners() {
    let r = parse_box_segment(b"[5,6]-[1,2]").unwrap();
    assert_eq!(r.x0, Frac { num: 1, den: 1 });
    assert_eq!(r.y0, Frac { num: 2, den: 1 });
    assert_eq!(r.x1, Frac { num: 5, den: 1 });
    assert_eq!(r.y1, Frac { num: 6, den: 1 });
}

#[test]
fn segment_needs_one_dash() {
    assert_eq!(parse_box_segment(b"[1,2]"), Err(OcrError::Point));
    assert_eq!(parse_box_segment(b"[1,2]-[3,4]-[5,6]"), Err(OcrError::Point));
}

#[test]
fn line_parses_box_text_confidence() {
    let b = OcrTextBox::parse_ocr_text_box(b"([1,2]-[3,4]);hello;0.9").unwrap();
    assert_eq!(b.boxes.x0, Frac { num: 1, den: 1 });
    assert_eq!(b.boxes.y0, Frac { num: 2, den: 1 });
    assert_eq!(b.boxes.x1, Frac { num: 3, den: 1 });
    assert_eq!(b.boxes.y1, Frac { num: 4, den: 1 });
    assert_eq!(b.text, b"hello".to_vec());
    assert_eq!(b.confidence, Frac { num: 9, den: 10 });
}

#[test]
fn line_keeps_first_of_several_boxes() {
    let b = OcrTextBox::parse_ocr_text_box(b"([1,2]-[3,4]),([9,9]-[10,10]);word;1").unwrap();
    assert_eq!(b.boxes.x1, Frac { num: 3, den: 1 });
    assert_eq!(b.text, b"word".to_vec());
}

#[test]
fn line_with_wrong_part_count_is_format_error() {
    assert_eq!(
        OcrTextBox::parse_ocr_text_box(b"([1,2]-[3,4]);word"),
        Err(OcrError::Format)
    );
    assert_eq!(
        OcrTextBox::parse_ocr_text_box(b"([1,2]-[3,4]);a;1;extra"),
        Err(OcrError::Format)
    );
    assert_eq!(OcrTextBox::parse_ocr_text_box(b""), Err(OcrError::Format));
}

#[test]
fn line_with_bad_second_box_is_rejected() {
    assert_eq!(
        OcrTextBox::parse_ocr_text_box(b"([1,2]-[3,4]),(oops);word;1"),
        Err(OcrError::Point)
    );
}

#[test]
fn line_with_bad_confidence_is_rejected() {
    assert_eq!(
        OcrTextBox::parse_ocr_text_box(b"([1,2]-[3,4]);word;high"),
        Err(OcrError::Number)
    );
}

#[test]
fn output_with_two_lines() {
    let out = b"([1,2]-[3,4]);alpha;0.5\n([5,6]-[7,8]);beta;0.25\n";
    let ocr = Ocr::from_output(String::from("img.png"), out).unwrap();
    assert_eq!(ocr.img_path, String::from("img.png"));
    assert_eq!(ocr.content.len(), 2);
    assert_eq!(ocr.content[0].text, b"alpha".to_vec());
    assert_eq!(ocr.content[0].confidence, Frac { num: 1, den: 2 });
    assert_eq!(ocr.content[1].text, b"beta".to_vec());
    assert_eq!(ocr.content[1].confidence, Frac { num: 1, den: 4 });
}

#[test]
fn empty_output_has_no_boxes() {
    let ocr = Ocr::from_output(String::from("img.png"), b"").unwrap();
    assert_eq!(ocr.content.len(), 0);
}

#[test]
fn output_with_a_bad_line_is_rejected() {
    let out = b"([1,2]-[3,4]);alpha;0.5\nnot a line\n";
    assert_eq!(
        Ocr::from_output(String::from("img.png"), out),
        Err(OcrError::Format)
    );
}
