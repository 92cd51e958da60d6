use oxipng::cli::{display_chunks, parse_interlace_mode, parse_keep, parse_strip};
use oxipng::options::StripChunks;

fn strip_names(r: Result<StripChunks, String>) -> Vec<[u8; 4]> {
    match r {
        Ok(StripChunks::Strip(v)) => v,
        other => panic!("expected a list to strip, got {other:?}"),
    }
}

fn keep_names(r: Result<StripChunks, String>) -> Vec<[u8; 4]> {
    match r {
        Ok(StripChunks::Keep(v)) => v,
        other => panic!("expected a list to keep, got {other:?}"),
    }
}

fn error_of(r: Result<StripChunks, String>) -> String {
    match r {
        Err(e) => e,
        other => panic!("expected an error, got {other:?}"),
    }
}

#[test]
fn strip_presets() {
    assert!(matches!(parse_strip("safe"), Ok(StripChunks::Safe)));
    assert!(matches!(parse_strip("all"), Ok(StripChunks::All)));
}

#[test]
fn strip_list_of_names() {
    assert_eq!(strip_names(parse_strip("tEXt,zTXt")), vec![*b"tEXt", *b"zTXt"]);
}

#[test]
fn strip_list_drops_repeats_and_trims() {
    assert_eq!(strip_names(parse_strip(" tEXt ,tEXt,bKGD")), vec![*b"tEXt", *b"bKGD"]);
}

#[test]
fn strip_critical_chunk_is_refused() {
    assert_eq!(error_of(parse_strip("tEXt,IHDR")), "IHDR chunk is not allowed to be stripped");
    assert_eq!(error_of(parse_strip("tRNS")), "tRNS chunk is not allowed to be stripped");
}

#[test]
fn strip_preset_in_list_is_refused() {
    assert_eq!(
        error_of(parse_strip("safe,tEXt")),
        "'safe' or 'all' presets for --strip should be used by themselves"
    );
    assert_eq!(
        error_of(parse_strip("tEXt,all")),
        "'safe' or 'all' presets for --strip should be used by themselves"
    );
}

#[test]
fn strip_bad_name_is_refused() {
    assert_eq!(error_of(parse_strip("abc")), "Invalid chunk name abc");
    assert_eq!(error_of(parse_strip("tEXt,")), "Invalid chunk name ");
}

#[test]
fn keep_list_of_names() {
    assert_eq!(keep_names(parse_keep("eXIf,iTXt,eXIf")), vec![*b"eXIf", *b"iTXt"]);
}

#[test]
fn keep_display_adds_the_display_chunks() {
    let mut expected = vec![*b"eXIf"];
    expected.extend(display_chunks());
    assert_eq!(keep_names(parse_keep("eXIf,display")), expected);
    assert_eq!(keep_names(parse_keep("display,eXIf")), expected);
}

#[test]
fn keep_display_alone_is_like_strip_safe() {
    let kept = StripChunks::Keep(keep_names(parse_keep("display")));
    let safe = StripChunks::Safe;
    for name in [*b"cHRM", *b"gAMA", *b"iCCP", *b"sRGB", *b"tEXt", *b"eXIf", *b"pHYs", *b"zTXt"] {
        assert_eq!(kept.keep(&name), safe.keep(&name));
    }
}

#[test]
fn keep_bad_name_is_refused() {
    assert_eq!(error_of(parse_keep("eXIf,toolong")), "Invalid chunk name toolong");
}

#[test]
fn display_chunks_are_the_safe_ones() {
    let safe = StripChunks::Safe;
    let list = display_chunks();
    assert_eq!(list.len(), 9);
    for name in &list {
        assert!(safe.keep(name));
    }
}

#[test]
fn interlace_modes() {
    assert_eq!(parse_interlace_mode("off"), Some(0));
    assert_eq!(parse_interlace_mode("0"), Some(0));
    assert_eq!(parse_interlace_mode("on"), Some(1));
    assert_eq!(parse_interlace_mode("1"), Some(1));
    assert_eq!(parse_interlace_mode("keep"), None);
    assert_eq!(parse_interlace_mode("ON"), None);
}
