use chromaprint_matcher::song::{Song, SongError};

#[test]
fn record_splits_into_duration_and_print() {
    let (d, p) = Song::parse_record("180 AQAATUmY").unwrap();
    assert_eq!(d, 180);
    assert_eq!(p, "AQAATUmY");
    assert_eq!(Song::parse_record("-3 x").unwrap(), (-3, "x".to_string()));
    assert_eq!(Song::parse_record("+7 ab").unwrap(), (7, "ab".to_string()));
    assert_eq!(Song::parse_record("2147483647 ab").unwrap().0, i32::MAX);
    assert_eq!(Song::parse_record("-2147483648 ab").unwrap().0, i32::MIN);
}

#[test]
fn record_needs_two_fields() {
    assert_eq!(Song::parse_record("180").unwrap_err(), SongError::FieldCount);
    assert_eq!(Song::parse_record("180 a b").unwrap_err(), SongError::FieldCount);
    assert_eq!(Song::parse_record("180  a").unwrap_err(), SongError::FieldCount);
    assert_eq!(Song::parse_record("").unwrap_err(), SongError::FieldCount);
}

#[test]
fn record_needs_integer_duration() {
    assert_eq!(Song::parse_record("abc x").unwrap_err(), SongError::BadDuration);
    assert_eq!(Song::parse_record(" x").unwrap_err(), SongError::BadDuration);
    assert_eq!(Song::parse_record("- x").unwrap_err(), SongError::BadDuration);
    assert_eq!(Song::parse_record("12a x").unwrap_err(), SongError::BadDuration);
    assert_eq!(Song::parse_record("2147483648 x").unwrap_err(), SongError::BadDuration);
    assert_eq!(Song::parse_record("-2147483649 x").unwrap_err(), SongError::BadDuration);
    assert_eq!(Song::parse_record("99999999999999999999 x").unwrap_err(), SongError::BadDuration);
}

#[test]
fn song_keeps_fields_and_decoded_print() {
    let song = Song::new("180 AQAATUmY", Some(vec![1, -2, 3])).unwrap();
    assert_eq!(song.duration, 180);
    assert_eq!(song.compressed_print, "AQAATUmY");
    assert_eq!(song.print, vec![1, -2, 3]);
}

#[test]
fn song_reports_each_error() {
    assert_eq!(Song::new("180 !!!!", None).err(), Some(SongError::Decode));
    assert_eq!(Song::new("180", Some(vec![1])).err(), Some(SongError::FieldCount));
    assert_eq!(Song::new("x y", Some(vec![1])).err(), Some(SongError::BadDuration));
    assert_eq!(Song::new("x", None).err(), Some(SongError::FieldCount));
}
