//! Values of every type, and texts.
use fdb_extract::extract::write_field_binary;
use fdb_extract::ods::{
    self, Desc, DTYPE_BLOB, DTYPE_BOOLEAN, DTYPE_CSTRING, DTYPE_DBKEY, DTYPE_DOUBLE, DTYPE_INT64,
    DTYPE_LONG, DTYPE_REAL, DTYPE_SHORT, DTYPE_SQL_DATE, DTYPE_SQL_TIME, DTYPE_TEXT,
    DTYPE_TIMESTAMP, DTYPE_VARYING,
};
use fdb_extract::ieee::scaled_to_bits;
use fdb_extract::win1252::win1252_to_utf8;

const NULL: [u8; 4] = [0xff; 4];

fn encode(rec: &[u8], dtype: u8, scale: i8, length: u16, offset: u32) -> Vec<u8> {
    let desc = Desc { dtype, scale, length, sub_type: 0, flags: 0, offset };
    let mut out = Vec::new();
    write_field_binary(rec, &desc, &mut out, &mut Vec::new());
    out
}

fn framed(value: &[u8]) -> Vec<u8> {
    let mut v = (value.len() as i32).to_be_bytes().to_vec();
    v.extend_from_slice(value);
    v
}

#[test]
fn numbers_keep_their_value() {
    let rec = (-7i16).to_le_bytes();
    assert_eq!(encode(&rec, DTYPE_SHORT, 0, 2, 0), framed(&(-7i16).to_be_bytes()));
    let rec = 42i32.to_le_bytes();
    assert_eq!(encode(&rec, DTYPE_LONG, 0, 4, 0), framed(&42i32.to_be_bytes()));
    let rec = i64::MIN.to_le_bytes();
    assert_eq!(encode(&rec, DTYPE_INT64, 0, 8, 0), framed(&i64::MIN.to_be_bytes()));
    let rec = 2.71828f32.to_le_bytes();
    assert_eq!(encode(&rec, DTYPE_REAL, 0, 4, 0), framed(&2.71828f32.to_be_bytes()));
    let rec = std::f64::consts::PI.to_le_bytes();
    assert_eq!(
        encode(&rec, DTYPE_DOUBLE, 0, 8, 0),
        framed(&[0x40, 0x09, 0x21, 0xFB, 0x54, 0x44, 0x2D, 0x18])
    );
}

#[test]
fn scaled_numbers_become_doubles() {
    let rec = 123456789i64.to_le_bytes();
    assert_eq!(encode(&rec, DTYPE_INT64, -2, 8, 0), framed(&1234567.89f64.to_be_bytes()));
    let rec = 42i32.to_le_bytes();
    assert_eq!(encode(&rec, DTYPE_LONG, -2, 4, 0), framed(&0.42f64.to_be_bytes()));
    let rec = (-15i16).to_le_bytes();
    assert_eq!(encode(&rec, DTYPE_SHORT, -1, 2, 0), framed(&(-1.5f64).to_be_bytes()));
}

#[test]
fn scaling_divides_as_doubles_do() {
    let values = [
        0i64, 1, -1, 3, 7, 10, 99, 100, 12345, 1 << 52, (1 << 53) - 1, 1 << 53, (1 << 53) + 1,
        (1 << 54) + 2, (1 << 54) + 6, i64::MAX, i64::MIN, i64::MAX - 1, -987654321987654321,
        9007199254740993, 9007199254740995, 1000000000000000000,
    ];
    for v in values {
        for k in 0..=18u8 {
            let want = (v as f64 / 10f64.powi(k as i32)).to_bits();
            assert_eq!(scaled_to_bits(v, k), want, "{v} / 10^{k}");
        }
    }
}

#[test]
fn dates_and_times_count_from_the_epoch() {
    let rec = 51544i32.to_le_bytes();
    assert_eq!(encode(&rec, DTYPE_SQL_DATE, 0, 4, 0), framed(&0i32.to_be_bytes()));
    let rec = 60000i32.to_le_bytes();
    assert_eq!(encode(&rec, DTYPE_SQL_DATE, 0, 4, 0), framed(&8456i32.to_be_bytes()));
    let rec = 378_451_234u32.to_le_bytes();
    assert_eq!(encode(&rec, DTYPE_SQL_TIME, 0, 4, 0), framed(&37_845_123_400i64.to_be_bytes()));
    let mut rec = 51545i32.to_le_bytes().to_vec();
    rec.extend_from_slice(&10_000u32.to_le_bytes());
    assert_eq!(
        encode(&rec, DTYPE_TIMESTAMP, 0, 8, 0),
        framed(&86_401_000_000i64.to_be_bytes())
    );
    let mut rec = 51543i32.to_le_bytes().to_vec();
    rec.extend_from_slice(&0u32.to_le_bytes());
    assert_eq!(
        encode(&rec, DTYPE_TIMESTAMP, 0, 8, 0),
        framed(&(-86_400_000_000i64).to_be_bytes())
    );
}

#[test]
fn texts_lose_their_blanks() {
    assert_eq!(encode(b"FIXED TEXT    ", DTYPE_TEXT, 0, 14, 0), framed(b"FIXED TEXT"));
    assert_eq!(encode(b"    ", DTYPE_TEXT, 0, 4, 0), framed(b""));
    assert_eq!(encode(b"ab\0\0", DTYPE_CSTRING, 0, 4, 0), framed(b"ab"));
    assert_eq!(encode(b"abc", DTYPE_TEXT, 0, 3, 3), NULL);
    assert_eq!(encode(b"\x05\0ab   ", DTYPE_VARYING, 0, 7, 0), framed(b"ab"));
    assert_eq!(encode(b"\x03\0   ", DTYPE_VARYING, 0, 5, 0), framed(b"   "));
    assert_eq!(encode(b"\x09\0ab", DTYPE_VARYING, 0, 5, 0), framed(b"ab"));
    assert_eq!(encode(b"\x09", DTYPE_VARYING, 0, 5, 0), NULL);
}

#[test]
fn booleans_keys_and_other_types() {
    assert_eq!(encode(&[7], DTYPE_BOOLEAN, 0, 1, 0), framed(&[1]));
    assert_eq!(encode(&[0], DTYPE_BOOLEAN, 0, 1, 0), framed(&[0]));
    assert_eq!(encode(&[], DTYPE_BOOLEAN, 0, 1, 0), NULL);
    let key = [0xDE, 0xAD, 0xBE, 0xEF, 0x01, 0x02, 0x03, 0x04];
    assert_eq!(encode(&key, DTYPE_DBKEY, 0, 8, 0), framed(&key));
    assert_eq!(encode(&key, DTYPE_DBKEY, 0, 8, 6), framed(&key[6..]));
    assert_eq!(encode(&key, DTYPE_BLOB, 0, 8, 0), NULL);
    assert_eq!(encode(&key, 0, 0, 0, 0), NULL);
}

#[test]
fn windows_characters_become_utf8() {
    let mut out = vec![9];
    win1252_to_utf8(b"plain", &mut out);
    assert_eq!(out, b"plain");
    win1252_to_utf8(b"a\0\xe7\xe3o \x80\x81\x9f\xff", &mut out);
    assert_eq!(out, "ação €\u{81}Ÿÿ".as_bytes());
    let all: Vec<u8> = (0..=255u8).collect();
    win1252_to_utf8(&all, &mut out);
    assert!(String::from_utf8(out).is_ok());
}

#[test]
fn descriptors_are_read_from_their_bytes() {
    let d = Desc::from_bytes(&[8, 0xfe, 2, 0, 0xff, 0xff, 1, 0, 4, 3, 2, 1]);
    assert_eq!((d.dtype, d.scale, d.length, d.sub_type, d.flags), (8, -2, 2, -1, 1));
    assert_eq!(d.offset, 0x01020304);
    let z = ods::Desc::default_zero();
    assert_eq!((z.dtype, z.scale, z.length, z.offset), (0, 0, 0, 0));
}
